use ferro::{equal_ignoring_ascii_case, filter, filter_folded, is_substring, name_less, AppInfo};

fn catalog(names: &[&str]) -> Vec<AppInfo> {
    names.iter().map(|n| AppInfo::new(n.to_string(), format!("/apps/{}", n))).collect()
}

fn names(apps: &[AppInfo]) -> Vec<String> {
    apps.iter().map(|a| a.name.clone()).collect()
}

#[test]
fn filter_note_scenario() {
    let c = catalog(&["Calculator", "Notepad", "NotepadPlusPlus"]);
    assert_eq!(names(&filter(&c, "note")), vec!["Notepad", "NotepadPlusPlus"]);
}

#[test]
fn filter_empty_query_keeps_everything() {
    let c = catalog(&["Calculator", "Notepad", "NotepadPlusPlus"]);
    let r = filter(&c, "");
    assert_eq!(names(&r), names(&c));
    assert_eq!(r[1].path, "/apps/Notepad");
}

#[test]
fn filter_ignores_case_of_query() {
    let c = catalog(&["Calculator", "Notepad", "NotepadPlusPlus"]);
    assert_eq!(names(&filter(&c, "NOTE")), names(&filter(&c, "note")));
    assert_eq!(names(&filter(&c, "NOTE")), vec!["Notepad", "NotepadPlusPlus"]);
}

#[test]
fn filter_narrows_monotonically() {
    let c = catalog(&["Calculator", "Notepad", "NotepadPlusPlus", "Paint"]);
    let wide = names(&filter(&c, "pad"));
    let narrow = names(&filter(&c, "padplus"));
    assert_eq!(wide, vec!["Notepad", "NotepadPlusPlus"]);
    assert_eq!(narrow, vec!["NotepadPlusPlus"]);
    assert!(narrow.iter().all(|n| wide.contains(n)));
}

#[test]
fn filter_without_match_is_empty() {
    let c = catalog(&["Calculator", "Notepad"]);
    assert!(filter(&c, "zzz").is_empty());
}

#[test]
fn filter_folded_takes_query_as_given() {
    let c = catalog(&["Calculator", "Notepad"]);
    assert_eq!(names(&filter_folded(&c, "note")), vec!["Notepad"]);
    assert!(filter_folded(&c, "NOTE").is_empty());
}

#[test]
fn substring_search() {
    assert!(is_substring("notepad", "tep"));
    assert!(is_substring("notepad", ""));
    assert!(is_substring("", ""));
    assert!(!is_substring("note", "notepad"));
    assert!(!is_substring("notepad", "Note"));
    assert!(is_substring("aaab", "aab"));
}

#[test]
fn ordinal_name_order() {
    assert!(name_less("Apple", "Banana"));
    assert!(name_less("Zoo", "apple"));
    assert!(name_less("Note", "Notepad"));
    assert!(!name_less("Notepad", "Note"));
    assert!(!name_less("same", "same"));
    assert!(name_less("VS Code", "Visual Studio"));
}

#[test]
fn ascii_case_insensitive_equality() {
    assert!(equal_ignoring_ascii_case("LNK", "lnk"));
    assert!(equal_ignoring_ascii_case("lNk", "LnK"));
    assert!(!equal_ignoring_ascii_case("lnk", "lnkx"));
    assert!(!equal_ignoring_ascii_case("lnk", "url"));
}
