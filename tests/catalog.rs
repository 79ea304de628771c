use ferro::{default_exclusions, default_extensions, discover, hits_exclusion, split_file_name, AppInfo, FoundFile};

fn file(dir: &str, name: &str) -> FoundFile {
    FoundFile { path: format!("{}/{}", dir, name), file_name: name.to_string() }
}

fn names(apps: &[AppInfo]) -> Vec<String> {
    apps.iter().map(|a| a.name.clone()).collect()
}

fn lnk_only() -> (Vec<String>, Vec<String>) {
    (vec!["lnk".to_string()], vec!["uninstall".to_string()])
}

#[test]
fn discover_keeps_shortcuts_and_drops_uninstallers() {
    let (exts, excl) = lnk_only();
    let files = vec![file("d", "Foo.lnk"), file("d", "FooUninstall.lnk"), file("d", "Bar.txt")];
    let apps = discover(&files, &exts, &excl);
    assert_eq!(names(&apps), vec!["Foo"]);
    assert_eq!(apps[0].path, "d/Foo.lnk");
}

#[test]
fn discover_dedups_across_directories_keeping_first_found() {
    let (exts, excl) = lnk_only();
    let files = vec![file("user", "Foo.lnk"), file("system", "Foo.lnk")];
    let apps = discover(&files, &exts, &excl);
    assert_eq!(apps.len(), 1);
    assert_eq!(apps[0].name, "Foo");
    assert_eq!(apps[0].path, "user/Foo.lnk");
}

#[test]
fn discover_sorts_by_ordinal_name() {
    let (exts, excl) = lnk_only();
    let files = vec![
        file("d", "Zoom.lnk"),
        file("d", "VS Code.lnk"),
        file("d", "Visual Studio.lnk"),
        file("d", "VLC Media Player.lnk"),
        file("d", "calc.lnk"),
        file("d", "Calculator.lnk"),
        file("d", "Zoom.lnk"),
    ];
    let apps = discover(&files, &exts, &excl);
    assert_eq!(
        names(&apps),
        vec!["Calculator", "VLC Media Player", "VS Code", "Visual Studio", "Zoom", "calc"]
    );
    for w in apps.windows(2) {
        assert!(w[0].name < w[1].name);
    }
}

#[test]
fn discover_matches_extension_ignoring_case() {
    let (exts, excl) = lnk_only();
    let files = vec![file("d", "Paint.LNK"), file("d", "Mail.Lnk"), file("d", "notes.lnk.bak")];
    let apps = discover(&files, &exts, &excl);
    assert_eq!(names(&apps), vec!["Mail", "Paint"]);
}

#[test]
fn discover_exclusion_ignores_case() {
    let (exts, excl) = lnk_only();
    let files = vec![file("d", "UNINSTALL Tool.lnk"), file("d", "Tool.lnk")];
    let apps = discover(&files, &exts, &excl);
    assert_eq!(names(&apps), vec!["Tool"]);
}

#[test]
fn discover_skips_names_without_extension() {
    let (exts, excl) = lnk_only();
    let files = vec![file("d", ".lnk"), file("d", "lnk"), file("d", "a.b.lnk")];
    let apps = discover(&files, &exts, &excl);
    assert_eq!(names(&apps), vec!["a.b"]);
}

#[test]
fn discover_of_nothing_is_empty() {
    let (exts, excl) = lnk_only();
    assert!(discover(&Vec::new(), &exts, &excl).is_empty());
}

#[test]
fn default_configuration() {
    assert_eq!(default_extensions(), vec!["lnk".to_string()]);
    assert_eq!(default_exclusions(), vec!["uninstall".to_string()]);
}

#[test]
fn split_file_name_cases() {
    assert_eq!(split_file_name("Foo.lnk"), ("Foo".to_string(), Some("lnk".to_string())));
    assert_eq!(split_file_name("a.b.c"), ("a.b".to_string(), Some("c".to_string())));
    assert_eq!(split_file_name(".profile"), (".profile".to_string(), None));
    assert_eq!(split_file_name("README"), ("README".to_string(), None));
    assert_eq!(split_file_name("x."), ("x".to_string(), Some(String::new())));
    assert_eq!(split_file_name(""), (String::new(), None));
}

#[test]
fn exclusion_check_on_folded_names() {
    let excl = vec!["uninstall".to_string(), "setup".to_string()];
    assert!(hits_exclusion("foouninstall", &excl));
    assert!(hits_exclusion("game setup", &excl));
    assert!(!hits_exclusion("foo", &excl));
    assert!(!hits_exclusion("fooUninstall", &excl));
    assert!(!hits_exclusion("anything", &Vec::new()));
}
