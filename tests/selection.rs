use ferro::{Action, AppInfo, Effect, FerroApp, Keys, Selection};

fn view(n: usize) -> Vec<AppInfo> {
    (0..n).map(|i| AppInfo::new(format!("App{}", i), format!("/apps/{}", i))).collect()
}

fn no_keys() -> Keys {
    Keys { down: false, up: false, enter: false, escape: false }
}

#[test]
fn move_down_stops_at_last_row() {
    let mut s = Selection { index: 2 };
    s.move_down(3);
    assert_eq!(s.index, 2);
    let mut s = Selection { index: 1 };
    s.move_down(3);
    assert_eq!(s.index, 2);
}

#[test]
fn move_up_stops_at_top() {
    let mut s = Selection::new();
    s.move_up();
    assert_eq!(s.index, 0);
    let mut s = Selection { index: 2 };
    s.move_up();
    assert_eq!(s.index, 1);
}

#[test]
fn clamp_after_view_shrinks() {
    let mut s = Selection { index: 3 };
    s.clamp(1);
    assert_eq!(s.index, 0);
}

#[test]
fn clamp_keeps_index_in_range() {
    for n in 1..6usize {
        for i in 0..8usize {
            let mut s = Selection { index: i };
            s.clamp(n);
            assert!(s.index < n);
            if i < n {
                assert_eq!(s.index, i);
            }
        }
    }
    let mut s = Selection { index: 4 };
    s.clamp(0);
    assert_eq!(s.index, 4);
}

#[test]
fn activate_on_empty_view_launches_nothing() {
    let s = Selection::new();
    assert!(s.activate(&view(0)).is_none());
    let mut s = Selection::new();
    assert!(matches!(s.apply(Action::Activate, &view(0)), Effect::Nothing));
}

#[test]
fn activate_launches_entry_under_cursor() {
    let mut s = Selection { index: 1 };
    match s.apply(Action::Activate, &view(3)) {
        Effect::Launch(app) => {
            assert_eq!(app.name, "App1");
            assert_eq!(app.path, "/apps/1");
        }
        _ => panic!("expected a launch"),
    }
    assert_eq!(s.index, 1);
}

#[test]
fn cancel_hides_and_keeps_index() {
    let mut s = Selection { index: 2 };
    assert!(matches!(s.apply(Action::Cancel, &view(3)), Effect::Hide));
    assert_eq!(s.index, 2);
}

#[test]
fn apply_moves_without_wrapping() {
    let v = view(2);
    let mut s = Selection::new();
    assert!(matches!(s.apply(Action::MoveUp, &v), Effect::Nothing));
    assert_eq!(s.index, 0);
    s.apply(Action::MoveDown, &v);
    assert_eq!(s.index, 1);
    s.apply(Action::MoveDown, &v);
    assert_eq!(s.index, 1);
}

#[test]
fn default_launcher_holds_sample_catalog() {
    let app = FerroApp::default();
    let names: Vec<&str> = app.all_apps.iter().map(|a| a.name.as_str()).collect();
    assert_eq!(
        names,
        vec![
            "Calculator", "Chrome", "Firefox", "Notepad", "Spotify", "Steam", "Terminal",
            "VLC Media Player", "VS Code", "Visual Studio", "Word", "Xbox", "Zoom"
        ]
    );
    assert_eq!(app.search_query, "");
    assert_eq!(app.selection.index, 0);
    for w in app.all_apps.windows(2) {
        assert!(w[0].name < w[1].name);
    }
}

#[test]
fn update_with_empty_query_shows_whole_catalog() {
    let mut app = FerroApp::default();
    let f = app.update(no_keys());
    assert_eq!(f.view.len(), 13);
    assert_eq!(f.view[7].name, "VLC Media Player");
}

#[test]
fn update_filters_moves_and_launches() {
    let mut app = FerroApp::default();
    app.set_query("S".to_string());
    let f = app.update(Keys { down: true, ..no_keys() });
    let shown: Vec<&str> = f.view.iter().map(|a| a.name.as_str()).collect();
    assert_eq!(shown, vec!["Spotify", "Steam", "VS Code", "Visual Studio"]);
    assert_eq!(app.selection.index, 1);
    assert!(f.launch.is_none());
    assert!(!f.hide);
    let f = app.update(Keys { enter: true, ..no_keys() });
    assert_eq!(f.launch.map(|a| a.name), Some("Steam".to_string()));
}

#[test]
fn update_clamps_when_query_narrows() {
    let mut app = FerroApp::default();
    app.set_query("s".to_string());
    for _ in 0..3 {
        app.update(Keys { down: true, ..no_keys() });
    }
    assert_eq!(app.selection.index, 3);
    app.set_query("steam".to_string());
    let f = app.update(no_keys());
    assert_eq!(f.view.len(), 1);
    assert_eq!(app.selection.index, 0);
}

#[test]
fn update_on_empty_view_launches_nothing_and_escape_hides() {
    let mut app = FerroApp::default();
    app.set_query("no such app".to_string());
    let f = app.update(Keys { enter: true, escape: true, ..no_keys() });
    assert!(f.view.is_empty());
    assert!(f.launch.is_none());
    assert!(f.hide);
}

#[test]
fn update_with_both_arrows_prefers_down() {
    let mut app = FerroApp::new(vec![
        AppInfo::new("A".to_string(), "/a".to_string()),
        AppInfo::new("B".to_string(), "/b".to_string()),
    ]);
    app.update(Keys { down: true, up: true, ..no_keys() });
    assert_eq!(app.selection.index, 1);
    app.update(Keys { down: true, up: true, ..no_keys() });
    assert_eq!(app.selection.index, 0);
}
