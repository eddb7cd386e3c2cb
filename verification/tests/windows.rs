use markdown_remarkable::routes::NavDirection;
use markdown_remarkable::shell::{
    canonical_or_given, kept_root, markdown_files, menu_command, navigation_policy, window_title,
    zoom_script, Due, MenuCommand, Navigation, Plan, Shell, Wake, ZoomDir,
};

#[test]
fn a_start_without_files_asks_for_one_after_a_while() {
    let mut shell = Shell::new(true, 1000);
    assert_eq!(shell.wake(), Wake::At(1400));
    assert_eq!(shell.tick(1399), Due::Nothing);
    assert_eq!(shell.tick(1400), Due::Picker);
    assert_eq!(shell.tick(5000), Due::Nothing);
    assert_eq!(shell.wake(), Wake::Never);
}

#[test]
fn a_file_that_arrives_first_is_not_asked_for() {
    let mut shell = Shell::new(true, 0);
    assert_eq!(shell.find_empty_window(), Some(0));
    assert_eq!(shell.open(Some(0), "/a.md", 10), Plan::Show(0));
    assert_eq!(shell.wake(), Wake::Never);
    assert_eq!(shell.find_empty_window(), None);
    assert_eq!(shell.file_of(0), Some("/a.md"));
}

#[test]
fn a_file_is_never_open_in_two_windows() {
    let mut shell = Shell::new(false, 0);
    assert_eq!(shell.open(None, "/a.md", 0), Plan::Make(0));
    assert_eq!(shell.open(None, "/b.md", 1), Plan::Make(1));
    assert_eq!(shell.open(Some(1), "/a.md", 2), Plan::Focus(0));
    assert_eq!(shell.open(Some(1), "/./a.md", 2), Plan::Focus(0));
    assert_eq!(shell.open(Some(1), "/c.md", 3), Plan::Make(2));
    let files: Vec<_> = (0..3).map(|id| shell.file_of(id)).collect();
    assert_eq!(files, vec![Some("/a.md"), Some("/b.md"), Some("/c.md")]);
}

#[test]
fn an_unknown_target_gets_a_new_window() {
    let mut shell = Shell::new(false, 0);
    assert_eq!(shell.open(Some(7), "/a.md", 0), Plan::Make(0));
    assert_eq!(shell.switch(9, "/b.md"), Plan::Nothing);
    assert_eq!(shell.navigate(9, NavDirection::Back), Plan::Nothing);
    assert_eq!(shell.file_of(9), None);
    assert_eq!(shell.nav_of(9), None);
}

#[test]
fn links_and_steps_move_through_the_history_of_a_window() {
    let mut shell = Shell::new(false, 0);
    shell.open(None, "/a.md", 0);
    assert_eq!(shell.nav_of(0), Some((false, false)));
    assert_eq!(shell.switch(0, "/b.md"), Plan::Show(0));
    assert_eq!(shell.nav_of(0), Some((true, false)));
    assert_eq!(shell.navigate(0, NavDirection::Back), Plan::Show(0));
    assert_eq!(shell.file_of(0), Some("/a.md"));
    assert_eq!(shell.nav_of(0), Some((false, true)));
    assert_eq!(shell.navigate(0, NavDirection::Back), Plan::Nothing);
    assert_eq!(shell.navigate(0, NavDirection::Forward), Plan::Show(0));
    assert_eq!(shell.file_of(0), Some("/b.md"));
}

#[test]
fn a_link_to_a_file_shown_elsewhere_leaves_the_history_alone() {
    let mut shell = Shell::new(false, 0);
    shell.open(None, "/a.md", 0);
    shell.open(None, "/b.md", 0);
    assert_eq!(shell.switch(0, "/b.md"), Plan::Focus(1));
    assert_eq!(shell.file_of(0), Some("/a.md"));
    assert_eq!(shell.nav_of(0), Some((false, false)));
}

#[test]
fn a_step_to_a_file_shown_elsewhere_is_undone() {
    let mut shell = Shell::new(false, 0);
    shell.open(None, "/a.md", 0);
    shell.switch(0, "/b.md");
    assert_eq!(shell.open(None, "/a.md", 0), Plan::Make(1));
    assert_eq!(shell.navigate(0, NavDirection::Back), Plan::Focus(1));
    assert_eq!(shell.file_of(0), Some("/b.md"));
    assert_eq!(shell.nav_of(0), Some((true, false)));
}

#[test]
fn a_window_that_rests_has_its_place_kept() {
    let mut shell = Shell::new(false, 0);
    shell.open(None, "/a.md", 0);
    shell.moved(0, 999);
    assert_eq!(shell.wake(), Wake::Never);
    shell.moved(0, 1000);
    assert_eq!(shell.wake(), Wake::At(1500));
    shell.moved(0, 1200);
    assert_eq!(shell.tick(1500), Due::Nothing);
    assert_eq!(shell.tick(1700), Due::Save(0));
    assert_eq!(shell.tick(9000), Due::Nothing);
}

#[test]
fn a_closed_window_has_no_place_to_keep() {
    let mut shell = Shell::new(false, 0);
    shell.open(None, "/a.md", 0);
    shell.open(None, "/b.md", 0);
    shell.moved(1, 2000);
    assert!(!shell.close(1));
    assert_eq!(shell.wake(), Wake::Never);
    assert!(shell.close(0));
    assert_eq!(shell.frontmost(None), None);
}

#[test]
fn the_earlier_of_two_deadlines_comes_first() {
    let mut shell = Shell::new(true, 2000);
    shell.moved(0, 2100);
    assert_eq!(shell.wake(), Wake::At(2400));
    let mut old = Shell::new(true, 0);
    old.moved(0, 5000);
    assert_eq!(old.wake(), Wake::At(400));
    assert_eq!(old.tick(6000), Due::Picker);
    assert_eq!(old.tick(6000), Due::Save(0));
}

#[test]
fn the_focused_or_else_the_newest_window_is_in_front() {
    let mut shell = Shell::new(false, 0);
    shell.open(None, "/a.md", 5);
    shell.open(None, "/b.md", 9);
    shell.open(None, "/c.md", 9);
    assert_eq!(shell.frontmost(Some(0)), Some(0));
    assert_eq!(shell.frontmost(None), Some(2));
    assert_eq!(shell.frontmost(Some(77)), Some(2));
    shell.close(2);
    assert_eq!(shell.frontmost(None), Some(1));
}

#[test]
fn pages_go_to_the_application_alone() {
    let own = "mdview://";
    assert_eq!(navigation_policy("mdview://localhost/", own), Navigation::Inside);
    for url in ["http://x", "https://x", "mailto:a@b"] {
        assert_eq!(navigation_policy(url, own), Navigation::Outside);
    }
    for url in ["file:///etc", "HTTP://x", "ftp://x", ""] {
        assert_eq!(navigation_policy(url, own), Navigation::Refused);
    }
}

#[test]
fn menu_items_ask_for_what_they_name() {
    assert_eq!(menu_command("open"), Some(MenuCommand::PickFile));
    assert_eq!(menu_command("zoom-in"), Some(MenuCommand::Zoom(ZoomDir::In)));
    assert_eq!(menu_command("zoom-out"), Some(MenuCommand::Zoom(ZoomDir::Out)));
    assert_eq!(menu_command("zoom-reset"), Some(MenuCommand::Zoom(ZoomDir::Reset)));
    assert_eq!(menu_command("reload"), Some(MenuCommand::Reload));
    assert_eq!(menu_command("quit"), None);
}

#[test]
fn zooming_runs_a_script_in_the_page() {
    assert_eq!(
        zoom_script(ZoomDir::Out),
        "window.__mdviewViewer && window.__mdviewViewer.zoom('out')"
    );
    assert_eq!(ZoomDir::In.as_js_arg(), "in");
    assert_eq!(ZoomDir::Reset.as_js_arg(), "reset");
}

#[test]
fn windows_are_titled_after_their_files() {
    assert_eq!(window_title(Some("/a/notes.md")), "notes.md — mdview");
    assert_eq!(window_title(None), "mdview");
}

#[test]
fn the_markdown_files_of_a_drop_are_taken() {
    let paths = |list: &[&str]| list.iter().map(|p| p.to_string()).collect::<Vec<_>>();
    assert_eq!(
        markdown_files(&paths(&["a.txt", "b.MD", "md", "c.markdown"])),
        paths(&["b.MD", "c.markdown"])
    );
    assert!(markdown_files(&paths(&["a.txt", ".md"])).is_empty());
    assert!(markdown_files(&paths(&[])).is_empty());
}

#[test]
fn of_several_dropped_files_the_first_fills_an_empty_window() {
    let mut shell = Shell::new(true, 0);
    assert_eq!(shell.open(Some(0), "/a.md", 0), Plan::Show(0));
    assert_eq!(shell.open(Some(0), "/b.md", 0), Plan::Make(1));
    assert_eq!(shell.open(Some(0), "/c.md", 0), Plan::Make(2));
}

#[test]
fn a_path_that_does_not_resolve_stands_for_itself() {
    assert_eq!(canonical_or_given("a.md", Some("/x/a.md".to_string())), "/x/a.md");
    assert_eq!(canonical_or_given("a.md", None), "a.md");
}

#[test]
fn a_visit_is_undone_by_going_back() {
    let mut shell = Shell::new(false, 0);
    shell.open(None, "/v0.md", 0);
    for visit in 1..70 {
        let before = shell.file_of(0).unwrap().to_string();
        shell.switch(0, &format!("/v{visit}.md"));
        assert_eq!(shell.nav_of(0), Some((true, false)));
        shell.navigate(0, NavDirection::Back);
        assert_eq!(shell.file_of(0), Some(before.as_str()));
        shell.navigate(0, NavDirection::Forward);
        assert_eq!(shell.file_of(0), Some(format!("/v{visit}.md").as_str()));
    }
    shell.switch(0, "/v69.md");
    assert_eq!(shell.nav_of(0), Some((true, false)));
}

#[test]
fn a_window_stays_in_the_directory_of_its_first_file() {
    let text = |s: &str| Some(s.to_string());
    let root = kept_root(None, None);
    assert_eq!(root, None);
    let root = kept_root(root, text("/docs"));
    assert_eq!(root, text("/docs"));
    assert_eq!(kept_root(root.clone(), text("/docs/sub")), text("/docs"));
    assert_eq!(kept_root(root, None), text("/docs"));
}
