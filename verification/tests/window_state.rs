use markdown_remarkable::window_state::{config_path_for, Platform};

#[test]
fn macos_path_is_under_application_support() {
    let path = config_path_for(Platform::Macos, Some("/Users/alice"), None, None);
    assert_eq!(
        path,
        Some("/Users/alice/Library/Application Support/mdview/window.json".to_string())
    );
}

#[test]
fn macos_path_is_none_without_home() {
    assert_eq!(config_path_for(Platform::Macos, None, None, None), None);
}

#[test]
fn windows_path_is_under_appdata() {
    let path = config_path_for(
        Platform::Windows,
        None,
        None,
        Some(r"C:\Users\alice\AppData\Roaming"),
    );
    assert_eq!(
        path,
        Some(r"C:\Users\alice\AppData\Roaming/mdview/window.json".to_string())
    );
}

#[test]
fn windows_path_is_none_without_appdata() {
    assert_eq!(
        config_path_for(
            Platform::Windows,
            Some("/home/alice"),
            None,
            None
        ),
        None
    );
}

#[test]
fn other_path_prefers_xdg_config_home() {
    let path = config_path_for(
        Platform::Other,
        Some("/home/alice"),
        Some("/custom/config"),
        None,
    );
    assert_eq!(
        path,
        Some("/custom/config/mdview/window.json".to_string())
    );
}

#[test]
fn other_path_falls_back_to_home_dot_config() {
    let path = config_path_for(Platform::Other, Some("/home/alice"), None, None);
    assert_eq!(
        path,
        Some("/home/alice/.config/mdview/window.json".to_string())
    );
}

#[test]
fn other_path_is_none_without_home_or_xdg() {
    assert_eq!(config_path_for(Platform::Other, None, None, None), None);
}

#[test]
fn an_empty_variable_counts_as_unset() {
    let home = Some("/home/alice");
    for platform in [Platform::Macos, Platform::Windows, Platform::Other] {
        assert_eq!(config_path_for(platform, Some(""), Some(""), Some("")), None);
    }
    assert_eq!(
        config_path_for(Platform::Other, home, Some(""), None),
        Some("/home/alice/.config/mdview/window.json".to_string())
    );
}
