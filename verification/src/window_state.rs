//! Where the state of the window is kept.
use vstd::prelude::*;

use crate::path::{joined_path, path_join};
use crate::text::{chars_of, text_option, text_ref_option};

verus! {

/// Which rule for the configuration directory applies.
#[derive(Debug, Clone, Copy, PartialEq, Eq, Structural)]
pub enum Platform {
    Macos,
    Windows,
    /// Everything else: the XDG Base Directory rule.
    Other,
}

/// The value of an environment variable. An empty one counts as unset.
pub open spec fn set_value(value: Option<Seq<char>>) -> Option<Seq<char>> {
    match value {
        Some(v) if v.len() > 0 => Some(v),
        _ => None,
    }
}

/// The value of an environment variable. An empty one counts as unset.
fn value_if_set<'a>(value: Option<&'a str>) -> (r: Option<&'a str>)
    ensures
        text_ref_option(r) == set_value(text_ref_option(value)),
{
    match value {
        Some(v) => if chars_of(v).len() > 0 {
            Some(v)
        } else {
            None
        },
        None => None,
    }
}

/// The configuration file of a platform, given the values of the environment
/// variables that are set. An empty one counts as unset.
pub open spec fn config_file(
    platform: Platform,
    home: Option<Seq<char>>,
    xdg_config_home: Option<Seq<char>>,
    appdata: Option<Seq<char>>,
) -> Option<Seq<char>> {
    match platform {
        Platform::Macos => match set_value(home) {
            Some(dir) => Some(
                joined_path(dir, "Library/Application Support/mdview/window.json"@),
            ),
            None => None,
        },
        Platform::Windows => match set_value(appdata) {
            Some(dir) => Some(joined_path(dir, "mdview/window.json"@)),
            None => None,
        },
        Platform::Other => match (set_value(xdg_config_home), set_value(home)) {
            (Some(dir), _) => Some(joined_path(dir, "mdview/window.json"@)),
            (None, Some(dir)) => Some(
                joined_path(joined_path(dir, ".config"@), "mdview/window.json"@),
            ),
            (None, None) => None,
        },
    }
}

/// The configuration file of `platform`, given the values of `HOME`,
/// `XDG_CONFIG_HOME` and `APPDATA`, as far as they are set. An empty one counts as
/// unset.
///
/// - macOS: `<home>/Library/Application Support/mdview/window.json`.
/// - Windows: `mdview/window.json` in `<appdata>`.
/// - Other: `<xdg_config_home>/mdview/window.json`, or without that variable
///   `<home>/.config/mdview/window.json`.
pub fn config_path_for(
    platform: Platform,
    home: Option<&str>,
    xdg_config_home: Option<&str>,
    appdata: Option<&str>,
) -> (r: Option<String>)
    ensures
        text_option(r) == config_file(
            platform,
            text_ref_option(home),
            text_ref_option(xdg_config_home),
            text_ref_option(appdata),
        ),
{
    match platform {
        Platform::Macos => match value_if_set(home) {
            Some(dir) => Some(path_join(dir, "Library/Application Support/mdview/window.json")),
            None => None,
        },
        Platform::Windows => match value_if_set(appdata) {
            Some(dir) => Some(path_join(dir, "mdview/window.json")),
            None => None,
        },
        Platform::Other => match (value_if_set(xdg_config_home), value_if_set(home)) {
            (Some(dir), _) => Some(path_join(dir, "mdview/window.json")),
            (None, Some(dir)) => {
                let base = path_join(dir, ".config");
                Some(path_join(base.as_str(), "mdview/window.json"))
            },
            (None, None) => None,
        },
    }
}

/// The configuration file lies below the directory that the platform's variable
/// names, and nowhere where that is not set.
pub proof fn law_where_the_state_is_kept(dir: Seq<char>, other: Option<Seq<char>>)
    requires
        dir.len() > 0,
        dir.last() != '/',
    ensures
        config_file(Platform::Macos, Some(dir), other, other) == Some(
            dir + "/Library/Application Support/mdview/window.json"@,
        ),
        config_file(Platform::Windows, other, other, Some(dir)) == Some(
            dir + "/mdview/window.json"@,
        ),
        config_file(Platform::Other, other, Some(dir), other) == Some(
            dir + "/mdview/window.json"@,
        ),
        config_file(Platform::Other, Some(dir), None, other) == Some(
            dir + "/.config/mdview/window.json"@,
        ),
        config_file(Platform::Other, Some(dir), Some(seq![]), other) == config_file(
            Platform::Other,
            Some(dir),
            None,
            other,
        ),
        config_file(Platform::Macos, None, other, other) is None,
        config_file(Platform::Macos, Some(seq![]), other, other) is None,
        config_file(Platform::Windows, other, other, None) is None,
        config_file(Platform::Windows, other, other, Some(seq![])) is None,
        config_file(Platform::Other, None, None, other) is None,
{
    reveal_strlit("Library/Application Support/mdview/window.json");
    reveal_strlit("/Library/Application Support/mdview/window.json");
    reveal_strlit("mdview/window.json");
    reveal_strlit("/mdview/window.json");
    reveal_strlit("/.config/mdview/window.json");
    reveal_strlit(".config");
    assert(dir.push('/') + "Library/Application Support/mdview/window.json"@ =~= dir
        + "/Library/Application Support/mdview/window.json"@);
    assert(dir.push('/') + "mdview/window.json"@ =~= dir + "/mdview/window.json"@);
    let base = dir.push('/') + ".config"@;
    assert(base.last() == 'g');
    assert(base.push('/') + "mdview/window.json"@ =~= dir + "/.config/mdview/window.json"@);
}

} // verus!
