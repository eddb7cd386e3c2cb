use std::path::{Component, Path};

use markdown_remarkable::path::{
    are_same_path, is_plain_relative_on, is_plain_relative_path, is_within, name_stem, native_path,
    path_components, path_extension, path_file_name, path_has_extension, path_join, path_parent,
    path_with_name, portable_path,
};
use markdown_remarkable::review::{export_path, sidecar_path};
use markdown_remarkable::routes::tree_relative_path;
use markdown_remarkable::util::file_title;
use markdown_remarkable::window_state::Platform;

fn samples() -> Vec<&'static str> {
    vec![
        "",
        ".",
        "..",
        "/",
        "//",
        "/.",
        "a",
        "a.md",
        "a/",
        "a//",
        "a/.",
        "a/..",
        "./a",
        "./.",
        "../a",
        "a/b",
        "a//b",
        "a/./b",
        "a/../b.txt",
        "/a",
        "//a",
        "/a/b.tar.gz",
        "/a/b/",
        "/a/b/.",
        ".hidden",
        ".hidden.md",
        "dir/.hidden",
        "trailing.",
        "a.b/c",
        "メモ/日記.md",
        "with space/file name.md",
    ]
}

fn text(part: Component) -> String {
    part.as_os_str().to_str().unwrap().to_string()
}

#[test]
fn names_and_parents_are_those_of_std() {
    for sample in samples() {
        let path = Path::new(sample);
        let name = path.file_name().map(|n| n.to_str().unwrap().to_string());
        assert_eq!(path_file_name(sample), name, "{sample:?}");
        let parent = path.parent().map(|p| p.to_str().unwrap().to_string());
        assert_eq!(path_parent(sample), parent, "{sample:?}");
        let extension = path.extension().map(|e| e.to_str().unwrap().to_string());
        assert_eq!(path_extension(sample), extension, "{sample:?}");
        if let Some(name) = name {
            let stem = path.file_stem().unwrap().to_str().unwrap();
            assert_eq!(name_stem(&name), stem, "{sample:?}");
        }
    }
}

#[test]
fn components_are_those_of_std() {
    for sample in samples() {
        let expected: Vec<String> = Path::new(sample).components().map(text).collect();
        let found: Vec<String> = path_components(sample)
            .into_iter()
            .map(|part| part.into_iter().collect())
            .collect();
        assert_eq!(found, expected, "{sample:?}");
        // A `.` is dropped by std where it is not in front, and refused here.
        let plain = !sample.is_empty()
            && !sample.split('/').any(|piece| piece == ".")
            && Path::new(sample)
                .components()
                .all(|part| matches!(part, Component::Normal(_)));
        assert_eq!(is_plain_relative_path(sample), plain, "{sample:?}");
    }
}

#[test]
fn joining_and_comparing_are_those_of_std() {
    for a in samples() {
        for b in samples() {
            let joined = Path::new(a).join(b);
            assert_eq!(path_join(a, b), joined.to_str().unwrap(), "{a:?} {b:?}");
            let same = Path::new(a) == Path::new(b);
            assert_eq!(are_same_path(a, b), same, "{a:?} {b:?}");
            let within = Path::new(a).starts_with(b);
            assert_eq!(is_within(a, b), within, "{a:?} {b:?}");
        }
    }
}

#[test]
fn names_are_replaced_as_by_std() {
    for sample in samples() {
        let expected = Path::new(sample).with_file_name("new.md");
        assert_eq!(
            path_with_name(sample, "new.md"),
            expected.to_str().unwrap(),
            "{sample:?}"
        );
    }
}

#[test]
fn a_joined_name_is_taken_apart_again() {
    for dir in ["", "/", "a", "/a/b", "..", "メモ"] {
        let path = path_join(dir, "notes.md");
        assert_eq!(path_file_name(&path).as_deref(), Some("notes.md"));
        assert_eq!(path_parent(&path).as_deref(), Some(dir));
    }
}

#[test]
fn plain_paths_stay_plain_when_a_name_is_put_behind() {
    let mut path = String::from("a");
    for name in ["b", ".hidden", "c.d", "notes.MD"] {
        path = format!("{path}/{name}");
        assert!(is_plain_relative_path(&path));
    }
    assert_eq!(path, "a/b/.hidden/c.d/notes.MD");
    assert!(path_has_extension(&path, "md"));
}

#[test]
fn exports_and_sidecars_lie_beside_the_document() {
    assert_eq!(export_path("notes.md"), "notes.review.md");
    assert_eq!(export_path("/a/b.tar.gz"), "/a/b.tar.review.md");
    assert_eq!(export_path("/a/x.review.md"), "/a/x.review.review.md");
    assert_eq!(export_path("/a/.md"), "/a/.md.review.md");
    assert_eq!(export_path(".."), "../...review.md");
    assert_eq!(sidecar_path("dir/.."), "dir/...review.json");
    for md in ["notes.md", "/a/b.tar.gz", "/a/x.review.md", "/a/.md", "review.md"] {
        let out = export_path(md);
        assert_ne!(path_file_name(&out), path_file_name(md));
        assert_eq!(path_parent(&out), path_parent(md));
    }
}

#[test]
fn titles_and_relative_paths_name_no_directories_above() {
    assert_eq!(file_title("/home/alice/notes.md"), "notes.md");
    assert_eq!(file_title("/"), "/");
    assert_eq!(tree_relative_path("/r/sub/c.md", "/r"), "sub/c.md");
    assert_eq!(tree_relative_path("/r//sub/./c.md", "/r/"), "sub/c.md");
    assert_eq!(tree_relative_path("/elsewhere/c.md", "/r"), "c.md");
    assert_eq!(tree_relative_path("/rest/c.md", "/r"), "c.md");
    assert_eq!(tree_relative_path("./doc.md", "."), "doc.md");
}

#[test]
fn a_dot_anywhere_makes_a_path_not_plain() {
    for path in ["./a.md", "a/./b.md", "a/.", "."] {
        assert!(!is_plain_relative_path(path), "{path:?}");
    }
    for path in ["a.md", ".a.md", "a/.b/c.md", "a/b./c.md"] {
        assert!(is_plain_relative_path(path), "{path:?}");
    }
}

#[test]
fn windows_paths_are_brought_into_one_form() {
    let windows = Platform::Windows;
    assert_eq!(portable_path(&["C:", "notes.md"].join("\\"), windows), "C:/notes.md");
    let resolved = portable_path(&[r"\\?\C:", "docs", "notes.md"].join("\\"), windows);
    assert_eq!(resolved, "C:/docs/notes.md");
    assert_eq!(file_title(&resolved), "notes.md");
    let share = portable_path(&[r"\\?\UNC", "server", "share", "a.md"].join("\\"), windows);
    assert_eq!(share, "//server/share/a.md");
    let elsewhere = ["a", "b.md"].join("\\");
    assert_eq!(portable_path(&elsewhere, Platform::Other), elsewhere);
    assert_eq!(portable_path(&elsewhere, Platform::Macos), elsewhere);

    assert_eq!(path_parent("C:/notes.md"), Some("C:".to_string()));
    assert_eq!(native_path("C:", windows), "C:/");
    assert_eq!(native_path("C:/docs", windows), "C:/docs");
    assert_eq!(native_path("C:", Platform::Other), "C:");
}

#[test]
fn a_drive_is_not_plain_on_windows() {
    for path in ["C:x.png", "z:/x.png"] {
        assert!(!is_plain_relative_on(path, Platform::Windows), "{path:?}");
        assert!(is_plain_relative_on(path, Platform::Other), "{path:?}");
    }
    assert!(is_plain_relative_on("1:x.png", Platform::Windows));
    assert!(is_plain_relative_on("a/b.png", Platform::Windows));
}
