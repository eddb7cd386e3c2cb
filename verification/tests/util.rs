use markdown_remarkable::util::{file_kind, FileKind};

#[test]
fn file_kind_recognizes_markdown_extensions() {
    assert_eq!(file_kind("a.md"), Some(FileKind::Markdown));
    assert_eq!(file_kind("a.markdown"), Some(FileKind::Markdown));
}

#[test]
fn file_kind_recognizes_a_txt_extension() {
    assert_eq!(file_kind("a.txt"), Some(FileKind::PlainText));
}

#[test]
fn file_kind_ignores_extension_case() {
    assert_eq!(file_kind("A.MD"), Some(FileKind::Markdown));
    assert_eq!(file_kind("a.MarkDown"), Some(FileKind::Markdown));
    assert_eq!(file_kind("a.TXT"), Some(FileKind::PlainText));
}

#[test]
fn file_kind_rejects_unknown_or_missing_extensions() {
    assert_eq!(file_kind("a.rs"), None);
    assert_eq!(file_kind("a.mdx"), None);
    assert_eq!(file_kind("README"), None);
    assert_eq!(file_kind(".hidden"), None);
}
