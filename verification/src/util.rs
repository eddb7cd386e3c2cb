//! What a path says about the document it names.
use vstd::prelude::*;

use crate::path::{
    file_name, has_extension, joined_path, law_a_name_in_a_directory, path_file_name,
    path_has_extension,
};

verus! {

/// The title of a document: its file name, or the whole path where it has none.
pub open spec fn title_of(path: Seq<char>) -> Seq<char> {
    match file_name(path) {
        Some(name) => name,
        None => path,
    }
}

/// The title of a document: its file name, or the whole path where it has none.
pub fn file_title(path: &str) -> (r: String)
    ensures
        r@ == title_of(path@),
{
    match path_file_name(path) {
        Some(name) => name,
        None => path.to_owned(),
    }
}

/// Which kind of document a path names.
#[derive(Debug, Clone, Copy, PartialEq, Eq, Structural)]
pub enum FileKind {
    /// `.md` or `.markdown`.
    Markdown,
    /// `.txt`, shown verbatim.
    PlainText,
}

/// The kind of document that a path names, by its extension alone and whatever
/// the case of its letters.
pub open spec fn kind_of(path: Seq<char>) -> Option<FileKind> {
    if has_extension(path, "md"@) || has_extension(path, "markdown"@) {
        Some(FileKind::Markdown)
    } else if has_extension(path, "txt"@) {
        Some(FileKind::PlainText)
    } else {
        None
    }
}

/// The kind of document that `path` names, or `None` where its extension is not
/// one that this application opens.
pub fn file_kind(path: &str) -> (r: Option<FileKind>)
    ensures
        r == kind_of(path@),
{
    if is_markdown_file(path) {
        Some(FileKind::Markdown)
    } else if path_has_extension(path, "txt") {
        Some(FileKind::PlainText)
    } else {
        None
    }
}

/// Whether a path names a Markdown file.
pub open spec fn is_markdown(path: Seq<char>) -> bool {
    has_extension(path, "md"@) || has_extension(path, "markdown"@)
}

/// Whether `path` names a Markdown file.
pub fn is_markdown_file(path: &str) -> (r: bool)
    ensures
        r == is_markdown(path@),
{
    path_has_extension(path, "md") || path_has_extension(path, "markdown")
}

/// A document in a directory has the name of its file for a title.
pub proof fn law_a_title_is_a_name(dir: Seq<char>, name: Seq<char>)
    requires
        name.len() > 0,
        !name.contains('/'),
        name != "."@,
        name != ".."@,
        dir.len() > 0 ==> dir == "/"@ || dir.last() != '/' && dir.last() != '.',
    ensures
        title_of(joined_path(dir, name)) == name,
        title_of(name) == name,
        kind_of(joined_path(dir, name)) == kind_of(name),
        is_markdown(joined_path(dir, name)) == is_markdown(name),
{
    reveal_strlit("");
    law_a_name_in_a_directory(dir, name);
    law_a_name_in_a_directory(""@, name);
}

/// A path whose last component is no name is its own title.
pub proof fn law_a_title_is_a_path(path: Seq<char>)
    requires
        file_name(path) is None,
    ensures
        title_of(path) == path,
        kind_of(path) is None,
{
}

} // verus!
