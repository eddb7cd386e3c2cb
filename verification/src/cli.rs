//! What the program does with its arguments.
use vstd::prelude::*;

use crate::html::{document_pieces, text_of, to_html};
use crate::page::{page_text, page_with};
use crate::path::{
    are_same_path, file_name, joined_path, law_a_name_in_a_directory, path_file_name, path_join,
    same_path,
};
use crate::routes::{asset_parent_dir, document_dir};
use crate::util::{file_title, title_of};

verus! {

/// What the program is asked to do.
#[derive(Debug, Clone, Copy, PartialEq, Eq, Structural)]
pub enum Mode {
    /// Write a page and exit.
    Export,
    /// Serve a file to a browser.
    Browser,
    /// Open windows.
    Native,
    /// None of these: a page or a browser takes exactly one file.
    Misuse,
}

/// What the program is asked to do by its options and so many files.
pub open spec fn mode_of(browser: bool, export: bool, files: nat) -> Mode {
    if (browser || export) && files != 1 {
        Mode::Misuse
    } else if export {
        Mode::Export
    } else if browser {
        Mode::Browser
    } else {
        Mode::Native
    }
}

/// What the program is asked to do by its options and so many files.
pub fn choose_mode(browser: bool, export: bool, files: usize) -> (r: Mode)
    ensures
        r == mode_of(browser, export, files as nat),
{
    if (browser || export) && files != 1 {
        Mode::Misuse
    } else if export {
        Mode::Export
    } else if browser {
        Mode::Browser
    } else {
        Mode::Native
    }
}

/// Whether files were given and none of them can be read, so that there is nothing
/// to open a window for.
pub fn nothing_to_show(given: usize, readable: usize) -> (r: bool)
    ensures
        r == (given > 0 && readable == 0),
{
    given > 0 && readable == 0
}

/// What has to be resolved to tell where `out` leads: itself where it exists, and
/// else its directory.
pub open spec fn output_probe(out: Seq<char>, exists: bool) -> Seq<char> {
    if exists {
        out
    } else {
        document_dir(out)
    }
}

/// Where `out` leads, given what [`output_probe`] resolves to.
pub open spec fn output_target(out: Seq<char>, exists: bool, resolved: Seq<char>) -> Seq<char> {
    if exists {
        resolved
    } else {
        joined_path(
            resolved,
            match file_name(out) {
                Some(n) => n,
                None => out,
            },
        )
    }
}

/// What has to be resolved to tell where `out` leads.
pub fn path_to_resolve(out: &str, exists: bool) -> (r: String)
    ensures
        r@ == output_probe(out@, exists),
{
    if exists {
        out.to_owned()
    } else {
        asset_parent_dir(out)
    }
}

/// Where `out` leads, given what [`path_to_resolve`] resolves to.
pub fn resolved_output(out: &str, exists: bool, resolved: &str) -> (r: String)
    ensures
        r@ == output_target(out@, exists, resolved@),
{
    if exists {
        resolved.to_owned()
    } else {
        let name = match path_file_name(out) {
            Some(n) => n,
            None => out.to_owned(),
        };
        path_join(resolved, name.as_str())
    }
}

/// A device and a file on it.
#[derive(Debug, Clone, Copy, PartialEq, Eq, Structural)]
pub struct FileId {
    pub device: u64,
    pub inode: u64,
}

/// Whether writing to `target` would overwrite `input`: they are the same path, or
/// the same file by another name.
pub open spec fn overwrites(
    target: Seq<char>,
    input: Seq<char>,
    target_id: Option<FileId>,
    input_id: Option<FileId>,
) -> bool {
    same_path(target, input) || (target_id is Some && target_id == input_id)
}

/// Whether writing to `target` would overwrite `input`. Both are resolved, and are
/// identified as far as the system does that.
pub fn is_same_file(
    target: &str,
    input: &str,
    target_id: Option<FileId>,
    input_id: Option<FileId>,
) -> (r: bool)
    ensures
        r == overwrites(target@, input@, target_id, input_id),
{
    if are_same_path(target, input) {
        return true;
    }
    match (target_id, input_id) {
        (Some(a), Some(b)) => a == b,
        _ => false,
    }
}

/// The page that the document at `file` is exported to: it stands on its own,
/// without scripts.
pub fn export_page(file: &str, markdown: &str, allow_remote_images: bool) -> (r: String)
    ensures
        r@ == page_text(
            title_of(file@),
            text_of(document_pieces(markdown@, false)),
            None,
            allow_remote_images,
            false,
        ),
{
    let title = file_title(file);
    let body = to_html(markdown);
    page_with(title.as_str(), body.as_str(), None, allow_remote_images, false)
}

/// A page or a browser takes exactly one file, and without either windows are opened,
/// for any number of files. An export comes before a browser.
pub proof fn law_options_and_files_make_a_mode(browser: bool, export: bool, files: nat)
    ensures
        mode_of(false, false, files) == Mode::Native,
        mode_of(browser, true, 1) == Mode::Export,
        mode_of(true, false, 1) == Mode::Browser,
        files != 1 ==> mode_of(true, export, files) == Mode::Misuse && mode_of(browser, true, files)
            == Mode::Misuse,
{
}

/// An output is refused where it has the path of the input or is the same file by its
/// numbers, and only there.
pub proof fn law_an_input_is_not_overwritten(
    target: Seq<char>,
    input: Seq<char>,
    a: FileId,
    b: FileId,
)
    ensures
        overwrites(input, input, None, None),
        overwrites(target, input, Some(a), Some(a)),
        same_path(target, input) ==> overwrites(target, input, Some(a), Some(b)),
        !same_path(target, input) && a != b ==> !overwrites(target, input, Some(a), Some(b)),
        !same_path(target, input) ==> !overwrites(target, input, None, None) && !overwrites(
            target,
            input,
            Some(a),
            None,
        ) && !overwrites(target, input, None, Some(b)),
{
}

/// An output that does not exist yet leads to its own name in the directory that it
/// is put in, and one that does to what it resolves to.
pub proof fn law_outputs_keep_their_names(out: Seq<char>, name: Seq<char>, resolved: Seq<char>)
    requires
        file_name(out) == Some(name),
    ensures
        output_target(out, false, resolved) == joined_path(resolved, name),
        output_target(out, true, resolved) == resolved,
        output_probe(out, true) == out,
{
}

/// Of an output that does not exist yet the directory is resolved, which is `.` where
/// the output is a name alone.
pub proof fn law_outputs_are_resolved_by_their_directory(dir: Seq<char>, name: Seq<char>)
    requires
        name.len() > 0,
        !name.contains('/'),
        name != "."@,
        name != ".."@,
        dir.len() > 0,
        dir == "/"@ || dir.last() != '/' && dir.last() != '.',
    ensures
        output_probe(joined_path(dir, name), false) == dir,
        output_probe(name, false) == "."@,
{
    reveal_strlit("");
    law_a_name_in_a_directory(dir, name);
    law_a_name_in_a_directory(""@, name);
}

} // verus!
