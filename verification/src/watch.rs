//! Which changes in a directory are changes of the document that is shown.
use vstd::prelude::*;

use crate::path::{
    are_same_path, joined_path, law_a_name_in_a_directory, law_paths_without_a_name, parent,
    path_parent, same_path,
};

verus! {

/// What happened to files.
#[derive(Debug, Clone, Copy, PartialEq, Eq, Structural)]
pub enum ChangeKind {
    Create,
    Modify,
    Remove,
    /// Anything else.
    Other,
}

/// A path that something happened to, and what it resolves to where it does.
pub struct ChangedPath {
    pub path: String,
    pub resolved: Option<String>,
}

/// Whether a changed path is the document at `target`.
pub open spec fn is_target(changed: ChangedPath, target: Seq<char>) -> bool {
    same_path(changed.path@, target) || (changed.resolved matches Some(r) && same_path(r@, target))
}

/// Whether a change is one of the document at `target`: one of its paths is the
/// document, and it was created, modified or removed.
pub open spec fn touches_target(
    kind: ChangeKind,
    changed: Seq<ChangedPath>,
    target: Seq<char>,
) -> bool {
    kind != ChangeKind::Other && exists|i: int|
        0 <= i < changed.len() && is_target(#[trigger] changed[i], target)
}

/// Whether a change is one of the document at `target`.
pub fn changes_document(kind: ChangeKind, changed: &Vec<ChangedPath>, target: &str) -> (r: bool)
    ensures
        r == touches_target(kind, changed@, target@),
{
    if kind == ChangeKind::Other {
        return false;
    }
    let mut i: usize = 0;
    while i < changed.len()
        invariant
            kind != ChangeKind::Other,
            i <= changed@.len(),
            forall|j: int| 0 <= j < i ==> !is_target(#[trigger] changed@[j], target@),
        decreases changed@.len() - i,
    {
        let item = &changed[i];
        let direct = are_same_path(item.path.as_str(), target);
        let indirect = match &item.resolved {
            Some(r) => are_same_path(r.as_str(), target),
            None => false,
        };
        if direct || indirect {
            assert(is_target(changed@[i as int], target@));
            return true;
        }
        i = i + 1;
    }
    false
}

/// The directory that is watched for the document at `target`, which has been
/// resolved.
pub open spec fn watched(target: Seq<char>) -> Seq<char> {
    match parent(target) {
        Some(dir) => dir,
        None => "."@,
    }
}

/// The directory that is watched for the document at `target`.
pub fn watched_dir(target: &str) -> (r: String)
    ensures
        r@ == watched(target@),
{
    match path_parent(target) {
        Some(dir) => dir,
        None => ".".to_owned(),
    }
}

/// A change is one of the document where any of its paths is that of the document or
/// resolves to it, and it was created, modified or removed. No other change is.
pub proof fn law_every_change_of_the_document_counts(
    changed: Seq<ChangedPath>,
    i: int,
    target: Seq<char>,
)
    requires
        0 <= i < changed.len(),
        same_path(changed[i].path@, target) || (changed[i].resolved matches Some(r) && same_path(
            r@,
            target,
        )),
    ensures
        touches_target(ChangeKind::Create, changed, target),
        touches_target(ChangeKind::Modify, changed, target),
        touches_target(ChangeKind::Remove, changed, target),
        !touches_target(ChangeKind::Other, changed, target),
{
    assert(is_target(changed[i], target));
}

/// A change whose paths neither are that of the document nor resolve to it is none of
/// the document.
pub proof fn law_other_changes_do_not_count(
    changed: Seq<ChangedPath>,
    target: Seq<char>,
    kind: ChangeKind,
)
    requires
        forall|i: int|
            0 <= i < changed.len() ==> !same_path((#[trigger] changed[i]).path@, target) && (
            changed[i].resolved matches Some(r) ==> !same_path(r@, target)),
    ensures
        !touches_target(kind, changed, target),
{
}

/// The directory of the document is watched, and nothing above it.
pub proof fn law_the_directory_of_the_document_is_watched(dir: Seq<char>, name: Seq<char>)
    requires
        name.len() > 0,
        !name.contains('/'),
        name != "."@,
        name != ".."@,
        dir.len() > 0 ==> dir == "/"@ || dir.last() != '/' && dir.last() != '.',
    ensures
        watched(joined_path(dir, name)) == dir,
        watched("/"@) == "."@,
{
    law_a_name_in_a_directory(dir, name);
    law_paths_without_a_name(dir);
}

} // verus!
