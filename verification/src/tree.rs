//! The tree of Markdown files below a directory. The walk asks for one directory
//! at a time, so that whoever runs it does the reading.
use vstd::prelude::*;

use crate::path::{
    is_file_name, is_plain_relative, joined_path, law_plain_paths_grow_by_names, path_join,
};
use crate::text::{chars_of, has_prefix_str, same_text};
use crate::util::{is_markdown, is_markdown_file};

verus! {

/// How deep below the root directories are read. The root's own entries have
/// depth 0.
pub const TREE_MAX_DEPTH: usize = 4;

/// The most entries that are listed.
pub const TREE_MAX_ENTRIES: usize = 2000;

/// The most directory entries that are looked at, whether or not they are listed.
pub const TREE_MAX_VISITED_ENTRIES: usize = 20000;

// ---------------------------------------------------------------------------
// Order of names
// ---------------------------------------------------------------------------

/// `s` in lower case, by Unicode's rules.
pub uninterp spec fn lowercase(s: Seq<char>) -> Seq<char>;

/// `str::to_lowercase`. The contract claims only that the result follows from
/// the text.
#[verifier::external_body]
fn to_lowercase(s: &str) -> (r: String)
    ensures
        r@ == lowercase(s@),
{
    s.to_lowercase()
}

/// Whether `a` comes no later than `b`, character by character.
pub open spec fn text_le(a: Seq<char>, b: Seq<char>) -> bool
    decreases a.len(),
{
    if a.len() == 0 {
        true
    } else if b.len() == 0 {
        false
    } else if a[0] != b[0] {
        a[0] < b[0]
    } else {
        text_le(a.drop_first(), b.drop_first())
    }
}

/// The order of text is one: it relates any two, and goes on from one to the
/// next.
pub proof fn lemma_text_order(a: Seq<char>, b: Seq<char>, c: Seq<char>)
    ensures
        text_le(a, b) || text_le(b, a),
        text_le(a, b) && text_le(b, c) ==> text_le(a, c),
        text_le(a, a),
    decreases a.len(),
{
    if a.len() > 0 {
        let rest = a.drop_first();
        lemma_text_order(rest, rest, rest);
        if b.len() > 0 {
            lemma_text_order(rest, b.drop_first(), b.drop_first());
            if c.len() > 0 {
                lemma_text_order(rest, b.drop_first(), c.drop_first());
            }
        }
    }
}

/// Whether `a` comes no later than `b`.
fn comes_no_later(a: &[char], b: &[char]) -> (r: bool)
    ensures
        r == text_le(a@, b@),
{
    let n: usize = a.len();
    let m: usize = b.len();
    let mut i: usize = 0;
    assert(a@.skip(0) =~= a@);
    assert(b@.skip(0) =~= b@);
    while i < n && i < m && a[i] == b[i]
        invariant
            n == a@.len(),
            m == b@.len(),
            i <= n,
            i <= m,
            text_le(a@, b@) == text_le(a@.skip(i as int), b@.skip(i as int)),
        decreases n - i,
    {
        assert(a@.skip(i as int).drop_first() =~= a@.skip(i + 1));
        assert(b@.skip(i as int).drop_first() =~= b@.skip(i + 1));
        i = i + 1;
    }
    if i == n {
        true
    } else if i == m {
        false
    } else {
        a[i] < b[i]
    }
}

/// The place of a name with the key `key` in `names`: behind the last one that
/// comes no later.
pub open spec fn slot(names: Seq<Seq<char>>, key: Seq<char>) -> int
    decreases names.len(),
{
    if names.len() == 0 {
        0
    } else if text_le(lowercase(names.last()), key) {
        names.len() as int
    } else {
        slot(names.drop_last(), key)
    }
}

/// A place lies in the list.
pub(crate) proof fn lemma_slot_bound(names: Seq<Seq<char>>, key: Seq<char>)
    ensures
        0 <= slot(names, key) <= names.len(),
    decreases names.len(),
{
    if names.len() > 0 {
        lemma_slot_bound(names.drop_last(), key);
    }
}

/// `names` in the order of their lower-case forms. Names that differ in case only
/// keep the order that they had.
pub open spec fn sorted_names(names: Seq<Seq<char>>) -> Seq<Seq<char>>
    decreases names.len(),
{
    if names.len() == 0 {
        seq![]
    } else {
        let before = sorted_names(names.drop_last());
        before.insert(slot(before, lowercase(names.last())), names.last())
    }
}

/// Whether the lower-case forms of `names` ascend.
pub open spec fn ascends(names: Seq<Seq<char>>) -> bool {
    forall|i: int, j: int|
        0 <= i <= j < names.len() ==> text_le(
            lowercase(#[trigger] names[i]),
            lowercase(#[trigger] names[j]),
        )
}

/// A name put in its place leaves the list ascending.
proof fn lemma_insert_ascends(names: Seq<Seq<char>>, name: Seq<char>)
    requires
        ascends(names),
    ensures
        ascends(names.insert(slot(names, lowercase(name)), name)),
{
    let key = lowercase(name);
    let at = slot(names, key);
    lemma_slot_bound(names, key);
    lemma_slot_split(names, key);
    let all = names.insert(at, name);
    assert forall|i: int, j: int| 0 <= i <= j < all.len() implies text_le(
        lowercase(#[trigger] all[i]),
        lowercase(#[trigger] all[j]),
    ) by {
        lemma_text_order(key, key, key);
        if i < at && j == at {
            assert(all[i] == names[i]);
        } else if i == at && j > at {
            assert(all[j] == names[j - 1]);
            lemma_text_order(lowercase(names[j - 1]), key, key);
        } else if i < at && j > at {
            assert(all[i] == names[i] && all[j] == names[j - 1]);
        } else if j < at {
            assert(all[i] == names[i] && all[j] == names[j]);
        } else if i > at {
            assert(all[i] == names[i - 1] && all[j] == names[j - 1]);
        }
    }
}

/// In an ascending list the names before the place of a key come no later than
/// it, and those behind come later.
pub(crate) proof fn lemma_slot_split(names: Seq<Seq<char>>, key: Seq<char>)
    requires
        ascends(names),
    ensures
        forall|i: int|
            0 <= i < slot(names, key) ==> text_le(lowercase(#[trigger] names[i]), key),
        forall|i: int|
            slot(names, key) <= i < names.len() ==> !text_le(lowercase(#[trigger] names[i]), key),
    decreases names.len(),
{
    if names.len() > 0 {
        let last = names.last();
        if text_le(lowercase(last), key) {
            assert forall|i: int| 0 <= i < names.len() implies text_le(
                lowercase(#[trigger] names[i]),
                key,
            ) by {
                lemma_text_order(lowercase(names[i]), lowercase(last), key);
                assert(text_le(lowercase(names[i]), lowercase(names[names.len() - 1])));
            }
        } else {
            let shorter = names.drop_last();
            assert forall|a: int, b: int| 0 <= a <= b < shorter.len() implies text_le(
                lowercase(#[trigger] shorter[a]),
                lowercase(#[trigger] shorter[b]),
            ) by {
                assert(shorter[a] == names[a] && shorter[b] == names[b]);
            }
            lemma_slot_split(shorter, key);
            assert forall|i: int| 0 <= i < slot(names, key) implies text_le(
                lowercase(#[trigger] names[i]),
                key,
            ) by {
                lemma_slot_bound(shorter, key);
                assert(shorter[i] == names[i]);
            }
            assert forall|i: int| slot(names, key) <= i < names.len() implies !text_le(
                lowercase(#[trigger] names[i]),
                key,
            ) by {
                lemma_slot_bound(shorter, key);
                if i < shorter.len() {
                    assert(shorter[i] == names[i]);
                }
            }
        }
    }
}

/// Sorting names puts them in ascending order and neither adds nor drops one.
pub proof fn law_sorted_names(names: Seq<Seq<char>>)
    ensures
        ascends(sorted_names(names)),
        sorted_names(names).to_multiset() == names.to_multiset(),
        sorted_names(names).len() == names.len(),
    decreases names.len(),
{
    if names.len() > 0 {
        let before = sorted_names(names.drop_last());
        let name = names.last();
        law_sorted_names(names.drop_last());
        lemma_insert_ascends(before, name);
        lemma_slot_bound(before, lowercase(name));
        before.insert_ensures(slot(before, lowercase(name)), name);
        vstd::seq_lib::to_multiset_insert(before, slot(before, lowercase(name)), name);
        vstd::seq_lib::to_multiset_build(names.drop_last(), name);
        assert(names =~= names.drop_last().push(name));
    } else {
        assert(sorted_names(names) =~= names);
    }
}

/// The values of a list of names.
pub open spec fn name_views(names: Seq<String>) -> Seq<Seq<char>> {
    names.map_values(|n: String| n@)
}

/// The place of a name with the key `key` among names with the keys `keys`.
fn find_slot(Ghost(names): Ghost<Seq<Seq<char>>>, keys: &Vec<Vec<char>>, key: &[char]) -> (r: usize)
    requires
        ascends(names),
        keys@.len() == names.len(),
        forall|i: int| 0 <= i < names.len() ==> (#[trigger] keys@[i])@ == lowercase(names[i]),
    ensures
        r == slot(names, key@),
        r <= names.len(),
{
    let mut lo: usize = 0;
    let mut hi: usize = keys.len();
    proof {
        lemma_slot_bound(names, key@);
        lemma_slot_split(names, key@);
    }
    while lo < hi
        invariant
            keys@.len() == names.len(),
            forall|i: int| 0 <= i < names.len() ==> (#[trigger] keys@[i])@ == lowercase(names[i]),
            forall|i: int|
                0 <= i < slot(names, key@) ==> text_le(lowercase(#[trigger] names[i]), key@),
            forall|i: int|
                slot(names, key@) <= i < names.len() ==> !text_le(
                    lowercase(#[trigger] names[i]),
                    key@,
                ),
            lo <= slot(names, key@) <= hi <= names.len(),
        decreases hi - lo,
    {
        let mid: usize = lo + (hi - lo) / 2;
        let ghost name = names[mid as int];
        if comes_no_later(keys[mid].as_slice(), key) {
            lo = mid + 1;
        } else {
            hi = mid;
        }
    }
    lo
}

/// `names` in the order of their lower-case forms.
fn sort_names(names: &Vec<String>) -> (r: Vec<String>)
    ensures
        name_views(r@) == sorted_names(name_views(names@)),
{
    let ghost all = name_views(names@);
    let mut out: Vec<String> = Vec::new();
    let mut keys: Vec<Vec<char>> = Vec::new();
    let mut i: usize = 0;
    assert(name_views(out@) =~= sorted_names(all.take(0)));
    while i < names.len()
        invariant
            all == name_views(names@),
            i <= names@.len(),
            name_views(out@) == sorted_names(all.take(i as int)),
            keys@.len() == out@.len(),
            forall|j: int|
                0 <= j < out@.len() ==> (#[trigger] keys@[j])@ == lowercase(name_views(out@)[j]),
        decreases names@.len() - i,
    {
        let ghost before = name_views(out@);
        let ghost old_keys = keys@;
        proof {
            law_sorted_names(all.take(i as int));
            assert(all.take(i + 1).drop_last() =~= all.take(i as int));
            assert(all.take(i + 1).last() == names@[i as int]@);
        }
        let lower = to_lowercase(names[i].as_str());
        let key = chars_of(lower.as_str());
        let at: usize = find_slot(Ghost(before), &keys, key.as_slice());
        out.insert(at, names[i].clone());
        keys.insert(at, key);
        proof {
            let name = names@[i as int]@;
            assert(name_views(out@) =~= before.insert(at as int, name));
            assert forall|j: int| 0 <= j < out@.len() implies (#[trigger] keys@[j])@ == lowercase(
                name_views(out@)[j],
            ) by {
                if j < at {
                    assert(keys@[j] == old_keys[j]);
                    assert(name_views(out@)[j] == before[j]);
                } else if j > at {
                    assert(keys@[j] == old_keys[j - 1]);
                    assert(name_views(out@)[j] == before[j - 1]);
                }
            }
        }
        i = i + 1;
    }
    assert(all.take(i as int) =~= all);
    out
}

// ---------------------------------------------------------------------------
// Directories
// ---------------------------------------------------------------------------

/// What an entry of a directory is.
#[derive(Debug, Clone, Copy, PartialEq, Eq, Structural)]
pub enum ItemKind {
    File,
    Dir,
    Symlink,
    /// Anything else, and what cannot be told.
    Other,
}

/// An entry of a directory. A name that is no text is none.
pub struct DirItem {
    pub name: Option<String>,
    pub kind: ItemKind,
}

/// The value of a [`DirItem`].
pub ghost struct ItemView {
    pub name: Option<Seq<char>>,
    pub kind: ItemKind,
}

impl View for DirItem {
    type V = ItemView;

    open spec fn view(&self) -> ItemView {
        ItemView {
            name: match self.name {
                Some(n) => Some(n@),
                None => None,
            },
            kind: self.kind,
        }
    }
}

/// The values of the entries of a directory.
pub open spec fn item_views(items: Seq<DirItem>) -> Seq<ItemView> {
    items.map_values(|i: DirItem| i@)
}

/// Whether the directory `name` is passed over.
pub open spec fn is_excluded(name: Seq<char>) -> bool {
    "."@.is_prefix_of(name) || name == "node_modules"@ || name == "target"@
}

/// Whether the directory `name` is passed over: hidden ones, `node_modules` and
/// `target`.
pub fn is_excluded_tree_dir(name: &str) -> (r: bool)
    ensures
        r == is_excluded(name@),
{
    let chars = chars_of(name);
    has_prefix_str(chars.as_slice(), ".") || same_text(name, "node_modules") || same_text(
        name,
        "target",
    )
}

/// What is left of the limits of a walk.
#[derive(Debug, Clone, Copy, PartialEq, Eq, Structural)]
pub struct ScanBudget {
    /// How many entries may still be listed.
    pub entries: usize,
    /// How many may still be looked at.
    pub visits: usize,
    /// Whether a limit was met.
    pub truncated: bool,
}

/// What is found in a directory: directories to go into, and Markdown files.
pub ghost struct Found {
    pub dirs: Seq<Seq<char>>,
    pub files: Seq<Seq<char>>,
    pub budget: ScanBudget,
}

/// What is found in the entries `items`, with what was found before them. Once no
/// more may be looked at, the rest is not.
pub open spec fn sifted(items: Seq<ItemView>, found: Found) -> Found
    decreases items.len(),
{
    if items.len() == 0 {
        found
    } else if found.budget.visits == 0 {
        Found { budget: ScanBudget { truncated: true, ..found.budget }, ..found }
    } else {
        let item = items[0];
        let rest = items.drop_first();
        let next = Found {
            budget: ScanBudget { visits: (found.budget.visits - 1) as usize, ..found.budget },
            ..found
        };
        match item.name {
            None => sifted(rest, next),
            Some(name) => if item.kind == ItemKind::Dir && !is_excluded(name) {
                sifted(rest, Found { dirs: found.dirs.push(name), ..next })
            } else if item.kind == ItemKind::File && is_markdown(name) {
                sifted(rest, Found { files: found.files.push(name), ..next })
            } else {
                sifted(rest, next)
            },
        }
    }
}

/// No more entries are looked at than may be, and one to tell that there are more.
proof fn lemma_sifted_prefix(items: Seq<ItemView>, found: Found, n: int)
    requires
        n > found.budget.visits,
        0 <= n <= items.len(),
    ensures
        sifted(items.take(n), found) == sifted(items, found),
    decreases items.len(),
{
    if items.len() > 0 && found.budget.visits > 0 {
        let item = items[0];
        let rest = items.drop_first();
        let next = Found {
            budget: ScanBudget { visits: (found.budget.visits - 1) as usize, ..found.budget },
            ..found
        };
        let after = match item.name {
            None => next,
            Some(name) => if item.kind == ItemKind::Dir && !is_excluded(name) {
                Found { dirs: found.dirs.push(name), ..next }
            } else if item.kind == ItemKind::File && is_markdown(name) {
                Found { files: found.files.push(name), ..next }
            } else {
                next
            },
        };
        assert(items.take(n)[0] == item);
        assert(items.take(n).drop_first() =~= rest.take(n - 1));
        lemma_sifted_prefix(rest, after, n - 1);
    }
}

/// What is found in a directory.
pub struct Sifted {
    pub dirs: Vec<String>,
    pub files: Vec<String>,
    pub budget: ScanBudget,
}

/// The value of a [`Sifted`].
pub open spec fn found_view(s: Sifted) -> Found {
    Found { dirs: name_views(s.dirs@), files: name_views(s.files@), budget: s.budget }
}

/// What is found in the entries `items`.
fn sift(items: &Vec<DirItem>, budget: ScanBudget) -> (r: Sifted)
    ensures
        found_view(r) == sifted(
            item_views(items@),
            (Found { dirs: seq![], files: seq![], budget }),
        ),
{
    let ghost all = item_views(items@);
    let ghost start = Found { dirs: seq![], files: seq![], budget };
    let mut out = Sifted { dirs: Vec::new(), files: Vec::new(), budget };
    let mut i: usize = 0;
    proof {
        assert(found_view(out).dirs =~= seq![]);
        assert(found_view(out).files =~= seq![]);
        assert(all.skip(0) =~= all);
    }
    while i < items.len()
        invariant
            all == item_views(items@),
            start == (Found { dirs: seq![], files: seq![], budget }),
            i <= items@.len(),
            sifted(all.skip(i as int), found_view(out)) == sifted(all, start),
        decreases items@.len() - i,
    {
        let item = &items[i];
        let ghost before = found_view(out);
        assert(all.skip(i as int)[0] == item@);
        assert(all.skip(i as int).drop_first() =~= all.skip(i + 1));
        if out.budget.visits == 0 {
            out.budget.truncated = true;
            return out;
        }
        out.budget.visits = out.budget.visits - 1;
        if let Some(name) = &item.name {
            let ghost text = name@;
            if item.kind == ItemKind::Dir && !is_excluded_tree_dir(name.as_str()) {
                out.dirs.push(name.clone());
                assert(name_views(out.dirs@) =~= before.dirs.push(text));
            } else if item.kind == ItemKind::File && is_markdown_file(name.as_str()) {
                out.files.push(name.clone());
                assert(name_views(out.files@) =~= before.files.push(text));
            }
        }
        i = i + 1;
    }
    assert(all.skip(i as int) =~= seq![]);
    out
}

// ---------------------------------------------------------------------------
// The walk
// ---------------------------------------------------------------------------

/// A line of the tree.
#[derive(Debug, Clone, PartialEq, Eq)]
pub struct TreeEntry {
    /// The path below the root, with `/` between its parts.
    pub path: String,
    /// The last part of it.
    pub name: String,
    pub is_dir: bool,
}

/// The value of a [`TreeEntry`].
pub ghost struct EntryView {
    pub path: Seq<char>,
    pub name: Seq<char>,
    pub is_dir: bool,
}

impl View for TreeEntry {
    type V = EntryView;

    open spec fn view(&self) -> EntryView {
        EntryView { path: self.path@, name: self.name@, is_dir: self.is_dir }
    }
}

/// The values of a list of lines.
pub open spec fn entry_views(entries: Seq<TreeEntry>) -> Seq<EntryView> {
    entries.map_values(|e: TreeEntry| e@)
}

/// What the directories of a file system hold. Those that cannot be read hold
/// nothing that is known.
pub type Dirs = spec_fn(Seq<char>) -> Option<Seq<ItemView>>;

/// The path of `name` in the directory `prefix` below the root.
pub open spec fn tree_path(prefix: Seq<char>, name: Seq<char>) -> Seq<char> {
    if prefix.len() == 0 {
        name
    } else {
        prefix + "/"@ + name
    }
}

/// Where the directory `rel` below `root` lies.
pub open spec fn tree_dir(root: Seq<char>, rel: Seq<char>) -> Seq<char> {
    if rel.len() == 0 {
        root
    } else {
        joined_path(root, rel)
    }
}

/// Lines, and what is left of the limits.
pub ghost struct Listed {
    pub entries: Seq<EntryView>,
    pub budget: ScanBudget,
}

/// The lines of the files `files` in the directory `rel`, as many as may be
/// listed.
pub open spec fn list_files(rel: Seq<char>, files: Seq<Seq<char>>, budget: ScanBudget) -> Listed
    decreases files.len(),
{
    if files.len() == 0 {
        Listed { entries: seq![], budget }
    } else if budget.entries == 0 {
        Listed { entries: seq![], budget: ScanBudget { truncated: true, ..budget } }
    } else {
        let line = EntryView { path: tree_path(rel, files[0]), name: files[0], is_dir: false };
        let rest = list_files(
            rel,
            files.drop_first(),
            ScanBudget { entries: (budget.entries - 1) as usize, ..budget },
        );
        Listed { entries: seq![line] + rest.entries, budget: rest.budget }
    }
}

/// The lines of a directory with the lines `inner` in it. One without any has no
/// line itself. Where no more lines may be listed its own is left out, but those
/// in it, which were counted already, stay.
pub open spec fn with_own_line(rel: Seq<char>, name: Seq<char>, inner: Listed) -> Listed {
    if inner.entries.len() == 0 {
        inner
    } else if inner.budget.entries == 0 {
        Listed { budget: ScanBudget { truncated: true, ..inner.budget }, ..inner }
    } else {
        Listed {
            entries: seq![EntryView { path: rel, name, is_dir: true }] + inner.entries,
            budget: ScanBudget {
                entries: (inner.budget.entries - 1) as usize,
                ..inner.budget
            },
        }
    }
}

/// The lines of the directory `rel`: its directories, then its files, both in
/// order, and each directory followed by what is in it.
pub open spec fn scan_dir(
    dirs: Dirs,
    root: Seq<char>,
    rel: Seq<char>,
    depth: nat,
    budget: ScanBudget,
) -> Listed
    decreases TREE_MAX_DEPTH + 1 - depth, 1int, 0nat,
{
    if budget.truncated || depth > TREE_MAX_DEPTH {
        Listed { entries: seq![], budget }
    } else {
        match dirs(tree_dir(root, rel)) {
            None => Listed { entries: seq![], budget },
            Some(items) => {
                let found = sifted(items, Found { dirs: seq![], files: seq![], budget });
                let inner = scan_dirs(
                    dirs,
                    root,
                    rel,
                    sorted_names(found.dirs),
                    depth,
                    found.budget,
                );
                let files = list_files(rel, sorted_names(found.files), inner.budget);
                Listed { entries: inner.entries + files.entries, budget: files.budget }
            },
        }
    }
}

/// The lines of the directories `names` in the directory `rel`.
pub open spec fn scan_dirs(
    dirs: Dirs,
    root: Seq<char>,
    rel: Seq<char>,
    names: Seq<Seq<char>>,
    depth: nat,
    budget: ScanBudget,
) -> Listed
    decreases TREE_MAX_DEPTH + 1 - depth, 0int, names.len(),
{
    if names.len() == 0 || depth >= TREE_MAX_DEPTH {
        Listed { entries: seq![], budget }
    } else {
        let path = tree_path(rel, names[0]);
        let first = with_own_line(
            path,
            names[0],
            scan_dir(dirs, root, path, depth + 1, budget),
        );
        let rest = scan_dirs(dirs, root, rel, names.drop_first(), depth, first.budget);
        Listed { entries: first.entries + rest.entries, budget: rest.budget }
    }
}

/// A directory whose directories are being walked.
pub struct Frame {
    pub rel: String,
    pub name: String,
    pub depth: usize,
    pub dirs: Vec<String>,
    /// The position of the next one of `dirs` to go into.
    pub next: usize,
    pub files: Vec<String>,
    /// The lines so far.
    pub lines: Vec<TreeEntry>,
}

/// The value of a [`Frame`].
pub ghost struct FrameView {
    pub rel: Seq<char>,
    pub name: Seq<char>,
    pub depth: nat,
    /// The directories still to go into.
    pub dirs: Seq<Seq<char>>,
    pub files: Seq<Seq<char>>,
    pub lines: Seq<EntryView>,
}

impl View for Frame {
    type V = FrameView;

    open spec fn view(&self) -> FrameView {
        FrameView {
            rel: self.rel@,
            name: self.name@,
            depth: self.depth as nat,
            dirs: name_views(self.dirs@).skip(self.next as int),
            files: name_views(self.files@),
            lines: entry_views(self.lines@),
        }
    }
}

/// The values of a stack of directories.
pub open spec fn frame_views(stack: Seq<Frame>) -> Seq<FrameView> {
    stack.map_values(|f: Frame| f@)
}

/// Whether the directories of a stack are ones that a walk goes into.
pub open spec fn frames_wf(stack: Seq<Frame>) -> bool {
    forall|i: int|
        0 <= i < stack.len() ==> (#[trigger] stack[i]).next <= stack[i].dirs@.len()
            && stack[i].depth <= TREE_MAX_DEPTH
}

/// The lines of a directory, once the rest of it is walked.
pub open spec fn frame_done(dirs: Dirs, root: Seq<char>, f: FrameView, budget: ScanBudget) -> Listed {
    let inner = scan_dirs(dirs, root, f.rel, f.dirs, f.depth, budget);
    let files = list_files(f.rel, f.files, inner.budget);
    Listed { entries: f.lines + inner.entries + files.entries, budget: files.budget }
}

/// The lines of the whole tree, once the directory `rel` has the lines `inner`
/// and the directories of `stack` round it are walked to their ends.
pub open spec fn unwound(
    dirs: Dirs,
    root: Seq<char>,
    stack: Seq<FrameView>,
    rel: Seq<char>,
    name: Seq<char>,
    inner: Listed,
) -> Listed
    decreases stack.len(),
{
    if stack.len() == 0 {
        inner
    } else {
        let f = stack.last();
        let own = with_own_line(rel, name, inner);
        let g = FrameView { lines: f.lines + own.entries, ..f };
        unwound(
            dirs,
            root,
            stack.drop_last(),
            f.rel,
            f.name,
            frame_done(dirs, root, g, own.budget),
        )
    }
}

/// The lines of the whole tree, where the walk goes on with the innermost
/// directory of `stack`.
pub open spec fn resumed(
    dirs: Dirs,
    root: Seq<char>,
    stack: Seq<FrameView>,
    budget: ScanBudget,
) -> Listed {
    let f = stack.last();
    unwound(
        dirs,
        root,
        stack.drop_last(),
        f.rel,
        f.name,
        frame_done(dirs, root, f, budget),
    )
}

/// A walk that waits for the entries of a directory.
pub struct TreeScan {
    root: String,
    /// The directories round the one that is waited for.
    stack: Vec<Frame>,
    /// The path below the root of the directory that is waited for.
    rel: String,
    name: String,
    depth: usize,
    budget: ScanBudget,
}

/// What a walk does next.
pub enum TreeStep {
    /// It waits for the entries of another directory.
    Read(TreeScan),
    /// It is done, with these lines, and whether a limit was met.
    Done(Vec<TreeEntry>, bool),
}

impl TreeScan {
    /// What is left of the limits.
    pub closed spec fn left(&self) -> ScanBudget {
        self.budget
    }

    /// What always holds of a walk.
    pub closed spec fn wf(&self) -> bool {
        &&& frames_wf(self.stack@)
        &&& self.depth <= TREE_MAX_DEPTH
        &&& !self.budget.truncated
    }

    /// The directory that is waited for.
    pub closed spec fn awaited(&self) -> Seq<char> {
        tree_dir(self.root@, self.rel@)
    }

    /// How many more directories the walk can read at most, besides the one that it
    /// waits for.
    pub closed spec fn reads_left(&self) -> nat {
        dirs_left(frame_views(self.stack@)) + self.budget.visits as nat
    }

    /// The lines of the whole tree in a file system that holds `dirs`.
    pub closed spec fn outcome(&self, dirs: Dirs) -> Listed {
        unwound(
            dirs,
            self.root@,
            frame_views(self.stack@),
            self.rel@,
            self.name@,
            scan_dir(dirs, self.root@, self.rel@, self.depth as nat, self.budget),
        )
    }
}

/// Whether `listing` is what `dirs` holds at `path`, as far as entry number
/// `limit`.
pub open spec fn is_listing(
    dirs: Dirs,
    path: Seq<char>,
    limit: int,
    listing: Option<Seq<ItemView>>,
) -> bool {
    match (dirs(path), listing) {
        (None, None) => true,
        (Some(all), Some(items)) => items == all || (all.len() > limit && items == all.take(limit)),
        _ => false,
    }
}

/// How many entries of a directory are worth reading: those that may still be
/// looked at, and one more.
pub open spec fn read_limit(budget: ScanBudget) -> usize {
    if budget.visits < usize::MAX {
        (budget.visits + 1) as usize
    } else {
        usize::MAX
    }
}

/// How many entries may still be looked at, where `visits` could be and a directory
/// was read.
pub open spec fn visits_after(visits: usize, listing: Option<Seq<ItemView>>) -> int {
    match listing {
        None => visits as int,
        Some(items) => if items.len() < visits {
            visits - items.len()
        } else {
            0
        },
    }
}

/// Every entry of a directory is looked at, as far as that may be.
proof fn lemma_sifting_visits_all(items: Seq<ItemView>, found: Found)
    ensures
        sifted(items, found).budget.visits == visits_after(found.budget.visits, Some(items)),
    decreases items.len(),
{
    if items.len() > 0 && found.budget.visits > 0 {
        let item = items[0];
        let next = Found {
            budget: ScanBudget { visits: (found.budget.visits - 1) as usize, ..found.budget },
            ..found
        };
        let after = match item.name {
            None => next,
            Some(name) => if item.kind == ItemKind::Dir && !is_excluded(name) {
                Found { dirs: found.dirs.push(name), ..next }
            } else if item.kind == ItemKind::File && is_markdown(name) {
                Found { files: found.files.push(name), ..next }
            } else {
                next
            },
        };
        lemma_sifting_visits_all(items.drop_first(), after);
    }
}

/// The values of what came of reading a directory.
pub open spec fn listing_view(items: Option<Vec<DirItem>>) -> Option<Seq<ItemView>> {
    match items {
        Some(v) => Some(item_views(v@)),
        None => None,
    }
}

/// How many directories the directories of a stack still have to go into.
pub open spec fn dirs_left(stack: Seq<FrameView>) -> nat
    decreases stack.len(),
{
    if stack.len() == 0 {
        0
    } else {
        dirs_left(stack.drop_last()) + stack.last().dirs.len()
    }
}

/// What is found in a directory was looked at.
proof fn lemma_found_were_visited(items: Seq<ItemView>, found: Found)
    ensures
        sifted(items, found).dirs.len() + sifted(items, found).budget.visits <= found.dirs.len()
            + found.budget.visits,
    decreases items.len(),
{
    if items.len() > 0 && found.budget.visits > 0 {
        let item = items[0];
        let next = Found {
            budget: ScanBudget { visits: (found.budget.visits - 1) as usize, ..found.budget },
            ..found
        };
        let after = match item.name {
            None => next,
            Some(name) => if item.kind == ItemKind::Dir && !is_excluded(name) {
                Found { dirs: found.dirs.push(name), ..next }
            } else if item.kind == ItemKind::File && is_markdown(name) {
                Found { files: found.files.push(name), ..next }
            } else {
                next
            },
        };
        lemma_found_were_visited(items.drop_first(), after);
    }
}

/// Once a limit was met no directory has lines any more.
pub(crate) proof fn lemma_truncated_dirs(
    dirs: Dirs,
    root: Seq<char>,
    rel: Seq<char>,
    names: Seq<Seq<char>>,
    depth: nat,
    budget: ScanBudget,
)
    requires
        budget.truncated,
    ensures
        scan_dirs(dirs, root, rel, names, depth, budget) == (Listed { entries: seq![], budget }),
    decreases names.len(),
{
    if names.len() > 0 && depth < TREE_MAX_DEPTH {
        let none = Listed { entries: seq![], budget };
        let path = tree_path(rel, names[0]);
        assert(scan_dir(dirs, root, path, depth + 1, budget) == none);
        assert(with_own_line(path, names[0], none) == none);
        lemma_truncated_dirs(dirs, root, rel, names.drop_first(), depth, budget);
        assert(none.entries + none.entries =~= none.entries);
    }
}

/// The path of `name` in the directory `prefix` below the root.
pub fn join_tree_path(prefix: &str, name: &str) -> (r: String)
    ensures
        r@ == tree_path(prefix@, name@),
{
    let mut out = prefix.to_owned();
    if chars_of(prefix).len() != 0 {
        out.append("/");
    }
    out.append(name);
    assert(out@ =~= tree_path(prefix@, name@));
    out
}

/// Listing lines looks at no entries.
proof fn lemma_listing_visits_none(rel: Seq<char>, files: Seq<Seq<char>>, budget: ScanBudget)
    ensures
        list_files(rel, files, budget).budget.visits == budget.visits,
    decreases files.len(),
{
    if files.len() > 0 && budget.entries > 0 {
        lemma_listing_visits_none(
            rel,
            files.drop_first(),
            ScanBudget { entries: (budget.entries - 1) as usize, ..budget },
        );
    }
}

/// Appends the lines of the files `files` in the directory `rel`.
fn push_files(
    lines: &mut Vec<TreeEntry>,
    rel: &str,
    files: &Vec<String>,
    budget: ScanBudget,
) -> (r: ScanBudget)
    ensures
        entry_views(final(lines)@) == entry_views(old(lines)@) + list_files(
            rel@,
            name_views(files@),
            budget,
        ).entries,
        r == list_files(rel@, name_views(files@), budget).budget,
{
    let ghost all = name_views(files@);
    let ghost start = entry_views(lines@);
    let ghost target = list_files(rel@, all, budget);
    let mut left = budget;
    let mut i: usize = 0;
    assert(all.skip(0) =~= all);
    while i < files.len()
        invariant
            all == name_views(files@),
            start == entry_views(old(lines)@),
            target == list_files(rel@, all, budget),
            i <= files@.len(),
            entry_views(lines@) + list_files(rel@, all.skip(i as int), left).entries == start
                + target.entries,
            list_files(rel@, all.skip(i as int), left).budget == target.budget,
        decreases files@.len() - i,
    {
        let ghost before = entry_views(lines@);
        let ghost rest = all.skip(i as int);
        assert(rest[0] == files@[i as int]@);
        assert(rest.drop_first() =~= all.skip(i + 1));
        if left.entries == 0 {
            assert(before + list_files(rel@, rest, left).entries =~= before);
            left.truncated = true;
            return left;
        }
        let path = join_tree_path(rel, files[i].as_str());
        let line = TreeEntry { path, name: files[i].clone(), is_dir: false };
        let ghost view = line@;
        lines.push(line);
        left.entries = left.entries - 1;
        proof {
            assert(entry_views(lines@) =~= before.push(view));
            let tail = list_files(rel@, all.skip(i + 1), left).entries;
            assert(before.push(view) + tail =~= before + (seq![view] + tail));
        }
        i = i + 1;
    }
    assert(all.skip(i as int) =~= seq![]);
    assert(entry_views(lines@) =~= start + target.entries);
    left
}

/// Appends `more`.
fn push_lines(lines: &mut Vec<TreeEntry>, more: Vec<TreeEntry>)
    ensures
        entry_views(final(lines)@) == entry_views(old(lines)@) + entry_views(more@),
{
    let mut more = more;
    let ghost added = more@;
    lines.append(&mut more);
    assert(entry_views(lines@) =~= entry_views(old(lines)@) + entry_views(added));
}

/// Appends the lines of a directory with the lines `inner` in it.
fn push_dir(
    lines: &mut Vec<TreeEntry>,
    rel: String,
    name: String,
    inner: Vec<TreeEntry>,
    budget: ScanBudget,
) -> (r: ScanBudget)
    ensures
        ({
            let own = with_own_line(
                rel@,
                name@,
                Listed { entries: entry_views(inner@), budget },
            );
            entry_views(final(lines)@) == entry_views(old(lines)@) + own.entries && r
                == own.budget
        }),
{
    let ghost before = entry_views(lines@);
    let ghost inner_views = entry_views(inner@);
    if inner.len() == 0 {
        push_lines(lines, inner);
        return budget;
    }
    let mut left = budget;
    if left.entries == 0 {
        push_lines(lines, inner);
        left.truncated = true;
        return left;
    }
    left.entries = left.entries - 1;
    let line = TreeEntry { path: rel, name, is_dir: true };
    let ghost view = line@;
    lines.push(line);
    assert(entry_views(lines@) =~= before.push(view));
    push_lines(lines, inner);
    assert(before.push(view) + inner_views =~= before + (seq![view] + inner_views));
    left
}

/// Goes on with the innermost directory of `stack`, up to the next directory
/// that has to be read, or to the end.
#[verifier::loop_isolation(false)]
fn advance(root: String, stack: Vec<Frame>, budget: ScanBudget) -> (r: TreeStep)
    requires
        stack@.len() > 0,
        frames_wf(stack@),
    ensures
        match r {
            TreeStep::Read(scan) => scan.wf() && scan.root@ == root@ && scan.left().visits
                == budget.visits && scan.reads_left() < dirs_left(frame_views(stack@))
                + budget.visits && forall|dirs: Dirs|
                #[trigger] scan.outcome(dirs) == resumed(
                    dirs,
                    root@,
                    frame_views(stack@),
                    budget,
                ),
            TreeStep::Done(lines, truncated) => forall|dirs: Dirs|
                {
                    let all = #[trigger] resumed(dirs, root@, frame_views(stack@), budget);
                    all.entries == entry_views(lines@) && all.budget.truncated == truncated
                },
        },
{
    let ghost start = frame_views(stack@);
    let ghost start_budget = budget;
    let mut stack = stack;
    let mut budget = budget;
    loop
        invariant
            stack@.len() > 0,
            frames_wf(stack@),
            budget.visits == start_budget.visits,
            dirs_left(frame_views(stack@)) <= dirs_left(start),
            forall|dirs: Dirs|
                #[trigger] resumed(dirs, root@, start, start_budget) == resumed(
                    dirs,
                    root@,
                    frame_views(stack@),
                    budget,
                ),
        decreases stack@.len(),
    {
        let ghost now = frame_views(stack@);
        let top = stack.pop();
        let mut frame = match top {
            Some(f) => f,
            None => {
                return TreeStep::Done(Vec::new(), false);
            },
        };
        let ghost f = frame@;
        proof {
            assert(now.last() == f);
            assert(frame_views(stack@) =~= now.drop_last());
        }
        if frame.next < frame.dirs.len() && frame.depth < TREE_MAX_DEPTH && !budget.truncated {
            let name = frame.dirs[frame.next].clone();
            let rel = join_tree_path(frame.rel.as_str(), name.as_str());
            let depth: usize = frame.depth + 1;
            proof {
                assert(f.dirs[0] == name@);
                assert(f.dirs.drop_first() =~= name_views(frame.dirs@).skip(frame.next + 1));
            }
            frame.next = frame.next + 1;
            let ghost g = frame@;
            assert(g == (FrameView { dirs: f.dirs.drop_first(), ..f }));
            stack.push(frame);
            let scan = TreeScan { root, stack, rel, name, depth, budget };
            proof {
                let after = frame_views(scan.stack@);
                assert(after =~= now.drop_last().push(g));
                assert(after.drop_last() =~= now.drop_last());
                assert forall|dirs: Dirs| #[trigger] scan.outcome(dirs) == resumed(
                    dirs,
                    root@,
                    start,
                    start_budget,
                ) by {
                    let child = scan_dir(dirs, root@, rel@, depth as nat, budget);
                    let own = with_own_line(rel@, name@, child);
                    let h = FrameView { lines: g.lines + own.entries, ..g };
                    let rest = scan_dirs(dirs, root@, f.rel, g.dirs, f.depth, own.budget);
                    let files = list_files(f.rel, f.files, rest.budget);
                    assert(frame_done(dirs, root@, h, own.budget).entries =~= frame_done(
                        dirs,
                        root@,
                        f,
                        budget,
                    ).entries);
                    assert(resumed(dirs, root@, start, start_budget) == resumed(
                        dirs,
                        root@,
                        now,
                        budget,
                    ));
                }
            }
            return TreeStep::Read(scan);
        }
        let ghost lines_before = f.lines;
        proof {
            lemma_listing_visits_none(f.rel, f.files, budget);
        }
        let left = push_files(&mut frame.lines, frame.rel.as_str(), &frame.files, budget);
        proof {
            assert forall|dirs: Dirs| #[trigger] frame_done(dirs, root@, f, budget) == (Listed {
                entries: entry_views(frame.lines@),
                budget: left,
            }) by {
                if budget.truncated {
                    lemma_truncated_dirs(dirs, root@, f.rel, f.dirs, f.depth, budget);
                }
                assert(lines_before + Seq::<EntryView>::empty() =~= lines_before);
            }
        }
        if stack.len() == 0 {
            proof {
                assert forall|dirs: Dirs|
                    ({
                        let all = #[trigger] resumed(dirs, root@, start, start_budget);
                        all.entries == entry_views(frame.lines@) && all.budget.truncated
                            == left.truncated
                    }) by {
                    assert(frame_done(dirs, root@, f, budget).budget == left);
                    assert(now.drop_last() =~= seq![]);
                }
            }
            return TreeStep::Done(frame.lines, left.truncated);
        }
        let ghost outer = frame_views(stack@);
        let parent_top = stack.pop();
        let mut parent = match parent_top {
            Some(p) => p,
            None => {
                return TreeStep::Done(Vec::new(), false);
            },
        };
        let ghost p = parent@;
        let ghost inner = Listed { entries: entry_views(frame.lines@), budget: left };
        let ghost own = with_own_line(f.rel, f.name, inner);
        let next_budget = push_dir(&mut parent.lines, frame.rel, frame.name, frame.lines, left);
        let ghost q = parent@;
        stack.push(parent);
        proof {
            assert(outer.last() == p);
            assert(q == (FrameView { lines: p.lines + own.entries, ..p }));
            let after = frame_views(stack@);
            assert(after =~= outer.drop_last().push(q));
            assert(after.drop_last() =~= outer.drop_last());
            assert(outer =~= now.drop_last());
            assert(dirs_left(now) == dirs_left(outer) + f.dirs.len());
            assert(dirs_left(after) == dirs_left(outer));
            assert forall|dirs: Dirs| #[trigger] resumed(dirs, root@, start, start_budget)
                == resumed(dirs, root@, after, next_budget) by {
                assert(resumed(dirs, root@, start, start_budget) == resumed(
                    dirs,
                    root@,
                    now,
                    budget,
                ));
                assert(frame_done(dirs, root@, f, budget) == inner);
            }
        }
        budget = next_budget;
    }
}

impl TreeScan {
    /// A walk of the directory `root` that lists at most `entries` lines and
    /// looks at at most `visits` entries.
    pub fn start(root: &str, entries: usize, visits: usize) -> (r: TreeScan)
        ensures
            r.wf(),
            r.left() == (ScanBudget { entries, visits, truncated: false }),
            r.awaited() == root@,
            forall|dirs: Dirs|
                #[trigger] r.outcome(dirs) == scan_dir(
                    dirs,
                    root@,
                    seq![],
                    0,
                    (ScanBudget { entries, visits, truncated: false }),
                ),
    {
        let r = TreeScan {
            root: root.to_owned(),
            stack: Vec::new(),
            rel: String::new(),
            name: String::new(),
            depth: 0,
            budget: ScanBudget { entries, visits, truncated: false },
        };
        assert(r.rel@ =~= seq![]);
        r
    }

    /// The directory that is waited for.
    pub fn dir(&self) -> (r: String)
        ensures
            r@ == self.awaited(),
    {
        if chars_of(self.rel.as_str()).len() == 0 {
            self.root.clone()
        } else {
            path_join(self.root.as_str(), self.rel.as_str())
        }
    }

    /// How many entries of it are worth reading: those that may still be looked at,
    /// and one more that shows whether that is all.
    pub fn limit(&self) -> (r: usize)
        ensures
            r == read_limit(self.left()),
    {
        if self.budget.visits < usize::MAX {
            self.budget.visits + 1
        } else {
            usize::MAX
        }
    }

    /// Goes on with the entries of the directory that was waited for, or with
    /// none where it cannot be read.
    pub fn read(self, items: Option<Vec<DirItem>>) -> (r: TreeStep)
        requires
            self.wf(),
        ensures
            match r {
                TreeStep::Read(scan) => scan.wf() && scan.left().visits == visits_after(
                    self.left().visits,
                    listing_view(items),
                ) && scan.reads_left() < self.reads_left() && forall|dirs: Dirs|
                    is_listing(dirs, self.awaited(), self.left().visits + 1, listing_view(items))
                        ==> #[trigger] scan.outcome(dirs) == self.outcome(dirs),
                TreeStep::Done(lines, truncated) => forall|dirs: Dirs|
                    is_listing(dirs, self.awaited(), self.left().visits + 1, listing_view(items))
                        ==> {
                        let all = #[trigger] self.outcome(dirs);
                        all.entries == entry_views(lines@) && all.budget.truncated == truncated
                    },
            },
    {
        let ghost this = self;
        let ghost view = listing_view(items);
        let ghost outer = frame_views(self.stack@);
        let found = match &items {
            Some(items) => sift(items, self.budget),
            None => Sifted { dirs: Vec::new(), files: Vec::new(), budget: self.budget },
        };
        let dirs_sorted = sort_names(&found.dirs);
        let files_sorted = sort_names(&found.files);
        let frame = Frame {
            rel: self.rel,
            name: self.name,
            depth: self.depth,
            dirs: dirs_sorted,
            next: 0,
            files: files_sorted,
            lines: Vec::new(),
        };
        let ghost f = frame@;
        let budget = found.budget;
        let root = self.root;
        let mut stack = self.stack;
        stack.push(frame);
        proof {
            let all = frame_views(stack@);
            assert(all =~= outer.push(f));
            assert(all.drop_last() =~= outer);
            assert(f.lines =~= seq![]);
            assert(f.dirs =~= sorted_names(name_views(found.dirs@)));
            assert forall|dirs: Dirs|
                is_listing(dirs, this.awaited(), this.budget.visits + 1, view) implies resumed(
                dirs,
                root@,
                all,
                budget,
            ) == #[trigger] this.outcome(dirs) by {
                let start = Found { dirs: seq![], files: seq![], budget: this.budget };
                let whole = scan_dir(
                    dirs,
                    this.root@,
                    this.rel@,
                    this.depth as nat,
                    this.budget,
                );
                match dirs(this.awaited()) {
                    None => {
                        assert(f.dirs =~= seq![]);
                        assert(f.files =~= seq![]);
                        assert(frame_done(dirs, root@, f, budget).entries =~= whole.entries);
                    },
                    Some(entries) => {
                        let n = this.budget.visits + 1;
                        if view->Some_0 != entries {
                            lemma_sifted_prefix(entries, start, n);
                        }
                        assert(frame_done(dirs, root@, f, budget).entries =~= whole.entries);
                    },
                }
            }
        }
        proof {
            if let Some(items) = view {
                let start = Found { dirs: seq![], files: seq![], budget: this.budget };
                lemma_found_were_visited(items, start);
                lemma_sifting_visits_all(items, start);
            }
            law_sorted_names(name_views(found.dirs@));
            let all = frame_views(stack@);
            assert(all.drop_last() =~= outer);
            assert(dirs_left(all) == dirs_left(outer) + f.dirs.len());
        }
        advance(root, stack, budget)
    }
}

// ---------------------------------------------------------------------------
// Laws
// ---------------------------------------------------------------------------

/// Files that are listed count against the limit.
proof fn lemma_files_are_counted(rel: Seq<char>, files: Seq<Seq<char>>, budget: ScanBudget)
    ensures
        list_files(rel, files, budget).entries.len() + list_files(
            rel,
            files,
            budget,
        ).budget.entries == budget.entries,
    decreases files.len(),
{
    if files.len() > 0 && budget.entries > 0 {
        lemma_files_are_counted(
            rel,
            files.drop_first(),
            ScanBudget { entries: (budget.entries - 1) as usize, ..budget },
        );
    }
}

/// Looking at entries lists none.
proof fn lemma_sifting_lists_none(items: Seq<ItemView>, found: Found)
    ensures
        sifted(items, found).budget.entries == found.budget.entries,
        sifted(items, found).budget.visits <= found.budget.visits,
        found.budget.truncated ==> sifted(items, found).budget.truncated,
    decreases items.len(),
{
    if items.len() > 0 && found.budget.visits > 0 {
        let item = items[0];
        let next = Found {
            budget: ScanBudget { visits: (found.budget.visits - 1) as usize, ..found.budget },
            ..found
        };
        let after = match item.name {
            None => next,
            Some(name) => if item.kind == ItemKind::Dir && !is_excluded(name) {
                Found { dirs: found.dirs.push(name), ..next }
            } else if item.kind == ItemKind::File && is_markdown(name) {
                Found { files: found.files.push(name), ..next }
            } else {
                next
            },
        };
        lemma_sifting_lists_none(items.drop_first(), after);
    }
}

/// Every line of a tree counts against the limit of lines, so that there are
/// never more than that.
pub proof fn law_lines_are_counted(
    dirs: Dirs,
    root: Seq<char>,
    rel: Seq<char>,
    depth: nat,
    budget: ScanBudget,
)
    ensures
        scan_dir(dirs, root, rel, depth, budget).entries.len() + scan_dir(
            dirs,
            root,
            rel,
            depth,
            budget,
        ).budget.entries == budget.entries,
    decreases TREE_MAX_DEPTH + 1 - depth, 1int, 0nat,
{
    if !budget.truncated && depth <= TREE_MAX_DEPTH {
        if let Some(items) = dirs(tree_dir(root, rel)) {
            let start = Found { dirs: seq![], files: seq![], budget };
            let found = sifted(items, start);
            lemma_sifting_lists_none(items, start);
            let names = sorted_names(found.dirs);
            lemma_dir_lines_are_counted(dirs, root, rel, names, depth, found.budget);
            let inner = scan_dirs(dirs, root, rel, names, depth, found.budget);
            lemma_files_are_counted(rel, sorted_names(found.files), inner.budget);
        }
    }
}

/// The lines of directories count against the limit.
proof fn lemma_dir_lines_are_counted(
    dirs: Dirs,
    root: Seq<char>,
    rel: Seq<char>,
    names: Seq<Seq<char>>,
    depth: nat,
    budget: ScanBudget,
)
    ensures
        scan_dirs(dirs, root, rel, names, depth, budget).entries.len() + scan_dirs(
            dirs,
            root,
            rel,
            names,
            depth,
            budget,
        ).budget.entries == budget.entries,
    decreases TREE_MAX_DEPTH + 1 - depth, 0int, names.len(),
{
    if names.len() > 0 && depth < TREE_MAX_DEPTH {
        let path = tree_path(rel, names[0]);
        law_lines_are_counted(dirs, root, path, depth + 1, budget);
        let inner = scan_dir(dirs, root, path, depth + 1, budget);
        let first = with_own_line(path, names[0], inner);
        lemma_dir_lines_are_counted(dirs, root, rel, names.drop_first(), depth, first.budget);
    }
}

/// Whether `more` allows what `budget` allows, and so many lines and entries besides.
pub open spec fn allows_more(
    budget: ScanBudget,
    more: ScanBudget,
    entries: int,
    visits: int,
) -> bool {
    &&& !budget.truncated
    &&& !more.truncated
    &&& more.entries == budget.entries + entries
    &&& more.visits == budget.visits + visits
    &&& entries >= 0
    &&& visits >= 0
}

/// Files that are all listed are listed under wider limits too.
proof fn lemma_listed_files_are_all(
    rel: Seq<char>,
    files: Seq<Seq<char>>,
    budget: ScanBudget,
    more: ScanBudget,
    entries: int,
    visits: int,
)
    requires
        allows_more(budget, more, entries, visits),
        !list_files(rel, files, budget).budget.truncated,
    ensures
        list_files(rel, files, more).entries == list_files(rel, files, budget).entries,
        allows_more(
            list_files(rel, files, budget).budget,
            list_files(rel, files, more).budget,
            entries,
            visits,
        ),
    decreases files.len(),
{
    if files.len() > 0 {
        lemma_listed_files_are_all(
            rel,
            files.drop_first(),
            ScanBudget { entries: (budget.entries - 1) as usize, ..budget },
            ScanBudget { entries: (more.entries - 1) as usize, ..more },
            entries,
            visits,
        );
    }
}

/// Entries that are all looked at are looked at under wider limits too.
proof fn lemma_sifted_are_all(
    items: Seq<ItemView>,
    found: Found,
    more: ScanBudget,
    entries: int,
    visits: int,
)
    requires
        allows_more(found.budget, more, entries, visits),
        !sifted(items, found).budget.truncated,
    ensures
        sifted(items, Found { budget: more, ..found }).dirs == sifted(items, found).dirs,
        sifted(items, Found { budget: more, ..found }).files == sifted(items, found).files,
        allows_more(
            sifted(items, found).budget,
            sifted(items, Found { budget: more, ..found }).budget,
            entries,
            visits,
        ),
    decreases items.len(),
{
    if items.len() > 0 {
        let item = items[0];
        let next = Found {
            budget: ScanBudget { visits: (found.budget.visits - 1) as usize, ..found.budget },
            ..found
        };
        let after = match item.name {
            None => next,
            Some(name) => if item.kind == ItemKind::Dir && !is_excluded(name) {
                Found { dirs: found.dirs.push(name), ..next }
            } else if item.kind == ItemKind::File && is_markdown(name) {
                Found { files: found.files.push(name), ..next }
            } else {
                next
            },
        };
        lemma_sifted_are_all(
            items.drop_first(),
            after,
            ScanBudget { visits: (more.visits - 1) as usize, ..more },
            entries,
            visits,
        );
    }
}

/// A tree that met no limit is whole: it has the same lines under every wider
/// limit, and meets none there either.
pub proof fn law_a_tree_within_limits_is_whole(
    dirs: Dirs,
    root: Seq<char>,
    rel: Seq<char>,
    depth: nat,
    budget: ScanBudget,
    more: ScanBudget,
    entries: int,
    visits: int,
)
    requires
        allows_more(budget, more, entries, visits),
        !scan_dir(dirs, root, rel, depth, budget).budget.truncated,
    ensures
        scan_dir(dirs, root, rel, depth, more).entries == scan_dir(
            dirs,
            root,
            rel,
            depth,
            budget,
        ).entries,
        allows_more(
            scan_dir(dirs, root, rel, depth, budget).budget,
            scan_dir(dirs, root, rel, depth, more).budget,
            entries,
            visits,
        ),
    decreases TREE_MAX_DEPTH + 1 - depth, 1int, 0nat,
{
    if depth <= TREE_MAX_DEPTH {
        if let Some(items) = dirs(tree_dir(root, rel)) {
            let start = Found { dirs: seq![], files: seq![], budget };
            let found = sifted(items, start);
            let names = sorted_names(found.dirs);
            let files = sorted_names(found.files);
            let inner = scan_dirs(dirs, root, rel, names, depth, found.budget);
            if inner.budget.truncated {
                lemma_files_stay_truncated(rel, files, inner.budget);
            }
            if found.budget.truncated {
                lemma_truncated_dirs(dirs, root, rel, names, depth, found.budget);
            }
            lemma_sifted_are_all(items, start, more, entries, visits);
            let wider = sifted(items, Found { budget: more, ..start });
            lemma_dirs_within_limits_are_whole(
                dirs,
                root,
                rel,
                names,
                depth,
                found.budget,
                wider.budget,
                entries,
                visits,
            );
            let wide = scan_dirs(dirs, root, rel, names, depth, wider.budget);
            lemma_listed_files_are_all(rel, files, inner.budget, wide.budget, entries, visits);
        }
    }
}

/// A limit that was met stays met.
pub(crate) proof fn lemma_files_stay_truncated(rel: Seq<char>, files: Seq<Seq<char>>, budget: ScanBudget)
    requires
        budget.truncated,
    ensures
        list_files(rel, files, budget).budget.truncated,
    decreases files.len(),
{
    if files.len() > 0 && budget.entries > 0 {
        lemma_files_stay_truncated(
            rel,
            files.drop_first(),
            ScanBudget { entries: (budget.entries - 1) as usize, ..budget },
        );
    }
}

/// Directories that met no limit have the same lines under every wider limit.
proof fn lemma_dirs_within_limits_are_whole(
    dirs: Dirs,
    root: Seq<char>,
    rel: Seq<char>,
    names: Seq<Seq<char>>,
    depth: nat,
    budget: ScanBudget,
    more: ScanBudget,
    entries: int,
    visits: int,
)
    requires
        allows_more(budget, more, entries, visits),
        !scan_dirs(dirs, root, rel, names, depth, budget).budget.truncated,
    ensures
        scan_dirs(dirs, root, rel, names, depth, more).entries == scan_dirs(
            dirs,
            root,
            rel,
            names,
            depth,
            budget,
        ).entries,
        allows_more(
            scan_dirs(dirs, root, rel, names, depth, budget).budget,
            scan_dirs(dirs, root, rel, names, depth, more).budget,
            entries,
            visits,
        ),
    decreases TREE_MAX_DEPTH + 1 - depth, 0int, names.len(),
{
    if names.len() > 0 && depth < TREE_MAX_DEPTH {
        let path = tree_path(rel, names[0]);
        let inner = scan_dir(dirs, root, path, depth + 1, budget);
        let first = with_own_line(path, names[0], inner);
        if first.budget.truncated {
            lemma_truncated_dirs(dirs, root, rel, names.drop_first(), depth, first.budget);
        }
        law_a_tree_within_limits_is_whole(
            dirs,
            root,
            path,
            depth + 1,
            budget,
            more,
            entries,
            visits,
        );
        let wide = with_own_line(path, names[0], scan_dir(dirs, root, path, depth + 1, more));
        lemma_dirs_within_limits_are_whole(
            dirs,
            root,
            rel,
            names.drop_first(),
            depth,
            first.budget,
            wide.budget,
            entries,
            visits,
        );
    }
}

/// Whether a line is one of a directory or of a Markdown file.
pub open spec fn is_tree_line(line: EntryView) -> bool {
    line.is_dir || is_markdown(line.name)
}

/// Whether all of `names` are names of Markdown files.
pub open spec fn all_markdown(names: Seq<Seq<char>>) -> bool {
    forall|i: int| 0 <= i < names.len() ==> is_markdown(#[trigger] names[i])
}

/// What is kept of the entries of a directory as files are Markdown files.
proof fn lemma_sifted_files(items: Seq<ItemView>, found: Found)
    requires
        all_markdown(found.files),
    ensures
        all_markdown(sifted(items, found).files),
    decreases items.len(),
{
    if items.len() > 0 && found.budget.visits > 0 {
        let item = items[0];
        let next = Found {
            budget: ScanBudget { visits: (found.budget.visits - 1) as usize, ..found.budget },
            ..found
        };
        let after = match item.name {
            None => next,
            Some(name) => if item.kind == ItemKind::Dir && !is_excluded(name) {
                Found { dirs: found.dirs.push(name), ..next }
            } else if item.kind == ItemKind::File && is_markdown(name) {
                Found { files: found.files.push(name), ..next }
            } else {
                next
            },
        };
        lemma_sifted_files(items.drop_first(), after);
    }
}

/// Sorting keeps what all names have in common.
proof fn lemma_sorted_markdown(names: Seq<Seq<char>>)
    requires
        all_markdown(names),
    ensures
        all_markdown(sorted_names(names)),
    decreases names.len(),
{
    if names.len() > 0 {
        let shorter = names.drop_last();
        assert forall|i: int| 0 <= i < shorter.len() implies is_markdown(
            #[trigger] shorter[i],
        ) by {
            assert(shorter[i] == names[i]);
        }
        lemma_sorted_markdown(shorter);
        let before = sorted_names(shorter);
        let at = slot(before, lowercase(names.last()));
        lemma_slot_bound(before, lowercase(names.last()));
        let all = before.insert(at, names.last());
        assert forall|i: int| 0 <= i < all.len() implies is_markdown(#[trigger] all[i]) by {
            if i < at {
                assert(all[i] == before[i]);
            } else if i > at {
                assert(all[i] == before[i - 1]);
            } else {
                assert(is_markdown(names[names.len() - 1]));
            }
        }
    }
}

/// The lines of files are lines of Markdown files.
proof fn lemma_file_lines(rel: Seq<char>, files: Seq<Seq<char>>, budget: ScanBudget)
    requires
        all_markdown(files),
    ensures
        forall|i: int|
            0 <= i < list_files(rel, files, budget).entries.len() ==> is_tree_line(
                #[trigger] list_files(rel, files, budget).entries[i],
            ),
    decreases files.len(),
{
    if files.len() > 0 && budget.entries > 0 {
        let shorter = files.drop_first();
        assert forall|i: int| 0 <= i < shorter.len() implies is_markdown(
            #[trigger] shorter[i],
        ) by {
            assert(shorter[i] == files[i + 1]);
        }
        let left = ScanBudget { entries: (budget.entries - 1) as usize, ..budget };
        lemma_file_lines(rel, shorter, left);
        assert(is_markdown(files[0]));
        let rest = list_files(rel, shorter, left).entries;
        let all = list_files(rel, files, budget).entries;
        assert forall|i: int| 0 <= i < all.len() implies is_tree_line(#[trigger] all[i]) by {
            if i > 0 {
                assert(all[i] == rest[i - 1]);
            }
        }
    }
}

/// A tree lists Markdown files, and directories, and nothing else.
pub proof fn law_only_markdown_is_listed(
    dirs: Dirs,
    root: Seq<char>,
    rel: Seq<char>,
    depth: nat,
    budget: ScanBudget,
)
    ensures
        forall|i: int|
            0 <= i < scan_dir(dirs, root, rel, depth, budget).entries.len() ==> is_tree_line(
                #[trigger] scan_dir(dirs, root, rel, depth, budget).entries[i],
            ),
    decreases TREE_MAX_DEPTH + 1 - depth, 1int, 0nat,
{
    if !budget.truncated && depth <= TREE_MAX_DEPTH {
        if let Some(items) = dirs(tree_dir(root, rel)) {
            let start = Found { dirs: seq![], files: seq![], budget };
            let found = sifted(items, start);
            lemma_sifted_files(items, start);
            let names = sorted_names(found.dirs);
            lemma_sorted_markdown(found.files);
            lemma_dir_lines(dirs, root, rel, names, depth, found.budget);
            let inner = scan_dirs(dirs, root, rel, names, depth, found.budget);
            lemma_file_lines(rel, sorted_names(found.files), inner.budget);
            let files = list_files(rel, sorted_names(found.files), inner.budget);
            let all = scan_dir(dirs, root, rel, depth, budget).entries;
            assert(all == inner.entries + files.entries);
            assert forall|i: int| 0 <= i < all.len() implies is_tree_line(#[trigger] all[i]) by {
                if i < inner.entries.len() {
                    assert(all[i] == inner.entries[i]);
                } else {
                    assert(all[i] == files.entries[i - inner.entries.len()]);
                }
            }
        }
    }
}

/// The lines of directories are lines of directories and Markdown files.
proof fn lemma_dir_lines(
    dirs: Dirs,
    root: Seq<char>,
    rel: Seq<char>,
    names: Seq<Seq<char>>,
    depth: nat,
    budget: ScanBudget,
)
    ensures
        forall|i: int|
            0 <= i < scan_dirs(dirs, root, rel, names, depth, budget).entries.len()
                ==> is_tree_line(
                #[trigger] scan_dirs(dirs, root, rel, names, depth, budget).entries[i],
            ),
    decreases TREE_MAX_DEPTH + 1 - depth, 0int, names.len(),
{
    if names.len() > 0 && depth < TREE_MAX_DEPTH {
        let path = tree_path(rel, names[0]);
        law_only_markdown_is_listed(dirs, root, path, depth + 1, budget);
        let inner = scan_dir(dirs, root, path, depth + 1, budget);
        let first = with_own_line(path, names[0], inner);
        lemma_dir_lines(dirs, root, rel, names.drop_first(), depth, first.budget);
        let rest = scan_dirs(dirs, root, rel, names.drop_first(), depth, first.budget);
        let all = scan_dirs(dirs, root, rel, names, depth, budget).entries;
        assert(all == first.entries + rest.entries);
        assert forall|i: int| 0 <= i < first.entries.len() implies is_tree_line(
            #[trigger] first.entries[i],
        ) by {
            if first.entries.len() != inner.entries.len() {
                if i > 0 {
                    assert(first.entries[i] == inner.entries[i - 1]);
                }
            }
        }
        assert forall|i: int| 0 <= i < all.len() implies is_tree_line(#[trigger] all[i]) by {
            if i < first.entries.len() {
                assert(all[i] == first.entries[i]);
            } else {
                assert(all[i] == rest.entries[i - first.entries.len()]);
            }
        }
    }
}

/// Whether the names in all directories can be names of files.
pub open spec fn names_are_proper(dirs: Dirs) -> bool {
    forall|path: Seq<char>, i: int|
        (#[trigger] dirs(path)) matches Some(items) ==> 0 <= i < items.len() ==> ((
        #[trigger] dirs(path)->Some_0[i]).name matches Some(name) ==> is_file_name(name))
}

/// Whether all of `names` can be names of files.
pub open spec fn all_proper(names: Seq<Seq<char>>) -> bool {
    forall|i: int| 0 <= i < names.len() ==> is_file_name(#[trigger] names[i])
}

/// Whether a line can be asked for as it is listed.
pub open spec fn can_be_opened(line: EntryView) -> bool {
    is_plain_relative(line.path) && (line.is_dir || is_markdown(line.path))
}

/// Whether all of `lines` can be asked for as they are listed.
pub open spec fn all_can_be_opened(lines: Seq<EntryView>) -> bool {
    forall|i: int| 0 <= i < lines.len() ==> can_be_opened(#[trigger] lines[i])
}

/// What is kept of the entries of a directory can be names of files.
proof fn lemma_sifted_proper(items: Seq<ItemView>, found: Found)
    requires
        all_proper(found.dirs),
        all_proper(found.files),
        forall|i: int|
            0 <= i < items.len() ==> ((#[trigger] items[i]).name matches Some(name)
                ==> is_file_name(name)),
    ensures
        all_proper(sifted(items, found).dirs),
        all_proper(sifted(items, found).files),
    decreases items.len(),
{
    if items.len() > 0 && found.budget.visits > 0 {
        let item = items[0];
        let next = Found {
            budget: ScanBudget { visits: (found.budget.visits - 1) as usize, ..found.budget },
            ..found
        };
        let after = match item.name {
            None => next,
            Some(name) => if item.kind == ItemKind::Dir && !is_excluded(name) {
                Found { dirs: found.dirs.push(name), ..next }
            } else if item.kind == ItemKind::File && is_markdown(name) {
                Found { files: found.files.push(name), ..next }
            } else {
                next
            },
        };
        let rest = items.drop_first();
        assert forall|i: int| 0 <= i < rest.len() implies ((#[trigger] rest[i]).name matches Some(
            name,
        ) ==> is_file_name(name)) by {
            assert(rest[i] == items[i + 1]);
        }
        lemma_sifted_proper(rest, after);
    }
}

/// Sorting keeps what all names have in common.
proof fn lemma_sorted_proper(names: Seq<Seq<char>>)
    requires
        all_proper(names),
    ensures
        all_proper(sorted_names(names)),
    decreases names.len(),
{
    if names.len() > 0 {
        let shorter = names.drop_last();
        assert forall|i: int| 0 <= i < shorter.len() implies is_file_name(
            #[trigger] shorter[i],
        ) by {
            assert(shorter[i] == names[i]);
        }
        lemma_sorted_proper(shorter);
        let before = sorted_names(shorter);
        let at = slot(before, lowercase(names.last()));
        lemma_slot_bound(before, lowercase(names.last()));
        let all = before.insert(at, names.last());
        assert forall|i: int| 0 <= i < all.len() implies is_file_name(#[trigger] all[i]) by {
            if i < at {
                assert(all[i] == before[i]);
            } else if i > at {
                assert(all[i] == before[i - 1]);
            } else {
                assert(is_file_name(names[names.len() - 1]));
            }
        }
    }
}

/// A name in a directory below the root can be asked for.
proof fn lemma_tree_path(rel: Seq<char>, name: Seq<char>)
    requires
        rel.len() == 0 || is_plain_relative(rel),
        is_file_name(name),
    ensures
        is_plain_relative(tree_path(rel, name)),
        is_markdown(name) ==> is_markdown(tree_path(rel, name)),
{
    law_plain_paths_grow_by_names(rel, name);
    law_plain_paths_grow_by_names(Seq::<char>::empty(), name);
}

/// The lines of files can be asked for.
proof fn lemma_file_lines_open(rel: Seq<char>, files: Seq<Seq<char>>, budget: ScanBudget)
    requires
        rel.len() == 0 || is_plain_relative(rel),
        all_proper(files),
        all_markdown(files),
    ensures
        all_can_be_opened(list_files(rel, files, budget).entries),
    decreases files.len(),
{
    if files.len() > 0 && budget.entries > 0 {
        let shorter = files.drop_first();
        assert forall|i: int| 0 <= i < shorter.len() implies is_markdown(
            #[trigger] shorter[i],
        ) by {
            assert(shorter[i] == files[i + 1]);
        }
        assert forall|i: int| 0 <= i < shorter.len() implies is_file_name(
            #[trigger] shorter[i],
        ) by {
            assert(shorter[i] == files[i + 1]);
        }
        let left = ScanBudget { entries: (budget.entries - 1) as usize, ..budget };
        lemma_file_lines_open(rel, shorter, left);
        assert(is_markdown(files[0]) && is_file_name(files[0]));
        lemma_tree_path(rel, files[0]);
        let rest = list_files(rel, shorter, left).entries;
        let all = list_files(rel, files, budget).entries;
        assert forall|i: int| 0 <= i < all.len() implies can_be_opened(#[trigger] all[i]) by {
            if i > 0 {
                assert(all[i] == rest[i - 1]);
            }
        }
    }
}

/// Every line of a tree names a plain relative path, and every file in it one to
/// Markdown: what a tree lists can be asked for as it is listed.
pub proof fn law_listed_files_can_be_asked_for(
    dirs: Dirs,
    root: Seq<char>,
    rel: Seq<char>,
    depth: nat,
    budget: ScanBudget,
)
    requires
        names_are_proper(dirs),
        rel.len() == 0 || is_plain_relative(rel),
    ensures
        all_can_be_opened(scan_dir(dirs, root, rel, depth, budget).entries),
    decreases TREE_MAX_DEPTH + 1 - depth, 1int, 0nat,
{
    if !budget.truncated && depth <= TREE_MAX_DEPTH {
        let path = tree_dir(root, rel);
        if let Some(items) = dirs(path) {
            let start = Found { dirs: seq![], files: seq![], budget };
            let found = sifted(items, start);
            assert forall|i: int| 0 <= i < items.len() implies ((#[trigger] items[i]).name matches Some(
                name,
            ) ==> is_file_name(name)) by {
                assert(dirs(path)->Some_0[i] == items[i]);
            }
            lemma_sifted_proper(items, start);
            lemma_sifted_files(items, start);
            lemma_sorted_proper(found.dirs);
            lemma_sorted_proper(found.files);
            lemma_sorted_markdown(found.files);
            let names = sorted_names(found.dirs);
            lemma_dir_lines_open(dirs, root, rel, names, depth, found.budget);
            let inner = scan_dirs(dirs, root, rel, names, depth, found.budget);
            lemma_file_lines_open(rel, sorted_names(found.files), inner.budget);
            let files = list_files(rel, sorted_names(found.files), inner.budget);
            let all = scan_dir(dirs, root, rel, depth, budget).entries;
            assert(all == inner.entries + files.entries);
            assert forall|i: int| 0 <= i < all.len() implies can_be_opened(#[trigger] all[i]) by {
                if i < inner.entries.len() {
                    assert(all[i] == inner.entries[i]);
                } else {
                    assert(all[i] == files.entries[i - inner.entries.len()]);
                }
            }
        }
    }
}

/// The lines of directories can be asked for.
proof fn lemma_dir_lines_open(
    dirs: Dirs,
    root: Seq<char>,
    rel: Seq<char>,
    names: Seq<Seq<char>>,
    depth: nat,
    budget: ScanBudget,
)
    requires
        names_are_proper(dirs),
        rel.len() == 0 || is_plain_relative(rel),
        all_proper(names),
    ensures
        all_can_be_opened(scan_dirs(dirs, root, rel, names, depth, budget).entries),
    decreases TREE_MAX_DEPTH + 1 - depth, 0int, names.len(),
{
    if names.len() > 0 && depth < TREE_MAX_DEPTH {
        let path = tree_path(rel, names[0]);
        assert(is_file_name(names[0]));
        lemma_tree_path(rel, names[0]);
        law_listed_files_can_be_asked_for(dirs, root, path, depth + 1, budget);
        let inner = scan_dir(dirs, root, path, depth + 1, budget);
        let first = with_own_line(path, names[0], inner);
        let rest_names = names.drop_first();
        assert forall|i: int| 0 <= i < rest_names.len() implies is_file_name(
            #[trigger] rest_names[i],
        ) by {
            assert(rest_names[i] == names[i + 1]);
        }
        lemma_dir_lines_open(dirs, root, rel, rest_names, depth, first.budget);
        let rest = scan_dirs(dirs, root, rel, rest_names, depth, first.budget);
        let all = scan_dirs(dirs, root, rel, names, depth, budget).entries;
        assert(all == first.entries + rest.entries);
        assert forall|i: int| 0 <= i < first.entries.len() implies can_be_opened(
            #[trigger] first.entries[i],
        ) by {
            if first.entries.len() != inner.entries.len() {
                if i > 0 {
                    assert(first.entries[i] == inner.entries[i - 1]);
                }
            }
        }
        assert forall|i: int| 0 <= i < all.len() implies can_be_opened(#[trigger] all[i]) by {
            if i < first.entries.len() {
                assert(all[i] == first.entries[i]);
            } else {
                assert(all[i] == rest.entries[i - first.entries.len()]);
            }
        }
    }
}

} // verus!
