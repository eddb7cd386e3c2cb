//! What holds of every tree of Markdown files.
use vstd::prelude::*;

use crate::path::{
    has_extension, is_file_name, law_plain_paths_grow_by_names, lemma_find_last_char,
};
use crate::routes::{window_root, window_tree};
use crate::text::{find_last_char, is_word, lemma_word};
use crate::tree::{
    is_excluded, law_sorted_names, lemma_files_stay_truncated, lemma_slot_bound, lemma_slot_split,
    lemma_text_order, lemma_truncated_dirs, list_files, lowercase, names_are_proper, scan_dir,
    scan_dirs, sifted, slot, sorted_names, text_le, tree_dir, tree_path, with_own_line, Dirs,
    EntryView, Found, ItemKind, ItemView, Listed, ScanBudget,
};
use crate::util::{is_markdown, kind_of, FileKind};

verus! {

// ---------------------------------------------------------------------------
// Names
// ---------------------------------------------------------------------------

/// Whether the last dot of a name stands behind its first character, and the word
/// `word` behind that, in letters of any case.
pub open spec fn ends_in(name: Seq<char>, word: Seq<char>) -> bool {
    exists|k: int|
        0 < k < name.len() && #[trigger] name[k] == '.' && !name.skip(k + 1).contains('.')
            && is_word(name.skip(k + 1), word)
}

/// A word behind the last dot is the extension.
pub(crate) proof fn lemma_ends_in(name: Seq<char>, word: Seq<char>)
    requires
        is_file_name(name),
        forall|i: int|
            0 <= i < word.len() ==> 0x61 <= (#[trigger] word[i]) as u32 && word[i] as u32 <= 0x7A,
    ensures
        ends_in(name, word) <==> has_extension(name, word),
{
    let none = Seq::<char>::empty();
    law_plain_paths_grow_by_names(none, name);
    lemma_find_last_char(name, '.');
    if ends_in(name, word) {
        let k = choose|k: int|
            0 < k < name.len() && #[trigger] name[k] == '.' && !name.skip(k + 1).contains('.')
                && is_word(name.skip(k + 1), word);
        assert(name.contains('.'));
        let i = find_last_char(name, '.')->Some_0;
        if k < i {
            assert(name.skip(k + 1)[i - k - 1] == '.');
        } else if i < k {
            assert(name.skip(i + 1)[k - i - 1] == '.');
        }
        lemma_word(name.skip(k + 1), word);
    }
    if has_extension(name, word) {
        let i = find_last_char(name, '.')->Some_0;
        lemma_word(name.skip(i + 1), word);
        assert(name[i] == '.');
    }
}

/// The name of a file is one of Markdown where it ends in `.md` or `.markdown`, in
/// letters of any case, with something before the dot.
pub proof fn law_markdown_is_told_by_its_ending(name: Seq<char>)
    requires
        is_file_name(name),
    ensures
        is_markdown(name) <==> ends_in(name, "md"@) || ends_in(name, "markdown"@),
{
    reveal_strlit("md");
    reveal_strlit("markdown");
    lemma_ends_in(name, "md"@);
    lemma_ends_in(name, "markdown"@);
}

/// The name of a file is one of plain text where it ends in `.txt`, and of no other
/// kind that is opened where it ends in none of the three.
pub proof fn law_kinds_are_told_by_their_endings(name: Seq<char>)
    requires
        is_file_name(name),
    ensures
        kind_of(name) == Some(FileKind::Markdown) <==> ends_in(name, "md"@) || ends_in(
            name,
            "markdown"@,
        ),
        kind_of(name) == Some(FileKind::PlainText) <==> ends_in(name, "txt"@),
{
    reveal_strlit("md");
    reveal_strlit("markdown");
    reveal_strlit("txt");
    lemma_ends_in(name, "md"@);
    lemma_ends_in(name, "markdown"@);
    lemma_ends_in(name, "txt"@);
    assert("md"@.len() != "txt"@.len());
    assert("markdown"@.len() != "txt"@.len());
}

/// Whether a directory is walked: its name neither begins with `.` nor is
/// `node_modules` or `target`.
pub open spec fn is_walked(name: Seq<char>) -> bool {
    &&& name.len() > 0 ==> name[0] != '.'
    &&& name != "node_modules"@
    &&& name != "target"@
}

/// Directories are passed over by their names.
proof fn lemma_walked(name: Seq<char>)
    ensures
        is_walked(name) <==> !is_excluded(name),
{
    reveal_strlit(".");
    if name.len() > 0 && name[0] == '.' {
        assert("."@ =~= name.subrange(0, 1));
    }
    if "."@.is_prefix_of(name) {
        assert("."@[0] == name.subrange(0, 1)[0]);
    }
}

/// Whether an entry is a directory that is walked.
pub open spec fn is_walked_dir(item: ItemView) -> bool {
    item.kind == ItemKind::Dir && (item.name matches Some(name) && is_walked(name))
}

/// Whether an entry is a file that is listed.
pub open spec fn is_listed_file(item: ItemView) -> bool {
    item.kind == ItemKind::File && (item.name matches Some(name) && (ends_in(name, "md"@) || ends_in(
        name,
        "markdown"@,
    )))
}

/// The names of those of `items` that `picked` picks, in the order of the tree.
pub open spec fn picked_names(items: Seq<ItemView>, picked: spec_fn(ItemView) -> bool) -> Seq<
    Seq<char>,
> {
    sorted_names(items.filter(picked).map_values(|i: ItemView| i.name->Some_0))
}

// ---------------------------------------------------------------------------
// The whole tree
// ---------------------------------------------------------------------------

/// The path of `name` in the directory `rel` below the root.
pub open spec fn below(rel: Seq<char>, name: Seq<char>) -> Seq<char> {
    if rel.len() == 0 {
        name
    } else {
        rel.push('/') + name
    }
}

/// A directory with the lines `inner` in it, where there are any.
pub open spec fn dir_lines(path: Seq<char>, name: Seq<char>, inner: Seq<EntryView>) -> Seq<
    EntryView,
> {
    if inner.len() == 0 {
        seq![]
    } else {
        seq![EntryView { path, name, is_dir: true }] + inner
    }
}

/// The lines of the directory `rel` without any limit but that of depth: the
/// directories that are walked and hold something, each followed by what is in it,
/// and then the files.
pub open spec fn whole_tree(dirs: Dirs, root: Seq<char>, rel: Seq<char>, depth: nat) -> Seq<
    EntryView,
>
    decreases 5 - depth, 1int, 0nat,
{
    if depth > 4 {
        seq![]
    } else {
        match dirs(tree_dir(root, rel)) {
            None => seq![],
            Some(items) => whole_dirs(
                dirs,
                root,
                rel,
                picked_names(items, |i: ItemView| is_walked_dir(i)),
                depth,
            ) + picked_names(items, |i: ItemView| is_listed_file(i)).map_values(
                |name: Seq<char>| EntryView { path: below(rel, name), name, is_dir: false },
            ),
        }
    }
}

/// The lines of the directories `names` in the directory `rel`. Below depth 4 there
/// are none.
pub open spec fn whole_dirs(
    dirs: Dirs,
    root: Seq<char>,
    rel: Seq<char>,
    names: Seq<Seq<char>>,
    depth: nat,
) -> Seq<EntryView>
    decreases 5 - depth, 0int, names.len(),
{
    if names.len() == 0 || depth >= 4 {
        seq![]
    } else {
        dir_lines(
            below(rel, names[0]),
            names[0],
            whole_tree(dirs, root, below(rel, names[0]), depth + 1),
        ) + whole_dirs(dirs, root, rel, names.drop_first(), depth)
    }
}

/// What is found among entries that are all looked at.
proof fn lemma_sifted_all(items: Seq<ItemView>, found: Found)
    requires
        !sifted(items, found).budget.truncated,
        forall|i: int|
            0 <= i < items.len() ==> ((#[trigger] items[i]).name matches Some(name)
                ==> is_file_name(name)),
    ensures
        sifted(items, found).dirs == found.dirs + items.filter(
            |i: ItemView| is_walked_dir(i),
        ).map_values(|i: ItemView| i.name->Some_0),
        sifted(items, found).files == found.files + items.filter(
            |i: ItemView| is_listed_file(i),
        ).map_values(|i: ItemView| i.name->Some_0),
    decreases items.len(),
{
    reveal(Seq::filter);
    let d = |i: ItemView| is_walked_dir(i);
    let f = |i: ItemView| is_listed_file(i);
    let n = |i: ItemView| i.name->Some_0;
    if items.len() == 0 {
        assert(found.dirs + items.filter(d).map_values(n) =~= found.dirs);
        assert(found.files + items.filter(f).map_values(n) =~= found.files);
    } else {
        let item = items[0];
        let rest = items.drop_first();
        assert forall|i: int| 0 <= i < rest.len() implies ((#[trigger] rest[i]).name matches Some(
            name,
        ) ==> is_file_name(name)) by {
            assert(rest[i] == items[i + 1]);
        }
        let next = Found {
            budget: ScanBudget { visits: (found.budget.visits - 1) as usize, ..found.budget },
            ..found
        };
        let after = match item.name {
            None => next,
            Some(name) => if item.kind == ItemKind::Dir && !is_excluded(name) {
                Found { dirs: found.dirs.push(name), ..next }
            } else if item.kind == ItemKind::File && is_markdown(name) {
                Found { files: found.files.push(name), ..next }
            } else {
                next
            },
        };
        lemma_sifted_all(rest, after);
        if let Some(name) = item.name {
            lemma_walked(name);
            law_markdown_is_told_by_its_ending(name);
        }
        lemma_filter_front(items, d);
        lemma_filter_front(items, f);
        assert(sifted(items, found).dirs =~= found.dirs + items.filter(d).map_values(n));
        assert(sifted(items, found).files =~= found.files + items.filter(f).map_values(n));
    }
}

/// What is picked is picked from the front.
proof fn lemma_filter_front(items: Seq<ItemView>, picked: spec_fn(ItemView) -> bool)
    requires
        items.len() > 0,
    ensures
        items.filter(picked) == (if picked(items[0]) {
            seq![items[0]]
        } else {
            seq![]
        }) + items.drop_first().filter(picked),
    decreases items.len(),
{
    reveal(Seq::filter);
    if items.len() == 1 {
        assert(items.drop_first() =~= seq![]);
        assert(items.drop_last() =~= seq![]);
        assert(items.drop_last().filter(picked) =~= seq![]);
        assert(items.drop_first().filter(picked) =~= seq![]);
        assert(items.filter(picked) =~= (if picked(items[0]) {
            seq![items[0]]
        } else {
            seq![]
        }) + items.drop_first().filter(picked));
    } else {
        let front = items.drop_last();
        lemma_filter_front(front, picked);
        assert(front.drop_first() =~= items.drop_first().drop_last());
        assert(items.drop_first().last() == items.last());
        assert(items.filter(picked) =~= (if picked(items[0]) {
            seq![items[0]]
        } else {
            seq![]
        }) + items.drop_first().filter(picked));
    }
}

/// Files that are all listed have a line each.
proof fn lemma_all_files(rel: Seq<char>, files: Seq<Seq<char>>, budget: ScanBudget)
    requires
        !list_files(rel, files, budget).budget.truncated,
    ensures
        list_files(rel, files, budget).entries == files.map_values(
            |name: Seq<char>| EntryView { path: below(rel, name), name, is_dir: false },
        ),
    decreases files.len(),
{
    reveal_strlit("/");
    let f = |name: Seq<char>| EntryView { path: below(rel, name), name, is_dir: false };
    if files.len() == 0 {
        assert(list_files(rel, files, budget).entries =~= files.map_values(f));
    } else {
        let rest = files.drop_first();
        lemma_all_files(
            rel,
            rest,
            ScanBudget { entries: (budget.entries - 1) as usize, ..budget },
        );
        assert(tree_path(rel, files[0]) =~= below(rel, files[0]));
        assert(files.map_values(f) =~= seq![f(files[0])] + rest.map_values(f));
    }
}

/// A tree that met no limit is the whole tree: every Markdown file within the depth is
/// listed whose directories are all walked, under the directories that it lies in.
pub proof fn law_a_tree_lists_all_there_is(
    dirs: Dirs,
    root: Seq<char>,
    rel: Seq<char>,
    depth: nat,
    budget: ScanBudget,
)
    requires
        names_are_proper(dirs),
        !budget.truncated,
        !scan_dir(dirs, root, rel, depth, budget).budget.truncated,
    ensures
        scan_dir(dirs, root, rel, depth, budget).entries == whole_tree(dirs, root, rel, depth),
    decreases 5 - depth, 1int, 0nat,
{
    if depth <= 4 {
        let path = tree_dir(root, rel);
        if let Some(items) = dirs(path) {
            let start = Found { dirs: seq![], files: seq![], budget };
            let found = sifted(items, start);
            let names = sorted_names(found.dirs);
            let files = sorted_names(found.files);
            let inner = scan_dirs(dirs, root, rel, names, depth, found.budget);
            if inner.budget.truncated {
                lemma_files_stay_truncated(rel, files, inner.budget);
            }
            if found.budget.truncated {
                lemma_truncated_dirs(dirs, root, rel, names, depth, found.budget);
            }
            assert forall|i: int| 0 <= i < items.len() implies ((#[trigger] items[i]).name matches Some(
                name,
            ) ==> is_file_name(name)) by {
                assert(dirs(path)->Some_0[i] == items[i]);
            }
            lemma_sifted_all(items, start);
            let d = |i: ItemView| is_walked_dir(i);
            let f = |i: ItemView| is_listed_file(i);
            assert(found.dirs =~= items.filter(d).map_values(|i: ItemView| i.name->Some_0));
            assert(found.files =~= items.filter(f).map_values(|i: ItemView| i.name->Some_0));
            lemma_all_files(rel, files, inner.budget);
            lemma_all_dirs(dirs, root, rel, names, depth, found.budget);
            assert(scan_dir(dirs, root, rel, depth, budget).entries =~= whole_tree(
                dirs,
                root,
                rel,
                depth,
            ));
        }
    }
}

/// Directories that met no limit are listed whole.
proof fn lemma_all_dirs(
    dirs: Dirs,
    root: Seq<char>,
    rel: Seq<char>,
    names: Seq<Seq<char>>,
    depth: nat,
    budget: ScanBudget,
)
    requires
        names_are_proper(dirs),
        depth <= 4,
        !budget.truncated,
        !scan_dirs(dirs, root, rel, names, depth, budget).budget.truncated,
    ensures
        scan_dirs(dirs, root, rel, names, depth, budget).entries == whole_dirs(
            dirs,
            root,
            rel,
            names,
            depth,
        ),
    decreases 5 - depth, 0int, names.len(),
{
    reveal_strlit("/");
    let all = scan_dirs(dirs, root, rel, names, depth, budget);
    if depth < 4 && names.len() > 0 {
        let path = tree_path(rel, names[0]);
        assert(path =~= below(rel, names[0]));
        let child = scan_dir(dirs, root, path, depth + 1, budget);
        let first = with_own_line(path, names[0], child);
        let rest = names.drop_first();
        if first.budget.truncated {
            lemma_truncated_dirs(dirs, root, rel, rest, depth, first.budget);
        }
        law_a_tree_lists_all_there_is(dirs, root, path, depth + 1, budget);
        lemma_all_dirs(dirs, root, rel, rest, depth, first.budget);
    }
}

// ---------------------------------------------------------------------------
// What is in it
// ---------------------------------------------------------------------------

/// Whether the directory at `path` has an entry `name` of this kind.
pub open spec fn holds(dirs: Dirs, path: Seq<char>, name: Seq<char>, kind: ItemKind) -> bool {
    dirs(path) matches Some(items) && exists|i: int|
        0 <= i < items.len() && (#[trigger] items[i]).name == Some(name) && items[i].kind == kind
}

/// Whether `names` lead from the directory `rel` down through directories that are
/// walked: none begins with `.` or is called `node_modules` or `target`.
pub open spec fn lead_down(
    dirs: Dirs,
    root: Seq<char>,
    rel: Seq<char>,
    names: Seq<Seq<char>>,
) -> bool
    decreases names.len(),
{
    names.len() == 0 || {
        &&& holds(dirs, tree_dir(root, rel), names[0], ItemKind::Dir)
        &&& names[0].len() > 0 ==> names[0][0] != '.'
        &&& names[0] != "node_modules"@
        &&& names[0] != "target"@
        &&& lead_down(dirs, root, below(rel, names[0]), names.drop_first())
    }
}

/// Where `names` lead from the directory `rel`.
pub open spec fn led_to(rel: Seq<char>, names: Seq<Seq<char>>) -> Seq<char>
    decreases names.len(),
{
    if names.len() == 0 {
        rel
    } else {
        led_to(below(rel, names[0]), names.drop_first())
    }
}

/// A name is picked if and only if an entry with it is.
proof fn lemma_picked(items: Seq<ItemView>, picked: spec_fn(ItemView) -> bool, name: Seq<char>)
    requires
        forall|i: ItemView| #[trigger] picked(i) ==> i.name is Some,
    ensures
        picked_names(items, picked).contains(name) <==> exists|i: int|
            0 <= i < items.len() && picked(#[trigger] items[i]) && items[i].name == Some(name),
{
    broadcast use vstd::seq_lib::group_to_multiset_ensures;

    reveal(Seq::filter);
    let kept = items.filter(picked);
    let names = kept.map_values(|i: ItemView| i.name->Some_0);
    let sorted = sorted_names(names);
    law_sorted_names(names);
    assert(sorted.to_multiset().count(name) == names.to_multiset().count(name));
    assert(sorted.contains(name) <==> names.contains(name));
    lemma_filtered(items, picked);
    if names.contains(name) {
        let k = names.index_of(name);
        assert(kept.contains(kept[k]));
        let i = choose|i: int| 0 <= i < items.len() && items[i] == kept[k];
        assert(picked(items[i]));
        assert(items[i].name == Some(name));
    }
    if exists|i: int|
        0 <= i < items.len() && picked(#[trigger] items[i]) && items[i].name == Some(name) {
        let i = choose|i: int|
            0 <= i < items.len() && picked(#[trigger] items[i]) && items[i].name == Some(name);
        assert(kept.contains(items[i]));
        let k = kept.index_of(items[i]);
        assert(names[k] == name);
    }
}

/// What is kept is what is picked.
proof fn lemma_filtered(items: Seq<ItemView>, picked: spec_fn(ItemView) -> bool)
    ensures
        forall|k: int|
            0 <= k < items.filter(picked).len() ==> picked(#[trigger] items.filter(picked)[k])
                && items.contains(items.filter(picked)[k]),
        forall|i: int|
            0 <= i < items.len() && picked(#[trigger] items[i]) ==> items.filter(picked).contains(
                items[i],
            ),
    decreases items.len(),
{
    reveal(Seq::filter);
    if items.len() > 0 {
        let front = items.drop_last();
        let before = front.filter(picked);
        let all = items.filter(picked);
        let last = items.last();
        lemma_filtered(front, picked);
        assert(items[items.len() - 1] == last);
        assert forall|k: int| 0 <= k < all.len() implies picked(#[trigger] all[k])
            && items.contains(all[k]) by {
            if k < before.len() {
                assert(all[k] == before[k]);
                let i = choose|i: int| 0 <= i < front.len() && front[i] == before[k];
                assert(items[i] == all[k]);
            } else {
                assert(all[k] == last);
            }
        }
        assert forall|i: int| 0 <= i < items.len() && picked(#[trigger] items[i]) implies all.contains(
            items[i],
        ) by {
            if i < front.len() {
                assert(front[i] == items[i]);
                let k = choose|k: int| 0 <= k < before.len() && before[k] == items[i];
                assert(all[k] == items[i]);
            } else {
                assert(all[all.len() - 1] == last);
            }
        }
    }
}

/// The lines of one of the directories are among those of all.
proof fn lemma_dir_is_among(
    dirs: Dirs,
    root: Seq<char>,
    rel: Seq<char>,
    names: Seq<Seq<char>>,
    depth: nat,
    name: Seq<char>,
    line: EntryView,
)
    requires
        depth < 4,
        names.contains(name),
        dir_lines(
            below(rel, name),
            name,
            whole_tree(dirs, root, below(rel, name), depth + 1),
        ).contains(line),
    ensures
        whole_dirs(dirs, root, rel, names, depth).contains(line),
    decreases names.len(),
{
    let first = dir_lines(
        below(rel, names[0]),
        names[0],
        whole_tree(dirs, root, below(rel, names[0]), depth + 1),
    );
    let rest = whole_dirs(dirs, root, rel, names.drop_first(), depth);
    let all = whole_dirs(dirs, root, rel, names, depth);
    assert(all == first + rest);
    if names[0] == name {
        let k = first.index_of(line);
        assert(all[k] == line);
    } else {
        let i = names.index_of(name);
        assert(names.drop_first()[i - 1] == name);
        lemma_dir_is_among(dirs, root, rel, names.drop_first(), depth, name, line);
        let k = rest.index_of(line);
        assert(all[first.len() + k] == line);
    }
}

/// Every Markdown file is in the whole tree that is reached through directories that
/// are walked, at most four of them; and so is the first of those.
proof fn lemma_whole_tree_is_complete(
    dirs: Dirs,
    root: Seq<char>,
    rel: Seq<char>,
    depth: nat,
    names: Seq<Seq<char>>,
    file: Seq<char>,
)
    requires
        depth + names.len() <= 4,
        lead_down(dirs, root, rel, names),
        holds(dirs, tree_dir(root, led_to(rel, names)), file, ItemKind::File),
        ends_in(file, "md"@) || ends_in(file, "markdown"@),
    ensures
        whole_tree(dirs, root, rel, depth).contains(
            EntryView { path: below(led_to(rel, names), file), name: file, is_dir: false },
        ),
        names.len() > 0 ==> whole_tree(dirs, root, rel, depth).contains(
            EntryView { path: below(rel, names[0]), name: names[0], is_dir: true },
        ),
    decreases names.len(),
{
    let items = dirs(tree_dir(root, rel))->Some_0;
    let d = |i: ItemView| is_walked_dir(i);
    let f = |i: ItemView| is_listed_file(i);
    let inner = whole_dirs(dirs, root, rel, picked_names(items, d), depth);
    let line_of = |name: Seq<char>| EntryView { path: below(rel, name), name, is_dir: false };
    let files = picked_names(items, f);
    let lines = files.map_values(line_of);
    let all = whole_tree(dirs, root, rel, depth);
    assert(all =~= inner + lines);
    let line = EntryView { path: below(led_to(rel, names), file), name: file, is_dir: false };
    if names.len() == 0 {
        let i = choose|i: int|
            0 <= i < items.len() && (#[trigger] items[i]).name == Some(file) && items[i].kind
                == ItemKind::File;
        assert(f(items[i]));
        lemma_picked(items, f, file);
        let k = files.index_of(file);
        assert(lines[k] == line);
        assert(all[inner.len() + k] == line);
    } else {
        let name = names[0];
        let path = below(rel, name);
        let i = choose|i: int|
            0 <= i < items.len() && (#[trigger] items[i]).name == Some(name) && items[i].kind
                == ItemKind::Dir;
        assert(d(items[i]));
        lemma_picked(items, d, name);
        lemma_whole_tree_is_complete(dirs, root, path, depth + 1, names.drop_first(), file);
        let child = whole_tree(dirs, root, path, depth + 1);
        let own = EntryView { path, name, is_dir: true };
        let part = dir_lines(path, name, child);
        let k = child.index_of(line);
        assert(part[k + 1] == line);
        assert(part[0] == own);
        lemma_dir_is_among(dirs, root, rel, picked_names(items, d), depth, name, line);
        lemma_dir_is_among(dirs, root, rel, picked_names(items, d), depth, name, own);
        let a = inner.index_of(line);
        let b = inner.index_of(own);
        assert(all[a] == line);
        assert(all[b] == own);
    }
}

/// No Markdown file is passed over: a tree that met no limit lists every file that
/// ends in `.md` or `.markdown` and is reached through at most four directories, none
/// of which begins with `.` or is called `node_modules` or `target`; and it lists the
/// first of those directories.
pub proof fn law_no_markdown_file_is_passed_over(
    dirs: Dirs,
    root: Seq<char>,
    budget: ScanBudget,
    names: Seq<Seq<char>>,
    file: Seq<char>,
)
    requires
        names_are_proper(dirs),
        !budget.truncated,
        !scan_dir(dirs, root, seq![], 0, budget).budget.truncated,
        names.len() <= 4,
        lead_down(dirs, root, seq![], names),
        holds(dirs, tree_dir(root, led_to(seq![], names)), file, ItemKind::File),
        ends_in(file, "md"@) || ends_in(file, "markdown"@),
    ensures
        scan_dir(dirs, root, seq![], 0, budget).entries.contains(
            EntryView { path: below(led_to(seq![], names), file), name: file, is_dir: false },
        ),
        names.len() > 0 ==> scan_dir(dirs, root, seq![], 0, budget).entries.contains(
            EntryView { path: names[0], name: names[0], is_dir: true },
        ),
{
    law_a_tree_lists_all_there_is(dirs, root, seq![], 0, budget);
    lemma_whole_tree_is_complete(dirs, root, seq![], 0, names, file);
}

/// Whether a line is one of a file that is reached from `rel`.
pub open spec fn is_reached(
    dirs: Dirs,
    root: Seq<char>,
    rel: Seq<char>,
    depth: nat,
    line: EntryView,
) -> bool {
    exists|names: Seq<Seq<char>>| #[trigger]
        lead_down(dirs, root, rel, names) && depth + names.len() <= 4 && (if line.is_dir {
            names.len() > 0 && line.name == names.last() && line.path == led_to(rel, names)
        } else {
            &&& holds(dirs, tree_dir(root, led_to(rel, names)), line.name, ItemKind::File)
            &&& ends_in(line.name, "md"@) || ends_in(line.name, "markdown"@)
            &&& line.path == below(led_to(rel, names), line.name)
        })
}

/// What is reached from a directory below is reached from here.
proof fn lemma_reached_from_above(
    dirs: Dirs,
    root: Seq<char>,
    rel: Seq<char>,
    depth: nat,
    name: Seq<char>,
    line: EntryView,
)
    requires
        holds(dirs, tree_dir(root, rel), name, ItemKind::Dir),
        is_walked(name),
        is_reached(dirs, root, below(rel, name), depth + 1, line),
    ensures
        is_reached(dirs, root, rel, depth, line),
{
    let names = choose|names: Seq<Seq<char>>| #[trigger]
        lead_down(dirs, root, below(rel, name), names) && depth + 1 + names.len() <= 4 && (
        if line.is_dir {
            names.len() > 0 && line.name == names.last() && line.path == led_to(
                below(rel, name),
                names,
            )
        } else {
            &&& holds(
                dirs,
                tree_dir(root, led_to(below(rel, name), names)),
                line.name,
                ItemKind::File,
            )
            &&& ends_in(line.name, "md"@) || ends_in(line.name, "markdown"@)
            &&& line.path == below(led_to(below(rel, name), names), line.name)
        });
    let all = seq![name] + names;
    assert(all.drop_first() =~= names);
    assert(lead_down(dirs, root, rel, all));
    assert(led_to(rel, all) == led_to(below(rel, name), names));
    if line.is_dir {
        assert(all.last() == names.last());
    }
}

/// Every line of the whole tree is reached.
proof fn lemma_whole_tree_is_reached(dirs: Dirs, root: Seq<char>, rel: Seq<char>, depth: nat)
    ensures
        forall|k: int|
            0 <= k < whole_tree(dirs, root, rel, depth).len() ==> is_reached(
                dirs,
                root,
                rel,
                depth,
                #[trigger] whole_tree(dirs, root, rel, depth)[k],
            ),
    decreases 5 - depth, 1int, 0nat,
{
    let all = whole_tree(dirs, root, rel, depth);
    if depth <= 4 {
        if let Some(items) = dirs(tree_dir(root, rel)) {
            let d = |i: ItemView| is_walked_dir(i);
            let f = |i: ItemView| is_listed_file(i);
            let names = picked_names(items, d);
            let files = picked_names(items, f);
            let inner = whole_dirs(dirs, root, rel, names, depth);
            let line_of = |name: Seq<char>|
                EntryView { path: below(rel, name), name, is_dir: false };
            let lines = files.map_values(line_of);
            assert(all =~= inner + lines);
            assert forall|k: int| 0 <= k < names.len() implies holds(
                dirs,
                tree_dir(root, rel),
                #[trigger] names[k],
                ItemKind::Dir,
            ) && is_walked(names[k]) by {
                assert(names.contains(names[k]));
                lemma_picked(items, d, names[k]);
            }
            lemma_whole_dirs_are_reached(dirs, root, rel, names, depth);
            assert forall|k: int| 0 <= k < all.len() implies is_reached(
                dirs,
                root,
                rel,
                depth,
                #[trigger] all[k],
            ) by {
                if k < inner.len() {
                    assert(all[k] == inner[k]);
                } else {
                    let name = files[k - inner.len()];
                    assert(all[k] == line_of(name));
                    assert(files.contains(name));
                    lemma_picked(items, f, name);
                    let none = Seq::<Seq<char>>::empty();
                    assert(lead_down(dirs, root, rel, none));
                    assert(led_to(rel, none) == rel);
                    let i = choose|i: int|
                        0 <= i < items.len() && f(#[trigger] items[i]) && items[i].name == Some(
                            name,
                        );
                    assert(is_listed_file(items[i]));
                    assert(holds(dirs, tree_dir(root, rel), name, ItemKind::File));
                }
            }
        }
    }
}

/// Every line of the directories is reached.
proof fn lemma_whole_dirs_are_reached(
    dirs: Dirs,
    root: Seq<char>,
    rel: Seq<char>,
    names: Seq<Seq<char>>,
    depth: nat,
)
    requires
        depth <= 4,
        forall|k: int|
            0 <= k < names.len() ==> holds(
                dirs,
                tree_dir(root, rel),
                #[trigger] names[k],
                ItemKind::Dir,
            ) && is_walked(names[k]),
    ensures
        forall|k: int|
            0 <= k < whole_dirs(dirs, root, rel, names, depth).len() ==> is_reached(
                dirs,
                root,
                rel,
                depth,
                #[trigger] whole_dirs(dirs, root, rel, names, depth)[k],
            ),
    decreases 5 - depth, 0int, names.len(),
{
    let all = whole_dirs(dirs, root, rel, names, depth);
    if names.len() > 0 && depth < 4 {
        let name = names[0];
        let path = below(rel, name);
        let child = whole_tree(dirs, root, path, depth + 1);
        let first = dir_lines(path, name, child);
        let more = names.drop_first();
        let rest = whole_dirs(dirs, root, rel, more, depth);
        assert(all == first + rest);
        assert(holds(dirs, tree_dir(root, rel), names[0], ItemKind::Dir) && is_walked(names[0]));
        assert forall|k: int| 0 <= k < more.len() implies holds(
            dirs,
            tree_dir(root, rel),
            #[trigger] more[k],
            ItemKind::Dir,
        ) && is_walked(more[k]) by {
            assert(more[k] == names[k + 1]);
        }
        lemma_whole_tree_is_reached(dirs, root, path, depth + 1);
        lemma_whole_dirs_are_reached(dirs, root, rel, more, depth);
        assert forall|k: int| 0 <= k < all.len() implies is_reached(
            dirs,
            root,
            rel,
            depth,
            #[trigger] all[k],
        ) by {
            if k < first.len() {
                assert(all[k] == first[k]);
                if k == 0 {
                    let one = seq![name];
                    let none = Seq::<Seq<char>>::empty();
                    assert(one.drop_first() =~= none);
                    assert(lead_down(dirs, root, path, none));
                    assert(lead_down(dirs, root, rel, one));
                    assert(led_to(path, none) == path);
                    assert(led_to(rel, one) == path);
                    assert(one.last() == name);
                } else {
                    assert(first[k] == child[k - 1]);
                    lemma_reached_from_above(dirs, root, rel, depth, name, child[k - 1]);
                }
            } else {
                assert(all[k] == rest[k - first.len()]);
            }
        }
    }
}

/// Nothing else is listed: every line of a tree that met no limit is a Markdown file,
/// or a directory, that is reached through directories that are walked.
pub proof fn law_only_what_is_reached_is_listed(
    dirs: Dirs,
    root: Seq<char>,
    budget: ScanBudget,
    k: int,
)
    requires
        names_are_proper(dirs),
        !budget.truncated,
        !scan_dir(dirs, root, seq![], 0, budget).budget.truncated,
        0 <= k < scan_dir(dirs, root, seq![], 0, budget).entries.len(),
    ensures
        is_reached(dirs, root, seq![], 0, scan_dir(dirs, root, seq![], 0, budget).entries[k]),
{
    law_a_tree_lists_all_there_is(dirs, root, seq![], 0, budget);
    lemma_whole_tree_is_reached(dirs, root, seq![], 0);
}

// ---------------------------------------------------------------------------
// Order
// ---------------------------------------------------------------------------

/// Texts are ordered by the first character in which they differ, and a text comes
/// before those that go on from it.
pub proof fn law_texts_differ_at_a_character(
    same: Seq<char>,
    c: char,
    d: char,
    x: Seq<char>,
    y: Seq<char>,
)
    ensures
        c != d ==> (text_le(same.push(c) + x, same.push(d) + y) <==> c < d),
        text_le(same, same + x),
        !text_le(same.push(c) + x, same),
    decreases same.len(),
{
    let a = same.push(c) + x;
    let b = same.push(d) + y;
    if same.len() > 0 {
        let rest = same.drop_first();
        law_texts_differ_at_a_character(rest, c, d, x, y);
        assert(a.drop_first() =~= rest.push(c) + x);
        assert(b.drop_first() =~= rest.push(d) + y);
        assert((same + x).drop_first() =~= rest + x);
        assert(a[0] == same[0] && b[0] == same[0] && (same + x)[0] == same[0]);
    } else {
        assert(a[0] == c && b[0] == d);
    }
}

/// Names that differ in case only keep the order that they had.
pub proof fn law_names_of_one_kind_keep_their_order(names: Seq<Seq<char>>, key: Seq<char>)
    ensures
        sorted_names(names).filter(|n: Seq<char>| lowercase(n) == key) == names.filter(
            |n: Seq<char>| lowercase(n) == key,
        ),
    decreases names.len(),
{
    let p = |n: Seq<char>| lowercase(n) == key;
    reveal(Seq::filter);
    if names.len() > 0 {
        let front = names.drop_last();
        let name = names.last();
        let before = sorted_names(front);
        let at = slot(before, lowercase(name));
        law_sorted_names(front);
        lemma_slot_bound(before, lowercase(name));
        lemma_slot_split(before, lowercase(name));
        law_names_of_one_kind_keep_their_order(front, key);
        let head = before.take(at);
        let tail = before.skip(at);
        assert(before =~= head + tail);
        assert(before.insert(at, name) =~= head.push(name) + tail);
        Seq::filter_distributes_over_add(head, tail, p);
        Seq::filter_distributes_over_add(head.push(name), tail, p);
        assert(head.push(name).drop_last() =~= head);
        if lowercase(name) == key {
            assert forall|i: int| 0 <= i < tail.len() implies !p(#[trigger] tail[i]) by {
                assert(tail[i] == before[at + i]);
                lemma_text_order(key, key, key);
            }
            lemma_none_picked(tail, p);
        }
        assert(sorted_names(names).filter(p) =~= names.filter(p));
    } else {
        assert(sorted_names(names) =~= names);
    }
}

/// Nothing is picked where nothing is to be.
proof fn lemma_none_picked(names: Seq<Seq<char>>, p: spec_fn(Seq<char>) -> bool)
    requires
        forall|i: int| 0 <= i < names.len() ==> !p(#[trigger] names[i]),
    ensures
        names.filter(p) == Seq::<Seq<char>>::empty(),
    decreases names.len(),
{
    reveal(Seq::filter);
    if names.len() > 0 {
        assert(!p(names[names.len() - 1]));
        let front = names.drop_last();
        assert forall|i: int| 0 <= i < front.len() implies !p(#[trigger] front[i]) by {
            assert(front[i] == names[i]);
        }
        lemma_none_picked(front, p);
    }
}

// ---------------------------------------------------------------------------
// Limits
// ---------------------------------------------------------------------------

/// How many entries are looked at in the directory `rel` and in those below it.
pub open spec fn looked_at(dirs: Dirs, root: Seq<char>, rel: Seq<char>, depth: nat) -> nat
    decreases 5 - depth, 1int, 0nat,
{
    if depth > 4 {
        0
    } else {
        match dirs(tree_dir(root, rel)) {
            None => 0,
            Some(items) => items.len() + looked_at_in(
                dirs,
                root,
                rel,
                picked_names(items, |i: ItemView| is_walked_dir(i)),
                depth,
            ),
        }
    }
}

/// How many are looked at in the directories `names` in the directory `rel`.
pub open spec fn looked_at_in(
    dirs: Dirs,
    root: Seq<char>,
    rel: Seq<char>,
    names: Seq<Seq<char>>,
    depth: nat,
) -> nat
    decreases 5 - depth, 0int, names.len(),
{
    if names.len() == 0 || depth >= 4 {
        0
    } else {
        looked_at(dirs, root, below(rel, names[0]), depth + 1) + looked_at_in(
            dirs,
            root,
            rel,
            names.drop_first(),
            depth,
        )
    }
}

/// Entries that may all be looked at are.
proof fn lemma_sifted_within(items: Seq<ItemView>, found: Found)
    requires
        items.len() <= found.budget.visits,
    ensures
        sifted(items, found).budget == (ScanBudget {
            visits: (found.budget.visits - items.len()) as usize,
            ..found.budget
        }),
    decreases items.len(),
{
    if items.len() > 0 {
        let item = items[0];
        let rest = items.drop_first();
        let next = Found {
            budget: ScanBudget { visits: (found.budget.visits - 1) as usize, ..found.budget },
            ..found
        };
        let after = match item.name {
            None => next,
            Some(name) => if item.kind == ItemKind::Dir && !is_excluded(name) {
                Found { dirs: found.dirs.push(name), ..next }
            } else if item.kind == ItemKind::File && is_markdown(name) {
                Found { files: found.files.push(name), ..next }
            } else {
                next
            },
        };
        lemma_sifted_within(rest, after);
    }
}

/// Files that may all be listed are.
proof fn lemma_files_within(rel: Seq<char>, files: Seq<Seq<char>>, budget: ScanBudget)
    requires
        files.len() <= budget.entries,
    ensures
        list_files(rel, files, budget).budget == (ScanBudget {
            entries: (budget.entries - files.len()) as usize,
            ..budget
        }),
    decreases files.len(),
{
    if files.len() > 0 {
        lemma_files_within(
            rel,
            files.drop_first(),
            ScanBudget { entries: (budget.entries - 1) as usize, ..budget },
        );
    }
}

/// No tree is cut short that has no more lines than may be listed and no more entries
/// than may be looked at.
pub proof fn law_a_small_tree_is_not_cut_short(
    dirs: Dirs,
    root: Seq<char>,
    rel: Seq<char>,
    depth: nat,
    budget: ScanBudget,
)
    requires
        names_are_proper(dirs),
        !budget.truncated,
        whole_tree(dirs, root, rel, depth).len() <= budget.entries,
        looked_at(dirs, root, rel, depth) <= budget.visits,
    ensures
        scan_dir(dirs, root, rel, depth, budget) == (Listed {
            entries: whole_tree(dirs, root, rel, depth),
            budget: ScanBudget {
                entries: (budget.entries - whole_tree(dirs, root, rel, depth).len()) as usize,
                visits: (budget.visits - looked_at(dirs, root, rel, depth)) as usize,
                truncated: false,
            },
        }),
    decreases 5 - depth, 1int, 0nat,
{
    if depth <= 4 {
        let path = tree_dir(root, rel);
        if let Some(items) = dirs(path) {
            let start = Found { dirs: seq![], files: seq![], budget };
            let found = sifted(items, start);
            lemma_sifted_within(items, start);
            assert forall|i: int| 0 <= i < items.len() implies ((#[trigger] items[i]).name matches Some(
                name,
            ) ==> is_file_name(name)) by {
                assert(dirs(path)->Some_0[i] == items[i]);
            }
            lemma_sifted_all(items, start);
            let d = |i: ItemView| is_walked_dir(i);
            let f = |i: ItemView| is_listed_file(i);
            assert(found.dirs =~= items.filter(d).map_values(|i: ItemView| i.name->Some_0));
            assert(found.files =~= items.filter(f).map_values(|i: ItemView| i.name->Some_0));
            let names = sorted_names(found.dirs);
            let files = sorted_names(found.files);
            assert(whole_tree(dirs, root, rel, depth).len() == whole_dirs(
                dirs,
                root,
                rel,
                names,
                depth,
            ).len() + files.len());
            lemma_small_dirs(dirs, root, rel, names, depth, found.budget);
            let inner = scan_dirs(dirs, root, rel, names, depth, found.budget);
            lemma_files_within(rel, files, inner.budget);
            lemma_all_files(rel, files, inner.budget);
            assert(scan_dir(dirs, root, rel, depth, budget).entries =~= whole_tree(
                dirs,
                root,
                rel,
                depth,
            ));
        }
    }
}

/// No directories are cut short within the limits.
proof fn lemma_small_dirs(
    dirs: Dirs,
    root: Seq<char>,
    rel: Seq<char>,
    names: Seq<Seq<char>>,
    depth: nat,
    budget: ScanBudget,
)
    requires
        names_are_proper(dirs),
        depth <= 4,
        !budget.truncated,
        whole_dirs(dirs, root, rel, names, depth).len() <= budget.entries,
        looked_at_in(dirs, root, rel, names, depth) <= budget.visits,
    ensures
        scan_dirs(dirs, root, rel, names, depth, budget) == (Listed {
            entries: whole_dirs(dirs, root, rel, names, depth),
            budget: ScanBudget {
                entries: (budget.entries - whole_dirs(
                    dirs,
                    root,
                    rel,
                    names,
                    depth,
                ).len()) as usize,
                visits: (budget.visits - looked_at_in(dirs, root, rel, names, depth)) as usize,
                truncated: false,
            },
        }),
    decreases 5 - depth, 0int, names.len(),
{
    reveal_strlit("/");
    if depth < 4 && names.len() > 0 {
        let path = tree_path(rel, names[0]);
        assert(path =~= below(rel, names[0]));
        let whole = whole_tree(dirs, root, path, depth + 1);
        let own = dir_lines(path, names[0], whole);
        assert(whole_dirs(dirs, root, rel, names, depth).len() == own.len() + whole_dirs(
            dirs,
            root,
            rel,
            names.drop_first(),
            depth,
        ).len());
        law_a_small_tree_is_not_cut_short(dirs, root, path, depth + 1, budget);
        let child = scan_dir(dirs, root, path, depth + 1, budget);
        let first = with_own_line(path, names[0], child);
        assert(first.entries =~= own);
        lemma_small_dirs(dirs, root, rel, names.drop_first(), depth, first.budget);
    }
}

/// Of more files than may be listed the first are, and it is told that there are more.
pub proof fn law_the_first_files_are_listed(
    rel: Seq<char>,
    files: Seq<Seq<char>>,
    budget: ScanBudget,
)
    requires
        files.len() > budget.entries,
    ensures
        ({
            let listed = list_files(rel, files, budget);
            &&& listed.entries.len() == budget.entries
            &&& listed.budget == (ScanBudget { entries: 0, truncated: true, ..budget })
            &&& forall|i: int|
                0 <= i < listed.entries.len() ==> #[trigger] listed.entries[i] == (EntryView {
                    path: below(rel, files[i]),
                    name: files[i],
                    is_dir: false,
                })
        }),
    decreases files.len(),
{
    reveal_strlit("/");
    if budget.entries > 0 {
        let rest = files.drop_first();
        let less = ScanBudget { entries: (budget.entries - 1) as usize, ..budget };
        law_the_first_files_are_listed(rel, rest, less);
        assert(tree_path(rel, files[0]) =~= below(rel, files[0]));
        let listed = list_files(rel, files, budget);
        let tail = list_files(rel, rest, less);
        assert forall|i: int| 0 <= i < listed.entries.len() implies #[trigger] listed.entries[i]
            == (EntryView { path: below(rel, files[i]), name: files[i], is_dir: false }) by {
            if i > 0 {
                assert(tail.entries[i - 1] == listed.entries[i]);
                assert(rest[i - 1] == files[i]);
            }
        }
    }
}

/// Of more entries than may be looked at the first are, and it is told that there are
/// more.
pub proof fn law_the_first_entries_are_looked_at(items: Seq<ItemView>, found: Found)
    requires
        items.len() > found.budget.visits,
    ensures
        ({
            let seen = sifted(items.take(found.budget.visits as int), found);
            &&& sifted(items, found).dirs == seen.dirs
            &&& sifted(items, found).files == seen.files
            &&& sifted(items, found).budget == (ScanBudget {
                visits: 0,
                truncated: true,
                ..found.budget
            })
        }),
    decreases items.len(),
{
    let n = found.budget.visits as int;
    if n > 0 {
        let item = items[0];
        let rest = items.drop_first();
        let next = Found {
            budget: ScanBudget { visits: (found.budget.visits - 1) as usize, ..found.budget },
            ..found
        };
        let after = match item.name {
            None => next,
            Some(name) => if item.kind == ItemKind::Dir && !is_excluded(name) {
                Found { dirs: found.dirs.push(name), ..next }
            } else if item.kind == ItemKind::File && is_markdown(name) {
                Found { files: found.files.push(name), ..next }
            } else {
                next
            },
        };
        law_the_first_entries_are_looked_at(rest, after);
        assert(items.take(n)[0] == item);
        assert(items.take(n).drop_first() =~= rest.take(n - 1));
    } else {
        assert(items.take(n) =~= seq![]);
    }
}

/// The tree of a window lists no more than two thousand lines, for twenty thousand
/// entries that are looked at: up to that it is whole.
pub proof fn law_the_limits_of_a_window(
    dirs: Dirs,
    root_dir: Option<Seq<char>>,
    path: Seq<char>,
)
    requires
        names_are_proper(dirs),
        ({
            let root = window_root(root_dir, path);
            &&& whole_tree(dirs, root, seq![], 0).len() <= 2000
            &&& looked_at(dirs, root, seq![], 0) <= 20000
        }),
    ensures
        ({
            let root = window_root(root_dir, path);
            &&& window_tree(root_dir, path)(dirs).entries == whole_tree(dirs, root, seq![], 0)
            &&& !window_tree(root_dir, path)(dirs).budget.truncated
        }),
{
    law_a_small_tree_is_not_cut_short(
        dirs,
        window_root(root_dir, path),
        seq![],
        0,
        ScanBudget { entries: 2000, visits: 20000, truncated: false },
    );
}

} // verus!
