//! What holds of sidecars, of their JSON and of exports, whatever they hold.
use vstd::prelude::*;
use vstd::utf8::encode_utf8;

use crate::json::{compact, pretty, JsonView};
use crate::path::{
    joined_path, law_a_name_in_a_directory, law_names_are_taken_apart_at_the_last_dot,
    law_names_without_a_dot_stay_whole,
};
use crate::render::{
    document_anchors, is_lower_hex, leading_digits, lemma_last_block, nest_in_last_block,
    nests_in_last_block, AnchorKind, AnchorView,
};
use crate::review::{
    acceptable_hash, acceptable_id, after_validation, block_comments, block_error, block_word,
    blocks_error, blocks_seen, bullet, bullets, comment_json, commented_block, commented_blocks,
    comments_at, comments_error, comments_json, continuation, error_text, export_file, export_text,
    file_section_text, find_block, flat, has_hash, hashes_are_distinct, is_hex_char, kind_word,
    line_label_text, loaded, lost_text, losts_text, normalized, place_text, quoted,
    review_block_json, review_json, review_members, section_blocks, section_text, sections,
    sections_text, summary_text, unanchored_hashes, validation_error, AnchorKindDto, CommentView,
    LoadError, ReviewBlockView, ReviewDoc, ReviewErrorView, ReviewView, SidecarRead,
};
use crate::routes::review_reply;
use crate::text::{
    decimal, find_char, lemma_find_char, lines, trimmed_end, trimmed_start, without_cr,
};

verus! {

// ---------------------------------------------------------------------------
// The JSON of a sidecar
// ---------------------------------------------------------------------------

/// Whether member `i` is the one with the name `name`, and has this value.
pub open spec fn is_member(
    members: Seq<(Seq<char>, JsonView)>,
    i: int,
    name: Seq<char>,
    value: JsonView,
) -> bool {
    &&& 0 <= i < members.len()
    &&& members[i].0 == name
    &&& members[i].1 == value
    &&& forall|j: int| 0 <= j < members.len() && j != i ==> (#[trigger] members[j]).0 != name
}

/// Whether a JSON object has a member `name` with this value, and no other member of
/// that name.
pub open spec fn has_member(json: JsonView, name: Seq<char>, value: JsonView) -> bool {
    json matches JsonView::Object(members) && exists|i: int| #[trigger]
        is_member(members, i, name, value)
}

/// Whether a JSON object says that its `name` is the text `text`.
pub open spec fn has_text(json: JsonView, name: Seq<char>, text: Seq<char>) -> bool {
    has_member(json, name, JsonView::Text(text))
}

/// Whether `json` reads as the comment `c`.
pub open spec fn reads_as_comment(json: JsonView, c: CommentView) -> bool {
    &&& has_text(json, "id"@, c.id)
    &&& has_text(json, "text"@, c.text)
    &&& has_text(json, "created"@, c.created)
    &&& has_text(json, "updated"@, c.updated)
}

/// Whether `json` reads as the list `comments`.
pub open spec fn reads_as_comments(json: JsonView, comments: Seq<CommentView>) -> bool {
    json matches JsonView::List(items) && items.len() == comments.len() && forall|i: int|
        0 <= i < items.len() ==> reads_as_comment(#[trigger] items[i], comments[i])
}

/// Whether `word` names the kind `kind`.
pub open spec fn names_kind(word: Seq<char>, kind: AnchorKindDto) -> bool {
    match kind {
        AnchorKindDto::Block => word == "block"@,
        AnchorKindDto::Item => word == "item"@,
        AnchorKindDto::Row => word == "row"@,
    }
}

/// Whether `json` reads as the block `b`.
pub open spec fn reads_as_block(json: JsonView, b: ReviewBlockView) -> bool {
    &&& has_text(json, "hash"@, b.hash)
    &&& has_text(json, "excerpt"@, b.excerpt)
    &&& exists|word: Seq<char>| #[trigger] has_text(json, "kind"@, word) && names_kind(word, b.kind)
    &&& exists|list: JsonView| #[trigger]
        has_member(json, "comments"@, list) && reads_as_comments(list, b.comments)
}

/// Whether `json` reads as the list `blocks`.
pub open spec fn reads_as_blocks(json: JsonView, blocks: Seq<ReviewBlockView>) -> bool {
    json matches JsonView::List(items) && items.len() == blocks.len() && forall|i: int|
        0 <= i < items.len() ==> reads_as_block(#[trigger] items[i], blocks[i])
}

/// Whether `json` reads as the sidecar `doc`, by the names of its members.
pub open spec fn reads_as_review(json: JsonView, doc: ReviewView) -> bool {
    &&& has_member(json, "version"@, JsonView::Number(doc.version as nat))
    &&& has_text(json, "file"@, doc.file)
    &&& exists|list: JsonView| #[trigger]
        has_member(json, "blocks"@, list) && reads_as_blocks(list, doc.blocks)
    &&& exists|list: JsonView| #[trigger]
        has_member(json, "file_comments"@, list) && reads_as_comments(list, doc.file_comments)
}

/// A member is found by its name where no other has that.
pub(crate) proof fn lemma_has_member(members: Seq<(Seq<char>, JsonView)>, i: int)
    requires
        0 <= i < members.len(),
        forall|j: int|
            0 <= j < members.len() && j != i ==> (#[trigger] members[j]).0 != members[i].0,
    ensures
        has_member(JsonView::Object(members), members[i].0, members[i].1),
{
    let json = JsonView::Object(members);
    assert(json->Object_0 == members);
    assert(is_member(json->Object_0, i, members[i].0, members[i].1));
    assert(exists|k: int| #[trigger] is_member(members, k, members[i].0, members[i].1));
}

/// A comment is read back from its JSON.
proof fn lemma_comment_is_read_back(c: CommentView)
    ensures
        reads_as_comment(comment_json(c), c),
{
    reveal_strlit("id");
    reveal_strlit("text");
    reveal_strlit("created");
    reveal_strlit("updated");
    let m = comment_json(c)->Object_0;
    assert("id"@.len() == 2 && "text"@.len() == 4 && "created"@.len() == 7);
    assert("created"@[0] != "updated"@[0]);
    lemma_has_member(m, 0);
    lemma_has_member(m, 1);
    lemma_has_member(m, 2);
    lemma_has_member(m, 3);
}

/// Comments are read back from their JSON.
proof fn lemma_comments_are_read_back(comments: Seq<CommentView>)
    ensures
        reads_as_comments(comments_json(comments), comments),
{
    let items = comments_json(comments)->List_0;
    assert forall|i: int| 0 <= i < items.len() implies reads_as_comment(
        #[trigger] items[i],
        comments[i],
    ) by {
        lemma_comment_is_read_back(comments[i]);
    }
}

/// A block is read back from its JSON.
proof fn lemma_block_is_read_back(b: ReviewBlockView)
    ensures
        reads_as_block(review_block_json(b), b),
{
    reveal_strlit("hash");
    reveal_strlit("excerpt");
    reveal_strlit("kind");
    reveal_strlit("comments");
    let json = review_block_json(b);
    let m = json->Object_0;
    assert("hash"@.len() == 4 && "excerpt"@.len() == 7 && "kind"@.len() == 4 && "comments"@.len()
        == 8);
    assert("hash"@[0] != "kind"@[0]);
    lemma_has_member(m, 0);
    lemma_has_member(m, 1);
    lemma_has_member(m, 2);
    lemma_has_member(m, 3);
    assert(has_text(json, "kind"@, kind_word(b.kind)));
    assert(has_member(json, "comments"@, comments_json(b.comments)));
    lemma_comments_are_read_back(b.comments);
}

/// The members of a sidecar read as the sidecar, with or without others behind them.
proof fn lemma_members_are_read_back(doc: ReviewView, more: Seq<(Seq<char>, JsonView)>)
    requires
        forall|j: int|
            0 <= j < more.len() ==> (#[trigger] more[j]).0 != "version"@ && more[j].0 != "file"@
                && more[j].0 != "blocks"@ && more[j].0 != "file_comments"@,
    ensures
        reads_as_review(JsonView::Object(review_members(doc) + more), doc),
{
    reveal_strlit("version");
    reveal_strlit("file");
    reveal_strlit("blocks");
    reveal_strlit("file_comments");
    let own = review_members(doc);
    let m = own + more;
    let json = JsonView::Object(m);
    assert("version"@.len() == 7 && "file"@.len() == 4 && "blocks"@.len() == 6
        && "file_comments"@.len() == 13);
    assert forall|i: int, j: int| 0 <= i < 4 && 0 <= j < m.len() && j != i implies (#[trigger] m[j]).0
        != (#[trigger] m[i]).0 by {
        if j >= 4 {
            assert(m[j] == more[j - 4]);
        }
    }
    lemma_has_member(m, 0);
    lemma_has_member(m, 1);
    lemma_has_member(m, 2);
    lemma_has_member(m, 3);
    let blocks = JsonView::List(doc.blocks.map_values(|b: ReviewBlockView| review_block_json(b)));
    assert(m[2] == ("blocks"@, blocks));
    assert(m[3] == ("file_comments"@, comments_json(doc.file_comments)));
    assert(has_member(json, "blocks"@, blocks));
    assert(has_member(json, "file_comments"@, comments_json(doc.file_comments)));
    lemma_comments_are_read_back(doc.file_comments);
    let items = blocks->List_0;
    assert forall|i: int| 0 <= i < items.len() implies reads_as_block(
        #[trigger] items[i],
        doc.blocks[i],
    ) by {
        lemma_block_is_read_back(doc.blocks[i]);
    }
}

/// The JSON of a sidecar reads as the sidecar: nothing of it is lost or changed.
/// That stays so when members of other names are put behind it.
pub proof fn law_a_sidecar_is_read_back(doc: ReviewView, more: Seq<(Seq<char>, JsonView)>)
    requires
        forall|j: int|
            0 <= j < more.len() ==> (#[trigger] more[j]).0 != "version"@ && more[j].0 != "file"@
                && more[j].0 != "blocks"@ && more[j].0 != "file_comments"@,
    ensures
        reads_as_review(review_json(doc), doc),
        reads_as_review(JsonView::Object(review_members(doc) + more), doc),
{
    lemma_members_are_read_back(doc, more);
    lemma_members_are_read_back(doc, seq![]);
    assert(review_members(doc) + Seq::<(Seq<char>, JsonView)>::empty() =~= review_members(doc));
}

/// JSON reads as one comment at most.
proof fn lemma_one_comment(json: JsonView, a: CommentView, b: CommentView)
    requires
        reads_as_comment(json, a),
        reads_as_comment(json, b),
    ensures
        a == b,
{
}

/// JSON reads as one list of comments at most.
proof fn lemma_one_list(json: JsonView, a: Seq<CommentView>, b: Seq<CommentView>)
    requires
        reads_as_comments(json, a),
        reads_as_comments(json, b),
    ensures
        a == b,
{
    let items = json->List_0;
    assert forall|i: int| 0 <= i < a.len() implies a[i] == b[i] by {
        assert(reads_as_comment(items[i], a[i]));
        assert(reads_as_comment(items[i], b[i]));
        lemma_one_comment(items[i], a[i], b[i]);
    }
    assert(a =~= b);
}

/// JSON reads as one block at most.
proof fn lemma_one_block(json: JsonView, a: ReviewBlockView, b: ReviewBlockView)
    requires
        reads_as_block(json, a),
        reads_as_block(json, b),
    ensures
        a == b,
{
    reveal_strlit("block");
    reveal_strlit("item");
    reveal_strlit("row");
    assert("block"@.len() == 5 && "item"@.len() == 4 && "row"@.len() == 3);
    let x = choose|list: JsonView| #[trigger]
        has_member(json, "comments"@, list) && reads_as_comments(list, a.comments);
    lemma_one_list(x, a.comments, b.comments);
}

/// JSON reads as one sidecar at most: two different sidecars never have the same
/// JSON.
pub proof fn law_json_reads_as_one_sidecar(json: JsonView, a: ReviewView, b: ReviewView)
    requires
        reads_as_review(json, a),
        reads_as_review(json, b),
    ensures
        a == b,
{
    let x = choose|list: JsonView| #[trigger]
        has_member(json, "blocks"@, list) && reads_as_blocks(list, a.blocks);
    let items = x->List_0;
    assert forall|i: int| 0 <= i < a.blocks.len() implies a.blocks[i] == b.blocks[i] by {
        assert(reads_as_block(items[i], a.blocks[i]));
        assert(reads_as_block(items[i], b.blocks[i]));
        lemma_one_block(items[i], a.blocks[i], b.blocks[i]);
    }
    assert(a.blocks =~= b.blocks);
    let y = choose|list: JsonView| #[trigger]
        has_member(json, "file_comments"@, list) && reads_as_comments(list, a.file_comments);
    lemma_one_list(y, a.file_comments, b.file_comments);
}

// ---------------------------------------------------------------------------
// Bullets
// ---------------------------------------------------------------------------

/// `text` with two spaces behind each line break.
pub open spec fn indented(text: Seq<char>) -> Seq<char> {
    text.map_values(
        |c: char|
            if c == '\n' {
                seq!['\n', ' ', ' ']
            } else {
                seq![c]
            },
    ).flatten()
}

/// Text is indented piece by piece.
proof fn lemma_indented_push(a: Seq<char>, c: char)
    ensures
        indented(a.push(c)) == indented(a) + if c == '\n' {
            seq!['\n', ' ', ' ']
        } else {
            seq![c]
        },
{
    let f = |c: char|
        if c == '\n' {
            seq!['\n', ' ', ' ']
        } else {
            seq![c]
        };
    assert(a.push(c).map_values(f) =~= a.map_values(f).push(f(c)));
    a.map_values(f).lemma_flatten_push(f(c));
}

/// Text is indented piece by piece.
proof fn lemma_indented_add(a: Seq<char>, b: Seq<char>)
    ensures
        indented(a + b) == indented(a) + indented(b),
    decreases b.len(),
{
    if b.len() == 0 {
        assert(a + b =~= a);
        assert(indented(b) =~= seq![]);
        assert(indented(a) + indented(b) =~= indented(a));
    } else {
        let front = b.drop_last();
        lemma_indented_add(a, front);
        lemma_indented_push(a + front, b.last());
        lemma_indented_push(front, b.last());
        assert(a + b =~= (a + front).push(b.last()));
        assert(b =~= front.push(b.last()));
        assert(indented(a + b) =~= indented(a) + indented(b));
    }
}

/// One line needs no indenting.
proof fn lemma_indented_line(a: Seq<char>)
    requires
        !a.contains('\n'),
    ensures
        indented(a) == a,
    decreases a.len(),
{
    if a.len() == 0 {
        assert(indented(a) =~= a);
    } else {
        let front = a.drop_last();
        assert(!front.contains('\n')) by {
            if front.contains('\n') {
                let i = front.index_of('\n');
                assert(a[i] == '\n');
            }
        }
        lemma_indented_line(front);
        lemma_indented_push(front, a.last());
        assert(a[a.len() - 1] != '\n');
        assert(a =~= front.push(a.last()));
    }
}

/// `text` without the line break that ends it.
pub open spec fn without_last_break(text: Seq<char>) -> Seq<char> {
    if text.len() > 0 && text.last() == '\n' {
        text.drop_last()
    } else {
        text
    }
}

/// Lines, of which all but the first are indented.
spec fn hanging(lines: Seq<Seq<char>>) -> Seq<char>
    decreases lines.len(),
{
    if lines.len() == 0 {
        seq![]
    } else if lines.len() == 1 {
        lines[0].push('\n')
    } else {
        lines[0].push('\n') + seq![' ', ' '] + hanging(lines.drop_first())
    }
}

/// The lines of a bullet hang.
proof fn lemma_bullet_hangs(lines: Seq<Seq<char>>)
    requires
        lines.len() > 0,
    ensures
        lines[0].push('\n') + continuation(lines) == hanging(lines),
    decreases lines.len(),
{
    reveal_strlit("  ");
    reveal_strlit("\n");
    if lines.len() == 1 {
        assert(lines[0].push('\n') + continuation(lines) =~= hanging(lines));
    } else {
        lemma_hanging_push(lines.drop_last(), lines.last());
        lemma_bullet_hangs(lines.drop_last());
        assert(lines =~= lines.drop_last().push(lines.last()));
        assert(lines[0].push('\n') + continuation(lines) =~= hanging(lines));
    }
}

/// A line more hangs behind the others.
proof fn lemma_hanging_push(lines: Seq<Seq<char>>, line: Seq<char>)
    requires
        lines.len() > 0,
    ensures
        hanging(lines.push(line)) == hanging(lines) + seq![' ', ' '] + line.push('\n'),
    decreases lines.len(),
{
    let all = lines.push(line);
    if lines.len() == 1 {
        assert(all.drop_first() =~= seq![line]);
        assert(hanging(seq![line]) == line.push('\n'));
        assert(hanging(all) =~= hanging(lines) + seq![' ', ' '] + line.push('\n'));
    } else {
        lemma_hanging_push(lines.drop_first(), line);
        assert(all.drop_first() =~= lines.drop_first().push(line));
        assert(hanging(all) =~= hanging(lines) + seq![' ', ' '] + line.push('\n'));
    }
}

/// The lines of a text hang as the text is indented.
proof fn lemma_text_hangs(text: Seq<char>)
    requires
        !text.contains('\r'),
        text.len() > 0,
    ensures
        lines(text).len() > 0,
        hanging(lines(text)) == indented(without_last_break(text)).push('\n'),
    decreases text.len(),
{
    lemma_find_char(text, '\n');
    match find_char(text, '\n') {
        None => {
            assert(lines(text) =~= seq![text]);
            lemma_indented_line(text);
            assert(without_last_break(text) == text) by {
                assert(text[text.len() - 1] != '\n');
            }
        },
        Some(i) => {
            let first = text.take(i);
            let rest = text.skip(i + 1);
            assert(!first.contains('\n')) by {
                if first.contains('\n') {
                    let k = first.index_of('\n');
                    assert(text[k] == '\n');
                }
            }
            assert(without_cr(first) == first) by {
                if first.len() > 0 && first.last() == '\r' {
                    assert(text[i - 1] == '\r');
                }
            }
            assert(!rest.contains('\r')) by {
                if rest.contains('\r') {
                    let k = rest.index_of('\r');
                    assert(text[i + 1 + k] == '\r');
                }
            }
            lemma_indented_line(first);
            let tail = lines(rest);
            assert(lines(text) == seq![first] + tail);
            assert(lines(text).drop_first() =~= tail);
            if rest.len() == 0 {
                assert(tail =~= seq![]);
                assert(text.drop_last() =~= first);
                assert(hanging(lines(text)) =~= indented(first).push('\n'));
            } else {
                lemma_text_hangs(rest);
                assert(rest.last() == text.last());
                let u = without_last_break(rest);
                assert(without_last_break(text) =~= first.push('\n') + u);
                lemma_indented_add(first.push('\n'), u);
                lemma_indented_push(first, '\n');
                assert(hanging(lines(text)) =~= indented(without_last_break(text)).push('\n'));
            }
        },
    }
}

/// A comment is shown whole, as one bullet: `- `, its text with every further line
/// indented by two spaces, and a line break. A line break that ends the text is not
/// shown twice.
pub proof fn law_a_comment_is_shown_whole(text: Seq<char>)
    requires
        !text.contains('\r'),
    ensures
        bullet(text) == "- "@ + indented(without_last_break(text)) + "\n"@,
{
    reveal_strlit("\n");
    reveal_strlit("  ");
    if text.len() == 0 {
        assert(lines(text) =~= seq![]);
        assert(indented(text) =~= seq![]);
        assert(bullet(text) =~= "- "@ + indented(text) + "\n"@);
    } else {
        lemma_text_hangs(text);
        lemma_bullet_hangs(lines(text));
        assert(bullet(text) =~= "- "@ + (lines(text)[0].push('\n') + continuation(lines(text))));
        assert("- "@ + indented(without_last_break(text)).push('\n') =~= "- "@ + indented(
            without_last_break(text),
        ) + "\n"@);
    }
}

// ---------------------------------------------------------------------------
// Exports
// ---------------------------------------------------------------------------

/// What stands for comments in an export: a bullet for each, in their order.
pub open spec fn all_bullets(comments: Seq<CommentView>) -> Seq<char> {
    comments.map_values(|c: CommentView| bullet(c.text)).flatten()
}

/// A section of an export: a heading, and a bullet for each comment.
pub open spec fn entry(heading: Seq<char>, comments: Seq<CommentView>) -> Seq<char> {
    heading + "\n\n"@ + all_bullets(comments) + "\n"@
}

/// The bullets of comments are the bullet of each.
proof fn lemma_bullets(comments: Seq<CommentView>)
    ensures
        bullets(comments) == all_bullets(comments),
    decreases comments.len(),
{
    let f = |c: CommentView| bullet(c.text);
    if comments.len() == 0 {
        assert(comments.map_values(f) =~= seq![]);
        assert(bullets(comments) =~= all_bullets(comments));
    } else {
        let front = comments.drop_last();
        lemma_bullets(front);
        assert(comments.map_values(f) =~= front.map_values(f).push(f(comments.last())));
        front.map_values(f).lemma_flatten_push(f(comments.last()));
    }
}

/// Whether anchor `i` is shown with the comments of block `j`: they have the same
/// hash, both are the first that have it, and there are comments.
pub open spec fn is_shown(
    blocks: Seq<ReviewBlockView>,
    anchors: Seq<AnchorView>,
    i: int,
    j: int,
) -> bool {
    &&& 0 <= i < anchors.len()
    &&& 0 <= j < blocks.len()
    &&& anchors[i].hash == blocks[j].hash
    &&& blocks[j].comments.len() > 0
    &&& forall|k: int| 0 <= k < i ==> (#[trigger] anchors[k]).hash != anchors[i].hash
    &&& forall|k: int| 0 <= k < j ==> (#[trigger] blocks[k]).hash != blocks[j].hash
}

/// Whether `shown` lists what is shown at its anchor, in the order of the document.
pub open spec fn lists_shown(
    blocks: Seq<ReviewBlockView>,
    anchors: Seq<AnchorView>,
    shown: Seq<(int, int)>,
) -> bool {
    &&& forall|k: int|
        0 <= k < shown.len() ==> is_shown(blocks, anchors, (#[trigger] shown[k]).0, shown[k].1)
    &&& forall|k: int, m: int|
        0 <= k < m < shown.len() ==> (#[trigger] shown[k]).0 < (#[trigger] shown[m]).0
    &&& forall|i: int, j: int| #[trigger]
        is_shown(blocks, anchors, i, j) ==> shown.contains((i, j))
}

/// Whether block `j` has no anchor any more and the comments of block `f` are shown for
/// it: that is the first block with its hash, itself where there is no other, and has
/// comments.
pub open spec fn is_lost(
    blocks: Seq<ReviewBlockView>,
    anchors: Seq<AnchorView>,
    j: int,
    f: int,
) -> bool {
    &&& 0 <= f <= j < blocks.len()
    &&& blocks[f].hash == blocks[j].hash
    &&& blocks[f].comments.len() > 0
    &&& forall|k: int| 0 <= k < f ==> (#[trigger] blocks[k]).hash != blocks[j].hash
    &&& forall|k: int| 0 <= k < anchors.len() ==> (#[trigger] anchors[k]).hash != blocks[j].hash
}

/// Whether `gone` lists the blocks that have no anchor any more, in the order of the
/// sidecar, and `lost` those whose comments are shown for them.
pub open spec fn lists_lost(
    blocks: Seq<ReviewBlockView>,
    anchors: Seq<AnchorView>,
    gone: Seq<int>,
    lost: Seq<int>,
) -> bool {
    &&& gone.len() == lost.len()
    &&& forall|k: int|
        0 <= k < gone.len() ==> is_lost(blocks, anchors, #[trigger] gone[k], lost[k])
    &&& forall|k: int, m: int| 0 <= k < m < gone.len() ==> #[trigger] gone[k] < #[trigger] gone[m]
    &&& forall|j: int, f: int| #[trigger] is_lost(blocks, anchors, j, f) ==> gone.contains(j)
}

/// Where no two blocks have the same hash each block that is lost is shown itself.
pub proof fn law_lost_blocks_are_shown_themselves(
    blocks: Seq<ReviewBlockView>,
    anchors: Seq<AnchorView>,
    gone: Seq<int>,
    lost: Seq<int>,
)
    requires
        hashes_are_distinct(blocks),
        lists_lost(blocks, anchors, gone, lost),
    ensures
        gone == lost,
{
    assert forall|k: int| 0 <= k < gone.len() implies gone[k] == lost[k] by {
        assert(is_lost(blocks, anchors, gone[k], lost[k]));
        if lost[k] < gone[k] {
            assert(blocks[lost[k]].hash != blocks[gone[k]].hash);
        }
    }
    assert(gone =~= lost);
}

/// The first block with a hash is the one that is found.
proof fn lemma_first_is_found(blocks: Seq<ReviewBlockView>, hash: Seq<char>, i: int, j: int)
    requires
        0 <= i <= j < blocks.len(),
        blocks[j].hash == hash,
        forall|k: int| 0 <= k < j ==> (#[trigger] blocks[k]).hash != hash,
    ensures
        find_block(blocks, hash, i) == Some(j),
    decreases j - i,
{
    if i < j {
        assert(blocks[i].hash != hash);
        lemma_first_is_found(blocks, hash, i + 1, j);
    }
}

/// What is found is the first block with a hash.
proof fn lemma_found_is_first(blocks: Seq<ReviewBlockView>, hash: Seq<char>, i: int)
    requires
        0 <= i,
        forall|k: int| 0 <= k < i && k < blocks.len() ==> (#[trigger] blocks[k]).hash != hash,
    ensures
        find_block(blocks, hash, i) matches Some(j) ==> 0 <= j < blocks.len() && blocks[j].hash
            == hash && forall|k: int| 0 <= k < j ==> (#[trigger] blocks[k]).hash != hash,
    decreases blocks.len() - i,
{
    if i < blocks.len() && blocks[i].hash != hash {
        lemma_found_is_first(blocks, hash, i + 1);
    }
}

/// The sections for the first anchors are the first of what is listed.
proof fn lemma_sections_are_listed(
    blocks: Seq<ReviewBlockView>,
    anchors: Seq<AnchorView>,
    shown: Seq<(int, int)>,
    n: int,
) -> (c: int)
    requires
        lists_shown(blocks, anchors, shown),
        0 <= n <= anchors.len(),
    ensures
        0 <= c <= shown.len(),
        shown.take(c) == sections(blocks, anchors, n),
        forall|k: int| 0 <= k < c ==> (#[trigger] shown[k]).0 < n,
        forall|k: int| c <= k < shown.len() ==> (#[trigger] shown[k]).0 >= n,
    decreases n,
{
    if n == 0 {
        assert(shown.take(0) =~= sections(blocks, anchors, 0));
        assert forall|k: int| 0 <= k < shown.len() implies (#[trigger] shown[k]).0 >= 0 by {
            assert(is_shown(blocks, anchors, shown[k].0, shown[k].1));
        }
        0
    } else {
        let c = lemma_sections_are_listed(blocks, anchors, shown, n - 1);
        let hash = anchors[n - 1].hash;
        lemma_found_is_first(blocks, hash, 0);
        let seen = has_hash(anchors.take(n - 1), hash);
        assert(seen <==> exists|k: int| 0 <= k < n - 1 && (#[trigger] anchors[k]).hash == hash) by {
            if exists|k: int| 0 <= k < n - 1 && (#[trigger] anchors[k]).hash == hash {
                let k = choose|k: int| 0 <= k < n - 1 && (#[trigger] anchors[k]).hash == hash;
                assert(anchors.take(n - 1)[k].hash == hash);
            }
            if seen {
                let k = choose|k: int|
                    0 <= k < anchors.take(n - 1).len() && (#[trigger] anchors.take(n - 1)[k]).hash
                        == hash;
                assert(anchors[k].hash == hash);
            }
        }
        if commented_block(blocks, hash) is Some && !seen {
            let j = commented_block(blocks, hash)->Some_0;
            assert(is_shown(blocks, anchors, n - 1, j));
            let k = choose|k: int| 0 <= k < shown.len() && shown[k] == (n - 1, j);
            assert(shown.contains((n - 1, j)));
            assert(c <= k);
            if c < k {
                assert(shown[c].0 < shown[k].0);
            }
            assert(shown.take(c + 1) =~= shown.take(c).push((n - 1, j)));
            assert forall|m: int| c + 1 <= m < shown.len() implies (#[trigger] shown[m]).0 >= n by {
                assert(shown[c].0 < shown[m].0);
            }
            c + 1
        } else {
            assert(sections(blocks, anchors, n) == sections(blocks, anchors, n - 1));
            assert forall|m: int| c <= m < shown.len() implies (#[trigger] shown[m]).0 >= n by {
                if shown[m].0 == n - 1 {
                    assert(is_shown(blocks, anchors, n - 1, shown[m].1));
                    lemma_first_is_found(blocks, hash, 0, shown[m].1);
                }
            }
            c
        }
    }
}

/// The lost blocks among the first are the first of what is listed.
proof fn lemma_losts_are_listed(
    blocks: Seq<ReviewBlockView>,
    anchors: Seq<AnchorView>,
    gone: Seq<int>,
    lost: Seq<int>,
    n: int,
) -> (c: int)
    requires
        lists_lost(blocks, anchors, gone, lost),
        0 <= n <= blocks.len(),
    ensures
        0 <= c <= gone.len(),
        lost.take(c) == commented_blocks(blocks, unanchored_hashes(blocks.take(n), anchors)),
        forall|k: int| 0 <= k < c ==> #[trigger] gone[k] < n,
        forall|k: int| c <= k < gone.len() ==> #[trigger] gone[k] >= n,
    decreases n,
{
    if n == 0 {
        assert(unanchored_hashes(blocks.take(0), anchors) =~= seq![]);
        assert(lost.take(0) =~= seq![]);
        assert forall|k: int| 0 <= k < gone.len() implies #[trigger] gone[k] >= 0 by {
            assert(is_lost(blocks, anchors, gone[k], lost[k]));
        }
        0
    } else {
        let c = lemma_losts_are_listed(blocks, anchors, gone, lost, n - 1);
        let hash = blocks[n - 1].hash;
        assert(blocks.take(n).drop_last() =~= blocks.take(n - 1));
        assert(blocks.take(n).last() == blocks[n - 1]);
        lemma_found_is_first(blocks, hash, 0);
        let before = unanchored_hashes(blocks.take(n - 1), anchors);
        if has_hash(anchors, hash) {
            let k = choose|k: int| 0 <= k < anchors.len() && (#[trigger] anchors[k]).hash == hash;
            assert forall|m: int| c <= m < gone.len() implies #[trigger] gone[m] >= n by {
                if gone[m] == n - 1 {
                    assert(is_lost(blocks, anchors, gone[m], lost[m]));
                    assert(anchors[k].hash == hash);
                }
            }
            c
        } else {
            assert(before.push(hash).drop_last() =~= before);
            assert forall|k: int| 0 <= k < anchors.len() implies (#[trigger] anchors[k]).hash
                != hash by {}
            if commented_block(blocks, hash) is Some {
                let f = commented_block(blocks, hash)->Some_0;
                assert(f <= n - 1) by {
                    if f > n - 1 {
                        assert(blocks[n - 1].hash != hash);
                    }
                }
                assert(is_lost(blocks, anchors, n - 1, f));
                assert(gone.contains(n - 1));
                let k = choose|k: int| 0 <= k < gone.len() && gone[k] == n - 1;
                assert(c <= k);
                if c < k {
                    assert(gone[c] < gone[k]);
                }
                assert(is_lost(blocks, anchors, gone[c], lost[c]));
                assert(lost[c] == f) by {
                    if lost[c] < f {
                        assert(blocks[lost[c]].hash != hash);
                    } else if f < lost[c] {
                        assert(blocks[f].hash != hash);
                    }
                }
                assert(lost.take(c + 1) =~= lost.take(c).push(f));
                assert forall|m: int| c + 1 <= m < gone.len() implies #[trigger] gone[m] >= n by {
                    assert(gone[c] < gone[m]);
                }
                c + 1
            } else {
                assert forall|m: int| c <= m < gone.len() implies #[trigger] gone[m] >= n by {
                    if gone[m] == n - 1 {
                        assert(is_lost(blocks, anchors, gone[m], lost[m]));
                        lemma_first_is_found(blocks, hash, 0, lost[m]);
                    }
                }
                c
            }
        }
    }
}

/// The heading of what is shown at anchor `i`.
pub open spec fn shown_heading(anchors: Seq<AnchorView>, i: int) -> Seq<char> {
    "> "@ + line_label_text(anchors[i].line_start, anchors[i].line_end) + ": "@ + flat(
        anchors[i].excerpt,
    ) + place_text(anchors, i)
}

/// Sections are one behind the other.
proof fn lemma_sections_text(
    anchors: Seq<AnchorView>,
    blocks: Seq<ReviewBlockView>,
    shown: Seq<(int, int)>,
)
    ensures
        sections_text(anchors, blocks, shown) == shown.map_values(
            |p: (int, int)| entry(shown_heading(anchors, p.0), blocks[p.1].comments),
        ).flatten(),
        comments_at(blocks, section_blocks(shown)) == shown.map_values(
            |p: (int, int)| blocks[p.1].comments,
        ).flatten().len(),
    decreases shown.len(),
{
    let f = |p: (int, int)| entry(shown_heading(anchors, p.0), blocks[p.1].comments);
    let g = |p: (int, int)| blocks[p.1].comments;
    if shown.len() == 0 {
        assert(shown.map_values(f) =~= seq![]);
        assert(shown.map_values(g) =~= seq![]);
        assert(section_blocks(shown) =~= seq![]);
        assert(sections_text(anchors, blocks, shown) =~= shown.map_values(f).flatten());
    } else {
        let front = shown.drop_last();
        let p = shown.last();
        lemma_sections_text(anchors, blocks, front);
        lemma_bullets(blocks[p.1].comments);
        assert(shown.map_values(f) =~= front.map_values(f).push(f(p)));
        assert(shown.map_values(g) =~= front.map_values(g).push(g(p)));
        front.map_values(f).lemma_flatten_push(f(p));
        front.map_values(g).lemma_flatten_push(g(p));
        assert(section_blocks(shown) =~= section_blocks(front).push(p.1));
        assert(section_blocks(shown).drop_last() =~= section_blocks(front));
        assert(section_text(anchors, p.0, blocks[p.1].comments) =~= f(p));
    }
}

/// Lost blocks are one behind the other.
proof fn lemma_losts_text(blocks: Seq<ReviewBlockView>, lost: Seq<int>)
    ensures
        losts_text(blocks, lost) == lost.map_values(
            |j: int| entry("> (not found): "@ + flat(blocks[j].excerpt), blocks[j].comments),
        ).flatten(),
        comments_at(blocks, lost) == lost.map_values(
            |j: int| blocks[j].comments,
        ).flatten().len(),
    decreases lost.len(),
{
    let f = |j: int| entry("> (not found): "@ + flat(blocks[j].excerpt), blocks[j].comments);
    let g = |j: int| blocks[j].comments;
    if lost.len() == 0 {
        assert(lost.map_values(f) =~= seq![]);
        assert(lost.map_values(g) =~= seq![]);
        assert(losts_text(blocks, lost) =~= lost.map_values(f).flatten());
    } else {
        let front = lost.drop_last();
        let j = lost.last();
        lemma_losts_text(blocks, front);
        lemma_bullets(blocks[j].comments);
        assert(lost.map_values(f) =~= front.map_values(f).push(f(j)));
        assert(lost.map_values(g) =~= front.map_values(g).push(g(j)));
        front.map_values(f).lemma_flatten_push(f(j));
        front.map_values(g).lemma_flatten_push(g(j));
        assert(lost_text(blocks[j]) =~= f(j));
    }
}

/// An export shows every comment: behind its head come the comments on the file, then
/// those that are shown at their anchors in the order of the document, and then those
/// whose anchors are gone, in the order of the sidecar. Each section has a bullet for
/// every comment of its block. The head counts the comments that follow.
pub proof fn law_an_export_shows_every_comment_in_order(
    md_name: Seq<char>,
    anchors: Seq<AnchorView>,
    doc: ReviewView,
    now: Seq<char>,
    shown: Seq<(int, int)>,
    gone: Seq<int>,
    lost: Seq<int>,
)
    requires
        lists_shown(doc.blocks, anchors, shown),
        lists_lost(doc.blocks, anchors, gone, lost),
    ensures
        ({
            let blocks = doc.blocks;
            let on_file = doc.file_comments.len();
            let at_anchors = shown.map_values(
                |p: (int, int)| blocks[p.1].comments,
            ).flatten().len();
            let unplaced = lost.map_values(|j: int| blocks[j].comments).flatten().len();
            let head = "# Review: "@ + md_name + "\n\nExported: "@ + now + " · "@ + (if on_file > 0 {
                decimal(on_file + at_anchors) + " comments ("@ + decimal(on_file)
                    + " on the file, "@ + decimal(at_anchors) + " on "@ + decimal(shown.len())
                    + " blocks)"@
            } else {
                decimal(at_anchors) + " comments on "@ + decimal(shown.len()) + " blocks"@
            }) + (if unplaced > 0 {
                " (+"@ + decimal(unplaced) + " unanchored)"@
            } else {
                ""@
            }) + "\n\n"@;
            let file = if on_file > 0 {
                entry("> (file): "@ + flat(md_name), doc.file_comments)
            } else {
                ""@
            };
            let anchored = shown.map_values(
                |p: (int, int)| entry(shown_heading(anchors, p.0), blocks[p.1].comments),
            ).flatten();
            let unanchored = if lost.len() > 0 {
                "## Unanchored\n\n"@ + lost.map_values(
                    |j: int| entry("> (not found): "@ + flat(blocks[j].excerpt), blocks[j].comments),
                ).flatten()
            } else {
                ""@
            };
            export_text(md_name, anchors, doc, now) == trimmed_end(
                head + file + anchored + unanchored,
            ).push('\n')
        }),
{
    reveal_strlit("");
    reveal_strlit("\n\n");
    reveal_strlit("Exported: ");
    reveal_strlit("\n\nExported: ");
    let n = anchors.len() as int;
    let m = doc.blocks.len() as int;
    let c = lemma_sections_are_listed(doc.blocks, anchors, shown, n);
    assert(c == shown.len()) by {
        if c < shown.len() {
            assert(is_shown(doc.blocks, anchors, shown[c].0, shown[c].1));
        }
    }
    assert(shown.take(c) =~= shown);
    let d = lemma_losts_are_listed(doc.blocks, anchors, gone, lost, m);
    assert(d == gone.len()) by {
        if d < gone.len() {
            assert(is_lost(doc.blocks, anchors, gone[d], lost[d]));
        }
    }
    assert(lost.take(d) =~= lost);
    assert(doc.blocks.take(m) =~= doc.blocks);
    lemma_sections_text(anchors, doc.blocks, shown);
    lemma_losts_text(doc.blocks, lost);
    lemma_bullets(doc.file_comments);
    assert("\n\nExported: "@ =~= "\n\n"@ + "Exported: "@);
    assert(""@ =~= Seq::<char>::empty());
    let on_file = doc.file_comments.len();
    let at_anchors = comments_at(doc.blocks, section_blocks(shown));
    let unplaced = comments_at(doc.blocks, lost);
    let summary = summary_text(now, on_file, at_anchors, shown.len(), unplaced);
    let counts = if on_file > 0 {
        decimal(on_file + at_anchors) + " comments ("@ + decimal(on_file) + " on the file, "@
            + decimal(at_anchors) + " on "@ + decimal(shown.len()) + " blocks)"@
    } else {
        decimal(at_anchors) + " comments on "@ + decimal(shown.len()) + " blocks"@
    };
    let more = if unplaced > 0 {
        " (+"@ + decimal(unplaced) + " unanchored)"@
    } else {
        ""@
    };
    let head = "# Review: "@ + md_name + "\n\nExported: "@ + now + " · "@ + counts + more + "\n\n"@;
    assert(summary =~= "Exported: "@ + now + " · "@ + counts + more + "\n\n"@);
    assert("# Review: "@ + md_name + "\n\n"@ + summary =~= head);
    let file = if on_file > 0 {
        entry("> (file): "@ + flat(md_name), doc.file_comments)
    } else {
        ""@
    };
    assert(file_section_text(md_name, doc.file_comments) =~= file);
}

// ---------------------------------------------------------------------------
// Headings
// ---------------------------------------------------------------------------

/// Text is put into one line by turning each line break into a space, and nothing
/// else is changed.
pub proof fn law_only_line_breaks_are_flattened(s: Seq<char>)
    ensures
        flat(s).len() == s.len(),
        forall|i: int|
            0 <= i < s.len() ==> #[trigger] flat(s)[i] == if s[i] == '\n' || s[i] == '\r' {
                ' '
            } else {
                s[i]
            },
{
}

/// The lines of an anchor are named by their numbers, one number for one line.
pub proof fn law_line_labels_name_the_lines(start: nat, end: nat)
    ensures
        line_label_text(start, start) == seq!['L'] + decimal(start),
        start != end ==> line_label_text(start, end) == seq!['L'] + decimal(start) + seq!['-', 'L']
            + decimal(end),
{
    reveal_strlit("L");
    reveal_strlit("-L");
    assert("L"@ =~= seq!['L']);
    assert("-L"@ =~= seq!['-', 'L']);
}

/// Whether `t` begins with `n` digits, a `.` or `)` and a space.
pub open spec fn begins_with_number(t: Seq<char>, n: int) -> bool {
    &&& 1 <= n
    &&& n + 1 < t.len()
    &&& forall|k: int| 0 <= k < n ==> '0' <= #[trigger] t[k] && t[k] <= '9'
    &&& t[n] == '.' || t[n] == ')'
    &&& t[n + 1] == ' '
}

/// Whether `t` begins with `-`, `*` or `+` and a space.
pub open spec fn begins_with_dash(t: Seq<char>) -> bool {
    t.len() >= 2 && (t[0] == '-' || t[0] == '*' || t[0] == '+') && t[1] == ' '
}

/// Where the digits in front end.
pub(crate) proof fn lemma_leading_digits(t: Seq<char>)
    ensures
        leading_digits(t) <= t.len(),
        forall|k: int| 0 <= k < leading_digits(t) ==> '0' <= #[trigger] t[k] && t[k] <= '9',
        leading_digits(t) < t.len() ==> !('0' <= t[leading_digits(t) as int]
            && t[leading_digits(t) as int] <= '9'),
    decreases t.len(),
{
    if t.len() > 0 && '0' <= t[0] && t[0] <= '9' {
        let rest = t.drop_first();
        lemma_leading_digits(rest);
        assert forall|k: int| 0 <= k < leading_digits(t) implies '0' <= #[trigger] t[k] && t[k]
            <= '9' by {
            if k > 0 {
                assert(t[k] == rest[k - 1]);
            }
        }
    }
}

/// A number in front is found where the digits end.
pub(crate) proof fn lemma_number_in_front(t: Seq<char>)
    ensures
        ({
            let n = leading_digits(t) as int;
            (exists|k: int| #[trigger] begins_with_number(t, k)) <==> n > 0 && (". "@.is_prefix_of(
                t.skip(n),
            ) || ") "@.is_prefix_of(t.skip(n)))
        }),
        forall|k: int| #[trigger] begins_with_number(t, k) ==> k == leading_digits(t),
{
    reveal_strlit(". ");
    reveal_strlit(") ");
    let n = leading_digits(t) as int;
    let rest = t.skip(n);
    lemma_leading_digits(t);
    assert forall|k: int| #[trigger] begins_with_number(t, k) implies k == n by {
        if k < n {
            assert('0' <= t[k] && t[k] <= '9');
        } else if n < k {
            assert('0' <= t[n] && t[n] <= '9');
        }
    }
    if exists|k: int| #[trigger] begins_with_number(t, k) {
        let k = choose|k: int| #[trigger] begins_with_number(t, k);
        assert(k == n);
        assert(rest[0] == t[n] && rest[1] == t[n + 1]);
        if t[n] == '.' {
            assert(". "@ =~= rest.subrange(0, 2));
        } else {
            assert(") "@ =~= rest.subrange(0, 2));
        }
    }
    if n > 0 && (". "@.is_prefix_of(rest) || ") "@.is_prefix_of(rest)) {
        if ". "@.is_prefix_of(rest) {
            assert(". "@[0] == rest.subrange(0, 2)[0] && ". "@[1] == rest.subrange(0, 2)[1]);
        } else {
            assert(") "@[0] == rest.subrange(0, 2)[0] && ") "@[1] == rest.subrange(0, 2)[1]);
        }
        assert(begins_with_number(t, n));
    }
}

/// Dashes in front are told by the first two characters.
pub(crate) proof fn lemma_dash_in_front(t: Seq<char>)
    ensures
        begins_with_dash(t) <==> "- "@.is_prefix_of(t) || "* "@.is_prefix_of(t)
            || "+ "@.is_prefix_of(t),
{
    reveal_strlit("- ");
    reveal_strlit("* ");
    reveal_strlit("+ ");
    if begins_with_dash(t) {
        if t[0] == '-' {
            assert("- "@ =~= t.subrange(0, 2));
        } else if t[0] == '*' {
            assert("* "@ =~= t.subrange(0, 2));
        } else {
            assert("+ "@ =~= t.subrange(0, 2));
        }
    }
    if "- "@.is_prefix_of(t) {
        assert("- "@[0] == t.subrange(0, 2)[0] && "- "@[1] == t.subrange(0, 2)[1]);
    }
    if "* "@.is_prefix_of(t) {
        assert("* "@[0] == t.subrange(0, 2)[0] && "* "@[1] == t.subrange(0, 2)[1]);
    }
    if "+ "@.is_prefix_of(t) {
        assert("+ "@[0] == t.subrange(0, 2)[0] && "+ "@[1] == t.subrange(0, 2)[1]);
    }
}

/// A block is called a table where it begins with `|`, a list where it begins with
/// the marker of an item, and else a block.
pub proof fn law_blocks_are_called_by_how_they_begin(source: Seq<char>)
    ensures
        ({
            let t = trimmed_start(source);
            block_word(source) == if t.len() > 0 && t[0] == '|' {
                "table"@
            } else if begins_with_dash(t) || exists|n: int| #[trigger] begins_with_number(t, n) {
                "list"@
            } else {
                "block"@
            }
        }),
{
    reveal_strlit("|");
    let t = trimmed_start(source);
    lemma_number_in_front(t);
    lemma_dash_in_front(t);
    if t.len() > 0 && t[0] == '|' {
        assert("|"@ =~= t.subrange(0, 1));
    }
    if "|"@.is_prefix_of(t) {
        assert("|"@[0] == t.subrange(0, 1)[0]);
    }
}

/// A block says nothing of where it lies. An item or a row names the last block
/// before it, what that is and its lines.
pub proof fn law_items_and_rows_name_their_block(anchors: Seq<AnchorView>, i: int, b: int)
    requires
        nest_in_last_block(anchors),
        0 <= b <= i < anchors.len(),
        anchors[b].kind == AnchorKind::Block,
        forall|k: int| b < k <= i ==> (#[trigger] anchors[k]).kind != AnchorKind::Block,
    ensures
        i == b ==> place_text(anchors, i) == Seq::<char>::empty(),
        i != b ==> place_text(anchors, i) == " （in "@ + block_word(anchors[b].source) + " "@
            + line_label_text(anchors[b].line_start, anchors[b].line_end) + "）"@,
{
    assert(nests_in_last_block(anchors, i));
    lemma_last_block(anchors, b, i);
}

// ---------------------------------------------------------------------------
// What is accepted
// ---------------------------------------------------------------------------

/// Whether a comment is accepted: its name is `c_` and 16 digits or letters from `a`
/// to `f`, and its text has at most 64 KiB.
pub open spec fn is_fit_comment(c: CommentView) -> bool {
    &&& c.id.len() == 18
    &&& c.id[0] == 'c' && c.id[1] == '_'
    &&& forall|i: int|
        2 <= i < 18 ==> ('0' <= #[trigger] c.id[i] && c.id[i] <= '9') || ('a' <= c.id[i] && c.id[i]
            <= 'f')
    &&& encode_utf8(c.text).len() <= 65536
}

/// Whether all of `comments` are accepted.
pub open spec fn are_fit_comments(comments: Seq<CommentView>) -> bool {
    forall|i: int| 0 <= i < comments.len() ==> is_fit_comment(#[trigger] comments[i])
}

/// Whether a block is accepted: its hash has 16 hexadecimal digits, and its comments
/// are accepted.
pub open spec fn is_fit_block(b: ReviewBlockView) -> bool {
    &&& b.hash.len() == 16
    &&& forall|i: int|
        0 <= i < 16 ==> ('0' <= #[trigger] b.hash[i] && b.hash[i] <= '9') || ('a' <= b.hash[i]
            && b.hash[i] <= 'f') || ('A' <= b.hash[i] && b.hash[i] <= 'F')
    &&& are_fit_comments(b.comments)
}

/// Names are told character by character.
proof fn lemma_acceptable_id(id: Seq<char>)
    ensures
        acceptable_id(id) <==> id.len() == 18 && id[0] == 'c' && id[1] == '_' && forall|i: int|
            2 <= i < 18 ==> ('0' <= #[trigger] id[i] && id[i] <= '9') || ('a' <= id[i] && id[i]
                <= 'f'),
{
    reveal_strlit("c_");
    let rest = id.skip(2);
    if acceptable_id(id) {
        assert("c_"@[0] == id.subrange(0, 2)[0] && "c_"@[1] == id.subrange(0, 2)[1]);
        assert forall|i: int| 2 <= i < 18 implies ('0' <= #[trigger] id[i] && id[i] <= '9') || ('a'
            <= id[i] && id[i] <= 'f') by {
            assert(is_lower_hex(rest[i - 2]));
        }
    }
    if id.len() == 18 && id[0] == 'c' && id[1] == '_' && forall|i: int|
        2 <= i < 18 ==> ('0' <= #[trigger] id[i] && id[i] <= '9') || ('a' <= id[i] && id[i] <= 'f') {
        assert("c_"@ =~= id.subrange(0, 2));
        assert forall|i: int| 0 <= i < rest.len() implies is_lower_hex(#[trigger] rest[i]) by {
            assert(rest[i] == id[i + 2]);
        }
    }
}

/// Comments are right where each is accepted.
proof fn lemma_fit_comments(comments: Seq<CommentView>, i: int)
    requires
        0 <= i <= comments.len(),
    ensures
        comments_error(comments, i) is None <==> forall|k: int|
            i <= k < comments.len() ==> is_fit_comment(#[trigger] comments[k]),
    decreases comments.len() - i,
{
    if i < comments.len() {
        lemma_acceptable_id(comments[i].id);
        lemma_fit_comments(comments, i + 1);
        assert(is_fit_comment(comments[i]) <==> acceptable_id(comments[i].id) && encode_utf8(
            comments[i].text,
        ).len() <= 65536);
    }
}

/// A block is right where it is accepted.
proof fn lemma_fit_block(b: ReviewBlockView)
    ensures
        block_error(b) is None <==> is_fit_block(b),
{
    lemma_fit_comments(b.comments, 0);
    if acceptable_hash(b.hash) {
        assert forall|i: int| 0 <= i < 16 implies ('0' <= #[trigger] b.hash[i] && b.hash[i] <= '9')
            || ('a' <= b.hash[i] && b.hash[i] <= 'f') || ('A' <= b.hash[i] && b.hash[i] <= 'F') by {
            assert(is_hex_char(b.hash[i]));
        }
    }
    if is_fit_block(b) {
        assert forall|i: int| 0 <= i < b.hash.len() implies is_hex_char(#[trigger] b.hash[i]) by {}
    }
}

/// Blocks are right where each is accepted.
proof fn lemma_fit_blocks(blocks: Seq<ReviewBlockView>, i: int)
    requires
        0 <= i <= blocks.len(),
    ensures
        blocks_error(blocks, i) is None <==> forall|k: int|
            i <= k < blocks.len() ==> is_fit_block(#[trigger] blocks[k]),
        blocks_error(blocks, i) is None ==> blocks_seen(blocks, i) == blocks.len(),
    decreases blocks.len() - i,
{
    if i < blocks.len() {
        lemma_fit_block(blocks[i]);
        lemma_fit_blocks(blocks, i + 1);
    }
}

/// Comments are counted block by block.
proof fn lemma_block_comments(blocks: Seq<ReviewBlockView>)
    ensures
        block_comments(blocks) == blocks.map_values(
            |b: ReviewBlockView| b.comments,
        ).flatten().len(),
    decreases blocks.len(),
{
    let f = |b: ReviewBlockView| b.comments;
    if blocks.len() == 0 {
        assert(blocks.map_values(f) =~= seq![]);
    } else {
        let front = blocks.drop_last();
        lemma_block_comments(front);
        assert(blocks.map_values(f) =~= front.map_values(f).push(f(blocks.last())));
        front.map_values(f).lemma_flatten_push(f(blocks.last()));
    }
}

/// A sidecar is accepted if and only if it has version 1, each block and each comment
/// is accepted, it has at most 10000 comments in all, and its JSON as it is written
/// has at most 8 MiB. No other version is ever accepted.
pub proof fn law_what_is_accepted(doc: ReviewView)
    ensures
        validation_error(doc) is None <==> {
            &&& doc.version == 1
            &&& forall|i: int| 0 <= i < doc.blocks.len() ==> is_fit_block(#[trigger] doc.blocks[i])
            &&& are_fit_comments(doc.file_comments)
            &&& doc.file_comments.len() + doc.blocks.map_values(
                |b: ReviewBlockView| b.comments,
            ).flatten().len() <= 10000
            &&& pretty(review_json(after_validation(doc))).len() <= 8388608
        },
        doc.version != 1 ==> validation_error(doc) == Some(
            ReviewErrorView::UnsupportedVersion(doc.version),
        ),
{
    lemma_fit_blocks(doc.blocks, 0);
    lemma_fit_comments(doc.file_comments, 0);
    lemma_block_comments(doc.blocks);
}

/// The first comment that is not accepted decides what is wrong with comments.
proof fn lemma_first_comment(comments: Seq<CommentView>, from: int, j: int)
    requires
        0 <= from <= j < comments.len(),
        forall|k: int| from <= k < j ==> is_fit_comment(#[trigger] comments[k]),
        !is_fit_comment(comments[j]),
    ensures
        comments_error(comments, from) == Some(comment_defect(comments[j])),
    decreases j - from,
{
    lemma_acceptable_id(comments[from].id);
    if from < j {
        assert(is_fit_comment(comments[from]));
        lemma_first_comment(comments, from + 1, j);
    }
}

/// What is wrong with a comment that is not accepted: its name, or else the length of
/// its text.
pub open spec fn comment_defect(c: CommentView) -> ReviewErrorView {
    if is_fit_comment(CommentView { text: seq![], ..c }) {
        ReviewErrorView::CommentTooLong
    } else {
        ReviewErrorView::InvalidCommentId(c.id)
    }
}

/// The first block that is not accepted decides what is wrong with blocks, and how far
/// excerpts are put in order.
proof fn lemma_first_block(blocks: Seq<ReviewBlockView>, from: int, i: int)
    requires
        0 <= from <= i < blocks.len(),
        forall|k: int| from <= k < i ==> is_fit_block(#[trigger] blocks[k]),
        !is_fit_block(blocks[i]),
    ensures
        blocks_error(blocks, from) == block_error(blocks[i]),
        blocks_error(blocks, from) is Some,
        blocks_seen(blocks, from) == if acceptable_hash(blocks[i].hash) {
            i + 1
        } else {
            i
        },
    decreases i - from,
{
    lemma_fit_block(blocks[from]);
    if from < i {
        assert(is_fit_block(blocks[from]));
        lemma_first_block(blocks, from + 1, i);
    }
}

/// Of a sidecar that is not accepted the first thing wrong is told: in its blocks, of
/// each the hash and then the comments; in the comments on the file; the number of
/// comments; the size of the whole.
pub proof fn law_the_first_defect_is_told(doc: ReviewView, i: int, j: int)
    requires
        doc.version == 1,
    ensures
        ({
            let blocks = doc.blocks;
            0 <= i < blocks.len() && (forall|k: int|
                0 <= k < i ==> is_fit_block(#[trigger] blocks[k])) ==> {
                &&& !is_fit_block(ReviewBlockView { comments: seq![], ..blocks[i] })
                    ==> validation_error(doc) == Some(ReviewErrorView::InvalidHash(blocks[i].hash))
                &&& is_fit_block(ReviewBlockView { comments: seq![], ..blocks[i] }) && 0 <= j
                    < blocks[i].comments.len() && (forall|k: int|
                    0 <= k < j ==> is_fit_comment(#[trigger] blocks[i].comments[k]))
                    && !is_fit_comment(blocks[i].comments[j]) ==> validation_error(doc) == Some(
                    comment_defect(blocks[i].comments[j]),
                )
            }
        }),
        (forall|k: int| 0 <= k < doc.blocks.len() ==> is_fit_block(#[trigger] doc.blocks[k])) ==> {
            let n = doc.file_comments.len() + doc.blocks.map_values(
                |b: ReviewBlockView| b.comments,
            ).flatten().len();
            let size = pretty(review_json(after_validation(doc))).len();
            &&& 0 <= j < doc.file_comments.len() && (forall|k: int|
                0 <= k < j ==> is_fit_comment(#[trigger] doc.file_comments[k]))
                && !is_fit_comment(doc.file_comments[j]) ==> validation_error(doc) == Some(
                comment_defect(doc.file_comments[j]),
            )
            &&& are_fit_comments(doc.file_comments) && n > 10000 ==> validation_error(doc) == Some(
                ReviewErrorView::TooManyComments(n),
            )
            &&& are_fit_comments(doc.file_comments) && n <= 10000 && size > 8388608
                ==> validation_error(doc) == Some(ReviewErrorView::TooLarge(size))
        },
{
    let blocks = doc.blocks;
    lemma_fit_blocks(blocks, 0);
    lemma_fit_comments(doc.file_comments, 0);
    lemma_block_comments(blocks);
    if 0 <= i < blocks.len() && (forall|k: int|
        0 <= k < i ==> is_fit_block(#[trigger] blocks[k])) {
        let bare = ReviewBlockView { comments: seq![], ..blocks[i] };
        lemma_fit_block(bare);
        lemma_fit_block(blocks[i]);
        if !is_fit_block(blocks[i]) {
            lemma_first_block(blocks, 0, i);
        }
        if is_fit_block(bare) && 0 <= j < blocks[i].comments.len() && (forall|k: int|
            0 <= k < j ==> is_fit_comment(#[trigger] blocks[i].comments[k]))
            && !is_fit_comment(blocks[i].comments[j]) {
            lemma_first_comment(blocks[i].comments, 0, j);
        }
    }
    if 0 <= j < doc.file_comments.len() && (forall|k: int|
        0 <= k < j ==> is_fit_comment(#[trigger] doc.file_comments[k]))
        && !is_fit_comment(doc.file_comments[j]) {
        lemma_first_comment(doc.file_comments, 0, j);
    }
}

/// What is said of what is wrong with a sidecar.
pub proof fn law_defects_are_said(version: u32, n: nat, name: Seq<char>)
    ensures
        error_text(ReviewErrorView::InvalidHash(name)) == "invalid block hash: "@ + quoted(name),
        error_text(ReviewErrorView::InvalidCommentId(name)) == "invalid comment id: "@ + quoted(
            name,
        ),
        error_text(ReviewErrorView::UnsupportedVersion(version))
            == "unsupported review document version: "@ + decimal(version as nat)
            + " (expected 1)"@,
        error_text(ReviewErrorView::CommentTooLong) == "comment text exceeds 65536 bytes"@,
        error_text(ReviewErrorView::TooManyComments(n)) == "review document has "@ + decimal(n)
            + " comments, exceeding the 10000 limit"@,
        error_text(ReviewErrorView::TooLarge(n)) == "review document is "@ + decimal(n)
            + " bytes, exceeding the 8388608 byte limit"@,
{
}

/// Accepting a sidecar changes nothing but the excerpts of its blocks: those are put
/// into one line, and cut behind 200 characters.
pub proof fn law_accepting_changes_excerpts_only(doc: ReviewView, i: int)
    requires
        validation_error(doc) is None,
        0 <= i < doc.blocks.len(),
    ensures
        ({
            let after = after_validation(doc);
            let was = doc.blocks[i];
            let is = after.blocks[i];
            &&& after.version == doc.version
            &&& after.file == doc.file
            &&& after.file_comments == doc.file_comments
            &&& after.blocks.len() == doc.blocks.len()
            &&& is.hash == was.hash
            &&& is.kind == was.kind
            &&& is.comments == was.comments
            &&& is.excerpt.len() == if was.excerpt.len() <= 200 {
                was.excerpt.len() as int
            } else {
                200
            }
            &&& forall|k: int|
                0 <= k < is.excerpt.len() ==> #[trigger] is.excerpt[k] == if was.excerpt[k] == '\n'
                    || was.excerpt[k] == '\r' {
                    ' '
                } else {
                    was.excerpt[k]
                }
        }),
{
    lemma_fit_blocks(doc.blocks, 0);
    let was = doc.blocks[i];
    assert(after_validation(doc).blocks[i].excerpt == normalized(was.excerpt));
}

/// The hashes that are in the document no more are those of the blocks that no
/// anchor has the hash of, all of them and in their order.
pub proof fn law_what_is_unanchored(blocks: Seq<ReviewBlockView>, anchors: Seq<AnchorView>)
    ensures
        unanchored_hashes(blocks, anchors) == blocks.filter(
            |b: ReviewBlockView|
                forall|k: int| 0 <= k < anchors.len() ==> (#[trigger] anchors[k]).hash != b.hash,
        ).map_values(|b: ReviewBlockView| b.hash),
    decreases blocks.len(),
{
    reveal(Seq::filter);
    let gone = |b: ReviewBlockView|
        forall|k: int| 0 <= k < anchors.len() ==> (#[trigger] anchors[k]).hash != b.hash;
    let f = |b: ReviewBlockView| b.hash;
    if blocks.len() == 0 {
        assert(blocks.filter(gone).map_values(f) =~= seq![]);
    } else {
        let front = blocks.drop_last();
        let b = blocks.last();
        law_what_is_unanchored(front, anchors);
        assert(gone(b) <==> !has_hash(anchors, b.hash));
        if gone(b) {
            assert(front.filter(gone).push(b).map_values(f) =~= front.filter(gone).map_values(
                f,
            ).push(b.hash));
        }
    }
}

/// A sidecar is taken as it is where it has version 1, and refused else. Without one
/// there are no comments yet.
pub proof fn law_sidecars_are_taken_as_they_are(md: Seq<char>, doc: ReviewDoc)
    ensures
        doc.version == 1 ==> loaded(md, SidecarRead::Read(doc)) == Ok::<ReviewView, LoadError>(
            doc@,
        ),
        doc.version != 1 ==> loaded(md, SidecarRead::Read(doc)) == Err::<ReviewView, LoadError>(
            LoadError::UnsupportedVersion(doc.version),
        ),
        loaded(md, SidecarRead::Missing) matches Ok(none) && none.version == 1
            && none.blocks.len() == 0 && none.file_comments.len() == 0,
{
}

/// What is answered to a request for the comments reads as the sidecar, whole and
/// unchanged, and names the hashes that are in the document no more.
pub proof fn law_comments_are_answered_whole(doc: ReviewView, text: Seq<char>)
    ensures
        ({
            let reply = review_reply(doc, Some(text));
            let gone = doc.blocks.filter(
                |b: ReviewBlockView|
                    forall|k: int|
                        0 <= k < document_anchors(text).len() ==> (#[trigger] document_anchors(
                            text,
                        )[k]).hash != b.hash,
            );
            &&& reply.status == 200
            &&& exists|json: JsonView| #[trigger]
                compact(json) == reply.body && reads_as_review(json, doc) && has_member(
                    json,
                    "unanchored"@,
                    JsonView::List(gone.map_values(|b: ReviewBlockView| JsonView::Text(b.hash))),
                )
        }),
{
    reveal_strlit("version");
    reveal_strlit("file");
    reveal_strlit("blocks");
    reveal_strlit("file_comments");
    reveal_strlit("unanchored");
    let anchors = document_anchors(text);
    let gone = doc.blocks.filter(
        |b: ReviewBlockView|
            forall|k: int| 0 <= k < anchors.len() ==> (#[trigger] anchors[k]).hash != b.hash,
    );
    law_what_is_unanchored(doc.blocks, anchors);
    let hashes = unanchored_hashes(doc.blocks, anchors);
    let list = JsonView::List(hashes.map_values(|h: Seq<char>| JsonView::Text(h)));
    assert(hashes.map_values(|h: Seq<char>| JsonView::Text(h)) =~= gone.map_values(
        |b: ReviewBlockView| JsonView::Text(b.hash),
    ));
    let more = seq![("unanchored"@, list)];
    let members = review_members(doc).push(("unanchored"@, list));
    assert(members =~= review_members(doc) + more);
    assert("unanchored"@.len() == 10 && "version"@.len() == 7 && "file"@.len() == 4
        && "blocks"@.len() == 6 && "file_comments"@.len() == 13);
    law_a_sidecar_is_read_back(doc, more);
    let json = JsonView::Object(members);
    assert forall|j: int| 0 <= j < members.len() && j != 4 implies (#[trigger] members[j]).0
        != members[4].0 by {}
    lemma_has_member(members, 4);
    assert(compact(json) == review_reply(doc, Some(text)).body);
}

// ---------------------------------------------------------------------------
// The file of an export
// ---------------------------------------------------------------------------

/// The comments on `notes.md` are exported to `notes.review.md` in the same
/// directory, whatever the extension is.
pub proof fn law_an_export_is_named_after_its_document(
    dir: Seq<char>,
    stem: Seq<char>,
    ext: Seq<char>,
)
    requires
        stem.len() > 0,
        stem != "."@,
        !stem.contains('/'),
        ext.len() > 0,
        !ext.contains('/'),
        !ext.contains('.'),
        dir.len() > 0 ==> dir == "/"@ || dir.last() != '/' && dir.last() != '.',
    ensures
        export_file(joined_path(dir, stem.push('.') + ext)) == joined_path(
            dir,
            stem + ".review.md"@,
        ),
{
    reveal_strlit(".");
    reveal_strlit("..");
    let name = stem.push('.') + ext;
    assert forall|i: int| 0 <= i < name.len() implies name[i] != '/' by {
        if i < stem.len() {
            assert(stem[i] == name[i]);
        } else if i > stem.len() {
            assert(ext[i - stem.len() - 1] == name[i]);
        }
    }
    assert(name != "."@ && name != ".."@) by {
        assert(name.len() >= 3 || name[1] == '.');
        assert(name.last() == ext.last());
        if name.len() == 2 {
            assert(false);
        }
    }
    law_a_name_in_a_directory(dir, name);
    law_names_are_taken_apart_at_the_last_dot(stem, ext);
}

/// A document whose name has no extension keeps all of its name.
pub proof fn law_an_export_keeps_a_name_without_extension(dir: Seq<char>, name: Seq<char>)
    requires
        name.len() > 0,
        name != "."@,
        name != ".."@,
        !name.contains('/'),
        !name.skip(1).contains('.'),
        dir.len() > 0 ==> dir == "/"@ || dir.last() != '/' && dir.last() != '.',
    ensures
        export_file(joined_path(dir, name)) == joined_path(dir, name + ".review.md"@),
{
    law_a_name_in_a_directory(dir, name);
    law_names_without_a_dot_stay_whole(name);
}

} // verus!
