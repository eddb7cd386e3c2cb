//! What holds of the anchors of every document, and of the HTML round them.
use vstd::prelude::*;
use vstd::utf8::encode_utf8;

use crate::html::{
    cell_html, cell_style, clean_deltas, open_tag_text, row_html, text_of, up_to_newline, visible,
    visible_cells, visible_excerpt, visible_row_excerpt, OpenTag, Piece,
};
use crate::markdown::{close_index, deltas, nesting, Align, EventView, ShapeView, TagView};
use crate::render::{
    behind, block_anchor, block_excerpt, blocks_of, cell_sources, element_stop, inside,
    item_preview, last_line_of, line_of, lower_hex_digit, matching_end, nested_anchors,
    row_preview, sha256, source_hash, top_blocks, without_bullet, without_checkbox, AnchorKind,
    AnchorView,
};
use crate::review_laws::{
    begins_with_dash, begins_with_number, lemma_dash_in_front, lemma_number_in_front,
};
use crate::sanitize::{html_of, sanitized, CleanView};
use crate::text::{
    decimal, html_escaped, joined, law_line_breaks_are_counted,
    law_trimming_takes_white_space_only, lemma_find_char, line_at, newlines, span, trimmed,
    trimmed_end, trimmed_start, white_space,
};

verus! {

// ---------------------------------------------------------------------------
// Elements
// ---------------------------------------------------------------------------

/// Whether `inner` stands in one element from `start` to `end`: it opens and closes
/// its own elements only.
pub open spec fn is_element(start: EventView, inner: Seq<EventView>, end: EventView) -> bool {
    &&& start.shape is Start
    &&& end.shape is End
    &&& forall|n: int| 0 <= n <= inner.len() ==> #[trigger] nesting(deltas(inner), n) >= 0
    &&& nesting(deltas(inner), inner.len() as int) == 0
}

/// An element is closed where the nesting first falls to nothing.
proof fn lemma_closed_at(ds: Seq<int>, j: int, depth: int, at: int)
    requires
        0 <= j <= at < ds.len(),
        depth >= 1,
        forall|n: int| j <= n < at ==> depth + #[trigger] nesting(ds, n + 1) - nesting(ds, j) > 0,
        depth + nesting(ds, at + 1) - nesting(ds, j) == 0,
    ensures
        close_index(ds, j, depth) == at,
    decreases at - j,
{
    assert(nesting(ds, j + 1) == nesting(ds, j) + ds[j]);
    if j < at {
        assert(depth + nesting(ds, j + 1) - nesting(ds, j) > 0);
        assert forall|n: int| j + 1 <= n < at implies (depth + ds[j]) + #[trigger] nesting(ds, n + 1)
            - nesting(ds, j + 1) > 0 by {}
        lemma_closed_at(ds, j + 1, depth + ds[j], at);
    }
}

/// The nesting inside a run is what it is by itself.
proof fn lemma_nesting_within(whole: Seq<int>, part: Seq<int>, a: int, n: int)
    requires
        0 <= n <= part.len(),
        0 <= a,
        a + part.len() <= whole.len(),
        forall|i: int| 0 <= i < part.len() ==> whole[a + i] == #[trigger] part[i],
    ensures
        nesting(whole, a + n) == nesting(whole, a) + nesting(part, n),
    decreases n,
{
    if n > 0 {
        lemma_nesting_within(whole, part, a, n - 1);
        assert(whole[a + (n - 1)] == part[n - 1]);
    }
}

/// Where an element ends is where its end stands.
pub(crate) proof fn lemma_element(
    start: EventView,
    inner: Seq<EventView>,
    end: EventView,
    rest: Seq<EventView>,
)
    requires
        is_element(start, inner, end),
    ensures
        ({
            let all = seq![start] + inner + seq![end] + rest;
            &&& matching_end(all) == inner.len() + 1
            &&& inside(all) == inner
            &&& behind(all) == rest
            &&& element_stop(all) == end.end
        }),
{
    let all = seq![start] + inner + seq![end] + rest;
    let ds = deltas(all);
    let own = deltas(inner);
    let at = inner.len() as int + 1;
    assert(ds[0] == 1) by {
        assert(all[0] == start);
    }
    assert(nesting(ds, 1) == nesting(ds, 0) + ds[0]);
    assert forall|i: int| 0 <= i < own.len() implies ds[1 + i] == #[trigger] own[i] by {
        assert(all[1 + i] == inner[i]);
    }
    assert forall|n: int| 1 <= n < at implies 1 + #[trigger] nesting(ds, n + 1) - nesting(ds, 1)
        > 0 by {
        lemma_nesting_within(ds, own, 1, n);
        assert(nesting(own, n) >= 0);
    }
    lemma_nesting_within(ds, own, 1, own.len() as int);
    assert(all[at] == end);
    assert(ds[at] == -1);
    assert(nesting(ds, at + 1) == nesting(ds, at) + ds[at]);
    lemma_closed_at(ds, 1, 1, at);
    assert(inside(all) =~= inner);
    assert(behind(all) =~= rest);
}

/// An item or a row is an anchor of its own, with the source from its start to its
/// end, followed by the anchors in it and by those behind it. What is nested 64 deep
/// is none.
pub proof fn law_items_and_rows_are_anchors(
    s: Seq<char>,
    start: EventView,
    inner: Seq<EventView>,
    end: EventView,
    rest: Seq<EventView>,
    parent: nat,
    depth: nat,
    base: nat,
)
    requires
        is_element(start, inner, end),
        start.shape == ShapeView::Start(TagView::Item) || start.shape == ShapeView::Start(
            TagView::TableHead,
        ) || start.shape == ShapeView::Start(TagView::TableRow),
    ensures
        ({
            let all = nested_anchors(
                s,
                seq![start] + inner + seq![end] + rest,
                parent,
                depth,
                base,
            );
            let in_it = nested_anchors(s, inner, base, depth + 1, base + 1);
            if depth >= 64 {
                all.len() == 0
            } else {
                &&& all.len() > 0
                &&& all.drop_first() == in_it + nested_anchors(
                    s,
                    rest,
                    parent,
                    depth,
                    base + 1 + in_it.len(),
                )
                &&& all[0].parent == Some(parent)
                &&& all[0].kind == if start.shape == ShapeView::Start(TagView::Item) {
                    AnchorKind::Item
                } else {
                    AnchorKind::Row
                }
                &&& all[0].source == trimmed(span(s, start.start as int, end.end as int))
                &&& all[0].line_start == 1 + newlines(s.take(start.start as int))
                &&& all[0].line_end == last_line_of(s, start.start as int, end.end as int)
                &&& all[0].excerpt == if start.shape == ShapeView::Start(TagView::Item) {
                    item_preview(all[0].source)
                } else {
                    row_preview(s, inner)
                }
            }
        }),
{
    let events = seq![start] + inner + seq![end] + rest;
    lemma_element(start, inner, end, rest);
    assert(events[0] == start);
    let all = nested_anchors(s, events, parent, depth, base);
    let in_it = nested_anchors(s, inner, base, depth + 1, base + 1);
    if depth < 64 {
        let tail = nested_anchors(s, rest, parent, depth, base + 1 + in_it.len());
        assert(all.drop_first() =~= in_it + tail);
    }
}

/// Every other event begins no anchor, and is looked into.
pub proof fn law_other_events_are_no_anchors(
    s: Seq<char>,
    e: EventView,
    rest: Seq<EventView>,
    parent: nat,
    depth: nat,
    base: nat,
)
    requires
        e.shape != ShapeView::Start(TagView::Item),
        e.shape != ShapeView::Start(TagView::TableHead),
        e.shape != ShapeView::Start(TagView::TableRow),
    ensures
        nested_anchors(s, seq![e] + rest, parent, depth, base) == nested_anchors(
            s,
            rest,
            parent,
            depth,
            base,
        ),
{
    assert((seq![e] + rest)[0] == e);
    assert((seq![e] + rest).drop_first() =~= rest);
}

/// A block has the source from its first event to its last, without white space
/// round it, and the lines that this stands on.
pub proof fn law_a_block_is_its_source(s: Seq<char>, block: Seq<EventView>)
    requires
        block.len() > 0,
    ensures
        ({
            let a = block_anchor(s, block);
            let from = block[0].start as int;
            let to = block.last().end as int;
            &&& a.kind == AnchorKind::Block
            &&& a.parent is None
            &&& a.source == trimmed(span(s, from, to))
            &&& a.line_start == 1 + newlines(s.take(from))
            &&& a.line_end == last_line_of(s, from, to)
            &&& a.excerpt == block_excerpt(a.source)
            &&& a.hash == source_hash(a.source)
        }),
{
}

/// Each element that stands in no other is a block, and so is each event that stands
/// in none.
pub proof fn law_top_level_elements_are_blocks(
    start: EventView,
    inner: Seq<EventView>,
    end: EventView,
    single: EventView,
    rest: Seq<EventView>,
)
    requires
        is_element(start, inner, end),
        !(single.shape is Start),
        !(single.shape is End),
    ensures
        top_blocks(seq![start] + inner + seq![end] + rest) == seq![
            seq![start] + inner + seq![end],
        ] + top_blocks(rest),
        top_blocks(seq![single] + rest) == seq![seq![single]] + top_blocks(rest),
{
    let all = seq![start] + inner + seq![end] + rest;
    lemma_element(start, inner, end, rest);
    assert(all[0] == start);
    assert(all.take(matching_end(all) + 1) =~= seq![start] + inner + seq![end]);
    assert((seq![single] + rest)[0] == single);
    assert((seq![single] + rest).take(1) =~= seq![single]);
    assert((seq![single] + rest).drop_first() =~= rest);
}

/// The last line of a range is that of the last character that is no white space:
/// it lies as many lines behind the first as the text up to there has line breaks.
pub proof fn law_lines_are_those_of_the_text(
    before: Seq<char>,
    text: Seq<char>,
    white: Seq<char>,
    after: Seq<char>,
)
    requires
        text.len() > 0,
        !white_space(text.last()),
        forall|i: int| 0 <= i < white.len() ==> white_space(#[trigger] white[i]),
    ensures
        ({
            let s = before + text + white + after;
            let from = before.len() as int;
            let to = (before.len() + text.len() + white.len()) as int;
            &&& line_of(s, from) == 1 + newlines(before)
            &&& last_line_of(s, from, to) == 1 + newlines(before) + newlines(text)
        }),
{
    let s = before + text + white + after;
    let from = before.len() as int;
    let to = (before.len() + text.len() + white.len()) as int;
    let range = span(s, from, to);
    assert(range =~= text + white);
    law_trimming_takes_white_space_only(range);
    let n = trimmed_end(range).len();
    assert(range[text.len() - 1] == text.last());
    assert(n >= text.len());
    if n > text.len() {
        assert(trimmed_end(range).last() == range[n - 1]);
        assert(range[n - 1] == white[n - 1 - text.len()]);
    }
    assert(s.take(from) =~= before);
    assert(s.take(from + n) =~= before + text);
    law_line_breaks_are_counted(before, text, 'x');
}

// ---------------------------------------------------------------------------
// Hashes and previews
// ---------------------------------------------------------------------------

/// The number that a hexadecimal digit in lower case stands for.
pub open spec fn hex_number(c: char) -> int {
    if c as u32 <= 0x39 {
        c as u32 - 0x30
    } else {
        c as u32 - 0x61 + 10
    }
}

/// A hash is the first eight bytes of the digest of the source, two digits for each.
pub proof fn law_a_hash_is_the_start_of_the_digest(source: Seq<char>, i: int)
    requires
        sha256(encode_utf8(source)).len() == 32,
        0 <= i < 8,
    ensures
        source_hash(source).len() == 16,
        hex_number(source_hash(source)[2 * i]) * 16 + hex_number(source_hash(source)[2 * i + 1])
            == sha256(encode_utf8(source))[i],
{
    let bytes = sha256(encode_utf8(source)).take(8);
    let b = bytes[i];
    let h = source_hash(source);
    assert((2 * i) / 2 == i && (2 * i) % 2 == 0);
    assert((2 * i + 1) / 2 == i && (2 * i + 1) % 2 == 1);
    assert(h[2 * i] == lower_hex_digit(b as int / 16));
    assert(h[2 * i + 1] == lower_hex_digit(b as int % 16));
    assert(0 <= b as int / 16 < 16);
    lemma_hex(b as int / 16);
    lemma_hex(b as int % 16);
}

/// A digit stands for its number.
proof fn lemma_hex(d: int)
    requires
        0 <= d < 16,
    ensures
        hex_number(lower_hex_digit(d)) == d,
{
}

/// Whether `t` begins with three times `c`.
pub open spec fn begins_with_three(t: Seq<char>, c: char) -> bool {
    t.len() >= 3 && t[0] == c && t[1] == c && t[2] == c
}

/// The preview of a block is its first line, or the second where the first opens a
/// code fence, cut behind 80 characters.
pub proof fn law_the_preview_of_a_block(source: Seq<char>)
    ensures
        ({
            let first = line_at(source, 0);
            let t = trimmed_start(first);
            let line = if begins_with_three(t, '`') || begins_with_three(t, '~') {
                line_at(source, 1)
            } else {
                first
            };
            block_excerpt(source) == if line.len() <= 80 {
                line
            } else {
                line.take(80)
            }
        }),
{
    reveal_strlit("```");
    reveal_strlit("~~~");
    let t = trimmed_start(line_at(source, 0));
    if begins_with_three(t, '`') {
        assert("```"@ =~= t.subrange(0, 3));
    }
    if begins_with_three(t, '~') {
        assert("~~~"@ =~= t.subrange(0, 3));
    }
    if "```"@.is_prefix_of(t) {
        assert("```"@[0] == t.subrange(0, 3)[0] && "```"@[1] == t.subrange(0, 3)[1] && "```"@[2]
            == t.subrange(0, 3)[2]);
    }
    if "~~~"@.is_prefix_of(t) {
        assert("~~~"@[0] == t.subrange(0, 3)[0] && "~~~"@[1] == t.subrange(0, 3)[1] && "~~~"@[2]
            == t.subrange(0, 3)[2]);
    }
}

/// Whether `t` begins with the checkbox of a task.
pub open spec fn begins_with_checkbox(t: Seq<char>) -> bool {
    t.len() >= 4 && t[0] == '[' && (t[1] == ' ' || t[1] == 'x' || t[1] == 'X') && t[2] == ']' && t[3]
        == ' '
}

/// `t` without the checkbox in front.
pub open spec fn behind_checkbox(t: Seq<char>) -> Seq<char> {
    if begins_with_checkbox(t) {
        t.skip(4)
    } else {
        t
    }
}

/// Checkboxes are told by the first four characters.
proof fn lemma_checkbox(t: Seq<char>)
    ensures
        without_checkbox(t) == behind_checkbox(t),
{
    reveal_strlit("[ ] ");
    reveal_strlit("[x] ");
    reveal_strlit("[X] ");
    if begins_with_checkbox(t) {
        if t[1] == ' ' {
            assert("[ ] "@ =~= t.subrange(0, 4));
        } else if t[1] == 'x' {
            assert("[x] "@ =~= t.subrange(0, 4));
        } else {
            assert("[X] "@ =~= t.subrange(0, 4));
        }
    }
    if "[ ] "@.is_prefix_of(t) {
        let u = t.subrange(0, 4);
        assert("[ ] "@[0] == u[0] && "[ ] "@[1] == u[1] && "[ ] "@[2] == u[2] && "[ ] "@[3] == u[3]);
    }
    if "[x] "@.is_prefix_of(t) {
        let u = t.subrange(0, 4);
        assert("[x] "@[0] == u[0] && "[x] "@[1] == u[1] && "[x] "@[2] == u[2] && "[x] "@[3] == u[3]);
    }
    if "[X] "@.is_prefix_of(t) {
        let u = t.subrange(0, 4);
        assert("[X] "@[0] == u[0] && "[X] "@[1] == u[1] && "[X] "@[2] == u[2] && "[X] "@[3] == u[3]);
    }
}

/// The preview of an item is its first line behind the white space, the marker and the
/// checkbox in front, cut behind 80 characters. A line without a marker keeps all but
/// the white space.
pub proof fn law_the_preview_of_an_item(source: Seq<char>, n: int)
    ensures
        ({
            let t = trimmed_start(line_at(source, 0));
            let cut = |u: Seq<char>|
                if u.len() <= 80 {
                    u
                } else {
                    u.take(80)
                };
            &&& begins_with_dash(t) ==> item_preview(source) == cut(behind_checkbox(t.skip(2)))
            &&& begins_with_number(t, n) ==> item_preview(source) == cut(
                behind_checkbox(t.skip(n + 2)),
            )
            &&& !begins_with_dash(t) && !(exists|k: int| #[trigger] begins_with_number(t, k))
                ==> item_preview(source) == cut(t)
        }),
{
    reveal_strlit("- ");
    reveal_strlit("* ");
    reveal_strlit("+ ");
    reveal_strlit(". ");
    reveal_strlit(") ");
    let t = trimmed_start(line_at(source, 0));
    lemma_dash_in_front(t);
    lemma_number_in_front(t);
    if let Some(u) = without_bullet(t) {
        lemma_checkbox(u);
    }
    if begins_with_dash(t) {
        assert(without_bullet(t) == Some(t.skip(2)));
    } else if begins_with_number(t, n) {
        let rest = t.skip(n);
        assert(rest.skip(2) =~= t.skip(n + 2));
        assert(without_bullet(t) == Some(t.skip(n + 2)));
    }
    if begins_with_number(t, n) {
        assert('0' <= t[0] && t[0] <= '9');
        assert(!begins_with_dash(t));
    }
}

/// The preview of a row is the source of each of its cells, without white space round
/// it, with ` | ` between them, cut behind 80 characters. A cell is taken from its
/// start to its end, and what is no cell counts for nothing.
pub proof fn law_the_preview_of_a_row(
    s: Seq<char>,
    start: EventView,
    inner: Seq<EventView>,
    end: EventView,
    other: EventView,
    rest: Seq<EventView>,
)
    requires
        is_element(start, inner, end),
        start.shape == ShapeView::Start(TagView::TableCell),
        other.shape != ShapeView::Start(TagView::TableCell),
    ensures
        cell_sources(s, seq![start] + inner + seq![end] + rest) == seq![
            trimmed(span(s, start.start as int, end.end as int)),
        ] + cell_sources(s, rest),
        cell_sources(s, seq![other] + rest) == cell_sources(s, rest),
        cell_sources(s, seq![]) == Seq::<Seq<char>>::empty(),
        ({
            let whole = joined(cell_sources(s, rest), seq![' ', '|', ' ']);
            row_preview(s, rest) == if whole.len() <= 80 {
                whole
            } else {
                whole.take(80)
            }
        }),
{
    reveal_strlit(" | ");
    lemma_element(start, inner, end, rest);
    assert((seq![start] + inner + seq![end] + rest)[0] == start);
    assert((seq![other] + rest)[0] == other);
    assert((seq![other] + rest).drop_first() =~= rest);
    assert(" | "@ =~= seq![' ', '|', ' ']);
}

// ---------------------------------------------------------------------------
// HTML
// ---------------------------------------------------------------------------

/// The opening tag of an anchor names its element and its class, and says in its
/// attributes which kind it is, its hash, its first and its last line and its preview.
pub proof fn law_tags_say_what_they_stand_for(tag: OpenTag)
    ensures
        ({
            let head = match tag.kind {
                AnchorKind::Block => "<div class=\"blk\" data-kind=\"block\""@,
                AnchorKind::Item => "<li class=\"anchor\" data-kind=\"item\""@,
                AnchorKind::Row => "<tr class=\"anchor\" data-kind=\"row\""@,
            };
            open_tag_text(tag) == head + " data-hash=\""@ + tag.hash + "\" data-line-start=\""@
                + decimal(tag.line_start) + "\" data-line-end=\""@ + decimal(tag.line_end)
                + "\" data-excerpt=\""@ + html_escaped(tag.excerpt) + "\">"@
        }),
{
    reveal_strlit("<div class=\"blk\" data-kind=\"block\"");
    reveal_strlit("<li class=\"anchor\" data-kind=\"item\"");
    reveal_strlit("<tr class=\"anchor\" data-kind=\"row\"");
    reveal_strlit("<div class=\"blk\" data-kind=\"block\" data-hash=\"");
    reveal_strlit("<li class=\"anchor\" data-kind=\"item\" data-hash=\"");
    reveal_strlit("<tr class=\"anchor\" data-kind=\"row\" data-hash=\"");
    reveal_strlit(" data-hash=\"");
    assert("<div class=\"blk\" data-kind=\"block\" data-hash=\""@
        =~= "<div class=\"blk\" data-kind=\"block\""@ + " data-hash=\""@);
    assert("<li class=\"anchor\" data-kind=\"item\" data-hash=\""@
        =~= "<li class=\"anchor\" data-kind=\"item\""@ + " data-hash=\""@);
    assert("<tr class=\"anchor\" data-kind=\"row\" data-hash=\""@
        =~= "<tr class=\"anchor\" data-kind=\"row\""@ + " data-hash=\""@);
}

/// The HTML of a document is that of its pieces, one behind the other: opening tags,
/// and HTML as it is.
pub proof fn law_html_is_the_text_of_its_pieces(pieces: Seq<Piece>)
    ensures
        text_of(pieces) == pieces.map_values(
            |p: Piece|
                match p {
                    Piece::Open(tag) => open_tag_text(tag),
                    Piece::Html(text) => text,
                },
        ).flatten(),
    decreases pieces.len(),
{
    let f = |p: Piece|
        match p {
            Piece::Open(tag) => open_tag_text(tag),
            Piece::Html(text) => text,
        };
    if pieces.len() == 0 {
        assert(pieces.map_values(f) =~= seq![]);
        assert(text_of(pieces) =~= pieces.map_values(f).flatten());
    } else {
        let front = pieces.drop_last();
        law_html_is_the_text_of_its_pieces(front);
        assert(pieces.map_values(f) =~= front.map_values(f).push(f(pieces.last())));
        front.map_values(f).lemma_flatten_push(f(pieces.last()));
    }
}

/// How a column is aligned in HTML.
pub open spec fn style_of(align: Align) -> Seq<char> {
    match align {
        Align::Standard => ""@,
        Align::Left => " style=\"text-align: left\""@,
        Align::Center => " style=\"text-align: center\""@,
        Align::Right => " style=\"text-align: right\""@,
    }
}

/// Each cell of a row is written as a `th` in the head of a table and as a `td` else,
/// with what it holds in it made safe, and aligned as its column is. The cell behind
/// it stands in the next column, and what is no cell counts for nothing.
pub proof fn law_cells_are_written_by_columns(
    start: EventView,
    inner: Seq<EventView>,
    end: EventView,
    other: EventView,
    rest: Seq<EventView>,
    alignments: Seq<Align>,
    head: bool,
    column: int,
    local_images: bool,
)
    requires
        is_element(start, inner, end),
        start.shape == ShapeView::Start(TagView::TableCell),
        other.shape != ShapeView::Start(TagView::TableCell),
        0 <= column,
    ensures
        ({
            let tag = if head {
                "th"@
            } else {
                "td"@
            };
            let align = if column < alignments.len() {
                alignments[column]
            } else {
                Align::Standard
            };
            row_html(
                seq![start] + inner + seq![end] + rest,
                Some(alignments),
                head,
                column,
                local_images,
            ) == seq!['<'] + tag + style_of(align) + seq!['>'] + html_of(
                sanitized(inner, local_images),
            ) + seq!['<', '/'] + tag + seq!['>'] + row_html(
                rest,
                Some(alignments),
                head,
                column + 1,
                local_images,
            )
        }),
        row_html(seq![other] + rest, Some(alignments), head, column, local_images) == row_html(
            rest,
            Some(alignments),
            head,
            column,
            local_images,
        ),
        row_html(seq![], Some(alignments), head, column, local_images) == Seq::<char>::empty(),
{
    reveal_strlit("");
    reveal_strlit("<");
    reveal_strlit("</");
    reveal_strlit(">");
    reveal_strlit(" style=\"text-align: left\"");
    reveal_strlit(" style=\"text-align: left\">");
    reveal_strlit(" style=\"text-align: center\"");
    reveal_strlit(" style=\"text-align: center\">");
    reveal_strlit(" style=\"text-align: right\"");
    reveal_strlit(" style=\"text-align: right\">");
    let all = seq![start] + inner + seq![end] + rest;
    lemma_element(start, inner, end, rest);
    assert(all[0] == start);
    assert((seq![other] + rest)[0] == other);
    assert((seq![other] + rest).drop_first() =~= rest);
    let align = if column < alignments.len() {
        alignments[column]
    } else {
        Align::Standard
    };
    let style = cell_style(Some(alignments), column);
    assert(style =~= style_of(align) + seq!['>']);
    let tag = if head {
        "th"@
    } else {
        "td"@
    };
    let body = html_of(sanitized(inner, local_images));
    let tail = row_html(rest, Some(alignments), head, column + 1, local_images);
    assert(cell_html(inner, Some(alignments), head, column, local_images) + tail =~= seq!['<'] + tag
        + style_of(align) + seq!['>'] + body + seq!['<', '/'] + tag + seq!['>'] + tail);
}

/// The preview in a tag is what is visible of the first line, cut behind 80
/// characters, without white space round it. Text and code are visible, whether they
/// are kept or stand for raw HTML; a line break ends the line, and nothing else is
/// visible.
pub proof fn law_previews_show_what_is_visible(
    e: EventView,
    text: Seq<char>,
    to: Seq<char>,
    rest: Seq<CleanView>,
)
    ensures
        visible(seq![CleanView::Text(text)] + rest) == text + visible(rest),
        visible(seq![CleanView::Retarget(e, to)] + rest) == visible(rest),
        visible(seq![CleanView::Keep(e)] + rest) == match e.shape {
            ShapeView::Text(t) => t + visible(rest),
            ShapeView::Code(t) => t + visible(rest),
            ShapeView::SoftBreak => seq![],
            ShapeView::HardBreak => seq![],
            _ => visible(rest),
        },
        visible(seq![]) == Seq::<char>::empty(),
        ({
            let line = up_to_newline(visible(rest));
            visible_excerpt(rest) == trimmed(
                if line.len() <= 80 {
                    line
                } else {
                    line.take(80)
                },
            )
        }),
        up_to_newline(text).is_prefix_of(text),
        !up_to_newline(text).contains('\n'),
        up_to_newline(text).len() < text.len() ==> text[up_to_newline(text).len() as int] == '\n',
{
    let a = seq![CleanView::Text(text)] + rest;
    let b = seq![CleanView::Retarget(e, to)] + rest;
    let c = seq![CleanView::Keep(e)] + rest;
    assert(a[0] == CleanView::Text(text) && a.drop_first() =~= rest);
    assert(b[0] == CleanView::Retarget(e, to) && b.drop_first() =~= rest);
    assert(c[0] == CleanView::Keep(e) && c.drop_first() =~= rest);
    lemma_find_char(text, '\n');
    let line = up_to_newline(text);
    assert(text.subrange(0, line.len() as int) =~= line);
    if line.contains('\n') {
        let k = line.index_of('\n');
        assert(text[k] == '\n');
        assert(text.contains('\n'));
    }
}

/// The preview of a row as it is shown is the previews of its cells, one for each and
/// in their order, with ` | ` between them; it is cut behind 80 characters. What stands
/// outside of the cells is not shown.
pub proof fn law_rows_show_their_cells(
    start: EventView,
    inner: Seq<CleanView>,
    end: EventView,
    other: CleanView,
    rest: Seq<CleanView>,
)
    requires
        start.shape == ShapeView::Start(TagView::TableCell),
        end.shape is End,
        forall|n: int| 0 <= n <= inner.len() ==> #[trigger] nesting(clean_deltas(inner), n) >= 0,
        nesting(clean_deltas(inner), inner.len() as int) == 0,
        !(other matches CleanView::Keep(e) && e.shape == ShapeView::Start(TagView::TableCell)),
    ensures
        visible_cells(
            seq![CleanView::Keep(start)] + inner + seq![CleanView::Keep(end)] + rest,
        ) == seq![visible_excerpt(inner)] + visible_cells(rest),
        visible_cells(seq![other] + rest) == visible_cells(rest),
        visible_cells(seq![]) == Seq::<Seq<char>>::empty(),
        ({
            let line = joined(visible_cells(rest), " | "@);
            visible_row_excerpt(rest) == if line.len() <= 80 {
                line
            } else {
                line.take(80)
            }
        }),
{
    let all = seq![CleanView::Keep(start)] + inner + seq![CleanView::Keep(end)] + rest;
    let ds = clean_deltas(all);
    let own = clean_deltas(inner);
    let at = inner.len() as int + 1;
    assert(all[0] == CleanView::Keep(start));
    assert(ds[0] == 1);
    assert(nesting(ds, 1) == nesting(ds, 0) + ds[0]);
    assert forall|i: int| 0 <= i < own.len() implies ds[1 + i] == #[trigger] own[i] by {
        assert(all[1 + i] == inner[i]);
    }
    assert forall|n: int| 1 <= n < at implies 1 + #[trigger] nesting(ds, n + 1) - nesting(ds, 1)
        > 0 by {
        lemma_nesting_within(ds, own, 1, n);
        assert(nesting(own, n) >= 0);
    }
    lemma_nesting_within(ds, own, 1, own.len() as int);
    assert(all[at] == CleanView::Keep(end));
    assert(ds[at] == -1);
    assert(nesting(ds, at + 1) == nesting(ds, at) + ds[at]);
    lemma_closed_at(ds, 1, 1, at);
    assert(all.subrange(1, at) =~= inner);
    assert(all.skip(at + 1) =~= rest);
    let more = seq![other] + rest;
    assert(more[0] == other);
    assert(more.drop_first() =~= rest);
}

/// The blocks of a document are its anchors of that kind, in their order, and say what
/// the anchors say.
pub proof fn law_blocks_say_what_their_anchors_say(anchors: Seq<AnchorView>, a: AnchorView)
    ensures
        a.kind != AnchorKind::Block ==> blocks_of(anchors.push(a)) == blocks_of(anchors),
        a.kind == AnchorKind::Block ==> ({
            let all = blocks_of(anchors.push(a));
            &&& all.drop_last() == blocks_of(anchors)
            &&& all.len() == blocks_of(anchors).len() + 1
            &&& all.last().hash == a.hash
            &&& all.last().source == a.source
            &&& all.last().excerpt == a.excerpt
            &&& all.last().line_start == a.line_start
            &&& all.last().line_end == a.line_end
        }),
        blocks_of(seq![]).len() == 0,
{
    assert(anchors.push(a).drop_last() =~= anchors);
    if a.kind == AnchorKind::Block {
        assert(blocks_of(anchors.push(a)).drop_last() =~= blocks_of(anchors));
    }
}

} // verus!
