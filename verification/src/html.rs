//! The HTML of a document, with an element round each of its anchors.
use vstd::prelude::*;

use crate::markdown::{
    close_index, delta, deltas, document_events, is_tidy, lemma_close_index, read_events, views,
    Align, EndShape, EventView, MdEvent, Shape, ShapeView, TagShape, TagView,
};
use crate::render::{
    anchor_kind, anchor_kind_of, anchors_of, behind, block_anchor, blocks_from, blocks_of,
    document_anchors, document_blocks, holds_no_anchor, in_text, inside,
    law_blocks_are_the_top_level_blocks, lemma_blocks_are_tidy, lemma_no_nested,
    lemma_parts_are_tidy, lemma_row_holds_no_anchor, lemma_views_subrange, matching_end_index,
    nested_anchor, nested_anchors, parsed_blocks, run_views, scan_anchor, scan_block,
    split_element, step_of, top_blocks, Anchor, AnchorKind, AnchorView, BlockView, Step,
    MAX_ANCHOR_DEPTH,
};
use crate::sanitize::{
    clean_views, html_of, push_html, sanitize_events, sanitized, CleanEvent, CleanView,
};
use crate::text::{
    chars_of, decimal, find_char, find_char_in, html_escaped, joined, lemma_joined_push,
    push_decimal, push_html_escaped, string_of, trim, trimmed, truncate, truncated,
};

verus! {

// ---------------------------------------------------------------------------
// Previews of what is visible
// ---------------------------------------------------------------------------

/// The visible text of a run up to its first line break.
pub open spec fn visible(events: Seq<CleanView>) -> Seq<char>
    decreases events.len(),
{
    if events.len() == 0 {
        seq![]
    } else {
        let rest = events.drop_first();
        match events[0] {
            CleanView::Text(t) => t + visible(rest),
            CleanView::Retarget(_, _) => visible(rest),
            CleanView::Keep(e) => match e.shape {
                ShapeView::Text(t) => t + visible(rest),
                ShapeView::Code(t) => t + visible(rest),
                ShapeView::SoftBreak => seq![],
                ShapeView::HardBreak => seq![],
                _ => visible(rest),
            },
        }
    }
}

/// What stands in `s` before its first `\n`.
pub open spec fn up_to_newline(s: Seq<char>) -> Seq<char> {
    match find_char(s, '\n') {
        Some(i) => s.take(i),
        None => s,
    }
}

/// The preview of a run: its first visible line, cut to 80 characters.
pub open spec fn visible_excerpt(events: Seq<CleanView>) -> Seq<char> {
    trimmed(truncated(up_to_newline(visible(events)), 80))
}

/// The visible text of a run up to its first line break.
fn visible_text<'e>(events: &[CleanEvent<'e>]) -> (r: String)
    ensures
        r@ == visible(clean_views(events@)),
{
    let ghost all = clean_views(events@);
    let mut out = String::new();
    let mut i: usize = 0;
    assert(all.skip(0) =~= all);
    assert(out@ + visible(all) =~= visible(all));
    while i < events.len()
        invariant
            all == clean_views(events@),
            i <= events@.len(),
            out@ + visible(all.skip(i as int)) == visible(all),
        decreases events@.len() - i,
    {
        let ghost before = out@;
        let ghost rest = all.skip(i as int);
        assert(rest[0] == events@[i as int]@);
        assert(rest.drop_first() =~= all.skip(i + 1));
        let mut stop: bool = false;
        match &events[i] {
            CleanEvent::Text(t) => {
                out.append(t.as_str());
            },
            CleanEvent::Retarget(_, _) => {},
            CleanEvent::Keep(e) => match &e.shape {
                Shape::Text(t) => {
                    out.append(t.as_str());
                },
                Shape::Code(t) => {
                    out.append(t.as_str());
                },
                Shape::SoftBreak => {
                    stop = true;
                },
                Shape::HardBreak => {
                    stop = true;
                },
                _ => {},
            },
        }
        if stop {
            assert(before + visible(rest) =~= before);
            return out;
        }
        assert(out@ + visible(all.skip(i + 1)) =~= before + visible(rest));
        i = i + 1;
    }
    assert(all.skip(i as int) =~= seq![]);
    assert(out@ =~= visible(all));
    out
}

/// The preview of a run.
fn plain_text_excerpt<'e>(events: &[CleanEvent<'e>]) -> (r: String)
    ensures
        r@ == visible_excerpt(clean_views(events@)),
{
    let text = visible_text(events);
    let text = chars_of(text.as_str());
    let line = match find_char_in(text.as_slice(), '\n') {
        Some(i) => {
            let line = &text[0..i];
            assert(line@ =~= text@.take(i as int));
            line
        },
        None => text.as_slice(),
    };
    string_of(trim(truncate(line, 80)))
}

/// How much deeper the nesting is behind an event than before it.
pub open spec fn clean_delta(e: CleanView) -> int {
    match e {
        CleanView::Keep(k) => delta(k),
        CleanView::Retarget(k, _) => delta(k),
        CleanView::Text(_) => 0,
    }
}

/// [`clean_delta`] of each event of a run.
pub open spec fn clean_deltas(events: Seq<CleanView>) -> Seq<int> {
    events.map_values(|e: CleanView| clean_delta(e))
}

/// The position of the event that closes the element which the first event of
/// the run opens.
pub open spec fn clean_end(events: Seq<CleanView>) -> int {
    close_index(clean_deltas(events), 1, 1)
}

/// What follows the element which the first event of the run opens.
pub open spec fn clean_behind(events: Seq<CleanView>) -> Seq<CleanView> {
    let e = clean_end(events);
    if e < events.len() {
        events.skip(e + 1)
    } else {
        seq![]
    }
}

/// Whether an event begins a table cell.
pub open spec fn begins_cell(e: CleanView) -> bool {
    e matches CleanView::Keep(k) && k.shape == ShapeView::Start(TagView::TableCell)
}

/// The preview of each cell of a row.
pub open spec fn visible_cells(events: Seq<CleanView>) -> Seq<Seq<char>>
    decreases events.len(),
    via visible_cells_decreases
{
    if events.len() == 0 {
        seq![]
    } else if begins_cell(events[0]) {
        seq![visible_excerpt(events.subrange(1, clean_end(events)))] + visible_cells(
            clean_behind(events),
        )
    } else {
        visible_cells(events.drop_first())
    }
}

#[via_fn]
proof fn visible_cells_decreases(events: Seq<CleanView>) {
    if events.len() > 0 {
        lemma_close_index(clean_deltas(events), 1, 1);
    }
}

/// The preview of a row: that of each cell, with ` | ` between them, cut to 80
/// characters.
pub open spec fn visible_row_excerpt(events: Seq<CleanView>) -> Seq<char> {
    truncated(joined(visible_cells(events), " | "@), 80)
}

/// What an event does to the nesting.
fn clean_step_of<'e>(event: &CleanEvent<'e>) -> (r: Step)
    ensures
        (r is Open) == (clean_delta(event@) == 1),
        (r is Close) == (clean_delta(event@) == -1),
        (r is Stay) == (clean_delta(event@) == 0),
{
    match event {
        CleanEvent::Keep(k) => step_of(k),
        CleanEvent::Retarget(k, _) => step_of(k),
        CleanEvent::Text(_) => Step::Stay,
    }
}

/// The position of the event that closes the element which the first event of
/// the run opens, or the length of the run.
fn clean_end_index<'e>(events: &[CleanEvent<'e>]) -> (r: usize)
    requires
        events@.len() > 0,
    ensures
        r == clean_end(clean_views(events@)),
        1 <= r <= events@.len(),
{
    let n: usize = events.len();
    let ghost d = clean_deltas(clean_views(events@));
    let mut depth: usize = 1;
    let mut j: usize = 1;
    while j < n
        invariant
            n == events@.len(),
            d == clean_deltas(clean_views(events@)),
            d.len() == n,
            1 <= j <= n,
            1 <= depth <= j,
            close_index(d, j as int, depth as int) == clean_end(clean_views(events@)),
        decreases n - j,
    {
        assert(d[j as int] == clean_delta(events@[j as int]@));
        match clean_step_of(&events[j]) {
            Step::Open => {
                depth = depth + 1;
            },
            Step::Close => {
                if depth == 1 {
                    return j;
                }
                depth = depth - 1;
            },
            Step::Stay => {},
        }
        j = j + 1;
    }
    n
}

/// Whether an event begins a table cell.
fn is_clean_cell<'e>(event: &CleanEvent<'e>) -> (r: bool)
    ensures
        r == begins_cell(event@),
{
    match event {
        CleanEvent::Keep(k) => match &k.shape {
            Shape::Start(TagShape::TableCell) => true,
            _ => false,
        },
        _ => false,
    }
}

/// The preview of a row.
fn plain_text_excerpt_row<'e>(events: &[CleanEvent<'e>]) -> (r: String)
    ensures
        r@ == visible_row_excerpt(clean_views(events@)),
{
    let ghost all = visible_cells(clean_views(events@));
    let ghost mut done: Seq<Seq<char>> = seq![];
    let mut out = String::new();
    let mut first: bool = true;
    let mut rest = events;
    assert(done + all =~= all);
    while rest.len() > 0
        invariant
            all == done + visible_cells(clean_views(rest@)),
            out@ == joined(done, " | "@),
            first == (done.len() == 0),
        decreases rest@.len(),
    {
        let total: usize = rest.len();
        let ghost now = clean_views(rest@);
        assert(now[0] == rest@[0]@);
        if is_clean_cell(&rest[0]) {
            let end: usize = clean_end_index(rest);
            let inner = &rest[1..end];
            assert(clean_views(inner@) =~= now.subrange(1, end as int));
            let cell = plain_text_excerpt(inner);
            if !first {
                out.append(" | ");
            }
            out.append(cell.as_str());
            first = false;
            let start: usize = if end < total {
                end + 1
            } else {
                total
            };
            let next = &rest[start..total];
            proof {
                assert(clean_views(next@) =~= clean_behind(now));
                lemma_joined_push(done, " | "@, cell@);
                assert(out@ =~= joined(done.push(cell@), " | "@));
                assert(done.push(cell@) + visible_cells(clean_views(next@)) =~= done + (seq![cell@]
                    + visible_cells(clean_views(next@))));
                done = done.push(cell@);
            }
            rest = next;
        } else {
            let next = &rest[1..total];
            assert(clean_views(next@) =~= now.drop_first());
            rest = next;
        }
    }
    proof {
        assert(visible_cells(clean_views(rest@)) =~= seq![]);
        assert(all =~= done);
    }
    let text = chars_of(out.as_str());
    string_of(truncate(text.as_slice(), 80))
}

// ---------------------------------------------------------------------------
// Pieces
// ---------------------------------------------------------------------------

/// The opening tag of an anchor.
pub ghost struct OpenTag {
    pub kind: AnchorKind,
    pub hash: Seq<char>,
    pub line_start: nat,
    pub line_end: nat,
    pub excerpt: Seq<char>,
}

/// A piece of the HTML of a document.
pub ghost enum Piece {
    /// The opening tag of an anchor.
    Open(OpenTag),
    /// Any other text.
    Html(Seq<char>),
}

/// What the opening tag of an anchor begins with.
pub open spec fn tag_head(kind: AnchorKind) -> Seq<char> {
    match kind {
        AnchorKind::Block => "<div class=\"blk\" data-kind=\"block\" data-hash=\""@,
        AnchorKind::Item => "<li class=\"anchor\" data-kind=\"item\" data-hash=\""@,
        AnchorKind::Row => "<tr class=\"anchor\" data-kind=\"row\" data-hash=\""@,
    }
}

/// The text of an anchor's opening tag.
pub open spec fn open_tag_text(tag: OpenTag) -> Seq<char> {
    tag_head(tag.kind) + tag.hash + "\" data-line-start=\""@ + decimal(tag.line_start)
        + "\" data-line-end=\""@ + decimal(tag.line_end) + "\" data-excerpt=\""@ + html_escaped(
        tag.excerpt,
    ) + "\">"@
}

/// The text of a piece.
pub open spec fn piece_text(piece: Piece) -> Seq<char> {
    match piece {
        Piece::Open(tag) => open_tag_text(tag),
        Piece::Html(text) => text,
    }
}

/// The text of a list of pieces.
pub open spec fn text_of(pieces: Seq<Piece>) -> Seq<char>
    decreases pieces.len(),
{
    if pieces.len() == 0 {
        seq![]
    } else {
        text_of(pieces.drop_last()) + piece_text(pieces.last())
    }
}

/// The text of pieces is that of their parts, one behind the other.
pub proof fn lemma_text_add(a: Seq<Piece>, b: Seq<Piece>)
    ensures
        text_of(a + b) == text_of(a) + text_of(b),
    decreases b.len(),
{
    if b.len() == 0 {
        assert(a + b =~= a);
        assert(text_of(a) + text_of(b) =~= text_of(a));
    } else {
        assert((a + b).drop_last() =~= a + b.drop_last());
        lemma_text_add(a, b.drop_last());
        assert(text_of(a + b) =~= text_of(a) + text_of(b));
    }
}

/// The text of one piece.
proof fn lemma_text_one(piece: Piece)
    ensures
        text_of(seq![piece]) == piece_text(piece),
{
    let s = seq![piece];
    assert(s.drop_last() =~= Seq::<Piece>::empty());
    assert(text_of(s.drop_last()) =~= Seq::<char>::empty());
    assert(text_of(s) == text_of(s.drop_last()) + piece_text(s.last()));
    assert(text_of(s) =~= piece_text(piece));
}

/// Appends the opening tag of an anchor.
fn push_anchor_open(out: &mut String, anchor: &Anchor, excerpt: &str)
    ensures
        final(out)@ == old(out)@ + open_tag_text(
            (OpenTag {
                kind: anchor.kind,
                hash: anchor.hash@,
                line_start: anchor.line_start as nat,
                line_end: anchor.line_end as nat,
                excerpt: excerpt@,
            }),
        ),
{
    match anchor.kind {
        AnchorKind::Block => out.append("<div class=\"blk\" data-kind=\"block\" data-hash=\""),
        AnchorKind::Item => out.append("<li class=\"anchor\" data-kind=\"item\" data-hash=\""),
        AnchorKind::Row => out.append("<tr class=\"anchor\" data-kind=\"row\" data-hash=\""),
    }
    out.append(anchor.hash.as_str());
    out.append("\" data-line-start=\"");
    push_decimal(out, anchor.line_start as u128);
    out.append("\" data-line-end=\"");
    push_decimal(out, anchor.line_end as u128);
    out.append("\" data-excerpt=\"");
    let chars = chars_of(excerpt);
    push_html_escaped(out, chars.as_slice());
    out.append("\">");
    assert(out@ =~= old(out)@ + open_tag_text(
        OpenTag {
            kind: anchor.kind,
            hash: anchor.hash@,
            line_start: anchor.line_start as nat,
            line_end: anchor.line_end as nat,
            excerpt: excerpt@,
        },
    ));
}

// ---------------------------------------------------------------------------
// Table cells
// ---------------------------------------------------------------------------

/// The style of a cell in column `column`.
pub open spec fn cell_style(alignments: Option<Seq<Align>>, column: int) -> Seq<char> {
    let align = match alignments {
        Some(a) => if 0 <= column < a.len() {
            a[column]
        } else {
            Align::Standard
        },
        None => Align::Standard,
    };
    match align {
        Align::Standard => ">"@,
        Align::Left => " style=\"text-align: left\">"@,
        Align::Center => " style=\"text-align: center\">"@,
        Align::Right => " style=\"text-align: right\">"@,
    }
}

/// The element of a cell.
pub open spec fn cell_tag(head: bool) -> Seq<char> {
    if head {
        "th"@
    } else {
        "td"@
    }
}

/// The HTML of a cell that holds `events`.
pub open spec fn cell_html(
    events: Seq<EventView>,
    alignments: Option<Seq<Align>>,
    head: bool,
    column: int,
    local_images: bool,
) -> Seq<char> {
    "<"@ + cell_tag(head) + cell_style(alignments, column) + html_of(
        sanitized(events, local_images),
    ) + "</"@ + cell_tag(head) + ">"@
}

/// The HTML of the cells of a row, from column `column` on.
pub open spec fn row_html(
    events: Seq<EventView>,
    alignments: Option<Seq<Align>>,
    head: bool,
    column: int,
    local_images: bool,
) -> Seq<char>
    decreases events.len(),
    via row_html_decreases
{
    if events.len() == 0 {
        seq![]
    } else if events[0].shape == ShapeView::Start(TagView::TableCell) {
        cell_html(inside(events), alignments, head, column, local_images) + row_html(
            behind(events),
            alignments,
            head,
            column + 1,
            local_images,
        )
    } else {
        row_html(events.drop_first(), alignments, head, column, local_images)
    }
}

#[via_fn]
proof fn row_html_decreases(
    events: Seq<EventView>,
    alignments: Option<Seq<Align>>,
    head: bool,
    column: int,
    local_images: bool,
) {
    if events.len() > 0 {
        lemma_close_index(deltas(events), 1, 1);
    }
}

/// The values of optional alignments.
pub open spec fn alignment_view(alignments: Option<&Vec<Align>>) -> Option<Seq<Align>> {
    match alignments {
        Some(a) => Some(a@),
        None => None,
    }
}

/// Appends the style of a cell in column `column`.
fn push_cell_style(out: &mut String, alignments: Option<&Vec<Align>>, column: usize)
    ensures
        final(out)@ == old(out)@ + cell_style(alignment_view(alignments), column as int),
{
    let align = match alignments {
        Some(a) => if column < a.len() {
            a[column]
        } else {
            Align::Standard
        },
        None => Align::Standard,
    };
    match align {
        Align::Standard => out.append(">"),
        Align::Left => out.append(" style=\"text-align: left\">"),
        Align::Center => out.append(" style=\"text-align: center\">"),
        Align::Right => out.append(" style=\"text-align: right\">"),
    }
}

/// Appends a cell that holds `events`.
fn push_cell(
    out: &mut String,
    events: &[MdEvent],
    alignments: Option<&Vec<Align>>,
    head: bool,
    column: usize,
    local_images: bool,
)
    ensures
        final(out)@ == old(out)@ + cell_html(
            views(events@),
            alignment_view(alignments),
            head,
            column as int,
            local_images,
        ),
{
    let tag = if head {
        "th"
    } else {
        "td"
    };
    out.append("<");
    out.append(tag);
    push_cell_style(out, alignments, column);
    let clean = sanitize_events(events, local_images);
    push_html(out, &clean);
    out.append("</");
    out.append(tag);
    out.append(">");
    assert(out@ =~= old(out)@ + cell_html(
        views(events@),
        alignment_view(alignments),
        head,
        column as int,
        local_images,
    ));
}

/// Appends the cells of a row.
fn render_row_cells(
    events: &[MdEvent],
    alignments: Option<&Vec<Align>>,
    head: bool,
    local_images: bool,
    out: &mut String,
)
    ensures
        final(out)@ == old(out)@ + row_html(
            views(events@),
            alignment_view(alignments),
            head,
            0,
            local_images,
        ),
{
    let ghost a = alignment_view(alignments);
    let ghost all = row_html(views(events@), a, head, 0, local_images);
    let total: usize = events.len();
    let mut rest = events;
    let mut column: usize = 0;
    while rest.len() > 0
        invariant
            a == alignment_view(alignments),
            total == events@.len(),
            column + rest@.len() <= total,
            out@ + row_html(views(rest@), a, head, column as int, local_images) == old(out)@ + all,
        decreases rest@.len(),
    {
        let n: usize = rest.len();
        let ghost now = views(rest@);
        let ghost before = out@;
        assert(now[0] == rest@[0]@);
        let cell: bool = match &rest[0].shape {
            Shape::Start(TagShape::TableCell) => true,
            _ => false,
        };
        if cell {
            let end: usize = matching_end_index(rest);
            let inner = &rest[1..end];
            let start: usize = if end < n {
                end + 1
            } else {
                n
            };
            let next = &rest[start..n];
            proof {
                lemma_views_subrange(rest@, 1, end as int);
                lemma_views_subrange(rest@, start as int, n as int);
                assert(views(next@) =~= behind(now));
            }
            push_cell(out, inner, alignments, head, column, local_images);
            proof {
                let tail = row_html(views(next@), a, head, column + 1, local_images);
                assert(out@ + tail =~= before + row_html(
                    now,
                    a,
                    head,
                    column as int,
                    local_images,
                ));
            }
            column = column + 1;
            rest = next;
        } else {
            let next = &rest[1..n];
            assert(views(next@) =~= now.drop_first());
            rest = next;
        }
    }
    assert(row_html(views(rest@), a, head, column as int, local_images) =~= seq![]);
    assert(out@ =~= old(out)@ + all);
}

// ---------------------------------------------------------------------------
// Runs of events
// ---------------------------------------------------------------------------

/// The HTML of events that hold no anchor.
pub open spec fn leaf(run: Seq<EventView>, local_images: bool) -> Seq<Piece> {
    if run.len() == 0 {
        seq![]
    } else {
        seq![Piece::Html(html_of(sanitized(run, local_images)))]
    }
}

/// The opening tag of `anchor`, with the preview `excerpt`.
pub open spec fn open_tag(anchor: AnchorView, excerpt: Seq<char>) -> OpenTag {
    OpenTag {
        kind: anchor.kind,
        hash: anchor.hash,
        line_start: anchor.line_start,
        line_end: anchor.line_end,
        excerpt,
    }
}

/// The opening tag of the item or row which the first event of the run opens.
/// Its preview shows what is visible once the events are made safe.
pub open spec fn nested_tag(
    s: Seq<char>,
    events: Seq<EventView>,
    kind: AnchorKind,
    local_images: bool,
) -> OpenTag {
    let clean = sanitized(inside(events), local_images);
    open_tag(
        nested_anchor(s, events, kind, None),
        match kind {
            AnchorKind::Row => visible_row_excerpt(clean),
            _ => visible_excerpt(clean),
        },
    )
}

/// Whether an event begins the header row of a table.
pub open spec fn begins_head(e: EventView) -> bool {
    e.shape == ShapeView::Start(TagView::TableHead)
}

/// The HTML of the row which the first event of the run opens.
pub open spec fn row_pieces(
    s: Seq<char>,
    events: Seq<EventView>,
    alignments: Option<Seq<Align>>,
    local_images: bool,
) -> Seq<Piece> {
    let head = begins_head(events[0]);
    seq![
        Piece::Html(
            if head {
                "<thead>"@
            } else {
                seq![]
            },
        ),
        Piece::Open(nested_tag(s, events, AnchorKind::Row, local_images)),
        Piece::Html(row_html(inside(events), alignments, head, 0, local_images)),
        Piece::Html("</tr>\n"@),
        Piece::Html(
            if head {
                "</thead><tbody>\n"@
            } else {
                seq![]
            },
        ),
    ]
}

/// The alignments of the innermost table.
pub open spec fn innermost(tables: Seq<Seq<Align>>) -> Option<Seq<Align>> {
    if tables.len() > 0 {
        Some(tables.last())
    } else {
        None
    }
}

/// The tables that are open inside the innermost one.
pub open spec fn inner_tables(alignments: Option<Seq<Align>>) -> Seq<Seq<Align>> {
    match alignments {
        Some(a) => seq![a],
        None => seq![],
    }
}

/// The tables that are still open when one ends.
pub open spec fn without_innermost(tables: Seq<Seq<Align>>) -> Seq<Seq<Align>> {
    if tables.len() > 0 {
        tables.drop_last()
    } else {
        tables
    }
}

/// The HTML of `events`, before which stands the run `run` that holds no anchor
/// and is not written yet. `tables` holds the alignments of the tables that are
/// open, and `depth` counts the items round the run.
pub open spec fn pieces_from(
    s: Seq<char>,
    run: Seq<EventView>,
    events: Seq<EventView>,
    tables: Seq<Seq<Align>>,
    depth: nat,
    local_images: bool,
) -> Seq<Piece>
    decreases events.len(),
    via pieces_from_decreases
{
    if events.len() == 0 {
        leaf(run, local_images)
    } else {
        let e = events[0];
        let rest = events.drop_first();
        match e.shape {
            ShapeView::Start(TagView::Table(a)) => pieces_from(
                s,
                run.push(e),
                rest,
                tables.push(a),
                depth,
                local_images,
            ),
            ShapeView::End(EndShape::Table) => pieces_from(
                s,
                run.push(e),
                rest,
                without_innermost(tables),
                depth,
                local_images,
            ),
            _ => match anchor_kind(e) {
                Some(AnchorKind::Row) if depth < MAX_ANCHOR_DEPTH => leaf(run, local_images)
                    + row_pieces(s, events, innermost(tables), local_images) + pieces_from(
                    s,
                    seq![],
                    behind(events),
                    tables,
                    depth,
                    local_images,
                ),
                Some(kind) if depth < MAX_ANCHOR_DEPTH => leaf(run, local_images) + (seq![
                    Piece::Open(nested_tag(s, events, kind, local_images)),
                ] + pieces_from(
                    s,
                    seq![],
                    inside(events),
                    inner_tables(innermost(tables)),
                    depth + 1,
                    local_images,
                ) + seq![Piece::Html("</li>\n"@)]) + pieces_from(
                    s,
                    seq![],
                    behind(events),
                    tables,
                    depth,
                    local_images,
                ),
                _ => pieces_from(s, run.push(e), rest, tables, depth, local_images),
            },
        }
    }
}

#[via_fn]
proof fn pieces_from_decreases(
    s: Seq<char>,
    run: Seq<EventView>,
    events: Seq<EventView>,
    tables: Seq<Seq<Align>>,
    depth: nat,
    local_images: bool,
) {
    if events.len() > 0 {
        lemma_close_index(deltas(events), 1, 1);
    }
}

/// The values of the alignments of the tables that are open.
pub open spec fn table_views(tables: Seq<&Vec<Align>>) -> Seq<Seq<Align>> {
    tables.map_values(|a: &Vec<Align>| a@)
}

/// Appends events that hold no anchor.
fn flush_leaf(events: &[MdEvent], local_images: bool, out: &mut String)
    ensures
        final(out)@ == old(out)@ + text_of(leaf(views(events@), local_images)),
{
    if events.len() == 0 {
        assert(out@ =~= old(out)@ + text_of(leaf(views(events@), local_images)));
        return;
    }
    let clean = sanitize_events(events, local_images);
    push_html(out, &clean);
    proof {
        lemma_text_one(Piece::Html(html_of(sanitized(views(events@), local_images))));
    }
}

/// Appends the row which the first event of the run opens.
fn push_row(
    s: &[char],
    events: &[MdEvent],
    alignments: Option<&Vec<Align>>,
    local_images: bool,
    out: &mut String,
)
    requires
        events@.len() > 0,
        in_text(events@, s@.len() as int),
        s@.len() < usize::MAX,
    ensures
        final(out)@ == old(out)@ + text_of(
            row_pieces(s@, views(events@), alignment_view(alignments), local_images),
        ),
{
    assert(views(events@)[0] == events@[0]@);
    let head: bool = match &events[0].shape {
        Shape::Start(TagShape::TableHead) => true,
        _ => false,
    };
    let anchor = scan_anchor(s, events, AnchorKind::Row, None);
    let (inner, rest) = split_element(events, Ghost(s@.len() as int));
    let clean = sanitize_events(inner, local_images);
    let excerpt = plain_text_excerpt_row(clean.as_slice());
    if head {
        out.append("<thead>");
    }
    let ghost text0 = out@;
    push_anchor_open(out, &anchor, excerpt.as_str());
    let ghost text1 = out@;
    render_row_cells(inner, alignments, head, local_images, out);
    let ghost text2 = out@;
    out.append("</tr>\n");
    let ghost text3 = out@;
    if head {
        out.append("</thead><tbody>\n");
    }
    proof {
        let p = row_pieces(s@, views(events@), alignment_view(alignments), local_images);
        assert(text_of(p.take(0)) =~= seq![]);
        assert(p.take(1).drop_last() =~= p.take(0));
        assert(p.take(2).drop_last() =~= p.take(1));
        assert(p.take(3).drop_last() =~= p.take(2));
        assert(p.take(4).drop_last() =~= p.take(3));
        assert(p.drop_last() =~= p.take(4));
        assert(text0 =~= old(out)@ + text_of(p.take(1)));
        assert(text1 =~= old(out)@ + text_of(p.take(2)));
        assert(text2 =~= old(out)@ + text_of(p.take(3)));
        assert(text3 =~= old(out)@ + text_of(p.take(4)));
        assert(out@ =~= old(out)@ + text_of(p));
    }
}

/// The HTML of the item which the first event of the run opens.
pub open spec fn item_pieces(
    s: Seq<char>,
    events: Seq<EventView>,
    alignments: Option<Seq<Align>>,
    depth: nat,
    local_images: bool,
) -> Seq<Piece> {
    seq![Piece::Open(nested_tag(s, events, AnchorKind::Item, local_images))] + pieces_from(
        s,
        seq![],
        inside(events),
        inner_tables(alignments),
        depth + 1,
        local_images,
    ) + seq![Piece::Html("</li>\n"@)]
}

/// The HTML of the item or row which the first event of the run opens.
pub open spec fn anchor_pieces(
    s: Seq<char>,
    events: Seq<EventView>,
    kind: AnchorKind,
    alignments: Option<Seq<Align>>,
    depth: nat,
    local_images: bool,
) -> Seq<Piece> {
    match kind {
        AnchorKind::Row => row_pieces(s, events, alignments, local_images),
        _ => item_pieces(s, events, alignments, depth, local_images),
    }
}

/// Where a run goes on with an anchor, what is pending is written, then the
/// anchor, then the rest.
proof fn lemma_anchor_pieces(
    s: Seq<char>,
    run: Seq<EventView>,
    events: Seq<EventView>,
    tables: Seq<Seq<Align>>,
    depth: nat,
    local_images: bool,
)
    requires
        events.len() > 0,
        depth < MAX_ANCHOR_DEPTH,
        anchor_kind(events[0]) is Some,
    ensures
        pieces_from(s, run, events, tables, depth, local_images) == leaf(run, local_images)
            + anchor_pieces(
            s,
            events,
            anchor_kind(events[0])->Some_0,
            innermost(tables),
            depth,
            local_images,
        ) + pieces_from(s, seq![], behind(events), tables, depth, local_images),
{
}

/// What follows an element is the end of the run.
proof fn lemma_behind(events: Seq<EventView>)
    requires
        events.len() > 0,
    ensures
        behind(events).len() < events.len(),
        behind(events) == events.skip(events.len() - behind(events).len()),
{
    lemma_close_index(deltas(events), 1, 1);
    assert(behind(events) =~= events.skip(events.len() - behind(events).len()));
}

/// Appends the item which the first event of the run opens.
fn push_item<'e>(
    s: &[char],
    events: &'e [MdEvent],
    alignments: Option<&'e Vec<Align>>,
    depth: u32,
    local_images: bool,
    out: &mut String,
)
    requires
        events@.len() > 0,
        in_text(events@, s@.len() as int),
        s@.len() < usize::MAX,
        depth < MAX_ANCHOR_DEPTH,
    ensures
        final(out)@ == old(out)@ + text_of(
            item_pieces(
                s@,
                views(events@),
                alignment_view(alignments),
                depth as nat,
                local_images,
            ),
        ),
    decreases events@.len(), 0nat,
{
    let anchor = scan_anchor(s, events, AnchorKind::Item, None);
    let (inner, rest) = split_element(events, Ghost(s@.len() as int));
    let clean = sanitize_events(inner, local_images);
    let excerpt = plain_text_excerpt(clean.as_slice());
    push_anchor_open(out, &anchor, excerpt.as_str());
    render_events_html(s, inner, alignments, depth + 1, local_images, out);
    out.append("</li>\n");
    proof {
        let now = views(events@);
        let open = Piece::Open(nested_tag(s@, now, AnchorKind::Item, local_images));
        let close = Piece::Html("</li>\n"@);
        let p2 = pieces_from(
            s@,
            seq![],
            inside(now),
            inner_tables(alignment_view(alignments)),
            (depth + 1) as nat,
            local_images,
        );
        lemma_text_one(open);
        lemma_text_one(close);
        lemma_text_add(seq![open], p2);
        lemma_text_add(seq![open] + p2, seq![close]);
        assert(out@ =~= old(out)@ + text_of(seq![open] + p2 + seq![close]));
    }
}

/// Appends the item or row which the first event of the run opens.
fn push_anchor<'e>(
    s: &[char],
    events: &'e [MdEvent],
    kind: AnchorKind,
    alignments: Option<&'e Vec<Align>>,
    depth: u32,
    local_images: bool,
    out: &mut String,
)
    requires
        events@.len() > 0,
        in_text(events@, s@.len() as int),
        s@.len() < usize::MAX,
        depth < MAX_ANCHOR_DEPTH,
    ensures
        final(out)@ == old(out)@ + text_of(
            anchor_pieces(
                s@,
                views(events@),
                kind,
                alignment_view(alignments),
                depth as nat,
                local_images,
            ),
        ),
    decreases events@.len(), 1nat,
{
    match kind {
        AnchorKind::Row => push_row(s, events, alignments, local_images, out),
        _ => push_item(s, events, alignments, depth, local_images, out),
    }
}

/// Appends the HTML of `events`. `alignments` are those of the table round them,
/// and `depth` counts the items round them.
#[verifier::rlimit(40)]
fn render_events_html<'e>(
    s: &[char],
    events: &'e [MdEvent],
    alignments: Option<&'e Vec<Align>>,
    depth: u32,
    local_images: bool,
    out: &mut String,
)
    requires
        in_text(events@, s@.len() as int),
        s@.len() < usize::MAX,
        depth <= MAX_ANCHOR_DEPTH,
    ensures
        final(out)@ == old(out)@ + text_of(
            pieces_from(
                s@,
                seq![],
                views(events@),
                inner_tables(alignment_view(alignments)),
                depth as nat,
                local_images,
            ),
        ),
    decreases events@.len(), 2nat,
{
    let n: usize = events.len();
    let ghost limit = s@.len() as int;
    let ghost ev = views(events@);
    let ghost d = depth as nat;
    let mut tables: Vec<&'e Vec<Align>> = Vec::new();
    if let Some(a) = alignments {
        tables.push(a);
    }
    let ghost all = pieces_from(
        s@,
        seq![],
        ev,
        inner_tables(alignment_view(alignments)),
        d,
        local_images,
    );
    let mut from: usize = 0;
    let mut i: usize = 0;
    proof {
        assert(table_views(tables@) =~= inner_tables(alignment_view(alignments)));
        assert(ev.subrange(0, 0) =~= seq![]);
        assert(ev.skip(0) =~= ev);
    }
    while i < n
        invariant
            n == events@.len(),
            limit == s@.len(),
            limit < usize::MAX,
            ev == views(events@),
            d == depth as nat,
            depth <= MAX_ANCHOR_DEPTH,
            in_text(events@, limit),
            from <= i <= n,
            out@ + text_of(
                pieces_from(
                    s@,
                    ev.subrange(from as int, i as int),
                    ev.skip(i as int),
                    table_views(tables@),
                    d,
                    local_images,
                ),
            ) == old(out)@ + text_of(all),
        decreases n - i,
    {
        let ghost run = ev.subrange(from as int, i as int);
        let ghost now = ev.skip(i as int);
        let ghost open_tables = table_views(tables@);
        let ghost before = out@;
        proof {
            assert(now[0] == events@[i as int]@);
            assert(now.drop_first() =~= ev.skip(i + 1));
            assert(run.push(now[0]) =~= ev.subrange(from as int, i + 1));
        }
        let kind: Option<AnchorKind> = if depth < MAX_ANCHOR_DEPTH {
            anchor_kind_of(&events[i])
        } else {
            None
        };
        match kind {
            None => {
                match &events[i].shape {
                    Shape::Start(TagShape::Table(a)) => {
                        tables.push(a);
                        assert(table_views(tables@) =~= open_tables.push(a@));
                    },
                    Shape::End(EndShape::Table) => {
                        let closed = tables.pop();
                        assert(table_views(tables@) =~= without_innermost(open_tables));
                    },
                    _ => {},
                }
                i = i + 1;
            },
            Some(kind) => {
                let pending = &events[from..i];
                let rest = &events[i..n];
                proof {
                    lemma_views_subrange(events@, from as int, i as int);
                    lemma_views_subrange(events@, i as int, n as int);
                    assert(views(rest@) =~= now);
                }
                let (inner, next) = split_element(rest, Ghost(limit));
                let current: Option<&'e Vec<Align>> = if tables.len() > 0 {
                    Some(tables[tables.len() - 1])
                } else {
                    None
                };
                assert(alignment_view(current) == innermost(open_tables)) by {
                    if open_tables.len() > 0 {
                        assert(open_tables.last() == tables@.last()@);
                    }
                }
                flush_leaf(pending, local_images, out);
                push_anchor(s, rest, kind, current, depth, local_images, out);
                proof {
                    lemma_anchor_pieces(s@, run, now, open_tables, d, local_images);
                    let p1 = leaf(run, local_images);
                    let p2 = anchor_pieces(
                        s@,
                        now,
                        kind,
                        innermost(open_tables),
                        d,
                        local_images,
                    );
                    let p3 = pieces_from(s@, seq![], behind(now), open_tables, d, local_images);
                    lemma_text_add(p1, p2);
                    lemma_text_add(p1 + p2, p3);
                    assert(out@ + text_of(p3) =~= before + text_of(p1 + p2 + p3));
                }
                i = n - next.len();
                from = i;
                proof {
                    lemma_behind(now);
                    assert(ev.subrange(from as int, i as int) =~= seq![]);
                    assert(views(next@).len() == next@.len());
                    assert(ev.skip(i as int) =~= behind(now));
                }
            },
        }
    }
    let pending = &events[from..n];
    flush_leaf(pending, local_images, out);
    proof {
        lemma_views_subrange(events@, from as int, n as int);
        assert(ev.skip(i as int) =~= seq![]);
    }
}

// ---------------------------------------------------------------------------
// Documents
// ---------------------------------------------------------------------------

/// The opening tag of a block. Its preview shows what is visible once the events
/// are made safe.
pub open spec fn block_tag(s: Seq<char>, block: Seq<EventView>, local_images: bool) -> OpenTag {
    open_tag(block_anchor(s, block), visible_excerpt(sanitized(block, local_images)))
}

/// The HTML of a block.
pub open spec fn block_pieces(s: Seq<char>, block: Seq<EventView>, local_images: bool) -> Seq<
    Piece,
> {
    seq![Piece::Open(block_tag(s, block, local_images))] + pieces_from(
        s,
        seq![],
        block,
        seq![],
        0,
        local_images,
    ) + seq![Piece::Html("</div>\n"@)]
}

/// The HTML of a list of blocks.
pub open spec fn blocks_pieces(
    s: Seq<char>,
    blocks: Seq<Seq<EventView>>,
    local_images: bool,
) -> Seq<Piece>
    decreases blocks.len(),
{
    if blocks.len() == 0 {
        seq![]
    } else {
        blocks_pieces(s, blocks.drop_last(), local_images) + block_pieces(
            s,
            blocks.last(),
            local_images,
        )
    }
}

/// The HTML of a document.
pub open spec fn document_pieces(s: Seq<char>, local_images: bool) -> Seq<Piece> {
    blocks_pieces(s, document_blocks(s), local_images)
}

/// Appends the HTML of a block.
fn push_block(s: &[char], block: &[MdEvent], local_images: bool, out: &mut String)
    requires
        block@.len() > 0,
        in_text(block@, s@.len() as int),
        s@.len() < usize::MAX,
    ensures
        final(out)@ == old(out)@ + text_of(block_pieces(s@, views(block@), local_images)),
{
    let anchor = scan_block(s, block);
    let clean = sanitize_events(block, local_images);
    let excerpt = plain_text_excerpt(clean.as_slice());
    push_anchor_open(out, &anchor, excerpt.as_str());
    render_events_html(s, block, None, 0, local_images, out);
    out.append("</div>\n");
    proof {
        let now = views(block@);
        let open = Piece::Open(block_tag(s@, now, local_images));
        let close = Piece::Html("</div>\n"@);
        let middle = pieces_from(s@, seq![], now, seq![], 0, local_images);
        lemma_text_one(open);
        lemma_text_one(close);
        lemma_text_add(seq![open], middle);
        lemma_text_add(seq![open] + middle, seq![close]);
        assert(out@ =~= old(out)@ + text_of(seq![open] + middle + seq![close]));
    }
}

/// The HTML of the document with the source `s` and the events `events`.
pub fn html_in(s: &[char], events: &[MdEvent], local_images: bool) -> (r: String)
    requires
        in_text(events@, s@.len() as int),
        s@.len() < usize::MAX,
    ensures
        r@ == text_of(blocks_pieces(s@, top_blocks(views(events@)), local_images)),
{
    let blocks = parsed_blocks(events, Ghost(s@.len() as int));
    let ghost runs = run_views(blocks@);
    let mut out = String::new();
    let mut i: usize = 0;
    assert(out@ =~= text_of(blocks_pieces(s@, runs.take(0), local_images)));
    while i < blocks.len()
        invariant
            s@.len() < usize::MAX,
            runs == run_views(blocks@),
            forall|i: int| 0 <= i < blocks@.len() ==> (#[trigger] blocks@[i])@.len() > 0,
            forall|i: int|
                0 <= i < blocks@.len() ==> in_text((#[trigger] blocks@[i])@, s@.len() as int),
            i <= blocks@.len(),
            out@ == text_of(blocks_pieces(s@, runs.take(i as int), local_images)),
        decreases blocks@.len() - i,
    {
        let block = blocks[i];
        push_block(s, block, local_images, &mut out);
        proof {
            assert(runs.take(i + 1).drop_last() =~= runs.take(i as int));
            assert(runs.take(i + 1).last() == views(block@));
            lemma_text_add(
                blocks_pieces(s@, runs.take(i as int), local_images),
                block_pieces(s@, views(block@), local_images),
            );
        }
        i = i + 1;
    }
    assert(runs.take(i as int) =~= runs);
    out
}

/// The HTML of `markdown`. An image beside the document is fetched from the
/// asset route where `local_images` says so. Its elements are those of the anchors
/// of `markdown`, one for one and in their order.
pub fn to_html_with(markdown: &str, local_images: bool) -> (r: String)
    ensures
        r@ == text_of(document_pieces(markdown@, local_images)),
        opened(document_pieces(markdown@, local_images)) == identities(document_anchors(markdown@)),
{
    let s = chars_of(markdown);
    let events = read_events(s.as_slice());
    proof {
        law_html_opens_every_anchor(markdown@, local_images);
    }
    html_in(s.as_slice(), events.as_slice(), local_images)
}

/// The HTML of `markdown`, without a page round it. Tables, strikethrough, task
/// lists and footnotes are enabled.
///
/// Raw HTML in the source becomes inert text, and link and image targets are
/// held to an allow-list. Each top-level block stands in a `div` of the class
/// `blk`, and each list item and table row is an element of the class `anchor`;
/// both say in their attributes which anchor they are.
pub fn to_html(markdown: &str) -> (r: String)
    ensures
        r@ == text_of(document_pieces(markdown@, false)),
        opened(document_pieces(markdown@, false)) == identities(document_anchors(markdown@)),
{
    to_html_with(markdown, false)
}

// ---------------------------------------------------------------------------
// Laws
// ---------------------------------------------------------------------------

/// What an opening tag and the anchor it stands for have in common.
pub ghost struct Identity {
    pub kind: AnchorKind,
    pub hash: Seq<char>,
    pub line_start: nat,
    pub line_end: nat,
}

/// What identifies an anchor.
pub open spec fn anchor_identity(a: AnchorView) -> Identity {
    Identity { kind: a.kind, hash: a.hash, line_start: a.line_start, line_end: a.line_end }
}

/// What an opening tag identifies.
pub open spec fn tag_identity(t: OpenTag) -> Identity {
    Identity { kind: t.kind, hash: t.hash, line_start: t.line_start, line_end: t.line_end }
}

/// What identifies each of a list of anchors.
pub open spec fn identities(anchors: Seq<AnchorView>) -> Seq<Identity> {
    anchors.map_values(|a: AnchorView| anchor_identity(a))
}

/// What the opening tags among `pieces` identify, in their order.
pub open spec fn opened(pieces: Seq<Piece>) -> Seq<Identity>
    decreases pieces.len(),
{
    if pieces.len() == 0 {
        seq![]
    } else {
        match pieces.last() {
            Piece::Open(tag) => opened(pieces.drop_last()).push(tag_identity(tag)),
            Piece::Html(_) => opened(pieces.drop_last()),
        }
    }
}

/// Opening tags are found piece by piece.
proof fn lemma_opened_add(a: Seq<Piece>, b: Seq<Piece>)
    ensures
        opened(a + b) == opened(a) + opened(b),
    decreases b.len(),
{
    if b.len() == 0 {
        assert(a + b =~= a);
        assert(opened(a) + opened(b) =~= opened(a));
    } else {
        assert((a + b).drop_last() =~= a + b.drop_last());
        lemma_opened_add(a, b.drop_last());
        assert(opened(a + b) =~= opened(a) + opened(b));
    }
}

/// What one piece opens.
proof fn lemma_opened_one(piece: Piece)
    ensures
        opened(seq![piece]) == match piece {
            Piece::Open(tag) => seq![tag_identity(tag)],
            Piece::Html(_) => seq![],
        },
{
    assert(seq![piece].drop_last() =~= Seq::<Piece>::empty());
    assert(opened(seq![piece].drop_last()) =~= seq![]);
    match piece {
        Piece::Open(tag) => {
            assert(opened(seq![piece]) =~= seq![tag_identity(tag)]);
        },
        Piece::Html(_) => {},
    }
}

/// What a row opens: itself.
proof fn lemma_opened_row(
    s: Seq<char>,
    events: Seq<EventView>,
    alignments: Option<Seq<Align>>,
    local_images: bool,
)
    ensures
        opened(row_pieces(s, events, alignments, local_images)) == seq![
            tag_identity(nested_tag(s, events, AnchorKind::Row, local_images)),
        ],
{
    let p = row_pieces(s, events, alignments, local_images);
    assert(opened(p.take(0)) =~= seq![]);
    assert(p.take(1).drop_last() =~= p.take(0));
    assert(p.take(2).drop_last() =~= p.take(1));
    assert(p.take(3).drop_last() =~= p.take(2));
    assert(p.take(4).drop_last() =~= p.take(3));
    assert(p.drop_last() =~= p.take(4));
    assert(opened(p.take(1)) =~= seq![]);
    assert(opened(p.take(2)) =~= seq![
        tag_identity(nested_tag(s, events, AnchorKind::Row, local_images)),
    ]);
    assert(opened(p.take(3)) == opened(p.take(2)));
    assert(opened(p.take(4)) == opened(p.take(3)));
}

/// Whether the table rows in a run hold no list items and no rows, as a cell
/// cannot hold a block.
pub open spec fn rows_are_flat(events: Seq<EventView>) -> bool
    decreases events.len(),
    via rows_are_flat_decreases
{
    if events.len() == 0 {
        true
    } else {
        match anchor_kind(events[0]) {
            None => rows_are_flat(events.drop_first()),
            Some(AnchorKind::Row) => holds_no_anchor(inside(events)) && rows_are_flat(
                behind(events),
            ),
            Some(_) => rows_are_flat(inside(events)) && rows_are_flat(behind(events)),
        }
    }
}

#[via_fn]
proof fn rows_are_flat_decreases(events: Seq<EventView>) {
    if events.len() > 0 {
        lemma_close_index(deltas(events), 1, 1);
    }
}

/// A run opens a tag for each of its items and rows.
proof fn lemma_run_opens(
    s: Seq<char>,
    run: Seq<EventView>,
    events: Seq<EventView>,
    tables: Seq<Seq<Align>>,
    depth: nat,
    local_images: bool,
    parent: nat,
    base: nat,
)
    requires
        rows_are_flat(events),
    ensures
        opened(pieces_from(s, run, events, tables, depth, local_images)) == identities(
            nested_anchors(s, events, parent, depth, base),
        ),
    decreases events.len(),
{
    let p1 = leaf(run, local_images);
    assert(opened(p1) =~= seq![]) by {
        if run.len() > 0 {
            lemma_opened_one(p1[0]);
            assert(p1 =~= seq![p1[0]]);
        }
    }
    if events.len() == 0 {
        assert(identities(nested_anchors(s, events, parent, depth, base)) =~= seq![]);
        return;
    }
    lemma_close_index(deltas(events), 1, 1);
    let e = events[0];
    let rest = events.drop_first();
    let kind = anchor_kind(e);
    if kind is None || depth >= MAX_ANCHOR_DEPTH {
        let next_tables = match e.shape {
            ShapeView::Start(TagView::Table(a)) => tables.push(a),
            ShapeView::End(EndShape::Table) => without_innermost(tables),
            _ => tables,
        };
        if depth >= MAX_ANCHOR_DEPTH {
            lemma_deep_run_opens_nothing(s, run, events, tables, depth, local_images);
            assert(identities(nested_anchors(s, events, parent, depth, base)) =~= seq![]);
        } else {
            lemma_run_opens(
                s,
                run.push(e),
                rest,
                next_tables,
                depth,
                local_images,
                parent,
                base,
            );
        }
    } else {
        let anchor = nested_anchor(s, events, kind->Some_0, Some(parent));
        let inner = nested_anchors(s, inside(events), base, depth + 1, base + 1);
        let next = base + 1 + inner.len();
        let tail = nested_anchors(s, behind(events), parent, depth, next);
        let p3 = pieces_from(s, seq![], behind(events), tables, depth, local_images);
        lemma_run_opens(
            s,
            seq![],
            behind(events),
            tables,
            depth,
            local_images,
            parent,
            next,
        );
        let tag = nested_tag(s, events, kind->Some_0, local_images);
        assert(tag_identity(tag) == anchor_identity(anchor));
        let p2 = if kind == Some(AnchorKind::Row) {
            lemma_no_nested(s, inside(events), base, depth + 1, base + 1);
            lemma_opened_row(s, events, innermost(tables), local_images);
            row_pieces(s, events, innermost(tables), local_images)
        } else {
            let open = Piece::Open(tag);
            let close = Piece::Html("</li>\n"@);
            let middle = pieces_from(
                s,
                seq![],
                inside(events),
                inner_tables(innermost(tables)),
                depth + 1,
                local_images,
            );
            lemma_run_opens(
                s,
                seq![],
                inside(events),
                inner_tables(innermost(tables)),
                depth + 1,
                local_images,
                base,
                base + 1,
            );
            lemma_opened_one(open);
            lemma_opened_one(close);
            lemma_opened_add(seq![open], middle);
            lemma_opened_add(seq![open] + middle, seq![close]);
            seq![open] + middle + seq![close]
        };
        assert(opened(p2) =~= seq![anchor_identity(anchor)] + identities(inner));
        lemma_opened_add(p1, p2);
        lemma_opened_add(p1 + p2, p3);
        assert(pieces_from(s, run, events, tables, depth, local_images) == p1 + p2 + p3);
        assert(identities(seq![anchor] + inner + tail) =~= seq![anchor_identity(anchor)]
            + identities(inner) + identities(tail));
        assert(opened(p1 + p2 + p3) =~= identities(seq![anchor] + inner + tail));
    }
}

/// Below the greatest depth nothing is an anchor.
proof fn lemma_deep_run_opens_nothing(
    s: Seq<char>,
    run: Seq<EventView>,
    events: Seq<EventView>,
    tables: Seq<Seq<Align>>,
    depth: nat,
    local_images: bool,
)
    requires
        depth >= MAX_ANCHOR_DEPTH,
    ensures
        opened(pieces_from(s, run, events, tables, depth, local_images)) == Seq::<
            Identity,
        >::empty(),
    decreases events.len(),
{
    if events.len() == 0 {
        let p1 = leaf(run, local_images);
        if run.len() > 0 {
            lemma_opened_one(p1[0]);
            assert(p1 =~= seq![p1[0]]);
        }
        assert(opened(p1) =~= seq![]);
    } else {
        let e = events[0];
        let next_tables = match e.shape {
            ShapeView::Start(TagView::Table(a)) => tables.push(a),
            ShapeView::End(EndShape::Table) => without_innermost(tables),
            _ => tables,
        };
        lemma_deep_run_opens_nothing(
            s,
            run.push(e),
            events.drop_first(),
            next_tables,
            depth,
            local_images,
        );
    }
}

/// Whether the table rows of every block hold no list items and no rows.
pub open spec fn all_rows_are_flat(blocks: Seq<Seq<EventView>>) -> bool {
    forall|i: int| 0 <= i < blocks.len() ==> rows_are_flat(#[trigger] blocks[i])
}

/// Blocks open a tag for each of their anchors.
proof fn lemma_blocks_open(s: Seq<char>, blocks: Seq<Seq<EventView>>, local_images: bool)
    requires
        all_rows_are_flat(blocks),
    ensures
        opened(blocks_pieces(s, blocks, local_images)) == identities(anchors_of(s, blocks)),
    decreases blocks.len(),
{
    if blocks.len() == 0 {
        assert(opened(blocks_pieces(s, blocks, local_images)) =~= identities(
            anchors_of(s, blocks),
        ));
    } else {
        let block = blocks.last();
        assert(rows_are_flat(block));
        assert forall|i: int| 0 <= i < blocks.drop_last().len() implies rows_are_flat(
            #[trigger] blocks.drop_last()[i],
        ) by {
            assert(blocks.drop_last()[i] == blocks[i]);
        }
        lemma_blocks_open(s, blocks.drop_last(), local_images);
        let before = anchors_of(s, blocks.drop_last());
        let tail = nested_anchors(s, block, before.len(), 0, before.len() + 1);
        let p0 = blocks_pieces(s, blocks.drop_last(), local_images);
        let open = Piece::Open(block_tag(s, block, local_images));
        let close = Piece::Html("</div>\n"@);
        let middle = pieces_from(s, seq![], block, seq![], 0, local_images);
        lemma_run_opens(
            s,
            seq![],
            block,
            seq![],
            0,
            local_images,
            before.len(),
            before.len() + 1,
        );
        lemma_opened_one(open);
        lemma_opened_one(close);
        lemma_opened_add(seq![open], middle);
        lemma_opened_add(seq![open] + middle, seq![close]);
        lemma_opened_add(p0, seq![open] + middle + seq![close]);
        assert(opened(blocks_pieces(s, blocks, local_images)) =~= identities(
            anchors_of(s, blocks),
        ));
    }
}

/// The rows of a tidy run are flat.
proof fn lemma_tidy_rows_are_flat(s: Seq<char>, events: Seq<EventView>)
    requires
        is_tidy(s, events),
    ensures
        rows_are_flat(events),
    decreases events.len(),
{
    if events.len() > 0 {
        lemma_parts_are_tidy(s, events);
        lemma_close_index(deltas(events), 1, 1);
        match anchor_kind(events[0]) {
            None => lemma_tidy_rows_are_flat(s, events.drop_first()),
            Some(kind) => {
                lemma_tidy_rows_are_flat(s, behind(events));
                if kind == AnchorKind::Row {
                    lemma_row_holds_no_anchor(s, events);
                } else {
                    lemma_tidy_rows_are_flat(s, inside(events));
                }
            },
        }
    }
}

/// The HTML of a document opens one element for each anchor of the document, in
/// the same order and with the same kind, hash and lines, where the events are
/// tidy, as those of every document are that is read.
pub proof fn law_html_opens_every_anchor(markdown: Seq<char>, local_images: bool)
    requires
        is_tidy(markdown, document_events(markdown)),
    ensures
        opened(document_pieces(markdown, local_images)) == identities(document_anchors(markdown)),
{
    let blocks = document_blocks(markdown);
    lemma_blocks_are_tidy(markdown, document_events(markdown));
    assert forall|i: int| 0 <= i < blocks.len() implies rows_are_flat(#[trigger] blocks[i]) by {
        lemma_tidy_rows_are_flat(markdown, blocks[i]);
    }
    lemma_blocks_open(markdown, blocks, local_images);
}

/// The blocks among what opening tags identify.
pub open spec fn blocks_among(tags: Seq<Identity>) -> Seq<Identity>
    decreases tags.len(),
{
    if tags.len() == 0 {
        seq![]
    } else if tags.last().kind == AnchorKind::Block {
        blocks_among(tags.drop_last()).push(tags.last())
    } else {
        blocks_among(tags.drop_last())
    }
}

/// Blocks are found piece by piece.
proof fn lemma_blocks_among_add(a: Seq<Identity>, b: Seq<Identity>)
    ensures
        blocks_among(a + b) == blocks_among(a) + blocks_among(b),
    decreases b.len(),
{
    if b.len() == 0 {
        assert(a + b =~= a);
        assert(blocks_among(a) + blocks_among(b) =~= blocks_among(a));
    } else {
        assert((a + b).drop_last() =~= a + b.drop_last());
        lemma_blocks_among_add(a, b.drop_last());
        assert(blocks_among(a + b) =~= blocks_among(a) + blocks_among(b));
    }
}

/// What is found of one tag.
proof fn lemma_blocks_among_one(tag: Identity)
    ensures
        blocks_among(seq![tag]) == if tag.kind == AnchorKind::Block {
            seq![tag]
        } else {
            seq![]
        },
{
    assert(seq![tag].drop_last() =~= Seq::<Identity>::empty());
    assert(blocks_among(seq![tag].drop_last()) =~= seq![]);
    if tag.kind == AnchorKind::Block {
        assert(blocks_among(seq![tag]) =~= seq![tag]);
    }
}

/// Inside a block no tag of a block is opened.
proof fn lemma_run_opens_no_block(
    s: Seq<char>,
    run: Seq<EventView>,
    events: Seq<EventView>,
    tables: Seq<Seq<Align>>,
    depth: nat,
    local_images: bool,
)
    ensures
        blocks_among(opened(pieces_from(s, run, events, tables, depth, local_images))) == Seq::<
            Identity,
        >::empty(),
    decreases events.len(),
{
    let p1 = leaf(run, local_images);
    assert(opened(p1) =~= seq![]) by {
        if run.len() > 0 {
            lemma_opened_one(p1[0]);
            assert(p1 =~= seq![p1[0]]);
        }
    }
    assert(blocks_among(Seq::<Identity>::empty()) =~= seq![]);
    if events.len() > 0 {
        lemma_close_index(deltas(events), 1, 1);
        let e = events[0];
        let kind = anchor_kind(e);
        if kind is None || depth >= MAX_ANCHOR_DEPTH {
            let next_tables = match e.shape {
                ShapeView::Start(TagView::Table(a)) => tables.push(a),
                ShapeView::End(EndShape::Table) => without_innermost(tables),
                _ => tables,
            };
            lemma_run_opens_no_block(
                s,
                run.push(e),
                events.drop_first(),
                next_tables,
                depth,
                local_images,
            );
        } else {
            lemma_anchor_pieces(s, run, events, tables, depth, local_images);
            let k = kind->Some_0;
            let tag = nested_tag(s, events, k, local_images);
            let p2 = anchor_pieces(s, events, k, innermost(tables), depth, local_images);
            let p3 = pieces_from(s, seq![], behind(events), tables, depth, local_images);
            lemma_blocks_among_one(tag_identity(tag));
            lemma_run_opens_no_block(s, seq![], behind(events), tables, depth, local_images);
            if k == AnchorKind::Row {
                lemma_opened_row(s, events, innermost(tables), local_images);
            } else {
                let open = Piece::Open(tag);
                let close = Piece::Html("</li>\n"@);
                let middle = pieces_from(
                    s,
                    seq![],
                    inside(events),
                    inner_tables(innermost(tables)),
                    depth + 1,
                    local_images,
                );
                lemma_run_opens_no_block(
                    s,
                    seq![],
                    inside(events),
                    inner_tables(innermost(tables)),
                    depth + 1,
                    local_images,
                );
                lemma_opened_one(open);
                lemma_opened_one(close);
                lemma_opened_add(seq![open], middle);
                lemma_opened_add(seq![open] + middle, seq![close]);
                lemma_blocks_among_add(seq![tag_identity(tag)], opened(middle));
                lemma_blocks_among_add(
                    seq![tag_identity(tag)] + opened(middle),
                    Seq::<Identity>::empty(),
                );
                assert(opened(p2) =~= seq![tag_identity(tag)] + opened(middle));
            }
            lemma_opened_add(p1, p2);
            lemma_opened_add(p1 + p2, p3);
            lemma_blocks_among_add(opened(p1), opened(p2));
            lemma_blocks_among_add(opened(p1) + opened(p2), opened(p3));
            assert(blocks_among(opened(p1 + p2 + p3)) =~= seq![]);
        }
    }
}

/// What identifies a block.
pub open spec fn block_identity(b: BlockView) -> Identity {
    Identity {
        kind: AnchorKind::Block,
        hash: b.hash,
        line_start: b.line_start,
        line_end: b.line_end,
    }
}

/// What identifies each of a list of blocks.
pub open spec fn block_identities(blocks: Seq<BlockView>) -> Seq<Identity> {
    blocks.map_values(|b: BlockView| block_identity(b))
}

/// Blocks open one tag of a block each.
proof fn lemma_block_tags(s: Seq<char>, blocks: Seq<Seq<EventView>>, local_images: bool)
    ensures
        blocks_among(opened(blocks_pieces(s, blocks, local_images))) == block_identities(
            blocks_from(s, blocks),
        ),
    decreases blocks.len(),
{
    if blocks.len() == 0 {
        assert(blocks_among(opened(blocks_pieces(s, blocks, local_images))) =~= block_identities(
            blocks_from(s, blocks),
        ));
    } else {
        let block = blocks.last();
        lemma_block_tags(s, blocks.drop_last(), local_images);
        let p0 = blocks_pieces(s, blocks.drop_last(), local_images);
        let tag = block_tag(s, block, local_images);
        let open = Piece::Open(tag);
        let close = Piece::Html("</div>\n"@);
        let middle = pieces_from(s, seq![], block, seq![], 0, local_images);
        let p1 = seq![open] + middle + seq![close];
        lemma_run_opens_no_block(s, seq![], block, seq![], 0, local_images);
        lemma_opened_one(open);
        lemma_opened_one(close);
        lemma_opened_add(seq![open], middle);
        lemma_opened_add(seq![open] + middle, seq![close]);
        lemma_opened_add(p0, p1);
        lemma_blocks_among_one(tag_identity(tag));
        lemma_blocks_among_add(seq![tag_identity(tag)], opened(middle));
        assert(opened(p1) =~= seq![tag_identity(tag)] + opened(middle));
        lemma_blocks_among_add(opened(p0), opened(p1));
        let all = blocks_from(s, blocks);
        assert(all.drop_last() =~= blocks_from(s, blocks.drop_last()));
        assert(blocks_among(opened(p0 + p1)) =~= block_identities(all));
    }
}

/// The HTML of a document opens one `div` for each block of the document, in the
/// same order and with the same hash and lines.
pub proof fn law_html_opens_every_block(markdown: Seq<char>, local_images: bool)
    ensures
        blocks_among(opened(document_pieces(markdown, local_images))) == block_identities(
            blocks_of(document_anchors(markdown)),
        ),
{
    lemma_block_tags(markdown, document_blocks(markdown), local_images);
    law_blocks_are_the_top_level_blocks(markdown);
}

} // verus!
