//! The anchors of a Markdown document, its HTML, and the page round it.
use sha2::{Digest, Sha256};
use vstd::prelude::*;
use vstd::utf8::encode_utf8;

use crate::markdown::{
    begins_row, close_index, closes_only_what_is_open, delta, deltas, document_events, end_of,
    frontmatter_len, is_tidy, lemma_close_index, lemma_frontmatter, nesting, parsed_events,
    read_events, views, EventView, MdEvent, Shape, ShapeView, TagShape, TagView,
};
use crate::offsets::lemma_char_index_bound;
use crate::text::{
    chars_of, count_newlines, find_char, first_line, has_prefix, has_prefix_str, joined,
    lemma_find_char, lemma_joined_push, lemma_trimmed_end, lemma_trimmed_start,
    lemma_trimmed_twice, line_at, lines, newlines, second_line, slice, span, string_of, trim,
    trim_end, trim_start, trimmed, trimmed_end, trimmed_start, truncate, truncated,
    without_cr,
};

pub use crate::html::{to_html, to_html_with};
pub use crate::page::{page, page_with};

verus! {

// ---------------------------------------------------------------------------
// Anchors
// ---------------------------------------------------------------------------

/// Which of the three kinds of source range an [`Anchor`] identifies.
#[derive(Debug, Clone, Copy, PartialEq, Eq, Structural)]
pub enum AnchorKind {
    /// A top-level Markdown block, the same granularity as [`Block`].
    Block,
    /// A list item, at any nesting depth.
    Item,
    /// A table row, the header row as well.
    Row,
}

/// A top-level Markdown block: paragraph, heading, list, code block, table,
/// blockquote, raw HTML, thematic break, footnote definition and so on.
#[derive(Debug, Clone, PartialEq, Eq)]
pub struct Block {
    /// The first 16 hexadecimal digits of the SHA-256 of `source`. Blocks with
    /// the same source share it.
    pub hash: String,
    /// The block's Markdown without the white space round it.
    pub source: String,
    /// The block's first line, cut to 80 characters. The line that opens a code
    /// fence is passed over for the one that follows it.
    pub excerpt: String,
    /// The line of the document on which the block begins, counted from 1.
    pub line_start: usize,
    /// The line on which it ends, its trailing white space left out.
    pub line_end: usize,
}

/// What a comment can be attached to: a top-level block, a list item or a table
/// row.
#[derive(Debug, Clone, PartialEq, Eq)]
pub struct Anchor {
    pub kind: AnchorKind,
    /// The first 16 hexadecimal digits of the SHA-256 of `source`, whatever the
    /// kind.
    pub hash: String,
    /// The anchor's Markdown without the white space round it. An item has its
    /// marker and what is nested in it; a row has its source line.
    pub source: String,
    /// A preview in one line of at most 80 characters: for a block see
    /// [`Block::excerpt`]; for an item, its first line without the marker; for a
    /// row, the cells' Markdown with ` | ` between them.
    pub excerpt: String,
    pub line_start: usize,
    pub line_end: usize,
    /// The position, in the list of all anchors, of the nearest anchor round
    /// this one. Only a block has none.
    pub parent: Option<usize>,
}

/// The value of a [`Block`].
pub ghost struct BlockView {
    pub hash: Seq<char>,
    pub source: Seq<char>,
    pub excerpt: Seq<char>,
    pub line_start: nat,
    pub line_end: nat,
}

/// The value of an [`Anchor`].
pub ghost struct AnchorView {
    pub kind: AnchorKind,
    pub hash: Seq<char>,
    pub source: Seq<char>,
    pub excerpt: Seq<char>,
    pub line_start: nat,
    pub line_end: nat,
    pub parent: Option<nat>,
}

impl View for Block {
    type V = BlockView;

    open spec fn view(&self) -> BlockView {
        BlockView {
            hash: self.hash@,
            source: self.source@,
            excerpt: self.excerpt@,
            line_start: self.line_start as nat,
            line_end: self.line_end as nat,
        }
    }
}

impl View for Anchor {
    type V = AnchorView;

    open spec fn view(&self) -> AnchorView {
        AnchorView {
            kind: self.kind,
            hash: self.hash@,
            source: self.source@,
            excerpt: self.excerpt@,
            line_start: self.line_start as nat,
            line_end: self.line_end as nat,
            parent: match self.parent {
                Some(i) => Some(i as nat),
                None => None,
            },
        }
    }
}

/// The values of a list of anchors.
pub open spec fn anchor_views(anchors: Seq<Anchor>) -> Seq<AnchorView> {
    anchors.map_values(|a: Anchor| a@)
}

/// The values of a list of blocks.
pub open spec fn block_views(blocks: Seq<Block>) -> Seq<BlockView> {
    blocks.map_values(|b: Block| b@)
}

// ---------------------------------------------------------------------------
// Hashes
// ---------------------------------------------------------------------------

/// The SHA-256 digest of `data`.
pub uninterp spec fn sha256(data: Seq<u8>) -> Seq<u8>;

/// `sha2::Sha256::digest`. The contract claims that the digest follows from the
/// data and has 32 bytes.
#[verifier::external_body]
fn sha256_digest(data: &[u8]) -> (r: Vec<u8>)
    ensures
        r@ == sha256(data@),
        r@.len() == 32,
{
    Sha256::digest(data).to_vec()
}

/// The lower-case hexadecimal digit `d`.
pub open spec fn lower_hex_digit(d: int) -> char {
    if d < 10 {
        (0x30 + d) as u8 as char
    } else {
        (0x61 + d - 10) as u8 as char
    }
}

/// `bytes` in lower-case hexadecimal.
pub open spec fn lower_hex(bytes: Seq<u8>) -> Seq<char> {
    Seq::new(
        bytes.len() * 2,
        |i: int|
            lower_hex_digit(
                if i % 2 == 0 {
                    bytes[i / 2] as int / 16
                } else {
                    bytes[i / 2] as int % 16
                },
            ),
    )
}

/// What identifies an anchor with the source `source`.
pub open spec fn source_hash(source: Seq<char>) -> Seq<char> {
    lower_hex(sha256(encode_utf8(source)).take(8))
}

/// Whether `c` is a lower-case hexadecimal digit.
pub open spec fn is_lower_hex(c: char) -> bool {
    ('0' <= c && c <= '9') || ('a' <= c && c <= 'f')
}

/// Whether `s` has the form of an anchor's hash.
pub open spec fn valid_hash(s: Seq<char>) -> bool {
    s.len() == 16 && forall|i: int| 0 <= i < s.len() ==> is_lower_hex(#[trigger] s[i])
}

/// The lower-case hexadecimal digit `d`.
fn hex_char(d: u8) -> (r: char)
    requires
        d < 16,
    ensures
        r == lower_hex_digit(d as int),
        is_lower_hex(r),
{
    if d < 10 {
        (0x30 + d) as char
    } else {
        (0x61 + (d - 10)) as char
    }
}

/// What identifies an anchor with the source `source`.
pub fn hash_source(source: &str) -> (r: String)
    ensures
        r@ == source_hash(source@),
        valid_hash(r@),
{
    let digest = sha256_digest(source.as_bytes());
    let ghost first = digest@.take(8);
    let mut out = String::new();
    let mut i: usize = 0;
    while i < 8
        invariant
            digest@.len() == 32,
            first == digest@.take(8),
            i <= 8,
            out@.len() == 2 * i,
            forall|j: int| 0 <= j < 2 * i ==> #[trigger] out@[j] == lower_hex(first)[j],
            forall|j: int| 0 <= j < 2 * i ==> is_lower_hex(#[trigger] out@[j]),
        decreases 8 - i,
    {
        let b: u8 = digest[i];
        assert(first[i as int] == b);
        out.push(hex_char(b / 16));
        out.push(hex_char(b % 16));
        i = i + 1;
    }
    assert(out@ =~= lower_hex(first));
    out
}

// ---------------------------------------------------------------------------
// Line numbers
// ---------------------------------------------------------------------------

/// The line on which character `a` of `s` stands, counted from 1.
pub open spec fn line_of(s: Seq<char>, a: int) -> nat {
    newlines(s.take(a)) + 1
}

/// The line on which the range from `a` to `b` ends, its trailing white space
/// left out.
pub open spec fn last_line_of(s: Seq<char>, a: int, b: int) -> nat {
    line_of(s, a + trimmed_end(span(s, a, b)).len())
}

/// The first and the last line of the range from `a` to `b`.
fn line_range(s: &[char], a: usize, b: usize) -> (r: (usize, usize))
    requires
        a <= s@.len() < usize::MAX,
    ensures
        r.0 == line_of(s@, a as int),
        r.1 == last_line_of(s@, a as int, b as int),
{
    let first: usize = count_newlines(s, a) + 1;
    let text = trim_end(slice(s, a, b));
    let last: usize = count_newlines(s, a + text.len()) + 1;
    (first, last)
}

// ---------------------------------------------------------------------------
// Excerpts
// ---------------------------------------------------------------------------

/// Whether `line` opens a code fence.
pub open spec fn is_fence(line: Seq<char>) -> bool {
    "```"@.is_prefix_of(trimmed_start(line)) || "~~~"@.is_prefix_of(trimmed_start(line))
}

/// The preview of a block with the source `source`.
pub open spec fn block_excerpt(source: Seq<char>) -> Seq<char> {
    let first = line_at(source, 0);
    truncated(
        if is_fence(first) {
            line_at(source, 1)
        } else {
            first
        },
        80,
    )
}

/// Whether `line` opens a code fence.
fn is_code_fence_line(line: &[char]) -> (r: bool)
    ensures
        r == is_fence(line@),
{
    let text = trim_start(line);
    has_prefix_str(text, "```") || has_prefix_str(text, "~~~")
}

/// The preview of a block with the source `source`.
fn excerpt_of(source: &[char]) -> (r: String)
    ensures
        r@ == block_excerpt(source@),
{
    let first = first_line(source);
    let line = if is_code_fence_line(first) {
        second_line(source)
    } else {
        first
    };
    string_of(truncate(line, 80))
}

/// How many ASCII digits `s` begins with.
pub open spec fn leading_digits(s: Seq<char>) -> nat
    decreases s.len(),
{
    if s.len() > 0 && '0' <= s[0] && s[0] <= '9' {
        1 + leading_digits(s.drop_first())
    } else {
        0
    }
}

/// `s` without `prefix` in front, where it begins with it.
pub open spec fn without_prefix(s: Seq<char>, prefix: Seq<char>) -> Option<Seq<char>> {
    if prefix.is_prefix_of(s) {
        Some(s.skip(prefix.len() as int))
    } else {
        None
    }
}

/// `s` without the marker of a list item in front, where it begins with one: `- `,
/// `* `, `+ `, or digits with `. ` or `) ` behind them.
pub open spec fn without_bullet(s: Seq<char>) -> Option<Seq<char>> {
    let digits = leading_digits(s) as int;
    match (without_prefix(s, "- "@), without_prefix(s, "* "@), without_prefix(s, "+ "@)) {
        (Some(t), _, _) => Some(t),
        (None, Some(t), _) => Some(t),
        (None, None, Some(t)) => Some(t),
        (None, None, None) => if digits == 0 {
            None
        } else {
            match without_prefix(s.skip(digits), ". "@) {
                Some(t) => Some(t),
                None => without_prefix(s.skip(digits), ") "@),
            }
        },
    }
}

/// `s` without the checkbox of a task in front: `[ ] `, `[x] ` or `[X] `.
pub open spec fn without_checkbox(s: Seq<char>) -> Seq<char> {
    match (without_prefix(s, "[ ] "@), without_prefix(s, "[x] "@), without_prefix(s, "[X] "@)) {
        (Some(t), _, _) => t,
        (None, Some(t), _) => t,
        (None, None, Some(t)) => t,
        (None, None, None) => s,
    }
}

/// `line` without white space in front, and without the marker of a list item
/// there and the checkbox of a task behind it. What has no marker keeps what looks
/// like a checkbox.
pub open spec fn without_marker(line: Seq<char>) -> Seq<char> {
    match without_bullet(trimmed_start(line)) {
        Some(t) => without_checkbox(t),
        None => trimmed_start(line),
    }
}

/// The preview of an item with the source `source`.
pub open spec fn item_preview(source: Seq<char>) -> Seq<char> {
    truncated(without_marker(line_at(source, 0)), 80)
}

/// `s` without `prefix` in front, where it begins with it.
fn strip_prefix<'a>(s: &'a [char], prefix: &str) -> (r: Option<&'a [char]>)
    ensures
        match r {
            Some(t) => without_prefix(s@, prefix@) == Some(t@),
            None => without_prefix(s@, prefix@) is None,
        },
{
    let p = chars_of(prefix);
    if has_prefix(s, p.as_slice()) {
        let t = &s[p.len()..s.len()];
        assert(t@ =~= s@.skip(p@.len() as int));
        Some(t)
    } else {
        None
    }
}

/// How many ASCII digits `s` begins with.
pub(crate) fn count_digits(s: &[char]) -> (r: usize)
    ensures
        r == leading_digits(s@),
        r <= s@.len(),
{
    let n: usize = s.len();
    let mut i: usize = 0;
    assert(s@.skip(0) =~= s@);
    while i < n && '0' <= s[i] && s[i] <= '9'
        invariant
            n == s@.len(),
            i <= n,
            leading_digits(s@) == i + leading_digits(s@.skip(i as int)),
        decreases n - i,
    {
        assert(s@.skip(i as int).drop_first() =~= s@.skip(i + 1));
        i = i + 1;
    }
    i
}

/// `s` without the marker of a list item in front, where it begins with one.
fn strip_bullet(s: &[char]) -> (r: Option<&[char]>)
    ensures
        match r {
            Some(t) => without_bullet(s@) == Some(t@),
            None => without_bullet(s@) is None,
        },
{
    match (strip_prefix(s, "- "), strip_prefix(s, "* "), strip_prefix(s, "+ ")) {
        (Some(t), _, _) => Some(t),
        (None, Some(t), _) => Some(t),
        (None, None, Some(t)) => Some(t),
        (None, None, None) => {
            let digits: usize = count_digits(s);
            if digits == 0 {
                None
            } else {
                let rest = &s[digits..s.len()];
                assert(rest@ =~= s@.skip(digits as int));
                match strip_prefix(rest, ". ") {
                    Some(t) => Some(t),
                    None => strip_prefix(rest, ") "),
                }
            }
        },
    }
}

/// `line` without white space in front, and without the marker of a list item
/// there and the checkbox of a task behind it.
pub fn strip_item_marker(line: &[char]) -> (r: &[char])
    ensures
        r@ == without_marker(line@),
{
    let s = trim_start(line);
    match strip_bullet(s) {
        None => s,
        Some(t) => match (
            strip_prefix(t, "[ ] "),
            strip_prefix(t, "[x] "),
            strip_prefix(t, "[X] "),
        ) {
            (Some(u), _, _) => u,
            (None, Some(u), _) => u,
            (None, None, Some(u)) => u,
            (None, None, None) => t,
        },
    }
}

/// The preview of an item with the source `source`.
fn item_excerpt(source: &[char]) -> (r: String)
    ensures
        r@ == item_preview(source@),
{
    string_of(truncate(strip_item_marker(first_line(source)), 80))
}

// ---------------------------------------------------------------------------
// Elements
// ---------------------------------------------------------------------------

/// The position of the event that closes the element which the first event of
/// the run opens.
pub open spec fn matching_end(events: Seq<EventView>) -> int {
    close_index(deltas(events), 1, 1)
}

/// What stands inside the element which the first event of the run opens.
pub open spec fn inside(events: Seq<EventView>) -> Seq<EventView> {
    events.subrange(1, matching_end(events))
}

/// What follows the element which the first event of the run opens.
pub open spec fn behind(events: Seq<EventView>) -> Seq<EventView> {
    let e = matching_end(events);
    if e < events.len() {
        events.skip(e + 1)
    } else {
        seq![]
    }
}

/// Where in the source the element ends which the first event of the run opens.
pub open spec fn element_stop(events: Seq<EventView>) -> nat {
    let e = matching_end(events);
    if e < events.len() {
        events[e].end
    } else {
        events.last().end
    }
}

/// The source of the element which the first event of the run opens.
pub open spec fn element_source(s: Seq<char>, events: Seq<EventView>) -> Seq<char> {
    trimmed(span(s, events[0].start as int, element_stop(events) as int))
}

/// Whether the positions of all events lie in a text of `n` characters.
pub open spec fn in_text(events: Seq<MdEvent>, n: int) -> bool {
    forall|i: int|
        0 <= i < events.len() ==> (#[trigger] events[i]).start <= n && events[i].end <= n
}

/// Whether `event` opens an element, closes one, or does neither.
#[derive(Clone, Copy, PartialEq, Eq, Structural)]
pub(crate) enum Step {
    Open,
    Close,
    Stay,
}

/// What an event does to the nesting.
pub(crate) fn step_of(event: &MdEvent) -> (r: Step)
    ensures
        (r is Open) == (delta(event@) == 1),
        (r is Close) == (delta(event@) == -1),
        (r is Stay) == (delta(event@) == 0),
{
    match &event.shape {
        Shape::Start(_) => Step::Open,
        Shape::End(_) => Step::Close,
        _ => Step::Stay,
    }
}

/// The position of the event that closes the element which the first event of
/// the run opens, or the length of the run.
pub(crate) fn matching_end_index(events: &[MdEvent]) -> (r: usize)
    requires
        events@.len() > 0,
    ensures
        r == matching_end(views(events@)),
        1 <= r <= events@.len(),
{
    let n: usize = events.len();
    let ghost d = deltas(views(events@));
    let mut depth: usize = 1;
    let mut j: usize = 1;
    while j < n
        invariant
            n == events@.len(),
            d == deltas(views(events@)),
            d.len() == n,
            1 <= j <= n,
            1 <= depth <= j,
            close_index(d, j as int, depth as int) == matching_end(views(events@)),
        decreases n - j,
    {
        assert(d[j as int] == delta(events@[j as int]@));
        match step_of(&events[j]) {
            Step::Open => {
                depth = depth + 1;
            },
            Step::Close => {
                if depth == 1 {
                    return j;
                }
                depth = depth - 1;
            },
            Step::Stay => {},
        }
        j = j + 1;
    }
    n
}

/// A part of a run has a part of its values.
pub(crate) proof fn lemma_views_subrange(events: Seq<MdEvent>, a: int, b: int)
    requires
        0 <= a <= b <= events.len(),
    ensures
        views(events.subrange(a, b)) == views(events).subrange(a, b),
{
    assert(views(events.subrange(a, b)) =~= views(events).subrange(a, b));
}

/// What stands inside the element which the first event of the run opens, and
/// what follows it.
pub(crate) fn split_element<'e>(
    events: &'e [MdEvent],
    Ghost(n): Ghost<int>,
) -> (r: (&'e [MdEvent], &'e [MdEvent]))
    requires
        events@.len() > 0,
        in_text(events@, n),
    ensures
        views(r.0@) == inside(views(events@)),
        views(r.1@) == behind(views(events@)),
        r.0@.len() + r.1@.len() < events@.len(),
        in_text(r.0@, n),
        in_text(r.1@, n),
{
    let total: usize = events.len();
    let end: usize = matching_end_index(events);
    let inner = &events[1..end];
    let next: usize = if end < total {
        end + 1
    } else {
        total
    };
    let rest = &events[next..total];
    proof {
        lemma_views_subrange(events@, 1, end as int);
        lemma_views_subrange(events@, next as int, total as int);
        assert(views(rest@) =~= behind(views(events@)));
    }
    (inner, rest)
}

/// Where in the source the element ends which the first event of the run opens.
fn element_end(events: &[MdEvent], Ghost(n): Ghost<int>) -> (r: usize)
    requires
        events@.len() > 0,
        in_text(events@, n),
    ensures
        r == element_stop(views(events@)),
        r <= n,
{
    let end: usize = matching_end_index(events);
    if end < events.len() {
        assert(views(events@)[end as int] == events@[end as int]@);
        events[end].end
    } else {
        assert(views(events@).last() == events@.last()@);
        events[events.len() - 1].end
    }
}

// ---------------------------------------------------------------------------
// Rows
// ---------------------------------------------------------------------------

/// The Markdown of each cell of a row that holds `events`.
pub open spec fn cell_sources(s: Seq<char>, events: Seq<EventView>) -> Seq<Seq<char>>
    decreases events.len(),
    via cell_sources_decreases
{
    if events.len() == 0 {
        seq![]
    } else if events[0].shape == ShapeView::Start(TagView::TableCell) {
        seq![element_source(s, events)] + cell_sources(s, behind(events))
    } else {
        cell_sources(s, events.drop_first())
    }
}

#[via_fn]
proof fn cell_sources_decreases(s: Seq<char>, events: Seq<EventView>) {
    if events.len() > 0 {
        lemma_close_index(deltas(events), 1, 1);
    }
}

/// The preview of a row that holds `events`.
pub open spec fn row_preview(s: Seq<char>, events: Seq<EventView>) -> Seq<char> {
    truncated(joined(cell_sources(s, events), " | "@), 80)
}

/// Whether an event begins a table cell.
fn is_cell(event: &MdEvent) -> (r: bool)
    ensures
        r == (event@.shape == ShapeView::Start(TagView::TableCell)),
{
    match &event.shape {
        Shape::Start(TagShape::TableCell) => true,
        _ => false,
    }
}

/// The preview of a row that holds `events`.
fn row_excerpt(s: &[char], events: &[MdEvent]) -> (r: String)
    requires
        in_text(events@, s@.len() as int),
    ensures
        r@ == row_preview(s@, views(events@)),
{
    let ghost n = s@.len() as int;
    let ghost all = cell_sources(s@, views(events@));
    let ghost mut done: Seq<Seq<char>> = seq![];
    let mut out = String::new();
    let mut first: bool = true;
    let mut rest = events;
    assert(done + all =~= all);
    while rest.len() > 0
        invariant
            n == s@.len(),
            in_text(rest@, n),
            all == done + cell_sources(s@, views(rest@)),
            out@ == joined(done, " | "@),
            first == (done.len() == 0),
        decreases rest@.len(),
    {
        assert(views(rest@)[0] == rest@[0]@);
        if is_cell(&rest[0]) {
            let stop: usize = element_end(rest, Ghost(n));
            let cell = trim(slice(s, rest[0].start, stop));
            if !first {
                out.append(" | ");
            }
            let text = string_of(cell);
            out.append(text.as_str());
            first = false;
            let (inner, next) = split_element(rest, Ghost(n));
            proof {
                lemma_joined_push(done, " | "@, cell@);
                assert(out@ =~= joined(done.push(cell@), " | "@));
                assert(done.push(cell@) + cell_sources(s@, views(next@)) =~= done + (seq![cell@]
                    + cell_sources(s@, views(next@))));
                done = done.push(cell@);
            }
            rest = next;
        } else {
            let next = &rest[1..rest.len()];
            assert(views(next@) =~= views(rest@).drop_first());
            rest = next;
        }
    }
    proof {
        assert(cell_sources(s@, views(rest@)) =~= seq![]);
        assert(all =~= done);
    }
    let text = chars_of(out.as_str());
    string_of(truncate(text.as_slice(), 80))
}

// ---------------------------------------------------------------------------
// Walking
// ---------------------------------------------------------------------------

/// Anchors nest at most this deep. What is nested deeper is no anchor.
pub const MAX_ANCHOR_DEPTH: u32 = 64;

/// The kind of anchor that an event begins.
pub open spec fn anchor_kind(e: EventView) -> Option<AnchorKind> {
    match e.shape {
        ShapeView::Start(TagView::Item) => Some(AnchorKind::Item),
        ShapeView::Start(TagView::TableHead) => Some(AnchorKind::Row),
        ShapeView::Start(TagView::TableRow) => Some(AnchorKind::Row),
        _ => None,
    }
}

/// The preview of the item or row which the first event of the run opens.
pub open spec fn nested_excerpt(s: Seq<char>, events: Seq<EventView>, kind: AnchorKind) -> Seq<
    char,
> {
    match kind {
        AnchorKind::Row => row_preview(s, inside(events)),
        _ => item_preview(element_source(s, events)),
    }
}

/// The anchor of the item or row which the first event of the run opens.
pub open spec fn nested_anchor(
    s: Seq<char>,
    events: Seq<EventView>,
    kind: AnchorKind,
    parent: Option<nat>,
) -> AnchorView {
    AnchorView {
        kind,
        hash: source_hash(element_source(s, events)),
        source: element_source(s, events),
        excerpt: nested_excerpt(s, events, kind),
        line_start: line_of(s, events[0].start as int),
        line_end: last_line_of(s, events[0].start as int, element_stop(events) as int),
        parent,
    }
}

/// The items and rows in `events`, in the order of the document, each followed
/// by those in it. `parent` is the position of the anchor round them, and `base`
/// that of the first of them, in the list of all anchors.
pub open spec fn nested_anchors(
    s: Seq<char>,
    events: Seq<EventView>,
    parent: nat,
    depth: nat,
    base: nat,
) -> Seq<AnchorView>
    decreases events.len(),
    via nested_anchors_decreases
{
    if depth >= MAX_ANCHOR_DEPTH || events.len() == 0 {
        seq![]
    } else {
        match anchor_kind(events[0]) {
            None => nested_anchors(s, events.drop_first(), parent, depth, base),
            Some(kind) => {
                let inner = nested_anchors(s, inside(events), base, depth + 1, base + 1);
                seq![nested_anchor(s, events, kind, Some(parent))] + inner + nested_anchors(
                    s,
                    behind(events),
                    parent,
                    depth,
                    base + 1 + inner.len(),
                )
            },
        }
    }
}

#[via_fn]
proof fn nested_anchors_decreases(
    s: Seq<char>,
    events: Seq<EventView>,
    parent: nat,
    depth: nat,
    base: nat,
) {
    if events.len() > 0 {
        lemma_close_index(deltas(events), 1, 1);
    }
}

/// The kind of anchor that an event begins.
pub(crate) fn anchor_kind_of(event: &MdEvent) -> (r: Option<AnchorKind>)
    ensures
        r == anchor_kind(event@),
{
    match &event.shape {
        Shape::Start(TagShape::Item) => Some(AnchorKind::Item),
        Shape::Start(TagShape::TableHead) => Some(AnchorKind::Row),
        Shape::Start(TagShape::TableRow) => Some(AnchorKind::Row),
        _ => None,
    }
}

/// The anchor of the item or row which the first event of the run opens.
pub(crate) fn scan_anchor(
    s: &[char],
    events: &[MdEvent],
    kind: AnchorKind,
    parent: Option<usize>,
) -> (r: Anchor)
    requires
        events@.len() > 0,
        in_text(events@, s@.len() as int),
        s@.len() < usize::MAX,
    ensures
        r@ == nested_anchor(
            s@,
            views(events@),
            kind,
            match parent {
                Some(i) => Some(i as nat),
                None => None,
            },
        ),
        valid_hash(r.hash@),
{
    let ghost n = s@.len() as int;
    assert(views(events@)[0] == events@[0]@);
    let start: usize = events[0].start;
    let stop: usize = element_end(events, Ghost(n));
    let (line_start, line_end) = line_range(s, start, stop);
    let text = trim(slice(s, start, stop));
    let source = string_of(text);
    let hash = hash_source(source.as_str());
    let excerpt = match kind {
        AnchorKind::Row => {
            let (inner, rest) = split_element(events, Ghost(n));
            row_excerpt(s, inner)
        },
        _ => item_excerpt(text),
    };
    Anchor { kind, hash, source, excerpt, line_start, line_end, parent }
}

/// Whether the hashes of all anchors have the form of one.
pub open spec fn hashes_are_valid(anchors: Seq<Anchor>) -> bool {
    forall|i: int| 0 <= i < anchors.len() ==> valid_hash((#[trigger] anchors[i]).hash@)
}

/// Appends the items and rows in `events` to `anchors`, with the position of
/// the anchor round them as their parent.
fn walk_anchors(
    s: &[char],
    events: &[MdEvent],
    parent: usize,
    depth: u32,
    anchors: &mut Vec<Anchor>,
)
    requires
        in_text(events@, s@.len() as int),
        s@.len() < usize::MAX,
        depth <= MAX_ANCHOR_DEPTH,
        hashes_are_valid(old(anchors)@),
    ensures
        anchor_views(final(anchors)@) == anchor_views(old(anchors)@) + nested_anchors(
            s@,
            views(events@),
            parent as nat,
            depth as nat,
            old(anchors)@.len(),
        ),
        hashes_are_valid(final(anchors)@),
    decreases events@.len(),
{
    let ghost n = s@.len() as int;
    let ghost before = anchor_views(anchors@);
    let ghost base = anchors@.len();
    let ghost all = nested_anchors(s@, views(events@), parent as nat, depth as nat, base);
    if depth >= MAX_ANCHOR_DEPTH {
        assert(before + all =~= before);
        return;
    }
    let ghost mut done: Seq<AnchorView> = seq![];
    let mut rest = events;
    assert(before + done =~= before);
    assert(done + all =~= all);
    while rest.len() > 0
        invariant
            n == s@.len(),
            n < usize::MAX,
            depth < MAX_ANCHOR_DEPTH,
            in_text(rest@, n),
            rest@.len() <= events@.len(),
            before.len() == base,
            hashes_are_valid(anchors@),
            anchor_views(anchors@) == before + done,
            all == done + nested_anchors(
                s@,
                views(rest@),
                parent as nat,
                depth as nat,
                base + done.len(),
            ),
        decreases rest@.len(),
    {
        assert(views(rest@)[0] == rest@[0]@);
        match anchor_kind_of(&rest[0]) {
            None => {
                let next = &rest[1..rest.len()];
                assert(views(next@) =~= views(rest@).drop_first());
                rest = next;
            },
            Some(kind) => {
                let anchor = scan_anchor(s, rest, kind, Some(parent));
                let (inner, next) = split_element(rest, Ghost(n));
                let at: usize = anchors.len();
                assert(anchor_views(anchors@).len() == anchors@.len());
                assert(at == base + done.len());
                let ghost anchor_view = anchor@;
                let ghost listed = anchor_views(anchors@);
                anchors.push(anchor);
                assert(anchor_views(anchors@) =~= listed + seq![anchor_view]);
                walk_anchors(s, inner, at, depth + 1, anchors);
                proof {
                    let sub = nested_anchors(
                        s@,
                        views(inner@),
                        at as nat,
                        (depth + 1) as nat,
                        (at + 1) as nat,
                    );
                    let after = done + seq![anchor_view] + sub;
                    assert(anchor_views(anchors@) =~= before + after);
                    let tail = nested_anchors(
                        s@,
                        views(next@),
                        parent as nat,
                        depth as nat,
                        base + after.len(),
                    );
                    assert(done + (seq![anchor_view] + sub + tail) =~= after + tail);
                    done = after;
                }
                rest = next;
            },
        }
    }
    proof {
        assert(all =~= done);
    }
}

// ---------------------------------------------------------------------------
// Blocks
// ---------------------------------------------------------------------------

/// The top-level blocks of a run of events: each element that stands in no
/// other, and each event that stands in none.
pub open spec fn top_blocks(events: Seq<EventView>) -> Seq<Seq<EventView>>
    decreases events.len(),
    via top_blocks_decreases
{
    if events.len() == 0 {
        seq![]
    } else if delta(events[0]) == 0 {
        seq![events.take(1)] + top_blocks(events.drop_first())
    } else if delta(events[0]) == 1 && matching_end(events) < events.len() {
        seq![events.take(matching_end(events) + 1)] + top_blocks(behind(events))
    } else {
        top_blocks(events.drop_first())
    }
}

#[via_fn]
proof fn top_blocks_decreases(events: Seq<EventView>) {
    if events.len() > 0 {
        lemma_close_index(deltas(events), 1, 1);
    }
}

/// The source of a block.
pub open spec fn block_source(s: Seq<char>, block: Seq<EventView>) -> Seq<char> {
    trimmed(span(s, block[0].start as int, block.last().end as int))
}

/// The anchor of a block.
pub open spec fn block_anchor(s: Seq<char>, block: Seq<EventView>) -> AnchorView {
    AnchorView {
        kind: AnchorKind::Block,
        hash: source_hash(block_source(s, block)),
        source: block_source(s, block),
        excerpt: block_excerpt(block_source(s, block)),
        line_start: line_of(s, block[0].start as int),
        line_end: last_line_of(s, block[0].start as int, block.last().end as int),
        parent: None,
    }
}

/// The anchors of a list of blocks: each block, followed by the items and rows
/// in it.
pub open spec fn anchors_of(s: Seq<char>, blocks: Seq<Seq<EventView>>) -> Seq<AnchorView>
    decreases blocks.len(),
{
    if blocks.len() == 0 {
        seq![]
    } else {
        let before = anchors_of(s, blocks.drop_last());
        before.push(block_anchor(s, blocks.last())) + nested_anchors(
            s,
            blocks.last(),
            before.len(),
            0,
            before.len() + 1,
        )
    }
}

/// The blocks of a document.
pub open spec fn document_blocks(s: Seq<char>) -> Seq<Seq<EventView>> {
    top_blocks(document_events(s))
}

/// The anchors of a document.
pub open spec fn document_anchors(s: Seq<char>) -> Seq<AnchorView> {
    anchors_of(s, document_blocks(s))
}

/// The values of a list of runs.
pub open spec fn run_views(runs: Seq<&[MdEvent]>) -> Seq<Seq<EventView>> {
    runs.map_values(|run: &[MdEvent]| views(run@))
}

/// The top-level blocks of a run of events.
pub(crate) fn parsed_blocks<'e>(
    events: &'e [MdEvent],
    Ghost(n): Ghost<int>,
) -> (r: Vec<&'e [MdEvent]>)
    requires
        in_text(events@, n),
    ensures
        run_views(r@) == top_blocks(views(events@)),
        forall|i: int| 0 <= i < r@.len() ==> (#[trigger] r@[i])@.len() > 0,
        forall|i: int| 0 <= i < r@.len() ==> in_text((#[trigger] r@[i])@, n),
{
    let mut out: Vec<&'e [MdEvent]> = Vec::new();
    let mut rest = events;
    let ghost all = top_blocks(views(events@));
    assert(run_views(out@) =~= seq![]);
    assert(run_views(out@) + all =~= all);
    while rest.len() > 0
        invariant
            all == run_views(out@) + top_blocks(views(rest@)),
            forall|i: int| 0 <= i < out@.len() ==> (#[trigger] out@[i])@.len() > 0,
            in_text(rest@, n),
            forall|i: int| 0 <= i < out@.len() ==> in_text((#[trigger] out@[i])@, n),
        decreases rest@.len(),
    {
        let total: usize = rest.len();
        let ghost before = run_views(out@);
        assert(views(rest@)[0] == rest@[0]@);
        let stop: usize = match step_of(&rest[0]) {
            Step::Stay => 1,
            Step::Close => 0,
            Step::Open => {
                let end: usize = matching_end_index(rest);
                if end < total {
                    end + 1
                } else {
                    0
                }
            },
        };
        if stop > 0 {
            let block = &rest[0..stop];
            let next = &rest[stop..total];
            out.push(block);
            proof {
                lemma_views_subrange(rest@, 0, stop as int);
                lemma_views_subrange(rest@, stop as int, total as int);
                assert(views(block@) =~= views(rest@).take(stop as int));
                assert(run_views(out@) =~= before + seq![views(block@)]);
                if delta(rest@[0]@) == 0 {
                    assert(views(next@) =~= views(rest@).drop_first());
                } else {
                    assert(views(next@) =~= behind(views(rest@)));
                }
                assert(run_views(out@) + top_blocks(views(next@)) =~= before + (seq![
                    views(block@),
                ] + top_blocks(views(next@))));
            }
            rest = next;
        } else {
            let next = &rest[1..total];
            assert(views(next@) =~= views(rest@).drop_first());
            rest = next;
        }
    }
    assert(run_views(out@) =~= all);
    out
}

/// The anchor of a block.
pub(crate) fn scan_block(s: &[char], block: &[MdEvent]) -> (r: Anchor)
    requires
        block@.len() > 0,
        in_text(block@, s@.len() as int),
        s@.len() < usize::MAX,
    ensures
        r@ == block_anchor(s@, views(block@)),
        valid_hash(r.hash@),
{
    assert(views(block@)[0] == block@[0]@);
    assert(views(block@).last() == block@.last()@);
    let start: usize = block[0].start;
    let stop: usize = block[block.len() - 1].end;
    let (line_start, line_end) = line_range(s, start, stop);
    let text = trim(slice(s, start, stop));
    let source = string_of(text);
    let hash = hash_source(source.as_str());
    let excerpt = excerpt_of(text);
    Anchor { kind: AnchorKind::Block, hash, source, excerpt, line_start, line_end, parent: None }
}

/// The anchors of the document with the source `s` and the events `events`.
pub fn anchors_in(s: &[char], events: &[MdEvent]) -> (r: Vec<Anchor>)
    requires
        in_text(events@, s@.len() as int),
        s@.len() < usize::MAX,
    ensures
        anchor_views(r@) == anchors_of(s@, top_blocks(views(events@))),
        hashes_are_valid(r@),
{
    let blocks = parsed_blocks(events, Ghost(s@.len() as int));
    let ghost runs = run_views(blocks@);
    let mut out: Vec<Anchor> = Vec::new();
    let mut i: usize = 0;
    assert(anchor_views(out@) =~= anchors_of(s@, runs.take(0)));
    while i < blocks.len()
        invariant
            s@.len() < usize::MAX,
            runs == run_views(blocks@),
            forall|i: int| 0 <= i < blocks@.len() ==> (#[trigger] blocks@[i])@.len() > 0,
            forall|i: int|
                0 <= i < blocks@.len() ==> in_text((#[trigger] blocks@[i])@, s@.len() as int),
            i <= blocks@.len(),
            hashes_are_valid(out@),
            anchor_views(out@) == anchors_of(s@, runs.take(i as int)),
        decreases blocks@.len() - i,
    {
        let block = blocks[i];
        let ghost before = anchor_views(out@);
        let at: usize = out.len();
        let anchor = scan_block(s, block);
        let ghost anchor_view = anchor@;
        out.push(anchor);
        assert(anchor_views(out@) =~= before.push(anchor_view));
        walk_anchors(s, block, at, 0, &mut out);
        proof {
            assert(runs.take(i + 1).drop_last() =~= runs.take(i as int));
            assert(runs.take(i + 1).last() == views(block@));
            assert(before.len() == at);
        }
        i = i + 1;
    }
    assert(runs.take(i as int) =~= runs);
    out
}

/// Every anchor of `markdown`, in the order of the document: each top-level
/// block, followed by its list items and table rows at any depth, before the
/// next block.
///
/// The blocks hold all events of the parse. Going from parent to parent leads over
/// items alone to the last block before an anchor.
pub fn anchors(markdown: &str) -> (r: Vec<Anchor>)
    ensures
        anchor_views(r@) == document_anchors(markdown@),
        hashes_are_valid(r@),
        previews_are_unbroken(anchor_views(r@)),
        rows_have_no_children(anchor_views(r@)),
        nest_in_last_block(anchor_views(r@)),
        document_blocks(markdown@).flatten() == document_events(markdown@),
{
    let s = chars_of(markdown);
    let events = read_events(s.as_slice());
    proof {
        law_previews_are_unbroken(markdown@);
        law_rows_have_no_children(markdown@);
        law_anchors_nest_in_the_last_block(markdown@);
        law_no_event_is_lost(markdown@);
    }
    anchors_in(s.as_slice(), events.as_slice())
}

/// The block that an anchor stands for.
pub open spec fn block_of(a: AnchorView) -> BlockView {
    BlockView {
        hash: a.hash,
        source: a.source,
        excerpt: a.excerpt,
        line_start: a.line_start,
        line_end: a.line_end,
    }
}

/// The blocks among `anchors`.
pub open spec fn blocks_of(anchors: Seq<AnchorView>) -> Seq<BlockView>
    decreases anchors.len(),
{
    if anchors.len() == 0 {
        seq![]
    } else if anchors.last().kind == AnchorKind::Block {
        blocks_of(anchors.drop_last()).push(block_of(anchors.last()))
    } else {
        blocks_of(anchors.drop_last())
    }
}

/// The top-level blocks of `markdown`, in the order of the document: its
/// anchors of that kind.
pub fn blocks(markdown: &str) -> (r: Vec<Block>)
    ensures
        block_views(r@) == blocks_of(document_anchors(markdown@)),
        forall|i: int| 0 <= i < r@.len() ==> valid_hash((#[trigger] r@[i]).hash@),
{
    let list = anchors(markdown);
    let ghost all = anchor_views(list@);
    let mut out: Vec<Block> = Vec::new();
    let mut i: usize = 0;
    assert(block_views(out@) =~= blocks_of(all.take(0)));
    while i < list.len()
        invariant
            all == anchor_views(list@),
            hashes_are_valid(list@),
            forall|i: int| 0 <= i < out@.len() ==> valid_hash((#[trigger] out@[i]).hash@),
            i <= list@.len(),
            block_views(out@) == blocks_of(all.take(i as int)),
        decreases list@.len() - i,
    {
        let a = &list[i];
        let ghost before = block_views(out@);
        assert(all.take(i + 1).drop_last() =~= all.take(i as int));
        assert(all.take(i + 1).last() == a@);
        if a.kind == AnchorKind::Block {
            let block = Block {
                hash: a.hash.clone(),
                source: a.source.clone(),
                excerpt: a.excerpt.clone(),
                line_start: a.line_start,
                line_end: a.line_end,
            };
            let ghost view = block@;
            out.push(block);
            assert(block_views(out@) =~= before.push(view));
        }
        i = i + 1;
    }
    assert(all.take(i as int) =~= all);
    out
}

// ---------------------------------------------------------------------------
// Laws
// ---------------------------------------------------------------------------

/// Whether each anchor of a list stands behind its parent, and a block is what
/// has none.
pub open spec fn parents_come_first(anchors: Seq<AnchorView>) -> bool {
    forall|i: int|
        0 <= i < anchors.len() ==> match (#[trigger] anchors[i]).parent {
            None => anchors[i].kind == AnchorKind::Block,
            Some(p) => anchors[i].kind != AnchorKind::Block && p < i,
        }
}

/// Items and rows belong to an anchor before them.
proof fn lemma_nested_parents(
    s: Seq<char>,
    events: Seq<EventView>,
    parent: nat,
    depth: nat,
    base: nat,
)
    requires
        parent < base,
    ensures
        forall|i: int|
            0 <= i < nested_anchors(s, events, parent, depth, base).len() ==> {
                let a = #[trigger] nested_anchors(s, events, parent, depth, base)[i];
                a.kind != AnchorKind::Block && a.parent is Some && a.parent->Some_0 < base + i
            },
    decreases events.len(),
{
    let all = nested_anchors(s, events, parent, depth, base);
    if depth < MAX_ANCHOR_DEPTH && events.len() > 0 {
        lemma_close_index(deltas(events), 1, 1);
        match anchor_kind(events[0]) {
            None => lemma_nested_parents(s, events.drop_first(), parent, depth, base),
            Some(kind) => {
                let first = seq![nested_anchor(s, events, kind, Some(parent))];
                let inner = nested_anchors(s, inside(events), base, depth + 1, base + 1);
                let next = base + 1 + inner.len();
                let tail = nested_anchors(s, behind(events), parent, depth, next);
                lemma_nested_parents(s, inside(events), base, depth + 1, base + 1);
                lemma_nested_parents(s, behind(events), parent, depth, next);
                assert(all == first + inner + tail);
                assert forall|i: int| 0 <= i < all.len() implies {
                    let a = #[trigger] all[i];
                    a.kind != AnchorKind::Block && a.parent is Some && a.parent->Some_0 < base + i
                } by {
                    if i == 0 {
                        assert(all[i] == first[0]);
                    } else if i < 1 + inner.len() {
                        assert(all[i] == inner[i - 1]);
                    } else {
                        assert(all[i] == tail[i - 1 - inner.len()]);
                    }
                }
            },
        }
    }
}

/// The anchors of a list of blocks stand behind their parents.
proof fn lemma_parents(s: Seq<char>, blocks: Seq<Seq<EventView>>)
    ensures
        parents_come_first(anchors_of(s, blocks)),
    decreases blocks.len(),
{
    if blocks.len() > 0 {
        lemma_parents(s, blocks.drop_last());
        let before = anchors_of(s, blocks.drop_last());
        let block = block_anchor(s, blocks.last());
        let tail = nested_anchors(s, blocks.last(), before.len(), 0, before.len() + 1);
        lemma_nested_parents(s, blocks.last(), before.len(), 0, before.len() + 1);
        let all = anchors_of(s, blocks);
        assert(all == before.push(block) + tail);
        assert forall|i: int| 0 <= i < all.len() implies match (#[trigger] all[i]).parent {
            None => all[i].kind == AnchorKind::Block,
            Some(p) => all[i].kind != AnchorKind::Block && p < i,
        } by {
            if i < before.len() {
                assert(all[i] == before[i]);
            } else if i == before.len() {
                assert(all[i] == block);
            } else {
                assert(all[i] == tail[i - before.len() - 1]);
            }
        }
    }
}

/// In the list of a document's anchors each item and each row stands behind its
/// parent, and only blocks have none: going from parent to parent ends at a
/// block.
pub proof fn law_parents_come_first(markdown: Seq<char>)
    ensures
        parents_come_first(document_anchors(markdown)),
{
    lemma_parents(markdown, document_blocks(markdown));
}

/// The block that holds anchor `i`, found by going from parent to parent.
pub open spec fn enclosing_block(anchors: Seq<AnchorView>, i: int) -> int
    decreases i,
{
    match anchors[i].parent {
        Some(p) if 0 <= i < anchors.len() && p < i => enclosing_block(anchors, p as int),
        _ => i,
    }
}

/// How many anchors there are from anchor `i` up to the block that holds it, which
/// is not counted.
pub open spec fn levels(anchors: Seq<AnchorView>, i: int) -> nat
    decreases i,
{
    match anchors[i].parent {
        Some(p) if 0 <= i < anchors.len() && p < i => 1 + levels(anchors, p as int),
        _ => 0,
    }
}

/// The last block among the anchors up to anchor `i`.
pub open spec fn last_block(anchors: Seq<AnchorView>, i: int) -> int
    decreases i,
{
    if i <= 0 || anchors[i].kind == AnchorKind::Block {
        i
    } else {
        last_block(anchors, i - 1)
    }
}

/// The last block stands no later than anchor `i`, and no block stands between.
pub(crate) proof fn lemma_last_block(anchors: Seq<AnchorView>, b: int, i: int)
    requires
        0 <= b <= i < anchors.len(),
        anchors[b].kind == AnchorKind::Block,
        forall|k: int| b < k <= i ==> (#[trigger] anchors[k]).kind != AnchorKind::Block,
    ensures
        last_block(anchors, i) == b,
    decreases i - b,
{
    if b < i {
        lemma_last_block(anchors, b, i - 1);
    }
}

/// Items and rows nest under their parent, and not too deep.
proof fn lemma_nested_levels(
    all: Seq<AnchorView>,
    s: Seq<char>,
    events: Seq<EventView>,
    parent: nat,
    depth: nat,
    base: nat,
)
    requires
        parent < base,
        base + nested_anchors(s, events, parent, depth, base).len() <= all.len(),
        forall|i: int|
            0 <= i < nested_anchors(s, events, parent, depth, base).len() ==> all[base + i]
                == #[trigger] nested_anchors(s, events, parent, depth, base)[i],
        levels(all, parent as int) == depth,
    ensures
        forall|i: int|
            base <= i < base + nested_anchors(s, events, parent, depth, base).len() ==> {
                &&& (#[trigger] all[i]).kind != AnchorKind::Block
                &&& all[i].parent matches Some(p) && parent <= p < i
                &&& levels(all, i) <= MAX_ANCHOR_DEPTH
            },
    decreases events.len(),
{
    let mine = nested_anchors(s, events, parent, depth, base);
    if depth < MAX_ANCHOR_DEPTH && events.len() > 0 {
        lemma_close_index(deltas(events), 1, 1);
        match anchor_kind(events[0]) {
            None => {
                assert(mine == nested_anchors(s, events.drop_first(), parent, depth, base));
                lemma_nested_levels(all, s, events.drop_first(), parent, depth, base);
            },
            Some(kind) => {
                let first = seq![nested_anchor(s, events, kind, Some(parent))];
                let inner = nested_anchors(s, inside(events), base, depth + 1, base + 1);
                let next = base + 1 + inner.len();
                let tail = nested_anchors(s, behind(events), parent, depth, next);
                assert(mine == first + inner + tail);
                assert(all[base as int] == mine[0]);
                assert(mine[0] == first[0]);
                assert(levels(all, base as int) == depth + 1);
                assert forall|i: int| 0 <= i < inner.len() implies all[base + 1 + i]
                    == #[trigger] inner[i] by {
                    assert(mine[1 + i] == inner[i]);
                    assert(all[base + (1 + i)] == mine[1 + i]);
                }
                assert forall|i: int| 0 <= i < tail.len() implies all[next + i]
                    == #[trigger] tail[i] by {
                    let k = 1 + inner.len() + i;
                    assert(mine[k] == tail[i]);
                    assert(all[base + k] == mine[k]);
                }
                lemma_nested_levels(all, s, inside(events), base, depth + 1, base + 1);
                lemma_nested_levels(all, s, behind(events), parent, depth, next);
            },
        }
    }
}

/// Whether anchor `i` belongs to the last block before it, and going there from
/// parent to parent leads over not too many anchors.
pub open spec fn nests_in_last_block(anchors: Seq<AnchorView>, i: int) -> bool {
    &&& enclosing_block(anchors, i) == last_block(anchors, i)
    &&& anchors[last_block(anchors, i)].kind == AnchorKind::Block
    &&& levels(anchors, i) <= MAX_ANCHOR_DEPTH
}

/// Whether each of `anchors` belongs to the last block before it.
pub open spec fn nest_in_last_block(anchors: Seq<AnchorView>) -> bool {
    forall|i: int| 0 <= i < anchors.len() ==> #[trigger] nests_in_last_block(anchors, i)
}

/// What goes for an anchor in the front part of a list goes for it in the list.
proof fn lemma_front_nests(front: Seq<AnchorView>, all: Seq<AnchorView>, i: int)
    requires
        0 <= i < front.len() <= all.len(),
        front == all.take(front.len() as int),
    ensures
        enclosing_block(all, i) == enclosing_block(front, i),
        last_block(all, i) == last_block(front, i),
        levels(all, i) == levels(front, i),
    decreases i,
{
    assert(all[i] == front[i]);
    if let Some(p) = front[i].parent {
        if p < i {
            lemma_front_nests(front, all, p as int);
        }
    }
    if i > 0 {
        lemma_front_nests(front, all, i - 1);
    }
}

/// Going from parent to parent ends at the block that all of them stand behind.
proof fn lemma_enclosing(anchors: Seq<AnchorView>, b: int, i: int)
    requires
        0 <= b <= i < anchors.len(),
        anchors[b].parent is None,
        forall|k: int|
            b < k <= i ==> ((#[trigger] anchors[k]).parent matches Some(p) && b <= p < k),
    ensures
        enclosing_block(anchors, i) == b,
    decreases i - b,
{
    if b < i {
        let p = anchors[i].parent->Some_0;
        lemma_enclosing(anchors, b, p as int);
    }
}

/// The anchors of a list of blocks nest in them.
proof fn lemma_nesting(s: Seq<char>, blocks: Seq<Seq<EventView>>)
    ensures
        nest_in_last_block(anchors_of(s, blocks)),
    decreases blocks.len(),
{
    if blocks.len() > 0 {
        lemma_nesting(s, blocks.drop_last());
        let before = anchors_of(s, blocks.drop_last());
        let block = block_anchor(s, blocks.last());
        let b = before.len() as int;
        let tail = nested_anchors(s, blocks.last(), before.len(), 0, before.len() + 1);
        let all = anchors_of(s, blocks);
        assert(all == before.push(block) + tail);
        assert(all.take(b) =~= before);
        assert(all[b] == block);
        assert forall|i: int| 0 <= i < tail.len() implies all[b + 1 + i] == #[trigger] tail[i] by {}
        lemma_nested_levels(all, s, blocks.last(), before.len(), 0, before.len() + 1);
        assert forall|i: int| 0 <= i < all.len() implies #[trigger] nests_in_last_block(all, i) by {
            if i < b {
                lemma_front_nests(before, all, i);
                assert(nests_in_last_block(before, i));
                lemma_last_block_bound(before, i);
                assert(all[last_block(all, i)] == before[last_block(before, i)]);
            } else {
                lemma_enclosing(all, b, i);
                lemma_last_block(all, b, i);
            }
        }
    }
}

/// The last block is one of the anchors.
proof fn lemma_last_block_bound(anchors: Seq<AnchorView>, i: int)
    requires
        0 <= i,
    ensures
        0 <= last_block(anchors, i) <= i,
    decreases i,
{
    if i > 0 {
        lemma_last_block_bound(anchors, i - 1);
    }
}

/// Going from parent to parent leads from each item and each row to the last block
/// before it, over at most 64 anchors.
pub proof fn law_anchors_nest_in_the_last_block(markdown: Seq<char>)
    ensures
        nest_in_last_block(document_anchors(markdown)),
{
    lemma_nesting(markdown, document_blocks(markdown));
}

/// Blocks are picked piece by piece.
proof fn lemma_blocks_of_add(a: Seq<AnchorView>, b: Seq<AnchorView>)
    ensures
        blocks_of(a + b) == blocks_of(a) + blocks_of(b),
    decreases b.len(),
{
    if b.len() == 0 {
        assert(a + b =~= a);
        assert(blocks_of(a) + blocks_of(b) =~= blocks_of(a));
    } else {
        assert((a + b).drop_last() =~= a + b.drop_last());
        lemma_blocks_of_add(a, b.drop_last());
        assert(blocks_of(a + b) =~= blocks_of(a) + blocks_of(b));
    }
}

/// A list without blocks has none to pick.
proof fn lemma_no_blocks(anchors: Seq<AnchorView>)
    requires
        forall|i: int| 0 <= i < anchors.len() ==> (#[trigger] anchors[i]).kind != AnchorKind::Block,
    ensures
        blocks_of(anchors) == Seq::<BlockView>::empty(),
    decreases anchors.len(),
{
    if anchors.len() > 0 {
        lemma_no_blocks(anchors.drop_last());
    }
}

/// What the blocks of a document are: one for each of its top-level blocks.
pub open spec fn blocks_from(s: Seq<char>, blocks: Seq<Seq<EventView>>) -> Seq<BlockView> {
    blocks.map_values(|b: Seq<EventView>| block_of(block_anchor(s, b)))
}

/// The blocks among the anchors are the blocks that the anchors come from.
proof fn lemma_blocks(s: Seq<char>, blocks: Seq<Seq<EventView>>)
    ensures
        blocks_of(anchors_of(s, blocks)) == blocks_from(s, blocks),
    decreases blocks.len(),
{
    if blocks.len() == 0 {
        assert(blocks_of(anchors_of(s, blocks)) =~= blocks_from(s, blocks));
    } else {
        lemma_blocks(s, blocks.drop_last());
        let before = anchors_of(s, blocks.drop_last());
        let block = block_anchor(s, blocks.last());
        let tail = nested_anchors(s, blocks.last(), before.len(), 0, before.len() + 1);
        lemma_nested_parents(s, blocks.last(), before.len(), 0, before.len() + 1);
        lemma_no_blocks(tail);
        lemma_blocks_of_add(before.push(block), tail);
        assert(before.push(block).drop_last() =~= before);
        assert(blocks_of(anchors_of(s, blocks)) =~= blocks_from(s, blocks));
    }
}

/// The blocks of a document are its top-level blocks, each once and in order.
pub proof fn law_blocks_are_the_top_level_blocks(markdown: Seq<char>)
    ensures
        blocks_of(document_anchors(markdown)) == blocks_from(markdown, document_blocks(markdown)),
{
    lemma_blocks(markdown, document_blocks(markdown));
}

/// A text up to a later point holds no fewer line breaks.
proof fn lemma_newlines_ascend(s: Seq<char>, a: int, b: int)
    requires
        0 <= a <= b <= s.len(),
    ensures
        newlines(s.take(a)) <= newlines(s.take(b)),
    decreases b - a,
{
    if a < b {
        assert(s.take(b).drop_last() =~= s.take(b - 1));
        lemma_newlines_ascend(s, a, b - 1);
    }
}

/// Whether the positions of all events lie between `from` and the end of a text
/// of `n` characters.
pub open spec fn lie_between(events: Seq<EventView>, from: int, n: int) -> bool {
    forall|i: int|
        0 <= i < events.len() ==> from <= (#[trigger] events[i]).start <= n && events[i].end <= n
}

/// What holds of every anchor of a document whose events begin at `from`: its
/// source has no white space round it, its hash is that of its source, its preview
/// is short, and its lines are counted from 1, ascend, and do not lie before `from`.
pub open spec fn is_sound(s: Seq<char>, a: AnchorView, from: int) -> bool {
    &&& a.source == trimmed(a.source)
    &&& a.hash == source_hash(a.source)
    &&& a.excerpt.len() <= 80
    &&& 1 <= line_of(s, from) <= a.line_start <= a.line_end
}

/// Whether all of `anchors` are sound.
pub open spec fn all_sound(s: Seq<char>, anchors: Seq<AnchorView>, from: int) -> bool {
    forall|i: int| 0 <= i < anchors.len() ==> is_sound(s, #[trigger] anchors[i], from)
}

/// A range ends on no earlier line than it begins on.
proof fn lemma_lines(s: Seq<char>, from: int, a: int, b: int)
    requires
        0 <= from <= a <= s.len(),
    ensures
        1 <= line_of(s, from) <= line_of(s, a) <= last_line_of(s, a, b),
{
    lemma_newlines_ascend(s, from, a);
    lemma_trimmed_end(span(s, a, b));
    let k = trimmed_end(span(s, a, b)).len() as int;
    lemma_newlines_ascend(s, a, a + k);
}

/// Items and rows are sound.
proof fn lemma_nested_sound(
    s: Seq<char>,
    events: Seq<EventView>,
    parent: nat,
    depth: nat,
    base: nat,
    from: int,
)
    requires
        0 <= from <= s.len(),
        lie_between(events, from, s.len() as int),
    ensures
        all_sound(s, nested_anchors(s, events, parent, depth, base), from),
    decreases events.len(),
{
    if depth < MAX_ANCHOR_DEPTH && events.len() > 0 {
        lemma_close_index(deltas(events), 1, 1);
        let all = nested_anchors(s, events, parent, depth, base);
        match anchor_kind(events[0]) {
            None => lemma_nested_sound(s, events.drop_first(), parent, depth, base, from),
            Some(kind) => {
                let anchor = nested_anchor(s, events, kind, Some(parent));
                let inner = nested_anchors(s, inside(events), base, depth + 1, base + 1);
                let next = base + 1 + inner.len();
                let tail = nested_anchors(s, behind(events), parent, depth, next);
                lemma_nested_sound(s, inside(events), base, depth + 1, base + 1, from);
                lemma_nested_sound(s, behind(events), parent, depth, next, from);
                lemma_lines(s, from, events[0].start as int, element_stop(events) as int);
                lemma_trimmed_twice(
                    span(s, events[0].start as int, element_stop(events) as int),
                );
                assert(all == seq![anchor] + inner + tail);
                assert forall|i: int| 0 <= i < all.len() implies is_sound(
                    s,
                    #[trigger] all[i],
                    from,
                ) by {
                    if i == 0 {
                        assert(all[i] == anchor);
                    } else if i < 1 + inner.len() {
                        assert(all[i] == inner[i - 1]);
                    } else {
                        assert(all[i] == tail[i - 1 - inner.len()]);
                    }
                }
            },
        }
    }
}

/// The blocks of a run lie where the run lies, and none is empty.
proof fn lemma_top_blocks(events: Seq<EventView>, from: int, n: int)
    requires
        lie_between(events, from, n),
    ensures
        forall|i: int|
            0 <= i < top_blocks(events).len() ==> (#[trigger] top_blocks(events)[i]).len() > 0
                && lie_between(top_blocks(events)[i], from, n),
    decreases events.len(),
{
    if events.len() > 0 {
        lemma_close_index(deltas(events), 1, 1);
        let all = top_blocks(events);
        if delta(events[0]) == 0 {
            let first = events.take(1);
            let rest = events.drop_first();
            lemma_top_blocks(rest, from, n);
            assert(all == seq![first] + top_blocks(rest));
            assert forall|i: int| 0 <= i < all.len() implies (#[trigger] all[i]).len() > 0
                && lie_between(all[i], from, n) by {
                if i > 0 {
                    assert(all[i] == top_blocks(rest)[i - 1]);
                }
            }
        } else if delta(events[0]) == 1 && matching_end(events) < events.len() {
            let first = events.take(matching_end(events) + 1);
            let rest = behind(events);
            lemma_top_blocks(rest, from, n);
            assert(all == seq![first] + top_blocks(rest));
            assert forall|i: int| 0 <= i < all.len() implies (#[trigger] all[i]).len() > 0
                && lie_between(all[i], from, n) by {
                if i > 0 {
                    assert(all[i] == top_blocks(rest)[i - 1]);
                }
            }
        } else {
            lemma_top_blocks(events.drop_first(), from, n);
        }
    }
}

/// The anchors of blocks are sound.
proof fn lemma_anchors_sound(s: Seq<char>, blocks: Seq<Seq<EventView>>, from: int)
    requires
        0 <= from <= s.len(),
        forall|i: int|
            0 <= i < blocks.len() ==> (#[trigger] blocks[i]).len() > 0 && lie_between(
                blocks[i],
                from,
                s.len() as int,
            ),
    ensures
        all_sound(s, anchors_of(s, blocks), from),
    decreases blocks.len(),
{
    if blocks.len() > 0 {
        let shorter = blocks.drop_last();
        assert forall|i: int| 0 <= i < shorter.len() implies (#[trigger] shorter[i]).len() > 0
            && lie_between(shorter[i], from, s.len() as int) by {
            assert(shorter[i] == blocks[i]);
        }
        lemma_anchors_sound(s, shorter, from);
        let block = blocks.last();
        assert(block == blocks[blocks.len() - 1]);
        let before = anchors_of(s, shorter);
        let anchor = block_anchor(s, block);
        let tail = nested_anchors(s, block, before.len(), 0, before.len() + 1);
        lemma_nested_sound(s, block, before.len(), 0, before.len() + 1, from);
        lemma_lines(s, from, block[0].start as int, block.last().end as int);
        lemma_trimmed_twice(span(s, block[0].start as int, block.last().end as int));
        let all = anchors_of(s, blocks);
        assert(all == before.push(anchor) + tail);
        assert forall|i: int| 0 <= i < all.len() implies is_sound(s, #[trigger] all[i], from) by {
            if i < before.len() {
                assert(all[i] == before[i]);
            } else if i == before.len() {
                assert(all[i] == anchor);
            } else {
                assert(all[i] == tail[i - before.len() - 1]);
            }
        }
    }
}

/// Every anchor of a document has a source without white space round it and the
/// hash of that source, so that anchors with the same source share one; its preview
/// has at most 80 characters; its lines are counted from 1 and ascend; and it does
/// not lie in the frontmatter.
pub proof fn law_anchors_are_sound(markdown: Seq<char>)
    ensures
        all_sound(markdown, document_anchors(markdown), frontmatter_len(markdown)),
{
    let s = markdown;
    let skip = frontmatter_len(s);
    lemma_frontmatter(s);
    let events = document_events(s);
    assert forall|i: int| 0 <= i < events.len() implies skip <= (#[trigger] events[i]).start
        <= s.len() && events[i].end <= s.len() by {
        let raw = parsed_events(s.skip(skip))[i];
        lemma_char_index_bound(s.skip(skip), raw.start);
        lemma_char_index_bound(s.skip(skip), raw.end);
    }
    lemma_top_blocks(events, skip, s.len() as int);
    lemma_anchors_sound(s, document_blocks(s), skip);
}

// ---------------------------------------------------------------------------
// Previews
// ---------------------------------------------------------------------------

/// Whether a text holds no line break.
pub open spec fn is_unbroken(s: Seq<char>) -> bool {
    forall|k: int| 0 <= k < s.len() ==> #[trigger] s[k] != '\n'
}

/// Whether the previews of all anchors hold no line break.
pub open spec fn previews_are_unbroken(anchors: Seq<AnchorView>) -> bool {
    forall|i: int| 0 <= i < anchors.len() ==> is_unbroken((#[trigger] anchors[i]).excerpt)
}

/// Where an element is closed in a part of a run is where it is closed in the run,
/// unless the part ends before.
proof fn lemma_close_in_part(ds: Seq<int>, a: int, b: int, j: int, depth: int)
    requires
        0 <= a <= j <= b <= ds.len(),
    ensures
        close_index(ds.subrange(a, b), j - a, depth) == if close_index(ds, j, depth) < b {
            close_index(ds, j, depth) - a
        } else {
            b - a
        },
    decreases b - j,
{
    lemma_close_index(ds, j, depth);
    if j < b {
        assert(ds.subrange(a, b)[j - a] == ds[j]);
        if depth + ds[j] != 0 {
            lemma_close_in_part(ds, a, b, j + 1, depth + ds[j]);
        }
    }
}

/// Fewer open elements are closed before more are.
proof fn lemma_fewer_close_earlier(ds: Seq<int>, j: int, few: int, more: int)
    requires
        0 <= j <= ds.len(),
        forall|k: int| 0 <= k < ds.len() ==> #[trigger] ds[k] >= -1,
        1 <= few < more,
        close_index(ds, j, more) < ds.len(),
    ensures
        close_index(ds, j, few) < close_index(ds, j, more),
    decreases ds.len() - j,
{
    if j < ds.len() {
        assert(ds[j] >= -1);
        if few + ds[j] == 0 {
            lemma_close_index(ds, j + 1, more + ds[j]);
        } else {
            lemma_fewer_close_earlier(ds, j + 1, few + ds[j], more + ds[j]);
        }
    }
}

/// An element inside another is closed before that.
proof fn lemma_inner_closes_earlier(ds: Seq<int>, j: int, depth: int, k: int)
    requires
        0 <= j <= k < close_index(ds, j, depth) < ds.len(),
        forall|i: int| 0 <= i < ds.len() ==> #[trigger] ds[i] >= -1,
        depth >= 1,
        ds[k] == 1,
    ensures
        close_index(ds, k + 1, 1) < close_index(ds, j, depth),
    decreases k - j,
{
    assert(ds[j] >= -1);
    if j == k {
        lemma_fewer_close_earlier(ds, k + 1, 1, depth + 1);
    } else {
        lemma_inner_closes_earlier(ds, j + 1, depth + ds[j], k);
    }
}

/// A part of a tidy run is tidy, where each element that is opened in it is closed
/// in it.
proof fn lemma_part_is_tidy(s: Seq<char>, events: Seq<EventView>, a: int, b: int)
    requires
        is_tidy(s, events),
        0 <= a <= b <= events.len(),
        forall|i: int| a <= i < b && delta(#[trigger] events[i]) == 1 ==> end_of(events, i) < b,
    ensures
        is_tidy(s, events.subrange(a, b)),
{
    let part = events.subrange(a, b);
    assert(deltas(part) =~= deltas(events).subrange(a, b));
    assert forall|i: int| 0 <= i < part.len() && delta(#[trigger] part[i]) == 1 implies end_of(
        part,
        i,
    ) < part.len() && end_of(part, i) == end_of(events, a + i) - a by {
        assert(delta(events[a + i]) == 1);
        lemma_close_in_part(deltas(events), a, b, a + i + 1, 1);
    }
    assert forall|i: int, j: int|
        0 <= i < j < end_of(part, i) && begins_row(#[trigger] part[i]) implies !begins_row(
        #[trigger] part[j],
    ) && part[j].shape != ShapeView::Start(TagView::Item) by {
        if i < part.len() {
            lemma_close_index(deltas(part), i + 1, 1);
            assert(delta(part[i]) == 1);
            assert(begins_row(events[a + i]));
            assert(!begins_row(events[a + j]));
        } else {
            assert(end_of(part, i) == part.len());
        }
    }
    assert forall|i: int, k: int|
        0 <= i < part.len() && part[i].shape == ShapeView::Start(TagView::TableCell)
            && #[trigger] part[i].start <= k < part[end_of(part, i)].end implies #[trigger] s[k]
        != '\n' by {
        assert(delta(part[i]) == 1);
        lemma_close_index(deltas(part), i + 1, 1);
        assert(part[end_of(part, i)] == events[end_of(events, a + i)]);
        assert(events[a + i].start <= k);
    }
}

/// What a tidy run is taken apart into is tidy.
pub(crate) proof fn lemma_parts_are_tidy(s: Seq<char>, events: Seq<EventView>)
    requires
        is_tidy(s, events),
        events.len() > 0,
    ensures
        is_tidy(s, events.drop_first()),
        delta(events[0]) == 1 ==> {
            &&& matching_end(events) < events.len()
            &&& is_tidy(s, inside(events))
            &&& is_tidy(s, behind(events))
            &&& is_tidy(s, events.take(matching_end(events) + 1))
        },
{
    let n = events.len() as int;
    let ds = deltas(events);
    assert(events.drop_first() =~= events.subrange(1, n));
    lemma_part_is_tidy(s, events, 1, n);
    if delta(events[0]) == 1 {
        let e = matching_end(events);
        assert(end_of(events, 0) == e);
        lemma_close_index(ds, 1, 1);
        assert forall|i: int| 1 <= i < e && delta(#[trigger] events[i]) == 1 implies end_of(
            events,
            i,
        ) < e by {
            assert(ds[i] == 1);
            lemma_inner_closes_earlier(ds, 1, 1, i);
        }
        lemma_part_is_tidy(s, events, 1, e);
        assert(delta(events[e]) == -1) by {
            lemma_closed_by_an_end(ds, 1, 1);
        }
        assert(events.skip(e + 1) =~= events.subrange(e + 1, n));
        lemma_part_is_tidy(s, events, e + 1, n);
        assert(events.take(e + 1) =~= events.subrange(0, e + 1));
        lemma_part_is_tidy(s, events, 0, e + 1);
    }
}

/// What closes an element is an end.
proof fn lemma_closed_by_an_end(ds: Seq<int>, j: int, depth: int)
    requires
        0 <= j <= ds.len(),
        depth >= 1,
        forall|i: int| 0 <= i < ds.len() ==> #[trigger] ds[i] >= -1,
        close_index(ds, j, depth) < ds.len(),
    ensures
        ds[close_index(ds, j, depth)] == -1,
    decreases ds.len() - j,
{
    if j < ds.len() {
        assert(ds[j] >= -1);
        if depth + ds[j] != 0 {
            lemma_closed_by_an_end(ds, j + 1, depth + ds[j]);
        }
    }
}

/// The blocks of a tidy run are tidy.
pub(crate) proof fn lemma_blocks_are_tidy(s: Seq<char>, events: Seq<EventView>)
    requires
        is_tidy(s, events),
    ensures
        forall|i: int| 0 <= i < top_blocks(events).len() ==> is_tidy(
            s,
            #[trigger] top_blocks(events)[i],
        ),
    decreases events.len(),
{
    if events.len() > 0 {
        let all = top_blocks(events);
        lemma_parts_are_tidy(s, events);
        lemma_close_index(deltas(events), 1, 1);
        if delta(events[0]) == 0 {
            let rest = events.drop_first();
            lemma_blocks_are_tidy(s, rest);
            assert(events.take(1) =~= events.subrange(0, 1));
            lemma_part_is_tidy(s, events, 0, 1);
            assert(all == seq![events.take(1)] + top_blocks(rest));
            assert forall|i: int| 0 <= i < all.len() implies is_tidy(s, #[trigger] all[i]) by {
                if i > 0 {
                    assert(all[i] == top_blocks(rest)[i - 1]);
                }
            }
        } else if delta(events[0]) == 1 {
            let rest = behind(events);
            lemma_blocks_are_tidy(s, rest);
            assert(all == seq![events.take(matching_end(events) + 1)] + top_blocks(rest));
            assert forall|i: int| 0 <= i < all.len() implies is_tidy(s, #[trigger] all[i]) by {
                if i > 0 {
                    assert(all[i] == top_blocks(rest)[i - 1]);
                }
            }
        } else {
            lemma_blocks_are_tidy(s, events.drop_first());
            assert(all == top_blocks(events.drop_first()));
        }
    }
}

/// A line holds no line break.
proof fn lemma_lines_are_unbroken(s: Seq<char>)
    ensures
        forall|i: int| 0 <= i < lines(s).len() ==> is_unbroken(#[trigger] lines(s)[i]),
    decreases s.len(),
{
    if s.len() > 0 {
        lemma_find_char(s, '\n');
        match find_char(s, '\n') {
            None => {
                assert forall|k: int| 0 <= k < s.len() implies #[trigger] s[k] != '\n' by {
                    assert(s.contains(s[k]));
                }
            },
            Some(i) => {
                let first = without_cr(s.take(i));
                let rest = lines(s.skip(i + 1));
                lemma_lines_are_unbroken(s.skip(i + 1));
                assert(lines(s) == seq![first] + rest);
                assert forall|k: int| 0 <= k < first.len() implies #[trigger] first[k] != '\n' by {
                    assert(first[k] == s[k]);
                }
                assert forall|n: int| 0 <= n < lines(s).len() implies is_unbroken(
                    #[trigger] lines(s)[n],
                ) by {
                    if n > 0 {
                        assert(lines(s)[n] == rest[n - 1]);
                    }
                }
            },
        }
    }
}

/// What is cut off an unbroken text is unbroken.
proof fn lemma_cut_is_unbroken(s: Seq<char>)
    requires
        is_unbroken(s),
    ensures
        is_unbroken(truncated(s, 80)),
        is_unbroken(trimmed_start(s)),
        is_unbroken(trimmed(s)),
        forall|i: int| 0 <= i <= s.len() ==> is_unbroken(#[trigger] s.skip(i)),
{
    assert forall|i: int| 0 <= i <= s.len() implies is_unbroken(#[trigger] s.skip(i)) by {
        assert forall|k: int| 0 <= k < s.skip(i).len() implies #[trigger] s.skip(i)[k] != '\n' by {
            assert(s.skip(i)[k] == s[i + k]);
        }
    }
    let t = trimmed_start(s);
    lemma_trimmed_start(s);
    lemma_trimmed_end(t);
    assert(is_unbroken(t)) by {
        assert forall|k: int| 0 <= k < t.len() implies #[trigger] t[k] != '\n' by {
            assert(t[k] == s[s.len() - t.len() + k]);
        }
    }
    let u = trimmed(s);
    assert(is_unbroken(u)) by {
        assert forall|k: int| 0 <= k < u.len() implies #[trigger] u[k] != '\n' by {
            assert(u[k] == t[k]);
        }
    }
}

/// The previews of blocks and items hold no line break.
proof fn lemma_previews(source: Seq<char>)
    ensures
        is_unbroken(block_excerpt(source)),
        is_unbroken(item_preview(source)),
{
    lemma_lines_are_unbroken(source);
    let first = line_at(source, 0);
    let t = trimmed_start(first);
    lemma_cut_is_unbroken(first);
    lemma_cut_is_unbroken(line_at(source, 1));
    lemma_cut_is_unbroken(t);
    if let Some(u) = without_bullet(t) {
        lemma_digits(t);
        let behind_digits = t.skip(leading_digits(t) as int);
        lemma_cut_is_unbroken(behind_digits);
        lemma_cut_is_unbroken(u);
    }
    lemma_cut_is_unbroken(without_marker(first));
}

/// There are no more digits in front than characters.
proof fn lemma_digits(s: Seq<char>)
    ensures
        leading_digits(s) <= s.len(),
    decreases s.len(),
{
    if s.len() > 0 {
        lemma_digits(s.drop_first());
    }
}

/// A cell that a tidy run begins with holds no line break.
proof fn lemma_cell_is_unbroken(s: Seq<char>, events: Seq<EventView>)
    requires
        is_tidy(s, events),
        events.len() > 0,
        events[0].shape == ShapeView::Start(TagView::TableCell),
    ensures
        is_unbroken(element_source(s, events)),
{
    let cell = span(s, events[0].start as int, element_stop(events) as int);
    assert(delta(events[0]) == 1);
    assert(end_of(events, 0) == matching_end(events));
    lemma_close_index(deltas(events), 1, 1);
    assert forall|k: int| 0 <= k < cell.len() implies #[trigger] cell[k] != '\n' by {
        let at = events[0].start + k;
        assert(cell[k] == s[at]);
        assert(events[0].start <= at < events[end_of(events, 0)].end);
    }
    lemma_cut_is_unbroken(cell);
}

/// The cells of a tidy row hold no line break.
proof fn lemma_cells_are_unbroken(s: Seq<char>, events: Seq<EventView>)
    requires
        is_tidy(s, events),
    ensures
        forall|i: int| 0 <= i < cell_sources(s, events).len() ==> is_unbroken(
            #[trigger] cell_sources(s, events)[i],
        ),
    decreases events.len(),
{
    if events.len() > 0 {
        lemma_parts_are_tidy(s, events);
        lemma_close_index(deltas(events), 1, 1);
        if events[0].shape == ShapeView::Start(TagView::TableCell) {
            let all = cell_sources(s, events);
            let rest = cell_sources(s, behind(events));
            lemma_cells_are_unbroken(s, behind(events));
            lemma_cell_is_unbroken(s, events);
            assert(all == seq![element_source(s, events)] + rest);
            assert forall|i: int| 0 <= i < all.len() implies is_unbroken(#[trigger] all[i]) by {
                if i > 0 {
                    assert(all[i] == rest[i - 1]);
                }
            }
        } else {
            lemma_cells_are_unbroken(s, events.drop_first());
            assert(cell_sources(s, events) == cell_sources(s, events.drop_first()));
        }
    }
}

/// Unbroken texts are joined to an unbroken one.
proof fn lemma_joined_is_unbroken(parts: Seq<Seq<char>>)
    requires
        forall|i: int| 0 <= i < parts.len() ==> is_unbroken(#[trigger] parts[i]),
    ensures
        is_unbroken(joined(parts, " | "@)),
    decreases parts.len(),
{
    reveal_strlit(" | ");
    if parts.len() > 0 {
        let front = parts.drop_last();
        assert forall|i: int| 0 <= i < front.len() implies is_unbroken(#[trigger] front[i]) by {
            assert(front[i] == parts[i]);
        }
        lemma_joined_is_unbroken(front);
        assert(is_unbroken(parts[parts.len() - 1]));
    }
}

/// The previews of the items and rows of a tidy run hold no line break.
proof fn lemma_nested_previews(
    s: Seq<char>,
    events: Seq<EventView>,
    parent: nat,
    depth: nat,
    base: nat,
)
    requires
        is_tidy(s, events),
    ensures
        previews_are_unbroken(nested_anchors(s, events, parent, depth, base)),
    decreases events.len(),
{
    if depth < MAX_ANCHOR_DEPTH && events.len() > 0 {
        lemma_close_index(deltas(events), 1, 1);
        lemma_parts_are_tidy(s, events);
        let all = nested_anchors(s, events, parent, depth, base);
        match anchor_kind(events[0]) {
            None => lemma_nested_previews(s, events.drop_first(), parent, depth, base),
            Some(kind) => {
                let anchor = nested_anchor(s, events, kind, Some(parent));
                let inner = nested_anchors(s, inside(events), base, depth + 1, base + 1);
                let next = base + 1 + inner.len();
                let tail = nested_anchors(s, behind(events), parent, depth, next);
                lemma_nested_previews(s, inside(events), base, depth + 1, base + 1);
                lemma_nested_previews(s, behind(events), parent, depth, next);
                lemma_previews(element_source(s, events));
                lemma_cells_are_unbroken(s, inside(events));
                lemma_joined_is_unbroken(cell_sources(s, inside(events)));
                lemma_cut_is_unbroken(joined(cell_sources(s, inside(events)), " | "@));
                assert(all == seq![anchor] + inner + tail);
                assert forall|i: int| 0 <= i < all.len() implies is_unbroken(
                    (#[trigger] all[i]).excerpt,
                ) by {
                    if i == 0 {
                        assert(all[i] == anchor);
                    } else if i < 1 + inner.len() {
                        assert(all[i] == inner[i - 1]);
                    } else {
                        assert(all[i] == tail[i - 1 - inner.len()]);
                    }
                }
            },
        }
    }
}

/// The previews of the anchors of tidy blocks hold no line break.
proof fn lemma_anchor_previews(s: Seq<char>, blocks: Seq<Seq<EventView>>)
    requires
        forall|i: int| 0 <= i < blocks.len() ==> is_tidy(s, #[trigger] blocks[i]),
    ensures
        previews_are_unbroken(anchors_of(s, blocks)),
    decreases blocks.len(),
{
    if blocks.len() > 0 {
        let shorter = blocks.drop_last();
        assert forall|i: int| 0 <= i < shorter.len() implies is_tidy(s, #[trigger] shorter[i]) by {
            assert(shorter[i] == blocks[i]);
        }
        lemma_anchor_previews(s, shorter);
        let block = blocks.last();
        assert(block == blocks[blocks.len() - 1]);
        let before = anchors_of(s, shorter);
        let anchor = block_anchor(s, block);
        let tail = nested_anchors(s, block, before.len(), 0, before.len() + 1);
        lemma_nested_previews(s, block, before.len(), 0, before.len() + 1);
        lemma_previews(block_source(s, block));
        let all = anchors_of(s, blocks);
        assert(all == before.push(anchor) + tail);
        assert forall|i: int| 0 <= i < all.len() implies is_unbroken(
            (#[trigger] all[i]).excerpt,
        ) by {
            if i < before.len() {
                assert(all[i] == before[i]);
            } else if i == before.len() {
                assert(all[i] == anchor);
            } else {
                assert(all[i] == tail[i - before.len() - 1]);
            }
        }
    }
}

/// The preview of no anchor holds a line break, where the events are tidy, as those
/// of every document are that is read.
pub proof fn law_previews_are_unbroken(markdown: Seq<char>)
    requires
        is_tidy(markdown, document_events(markdown)),
    ensures
        previews_are_unbroken(document_anchors(markdown)),
{
    lemma_blocks_are_tidy(markdown, document_events(markdown));
    lemma_anchor_previews(markdown, document_blocks(markdown));
}

/// Whether no event of a run begins an anchor.
pub open spec fn holds_no_anchor(events: Seq<EventView>) -> bool {
    forall|i: int| 0 <= i < events.len() ==> anchor_kind(#[trigger] events[i]) is None
}

/// A run in which nothing begins an anchor has none.
pub(crate) proof fn lemma_no_nested(
    s: Seq<char>,
    events: Seq<EventView>,
    parent: nat,
    depth: nat,
    base: nat,
)
    requires
        holds_no_anchor(events),
    ensures
        nested_anchors(s, events, parent, depth, base) == Seq::<AnchorView>::empty(),
    decreases events.len(),
{
    if depth < MAX_ANCHOR_DEPTH && events.len() > 0 {
        assert(anchor_kind(events[0]) is None);
        lemma_no_nested(s, events.drop_first(), parent, depth, base);
    }
}

/// Whether the parent of anchor `i` is no row.
pub open spec fn is_in_no_row(anchors: Seq<AnchorView>, i: int) -> bool {
    anchors[i].parent matches Some(p) ==> anchors[p as int].kind != AnchorKind::Row
}

/// Whether no anchor has a row for its parent.
pub open spec fn rows_have_no_children(anchors: Seq<AnchorView>) -> bool {
    forall|i: int| 0 <= i < anchors.len() ==> #[trigger] is_in_no_row(anchors, i)
}

/// Where a tidy run begins with a row, nothing in that is an anchor.
pub(crate) proof fn lemma_row_holds_no_anchor(s: Seq<char>, events: Seq<EventView>)
    requires
        is_tidy(s, events),
        events.len() > 0,
        anchor_kind(events[0]) == Some(AnchorKind::Row),
    ensures
        holds_no_anchor(inside(events)),
{
    let inner = inside(events);
    lemma_close_index(deltas(events), 1, 1);
    assert(begins_row(events[0]));
    assert(end_of(events, 0) == matching_end(events));
    assert forall|i: int| 0 <= i < inner.len() implies anchor_kind(#[trigger] inner[i]) is None by {
        assert(inner[i] == events[i + 1]);
    }
}

/// Whether anchor `i` of `nested`, which stand from `base` on in the list of all
/// anchors, has `parent` for its parent or an item among them.
spec fn is_under_item(nested: Seq<AnchorView>, i: int, parent: nat, base: nat) -> bool {
    nested[i].parent matches Some(p) && (p == parent || (base <= p < base + nested.len()
        && nested[p - base].kind == AnchorKind::Item))
}

/// Whether that holds of each of `nested`.
spec fn are_under_items(nested: Seq<AnchorView>, parent: nat, base: nat) -> bool {
    forall|i: int| 0 <= i < nested.len() ==> #[trigger] is_under_item(nested, i, parent, base)
}

/// An item, what is in it and what follows it stand under items where its parts do.
proof fn lemma_under_items_add(
    anchor: AnchorView,
    inner: Seq<AnchorView>,
    tail: Seq<AnchorView>,
    parent: nat,
    base: nat,
)
    requires
        anchor.parent == Some(parent),
        inner.len() > 0 ==> anchor.kind == AnchorKind::Item,
        are_under_items(inner, base, base + 1),
        are_under_items(tail, parent, base + 1 + inner.len()),
    ensures
        are_under_items(seq![anchor] + inner + tail, parent, base),
{
    let all = seq![anchor] + inner + tail;
    let next = base + 1 + inner.len();
    assert forall|i: int| 0 <= i < all.len() implies #[trigger] is_under_item(
        all,
        i,
        parent,
        base,
    ) by {
        if i == 0 {
            assert(all[i] == anchor);
        } else if i < 1 + inner.len() {
            assert(is_under_item(inner, i - 1, base, base + 1));
            assert(all[i] == inner[i - 1]);
            let p = inner[i - 1].parent->Some_0;
            if p == base {
                assert(all[0] == anchor);
            } else {
                assert(all[p - base] == inner[p - base - 1]);
            }
        } else {
            let k = i - 1 - inner.len();
            assert(is_under_item(tail, k, parent, next));
            assert(all[i] == tail[k]);
            let p = tail[k].parent->Some_0;
            if p != parent {
                assert(all[p - base] == tail[p - next]);
            }
        }
    }
}

/// The items and rows of a tidy run have the parent round them or an item.
proof fn lemma_nested_under_items(
    s: Seq<char>,
    events: Seq<EventView>,
    parent: nat,
    depth: nat,
    base: nat,
)
    requires
        is_tidy(s, events),
    ensures
        are_under_items(nested_anchors(s, events, parent, depth, base), parent, base),
    decreases events.len(),
{
    let all = nested_anchors(s, events, parent, depth, base);
    if depth < MAX_ANCHOR_DEPTH && events.len() > 0 {
        lemma_close_index(deltas(events), 1, 1);
        lemma_parts_are_tidy(s, events);
        match anchor_kind(events[0]) {
            None => {
                lemma_nested_under_items(s, events.drop_first(), parent, depth, base);
                assert(all == nested_anchors(s, events.drop_first(), parent, depth, base));
            },
            Some(kind) => {
                let first = seq![nested_anchor(s, events, kind, Some(parent))];
                let inner = nested_anchors(s, inside(events), base, depth + 1, base + 1);
                let next = base + 1 + inner.len();
                let tail = nested_anchors(s, behind(events), parent, depth, next);
                lemma_nested_under_items(s, inside(events), base, depth + 1, base + 1);
                lemma_nested_under_items(s, behind(events), parent, depth, next);
                if kind == AnchorKind::Row {
                    lemma_row_holds_no_anchor(s, events);
                    lemma_no_nested(s, inside(events), base, depth + 1, base + 1);
                }
                lemma_under_items_add(first[0], inner, tail, parent, base);
                assert(all == first + inner + tail);
            },
        }
    }
}

/// No anchor of tidy blocks has a row for its parent.
proof fn lemma_rows_have_no_children(s: Seq<char>, blocks: Seq<Seq<EventView>>)
    requires
        forall|i: int| 0 <= i < blocks.len() ==> is_tidy(s, #[trigger] blocks[i]),
    ensures
        rows_have_no_children(anchors_of(s, blocks)),
    decreases blocks.len(),
{
    if blocks.len() > 0 {
        let shorter = blocks.drop_last();
        assert forall|i: int| 0 <= i < shorter.len() implies is_tidy(s, #[trigger] shorter[i]) by {
            assert(shorter[i] == blocks[i]);
        }
        lemma_rows_have_no_children(s, shorter);
        lemma_parents(s, shorter);
        let block = blocks.last();
        assert(block == blocks[blocks.len() - 1]);
        let before = anchors_of(s, shorter);
        let anchor = block_anchor(s, block);
        let b = before.len();
        let tail = nested_anchors(s, block, b, 0, b + 1);
        lemma_nested_under_items(s, block, b, 0, b + 1);
        let all = anchors_of(s, blocks);
        assert(all == before.push(anchor) + tail);
        assert forall|i: int| 0 <= i < all.len() implies #[trigger] is_in_no_row(all, i) by {
            if i < b {
                assert(is_in_no_row(before, i));
                assert(all[i] == before[i]);
                if let Some(p) = before[i].parent {
                    assert(all[p as int] == before[p as int]);
                }
            } else if i == b {
                assert(all[i] == anchor);
            } else {
                assert(is_under_item(tail, i - b - 1, b, b + 1));
                assert(all[i] == tail[i - b - 1]);
                let p = tail[i - b - 1].parent->Some_0;
                if p == b {
                    assert(all[p as int] == anchor);
                } else {
                    assert(all[p as int] == tail[p - b - 1]);
                }
            }
        }
    }
}

/// The parent of an anchor is a block or an item, never a row, where the events are
/// tidy, as those of every document are that is read.
pub proof fn law_rows_have_no_children(markdown: Seq<char>)
    requires
        is_tidy(markdown, document_events(markdown)),
    ensures
        rows_have_no_children(document_anchors(markdown)),
{
    lemma_blocks_are_tidy(markdown, document_events(markdown));
    lemma_rows_have_no_children(markdown, document_blocks(markdown));
}

// ---------------------------------------------------------------------------
// All events
// ---------------------------------------------------------------------------

/// Behind what closes an element the nesting is what it was before it.
proof fn lemma_nesting_behind(ds: Seq<int>, j: int, depth: int)
    requires
        0 <= j <= ds.len(),
        close_index(ds, j, depth) < ds.len(),
    ensures
        nesting(ds, close_index(ds, j, depth) + 1) == nesting(ds, j) - depth,
    decreases ds.len() - j,
{
    if j < ds.len() {
        assert(nesting(ds, j + 1) == nesting(ds, j) + ds[j]);
        if depth + ds[j] != 0 {
            lemma_nesting_behind(ds, j + 1, depth + ds[j]);
        }
    }
}

/// The nesting in the rest of a run is what is added to that before it.
proof fn lemma_nesting_in_rest(ds: Seq<int>, a: int, n: int)
    requires
        0 <= a <= ds.len(),
        0 <= n <= ds.len() - a,
    ensures
        nesting(ds.skip(a), n) == nesting(ds, a + n) - nesting(ds, a),
    decreases n,
{
    if n > 0 {
        lemma_nesting_in_rest(ds, a, n - 1);
    }
}

/// What follows whole elements closes only what it opens.
proof fn lemma_rest_closes_its_own(events: Seq<EventView>, a: int)
    requires
        closes_only_what_is_open(events),
        0 <= a <= events.len(),
        nesting(deltas(events), a) == 0,
    ensures
        closes_only_what_is_open(events.skip(a)),
{
    let rest = events.skip(a);
    assert(deltas(rest) =~= deltas(events).skip(a));
    assert forall|n: int| 0 <= n <= rest.len() implies #[trigger] nesting(deltas(rest), n) >= 0 by {
        lemma_nesting_in_rest(deltas(events), a, n);
        assert(nesting(deltas(events), a + n) >= 0);
    }
}

/// The blocks of a run, joined, are the run.
proof fn lemma_blocks_are_all(s: Seq<char>, events: Seq<EventView>)
    requires
        is_tidy(s, events),
        closes_only_what_is_open(events),
    ensures
        top_blocks(events).flatten() == events,
    decreases events.len(),
{
    let all = top_blocks(events);
    if events.len() == 0 {
        assert(all.flatten() =~= events);
    } else {
        let ds = deltas(events);
        lemma_parts_are_tidy(s, events);
        lemma_close_index(ds, 1, 1);
        assert(nesting(ds, 1) == nesting(ds, 0) + ds[0]);
        assert(nesting(ds, 0) == 0);
        let stop = if delta(events[0]) == 0 {
            1
        } else {
            matching_end(events) + 1
        };
        if delta(events[0]) == 1 {
            lemma_nesting_behind(ds, 1, 1);
        } else {
            assert(events.skip(1) =~= events.drop_first());
        }
        lemma_rest_closes_its_own(events, stop);
        let rest = events.skip(stop);
        let first = events.take(stop);
        lemma_blocks_are_all(s, rest);
        assert(all == seq![first] + top_blocks(rest));
        assert(all.first() == first);
        assert(all.drop_first() =~= top_blocks(rest));
        assert(first + rest =~= events);
    }
}

/// No event of a document is lost on the way to its blocks: joined, they are all
/// events of the parse, in their order. This needs events that are tidy and close
/// only what is open, as those of every document are that is read.
pub proof fn law_no_event_is_lost(markdown: Seq<char>)
    requires
        is_tidy(markdown, document_events(markdown)),
        closes_only_what_is_open(document_events(markdown)),
    ensures
        document_blocks(markdown).flatten() == document_events(markdown),
{
    lemma_blocks_are_all(markdown, document_events(markdown));
}

} // verus!
