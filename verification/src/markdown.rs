//! The events of a Markdown document, as the parser of `pulldown_cmark` reports
//! them, held in types of this crate.
use pulldown_cmark::Event::{Code, End, HardBreak, Html, InlineHtml, SoftBreak, Start, Text};
use pulldown_cmark::{Alignment, Event, Options, Parser, Tag, TagEnd};
use std::ops::Range;
use vstd::prelude::*;
use vstd::utf8::encode_utf8;

use crate::offsets::{
    byte_offset, byte_offsets, char_at_byte, char_index, law_offsets_lead_back,
    lemma_char_index_bound,
};
use crate::text::{
    chars_of, find_char, find_char_in, lemma_find_char, same_chars, string_of, trim_end,
    trimmed_end,
};

verus! {

/// An event of the parser, carried through as it is.
#[verifier::external_type_specification]
#[verifier::external_body]
pub struct ExEvent<'a>(Event<'a>);

// ---------------------------------------------------------------------------
// What an event is
// ---------------------------------------------------------------------------

/// How a column of a table is aligned.
#[derive(Debug, Clone, Copy, PartialEq, Eq, Structural)]
pub enum Align {
    /// As the browser has it.
    Standard,
    Left,
    Center,
    Right,
}

/// Which element a `Start` event opens, as far as this crate looks at it.
pub enum TagShape {
    Item,
    TableHead,
    TableRow,
    TableCell,
    /// The columns' alignments.
    Table(Vec<Align>),
    HtmlBlock,
    /// The link's target.
    Link(String),
    /// The image's target.
    Image(String),
    Other,
}

/// The value of a [`TagShape`].
pub ghost enum TagView {
    Item,
    TableHead,
    TableRow,
    TableCell,
    Table(Seq<Align>),
    HtmlBlock,
    Link(Seq<char>),
    Image(Seq<char>),
    Other,
}

impl View for TagShape {
    type V = TagView;

    open spec fn view(&self) -> TagView {
        match self {
            TagShape::Item => TagView::Item,
            TagShape::TableHead => TagView::TableHead,
            TagShape::TableRow => TagView::TableRow,
            TagShape::TableCell => TagView::TableCell,
            TagShape::Table(a) => TagView::Table(a@),
            TagShape::HtmlBlock => TagView::HtmlBlock,
            TagShape::Link(t) => TagView::Link(t@),
            TagShape::Image(t) => TagView::Image(t@),
            TagShape::Other => TagView::Other,
        }
    }
}

/// Which element an `End` event closes, as far as this crate looks at it.
#[derive(Clone, Copy)]
pub enum EndShape {
    Table,
    HtmlBlock,
    Other,
}

/// What an event says, with the element of a `Start` or an `End` left open.
pub enum RawBody {
    Start,
    End,
    Text(String),
    Code(String),
    Html(String),
    InlineHtml(String),
    SoftBreak,
    HardBreak,
    Other,
}

/// The value of a [`RawBody`].
pub ghost enum RawBodyView {
    Start,
    End,
    Text(Seq<char>),
    Code(Seq<char>),
    Html(Seq<char>),
    InlineHtml(Seq<char>),
    SoftBreak,
    HardBreak,
    Other,
}

impl View for RawBody {
    type V = RawBodyView;

    open spec fn view(&self) -> RawBodyView {
        match self {
            RawBody::Start => RawBodyView::Start,
            RawBody::End => RawBodyView::End,
            RawBody::Text(t) => RawBodyView::Text(t@),
            RawBody::Code(t) => RawBodyView::Code(t@),
            RawBody::Html(t) => RawBodyView::Html(t@),
            RawBody::InlineHtml(t) => RawBodyView::InlineHtml(t@),
            RawBody::SoftBreak => RawBodyView::SoftBreak,
            RawBody::HardBreak => RawBodyView::HardBreak,
            RawBody::Other => RawBodyView::Other,
        }
    }
}

/// An event of the parser, with the bytes of the source it comes from.
pub struct RawEvent {
    pub body: RawBody,
    pub event: Event<'static>,
    pub start: usize,
    pub end: usize,
}

/// The value of a [`RawEvent`].
pub ghost struct RawView {
    pub body: RawBodyView,
    pub event: Event<'static>,
    pub start: nat,
    pub end: nat,
}

impl View for RawEvent {
    type V = RawView;

    open spec fn view(&self) -> RawView {
        RawView {
            body: self.body@,
            event: self.event,
            start: self.start as nat,
            end: self.end as nat,
        }
    }
}

/// What an event says, as far as this crate looks at it.
pub enum Shape {
    Start(TagShape),
    End(EndShape),
    Text(String),
    Code(String),
    Html(String),
    InlineHtml(String),
    SoftBreak,
    HardBreak,
    Other,
}

/// The value of a [`Shape`].
pub ghost enum ShapeView {
    Start(TagView),
    End(EndShape),
    Text(Seq<char>),
    Code(Seq<char>),
    Html(Seq<char>),
    InlineHtml(Seq<char>),
    SoftBreak,
    HardBreak,
    Other,
}

impl View for Shape {
    type V = ShapeView;

    open spec fn view(&self) -> ShapeView {
        match self {
            Shape::Start(t) => ShapeView::Start(t@),
            Shape::End(e) => ShapeView::End(*e),
            Shape::Text(t) => ShapeView::Text(t@),
            Shape::Code(t) => ShapeView::Code(t@),
            Shape::Html(t) => ShapeView::Html(t@),
            Shape::InlineHtml(t) => ShapeView::InlineHtml(t@),
            Shape::SoftBreak => ShapeView::SoftBreak,
            Shape::HardBreak => ShapeView::HardBreak,
            Shape::Other => ShapeView::Other,
        }
    }
}

/// An event of a document, with the characters of the source it comes from.
pub struct MdEvent {
    pub shape: Shape,
    /// The parser's own event, for [`push_html`].
    pub event: Event<'static>,
    pub start: usize,
    pub end: usize,
}

/// The value of an [`MdEvent`].
pub ghost struct EventView {
    pub shape: ShapeView,
    pub event: Event<'static>,
    pub start: nat,
    pub end: nat,
}

impl View for MdEvent {
    type V = EventView;

    open spec fn view(&self) -> EventView {
        EventView {
            shape: self.shape@,
            event: self.event,
            start: self.start as nat,
            end: self.end as nat,
        }
    }
}

/// The values of a run of events.
pub open spec fn views(events: Seq<MdEvent>) -> Seq<EventView> {
    events.map_values(|e: MdEvent| e@)
}

/// The values of a run of the parser's events.
pub open spec fn raw_views(events: Seq<RawEvent>) -> Seq<RawView> {
    events.map_values(|e: RawEvent| e@)
}

// ---------------------------------------------------------------------------
// Nesting
// ---------------------------------------------------------------------------

/// How much deeper the nesting is behind an event than before it.
pub open spec fn delta(e: EventView) -> int {
    match e.shape {
        ShapeView::Start(_) => 1,
        ShapeView::End(_) => -1,
        _ => 0,
    }
}

/// [`delta`] of each event of a run.
pub open spec fn deltas(events: Seq<EventView>) -> Seq<int> {
    events.map_values(|e: EventView| delta(e))
}

/// Where, from `j` on, `depth` open elements have all been closed; the length of
/// the run where they never are.
pub open spec fn close_index(deltas: Seq<int>, j: int, depth: int) -> int
    decreases deltas.len() - j,
{
    if j < 0 || j >= deltas.len() {
        deltas.len() as int
    } else if depth + deltas[j] == 0 {
        j
    } else {
        close_index(deltas, j + 1, depth + deltas[j])
    }
}

/// Elements are closed behind where they are opened.
pub proof fn lemma_close_index(deltas: Seq<int>, j: int, depth: int)
    requires
        0 <= j <= deltas.len(),
    ensures
        j <= close_index(deltas, j, depth) <= deltas.len(),
    decreases deltas.len() - j,
{
    if j < deltas.len() && depth + deltas[j] != 0 {
        lemma_close_index(deltas, j + 1, depth + deltas[j]);
    }
}

/// Where the element is closed that event number `i` opens.
pub open spec fn end_of(events: Seq<EventView>, i: int) -> int {
    close_index(deltas(events), i + 1, 1)
}

/// Whether an event begins a table row. The head of a table is one.
pub open spec fn begins_row(e: EventView) -> bool {
    e.shape == ShapeView::Start(TagView::TableHead) || e.shape == ShapeView::Start(
        TagView::TableRow,
    )
}

/// Whether every element that is opened is closed.
pub open spec fn is_balanced(events: Seq<EventView>) -> bool {
    forall|i: int|
        0 <= i < events.len() && delta(#[trigger] events[i]) == 1 ==> end_of(events, i)
            < events.len()
}

/// How deep the nesting is behind the first `n` events.
pub open spec fn nesting(deltas: Seq<int>, n: int) -> int
    decreases n,
{
    if n <= 0 {
        0
    } else {
        nesting(deltas, n - 1) + deltas[n - 1]
    }
}

/// Whether nothing is closed that was not opened: the nesting never falls below
/// zero.
pub open spec fn closes_only_what_is_open(events: Seq<EventView>) -> bool {
    forall|n: int| 0 <= n <= events.len() ==> #[trigger] nesting(deltas(events), n) >= 0
}

/// Whether no list item and no row begins inside a table row.
pub open spec fn has_flat_rows(events: Seq<EventView>) -> bool {
    forall|i: int, j: int|
        0 <= i < j < end_of(events, i) && begins_row(#[trigger] events[i]) ==> !begins_row(
            #[trigger] events[j],
        ) && events[j].shape != ShapeView::Start(TagView::Item)
}

/// Whether every table cell lies in one line of the source `s`.
pub open spec fn has_cells_in_lines(s: Seq<char>, events: Seq<EventView>) -> bool {
    forall|i: int, k: int|
        0 <= i < events.len() && events[i].shape == ShapeView::Start(TagView::TableCell)
            && #[trigger] events[i].start <= k < events[end_of(events, i)].end
            ==> #[trigger] s[k] != '\n'
}

/// What holds of the events of every document with the source `s`, and of what is
/// taken from them element by element.
pub open spec fn is_tidy(s: Seq<char>, events: Seq<EventView>) -> bool {
    &&& is_balanced(events)
    &&& has_flat_rows(events)
    &&& has_cells_in_lines(s, events)
}

// ---------------------------------------------------------------------------
// The parser
// ---------------------------------------------------------------------------

/// The events of `pulldown_cmark`'s parser for a Markdown text, with tables,
/// strikethrough, task lists and footnotes.
pub uninterp spec fn parsed_events(markdown: Seq<char>) -> Seq<RawView>;

/// The element that an event of `pulldown_cmark` opens.
pub uninterp spec fn opened_tag(event: Event<'static>) -> TagView;

/// The element that an event of `pulldown_cmark` closes.
pub uninterp spec fn closed_tag(event: Event<'static>) -> EndShape;

/// What an event of the parser says, with the element it opens or closes.
pub open spec fn shape_of(raw: RawView) -> ShapeView {
    match raw.body {
        RawBodyView::Start => ShapeView::Start(opened_tag(raw.event)),
        RawBodyView::End => ShapeView::End(closed_tag(raw.event)),
        RawBodyView::Text(t) => ShapeView::Text(t),
        RawBodyView::Code(t) => ShapeView::Code(t),
        RawBodyView::Html(t) => ShapeView::Html(t),
        RawBodyView::InlineHtml(t) => ShapeView::InlineHtml(t),
        RawBodyView::SoftBreak => ShapeView::SoftBreak,
        RawBodyView::HardBreak => ShapeView::HardBreak,
        RawBodyView::Other => ShapeView::Other,
    }
}

/// An event of the text `s` from character `skip` on, placed in `s`.
pub open spec fn placed(s: Seq<char>, skip: int, raw: RawView) -> EventView {
    EventView {
        shape: shape_of(raw),
        event: raw.event,
        start: (skip + char_index(s.skip(skip), raw.start)) as nat,
        end: (skip + char_index(s.skip(skip), raw.end)) as nat,
    }
}

/// Events of the text `s` from character `skip` on, placed in `s`.
pub open spec fn all_placed(s: Seq<char>, skip: int, raw: Seq<RawView>) -> Seq<EventView> {
    raw.map_values(|e: RawView| placed(s, skip, e))
}

/// `pulldown_cmark::Parser` with its offset iterator. The contract claims that the
/// events, what they say and their byte ranges follow from the text; that each
/// `Start` has its `End`, and each `End` its `Start`; that a table row holds cells alone, and those nothing but
/// inline elements; and that the range of a cell ends before its line does.
#[verifier::external_body]
fn parse_events(markdown: &str) -> (r: Vec<RawEvent>)
    ensures
        raw_views(r@) == parsed_events(markdown@),
        is_balanced(all_placed(markdown@, 0, raw_views(r@))),
        closes_only_what_is_open(all_placed(markdown@, 0, raw_views(r@))),
        has_flat_rows(all_placed(markdown@, 0, raw_views(r@))),
        has_cells_in_lines(markdown@, all_placed(markdown@, 0, raw_views(r@))),
{
    let opts = Options::ENABLE_TABLES | Options::ENABLE_STRIKETHROUGH | Options::ENABLE_TASKLISTS | Options::ENABLE_FOOTNOTES;
    let plain = |(event, range): (Event, Range<usize>)| {
        let body = match &event {
            Start(_) => RawBody::Start,
            End(_) => RawBody::End,
            Text(t) => RawBody::Text(t.to_string()),
            Code(t) => RawBody::Code(t.to_string()),
            Html(t) => RawBody::Html(t.to_string()),
            InlineHtml(t) => RawBody::InlineHtml(t.to_string()),
            SoftBreak => RawBody::SoftBreak, HardBreak => RawBody::HardBreak,
            _ => RawBody::Other,
        };
        RawEvent { body, event: event.into_static(), start: range.start, end: range.end }
    };
    Parser::new_ext(markdown, opts).into_offset_iter().map(plain).collect()
}

/// The variant of `pulldown_cmark::Tag` in a `Start` event. The contract claims
/// only that it follows from the event.
#[verifier::external_body]
fn tag_shape(event: &Event<'static>) -> (r: TagShape)
    ensures
        r@ == opened_tag(*event),
{
    let align = |a: &Alignment| match a {
        Alignment::None => Align::Standard, Alignment::Left => Align::Left,
        Alignment::Center => Align::Center, Alignment::Right => Align::Right,
    };
    match event {
        Start(Tag::Item) => TagShape::Item,
        Start(Tag::TableHead) => TagShape::TableHead,
        Start(Tag::TableRow) => TagShape::TableRow,
        Start(Tag::TableCell) => TagShape::TableCell,
        Start(Tag::Table(a)) => TagShape::Table(a.iter().map(align).collect()),
        Start(Tag::HtmlBlock) => TagShape::HtmlBlock,
        Start(Tag::Link { dest_url, .. }) => TagShape::Link(dest_url.to_string()),
        Start(Tag::Image { dest_url, .. }) => TagShape::Image(dest_url.to_string()),
        _ => TagShape::Other,
    }
}

/// The variant of `pulldown_cmark::TagEnd` in an `End` event. The contract claims
/// only that it follows from the event.
#[verifier::external_body]
fn end_shape(event: &Event<'static>) -> (r: EndShape)
    ensures
        r == closed_tag(*event),
{
    match event {
        End(TagEnd::Table) => EndShape::Table,
        End(TagEnd::HtmlBlock) => EndShape::HtmlBlock,
        _ => EndShape::Other,
    }
}

// ---------------------------------------------------------------------------
// Frontmatter
// ---------------------------------------------------------------------------

/// Where the first line of `s` ends, its line break included.
pub open spec fn line_stop(s: Seq<char>) -> int {
    match find_char(s, '\n') {
        Some(i) => i + 1,
        None => s.len() as int,
    }
}

/// The first line of `s` without the white space at its end.
pub open spec fn bare_line(s: Seq<char>) -> Seq<char> {
    trimmed_end(s.take(line_stop(s)))
}

/// Where, in the lines that follow an opening `---`, the block that it opens
/// ends: behind the first line `---` or `...`.
pub open spec fn closing_stop(s: Seq<char>) -> Option<int>
    decreases s.len(),
    via closing_stop_decreases
{
    if s.len() == 0 {
        None
    } else if bare_line(s) == "---"@ || bare_line(s) == "..."@ {
        Some(line_stop(s))
    } else {
        match closing_stop(s.skip(line_stop(s))) {
            Some(n) => Some(line_stop(s) + n),
            None => None,
        }
    }
}

#[via_fn]
proof fn closing_stop_decreases(s: Seq<char>) {
    lemma_find_char(s, '\n');
}

/// How many characters of `s` are YAML frontmatter: a first line `---` and all
/// that follows it up to and with the next line `---` or `...`.
pub open spec fn frontmatter_len(s: Seq<char>) -> int {
    if s.len() > 0 && bare_line(s) == "---"@ {
        match closing_stop(s.skip(line_stop(s))) {
            Some(n) => line_stop(s) + n,
            None => 0,
        }
    } else {
        0
    }
}

/// Frontmatter is a part of the text.
pub proof fn lemma_frontmatter(s: Seq<char>)
    ensures
        0 <= frontmatter_len(s) <= s.len(),
{
    lemma_find_char(s, '\n');
    if s.len() > 0 {
        lemma_closing_stop(s.skip(line_stop(s)));
    }
}

/// The end of a block of frontmatter lies in the text.
proof fn lemma_closing_stop(s: Seq<char>)
    ensures
        closing_stop(s) matches Some(n) ==> 0 <= n <= s.len(),
    decreases s.len(),
{
    lemma_find_char(s, '\n');
    if s.len() > 0 {
        lemma_closing_stop(s.skip(line_stop(s)));
    }
}

/// Where the first line of `s` ends, its line break included.
fn line_stop_of(s: &[char]) -> (r: usize)
    ensures
        r == line_stop(s@),
        r <= s@.len(),
        s@.len() > 0 ==> r > 0,
{
    let n: usize = s.len();
    match find_char_in(s, '\n') {
        Some(i) => i + 1,
        None => n,
    }
}

/// How many characters of `s` are YAML frontmatter.
pub fn frontmatter(s: &[char]) -> (r: usize)
    ensures
        r == frontmatter_len(s@),
        r <= s@.len(),
{
    let n: usize = s.len();
    if n == 0 {
        return 0;
    }
    let dashes = chars_of("---");
    let dots = chars_of("...");
    let first: usize = line_stop_of(s);
    let line = &s[0..first];
    assert(line@ =~= s@.take(first as int));
    if !same_chars(trim_end(line), dashes.as_slice()) {
        return 0;
    }
    let mut at: usize = first;
    while at < n
        invariant
            n == s@.len(),
            first <= at <= n,
            dashes@ == "---"@,
            dots@ == "..."@,
            bare_line(s@) == "---"@,
            first == line_stop(s@),
            n > 0,
            match closing_stop(s@.skip(at as int)) {
                Some(k) => frontmatter_len(s@) == at + k,
                None => frontmatter_len(s@) == 0,
            },
        decreases n - at,
    {
        let rest = &s[at..n];
        assert(rest@ =~= s@.skip(at as int));
        let stop: usize = line_stop_of(rest);
        let line = &rest[0..stop];
        assert(line@ =~= rest@.take(stop as int));
        let bare = trim_end(line);
        if same_chars(bare, dashes.as_slice()) || same_chars(bare, dots.as_slice()) {
            return at + stop;
        }
        assert(rest@.skip(stop as int) =~= s@.skip(at + stop));
        at = at + stop;
    }
    assert(s@.skip(at as int) =~= seq![]);
    0
}

// ---------------------------------------------------------------------------
// A document
// ---------------------------------------------------------------------------

/// The events of a Markdown text. Its frontmatter has none.
pub open spec fn document_events(s: Seq<char>) -> Seq<EventView> {
    let skip = frontmatter_len(s);
    all_placed(s, skip, parsed_events(s.skip(skip)))
}

/// Whether the events `all` are the events `own`, placed `skip` characters later.
spec fn are_shifted(own: Seq<EventView>, all: Seq<EventView>, skip: int) -> bool {
    &&& own.len() == all.len()
    &&& forall|i: int|
        0 <= i < own.len() ==> (#[trigger] all[i]).shape == own[i].shape && all[i].start
            == own[i].start + skip && all[i].end == own[i].end + skip
}

/// Events nest as they do elsewhere.
proof fn lemma_shifted_nest(own: Seq<EventView>, all: Seq<EventView>, skip: int)
    requires
        are_shifted(own, all, skip),
    ensures
        deltas(all) == deltas(own),
        is_balanced(own) ==> is_balanced(all),
{
    assert(deltas(all) =~= deltas(own));
    if is_balanced(own) {
        assert forall|i: int| 0 <= i < all.len() && delta(#[trigger] all[i]) == 1 implies end_of(
            all,
            i,
        ) < all.len() by {
            assert(delta(own[i]) == 1);
        }
    }
}

/// Rows are as flat as they are elsewhere.
proof fn lemma_shifted_rows(own: Seq<EventView>, all: Seq<EventView>, skip: int)
    requires
        are_shifted(own, all, skip),
        has_flat_rows(own),
    ensures
        has_flat_rows(all),
{
    lemma_shifted_nest(own, all, skip);
    assert forall|i: int, j: int|
        0 <= i < j < end_of(all, i) && begins_row(#[trigger] all[i]) implies !begins_row(
        #[trigger] all[j],
    ) && all[j].shape != ShapeView::Start(TagView::Item) by {
        if i < all.len() {
            lemma_close_index(deltas(all), i + 1, 1);
        }
        assert(begins_row(own[i]));
        assert(!begins_row(own[j]));
    }
}

/// Cells lie in a line as they do elsewhere.
proof fn lemma_shifted_cells(s: Seq<char>, own: Seq<EventView>, all: Seq<EventView>, skip: int)
    requires
        0 <= skip <= s.len(),
        are_shifted(own, all, skip),
        is_balanced(own),
        has_cells_in_lines(s.skip(skip), own),
        forall|i: int| 0 <= i < own.len() ==> (#[trigger] own[i]).end <= s.len() - skip,
    ensures
        has_cells_in_lines(s, all),
{
    let t = s.skip(skip);
    lemma_shifted_nest(own, all, skip);
    assert forall|i: int, k: int|
        0 <= i < all.len() && all[i].shape == ShapeView::Start(TagView::TableCell)
            && #[trigger] all[i].start <= k < all[end_of(all, i)].end implies #[trigger] s[k]
        != '\n' by {
        assert(delta(own[i]) == 1);
        lemma_close_index(deltas(own), i + 1, 1);
        let e = end_of(own, i);
        assert(all[e].end == own[e].end + skip);
        assert(own[i].start <= k - skip < own[e].end);
        assert(own[e].end <= s.len() - skip);
        assert(t[k - skip] != '\n');
    }
}

/// Events are tidy wherever the text that they come from is placed.
proof fn lemma_placed_tidy(s: Seq<char>, skip: int, raw: Seq<RawView>)
    requires
        0 <= skip <= s.len(),
        is_tidy(s.skip(skip), all_placed(s.skip(skip), 0, raw)),
        closes_only_what_is_open(all_placed(s.skip(skip), 0, raw)),
    ensures
        is_tidy(s, all_placed(s, skip, raw)),
        closes_only_what_is_open(all_placed(s, skip, raw)),
{
    let t = s.skip(skip);
    let own = all_placed(t, 0, raw);
    let all = all_placed(s, skip, raw);
    assert(t.skip(0) =~= t);
    assert(are_shifted(own, all, skip));
    assert forall|i: int| 0 <= i < own.len() implies (#[trigger] own[i]).end <= s.len() - skip by {
        lemma_char_index_bound(t, raw[i].end);
    }
    lemma_shifted_nest(own, all, skip);
    lemma_shifted_rows(own, all, skip);
    lemma_shifted_cells(s, own, all, skip);
}

/// What an event of the parser says, with the element it opens or closes.
fn shape_event(body: RawBody, event: &Event<'static>) -> (r: Shape)
    ensures
        r@ == shape_of(RawView { body: body@, event: *event, start: 0, end: 0 }),
{
    match body {
        RawBody::Start => Shape::Start(tag_shape(event)),
        RawBody::End => Shape::End(end_shape(event)),
        RawBody::Text(t) => Shape::Text(t),
        RawBody::Code(t) => Shape::Code(t),
        RawBody::Html(t) => Shape::Html(t),
        RawBody::InlineHtml(t) => Shape::InlineHtml(t),
        RawBody::SoftBreak => Shape::SoftBreak,
        RawBody::HardBreak => Shape::HardBreak,
        RawBody::Other => Shape::Other,
    }
}

/// The events of the Markdown text `s`. Positions lie in `s`.
pub fn read_events(s: &[char]) -> (r: Vec<MdEvent>)
    ensures
        views(r@) == document_events(s@),
        is_tidy(s@, document_events(s@)),
        closes_only_what_is_open(document_events(s@)),
        forall|i: int|
            0 <= i < r@.len() ==> (#[trigger] r@[i]).start <= s@.len() && r@[i].end <= s@.len(),
{
    let total: usize = s.len();
    let skip: usize = frontmatter(s);
    let body = &s[skip..total];
    assert(body@ =~= s@.skip(skip as int));
    let markdown = string_of(body);
    let size: usize = markdown.as_str().as_bytes().len();
    let offsets = byte_offsets(body);
    let raw = parse_events(markdown.as_str());
    let ghost all = raw@;
    let mut out: Vec<MdEvent> = Vec::new();
    for item in it: raw
        invariant
            it.seq() == all,
            body@ == s@.skip(skip as int),
            skip <= s@.len(),
            skip + body@.len() == s@.len(),
            s@.len() == total,
            offsets@.len() == body@.len() + 1,
            forall|i: int| 0 <= i <= body@.len() ==> #[trigger] offsets@[i] == byte_offset(body@, i),
            out@.len() == it.index(),
            forall|i: int|
                0 <= i < out@.len() ==> (#[trigger] out@[i])@ == placed(s@, skip as int, all[i]@)
                    && out@[i].start <= s@.len() && out@[i].end <= s@.len(),
    {
        proof {
            lemma_char_index_bound(body@, item.start as nat);
            lemma_char_index_bound(body@, item.end as nat);
        }
        let start: usize = skip + char_at_byte(body, &offsets, item.start);
        let end: usize = skip + char_at_byte(body, &offsets, item.end);
        let shape = shape_event(item.body, &item.event);
        out.push(MdEvent { shape, event: item.event, start, end });
    }
    proof {
        let parsed = parsed_events(s@.skip(skip as int));
        assert(raw_views(all) == parsed);
        assert(views(out@) =~= document_events(s@)) by {
            assert forall|i: int| 0 <= i < out@.len() implies views(out@)[i] == document_events(
                s@,
            )[i] by {
                assert(raw_views(all)[i] == all[i]@);
            }
        }
        lemma_placed_tidy(s@, skip as int, parsed);
    }
    out
}

// ---------------------------------------------------------------------------
// Laws
// ---------------------------------------------------------------------------

/// Whether `line` is a line of a text that goes on with `rest`: it ends at its one
/// line break, or has none and ends the text.
pub open spec fn is_line_before(line: Seq<char>, rest: Seq<char>) -> bool {
    &&& line.len() > 0
    &&& !line.drop_last().contains('\n')
    &&& line.last() == '\n' || rest.len() == 0
}

/// Whether `line` closes a block of frontmatter.
pub open spec fn closes_frontmatter(line: Seq<char>) -> bool {
    trimmed_end(line) == "---"@ || trimmed_end(line) == "..."@
}

/// Whether `lines` are lines of a text that goes on with `rest`, and the last of
/// them, and no other, closes a block of frontmatter.
pub open spec fn runs_to_closing(lines: Seq<Seq<char>>, rest: Seq<char>) -> bool {
    &&& lines.len() > 0
    &&& closes_frontmatter(lines.last())
    &&& is_line_before(lines.last(), rest)
    &&& forall|i: int|
        0 <= i < lines.len() - 1 ==> !closes_frontmatter(#[trigger] lines[i])
            && is_line_before(lines[i], seq![' '])
}

/// Where the lines up to the closing one end.
proof fn lemma_runs_to_closing(lines: Seq<Seq<char>>, rest: Seq<char>)
    requires
        runs_to_closing(lines, rest),
    ensures
        closing_stop(lines.flatten() + rest) == Some(lines.flatten().len() as int),
        lines.flatten().len() > 0,
    decreases lines.len(),
{
    let first = lines.first();
    let tail = lines.drop_first();
    let after = tail.flatten() + rest;
    let all = lines.flatten() + rest;
    assert(lines.flatten() == first + tail.flatten());
    assert(all =~= first + after);
    if lines.len() == 1 {
        assert(tail =~= seq![]);
        assert(tail.flatten() =~= seq![]);
        assert(after =~= rest);
        lemma_first_line(first, rest);
    } else {
        assert(first == lines[0]);
        lemma_first_line(first, after);
        assert(tail.last() == lines.last());
        assert forall|i: int| 0 <= i < tail.len() - 1 implies !closes_frontmatter(
            #[trigger] tail[i],
        ) && is_line_before(tail[i], seq![' ']) by {
            assert(tail[i] == lines[i + 1]);
        }
        lemma_runs_to_closing(tail, rest);
        assert(all.skip(first.len() as int) =~= after);
    }
}

/// The first line of a text that begins with a line is that line.
proof fn lemma_first_line(line: Seq<char>, rest: Seq<char>)
    requires
        is_line_before(line, rest),
    ensures
        line_stop(line + rest) == line.len(),
        bare_line(line + rest) == trimmed_end(line),
{
    let all = line + rest;
    let n = line.len() as int;
    lemma_find_char(all, '\n');
    if line.last() == '\n' {
        assert(all[n - 1] == '\n');
        let i = find_char(all, '\n')->Some_0;
        assert(all.contains('\n'));
        if i < n - 1 {
            assert(line.drop_last()[i] == '\n');
        }
        assert(i == n - 1) by {
            if i > n - 1 {
                assert(all.take(i)[n - 1] == '\n');
            }
        }
    } else {
        assert(all =~= line);
        if all.contains('\n') {
            let i = find_char(all, '\n')->Some_0;
            if i < n - 1 {
                assert(line.drop_last()[i] == '\n');
            }
        }
    }
    assert(all.take(n) =~= line);
}

/// A document's frontmatter is its first lines where the first of them is `---` and
/// the last is the next line `---` or `...`, whatever white space ends them. All of
/// it is left out, and what follows it is not.
pub proof fn law_frontmatter_is_left_out(
    opening: Seq<char>,
    lines: Seq<Seq<char>>,
    rest: Seq<char>,
)
    requires
        is_line_before(opening, seq![' ']),
        trimmed_end(opening) == "---"@,
        runs_to_closing(lines, rest),
    ensures
        frontmatter_len(opening + lines.flatten() + rest) == (opening + lines.flatten()).len(),
{
    let after = lines.flatten() + rest;
    lemma_runs_to_closing(lines, rest);
    assert(opening + lines.flatten() + rest =~= opening + after);
    lemma_first_line(opening, after);
    assert((opening + after).skip(opening.len() as int) =~= after);
}

/// A document that does not begin with a line `---` has no frontmatter.
pub proof fn law_frontmatter_is_opened_first(line: Seq<char>, rest: Seq<char>)
    requires
        is_line_before(line, rest),
        trimmed_end(line) != "---"@,
    ensures
        frontmatter_len(line + rest) == 0,
{
    lemma_first_line(line, rest);
}

/// Nor has one in which no line closes it.
pub proof fn law_frontmatter_is_closed(opening: Seq<char>, lines: Seq<Seq<char>>)
    requires
        is_line_before(opening, lines.flatten()),
        forall|i: int| 0 <= i < lines.len() ==> !closes_frontmatter(#[trigger] lines[i]),
        forall|i: int|
            0 <= i < lines.len() ==> is_line_before(
                #[trigger] lines[i],
                if i + 1 < lines.len() {
                    seq![' ']
                } else {
                    seq![]
                },
            ),
    ensures
        frontmatter_len(opening + lines.flatten()) == 0,
{
    lemma_first_line(opening, lines.flatten());
    lemma_not_closed(lines);
    assert((opening + lines.flatten()).skip(opening.len() as int) =~= lines.flatten());
}

/// Lines none of which closes a block of frontmatter.
proof fn lemma_not_closed(lines: Seq<Seq<char>>)
    requires
        forall|i: int| 0 <= i < lines.len() ==> !closes_frontmatter(#[trigger] lines[i]),
        forall|i: int|
            0 <= i < lines.len() ==> is_line_before(
                #[trigger] lines[i],
                if i + 1 < lines.len() {
                    seq![' ']
                } else {
                    seq![]
                },
            ),
    ensures
        closing_stop(lines.flatten()) is None,
    decreases lines.len(),
{
    if lines.len() > 0 {
        let first = lines.first();
        let tail = lines.drop_first();
        assert(first == lines[0]);
        assert(lines.flatten() == first + tail.flatten());
        assert forall|i: int| 0 <= i < tail.len() implies !closes_frontmatter(
            #[trigger] tail[i],
        ) && is_line_before(
            tail[i],
            if i + 1 < tail.len() {
                seq![' ']
            } else {
                seq![]
            },
        ) by {
            assert(tail[i] == lines[i + 1]);
        }
        if lines.len() == 1 {
            assert(tail.flatten() =~= seq![]);
        }
        lemma_first_line(first, tail.flatten());
        lemma_not_closed(tail);
        assert(lines.flatten().skip(first.len() as int) =~= tail.flatten());
    }
}

/// What stands behind the frontmatter reads as it would alone: there are the same
/// events, as many characters later as the frontmatter has.
pub proof fn law_frontmatter_changes_positions_only(s: Seq<char>, i: int)
    requires
        frontmatter_len(s.skip(frontmatter_len(s))) == 0,
        0 <= i < document_events(s).len(),
    ensures
        ({
            let skip = frontmatter_len(s);
            let own = document_events(s.skip(skip));
            &&& own.len() == document_events(s).len()
            &&& document_events(s)[i].shape == own[i].shape
            &&& document_events(s)[i].event == own[i].event
            &&& document_events(s)[i].start == skip + own[i].start
            &&& document_events(s)[i].end == skip + own[i].end
        }),
{
    lemma_frontmatter(s);
    let t = s.skip(frontmatter_len(s));
    assert(t.skip(0) =~= t);
}

/// An event lies where the parser says: where the ends of its range are the first
/// bytes of characters, those characters are its ends.
pub proof fn law_events_lie_where_they_were_found(s: Seq<char>, i: int, from: int, to: int)
    requires
        0 <= i < document_events(s).len(),
        frontmatter_len(s) <= from <= s.len(),
        frontmatter_len(s) <= to <= s.len(),
        ({
            let skip = frontmatter_len(s);
            let raw = parsed_events(s.skip(skip))[i];
            &&& raw.start == encode_utf8(s.subrange(skip, from)).len()
            &&& raw.end == encode_utf8(s.subrange(skip, to)).len()
        }),
    ensures
        document_events(s)[i].start == from,
        document_events(s)[i].end == to,
{
    lemma_frontmatter(s);
    let skip = frontmatter_len(s);
    let t = s.skip(skip);
    assert(t.take(from - skip) =~= s.subrange(skip, from));
    assert(t.take(to - skip) =~= s.subrange(skip, to));
    law_offsets_lead_back(t, from - skip);
    law_offsets_lead_back(t, to - skip);
}

/// An event says what the parser said: the same text in the same place of speech,
/// and the element that its own event opens or closes.
pub proof fn law_events_say_what_was_found(s: Seq<char>, i: int, t: Seq<char>)
    requires
        0 <= i < document_events(s).len(),
    ensures
        ({
            let raw = parsed_events(s.skip(frontmatter_len(s)))[i];
            let e = document_events(s)[i];
            &&& e.event == raw.event
            &&& e.shape == ShapeView::Text(t) <==> raw.body == RawBodyView::Text(t)
            &&& e.shape == ShapeView::Code(t) <==> raw.body == RawBodyView::Code(t)
            &&& e.shape == ShapeView::Html(t) <==> raw.body == RawBodyView::Html(t)
            &&& e.shape == ShapeView::InlineHtml(t) <==> raw.body == RawBodyView::InlineHtml(t)
            &&& e.shape is SoftBreak <==> raw.body is SoftBreak
            &&& e.shape is HardBreak <==> raw.body is HardBreak
            &&& raw.body is Start ==> e.shape == ShapeView::Start(opened_tag(raw.event))
            &&& raw.body is End ==> e.shape == ShapeView::End(closed_tag(raw.event))
        }),
{
}

} // verus!
