//! How the HTML of every document is put together.
use vstd::prelude::*;

use crate::assets::{LIVE_JS, REVIEW_JS, STYLE_CSS, VIEWER_JS};
use crate::html::{
    block_pieces, block_tag, blocks_pieces, leaf, nested_tag, pieces_from, row_html,
    visible_excerpt, visible_row_excerpt, OpenTag, Piece,
};
use crate::markdown::{Align, EndShape, EventView, ShapeView, TagView};
use crate::page::{
    body_tag, content_security_policy, head_text, live_section, page_text, static_section,
};
use crate::render::{last_line_of, source_hash, AnchorKind};
use crate::render_laws::{is_element, lemma_element};
use crate::sanitize::{html_of, sanitized};
use crate::text::{decimal, html_escaped, newlines, span, trimmed};

verus! {

/// Whether the tag `tag` stands for what has the source from `from` to `to`.
pub open spec fn stands_for(tag: OpenTag, s: Seq<char>, from: int, to: int) -> bool {
    &&& tag.hash == source_hash(trimmed(span(s, from, to)))
    &&& tag.line_start == 1 + newlines(s.take(from))
    &&& tag.line_end == last_line_of(s, from, to)
}

/// A document is written block by block. Each stands in a `div` that says which block
/// it is and shows what is visible of it, and nothing is written between the blocks.
pub proof fn law_blocks_are_written_one_by_one(
    s: Seq<char>,
    blocks: Seq<Seq<EventView>>,
    block: Seq<EventView>,
    local_images: bool,
)
    requires
        block.len() > 0,
    ensures
        blocks_pieces(s, blocks.push(block), local_images) == blocks_pieces(
            s,
            blocks,
            local_images,
        ) + block_pieces(s, block, local_images),
        blocks_pieces(s, seq![], local_images) == Seq::<Piece>::empty(),
        block_pieces(s, block, local_images) == seq![
            Piece::Open(block_tag(s, block, local_images)),
        ] + pieces_from(s, seq![], block, seq![], 0, local_images) + seq![
            Piece::Html("</div>\n"@),
        ],
        block_tag(s, block, local_images).kind == AnchorKind::Block,
        stands_for(
            block_tag(s, block, local_images),
            s,
            block[0].start as int,
            block.last().end as int,
        ),
        block_tag(s, block, local_images).excerpt == visible_excerpt(
            sanitized(block, local_images),
        ),
{
    assert(blocks.push(block).drop_last() =~= blocks);
}

/// Events that begin no anchor are gathered, and written together once an anchor
/// begins or nothing is left: all of them, made safe. Tables hand the alignments of
/// their columns to what is in them.
pub proof fn law_other_events_are_written_together(
    s: Seq<char>,
    run: Seq<EventView>,
    e: EventView,
    rest: Seq<EventView>,
    tables: Seq<Seq<Align>>,
    depth: nat,
    local_images: bool,
)
    requires
        e.shape != ShapeView::Start(TagView::Item),
        e.shape != ShapeView::Start(TagView::TableHead),
        e.shape != ShapeView::Start(TagView::TableRow),
    ensures
        pieces_from(s, run, seq![e] + rest, tables, depth, local_images) == pieces_from(
            s,
            run.push(e),
            rest,
            match e.shape {
                ShapeView::Start(TagView::Table(a)) => tables.push(a),
                ShapeView::End(EndShape::Table) => if tables.len() > 0 {
                    tables.drop_last()
                } else {
                    tables
                },
                _ => tables,
            },
            depth,
            local_images,
        ),
        pieces_from(s, seq![], seq![], tables, depth, local_images) == Seq::<Piece>::empty(),
        run.len() > 0 ==> pieces_from(s, run, seq![], tables, depth, local_images) == seq![
            Piece::Html(html_of(sanitized(run, local_images))),
        ],
{
    assert((seq![e] + rest)[0] == e);
    assert((seq![e] + rest).drop_first() =~= rest);
}

/// What was gathered of a run.
pub open spec fn gathered_html(run: Seq<EventView>, local_images: bool) -> Seq<Piece> {
    if run.len() == 0 {
        seq![]
    } else {
        seq![Piece::Html(html_of(sanitized(run, local_images)))]
    }
}

/// An item is written behind what was gathered before it: a tag that says which item
/// it is and shows what is visible of it, what is in it, and the end of the tag. Then
/// comes what follows. At depth 64 it is gathered like any other event.
pub proof fn law_items_are_written_whole(
    s: Seq<char>,
    run: Seq<EventView>,
    start: EventView,
    inner: Seq<EventView>,
    end: EventView,
    rest: Seq<EventView>,
    tables: Seq<Seq<Align>>,
    depth: nat,
    local_images: bool,
)
    requires
        is_element(start, inner, end),
        start.shape == ShapeView::Start(TagView::Item),
        depth < 64,
    ensures
        ({
            let events = seq![start] + inner + seq![end] + rest;
            let tag = nested_tag(s, events, AnchorKind::Item, local_images);
            let open = if tables.len() > 0 {
                seq![tables.last()]
            } else {
                seq![]
            };
            &&& pieces_from(s, run, events, tables, depth, local_images) == gathered_html(
                run,
                local_images,
            ) + seq![Piece::Open(tag)] + pieces_from(
                s,
                seq![],
                inner,
                open,
                depth + 1,
                local_images,
            ) + seq![Piece::Html("</li>\n"@)] + pieces_from(
                s,
                seq![],
                rest,
                tables,
                depth,
                local_images,
            )
            &&& tag.kind == AnchorKind::Item
            &&& stands_for(tag, s, start.start as int, end.end as int)
            &&& tag.excerpt == visible_excerpt(sanitized(inner, local_images))
        }),
{
    let events = seq![start] + inner + seq![end] + rest;
    lemma_element(start, inner, end, rest);
    assert(events[0] == start);
    let tag = nested_tag(s, events, AnchorKind::Item, local_images);
    let open: Seq<Seq<Align>> = if tables.len() > 0 {
        seq![tables.last()]
    } else {
        seq![]
    };
    let middle = pieces_from(s, seq![], inner, open, depth + 1, local_images);
    let tail = pieces_from(s, seq![], rest, tables, depth, local_images);
    assert(pieces_from(s, run, events, tables, depth, local_images) =~= gathered_html(
        run,
        local_images,
    ) + seq![Piece::Open(tag)] + middle + seq![Piece::Html("</li>\n"@)] + tail);
}

/// A row is written behind what was gathered before it: a tag that says which row it
/// is and shows what is visible of its cells, the cells, and the end of the tag. The
/// head of a table stands in a `thead`, and what follows it in a `tbody`.
pub proof fn law_rows_are_written_whole(
    s: Seq<char>,
    run: Seq<EventView>,
    start: EventView,
    inner: Seq<EventView>,
    end: EventView,
    rest: Seq<EventView>,
    tables: Seq<Seq<Align>>,
    depth: nat,
    local_images: bool,
)
    requires
        is_element(start, inner, end),
        start.shape == ShapeView::Start(TagView::TableHead) || start.shape == ShapeView::Start(
            TagView::TableRow,
        ),
        depth < 64,
    ensures
        ({
            let events = seq![start] + inner + seq![end] + rest;
            let head = start.shape == ShapeView::Start(TagView::TableHead);
            let tag = nested_tag(s, events, AnchorKind::Row, local_images);
            let columns: Option<Seq<Align>> = if tables.len() > 0 {
                Some(tables.last())
            } else {
                None
            };
            &&& pieces_from(s, run, events, tables, depth, local_images) == gathered_html(
                run,
                local_images,
            ) + seq![
                Piece::Html(
                    if head {
                        "<thead>"@
                    } else {
                        seq![]
                    },
                ),
                Piece::Open(tag),
                Piece::Html(row_html(inner, columns, head, 0, local_images)),
                Piece::Html("</tr>\n"@),
                Piece::Html(
                    if head {
                        "</thead><tbody>\n"@
                    } else {
                        seq![]
                    },
                ),
            ] + pieces_from(s, seq![], rest, tables, depth, local_images)
            &&& tag.kind == AnchorKind::Row
            &&& stands_for(tag, s, start.start as int, end.end as int)
            &&& tag.excerpt == visible_row_excerpt(sanitized(inner, local_images))
        }),
{
    let events = seq![start] + inner + seq![end] + rest;
    lemma_element(start, inner, end, rest);
    assert(events[0] == start);
    let columns: Option<Seq<Align>> = if tables.len() > 0 {
        Some(tables.last())
    } else {
        None
    };
    assert(gathered_html(run, local_images) =~= leaf(run, local_images));
}

// ---------------------------------------------------------------------------
// Pages
// ---------------------------------------------------------------------------

/// A page holds the body that it is made of as it is, and what stands before and
/// behind it does not depend on the body.
pub proof fn law_a_page_holds_its_body(
    title: Seq<char>,
    live: Option<u64>,
    allow_remote_images: bool,
    browser_mode: bool,
)
    ensures
        exists|before: Seq<char>, behind: Seq<char>| #[trigger]
            holds_every_body(before, behind, title, live, allow_remote_images, browser_mode),
{
    let none = Seq::<char>::empty();
    let head = head_text(title, allow_remote_images) + body_tag(
        live,
        browser_mode,
    );
    let (before, behind) = match live {
        Some(version) => (
            head + "<div class=\"layout\">\n<main class=\"markdown-body doc\">\n"@,
            live_section(none, version).skip(
                "<div class=\"layout\">\n<main class=\"markdown-body doc\">\n"@.len() as int,
            ) + "\n</body>\n</html>\n"@,
        ),
        None => (
            head + "<main class=\"markdown-body\">\n"@,
            "\n</main>"@ + "\n</body>\n</html>\n"@,
        ),
    };
    assert forall|body: Seq<char>| #[trigger]
        page_text(title, body, live, allow_remote_images, browser_mode) == before + body
            + behind by {
        match live {
            Some(version) => {
                let open = "<div class=\"layout\">\n<main class=\"markdown-body doc\">\n"@;
                let rest = live_section(none, version).skip(open.len() as int);
                assert(live_section(body, version) =~= open + body + rest);
                assert(page_text(title, body, live, allow_remote_images, browser_mode) =~= before
                    + body + behind);
            },
            None => {
                assert(page_text(title, body, live, allow_remote_images, browser_mode) =~= before
                    + body + behind);
            },
        }
    }
    assert(holds_every_body(before, behind, title, live, allow_remote_images, browser_mode));
}

/// Whether every page stands between `before` and `behind`, whatever its body.
pub open spec fn holds_every_body(
    before: Seq<char>,
    behind: Seq<char>,
    title: Seq<char>,
    live: Option<u64>,
    allow_remote_images: bool,
    browser_mode: bool,
) -> bool {
    forall|body: Seq<char>| #[trigger]
        page_text(title, body, live, allow_remote_images, browser_mode) == before + body + behind
}

/// Whether every page holds its title between `before` and `behind`, escaped.
pub open spec fn holds_every_title(
    before: Seq<char>,
    behind: Seq<char>,
    body: Seq<char>,
    live: Option<u64>,
    allow_remote_images: bool,
    browser_mode: bool,
) -> bool {
    &&& before.len() >= 7
    &&& before.skip(before.len() - 7) == "<title>"@
    &&& "</title>"@.is_prefix_of(behind)
    &&& forall|title: Seq<char>| #[trigger]
        page_text(title, body, live, allow_remote_images, browser_mode) == before + html_escaped(
            title,
        ) + behind
}

/// A page is titled with its title, escaped, and what stands before and behind it does
/// not depend on the title.
pub proof fn law_a_page_is_titled(
    body: Seq<char>,
    live: Option<u64>,
    allow_remote_images: bool,
    browser_mode: bool,
)
    ensures
        exists|before: Seq<char>, behind: Seq<char>| #[trigger]
            holds_every_title(before, behind, body, live, allow_remote_images, browser_mode),
{
    reveal_strlit("<title>");
    reveal_strlit("\">\n<title>");
    reveal_strlit("</title>");
    reveal_strlit("</title>\n<style>");
    let first = "<!doctype html>\n<html lang=\"en\">\n<head>\n<meta charset=\"utf-8\">\n<meta name=\"viewport\" content=\"width=device-width, initial-scale=1\">\n<meta http-equiv=\"Content-Security-Policy\" content=\""@;
    let before = first + content_security_policy(allow_remote_images)
        + "\">\n<title>"@;
    let section = match live {
        Some(version) => live_section(body, version),
        None => static_section(body),
    };
    let style = STYLE_CSS@;
    let behind = "</title>\n<style>"@ + style + "</style>\n</head>\n"@ + body_tag(
        live,
        browser_mode,
    ) + section + "\n</body>\n</html>\n"@;
    assert(before.skip(before.len() - 7) =~= "<title>"@);
    assert("</title>"@ =~= behind.subrange(0, 8));
    assert forall|title: Seq<char>| #[trigger]
        page_text(title, body, live, allow_remote_images, browser_mode) == before + html_escaped(
            title,
        ) + behind by {
        assert(page_text(title, body, live, allow_remote_images, browser_mode) =~= before
            + html_escaped(title) + behind);
    }
    assert(holds_every_title(before, behind, body, live, allow_remote_images, browser_mode));
}

/// Pages load nothing from other hosts, but for images where that is allowed: the
/// policy names what may be loaded and where from.
pub proof fn law_pages_load_from_where_they_may()
    ensures
        content_security_policy(false)
            == "default-src 'none'; style-src 'unsafe-inline'; script-src 'unsafe-inline'; img-src data: 'self'"@
            + "; connect-src 'self'; form-action 'none'"@,
        content_security_policy(true)
            == "default-src 'none'; style-src 'unsafe-inline'; script-src 'unsafe-inline'; img-src data: 'self'"@
            + " http: https:"@ + "; connect-src 'self'; form-action 'none'"@,
{
    reveal_strlit(
        "default-src 'none'; style-src 'unsafe-inline'; script-src 'unsafe-inline'; img-src data: 'self'",
    );
    reveal_strlit("; connect-src 'self'; form-action 'none'");
    reveal_strlit(" http: https:");
    reveal_strlit(
        "default-src 'none'; style-src 'unsafe-inline'; script-src 'unsafe-inline'; img-src data: 'self' http: https:; connect-src 'self'; form-action 'none'",
    );
    reveal_strlit(
        "default-src 'none'; style-src 'unsafe-inline'; script-src 'unsafe-inline'; img-src data: 'self'; connect-src 'self'; form-action 'none'",
    );
    assert(content_security_policy(false)
        =~= "default-src 'none'; style-src 'unsafe-inline'; script-src 'unsafe-inline'; img-src data: 'self'"@
        + "; connect-src 'self'; form-action 'none'"@);
    assert(content_security_policy(true)
        =~= "default-src 'none'; style-src 'unsafe-inline'; script-src 'unsafe-inline'; img-src data: 'self'"@
        + " http: https:"@ + "; connect-src 'self'; form-action 'none'"@);
}

/// Whether `part` stands somewhere in `text`.
pub open spec fn is_part_of(part: Seq<char>, text: Seq<char>) -> bool {
    exists|before: Seq<char>, behind: Seq<char>| text == #[trigger] (before + part + behind)
}

/// What stands in the first of two texts stands in both together, and so does the
/// second.
proof fn lemma_part_of_sum(part: Seq<char>, a: Seq<char>, b: Seq<char>)
    ensures
        is_part_of(part, a) ==> is_part_of(part, a + b),
        is_part_of(part, b) ==> is_part_of(part, a + b),
        is_part_of(a, a + b),
        is_part_of(b, a + b),
{
    let none = Seq::<char>::empty();
    if is_part_of(part, a) {
        let (x, y) = choose|x: Seq<char>, y: Seq<char>| a == #[trigger] (x + part + y);
        assert(a + b =~= x + part + (y + b));
    }
    if is_part_of(part, b) {
        let (x, y) = choose|x: Seq<char>, y: Seq<char>| b == #[trigger] (x + part + y);
        assert(a + b =~= (a + x) + part + y);
    }
    assert(a + b =~= none + a + b);
    assert(a + b =~= a + b + none);
}

/// The version stands between its own tags.
proof fn lemma_version_is_told(front: Seq<char>, version: u64)
    ensures
        is_part_of(
            "<script>window.__mdviewVersion=\""@ + decimal(version as nat) + "\";</script>"@,
            front
                + "\n</main>\n<div class=\"splitter\" id=\"splitter\"></div>\n<aside class=\"review\" id=\"review\"></aside>\n</div>\n<script>window.__mdviewVersion=\""@
                + decimal(version as nat) + "\";</script>\n<script>\n"@,
        ),
{
    reveal_strlit(
        "\n</main>\n<div class=\"splitter\" id=\"splitter\"></div>\n<aside class=\"review\" id=\"review\"></aside>\n</div>\n<script>window.__mdviewVersion=\"",
    );
    reveal_strlit("<script>window.__mdviewVersion=\"");
    reveal_strlit("\";</script>\n<script>\n");
    reveal_strlit("\";</script>");
    let opening =
        "\n</main>\n<div class=\"splitter\" id=\"splitter\"></div>\n<aside class=\"review\" id=\"review\"></aside>\n</div>\n<script>window.__mdviewVersion=\""@;
    let own = "<script>window.__mdviewVersion=\""@;
    let n = opening.len() - own.len();
    assert(opening.skip(n) =~= own);
    assert(opening =~= opening.take(n) + own);
    let closing = "\";</script>\n<script>\n"@;
    let done = "\";</script>"@;
    let m = done.len() as int;
    assert(closing.take(m) =~= done);
    assert(closing =~= done + closing.skip(m));
    let number = decimal(version as nat);
    assert(front + opening + number + closing =~= (front + opening.take(n)) + (own + number + done)
        + closing.skip(m));
}

/// What the section of a live page holds.
proof fn lemma_live_section(body: Seq<char>, version: u64)
    ensures
        ({
            let section = live_section(body, version);
            &&& is_part_of(
                "<script>window.__mdviewVersion=\""@ + decimal(version as nat) + "\";</script>"@,
                section,
            )
            &&& is_part_of(VIEWER_JS@, section)
            &&& is_part_of(LIVE_JS@, section)
            &&& is_part_of(REVIEW_JS@, section)
        }),
{
    let front = "<div class=\"layout\">\n<main class=\"markdown-body doc\">\n"@ + body;
    let told = "<script>window.__mdviewVersion=\""@ + decimal(version as nat) + "\";</script>"@;
    let next = "\n</script>\n<script>\n"@;
    let last = "\n</script>"@;
    lemma_version_is_told(front, version);
    let a = front
        + "\n</main>\n<div class=\"splitter\" id=\"splitter\"></div>\n<aside class=\"review\" id=\"review\"></aside>\n</div>\n<script>window.__mdviewVersion=\""@
        + decimal(version as nat) + "\";</script>\n<script>\n"@;
    let b = a + VIEWER_JS@;
    let c = b + next;
    let d = c + LIVE_JS@;
    let e = d + next;
    let f = e + REVIEW_JS@;
    lemma_part_of_sum(told, a, VIEWER_JS@);
    lemma_part_of_sum(told, b, next);
    lemma_part_of_sum(told, c, LIVE_JS@);
    lemma_part_of_sum(told, d, next);
    lemma_part_of_sum(told, e, REVIEW_JS@);
    lemma_part_of_sum(told, f, last);
    lemma_part_of_sum(VIEWER_JS@, b, next);
    lemma_part_of_sum(VIEWER_JS@, c, LIVE_JS@);
    lemma_part_of_sum(VIEWER_JS@, d, next);
    lemma_part_of_sum(VIEWER_JS@, e, REVIEW_JS@);
    lemma_part_of_sum(VIEWER_JS@, f, last);
    lemma_part_of_sum(LIVE_JS@, d, next);
    lemma_part_of_sum(LIVE_JS@, e, REVIEW_JS@);
    lemma_part_of_sum(LIVE_JS@, f, last);
    lemma_part_of_sum(REVIEW_JS@, f, last);
    assert(live_section(body, version) == f + last);
}

/// A live page tells its version, and holds the scripts. Every page holds its style.
pub proof fn law_live_pages_tell_their_version(
    title: Seq<char>,
    body: Seq<char>,
    version: u64,
    allow_remote_images: bool,
    browser_mode: bool,
)
    ensures
        ({
            let live = page_text(title, body, Some(version), allow_remote_images, browser_mode);
            let written = page_text(title, body, None, allow_remote_images, browser_mode);
            &&& is_part_of(
                "<script>window.__mdviewVersion=\""@ + decimal(version as nat) + "\";</script>"@,
                live,
            )
            &&& is_part_of(VIEWER_JS@, live)
            &&& is_part_of(LIVE_JS@, live)
            &&& is_part_of(REVIEW_JS@, live)
            &&& is_part_of(STYLE_CSS@, live)
            &&& is_part_of(STYLE_CSS@, written)
        }),
{
    let head = head_text(title, allow_remote_images);
    let tag = body_tag(Some(version), browser_mode);
    let plain = body_tag(None, browser_mode);
    let section = live_section(body, version);
    let end = "\n</body>\n</html>\n"@;
    let told = "<script>window.__mdviewVersion=\""@ + decimal(version as nat) + "\";</script>"@;
    lemma_live_section(body, version);
    lemma_part_of_sum(told, head + tag, section);
    lemma_part_of_sum(VIEWER_JS@, head + tag, section);
    lemma_part_of_sum(LIVE_JS@, head + tag, section);
    lemma_part_of_sum(REVIEW_JS@, head + tag, section);
    lemma_part_of_sum(told, head + tag + section, end);
    lemma_part_of_sum(VIEWER_JS@, head + tag + section, end);
    lemma_part_of_sum(LIVE_JS@, head + tag + section, end);
    lemma_part_of_sum(REVIEW_JS@, head + tag + section, end);
    let front = head_front(title, allow_remote_images);
    let close = "</style>\n</head>\n"@;
    assert(head == front + STYLE_CSS@ + close);
    lemma_part_of_sum(STYLE_CSS@, front, STYLE_CSS@);
    lemma_part_of_sum(STYLE_CSS@, front + STYLE_CSS@, close);
    lemma_part_of_sum(STYLE_CSS@, head, tag);
    lemma_part_of_sum(STYLE_CSS@, head + tag, section);
    lemma_part_of_sum(STYLE_CSS@, head + tag + section, end);
    lemma_part_of_sum(STYLE_CSS@, head, plain);
    lemma_part_of_sum(STYLE_CSS@, head + plain, static_section(body));
    lemma_part_of_sum(STYLE_CSS@, head + plain + static_section(body), end);
}

/// The head of a page up to its style.
spec fn head_front(title: Seq<char>, allow_remote_images: bool) -> Seq<char> {
    "<!doctype html>\n<html lang=\"en\">\n<head>\n<meta charset=\"utf-8\">\n<meta name=\"viewport\" content=\"width=device-width, initial-scale=1\">\n<meta http-equiv=\"Content-Security-Policy\" content=\""@
        + content_security_policy(allow_remote_images) + "\">\n<title>"@ + html_escaped(title)
        + "</title>\n<style>"@
}

/// A live page tells how it is shown. A page that is written to a file is the same
/// however that is.
pub proof fn law_live_pages_tell_how_they_are_shown(
    title: Seq<char>,
    body: Seq<char>,
    version: u64,
    allow_remote_images: bool,
)
    ensures
        is_part_of(
            "<body data-mode=\"browser\">\n"@,
            page_text(title, body, Some(version), allow_remote_images, true),
        ),
        is_part_of(
            "<body data-mode=\"native\">\n"@,
            page_text(title, body, Some(version), allow_remote_images, false),
        ),
        is_part_of("<body>\n"@, page_text(title, body, None, allow_remote_images, false)),
        page_text(title, body, None, allow_remote_images, false) == page_text(
            title,
            body,
            None,
            allow_remote_images,
            true,
        ),
        is_part_of(
            content_security_policy(allow_remote_images),
            page_text(title, body, Some(version), allow_remote_images, true),
        ),
{
    let head = head_text(title, allow_remote_images);
    let browser = "<body data-mode=\"browser\">\n"@;
    let native = "<body data-mode=\"native\">\n"@;
    let plain = "<body>\n"@;
    let section = live_section(body, version);
    let end = "\n</body>\n</html>\n"@;
    lemma_part_of_sum(browser, head, browser);
    lemma_part_of_sum(browser, head + browser, section);
    lemma_part_of_sum(browser, head + browser + section, end);
    lemma_part_of_sum(native, head, native);
    lemma_part_of_sum(native, head + native, section);
    lemma_part_of_sum(native, head + native + section, end);
    lemma_part_of_sum(plain, head, plain);
    lemma_part_of_sum(plain, head + plain, static_section(body));
    lemma_part_of_sum(plain, head + plain + static_section(body), end);
    let policy = content_security_policy(allow_remote_images);
    let start =
        "<!doctype html>\n<html lang=\"en\">\n<head>\n<meta charset=\"utf-8\">\n<meta name=\"viewport\" content=\"width=device-width, initial-scale=1\">\n<meta http-equiv=\"Content-Security-Policy\" content=\""@;
    let a = start + policy;
    let b = a + "\">\n<title>"@;
    let c = b + html_escaped(title);
    let d = c + "</title>\n<style>"@;
    let e = d + STYLE_CSS@;
    lemma_part_of_sum(policy, start, policy);
    lemma_part_of_sum(policy, a, "\">\n<title>"@);
    lemma_part_of_sum(policy, b, html_escaped(title));
    lemma_part_of_sum(policy, c, "</title>\n<style>"@);
    lemma_part_of_sum(policy, d, STYLE_CSS@);
    lemma_part_of_sum(policy, e, "</style>\n</head>\n"@);
    assert(head == e + "</style>\n</head>\n"@);
    lemma_part_of_sum(policy, head, browser);
    lemma_part_of_sum(policy, head + browser, section);
    lemma_part_of_sum(policy, head + browser + section, end);
}

} // verus!
