//! Making a run of events safe to render: raw HTML becomes inert text without
//! its comments, and link and image targets are held to an allow-list.
use pulldown_cmark::Event::{Start, Text};
use pulldown_cmark::{html, Tag};
use vstd::prelude::*;
use vstd::utf8::encode_utf8;

use crate::markdown::{views, EndShape, EventView, MdEvent, Shape, ShapeView, TagShape, TagView};
use crate::path::{undotted, without_dot_pieces};
use crate::percent::{kept, percent_byte, percent_encode, percent_encoded, Place};
use crate::text::{
    ascii_lower, chars_of, find, find_char, find_char_in, find_chars, has_prefix_str,
    is_word, law_trimming_takes_white_space_only, lemma_find, lemma_find_char,
    lemma_trimmed_twice, lemma_word, lower_chars, push_chars, same_chars, string_of,
    text_option, trim, trimmed, trimmed_start, white_space,
};

verus! {

// ---------------------------------------------------------------------------
// Comments
// ---------------------------------------------------------------------------

/// `s` without its `<!--...-->` comments. One that does not end takes the rest
/// of the text with it.
pub open spec fn without_comments(s: Seq<char>) -> Seq<char>
    decreases s.len(),
    via without_comments_decreases
{
    match find(s, "<!--"@) {
        None => s,
        Some(i) => {
            let inside = s.skip(i + 4);
            match find(inside, "-->"@) {
                None => s.take(i),
                Some(j) => s.take(i) + without_comments(inside.skip(j + 3)),
            }
        },
    }
}

#[via_fn]
proof fn without_comments_decreases(s: Seq<char>) {
    reveal_strlit("<!--");
    reveal_strlit("-->");
    lemma_find(s, "<!--"@);
    if let Some(i) = find(s, "<!--"@) {
        lemma_find(s.skip(i + 4), "-->"@);
    }
}

/// `s` without its `<!--...-->` comments.
pub fn strip_html_comments(s: &[char]) -> (r: String)
    ensures
        r@ == without_comments(s@),
{
    let open = chars_of("<!--");
    let close = chars_of("-->");
    let n: usize = s.len();
    let mut out = String::new();
    let mut at: usize = 0;
    proof {
        reveal_strlit("<!--");
        reveal_strlit("-->");
        assert(s@.skip(0) =~= s@);
        assert(out@ + without_comments(s@) =~= without_comments(s@));
    }
    loop
        invariant
            n == s@.len(),
            at <= n,
            open@ == "<!--"@,
            close@ == "-->"@,
            open@.len() == 4,
            close@.len() == 3,
            out@ + without_comments(s@.skip(at as int)) == without_comments(s@),
        decreases n - at,
    {
        let rest = &s[at..n];
        assert(rest@ =~= s@.skip(at as int));
        match find_chars(rest, open.as_slice()) {
            None => {
                push_chars(&mut out, rest);
                return out;
            },
            Some(i) => {
                let before = &rest[0..i];
                assert(before@ =~= rest@.take(i as int));
                let ghost kept = out@;
                push_chars(&mut out, before);
                let inside = &rest[i + 4..rest.len()];
                assert(inside@ =~= rest@.skip(i + 4));
                match find_chars(inside, close.as_slice()) {
                    None => {
                        return out;
                    },
                    Some(j) => {
                        let next: usize = at + i + 4 + j + 3;
                        proof {
                            let tail = inside@.skip(j + 3);
                            assert(tail =~= s@.skip(next as int));
                            assert(kept + (before@ + without_comments(tail)) =~= out@
                                + without_comments(tail));
                        }
                        at = next;
                    },
                }
            },
        }
    }
}

// ---------------------------------------------------------------------------
// Link and image targets
// ---------------------------------------------------------------------------

/// The length of the URL scheme that `target` begins with: what stands before
/// its first `:`, unless a `/`, `?` or `#` stands there too.
pub open spec fn scheme_len(target: Seq<char>) -> Option<int> {
    match find_char(target, ':') {
        None => None,
        Some(i) => {
            let before = target.take(i);
            if before.contains('/') || before.contains('?') || before.contains('#') {
                None
            } else {
                Some(i)
            }
        },
    }
}

/// The schemes that a target may have.
pub open spec fn allowed_scheme(scheme: Seq<char>) -> bool {
    let s = ascii_lower(scheme);
    s == "http"@ || s == "https"@ || s == "mailto"@
}

/// Whether a link or image may point at `dest`: a fragment of the page, a
/// relative reference, or a URL with an allowed scheme. A reference that begins
/// with `//` takes the page's scheme and is none of these.
pub open spec fn safe_target(dest: Seq<char>) -> bool {
    let t = trimmed(dest);
    ||| "#"@.is_prefix_of(t)
    ||| {
        &&& !"//"@.is_prefix_of(t)
        &&& match scheme_len(t) {
            None => true,
            Some(i) => allowed_scheme(t.take(i)),
        }
    }
}

/// `dest` without the white space round it, or `#` where it is not safe.
pub open spec fn sanitized_target(dest: Seq<char>) -> Seq<char> {
    if safe_target(dest) {
        trimmed(dest)
    } else {
        "#"@
    }
}

/// Whether `target` is a relative reference to another resource.
pub open spec fn local_target(target: Seq<char>) -> bool {
    target.len() > 0 && !"#"@.is_prefix_of(target) && scheme_len(target) is None
}

/// What the target of a link or an image becomes. An image that lies beside
/// the document is fetched from the asset route where `local_images` says so, by its
/// path without dots.
pub open spec fn rendered_target(dest: Seq<char>, image: bool, local_images: bool) -> Seq<char> {
    let t = sanitized_target(dest);
    if image && local_images && local_target(t) {
        "/asset?p="@ + percent_encoded(encode_utf8(undotted(t)), Place::Query)
    } else {
        t
    }
}

/// Whether `s` holds a `/`, a `?` or a `#`.
fn has_delimiter(s: &[char]) -> (r: bool)
    ensures
        r == (s@.contains('/') || s@.contains('?') || s@.contains('#')),
{
    let mut i: usize = 0;
    while i < s.len()
        invariant
            i <= s@.len(),
            forall|j: int| 0 <= j < i ==> s@[j] != '/' && s@[j] != '?' && s@[j] != '#',
        decreases s@.len() - i,
    {
        if s[i] == '/' || s[i] == '?' || s[i] == '#' {
            assert(s@.contains(s@[i as int]));
            return true;
        }
        i = i + 1;
    }
    false
}

/// The length of the URL scheme that `target` begins with.
fn scheme_of(target: &[char]) -> (r: Option<usize>)
    ensures
        match r {
            Some(i) => scheme_len(target@) == Some(i as int) && i < target@.len(),
            None => scheme_len(target@) is None,
        },
{
    match find_char_in(target, ':') {
        None => None,
        Some(i) => {
            let before = &target[0..i];
            assert(before@ =~= target@.take(i as int));
            if has_delimiter(before) {
                None
            } else {
                Some(i)
            }
        },
    }
}

/// Whether a link or image may point at `dest`.
pub fn is_safe_link_target(dest: &[char]) -> (r: bool)
    ensures
        r == safe_target(dest@),
{
    let t = trim(dest);
    if has_prefix_str(t, "#") {
        return true;
    }
    if has_prefix_str(t, "//") {
        return false;
    }
    match scheme_of(t) {
        None => true,
        Some(i) => {
            let before = &t[0..i];
            assert(before@ =~= t@.take(i as int));
            let scheme = lower_chars(before);
            same_chars(scheme.as_slice(), chars_of("http").as_slice()) || same_chars(
                scheme.as_slice(),
                chars_of("https").as_slice(),
            ) || same_chars(scheme.as_slice(), chars_of("mailto").as_slice())
        },
    }
}

/// What the target of a link or an image becomes.
pub fn sanitize_link_target(dest: &str, image: bool, local_images: bool) -> (r: String)
    ensures
        r@ == rendered_target(dest@, image, local_images),
{
    let dest = chars_of(dest);
    let fragment = chars_of("#");
    let target = if is_safe_link_target(dest.as_slice()) {
        trim(dest.as_slice())
    } else {
        fragment.as_slice()
    };
    if image && local_images && target.len() > 0 && !has_prefix_str(target, "#") && scheme_of(
        target,
    ).is_none() {
        let mut out = String::new();
        out.append("/asset?p=");
        let path = without_dot_pieces(target);
        let encoded = percent_encode(path.as_str(), Place::Query);
        out.append(encoded.as_str());
        assert(out@ =~= "/asset?p="@ + percent_encoded(encode_utf8(path@), Place::Query));
        out
    } else {
        string_of(target)
    }
}

// ---------------------------------------------------------------------------
// Events
// ---------------------------------------------------------------------------

/// An event that is safe to render.
pub enum CleanEvent<'e> {
    /// An event of the document as it is.
    Keep(&'e MdEvent),
    /// Text in place of raw HTML.
    Text(String),
    /// A link or image with the target that it is rendered with.
    Retarget(&'e MdEvent, String),
}

/// The value of a [`CleanEvent`].
pub ghost enum CleanView {
    Keep(EventView),
    Text(Seq<char>),
    Retarget(EventView, Seq<char>),
}

impl<'e> View for CleanEvent<'e> {
    type V = CleanView;

    open spec fn view(&self) -> CleanView {
        match self {
            CleanEvent::Keep(e) => CleanView::Keep((*e)@),
            CleanEvent::Text(t) => CleanView::Text(t@),
            CleanEvent::Retarget(e, t) => CleanView::Retarget((*e)@, t@),
        }
    }
}

/// The values of a run of clean events.
pub open spec fn clean_views<'e>(events: Seq<CleanEvent<'e>>) -> Seq<CleanView> {
    events.map_values(|e: CleanEvent<'e>| e@)
}

/// What the raw HTML `text` becomes: its text without comments, or nothing
/// where only white space is left.
pub open spec fn raw_html_events(text: Seq<char>) -> Seq<CleanView> {
    let stripped = without_comments(text);
    if trimmed(stripped).len() == 0 {
        seq![]
    } else {
        seq![CleanView::Text(stripped)]
    }
}

/// `events` made safe. `html` is the raw HTML seen so far in the block of raw
/// HTML that the run is in, if it is in one.
pub open spec fn sanitized_from(
    events: Seq<EventView>,
    html: Option<Seq<char>>,
    local_images: bool,
) -> Seq<CleanView>
    decreases events.len(),
{
    if events.len() == 0 {
        seq![]
    } else {
        let e = events[0];
        let rest = events.drop_first();
        match e.shape {
            ShapeView::Start(TagView::HtmlBlock) => seq![CleanView::Keep(e)] + sanitized_from(
                rest,
                Some(seq![]),
                local_images,
            ),
            ShapeView::End(EndShape::HtmlBlock) => (match html {
                Some(text) => raw_html_events(text),
                None => seq![],
            }) + seq![CleanView::Keep(e)] + sanitized_from(rest, None, local_images),
            ShapeView::Html(text) => match html {
                Some(before) => sanitized_from(rest, Some(before + text), local_images),
                None => raw_html_events(text) + sanitized_from(rest, None, local_images),
            },
            ShapeView::InlineHtml(text) => raw_html_events(text) + sanitized_from(
                rest,
                html,
                local_images,
            ),
            ShapeView::Start(TagView::Link(dest)) => seq![
                CleanView::Retarget(e, rendered_target(dest, false, local_images)),
            ] + sanitized_from(rest, html, local_images),
            ShapeView::Start(TagView::Image(dest)) => seq![
                CleanView::Retarget(e, rendered_target(dest, true, local_images)),
            ] + sanitized_from(rest, html, local_images),
            _ => seq![CleanView::Keep(e)] + sanitized_from(rest, html, local_images),
        }
    }
}

/// `events` made safe.
pub open spec fn sanitized(events: Seq<EventView>, local_images: bool) -> Seq<CleanView> {
    sanitized_from(events, None, local_images)
}

/// Appends what the raw HTML `text` becomes.
fn push_sanitized_raw_html<'e>(out: &mut Vec<CleanEvent<'e>>, text: &str)
    ensures
        clean_views(final(out)@) == clean_views(old(out)@) + raw_html_events(text@),
{
    let text = chars_of(text);
    let stripped = strip_html_comments(text.as_slice());
    let chars = chars_of(stripped.as_str());
    if trim(chars.as_slice()).len() == 0 {
        assert(clean_views(out@) =~= clean_views(old(out)@) + raw_html_events(text@));
        return;
    }
    out.push(CleanEvent::Text(stripped));
    assert(clean_views(out@) =~= clean_views(old(out)@) + raw_html_events(text@));
}

/// `events` made safe.
pub fn sanitize_events<'e>(events: &'e [MdEvent], local_images: bool) -> (r: Vec<CleanEvent<'e>>)
    ensures
        clean_views(r@) == sanitized(views(events@), local_images),
{
    let mut out: Vec<CleanEvent<'e>> = Vec::new();
    let mut html: Option<String> = None;
    let ghost all = views(events@);
    let mut i: usize = 0;
    proof {
        assert(all.skip(0) =~= all);
        assert(clean_views(out@) =~= seq![]);
        assert(clean_views(out@) + sanitized(all, local_images) =~= sanitized(all, local_images));
    }
    while i < events.len()
        invariant
            all == views(events@),
            i <= events@.len(),
            clean_views(out@) + sanitized_from(
                all.skip(i as int),
                text_option(html),
                local_images,
            ) == sanitized(all, local_images),
        decreases events@.len() - i,
    {
        let event = &events[i];
        let ghost before = clean_views(out@);
        let ghost rest = all.skip(i as int);
        let ghost html_before: Option<Seq<char>> = text_option(html);
        assert(rest[0] == event@);
        assert(rest.drop_first() =~= all.skip(i + 1));
        match &event.shape {
            Shape::Start(TagShape::HtmlBlock) => {
                html = Some(String::new());
                out.push(CleanEvent::Keep(event));
                assert(clean_views(out@) =~= before + seq![CleanView::Keep(event@)]);
            },
            Shape::End(EndShape::HtmlBlock) => {
                let ended = html.take();
                if let Some(text) = ended {
                    push_sanitized_raw_html(&mut out, text.as_str());
                }
                let ghost middle = clean_views(out@);
                out.push(CleanEvent::Keep(event));
                assert(clean_views(out@) =~= middle + seq![CleanView::Keep(event@)]);
            },
            Shape::Html(text) => {
                if html.is_some() {
                    let mut buffer = match html.take() {
                        Some(b) => b,
                        None => String::new(),
                    };
                    buffer.append(text.as_str());
                    html = Some(buffer);
                } else {
                    push_sanitized_raw_html(&mut out, text.as_str());
                }
            },
            Shape::InlineHtml(text) => {
                push_sanitized_raw_html(&mut out, text.as_str());
            },
            Shape::Start(TagShape::Link(dest)) => {
                let target = sanitize_link_target(dest.as_str(), false, local_images);
                let ghost t = target@;
                out.push(CleanEvent::Retarget(event, target));
                assert(clean_views(out@) =~= before + seq![CleanView::Retarget(event@, t)]);
            },
            Shape::Start(TagShape::Image(dest)) => {
                let target = sanitize_link_target(dest.as_str(), true, local_images);
                let ghost t = target@;
                out.push(CleanEvent::Retarget(event, target));
                assert(clean_views(out@) =~= before + seq![CleanView::Retarget(event@, t)]);
            },
            _ => {
                out.push(CleanEvent::Keep(event));
                assert(clean_views(out@) =~= before + seq![CleanView::Keep(event@)]);
            },
        }
        proof {
            let html_after: Option<Seq<char>> = text_option(html);
            let tail = sanitized_from(all.skip(i + 1), html_after, local_images);
            assert(clean_views(out@) + tail =~= before + sanitized_from(
                rest,
                html_before,
                local_images,
            ));
        }
        i = i + 1;
    }
    proof {
        assert(all.skip(i as int) =~= seq![]);
        assert(clean_views(out@) =~= sanitized(all, local_images));
    }
    out
}

// ---------------------------------------------------------------------------
// Rendering
// ---------------------------------------------------------------------------

/// The HTML that `pulldown_cmark` writes for a run of events.
pub uninterp spec fn html_of(events: Seq<CleanView>) -> Seq<char>;

/// `pulldown_cmark::html::push_html` on the events of the run, with the text and
/// the targets that the run has. The contract claims that what is appended
/// follows from the run alone, whatever stands in `out`.
#[verifier::external_body]
pub(crate) fn push_html<'e>(out: &mut String, events: &Vec<CleanEvent<'e>>)
    ensures
        final(out)@ == old(out)@ + html_of(clean_views(events@)),
{
    let outside = |e: &CleanEvent<'e>| match e {
        CleanEvent::Keep(k) => k.event.clone(),
        CleanEvent::Text(t) => Text(t.clone().into()),
        CleanEvent::Retarget(k, to) => match k.event.clone() {
            Start(Tag::Link { link_type, title, id, .. }) => {
                Start(Tag::Link { link_type, dest_url: to.clone().into(), title, id })
            }
            Start(Tag::Image { link_type, title, id, .. }) => {
                Start(Tag::Image { link_type, dest_url: to.clone().into(), title, id })
            }
            other => other,
        },
    };
    html::push_html(out, events.iter().map(outside));
}

// ---------------------------------------------------------------------------
// Laws
// ---------------------------------------------------------------------------

/// Whether an event puts no markup of the document's author on a page, and no
/// target but an allowed one.
pub open spec fn inert(e: CleanView) -> bool {
    match e {
        CleanView::Text(_) => true,
        CleanView::Retarget(_, target) => safe_target(target),
        CleanView::Keep(k) => match k.shape {
            ShapeView::Html(_) => false,
            ShapeView::InlineHtml(_) => false,
            ShapeView::Start(TagView::Link(_)) => false,
            ShapeView::Start(TagView::Image(_)) => false,
            _ => true,
        },
    }
}

/// Encoded text does not end in white space.
proof fn lemma_encoded_end(bytes: Seq<u8>)
    requires
        bytes.len() > 0,
    ensures
        percent_encoded(bytes, Place::Query).len() > 0,
        !white_space(percent_encoded(bytes, Place::Query).last()),
{
    let b = bytes.last();
    let piece = if kept(Place::Query, b) {
        seq![b as char]
    } else {
        percent_byte(b)
    };
    let all = percent_encoded(bytes, Place::Query);
    assert(all == percent_encoded(bytes.drop_last(), Place::Query) + piece);
    assert(all.last() == piece.last());
}

/// What a target becomes is safe.
proof fn lemma_rendered_target_is_safe(dest: Seq<char>, image: bool, local_images: bool)
    ensures
        safe_target(rendered_target(dest, image, local_images)),
{
    reveal_strlit("#");
    reveal_strlit("//");
    reveal_strlit("/asset?p=");
    lemma_trimmed_twice(dest);
    let t = sanitized_target(dest);
    if !safe_target(dest) {
        assert(t =~= seq!['#']);
        assert(trimmed_start(t) == t);
        assert(trimmed(t) == t);
        assert("#"@ =~= t.subrange(0, 1));
    }
    assert(safe_target(t));
    if image && local_images && local_target(t) {
        let bytes = encode_utf8(undotted(t));
        let encoded = percent_encoded(bytes, Place::Query);
        let r = "/asset?p="@ + encoded;
        assert(r[0] == '/' && r[1] == 'a');
        assert(trimmed_start(r) == r);
        if bytes.len() > 0 {
            lemma_encoded_end(bytes);
            assert(r.last() == encoded.last());
        } else {
            assert(encoded =~= seq![]);
            assert(r.last() == '=');
        }
        assert(trimmed(r) == r);
        assert(!"//"@.is_prefix_of(r)) by {
            if "//"@.is_prefix_of(r) {
                assert("//"@[1] == r.subrange(0, 2)[1]);
            }
        }
        lemma_find_char(r, ':');
        if let Some(i) = find_char(r, ':') {
            assert(r.take(i)[0] == '/');
            assert(r.take(i).contains('/'));
        }
        assert(scheme_len(r) is None);
    }
}

/// What a run is made into is inert.
proof fn lemma_sanitized_is_inert(
    events: Seq<EventView>,
    html: Option<Seq<char>>,
    local_images: bool,
)
    ensures
        forall|i: int|
            0 <= i < sanitized_from(events, html, local_images).len() ==> inert(
                #[trigger] sanitized_from(events, html, local_images)[i],
            ),
    decreases events.len(),
{
    if events.len() > 0 {
        let all = sanitized_from(events, html, local_images);
        let e = events[0];
        let rest = events.drop_first();
        let next: Option<Seq<char>> = match e.shape {
            ShapeView::Start(TagView::HtmlBlock) => Some(seq![]),
            ShapeView::End(EndShape::HtmlBlock) => None,
            ShapeView::Html(text) => match html {
                Some(before) => Some(before + text),
                None => None,
            },
            _ => html,
        };
        let tail = sanitized_from(rest, next, local_images);
        lemma_sanitized_is_inert(rest, next, local_images);
        let head = all.take(all.len() - tail.len());
        match e.shape {
            ShapeView::Start(TagView::Link(dest)) => {
                lemma_rendered_target_is_safe(dest, false, local_images);
            },
            ShapeView::Start(TagView::Image(dest)) => {
                lemma_rendered_target_is_safe(dest, true, local_images);
            },
            _ => {},
        }
        assert(all =~= head + tail);
        assert forall|i: int| 0 <= i < all.len() implies inert(#[trigger] all[i]) by {
            if i < head.len() {
                assert(all[i] == head[i]);
            } else {
                assert(all[i] == tail[i - head.len()]);
            }
        }
    }
}

/// A run that was made safe holds no raw HTML, and its links and images point at
/// fragments, relative references or URLs with an allowed scheme only. Where images
/// are not fetched from the asset route, each target is `#` or a safe one without
/// white space round it.
pub proof fn law_sanitized_events_are_inert(events: Seq<EventView>, local_images: bool)
    ensures
        forall|i: int|
            0 <= i < sanitized(events, local_images).len() ==> inert(
                #[trigger] sanitized(events, local_images)[i],
            ),
        !local_images ==> forall|i: int|
            0 <= i < sanitized(events, local_images).len() ==> is_settled(
                clean_shape(#[trigger] sanitized(events, local_images)[i]),
            ),
{
    lemma_sanitized_is_inert(events, None, local_images);
    lemma_sanitized_is_settled(events, None);
}

/// What an event says once it is made safe.
pub open spec fn clean_shape(e: CleanView) -> ShapeView {
    match e {
        CleanView::Keep(k) => k.shape,
        CleanView::Text(text) => ShapeView::Text(text),
        CleanView::Retarget(k, to) => match k.shape {
            ShapeView::Start(TagView::Image(_)) => ShapeView::Start(TagView::Image(to)),
            _ => ShapeView::Start(TagView::Link(to)),
        },
    }
}

/// Whether `events` say what `clean` says, event for event.
pub open spec fn say_the_same(events: Seq<EventView>, clean: Seq<CleanView>) -> bool {
    &&& events.len() == clean.len()
    &&& forall|i: int|
        0 <= i < clean.len() ==> (#[trigger] events[i]).shape == clean_shape(clean[i])
}

/// A target that was made safe stays as it is.
proof fn lemma_target_settles(dest: Seq<char>)
    ensures
        sanitized_target(sanitized_target(dest)) == sanitized_target(dest),
{
    reveal_strlit("#");
    lemma_trimmed_twice(dest);
    if !safe_target(dest) {
        let t = "#"@;
        assert(t =~= seq!['#']);
        assert(trimmed_start(t) == t);
        assert(trimmed(t) == t);
        assert("#"@ =~= t.subrange(0, 1));
    }
}

/// Whether an event of a run that was made safe is one that stays as it is: it is
/// no raw HTML, and its target, if it has one, is settled.
pub open spec fn is_settled(shape: ShapeView) -> bool {
    match shape {
        ShapeView::Html(_) => false,
        ShapeView::InlineHtml(_) => false,
        ShapeView::Start(TagView::Link(to)) => sanitized_target(to) == to,
        ShapeView::Start(TagView::Image(to)) => sanitized_target(to) == to,
        _ => true,
    }
}

/// What a run is made into is settled.
proof fn lemma_sanitized_is_settled(events: Seq<EventView>, html: Option<Seq<char>>)
    ensures
        forall|i: int|
            0 <= i < sanitized_from(events, html, false).len() ==> is_settled(
                clean_shape(#[trigger] sanitized_from(events, html, false)[i]),
            ),
    decreases events.len(),
{
    if events.len() > 0 {
        let all = sanitized_from(events, html, false);
        let e = events[0];
        let rest = events.drop_first();
        let next: Option<Seq<char>> = match e.shape {
            ShapeView::Start(TagView::HtmlBlock) => Some(seq![]),
            ShapeView::End(EndShape::HtmlBlock) => None,
            ShapeView::Html(text) => match html {
                Some(before) => Some(before + text),
                None => None,
            },
            _ => html,
        };
        let tail = sanitized_from(rest, next, false);
        lemma_sanitized_is_settled(rest, next);
        let head = all.take(all.len() - tail.len());
        match e.shape {
            ShapeView::Start(TagView::Link(dest)) => lemma_target_settles(dest),
            ShapeView::Start(TagView::Image(dest)) => lemma_target_settles(dest),
            _ => {},
        }
        assert(all =~= head + tail);
        assert forall|i: int| 0 <= i < all.len() implies is_settled(
            clean_shape(#[trigger] all[i]),
        ) by {
            if i < head.len() {
                assert(all[i] == head[i]);
            } else {
                assert(all[i] == tail[i - head.len()]);
            }
        }
    }
}

/// A settled run stays as it is.
proof fn lemma_settled_run_stays(events: Seq<EventView>, html: Option<Seq<char>>)
    requires
        forall|i: int| 0 <= i < events.len() ==> is_settled((#[trigger] events[i]).shape),
        html matches Some(text) ==> text.len() == 0,
    ensures
        say_the_same(events, sanitized_from(events, html, false)),
    decreases events.len(),
{
    if events.len() > 0 {
        let all = sanitized_from(events, html, false);
        let e = events[0];
        let rest = events.drop_first();
        let next: Option<Seq<char>> = match e.shape {
            ShapeView::Start(TagView::HtmlBlock) => Some(seq![]),
            ShapeView::End(EndShape::HtmlBlock) => None,
            _ => html,
        };
        let tail = sanitized_from(rest, next, false);
        assert forall|i: int| 0 <= i < rest.len() implies is_settled(
            (#[trigger] rest[i]).shape,
        ) by {
            assert(rest[i] == events[i + 1]);
        }
        lemma_settled_run_stays(rest, next);
        assert(is_settled(events[0].shape));
        if let Some(text) = html {
            reveal_strlit("<!--");
            lemma_find(text, "<!--"@);
            assert(without_comments(text).len() == 0);
            assert(trimmed(without_comments(text)).len() == 0);
        }
        assert(all.len() == 1 + tail.len());
        assert(clean_shape(all[0]) == e.shape);
        assert forall|i: int| 0 <= i < all.len() implies (#[trigger] events[i]).shape
            == clean_shape(all[i]) by {
            if i > 0 {
                assert(all[i] == tail[i - 1]);
                assert(rest[i - 1] == events[i]);
            }
        }
    }
}

/// A run that was made safe stays as it is when it is made safe again, event for
/// event and target for target.
pub proof fn law_a_second_pass_changes_nothing(events: Seq<EventView>, again: Seq<EventView>)
    requires
        say_the_same(again, sanitized(events, false)),
    ensures
        say_the_same(again, sanitized(again, false)),
{
    let clean = sanitized(events, false);
    lemma_sanitized_is_settled(events, None);
    assert forall|i: int| 0 <= i < again.len() implies is_settled((#[trigger] again[i]).shape) by {
        assert(is_settled(clean_shape(clean[i])));
    }
    lemma_settled_run_stays(again, None);
}

// ---------------------------------------------------------------------------
// What is shown of raw HTML
// ---------------------------------------------------------------------------

/// Whether `part` stands in `s` from character `i` on.
pub open spec fn stands_at(s: Seq<char>, part: Seq<char>, i: int) -> bool {
    0 <= i && i + part.len() <= s.len() && s.subrange(i, i + part.len()) == part
}

/// A text that opens no comment stays as it is.
pub proof fn law_text_without_comments_stays(s: Seq<char>)
    requires
        forall|i: int| !stands_at(s, "<!--"@, i),
    ensures
        without_comments(s) == s,
{
    lemma_find(s, "<!--"@);
    if let Some(i) = find(s, "<!--"@) {
        let rest = s.skip(i);
        assert(s.subrange(i, i + "<!--"@.len()) =~= rest.subrange(0, "<!--"@.len() as int));
        assert(stands_at(s, "<!--"@, i));
    }
}

/// What `find` finds is where a text stands first.
proof fn lemma_found_first(s: Seq<char>, part: Seq<char>, at: int)
    requires
        stands_at(s, part, at),
        forall|i: int| 0 <= i < at ==> !#[trigger] stands_at(s, part, i),
    ensures
        find(s, part) == Some(at),
{
    lemma_find(s, part);
    let tail = s.skip(at);
    assert(tail.subrange(0, part.len() as int) =~= s.subrange(at, at + part.len()));
    assert(part.is_prefix_of(tail));
    let i = find(s, part)->Some_0;
    let found = s.skip(i);
    assert(s.subrange(i, i + part.len()) =~= found.subrange(0, part.len() as int));
    assert(stands_at(s, part, i));
}

/// A comment is left out from `<!--` to the first `-->` behind it. What stands
/// before it stays, and what follows is treated in the same way.
pub proof fn law_a_comment_is_left_out(a: Seq<char>, comment: Seq<char>, rest: Seq<char>)
    requires
        forall|i: int|
            0 <= i < a.len() ==> !#[trigger] stands_at(
                a + "<!--"@ + comment + "-->"@ + rest,
                "<!--"@,
                i,
            ),
        forall|i: int|
            0 <= i < comment.len() ==> !#[trigger] stands_at(comment + "-->"@ + rest, "-->"@, i),
    ensures
        without_comments(a + "<!--"@ + comment + "-->"@ + rest) == a + without_comments(rest),
{
    reveal_strlit("<!--");
    reveal_strlit("-->");
    let s = a + "<!--"@ + comment + "-->"@ + rest;
    let n = a.len() as int;
    assert(s.subrange(n, n + 4) =~= "<!--"@);
    lemma_found_first(s, "<!--"@, n);
    let inside = s.skip(n + 4);
    assert(inside =~= comment + "-->"@ + rest);
    let m = comment.len() as int;
    assert(inside.subrange(m, m + 3) =~= "-->"@);
    lemma_found_first(inside, "-->"@, m);
    assert(s.take(n) =~= a);
    assert(inside.skip(m + 3) =~= rest);
}

/// A comment that does not end takes the rest of the text with it, and nothing
/// before it.
pub proof fn law_an_open_comment_takes_the_rest(a: Seq<char>, comment: Seq<char>)
    requires
        forall|i: int| 0 <= i < a.len() ==> !#[trigger] stands_at(a + "<!--"@ + comment, "<!--"@, i),
        forall|i: int| !stands_at(comment, "-->"@, i),
    ensures
        without_comments(a + "<!--"@ + comment) == a,
{
    reveal_strlit("<!--");
    reveal_strlit("-->");
    let s = a + "<!--"@ + comment;
    let n = a.len() as int;
    assert(s.subrange(n, n + 4) =~= "<!--"@);
    lemma_found_first(s, "<!--"@, n);
    let inside = s.skip(n + 4);
    assert(inside =~= comment);
    lemma_find(inside, "-->"@);
    if let Some(j) = find(inside, "-->"@) {
        let found = inside.skip(j);
        assert(comment.subrange(j, j + 3) =~= found.subrange(0, 3));
        assert(stands_at(comment, "-->"@, j));
    }
    assert(s.take(n) =~= a);
}

/// Whether `clean` is what is shown of the raw HTML `text`: the text without its
/// comments, or nothing where only white space is left.
pub open spec fn shows_raw_html(clean: Seq<CleanView>, text: Seq<char>) -> bool {
    if forall|i: int|
        0 <= i < without_comments(text).len() ==> white_space(#[trigger] without_comments(text)[i]) {
        clean.len() == 0
    } else {
        clean.len() == 1 && clean[0] == CleanView::Text(without_comments(text))
    }
}

/// What raw HTML becomes is what is to be shown of it.
proof fn lemma_raw_html_is_shown(text: Seq<char>)
    ensures
        shows_raw_html(raw_html_events(text), text),
{
    law_trimming_takes_white_space_only(without_comments(text));
}

/// Whether a run ends outside of every block of raw HTML: each one that begins in
/// it also ends in it.
pub open spec fn ends_outside(events: Seq<EventView>) -> bool {
    forall|i: int|
        0 <= i < events.len() && (#[trigger] events[i]).shape == ShapeView::Start(
            TagView::HtmlBlock,
        ) ==> exists|j: int|
            i < j < events.len() && (#[trigger] events[j]).shape == ShapeView::End(
                EndShape::HtmlBlock,
            )
}

/// The raw HTML that is gathered when a run ends.
spec fn gathered(events: Seq<EventView>, html: Option<Seq<char>>) -> Option<Seq<char>>
    decreases events.len(),
{
    if events.len() == 0 {
        html
    } else {
        let next: Option<Seq<char>> = match events[0].shape {
            ShapeView::Start(TagView::HtmlBlock) => Some(seq![]),
            ShapeView::End(EndShape::HtmlBlock) => None,
            ShapeView::Html(text) => match html {
                Some(before) => Some(before + text),
                None => None,
            },
            _ => html,
        };
        gathered(events.drop_first(), next)
    }
}

/// A run is made safe in two parts, one after the other.
proof fn lemma_sanitized_add(
    a: Seq<EventView>,
    b: Seq<EventView>,
    html: Option<Seq<char>>,
    local_images: bool,
)
    ensures
        sanitized_from(a + b, html, local_images) == sanitized_from(a, html, local_images)
            + sanitized_from(b, gathered(a, html), local_images),
    decreases a.len(),
{
    if a.len() == 0 {
        assert(a + b =~= b);
        assert(sanitized_from(a + b, html, local_images) =~= sanitized_from(a, html, local_images)
            + sanitized_from(b, gathered(a, html), local_images));
    } else {
        let e = a[0];
        let next: Option<Seq<char>> = match e.shape {
            ShapeView::Start(TagView::HtmlBlock) => Some(seq![]),
            ShapeView::End(EndShape::HtmlBlock) => None,
            ShapeView::Html(text) => match html {
                Some(before) => Some(before + text),
                None => None,
            },
            _ => html,
        };
        assert((a + b)[0] == e);
        assert((a + b).drop_first() =~= a.drop_first() + b);
        lemma_sanitized_add(a.drop_first(), b, next, local_images);
        assert(sanitized_from(a + b, html, local_images) =~= sanitized_from(a, html, local_images)
            + sanitized_from(b, gathered(a, html), local_images));
    }
}

/// Behind a run that ends outside of raw HTML nothing is gathered.
proof fn lemma_nothing_gathered(events: Seq<EventView>, html: Option<Seq<char>>)
    requires
        ends_outside(events),
        html is Some ==> exists|j: int|
            0 <= j < events.len() && (#[trigger] events[j]).shape == ShapeView::End(
                EndShape::HtmlBlock,
            ),
    ensures
        gathered(events, html) is None,
    decreases events.len(),
{
    if events.len() > 0 {
        let rest = events.drop_first();
        let end = ShapeView::End(EndShape::HtmlBlock);
        let next: Option<Seq<char>> = match events[0].shape {
            ShapeView::Start(TagView::HtmlBlock) => Some(seq![]),
            ShapeView::End(EndShape::HtmlBlock) => None,
            ShapeView::Html(text) => match html {
                Some(before) => Some(before + text),
                None => None,
            },
            _ => html,
        };
        assert forall|i: int|
            0 <= i < rest.len() && (#[trigger] rest[i]).shape == ShapeView::Start(
                TagView::HtmlBlock,
            ) implies exists|j: int| i < j < rest.len() && (#[trigger] rest[j]).shape == end by {
            assert(rest[i] == events[i + 1]);
            let j = choose|j: int|
                i + 1 < j < events.len() && (#[trigger] events[j]).shape == end;
            assert(rest[j - 1] == events[j]);
        }
        if next is Some {
            if events[0].shape == ShapeView::Start(TagView::HtmlBlock) {
                let j = choose|j: int| 0 < j < events.len() && (#[trigger] events[j]).shape == end;
                assert(rest[j - 1].shape == end);
            } else {
                let j = choose|j: int|
                    0 <= j < events.len() && (#[trigger] events[j]).shape == end;
                assert(j > 0);
                assert(rest[j - 1].shape == end);
            }
        }
        lemma_nothing_gathered(rest, next);
    }
}

/// Outside of blocks of raw HTML each event is made safe by itself: inline HTML
/// becomes the text that is shown of it, links and images get their targets, and
/// every other event is kept, all in their order.
pub proof fn law_events_are_made_safe_one_by_one(
    before: Seq<EventView>,
    e: EventView,
    after: Seq<EventView>,
    local_images: bool,
)
    requires
        ends_outside(before),
        e.shape != ShapeView::Start(TagView::HtmlBlock),
        e.shape != ShapeView::End(EndShape::HtmlBlock),
    ensures
        ({
            let own = sanitized(seq![e], local_images);
            &&& sanitized(before + seq![e] + after, local_images) == sanitized(before, local_images)
                + own + sanitized(after, local_images)
            &&& match e.shape {
                ShapeView::InlineHtml(text) => shows_raw_html(own, text),
                ShapeView::Html(text) => shows_raw_html(own, text),
                ShapeView::Start(TagView::Link(dest)) => own == seq![
                    CleanView::Retarget(e, rendered_target(dest, false, local_images)),
                ],
                ShapeView::Start(TagView::Image(dest)) => own == seq![
                    CleanView::Retarget(e, rendered_target(dest, true, local_images)),
                ],
                _ => own == seq![CleanView::Keep(e)],
            }
        }),
{
    let one = seq![e];
    let own = sanitized(one, local_images);
    let none = Seq::<EventView>::empty();
    lemma_nothing_gathered(before, None);
    lemma_sanitized_add(before, one + after, None, local_images);
    lemma_sanitized_add(one, after, None, local_images);
    assert(before + one + after =~= before + (one + after));
    assert(one.drop_first() =~= none);
    assert(gathered(none, None) is None);
    assert(gathered(one, None) is None);
    assert(sanitized_from(none, None, local_images) =~= seq![]);
    match e.shape {
        ShapeView::InlineHtml(text) => {
            lemma_raw_html_is_shown(text);
            assert(own =~= raw_html_events(text));
        },
        ShapeView::Html(text) => {
            lemma_raw_html_is_shown(text);
            assert(own =~= raw_html_events(text));
        },
        ShapeView::Start(TagView::Link(dest)) => {
            assert(own =~= seq![
                CleanView::Retarget(e, rendered_target(dest, false, local_images)),
            ]);
        },
        ShapeView::Start(TagView::Image(dest)) => {
            assert(own =~= seq![
                CleanView::Retarget(e, rendered_target(dest, true, local_images)),
            ]);
        },
        _ => {
            assert(own =~= seq![CleanView::Keep(e)]);
        },
    }
    assert(sanitized(before + one + after, local_images) =~= sanitized(before, local_images) + own
        + sanitized(after, local_images));
}

/// Raw HTML is gathered event by event.
proof fn lemma_html_is_gathered(
    htmls: Seq<EventView>,
    texts: Seq<Seq<char>>,
    before: Seq<char>,
    local_images: bool,
)
    requires
        htmls.len() == texts.len(),
        forall|i: int|
            0 <= i < htmls.len() ==> (#[trigger] htmls[i]).shape == ShapeView::Html(texts[i]),
    ensures
        gathered(htmls, Some(before)) == Some(before + texts.flatten()),
        sanitized_from(htmls, Some(before), local_images) == Seq::<CleanView>::empty(),
    decreases htmls.len(),
{
    if htmls.len() == 0 {
        assert(before + texts.flatten() =~= before);
    } else {
        let rest = htmls.drop_first();
        let more = texts.drop_first();
        assert(htmls[0].shape == ShapeView::Html(texts[0]));
        assert forall|i: int| 0 <= i < rest.len() implies (#[trigger] rest[i]).shape
            == ShapeView::Html(more[i]) by {
            assert(rest[i] == htmls[i + 1]);
            assert(more[i] == texts[i + 1]);
        }
        lemma_html_is_gathered(rest, more, before + texts[0], local_images);
        assert(texts.first() == texts[0]);
        assert((before + texts[0]) + more.flatten() =~= before + texts.flatten());
    }
}

/// A block of raw HTML is shown as a whole: as the texts of all events between its
/// start and its end, one behind the other, without the comments in them. What
/// stands round the block does not count.
pub proof fn law_a_block_of_raw_html_is_shown_whole(
    before: Seq<EventView>,
    start: EventView,
    htmls: Seq<EventView>,
    texts: Seq<Seq<char>>,
    end: EventView,
    after: Seq<EventView>,
    local_images: bool,
)
    requires
        ends_outside(before),
        start.shape == ShapeView::Start(TagView::HtmlBlock),
        end.shape == ShapeView::End(EndShape::HtmlBlock),
        htmls.len() == texts.len(),
        forall|i: int|
            0 <= i < htmls.len() ==> (#[trigger] htmls[i]).shape == ShapeView::Html(texts[i]),
    ensures
        exists|shown: Seq<CleanView>| #[trigger]
            shows_raw_html(shown, texts.flatten()) && sanitized(
                before + seq![start] + htmls + seq![end] + after,
                local_images,
            ) == sanitized(before, local_images) + seq![CleanView::Keep(start)] + shown + seq![
                CleanView::Keep(end),
            ] + sanitized(after, local_images),
{
    let text = texts.flatten();
    let shown = raw_html_events(text);
    let one = seq![start];
    let tail = seq![end] + after;
    let empty = Seq::<char>::empty();
    let none = Seq::<EventView>::empty();
    lemma_raw_html_is_shown(text);
    lemma_nothing_gathered(before, None);
    lemma_sanitized_add(before, one + (htmls + tail), None, local_images);
    lemma_sanitized_add(one, htmls + tail, None, local_images);
    assert(one.drop_first() =~= none);
    assert(gathered(none, Some(empty)) == Some(empty));
    assert(gathered(one, None) == Some(empty));
    assert(sanitized_from(none, Some(empty), local_images) =~= seq![]);
    assert(sanitized_from(one, None, local_images) =~= seq![CleanView::Keep(start)]);
    lemma_html_is_gathered(htmls, texts, empty, local_images);
    lemma_sanitized_add(htmls, tail, Some(empty), local_images);
    assert(empty + text =~= text);
    assert(tail[0] == end);
    assert(tail.drop_first() =~= after);
    let all = before + one + htmls + seq![end] + after;
    assert(all =~= before + (one + (htmls + tail)));
    assert(sanitized(all, local_images) =~= sanitized(before, local_images) + seq![
        CleanView::Keep(start),
    ] + shown + seq![CleanView::Keep(end)] + sanitized(after, local_images));
}

// ---------------------------------------------------------------------------
// What becomes of targets
// ---------------------------------------------------------------------------

/// A target without a `:` is kept, but for the white space round it, unless it
/// begins with `//`: relative links and fragments work as they are written. `t` is
/// the target without that white space. Images beside the document are left aside.
pub proof fn law_relative_targets_are_kept(dest: Seq<char>, local_images: bool)
    requires
        !trimmed(dest).contains(':'),
        !(trimmed(dest).len() >= 2 && trimmed(dest)[0] == '/' && trimmed(dest)[1] == '/'),
    ensures
        rendered_target(dest, false, local_images) == trimmed(dest),
        rendered_target(dest, true, false) == trimmed(dest),
{
    reveal_strlit("//");
    let t = trimmed(dest);
    lemma_find_char(t, ':');
    if "//"@.is_prefix_of(t) {
        assert("//"@[0] == t.subrange(0, 2)[0]);
        assert("//"@[1] == t.subrange(0, 2)[1]);
    }
}

/// A target that begins with `#` is kept, whatever follows.
pub proof fn law_fragments_are_kept(dest: Seq<char>, image: bool, local_images: bool)
    requires
        trimmed(dest).len() > 0,
        trimmed(dest)[0] == '#',
    ensures
        rendered_target(dest, image, local_images) == trimmed(dest),
{
    reveal_strlit("#");
    let t = trimmed(dest);
    assert("#"@ =~= t.subrange(0, 1));
}

/// A target that begins with `//` leads nowhere.
pub proof fn law_targets_on_other_hosts_are_cut(dest: Seq<char>, image: bool, local_images: bool)
    requires
        trimmed(dest).len() >= 2,
        trimmed(dest)[0] == '/',
        trimmed(dest)[1] == '/',
    ensures
        rendered_target(dest, image, local_images) == seq!['#'],
{
    reveal_strlit("#");
    reveal_strlit("//");
    let t = trimmed(dest);
    assert("//"@ =~= t.subrange(0, 2));
    if "#"@.is_prefix_of(t) {
        assert("#"@[0] == t.subrange(0, 1)[0]);
    }
    assert("#"@ =~= seq!['#']);
    assert("#"@ =~= seq!['#'].subrange(0, 1));
}

/// A target with a `:`, the first of which is character `i`, is kept where a `/`,
/// `?` or `#` stands before that, for then it is no scheme; and else where the scheme
/// is `http`, `https` or `mailto`, in letters of any case. Every other scheme leads
/// nowhere. Targets that begin with `#` or `//` are left aside.
pub proof fn law_targets_go_by_their_scheme(dest: Seq<char>, i: int, image: bool)
    requires
        0 <= i < trimmed(dest).len(),
        trimmed(dest)[i] == ':',
        forall|k: int| 0 <= k < i ==> trimmed(dest)[k] != ':',
        trimmed(dest)[0] != '#',
        !(trimmed(dest)[0] == '/' && trimmed(dest).len() > 1 && trimmed(dest)[1] == '/'),
    ensures
        ({
            let t = trimmed(dest);
            let scheme = t.take(i);
            let relative = exists|k: int|
                0 <= k < i && (#[trigger] t[k] == '/' || t[k] == '?' || t[k] == '#');
            rendered_target(dest, image, false) == if relative || is_word(scheme, "http"@)
                || is_word(scheme, "https"@) || is_word(scheme, "mailto"@) {
                t
            } else {
                seq!['#']
            }
        }),
{
    reveal_strlit("#");
    reveal_strlit("//");
    reveal_strlit("http");
    reveal_strlit("https");
    reveal_strlit("mailto");
    let t = trimmed(dest);
    let scheme = t.take(i);
    lemma_find_char(t, ':');
    assert(t.contains(':'));
    assert(find_char(t, ':') == Some(i));
    lemma_word(scheme, "http"@);
    lemma_word(scheme, "https"@);
    lemma_word(scheme, "mailto"@);
    assert("#"@ =~= seq!['#']);
    if "#"@.is_prefix_of(t) {
        assert("#"@[0] == t.subrange(0, 1)[0]);
    }
    if "//"@.is_prefix_of(t) {
        assert("//"@[0] == t.subrange(0, 2)[0]);
        assert("//"@[1] == t.subrange(0, 2)[1]);
    }
    let relative = exists|k: int|
        0 <= k < i && (#[trigger] t[k] == '/' || t[k] == '?' || t[k] == '#');
    if relative {
        let k = choose|k: int|
            0 <= k < i && (#[trigger] t[k] == '/' || t[k] == '?' || t[k] == '#');
        assert(scheme[k] == t[k]);
        assert(scheme.contains(t[k]));
    } else {
        assert(!scheme.contains('/') && !scheme.contains('?') && !scheme.contains('#')) by {
            assert forall|k: int| 0 <= k < scheme.len() implies scheme[k] != '/' && scheme[k] != '?'
                && scheme[k] != '#' by {
                assert(scheme[k] == t[k]);
            }
        }
    }
}

/// An image that has no scheme, is no fragment and does not begin with `//` lies
/// beside the document, and is named by the target without the white space round it.
pub proof fn law_images_without_a_scheme_are_local(dest: Seq<char>)
    requires
        trimmed(dest).len() > 0,
        trimmed(dest)[0] != '#',
        !(trimmed(dest)[0] == '/' && trimmed(dest).len() > 1 && trimmed(dest)[1] == '/'),
        forall|i: int|
            0 <= i < trimmed(dest).len() && #[trigger] trimmed(dest)[i] == ':' ==> exists|k: int|
                0 <= k < i && (#[trigger] trimmed(dest)[k] == '/' || trimmed(dest)[k] == '?'
                    || trimmed(dest)[k] == '#'),
    ensures
        local_target(sanitized_target(dest)),
        sanitized_target(dest) == trimmed(dest),
{
    reveal_strlit("#");
    reveal_strlit("//");
    let t = trimmed(dest);
    lemma_find_char(t, ':');
    if "#"@.is_prefix_of(t) {
        assert("#"@[0] == t.subrange(0, 1)[0]);
    }
    if "//"@.is_prefix_of(t) {
        assert("//"@[0] == t.subrange(0, 2)[0]);
        assert("//"@[1] == t.subrange(0, 2)[1]);
    }
    if let Some(i) = find_char(t, ':') {
        let k = choose|k: int|
            0 <= k < i && (#[trigger] t[k] == '/' || t[k] == '?' || t[k] == '#');
        assert(t.take(i)[k] == t[k]);
        assert(t.take(i).contains(t[k]));
    }
}

/// An image with a scheme is fetched from where it says, never from the asset route.
pub proof fn law_images_with_a_scheme_are_remote(dest: Seq<char>, i: int)
    requires
        0 <= i < trimmed(dest).len(),
        trimmed(dest)[i] == ':',
        forall|k: int|
            0 <= k < i ==> #[trigger] trimmed(dest)[k] != ':' && trimmed(dest)[k] != '/'
                && trimmed(dest)[k] != '?' && trimmed(dest)[k] != '#',
    ensures
        rendered_target(dest, true, true) == rendered_target(dest, true, false),
{
    reveal_strlit("#");
    let t = trimmed(dest);
    lemma_find_char(t, ':');
    assert(t.contains(':'));
    assert(find_char(t, ':') == Some(i));
    let before = t.take(i);
    assert forall|k: int| 0 <= k < before.len() implies before[k] != '/' && before[k] != '?'
        && before[k] != '#' by {
        assert(before[k] == t[k]);
    }
    assert("#"@ =~= seq!['#']);
    assert("#"@ =~= seq!['#'].subrange(0, 1));
}

} // verus!
