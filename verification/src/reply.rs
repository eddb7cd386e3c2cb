//! Replies to requests, whatever carries them.
use vstd::prelude::*;
use vstd::utf8::encode_utf8;

use crate::json::{compact, encode, member_views, object, push_member, text, Json, JsonView};
use crate::text::{ascii_lower, chars_of, lower_chars, same_chars};

verus! {

/// A reply: its status, its content type, further headers and its body.
#[derive(Debug, Clone, PartialEq, Eq)]
pub struct Reply {
    pub status: u16,
    pub content_type: &'static str,
    pub headers: Vec<(&'static str, String)>,
    pub body: Vec<u8>,
}

/// The value of a [`Reply`].
pub ghost struct ReplyView {
    pub status: u16,
    pub content_type: Seq<char>,
    pub headers: Seq<(Seq<char>, Seq<char>)>,
    pub body: Seq<u8>,
}

/// The values of a list of headers.
pub open spec fn header_views(headers: Seq<(&'static str, String)>) -> Seq<(Seq<char>, Seq<char>)> {
    headers.map_values(|h: (&'static str, String)| (h.0@, h.1@))
}

impl View for Reply {
    type V = ReplyView;

    open spec fn view(&self) -> ReplyView {
        ReplyView {
            status: self.status,
            content_type: self.content_type@,
            headers: header_views(self.headers@),
            body: self.body@,
        }
    }
}

impl ReplyView {
    /// The reply with one more header.
    pub open spec fn with_header(self, name: Seq<char>, value: Seq<char>) -> ReplyView {
        ReplyView { headers: self.headers.push((name, value)), ..self }
    }
}

/// A reply with HTML.
pub open spec fn html_reply(status: u16, body: Seq<char>) -> ReplyView {
    ReplyView {
        status,
        content_type: "text/html; charset=utf-8"@,
        headers: seq![],
        body: encode_utf8(body),
    }
}

/// A reply with plain text.
pub open spec fn text_reply(status: u16, body: Seq<char>) -> ReplyView {
    ReplyView {
        status,
        content_type: "text/plain; charset=utf-8"@,
        headers: seq![],
        body: encode_utf8(body),
    }
}

/// A reply with JSON.
pub open spec fn json_reply(status: u16, value: JsonView) -> ReplyView {
    ReplyView {
        status,
        content_type: "application/json; charset=utf-8"@,
        headers: seq![],
        body: compact(value),
    }
}

/// A reply that says what went wrong.
pub open spec fn error_reply(status: u16, message: Seq<char>) -> ReplyView {
    json_reply(status, JsonView::Object(seq![("error"@, JsonView::Text(message))]))
}

/// A reply with the content type `content_type`.
pub open spec fn typed_reply(content_type: Seq<char>, body: Seq<u8>) -> ReplyView {
    ReplyView { status: 200, content_type, headers: seq![], body }
}

impl Reply {
    /// A reply with HTML.
    pub fn html(status: u16, body: &str) -> (r: Reply)
        ensures
            r@ == html_reply(status, body@),
    {
        let r = Reply {
            status,
            content_type: "text/html; charset=utf-8",
            headers: Vec::new(),
            body: body.as_bytes_vec(),
        };
        assert(r@.headers =~= seq![]);
        r
    }

    /// A reply with plain text.
    pub fn text(status: u16, body: &str) -> (r: Reply)
        ensures
            r@ == text_reply(status, body@),
    {
        let r = Reply {
            status,
            content_type: "text/plain; charset=utf-8",
            headers: Vec::new(),
            body: body.as_bytes_vec(),
        };
        assert(r@.headers =~= seq![]);
        r
    }

    /// A reply with JSON.
    pub fn json(status: u16, value: &Json) -> (r: Reply)
        ensures
            r@ == json_reply(status, value@),
    {
        let r = Reply {
            status,
            content_type: "application/json; charset=utf-8",
            headers: Vec::new(),
            body: encode(value),
        };
        assert(r@.headers =~= seq![]);
        r
    }

    /// A reply that says what went wrong.
    pub fn error(status: u16, message: &str) -> (r: Reply)
        ensures
            r@ == error_reply(status, message@),
    {
        let mut members: Vec<(String, Json)> = Vec::new();
        assert(member_views(members@) =~= seq![]);
        push_member(&mut members, "error", text(message));
        assert(member_views(members@) =~= seq![("error"@, JsonView::Text(message@))]);
        Reply::json(status, &object(members))
    }

    /// A reply with the content type `content_type`.
    pub fn typed(content_type: &'static str, body: Vec<u8>) -> (r: Reply)
        ensures
            r@ == typed_reply(content_type@, body@),
    {
        let r = Reply { status: 200, content_type, headers: Vec::new(), body };
        assert(r@.headers =~= seq![]);
        r
    }

    /// The reply with one more header.
    pub fn with_header(self, name: &'static str, value: &str) -> (r: Reply)
        ensures
            r@ == self@.with_header(name@, value@),
    {
        let mut headers = self.headers;
        let ghost before = header_views(headers@);
        headers.push((name, value.to_owned()));
        assert(header_views(headers@) =~= before.push((name@, value@)));
        Reply { status: self.status, content_type: self.content_type, headers, body: self.body }
    }
}

/// The values of the headers of a request.
pub open spec fn request_header_views(headers: Seq<(String, String)>) -> Seq<
    (Seq<char>, Seq<char>),
> {
    headers.map_values(|h: (String, String)| (h.0@, h.1@))
}

/// The value of the first header, from number `i` on, with the name `name`. The
/// case of ASCII letters does not count.
pub open spec fn header_of(
    headers: Seq<(Seq<char>, Seq<char>)>,
    name: Seq<char>,
    i: int,
) -> Option<Seq<char>>
    decreases headers.len() - i,
{
    if i < 0 || i >= headers.len() {
        None
    } else if ascii_lower(headers[i].0) == ascii_lower(name) {
        Some(headers[i].1)
    } else {
        header_of(headers, name, i + 1)
    }
}

/// The value of the first header with the name `name`.
pub fn header_value<'a>(headers: &'a [(String, String)], name: &str) -> (r: Option<&'a str>)
    ensures
        match r {
            Some(v) => header_of(request_header_views(headers@), name@, 0) == Some(v@),
            None => header_of(request_header_views(headers@), name@, 0) is None,
        },
{
    let ghost all = request_header_views(headers@);
    let wanted = chars_of(name);
    let wanted = lower_chars(wanted.as_slice());
    let mut i: usize = 0;
    while i < headers.len()
        invariant
            all == request_header_views(headers@),
            wanted@ == ascii_lower(name@),
            i <= headers@.len(),
            header_of(all, name@, 0) == header_of(all, name@, i as int),
        decreases headers@.len() - i,
    {
        assert(all[i as int] == (headers@[i as int].0@, headers@[i as int].1@));
        let key = chars_of(headers[i].0.as_str());
        if same_chars(lower_chars(key.as_slice()).as_slice(), wanted.as_slice()) {
            return Some(headers[i].1.as_str());
        }
        i = i + 1;
    }
    None
}

/// The value of a header is that of the first with its name, whatever the case of the
/// letters in it.
pub proof fn law_the_first_header_counts(
    headers: Seq<(Seq<char>, Seq<char>)>,
    name: Seq<char>,
    from: int,
    i: int,
)
    requires
        0 <= from <= i <= headers.len(),
        forall|k: int|
            from <= k < i ==> ascii_lower((#[trigger] headers[k]).0) != ascii_lower(name),
    ensures
        i < headers.len() && ascii_lower(headers[i].0) == ascii_lower(name) ==> header_of(
            headers,
            name,
            from,
        ) == Some(headers[i].1),
        i == headers.len() ==> header_of(headers, name, from) is None,
    decreases i - from,
{
    if from < i {
        assert(ascii_lower(headers[from].0) != ascii_lower(name));
        law_the_first_header_counts(headers, name, from + 1, i);
    }
}

/// Replies carry the status and the body that they are made with, and say what they
/// are.
pub proof fn law_replies_say_what_they_are(status: u16, text: Seq<char>, value: JsonView)
    ensures
        html_reply(status, text).status == status,
        html_reply(status, text).body == encode_utf8(text),
        html_reply(status, text).content_type == "text/html; charset=utf-8"@,
        text_reply(status, text).status == status,
        text_reply(status, text).body == encode_utf8(text),
        text_reply(status, text).content_type == "text/plain; charset=utf-8"@,
        json_reply(status, value).status == status,
        json_reply(status, value).body == compact(value),
        json_reply(status, value).content_type == "application/json; charset=utf-8"@,
        error_reply(status, text) == json_reply(
            status,
            JsonView::Object(seq![("error"@, JsonView::Text(text))]),
        ),
{
}

} // verus!
