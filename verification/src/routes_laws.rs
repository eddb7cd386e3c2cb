//! What every request is answered with.
use vstd::prelude::*;
use vstd::utf8::{decode_utf8, encode_utf8, valid_utf8};

use crate::html::{document_pieces, text_of};
use crate::json::{compact, JsonView};
use crate::page::page_text;
use crate::path::{
    components, is_file_name, is_name, is_plain_on, joined_path, law_a_name_in_a_directory,
    law_a_path_grows_by_a_component, law_paths_without_a_name, names, path_within, slashed,
};
use crate::percent::{law_decoding_undoes_encoding, percent_decoded, percent_encoded, Place};
use crate::render::document_anchors;
use crate::reply::header_of;
use crate::review::{export_file, export_text, loaded, ReviewDoc, SidecarRead};
use crate::review_laws::{has_member, has_text, lemma_has_member};
use crate::routes::{
    answered, asset_param, asset_type, body_reply, dir_name, document_dir, fragment_char,
    fragment_escaped, guarded, handled, image_outcome, line_json, nav_reply, new_review_step,
    ok_reply, open_outcome, param_of, query_of, relative_path, reloaded_reply, resumed,
    review_reply, route_of, tree_reply, window_root, written_reply, ActionView, Answer, FileInfo,
    NavDirection, NeedView, PendingView, RequestView, StepView, ViewingView,
};
use crate::text::{ascii_lower, decimal, find_char, joined, lemma_find_char, lemma_joined_push};
use crate::tree::EntryView;
use crate::tree_laws::{ends_in, lemma_ends_in};
use crate::util::{is_markdown, title_of};
use crate::window_state::Platform;

verus! {

// ---------------------------------------------------------------------------
// Reading a request
// ---------------------------------------------------------------------------

/// The query of a request stands behind the first `?`, and the route before it.
pub proof fn law_the_query_stands_behind_the_route(route: Seq<char>, query: Seq<char>)
    requires
        !route.contains('?'),
    ensures
        route_of(route) == route,
        route_of(route.push('?') + query) == route,
        query_of(route.push('?') + query) == query,
{
    let all = route.push('?') + query;
    let n = route.len() as int;
    lemma_find_char(route, '?');
    lemma_find_char(all, '?');
    assert(all[n] == '?');
    assert(all.contains('?'));
    let i = find_char(all, '?')->Some_0;
    if i < n {
        assert(route[i] == '?');
    } else if i > n {
        assert(all.take(i)[n] == '?');
    }
    assert(all.take(n) =~= route);
    assert(all.skip(n + 1) =~= query);
}

/// Whether `pair` is a parameter with the name `name`.
pub open spec fn is_named(pair: Seq<char>, name: Seq<char>) -> bool {
    name.push('=').is_prefix_of(pair)
}

/// What is known of a pair that is a parameter with a name.
proof fn lemma_named(pair: Seq<char>, name: Seq<char>)
    requires
        !name.contains('='),
    ensures
        is_named(pair, name) <==> (find_char(pair, '=') matches Some(k) && pair.take(k) == name),
        is_named(pair, name) ==> find_char(pair, '=') == Some(name.len() as int),
{
    let n = name.len() as int;
    lemma_find_char(pair, '=');
    if is_named(pair, name) {
        let start = pair.subrange(0, n + 1);
        assert(start == name.push('='));
        assert(pair[n] == start[n]);
        assert(pair.contains('='));
        let k = find_char(pair, '=')->Some_0;
        if k < n {
            assert(start[k] == pair[k]);
            assert(name[k] == '=');
        } else if k > n {
            assert(pair.take(k)[n] == '=');
        }
        assert(pair.take(n) =~= name) by {
            assert forall|i: int| 0 <= i < n implies pair[i] == name[i] by {
                assert(start[i] == pair[i]);
            }
        }
    }
    if let Some(k) = find_char(pair, '=') {
        if pair.take(k) == name {
            assert(pair.subrange(0, n + 1) =~= name.push('=')) by {
                assert forall|i: int| 0 <= i < n implies pair[i] == name[i] by {
                    assert(pair.take(k)[i] == pair[i]);
                }
            }
        }
    }
}

/// The value of a parameter is what follows its name and `=`, in the first pair that
/// begins with them.
pub proof fn law_the_first_parameter_counts(
    pairs: Seq<Seq<char>>,
    name: Seq<char>,
    from: int,
    i: int,
)
    requires
        !name.contains('='),
        0 <= from <= i <= pairs.len(),
        forall|k: int| from <= k < i ==> !is_named(#[trigger] pairs[k], name),
    ensures
        i < pairs.len() && is_named(pairs[i], name) ==> param_of(pairs, name, from) == Some(
            pairs[i].skip(name.len() as int + 1),
        ),
        i == pairs.len() ==> param_of(pairs, name, from) is None,
    decreases i - from,
{
    if from < i {
        assert(!is_named(pairs[from], name));
        lemma_named(pairs[from], name);
        law_the_first_parameter_counts(pairs, name, from + 1, i);
    } else if i < pairs.len() {
        lemma_named(pairs[i], name);
    }
}

// ---------------------------------------------------------------------------
// Which requests there are
// ---------------------------------------------------------------------------

/// Whether there is something at a route for a method.
pub open spec fn is_served(method: Seq<char>, route: Seq<char>) -> bool {
    ||| (method == "GET"@ || method == "HEAD"@) && (route == "/"@ || route == "/version"@ || route
        == "/body"@ || route == "/asset"@)
    ||| method == "GET"@ && (route == "/review"@ || route == "/tree"@ || route == "/nav"@)
    ||| method == "PUT"@ && (route == "/review"@ || route == "/open"@ || route == "/nav"@)
    ||| method == "POST"@ && route == "/export"@
}

/// Whether a request is answered at once with nothing but this reply, up to the headers
/// that every reply has.
pub open spec fn is_answered(
    step: StepView,
    status: u16,
    content_type: Seq<char>,
    body: Seq<u8>,
) -> bool {
    step matches StepView::Done(reply, action) && action == ActionView::Nothing && reply.status
        == status && reply.content_type == content_type && reply.body == body
}

/// Whether a request is answered at once with an error that says `message`.
pub open spec fn is_refused(step: StepView, status: u16, message: Seq<char>) -> bool {
    is_answered(
        step,
        status,
        "application/json; charset=utf-8"@,
        compact(JsonView::Object(seq![("error"@, JsonView::Text(message))])),
    )
}

/// The words of methods and routes differ.
proof fn lemma_words()
    ensures
        "GET"@ != "HEAD"@,
        "GET"@ != "PUT"@,
        "GET"@ != "POST"@,
        "HEAD"@ != "PUT"@,
        "HEAD"@ != "POST"@,
        "PUT"@ != "POST"@,
        "/"@.len() == 1,
        "/version"@.len() == 8,
        "/body"@.len() == 5,
        "/asset"@.len() == 6,
        "/review"@.len() == 7,
        "/tree"@.len() == 5,
        "/nav"@.len() == 4,
        "/open"@.len() == 5,
        "/export"@.len() == 7,
        "/body"@ != "/tree"@,
        "/body"@ != "/open"@,
        "/tree"@ != "/open"@,
        "/review"@ != "/export"@,
{
    reveal_strlit("GET");
    reveal_strlit("HEAD");
    reveal_strlit("PUT");
    reveal_strlit("POST");
    reveal_strlit("/");
    reveal_strlit("/version");
    reveal_strlit("/body");
    reveal_strlit("/asset");
    reveal_strlit("/review");
    reveal_strlit("/tree");
    reveal_strlit("/nav");
    reveal_strlit("/open");
    reveal_strlit("/export");
    assert("GET"@[0] != "PUT"@[0]);
    assert("HEAD"@[0] != "POST"@[0]);
    assert("/body"@[1] != "/tree"@[1]);
    assert("/body"@[1] != "/open"@[1]);
    assert("/tree"@[1] != "/open"@[1]);
    assert("/review"@[1] != "/export"@[1]);
    assert("GET"@.len() == 3 && "PUT"@.len() == 3 && "HEAD"@.len() == 4 && "POST"@.len() == 4);
}

/// Where there is nothing for a request it is told so.
pub proof fn law_other_requests_find_nothing(req: RequestView, viewing: ViewingView)
    requires
        !is_served(req.method, route_of(req.path)),
    ensures
        is_answered(
            handled(req, viewing),
            404,
            "text/plain; charset=utf-8"@,
            encode_utf8("404 Not Found"@),
        ),
{
}

/// Where there is something at a route, a request that asks for its head is answered
/// as one that asks for all of it.
pub proof fn law_the_head_is_that_of_the_whole(
    get: RequestView,
    head: RequestView,
    viewing: ViewingView,
)
    requires
        get.method == "GET"@,
        head == (RequestView { method: "HEAD"@, ..get }),
        is_served("HEAD"@, route_of(get.path)),
    ensures
        handled(head, viewing) == handled(get, viewing),
{
    lemma_words();
}

/// The version is answered as a number.
pub proof fn law_the_version_is_answered(req: RequestView, viewing: ViewingView)
    requires
        req.method == "GET"@ || req.method == "HEAD"@,
        route_of(req.path) == "/version"@,
    ensures
        is_answered(
            handled(req, viewing),
            200,
            "text/plain; charset=utf-8"@,
            encode_utf8(decimal(viewing.version as nat)),
        ),
{
    lemma_words();
}

/// Whether a request waits for what `need` asks for, and goes on to `next` when the
/// answer is `reply`.
pub open spec fn goes_on(
    step: StepView,
    need: NeedView,
    reply: Answer,
    now: Seq<char>,
    next: StepView,
) -> bool {
    step matches StepView::Need(n, pending) && n == need && resumed(pending, reply, now) == next
}

/// The page is that of the document as it is read, with its name for a title. Where it
/// cannot be read the page says so.
pub proof fn law_the_page_is_answered(
    req: RequestView,
    viewing: ViewingView,
    path: Seq<char>,
    text: String,
    now: Seq<char>,
)
    requires
        req.method == "GET"@ || req.method == "HEAD"@,
        route_of(req.path) == "/"@,
    ensures
        viewing.file == Some(path) ==> ({
            let body = text_of(document_pieces(text@, true));
            let lost = "<p class=\"mdview-error\">Failed to read "@ + fragment_escaped(
                title_of(path),
            ) + "</p>"@;
            let step = handled(req, viewing);
            &&& step matches StepView::Need(need, pending) && need == NeedView::ReadText(path)
                && is_answered(
                resumed(pending, Answer::Text(Some(text)), now),
                200,
                "text/html; charset=utf-8"@,
                encode_utf8(
                    page_text(
                        title_of(path),
                        body,
                        Some(viewing.version),
                        viewing.allow_remote_images,
                        !viewing.allow_open,
                    ),
                ),
            ) && is_answered(
                resumed(pending, Answer::Text(None), now),
                500,
                "text/html; charset=utf-8"@,
                encode_utf8(
                    page_text(
                        title_of(path),
                        lost,
                        Some(viewing.version),
                        viewing.allow_remote_images,
                        !viewing.allow_open,
                    ),
                ),
            )
        }),
        viewing.file is None ==> is_answered(
            handled(req, viewing),
            200,
            "text/html; charset=utf-8"@,
            encode_utf8(
                page_text(
                    "markdown-remarkable"@,
                    "<p>Drop a Markdown file here.</p>"@,
                    Some(viewing.version),
                    viewing.allow_remote_images,
                    !viewing.allow_open,
                ),
            ),
        ),
{
    lemma_words();
}

/// The body is that of the document as it is read.
pub proof fn law_the_body_is_answered(
    req: RequestView,
    viewing: ViewingView,
    path: Seq<char>,
    text: String,
    now: Seq<char>,
)
    requires
        req.method == "GET"@ || req.method == "HEAD"@,
        route_of(req.path) == "/body"@,
    ensures
        viewing.file == Some(path) ==> ({
            let step = handled(req, viewing);
            &&& step matches StepView::Need(need, pending) && need == NeedView::ReadText(path)
                && is_answered(
                resumed(pending, Answer::Text(Some(text)), now),
                200,
                "text/html; charset=utf-8"@,
                encode_utf8(text_of(document_pieces(text@, true))),
            ) && is_answered(
                resumed(pending, Answer::Text(None), now),
                200,
                "text/html; charset=utf-8"@,
                encode_utf8(
                    "<p class=\"mdview-error\">Failed to read "@ + fragment_escaped(title_of(path))
                        + "</p>"@,
                ),
            )
        }),
        viewing.file is None ==> is_answered(
            handled(req, viewing),
            200,
            "text/html; charset=utf-8"@,
            encode_utf8("<p>Drop a Markdown file here.</p>"@),
        ),
{
    lemma_words();
}

/// The header of a body gives the title of the document back when it is decoded.
pub proof fn law_a_body_tells_its_title(path: Seq<char>, markdown: Option<Seq<char>>)
    ensures
        header_of(guarded(body_reply(path, markdown)).headers, "X-Mdview-Title"@, 0) matches Some(
            value,
        ) && decode_utf8(percent_decoded(encode_utf8(value))) == title_of(path),
{
    let title = title_of(path);
    let reply = guarded(body_reply(path, markdown));
    let value = percent_encoded(encode_utf8(title), Place::Header);
    assert(reply.headers[0] == ("X-Mdview-Title"@, value));
    law_decoding_undoes_encoding(encode_utf8(title), Place::Header);
    vstd::utf8::encode_utf8_decode_utf8(title);
}

/// The comments that are answered are those of the sidecar beside the document, for
/// the document as it is read.
pub proof fn law_the_comments_are_answered(
    req: RequestView,
    viewing: ViewingView,
    path: Seq<char>,
    stored: SidecarRead,
    text: String,
    now: Seq<char>,
)
    requires
        req.method == "GET"@,
        route_of(req.path) == "/review"@,
    ensures
        viewing.file == Some(path) ==> (handled(req, viewing) matches StepView::Need(need, pending)
            && need == NeedView::ReadSidecar(path + ".review.json"@) && match loaded(path, stored) {
            Err(_) => is_refused(
                resumed(pending, Answer::Sidecar(stored), now),
                500,
                "failed to read review data"@,
            ),
            Ok(doc) => goes_on(
                resumed(pending, Answer::Sidecar(stored), now),
                NeedView::ReadText(path),
                Answer::Text(Some(text)),
                now,
                answered(review_reply(doc, Some(text@))),
            ),
        }),
        viewing.file is None ==> is_refused(handled(req, viewing), 409, "no file open"@),
{
    lemma_words();
}

/// Whether a request carries the header that changes take.
pub open spec fn is_trusted(req: RequestView) -> bool {
    exists|k: int|
        0 <= k < req.headers.len() && ascii_lower((#[trigger] req.headers[k]).0) == ascii_lower(
            "X-Mdview-Request"@,
        )
}

/// A header is found where there is one.
proof fn lemma_trusted(req: RequestView, i: int)
    requires
        0 <= i <= req.headers.len(),
    ensures
        header_of(req.headers, "X-Mdview-Request"@, i) is Some <==> exists|k: int|
            i <= k < req.headers.len() && ascii_lower((#[trigger] req.headers[k]).0)
                == ascii_lower("X-Mdview-Request"@),
    decreases req.headers.len() - i,
{
    if i < req.headers.len() {
        lemma_trusted(req, i + 1);
        if ascii_lower(req.headers[i].0) == ascii_lower("X-Mdview-Request"@) {
            assert(ascii_lower(req.headers[i].0) == ascii_lower("X-Mdview-Request"@));
        }
    }
}

/// New comments are taken from the body of the request, and told to be kept once they
/// are.
pub proof fn law_new_comments_are_answered(
    req: RequestView,
    viewing: ViewingView,
    path: Seq<char>,
    doc: ReviewDoc,
    now: Seq<char>,
)
    requires
        req.method == "PUT"@,
        route_of(req.path) == "/review"@,
    ensures
        !is_trusted(req) ==> is_refused(
            handled(req, viewing),
            403,
            "missing X-Mdview-Request header"@,
        ),
        is_trusted(req) && viewing.file is None ==> is_refused(
            handled(req, viewing),
            409,
            "no file open"@,
        ),
        is_trusted(req) && viewing.file == Some(path) ==> goes_on(
            handled(req, viewing),
            NeedView::ParseReview(req.body),
            Answer::Review(Some(doc)),
            now,
            new_review_step(path, Some(doc@)),
        ),
        is_trusted(req) && viewing.file == Some(path) ==> (handled(req, viewing) matches StepView::Need(
            _,
            pending,
        ) && is_refused(
            resumed(pending, Answer::Review(None), now),
            400,
            "invalid review document"@,
        )),
        doc@.file != title_of(path) ==> is_refused(
            new_review_step(path, Some(doc@)),
            400,
            "document file name mismatch"@,
        ),
        new_review_step(path, Some(doc@)) matches StepView::Need(NeedView::SaveReview(_, _), pending)
            ==> is_answered(
            resumed(pending, Answer::Flag(true), now),
            200,
            "application/json; charset=utf-8"@,
            compact(JsonView::Object(seq![("ok"@, JsonView::Bool(true))])),
        ) && is_refused(
            resumed(pending, Answer::Flag(false), now),
            500,
            "failed to save review data"@,
        ),
{
    lemma_words();
    lemma_trusted(req, 0);
}

/// An export holds the comments on the document as both are read, and is written beside
/// the document. What was written is answered, with the name of the file.
pub proof fn law_an_export_is_answered(
    req: RequestView,
    viewing: ViewingView,
    path: Seq<char>,
    text: String,
    stored: SidecarRead,
    now: Seq<char>,
    later: Seq<char>,
)
    requires
        req.method == "POST"@,
        route_of(req.path) == "/export"@,
    ensures
        !is_trusted(req) ==> is_refused(
            handled(req, viewing),
            403,
            "missing X-Mdview-Request header"@,
        ),
        is_trusted(req) && viewing.file is None ==> is_refused(
            handled(req, viewing),
            409,
            "no file open"@,
        ),
        is_trusted(req) && viewing.file == Some(path) ==> ({
            &&& handled(req, viewing) matches StepView::Need(first, reading) && first
                == NeedView::ReadText(path) && is_refused(
                resumed(reading, Answer::Text(None), now),
                500,
                "failed to read document"@,
            ) && (resumed(reading, Answer::Text(Some(text)), now) matches StepView::Need(
                second,
                asking,
            ) && second == NeedView::ReadSidecar(path + ".review.json"@) && match loaded(
                path,
                stored,
            ) {
                Err(_) => is_refused(
                    resumed(asking, Answer::Sidecar(stored), now),
                    500,
                    "failed to read review data"@,
                ),
                Ok(doc) => {
                    let export = export_text(title_of(path), document_anchors(text@), doc, now);
                    &&& resumed(asking, Answer::Sidecar(stored), now) matches StepView::Need(
                        third,
                        writing,
                    ) && third == NeedView::WriteText(export_file(path), export) && resumed(
                        writing,
                        Answer::Flag(true),
                        later,
                    ) == answered(written_reply(export_file(path), export, true)) && is_refused(
                        resumed(writing, Answer::Flag(false), later),
                        500,
                        "failed to write export file"@,
                    )
                },
            })
        }),
{
    lemma_words();
    lemma_trusted(req, 0);
}

/// What is answered to an export can be read back: the name of the file and its text.
pub proof fn law_a_written_export_is_read_back(
    dir: Seq<char>,
    name: Seq<char>,
    text: Seq<char>,
)
    requires
        name.len() > 0,
        !name.contains('/'),
        name != "."@,
        name != ".."@,
        dir.len() > 0 ==> dir == "/"@ || dir.last() != '/' && dir.last() != '.',
    ensures
        ({
            let reply = written_reply(joined_path(dir, name), text, true);
            &&& reply.status == 200
            &&& exists|json: JsonView| #[trigger]
                compact(json) == reply.body && has_text(json, "path"@, name) && has_text(
                    json,
                    "markdown"@,
                    text,
                )
        }),
{
    reveal_strlit("path");
    reveal_strlit("markdown");
    law_a_name_in_a_directory(dir, name);
    let reply = written_reply(joined_path(dir, name), text, true);
    let members = seq![("path"@, JsonView::Text(name)), ("markdown"@, JsonView::Text(text))];
    assert("path"@.len() == 4 && "markdown"@.len() == 8);
    lemma_has_member(members, 0);
    lemma_has_member(members, 1);
    assert(compact(JsonView::Object(members)) == reply.body);
}

/// Where there is no file another one cannot be shown, nor without the header, nor in a
/// browser.
pub proof fn law_when_files_are_not_switched(req: RequestView, viewing: ViewingView)
    requires
        req.method == "PUT"@,
        route_of(req.path) == "/open"@,
    ensures
        !viewing.allow_open ==> is_refused(
            handled(req, viewing),
            501,
            "switching files is not supported in --browser mode"@,
        ),
        viewing.allow_open && !is_trusted(req) ==> is_refused(
            handled(req, viewing),
            403,
            "missing X-Mdview-Request header"@,
        ),
        viewing.allow_open && is_trusted(req) && viewing.file is None ==> is_refused(
            handled(req, viewing),
            409,
            "no file open"@,
        ),
        viewing.allow_open && is_trusted(req) && viewing.file is Some ==> handled(req, viewing)
            == StepView::Need(
            NeedView::ParseOpen(req.body),
            PendingView::OpenName {
                root: window_root(viewing.root_dir, viewing.file->Some_0),
                platform: viewing.platform,
            },
        ),
{
    lemma_words();
    lemma_trusted(req, 0);
}

/// The history of a window is moved through by the words `back` and `forward`, as far
/// as it goes.
pub proof fn law_histories_are_moved_through(
    req: RequestView,
    viewing: ViewingView,
    dir: String,
    now: Seq<char>,
)
    requires
        req.method == "PUT"@,
        route_of(req.path) == "/nav"@,
    ensures
        !viewing.allow_open ==> is_refused(
            handled(req, viewing),
            501,
            "navigation is not supported in --browser mode"@,
        ),
        viewing.allow_open && !is_trusted(req) ==> is_refused(
            handled(req, viewing),
            403,
            "missing X-Mdview-Request header"@,
        ),
        viewing.allow_open && is_trusted(req) ==> match viewing.nav {
            None => is_refused(handled(req, viewing), 409, "no file open"@),
            Some((back, forward)) => {
                &&& handled(req, viewing) matches StepView::Need(need, pending) && need
                    == NeedView::ParseNav(req.body) && is_refused(
                    resumed(pending, Answer::Text(None), now),
                    400,
                    "invalid request body"@,
                ) && ({
                    let step = resumed(pending, Answer::Text(Some(dir)), now);
                    &&& dir@ == "back"@ && back ==> step == StepView::Done(
                        guarded(reloaded_reply()),
                        ActionView::Navigate(NavDirection::Back),
                    )
                    &&& dir@ == "forward"@ && forward ==> step == StepView::Done(
                        guarded(reloaded_reply()),
                        ActionView::Navigate(NavDirection::Forward),
                    )
                    &&& (dir@ == "back"@ && !back || dir@ == "forward"@ && !forward) ==> is_refused(
                        step,
                        409,
                        "no further history"@,
                    )
                    &&& dir@ != "back"@ && dir@ != "forward"@ ==> is_refused(
                        step,
                        400,
                        "invalid direction"@,
                    )
                })
            },
        },
{
    lemma_words();
    lemma_trusted(req, 0);
    reveal_strlit("back");
    reveal_strlit("forward");
    assert("back"@.len() == 4 && "forward"@.len() == 7);
}

/// Where the history of a window goes can be read from the reply, and a browser has
/// none.
pub proof fn law_where_a_history_goes_is_answered(req: RequestView, viewing: ViewingView)
    requires
        req.method == "GET"@,
        route_of(req.path) == "/nav"@,
    ensures
        handled(req, viewing) == answered(nav_reply(viewing)),
        nav_reply(viewing).status == 200,
        ({
            let back = viewing.allow_open && (viewing.nav matches Some((b, _)) && b);
            let forward = viewing.allow_open && (viewing.nav matches Some((_, f)) && f);
            exists|json: JsonView| #[trigger]
                compact(json) == nav_reply(viewing).body && has_member(
                    json,
                    "back"@,
                    JsonView::Bool(back),
                ) && has_member(json, "forward"@, JsonView::Bool(forward))
        }),
{
    lemma_words();
    reveal_strlit("back");
    reveal_strlit("forward");
    assert("back"@.len() == 4 && "forward"@.len() == 7);
    let back = viewing.allow_open && (viewing.nav matches Some((b, _)) && b);
    let forward = viewing.allow_open && (viewing.nav matches Some((_, f)) && f);
    let members = seq![("back"@, JsonView::Bool(back)), ("forward"@, JsonView::Bool(forward))];
    lemma_has_member(members, 0);
    lemma_has_member(members, 1);
    assert(compact(JsonView::Object(members)) == nav_reply(viewing).body);
}

/// The reply to what was done says that it was, and one that leads to another page says
/// that too.
pub proof fn law_what_was_done_is_said()
    ensures
        ok_reply().status == 200,
        ok_reply().body == compact(JsonView::Object(seq![("ok"@, JsonView::Bool(true))])),
        reloaded_reply().status == 200,
        reloaded_reply().body == compact(
            JsonView::Object(
                seq![("ok"@, JsonView::Bool(true)), ("reloaded"@, JsonView::Bool(true))],
            ),
        ),
{
}

// ---------------------------------------------------------------------------
// The tree
// ---------------------------------------------------------------------------

/// Whether `json` reads as a line of the tree.
pub open spec fn reads_as_line(json: JsonView, line: EntryView) -> bool {
    &&& has_text(json, "path"@, line.path)
    &&& has_text(json, "name"@, line.name)
    &&& has_text(
        json,
        "kind"@,
        if line.is_dir {
            "dir"@
        } else {
            "file"@
        },
    )
}

/// Whether `json` reads as the lines of a tree, in their order.
pub open spec fn reads_as_lines(json: JsonView, lines: Seq<EntryView>) -> bool {
    json matches JsonView::List(items) && items.len() == lines.len() && forall|i: int|
        0 <= i < items.len() ==> reads_as_line(#[trigger] items[i], lines[i])
}

/// Whether `json` reads as a tree.
pub open spec fn reads_as_tree(
    json: JsonView,
    root: Seq<char>,
    current: Seq<char>,
    lines: Seq<EntryView>,
    truncated: bool,
) -> bool {
    &&& has_text(json, "root"@, root)
    &&& has_text(json, "current"@, current)
    &&& exists|list: JsonView| #[trigger]
        has_member(json, "entries"@, list) && reads_as_lines(list, lines)
    &&& truncated ==> has_member(json, "truncated"@, JsonView::Bool(true))
    &&& !truncated ==> (json matches JsonView::Object(members) && forall|k: int|
        0 <= k < members.len() ==> (#[trigger] members[k]).0 != "truncated"@)
}

/// A tree can be read back from the reply: its root, the document that is shown, each
/// line in its place, and whether there is more than is listed.
pub proof fn law_a_tree_is_read_back(
    root: Seq<char>,
    current: Seq<char>,
    lines: Seq<EntryView>,
    truncated: bool,
)
    ensures
        tree_reply(root, current, lines, truncated).status == 200,
        exists|json: JsonView| #[trigger]
            compact(json) == tree_reply(root, current, lines, truncated).body && reads_as_tree(
                json,
                root,
                current,
                lines,
                truncated,
            ),
{
    reveal_strlit("root");
    reveal_strlit("current");
    reveal_strlit("entries");
    reveal_strlit("truncated");
    assert("root"@.len() == 4 && "current"@.len() == 7 && "entries"@.len() == 7
        && "truncated"@.len() == 9);
    assert("current"@[0] != "entries"@[0]);
    let items = lines.map_values(|l: EntryView| line_json(l));
    let list = JsonView::List(items);
    let three = seq![
        ("root"@, JsonView::Text(root)),
        ("current"@, JsonView::Text(current)),
        ("entries"@, list),
    ];
    let members = if truncated {
        three.push(("truncated"@, JsonView::Bool(true)))
    } else {
        three
    };
    let json = JsonView::Object(members);
    assert(members[0].0 == "root"@ && members[1].0 == "current"@ && members[2].0 == "entries"@);
    lemma_has_member(members, 0);
    lemma_has_member(members, 1);
    lemma_has_member(members, 2);
    if truncated {
        assert(members[3].0 == "truncated"@);
        lemma_has_member(members, 3);
    }
    assert forall|i: int| 0 <= i < items.len() implies reads_as_line(
        #[trigger] items[i],
        lines[i],
    ) by {
        lemma_line_is_read_back(lines[i]);
    }
    assert(reads_as_lines(list, lines));
    assert(has_member(json, "entries"@, list));
    assert(compact(json) == tree_reply(root, current, lines, truncated).body);
}

/// A line is read back from its JSON.
proof fn lemma_line_is_read_back(line: EntryView)
    ensures
        reads_as_line(line_json(line), line),
{
    reveal_strlit("path");
    reveal_strlit("name");
    reveal_strlit("kind");
    assert("path"@[0] != "name"@[0] && "path"@[0] != "kind"@[0] && "name"@[0] != "kind"@[0]);
    let members = line_json(line)->Object_0;
    lemma_has_member(members, 0);
    lemma_has_member(members, 1);
    lemma_has_member(members, 2);
}

/// Names are picked one by one.
proof fn lemma_names_push(parts: Seq<Seq<char>>, name: Seq<char>)
    requires
        is_name(name),
    ensures
        names(parts.push(name)) == names(parts).push(name),
{
    assert(parts.push(name).drop_last() =~= parts);
}

/// The path of the document that is shown is told below the root of the window, with
/// `/` between its names; a document elsewhere is told by its name.
pub proof fn law_the_shown_document_is_told(
    dir: Seq<char>,
    name: Seq<char>,
    root: Seq<char>,
)
    requires
        dir.len() > 0,
        name.len() > 0,
        !name.contains('/'),
        name != "."@,
        name != ".."@,
    ensures
        components(dir) == components(root) ==> relative_path(joined_path(dir, name), root) == name,
        path_within(dir, root) && relative_path(dir, root).len() > 0 ==> relative_path(
            joined_path(dir, name),
            root,
        ) == relative_path(dir, root) + "/"@ + name,
        !path_within(joined_path(dir, name), root) && dir.last() != '/' && dir.last() != '.'
            ==> relative_path(joined_path(dir, name), root) == name,
{
    reveal_strlit("/");
    law_a_path_grows_by_a_component(dir, name);
    let path = joined_path(dir, name);
    let n = components(root).len() as int;
    if dir.last() != '/' && dir.last() != '.' {
        law_a_name_in_a_directory(dir, name);
    }
    assert(is_name(name)) by {
        if name == "/"@ {
            assert(name[0] == '/');
        }
    }
    if path_within(dir, root) {
        let tail = components(dir).skip(n);
        assert(components(path).subrange(0, n) =~= components(dir).subrange(0, n));
        assert(path_within(path, root));
        assert(components(path).skip(n) =~= tail.push(name));
        lemma_names_push(tail, name);
        lemma_joined_push(names(tail), "/"@, name);
        if components(dir) == components(root) {
            assert(tail =~= seq![]);
            assert(names(tail) =~= seq![]);
        }
        if names(tail).len() == 0 {
            assert(joined(names(tail), "/"@) =~= seq![]);
        }
    }
    if components(dir) == components(root) {
        assert(components(root).subrange(0, n) =~= components(root));
        assert(path_within(dir, root));
        assert(relative_path(path, root) =~= name);
    }
}

/// A window without a directory of its own stays in that of the document, which is `.`
/// where the path of the document names none.
pub proof fn law_where_a_window_stays(
    root: Seq<char>,
    dir: Seq<char>,
    name: Seq<char>,
)
    requires
        name.len() > 0,
        !name.contains('/'),
        name != "."@,
        name != ".."@,
        dir.len() > 0,
        dir == "/"@ || dir.last() != '/' && dir.last() != '.',
    ensures
        document_dir(joined_path(dir, name)) == dir,
        document_dir(name) == "."@,
        window_root(Some(root), joined_path(dir, name)) == root,
        window_root(None, joined_path(dir, name)) == dir,
{
    reveal_strlit("");
    law_a_name_in_a_directory(dir, name);
    law_a_name_in_a_directory(""@, name);
}

// ---------------------------------------------------------------------------
// Images and text
// ---------------------------------------------------------------------------

/// What is sent as an image is told by the ending of its name, in letters of any case.
pub proof fn law_images_are_told_by_their_endings(name: Seq<char>)
    requires
        is_file_name(name),
    ensures
        ends_in(name, "png"@) ==> asset_type(name) == Some("image/png"@),
        ends_in(name, "jpg"@) ==> asset_type(name) == Some("image/jpeg"@),
        ends_in(name, "jpeg"@) ==> asset_type(name) == Some("image/jpeg"@),
        ends_in(name, "gif"@) ==> asset_type(name) == Some("image/gif"@),
        ends_in(name, "webp"@) ==> asset_type(name) == Some("image/webp"@),
        ends_in(name, "bmp"@) ==> asset_type(name) == Some("image/bmp"@),
        ends_in(name, "svg"@) ==> asset_type(name) == Some("image/svg+xml"@),
        ends_in(name, "avif"@) ==> asset_type(name) == Some("image/avif"@),
        ends_in(name, "ico"@) ==> asset_type(name) == Some("image/x-icon"@),
        asset_type(name) is Some ==> ends_in(name, "png"@) || ends_in(name, "jpg"@) || ends_in(
            name,
            "jpeg"@,
        ) || ends_in(name, "gif"@) || ends_in(name, "webp"@) || ends_in(name, "bmp"@) || ends_in(
            name,
            "svg"@,
        ) || ends_in(name, "avif"@) || ends_in(name, "ico"@),
{
    reveal_strlit("png");
    reveal_strlit("jpg");
    reveal_strlit("jpeg");
    reveal_strlit("gif");
    reveal_strlit("webp");
    reveal_strlit("bmp");
    reveal_strlit("svg");
    reveal_strlit("avif");
    reveal_strlit("ico");
    lemma_ends_in(name, "png"@);
    lemma_ends_in(name, "jpg"@);
    lemma_ends_in(name, "jpeg"@);
    lemma_ends_in(name, "gif"@);
    lemma_ends_in(name, "webp"@);
    lemma_ends_in(name, "bmp"@);
    lemma_ends_in(name, "svg"@);
    lemma_ends_in(name, "avif"@);
    lemma_ends_in(name, "ico"@);
    assert("png"@.len() == 3 && "jpg"@.len() == 3 && "gif"@.len() == 3 && "bmp"@.len() == 3
        && "svg"@.len() == 3 && "ico"@.len() == 3);
    assert("jpeg"@.len() == 4 && "webp"@.len() == 4 && "avif"@.len() == 4);
    assert("png"@[0] == 'p' && "jpg"@[0] == 'j' && "gif"@[0] == 'g' && "bmp"@[0] == 'b'
        && "svg"@[0] == 's' && "ico"@[0] == 'i');
    assert("jpeg"@[0] == 'j' && "webp"@[0] == 'w' && "avif"@[0] == 'a');
}

/// An image is one wherever it lies.
pub proof fn law_images_are_told_by_their_names(dir: Seq<char>, name: Seq<char>)
    requires
        name.len() > 0,
        !name.contains('/'),
        name != "."@,
        name != ".."@,
        dir.len() > 0 ==> dir == "/"@ || dir.last() != '/' && dir.last() != '.',
    ensures
        asset_type(joined_path(dir, name)) == asset_type(name),
{
    reveal_strlit("");
    law_a_name_in_a_directory(dir, name);
    law_a_name_in_a_directory(""@, name);
}

/// The text of a fragment is escaped character by character.
pub proof fn law_fragments_are_escaped_by_characters(a: Seq<char>, b: Seq<char>, c: char)
    ensures
        fragment_escaped(a + b) == fragment_escaped(a) + fragment_escaped(b),
        fragment_escaped(seq!['&']) == "&amp;"@,
        fragment_escaped(seq!['<']) == "&lt;"@,
        fragment_escaped(seq!['>']) == "&gt;"@,
        fragment_escaped(seq!['"']) == "&quot;"@,
        c != '&' && c != '<' && c != '>' && c != '"' ==> fragment_escaped(seq![c]) == seq![c],
    decreases b.len(),
{
    assert forall|d: char| #[trigger] fragment_escaped(seq![d]) == fragment_char(d) by {
        assert(seq![d].drop_last() =~= seq![]);
        assert(fragment_escaped(seq![d].drop_last()) =~= seq![]);
        assert(fragment_escaped(seq![d]) =~= fragment_char(d));
    }
    if b.len() == 0 {
        assert(a + b =~= a);
        assert(fragment_escaped(a + b) =~= fragment_escaped(a) + fragment_escaped(b));
    } else {
        assert((a + b).drop_last() =~= a + b.drop_last());
        law_fragments_are_escaped_by_characters(a, b.drop_last(), c);
        assert(fragment_escaped(a + b) =~= fragment_escaped(a) + fragment_escaped(b));
    }
}

/// Where another file is not shown the request is told why: what it names is no plain
/// path, or no Markdown; and of all else only that there is no such file.
pub proof fn law_why_files_are_not_shown(
    root: Seq<char>,
    platform: Platform,
    given: Seq<char>,
    is_link: bool,
    root_resolved: Option<Seq<char>>,
    resolved: Option<Seq<char>>,
    info: Option<FileInfo>,
)
    ensures
        is_refused(
            open_outcome(root, platform, None, is_link, root_resolved, resolved, info),
            400,
            "invalid request body"@,
        ),
        ({
            let rel = slashed(given, platform);
            let outcome = open_outcome(
                root,
                platform,
                Some(given),
                is_link,
                root_resolved,
                resolved,
                info,
            );
            &&& !is_plain_on(rel, platform) ==> is_refused(outcome, 400, "invalid path"@)
            &&& is_plain_on(rel, platform) && !is_markdown(rel) ==> is_refused(
                outcome,
                400,
                "invalid file extension"@,
            )
            &&& is_plain_on(rel, platform) && is_markdown(rel) && (is_link || root_resolved is None
                || resolved is None || !path_within(resolved->Some_0, root_resolved->Some_0)
                || !(info matches Some(i) && i.is_file)) ==> is_refused(outcome, 404, "not found"@)
        }),
{
}

/// An image of more than twenty MiB is not sent, and the request is told so; of other
/// reasons only that there is no such image.
pub proof fn law_why_images_are_not_sent(
    dir: Seq<char>,
    rel: Seq<char>,
    root: Seq<char>,
    target: Seq<char>,
    info: FileInfo,
    bytes: Seq<u8>,
)
    ensures
        ({
            let found = |i: Option<FileInfo>, b: Option<Seq<u8>>|
                image_outcome(dir, rel, Some(root), Some(target), i, b);
            let nothing = |step: StepView|
                is_answered(
                    step,
                    404,
                    "text/plain; charset=utf-8"@,
                    encode_utf8("404 Not Found"@),
                );
            &&& nothing(image_outcome(dir, rel, None, Some(target), Some(info), Some(bytes)))
            &&& nothing(image_outcome(dir, rel, Some(root), None, Some(info), Some(bytes)))
            &&& !path_within(target, root) ==> nothing(found(Some(info), Some(bytes)))
            &&& nothing(found(None, Some(bytes)))
            &&& info.len <= 20971520 ==> nothing(found(Some(info), None))
            &&& path_within(target, root) && info.len > 20 * 1024 * 1024 ==> is_answered(
                found(Some(info), Some(bytes)),
                413,
                "text/plain; charset=utf-8"@,
                encode_utf8("413 Payload Too Large"@),
            )
            &&& path_within(target, root) && info.len <= 20 * 1024 * 1024 ==> (found(
                Some(info),
                Some(bytes),
            ) matches StepView::Done(reply, _) && reply.status == 200 && reply.body == bytes)
        }),
{
}

/// Where no image can be looked for the request is told why.
pub proof fn law_why_images_are_not_looked_for(req: RequestView, viewing: ViewingView)
    requires
        req.method == "GET"@ || req.method == "HEAD"@,
        route_of(req.path) == "/asset"@,
    ensures
        viewing.file is None ==> is_refused(handled(req, viewing), 409, "no file open"@),
        viewing.file is Some && asset_param(req) is None ==> is_refused(
            handled(req, viewing),
            400,
            "missing p query parameter"@,
        ),
        viewing.file is Some ==> (asset_param(req) matches Some(raw) ==> {
            let bytes = percent_decoded(encode_utf8(raw));
            let rel = slashed(decode_utf8(bytes), viewing.platform);
            &&& !valid_utf8(bytes) ==> is_refused(
                handled(req, viewing),
                400,
                "invalid p query parameter"@,
            )
            &&& valid_utf8(bytes) && !is_plain_on(rel, viewing.platform) ==> is_refused(
                handled(req, viewing),
                400,
                "invalid path"@,
            )
            &&& valid_utf8(bytes) && is_plain_on(rel, viewing.platform) && asset_type(rel) is None
                ==> is_answered(
                handled(req, viewing),
                404,
                "text/plain; charset=utf-8"@,
                encode_utf8("404 Not Found"@),
            )
        }),
{
    lemma_words();
}

/// The root of a tree is told by its name, and by `.` where it has none.
pub proof fn law_the_root_is_told(dir: Seq<char>, name: Seq<char>)
    requires
        name.len() > 0,
        !name.contains('/'),
        name != "."@,
        name != ".."@,
        dir.len() > 0 ==> dir == "/"@ || dir.last() != '/' && dir.last() != '.',
    ensures
        dir_name(joined_path(dir, name)) == name,
        dir_name("/"@) == "."@,
        dir_name("."@) == "."@,
{
    law_a_name_in_a_directory(dir, name);
    law_paths_without_a_name(dir);
}

} // verus!
