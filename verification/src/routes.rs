//! What a request is answered, whatever carries it.
//!
//! [`handle`] takes a request and says what it is answered, or what has to be done
//! first: a file to be read, say. Whoever runs it does that and hands the result to
//! [`resume`], until there is an answer.
use vstd::prelude::*;
use vstd::utf8::{decode_utf8, encode_utf8, valid_utf8};

use crate::html::{document_pieces, text_of, to_html_with};
use crate::json::{
    list, list_views, member_views, object, push_item, push_member, text, Json, JsonView,
};
use crate::page::{page_text, page_with};
use crate::path::{
    components, extension, file_name, has_drive, is_absolute, is_name_part, is_plain_on,
    is_plain_relative_on, is_within, joined_path, law_dots_count_for_nothing,
    lemma_undotted_holds_no_more, names, parent, part_views, path_components, path_extension,
    path_file_name, path_join, path_parent, path_within, slashed, to_slashed, undotted,
    without_void_end,
};
use crate::percent::{
    law_encoding_keeps_the_meaning, lemma_encoded_has_no, lemma_nothing_to_decode, percent_decode,
    percent_decoded, percent_encode, percent_encoded, Place,
};
use crate::render::{anchors, document_anchors};
use crate::reply::{
    error_reply, header_of, header_value, html_reply, json_reply, request_header_views, text_reply,
    typed_reply, ReplyView,
};
use crate::review::{
    after_validation, export_file, export_markdown, export_path, export_text, is_timestamp,
    law_validation_settles, load, loaded, now_rfc3339, review_members, review_to_members,
    sidecar_path, str_views, unanchored, unanchored_hashes, validate, validation_error, LoadError,
    ReviewDoc, ReviewView, SidecarRead,
};
use crate::sanitize::{local_target, rendered_target, sanitized_target};
use crate::text::{
    ascii_lower, chars_of, decimal, find_char, find_char_in, joined, lemma_find_char,
    lemma_joined_push, lower_chars, push_decimal, same_chars, same_text, slice_views, split,
    split_chars, string_of, text_option, text_ref_option,
};
use crate::tree::{
    entry_views, is_listing, listing_view, read_limit, scan_dir, visits_after, DirItem, Dirs,
    EntryView, ItemView, Listed, ScanBudget, TreeEntry, TreeScan, TreeStep, TREE_MAX_ENTRIES,
    TREE_MAX_VISITED_ENTRIES,
};
use crate::util::{file_title, is_markdown, is_markdown_file, title_of};
use crate::window_state::Platform;

pub use crate::reply::Reply;

verus! {

// ---------------------------------------------------------------------------
// Requests
// ---------------------------------------------------------------------------

/// A request.
pub struct RouteRequest<'a> {
    pub method: &'a str,
    pub path: &'a str,
    pub headers: &'a [(String, String)],
    pub body: &'a [u8],
}

/// The value of a [`RouteRequest`].
pub ghost struct RequestView {
    pub method: Seq<char>,
    pub path: Seq<char>,
    pub headers: Seq<(Seq<char>, Seq<char>)>,
    pub body: Seq<u8>,
}

impl<'a> View for RouteRequest<'a> {
    type V = RequestView;

    open spec fn view(&self) -> RequestView {
        RequestView {
            method: self.method@,
            path: self.path@,
            headers: request_header_views(self.headers@),
            body: self.body@,
        }
    }
}

/// A way through the history of a window.
#[derive(Debug, Clone, Copy, PartialEq, Eq, Structural)]
pub enum NavDirection {
    Back,
    Forward,
}

/// What is to be done besides sending the reply.
#[derive(Debug, Clone, PartialEq, Eq)]
pub enum Action {
    Nothing,
    /// Show this file, whose path is canonical.
    OpenFile(String),
    /// Move through the history of the window and show what is there.
    Navigate(NavDirection),
}

/// The value of an [`Action`].
pub ghost enum ActionView {
    Nothing,
    OpenFile(Seq<char>),
    Navigate(NavDirection),
}

impl View for Action {
    type V = ActionView;

    open spec fn view(&self) -> ActionView {
        match self {
            Action::Nothing => ActionView::Nothing,
            Action::OpenFile(p) => ActionView::OpenFile(p@),
            Action::Navigate(d) => ActionView::Navigate(*d),
        }
    }
}

/// What a request is answered with: the window or server that it came to.
pub struct Viewing<'a> {
    /// The file that is shown.
    pub file: Option<&'a str>,
    /// How often it was seen to change.
    pub version: u64,
    /// Whether the page may load images from other hosts.
    pub allow_remote_images: bool,
    /// Whether another file may be shown. That is so in a window and not in a
    /// browser.
    pub allow_open: bool,
    /// The directory that the window stays in. Without one it is that of the file.
    pub root_dir: Option<&'a str>,
    /// Whether the window's history goes back and forward.
    pub nav: Option<(bool, bool)>,
    /// The platform whose paths requests name.
    pub platform: Platform,
}

/// The value of a [`Viewing`].
pub ghost struct ViewingView {
    pub file: Option<Seq<char>>,
    pub version: u64,
    pub allow_remote_images: bool,
    pub allow_open: bool,
    pub root_dir: Option<Seq<char>>,
    pub nav: Option<(bool, bool)>,
    pub platform: Platform,
}

impl<'a> View for Viewing<'a> {
    type V = ViewingView;

    open spec fn view(&self) -> ViewingView {
        ViewingView {
            file: text_ref_option(self.file),
            version: self.version,
            allow_remote_images: self.allow_remote_images,
            allow_open: self.allow_open,
            root_dir: text_ref_option(self.root_dir),
            nav: self.nav,
            platform: self.platform,
        }
    }
}

// ---------------------------------------------------------------------------
// Steps
// ---------------------------------------------------------------------------

/// What has to be done before a request can be answered.
pub enum Need {
    /// Read a file as text.
    ReadText(String),
    /// Read a file as bytes.
    ReadBytes(String),
    /// Read a sidecar.
    ReadSidecar(String),
    /// Read a directory, and of that no more entries than so many.
    ReadDir(String, usize),
    /// Take a body for a sidecar in JSON.
    ParseReview(Vec<u8>),
    /// Take a body for `{"path": ..}` in JSON.
    ParseOpen(Vec<u8>),
    /// Take a body for `{"dir": ..}` in JSON.
    ParseNav(Vec<u8>),
    /// Write a sidecar, whole or not at all.
    SaveReview(String, ReviewDoc),
    /// Write a file, whole or not at all.
    WriteText(String, String),
    /// Tell whether a path is a symbolic link itself.
    IsSymlink(String),
    /// Resolve a path, with all links in it.
    Canonicalize(String),
    /// Tell what a path leads to.
    Metadata(String),
}

/// The value of a [`Need`].
pub ghost enum NeedView {
    ReadText(Seq<char>),
    ReadBytes(Seq<char>),
    ReadSidecar(Seq<char>),
    ReadDir(Seq<char>, nat),
    ParseReview(Seq<u8>),
    ParseOpen(Seq<u8>),
    ParseNav(Seq<u8>),
    SaveReview(Seq<char>, ReviewView),
    WriteText(Seq<char>, Seq<char>),
    IsSymlink(Seq<char>),
    Canonicalize(Seq<char>),
    Metadata(Seq<char>),
}

impl View for Need {
    type V = NeedView;

    open spec fn view(&self) -> NeedView {
        match self {
            Need::ReadText(p) => NeedView::ReadText(p@),
            Need::ReadBytes(p) => NeedView::ReadBytes(p@),
            Need::ReadSidecar(p) => NeedView::ReadSidecar(p@),
            Need::ReadDir(p, n) => NeedView::ReadDir(p@, *n as nat),
            Need::ParseReview(b) => NeedView::ParseReview(b@),
            Need::ParseOpen(b) => NeedView::ParseOpen(b@),
            Need::ParseNav(b) => NeedView::ParseNav(b@),
            Need::SaveReview(p, d) => NeedView::SaveReview(p@, d@),
            Need::WriteText(p, t) => NeedView::WriteText(p@, t@),
            Need::IsSymlink(p) => NeedView::IsSymlink(p@),
            Need::Canonicalize(p) => NeedView::Canonicalize(p@),
            Need::Metadata(p) => NeedView::Metadata(p@),
        }
    }
}

/// What a path leads to.
#[derive(Debug, Clone, Copy, PartialEq, Eq, Structural)]
pub struct FileInfo {
    pub is_file: bool,
    pub len: u64,
}

/// What came of a [`Need`].
pub enum Answer {
    /// The text, path or field that was asked for, where it could be had.
    Text(Option<String>),
    Bytes(Option<Vec<u8>>),
    /// Whether it is so, or was done.
    Flag(bool),
    Sidecar(SidecarRead),
    Review(Option<ReviewDoc>),
    Listing(Option<Vec<DirItem>>),
    Metadata(Option<FileInfo>),
}

impl Answer {
    /// The text that was asked for.
    pub open spec fn text_view(self) -> Option<Seq<char>> {
        match self {
            Answer::Text(t) => text_option(t),
            _ => None,
        }
    }

    /// The bytes that were asked for.
    pub open spec fn bytes_view(self) -> Option<Seq<u8>> {
        match self {
            Answer::Bytes(Some(b)) => Some(b@),
            _ => None,
        }
    }

    /// Whether it is so, or was done.
    pub open spec fn flag_view(self) -> bool {
        self matches Answer::Flag(f) && f
    }

    /// What came of reading a sidecar.
    pub open spec fn sidecar_view(self) -> SidecarRead {
        match self {
            Answer::Sidecar(s) => s,
            _ => SidecarRead::Unreadable,
        }
    }

    /// The sidecar that was asked for.
    pub open spec fn review_view(self) -> Option<ReviewView> {
        match self {
            Answer::Review(Some(d)) => Some(d@),
            _ => None,
        }
    }

    /// What a path leads to.
    pub open spec fn metadata_view(self) -> Option<FileInfo> {
        match self {
            Answer::Metadata(m) => m,
            _ => None,
        }
    }

    /// The entries of a directory.
    pub open spec fn entries_view(self) -> Option<Seq<ItemView>> {
        match self {
            Answer::Listing(l) => listing_view(l),
            _ => None,
        }
    }

    fn into_text(self) -> (r: Option<String>)
        ensures
            text_option(r) == self.text_view(),
    {
        match self {
            Answer::Text(t) => t,
            _ => None,
        }
    }

    fn into_bytes(self) -> (r: Option<Vec<u8>>)
        ensures
            match r {
                Some(b) => self.bytes_view() == Some(b@),
                None => self.bytes_view() is None,
            },
    {
        match self {
            Answer::Bytes(b) => b,
            _ => None,
        }
    }

    fn into_flag(self) -> (r: bool)
        ensures
            r == self.flag_view(),
    {
        match self {
            Answer::Flag(f) => f,
            _ => false,
        }
    }

    fn into_sidecar(self) -> (r: SidecarRead)
        ensures
            r == self.sidecar_view(),
    {
        match self {
            Answer::Sidecar(s) => s,
            _ => SidecarRead::Unreadable,
        }
    }

    fn into_review(self) -> (r: Option<ReviewDoc>)
        ensures
            match r {
                Some(d) => self.review_view() == Some(d@),
                None => self.review_view() is None,
            },
    {
        match self {
            Answer::Review(d) => d,
            _ => None,
        }
    }

    fn into_metadata(self) -> (r: Option<FileInfo>)
        ensures
            r == self.metadata_view(),
    {
        match self {
            Answer::Metadata(m) => m,
            _ => None,
        }
    }

    fn into_listing(self) -> (r: Option<Vec<DirItem>>)
        ensures
            listing_view(r) == self.entries_view(),
    {
        match self {
            Answer::Listing(l) => l,
            _ => None,
        }
    }
}

/// A request that waits for an [`Answer`].
pub enum Pending {
    /// The page waits for the document at `path`.
    Page { path: String, version: u64, allow_remote_images: bool, browser_mode: bool },
    /// The body waits for the document at `path`.
    Body { path: String },
    /// The comments wait for the sidecar of the document at `path`.
    Review { path: String },
    /// The comments `doc` wait for the document that they are on.
    ReviewText { doc: ReviewDoc },
    /// New comments on the document at `path` wait to be taken for what they are.
    NewReview { path: String },
    /// New comments wait to be written.
    SavedReview,
    /// An export waits for the document at `path`.
    Export { path: String },
    /// An export waits for the sidecar of the document at `path`.
    ExportReview { path: String, markdown: String },
    /// An export to the file `path` waits to be written.
    WrittenExport { path: String, text: String },
    /// The tree waits for a directory.
    Tree { scan: TreeScan, root: String, current: String },
    /// A file to be shown, in the directory `root`, waits to be taken for what it
    /// is.
    OpenName { root: String, platform: Platform },
    /// The file `candidate` to be shown waits for whether it is a link.
    OpenLink { root: String, candidate: String },
    /// It waits for its directory to be resolved.
    OpenRoot { candidate: String },
    /// It waits for itself to be resolved. Its directory is `root`.
    OpenFile { root: String },
    /// The file `target` to be shown waits for what it is.
    OpenTarget { target: String },
    /// A move through the history waits to be taken for what it is.
    NavName { can_back: bool, can_forward: bool },
    /// The image `rel` waits for the document's directory to be resolved.
    AssetRoot { dir: String, rel: String },
    /// It waits for itself to be resolved. The document's directory is `root`.
    AssetFile { root: String, rel: String },
    /// It was resolved to `target` and waits for what that is.
    AssetTarget { target: String, rel: String },
    /// It waits for its bytes.
    AssetBytes { rel: String },
}

/// The value of a [`Pending`].
pub ghost enum PendingView {
    Page { path: Seq<char>, version: u64, allow_remote_images: bool, browser_mode: bool },
    Body { path: Seq<char> },
    Review { path: Seq<char> },
    ReviewText { doc: ReviewView },
    NewReview { path: Seq<char> },
    SavedReview,
    Export { path: Seq<char> },
    ExportReview { path: Seq<char>, markdown: Seq<char> },
    WrittenExport { path: Seq<char>, text: Seq<char> },
    Tree { scan: TreeScan, root: Seq<char>, current: Seq<char> },
    OpenName { root: Seq<char>, platform: Platform },
    OpenLink { root: Seq<char>, candidate: Seq<char> },
    OpenRoot { candidate: Seq<char> },
    OpenFile { root: Seq<char> },
    OpenTarget { target: Seq<char> },
    NavName { can_back: bool, can_forward: bool },
    AssetRoot { dir: Seq<char>, rel: Seq<char> },
    AssetFile { root: Seq<char>, rel: Seq<char> },
    AssetTarget { target: Seq<char>, rel: Seq<char> },
    AssetBytes { rel: Seq<char> },
}

impl View for Pending {
    type V = PendingView;

    open spec fn view(&self) -> PendingView {
        match self {
            Pending::Page { path, version, allow_remote_images, browser_mode } => {
                PendingView::Page {
                    path: path@,
                    version: *version,
                    allow_remote_images: *allow_remote_images,
                    browser_mode: *browser_mode,
                }
            },
            Pending::Body { path } => PendingView::Body { path: path@ },
            Pending::Review { path } => PendingView::Review { path: path@ },
            Pending::ReviewText { doc } => PendingView::ReviewText { doc: doc@ },
            Pending::NewReview { path } => PendingView::NewReview { path: path@ },
            Pending::SavedReview => PendingView::SavedReview,
            Pending::Export { path } => PendingView::Export { path: path@ },
            Pending::ExportReview { path, markdown } => {
                PendingView::ExportReview { path: path@, markdown: markdown@ }
            },
            Pending::WrittenExport { path, text } => {
                PendingView::WrittenExport { path: path@, text: text@ }
            },
            Pending::Tree { scan, root, current } => {
                PendingView::Tree { scan: *scan, root: root@, current: current@ }
            },
            Pending::OpenName { root, platform } => PendingView::OpenName {
                root: root@,
                platform: *platform,
            },
            Pending::OpenLink { root, candidate } => {
                PendingView::OpenLink { root: root@, candidate: candidate@ }
            },
            Pending::OpenRoot { candidate } => PendingView::OpenRoot { candidate: candidate@ },
            Pending::OpenFile { root } => PendingView::OpenFile { root: root@ },
            Pending::OpenTarget { target } => PendingView::OpenTarget { target: target@ },
            Pending::NavName { can_back, can_forward } => {
                PendingView::NavName { can_back: *can_back, can_forward: *can_forward }
            },
            Pending::AssetRoot { dir, rel } => PendingView::AssetRoot { dir: dir@, rel: rel@ },
            Pending::AssetFile { root, rel } => PendingView::AssetFile { root: root@, rel: rel@ },
            Pending::AssetTarget { target, rel } => {
                PendingView::AssetTarget { target: target@, rel: rel@ }
            },
            Pending::AssetBytes { rel } => PendingView::AssetBytes { rel: rel@ },
        }
    }
}

/// What becomes of a request next.
pub enum Step {
    /// It is answered.
    Done(Reply, Action),
    /// It waits for something to be done.
    Need(Need, Pending),
}

/// The value of a [`Step`].
pub ghost enum StepView {
    Done(ReplyView, ActionView),
    Need(NeedView, PendingView),
}

impl View for Step {
    type V = StepView;

    open spec fn view(&self) -> StepView {
        match self {
            Step::Done(r, a) => StepView::Done(r@, a@),
            Step::Need(n, p) => StepView::Need(n@, p@),
        }
    }
}

// ---------------------------------------------------------------------------
// Replies
// ---------------------------------------------------------------------------

/// The title of the page before a file is shown.
pub const EMPTY_TITLE: &'static str = "markdown-remarkable";

/// The body of the page before a file is shown.
pub const EMPTY_BODY_HTML: &'static str = "<p>Drop a Markdown file here.</p>";

/// The header that a request has to carry to change something. A page of another
/// origin cannot send it.
pub const REQUEST_HEADER: &'static str = "X-Mdview-Request";

/// The largest image that is sent, in bytes.
pub const ASSET_MAX_BYTES: u64 = 20971520;

/// A reply as it is sent: never cached, never taken for another type, and never
/// shown in a frame.
pub open spec fn guarded(reply: ReplyView) -> ReplyView {
    reply.with_header("Cache-Control"@, "no-store"@).with_header(
        "X-Content-Type-Options"@,
        "nosniff"@,
    ).with_header("Content-Security-Policy"@, "frame-ancestors 'none'"@)
}

/// A reply about an image as it is sent. It may load and run nothing, however it
/// is shown.
pub open spec fn sandboxed(reply: ReplyView) -> ReplyView {
    reply.with_header("Cache-Control"@, "no-store"@).with_header(
        "X-Content-Type-Options"@,
        "nosniff"@,
    ).with_header("Content-Security-Policy"@, "default-src 'none'; sandbox"@)
}

/// A request that is answered.
pub open spec fn answered(reply: ReplyView) -> StepView {
    StepView::Done(guarded(reply), ActionView::Nothing)
}

/// A request that is answered and has something done besides.
pub open spec fn answered_with(reply: ReplyView, action: ActionView) -> StepView {
    StepView::Done(guarded(reply), action)
}

/// A request for an image that is answered.
pub open spec fn asset_answered(reply: ReplyView) -> StepView {
    StepView::Done(sandboxed(reply), ActionView::Nothing)
}

/// The reply where no file is shown.
pub open spec fn no_file_reply() -> ReplyView {
    error_reply(409, "no file open"@)
}

/// The reply where the header [`REQUEST_HEADER`] is missing.
pub open spec fn no_header_reply() -> ReplyView {
    error_reply(403, "missing X-Mdview-Request header"@)
}

/// The reply where there is nothing at a path.
pub open spec fn not_found_reply() -> ReplyView {
    text_reply(404, "404 Not Found"@)
}

/// The reply where something was done.
pub open spec fn ok_reply() -> ReplyView {
    json_reply(200, JsonView::Object(seq![("ok"@, JsonView::Bool(true))]))
}

/// The reply where a window is about to show another file.
pub open spec fn reloaded_reply() -> ReplyView {
    json_reply(
        200,
        JsonView::Object(
            seq![("ok"@, JsonView::Bool(true)), ("reloaded"@, JsonView::Bool(true))],
        ),
    )
}

fn guard(reply: Reply) -> (r: Reply)
    ensures
        r@ == guarded(reply@),
{
    reply.with_header("Cache-Control", "no-store").with_header(
        "X-Content-Type-Options",
        "nosniff",
    ).with_header("Content-Security-Policy", "frame-ancestors 'none'")
}

fn sandbox(reply: Reply) -> (r: Reply)
    ensures
        r@ == sandboxed(reply@),
{
    reply.with_header("Cache-Control", "no-store").with_header(
        "X-Content-Type-Options",
        "nosniff",
    ).with_header("Content-Security-Policy", "default-src 'none'; sandbox")
}

fn answer(reply: Reply) -> (r: Step)
    ensures
        r@ == answered(reply@),
{
    Step::Done(guard(reply), Action::Nothing)
}

fn answer_with(reply: Reply, action: Action) -> (r: Step)
    ensures
        r@ == answered_with(reply@, action@),
{
    Step::Done(guard(reply), action)
}

fn answer_asset(reply: Reply) -> (r: Step)
    ensures
        r@ == asset_answered(reply@),
{
    Step::Done(sandbox(reply), Action::Nothing)
}

fn no_file_open() -> (r: Reply)
    ensures
        r@ == no_file_reply(),
{
    Reply::error(409, "no file open")
}

fn missing_header() -> (r: Reply)
    ensures
        r@ == no_header_reply(),
{
    Reply::error(403, "missing X-Mdview-Request header")
}

fn not_found() -> (r: Reply)
    ensures
        r@ == not_found_reply(),
{
    Reply::text(404, "404 Not Found")
}

fn ok() -> (r: Reply)
    ensures
        r@ == ok_reply(),
{
    let mut members: Vec<(String, Json)> = Vec::new();
    assert(member_views(members@) =~= seq![]);
    push_member(&mut members, "ok", Json::Bool(true));
    assert(member_views(members@) =~= seq![("ok"@, JsonView::Bool(true))]);
    Reply::json(200, &object(members))
}

fn reloaded() -> (r: Reply)
    ensures
        r@ == reloaded_reply(),
{
    let mut members: Vec<(String, Json)> = Vec::new();
    assert(member_views(members@) =~= seq![]);
    push_member(&mut members, "ok", Json::Bool(true));
    push_member(&mut members, "reloaded", Json::Bool(true));
    assert(member_views(members@) =~= seq![
        ("ok"@, JsonView::Bool(true)),
        ("reloaded"@, JsonView::Bool(true)),
    ]);
    Reply::json(200, &object(members))
}

// ---------------------------------------------------------------------------
// Reading a request
// ---------------------------------------------------------------------------

/// The path of a request without its query.
pub open spec fn route_of(path: Seq<char>) -> Seq<char> {
    match find_char(path, '?') {
        Some(i) => path.take(i),
        None => path,
    }
}

/// The query of a request.
pub open spec fn query_of(path: Seq<char>) -> Seq<char> {
    match find_char(path, '?') {
        Some(i) => path.skip(i + 1),
        None => seq![],
    }
}

/// The value of the first parameter with the name `name` among `pairs`, from pair
/// `i` on. What has no `=` in it is no parameter.
pub open spec fn param_of(pairs: Seq<Seq<char>>, name: Seq<char>, i: int) -> Option<Seq<char>>
    decreases pairs.len() - i,
{
    if i < 0 || i >= pairs.len() {
        None
    } else {
        match find_char(pairs[i], '=') {
            Some(k) if pairs[i].take(k) == name => Some(pairs[i].skip(k + 1)),
            _ => param_of(pairs, name, i + 1),
        }
    }
}

/// Whether a request carries the header [`REQUEST_HEADER`], whatever its value.
pub open spec fn is_own_request(req: RequestView) -> bool {
    header_of(req.headers, REQUEST_HEADER@, 0) is Some
}

fn has_request_header(req: &RouteRequest) -> (r: bool)
    ensures
        r == is_own_request(req@),
{
    header_value(req.headers, REQUEST_HEADER).is_some()
}

fn route_and_query(path: &[char]) -> (r: (&[char], &[char]))
    ensures
        r.0@ == route_of(path@),
        r.1@ == query_of(path@),
{
    let n: usize = path.len();
    match find_char_in(path, '?') {
        Some(i) => {
            let route = &path[0..i];
            let query = &path[i + 1..n];
            assert(route@ =~= path@.take(i as int));
            assert(query@ =~= path@.skip(i + 1));
            (route, query)
        },
        None => {
            let query = &path[n..n];
            assert(query@ =~= seq![]);
            (path, query)
        },
    }
}

fn query_param<'a>(query: &'a [char], name: &str) -> (r: Option<&'a [char]>)
    ensures
        match r {
            Some(v) => param_of(split(query@, '&'), name@, 0) == Some(v@),
            None => param_of(split(query@, '&'), name@, 0) is None,
        },
{
    let wanted = chars_of(name);
    let pairs = split_chars(query, '&');
    let ghost all = slice_views(pairs@);
    let mut i: usize = 0;
    while i < pairs.len()
        invariant
            all == slice_views(pairs@),
            all == split(query@, '&'),
            wanted@ == name@,
            i <= pairs@.len(),
            param_of(all, name@, 0) == param_of(all, name@, i as int),
        decreases pairs@.len() - i,
    {
        let pair = pairs[i];
        let n: usize = pair.len();
        assert(all[i as int] == pair@);
        if let Some(k) = find_char_in(pair, '=') {
            let key = &pair[0..k];
            assert(key@ =~= pair@.take(k as int));
            if same_chars(key, wanted.as_slice()) {
                let value = &pair[k + 1..n];
                assert(value@ =~= pair@.skip(k + 1));
                return Some(value);
            }
        }
        i = i + 1;
    }
    None
}

// ---------------------------------------------------------------------------
// The page and its body
// ---------------------------------------------------------------------------

/// What stands for `c` in the text of a fragment.
pub open spec fn fragment_char(c: char) -> Seq<char> {
    if c == '&' {
        "&amp;"@
    } else if c == '<' {
        "&lt;"@
    } else if c == '>' {
        "&gt;"@
    } else if c == '"' {
        "&quot;"@
    } else {
        seq![c]
    }
}

/// `s` as the text of a fragment.
pub open spec fn fragment_escaped(s: Seq<char>) -> Seq<char>
    decreases s.len(),
{
    if s.len() == 0 {
        seq![]
    } else {
        fragment_escaped(s.drop_last()) + fragment_char(s.last())
    }
}

/// What is shown in place of a document that cannot be read.
pub open spec fn error_fragment_text(title: Seq<char>) -> Seq<char> {
    "<p class=\"mdview-error\">Failed to read "@ + fragment_escaped(title) + "</p>"@
}

/// The HTML of a document as it is shown.
pub open spec fn shown_html(markdown: Seq<char>) -> Seq<char> {
    text_of(document_pieces(markdown, true))
}

/// Appends `s` as the text of a fragment.
fn push_fragment_escaped(out: &mut String, s: &str)
    ensures
        final(out)@ == old(out)@ + fragment_escaped(s@),
{
    let chars = chars_of(s);
    let mut i: usize = 0;
    assert(out@ =~= old(out)@ + fragment_escaped(s@.take(0)));
    while i < chars.len()
        invariant
            chars@ == s@,
            i <= chars@.len(),
            out@ == old(out)@ + fragment_escaped(s@.take(i as int)),
        decreases chars@.len() - i,
    {
        let c: char = chars[i];
        assert(s@.take(i + 1).drop_last() =~= s@.take(i as int));
        if c == '&' {
            out.append("&amp;");
        } else if c == '<' {
            out.append("&lt;");
        } else if c == '>' {
            out.append("&gt;");
        } else if c == '"' {
            out.append("&quot;");
        } else {
            out.push(c);
        }
        i = i + 1;
        assert(out@ =~= old(out)@ + fragment_escaped(s@.take(i as int)));
    }
    assert(s@.take(i as int) =~= s@);
}

fn error_fragment(title: &str) -> (r: String)
    ensures
        r@ == error_fragment_text(title@),
{
    let mut out = String::new();
    out.append("<p class=\"mdview-error\">Failed to read ");
    push_fragment_escaped(&mut out, title);
    out.append("</p>");
    assert(out@ =~= error_fragment_text(title@));
    out
}

/// The page of the document at `path`, which holds `markdown` or cannot be read.
/// Where it cannot, the page still polls for it.
pub open spec fn page_reply(
    path: Seq<char>,
    markdown: Option<Seq<char>>,
    version: u64,
    allow_remote_images: bool,
    browser_mode: bool,
) -> ReplyView {
    let title = title_of(path);
    match markdown {
        Some(text) => html_reply(
            200,
            page_text(title, shown_html(text), Some(version), allow_remote_images, browser_mode),
        ),
        None => html_reply(
            500,
            page_text(
                title,
                error_fragment_text(title),
                Some(version),
                allow_remote_images,
                browser_mode,
            ),
        ),
    }
}

/// The page where no file is shown.
pub open spec fn empty_page_reply(
    version: u64,
    allow_remote_images: bool,
    browser_mode: bool,
) -> ReplyView {
    html_reply(
        200,
        page_text(
            EMPTY_TITLE@,
            EMPTY_BODY_HTML@,
            Some(version),
            allow_remote_images,
            browser_mode,
        ),
    )
}

/// The body of the document at `path`, with its title in a header.
pub open spec fn body_reply(path: Seq<char>, markdown: Option<Seq<char>>) -> ReplyView {
    let title = title_of(path);
    html_reply(
        200,
        match markdown {
            Some(text) => shown_html(text),
            None => error_fragment_text(title),
        },
    ).with_header("X-Mdview-Title"@, percent_encoded(encode_utf8(title), Place::Header))
}

fn page_of(
    path: &str,
    markdown: Option<String>,
    version: u64,
    allow_remote_images: bool,
    browser_mode: bool,
) -> (r: Reply)
    ensures
        r@ == page_reply(path@, text_option(markdown), version, allow_remote_images, browser_mode),
{
    let title = file_title(path);
    match markdown {
        Some(text) => {
            let body = to_html_with(text.as_str(), true);
            let page = page_with(
                title.as_str(),
                body.as_str(),
                Some(version),
                allow_remote_images,
                browser_mode,
            );
            Reply::html(200, page.as_str())
        },
        None => {
            let body = error_fragment(title.as_str());
            let page = page_with(
                title.as_str(),
                body.as_str(),
                Some(version),
                allow_remote_images,
                browser_mode,
            );
            Reply::html(500, page.as_str())
        },
    }
}

fn empty_page(version: u64, allow_remote_images: bool, browser_mode: bool) -> (r: Reply)
    ensures
        r@ == empty_page_reply(version, allow_remote_images, browser_mode),
{
    let page = page_with(
        EMPTY_TITLE,
        EMPTY_BODY_HTML,
        Some(version),
        allow_remote_images,
        browser_mode,
    );
    Reply::html(200, page.as_str())
}

fn body_of(path: &str, markdown: Option<String>) -> (r: Reply)
    ensures
        r@ == body_reply(path@, text_option(markdown)),
{
    let title = file_title(path);
    let body = match markdown {
        Some(text) => to_html_with(text.as_str(), true),
        None => error_fragment(title.as_str()),
    };
    let encoded = percent_encode(title.as_str(), Place::Header);
    Reply::html(200, body.as_str()).with_header("X-Mdview-Title", encoded.as_str())
}

// ---------------------------------------------------------------------------
// Comments
// ---------------------------------------------------------------------------

/// The comments `doc` on a document that holds `markdown`.
pub open spec fn review_reply(doc: ReviewView, markdown: Option<Seq<char>>) -> ReplyView {
    match markdown {
        None => error_reply(500, "failed to read document"@),
        Some(text) => json_reply(
            200,
            JsonView::Object(
                review_members(doc).push(
                    (
                        "unanchored"@,
                        JsonView::List(
                            unanchored_hashes(doc.blocks, document_anchors(text)).map_values(
                                |h: Seq<char>| JsonView::Text(h),
                            ),
                        ),
                    ),
                ),
            ),
        ),
    }
}

fn review_of(doc: &ReviewDoc, markdown: Option<String>) -> (r: Reply)
    ensures
        r@ == review_reply(doc@, text_option(markdown)),
{
    let markdown = match markdown {
        Some(t) => t,
        None => {
            return Reply::error(500, "failed to read document");
        },
    };
    let live = anchors(markdown.as_str());
    let lost = unanchored(doc, live.as_slice());
    let ghost all = str_views(lost@).map_values(|h: Seq<char>| JsonView::Text(h));
    let mut items: Vec<Json> = Vec::new();
    let mut i: usize = 0;
    while i < lost.len()
        invariant
            all == str_views(lost@).map_values(|h: Seq<char>| JsonView::Text(h)),
            i <= lost@.len(),
            list_views(items@) =~= all.take(i as int),
        decreases lost@.len() - i,
    {
        assert(all[i as int] == JsonView::Text(lost@[i as int]@));
        push_item(&mut items, text(lost[i]));
        i = i + 1;
    }
    assert(list_views(items@) =~= all);
    let mut members = review_to_members(doc);
    push_member(&mut members, "unanchored", list(items));
    Reply::json(200, &object(members))
}

/// What becomes of the new comments `doc` on the document at `path`.
pub open spec fn new_review_step(path: Seq<char>, doc: Option<ReviewView>) -> StepView {
    match doc {
        None => answered(error_reply(400, "invalid review document"@)),
        Some(d) => if d.file != title_of(path) {
            answered(error_reply(400, "document file name mismatch"@))
        } else if validation_error(d) is Some {
            answered(error_reply(400, "invalid review document"@))
        } else {
            StepView::Need(
                NeedView::SaveReview(path + ".review.json"@, after_validation(d)),
                PendingView::SavedReview,
            )
        },
    }
}

fn take_new_review(path: &str, doc: Option<ReviewDoc>) -> (r: Step)
    ensures
        r@ == new_review_step(
            path@,
            match doc {
                Some(d) => Some(d@),
                None => None,
            },
        ),
{
    let mut doc = match doc {
        Some(d) => d,
        None => {
            return answer(Reply::error(400, "invalid review document"));
        },
    };
    let title = file_title(path);
    if !same_text(doc.file.as_str(), title.as_str()) {
        return answer(Reply::error(400, "document file name mismatch"));
    }
    if validate(&mut doc).is_err() {
        return answer(Reply::error(400, "invalid review document"));
    }
    Step::Need(Need::SaveReview(sidecar_path(path), doc), Pending::SavedReview)
}

/// What becomes of an export, given what came of reading the sidecar, at the time
/// `now`.
pub open spec fn export_step(
    path: Seq<char>,
    markdown: Seq<char>,
    read: SidecarRead,
    now: Seq<char>,
) -> StepView {
    match loaded(path, read) {
        Err(_) => answered(error_reply(500, "failed to read review data"@)),
        Ok(doc) => {
            let text = export_text(title_of(path), document_anchors(markdown), doc, now);
            StepView::Need(
                NeedView::WriteText(export_file(path), text),
                PendingView::WrittenExport { path: export_file(path), text },
            )
        },
    }
}

fn take_export(path: &str, markdown: &str, read: SidecarRead, now: &str) -> (r: Step)
    ensures
        r@ == export_step(path@, markdown@, read, now@),
{
    match load(path, read) {
        Err(_) => answer(Reply::error(500, "failed to read review data")),
        Ok(doc) => {
            let title = file_title(path);
            let text = export_markdown(title.as_str(), markdown, &doc, now);
            let target = export_path(path);
            Step::Need(
                Need::WriteText(target.clone(), text.clone()),
                Pending::WrittenExport { path: target, text },
            )
        },
    }
}

/// The name at the end of a path, or nothing.
pub open spec fn name_or_nothing(path: Seq<char>) -> Seq<char> {
    match file_name(path) {
        Some(n) => n,
        None => seq![],
    }
}

fn file_name_or_nothing(path: &str) -> (r: String)
    ensures
        r@ == name_or_nothing(path@),
{
    match path_file_name(path) {
        Some(n) => n,
        None => {
            let r = String::new();
            assert(r@ =~= seq![]);
            r
        },
    }
}

/// The reply to an export that was or was not written.
pub open spec fn written_reply(path: Seq<char>, text: Seq<char>, written: bool) -> ReplyView {
    if written {
        json_reply(
            200,
            JsonView::Object(
                seq![
                    ("path"@, JsonView::Text(name_or_nothing(path))),
                    ("markdown"@, JsonView::Text(text)),
                ],
            ),
        )
    } else {
        error_reply(500, "failed to write export file"@)
    }
}

fn written_of(path: &str, exported: &str, written: bool) -> (r: Reply)
    ensures
        r@ == written_reply(path@, exported@, written),
{
    if !written {
        return Reply::error(500, "failed to write export file");
    }
    let name = file_name_or_nothing(path);
    let mut members: Vec<(String, Json)> = Vec::new();
    assert(member_views(members@) =~= seq![]);
    push_member(&mut members, "path", text(name.as_str()));
    push_member(&mut members, "markdown", text(exported));
    assert(member_views(members@) =~= seq![
        ("path"@, JsonView::Text(name@)),
        ("markdown"@, JsonView::Text(exported@)),
    ]);
    Reply::json(200, &object(members))
}

// ---------------------------------------------------------------------------
// The tree
// ---------------------------------------------------------------------------

/// The directory of the document at `path`, or `.` where the path names none.
pub open spec fn document_dir(path: Seq<char>) -> Seq<char> {
    match parent(path) {
        Some(dir) if dir.len() > 0 => dir,
        _ => "."@,
    }
}

/// The directory of the document at `path`, or `.` where the path names none.
pub fn asset_parent_dir(path: &str) -> (r: String)
    ensures
        r@ == document_dir(path@),
{
    match path_parent(path) {
        Some(dir) => {
            if chars_of(dir.as_str()).len() > 0 {
                dir
            } else {
                ".".to_owned()
            }
        },
        None => ".".to_owned(),
    }
}

/// The directory that a window showing the document at `path` stays in.
pub open spec fn window_root(root_dir: Option<Seq<char>>, path: Seq<char>) -> Seq<char> {
    match root_dir {
        Some(dir) => dir,
        None => document_dir(path),
    }
}

fn tree_root_dir(root_dir: Option<&str>, path: &str) -> (r: String)
    ensures
        r@ == window_root(text_ref_option(root_dir), path@),
{
    match root_dir {
        Some(dir) => dir.to_owned(),
        None => asset_parent_dir(path),
    }
}

/// The path of a document below `root`, with `/` between its parts. Where it is
/// not below `root` it is the document's name.
pub open spec fn relative_path(path: Seq<char>, root: Seq<char>) -> Seq<char> {
    if path_within(path, root) {
        joined(names(components(path).skip(components(root).len() as int)), "/"@)
    } else {
        name_or_nothing(path)
    }
}

/// The path of a document below `root`, or its name.
pub fn tree_relative_path(path: &str, root: &str) -> (r: String)
    ensures
        r@ == relative_path(path@, root@),
{
    if !is_within(path, root) {
        return file_name_or_nothing(path);
    }
    let parts = path_components(path);
    let base = path_components(root);
    let skip: usize = base.len();
    let ghost all = part_views(parts@);
    assert(part_views(base@).len() == skip);
    let ghost tail = all.skip(skip as int);
    let mut out = String::new();
    let mut first: bool = true;
    let mut i: usize = skip;
    assert(names(tail.take(0)) =~= seq![]);
    assert(out@ =~= joined(names(tail.take(0)), "/"@));
    while i < parts.len()
        invariant
            all == part_views(parts@),
            tail == all.skip(skip as int),
            skip <= i <= parts@.len(),
            out@ == joined(names(tail.take(i - skip)), "/"@),
            first == (names(tail.take(i - skip)).len() == 0),
        decreases parts@.len() - i,
    {
        let part = parts[i].as_slice();
        let ghost before = names(tail.take(i - skip));
        proof {
            assert(all[i as int] == parts@[i as int]@);
            assert(tail.take(i - skip + 1).drop_last() =~= tail.take(i - skip));
            assert(tail.take(i - skip + 1).last() == part@);
        }
        if is_name_part(part) {
            if !first {
                out.append("/");
            }
            let name = string_of(part);
            out.append(name.as_str());
            first = false;
            proof {
                lemma_joined_push(before, "/"@, part@);
                assert(out@ =~= joined(before.push(part@), "/"@));
            }
        }
        i = i + 1;
    }
    assert(tail.take(i - skip) =~= tail);
    out
}

/// A line of a tree as JSON.
pub open spec fn line_json(line: EntryView) -> JsonView {
    JsonView::Object(
        seq![
            ("path"@, JsonView::Text(line.path)),
            ("name"@, JsonView::Text(line.name)),
            (
                "kind"@,
                JsonView::Text(
                    if line.is_dir {
                        "dir"@
                    } else {
                        "file"@
                    },
                ),
            ),
        ],
    )
}

/// A tree as it is sent.
pub open spec fn tree_reply(
    root: Seq<char>,
    current: Seq<char>,
    lines: Seq<EntryView>,
    truncated: bool,
) -> ReplyView {
    let members = seq![
        ("root"@, JsonView::Text(root)),
        ("current"@, JsonView::Text(current)),
        ("entries"@, JsonView::List(lines.map_values(|l: EntryView| line_json(l)))),
    ];
    json_reply(
        200,
        JsonView::Object(
            if truncated {
                members.push(("truncated"@, JsonView::Bool(true)))
            } else {
                members
            },
        ),
    )
}

fn line_to_json(line: &TreeEntry) -> (r: Json)
    ensures
        r@ == line_json(line@),
{
    let kind = if line.is_dir {
        "dir"
    } else {
        "file"
    };
    let mut members: Vec<(String, Json)> = Vec::new();
    assert(member_views(members@) =~= seq![]);
    push_member(&mut members, "path", text(line.path.as_str()));
    push_member(&mut members, "name", text(line.name.as_str()));
    push_member(&mut members, "kind", text(kind));
    assert(member_views(members@) =~= line_json(line@)->Object_0);
    object(members)
}

fn tree_of(root: &str, current: &str, lines: &Vec<TreeEntry>, truncated: bool) -> (r: Reply)
    ensures
        r@ == tree_reply(root@, current@, entry_views(lines@), truncated),
{
    let ghost all = entry_views(lines@).map_values(|l: EntryView| line_json(l));
    let mut items: Vec<Json> = Vec::new();
    let mut i: usize = 0;
    while i < lines.len()
        invariant
            all == entry_views(lines@).map_values(|l: EntryView| line_json(l)),
            i <= lines@.len(),
            list_views(items@) =~= all.take(i as int),
        decreases lines@.len() - i,
    {
        assert(all[i as int] == line_json(lines@[i as int]@));
        push_item(&mut items, line_to_json(&lines[i]));
        i = i + 1;
    }
    assert(list_views(items@) =~= all);
    let mut members: Vec<(String, Json)> = Vec::new();
    assert(member_views(members@) =~= seq![]);
    push_member(&mut members, "root", text(root));
    push_member(&mut members, "current", text(current));
    push_member(&mut members, "entries", list(items));
    assert(member_views(members@) =~= seq![
        ("root"@, JsonView::Text(root@)),
        ("current"@, JsonView::Text(current@)),
        ("entries"@, JsonView::List(all)),
    ]);
    if truncated {
        push_member(&mut members, "truncated", Json::Bool(true));
    }
    Reply::json(200, &object(members))
}

/// The name of the directory `dir`.
pub open spec fn dir_name(dir: Seq<char>) -> Seq<char> {
    match file_name(dir) {
        Some(n) => n,
        None => "."@,
    }
}

fn name_of_dir(dir: &str) -> (r: String)
    ensures
        r@ == dir_name(dir@),
{
    match path_file_name(dir) {
        Some(n) => n,
        None => ".".to_owned(),
    }
}

/// Whether `step` goes on with the tree of a window that stays in `root` and is
/// named `name` there, and in which `current` is shown: it waits for a directory,
/// or answers with the tree. The tree is the one that `outcome` gives for what the
/// directories hold, whatever they hold as far as `told` says.
pub open spec fn goes_on_with_tree(
    step: Step,
    name: Seq<char>,
    current: Seq<char>,
    outcome: spec_fn(Dirs) -> Listed,
    told: spec_fn(Dirs) -> bool,
) -> bool {
    match step {
        Step::Need(Need::ReadDir(dir, limit), Pending::Tree { scan, root, current: shown }) => {
            &&& scan.wf()
            &&& dir@ == scan.awaited()
            &&& limit == read_limit(scan.left())
            &&& root@ == name
            &&& shown@ == current
            &&& forall|dirs: Dirs| told(dirs) ==> #[trigger] scan.outcome(dirs) == outcome(dirs)
        },
        Step::Need(_, _) => false,
        Step::Done(reply, action) => {
            &&& action == Action::Nothing
            &&& forall|dirs: Dirs|
                told(dirs) ==> reply@ == guarded(
                    tree_reply(
                        name,
                        current,
                        (#[trigger] outcome(dirs)).entries,
                        outcome(dirs).budget.truncated,
                    ),
                )
        },
    }
}

fn wait_for_dir(scan: TreeScan, root: String, current: String) -> (r: Step)
    requires
        scan.wf(),
    ensures
        goes_on_with_tree(
            r,
            root@,
            current@,
            |dirs: Dirs| scan.outcome(dirs),
            |dirs: Dirs| true,
        ),
        r matches Step::Need(_, Pending::Tree { scan: awaiting, .. }) && awaiting == scan,
{
    let dir = scan.dir();
    let limit: usize = scan.limit();
    Step::Need(Need::ReadDir(dir, limit), Pending::Tree { scan, root, current })
}

/// Whether a step asks for the entries of the directory `root`, and for no more of
/// them than may be looked at and one.
pub open spec fn asks_for_root(step: Step, root: Seq<char>) -> bool {
    step matches Step::Need(Need::ReadDir(dir, limit), _) && dir@ == root && limit
        == TREE_MAX_VISITED_ENTRIES + 1
}

fn start_tree(root_dir: Option<&str>, path: &str) -> (r: Step)
    ensures
        ({
            let root = window_root(text_ref_option(root_dir), path@);
            goes_on_with_tree(
                r,
                dir_name(root),
                relative_path(path@, root),
                |dirs: Dirs|
                    scan_dir(
                        dirs,
                        root,
                        seq![],
                        0,
                        ScanBudget {
                            entries: TREE_MAX_ENTRIES,
                            visits: TREE_MAX_VISITED_ENTRIES,
                            truncated: false,
                        },
                    ),
                |dirs: Dirs| true,
            ) && asks_for_root(r, root)
        }),
{
    let root = tree_root_dir(root_dir, path);
    let name = name_of_dir(root.as_str());
    let current = tree_relative_path(path, root.as_str());
    let scan = TreeScan::start(root.as_str(), TREE_MAX_ENTRIES, TREE_MAX_VISITED_ENTRIES);
    wait_for_dir(scan, name, current)
}

fn continue_tree(
    scan: TreeScan,
    root: String,
    current: String,
    items: Option<Vec<DirItem>>,
) -> (r: Step)
    requires
        scan.wf(),
    ensures
        goes_on_with_tree(
            r,
            root@,
            current@,
            |dirs: Dirs| scan.outcome(dirs),
            |dirs: Dirs|
                is_listing(dirs, scan.awaited(), scan.left().visits + 1, listing_view(items)),
        ),
        r matches Step::Need(_, Pending::Tree { scan: next, .. }) ==> next.reads_left()
            < scan.reads_left() && next.left().visits == visits_after(
            scan.left().visits,
            listing_view(items),
        ),
{
    let ghost view = listing_view(items);
    match scan.read(items) {
        TreeStep::Read(next) => wait_for_dir(next, root, current),
        TreeStep::Done(lines, truncated) => {
            let reply = tree_of(root.as_str(), current.as_str(), &lines, truncated);
            Step::Done(guard(reply), Action::Nothing)
        },
    }
}

// ---------------------------------------------------------------------------
// Showing another file
// ---------------------------------------------------------------------------

/// The reply where there is no such file to show.
pub open spec fn no_target_step() -> StepView {
    answered(error_reply(404, "not found"@))
}

/// What becomes of a request to show another file.
pub open spec fn open_step(req: RequestView, viewing: ViewingView) -> StepView {
    if !viewing.allow_open {
        answered(error_reply(501, "switching files is not supported in --browser mode"@))
    } else if !is_own_request(req) {
        answered(no_header_reply())
    } else {
        match viewing.file {
            None => answered(no_file_reply()),
            Some(path) => StepView::Need(
                NeedView::ParseOpen(req.body),
                PendingView::OpenName {
                    root: window_root(viewing.root_dir, path),
                    platform: viewing.platform,
                },
            ),
        }
    }
}

/// What becomes of it once the file is named.
pub open spec fn open_name_step(
    root: Seq<char>,
    platform: Platform,
    name: Option<Seq<char>>,
) -> StepView {
    match name {
        None => answered(error_reply(400, "invalid request body"@)),
        Some(given) => {
            let rel = slashed(given, platform);
            if !is_plain_on(rel, platform) {
                answered(error_reply(400, "invalid path"@))
            } else if !is_markdown(rel) {
                answered(error_reply(400, "invalid file extension"@))
            } else {
                StepView::Need(
                    NeedView::IsSymlink(joined_path(root, rel)),
                    PendingView::OpenLink { root, candidate: joined_path(root, rel) },
                )
            }
        },
    }
}

/// What becomes of it once it is known whether the file is a link.
pub open spec fn open_link_step(root: Seq<char>, candidate: Seq<char>, is_link: bool) -> StepView {
    if is_link {
        no_target_step()
    } else {
        StepView::Need(NeedView::Canonicalize(root), PendingView::OpenRoot { candidate })
    }
}

/// What becomes of it once its directory is resolved.
pub open spec fn open_root_step(candidate: Seq<char>, root: Option<Seq<char>>) -> StepView {
    match root {
        None => no_target_step(),
        Some(dir) => StepView::Need(
            NeedView::Canonicalize(candidate),
            PendingView::OpenFile { root: dir },
        ),
    }
}

/// What becomes of it once it is resolved itself.
pub open spec fn open_file_step(root: Seq<char>, target: Option<Seq<char>>) -> StepView {
    match target {
        Some(path) if path_within(path, root) => StepView::Need(
            NeedView::Metadata(path),
            PendingView::OpenTarget { target: path },
        ),
        _ => no_target_step(),
    }
}

/// What becomes of it once it is known what it is.
pub open spec fn open_target_step(target: Seq<char>, info: Option<FileInfo>) -> StepView {
    match info {
        Some(i) if i.is_file => answered_with(reloaded_reply(), ActionView::OpenFile(target)),
        _ => no_target_step(),
    }
}

fn no_target() -> (r: Step)
    ensures
        r@ == no_target_step(),
{
    answer(Reply::error(404, "not found"))
}

fn handle_open(req: &RouteRequest, viewing: &Viewing) -> (r: Step)
    ensures
        r@ == open_step(req@, viewing@),
{
    if !viewing.allow_open {
        return answer(Reply::error(501, "switching files is not supported in --browser mode"));
    }
    if !has_request_header(req) {
        return answer(missing_header());
    }
    match viewing.file {
        None => answer(no_file_open()),
        Some(path) => {
            let root = tree_root_dir(viewing.root_dir, path);
            Step::Need(
                Need::ParseOpen(copy_bytes(req.body)),
                Pending::OpenName { root, platform: viewing.platform },
            )
        },
    }
}

/// A copy of `bytes`.
fn copy_bytes(bytes: &[u8]) -> (r: Vec<u8>)
    ensures
        r@ == bytes@,
{
    let mut out: Vec<u8> = Vec::new();
    let mut i: usize = 0;
    while i < bytes.len()
        invariant
            i <= bytes@.len(),
            out@ == bytes@.take(i as int),
        decreases bytes@.len() - i,
    {
        out.push(bytes[i]);
        i = i + 1;
        assert(out@ =~= bytes@.take(i as int));
    }
    assert(bytes@.take(i as int) =~= bytes@);
    out
}

fn take_open_name(root: String, platform: Platform, name: Option<String>) -> (r: Step)
    ensures
        r@ == open_name_step(root@, platform, text_option(name)),
{
    match name {
        None => answer(Reply::error(400, "invalid request body")),
        Some(given) => {
            let rel = to_slashed(given.as_str(), platform);
            if !is_plain_relative_on(rel.as_str(), platform) {
                return answer(Reply::error(400, "invalid path"));
            }
            if !is_markdown_file(rel.as_str()) {
                return answer(Reply::error(400, "invalid file extension"));
            }
            let candidate = path_join(root.as_str(), rel.as_str());
            Step::Need(Need::IsSymlink(candidate.clone()), Pending::OpenLink { root, candidate })
        },
    }
}

fn take_open_file(root: &str, target: Option<String>) -> (r: Step)
    ensures
        r@ == open_file_step(root@, text_option(target)),
{
    match target {
        None => no_target(),
        Some(path) => {
            if is_within(path.as_str(), root) {
                Step::Need(Need::Metadata(path.clone()), Pending::OpenTarget { target: path })
            } else {
                no_target()
            }
        },
    }
}

fn take_open_target(target: String, info: Option<FileInfo>) -> (r: Step)
    ensures
        r@ == open_target_step(target@, info),
{
    match info {
        None => no_target(),
        Some(i) => {
            if i.is_file {
                answer_with(reloaded(), Action::OpenFile(target))
            } else {
                no_target()
            }
        },
    }
}

// ---------------------------------------------------------------------------
// History
// ---------------------------------------------------------------------------

/// Where the history of a window goes, as it is sent. There is none in a browser.
pub open spec fn nav_reply(viewing: ViewingView) -> ReplyView {
    let (back, forward) = match viewing.nav {
        Some(n) if viewing.allow_open => n,
        _ => (false, false),
    };
    json_reply(
        200,
        JsonView::Object(
            seq![("back"@, JsonView::Bool(back)), ("forward"@, JsonView::Bool(forward))],
        ),
    )
}

/// What becomes of a request to move through the history.
pub open spec fn nav_step(req: RequestView, viewing: ViewingView) -> StepView {
    if !viewing.allow_open {
        answered(error_reply(501, "navigation is not supported in --browser mode"@))
    } else if !is_own_request(req) {
        answered(no_header_reply())
    } else {
        match viewing.nav {
            None => answered(no_file_reply()),
            Some((can_back, can_forward)) => StepView::Need(
                NeedView::ParseNav(req.body),
                PendingView::NavName { can_back, can_forward },
            ),
        }
    }
}

/// What becomes of it once the direction is named.
pub open spec fn nav_name_step(
    can_back: bool,
    can_forward: bool,
    dir: Option<Seq<char>>,
) -> StepView {
    match dir {
        None => answered(error_reply(400, "invalid request body"@)),
        Some(d) => if d == "back"@ {
            if can_back {
                answered_with(reloaded_reply(), ActionView::Navigate(NavDirection::Back))
            } else {
                answered(error_reply(409, "no further history"@))
            }
        } else if d == "forward"@ {
            if can_forward {
                answered_with(reloaded_reply(), ActionView::Navigate(NavDirection::Forward))
            } else {
                answered(error_reply(409, "no further history"@))
            }
        } else {
            answered(error_reply(400, "invalid direction"@))
        },
    }
}

fn handle_nav_get(viewing: &Viewing) -> (r: Reply)
    ensures
        r@ == nav_reply(viewing@),
{
    let (back, forward) = match viewing.nav {
        Some(n) => if viewing.allow_open {
            n
        } else {
            (false, false)
        },
        None => (false, false),
    };
    let mut members: Vec<(String, Json)> = Vec::new();
    assert(member_views(members@) =~= seq![]);
    push_member(&mut members, "back", Json::Bool(back));
    push_member(&mut members, "forward", Json::Bool(forward));
    assert(member_views(members@) =~= seq![
        ("back"@, JsonView::Bool(back)),
        ("forward"@, JsonView::Bool(forward)),
    ]);
    Reply::json(200, &object(members))
}

fn handle_nav_put(req: &RouteRequest, viewing: &Viewing) -> (r: Step)
    ensures
        r@ == nav_step(req@, viewing@),
{
    if !viewing.allow_open {
        return answer(Reply::error(501, "navigation is not supported in --browser mode"));
    }
    if !has_request_header(req) {
        return answer(missing_header());
    }
    match viewing.nav {
        None => answer(no_file_open()),
        Some((can_back, can_forward)) => Step::Need(
            Need::ParseNav(copy_bytes(req.body)),
            Pending::NavName { can_back, can_forward },
        ),
    }
}

fn take_nav_name(can_back: bool, can_forward: bool, dir: Option<String>) -> (r: Step)
    ensures
        r@ == nav_name_step(can_back, can_forward, text_option(dir)),
{
    let dir = match dir {
        None => {
            return answer(Reply::error(400, "invalid request body"));
        },
        Some(d) => d,
    };
    let (direction, available) = if same_text(dir.as_str(), "back") {
        (NavDirection::Back, can_back)
    } else if same_text(dir.as_str(), "forward") {
        (NavDirection::Forward, can_forward)
    } else {
        return answer(Reply::error(400, "invalid direction"));
    };
    if available {
        answer_with(reloaded(), Action::Navigate(direction))
    } else {
        answer(Reply::error(409, "no further history"))
    }
}

// ---------------------------------------------------------------------------
// Images
// ---------------------------------------------------------------------------

/// The content type for a file with the extension `extension` in lower case. Files
/// without one are not sent.
pub open spec fn image_type(extension: Seq<char>) -> Option<Seq<char>> {
    if extension == "png"@ {
        Some("image/png"@)
    } else if extension == "jpg"@ || extension == "jpeg"@ {
        Some("image/jpeg"@)
    } else if extension == "gif"@ {
        Some("image/gif"@)
    } else if extension == "webp"@ {
        Some("image/webp"@)
    } else if extension == "bmp"@ {
        Some("image/bmp"@)
    } else if extension == "svg"@ {
        Some("image/svg+xml"@)
    } else if extension == "avif"@ {
        Some("image/avif"@)
    } else if extension == "ico"@ {
        Some("image/x-icon"@)
    } else {
        None
    }
}

/// The content type for the file at `path`.
pub open spec fn asset_type(path: Seq<char>) -> Option<Seq<char>> {
    match extension(path) {
        Some(e) => image_type(ascii_lower(e)),
        None => None,
    }
}

/// The path that the query of a request for an image holds, still encoded.
pub open spec fn asset_param(req: RequestView) -> Option<Seq<char>> {
    param_of(split(query_of(req.path), '&'), "p"@, 0)
}

/// The image that a request asks for, where it can be made out.
pub open spec fn asset_path(raw: Seq<char>) -> Option<Seq<char>> {
    let bytes = percent_decoded(encode_utf8(raw));
    if valid_utf8(bytes) {
        Some(decode_utf8(bytes))
    } else {
        None
    }
}

/// What becomes of a request for an image.
pub open spec fn asset_step(req: RequestView, viewing: ViewingView) -> StepView {
    match viewing.file {
        None => asset_answered(no_file_reply()),
        Some(path) => match asset_param(req) {
            None => asset_answered(error_reply(400, "missing p query parameter"@)),
            Some(raw) => match asset_path(raw) {
                None => asset_answered(error_reply(400, "invalid p query parameter"@)),
                Some(given) => {
                    let rel = slashed(given, viewing.platform);
                    if !is_plain_on(rel, viewing.platform) {
                        asset_answered(error_reply(400, "invalid path"@))
                    } else if asset_type(rel) is None {
                        asset_answered(not_found_reply())
                    } else {
                        StepView::Need(
                            NeedView::Canonicalize(document_dir(path)),
                            PendingView::AssetRoot { dir: document_dir(path), rel },
                        )
                    }
                },
            },
        },
    }
}

/// What becomes of it once the document's directory is resolved.
pub open spec fn asset_root_step(
    dir: Seq<char>,
    rel: Seq<char>,
    root: Option<Seq<char>>,
) -> StepView {
    match root {
        None => asset_answered(not_found_reply()),
        Some(r) => StepView::Need(
            NeedView::Canonicalize(joined_path(dir, rel)),
            PendingView::AssetFile { root: r, rel },
        ),
    }
}

/// What becomes of it once it is resolved itself.
pub open spec fn asset_file_step(
    root: Seq<char>,
    rel: Seq<char>,
    target: Option<Seq<char>>,
) -> StepView {
    match target {
        Some(path) if path_within(path, root) => StepView::Need(
            NeedView::Metadata(path),
            PendingView::AssetTarget { target: path, rel },
        ),
        _ => asset_answered(not_found_reply()),
    }
}

/// What becomes of it once its size is known.
pub open spec fn asset_target_step(
    target: Seq<char>,
    rel: Seq<char>,
    info: Option<FileInfo>,
) -> StepView {
    match info {
        None => asset_answered(not_found_reply()),
        Some(i) => if i.len > ASSET_MAX_BYTES {
            asset_answered(text_reply(413, "413 Payload Too Large"@))
        } else {
            StepView::Need(NeedView::ReadBytes(target), PendingView::AssetBytes { rel })
        },
    }
}

/// What becomes of it once it is read.
pub open spec fn asset_bytes_step(rel: Seq<char>, bytes: Option<Seq<u8>>) -> StepView {
    match bytes {
        None => asset_answered(not_found_reply()),
        Some(b) => asset_answered(
            typed_reply(
                match asset_type(rel) {
                    Some(t) => t,
                    None => "application/octet-stream"@,
                },
                b,
            ),
        ),
    }
}

/// The content type for a file with the extension `extension` in lower case.
fn image_type_of(extension: &[char]) -> (r: Option<&'static str>)
    ensures
        text_ref_option(r) == image_type(extension@),
{
    if same_chars(extension, chars_of("png").as_slice()) {
        Some("image/png")
    } else if same_chars(extension, chars_of("jpg").as_slice()) || same_chars(
        extension,
        chars_of("jpeg").as_slice(),
    ) {
        Some("image/jpeg")
    } else if same_chars(extension, chars_of("gif").as_slice()) {
        Some("image/gif")
    } else if same_chars(extension, chars_of("webp").as_slice()) {
        Some("image/webp")
    } else if same_chars(extension, chars_of("bmp").as_slice()) {
        Some("image/bmp")
    } else if same_chars(extension, chars_of("svg").as_slice()) {
        Some("image/svg+xml")
    } else if same_chars(extension, chars_of("avif").as_slice()) {
        Some("image/avif")
    } else if same_chars(extension, chars_of("ico").as_slice()) {
        Some("image/x-icon")
    } else {
        None
    }
}

/// The content type for the file at `path`.
fn asset_content_type(path: &str) -> (r: Option<&'static str>)
    ensures
        text_ref_option(r) == asset_type(path@),
{
    match path_extension(path) {
        Some(e) => {
            let e = chars_of(e.as_str());
            let lower = lower_chars(e.as_slice());
            image_type_of(lower.as_slice())
        },
        None => None,
    }
}

fn handle_asset(req: &RouteRequest, viewing: &Viewing) -> (r: Step)
    ensures
        r@ == asset_step(req@, viewing@),
{
    let path = match viewing.file {
        None => {
            return answer_asset(no_file_open());
        },
        Some(p) => p,
    };
    let chars = chars_of(req.path);
    let (route, query) = route_and_query(chars.as_slice());
    let raw = match query_param(query, "p") {
        None => {
            return answer_asset(Reply::error(400, "missing p query parameter"));
        },
        Some(v) => string_of(v),
    };
    let rel = match percent_decode(raw.as_str()) {
        None => {
            return answer_asset(Reply::error(400, "invalid p query parameter"));
        },
        Some(t) => to_slashed(t.as_str(), viewing.platform),
    };
    if !is_plain_relative_on(rel.as_str(), viewing.platform) {
        return answer_asset(Reply::error(400, "invalid path"));
    }
    if asset_content_type(rel.as_str()).is_none() {
        return answer_asset(not_found());
    }
    let dir = asset_parent_dir(path);
    Step::Need(Need::Canonicalize(dir.clone()), Pending::AssetRoot { dir, rel })
}

fn take_asset_root(dir: &str, rel: String, root: Option<String>) -> (r: Step)
    ensures
        r@ == asset_root_step(dir@, rel@, text_option(root)),
{
    match root {
        None => answer_asset(not_found()),
        Some(root) => {
            let candidate = path_join(dir, rel.as_str());
            Step::Need(Need::Canonicalize(candidate), Pending::AssetFile { root, rel })
        },
    }
}

fn take_asset_file(root: &str, rel: String, target: Option<String>) -> (r: Step)
    ensures
        r@ == asset_file_step(root@, rel@, text_option(target)),
{
    match target {
        None => answer_asset(not_found()),
        Some(target) => {
            if is_within(target.as_str(), root) {
                Step::Need(Need::Metadata(target.clone()), Pending::AssetTarget { target, rel })
            } else {
                answer_asset(not_found())
            }
        },
    }
}

fn take_asset_target(target: String, rel: String, info: Option<FileInfo>) -> (r: Step)
    ensures
        r@ == asset_target_step(target@, rel@, info),
{
    match info {
        None => answer_asset(not_found()),
        Some(i) => {
            if i.len > ASSET_MAX_BYTES {
                answer_asset(Reply::text(413, "413 Payload Too Large"))
            } else {
                Step::Need(Need::ReadBytes(target), Pending::AssetBytes { rel })
            }
        },
    }
}

fn take_asset_bytes(rel: &str, bytes: Option<Vec<u8>>) -> (r: Step)
    ensures
        r@ == asset_bytes_step(
            rel@,
            match bytes {
                Some(b) => Some(b@),
                None => None,
            },
        ),
{
    match bytes {
        None => answer_asset(not_found()),
        Some(b) => {
            let content_type = match asset_content_type(rel) {
                Some(t) => t,
                None => "application/octet-stream",
            };
            answer_asset(Reply::typed(content_type, b))
        },
    }
}

// ---------------------------------------------------------------------------
// All routes
// ---------------------------------------------------------------------------

/// Whether a request only reads.
pub open spec fn is_read(method: Seq<char>) -> bool {
    method == "GET"@ || method == "HEAD"@
}

/// Whether a request is for the tree of a window that shows a file.
pub open spec fn is_tree_request(req: RequestView, viewing: ViewingView) -> bool {
    req.method == "GET"@ && route_of(req.path) == "/tree"@ && viewing.file is Some
}

/// What becomes of a request for the comments.
pub open spec fn review_step(viewing: ViewingView) -> StepView {
    match viewing.file {
        None => answered(no_file_reply()),
        Some(path) => StepView::Need(
            NeedView::ReadSidecar(path + ".review.json"@),
            PendingView::Review { path },
        ),
    }
}

/// What becomes of a request to replace the comments.
pub open spec fn put_review_step(req: RequestView, viewing: ViewingView) -> StepView {
    if !is_own_request(req) {
        answered(no_header_reply())
    } else {
        match viewing.file {
            None => answered(no_file_reply()),
            Some(path) => StepView::Need(
                NeedView::ParseReview(req.body),
                PendingView::NewReview { path },
            ),
        }
    }
}

/// What becomes of a request to export the comments.
pub open spec fn post_export_step(req: RequestView, viewing: ViewingView) -> StepView {
    if !is_own_request(req) {
        answered(no_header_reply())
    } else {
        match viewing.file {
            None => answered(no_file_reply()),
            Some(path) => StepView::Need(NeedView::ReadText(path), PendingView::Export { path }),
        }
    }
}

/// What becomes of a request for the page.
pub open spec fn page_step(viewing: ViewingView) -> StepView {
    match viewing.file {
        None => answered(
            empty_page_reply(viewing.version, viewing.allow_remote_images, !viewing.allow_open),
        ),
        Some(path) => StepView::Need(
            NeedView::ReadText(path),
            PendingView::Page {
                path,
                version: viewing.version,
                allow_remote_images: viewing.allow_remote_images,
                browser_mode: !viewing.allow_open,
            },
        ),
    }
}

/// What becomes of a request for the body.
pub open spec fn body_step(viewing: ViewingView) -> StepView {
    match viewing.file {
        None => answered(html_reply(200, EMPTY_BODY_HTML@)),
        Some(path) => StepView::Need(NeedView::ReadText(path), PendingView::Body { path }),
    }
}

/// What becomes of a request, other than one for the tree of a window that shows a
/// file.
pub open spec fn handled(req: RequestView, viewing: ViewingView) -> StepView {
    let method = req.method;
    let route = route_of(req.path);
    if route == "/asset"@ && is_read(method) {
        asset_step(req, viewing)
    } else if route == "/"@ && is_read(method) {
        page_step(viewing)
    } else if route == "/version"@ && is_read(method) {
        answered(text_reply(200, decimal(viewing.version as nat)))
    } else if route == "/body"@ && is_read(method) {
        body_step(viewing)
    } else if route == "/review"@ && method == "GET"@ {
        review_step(viewing)
    } else if route == "/review"@ && method == "PUT"@ {
        put_review_step(req, viewing)
    } else if route == "/export"@ && method == "POST"@ {
        post_export_step(req, viewing)
    } else if route == "/tree"@ && method == "GET"@ {
        answered(no_file_reply())
    } else if route == "/open"@ && method == "PUT"@ {
        open_step(req, viewing)
    } else if route == "/nav"@ && method == "GET"@ {
        answered(nav_reply(viewing))
    } else if route == "/nav"@ && method == "PUT"@ {
        nav_step(req, viewing)
    } else {
        answered(not_found_reply())
    }
}

/// The tree of a window that shows the document at `path`, for what the
/// directories hold.
pub open spec fn window_tree(root_dir: Option<Seq<char>>, path: Seq<char>) -> spec_fn(
    Dirs,
) -> Listed {
    |dirs: Dirs|
        scan_dir(
            dirs,
            window_root(root_dir, path),
            seq![],
            0,
            ScanBudget {
                entries: TREE_MAX_ENTRIES,
                visits: TREE_MAX_VISITED_ENTRIES,
                truncated: false,
            },
        )
}

impl Pending {
    /// What always holds of a request that waits.
    pub open spec fn wf(self) -> bool {
        self matches Pending::Tree { scan, .. } ==> scan.wf()
    }
}

impl Step {
    /// What always holds of a step.
    pub open spec fn wf(self) -> bool {
        self matches Step::Need(_, pending) ==> pending.wf()
    }
}

/// What becomes of a request for the page.
fn handle_root(viewing: &Viewing) -> (r: Step)
    ensures
        r@ == page_step(viewing@),
{
    match viewing.file {
        None => answer(
            empty_page(viewing.version, viewing.allow_remote_images, !viewing.allow_open),
        ),
        Some(path) => Step::Need(
            Need::ReadText(path.to_owned()),
            Pending::Page {
                path: path.to_owned(),
                version: viewing.version,
                allow_remote_images: viewing.allow_remote_images,
                browser_mode: !viewing.allow_open,
            },
        ),
    }
}

/// What becomes of a request for the body.
fn handle_body(viewing: &Viewing) -> (r: Step)
    ensures
        r@ == body_step(viewing@),
{
    match viewing.file {
        None => answer(Reply::html(200, EMPTY_BODY_HTML)),
        Some(path) => Step::Need(
            Need::ReadText(path.to_owned()),
            Pending::Body { path: path.to_owned() },
        ),
    }
}

/// What becomes of a request for the version.
fn handle_version(version: u64) -> (r: Reply)
    ensures
        r@ == text_reply(200, decimal(version as nat)),
{
    let mut out = String::new();
    push_decimal(&mut out, version as u128);
    assert(out@ =~= decimal(version as nat));
    Reply::text(200, out.as_str())
}

/// What becomes of a request for the comments.
fn handle_get_review(viewing: &Viewing) -> (r: Step)
    ensures
        r@ == review_step(viewing@),
{
    match viewing.file {
        None => answer(no_file_open()),
        Some(path) => Step::Need(
            Need::ReadSidecar(sidecar_path(path)),
            Pending::Review { path: path.to_owned() },
        ),
    }
}

/// What becomes of a request to replace the comments.
fn handle_put_review(req: &RouteRequest, viewing: &Viewing) -> (r: Step)
    ensures
        r@ == put_review_step(req@, viewing@),
{
    if !has_request_header(req) {
        return answer(missing_header());
    }
    match viewing.file {
        None => answer(no_file_open()),
        Some(path) => Step::Need(
            Need::ParseReview(copy_bytes(req.body)),
            Pending::NewReview { path: path.to_owned() },
        ),
    }
}

/// What becomes of a request to export the comments.
fn handle_export(req: &RouteRequest, viewing: &Viewing) -> (r: Step)
    ensures
        r@ == post_export_step(req@, viewing@),
{
    if !has_request_header(req) {
        return answer(missing_header());
    }
    match viewing.file {
        None => answer(no_file_open()),
        Some(path) => Step::Need(
            Need::ReadText(path.to_owned()),
            Pending::Export { path: path.to_owned() },
        ),
    }
}

/// What becomes of a request for the tree.
fn handle_tree(viewing: &Viewing) -> (r: Step)
    ensures
        match viewing.file {
            None => r@ == answered(no_file_reply()),
            Some(path) => asks_for_root(r, window_root(viewing@.root_dir, path@))
                && goes_on_with_tree(
                r,
                dir_name(window_root(viewing@.root_dir, path@)),
                relative_path(path@, window_root(viewing@.root_dir, path@)),
                window_tree(viewing@.root_dir, path@),
                |dirs: Dirs| true,
            ),
        },
        r.wf(),
{
    match viewing.file {
        None => answer(no_file_open()),
        Some(path) => start_tree(viewing.root_dir, path),
    }
}

/// What becomes of the request `req`, where `file` is shown and was seen to change
/// `version` times.
///
/// The query counts for nothing but on the route of images. Every reply forbids
/// caching, guessing at its type, and showing it in a frame.
///
/// - `GET` or `HEAD /`: the page, which polls for changes.
/// - `GET` or `HEAD /version`: the version.
/// - `GET` or `HEAD /body`: the body of the document, with its title in the header
///   `X-Mdview-Title`.
/// - `GET /review`: the comments, and the hashes among them that are in the
///   document no more.
/// - `PUT /review`: replaces the comments. It has to carry [`REQUEST_HEADER`].
/// - `POST /export`: writes the comments as Markdown. It has to carry the header
///   too.
/// - `GET` or `HEAD /asset?p=..`: an image beside the document.
/// - `GET /tree`: the Markdown files in the directory of the window.
/// - `PUT /open`: shows another of them, where `allow_open` says so.
/// - `GET /nav`: whether the history of the window goes back and forward.
/// - `PUT /nav`: moves through it, where `allow_open` says so.
///
/// `root_dir` is the directory that the window stays in. Without one it is that of
/// the file. `nav` is whether its history goes back and forward. The paths that the
/// request names have `/` between their components.
pub fn handle(
    req: &RouteRequest,
    file: Option<&str>,
    version: u64,
    allow_remote_images: bool,
    allow_open: bool,
    root_dir: Option<&str>,
    nav: Option<(bool, bool)>,
) -> (r: Step)
    ensures
        is_handled(
            r,
            req@,
            (ViewingView {
                file: text_ref_option(file),
                version,
                allow_remote_images,
                allow_open,
                root_dir: text_ref_option(root_dir),
                nav,
                platform: Platform::Other,
            }),
        ),
        r.wf(),
{
    let platform = Platform::Other;
    let viewing = Viewing {
        file,
        version,
        allow_remote_images,
        allow_open,
        root_dir,
        nav,
        platform,
    };
    handle_viewing(req, &viewing)
}

/// Whether `step` is what becomes of the request `req`.
pub open spec fn is_handled(step: Step, req: RequestView, viewing: ViewingView) -> bool {
    if is_tree_request(req, viewing) {
        asks_for_root(step, window_root(viewing.root_dir, viewing.file->Some_0))
            && goes_on_with_tree(
            step,
            dir_name(window_root(viewing.root_dir, viewing.file->Some_0)),
            relative_path(
                viewing.file->Some_0,
                window_root(viewing.root_dir, viewing.file->Some_0),
            ),
            window_tree(viewing.root_dir, viewing.file->Some_0),
            |dirs: Dirs| true,
        )
    } else {
        step@ == handled(req, viewing)
    }
}

/// What becomes of the request `req` where `viewing` is shown. This is [`handle`] on
/// any platform.
#[verifier::rlimit(30)]
pub fn handle_viewing(req: &RouteRequest, viewing: &Viewing) -> (r: Step)
    ensures
        is_handled(r, req@, viewing@),
        r.wf(),
{
    let method = req.method;
    let path = chars_of(req.path);
    let (route, query) = route_and_query(path.as_slice());
    let route = string_of(route);
    let route = route.as_str();
    let get = same_text(method, "GET");
    let put = same_text(method, "PUT");
    let read = get || same_text(method, "HEAD");
    proof {
        reveal_strlit("/asset");
        reveal_strlit("/");
        reveal_strlit("/version");
        reveal_strlit("/body");
        reveal_strlit("/review");
        reveal_strlit("/export");
        reveal_strlit("/tree");
        assert("/tree"@.len() == 5 && "/tree"@[1] != "/body"@[1]);
        assert("/asset"@.len() == 6 && "/"@.len() == 1 && "/version"@.len() == 8);
        assert("/review"@.len() == 7 && "/export"@.len() == 7);
    }
    if read && same_text(route, "/asset") {
        handle_asset(req, viewing)
    } else if read && same_text(route, "/") {
        handle_root(viewing)
    } else if read && same_text(route, "/version") {
        answer(handle_version(viewing.version))
    } else if read && same_text(route, "/body") {
        handle_body(viewing)
    } else if get && same_text(route, "/review") {
        handle_get_review(viewing)
    } else if put && same_text(route, "/review") {
        handle_put_review(req, viewing)
    } else if same_text(method, "POST") && same_text(route, "/export") {
        handle_export(req, viewing)
    } else if get && same_text(route, "/tree") {
        handle_tree(viewing)
    } else if put && same_text(route, "/open") {
        handle_open(req, viewing)
    } else if get && same_text(route, "/nav") {
        answer(handle_nav_get(viewing))
    } else if put && same_text(route, "/nav") {
        handle_nav_put(req, viewing)
    } else {
        answer(not_found())
    }
}

/// What becomes of a request that waited, other than one for the tree, at the time
/// `now`.
pub open spec fn resumed(pending: PendingView, answer: Answer, now: Seq<char>) -> StepView {
    match pending {
        PendingView::Page { path, version, allow_remote_images, browser_mode } => answered(
            page_reply(path, answer.text_view(), version, allow_remote_images, browser_mode),
        ),
        PendingView::Body { path } => answered(body_reply(path, answer.text_view())),
        PendingView::Review { path } => match loaded(path, answer.sidecar_view()) {
            Err(_) => answered(error_reply(500, "failed to read review data"@)),
            Ok(doc) => StepView::Need(NeedView::ReadText(path), PendingView::ReviewText { doc }),
        },
        PendingView::ReviewText { doc } => answered(review_reply(doc, answer.text_view())),
        PendingView::NewReview { path } => new_review_step(path, answer.review_view()),
        PendingView::SavedReview => answered(
            if answer.flag_view() {
                ok_reply()
            } else {
                error_reply(500, "failed to save review data"@)
            },
        ),
        PendingView::Export { path } => match answer.text_view() {
            None => answered(error_reply(500, "failed to read document"@)),
            Some(markdown) => StepView::Need(
                NeedView::ReadSidecar(path + ".review.json"@),
                PendingView::ExportReview { path, markdown },
            ),
        },
        PendingView::ExportReview { path, markdown } => export_step(
            path,
            markdown,
            answer.sidecar_view(),
            now,
        ),
        PendingView::WrittenExport { path, text } => answered(
            written_reply(path, text, answer.flag_view()),
        ),
        PendingView::Tree { .. } => arbitrary(),
        PendingView::OpenName { root, platform } => open_name_step(
            root,
            platform,
            answer.text_view(),
        ),
        PendingView::OpenLink { root, candidate } => open_link_step(
            root,
            candidate,
            answer.flag_view(),
        ),
        PendingView::OpenRoot { candidate } => open_root_step(candidate, answer.text_view()),
        PendingView::OpenFile { root } => open_file_step(root, answer.text_view()),
        PendingView::OpenTarget { target } => open_target_step(target, answer.metadata_view()),
        PendingView::NavName { can_back, can_forward } => nav_name_step(
            can_back,
            can_forward,
            answer.text_view(),
        ),
        PendingView::AssetRoot { dir, rel } => asset_root_step(dir, rel, answer.text_view()),
        PendingView::AssetFile { root, rel } => asset_file_step(root, rel, answer.text_view()),
        PendingView::AssetTarget { target, rel } => asset_target_step(
            target,
            rel,
            answer.metadata_view(),
        ),
        PendingView::AssetBytes { rel } => asset_bytes_step(rel, answer.bytes_view()),
    }
}

/// Whether `step` is what becomes of a request that waited with `pending`, at the
/// time `now`.
pub open spec fn is_resumed(step: Step, pending: Pending, answer: Answer, now: Seq<char>) -> bool {
    match pending {
        Pending::Tree { scan, root, current } => {
            &&& goes_on_with_tree(
                step,
                root@,
                current@,
                |dirs: Dirs| scan.outcome(dirs),
                |dirs: Dirs|
                    is_listing(
                        dirs,
                        scan.awaited(),
                        scan.left().visits + 1,
                        answer.entries_view(),
                    ),
            )
            &&& step matches Step::Need(_, Pending::Tree { scan: next, .. })
                ==> next.reads_left() < scan.reads_left() && next.left().visits == visits_after(
                scan.left().visits,
                answer.entries_view(),
            )
        },
        _ => step@ == resumed(pending@, answer, now),
    }
}

/// What becomes of a request that waited with `pending` for `reply`, at the time
/// `now`.
#[verifier::rlimit(40)]
pub fn resume_at(pending: Pending, reply: Answer, now: &str) -> (r: Step)
    requires
        pending.wf(),
    ensures
        is_resumed(r, pending, reply, now@),
        r.wf(),
{
    match pending {
        Pending::Page { path, version, allow_remote_images, browser_mode } => answer(
            page_of(
                path.as_str(),
                reply.into_text(),
                version,
                allow_remote_images,
                browser_mode,
            ),
        ),
        Pending::Body { path } => answer(body_of(path.as_str(), reply.into_text())),
        Pending::Review { path } => match load(path.as_str(), reply.into_sidecar()) {
            Err(_) => answer(Reply::error(500, "failed to read review data")),
            Ok(doc) => Step::Need(Need::ReadText(path), Pending::ReviewText { doc }),
        },
        Pending::ReviewText { doc } => answer(review_of(&doc, reply.into_text())),
        Pending::NewReview { path } => take_new_review(path.as_str(), reply.into_review()),
        Pending::SavedReview => {
            if reply.into_flag() {
                answer(ok())
            } else {
                answer(Reply::error(500, "failed to save review data"))
            }
        },
        Pending::Export { path } => match reply.into_text() {
            None => answer(Reply::error(500, "failed to read document")),
            Some(markdown) => Step::Need(
                Need::ReadSidecar(sidecar_path(path.as_str())),
                Pending::ExportReview { path, markdown },
            ),
        },
        Pending::ExportReview { path, markdown } => take_export(
            path.as_str(),
            markdown.as_str(),
            reply.into_sidecar(),
            now,
        ),
        Pending::WrittenExport { path, text } => {
            let written = reply.into_flag();
            answer(written_of(path.as_str(), text.as_str(), written))
        },
        Pending::Tree { scan, root, current } => continue_tree(
            scan,
            root,
            current,
            reply.into_listing(),
        ),
        Pending::OpenName { root, platform } => take_open_name(
            root,
            platform,
            reply.into_text(),
        ),
        Pending::OpenLink { root, candidate } => {
            if reply.into_flag() {
                no_target()
            } else {
                Step::Need(Need::Canonicalize(root), Pending::OpenRoot { candidate })
            }
        },
        Pending::OpenRoot { candidate } => match reply.into_text() {
            None => no_target(),
            Some(root) => Step::Need(Need::Canonicalize(candidate), Pending::OpenFile { root }),
        },
        Pending::OpenFile { root } => take_open_file(root.as_str(), reply.into_text()),
        Pending::OpenTarget { target } => take_open_target(target, reply.into_metadata()),
        Pending::NavName { can_back, can_forward } => take_nav_name(
            can_back,
            can_forward,
            reply.into_text(),
        ),
        Pending::AssetRoot { dir, rel } => take_asset_root(dir.as_str(), rel, reply.into_text()),
        Pending::AssetFile { root, rel } => take_asset_file(root.as_str(), rel, reply.into_text()),
        Pending::AssetTarget { target, rel } => take_asset_target(
            target,
            rel,
            reply.into_metadata(),
        ),
        Pending::AssetBytes { rel } => take_asset_bytes(rel.as_str(), reply.into_bytes()),
    }
}

/// What becomes of a request that waited with `pending` for `reply`, now.
pub fn resume(pending: Pending, reply: Answer) -> (r: Step)
    requires
        pending.wf(),
    ensures
        exists|now: Seq<char>| is_timestamp(now) && #[trigger] is_resumed(r, pending, reply, now),
        r.wf(),
{
    let now = now_rfc3339();
    resume_at(pending, reply, now.as_str())
}

// ---------------------------------------------------------------------------
// Laws
// ---------------------------------------------------------------------------

/// Whether a reply ends with the headers that every reply has, and with this
/// policy.
pub open spec fn is_closed_by(reply: ReplyView, policy: Seq<char>) -> bool {
    let h = reply.headers;
    let n = h.len();
    &&& n >= 3
    &&& h[n - 3] == ("Cache-Control"@, "no-store"@)
    &&& h[n - 2] == ("X-Content-Type-Options"@, "nosniff"@)
    &&& h[n - 1] == ("Content-Security-Policy"@, policy)
}

/// Whether a request that waits is one for an image.
pub open spec fn waits_for_image(pending: PendingView) -> bool {
    match pending {
        PendingView::AssetRoot { .. } => true,
        PendingView::AssetFile { .. } => true,
        PendingView::AssetTarget { .. } => true,
        PendingView::AssetBytes { .. } => true,
        _ => false,
    }
}

/// Whether a step keeps to what holds of all replies: those about images are
/// sandboxed and lead to nothing else, and the others cannot be framed.
pub open spec fn keeps_to_policy(step: StepView, image: bool) -> bool {
    match step {
        StepView::Done(reply, action) => if image {
            is_closed_by(reply, "default-src 'none'; sandbox"@) && action == ActionView::Nothing
        } else {
            is_closed_by(reply, "frame-ancestors 'none'"@)
        },
        StepView::Need(_, pending) => waits_for_image(pending) == image,
    }
}

/// What holds of every reply that is sent.
broadcast proof fn lemma_guarded(reply: ReplyView)
    ensures
        is_closed_by(#[trigger] guarded(reply), "frame-ancestors 'none'"@),
        guarded(reply).status == reply.status,
        guarded(reply).content_type == reply.content_type,
        guarded(reply).body == reply.body,
{
}

/// What holds of every reply about an image that is sent.
broadcast proof fn lemma_sandboxed(reply: ReplyView)
    ensures
        is_closed_by(#[trigger] sandboxed(reply), "default-src 'none'; sandbox"@),
        sandboxed(reply).status == reply.status,
        sandboxed(reply).content_type == reply.content_type,
        sandboxed(reply).body == reply.body,
{
}

/// Every reply that a request gets at once forbids caching and guessing at its
/// type, and has the policy of its route: images are sandboxed, and nothing else
/// can be framed.
#[verifier::rlimit(40)]
pub proof fn law_replies_at_once_keep_to_policy(req: RequestView, viewing: ViewingView)
    requires
        !is_tree_request(req, viewing),
    ensures
        keeps_to_policy(
            handled(req, viewing),
            route_of(req.path) == "/asset"@ && is_read(req.method),
        ),
{
    broadcast use {lemma_guarded, lemma_sandboxed};

}

/// The replies to requests that waited keep to the same policy.
#[verifier::rlimit(40)]
pub proof fn law_replies_after_waiting_keep_to_policy(
    pending: PendingView,
    reply: Answer,
    now: Seq<char>,
)
    requires
        !(pending is Tree),
    ensures
        keeps_to_policy(resumed(pending, reply, now), waits_for_image(pending)),
{
    broadcast use {lemma_guarded, lemma_sandboxed};

}

/// The reply to a request for the tree cannot be framed either.
pub proof fn law_the_tree_keeps_to_policy(
    name: Seq<char>,
    current: Seq<char>,
    lines: Seq<EntryView>,
    truncated: bool,
)
    ensures
        is_closed_by(
            guarded(tree_reply(name, current, lines, truncated)),
            "frame-ancestors 'none'"@,
        ),
{
    broadcast use lemma_guarded;

}

/// A request that does not read and lacks the header [`REQUEST_HEADER`] is refused
/// at once, and changes nothing.
pub proof fn law_changes_need_the_header(req: RequestView, viewing: ViewingView)
    requires
        !is_read(req.method),
        !is_own_request(req),
    ensures
        handled(req, viewing) matches StepView::Done(reply, action) && action
            == ActionView::Nothing && (reply.status == 403 || reply.status == 404 || reply.status
            == 501),
{
    reveal_strlit("GET");
    assert("GET"@.len() == 3);
}

/// In a browser no request has another file shown, nor moves through a history.
pub proof fn law_a_browser_shows_one_file(req: RequestView, viewing: ViewingView)
    requires
        !viewing.allow_open,
    ensures
        match handled(req, viewing) {
            StepView::Done(_, action) => action == ActionView::Nothing,
            StepView::Need(_, pending) => !(pending is OpenName) && !(pending is NavName),
        },
{
}

/// What becomes of a request to show another file in the directory `root`, given
/// all that it waits for.
pub open spec fn open_outcome(
    root: Seq<char>,
    platform: Platform,
    name: Option<Seq<char>>,
    is_link: bool,
    root_resolved: Option<Seq<char>>,
    resolved: Option<Seq<char>>,
    info: Option<FileInfo>,
) -> StepView {
    match open_name_step(root, platform, name) {
        StepView::Need(_, PendingView::OpenLink { root: dir, candidate }) => match open_link_step(
            dir,
            candidate,
            is_link,
        ) {
            StepView::Need(_, PendingView::OpenRoot { candidate: path }) => match open_root_step(
                path,
                root_resolved,
            ) {
                StepView::Need(_, PendingView::OpenFile { root: base }) => match open_file_step(
                    base,
                    resolved,
                ) {
                    StepView::Need(_, PendingView::OpenTarget { target }) => open_target_step(
                        target,
                        info,
                    ),
                    step => step,
                },
                step => step,
            },
            step => step,
        },
        step => step,
    }
}

/// Another file is shown if and only if it is named by a plain relative path to
/// Markdown, is no link itself, resolves to a path inside the directory, and is a
/// regular file. It is shown under the path that it resolves to.
pub proof fn law_only_files_inside_are_shown(
    root: Seq<char>,
    platform: Platform,
    name: Option<Seq<char>>,
    is_link: bool,
    root_resolved: Option<Seq<char>>,
    resolved: Option<Seq<char>>,
    info: Option<FileInfo>,
    path: Seq<char>,
)
    ensures
        open_outcome(
            root,
            platform,
            name,
            is_link,
            root_resolved,
            resolved,
            info,
        ) == answered_with(reloaded_reply(), ActionView::OpenFile(path)) <==> {
            &&& name matches Some(given) && is_plain_on(slashed(given, platform), platform)
                && is_markdown(slashed(given, platform))
            &&& !is_link
            &&& root_resolved matches Some(dir) && path_within(path, dir)
            &&& resolved == Some(path)
            &&& info matches Some(i) && i.is_file
        },
{
}

/// What becomes of a request for the image `rel` beside a document in `dir`, given
/// all that it waits for.
pub open spec fn image_outcome(
    dir: Seq<char>,
    rel: Seq<char>,
    root_resolved: Option<Seq<char>>,
    resolved: Option<Seq<char>>,
    info: Option<FileInfo>,
    bytes: Option<Seq<u8>>,
) -> StepView {
    match asset_root_step(dir, rel, root_resolved) {
        StepView::Need(_, PendingView::AssetFile { root, rel: rel1 }) => match asset_file_step(
            root,
            rel1,
            resolved,
        ) {
            StepView::Need(_, PendingView::AssetTarget { target, rel: rel2 }) => match asset_target_step(
                target,
                rel2,
                info,
            ) {
                StepView::Need(_, PendingView::AssetBytes { rel: rel3 }) => asset_bytes_step(
                    rel3,
                    bytes,
                ),
                step => step,
            },
            step => step,
        },
        step => step,
    }
}

/// The status of a reply.
pub open spec fn status_of(step: StepView) -> Option<u16> {
    match step {
        StepView::Done(reply, _) => Some(reply.status),
        StepView::Need(_, _) => None,
    }
}

/// An image is sent if and only if it resolves to a path inside the document's
/// directory, is not too large and can be read; and what is sent is what was read,
/// as an image.
pub proof fn law_only_images_inside_are_sent(
    dir: Seq<char>,
    rel: Seq<char>,
    root_resolved: Option<Seq<char>>,
    resolved: Option<Seq<char>>,
    info: Option<FileInfo>,
    bytes: Option<Seq<u8>>,
)
    requires
        asset_type(rel) is Some,
    ensures
        status_of(image_outcome(dir, rel, root_resolved, resolved, info, bytes)) == Some(200u16)
            <==> {
            &&& root_resolved matches Some(root) && resolved matches Some(path) && path_within(
                path,
                root,
            )
            &&& info matches Some(i) && i.len <= ASSET_MAX_BYTES
            &&& bytes is Some
        },
        status_of(image_outcome(dir, rel, root_resolved, resolved, info, bytes)) == Some(200u16)
            ==> image_outcome(dir, rel, root_resolved, resolved, info, bytes) == asset_answered(
            typed_reply(asset_type(rel)->Some_0, bytes->Some_0),
        ),
{
}

/// An image is looked for only where it is named by a plain relative path and has
/// the extension of an image.
pub proof fn law_images_are_named_plainly(req: RequestView, viewing: ViewingView)
    ensures
        asset_step(req, viewing) is Need ==> {
            &&& asset_param(req) is Some
            &&& asset_path(asset_param(req)->Some_0) matches Some(given) && is_plain_on(
                slashed(given, viewing.platform),
                viewing.platform,
            ) && asset_type(slashed(given, viewing.platform)) is Some
        },
{
}

/// Comments that were accepted are written beside the document, and come back as
/// they were written: a sidecar that holds them is read without an error and holds
/// them all, and they would be accepted again as they are.
pub proof fn law_comments_come_back(path: Seq<char>, sent: ReviewView, stored: ReviewDoc)
    requires
        sent.file == title_of(path),
        validation_error(sent) is None,
        stored@ == after_validation(sent),
    ensures
        new_review_step(path, Some(sent)) == StepView::Need(
            NeedView::SaveReview(path + ".review.json"@, stored@),
            PendingView::SavedReview,
        ),
        loaded(path, SidecarRead::Read(stored)) == Ok::<ReviewView, LoadError>(
            after_validation(sent),
        ),
        new_review_step(path, Some(stored@)) == new_review_step(path, Some(sent)),
{
    law_validation_settles(sent);
}

/// An image beside the document, as the page refers to it, is asked for on the
/// route of images by the path that the document names, without dots and with what
/// is encoded in it decoded.
pub proof fn law_local_images_are_asked_for(dest: Seq<char>, req: RequestView)
    requires
        local_target(sanitized_target(dest)),
        req.path == rendered_target(dest, true, true),
    ensures
        route_of(req.path) == "/asset"@,
        asset_param(req) matches Some(raw) && asset_path(raw) == asset_path(
            undotted(sanitized_target(dest)),
        ),
{
    reveal_strlit("/asset?p=");
    reveal_strlit("/asset");
    reveal_strlit("p");
    let t = undotted(sanitized_target(dest));
    let bytes = encode_utf8(t);
    let encoded = percent_encoded(bytes, Place::Query);
    let url = "/asset?p="@ + encoded;
    assert(req.path == url);
    lemma_find_char(url, '?');
    assert(url[6] == '?');
    assert(find_char(url, '?') == Some(6int)) by {
        assert(url.contains('?'));
        let i = find_char(url, '?')->Some_0;
        if i < 6 {
            assert(url[i] == "/asset?p="@[i]);
        }
    }
    assert(route_of(url) =~= "/asset"@);
    let query = query_of(url);
    assert(query =~= "p"@ + seq!['='] + encoded);
    lemma_encoded_has_no(bytes, '&');
    assert(!query.contains('&')) by {
        if query.contains('&') {
            let i = query.index_of('&');
            assert(i >= 2);
            assert(encoded[i - 2] == '&');
        }
    }
    lemma_find_char(query, '&');
    assert(split(query, '&') == seq![query]);
    lemma_find_char(query, '=');
    assert(query[1] == '=');
    assert(find_char(query, '=') == Some(1int)) by {
        assert(query.contains('='));
    }
    assert(query.take(1) =~= "p"@);
    assert(query.skip(2) =~= encoded);
    assert(asset_param(req) == Some(encoded));
    law_encoding_keeps_the_meaning(bytes);
}

/// A path that holds no `%` is asked for as it is.
proof fn lemma_plain_text_is_itself(path: Seq<char>)
    requires
        !encode_utf8(path).contains(0x25),
    ensures
        asset_path(path) == Some(path),
{
    lemma_nothing_to_decode(encode_utf8(path));
    vstd::utf8::encode_utf8_valid_utf8(path);
    vstd::utf8::encode_utf8_decode_utf8(path);
}

/// An image that lies beside the document or below it, and has the extension of
/// one, is looked for where the document says: the request that the page makes for
/// it is not refused.
pub proof fn law_local_images_are_looked_for(
    dest: Seq<char>,
    req: RequestView,
    viewing: ViewingView,
    path: Seq<char>,
)
    requires
        ({
            let t = sanitized_target(dest);
            &&& local_target(t)
            &&& !is_absolute(t)
            &&& !split(t, '/').contains(".."@)
            &&& !encode_utf8(undotted(t)).contains(0x25)
            &&& asset_type(t) is Some
            &&& viewing.platform == Platform::Windows ==> !t.contains('\\') && !has_drive(
                undotted(t),
            )
        }),
        req.path == rendered_target(dest, true, true),
        viewing.file == Some(path),
    ensures
        asset_step(req, viewing) == StepView::Need(
            NeedView::Canonicalize(document_dir(path)),
            PendingView::AssetRoot {
                dir: document_dir(path),
                rel: undotted(sanitized_target(dest)),
            },
        ),
{
    let t = sanitized_target(dest);
    let rel = undotted(t);
    law_local_images_are_asked_for(dest, req);
    lemma_plain_text_is_itself(rel);
    law_dots_count_for_nothing(t);
    assert(rel.len() > 0) by {
        if rel.len() == 0 {
            assert(without_void_end(rel) == rel);
            assert(file_name(rel) is None);
        }
    }
    assert(slashed(rel, viewing.platform) =~= rel) by {
        if viewing.platform == Platform::Windows {
            lemma_undotted_holds_no_more(t, '\\');
            assert forall|i: int| 0 <= i < rel.len() implies rel[i] != '\\' by {
                assert(rel.contains(rel[i]));
            }
        }
    }
}

/// The same of an image whose name is encoded in part: it is looked for by what the
/// name is decoded to, where that is a plain path with the extension of an image.
pub proof fn law_encoded_images_are_looked_for(
    dest: Seq<char>,
    req: RequestView,
    viewing: ViewingView,
    path: Seq<char>,
    decoded: Seq<char>,
)
    requires
        local_target(sanitized_target(dest)),
        asset_path(undotted(sanitized_target(dest))) == Some(decoded),
        is_plain_on(slashed(decoded, viewing.platform), viewing.platform),
        asset_type(slashed(decoded, viewing.platform)) is Some,
        req.path == rendered_target(dest, true, true),
        viewing.file == Some(path),
    ensures
        asset_step(req, viewing) == StepView::Need(
            NeedView::Canonicalize(document_dir(path)),
            PendingView::AssetRoot {
                dir: document_dir(path),
                rel: slashed(decoded, viewing.platform),
            },
        ),
{
    law_local_images_are_asked_for(dest, req);
}

/// How many more things a request that waits can wait for at most, the tree left
/// aside.
pub open spec fn waits_left(pending: PendingView) -> nat {
    match pending {
        PendingView::OpenName { .. } => 5,
        PendingView::OpenLink { .. } => 4,
        PendingView::AssetRoot { .. } => 4,
        PendingView::OpenRoot { .. } => 3,
        PendingView::AssetFile { .. } => 3,
        PendingView::Export { .. } => 3,
        PendingView::OpenFile { .. } => 2,
        PendingView::AssetTarget { .. } => 2,
        PendingView::ExportReview { .. } => 2,
        PendingView::Review { .. } => 2,
        PendingView::NewReview { .. } => 2,
        _ => 1,
    }
}

/// A request does not wait for ever: with each answer it waits for less.
pub proof fn law_waiting_ends(pending: PendingView, reply: Answer, now: Seq<char>)
    requires
        !(pending is Tree),
    ensures
        resumed(pending, reply, now) matches StepView::Need(_, next) ==> waits_left(next)
            < waits_left(pending) && !(next is Tree),
{
}

/// The document that a request which waits is about.
pub open spec fn document_of(pending: PendingView) -> Option<Seq<char>> {
    match pending {
        PendingView::Page { path, .. } => Some(path),
        PendingView::Body { path } => Some(path),
        PendingView::Review { path } => Some(path),
        PendingView::NewReview { path } => Some(path),
        PendingView::Export { path } => Some(path),
        PendingView::ExportReview { path, .. } => Some(path),
        _ => None,
    }
}

/// Whether what a request needs is in order for a request about the document at
/// `path`: the document and its sidecar are read, and its sidecar and its export
/// are written.
pub open spec fn is_in_order(need: NeedView, path: Option<Seq<char>>) -> bool {
    match need {
        NeedView::ReadText(p) => Some(p) == path,
        NeedView::ReadSidecar(p) => path matches Some(doc) && p == doc + ".review.json"@,
        NeedView::SaveReview(p, _) => path matches Some(doc) && p == doc + ".review.json"@,
        NeedView::WriteText(p, _) => path matches Some(doc) && p == export_file(doc),
        NeedView::ReadBytes(_) => false,
        _ => true,
    }
}

/// A request that is not answered at once needs only what is in order for the file
/// that is shown, and waits for nothing about another.
pub proof fn law_requests_touch_the_shown_file_only(req: RequestView, viewing: ViewingView)
    requires
        !is_tree_request(req, viewing),
    ensures
        handled(req, viewing) matches StepView::Need(need, pending) ==> {
            &&& is_in_order(need, viewing.file)
            &&& document_of(pending) matches Some(path) ==> viewing.file == Some(path)
        },
{
}

/// A request that waited goes on to need only what is in order for its document;
/// bytes are read only of an image that was resolved and looked at before.
#[verifier::rlimit(60)]
#[verifier::spinoff_prover]
pub proof fn law_waiting_requests_touch_their_file_only(
    pending: PendingView,
    reply: Answer,
    now: Seq<char>,
)
    requires
        !(pending is Tree),
    ensures
        resumed(pending, reply, now) matches StepView::Need(need, next) ==> {
            &&& document_of(next) is Some ==> document_of(next) == document_of(pending)
            &&& is_in_order(need, document_of(pending)) || (need matches NeedView::ReadBytes(p)
                && pending matches PendingView::AssetTarget { target, .. } && p == target)
        },
{
}

} // verus!
