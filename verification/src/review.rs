//! Comments on a document: the sidecar that holds them, what a valid one is, and
//! the Markdown that they are handed on in.
use vstd::prelude::*;
use vstd::utf8::encode_utf8;

use crate::json::{
    encode_pretty, list, list_views, member_views, object, pretty, push_item, push_member, text,
    Json, JsonView,
};
use crate::path::{
    file_name, is_file_name, law_joining_and_taking_apart, lemma_file_name_is_one,
    lemma_find_last_char, lemma_parent_is_bare, name_stem, parent, path_file_name, path_with_name,
    stem_of, with_name, without_void_end,
};
use crate::render::{
    anchor_views, anchors, count_digits, document_anchors, enclosing_block, is_lower_hex,
    law_parents_come_first, leading_digits, parents_come_first, valid_hash, Anchor, AnchorKind,
    AnchorView,
};
use crate::text::{
    chars_of, decimal, find_last_char, has_prefix_str, line_at, lines, push_chars, push_decimal,
    same_text, split_line, string_of, trim_end, trim_start, trimmed_end, trimmed_start, truncate,
    truncated,
};
use crate::util::{file_title, title_of};

verus! {

// ---------------------------------------------------------------------------
// The sidecar
// ---------------------------------------------------------------------------

/// The version of the sidecar's form. No other is read or written.
pub const SCHEMA_VERSION: u32 = 1;

/// The most bytes that the text of a comment may have.
pub const MAX_COMMENT_TEXT_BYTES: usize = 65536;

/// The most characters that an excerpt keeps.
pub const MAX_EXCERPT_CHARS: usize = 200;

/// The most comments that a document may have in all.
pub const MAX_TOTAL_COMMENTS: usize = 10000;

/// The most bytes that a sidecar may have.
pub const MAX_TOTAL_SIDECAR_BYTES: usize = 8388608;

/// The kind of anchor that comments are attached to, as a sidecar names it. It
/// describes the anchor only: comments find theirs by hash.
#[derive(Debug, Clone, Copy, PartialEq, Eq, Structural)]
pub enum AnchorKindDto {
    Block,
    Item,
    Row,
}

impl Default for AnchorKindDto {
    /// A sidecar that names no kind is about blocks.
    fn default() -> (r: Self)
        ensures
            r == AnchorKindDto::Block,
    {
        AnchorKindDto::Block
    }
}

/// A comment.
#[derive(Debug, Clone, PartialEq)]
pub struct Comment {
    pub id: String,
    pub text: String,
    pub created: String,
    pub updated: String,
}

/// An anchor with comments.
#[derive(Debug, Clone, PartialEq)]
pub struct ReviewBlock {
    pub hash: String,
    pub excerpt: String,
    pub kind: AnchorKindDto,
    pub comments: Vec<Comment>,
}

/// A sidecar: every anchor that has comments, and the comments on the document as
/// a whole.
#[derive(Debug, Clone, PartialEq)]
pub struct ReviewDoc {
    pub version: u32,
    /// The name of the document that the comments are about.
    pub file: String,
    pub blocks: Vec<ReviewBlock>,
    /// Comments that belong to no anchor. They are never unanchored.
    pub file_comments: Vec<Comment>,
}

/// The value of a [`Comment`].
pub ghost struct CommentView {
    pub id: Seq<char>,
    pub text: Seq<char>,
    pub created: Seq<char>,
    pub updated: Seq<char>,
}

/// The value of a [`ReviewBlock`].
pub ghost struct ReviewBlockView {
    pub hash: Seq<char>,
    pub excerpt: Seq<char>,
    pub kind: AnchorKindDto,
    pub comments: Seq<CommentView>,
}

/// The value of a [`ReviewDoc`].
pub ghost struct ReviewView {
    pub version: u32,
    pub file: Seq<char>,
    pub blocks: Seq<ReviewBlockView>,
    pub file_comments: Seq<CommentView>,
}

impl View for Comment {
    type V = CommentView;

    open spec fn view(&self) -> CommentView {
        CommentView {
            id: self.id@,
            text: self.text@,
            created: self.created@,
            updated: self.updated@,
        }
    }
}

/// The values of a list of comments.
pub open spec fn comment_views(comments: Seq<Comment>) -> Seq<CommentView> {
    comments.map_values(|c: Comment| c@)
}

impl View for ReviewBlock {
    type V = ReviewBlockView;

    open spec fn view(&self) -> ReviewBlockView {
        ReviewBlockView {
            hash: self.hash@,
            excerpt: self.excerpt@,
            kind: self.kind,
            comments: comment_views(self.comments@),
        }
    }
}

/// The values of a list of anchors with comments.
pub open spec fn review_block_views(blocks: Seq<ReviewBlock>) -> Seq<ReviewBlockView> {
    blocks.map_values(|b: ReviewBlock| b@)
}

impl View for ReviewDoc {
    type V = ReviewView;

    open spec fn view(&self) -> ReviewView {
        ReviewView {
            version: self.version,
            file: self.file@,
            blocks: review_block_views(self.blocks@),
            file_comments: comment_views(self.file_comments@),
        }
    }
}

/// The sidecar of a document that has no comments.
pub open spec fn empty_review(md: Seq<char>) -> ReviewView {
    ReviewView { version: SCHEMA_VERSION, file: title_of(md), blocks: seq![], file_comments: seq![] }
}

/// The sidecar of a document that has no comments.
pub fn empty_doc(md: &str) -> (r: ReviewDoc)
    ensures
        r@ == empty_review(md@),
{
    let r = ReviewDoc {
        version: SCHEMA_VERSION,
        file: file_title(md),
        blocks: Vec::new(),
        file_comments: Vec::new(),
    };
    assert(r@.blocks =~= seq![]);
    assert(r@.file_comments =~= seq![]);
    r
}

// ---------------------------------------------------------------------------
// Paths
// ---------------------------------------------------------------------------

/// The sidecar of the document `md`: `notes.md.review.json` for `notes.md`.
pub fn sidecar_path(md: &str) -> (r: String)
    ensures
        r@ == md@ + ".review.json"@,
{
    let mut out = md.to_owned();
    out.append(".review.json");
    out
}

/// The file that the comments on the document `md` are exported to.
pub open spec fn export_file(md: Seq<char>) -> Seq<char> {
    let stem = match file_name(md) {
        Some(name) => stem_of(name),
        None => md,
    };
    with_name(md, stem + ".review.md"@)
}

/// The file that the comments on the document `md` are exported to:
/// `notes.review.md` for `notes.md`, in the same directory.
pub fn export_path(md: &str) -> (r: String)
    ensures
        r@ == export_file(md@),
{
    let mut name = match path_file_name(md) {
        Some(name) => name_stem(name.as_str()),
        None => md.to_owned(),
    };
    name.append(".review.md");
    path_with_name(md, name.as_str())
}

// ---------------------------------------------------------------------------
// The sidecar as JSON
// ---------------------------------------------------------------------------

/// The word for a kind of anchor.
pub open spec fn kind_word(kind: AnchorKindDto) -> Seq<char> {
    match kind {
        AnchorKindDto::Block => "block"@,
        AnchorKindDto::Item => "item"@,
        AnchorKindDto::Row => "row"@,
    }
}

/// A comment as JSON.
pub open spec fn comment_json(c: CommentView) -> JsonView {
    JsonView::Object(
        seq![
            ("id"@, JsonView::Text(c.id)),
            ("text"@, JsonView::Text(c.text)),
            ("created"@, JsonView::Text(c.created)),
            ("updated"@, JsonView::Text(c.updated)),
        ],
    )
}

/// Comments as JSON.
pub open spec fn comments_json(comments: Seq<CommentView>) -> JsonView {
    JsonView::List(comments.map_values(|c: CommentView| comment_json(c)))
}

/// An anchor with comments as JSON.
pub open spec fn review_block_json(b: ReviewBlockView) -> JsonView {
    JsonView::Object(
        seq![
            ("hash"@, JsonView::Text(b.hash)),
            ("excerpt"@, JsonView::Text(b.excerpt)),
            ("kind"@, JsonView::Text(kind_word(b.kind))),
            ("comments"@, comments_json(b.comments)),
        ],
    )
}

/// The members of a sidecar as JSON.
pub open spec fn review_members(doc: ReviewView) -> Seq<(Seq<char>, JsonView)> {
    seq![
        ("version"@, JsonView::Number(doc.version as nat)),
        ("file"@, JsonView::Text(doc.file)),
        (
            "blocks"@,
            JsonView::List(doc.blocks.map_values(|b: ReviewBlockView| review_block_json(b))),
        ),
        ("file_comments"@, comments_json(doc.file_comments)),
    ]
}

/// A sidecar as JSON.
pub open spec fn review_json(doc: ReviewView) -> JsonView {
    JsonView::Object(review_members(doc))
}

/// A comment as JSON.
fn comment_to_json(c: &Comment) -> (r: Json)
    ensures
        r@ == comment_json(c@),
{
    let mut members: Vec<(String, Json)> = Vec::new();
    assert(member_views(members@) =~= seq![]);
    push_member(&mut members, "id", text(c.id.as_str()));
    push_member(&mut members, "text", text(c.text.as_str()));
    push_member(&mut members, "created", text(c.created.as_str()));
    push_member(&mut members, "updated", text(c.updated.as_str()));
    assert(member_views(members@) =~= comment_json(c@)->Object_0);
    object(members)
}

/// Comments as JSON.
fn comments_to_json(comments: &Vec<Comment>) -> (r: Json)
    ensures
        r@ == comments_json(comment_views(comments@)),
{
    let ghost all = comments_json(comment_views(comments@))->List_0;
    let mut items: Vec<Json> = Vec::new();
    let mut i: usize = 0;
    while i < comments.len()
        invariant
            all == comments_json(comment_views(comments@))->List_0,
            i <= comments@.len(),
            list_views(items@) =~= all.take(i as int),
        decreases comments@.len() - i,
    {
        assert(all[i as int] == comment_json(comments@[i as int]@));
        push_item(&mut items, comment_to_json(&comments[i]));
        i = i + 1;
    }
    assert(list_views(items@) =~= all);
    list(items)
}

/// An anchor with comments as JSON.
fn review_block_to_json(b: &ReviewBlock) -> (r: Json)
    ensures
        r@ == review_block_json(b@),
{
    let word = match b.kind {
        AnchorKindDto::Block => "block",
        AnchorKindDto::Item => "item",
        AnchorKindDto::Row => "row",
    };
    let mut members: Vec<(String, Json)> = Vec::new();
    assert(member_views(members@) =~= seq![]);
    push_member(&mut members, "hash", text(b.hash.as_str()));
    push_member(&mut members, "excerpt", text(b.excerpt.as_str()));
    push_member(&mut members, "kind", text(word));
    push_member(&mut members, "comments", comments_to_json(&b.comments));
    assert(member_views(members@) =~= review_block_json(b@)->Object_0);
    object(members)
}

/// The members of a sidecar as JSON.
pub fn review_to_members(doc: &ReviewDoc) -> (r: Vec<(String, Json)>)
    ensures
        member_views(r@) == review_members(doc@),
{
    let ghost all = doc@.blocks.map_values(|b: ReviewBlockView| review_block_json(b));
    let mut items: Vec<Json> = Vec::new();
    let mut i: usize = 0;
    while i < doc.blocks.len()
        invariant
            all == doc@.blocks.map_values(|b: ReviewBlockView| review_block_json(b)),
            i <= doc.blocks@.len(),
            list_views(items@) =~= all.take(i as int),
        decreases doc.blocks@.len() - i,
    {
        assert(all[i as int] == review_block_json(doc.blocks@[i as int]@));
        push_item(&mut items, review_block_to_json(&doc.blocks[i]));
        i = i + 1;
    }
    assert(list_views(items@) =~= all);
    let mut members: Vec<(String, Json)> = Vec::new();
    assert(member_views(members@) =~= seq![]);
    push_member(&mut members, "version", Json::Number(doc.version as u64));
    push_member(&mut members, "file", text(doc.file.as_str()));
    push_member(&mut members, "blocks", list(items));
    push_member(&mut members, "file_comments", comments_to_json(&doc.file_comments));
    assert(member_views(members@) =~= review_members(doc@));
    members
}

// ---------------------------------------------------------------------------
// Validation
// ---------------------------------------------------------------------------

/// Why a sidecar is not valid.
#[derive(Debug, Clone, PartialEq, Eq)]
pub enum ReviewError {
    /// Another version than [`SCHEMA_VERSION`].
    UnsupportedVersion(u32),
    /// Not the hash of an anchor.
    InvalidHash(String),
    /// Not the identifier of a comment.
    InvalidCommentId(String),
    /// The text of a comment is longer than [`MAX_COMMENT_TEXT_BYTES`].
    CommentTooLong,
    /// There are more comments than [`MAX_TOTAL_COMMENTS`]: so many.
    TooManyComments(u128),
    /// The sidecar is larger than [`MAX_TOTAL_SIDECAR_BYTES`]: so large.
    TooLarge(usize),
}

/// The value of a [`ReviewError`].
pub ghost enum ReviewErrorView {
    UnsupportedVersion(u32),
    InvalidHash(Seq<char>),
    InvalidCommentId(Seq<char>),
    CommentTooLong,
    TooManyComments(nat),
    TooLarge(nat),
}

impl View for ReviewError {
    type V = ReviewErrorView;

    open spec fn view(&self) -> ReviewErrorView {
        match self {
            ReviewError::UnsupportedVersion(v) => ReviewErrorView::UnsupportedVersion(*v),
            ReviewError::InvalidHash(h) => ReviewErrorView::InvalidHash(h@),
            ReviewError::InvalidCommentId(id) => ReviewErrorView::InvalidCommentId(id@),
            ReviewError::CommentTooLong => ReviewErrorView::CommentTooLong,
            ReviewError::TooManyComments(n) => ReviewErrorView::TooManyComments(*n as nat),
            ReviewError::TooLarge(n) => ReviewErrorView::TooLarge(*n as nat),
        }
    }
}

/// The error in a result.
pub open spec fn error_of(r: Result<(), ReviewError>) -> Option<ReviewErrorView> {
    match r {
        Ok(_) => None,
        Err(e) => Some(e@),
    }
}

/// Whether `c` is a hexadecimal digit.
pub open spec fn is_hex_char(c: char) -> bool {
    ('0' <= c && c <= '9') || ('a' <= c && c <= 'f') || ('A' <= c && c <= 'F')
}

/// Whether `hash` may name an anchor: 16 hexadecimal digits.
pub open spec fn acceptable_hash(hash: Seq<char>) -> bool {
    hash.len() == 16 && forall|i: int| 0 <= i < hash.len() ==> is_hex_char(#[trigger] hash[i])
}

/// Whether `id` may name a comment: `c_` and 16 lower-case hexadecimal digits.
pub open spec fn acceptable_id(id: Seq<char>) -> bool {
    "c_"@.is_prefix_of(id) && valid_hash(id.skip(2))
}

/// The first thing wrong with `comments`, from comment `i` on.
pub open spec fn comments_error(comments: Seq<CommentView>, i: int) -> Option<ReviewErrorView>
    decreases comments.len() - i,
{
    if i < 0 || i >= comments.len() {
        None
    } else if !acceptable_id(comments[i].id) {
        Some(ReviewErrorView::InvalidCommentId(comments[i].id))
    } else if encode_utf8(comments[i].text).len() > MAX_COMMENT_TEXT_BYTES {
        Some(ReviewErrorView::CommentTooLong)
    } else {
        comments_error(comments, i + 1)
    }
}

/// The first thing wrong with an anchor and its comments.
pub open spec fn block_error(block: ReviewBlockView) -> Option<ReviewErrorView> {
    if !acceptable_hash(block.hash) {
        Some(ReviewErrorView::InvalidHash(block.hash))
    } else {
        comments_error(block.comments, 0)
    }
}

/// The first thing wrong with `blocks`, from block `i` on.
pub open spec fn blocks_error(blocks: Seq<ReviewBlockView>, i: int) -> Option<ReviewErrorView>
    decreases blocks.len() - i,
{
    if i < 0 || i >= blocks.len() {
        None
    } else if block_error(blocks[i]) is Some {
        block_error(blocks[i])
    } else {
        blocks_error(blocks, i + 1)
    }
}

/// How many blocks have been put in order when the first thing wrong with them
/// is found, from block `i` on. The excerpt of a block is put in order before
/// its comments are looked at.
pub open spec fn blocks_seen(blocks: Seq<ReviewBlockView>, i: int) -> int
    decreases blocks.len() - i,
{
    if i < 0 || i >= blocks.len() {
        i
    } else if !acceptable_hash(blocks[i].hash) {
        i
    } else if block_error(blocks[i]) is Some {
        i + 1
    } else {
        blocks_seen(blocks, i + 1)
    }
}

/// `c` with a line break turned into a space.
pub open spec fn flat_char(c: char) -> char {
    if c == '\n' || c == '\r' {
        ' '
    } else {
        c
    }
}

/// `s` in one line.
pub open spec fn flat(s: Seq<char>) -> Seq<char> {
    s.map_values(|c: char| flat_char(c))
}

/// An excerpt put in order: one line of at most [`MAX_EXCERPT_CHARS`] characters.
pub open spec fn normalized(excerpt: Seq<char>) -> Seq<char> {
    truncated(flat(excerpt), MAX_EXCERPT_CHARS as int)
}

/// A block with its excerpt put in order.
pub open spec fn normalized_block(block: ReviewBlockView) -> ReviewBlockView {
    ReviewBlockView { excerpt: normalized(block.excerpt), ..block }
}

/// `doc` with the excerpts of its first `n` blocks put in order.
pub open spec fn normalized_doc(doc: ReviewView, n: int) -> ReviewView {
    ReviewView {
        blocks: Seq::new(
            doc.blocks.len(),
            |i: int|
                if i < n {
                    normalized_block(doc.blocks[i])
                } else {
                    doc.blocks[i]
                },
        ),
        ..doc
    }
}

/// How many comments `blocks` have in all.
pub open spec fn block_comments(blocks: Seq<ReviewBlockView>) -> nat
    decreases blocks.len(),
{
    if blocks.len() == 0 {
        0
    } else {
        block_comments(blocks.drop_last()) + blocks.last().comments.len()
    }
}

/// How many comments a sidecar has in all.
pub open spec fn total_comments(doc: ReviewView) -> nat {
    doc.file_comments.len() + block_comments(doc.blocks)
}

/// The first thing wrong with the parts of a sidecar.
pub open spec fn structure_error(doc: ReviewView) -> Option<ReviewErrorView> {
    if doc.version != SCHEMA_VERSION {
        Some(ReviewErrorView::UnsupportedVersion(doc.version))
    } else if blocks_error(doc.blocks, 0) is Some {
        blocks_error(doc.blocks, 0)
    } else if comments_error(doc.file_comments, 0) is Some {
        comments_error(doc.file_comments, 0)
    } else if total_comments(doc) > MAX_TOTAL_COMMENTS {
        Some(ReviewErrorView::TooManyComments(total_comments(doc)))
    } else {
        None
    }
}

/// What becomes of a sidecar that is validated: its excerpts are put in order as
/// far as nothing wrong is found.
pub open spec fn after_validation(doc: ReviewView) -> ReviewView {
    if doc.version != SCHEMA_VERSION {
        doc
    } else {
        normalized_doc(doc, blocks_seen(doc.blocks, 0))
    }
}

/// What is wrong with the size of a sidecar of `len` bytes.
pub open spec fn size_error(len: nat) -> Option<ReviewErrorView> {
    if len > MAX_TOTAL_SIDECAR_BYTES {
        Some(ReviewErrorView::TooLarge(len))
    } else {
        None
    }
}

/// The first thing wrong with a sidecar.
pub open spec fn validation_error(doc: ReviewView) -> Option<ReviewErrorView> {
    if structure_error(doc) is Some {
        structure_error(doc)
    } else {
        size_error(pretty(review_json(after_validation(doc))).len())
    }
}

/// Whether `c` is a hexadecimal digit.
fn is_hex_digit(c: char) -> (r: bool)
    ensures
        r == is_hex_char(c),
{
    ('0' <= c && c <= '9') || ('a' <= c && c <= 'f') || ('A' <= c && c <= 'F')
}

/// Whether `hash` may name an anchor.
fn is_valid_hash(hash: &str) -> (r: bool)
    ensures
        r == acceptable_hash(hash@),
{
    let chars = chars_of(hash);
    if chars.len() != 16 {
        return false;
    }
    let mut i: usize = 0;
    while i < chars.len()
        invariant
            chars@ == hash@,
            i <= chars@.len(),
            forall|j: int| 0 <= j < i ==> is_hex_char(#[trigger] hash@[j]),
        decreases chars@.len() - i,
    {
        if !is_hex_digit(chars[i]) {
            assert(!is_hex_char(hash@[i as int]));
            return false;
        }
        i = i + 1;
    }
    true
}

/// Whether `id` may name a comment.
fn is_valid_comment_id(id: &str) -> (r: bool)
    ensures
        r == acceptable_id(id@),
{
    let chars = chars_of(id);
    proof {
        reveal_strlit("c_");
    }
    if !has_prefix_str(chars.as_slice(), "c_") {
        return false;
    }
    let rest = &chars.as_slice()[2..chars.len()];
    assert(rest@ =~= id@.skip(2));
    if rest.len() != 16 {
        return false;
    }
    let mut i: usize = 0;
    while i < rest.len()
        invariant
            rest@ == id@.skip(2),
            i <= rest@.len(),
            forall|j: int| 0 <= j < i ==> is_lower_hex(#[trigger] rest@[j]),
        decreases rest@.len() - i,
    {
        let c: char = rest[i];
        if !(('0' <= c && c <= '9') || ('a' <= c && c <= 'f')) {
            assert(!is_lower_hex(id@.skip(2)[i as int]));
            return false;
        }
        i = i + 1;
    }
    true
}

/// Holds each of `comments` to the form of its identifier and the size of its
/// text.
fn validate_comments(comments: &Vec<Comment>) -> (r: Result<(), ReviewError>)
    ensures
        error_of(r) == comments_error(comment_views(comments@), 0),
{
    let ghost all = comment_views(comments@);
    let mut i: usize = 0;
    while i < comments.len()
        invariant
            all == comment_views(comments@),
            i <= comments@.len(),
            comments_error(all, 0) == comments_error(all, i as int),
        decreases comments@.len() - i,
    {
        let comment = &comments[i];
        assert(all[i as int] == comment@);
        if !is_valid_comment_id(comment.id.as_str()) {
            return Err(ReviewError::InvalidCommentId(comment.id.clone()));
        }
        if comment.text.as_str().as_bytes().len() > MAX_COMMENT_TEXT_BYTES {
            return Err(ReviewError::CommentTooLong);
        }
        i = i + 1;
    }
    Ok(())
}

/// `s` in one line.
fn single_line(s: &str) -> (r: String)
    ensures
        r@ == flat(s@),
{
    let chars = chars_of(s);
    let mut out = String::new();
    let mut i: usize = 0;
    while i < chars.len()
        invariant
            chars@ == s@,
            i <= chars@.len(),
            out@ =~= flat(s@.take(i as int)),
        decreases chars@.len() - i,
    {
        let c: char = chars[i];
        if c == '\n' || c == '\r' {
            out.push(' ');
        } else {
            out.push(c);
        }
        i = i + 1;
    }
    assert(s@.take(i as int) =~= s@);
    out
}

/// An excerpt put in order.
fn normalize_excerpt(excerpt: &str) -> (r: String)
    ensures
        r@ == normalized(excerpt@),
{
    let line = single_line(excerpt);
    let chars = chars_of(line.as_str());
    string_of(truncate(chars.as_slice(), MAX_EXCERPT_CHARS))
}

/// Puts the excerpts of the blocks in order, and holds the blocks to the form of
/// their hashes and to what their comments may be.
fn validate_blocks(blocks: &mut Vec<ReviewBlock>) -> (r: Result<(), ReviewError>)
    ensures
        error_of(r) == blocks_error(review_block_views(old(blocks)@), 0),
        final(blocks)@.len() == old(blocks)@.len(),
        forall|i: int|
            0 <= i < final(blocks)@.len() ==> (#[trigger] final(blocks)@[i])@ == if i < blocks_seen(
                review_block_views(old(blocks)@),
                0,
            ) {
                normalized_block(old(blocks)@[i]@)
            } else {
                old(blocks)@[i]@
            },
{
    let ghost all = review_block_views(blocks@);
    let n: usize = blocks.len();
    let mut i: usize = 0;
    while i < n
        invariant
            all == review_block_views(old(blocks)@),
            n == blocks@.len(),
            n == all.len(),
            i <= n,
            blocks_error(all, 0) == blocks_error(all, i as int),
            blocks_seen(all, 0) == blocks_seen(all, i as int),
            forall|j: int|
                0 <= j < n ==> (#[trigger] blocks@[j])@ == if j < i {
                    normalized_block(all[j])
                } else {
                    all[j]
                },
        decreases n - i,
    {
        assert(blocks@[i as int]@ == all[i as int]);
        if !is_valid_hash(blocks[i].hash.as_str()) {
            return Err(ReviewError::InvalidHash(blocks[i].hash.clone()));
        }
        let excerpt = normalize_excerpt(blocks[i].excerpt.as_str());
        let checked = validate_comments(&blocks[i].comments);
        blocks[i].excerpt = excerpt;
        assert(blocks@[i as int]@ == normalized_block(all[i as int]));
        if checked.is_err() {
            return checked;
        }
        i = i + 1;
    }
    Ok(())
}

/// How many comments a sidecar has in all.
fn count_comments(doc: &ReviewDoc) -> (r: u128)
    ensures
        r == total_comments(doc@),
{
    let ghost all = doc@.blocks;
    let mut total: u128 = doc.file_comments.len() as u128;
    let n: usize = doc.blocks.len();
    let mut i: usize = 0;
    while i < n
        invariant
            all == doc@.blocks,
            n == all.len(),
            i <= n,
            total == doc@.file_comments.len() + block_comments(all.take(i as int)),
            total <= (i + 1) * usize::MAX,
        decreases n - i,
    {
        assert(all.take(i + 1).drop_last() =~= all.take(i as int));
        assert(all[i as int] == doc.blocks@[i as int]@);
        let here: usize = doc.blocks[i].comments.len();
        assert((i + 1) * usize::MAX + usize::MAX == (i + 2) * usize::MAX) by (nonlinear_arith);
        assert((i + 2) * usize::MAX <= (usize::MAX + 1) * usize::MAX) by (nonlinear_arith)
            requires
                i < usize::MAX,
        ;
        assert((usize::MAX + 1) * usize::MAX <= u128::MAX) by (nonlinear_arith);
        total = total + here as u128;
        i = i + 1;
    }
    assert(all.take(i as int) =~= all);
    total
}

/// Puts the excerpts of `doc` in order, and holds it to its version, to the form
/// of its hashes and identifiers, and to how much it may hold.
pub fn validate_structure(doc: &mut ReviewDoc) -> (r: Result<(), ReviewError>)
    ensures
        error_of(r) == structure_error(old(doc)@),
        final(doc)@ == after_validation(old(doc)@),
{
    let ghost before = doc@;
    if doc.version != SCHEMA_VERSION {
        return Err(ReviewError::UnsupportedVersion(doc.version));
    }
    let ghost old_blocks = doc.blocks@;
    let checked = validate_blocks(&mut doc.blocks);
    assert(doc@.blocks =~= after_validation(before).blocks) by {
        assert(before.blocks == review_block_views(old_blocks));
    }
    if checked.is_err() {
        return checked;
    }
    let checked = validate_comments(&doc.file_comments);
    if checked.is_err() {
        return checked;
    }
    let total: u128 = count_comments(doc);
    proof {
        lemma_normalizing_keeps_comments(before.blocks, doc@.blocks);
    }
    if total > MAX_TOTAL_COMMENTS as u128 {
        return Err(ReviewError::TooManyComments(total));
    }
    Ok(())
}

/// Putting excerpts in order leaves the comments as they are.
proof fn lemma_normalizing_keeps_comments(a: Seq<ReviewBlockView>, b: Seq<ReviewBlockView>)
    requires
        a.len() == b.len(),
        forall|i: int| 0 <= i < a.len() ==> (#[trigger] a[i]).comments == b[i].comments,
    ensures
        block_comments(a) == block_comments(b),
    decreases a.len(),
{
    if a.len() > 0 {
        lemma_normalizing_keeps_comments(a.drop_last(), b.drop_last());
    }
}

/// Holds a sidecar of `len` bytes to the size that it may have.
pub fn validate_size(len: usize) -> (r: Result<(), ReviewError>)
    ensures
        error_of(r) == size_error(len as nat),
{
    if len > MAX_TOTAL_SIDECAR_BYTES {
        Err(ReviewError::TooLarge(len))
    } else {
        Ok(())
    }
}

/// Puts `doc` in order and holds it to what a sidecar may be, before it is
/// written: its version, the form of its hashes and identifiers, the size of its
/// comments, how many there are, and its own size as it is written.
pub fn validate(doc: &mut ReviewDoc) -> (r: Result<(), ReviewError>)
    ensures
        error_of(r) == validation_error(old(doc)@),
        final(doc)@ == after_validation(old(doc)@),
{
    let checked = validate_structure(doc);
    if checked.is_err() {
        return checked;
    }
    let json = object(review_to_members(doc));
    let bytes = encode_pretty(&json);
    validate_size(bytes.len())
}

// ---------------------------------------------------------------------------
// Finding anchors
// ---------------------------------------------------------------------------

/// The first of `blocks`, from block `i` on, with the hash `hash`.
pub open spec fn find_block(blocks: Seq<ReviewBlockView>, hash: Seq<char>, i: int) -> Option<int>
    decreases blocks.len() - i,
{
    if i < 0 || i >= blocks.len() {
        None
    } else if blocks[i].hash == hash {
        Some(i)
    } else {
        find_block(blocks, hash, i + 1)
    }
}

/// Whether one of `anchors` has the hash `hash`.
pub open spec fn has_hash(anchors: Seq<AnchorView>, hash: Seq<char>) -> bool {
    exists|i: int| 0 <= i < anchors.len() && (#[trigger] anchors[i]).hash == hash
}

/// The hashes of `blocks` that none of `anchors` has, in the order of `blocks`.
pub open spec fn unanchored_hashes(
    blocks: Seq<ReviewBlockView>,
    anchors: Seq<AnchorView>,
) -> Seq<Seq<char>>
    decreases blocks.len(),
{
    if blocks.len() == 0 {
        seq![]
    } else {
        let before = unanchored_hashes(blocks.drop_last(), anchors);
        if has_hash(anchors, blocks.last().hash) {
            before
        } else {
            before.push(blocks.last().hash)
        }
    }
}

/// The first of `blocks` with the hash `hash`.
fn find_block_index(blocks: &Vec<ReviewBlock>, hash: &str) -> (r: Option<usize>)
    ensures
        match r {
            Some(i) => i < blocks@.len() && find_block(review_block_views(blocks@), hash@, 0)
                == Some(i as int),
            None => find_block(review_block_views(blocks@), hash@, 0) is None,
        },
{
    let ghost all = review_block_views(blocks@);
    let mut i: usize = 0;
    while i < blocks.len()
        invariant
            all == review_block_views(blocks@),
            i <= blocks@.len(),
            find_block(all, hash@, 0) == find_block(all, hash@, i as int),
        decreases blocks@.len() - i,
    {
        assert(all[i as int] == blocks@[i as int]@);
        if same_text(blocks[i].hash.as_str(), hash) {
            return Some(i);
        }
        i = i + 1;
    }
    None
}

/// Whether one of `anchors` has the hash `hash`.
fn is_anchored(anchors: &[Anchor], hash: &str) -> (r: bool)
    ensures
        r == has_hash(anchor_views(anchors@), hash@),
{
    let ghost all = anchor_views(anchors@);
    let mut i: usize = 0;
    while i < anchors.len()
        invariant
            all == anchor_views(anchors@),
            i <= anchors@.len(),
            forall|j: int| 0 <= j < i ==> (#[trigger] all[j]).hash != hash@,
        decreases anchors@.len() - i,
    {
        assert(all[i as int] == anchors@[i as int]@);
        if same_text(anchors[i].hash.as_str(), hash) {
            return true;
        }
        i = i + 1;
    }
    false
}

/// The values of a list of strings.
pub open spec fn str_views(strings: Seq<&str>) -> Seq<Seq<char>> {
    strings.map_values(|s: &str| s@)
}

/// The hashes in `doc` that none of `anchors` has: those of blocks, items and
/// rows that are no longer in the document. They come in the order of the
/// sidecar.
pub fn unanchored<'a>(doc: &'a ReviewDoc, anchors: &[Anchor]) -> (r: Vec<&'a str>)
    ensures
        str_views(r@) == unanchored_hashes(doc@.blocks, anchor_views(anchors@)),
{
    let ghost all = doc@.blocks;
    let ghost live = anchor_views(anchors@);
    let mut out: Vec<&'a str> = Vec::new();
    let mut i: usize = 0;
    assert(str_views(out@) =~= unanchored_hashes(all.take(0), live));
    while i < doc.blocks.len()
        invariant
            all == doc@.blocks,
            live == anchor_views(anchors@),
            i <= doc.blocks@.len(),
            str_views(out@) == unanchored_hashes(all.take(i as int), live),
        decreases doc.blocks@.len() - i,
    {
        let hash = doc.blocks[i].hash.as_str();
        let ghost before = str_views(out@);
        assert(all.take(i + 1).drop_last() =~= all.take(i as int));
        assert(all.take(i + 1).last() == doc.blocks@[i as int]@);
        if !is_anchored(anchors, hash) {
            out.push(hash);
            assert(str_views(out@) =~= before.push(hash@));
        }
        i = i + 1;
    }
    assert(all.take(i as int) =~= all);
    out
}

// ---------------------------------------------------------------------------
// What an export shows
// ---------------------------------------------------------------------------

/// The block that holds the comments on `hash`, where there are any.
pub open spec fn commented_block(blocks: Seq<ReviewBlockView>, hash: Seq<char>) -> Option<int> {
    match find_block(blocks, hash, 0) {
        Some(i) if blocks[i].comments.len() > 0 => Some(i),
        _ => None,
    }
}

/// The sections for the first `n` anchors: the position of the anchor and that
/// of the block with its comments. Each hash has one, at its first anchor.
pub open spec fn sections(
    blocks: Seq<ReviewBlockView>,
    anchors: Seq<AnchorView>,
    n: int,
) -> Seq<(int, int)>
    decreases n,
{
    if n <= 0 {
        seq![]
    } else {
        let before = sections(blocks, anchors, n - 1);
        let hash = anchors[n - 1].hash;
        match commented_block(blocks, hash) {
            Some(j) if !has_hash(anchors.take(n - 1), hash) => before.push((n - 1, j)),
            _ => before,
        }
    }
}

/// The blocks with comments among the first `n` of `hashes`.
pub open spec fn commented_blocks(
    blocks: Seq<ReviewBlockView>,
    hashes: Seq<Seq<char>>,
) -> Seq<int>
    decreases hashes.len(),
{
    if hashes.len() == 0 {
        seq![]
    } else {
        let before = commented_blocks(blocks, hashes.drop_last());
        match commented_block(blocks, hashes.last()) {
            Some(j) => before.push(j),
            None => before,
        }
    }
}

/// How many comments the blocks at `positions` have in all.
pub open spec fn comments_at(blocks: Seq<ReviewBlockView>, positions: Seq<int>) -> nat
    decreases positions.len(),
{
    if positions.len() == 0 {
        0
    } else {
        comments_at(blocks, positions.drop_last()) + blocks[positions.last()].comments.len()
    }
}

/// The blocks of a list of sections.
pub open spec fn section_blocks(sections: Seq<(int, int)>) -> Seq<int> {
    sections.map_values(|s: (int, int)| s.1)
}

/// What a section is found by: the commented block that it shows.
proof fn lemma_find_block(blocks: Seq<ReviewBlockView>, hash: Seq<char>, i: int)
    ensures
        find_block(blocks, hash, i) matches Some(j) ==> 0 <= j < blocks.len() && blocks[j].hash
            == hash,
    decreases blocks.len() - i,
{
    if 0 <= i < blocks.len() && blocks[i].hash != hash {
        lemma_find_block(blocks, hash, i + 1);
    }
}

/// A hash with comments has been seen before where a section for it is there.
proof fn lemma_sections(blocks: Seq<ReviewBlockView>, anchors: Seq<AnchorView>, n: int)
    requires
        0 <= n <= anchors.len(),
    ensures
        sections(blocks, anchors, n).len() <= n,
        forall|k: int|
            0 <= k < sections(blocks, anchors, n).len() ==> {
                let s = #[trigger] sections(blocks, anchors, n)[k];
                0 <= s.0 < n && 0 <= s.1 < blocks.len() && anchors[s.0].hash == blocks[s.1].hash
            },
        forall|hash: Seq<char>|
            commented_block(blocks, hash) is Some ==> (#[trigger] has_hash(anchors.take(n), hash)
                == exists|k: int|
                0 <= k < sections(blocks, anchors, n).len() && anchors[(
                #[trigger] sections(blocks, anchors, n)[k]).0].hash == hash),
    decreases n,
{
    if n > 0 {
        lemma_sections(blocks, anchors, n - 1);
        let before = sections(blocks, anchors, n - 1);
        let all = sections(blocks, anchors, n);
        let last = anchors[n - 1].hash;
        lemma_find_block(blocks, last, 0);
        assert(anchors.take(n).last() == anchors[n - 1]);
        assert forall|hash: Seq<char>| commented_block(blocks, hash) is Some implies (
        #[trigger] has_hash(anchors.take(n), hash) == exists|k: int|
            0 <= k < all.len() && anchors[(#[trigger] all[k]).0].hash == hash) by {
            let seen = has_hash(anchors.take(n - 1), hash);
            assert(has_hash(anchors.take(n), hash) == (seen || hash == last)) by {
                if seen {
                    let i = choose|i: int|
                        0 <= i < anchors.take(n - 1).len() && (#[trigger] anchors.take(
                            n - 1,
                        )[i]).hash == hash;
                    assert(anchors.take(n)[i].hash == hash);
                }
                if has_hash(anchors.take(n), hash) && hash != last {
                    let i = choose|i: int|
                        0 <= i < anchors.take(n).len() && (#[trigger] anchors.take(n)[i]).hash
                            == hash;
                    assert(anchors.take(n - 1)[i].hash == hash);
                }
                if hash == last {
                    assert(anchors.take(n)[n - 1].hash == hash);
                }
            }
            if seen {
                let k = choose|k: int|
                    0 <= k < before.len() && anchors[(#[trigger] before[k]).0].hash == hash;
                assert(all[k] == before[k]);
            } else if hash == last {
                assert(all == before.push((n - 1, commented_block(blocks, hash)->Some_0)));
                assert(all[before.len() as int].0 == n - 1);
            } else {
                if exists|k: int| 0 <= k < all.len() && anchors[(#[trigger] all[k]).0].hash == hash {
                    let k = choose|k: int|
                        0 <= k < all.len() && anchors[(#[trigger] all[k]).0].hash == hash;
                    assert(k < before.len());
                    assert(before[k] == all[k]);
                }
            }
        }
        assert forall|k: int| 0 <= k < all.len() implies {
            let s = #[trigger] all[k];
            0 <= s.0 < n && 0 <= s.1 < blocks.len() && anchors[s.0].hash == blocks[s.1].hash
        } by {
            if k < before.len() {
                assert(all[k] == before[k]);
            }
        }
    } else {
        assert forall|hash: Seq<char>| commented_block(blocks, hash) is Some implies !(
        #[trigger] has_hash(anchors.take(n), hash)) by {}
    }
}

/// The values of a list of pairs of positions.
pub open spec fn pair_views(pairs: Seq<(usize, usize)>) -> Seq<(int, int)> {
    pairs.map_values(|p: (usize, usize)| (p.0 as int, p.1 as int))
}

/// The sections of an export.
fn find_sections(doc: &ReviewDoc, anchors: &Vec<Anchor>) -> (r: Vec<(usize, usize)>)
    ensures
        pair_views(r@) == sections(doc@.blocks, anchor_views(anchors@), anchors@.len() as int),
        forall|k: int|
            0 <= k < r@.len() ==> (#[trigger] r@[k]).0 < anchors@.len() && r@[k].1
                < doc.blocks@.len(),
{
    let ghost blocks = doc@.blocks;
    let ghost live = anchor_views(anchors@);
    let mut out: Vec<(usize, usize)> = Vec::new();
    let mut i: usize = 0;
    assert(pair_views(out@) =~= sections(blocks, live, 0));
    while i < anchors.len()
        invariant
            blocks == doc@.blocks,
            live == anchor_views(anchors@),
            i <= anchors@.len(),
            pair_views(out@) == sections(blocks, live, i as int),
            forall|k: int|
                0 <= k < out@.len() ==> (#[trigger] out@[k]).0 < anchors@.len() && out@[k].1
                    < doc.blocks@.len(),
        decreases anchors@.len() - i,
    {
        let hash = anchors[i].hash.as_str();
        let ghost before = pair_views(out@);
        assert(live[i as int] == anchors@[i as int]@);
        if let Some(j) = find_block_index(&doc.blocks, hash) {
            assert(blocks[j as int] == doc.blocks@[j as int]@);
            if doc.blocks[j].comments.len() > 0 {
                let mut seen: bool = false;
                let mut k: usize = 0;
                while k < out.len() && !seen
                    invariant
                        live == anchor_views(anchors@),
                        before == pair_views(out@),
                        hash@ == live[i as int].hash,
                        i < anchors@.len(),
                        forall|k: int|
                            0 <= k < out@.len() ==> (#[trigger] out@[k]).0 < anchors@.len()
                                && out@[k].1 < doc.blocks@.len(),
                        k <= out@.len(),
                        seen ==> exists|k: int|
                            0 <= k < before.len() && live[(#[trigger] before[k]).0].hash == hash@,
                        !seen ==> forall|m: int|
                            0 <= m < k ==> live[(#[trigger] before[m]).0].hash != hash@,
                    decreases out@.len() - k + if seen {
                        0int
                    } else {
                        1int
                    },
                {
                    let at: usize = out[k].0;
                    assert(before[k as int] == (out@[k as int].0 as int, out@[k as int].1 as int));
                    assert(live[at as int] == anchors@[at as int]@);
                    if same_text(anchors[at].hash.as_str(), hash) {
                        seen = true;
                    } else {
                        k = k + 1;
                    }
                }
                proof {
                    lemma_sections(blocks, live, i as int);
                    assert(commented_block(blocks, hash@) is Some);
                    assert(has_hash(live.take(i as int), hash@) == seen);
                }
                if !seen {
                    out.push((i, j));
                    assert(pair_views(out@) =~= before.push((i as int, j as int)));
                }
            }
        }
        i = i + 1;
    }
    out
}

// ---------------------------------------------------------------------------
// The text of an export
// ---------------------------------------------------------------------------

/// The lines of a comment behind its first, each indented.
pub open spec fn continuation(lines: Seq<Seq<char>>) -> Seq<char>
    decreases lines.len(),
{
    if lines.len() <= 1 {
        seq![]
    } else {
        continuation(lines.drop_last()) + "  "@ + lines.last() + "\n"@
    }
}

/// A comment as a bullet. Its further lines are indented.
pub open spec fn bullet(text: Seq<char>) -> Seq<char> {
    "- "@ + line_at(text, 0) + "\n"@ + continuation(lines(text))
}

/// Comments as bullets.
pub open spec fn bullets(comments: Seq<CommentView>) -> Seq<char>
    decreases comments.len(),
{
    if comments.len() == 0 {
        seq![]
    } else {
        bullets(comments.drop_last()) + bullet(comments.last().text)
    }
}

/// The lines of an anchor: `L12-L18`, or `L40` for one line.
pub open spec fn line_label_text(start: nat, end: nat) -> Seq<char> {
    if start == end {
        "L"@ + decimal(start)
    } else {
        "L"@ + decimal(start) + "-L"@ + decimal(end)
    }
}

/// What kind of block has the source `source`, judged by how it begins.
pub open spec fn block_word(source: Seq<char>) -> Seq<char> {
    let s = trimmed_start(source);
    let digits = leading_digits(s) as int;
    if "|"@.is_prefix_of(s) {
        "table"@
    } else if "- "@.is_prefix_of(s) || "* "@.is_prefix_of(s) || "+ "@.is_prefix_of(s) {
        "list"@
    } else if digits > 0 && (". "@.is_prefix_of(s.skip(digits)) || ") "@.is_prefix_of(
        s.skip(digits),
    )) {
        "list"@
    } else {
        "block"@
    }
}

/// What is said of where anchor `i` lies, for an item or a row.
pub open spec fn place_text(anchors: Seq<AnchorView>, i: int) -> Seq<char> {
    if anchors[i].kind == AnchorKind::Block {
        seq![]
    } else {
        let block = anchors[enclosing_block(anchors, i)];
        " （in "@ + block_word(block.source) + " "@ + line_label_text(
            block.line_start,
            block.line_end,
        ) + "）"@
    }
}

/// The section for anchor `i` with the comments `comments`.
pub open spec fn section_text(
    anchors: Seq<AnchorView>,
    i: int,
    comments: Seq<CommentView>,
) -> Seq<char> {
    "> "@ + line_label_text(anchors[i].line_start, anchors[i].line_end) + ": "@ + flat(
        anchors[i].excerpt,
    ) + place_text(anchors, i) + "\n\n"@ + bullets(comments) + "\n"@
}

/// A list of sections.
pub open spec fn sections_text(
    anchors: Seq<AnchorView>,
    blocks: Seq<ReviewBlockView>,
    sections: Seq<(int, int)>,
) -> Seq<char>
    decreases sections.len(),
{
    if sections.len() == 0 {
        seq![]
    } else {
        let (i, j) = sections.last();
        sections_text(anchors, blocks, sections.drop_last()) + section_text(
            anchors,
            i,
            blocks[j].comments,
        )
    }
}

/// The section for a block whose anchor is gone.
pub open spec fn lost_text(block: ReviewBlockView) -> Seq<char> {
    "> (not found): "@ + flat(block.excerpt) + "\n\n"@ + bullets(block.comments) + "\n"@
}

/// A list of sections for blocks whose anchors are gone.
pub open spec fn losts_text(blocks: Seq<ReviewBlockView>, positions: Seq<int>) -> Seq<char>
    decreases positions.len(),
{
    if positions.len() == 0 {
        seq![]
    } else {
        losts_text(blocks, positions.drop_last()) + lost_text(blocks[positions.last()])
    }
}

/// The section for the comments on the document as a whole.
pub open spec fn file_section_text(md_name: Seq<char>, comments: Seq<CommentView>) -> Seq<char> {
    if comments.len() == 0 {
        seq![]
    } else {
        "> (file): "@ + flat(md_name) + "\n\n"@ + bullets(comments) + "\n"@
    }
}

/// The line that says how much is exported.
pub open spec fn summary_text(
    now: Seq<char>,
    on_file: nat,
    anchored: nat,
    shown: nat,
    lost: nat,
) -> Seq<char> {
    "Exported: "@ + now + " · "@ + (if on_file > 0 {
        decimal(on_file + anchored) + " comments ("@ + decimal(on_file) + " on the file, "@
            + decimal(anchored) + " on "@ + decimal(shown) + " blocks)"@
    } else {
        decimal(anchored) + " comments on "@ + decimal(shown) + " blocks"@
    }) + (if lost > 0 {
        " (+"@ + decimal(lost) + " unanchored)"@
    } else {
        seq![]
    }) + "\n\n"@
}

/// The export of `doc` for a document with the anchors `anchors`, before the
/// white space at its end is put in order.
pub open spec fn export_body(
    md_name: Seq<char>,
    anchors: Seq<AnchorView>,
    doc: ReviewView,
    now: Seq<char>,
) -> Seq<char> {
    let shown = sections(doc.blocks, anchors, anchors.len() as int);
    let lost = commented_blocks(doc.blocks, unanchored_hashes(doc.blocks, anchors));
    "# Review: "@ + md_name + "\n\n"@ + summary_text(
        now,
        doc.file_comments.len(),
        comments_at(doc.blocks, section_blocks(shown)),
        shown.len(),
        comments_at(doc.blocks, lost),
    ) + file_section_text(md_name, doc.file_comments) + sections_text(
        anchors,
        doc.blocks,
        shown,
    ) + (if lost.len() > 0 {
        "## Unanchored\n\n"@ + losts_text(doc.blocks, lost)
    } else {
        seq![]
    })
}

/// The export of `doc` for a document with the anchors `anchors`.
pub open spec fn export_text(
    md_name: Seq<char>,
    anchors: Seq<AnchorView>,
    doc: ReviewView,
    now: Seq<char>,
) -> Seq<char> {
    trimmed_end(export_body(md_name, anchors, doc, now)).push('\n')
}

/// Appends a comment as a bullet.
fn push_comment_bullet(out: &mut String, comment: &str)
    ensures
        final(out)@ == old(out)@ + bullet(comment@),
{
    let chars = chars_of(comment);
    let ghost all = lines(chars@);
    let (first, rest) = split_line(chars.as_slice());
    out.append("- ");
    push_chars(out, first);
    out.append("\n");
    let ghost head = out@;
    assert(head =~= old(out)@ + ("- "@ + line_at(comment@, 0) + "\n"@));
    let mut rest = rest;
    let ghost mut done: int = if all.len() > 0 {
        1
    } else {
        0
    };
    proof {
        if chars@.len() == 0 {
            assert(all =~= seq![]);
            assert(lines(rest@) =~= seq![]);
        } else {
            assert(all.skip(1) =~= lines(rest@));
        }
        assert(continuation(all.take(done)) =~= seq![]);
        assert(head + continuation(all.take(done)) =~= head);
        assert(all.skip(done) =~= lines(rest@));
    }
    while rest.len() > 0
        invariant
            all == lines(comment@),
            0 <= done <= all.len(),
            rest@.len() > 0 ==> done >= 1,
            all.skip(done) == lines(rest@),
            out@ == head + continuation(all.take(done)),
        decreases rest@.len(),
    {
        let (line, next) = split_line(rest);
        let ghost before = out@;
        out.append("  ");
        push_chars(out, line);
        out.append("\n");
        proof {
            let tail = all.skip(done);
            assert(tail[0] == line@);
            assert(all[done] == line@);
            assert(all.take(done + 1).drop_last() =~= all.take(done));
            assert(all.skip(done + 1) =~= tail.skip(1));
            assert((seq![line@] + lines(next@)).skip(1) =~= lines(next@));
            assert(out@ =~= head + continuation(all.take(done + 1)));
            done = done + 1;
        }
        rest = next;
    }
    proof {
        assert(lines(rest@) =~= seq![]);
        assert(all.skip(done).len() == 0);
        assert(all.take(done) =~= all);
        assert(out@ =~= old(out)@ + bullet(comment@));
    }
}

/// Appends comments as bullets.
fn push_bullets(out: &mut String, comments: &Vec<Comment>)
    ensures
        final(out)@ == old(out)@ + bullets(comment_views(comments@)),
{
    let ghost all = comment_views(comments@);
    let mut i: usize = 0;
    assert(out@ =~= old(out)@ + bullets(all.take(0)));
    while i < comments.len()
        invariant
            all == comment_views(comments@),
            i <= comments@.len(),
            out@ == old(out)@ + bullets(all.take(i as int)),
        decreases comments@.len() - i,
    {
        assert(all.take(i + 1).drop_last() =~= all.take(i as int));
        assert(all.take(i + 1).last() == comments@[i as int]@);
        push_comment_bullet(out, comments[i].text.as_str());
        i = i + 1;
        assert(out@ =~= old(out)@ + bullets(all.take(i as int)));
    }
    assert(all.take(i as int) =~= all);
}

/// Appends the lines of an anchor.
fn push_line_label(out: &mut String, start: usize, end: usize)
    ensures
        final(out)@ == old(out)@ + line_label_text(start as nat, end as nat),
{
    out.append("L");
    push_decimal(out, start as u128);
    if start != end {
        out.append("-L");
        push_decimal(out, end as u128);
    }
    assert(out@ =~= old(out)@ + line_label_text(start as nat, end as nat));
}

/// The lines of an anchor: `L12-L18`, or `L40` for one line.
pub fn line_label(start: usize, end: usize) -> (r: String)
    ensures
        r@ == line_label_text(start as nat, end as nat),
{
    let mut out = String::new();
    push_line_label(&mut out, start, end);
    assert(out@ =~= line_label_text(start as nat, end as nat));
    out
}

/// What kind of block has the source `source`, judged by how it begins.
fn block_kind_label(source: &str) -> (r: &'static str)
    ensures
        r@ == block_word(source@),
{
    let chars = chars_of(source);
    let s = trim_start(chars.as_slice());
    if has_prefix_str(s, "|") {
        return "table";
    }
    if has_prefix_str(s, "- ") || has_prefix_str(s, "* ") || has_prefix_str(s, "+ ") {
        return "list";
    }
    let digits: usize = count_digits(s);
    if digits > 0 {
        let rest = &s[digits..s.len()];
        assert(rest@ =~= s@.skip(digits as int));
        if has_prefix_str(rest, ". ") || has_prefix_str(rest, ") ") {
            return "list";
        }
    }
    "block"
}

/// The block that holds anchor `i`.
fn find_enclosing_block(anchors: &Vec<Anchor>, i: usize) -> (r: usize)
    requires
        i < anchors@.len(),
        parents_come_first(anchor_views(anchors@)),
    ensures
        r == enclosing_block(anchor_views(anchors@), i as int),
        r < anchors@.len(),
{
    let ghost all = anchor_views(anchors@);
    let mut at: usize = i;
    loop
        invariant
            all == anchor_views(anchors@),
            parents_come_first(all),
            at < anchors@.len(),
            enclosing_block(all, i as int) == enclosing_block(all, at as int),
        decreases at,
    {
        assert(all[at as int] == anchors@[at as int]@);
        match anchors[at].parent {
            None => {
                return at;
            },
            Some(p) => {
                at = p;
            },
        }
    }
}

/// Appends what is said of where anchor `i` lies.
fn push_nested_suffix(out: &mut String, anchors: &Vec<Anchor>, i: usize)
    requires
        i < anchors@.len(),
        parents_come_first(anchor_views(anchors@)),
    ensures
        final(out)@ == old(out)@ + place_text(anchor_views(anchors@), i as int),
{
    assert(anchor_views(anchors@)[i as int] == anchors@[i as int]@);
    if anchors[i].kind == AnchorKind::Block {
        assert(out@ =~= old(out)@ + place_text(anchor_views(anchors@), i as int));
        return;
    }
    let at: usize = find_enclosing_block(anchors, i);
    let block = &anchors[at];
    assert(anchor_views(anchors@)[at as int] == block@);
    out.append(" （in ");
    out.append(block_kind_label(block.source.as_str()));
    out.append(" ");
    push_line_label(out, block.line_start, block.line_end);
    out.append("）");
    assert(out@ =~= old(out)@ + place_text(anchor_views(anchors@), i as int));
}

/// Appends the section for anchor `i` with the comments `comments`.
fn push_section(out: &mut String, anchors: &Vec<Anchor>, i: usize, comments: &Vec<Comment>)
    requires
        i < anchors@.len(),
        parents_come_first(anchor_views(anchors@)),
    ensures
        final(out)@ == old(out)@ + section_text(
            anchor_views(anchors@),
            i as int,
            comment_views(comments@),
        ),
{
    assert(anchor_views(anchors@)[i as int] == anchors@[i as int]@);
    let anchor = &anchors[i];
    out.append("> ");
    out.append(line_label(anchor.line_start, anchor.line_end).as_str());
    out.append(": ");
    let excerpt = single_line(anchor.excerpt.as_str());
    out.append(excerpt.as_str());
    push_nested_suffix(out, anchors, i);
    out.append("\n\n");
    push_bullets(out, comments);
    out.append("\n");
    assert(out@ =~= old(out)@ + section_text(
        anchor_views(anchors@),
        i as int,
        comment_views(comments@),
    ));
}

/// Appends the section for a block whose anchor is gone.
fn push_lost(out: &mut String, block: &ReviewBlock)
    ensures
        final(out)@ == old(out)@ + lost_text(block@),
{
    out.append("> (not found): ");
    let excerpt = single_line(block.excerpt.as_str());
    out.append(excerpt.as_str());
    out.append("\n\n");
    push_bullets(out, &block.comments);
    out.append("\n");
    assert(out@ =~= old(out)@ + lost_text(block@));
}

/// Appends the section for the comments on the document as a whole.
fn push_file_section(out: &mut String, md_name: &str, comments: &Vec<Comment>)
    ensures
        final(out)@ == old(out)@ + file_section_text(md_name@, comment_views(comments@)),
{
    if comments.len() > 0 {
        out.append("> (file): ");
        let name = single_line(md_name);
        out.append(name.as_str());
        out.append("\n\n");
        push_bullets(out, comments);
        out.append("\n");
    }
    assert(out@ =~= old(out)@ + file_section_text(md_name@, comment_views(comments@)));
}

/// Appends the line that says how much is exported.
fn push_summary(
    out: &mut String,
    now: &str,
    on_file: usize,
    anchored: u128,
    shown: usize,
    lost: u128,
)
    requires
        on_file + anchored <= u128::MAX,
    ensures
        final(out)@ == old(out)@ + summary_text(
            now@,
            on_file as nat,
            anchored as nat,
            shown as nat,
            lost as nat,
        ),
{
    out.append("Exported: ");
    out.append(now);
    out.append(" · ");
    let ghost text0 = out@;
    assert(text0 =~= old(out)@ + ("Exported: "@ + now@ + " · "@));
    if on_file > 0 {
        push_decimal(out, on_file as u128 + anchored);
        out.append(" comments (");
        push_decimal(out, on_file as u128);
        out.append(" on the file, ");
        push_decimal(out, anchored);
        out.append(" on ");
        push_decimal(out, shown as u128);
        out.append(" blocks)");
        assert(out@ =~= text0 + (decimal((on_file + anchored) as nat) + " comments ("@ + decimal(
            on_file as nat,
        ) + " on the file, "@ + decimal(anchored as nat) + " on "@ + decimal(shown as nat)
            + " blocks)"@));
    } else {
        push_decimal(out, anchored);
        out.append(" comments on ");
        push_decimal(out, shown as u128);
        out.append(" blocks");
        assert(out@ =~= text0 + (decimal(anchored as nat) + " comments on "@ + decimal(
            shown as nat,
        ) + " blocks"@));
    }
    let ghost text1 = out@;
    if lost > 0 {
        out.append(" (+");
        push_decimal(out, lost);
        out.append(" unanchored)");
        assert(out@ =~= text1 + (" (+"@ + decimal(lost as nat) + " unanchored)"@));
    } else {
        assert(out@ =~= text1 + seq![]);
    }
    out.append("\n\n");
    assert(out@ =~= old(out)@ + summary_text(
        now@,
        on_file as nat,
        anchored as nat,
        shown as nat,
        lost as nat,
    ));
}

/// The values of a list of positions.
pub open spec fn position_views(positions: Seq<usize>) -> Seq<int> {
    positions.map_values(|p: usize| p as int)
}

/// The blocks with comments whose anchors are gone.
fn find_lost(doc: &ReviewDoc, anchors: &Vec<Anchor>) -> (r: Vec<usize>)
    ensures
        position_views(r@) == commented_blocks(
            doc@.blocks,
            unanchored_hashes(doc@.blocks, anchor_views(anchors@)),
        ),
        forall|k: int| 0 <= k < r@.len() ==> (#[trigger] r@[k]) < doc.blocks@.len(),
{
    let hashes = unanchored(doc, anchors.as_slice());
    let ghost all = str_views(hashes@);
    let mut out: Vec<usize> = Vec::new();
    let mut i: usize = 0;
    assert(position_views(out@) =~= commented_blocks(doc@.blocks, all.take(0)));
    while i < hashes.len()
        invariant
            all == str_views(hashes@),
            i <= hashes@.len(),
            position_views(out@) == commented_blocks(doc@.blocks, all.take(i as int)),
            forall|k: int| 0 <= k < out@.len() ==> (#[trigger] out@[k]) < doc.blocks@.len(),
        decreases hashes@.len() - i,
    {
        let ghost before = position_views(out@);
        assert(all.take(i + 1).drop_last() =~= all.take(i as int));
        assert(all.take(i + 1).last() == hashes@[i as int]@);
        if let Some(j) = find_block_index(&doc.blocks, hashes[i]) {
            assert(doc@.blocks[j as int] == doc.blocks@[j as int]@);
            if doc.blocks[j].comments.len() > 0 {
                out.push(j);
                assert(position_views(out@) =~= before.push(j as int));
            }
        }
        i = i + 1;
    }
    assert(all.take(i as int) =~= all);
    out
}

/// How many comments the blocks at `positions` have in all.
fn count_comments_at(blocks: &Vec<ReviewBlock>, positions: &Vec<usize>) -> (r: u128)
    requires
        forall|k: int| 0 <= k < positions@.len() ==> (#[trigger] positions@[k]) < blocks@.len(),
    ensures
        r == comments_at(review_block_views(blocks@), position_views(positions@)),
        r <= usize::MAX * usize::MAX,
{
    let ghost all = position_views(positions@);
    let ghost views = review_block_views(blocks@);
    let n: usize = positions.len();
    let mut total: u128 = 0;
    let mut i: usize = 0;
    while i < n
        invariant
            all == position_views(positions@),
            views == review_block_views(blocks@),
            forall|k: int| 0 <= k < positions@.len() ==> (#[trigger] positions@[k]) < blocks@.len(),
            n == positions@.len(),
            i <= n,
            total == comments_at(views, all.take(i as int)),
            total <= i * usize::MAX,
        decreases n - i,
    {
        assert(all.take(i + 1).drop_last() =~= all.take(i as int));
        assert(all.take(i + 1).last() == positions@[i as int] as int);
        let at: usize = positions[i];
        assert(views[at as int] == blocks@[at as int]@);
        let here: usize = blocks[at].comments.len();
        assert(i * usize::MAX + usize::MAX == (i + 1) * usize::MAX) by (nonlinear_arith);
        assert((i + 1) * usize::MAX <= usize::MAX * usize::MAX) by (nonlinear_arith)
            requires
                i + 1 <= usize::MAX,
        ;
        assert(usize::MAX * usize::MAX <= u128::MAX) by (nonlinear_arith);
        total = total + here as u128;
        i = i + 1;
    }
    assert(n * usize::MAX <= usize::MAX * usize::MAX) by (nonlinear_arith)
        requires
            n <= usize::MAX,
    ;
    assert(all.take(i as int) =~= all);
    total
}

/// Appends a list of sections.
fn push_sections(
    out: &mut String,
    anchors: &Vec<Anchor>,
    blocks: &Vec<ReviewBlock>,
    sections: &Vec<(usize, usize)>,
)
    requires
        parents_come_first(anchor_views(anchors@)),
        forall|k: int|
            0 <= k < sections@.len() ==> (#[trigger] sections@[k]).0 < anchors@.len()
                && sections@[k].1 < blocks@.len(),
    ensures
        final(out)@ == old(out)@ + sections_text(
            anchor_views(anchors@),
            review_block_views(blocks@),
            pair_views(sections@),
        ),
{
    let ghost live = anchor_views(anchors@);
    let ghost views = review_block_views(blocks@);
    let ghost all = pair_views(sections@);
    let mut i: usize = 0;
    assert(out@ =~= old(out)@ + sections_text(live, views, all.take(0)));
    while i < sections.len()
        invariant
            live == anchor_views(anchors@),
            views == review_block_views(blocks@),
            all == pair_views(sections@),
            parents_come_first(live),
            forall|k: int|
                0 <= k < sections@.len() ==> (#[trigger] sections@[k]).0 < anchors@.len()
                    && sections@[k].1 < blocks@.len(),
            i <= sections@.len(),
            out@ == old(out)@ + sections_text(live, views, all.take(i as int)),
        decreases sections@.len() - i,
    {
        let (a, b) = sections[i];
        assert(all.take(i + 1).drop_last() =~= all.take(i as int));
        assert(all.take(i + 1).last() == (a as int, b as int));
        assert(views[b as int] == blocks@[b as int]@);
        push_section(out, anchors, a, &blocks[b].comments);
        i = i + 1;
        assert(out@ =~= old(out)@ + sections_text(live, views, all.take(i as int)));
    }
    assert(all.take(i as int) =~= all);
}

/// Appends a list of sections for blocks whose anchors are gone.
fn push_losts(out: &mut String, blocks: &Vec<ReviewBlock>, positions: &Vec<usize>)
    requires
        forall|k: int| 0 <= k < positions@.len() ==> (#[trigger] positions@[k]) < blocks@.len(),
    ensures
        final(out)@ == old(out)@ + losts_text(
            review_block_views(blocks@),
            position_views(positions@),
        ),
{
    let ghost views = review_block_views(blocks@);
    let ghost all = position_views(positions@);
    let mut i: usize = 0;
    assert(out@ =~= old(out)@ + losts_text(views, all.take(0)));
    while i < positions.len()
        invariant
            views == review_block_views(blocks@),
            all == position_views(positions@),
            forall|k: int| 0 <= k < positions@.len() ==> (#[trigger] positions@[k]) < blocks@.len(),
            i <= positions@.len(),
            out@ == old(out)@ + losts_text(views, all.take(i as int)),
        decreases positions@.len() - i,
    {
        let at: usize = positions[i];
        assert(all.take(i + 1).drop_last() =~= all.take(i as int));
        assert(all.take(i + 1).last() == at as int);
        assert(views[at as int] == blocks@[at as int]@);
        push_lost(out, &blocks[at]);
        i = i + 1;
        assert(out@ =~= old(out)@ + losts_text(views, all.take(i as int)));
    }
    assert(all.take(i as int) =~= all);
}

/// The blocks of a list of sections.
fn blocks_of_sections(sections: &Vec<(usize, usize)>) -> (r: Vec<usize>)
    ensures
        position_views(r@) == section_blocks(pair_views(sections@)),
        r@.len() == sections@.len(),
        forall|k: int| 0 <= k < r@.len() ==> (#[trigger] r@[k]) == sections@[k].1,
{
    let mut out: Vec<usize> = Vec::new();
    let mut i: usize = 0;
    while i < sections.len()
        invariant
            i <= sections@.len(),
            out@.len() == i,
            forall|k: int| 0 <= k < i ==> (#[trigger] out@[k]) == sections@[k].1,
        decreases sections@.len() - i,
    {
        out.push(sections[i].1);
        i = i + 1;
    }
    assert(position_views(out@) =~= section_blocks(pair_views(sections@)));
    out
}

/// The export of `doc` for a document with the anchors `anchors`.
pub fn export_anchors(
    md_name: &str,
    anchors: &Vec<Anchor>,
    doc: &ReviewDoc,
    now: &str,
) -> (r: String)
    requires
        parents_come_first(anchor_views(anchors@)),
    ensures
        r@ == export_text(md_name@, anchor_views(anchors@), doc@, now@),
{
    let shown = find_sections(doc, anchors);
    let lost = find_lost(doc, anchors);
    let shown_blocks = blocks_of_sections(&shown);
    let anchored: u128 = count_comments_at(&doc.blocks, &shown_blocks);
    let lost_comments: u128 = count_comments_at(&doc.blocks, &lost);
    let on_file: usize = doc.file_comments.len();
    assert(usize::MAX * usize::MAX + usize::MAX <= u128::MAX) by (nonlinear_arith);
    let mut out = String::new();
    out.append("# Review: ");
    out.append(md_name);
    out.append("\n\n");
    push_summary(&mut out, now, on_file, anchored, shown.len(), lost_comments);
    push_file_section(&mut out, md_name, &doc.file_comments);
    push_sections(&mut out, anchors, &doc.blocks, &shown);
    let ghost text0 = out@;
    if lost.len() > 0 {
        out.append("## Unanchored\n\n");
        push_losts(&mut out, &doc.blocks, &lost);
        assert(out@ =~= text0 + ("## Unanchored\n\n"@ + losts_text(
            doc@.blocks,
            position_views(lost@),
        )));
    } else {
        assert(out@ =~= text0 + seq![]);
    }
    let chars = chars_of(out.as_str());
    let mut r = string_of(trim_end(chars.as_slice()));
    r.push('\n');
    proof {
        assert(pair_views(shown@).len() == shown@.len());
        assert(position_views(lost@).len() == lost@.len());
        assert(out@ =~= export_body(md_name@, anchor_views(anchors@), doc@, now@));
    }
    r
}

/// The comments of `doc` as Markdown of their own: a heading, a line that says
/// how much is exported, the comments on the file, a section for each anchor with
/// comments in the order of the document, and a section for the comments whose
/// anchors are gone. `now` is the time of the export.
pub fn export_markdown(md_name: &str, markdown: &str, doc: &ReviewDoc, now: &str) -> (r: String)
    ensures
        r@ == export_text(md_name@, document_anchors(markdown@), doc@, now@),
{
    let live = anchors(markdown);
    proof {
        law_parents_come_first(markdown@);
    }
    export_anchors(md_name, &live, doc, now)
}

/// Whether `t` has the form `YYYY-MM-DDTHH:MM:SSZ`, with a digit for each of `Y`,
/// `M`, `D`, `H` and `S`.
pub open spec fn is_utc_second(t: Seq<char>) -> bool {
    &&& t.len() == 20
    &&& t[4] == '-' && t[7] == '-' && t[10] == 'T' && t[13] == ':' && t[16] == ':' && t[19] == 'Z'
    &&& forall|i: int|
        0 <= i < 19 && i != 4 && i != 7 && i != 10 && i != 13 && i != 16 ==> '0' <= #[trigger] t[i]
            && t[i] <= '9'
}

/// Whether `t` is a time of the clock in the form of RFC 3339. It is empty where the
/// year has no four digits.
pub open spec fn is_timestamp(t: Seq<char>) -> bool {
    t.len() == 0 || is_utc_second(t)
}

/// The current time of `time`'s UTC clock, `time::OffsetDateTime::now_utc`, in the
/// form of RFC 3339 without parts of seconds. The contract claims that form. Which
/// time it is depends on the clock.
#[verifier::external_body]
pub(crate) fn now_rfc3339() -> (r: String)
    ensures
        is_timestamp(r@),
{
    let now = time::OffsetDateTime::now_utc();
    let whole = now.replace_nanosecond(0).unwrap_or(now);
    whole.format(&time::format_description::well_known::Rfc3339).unwrap_or_default()
}

/// What is written to export the comments on the document `md`: the file and its
/// text, as of now.
pub fn export(md: &str, markdown: &str, doc: &ReviewDoc) -> (r: (String, String))
    ensures
        r.0@ == export_file(md@),
        exists|now: Seq<char>|
            is_timestamp(now) && r.1@ == #[trigger] export_text(
                title_of(md@),
                document_anchors(markdown@),
                doc@,
                now,
            ),
{
    let path = export_path(md);
    let name = file_title(md);
    let now = now_rfc3339();
    let rendered = export_markdown(name.as_str(), markdown, doc, now.as_str());
    (path, rendered)
}

// ---------------------------------------------------------------------------
// Reading a sidecar
// ---------------------------------------------------------------------------

/// What came of reading a sidecar.
pub enum SidecarRead {
    /// There is none.
    Missing,
    /// There is one, and it cannot be read.
    Unreadable,
    /// It is no sidecar.
    Malformed,
    /// It was read.
    Read(ReviewDoc),
}

/// Why the comments on a document cannot be had.
#[derive(Debug, Clone, Copy, PartialEq, Eq, Structural)]
pub enum LoadError {
    Unreadable,
    Malformed,
    UnsupportedVersion(u32),
}

/// The comments on the document `md`, given what came of reading its sidecar.
pub open spec fn loaded(md: Seq<char>, read: SidecarRead) -> Result<ReviewView, LoadError> {
    match read {
        SidecarRead::Missing => Ok(empty_review(md)),
        SidecarRead::Unreadable => Err(LoadError::Unreadable),
        SidecarRead::Malformed => Err(LoadError::Malformed),
        SidecarRead::Read(doc) => if doc.version == SCHEMA_VERSION {
            Ok(doc@)
        } else {
            Err(LoadError::UnsupportedVersion(doc.version))
        },
    }
}

/// The value of a result of [`load`].
pub open spec fn loaded_view(r: Result<ReviewDoc, LoadError>) -> Result<ReviewView, LoadError> {
    match r {
        Ok(doc) => Ok(doc@),
        Err(e) => Err(e),
    }
}

/// The comments on the document `md`, given what came of reading its sidecar.
/// Where there is no sidecar there are no comments. A sidecar that cannot be
/// read, or is of another version, is not taken for one without comments.
pub fn load(md: &str, read: SidecarRead) -> (r: Result<ReviewDoc, LoadError>)
    ensures
        loaded_view(r) == loaded(md@, read),
{
    match read {
        SidecarRead::Missing => Ok(empty_doc(md)),
        SidecarRead::Unreadable => Err(LoadError::Unreadable),
        SidecarRead::Malformed => Err(LoadError::Malformed),
        SidecarRead::Read(doc) => {
            if doc.version == SCHEMA_VERSION {
                Ok(doc)
            } else {
                Err(LoadError::UnsupportedVersion(doc.version))
            }
        },
    }
}

// ---------------------------------------------------------------------------
// Messages
// ---------------------------------------------------------------------------

/// A string as `std` writes it for a programmer: in quotes, with escapes.
pub uninterp spec fn quoted(s: Seq<char>) -> Seq<char>;

/// The `Debug` form of a string. The contract claims only that it follows from
/// the string.
#[verifier::external_body]
fn quote(s: &str) -> (r: String)
    ensures
        r@ == quoted(s@),
{
    format!("{:?}", s)
}

/// What is said of an error.
pub open spec fn error_text(e: ReviewErrorView) -> Seq<char> {
    match e {
        ReviewErrorView::UnsupportedVersion(v) => "unsupported review document version: "@
            + decimal(v as nat) + " (expected 1)"@,
        ReviewErrorView::InvalidHash(h) => "invalid block hash: "@ + quoted(h),
        ReviewErrorView::InvalidCommentId(id) => "invalid comment id: "@ + quoted(id),
        ReviewErrorView::CommentTooLong => "comment text exceeds 65536 bytes"@,
        ReviewErrorView::TooManyComments(n) => "review document has "@ + decimal(n)
            + " comments, exceeding the 10000 limit"@,
        ReviewErrorView::TooLarge(n) => "review document is "@ + decimal(n)
            + " bytes, exceeding the 8388608 byte limit"@,
    }
}

impl ReviewError {
    /// What is said of the error.
    pub fn message(&self) -> (r: String)
        ensures
            r@ == error_text(self@),
    {
        let mut out = String::new();
        match self {
            ReviewError::UnsupportedVersion(v) => {
                out.append("unsupported review document version: ");
                push_decimal(&mut out, *v as u128);
                out.append(" (expected 1)");
            },
            ReviewError::InvalidHash(h) => {
                out.append("invalid block hash: ");
                out.append(quote(h.as_str()).as_str());
            },
            ReviewError::InvalidCommentId(id) => {
                out.append("invalid comment id: ");
                out.append(quote(id.as_str()).as_str());
            },
            ReviewError::CommentTooLong => {
                out.append("comment text exceeds 65536 bytes");
            },
            ReviewError::TooManyComments(n) => {
                out.append("review document has ");
                push_decimal(&mut out, *n);
                out.append(" comments, exceeding the 10000 limit");
            },
            ReviewError::TooLarge(n) => {
                out.append("review document is ");
                push_decimal(&mut out, *n as u128);
                out.append(" bytes, exceeding the 8388608 byte limit");
            },
        }
        assert(out@ =~= error_text(self@));
        out
    }
}

// ---------------------------------------------------------------------------
// Laws
// ---------------------------------------------------------------------------

/// An excerpt that was put in order stays as it is.
proof fn lemma_normalized_twice(excerpt: Seq<char>)
    ensures
        normalized(normalized(excerpt)) == normalized(excerpt),
{
    let a = normalized(excerpt);
    assert(flat(a) =~= a) by {
        assert forall|i: int| 0 <= i < a.len() implies flat(a)[i] == a[i] by {
            assert(a[i] == flat_char(excerpt[i]));
        }
    }
}

/// Putting excerpts in order changes nothing that blocks are held to.
proof fn lemma_normalizing_keeps_errors(a: Seq<ReviewBlockView>, b: Seq<ReviewBlockView>, i: int)
    requires
        a.len() == b.len(),
        0 <= i <= a.len(),
        forall|j: int|
            0 <= j < a.len() ==> (#[trigger] a[j]).comments == b[j].comments && a[j].hash
                == b[j].hash,
    ensures
        blocks_error(a, i) == blocks_error(b, i),
        blocks_seen(a, i) == blocks_seen(b, i),
    decreases a.len() - i,
{
    if i < a.len() {
        assert(block_error(a[i]) == block_error(b[i]));
        lemma_normalizing_keeps_errors(a, b, i + 1);
    }
}

/// A sidecar that was put in order once is not changed by being validated again,
/// and is found right or wrong as before: what was accepted and written is
/// accepted when it comes back.
pub proof fn law_validation_settles(doc: ReviewView)
    ensures
        after_validation(after_validation(doc)) == after_validation(doc),
        validation_error(after_validation(doc)) == validation_error(doc),
{
    let after = after_validation(doc);
    if doc.version == SCHEMA_VERSION {
        lemma_normalizing_keeps_errors(doc.blocks, after.blocks, 0);
        lemma_normalizing_keeps_comments(doc.blocks, after.blocks);
        assert forall|i: int| 0 <= i < doc.blocks.len() implies normalized_block(
            #[trigger] normalized_block(doc.blocks[i]),
        ) == normalized_block(doc.blocks[i]) by {
            lemma_normalized_twice(doc.blocks[i].excerpt);
        }
        assert(after_validation(after).blocks =~= after.blocks);
    }
}

/// The hashes that the renderer gives its anchors are accepted in a sidecar.
pub proof fn law_anchor_hashes_are_acceptable(hash: Seq<char>)
    requires
        valid_hash(hash),
    ensures
        acceptable_hash(hash),
{
    assert forall|i: int| 0 <= i < hash.len() implies is_hex_char(#[trigger] hash[i]) by {
        assert(is_lower_hex(hash[i]));
    }
}

/// The blocks at `positions` with comments, for the hashes they are found by.
proof fn lemma_commented_blocks(
    blocks: Seq<ReviewBlockView>,
    hashes: Seq<Seq<char>>,
    hash: Seq<char>,
)
    requires
        commented_block(blocks, hash) is Some,
    ensures
        commented_blocks(blocks, hashes).contains(commented_block(blocks, hash)->Some_0)
            == hashes.contains(hash),
    decreases hashes.len(),
{
    let j = commented_block(blocks, hash)->Some_0;
    lemma_find_block(blocks, hash, 0);
    if hashes.len() > 0 {
        let last = hashes.last();
        let before = commented_blocks(blocks, hashes.drop_last());
        let all = commented_blocks(blocks, hashes);
        lemma_commented_blocks(blocks, hashes.drop_last(), hash);
        lemma_find_block(blocks, last, 0);
        assert(hashes.contains(hash) == (hashes.drop_last().contains(hash) || last == hash)) by {
            assert(hashes =~= hashes.drop_last().push(last));
            if hashes.drop_last().contains(hash) {
                let i = hashes.drop_last().index_of(hash);
                assert(hashes[i] == hash);
            }
            if last == hash {
                assert(hashes[hashes.len() - 1] == hash);
            }
            if hashes.contains(hash) && last != hash {
                let i = hashes.index_of(hash);
                assert(hashes.drop_last()[i] == hash);
            }
        }
        match commented_block(blocks, last) {
            Some(k) => {
                assert(all == before.push(k));
                assert(all.contains(j) == (before.contains(j) || k == j)) by {
                    if before.contains(j) {
                        let i = before.index_of(j);
                        assert(all[i] == j);
                    }
                    if k == j {
                        assert(all[before.len() as int] == j);
                    }
                    if all.contains(j) && k != j {
                        let i = all.index_of(j);
                        assert(before[i] == j);
                    }
                }
            },
            None => {},
        }
    }
}

/// A hash of a block is unanchored where no anchor has it.
proof fn lemma_unanchored_hashes(
    blocks: Seq<ReviewBlockView>,
    anchors: Seq<AnchorView>,
    j: int,
)
    requires
        0 <= j < blocks.len(),
    ensures
        unanchored_hashes(blocks, anchors).contains(blocks[j].hash) == !has_hash(
            anchors,
            blocks[j].hash,
        ),
    decreases blocks.len(),
{
    let hash = blocks[j].hash;
    let before = unanchored_hashes(blocks.drop_last(), anchors);
    let all = unanchored_hashes(blocks, anchors);
    let last = blocks.last().hash;
    if has_hash(anchors, hash) {
        lemma_anchored_is_not_unanchored(blocks, anchors, hash);
    } else if j == blocks.len() - 1 {
        assert(all == before.push(last));
        assert(all[before.len() as int] == hash);
    } else {
        assert(blocks.drop_last()[j] == blocks[j]);
        lemma_unanchored_hashes(blocks.drop_last(), anchors, j);
        let i = before.index_of(hash);
        assert(all[i] == hash);
    }
}

/// A hash that an anchor has is not unanchored.
proof fn lemma_anchored_is_not_unanchored(
    blocks: Seq<ReviewBlockView>,
    anchors: Seq<AnchorView>,
    hash: Seq<char>,
)
    requires
        has_hash(anchors, hash),
    ensures
        !unanchored_hashes(blocks, anchors).contains(hash),
    decreases blocks.len(),
{
    if blocks.len() > 0 {
        lemma_anchored_is_not_unanchored(blocks.drop_last(), anchors, hash);
        let before = unanchored_hashes(blocks.drop_last(), anchors);
        let all = unanchored_hashes(blocks, anchors);
        if all.contains(hash) {
            let i = all.index_of(hash);
            assert(i < before.len());
            assert(before[i] == hash);
        }
    }
}

/// Every block with comments that is the first with its hash is shown in an
/// export, and in one place only: at its anchor, or among those whose anchors
/// are gone.
pub proof fn law_export_shows_every_comment(doc: ReviewView, anchors: Seq<AnchorView>, j: int)
    requires
        0 <= j < doc.blocks.len(),
        doc.blocks[j].comments.len() > 0,
        find_block(doc.blocks, doc.blocks[j].hash, 0) == Some(j),
    ensures
        ({
            let shown = section_blocks(sections(doc.blocks, anchors, anchors.len() as int));
            let lost = commented_blocks(doc.blocks, unanchored_hashes(doc.blocks, anchors));
            shown.contains(j) != lost.contains(j)
        }),
{
    let blocks = doc.blocks;
    let hash = blocks[j].hash;
    let n = anchors.len() as int;
    let all = sections(blocks, anchors, n);
    let shown = section_blocks(all);
    lemma_sections(blocks, anchors, n);
    assert(anchors.take(n) =~= anchors);
    lemma_unanchored_hashes(blocks, anchors, j);
    lemma_commented_blocks(blocks, unanchored_hashes(blocks, anchors), hash);
    assert(commented_block(blocks, hash) == Some(j));
    if has_hash(anchors, hash) {
        let k = choose|k: int| 0 <= k < all.len() && anchors[(#[trigger] all[k]).0].hash == hash;
        lemma_section_block(blocks, anchors, n, k);
        assert(shown[k] == j);
    }
    if shown.contains(j) {
        let k = shown.index_of(j);
        assert(all[k].1 == j);
        assert(anchors[all[k].0].hash == hash);
        assert(has_hash(anchors, hash));
    }
}

/// A section shows the block that its anchor's hash finds.
proof fn lemma_section_block(
    blocks: Seq<ReviewBlockView>,
    anchors: Seq<AnchorView>,
    n: int,
    k: int,
)
    requires
        0 <= n <= anchors.len(),
        0 <= k < sections(blocks, anchors, n).len(),
    ensures
        commented_block(blocks, anchors[sections(blocks, anchors, n)[k].0].hash) == Some(
            sections(blocks, anchors, n)[k].1,
        ),
    decreases n,
{
    if n > 0 {
        let before = sections(blocks, anchors, n - 1);
        if k < before.len() {
            assert(sections(blocks, anchors, n)[k] == before[k]);
            lemma_section_block(blocks, anchors, n - 1, k);
        }
    }
}

/// No two sections of an export are about the same hash, so that the number of
/// sections is the number of blocks that the summary names.
pub proof fn law_each_hash_has_one_section(
    doc: ReviewView,
    anchors: Seq<AnchorView>,
    n: int,
    k: int,
    m: int,
)
    requires
        0 <= n <= anchors.len(),
        0 <= k < m < sections(doc.blocks, anchors, n).len(),
    ensures
        anchors[sections(doc.blocks, anchors, n)[k].0].hash != anchors[sections(
            doc.blocks,
            anchors,
            n,
        )[m].0].hash,
    decreases n,
{
    lemma_sections(doc.blocks, anchors, n);
    if n > 0 {
        let before = sections(doc.blocks, anchors, n - 1);
        let all = sections(doc.blocks, anchors, n);
        lemma_sections(doc.blocks, anchors, n - 1);
        if m < before.len() {
            law_each_hash_has_one_section(doc, anchors, n - 1, k, m);
            assert(all[k] == before[k] && all[m] == before[m]);
        } else {
            assert(all[k] == before[k]);
            let i = before[k].0;
            if anchors[i].hash == anchors[n - 1].hash {
                assert(anchors.take(n - 1)[i].hash == anchors[n - 1].hash);
                assert(has_hash(anchors.take(n - 1), anchors[n - 1].hash));
            }
        }
    }
}

/// What is put behind a name makes another name of it.
proof fn lemma_longer_name(stem: Seq<char>, end: Seq<char>)
    requires
        stem.len() > 0,
        !stem.contains('/'),
        end.len() > 2,
        !end.contains('/'),
    ensures
        is_file_name(stem + end),
{
    reveal_strlit(".");
    reveal_strlit("..");
    let all = stem + end;
    assert forall|i: int| 0 <= i < all.len() implies all[i] != '/' by {
        if i < stem.len() {
            assert(all[i] == stem[i]);
        } else {
            assert(all[i] == end[i - stem.len()]);
        }
    }
    assert(all.len() > 2);
}

/// An export goes into the directory of the document, to another file than the
/// document.
pub proof fn law_export_is_another_file(md: Seq<char>)
    requires
        file_name(md) is Some,
    ensures
        parent(export_file(md)) == parent(md),
        file_name(export_file(md)) is Some,
        file_name(export_file(md)) != file_name(md),
{
    reveal_strlit(".review.md");
    let name = file_name(md)->Some_0;
    let stem = stem_of(name);
    let end = ".review.md"@;
    let target = stem + end;
    lemma_file_name_is_one(md);
    lemma_find_last_char(name, '.');
    assert(stem.len() > 0);
    assert forall|i: int| 0 <= i < stem.len() implies stem[i] != '/' by {
        assert(stem[i] == name[i]);
    }
    assert forall|i: int| 0 <= i < end.len() implies end[i] != '/' by {}
    lemma_longer_name(stem, end);
    assert(parent(md) is Some) by {
        let p = without_void_end(md);
        lemma_find_last_char(p, '/');
        reveal_strlit("/");
        if p == "/"@ {
            assert(find_last_char(p, '/') == Some(0int)) by {
                assert(p.last() == '/');
            }
            assert(p.skip(1).len() == 0);
        }
    }
    lemma_parent_is_bare(md);
    law_joining_and_taking_apart(parent(md)->Some_0, target);
    assert(target != name) by {
        if target == name {
            let i = stem.len() as int;
            assert(name[i] == target[i] && target[i] == end[0]);
            assert(name[i + 7] == target[i + 7] && target[i + 7] == end[7]);
            match find_last_char(name, '.') {
                Some(k) => {
                    assert(k > 0) by {
                        if k == 0 {
                            assert(name.skip(1)[i - 1] == name[i]);
                            assert(name.skip(1).contains('.'));
                        }
                    }
                    assert(k == i);
                    assert(name.skip(k + 1)[6] == name[i + 7]);
                    assert(name.skip(k + 1).contains('.'));
                },
                None => {
                    assert(name.contains('.'));
                },
            }
        }
    }
}

/// Whether no two blocks have the same hash.
pub open spec fn hashes_are_distinct(blocks: Seq<ReviewBlockView>) -> bool {
    forall|i: int, j: int|
        0 <= i < j < blocks.len() ==> (#[trigger] blocks[i]).hash != (#[trigger] blocks[j]).hash
}

/// A block with a hash is found by it.
proof fn lemma_block_is_found(blocks: Seq<ReviewBlockView>, hash: Seq<char>, i: int, k: int)
    requires
        0 <= i <= k < blocks.len(),
        blocks[k].hash == hash,
    ensures
        find_block(blocks, hash, i) is Some,
    decreases k - i,
{
    if blocks[i].hash != hash {
        lemma_block_is_found(blocks, hash, i + 1, k);
    }
}

/// The same block is found by a hash, in whatever order the blocks stand.
proof fn lemma_found_in_any_order(
    a: Seq<ReviewBlockView>,
    b: Seq<ReviewBlockView>,
    hash: Seq<char>,
)
    requires
        hashes_are_distinct(a),
        a.to_multiset() == b.to_multiset(),
    ensures
        match (find_block(a, hash, 0), find_block(b, hash, 0)) {
            (Some(i), Some(j)) => 0 <= i < a.len() && 0 <= j < b.len() && a[i] == b[j],
            (None, None) => true,
            _ => false,
        },
{
    broadcast use vstd::seq_lib::group_to_multiset_ensures;

    lemma_find_block(a, hash, 0);
    lemma_find_block(b, hash, 0);
    if let Some(i) = find_block(a, hash, 0) {
        assert(a.contains(a[i]));
        assert(b.to_multiset().count(a[i]) > 0);
        assert(b.contains(a[i]));
        let k = choose|k: int| 0 <= k < b.len() && b[k] == a[i];
        lemma_block_is_found(b, hash, 0, k);
    }
    if let Some(j) = find_block(b, hash, 0) {
        assert(b.contains(b[j]));
        assert(a.to_multiset().count(b[j]) > 0);
        assert(a.contains(b[j]));
        let k = choose|k: int| 0 <= k < a.len() && a[k] == b[j];
        lemma_block_is_found(a, hash, 0, k);
        let i = find_block(a, hash, 0)->Some_0;
        if i < k {
            assert(a[i].hash != a[k].hash);
        } else if k < i {
            assert(a[k].hash != a[i].hash);
        }
    }
}

/// Sections show the same, in whatever order the blocks stand.
proof fn lemma_sections_in_any_order(
    a: Seq<ReviewBlockView>,
    b: Seq<ReviewBlockView>,
    anchors: Seq<AnchorView>,
    n: int,
)
    requires
        hashes_are_distinct(a),
        a.to_multiset() == b.to_multiset(),
    ensures
        ({
            let x = sections(a, anchors, n);
            let y = sections(b, anchors, n);
            &&& x.len() == y.len()
            &&& comments_at(a, section_blocks(x)) == comments_at(b, section_blocks(y))
            &&& sections_text(anchors, a, x) == sections_text(anchors, b, y)
        }),
    decreases n,
{
    if n > 0 {
        lemma_sections_in_any_order(a, b, anchors, n - 1);
        let hash = anchors[n - 1].hash;
        lemma_found_in_any_order(a, b, hash);
        let x0 = sections(a, anchors, n - 1);
        let y0 = sections(b, anchors, n - 1);
        let x = sections(a, anchors, n);
        let y = sections(b, anchors, n);
        if commented_block(a, hash) is Some && !has_hash(anchors.take(n - 1), hash) {
            let i = commented_block(a, hash)->Some_0;
            let j = commented_block(b, hash)->Some_0;
            assert(x == x0.push((n - 1, i)));
            assert(y == y0.push((n - 1, j)));
            assert(x.drop_last() =~= x0);
            assert(y.drop_last() =~= y0);
            assert(section_blocks(x) =~= section_blocks(x0).push(i));
            assert(section_blocks(y) =~= section_blocks(y0).push(j));
            assert(section_blocks(x).drop_last() =~= section_blocks(x0));
            assert(section_blocks(y).drop_last() =~= section_blocks(y0));
        } else {
            assert(x == x0 && y == y0);
        }
    } else {
        assert(section_blocks(sections(a, anchors, n)) =~= seq![]);
        assert(section_blocks(sections(b, anchors, n)) =~= seq![]);
    }
}

/// Where every block has an anchor none is lost.
proof fn lemma_none_is_lost(blocks: Seq<ReviewBlockView>, anchors: Seq<AnchorView>)
    requires
        forall|i: int| 0 <= i < blocks.len() ==> has_hash(anchors, (#[trigger] blocks[i]).hash),
    ensures
        unanchored_hashes(blocks, anchors) == Seq::<Seq<char>>::empty(),
    decreases blocks.len(),
{
    if blocks.len() > 0 {
        let shorter = blocks.drop_last();
        assert forall|i: int| 0 <= i < shorter.len() implies has_hash(
            anchors,
            (#[trigger] shorter[i]).hash,
        ) by {
            assert(shorter[i] == blocks[i]);
        }
        lemma_none_is_lost(shorter, anchors);
        assert(has_hash(anchors, blocks[blocks.len() - 1].hash));
    }
}

/// The sections of an export come in the order of the document, never in that of
/// the sidecar: an export does not depend on the order in which the sidecar holds
/// the blocks, where their hashes are distinct and all in the document.
pub proof fn law_export_is_in_document_order(
    md_name: Seq<char>,
    anchors: Seq<AnchorView>,
    doc: ReviewView,
    other: ReviewView,
    now: Seq<char>,
)
    requires
        hashes_are_distinct(doc.blocks),
        forall|i: int|
            0 <= i < doc.blocks.len() ==> has_hash(anchors, (#[trigger] doc.blocks[i]).hash),
        doc.blocks.to_multiset() == other.blocks.to_multiset(),
        doc.file_comments == other.file_comments,
    ensures
        export_text(md_name, anchors, other, now) == export_text(md_name, anchors, doc, now),
{
    broadcast use vstd::seq_lib::group_to_multiset_ensures;

    let a = doc.blocks;
    let b = other.blocks;
    lemma_sections_in_any_order(a, b, anchors, anchors.len() as int);
    assert forall|i: int| 0 <= i < b.len() implies has_hash(anchors, (#[trigger] b[i]).hash) by {
        assert(b.contains(b[i]));
        assert(a.to_multiset().count(b[i]) > 0);
        assert(a.contains(b[i]));
        let k = choose|k: int| 0 <= k < a.len() && a[k] == b[i];
        assert(has_hash(anchors, a[k].hash));
    }
    lemma_none_is_lost(a, anchors);
    lemma_none_is_lost(b, anchors);
}

} // verus!
