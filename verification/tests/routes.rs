use std::cell::RefCell;
use std::collections::BTreeMap;
use std::sync::atomic::{AtomicU64, Ordering};

use markdown_remarkable::render::{anchors, blocks, AnchorKind};
use markdown_remarkable::review::{AnchorKindDto, Comment, ReviewBlock, ReviewDoc, SidecarRead};
use markdown_remarkable::routes::{
    asset_parent_dir, handle, handle_viewing, resume, tree_relative_path, Action, Answer, FileInfo,
    NavDirection, Need, Reply, RouteRequest, Step, Viewing, ASSET_MAX_BYTES,
};
use markdown_remarkable::tree::{
    DirItem, ItemKind, TreeEntry, TreeScan, TreeStep, TREE_MAX_ENTRIES, TREE_MAX_VISITED_ENTRIES,
};
use markdown_remarkable::window_state::Platform;
use serde_json::Value;

/// A path in a [`World`].
#[derive(Debug, Clone, PartialEq)]
struct Place(String);

impl Place {
    fn join(&self, name: impl AsRef<str>) -> Place {
        Place(format!("{}/{}", self.0, name.as_ref()))
    }

    fn as_str(&self) -> &str {
        &self.0
    }

    fn file_name(&self) -> String {
        self.0.rsplit('/').next().unwrap().to_string()
    }
}

impl AsRef<str> for Place {
    fn as_ref(&self) -> &str {
        &self.0
    }
}

struct TempDir(Place);

impl TempDir {
    fn path(&self) -> &Place {
        &self.0
    }
}

#[derive(Debug, Clone)]
enum Node {
    File(Vec<u8>),
    Dir,
    Link(String),
    /// A file whose name is no text.
    Nameless,
}

/// A file system in memory, by whose answers requests are run.
struct World {
    nodes: RefCell<BTreeMap<String, Node>>,
    reviews: RefCell<BTreeMap<String, ReviewDoc>>,
    count: RefCell<usize>,
}

impl World {
    fn new() -> World {
        let mut nodes = BTreeMap::new();
        nodes.insert("/".to_string(), Node::Dir);
        World {
            nodes: RefCell::new(nodes),
            reviews: RefCell::new(BTreeMap::new()),
            count: RefCell::new(0),
        }
    }

    fn tempdir(&self) -> TempDir {
        *self.count.borrow_mut() += 1;
        let place = Place(format!("/tmp{}", self.count.borrow()));
        self.create_dir(&place);
        TempDir(place)
    }

    fn put(&self, path: &str, node: Node) {
        self.nodes.borrow_mut().insert(path.to_string(), node);
    }

    fn write(&self, path: impl AsRef<str>, data: impl AsRef<[u8]>) {
        self.put(path.as_ref(), Node::File(data.as_ref().to_vec()));
    }

    fn write_nameless(&self, dir: &Place) {
        self.put(dir.join("?").as_str(), Node::Nameless);
    }

    fn create_dir(&self, path: impl AsRef<str>) {
        let mut at = String::new();
        for part in path.as_ref().split('/').skip(1) {
            at.push('/');
            at.push_str(part);
            self.put(&at, Node::Dir);
        }
    }

    fn remove(&self, path: impl AsRef<str>) {
        self.nodes.borrow_mut().remove(path.as_ref());
    }

    fn symlink(&self, target: impl AsRef<str>, link: impl AsRef<str>) {
        self.put(link.as_ref(), Node::Link(target.as_ref().to_string()));
    }

    fn node(&self, path: &str) -> Option<Node> {
        self.nodes.borrow().get(path).cloned()
    }

    fn holds(&self, path: impl AsRef<str>) -> bool {
        self.node(path.as_ref()).is_some()
    }

    fn resolve(&self, path: &str) -> Option<String> {
        let mut at = String::new();
        for part in path.split('/').filter(|p| !p.is_empty() && *p != ".") {
            at = format!("{at}/{part}");
            match self.node(&at)? {
                Node::Link(target) => at = self.resolve(&target)?,
                _ => {}
            }
        }
        Some(at)
    }

    fn canonical(&self, place: &Place) -> Place {
        Place(self.resolve(place.as_str()).expect("an existing path"))
    }

    fn bytes(&self, path: &str) -> Option<Vec<u8>> {
        match self.node(&self.resolve(path)?)? {
            Node::File(data) => Some(data),
            _ => None,
        }
    }

    fn list(&self, path: &str) -> Option<Vec<DirItem>> {
        let dir = self.resolve(path)?;
        let prefix = format!("{dir}/");
        let nodes = self.nodes.borrow();
        let items = nodes.iter().filter_map(|(place, node)| {
            let name = place.strip_prefix(&prefix)?;
            if name.contains('/') {
                return None;
            }
            let (name, kind) = match node {
                Node::File(_) => (Some(name.to_string()), ItemKind::File),
                Node::Dir => (Some(name.to_string()), ItemKind::Dir),
                Node::Link(_) => (Some(name.to_string()), ItemKind::Symlink),
                Node::Nameless => (None, ItemKind::File),
            };
            Some(DirItem { name, kind })
        });
        Some(items.collect())
    }

    fn answer(&self, need: Need) -> Answer {
        match need {
            Need::ReadText(path) => {
                Answer::Text(self.bytes(&path).and_then(|b| String::from_utf8(b).ok()))
            }
            Need::ReadBytes(path) => Answer::Bytes(self.bytes(&path)),
            Need::ReadSidecar(path) => {
                Answer::Sidecar(match self.reviews.borrow().get(&path) {
                    Some(doc) => SidecarRead::Read(doc.clone()),
                    None => SidecarRead::Missing,
                })
            }
            Need::ReadDir(path, limit) => Answer::Listing(self.list(&path).map(|mut items| {
                items.truncate(limit);
                items
            })),
            Need::ParseReview(body) => Answer::Review(review_doc(&body)),
            Need::ParseOpen(body) => Answer::Text(member(&body, "path")),
            Need::ParseNav(body) => Answer::Text(member(&body, "dir")),
            Need::SaveReview(path, doc) => {
                self.reviews.borrow_mut().insert(path, doc);
                Answer::Flag(true)
            }
            Need::WriteText(path, text) => {
                self.write(&path, &text);
                Answer::Flag(true)
            }
            Need::IsSymlink(path) => {
                Answer::Flag(matches!(self.node(&path), Some(Node::Link(_))))
            }
            Need::Canonicalize(path) => Answer::Text(self.resolve(&path)),
            Need::Metadata(path) => {
                let node = self.resolve(&path).and_then(|p| self.node(&p));
                Answer::Metadata(node.map(|node| match node {
                    Node::File(data) => FileInfo {
                        is_file: true,
                        len: data.len() as u64,
                    },
                    _ => FileInfo {
                        is_file: false,
                        len: 0,
                    },
                }))
            }
        }
    }
}

fn member(body: &[u8], name: &str) -> Option<String> {
    let value: Value = serde_json::from_slice(body).ok()?;
    text_member(&value, name)
}

fn text_member(value: &Value, name: &str) -> Option<String> {
    value.get(name)?.as_str().map(str::to_string)
}

fn comments_member(value: &Value, name: &str) -> Option<Vec<Comment>> {
    value
        .get(name)?
        .as_array()?
        .iter()
        .map(|c| {
            Some(Comment {
                id: text_member(c, "id")?,
                text: text_member(c, "text")?,
                created: text_member(c, "created")?,
                updated: text_member(c, "updated")?,
            })
        })
        .collect()
}

fn review_doc(body: &[u8]) -> Option<ReviewDoc> {
    let value: Value = serde_json::from_slice(body).ok()?;
    let blocks: Option<Vec<ReviewBlock>> = value
        .get("blocks")?
        .as_array()?
        .iter()
        .map(|b| {
            Some(ReviewBlock {
                hash: text_member(b, "hash")?,
                excerpt: text_member(b, "excerpt")?,
                kind: match b.get("kind").and_then(Value::as_str) {
                    Some("item") => AnchorKindDto::Item,
                    Some("row") => AnchorKindDto::Row,
                    _ => AnchorKindDto::Block,
                },
                comments: comments_member(b, "comments")?,
            })
        })
        .collect();
    Some(ReviewDoc {
        version: value.get("version")?.as_u64()? as u32,
        file: text_member(&value, "file")?,
        blocks: blocks?,
        file_comments: comments_member(&value, "file_comments").unwrap_or_default(),
    })
}

#[allow(clippy::too_many_arguments)]
fn run(
    world: &World,
    req: &RouteRequest,
    file: Option<&Place>,
    version: &AtomicU64,
    allow_remote_images: bool,
    allow_open: bool,
    root_dir: Option<&Place>,
    nav: Option<(bool, bool)>,
) -> (Reply, Action) {
    let mut step = handle(
        req,
        file.map(Place::as_str),
        version.load(Ordering::SeqCst),
        allow_remote_images,
        allow_open,
        root_dir.map(Place::as_str),
        nav,
    );
    loop {
        match step {
            Step::Done(reply, action) => return (reply, action),
            Step::Need(need, pending) => step = resume(pending, world.answer(need)),
        }
    }
}

fn handle_reply(
    world: &World,
    req: &RouteRequest,
    file: Option<&Place>,
    version: &AtomicU64,
    allow_remote_images: bool,
) -> Reply {
    run(world, req, file, version, allow_remote_images, false, None, None).0
}

fn collect_tree_entries(
    world: &World,
    dir: &Place,
    entries: usize,
    visits: usize,
) -> (Vec<TreeEntry>, bool) {
    let mut scan = TreeScan::start(dir.as_str(), entries, visits);
    loop {
        let mut items = world.list(&scan.dir());
        let limit = scan.limit();
        if let Some(items) = items.as_mut() {
            items.truncate(limit);
        }
        match scan.read(items) {
            TreeStep::Done(lines, truncated) => return (lines, truncated),
            TreeStep::Read(next) => scan = next,
        }
    }
}

fn header<'a>(reply: &'a Reply, name: &str) -> Option<&'a str> {
    reply
        .headers
        .iter()
        .find(|(header_name, _)| header_name.eq_ignore_ascii_case(name))
        .map(|(_, value)| value.as_str())
}

fn get(path: &str) -> RouteRequest<'_> {
    RouteRequest {
        method: "GET",
        path,
        headers: &[],
        body: &[],
    }
}

const REQUEST_HEADER_PAIR: [(String, String); 0] = [];

fn put_review<'a>(body: &'a [u8], headers: &'a [(String, String)]) -> RouteRequest<'a> {
    RouteRequest {
        method: "PUT",
        path: "/review",
        headers,
        body,
    }
}

fn post_export(headers: &[(String, String)]) -> RouteRequest<'_> {
    RouteRequest {
        method: "POST",
        path: "/export",
        headers,
        body: &[],
    }
}

fn put_open<'a>(body: &'a [u8], headers: &'a [(String, String)]) -> RouteRequest<'a> {
    RouteRequest {
        method: "PUT",
        path: "/open",
        headers,
        body,
    }
}

fn with_request_header() -> Vec<(String, String)> {
    vec![("X-Mdview-Request".to_string(), "1".to_string())]
}

#[test]
fn root_renders_the_file_and_carries_common_headers() {
    let world = World::new();
    let dir = world.tempdir();
    let file_path = dir.path().join("doc.md");
    world.write(&file_path, "# Hello\n");
    let version = AtomicU64::new(3);

    let reply = handle_reply(&world, &get("/"), Some(&file_path), &version, false);

    assert_eq!(reply.status, 200);
    assert_eq!(reply.content_type, "text/html; charset=utf-8");
    assert_eq!(header(&reply, "Cache-Control"), Some("no-store"));
    assert_eq!(header(&reply, "X-Content-Type-Options"), Some("nosniff"));
    assert_eq!(
        header(&reply, "Content-Security-Policy"),
        Some("frame-ancestors 'none'")
    );
    let body = String::from_utf8(reply.body).expect("utf8 body");
    assert!(body.contains("<h1>Hello</h1>"));
    assert!(body.contains("__mdviewVersion=\"3\""));
}

#[test]
fn root_stamps_browser_mode_when_allow_open_is_false() {
    let world = World::new();
    let dir = world.tempdir();
    let file_path = dir.path().join("doc.md");
    world.write(&file_path, "# Hi\n");
    let version = AtomicU64::new(0);

    let (reply, _action) = run(&world,
        &get("/"),
        Some(&file_path),
        &version,
        false,
        false,
        None,
        None,
    );

    let body = String::from_utf8(reply.body).expect("utf8 body");
    assert!(body.contains(r#"<body data-mode="browser">"#));
}

#[test]
fn root_stamps_native_mode_when_allow_open_is_true() {
    let world = World::new();
    let dir = world.tempdir();
    let file_path = dir.path().join("doc.md");
    world.write(&file_path, "# Hi\n");
    let version = AtomicU64::new(0);

    let (reply, _action) = run(&world,
        &get("/"),
        Some(&file_path),
        &version,
        false,
        true,
        None,
        None,
    );

    let body = String::from_utf8(reply.body).expect("utf8 body");
    assert!(body.contains(r#"<body data-mode="native">"#));
}

#[test]
fn head_root_behaves_like_get() {
    let world = World::new();
    let version = AtomicU64::new(0);
    let reply = handle_reply(&world,
        &RouteRequest {
            method: "HEAD",
            path: "/",
            headers: &[],
            body: &[],
        },
        None,
        &version,
        false,
    );
    assert_eq!(reply.status, 200);
}

#[test]
fn version_returns_the_counter_as_plain_text() {
    let world = World::new();
    let version = AtomicU64::new(42);
    let reply = handle_reply(&world, &get("/version"), None, &version, false);

    assert_eq!(reply.status, 200);
    assert_eq!(reply.content_type, "text/plain; charset=utf-8");
    assert_eq!(header(&reply, "Cache-Control"), Some("no-store"));
    assert_eq!(String::from_utf8(reply.body).unwrap(), "42");
}

#[test]
fn body_route_returns_fragment_and_title_header() {
    let world = World::new();
    let dir = world.tempdir();
    let file_path = dir.path().join("notes.md");
    world.write(&file_path, "# Hi\n");
    let version = AtomicU64::new(0);

    let reply = handle_reply(&world, &get("/body"), Some(&file_path), &version, false);

    assert_eq!(reply.status, 200);
    assert_eq!(reply.content_type, "text/html; charset=utf-8");
    assert_eq!(header(&reply, "X-Mdview-Title"), Some("notes.md"));
    let body = String::from_utf8(reply.body).unwrap();
    assert!(body.contains("<h1>Hi</h1>"));
    assert!(body.contains("class=\"blk\""));
    assert!(!body.contains("<main"));
}

#[test]
fn no_file_selected_renders_empty_page_on_root_and_body() {
    let world = World::new();
    let version = AtomicU64::new(0);

    let root = handle_reply(&world, &get("/"), None, &version, false);
    assert_eq!(root.status, 200);
    assert!(String::from_utf8(root.body)
        .unwrap()
        .contains("Drop a Markdown file here"));

    let body = handle_reply(&world, &get("/body"), None, &version, false);
    assert_eq!(body.status, 200);
    assert_eq!(header(&body, "X-Mdview-Title"), None);
    assert!(String::from_utf8(body.body)
        .unwrap()
        .contains("Drop a Markdown file here"));
}

#[test]
fn unreadable_file_returns_500_page_with_live_script_and_no_path() {
    let world = World::new();
    let dir = world.tempdir();
    let missing_path = dir.path().join("gone.md");
    let version = AtomicU64::new(7);

    let root = handle_reply(&world, &get("/"), Some(&missing_path), &version, false);
    assert_eq!(root.status, 500);
    assert_eq!(root.content_type, "text/html; charset=utf-8");
    let body = String::from_utf8(root.body).unwrap();
    assert!(body.contains("Failed to read gone.md"));
    assert!(!body.contains(missing_path.as_str()));
    assert!(body.contains("/version"));
    assert!(body.contains("__mdviewVersion=\"7\""));
}

#[test]
fn unreadable_file_body_route_is_200_error_fragment() {
    let world = World::new();
    let dir = world.tempdir();
    let missing_path = dir.path().join("gone.md");
    let version = AtomicU64::new(0);

    let reply = handle_reply(&world, &get("/body"), Some(&missing_path), &version, false);
    assert_eq!(reply.status, 200);
    assert_eq!(header(&reply, "X-Mdview-Title"), Some("gone.md"));
    let body = String::from_utf8(reply.body).unwrap();
    assert!(body.contains("Failed to read gone.md"));
    assert!(!body.contains(missing_path.as_str()));
}

#[test]
fn non_ascii_title_is_percent_encoded_in_header() {
    let world = World::new();
    let dir = world.tempdir();
    let file_path = dir.path().join("メモ.md");
    world.write(&file_path, "# Hi\n");
    let version = AtomicU64::new(0);

    let reply = handle_reply(&world, &get("/body"), Some(&file_path), &version, false);
    assert_eq!(reply.status, 200);
    let title = header(&reply, "X-Mdview-Title").expect("title header present");
    assert!(title.is_ascii(), "header must be ASCII-safe: {title}");
    assert!(title.starts_with("%E3%83%A1%E3%83%A2"), "{title}");
    assert!(title.ends_with(".md"), "{title}");

    world.remove(&file_path);
    let failed = handle_reply(&world, &get("/body"), Some(&file_path), &version, false);
    let body = String::from_utf8(failed.body).unwrap();
    assert!(body.contains("メモ.md"), "{body}");
}

#[test]
fn angle_brackets_in_title_are_html_escaped_in_error_body() {
    let world = World::new();
    let dir = world.tempdir();
    let file_path = dir.path().join("メモ<1>.md");
    world.write(&file_path, "# Hi\n");
    let version = AtomicU64::new(0);

    let reply = handle_reply(&world, &get("/body"), Some(&file_path), &version, false);
    let title = header(&reply, "X-Mdview-Title").expect("title header present");
    assert!(title.ends_with("<1>.md"), "{title}");

    world.remove(&file_path);
    let failed = handle_reply(&world, &get("/body"), Some(&file_path), &version, false);
    let body = String::from_utf8(failed.body).unwrap();
    assert!(body.contains("メモ&lt;1&gt;.md"), "{body}");
}

#[test]
fn every_route_carries_common_security_headers() {
    let world = World::new();
    let version = AtomicU64::new(0);
    for route in ["/", "/version", "/body", "/nope"] {
        let reply = handle_reply(&world, &get(route), None, &version, false);
        assert_eq!(header(&reply, "Cache-Control"), Some("no-store"), "{route}");
        assert_eq!(
            header(&reply, "X-Content-Type-Options"),
            Some("nosniff"),
            "{route}"
        );
        assert_eq!(
            header(&reply, "Content-Security-Policy"),
            Some("frame-ancestors 'none'"),
            "{route}"
        );
    }
}

#[test]
fn query_string_is_ignored_for_routing() {
    let world = World::new();
    let dir = world.tempdir();
    let file_path = dir.path().join("doc.md");
    world.write(&file_path, "# Hi\n");
    let version = AtomicU64::new(0);

    let reply = handle_reply(&world, &get("/?x=1"), Some(&file_path), &version, false);
    assert_eq!(reply.status, 200);

    let version_reply = handle_reply(&world, &get("/version?t=1"), Some(&file_path), &version, false);
    assert_eq!(version_reply.status, 200);
}

#[test]
fn unknown_path_is_404() {
    let world = World::new();
    let version = AtomicU64::new(0);
    let reply = handle_reply(&world, &get("/nope"), None, &version, false);
    assert_eq!(reply.status, 404);
}

#[test]
fn get_review_without_a_sidecar_returns_an_empty_document() {
    let world = World::new();
    let dir = world.tempdir();
    let file_path = dir.path().join("notes.md");
    world.write(&file_path, "# Hi\n");
    let version = AtomicU64::new(0);

    let reply = handle_reply(&world, &get("/review"), Some(&file_path), &version, false);
    assert_eq!(reply.status, 200);
    assert_eq!(reply.content_type, "application/json; charset=utf-8");
    let value: serde_json::Value = serde_json::from_slice(&reply.body).unwrap();
    assert_eq!(value["version"], 1);
    assert_eq!(value["file"], "notes.md");
    assert_eq!(value["blocks"], serde_json::Value::Array(Vec::new()));
    assert_eq!(value["file_comments"], serde_json::Value::Array(Vec::new()));
    assert_eq!(value["unanchored"], serde_json::Value::Array(Vec::new()));
}

#[test]
fn get_review_recognizes_a_commented_list_item_as_anchored() {
    let world = World::new();
    let dir = world.tempdir();
    let file_path = dir.path().join("notes.md");
    let markdown = "- one\n- two\n";
    world.write(&file_path, markdown);
    let version = AtomicU64::new(0);

    let item_hash = anchors(markdown)
        .into_iter()
        .find(|a| a.kind == AnchorKind::Item)
        .expect("an item anchor exists")
        .hash;

    let headers = with_request_header();
    let body = format!(
        r##"{{
        "version": 1,
        "file": "notes.md",
        "blocks": [{{
            "hash": "{item_hash}",
            "excerpt": "one",
            "kind": "item",
            "comments": [{{
                "id": "c_0123456789abcdef",
                "text": "looks good",
                "created": "2026-08-22T07:00:00Z",
                "updated": "2026-08-22T07:00:00Z"
            }}]
        }}]}}"##
    )
    .into_bytes();
    let put_reply = handle_reply(&world,
        &put_review(&body, &headers),
        Some(&file_path),
        &version,
        false,
    );
    assert_eq!(put_reply.status, 200);

    let get_reply = handle_reply(&world, &get("/review"), Some(&file_path), &version, false);
    let value: serde_json::Value = serde_json::from_slice(&get_reply.body).unwrap();
    assert_eq!(value["unanchored"], serde_json::Value::Array(Vec::new()));
    assert_eq!(value["blocks"][0]["kind"], "item");
}

#[test]
fn get_review_with_no_file_open_is_409() {
    let world = World::new();
    let version = AtomicU64::new(0);
    let reply = handle_reply(&world, &get("/review"), None, &version, false);
    assert_eq!(reply.status, 409);
    let value: serde_json::Value = serde_json::from_slice(&reply.body).unwrap();
    assert_eq!(value["error"], "no file open");
}

#[test]
fn get_review_when_document_is_unreadable_is_500() {
    let world = World::new();
    let dir = world.tempdir();
    let missing_path = dir.path().join("gone.md");
    let version = AtomicU64::new(0);

    let reply = handle_reply(&world, &get("/review"), Some(&missing_path), &version, false);
    assert_eq!(reply.status, 500);
    let value: serde_json::Value = serde_json::from_slice(&reply.body).unwrap();
    assert_eq!(value["error"], "failed to read document");
    assert!(!String::from_utf8_lossy(&reply.body).contains(missing_path.as_str()));
}

#[test]
fn put_review_without_the_request_header_is_403() {
    let world = World::new();
    let dir = world.tempdir();
    let file_path = dir.path().join("notes.md");
    world.write(&file_path, "# Hi\n");
    let version = AtomicU64::new(0);

    let body = br#"{"version":1,"file":"notes.md","blocks":[]}"#;
    let reply = handle_reply(&world,
        &put_review(body, &REQUEST_HEADER_PAIR),
        Some(&file_path),
        &version,
        false,
    );
    assert_eq!(reply.status, 403);
}

#[test]
fn put_review_with_invalid_json_is_400() {
    let world = World::new();
    let dir = world.tempdir();
    let file_path = dir.path().join("notes.md");
    world.write(&file_path, "# Hi\n");
    let version = AtomicU64::new(0);
    let headers = with_request_header();

    let reply = handle_reply(&world,
        &put_review(b"not json", &headers),
        Some(&file_path),
        &version,
        false,
    );
    assert_eq!(reply.status, 400);
    let value: serde_json::Value = serde_json::from_slice(&reply.body).unwrap();
    assert!(value["error"].is_string());
    assert!(!String::from_utf8_lossy(&reply.body).contains(file_path.as_str()));
}

#[test]
fn put_review_with_no_file_open_is_409() {
    let world = World::new();
    let version = AtomicU64::new(0);
    let headers = with_request_header();
    let body = br#"{"version":1,"file":"notes.md","blocks":[]}"#;
    let reply = handle_reply(&world, &put_review(body, &headers), None, &version, false);
    assert_eq!(reply.status, 409);
}

#[test]
fn put_review_with_mismatched_file_name_is_400() {
    let world = World::new();
    let dir = world.tempdir();
    let file_path = dir.path().join("notes.md");
    world.write(&file_path, "# Hi\n");
    let version = AtomicU64::new(0);
    let headers = with_request_header();

    let body = br#"{"version":1,"file":"other.md","blocks":[]}"#;
    let reply = handle_reply(&world,
        &put_review(body, &headers),
        Some(&file_path),
        &version,
        false,
    );
    assert_eq!(reply.status, 400);
    let value: serde_json::Value = serde_json::from_slice(&reply.body).unwrap();
    assert_eq!(value["error"], "document file name mismatch");
}

#[test]
fn put_review_with_empty_file_name_is_400() {
    let world = World::new();
    let dir = world.tempdir();
    let file_path = dir.path().join("notes.md");
    world.write(&file_path, "# Hi\n");
    let version = AtomicU64::new(0);
    let headers = with_request_header();

    let body = br#"{"version":1,"file":"","blocks":[]}"#;
    let reply = handle_reply(&world,
        &put_review(body, &headers),
        Some(&file_path),
        &version,
        false,
    );
    assert_eq!(reply.status, 400);
    let value: serde_json::Value = serde_json::from_slice(&reply.body).unwrap();
    assert_eq!(value["error"], "document file name mismatch");
}

#[test]
fn put_review_with_matching_file_name_succeeds() {
    let world = World::new();
    let dir = world.tempdir();
    let file_path = dir.path().join("notes.md");
    world.write(&file_path, "# Hi\n");
    let version = AtomicU64::new(0);
    let headers = with_request_header();

    let body = br#"{"version":1,"file":"notes.md","blocks":[]}"#;
    let reply = handle_reply(&world,
        &put_review(body, &headers),
        Some(&file_path),
        &version,
        false,
    );
    assert_eq!(reply.status, 200);
}

#[test]
fn put_review_then_get_review_round_trips() {
    let world = World::new();
    let dir = world.tempdir();
    let file_path = dir.path().join("notes.md");
    world.write(&file_path, "# Hi\n");
    let blocks = blocks("# Hi\n");
    let hash = &blocks[0].hash;
    let version = AtomicU64::new(0);
    let headers = with_request_header();

    let body = format!(
        r##"{{
        "version": 1,
        "file": "notes.md",
        "blocks": [{{
            "hash": "{hash}",
            "excerpt": "# Hi",
            "comments": [{{
                "id": "c_0123456789abcdef",
                "text": "looks good",
                "created": "2026-08-22T07:00:00Z",
                "updated": "2026-08-22T07:00:00Z"
            }}]
        }}]}}"##
    )
    .into_bytes();

    let put_reply = handle_reply(&world,
        &put_review(&body, &headers),
        Some(&file_path),
        &version,
        false,
    );
    assert_eq!(put_reply.status, 200);
    let put_value: serde_json::Value = serde_json::from_slice(&put_reply.body).unwrap();
    assert_eq!(put_value["ok"], true);

    let get_reply = handle_reply(&world, &get("/review"), Some(&file_path), &version, false);
    assert_eq!(get_reply.status, 200);
    let get_value: serde_json::Value = serde_json::from_slice(&get_reply.body).unwrap();
    assert_eq!(get_value["blocks"][0]["hash"], hash.as_str());
    assert_eq!(get_value["blocks"][0]["comments"][0]["text"], "looks good");
    assert_eq!(get_value["unanchored"], serde_json::Value::Array(Vec::new()));
}

#[test]
fn put_review_then_get_review_round_trips_file_comments() {
    let world = World::new();
    let dir = world.tempdir();
    let file_path = dir.path().join("notes.md");
    world.write(&file_path, "# Hi\n");
    let version = AtomicU64::new(0);
    let headers = with_request_header();

    let body = format!(
        r##"{{
        "version": 1,
        "file": "notes.md",
        "blocks": [],
        "file_comments": [{{
            "id": "c_0123456789abcdef",
            "text": "全体として章立てが前後している",
            "created": "2026-08-22T07:00:00Z",
            "updated": "2026-08-22T07:00:00Z"
        }}]}}"##
    )
    .into_bytes();

    let put_reply = handle_reply(&world,
        &put_review(&body, &headers),
        Some(&file_path),
        &version,
        false,
    );
    assert_eq!(put_reply.status, 200);

    let get_reply = handle_reply(&world, &get("/review"), Some(&file_path), &version, false);
    assert_eq!(get_reply.status, 200);
    let get_value: serde_json::Value = serde_json::from_slice(&get_reply.body).unwrap();
    assert_eq!(
        get_value["file_comments"][0]["text"],
        "全体として章立てが前後している"
    );
    assert_eq!(get_value["file_comments"][0]["id"], "c_0123456789abcdef");
}

#[test]
fn export_without_the_request_header_is_403() {
    let world = World::new();
    let dir = world.tempdir();
    let file_path = dir.path().join("notes.md");
    world.write(&file_path, "# Hi\n");
    let version = AtomicU64::new(0);

    let reply = handle_reply(&world,
        &post_export(&REQUEST_HEADER_PAIR),
        Some(&file_path),
        &version,
        false,
    );
    assert_eq!(reply.status, 403);
}

#[test]
fn export_with_no_file_open_is_409() {
    let world = World::new();
    let version = AtomicU64::new(0);
    let headers = with_request_header();
    let reply = handle_reply(&world, &post_export(&headers), None, &version, false);
    assert_eq!(reply.status, 409);
}

#[test]
fn export_writes_the_file_and_returns_json() {
    let world = World::new();
    let dir = world.tempdir();
    let file_path = dir.path().join("notes.md");
    world.write(&file_path, "# Hi\n");
    let version = AtomicU64::new(0);
    let headers = with_request_header();

    let reply = handle_reply(&world, &post_export(&headers), Some(&file_path), &version, false);
    assert_eq!(reply.status, 200);
    let value: serde_json::Value = serde_json::from_slice(&reply.body).unwrap();
    assert_eq!(value["path"], "notes.review.md");
    assert!(value["markdown"]
        .as_str()
        .unwrap()
        .starts_with("# Review: notes.md"));
    assert!(world.holds(dir.path().join("notes.review.md")));
}

#[test]
fn asset_parent_dir_falls_back_to_current_dir_for_a_bare_relative_file_name() {
    assert_eq!(asset_parent_dir("doc.md"), ".");
}

#[test]
fn asset_parent_dir_uses_the_real_parent_when_there_is_one() {
    assert_eq!(
        asset_parent_dir("/tmp/x/doc.md"),
        "/tmp/x"
    );
    assert_eq!(
        asset_parent_dir("subdir/doc.md"),
        "subdir"
    );
}

#[test]
fn asset_serves_a_local_image_next_to_the_document() {
    let world = World::new();
    let dir = world.tempdir();
    let file_path = dir.path().join("doc.md");
    world.write(&file_path, "# Hi\n");
    world.write(dir.path().join("img.png"), b"not-really-a-png");
    let version = AtomicU64::new(0);

    let reply = handle_reply(&world, &get("/asset?p=img.png"), Some(&file_path), &version, false);

    assert_eq!(reply.status, 200);
    assert_eq!(reply.content_type, "image/png");
    assert_eq!(reply.body, b"not-really-a-png");
    assert_eq!(
        header(&reply, "Content-Security-Policy"),
        Some("default-src 'none'; sandbox")
    );
    assert_eq!(header(&reply, "Cache-Control"), Some("no-store"));
    assert_eq!(header(&reply, "X-Content-Type-Options"), Some("nosniff"));
    assert_eq!(
        reply
            .headers
            .iter()
            .filter(|(name, _)| name.eq_ignore_ascii_case("Content-Security-Policy"))
            .count(),
        1
    );
}

#[test]
fn asset_serves_an_image_in_a_subdirectory() {
    let world = World::new();
    let dir = world.tempdir();
    let file_path = dir.path().join("doc.md");
    world.write(&file_path, "# Hi\n");
    world.create_dir(dir.path().join("imgs"));
    world.write(dir.path().join("imgs").join("a.png"), b"sub-image");
    let version = AtomicU64::new(0);

    let reply = handle_reply(&world,
        &get("/asset?p=imgs/a.png"),
        Some(&file_path),
        &version,
        false,
    );

    assert_eq!(reply.status, 200);
    assert_eq!(reply.content_type, "image/png");
    assert_eq!(reply.body, b"sub-image");
}

#[test]
fn asset_rejects_a_parent_directory_escape() {
    let world = World::new();
    let dir = world.tempdir();
    let file_path = dir.path().join("doc.md");
    world.write(&file_path, "# Hi\n");
    let version = AtomicU64::new(0);

    let reply = handle_reply(&world,
        &get("/asset?p=../secret.txt"),
        Some(&file_path),
        &version,
        false,
    );
    assert_eq!(reply.status, 400);
}

#[test]
fn asset_rejects_an_absolute_path() {
    let world = World::new();
    let dir = world.tempdir();
    let file_path = dir.path().join("doc.md");
    world.write(&file_path, "# Hi\n");
    let version = AtomicU64::new(0);

    let reply = handle_reply(&world,
        &get("/asset?p=/etc/hosts"),
        Some(&file_path),
        &version,
        false,
    );
    assert_eq!(reply.status, 400);
}

#[test]
fn asset_rejects_a_percent_encoded_parent_directory_escape() {
    let world = World::new();
    let dir = world.tempdir();
    let file_path = dir.path().join("doc.md");
    world.write(&file_path, "# Hi\n");
    let version = AtomicU64::new(0);

    let reply = handle_reply(&world,
        &get("/asset?p=%2e%2e%2fsecret"),
        Some(&file_path),
        &version,
        false,
    );
    assert_eq!(reply.status, 400);
}

#[test]
fn asset_rejects_a_disallowed_extension() {
    let world = World::new();
    let dir = world.tempdir();
    let file_path = dir.path().join("doc.md");
    world.write(&file_path, "# Hi\n");
    world.write(dir.path().join("note.txt"), b"hello");
    let version = AtomicU64::new(0);

    let reply = handle_reply(&world, &get("/asset?p=note.txt"), Some(&file_path), &version, false);
    assert_eq!(reply.status, 404);
}

#[test]
fn asset_for_a_nonexistent_file_is_404() {
    let world = World::new();
    let dir = world.tempdir();
    let file_path = dir.path().join("doc.md");
    world.write(&file_path, "# Hi\n");
    let version = AtomicU64::new(0);

    let reply = handle_reply(&world,
        &get("/asset?p=missing.png"),
        Some(&file_path),
        &version,
        false,
    );
    assert_eq!(reply.status, 404);
}

#[test]
fn asset_with_no_file_open_is_409() {
    let world = World::new();
    let version = AtomicU64::new(0);
    let reply = handle_reply(&world, &get("/asset?p=img.png"), None, &version, false);
    assert_eq!(reply.status, 409);
}

#[test]
fn asset_rejects_a_symlink_that_escapes_the_document_directory() {
    let world = World::new();
    let dir = world.tempdir();
    let file_path = dir.path().join("doc.md");
    world.write(&file_path, "# Hi\n");

    let outside = world.tempdir();
    let secret = outside.path().join("secret.png");
    world.write(&secret, b"outside-bytes");

    let link_path = dir.path().join("escape.png");
    world.symlink(&secret, &link_path);

    let version = AtomicU64::new(0);
    let reply = handle_reply(&world,
        &get("/asset?p=escape.png"),
        Some(&file_path),
        &version,
        false,
    );
    assert_eq!(reply.status, 404);
}

#[test]
fn asset_over_the_size_limit_is_413() {
    let world = World::new();
    let dir = world.tempdir();
    let file_path = dir.path().join("doc.md");
    world.write(&file_path, "# Hi\n");
    let big = vec![0u8; ASSET_MAX_BYTES as usize + 1];
    world.write(dir.path().join("big.png"), &big);
    let version = AtomicU64::new(0);

    let reply = handle_reply(&world, &get("/asset?p=big.png"), Some(&file_path), &version, false);
    assert_eq!(reply.status, 413);
}

#[test]
fn asset_content_type_covers_every_allowed_extension() {
    let world = World::new();
    let dir = world.tempdir();
    let file_path = dir.path().join("doc.md");
    world.write(&file_path, "# Hi\n");
    let version = AtomicU64::new(0);

    let cases = [
        ("a.png", "image/png"),
        ("a.jpg", "image/jpeg"),
        ("a.jpeg", "image/jpeg"),
        ("a.gif", "image/gif"),
        ("a.webp", "image/webp"),
        ("a.bmp", "image/bmp"),
        ("a.svg", "image/svg+xml"),
        ("a.avif", "image/avif"),
        ("a.ico", "image/x-icon"),
    ];
    for (name, expected_type) in cases {
        world.write(dir.path().join(name), b"data");
        let reply = handle_reply(&world,
            &get(&format!("/asset?p={name}")),
            Some(&file_path),
            &version,
            false,
        );
        assert_eq!(reply.status, 200, "{name}");
        assert_eq!(reply.content_type, expected_type, "{name}");
    }
}

#[test]
fn tree_lists_files_and_dirs_dir_before_file_with_root_and_current() {
    let world = World::new();
    let outer = world.tempdir();
    let root_dir = outer.path().join("imgdemo");
    world.create_dir(&root_dir);
    let file_path = root_dir.join("doc.md");
    world.write(&file_path, "# Hi\n");
    world.create_dir(root_dir.join("sub"));
    world.write(root_dir.join("sub").join("a.md"), "# A\n");
    let version = AtomicU64::new(0);

    let reply = handle_reply(&world, &get("/tree"), Some(&file_path), &version, false);
    assert_eq!(reply.status, 200);
    assert_eq!(reply.content_type, "application/json; charset=utf-8");
    let value: serde_json::Value = serde_json::from_slice(&reply.body).unwrap();
    assert_eq!(value["root"], "imgdemo");
    assert_eq!(value["current"], "doc.md");
    assert!(value.get("truncated").is_none());

    let entries = value["entries"].as_array().expect("entries array");
    assert_eq!(entries.len(), 3);
    assert_eq!(entries[0]["path"], "sub");
    assert_eq!(entries[0]["name"], "sub");
    assert_eq!(entries[0]["kind"], "dir");
    assert_eq!(entries[1]["path"], "sub/a.md");
    assert_eq!(entries[1]["name"], "a.md");
    assert_eq!(entries[1]["kind"], "file");
    assert_eq!(entries[2]["path"], "doc.md");
    assert_eq!(entries[2]["name"], "doc.md");
    assert_eq!(entries[2]["kind"], "file");
}

#[test]
fn tree_sorts_names_case_insensitively() {
    let world = World::new();
    let dir = world.tempdir();
    let file_path = dir.path().join("doc.md");
    world.write(&file_path, "# Hi\n");
    world.write(dir.path().join("B.md"), "# B\n");
    world.write(dir.path().join("a.md"), "# a\n");
    world.write(dir.path().join("C.md"), "# C\n");
    let version = AtomicU64::new(0);

    let reply = handle_reply(&world, &get("/tree"), Some(&file_path), &version, false);
    let value: serde_json::Value = serde_json::from_slice(&reply.body).unwrap();
    let names: Vec<&str> = value["entries"]
        .as_array()
        .unwrap()
        .iter()
        .map(|entry| entry["name"].as_str().unwrap())
        .collect();
    assert_eq!(names, vec!["a.md", "B.md", "C.md", "doc.md"]);
}

#[test]
fn tree_stops_descending_past_max_depth() {
    let world = World::new();
    let dir = world.tempdir();
    let file_path = dir.path().join("doc.md");
    world.write(&file_path, "# Hi\n");
    let deep = dir.path().join("a").join("b").join("c").join("d");
    world.create_dir(&deep);
    world.write(deep.join("shallow.md"), "# Shallow\n");
    world.create_dir(deep.join("e"));
    world.write(deep.join("e").join("deep.md"), "# Deep\n");
    let version = AtomicU64::new(0);

    let reply = handle_reply(&world, &get("/tree"), Some(&file_path), &version, false);
    let value: serde_json::Value = serde_json::from_slice(&reply.body).unwrap();
    let paths: Vec<&str> = value["entries"]
        .as_array()
        .unwrap()
        .iter()
        .map(|entry| entry["path"].as_str().unwrap())
        .collect();
    assert!(paths.contains(&"a/b/c/d/shallow.md"), "{paths:?}");
    assert!(
        !paths.iter().any(|path| path.contains("/e")),
        "directory beyond max depth must not appear: {paths:?}"
    );
}

#[test]
fn tree_truncates_past_the_entry_cap() {
    let world = World::new();
    let dir = world.tempdir();
    let file_path = dir.path().join("doc.md");
    world.write(&file_path, "# Hi\n");
    for i in 0..(TREE_MAX_ENTRIES + 5) {
        world.write(dir.path().join(format!("f{i:05}.md")), "# x\n");
    }
    let version = AtomicU64::new(0);

    let reply = handle_reply(&world, &get("/tree"), Some(&file_path), &version, false);
    let value: serde_json::Value = serde_json::from_slice(&reply.body).unwrap();
    assert_eq!(value["truncated"], true);
    assert_eq!(value["entries"].as_array().unwrap().len(), TREE_MAX_ENTRIES);
}

#[test]
fn tree_skips_hidden_and_excluded_directories() {
    let world = World::new();
    let dir = world.tempdir();
    let file_path = dir.path().join("doc.md");
    world.write(&file_path, "# Hi\n");
    for name in [".hidden", "node_modules", "target", ".git"] {
        let sub = dir.path().join(name);
        world.create_dir(&sub);
        world.write(sub.join("x.md"), "# x\n");
    }
    world.create_dir(dir.path().join("visible"));
    world.write(dir.path().join("visible").join("x.md"), "# x\n");
    let version = AtomicU64::new(0);

    let reply = handle_reply(&world, &get("/tree"), Some(&file_path), &version, false);
    let value: serde_json::Value = serde_json::from_slice(&reply.body).unwrap();
    let names: Vec<&str> = value["entries"]
        .as_array()
        .unwrap()
        .iter()
        .map(|entry| entry["name"].as_str().unwrap())
        .collect();
    assert!(names.contains(&"visible"), "{names:?}");
    for excluded in [".hidden", "node_modules", "target", ".git"] {
        assert!(!names.contains(&excluded), "{excluded} in {names:?}");
    }
}

#[test]
fn tree_omits_a_folder_with_no_markdown_inside() {
    let world = World::new();
    let dir = world.tempdir();
    let file_path = dir.path().join("doc.md");
    world.write(&file_path, "# Hi\n");
    world.create_dir(dir.path().join("assets"));
    world.write(dir.path().join("assets").join("readme.txt"), "hi");
    let version = AtomicU64::new(0);

    let reply = handle_reply(&world, &get("/tree"), Some(&file_path), &version, false);
    let value: serde_json::Value = serde_json::from_slice(&reply.body).unwrap();
    let names: Vec<&str> = value["entries"]
        .as_array()
        .unwrap()
        .iter()
        .map(|entry| entry["name"].as_str().unwrap())
        .collect();
    assert_eq!(names, vec!["doc.md"]);
}

#[test]
fn tree_does_not_follow_a_symlinked_directory() {
    let world = World::new();
    let dir = world.tempdir();
    let file_path = dir.path().join("doc.md");
    world.write(&file_path, "# Hi\n");

    let outside = world.tempdir();
    world.write(outside.path().join("secret.md"), "# secret\n");
    world.symlink(outside.path(), dir.path().join("linked"));

    let version = AtomicU64::new(0);
    let reply = handle_reply(&world, &get("/tree"), Some(&file_path), &version, false);
    let value: serde_json::Value = serde_json::from_slice(&reply.body).unwrap();
    let names: Vec<&str> = value["entries"]
        .as_array()
        .unwrap()
        .iter()
        .map(|entry| entry["name"].as_str().unwrap())
        .collect();
    assert!(!names.contains(&"linked"), "{names:?}");
}

#[test]
fn tree_with_no_file_open_is_409() {
    let world = World::new();
    let version = AtomicU64::new(0);
    let reply = handle_reply(&world, &get("/tree"), None, &version, false);
    assert_eq!(reply.status, 409);
}

#[test]
fn open_in_browser_mode_is_501() {
    let world = World::new();
    let dir = world.tempdir();
    let file_path = dir.path().join("doc.md");
    world.write(&file_path, "# Hi\n");
    world.write(dir.path().join("b.md"), "# B\n");
    let version = AtomicU64::new(0);
    let headers = with_request_header();
    let body = br#"{"path":"b.md"}"#;

    let (reply, action) = run(&world,
        &put_open(body, &headers),
        Some(&file_path),
        &version,
        false,
        false,
        None,
        None,
    );
    assert_eq!(reply.status, 501);
    assert_eq!(action, Action::Nothing);
}

#[test]
fn open_without_the_request_header_is_403() {
    let world = World::new();
    let dir = world.tempdir();
    let file_path = dir.path().join("doc.md");
    world.write(&file_path, "# Hi\n");
    let version = AtomicU64::new(0);
    let body = br#"{"path":"doc.md"}"#;

    let (reply, action) = run(&world,
        &put_open(body, &REQUEST_HEADER_PAIR),
        Some(&file_path),
        &version,
        false,
        true,
        None,
        None,
    );
    assert_eq!(reply.status, 403);
    assert_eq!(action, Action::Nothing);
}

#[test]
fn open_with_no_file_open_is_409() {
    let world = World::new();
    let version = AtomicU64::new(0);
    let headers = with_request_header();
    let body = br#"{"path":"doc.md"}"#;

    let (reply, action) = run(&world,
        &put_open(body, &headers),
        None,
        &version,
        false,
        true,
        None,
        None,
    );
    assert_eq!(reply.status, 409);
    assert_eq!(action, Action::Nothing);
}

#[test]
fn open_with_invalid_json_is_400() {
    let world = World::new();
    let dir = world.tempdir();
    let file_path = dir.path().join("doc.md");
    world.write(&file_path, "# Hi\n");
    let version = AtomicU64::new(0);
    let headers = with_request_header();

    let (reply, action) = run(&world,
        &put_open(b"not json", &headers),
        Some(&file_path),
        &version,
        false,
        true,
        None,
        None,
    );
    assert_eq!(reply.status, 400);
    assert_eq!(action, Action::Nothing);
}

#[test]
fn open_rejects_a_parent_directory_escape() {
    let world = World::new();
    let dir = world.tempdir();
    let file_path = dir.path().join("doc.md");
    world.write(&file_path, "# Hi\n");
    let version = AtomicU64::new(0);
    let headers = with_request_header();
    let body = br#"{"path":"../secret.md"}"#;

    let (reply, action) = run(&world,
        &put_open(body, &headers),
        Some(&file_path),
        &version,
        false,
        true,
        None,
        None,
    );
    assert_eq!(reply.status, 400);
    assert_eq!(action, Action::Nothing);
}

#[test]
fn open_rejects_an_absolute_path() {
    let world = World::new();
    let dir = world.tempdir();
    let file_path = dir.path().join("doc.md");
    world.write(&file_path, "# Hi\n");
    let version = AtomicU64::new(0);
    let headers = with_request_header();
    let body = br#"{"path":"/etc/hosts"}"#;

    let (reply, action) = run(&world,
        &put_open(body, &headers),
        Some(&file_path),
        &version,
        false,
        true,
        None,
        None,
    );
    assert_eq!(reply.status, 400);
    assert_eq!(action, Action::Nothing);
}

#[test]
fn open_rejects_a_non_markdown_extension() {
    let world = World::new();
    let dir = world.tempdir();
    let file_path = dir.path().join("doc.md");
    world.write(&file_path, "# Hi\n");
    world.write(dir.path().join("notes.txt"), "hi");
    let version = AtomicU64::new(0);
    let headers = with_request_header();
    let body = br#"{"path":"notes.txt"}"#;

    let (reply, action) = run(&world,
        &put_open(body, &headers),
        Some(&file_path),
        &version,
        false,
        true,
        None,
        None,
    );
    assert_eq!(reply.status, 400);
    assert_eq!(action, Action::Nothing);
}

#[test]
fn open_for_a_nonexistent_file_is_404() {
    let world = World::new();
    let dir = world.tempdir();
    let file_path = dir.path().join("doc.md");
    world.write(&file_path, "# Hi\n");
    let version = AtomicU64::new(0);
    let headers = with_request_header();
    let body = br#"{"path":"missing.md"}"#;

    let (reply, action) = run(&world,
        &put_open(body, &headers),
        Some(&file_path),
        &version,
        false,
        true,
        None,
        None,
    );
    assert_eq!(reply.status, 404);
    assert_eq!(action, Action::Nothing);
}

#[test]
fn open_rejects_a_symlink_that_escapes_the_document_directory() {
    let world = World::new();
    let dir = world.tempdir();
    let file_path = dir.path().join("doc.md");
    world.write(&file_path, "# Hi\n");

    let outside = world.tempdir();
    let secret = outside.path().join("secret.md");
    world.write(&secret, "# secret\n");
    world.symlink(&secret, dir.path().join("escape.md"));

    let version = AtomicU64::new(0);
    let headers = with_request_header();
    let body = br#"{"path":"escape.md"}"#;

    let (reply, action) = run(&world,
        &put_open(body, &headers),
        Some(&file_path),
        &version,
        false,
        true,
        None,
        None,
    );
    assert_eq!(reply.status, 404);
    assert_eq!(action, Action::Nothing);
}

#[test]
fn open_rejects_a_symlink_target_even_when_it_resolves_inside_the_root() {
    let world = World::new();
    let dir = world.tempdir();
    let file_path = dir.path().join("doc.md");
    world.write(&file_path, "# Hi\n");
    world.write(dir.path().join("real.md"), "# Real\n");
    world.symlink(dir.path().join("real.md"), dir.path().join("link.md"));

    let version = AtomicU64::new(0);
    let headers = with_request_header();
    let (reply, action) = run(&world,
        &put_open(br#"{"path":"link.md"}"#, &headers),
        Some(&file_path),
        &version,
        false,
        true,
        None,
        None,
    );
    assert_eq!(reply.status, 404);
    assert_eq!(action, Action::Nothing);
}

#[test]
fn open_rejects_a_directory_target() {
    let world = World::new();
    let dir = world.tempdir();
    let file_path = dir.path().join("doc.md");
    world.write(&file_path, "# Hi\n");
    world.create_dir(dir.path().join("looks-like-a-file.md"));

    let version = AtomicU64::new(0);
    let headers = with_request_header();
    let (reply, action) = run(&world,
        &put_open(br#"{"path":"looks-like-a-file.md"}"#, &headers),
        Some(&file_path),
        &version,
        false,
        true,
        None,
        None,
    );
    assert_eq!(reply.status, 404);
    assert_eq!(action, Action::Nothing);
}

#[test]
fn open_succeeds_and_returns_an_open_file_action() {
    let world = World::new();
    let dir = world.tempdir();
    let file_path = dir.path().join("doc.md");
    world.write(&file_path, "# Hi\n");
    let target = dir.path().join("b.md");
    world.write(&target, "# B\n");
    let version = AtomicU64::new(0);
    let headers = with_request_header();
    let body = br#"{"path":"b.md"}"#;

    let (reply, action) = run(&world,
        &put_open(body, &headers),
        Some(&file_path),
        &version,
        false,
        true,
        None,
        None,
    );
    assert_eq!(reply.status, 200);
    let value: serde_json::Value = serde_json::from_slice(&reply.body).unwrap();
    assert_eq!(value["ok"], true);
    assert_eq!(value["reloaded"], true);
    assert_eq!(
        action,
        Action::OpenFile(world.canonical(&target).0)
    );
}

#[test]
fn open_succeeds_for_a_file_in_a_subdirectory() {
    let world = World::new();
    let dir = world.tempdir();
    let file_path = dir.path().join("doc.md");
    world.write(&file_path, "# Hi\n");
    world.create_dir(dir.path().join("sub"));
    let target = dir.path().join("sub").join("a.md");
    world.write(&target, "# A\n");
    let version = AtomicU64::new(0);
    let headers = with_request_header();
    let body = br#"{"path":"sub/a.md"}"#;

    let (reply, action) = run(&world,
        &put_open(body, &headers),
        Some(&file_path),
        &version,
        false,
        true,
        None,
        None,
    );
    assert_eq!(reply.status, 200);
    assert!(value_reloaded(&reply));
    assert_eq!(
        action,
        Action::OpenFile(world.canonical(&target).0)
    );
}

fn value_reloaded(reply: &Reply) -> bool {
    let value: serde_json::Value = serde_json::from_slice(&reply.body).unwrap();
    value["reloaded"].as_bool().unwrap_or(false)
}

fn put_nav<'a>(body: &'a [u8], headers: &'a [(String, String)]) -> RouteRequest<'a> {
    RouteRequest {
        method: "PUT",
        path: "/nav",
        headers,
        body,
    }
}

#[test]
fn nav_get_with_no_history_reports_false_false() {
    let world = World::new();
    let version = AtomicU64::new(0);
    let (reply, action) = run(&world, &get("/nav"), None, &version, false, true, None, None);
    assert_eq!(reply.status, 200);
    assert_eq!(action, Action::Nothing);
    let value: serde_json::Value = serde_json::from_slice(&reply.body).unwrap();
    assert_eq!(value["back"], false);
    assert_eq!(value["forward"], false);
}

#[test]
fn nav_get_reports_the_given_snapshot() {
    let world = World::new();
    let version = AtomicU64::new(0);
    let (reply, _action) = run(&world,
        &get("/nav"),
        None,
        &version,
        false,
        true,
        None,
        Some((true, false)),
    );
    let value: serde_json::Value = serde_json::from_slice(&reply.body).unwrap();
    assert_eq!(value["back"], true);
    assert_eq!(value["forward"], false);
}

#[test]
fn nav_get_in_browser_mode_is_always_false_false_even_with_a_snapshot() {
    let world = World::new();
    let version = AtomicU64::new(0);
    let (reply, _action) = run(&world,
        &get("/nav"),
        None,
        &version,
        false,
        false,
        None,
        Some((true, true)),
    );
    let value: serde_json::Value = serde_json::from_slice(&reply.body).unwrap();
    assert_eq!(value["back"], false);
    assert_eq!(value["forward"], false);
}

#[test]
fn nav_put_in_browser_mode_is_501() {
    let world = World::new();
    let version = AtomicU64::new(0);
    let headers = with_request_header();
    let body = br#"{"dir":"back"}"#;
    let (reply, action) = run(&world,
        &put_nav(body, &headers),
        None,
        &version,
        false,
        false,
        None,
        Some((true, true)),
    );
    assert_eq!(reply.status, 501);
    assert_eq!(action, Action::Nothing);
}

#[test]
fn nav_put_without_the_request_header_is_403() {
    let world = World::new();
    let version = AtomicU64::new(0);
    let body = br#"{"dir":"back"}"#;
    let (reply, action) = run(&world,
        &put_nav(body, &REQUEST_HEADER_PAIR),
        None,
        &version,
        false,
        true,
        None,
        Some((true, true)),
    );
    assert_eq!(reply.status, 403);
    assert_eq!(action, Action::Nothing);
}

#[test]
fn nav_put_with_no_history_is_409() {
    let world = World::new();
    let version = AtomicU64::new(0);
    let headers = with_request_header();
    let body = br#"{"dir":"back"}"#;
    let (reply, action) = run(&world,
        &put_nav(body, &headers),
        None,
        &version,
        false,
        true,
        None,
        None,
    );
    assert_eq!(reply.status, 409);
    assert_eq!(action, Action::Nothing);
}

#[test]
fn nav_put_with_invalid_json_is_400() {
    let world = World::new();
    let version = AtomicU64::new(0);
    let headers = with_request_header();
    let (reply, action) = run(&world,
        &put_nav(b"not json", &headers),
        None,
        &version,
        false,
        true,
        None,
        Some((true, true)),
    );
    assert_eq!(reply.status, 400);
    assert_eq!(action, Action::Nothing);
}

#[test]
fn nav_put_with_an_invalid_direction_is_400() {
    let world = World::new();
    let version = AtomicU64::new(0);
    let headers = with_request_header();
    let body = br#"{"dir":"sideways"}"#;
    let (reply, action) = run(&world,
        &put_nav(body, &headers),
        None,
        &version,
        false,
        true,
        None,
        Some((true, true)),
    );
    assert_eq!(reply.status, 400);
    assert_eq!(action, Action::Nothing);
}

#[test]
fn nav_put_back_when_unavailable_is_409() {
    let world = World::new();
    let version = AtomicU64::new(0);
    let headers = with_request_header();
    let body = br#"{"dir":"back"}"#;
    let (reply, action) = run(&world,
        &put_nav(body, &headers),
        None,
        &version,
        false,
        true,
        None,
        Some((false, true)),
    );
    assert_eq!(reply.status, 409);
    assert_eq!(action, Action::Nothing);
}

#[test]
fn nav_put_forward_when_unavailable_is_409() {
    let world = World::new();
    let version = AtomicU64::new(0);
    let headers = with_request_header();
    let body = br#"{"dir":"forward"}"#;
    let (reply, action) = run(&world,
        &put_nav(body, &headers),
        None,
        &version,
        false,
        true,
        None,
        Some((true, false)),
    );
    assert_eq!(reply.status, 409);
    assert_eq!(action, Action::Nothing);
}

#[test]
fn nav_put_back_succeeds_and_returns_a_navigate_action() {
    let world = World::new();
    let version = AtomicU64::new(0);
    let headers = with_request_header();
    let body = br#"{"dir":"back"}"#;
    let (reply, action) = run(&world,
        &put_nav(body, &headers),
        None,
        &version,
        false,
        true,
        None,
        Some((true, false)),
    );
    assert_eq!(reply.status, 200);
    assert!(value_reloaded(&reply));
    assert_eq!(action, Action::Navigate(NavDirection::Back));
}

#[test]
fn nav_put_forward_succeeds_and_returns_a_navigate_action() {
    let world = World::new();
    let version = AtomicU64::new(0);
    let headers = with_request_header();
    let body = br#"{"dir":"forward"}"#;
    let (reply, action) = run(&world,
        &put_nav(body, &headers),
        None,
        &version,
        false,
        true,
        None,
        Some((false, true)),
    );
    assert_eq!(reply.status, 200);
    assert!(value_reloaded(&reply));
    assert_eq!(action, Action::Navigate(NavDirection::Forward));
}

#[test]
fn open_can_switch_back_to_a_file_in_the_fixed_window_root_after_descending_into_a_subdirectory() {
    let world = World::new();
    let dir = world.tempdir();
    let root_dir = world.canonical(dir.path());
    let a_path = dir.path().join("a.md");
    world.write(&a_path, "# A\n");
    world.create_dir(dir.path().join("sub"));
    let sub_c_path = dir.path().join("sub").join("c.md");
    world.write(&sub_c_path, "# C\n");
    let version = AtomicU64::new(0);
    let headers = with_request_header();

    let (reply1, action1) = run(&world,
        &put_open(br#"{"path":"sub/c.md"}"#, &headers),
        Some(&a_path),
        &version,
        false,
        true,
        Some(&root_dir),
        None,
    );
    assert_eq!(reply1.status, 200);
    let sub_c_canonical = world.canonical(&sub_c_path);
    assert_eq!(action1, Action::OpenFile(sub_c_canonical.0.clone()));

    let (reply2, action2) = run(&world,
        &put_open(br#"{"path":"a.md"}"#, &headers),
        Some(&sub_c_canonical),
        &version,
        false,
        true,
        Some(&root_dir),
        None,
    );
    assert_eq!(reply2.status, 200, "must be able to switch back to a.md");
    assert_eq!(
        action2,
        Action::OpenFile(world.canonical(&a_path).0)
    );

    let (reply3, action3) = run(&world,
        &put_open(br#"{"path":"../secret.md"}"#, &headers),
        Some(&sub_c_canonical),
        &version,
        false,
        true,
        Some(&root_dir),
        None,
    );
    assert_eq!(reply3.status, 400);
    assert_eq!(action3, Action::Nothing);
}

#[test]
fn open_without_a_fixed_root_dir_cannot_switch_back_out_of_a_subdirectory() {
    let world = World::new();
    let dir = world.tempdir();
    world.write(dir.path().join("a.md"), "# A\n");
    world.create_dir(dir.path().join("sub"));
    let sub_c_path = dir.path().join("sub").join("c.md");
    world.write(&sub_c_path, "# C\n");
    let sub_c_canonical = world.canonical(&sub_c_path);
    let version = AtomicU64::new(0);
    let headers = with_request_header();

    let (reply, action) = run(&world,
        &put_open(br#"{"path":"a.md"}"#, &headers),
        Some(&sub_c_canonical),
        &version,
        false,
        true,
        None,
        None,
    );
    assert_eq!(reply.status, 404);
    assert_eq!(action, Action::Nothing);
}

#[test]
fn tree_root_and_current_reflect_the_fixed_root_not_the_current_files_own_parent() {
    let world = World::new();
    let dir = world.tempdir();
    let root_name = dir.path().file_name();
    world.write(dir.path().join("a.md"), "# A\n");
    world.create_dir(dir.path().join("sub"));
    let sub_c_path = dir.path().join("sub").join("c.md");
    world.write(&sub_c_path, "# C\n");
    let root_dir = world.canonical(dir.path());
    let sub_c_canonical = world.canonical(&sub_c_path);
    let version = AtomicU64::new(0);

    let (reply, _action) = run(&world,
        &get("/tree"),
        Some(&sub_c_canonical),
        &version,
        false,
        true,
        Some(&root_dir),
        None,
    );
    assert_eq!(reply.status, 200);
    let value: serde_json::Value = serde_json::from_slice(&reply.body).unwrap();
    assert_eq!(value["root"], root_name);
    assert_eq!(value["current"], "sub/c.md");
    let names: Vec<&str> = value["entries"]
        .as_array()
        .unwrap()
        .iter()
        .map(|entry| entry["name"].as_str().unwrap())
        .collect();
    assert!(names.contains(&"a.md"), "{names:?}");
}

#[test]
fn tree_relative_path_falls_back_to_empty_string_without_leaking_a_path() {
    assert_eq!(
        tree_relative_path("..", "/somewhere/else"),
        ""
    );
}

#[test]
fn put_review_matches_only_by_basename_not_by_directory() {
    let world = World::new();
    let dir = world.tempdir();
    let readme = dir.path().join("README.md");
    world.write(&readme, "# Hi\n");
    let version = AtomicU64::new(0);
    let headers = with_request_header();

    let body = br#"{"version":1,"file":"README.md","blocks":[]}"#;
    let reply = handle_reply(&world, &put_review(body, &headers), Some(&readme), &version, false);
    assert_eq!(
        reply.status, 200,
        "handle() alone can't tell same-named files in different directories apart"
    );
}

#[test]
fn tree_keeps_already_collected_entries_when_the_cap_is_hit_inside_a_subdirectory() {
    let world = World::new();
    let dir = world.tempdir();
    world.create_dir(dir.path().join("sub"));
    for i in 0..5 {
        world.write(dir.path().join("sub").join(format!("f{i}.md")), "# x\n");
    }
    let (entries, truncated) = collect_tree_entries(&world, dir.path(), 2, 1_000);
    assert!(truncated);
    assert_eq!(
        entries.len(),
        2,
        "already-collected entries must survive truncation instead of being discarded"
    );
}

#[test]
fn tree_does_not_truncate_when_entries_exactly_fill_the_budget() {
    let world = World::new();
    let dir = world.tempdir();
    for i in 0..4 {
        world.write(dir.path().join(format!("f{i}.md")), "# x\n");
    }
    let (entries, truncated) = collect_tree_entries(&world, dir.path(), 4, 1_000);
    assert!(
        !truncated,
        "exactly filling the budget must not falsely truncate"
    );
    assert_eq!(entries.len(), 4);
}

#[test]
fn tree_does_not_truncate_when_a_subdirectory_and_its_file_exactly_fill_the_budget() {
    let world = World::new();
    let dir = world.tempdir();
    world.create_dir(dir.path().join("sub"));
    world.write(dir.path().join("sub").join("c.md"), "# C\n");
    let (entries, truncated) = collect_tree_entries(&world, dir.path(), 2, 1_000);
    assert!(!truncated);
    assert_eq!(entries.len(), 2);
    assert!(entries[0].is_dir);
    assert!(!entries[1].is_dir);
}

#[test]
fn tree_stops_after_visiting_too_many_entries_even_if_none_qualify() {
    let world = World::new();
    let dir = world.tempdir();
    world.write(dir.path().join("doc.md"), "# Hi\n");
    for i in 0..10 {
        world.write(dir.path().join(format!("noise{i}.txt")), b"x");
    }
    let (entries, truncated) = collect_tree_entries(&world, dir.path(), 1_000, 5);
    assert!(truncated);
    assert!(entries.len() <= 1);
}

#[test]
fn tree_skips_a_non_utf8_file_name() {
    let world = World::new();
    let dir = world.tempdir();
    world.write(dir.path().join("a.md"), "# A\n");
    world.write_nameless(dir.path());

    let (entries, truncated) = collect_tree_entries(&world, dir.path(), 1_000, 1_000);
    assert!(!truncated);
    assert_eq!(entries.len(), 1);
    assert_eq!(entries[0].name, "a.md");
}

fn error_of(reply: &Reply) -> String {
    let value: Value = serde_json::from_slice(&reply.body).unwrap();
    value["error"].as_str().unwrap_or_default().to_string()
}

fn start(method: &str, path: &str, headers: &[(String, String)], nav: bool) -> Step {
    let req = RouteRequest {
        method,
        path,
        headers,
        body: b"{}",
    };
    let nav = if nav { Some((true, true)) } else { None };
    handle(&req, Some("/d/notes.md"), 5, false, true, Some("/d"), nav)
}

#[test]
fn changes_without_the_header_are_refused_at_once() {
    for (method, path) in [
        ("PUT", "/review"),
        ("POST", "/export"),
        ("PUT", "/open"),
        ("PUT", "/nav"),
    ] {
        match start(method, path, &[], true) {
            Step::Done(reply, action) => {
                assert_eq!(reply.status, 403, "{path}");
                assert_eq!(error_of(&reply), "missing X-Mdview-Request header");
                assert_eq!(action, Action::Nothing);
            }
            Step::Need(_, _) => panic!("{path}"),
        }
    }
    for (method, path) in [("DELETE", "/review"), ("POST", "/open"), ("PATCH", "/")] {
        match start(method, path, &[], true) {
            Step::Done(reply, action) => {
                assert_eq!(reply.status, 404);
                assert_eq!(action, Action::Nothing);
            }
            Step::Need(_, _) => panic!("{path}"),
        }
    }
}

#[test]
fn requests_ask_for_the_shown_file_and_what_lies_beside_it() {
    let headers = with_request_header();
    let need = |method: &str, path: &str| match start(method, path, &headers, true) {
        Step::Need(need, _) => need,
        Step::Done(reply, _) => panic!("{}", reply.status),
    };
    assert!(matches!(need("GET", "/"), Need::ReadText(p) if p == "/d/notes.md"));
    assert!(matches!(need("HEAD", "/body?x"), Need::ReadText(p) if p == "/d/notes.md"));
    assert!(
        matches!(need("GET", "/review"), Need::ReadSidecar(p) if p == "/d/notes.md.review.json")
    );
    assert!(matches!(need("PUT", "/review"), Need::ParseReview(b) if b == b"{}"));
    assert!(matches!(need("POST", "/export"), Need::ReadText(p) if p == "/d/notes.md"));
    assert!(matches!(need("PUT", "/open"), Need::ParseOpen(b) if b == b"{}"));
    assert!(matches!(need("PUT", "/nav"), Need::ParseNav(b) if b == b"{}"));
    assert!(matches!(need("GET", "/tree"), Need::ReadDir(p, n) if p == "/d" && n == 20001));
    assert!(
        matches!(need("HEAD", "/asset?q=1&p=a.png&p=b.png"), Need::Canonicalize(p) if p == "/d")
    );
}

#[test]
fn what_fails_is_answered_with_an_error() {
    let headers = with_request_header();
    let fail = |method: &str, path: &str, answers: Vec<Answer>| {
        let mut step = start(method, path, &headers, true);
        for answer in answers {
            match step {
                Step::Need(_, pending) => step = resume(pending, answer),
                Step::Done(reply, _) => panic!("{}", reply.status),
            }
        }
        match step {
            Step::Done(reply, Action::Nothing) => (reply.status, error_of(&reply)),
            _ => panic!("{path}"),
        }
    };
    let text = |t: &str| Answer::Text(Some(t.to_string()));
    let data = || (500, "failed to read review data".to_string());
    let document = || (500, "failed to read document".to_string());
    assert_eq!(fail("GET", "/review", vec![Answer::Sidecar(SidecarRead::Unreadable)]), data());
    assert_eq!(fail("GET", "/review", vec![Answer::Sidecar(SidecarRead::Malformed)]), data());
    assert_eq!(fail("GET", "/review", vec![Answer::Flag(true)]), data());
    assert_eq!(
        fail("GET", "/review", vec![Answer::Sidecar(SidecarRead::Missing), Answer::Text(None)]),
        document()
    );
    assert_eq!(fail("POST", "/export", vec![Answer::Text(None)]), document());
    assert_eq!(
        fail("POST", "/export", vec![text("x"), Answer::Sidecar(SidecarRead::Malformed)]),
        data()
    );
    assert_eq!(
        fail(
            "POST",
            "/export",
            vec![text("x"), Answer::Sidecar(SidecarRead::Missing), Answer::Flag(false)]
        ),
        (500, "failed to write export file".to_string())
    );
    let doc = || review_doc(br#"{"version":1,"file":"notes.md","blocks":[]}"#);
    assert_eq!(
        fail("PUT", "/review", vec![Answer::Review(doc()), Answer::Flag(false)]),
        (500, "failed to save review data".to_string())
    );
    let mut wrong = doc().unwrap();
    wrong.version = 2;
    assert_eq!(
        fail("PUT", "/review", vec![Answer::Review(Some(wrong))]),
        (400, "invalid review document".to_string())
    );
}

#[test]
fn images_have_to_be_named_in_a_query_that_can_be_read() {
    let world = World::new();
    let dir = world.tempdir();
    let file = dir.path().join("doc.md");
    let version = AtomicU64::new(0);
    let error = |path: &str| {
        let reply = handle_reply(&world, &get(path), Some(&file), &version, false);
        assert_eq!(
            header(&reply, "Content-Security-Policy"),
            Some("default-src 'none'; sandbox")
        );
        (reply.status, error_of(&reply))
    };
    let missing = (400, "missing p query parameter".to_string());
    assert_eq!(error("/asset"), missing);
    assert_eq!(error("/asset?q=a.png"), missing);
    assert_eq!(error("/asset?p"), missing);
    assert_eq!(
        error("/asset?p=%ff.png"),
        (400, "invalid p query parameter".to_string())
    );
    assert_eq!(error("/asset?p="), (400, "invalid path".to_string()));
}

#[test]
fn an_image_may_have_exactly_the_largest_size() {
    let world = World::new();
    let dir = world.tempdir();
    let file = dir.path().join("doc.md");
    world.write(dir.path().join("b%20 c.PNG"), vec![7u8; ASSET_MAX_BYTES as usize]);
    let version = AtomicU64::new(0);
    let reply = handle_reply(&world, &get("/asset?p=b%2520%20c.PNG"), Some(&file), &version, false);
    assert_eq!(reply.status, 200);
    assert_eq!(reply.content_type, "image/png");
    assert_eq!(reply.body.len(), ASSET_MAX_BYTES as usize);
}

#[test]
fn what_a_tree_lists_can_be_opened() {
    let world = World::new();
    let dir = world.tempdir();
    let file = dir.path().join("doc.md");
    world.write(&file, "");
    world.create_dir(dir.path().join("Ä b").join("c.d"));
    world.write(dir.path().join("Ä b").join("c.d").join(".x.MARKDOWN"), "");
    world.write(dir.path().join("Ä b").join("y.md"), "");
    let version = AtomicU64::new(0);
    let headers = with_request_header();
    let (entries, truncated) = collect_tree_entries(&world, dir.path(), 100, 100);
    assert!(!truncated);
    assert_eq!(entries.len(), 5);
    for entry in entries.iter().filter(|e| !e.is_dir) {
        let body = format!("{{\"path\":\"{}\"}}", entry.path).into_bytes();
        let (reply, action) = run(
            &world,
            &put_open(&body, &headers),
            Some(&file),
            &version,
            false,
            true,
            None,
            None,
        );
        assert_eq!(reply.status, 200);
        assert_eq!(action, Action::OpenFile(dir.path().join(&entry.path).0));
    }
}

#[test]
fn names_that_differ_in_case_keep_their_order() {
    let world = World::new();
    let dir = world.tempdir();
    for name in ["b.md", "B.md", "Ä.md", "a.md", "ä.md"] {
        world.write(dir.path().join(name), "");
    }
    let (entries, _) = collect_tree_entries(&world, dir.path(), 100, 100);
    let names: Vec<&str> = entries.iter().map(|e| e.name.as_str()).collect();
    assert_eq!(names, vec!["a.md", "B.md", "b.md", "Ä.md", "ä.md"]);
}

#[test]
fn a_directory_without_room_for_its_own_line_keeps_what_is_in_it() {
    let world = World::new();
    let dir = world.tempdir();
    world.create_dir(dir.path().join("sub"));
    for i in 0..3 {
        world.write(dir.path().join("sub").join(format!("f{i}.md")), "");
    }
    world.write(dir.path().join("z.md"), "");
    let (entries, truncated) = collect_tree_entries(&world, dir.path(), 3, 100);
    assert!(truncated);
    let paths: Vec<&str> = entries.iter().map(|e| e.path.as_str()).collect();
    assert_eq!(paths, vec!["sub/f0.md", "sub/f1.md", "sub/f2.md"]);
}

#[test]
fn comments_come_back_as_they_were_put_in_order() {
    let world = World::new();
    let dir = world.tempdir();
    let file = dir.path().join("notes.md");
    world.write(&file, "# Hi\n");
    let version = AtomicU64::new(0);
    let headers = with_request_header();
    let body = br#"{"version":1,"file":"notes.md","blocks":[{"hash":"0123456789abcdef","excerpt":"a\nb","comments":[]}]}"#;
    let put = handle_reply(&world, &put_review(body, &headers), Some(&file), &version, false);
    assert_eq!(put.status, 200);
    let got = handle_reply(&world, &get("/review"), Some(&file), &version, false);
    let value: Value = serde_json::from_slice(&got.body).unwrap();
    assert_eq!(value["blocks"][0]["excerpt"], "a b");
    assert_eq!(value["unanchored"][0], "0123456789abcdef");
    let again = serde_json::to_vec(&value).unwrap();
    let put = handle_reply(&world, &put_review(&again, &headers), Some(&file), &version, false);
    assert_eq!(put.status, 200);
    let twice = handle_reply(&world, &get("/review"), Some(&file), &version, false);
    assert_eq!(twice.body, got.body);
}

#[test]
fn an_image_named_with_a_dot_is_shown() {
    let world = World::new();
    let dir = world.tempdir();
    let path = dir.path().join("notes.md");
    world.write(&path, "![alt](./photo.png)\n");
    world.write(dir.path().join("photo.png"), b"png");
    let version = AtomicU64::new(0);
    let page = handle_reply(&world, &get("/"), Some(&path), &version, false);
    let html = String::from_utf8(page.body).unwrap();
    assert!(html.contains("src=\"/asset?p=photo.png\""), "{html}");
    let image = handle_reply(&world, &get("/asset?p=photo.png"), Some(&path), &version, false);
    assert_eq!((image.status, image.body), (200, b"png".to_vec()));
    let dotted = handle_reply(&world, &get("/asset?p=./photo.png"), Some(&path), &version, false);
    assert_eq!(dotted.status, 400);
    let inner = handle_reply(&world, &get("/asset?p=a/./b.png"), Some(&path), &version, false);
    assert_eq!(inner.status, 400);
}

#[test]
fn a_directory_whose_line_is_left_out_shows_that_a_limit_was_met() {
    let world = World::new();
    let dir = world.tempdir();
    world.create_dir(dir.path().join("sub"));
    world.write(dir.path().join("sub/f0.md"), "");
    world.write(dir.path().join("sub/f1.md"), "");
    let (entries, truncated) = collect_tree_entries(&world, dir.path(), 2, 1_000);
    assert_eq!(entries.len(), 2);
    assert!(truncated);
    let (whole, truncated) = collect_tree_entries(&world, dir.path(), 3, 3);
    assert_eq!(whole.len(), 3);
    assert!(!truncated);
    assert_eq!(collect_tree_entries(&world, dir.path(), 100, 100), (whole, false));
}

#[test]
fn no_more_entries_are_read_than_may_be_looked_at_and_one() {
    assert_eq!(TreeScan::start("/docs", 10, 5).limit(), 6);
    assert_eq!(TreeScan::start("/docs", 10, 0).limit(), 1);
    assert_eq!(TreeScan::start("/docs", 10, usize::MAX).limit(), usize::MAX);
    let item = |name: &str, kind| DirItem {
        name: Some(name.to_string()),
        kind,
    };
    let items = vec![item("sub", ItemKind::Dir), item("a.md", ItemKind::File)];
    match TreeScan::start("/docs", 10, 5).read(Some(items)) {
        TreeStep::Read(next) => assert_eq!((next.dir(), next.limit()), ("/docs/sub".into(), 4)),
        TreeStep::Done(_, _) => panic!("a directory is left"),
    }
    match handle(&get("/tree"), Some("/docs/a.md"), 0, false, true, None, None) {
        Step::Need(Need::ReadDir(dir, limit), _) => {
            assert_eq!((dir.as_str(), limit), ("/docs", TREE_MAX_VISITED_ENTRIES + 1));
        }
        _ => panic!("a directory is read"),
    }
}

/// What becomes at once of a request on Windows.
fn start_on_windows(req: &RouteRequest) -> Step {
    let viewing = Viewing {
        file: Some("C:/docs/notes.md"),
        version: 0,
        allow_remote_images: false,
        allow_open: true,
        root_dir: None,
        nav: None,
        platform: Platform::Windows,
    };
    handle_viewing(req, &viewing)
}

#[test]
fn on_windows_both_separators_separate() {
    for path in ["/asset?p=..%5Cx.png", "/asset?p=C:x.png", "/asset?p=%5Cx.png"] {
        match start_on_windows(&get(path)) {
            Step::Done(reply, _) => assert_eq!(reply.status, 400, "{path}"),
            Step::Need(_, _) => panic!("{path}"),
        }
    }
    match start_on_windows(&get("/asset?p=imgs%5Cx.png")) {
        Step::Need(Need::Canonicalize(dir), pending) => {
            assert_eq!(dir, "C:/docs");
            match resume(pending, Answer::Text(Some(dir))) {
                Step::Need(Need::Canonicalize(path), _) => assert_eq!(path, "C:/docs/imgs/x.png"),
                _ => panic!("the image is resolved"),
            }
        }
        _ => panic!("the directory is resolved"),
    }

    let headers = with_request_header();
    let named = |name: &str| match start_on_windows(&put_open(b"{}", &headers)) {
        Step::Need(Need::ParseOpen(_), pending) => {
            resume(pending, Answer::Text(Some(name.to_string())))
        }
        _ => panic!("the body is read"),
    };
    match named("sub\\a.md") {
        Step::Need(Need::IsSymlink(path), _) => assert_eq!(path, "C:/docs/sub/a.md"),
        _ => panic!("the file is looked at"),
    }
    for name in ["..\\a.md", "D:a.md", "\\a.md"] {
        match named(name) {
            Step::Done(reply, _) => assert_eq!(error_of(&reply), "invalid path", "{name}"),
            Step::Need(_, _) => panic!("{name}"),
        }
    }
}
