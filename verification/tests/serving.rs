use markdown_remarkable::cli::{
    choose_mode, export_page, is_same_file, nothing_to_show, path_to_resolve, resolved_output,
    FileId, Mode,
};
use markdown_remarkable::files::{next_write_step, temp_path, WriteStep};
use markdown_remarkable::json::{encode, encode_pretty, list, object, text, Json};
use markdown_remarkable::reply::{header_value, Reply};
use markdown_remarkable::server::{
    body_rejection, host_rejection, is_allowed_host, HOST_REJECTION_BODY, MAX_BODY_BYTES,
};
use markdown_remarkable::watch::{changes_document, watched_dir, ChangeKind, ChangedPath};

#[test]
fn loopback_hosts_are_allowed_with_or_without_a_port() {
    for host in [
        "127.0.0.1",
        "127.0.0.1:8080",
        "localhost",
        "LocalHost:1",
        "[::1]",
        "[::1]:80",
        "  localhost:80  ",
    ] {
        assert!(is_allowed_host(host), "{host:?}");
    }
}

#[test]
fn other_hosts_and_malformed_ports_are_not_allowed() {
    for host in [
        "",
        "evil.example",
        "evil.example:80",
        "localhost:",
        "localhost:8a",
        "localhost:80:80",
        "127.0.0.1.evil.example",
        "[::1]x",
        "[::1]:",
        "[::2]",
        "localhost.",
        "::1",
    ] {
        assert!(!is_allowed_host(host), "{host:?}");
    }
}

#[test]
fn a_missing_host_is_let_pass_before_http_1_1_only() {
    assert!(host_rejection(None, 1, 0).is_none());
    assert!(host_rejection(None, 0, 9).is_none());
    for (major, minor) in [(1, 1), (2, 0)] {
        let reply = host_rejection(None, major, minor).expect("a rejection");
        assert_eq!(reply.status, 403);
        assert_eq!(reply.body, HOST_REJECTION_BODY.as_bytes());
    }
    assert!(host_rejection(Some("localhost"), 1, 1).is_none());
    assert_eq!(host_rejection(Some("evil.example"), 1, 0).unwrap().status, 403);
}

#[test]
fn bodies_may_have_a_mebibyte_and_no_more() {
    assert!(body_rejection(0).is_none());
    assert!(body_rejection(MAX_BODY_BYTES).is_none());
    let reply = body_rejection(MAX_BODY_BYTES + 1).expect("a rejection");
    assert_eq!(reply.status, 413);
}

#[test]
fn changes_of_the_document_are_told_from_others() {
    let at = |path: &str, resolved: Option<&str>| ChangedPath {
        path: path.to_string(),
        resolved: resolved.map(str::to_string),
    };
    let target = "/d/notes.md";
    for kind in [ChangeKind::Create, ChangeKind::Modify, ChangeKind::Remove] {
        assert!(changes_document(kind, &vec![at("/d/notes.md", None)], target));
        assert!(changes_document(
            kind,
            &vec![at("/d/x", None), at("/link/notes.md", Some("/d/notes.md"))],
            target
        ));
        assert!(!changes_document(kind, &vec![at("/d/other.md", Some("/d/other.md"))], target));
        assert!(!changes_document(kind, &vec![], target));
    }
    assert!(!changes_document(ChangeKind::Other, &vec![at("/d/notes.md", None)], target));
    assert_eq!(watched_dir(target), "/d");
    assert_eq!(watched_dir("/"), ".");
}

#[test]
fn a_write_runs_through_its_steps() {
    let run = |results: &[bool]| {
        results
            .iter()
            .fold(WriteStep::Create, |step, ok| next_write_step(step, *ok))
    };
    assert_eq!(run(&[]), WriteStep::Create);
    assert_eq!(run(&[true]), WriteStep::Write);
    assert_eq!(run(&[true, true]), WriteStep::Rename);
    assert_eq!(run(&[true, true, true]), WriteStep::Done);
    assert_eq!(run(&[false]), WriteStep::Failed);
    assert_eq!(run(&[false, true]), WriteStep::Failed);
    assert_eq!(run(&[true, false]), WriteStep::Remove);
    assert_eq!(run(&[true, true, false]), WriteStep::Remove);
    assert_eq!(run(&[true, true, false, true]), WriteStep::Failed);
    assert_eq!(run(&[true, false, false]), WriteStep::Failed);
    assert_eq!(run(&[true, true, true, false]), WriteStep::Done);
}

#[test]
fn the_file_that_stands_in_is_named_after_process_and_count() {
    assert_eq!(temp_path("/d/n.md.review.json", 4711, 0), "/d/n.md.review.json.4711.0.tmp");
    assert_eq!(temp_path("x", 0, u64::MAX), "x.0.18446744073709551615.tmp");
}

#[test]
fn options_and_files_make_a_mode() {
    assert_eq!(choose_mode(false, false, 0), Mode::Native);
    assert_eq!(choose_mode(false, false, 3), Mode::Native);
    assert_eq!(choose_mode(true, false, 1), Mode::Browser);
    assert_eq!(choose_mode(false, true, 1), Mode::Export);
    for files in [0, 2] {
        assert_eq!(choose_mode(true, false, files), Mode::Misuse);
        assert_eq!(choose_mode(false, true, files), Mode::Misuse);
    }
    assert!(nothing_to_show(2, 0));
    assert!(!nothing_to_show(0, 0));
    assert!(!nothing_to_show(2, 1));
}

#[test]
fn an_export_does_not_overwrite_its_input() {
    assert_eq!(path_to_resolve("out.html", true), "out.html");
    assert_eq!(path_to_resolve("out.html", false), ".");
    assert_eq!(path_to_resolve("/x/out.html", false), "/x");
    assert_eq!(resolved_output("out.html", true, "/real/out.html"), "/real/out.html");
    assert_eq!(resolved_output("sub/out.html", false, "/real/sub"), "/real/sub/out.html");
    let id = |inode: u64| Some(FileId { device: 1, inode });
    assert!(is_same_file("/a/n.md", "/a/n.md", None, None));
    assert!(is_same_file("/a/link.md", "/a/n.md", id(5), id(5)));
    assert!(!is_same_file("/a/o.html", "/a/n.md", id(6), id(5)));
    assert!(!is_same_file("/a/o.html", "/a/n.md", None, None));
    assert!(!is_same_file("/a/o.html", "/a/n.md", None, id(5)));
}

#[test]
fn an_exported_page_stands_on_its_own() {
    let html = export_page("/d/notes.md", "# Hi\n\n![x](a.png)\n", false);
    assert!(html.contains("<title>notes.md</title>"));
    assert!(html.contains("<h1>Hi</h1>"));
    assert!(html.contains("src=\"a.png\""));
    assert!(!html.contains("<script>"));
    assert!(!html.contains("http: https:"));
    assert!(export_page("a", "", true).contains("http: https:"));
}

#[test]
fn json_is_written_as_text() {
    let value = object(vec![
        ("b".to_string(), Json::Bool(true)),
        ("a".to_string(), list(vec![Json::Number(18446744073709551615), text("q\"\n\u{1}é")])),
        ("c".to_string(), object(vec![])),
    ]);
    assert_eq!(
        String::from_utf8(encode(&value)).unwrap(),
        "{\"a\":[18446744073709551615,\"q\\\"\\n\\u0001é\"],\"b\":true,\"c\":{}}"
    );
    assert_eq!(
        String::from_utf8(encode_pretty(&list(vec![Json::Number(1)]))).unwrap(),
        "[\n  1\n]"
    );
}

#[test]
fn replies_carry_what_they_are_made_of() {
    let reply = Reply::html(201, "<p>é</p>").with_header("X-A", "1").with_header("X-B", "2");
    assert_eq!(reply.status, 201);
    assert_eq!(reply.content_type, "text/html; charset=utf-8");
    assert_eq!(reply.body, "<p>é</p>".as_bytes());
    assert_eq!(
        reply.headers,
        vec![("X-A", "1".to_string()), ("X-B", "2".to_string())]
    );
    let error = Reply::error(418, "no");
    assert_eq!(error.body, b"{\"error\":\"no\"}");
    assert_eq!(error.content_type, "application/json; charset=utf-8");
    assert_eq!(Reply::typed("image/png", vec![1, 2]).body, vec![1, 2]);
}

#[test]
fn headers_are_found_whatever_their_case() {
    let headers = vec![
        ("x-mdview-request".to_string(), "first".to_string()),
        ("X-Mdview-Request".to_string(), "second".to_string()),
    ];
    assert_eq!(header_value(&headers, "X-MDVIEW-REQUEST"), Some("first"));
    assert_eq!(header_value(&headers, "X-Other"), None);
}
