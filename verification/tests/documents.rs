use markdown_remarkable::html::{html_in, to_html, to_html_with};
use markdown_remarkable::markdown::{
    frontmatter, read_events, Align, EndShape, Shape, TagShape,
};
use markdown_remarkable::offsets::{byte_offsets, char_at_byte};
use markdown_remarkable::page::{page, page_with};
use markdown_remarkable::percent::{percent_encode, Place};
use markdown_remarkable::render::{
    anchors, anchors_in, blocks, hash_source, strip_item_marker, AnchorKind,
};
use markdown_remarkable::routes::{handle, resume_at, Answer, RouteRequest, Step};
use markdown_remarkable::sanitize::{
    is_safe_link_target, sanitize_events, sanitize_link_target, strip_html_comments, CleanEvent,
};

fn chars(s: &str) -> Vec<char> {
    s.chars().collect()
}

#[test]
fn hashes_are_the_first_digits_of_sha_256() {
    assert_eq!(hash_source("# Title"), "79aeaf7ba450cdab");
    assert_eq!(hash_source("メモ"), "99fa5c96e07ec49d");
    assert_eq!(blocks("# Title\n")[0].hash, "79aeaf7ba450cdab");
}

#[test]
fn every_anchor_has_the_hash_of_its_source_and_ascending_lines() {
    let md = "---\na: b\n---\n# メモ\n\n- 一\n  - 二\n- 三\n\n| a | b |\n|---|---|\n| 1 | 2 |\n";
    let found = anchors(md);
    assert_eq!(found.len(), 8);
    for anchor in &found {
        assert_eq!(anchor.hash, hash_source(&anchor.source));
        assert!(anchor.excerpt.chars().count() <= 80);
        assert!(anchor.line_start <= anchor.line_end);
        assert!(anchor.line_start > 3, "{anchor:?}");
    }
}

#[test]
fn every_anchor_but_a_block_follows_its_parent() {
    let md = "# H\n\n- a\n  - b\n    - c\n\n> - d\n\n| x |\n|---|\n| 1 |\n";
    for (at, anchor) in anchors(md).iter().enumerate() {
        match anchor.parent {
            None => assert_eq!(anchor.kind, AnchorKind::Block),
            Some(parent) => {
                assert_ne!(anchor.kind, AnchorKind::Block);
                assert!(parent < at);
            }
        }
    }
}

#[test]
fn frontmatter_is_neither_rendered_nor_an_anchor() {
    let md = "---\ntitle: Secret\n---\n# Shown\n";
    assert_eq!(frontmatter(&chars(md)), md.find("# Shown").unwrap());
    let html = to_html(md);
    assert!(!html.contains("Secret"));
    assert!(html.contains("<h1>Shown</h1>"));
    let found = blocks(md);
    assert_eq!(found.len(), 1);
    assert_eq!(found[0].source, "# Shown");
    assert_eq!((found[0].line_start, found[0].line_end), (4, 4));
}

#[test]
fn frontmatter_ends_at_three_dots_or_dashes_and_may_use_crlf() {
    assert_eq!(frontmatter(&chars("---\na\n...\nrest")), 10);
    assert_eq!(frontmatter(&chars("---\r\na\r\n---\r\nrest")), 13);
    assert_eq!(frontmatter(&chars("---\n---")), 7);
    assert_eq!(frontmatter(&chars("---  \na\n--- \nrest")), 13);
}

#[test]
fn what_only_looks_like_frontmatter_stays() {
    assert_eq!(frontmatter(&chars("")), 0);
    assert_eq!(frontmatter(&chars("---")), 0);
    assert_eq!(frontmatter(&chars("---\nnever closed\n")), 0);
    assert_eq!(frontmatter(&chars("\n---\na\n---\n")), 0);
    assert_eq!(frontmatter(&chars("----\na\n---\n")), 0);
    assert_eq!(frontmatter(&chars("text\n---\na\n---\n")), 0);
    assert_eq!(blocks("---\n\ntext\n")[0].source, "---");
}

#[test]
fn bytes_belong_to_the_characters_that_begin_before_them() {
    let text = chars("aé三😀b");
    let offsets = byte_offsets(&text);
    assert_eq!(offsets, vec![0, 1, 3, 6, 10, 11]);
    for (index, offset) in offsets.iter().enumerate() {
        assert_eq!(char_at_byte(&text, &offsets, *offset), index);
    }
    assert_eq!(char_at_byte(&text, &offsets, 4), 3);
    assert_eq!(char_at_byte(&text, &offsets, 99), 5);
}

#[test]
fn events_carry_the_characters_they_come_from() {
    let md = chars("# 三番目\n\n**太**字\n");
    let events = read_events(&md);
    let slices: Vec<String> = events
        .iter()
        .filter(|e| matches!(e.shape, Shape::Text(_)))
        .map(|e| md[e.start..e.end].iter().collect())
        .collect();
    assert_eq!(slices, vec!["三番目", "太", "字"]);
}

/// The alignments of the table below.
const COLUMNS: [Align; 4] = [Align::Left, Align::Center, Align::Right, Align::Standard];

#[test]
fn events_say_which_elements_they_open_and_close() {
    let md = "| a | b | c | d |\n|:--|:-:|--:|---|\n| 1 | 2 | 3 | 4 |\n\n[l](t) ![i](s)\n\n<div>\n";
    let events = read_events(&chars(md));
    let has = |wanted: fn(&Shape) -> bool| events.iter().any(|e| wanted(&e.shape));
    assert!(has(
        |s| matches!(s, Shape::Start(TagShape::Table(a)) if a[..] == COLUMNS)
    ));
    assert!(has(|s| matches!(s, Shape::Start(TagShape::TableHead))));
    assert!(has(|s| matches!(s, Shape::Start(TagShape::TableRow))));
    assert!(has(|s| matches!(s, Shape::Start(TagShape::TableCell))));
    assert!(has(|s| matches!(s, Shape::End(EndShape::Table))));
    assert!(has(
        |s| matches!(s, Shape::Start(TagShape::Link(t)) if t == "t")
    ));
    assert!(has(
        |s| matches!(s, Shape::Start(TagShape::Image(t)) if t == "s")
    ));
    assert!(has(|s| matches!(s, Shape::Start(TagShape::HtmlBlock))));
    assert!(has(|s| matches!(s, Shape::End(EndShape::HtmlBlock))));
    assert!(has(|s| matches!(s, Shape::Html(t) if t == "<div>\n")));
}

#[test]
fn a_document_and_its_events_come_to_the_same() {
    let md = "# H\n\n- a *b*\n- c\n\n| x |\n|---|\n| 1 |\n";
    let text = chars(md);
    let events = read_events(&text);
    assert_eq!(anchors_in(&text, &events), anchors(md));
    assert_eq!(html_in(&text, &events, false), to_html(md));
}

#[test]
fn the_html_of_an_item_is_written_as_it_is_said() {
    let block = hash_source("- one");
    assert_eq!(
        to_html("- one\n"),
        format!(
            "<div class=\"blk\" data-kind=\"block\" data-hash=\"{block}\" \
             data-line-start=\"1\" data-line-end=\"1\" data-excerpt=\"one\"><ul>\n\
             <li class=\"anchor\" data-kind=\"item\" data-hash=\"{block}\" \
             data-line-start=\"1\" data-line-end=\"1\" data-excerpt=\"one\">one</li>\n\
             </ul>\n</div>\n"
        )
    );
}

#[test]
fn comments_are_taken_out_of_raw_html() {
    let stripped = |s: &str| strip_html_comments(&chars(s));
    assert_eq!(stripped("a<!-- x -->b"), "ab");
    assert_eq!(stripped("<!--x--><!--y-->z"), "z");
    assert_eq!(stripped("a<!-- never closed"), "a");
    assert_eq!(stripped("a --> b"), "a --> b");
    assert_eq!(stripped("<!--->x-->y"), "y");
    assert_eq!(stripped("<!<!-- -->--"), "<!--");
}

#[test]
fn only_fragments_relative_references_and_allowed_schemes_are_safe() {
    for safe in [
        "#", "#x", " #x", "", "a.md", "./a", "/a", "a/b:c", "a?b:c", "a#b:c", "HTTP://x",
        "https://x", "MailTo:a@b", "\u{a0}http://x",
    ] {
        assert!(is_safe_link_target(&chars(safe)), "{safe:?}");
    }
    for unsafe_target in [
        "//x", " //x", "javascript:x", "JAVASCRIPT:x", "data:x", "file:///x", ":x", "httpx:y",
        "http\u{0}:x",
    ] {
        assert!(!is_safe_link_target(&chars(unsafe_target)), "{unsafe_target:?}");
    }
}

#[test]
fn targets_are_trimmed_replaced_or_sent_to_the_asset_route() {
    assert_eq!(sanitize_link_target(" https://x ", false, true), "https://x");
    assert_eq!(sanitize_link_target("data:x", true, true), "#");
    assert_eq!(sanitize_link_target("a b.png", true, false), "a b.png");
    assert_eq!(sanitize_link_target("a b.png", false, true), "a b.png");
    assert_eq!(
        sanitize_link_target("a b.png", true, true),
        "/asset?p=a%20b.png"
    );
    assert_eq!(
        sanitize_link_target("imgs/写.png?x=1&y", true, true),
        "/asset?p=imgs/%E5%86%99.png%3Fx%3D1%26y"
    );
    assert_eq!(sanitize_link_target("a%20b.png", true, true), "/asset?p=a%20b.png");
    assert_eq!(sanitize_link_target("https://x/a.png", true, true), "https://x/a.png");
    assert_eq!(sanitize_link_target("#x", true, true), "#x");
    assert_eq!(sanitize_link_target("", true, true), "");
}

#[test]
fn clean_events_hold_no_raw_html_and_no_unsafe_target() {
    let md = "a <b>c</b> <!-- d --> [e](javascript:f) ![g](h.png)\n\n<script>\ni\n</script>\n";
    let events = read_events(&chars(md));
    let clean = sanitize_events(&events, true);
    assert!(!clean.is_empty());
    for event in &clean {
        match event {
            CleanEvent::Text(text) => assert!(!text.contains("<!--")),
            CleanEvent::Retarget(_, target) => assert!(is_safe_link_target(&chars(target))),
            CleanEvent::Keep(kept) => assert!(!matches!(
                kept.shape,
                Shape::Html(_)
                    | Shape::InlineHtml(_)
                    | Shape::Start(TagShape::Link(_))
                    | Shape::Start(TagShape::Image(_))
            )),
        }
    }
    let html = to_html_with(md, true);
    assert!(html.contains("href=\"#\""));
    assert!(html.contains("src=\"/asset?p=h.png\""));
    assert!(!to_html(md).contains("/asset"));
}

#[test]
fn an_image_beside_the_document_is_asked_for_by_its_path() {
    for (dest, path) in [
        ("photo.png", "photo.png"),
        ("./photo.png", "photo.png"),
        (".//imgs/./photo.png", "imgs/photo.png"),
        ("imgs/写真 1.png", "imgs/写真 1.png"),
        ("a&b=c?d.png", "a&b=c?d.png"),
        ("a%20b.png", "a b.png"),
        ("./%E5%86%99.png", "写.png"),
    ] {
        let url = sanitize_link_target(dest, true, true);
        let req = RouteRequest {
            method: "GET",
            path: &url,
            headers: &[],
            body: &[],
        };
        let mut step = handle(&req, Some("/docs/notes.md"), 0, false, false, None, None);
        let mut asked = Vec::new();
        for answer in ["/docs", "/docs/file.png"] {
            match step {
                Step::Need(need, pending) => {
                    if let markdown_remarkable::routes::Need::Canonicalize(path) = need {
                        asked.push(path);
                    }
                    step = resume_at(pending, Answer::Text(Some(answer.to_string())), "now");
                }
                Step::Done(reply, _) => panic!("{}", reply.status),
            }
        }
        assert_eq!(asked, vec!["/docs".to_string(), format!("/docs/{path}")]);
    }
}

#[test]
fn encoding_keeps_what_a_place_allows() {
    assert_eq!(percent_encode("メ.md", Place::Header), "%E3%83%A1.md");
    assert_eq!(percent_encode("a b%\u{7f}\n", Place::Header), "a b%25%7F%0A");
    assert_eq!(percent_encode("a-b_c~d.e/f%", Place::Query), "a-b_c~d.e/f%");
    assert_eq!(percent_encode("a b+c", Place::Query), "a%20b%2Bc");
}

#[test]
fn pages_load_remote_images_only_where_they_may() {
    let closed = page("T", "", None);
    assert!(closed.contains("img-src data: 'self';"));
    assert!(!closed.contains("http: https:"));
    let open = page_with("T", "", None, true, false);
    assert!(open.contains("img-src data: 'self' http: https:;"));
}

#[test]
fn pages_say_how_they_are_shown() {
    assert!(page("T", "", None).contains("\n<body>\n"));
    assert!(page("T", "", Some(1)).contains("<body data-mode=\"native\">"));
    assert!(page_with("T", "", Some(1), false, true).contains("<body data-mode=\"browser\">"));
    assert!(page("it's", "", None).contains("<title>it&#39;s</title>"));
}

#[test]
fn footnotes_are_counted_anew_in_each_block() {
    let html = to_html("One[^a].\n\nTwo[^b].\n\n[^a]: A\n\n[^b]: B\n");
    assert_eq!(html.matches("<a href=\"#a\">1</a>").count(), 1);
    assert_eq!(html.matches("<a href=\"#b\">1</a>").count(), 1);
}

#[test]
fn a_checkbox_is_stripped_behind_a_marker_only() {
    for (line, left) in [
        ("- [x] foo", "foo"),
        ("  12) [ ] foo", "foo"),
        ("+ foo", "foo"),
        ("[x] foo", "[x] foo"),
        ("  [ ] foo", "[ ] foo"),
        ("12 [X] foo", "12 [X] foo"),
    ] {
        let line = chars(line);
        assert_eq!(strip_item_marker(&line).iter().collect::<String>(), left);
    }
}

#[test]
fn sources_are_trimmed_and_previews_are_one_line() {
    let md = "```rust\nfn f() {}\n```\n\n- a\n  b\n\n\
              | x | y |\n|---|---|\n| `1` | 2 |\n\nlast\nline  \n";
    let found = anchors(md);
    assert_eq!(found.len(), 7);
    for anchor in &found {
        assert_eq!(anchor.source, anchor.source.trim());
        assert!(!anchor.excerpt.contains('\n'), "{anchor:?}");
    }
    assert_eq!(found[5].excerpt, "`1` | 2");
}

#[test]
fn every_anchor_has_its_element_in_order() {
    let md = "# H\n\n- a\n  - b\n\n| x | y |\n|---|---|\n| [l](u) | 2 |\n\n> - q\n";
    let html = to_html(md);
    let mut rest = html.as_str();
    for anchor in anchors(md) {
        let needle = format!("data-hash=\"{}\"", anchor.hash);
        let at = rest.find(&needle).expect("an element for each anchor");
        rest = &rest[at + needle.len()..];
    }
    assert!(!rest.contains("data-hash="));
}

#[test]
fn a_target_that_was_made_safe_stays_as_it_is() {
    for dest in [" a.md ", "javascript:x", "//host/x", "#top", "https://a.b/c", ""] {
        for image in [false, true] {
            let once = sanitize_link_target(dest, image, false);
            assert_eq!(sanitize_link_target(&once, image, false), once);
        }
    }
}

#[test]
fn parents_lead_to_the_last_block_over_items_alone() {
    let mut md = String::from("# H\n\n| a |\n|---|\n| [b](c) |\n\n");
    for level in 0..70 {
        md.push_str(&"  ".repeat(level));
        md.push_str(&format!("- item {level}\n"));
    }
    let found = anchors(&md);
    let mut deepest = 0;
    for (i, anchor) in found.iter().enumerate() {
        let mut at = i;
        let mut levels = 0;
        while let Some(parent) = found[at].parent {
            assert!(found[parent].kind != AnchorKind::Row, "{anchor:?}");
            at = parent;
            levels += 1;
        }
        let last = (0..=i).rev().find(|&k| found[k].kind == AnchorKind::Block);
        assert_eq!(Some(at), last);
        deepest = deepest.max(levels);
    }
    assert_eq!(deepest, 64);
}

#[test]
fn every_text_of_the_parse_stands_in_one_block() {
    let md = "# one\n\ntwo *three*\n\n> four\n>\n> - five\n\n---\n\n| six |\n|---|\n| seven |\n";
    let html = to_html(md);
    for event in read_events(&chars(md)) {
        if let Shape::Text(text) = event.shape {
            let shown = format!(">{text}");
            let count = html.matches(shown.trim_end()).count();
            assert!(count == 1 || text.contains("two"), "{text:?}: {html}");
        }
    }
    assert_eq!(html.matches("two <em>three</em>").count(), 1);
}
