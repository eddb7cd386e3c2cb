use markdown_remarkable::render::{
    anchors, blocks, page, to_html, Anchor, AnchorKind, MAX_ANCHOR_DEPTH,
};
use pulldown_cmark::{html, Options, Parser};

#[test]
fn renders_headings() {
    let html = to_html("# Title\n\n## Subtitle");
    assert!(html.contains("<h1>Title</h1>"));
    assert!(html.contains("<h2>Subtitle</h2>"));
}

#[test]
fn renders_emphasis() {
    let html = to_html("*em* and **strong**");
    assert!(html.contains("<em>em</em>"));
    assert!(html.contains("<strong>strong</strong>"));
}

#[test]
fn renders_code_blocks() {
    let html = to_html("```\nlet x = 1;\n```");
    assert!(html.contains("<pre><code>"));
    assert!(html.contains("let x = 1;"));
}

#[test]
fn renders_tables() {
    let html = to_html("| a | b |\n|---|---|\n| 1 | 2 |\n");
    assert!(html.contains("<table>"));
    assert!(html.contains("<th>a</th>"));
    assert!(html.contains("<td>1</td>"));
}

#[test]
fn renders_strikethrough() {
    let html = to_html("~~gone~~");
    assert!(html.contains("<del>gone</del>"));
}

#[test]
fn renders_task_lists() {
    let html = to_html("- [ ] todo\n- [x] done\n");
    assert!(html.contains(r#"type="checkbox""#));
    assert!(html.contains("checked"));
}

#[test]
fn renders_footnotes() {
    let html = to_html("Body text[^1].\n\n[^1]: A note.\n");
    assert!(html.contains("footnote-reference"));
    assert!(html.contains("footnote-definition"));
}

#[test]
fn escapes_raw_html_instead_of_passing_it_through() {
    let html = to_html("<script>alert(1)</script>");
    assert!(html.contains("&lt;script&gt;"));
    assert!(!html.contains("<script>"));
}

#[test]
fn escapes_inline_raw_html() {
    let html = to_html("before <b>bold</b> after");
    assert!(html.contains("&lt;b&gt;"));
    assert!(!html.contains("<b>"));
}

#[test]
fn discards_html_comments() {
    let html = to_html("<!-- x -->\n\ntext");
    assert!(!html.contains("x -->"));
    assert!(!html.contains("<!--"));
    assert!(html.contains("text"));
}

#[test]
fn discards_inline_html_comments() {
    let html = to_html("before <!-- secret --> after");
    assert!(!html.contains("secret"));
    assert!(!html.contains("<!--"));
}

#[test]
fn discards_multiline_html_comments_entirely() {
    let html = to_html("<!--\nsecret\n-->\n\ntext");
    assert!(!html.contains("secret"));
    assert!(!html.contains("<!--"));
    assert!(!html.contains("-->"));
    assert!(html.contains("text"));
}

#[test]
fn keeps_real_content_sharing_a_line_with_a_comment() {
    let html = to_html("<!-- secretword --> visible\n");
    assert!(!html.contains("secretword"));
    assert!(!html.contains("<!--"));
    assert!(html.contains("visible"));
}

#[test]
fn discards_crlf_html_comments() {
    let html = to_html("<!--\r\nsecret\r\n-->\r\n\r\ntext");
    assert!(!html.contains("secret"));
    assert!(!html.contains("<!--"));
    assert!(html.contains("text"));
}

#[test]
fn renders_ordinary_html_blocks_as_escaped_text() {
    let html = to_html("<div>x</div>\n");
    assert!(html.contains("&lt;div&gt;x&lt;/div&gt;"));
    assert!(!html.contains("<div>x</div>"));
}

#[test]
fn neutralizes_javascript_link_target() {
    let html = to_html("[x](javascript:alert(1))");
    assert!(!html.contains("javascript:"));
    assert!(html.contains("href=\"#\""));
}

#[test]
fn neutralizes_data_link_target() {
    let html = to_html("[y](data:text/html,alert(1))");
    assert!(!html.contains("data:"));
    assert!(html.contains("href=\"#\""));
}

#[test]
fn neutralizes_javascript_reference_link_target() {
    let html = to_html("[z][r]\n\n[r]: JaVaScRiPt:alert(1)\n");
    assert!(!html.to_lowercase().contains("javascript:"));
    assert!(html.contains("href=\"#\""));
}

#[test]
fn neutralizes_javascript_image_target() {
    let html = to_html("![i](javascript:alert(1))");
    assert!(!html.contains("javascript:"));
    assert!(html.contains("src=\"#\""));
}

#[test]
fn neutralizes_link_target_with_surrounding_whitespace_and_mixed_case() {
    let html = to_html("[w]( JAVASCRIPT:x)");
    assert!(!html.to_lowercase().contains("javascript:"));
    assert!(html.contains("href=\"#\""));
}

#[test]
fn neutralizes_protocol_relative_link_target() {
    let html = to_html("[p](//evil.example/x)");
    assert!(!html.contains("evil.example"));
    assert!(html.contains("href=\"#\""));
}

#[test]
fn keeps_allowed_link_schemes_and_relative_paths() {
    assert!(to_html("[a](https://example.com)").contains(r#"href="https://example.com""#));

    let mailto_html = to_html("[b](mailto:a@example.com)");
    assert!(mailto_html.contains("href=\"mailto:"));
    assert!(!mailto_html.contains("href=\"#\""));

    assert!(to_html("[c](#frag)").contains("href=\"#frag\""));
    assert!(to_html("[d](./a.md)").contains(r#"href="./a.md""#));
    assert!(to_html("[e](a/b:c)").contains(r#"href="a/b:c""#));
}

#[test]
fn trims_whitespace_from_an_allowed_link_target() {
    let html = to_html("[r][ref]\n\n[ref]: < https://example.com >\n");
    assert!(html.contains(r#"href="https://example.com""#));
    assert!(!html.contains("%20"));
}

#[test]
fn page_with_live_includes_version_baseline_and_polling() {
    let html = page("Doc", "<p>hi</p>", Some(7));
    assert!(html.contains(r#"__mdviewVersion="7""#));
    assert!(html.contains("/version"));
    assert!(html.contains("<script>"));
}

#[test]
fn live_reload_script_aborts_stalled_fetches() {
    let html = page("Doc", "<p>hi</p>", Some(1));
    assert!(html.contains("AbortController"));
    assert!(html.contains("signal"));
}

#[test]
fn page_without_live_excludes_version_polling() {
    let html = page("Doc", "<p>hi</p>", None);
    assert!(!html.contains("__mdviewVersion"));
    assert!(!html.contains("/version"));
    assert!(!html.contains("<script>"));
}

#[test]
fn page_with_live_includes_a_two_pane_layout_and_review_script() {
    let html = page("Doc", "<p>hi</p>", Some(1));
    assert!(html.contains(r#"<div class="layout">"#));
    assert!(html.contains(r#"class="markdown-body doc""#));
    assert!(html.contains(r#"<aside class="review" id="review"></aside>"#));
    assert!(html.contains("__mdviewReview"));
}

#[test]
fn page_with_live_includes_the_pane_splitter() {
    let html = page("Doc", "<p>hi</p>", Some(1));
    assert!(html.contains(r#"class="splitter" id="splitter""#));
    let splitter_idx = html.find("id=\"splitter\"").expect("splitter present");
    let doc_idx = html.find("markdown-body doc").expect("doc pane present");
    let aside_idx = html.find("<aside").expect("review aside present");
    assert!(doc_idx < splitter_idx && splitter_idx < aside_idx);
}

#[test]
fn page_with_live_embeds_the_viewer_script_before_live_js() {
    let html = page("Doc", "<p>hi</p>", Some(1));
    assert!(html.contains("__mdviewViewer"));
    let viewer_idx = html.find("__mdviewViewer").expect("viewer script present");
    let live_idx = html.find("AbortController").expect("live.js present");
    assert!(
        viewer_idx < live_idx,
        "viewer.js must be embedded before live.js"
    );
}

#[test]
fn page_without_live_has_no_layout_aside_splitter_or_scripts() {
    let html = page("Doc", "<p>hi</p>", None);
    assert!(!html.contains("class=\"layout\""));
    assert!(!html.contains("<aside"));
    assert!(!html.contains("id=\"splitter\""));
    assert!(!html.contains("__mdviewReview"));
    assert!(!html.contains("__mdviewViewer"));
}

#[test]
fn page_includes_content_security_policy() {
    let html = page("Doc", "<p>hi</p>", None);
    assert!(html.contains("Content-Security-Policy"));
    assert!(html.contains("default-src 'none'"));
}

#[test]
fn page_escapes_title() {
    let html = page("<script>alert(1)</script>", "<p>hi</p>", None);
    assert!(html.contains("&lt;script&gt;alert(1)&lt;/script&gt;"));
    assert!(!html.contains("<title><script>"));
}

#[test]
fn page_embeds_body_unescaped() {
    let html = page("Doc", "<p>hi</p>", None);
    assert!(html.contains("<p>hi</p>"));
}

#[test]
fn splits_paragraphs_headings_and_rules_into_separate_blocks() {
    let md = "# Title\n\nFirst paragraph.\n\n---\n\nSecond paragraph.\n";
    let blocks = blocks(md);
    assert_eq!(blocks.len(), 4);
    assert_eq!(blocks[0].source, "# Title");
    assert_eq!(blocks[1].source, "First paragraph.");
    assert_eq!(blocks[2].source, "---");
    assert_eq!(blocks[3].source, "Second paragraph.");
}

#[test]
fn a_list_is_a_single_block_regardless_of_item_count() {
    let md = "- one\n- two\n- three\n";
    let blocks = blocks(md);
    assert_eq!(blocks.len(), 1);
    assert_eq!(blocks[0].source, "- one\n- two\n- three");
}

#[test]
fn a_table_is_a_single_block() {
    let md = "| a | b |\n|---|---|\n| 1 | 2 |\n";
    let blocks = blocks(md);
    assert_eq!(blocks.len(), 1);
    assert!(blocks[0].source.starts_with("| a | b |"));
}

#[test]
fn a_blockquote_is_a_single_block() {
    let md = "> line one\n> line two\n";
    let blocks = blocks(md);
    assert_eq!(blocks.len(), 1);
    assert_eq!(blocks[0].source, "> line one\n> line two");
}

#[test]
fn a_fenced_code_block_is_a_single_block() {
    let md = "```rust\nlet x = 1;\nlet y = 2;\n```\n";
    let blocks = blocks(md);
    assert_eq!(blocks.len(), 1);
    assert!(blocks[0].source.starts_with("```rust"));
    assert!(blocks[0].source.ends_with("```"));
}

#[test]
fn a_raw_html_block_is_a_single_block() {
    let md = "before\n\n<div>\nraw\n</div>\n\nafter\n";
    let blocks = blocks(md);
    assert_eq!(blocks.len(), 3);
    assert_eq!(blocks[0].source, "before");
    assert!(blocks[1].source.contains("<div>"));
    assert_eq!(blocks[2].source, "after");
}

#[test]
fn blocks_preserve_document_order() {
    let md = "# H\n\npara\n\n- li\n\n```\ncode\n```\n";
    let blocks = blocks(md);
    assert_eq!(blocks.len(), 4);
    assert_eq!(blocks[0].source, "# H");
    assert_eq!(blocks[1].source, "para");
    assert!(blocks[2].source.starts_with("- li"));
    assert!(blocks[3].source.starts_with("```"));
}

#[test]
fn hash_is_stable_for_identical_input() {
    let md = "# Title\n\nSome text.\n";
    let first = blocks(md);
    let second = blocks(md);
    assert_eq!(first.len(), second.len());
    for (a, b) in first.iter().zip(second.iter()) {
        assert_eq!(a.hash, b.hash);
    }
}

#[test]
fn hash_changes_when_source_changes_by_one_character() {
    let a = blocks("Some text.")[0].hash.clone();
    let b = blocks("Some text!")[0].hash.clone();
    assert_ne!(a, b);
}

#[test]
fn hash_is_16_lowercase_hex_characters() {
    let block = &blocks("# Title\n")[0];
    assert_eq!(block.hash.len(), 16);
    assert!(block.hash.bytes().all(|b| b.is_ascii_hexdigit()));
    assert_eq!(block.hash, block.hash.to_lowercase());
}

#[test]
fn identical_blocks_hash_the_same() {
    let blocks = blocks("Same text.\n\nSame text.\n");
    assert_eq!(blocks.len(), 2);
    assert_eq!(blocks[0].hash, blocks[1].hash);
}

#[test]
fn excerpt_is_the_first_line_truncated_to_80_chars() {
    let long_line = "x".repeat(120);
    let md = format!("{long_line}\n");
    let block = &blocks(&md)[0];
    assert_eq!(block.excerpt.chars().count(), 80);
    assert_eq!(block.excerpt, "x".repeat(80));
}

#[test]
fn heading_excerpt_is_the_heading_line_itself() {
    let block = &blocks("## Design notes\n")[0];
    assert_eq!(block.excerpt, "## Design notes");
}

#[test]
fn code_block_excerpt_skips_the_fence_line() {
    let block = &blocks("```rust\nlet x = 1;\n```\n")[0];
    assert_eq!(block.excerpt, "let x = 1;");
}

#[test]
fn line_start_and_line_end_are_computed_per_block() {
    let md = "# Title\n\nLine 1\nLine 2\nLine 3\n\n```\ncode line\n```\n";
    let blocks = blocks(md);
    assert_eq!(blocks.len(), 3);

    assert_eq!(blocks[0].source, "# Title");
    assert_eq!(blocks[0].line_start, 1);
    assert_eq!(blocks[0].line_end, 1);

    assert_eq!(blocks[1].source, "Line 1\nLine 2\nLine 3");
    assert_eq!(blocks[1].line_start, 3);
    assert_eq!(blocks[1].line_end, 5);

    assert!(blocks[2].source.starts_with("```"));
    assert_eq!(blocks[2].line_start, 7);
    assert_eq!(blocks[2].line_end, 9);
}

#[test]
fn line_numbers_are_correct_with_crlf_line_endings() {
    let md = "# Title\r\n\r\nLine 1\r\nLine 2\r\nLine 3\r\n";
    let blocks = blocks(md);
    assert_eq!(blocks.len(), 2);

    assert_eq!(blocks[0].line_start, 1);
    assert_eq!(blocks[0].line_end, 1);

    assert_eq!(blocks[1].line_start, 3);
    assert_eq!(blocks[1].line_end, 5);
}

fn block_level_hashes(html: &str) -> Vec<&str> {
    let marker = "data-kind=\"block\" data-hash=\"";
    html.match_indices(marker)
        .map(|(idx, _)| {
            let rest = &html[idx + marker.len()..];
            &rest[..rest.find('"').expect("closing quote")]
        })
        .collect()
}

#[test]
fn to_html_wraps_every_block_in_a_data_hash_div_matching_blocks() {
    let md = "# H\n\npara\n\n- li\n\n```\ncode\n```\n";
    let expected = blocks(md);
    let html = to_html(md);

    let found_hashes = block_level_hashes(&html);

    assert_eq!(found_hashes.len(), expected.len());
    for (found, block) in found_hashes.iter().zip(expected.iter()) {
        assert_eq!(*found, block.hash);
    }
}

#[test]
fn to_html_still_contains_expected_fragment_content_when_wrapped() {
    let html = to_html("# Hello\n");
    assert!(html.contains("<h1>Hello</h1>"));
    assert!(html.contains("class=\"blk\""));
}

#[test]
fn to_html_includes_data_line_start_and_data_line_end_attributes() {
    let html = to_html("# Title\n\nLine 1\nLine 2\nLine 3\n");
    assert!(html.contains("data-line-start=\"1\" data-line-end=\"1\""));
    assert!(html.contains("data-line-start=\"3\" data-line-end=\"5\""));
}

#[test]
fn to_html_includes_an_escaped_data_excerpt_attribute() {
    let html = to_html("Has <angle> & amp\n");
    assert!(html.contains("data-excerpt=\"Has &lt;angle&gt; &amp; amp\""));
}

#[test]
fn data_excerpt_never_leaks_a_neutralized_javascript_link_target() {
    let html = to_html("[click me](javascript:alert(1))\n");
    assert!(!html.contains("javascript:"));
    assert!(html.contains("data-excerpt=\"click me\""));
}

#[test]
fn data_excerpt_never_leaks_a_discarded_html_comment() {
    let html = to_html("<!-- secretword --> visible text\n");
    assert!(!html.contains("secretword"));
    assert!(html.contains("data-excerpt=\"visible text\""));
}

#[test]
fn blocks_and_to_html_agree_on_a_document_with_nested_and_adjacent_block_types() {
    let md = "\
Body text[^1].

[^1]: A footnote definition with some text.

- item one
  ```
  code fence inside a list item
  ```
- item two

> quoted intro
> - quoted item one
> - quoted item two

| a | b |
|---|---|
| 1 | 2 |

---

final paragraph
";
    let expected = blocks(md);

    assert!(
        expected.iter().any(|b| b.source.starts_with("[^1]:")),
        "no footnote-definition block in {expected:#?}"
    );
    assert!(
        expected
            .iter()
            .any(|b| b.source.starts_with('-') && b.source.contains("```")),
        "no list-with-nested-code-fence block in {expected:#?}"
    );
    assert!(
        expected
            .iter()
            .any(|b| b.source.starts_with('>') && b.source.contains("- quoted")),
        "no blockquote-with-nested-list block in {expected:#?}"
    );
    assert!(
        expected.iter().any(|b| b.source.starts_with('|')),
        "no table block in {expected:#?}"
    );
    assert!(
        expected.iter().any(|b| b.source == "---"),
        "no thematic-break block in {expected:#?}"
    );

    let html = to_html(md);
    let found_hashes = block_level_hashes(&html);

    assert_eq!(found_hashes.len(), expected.len());
    for (found, block) in found_hashes.iter().zip(expected.iter()) {
        assert_eq!(*found, block.hash);
    }
}

#[test]
fn anchors_include_blocks_items_and_rows_in_document_order() {
    let md = "- one\n- two\n\n| a | b |\n|---|---|\n| 1 | 2 |\n";
    let anchors = anchors(md);
    let kinds: Vec<AnchorKind> = anchors.iter().map(|a| a.kind).collect();
    assert_eq!(
        kinds,
        vec![
            AnchorKind::Block,
            AnchorKind::Item,
            AnchorKind::Item,
            AnchorKind::Block,
            AnchorKind::Row,
            AnchorKind::Row,
        ]
    );
}

#[test]
fn item_anchors_have_the_enclosing_block_as_parent() {
    let md = "- one\n- two\n";
    let anchors = anchors(md);
    assert_eq!(anchors[0].kind, AnchorKind::Block);
    assert_eq!(anchors[1].parent, Some(0));
    assert_eq!(anchors[2].parent, Some(0));
}

#[test]
fn nested_item_anchors_have_the_immediately_enclosing_item_as_parent() {
    let md = "- outer\n  - middle\n    - inner\n";
    let anchors = anchors(md);
    assert_eq!(anchors.len(), 4);
    let block_idx = anchors
        .iter()
        .position(|a| a.kind == AnchorKind::Block)
        .expect("block anchor");
    let outer = anchors
        .iter()
        .position(|a| a.excerpt == "outer")
        .expect("outer item");
    let middle = anchors
        .iter()
        .position(|a| a.excerpt == "middle")
        .expect("middle item");
    let inner = anchors
        .iter()
        .position(|a| a.excerpt == "inner")
        .expect("inner item");
    assert_eq!(anchors[outer].parent, Some(block_idx));
    assert_eq!(anchors[middle].parent, Some(outer));
    assert_eq!(anchors[inner].parent, Some(middle));
}

#[test]
fn row_anchors_have_the_table_block_as_parent() {
    let md = "| a | b |\n|---|---|\n| 1 | 2 |\n| 3 | 4 |\n";
    let anchors = anchors(md);
    assert_eq!(anchors[0].kind, AnchorKind::Block);
    for row in &anchors[1..] {
        assert_eq!(row.kind, AnchorKind::Row);
        assert_eq!(row.parent, Some(0));
    }
}

#[test]
fn item_excerpt_strips_bullet_task_and_ordered_markers() {
    let md = "- 三番目の項目\n- [ ] todo item\n- [x] done item\n";
    let found_anchors = anchors(md);
    let items: Vec<&str> = found_anchors
        .iter()
        .filter(|a| a.kind == AnchorKind::Item)
        .map(|a| a.excerpt.as_str())
        .collect();
    assert_eq!(items, vec!["三番目の項目", "todo item", "done item"]);

    let ordered_anchors = anchors("1. first\n2. second\n");
    let ordered_items: Vec<&str> = ordered_anchors
        .iter()
        .filter(|a| a.kind == AnchorKind::Item)
        .map(|a| a.excerpt.as_str())
        .collect();
    assert_eq!(ordered_items, vec!["first", "second"]);
}

#[test]
fn row_excerpt_joins_cells_with_a_pipe_separator() {
    let md = "| 値1 | 値2 | 値3 |\n|---|---|---|\n| a | b | c |\n";
    let anchors = anchors(md);
    let rows: Vec<&str> = anchors
        .iter()
        .filter(|a| a.kind == AnchorKind::Row)
        .map(|a| a.excerpt.as_str())
        .collect();
    assert_eq!(rows, vec!["値1 | 値2 | 値3", "a | b | c"]);
}

#[test]
fn item_and_row_hashes_use_the_same_function_as_block_hashes() {
    let found = anchors("- same text\n");
    let block_hash = &found
        .iter()
        .find(|a| a.kind == AnchorKind::Block)
        .unwrap()
        .hash;
    let item_hash = &found
        .iter()
        .find(|a| a.kind == AnchorKind::Item)
        .unwrap()
        .hash;
    assert_eq!(block_hash, item_hash);
}

#[test]
fn item_line_numbers_are_computed_per_item() {
    let md = "- one\n- two\n- three\n";
    let anchors = anchors(md);
    let items: Vec<&Anchor> = anchors
        .iter()
        .filter(|a| a.kind == AnchorKind::Item)
        .collect();
    assert_eq!(items[0].line_start, 1);
    assert_eq!(items[0].line_end, 1);
    assert_eq!(items[1].line_start, 2);
    assert_eq!(items[2].line_start, 3);
}

#[test]
fn row_line_numbers_skip_the_delimiter_line() {
    let md = "| a | b |\n|---|---|\n| 1 | 2 |\n| 3 | 4 |\n";
    let anchors = anchors(md);
    let rows: Vec<&Anchor> = anchors
        .iter()
        .filter(|a| a.kind == AnchorKind::Row)
        .collect();
    assert_eq!(rows[0].line_start, 1);
    assert_eq!(rows[1].line_start, 3);
    assert_eq!(rows[2].line_start, 4);
}

#[test]
fn blocks_is_unaffected_by_nested_item_and_row_anchors() {
    let md = "- one\n- two\n\n| a | b |\n|---|---|\n| 1 | 2 |\n";
    let block_list = blocks(md);
    assert_eq!(block_list.len(), 2);
    assert!(block_list[0].source.starts_with("- one"));
    assert!(block_list[1].source.starts_with("| a | b |"));
}

#[test]
fn to_html_wraps_list_items_in_anchor_li_tags() {
    let html = to_html("- one\n- two\n");
    assert!(html.contains(r#"<li class="anchor" data-kind="item""#));
    assert_eq!(html.matches(r#"<li class="anchor""#).count(), 2);
}

#[test]
fn to_html_wraps_table_rows_in_anchor_tr_tags_including_the_header() {
    let html = to_html("| a | b |\n|---|---|\n| 1 | 2 |\n");
    assert!(html.contains(r#"<thead><tr class="anchor" data-kind="row""#));
    assert_eq!(html.matches(r#"<tr class="anchor""#).count(), 2);
    assert!(html.contains("</tr>\n</thead><tbody>\n"));
    assert!(html.contains("</tbody></table>"));
}

#[test]
fn to_html_nested_list_items_each_get_their_own_anchor() {
    let html = to_html("- outer\n  - middle\n    - inner\n");
    assert_eq!(html.matches(r#"data-kind="item""#).count(), 3);
}

#[test]
fn to_html_anchors_and_anchors_agree_on_count_kind_and_order() {
    let md = "\
# Heading

- one
  - nested one
  - nested two
- two

1. first
2. second

- [ ] todo
- [x] done

| a | b |
|---|---|
| 1 | 2 |
| 3 | 4 |

final paragraph
";
    let expected = anchors(md);
    let html = to_html(md);

    let found: Vec<(&str, &str)> = html
        .match_indices("data-kind=\"")
        .map(|(idx, _)| {
            let kind_rest = &html[idx + "data-kind=\"".len()..];
            let kind = &kind_rest[..kind_rest.find('"').expect("closing quote")];
            let hash_marker = "data-hash=\"";
            let hash_idx = kind_rest.find(hash_marker).expect("data-hash follows");
            let hash_rest = &kind_rest[hash_idx + hash_marker.len()..];
            let hash = &hash_rest[..hash_rest.find('"').expect("closing quote")];
            (kind, hash)
        })
        .collect();

    assert_eq!(found.len(), expected.len());
    for ((found_kind, found_hash), anchor) in found.iter().zip(expected.iter()) {
        let expected_kind = match anchor.kind {
            AnchorKind::Block => "block",
            AnchorKind::Item => "item",
            AnchorKind::Row => "row",
        };
        assert_eq!(*found_kind, expected_kind, "anchor: {anchor:#?}");
        assert_eq!(*found_hash, anchor.hash, "anchor: {anchor:#?}");
    }
}

#[test]
fn to_html_table_cells_keep_column_alignment_styling_in_body_rows() {
    let html = to_html("| a | b |\n|:--|--:|\n| 1 | 2 |\n");
    assert!(html.contains(r#"<td style="text-align: left">1</td>"#));
    assert!(html.contains(r#"<td style="text-align: right">2</td>"#));
    assert!(!html.contains("<th>1</th>"));
}

#[test]
fn to_html_keeps_table_alignment_for_a_table_nested_inside_a_blockquote() {
    let html = to_html("> | a | b |\n> |:--|--:|\n> | 1 | 2 |\n");
    assert!(
        html.contains(r#"<td style="text-align: left">1</td>"#),
        "{html}"
    );
    assert!(
        html.contains(r#"<td style="text-align: right">2</td>"#),
        "{html}"
    );
}

#[test]
fn to_html_keeps_table_alignment_for_a_table_nested_inside_a_list_item() {
    let html = to_html("- item\n\n  | a | b |\n  |:--|--:|\n  | 1 | 2 |\n");
    assert!(
        html.contains(r#"<td style="text-align: left">1</td>"#),
        "{html}"
    );
    assert!(
        html.contains(r#"<td style="text-align: right">2</td>"#),
        "{html}"
    );
}

#[test]
fn to_html_task_list_checkboxes_still_render_inside_item_anchors() {
    let html = to_html("- [ ] todo\n- [x] done\n");
    assert!(html.contains(r#"type="checkbox""#));
    assert!(html.contains("checked"));
    assert!(html.contains(r#"<li class="anchor" data-kind="item""#));
}

#[test]
fn to_html_item_data_excerpt_strips_the_marker_and_is_escaped() {
    let html = to_html("- Has <angle> item\n");
    assert!(html.contains(r#"data-kind="item""#));
    let marker = "data-excerpt=\"";
    let idx = html.find(marker).expect("a data-excerpt attribute exists");
    let second = html[idx + marker.len()..]
        .find(marker)
        .map(|rel| idx + marker.len() + rel)
        .expect("a second data-excerpt attribute exists (the item's)");
    let rest = &html[second + marker.len()..];
    let value = &rest[..rest.find('"').expect("closing quote")];
    assert_eq!(value, "Has &lt;angle&gt; item");
}

#[test]
fn item_data_excerpt_never_leaks_a_neutralized_javascript_link_target() {
    let html = to_html("- [click me](javascript:alert(1))\n");
    assert!(!html.contains("javascript:"));
    assert!(html.contains(r#"data-kind="item""#));
    assert!(html.contains("data-excerpt=\"click me\""));
}

#[test]
fn item_data_excerpt_never_leaks_a_discarded_html_comment() {
    let html = to_html("- <!-- secretword --> visible text\n");
    assert!(!html.contains("secretword"));
    assert!(html.contains(r#"data-kind="item""#));
    assert!(html.contains("data-excerpt=\"visible text\""));
}

#[test]
fn to_html_row_data_excerpt_joins_cells() {
    let html = to_html("| 値1 | 値2 |\n|---|---|\n| a | b |\n");
    assert!(html.contains(r#"data-kind="row""#));
    assert!(html.contains("data-excerpt=\"値1 | 値2\""));
    assert!(html.contains("data-excerpt=\"a | b\""));
}

#[test]
fn blk_div_carries_data_kind_block() {
    let html = to_html("# Title\n");
    assert!(html.contains(r#"<div class="blk" data-kind="block""#));
}

fn strip_anchor_wrappers(html: &str) -> String {
    let without_li = replace_tag_open(html, "<li class=\"anchor\"", "<li>");
    let without_tr = replace_tag_open(&without_li, "<tr class=\"anchor\"", "<tr>");
    remove_blk_wrapper_divs(&without_tr)
}

fn remove_blk_wrapper_divs(html: &str) -> String {
    let mut out = String::with_capacity(html.len());
    let mut pos = 0;
    while let Some(rel) = html[pos..].find("<div class=\"blk\"") {
        let open_start = pos + rel;
        out.push_str(&html[pos..open_start]);
        let open_tag_end = open_start
            + html[open_start..]
                .find('>')
                .expect("blk div has a closing '>'")
            + 1;

        let mut depth = 1i32;
        let mut cursor = open_tag_end;
        let close_start = loop {
            let next_open = html[cursor..].find("<div").map(|i| cursor + i);
            let next_close = html[cursor..].find("</div>").map(|i| cursor + i);
            match (next_open, next_close) {
                (Some(o), Some(c)) if o < c => {
                    depth += 1;
                    cursor = o + "<div".len();
                }
                (_, Some(c)) => {
                    depth -= 1;
                    cursor = c + "</div>".len();
                    if depth == 0 {
                        break c;
                    }
                }
                _ => panic!("unbalanced <div> after a blk wrapper in test fixture output"),
            }
        };
        out.push_str(&html[open_tag_end..close_start]);
        pos = close_start + "</div>".len();
        if html[pos..].starts_with('\n') {
            pos += 1;
        }
    }
    out.push_str(&html[pos..]);
    out
}

fn replace_tag_open(html: &str, open_prefix: &str, replacement: &str) -> String {
    let mut out = String::with_capacity(html.len());
    let mut rest = html;
    loop {
        match rest.find(open_prefix) {
            None => {
                out.push_str(rest);
                break;
            }
            Some(idx) => {
                out.push_str(&rest[..idx]);
                let after = &rest[idx..];
                let close = after.find('>').expect("tag has a closing '>'");
                out.push_str(replacement);
                rest = &after[close + 1..];
            }
        }
    }
    out
}

fn strip_all_whitespace(s: &str) -> String {
    s.chars().filter(|c| !c.is_whitespace()).collect()
}

/// The fixtures hold no raw HTML, links or images, so that the plain rendering is
/// what a document comes to without its anchors.
fn assert_to_html_matches_push_html(markdown: &str) {
    let ours_raw = to_html(markdown);
    let ours = strip_all_whitespace(&strip_anchor_wrappers(&ours_raw));

    let options = Options::ENABLE_TABLES
        | Options::ENABLE_STRIKETHROUGH
        | Options::ENABLE_TASKLISTS
        | Options::ENABLE_FOOTNOTES;
    let mut canonical_raw = String::new();
    html::push_html(&mut canonical_raw, Parser::new_ext(markdown, options));
    let canonical = strip_all_whitespace(&canonical_raw);

    assert_eq!(
        ours, canonical,
        "\nmarkdown:\n{markdown}\n\nto_html (stripped):\n{ours_raw}\n\npush_html (canonical):\n{canonical_raw}\n"
    );
}

#[test]
fn to_html_matches_push_html_for_a_tight_list() {
    assert_to_html_matches_push_html("- one\n- two\n- three\n");
}

#[test]
fn to_html_matches_push_html_for_a_loose_list() {
    assert_to_html_matches_push_html("- one\n\n- two\n\n- three\n");
}

#[test]
fn to_html_matches_push_html_for_an_ordered_list_starting_at_five() {
    assert_to_html_matches_push_html("5. five\n6. six\n7. seven\n");
}

#[test]
fn to_html_matches_push_html_for_a_task_list() {
    assert_to_html_matches_push_html("- [ ] todo\n- [x] done\n");
}

#[test]
fn to_html_matches_push_html_for_a_three_level_nested_list() {
    assert_to_html_matches_push_html("- outer\n  - middle\n    - inner\n");
}

#[test]
fn to_html_matches_push_html_for_a_list_inside_a_blockquote() {
    assert_to_html_matches_push_html("> - a\n> - b\n");
}

#[test]
fn to_html_matches_push_html_for_a_list_item_containing_a_code_fence_blockquote_and_table() {
    assert_to_html_matches_push_html(
        "- item with code\n  \
         ```\n  \
         code line\n  \
         ```\n\
         - item with quote\n  \
         > quoted text\n\
         - item with table\n\n  \
         | a | b |\n  \
         |---|---|\n  \
         | 1 | 2 |\n",
    );
}

#[test]
fn to_html_matches_push_html_for_table_alignment() {
    assert_to_html_matches_push_html("| a | b | c |\n|:--|:--:|--:|\n| 1 | 2 | 3 |\n");
}

#[test]
fn to_html_matches_push_html_for_a_list_inside_a_footnote_definition() {
    assert_to_html_matches_push_html(
        "Body text[^1].\n\n[^1]: A note with a list:\n\n    - point one\n    - point two\n",
    );
}

#[test]
fn deeply_nested_lists_do_not_panic_and_stay_within_the_anchor_depth_cap() {
    let mut md = String::new();
    for level in 0..200 {
        md.push_str(&"  ".repeat(level));
        md.push_str("- level\n");
    }

    let html = to_html(&md);
    assert!(!html.is_empty());
    assert!(html.contains("level"));

    let found = anchors(&md);
    let item_count = found.iter().filter(|a| a.kind == AnchorKind::Item).count();
    assert!(
        item_count as u32 <= MAX_ANCHOR_DEPTH,
        "item_count = {item_count}"
    );
}
