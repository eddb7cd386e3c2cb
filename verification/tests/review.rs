use markdown_remarkable::render::{anchors, blocks, AnchorKind};
use markdown_remarkable::review::{
    empty_doc, export, export_markdown, export_path, line_label, load, sidecar_path, unanchored, validate,
    AnchorKindDto, Comment, LoadError, ReviewBlock, ReviewDoc, ReviewError, SidecarRead,
};
use serde_json::Value;

fn text_field(value: &Value, name: &str) -> Option<String> {
    value.get(name)?.as_str().map(str::to_string)
}

fn comments_field(value: &Value, name: &str) -> Option<Vec<Comment>> {
    value
        .get(name)?
        .as_array()?
        .iter()
        .map(|c| {
            Some(Comment {
                id: text_field(c, "id")?,
                text: text_field(c, "text")?,
                created: text_field(c, "created")?,
                updated: text_field(c, "updated")?,
            })
        })
        .collect()
}

fn review_doc(text: &str) -> Option<ReviewDoc> {
    let value: Value = serde_json::from_str(text).ok()?;
    let blocks: Option<Vec<ReviewBlock>> = value
        .get("blocks")?
        .as_array()?
        .iter()
        .map(|b| {
            Some(ReviewBlock {
                hash: text_field(b, "hash")?,
                excerpt: text_field(b, "excerpt")?,
                kind: match b.get("kind").and_then(Value::as_str) {
                    None => AnchorKindDto::default(),
                    Some("block") => AnchorKindDto::Block,
                    Some("item") => AnchorKindDto::Item,
                    Some("row") => AnchorKindDto::Row,
                    Some(_) => return None,
                },
                comments: comments_field(b, "comments")?,
            })
        })
        .collect();
    Some(ReviewDoc {
        version: value.get("version")?.as_u64()? as u32,
        file: text_field(&value, "file")?,
        blocks: blocks?,
        file_comments: comments_field(&value, "file_comments").unwrap_or_default(),
    })
}

fn sidecar(text: &str) -> SidecarRead {
    match review_doc(text) {
        Some(doc) => SidecarRead::Read(doc),
        None => SidecarRead::Malformed,
    }
}

fn comment(id: &str, text: &str) -> Comment {
    Comment {
        id: id.to_string(),
        text: text.to_string(),
        created: "2026-08-22T07:00:00Z".to_string(),
        updated: "2026-08-22T07:00:00Z".to_string(),
    }
}

#[test]
fn sidecar_path_appends_review_json_to_the_full_file_name() {
    let path = sidecar_path("/tmp/notes.md");
    assert_eq!(path, "/tmp/notes.md.review.json");
}

#[test]
fn export_path_replaces_the_extension_with_review_md() {
    let path = export_path("/tmp/notes.md");
    assert_eq!(path, "/tmp/notes.review.md");
}

#[test]
fn loading_a_missing_sidecar_returns_an_empty_document() {
    let doc = load("/docs/notes.md", SidecarRead::Missing).expect("load");
    assert_eq!(doc.version, 1);
    assert_eq!(doc.file, "notes.md");
    assert!(doc.blocks.is_empty());
}

#[test]
fn loading_a_sidecar_with_the_wrong_version_is_an_error() {
    let read = sidecar(r#"{"version":2,"file":"notes.md","blocks":[]}"#);
    let result = load("/docs/notes.md", read);
    assert!(result.is_err());
    assert_eq!(result.unwrap_err(), LoadError::UnsupportedVersion(2));
}

#[test]
fn loading_a_sidecar_written_before_kind_existed_defaults_to_block() {
    let read = sidecar(
        r#"{"version":1,"file":"notes.md","blocks":[{"hash":"0123456789abcdef","excerpt":"x","comments":[]}]}"#,
    );
    let doc = load("/docs/notes.md", read).expect("load");
    assert_eq!(doc.blocks.len(), 1);
    assert_eq!(doc.blocks[0].kind, AnchorKindDto::Block);
}

#[test]
fn loading_a_sidecar_written_before_file_comments_existed_defaults_to_empty() {
    let read = sidecar(r#"{"version":1,"file":"notes.md","blocks":[]}"#);
    let doc = load("/docs/notes.md", read).expect("load");
    assert!(doc.file_comments.is_empty());
}

#[test]
fn loading_malformed_json_is_an_error() {
    let result = load("/docs/notes.md", sidecar("{not valid json"));
    assert!(result.is_err());
    assert_eq!(result.unwrap_err(), LoadError::Malformed);
}

#[test]
fn an_unreadable_sidecar_is_an_error() {
    let result = load("/docs/notes.md", SidecarRead::Unreadable);
    assert_eq!(result.unwrap_err(), LoadError::Unreadable);
}

#[test]
fn validate_accepts_a_well_formed_document() {
    let mut doc = ReviewDoc {
        version: 1,
        file: "notes.md".to_string(),
        blocks: vec![ReviewBlock {
            hash: "0123456789abcdef".to_string(),
            excerpt: "x".to_string(),
            kind: AnchorKindDto::Block,
            comments: vec![comment("c_0123456789abcdef", "ok")],
        }],
        file_comments: Vec::new(),
    };
    assert!(validate(&mut doc).is_ok());
}

#[test]
fn validate_rejects_wrong_version() {
    let mut doc = ReviewDoc {
        version: 2,
        file: "notes.md".to_string(),
        blocks: vec![],
        file_comments: Vec::new(),
    };
    assert!(validate(&mut doc).is_err());
}

#[test]
fn validate_rejects_a_hash_that_is_not_16_hex_chars() {
    let mut doc = ReviewDoc {
        version: 1,
        file: "notes.md".to_string(),
        blocks: vec![ReviewBlock {
            hash: "not-hex".to_string(),
            excerpt: "x".to_string(),
            kind: AnchorKindDto::Block,
            comments: vec![],
        }],
        file_comments: Vec::new(),
    };
    assert!(validate(&mut doc).is_err());
}

#[test]
fn validate_rejects_an_empty_comment_id() {
    let mut doc = ReviewDoc {
        version: 1,
        file: "notes.md".to_string(),
        blocks: vec![ReviewBlock {
            hash: "0123456789abcdef".to_string(),
            excerpt: "x".to_string(),
            kind: AnchorKindDto::Block,
            comments: vec![comment("", "ok")],
        }],
        file_comments: Vec::new(),
    };
    assert!(validate(&mut doc).is_err());
}

#[test]
fn validate_rejects_a_comment_id_not_matching_the_expected_format() {
    let mut doc = ReviewDoc {
        version: 1,
        file: "notes.md".to_string(),
        blocks: vec![ReviewBlock {
            hash: "0123456789abcdef".to_string(),
            excerpt: "x".to_string(),
            kind: AnchorKindDto::Block,
            comments: vec![comment("not-the-right-format", "ok")],
        }],
        file_comments: Vec::new(),
    };
    assert!(validate(&mut doc).is_err());
}

#[test]
fn validate_rejects_uppercase_hex_in_a_comment_id() {
    let mut doc = ReviewDoc {
        version: 1,
        file: "notes.md".to_string(),
        blocks: vec![ReviewBlock {
            hash: "0123456789abcdef".to_string(),
            excerpt: "x".to_string(),
            kind: AnchorKindDto::Block,
            comments: vec![comment("c_0123456789ABCDEF", "ok")],
        }],
        file_comments: Vec::new(),
    };
    assert!(validate(&mut doc).is_err());
}

#[test]
fn validate_accepts_a_well_formed_comment_id() {
    let mut doc = ReviewDoc {
        version: 1,
        file: "notes.md".to_string(),
        blocks: vec![ReviewBlock {
            hash: "0123456789abcdef".to_string(),
            excerpt: "x".to_string(),
            kind: AnchorKindDto::Block,
            comments: vec![comment("c_0123456789abcdef", "ok")],
        }],
        file_comments: Vec::new(),
    };
    assert!(validate(&mut doc).is_ok());
}

#[test]
fn validate_rejects_comment_text_over_64_kib() {
    let mut doc = ReviewDoc {
        version: 1,
        file: "notes.md".to_string(),
        blocks: vec![ReviewBlock {
            hash: "0123456789abcdef".to_string(),
            excerpt: "x".to_string(),
            kind: AnchorKindDto::Block,
            comments: vec![comment("c_0123456789abcdef", &"x".repeat(64 * 1024 + 1))],
        }],
        file_comments: Vec::new(),
    };
    assert!(validate(&mut doc).is_err());
}

#[test]
fn validate_accepts_comment_text_at_exactly_64_kib() {
    let mut doc = ReviewDoc {
        version: 1,
        file: "notes.md".to_string(),
        blocks: vec![ReviewBlock {
            hash: "0123456789abcdef".to_string(),
            excerpt: "x".to_string(),
            kind: AnchorKindDto::Block,
            comments: vec![comment("c_0123456789abcdef", &"x".repeat(64 * 1024))],
        }],
        file_comments: Vec::new(),
    };
    assert!(validate(&mut doc).is_ok());
}

#[test]
fn validate_normalizes_excerpt_newlines_to_spaces_and_caps_at_200_chars() {
    let long_excerpt = format!("first\nsecond\r\nthird {}", "x".repeat(250));
    let mut doc = ReviewDoc {
        version: 1,
        file: "notes.md".to_string(),
        blocks: vec![ReviewBlock {
            hash: "0123456789abcdef".to_string(),
            excerpt: long_excerpt,
            kind: AnchorKindDto::Block,
            comments: vec![],
        }],
        file_comments: Vec::new(),
    };
    validate(&mut doc).expect("validate");
    let excerpt = &doc.blocks[0].excerpt;
    assert!(!excerpt.contains('\n'));
    assert!(!excerpt.contains('\r'));
    assert_eq!(excerpt.chars().count(), 200);
    assert!(excerpt.starts_with("first second  third "));
}

#[test]
fn validate_accepts_well_formed_file_comments() {
    let mut doc = ReviewDoc {
        version: 1,
        file: "notes.md".to_string(),
        blocks: vec![],
        file_comments: vec![comment("c_0123456789abcdef", "ok")],
    };
    assert!(validate(&mut doc).is_ok());
}

#[test]
fn validate_rejects_a_malformed_file_comment_id() {
    let mut doc = ReviewDoc {
        version: 1,
        file: "notes.md".to_string(),
        blocks: vec![],
        file_comments: vec![comment("not-the-right-format", "ok")],
    };
    assert!(validate(&mut doc).is_err());
}

#[test]
fn validate_rejects_file_comment_text_over_64_kib() {
    let mut doc = ReviewDoc {
        version: 1,
        file: "notes.md".to_string(),
        blocks: vec![],
        file_comments: vec![comment("c_0123456789abcdef", &"x".repeat(64 * 1024 + 1))],
    };
    assert!(validate(&mut doc).is_err());
}

#[test]
fn validate_rejects_more_than_10_000_comments_combined_across_file_and_blocks() {
    let file_comments: Vec<Comment> = (0..5001)
        .map(|i| comment(&format!("c_{i:016x}"), "x"))
        .collect();
    let block_comments: Vec<Comment> = (5001..10002)
        .map(|i| comment(&format!("c_{i:016x}"), "x"))
        .collect();
    let mut doc = ReviewDoc {
        version: 1,
        file: "notes.md".to_string(),
        blocks: vec![ReviewBlock {
            hash: "0123456789abcdef".to_string(),
            excerpt: "x".to_string(),
            kind: AnchorKindDto::Block,
            comments: block_comments,
        }],
        file_comments,
    };
    assert!(validate(&mut doc).is_err());
}

#[test]
fn validate_accepts_exactly_10_000_total_comments() {
    let file_comments: Vec<Comment> = (0..10_000)
        .map(|i| comment(&format!("c_{i:016x}"), "x"))
        .collect();
    let mut doc = ReviewDoc {
        version: 1,
        file: "notes.md".to_string(),
        blocks: vec![],
        file_comments,
    };
    assert!(validate(&mut doc).is_ok());
}

#[test]
fn validate_rejects_a_document_whose_serialized_size_exceeds_8_mib() {
    let file_comments: Vec<Comment> = (0..200)
        .map(|i| comment(&format!("c_{i:016x}"), &"x".repeat(64 * 1024)))
        .collect();
    let mut doc = ReviewDoc {
        version: 1,
        file: "notes.md".to_string(),
        blocks: vec![],
        file_comments,
    };
    assert!(validate(&mut doc).is_err());
}

#[test]
fn unanchored_finds_hashes_missing_from_the_current_blocks() {
    let doc = ReviewDoc {
        version: 1,
        file: "notes.md".to_string(),
        blocks: vec![
            ReviewBlock {
                hash: "aaaaaaaaaaaaaaaa".to_string(),
                excerpt: "a".to_string(),
                kind: AnchorKindDto::Block,
                comments: vec![comment("c_1", "x")],
            },
            ReviewBlock {
                hash: "bbbbbbbbbbbbbbbb".to_string(),
                excerpt: "b".to_string(),
                kind: AnchorKindDto::Block,
                comments: vec![comment("c_2", "y")],
            },
        ],
        file_comments: Vec::new(),
    };
    let live = anchors("some text that hashes to something else\n");
    let result = unanchored(&doc, &live);
    assert_eq!(result.len(), 2);
    assert!(result.contains(&"aaaaaaaaaaaaaaaa"));
    assert!(result.contains(&"bbbbbbbbbbbbbbbb"));
}

#[test]
fn unanchored_is_empty_when_every_hash_matches() {
    let live = anchors("# Title\n\nbody text\n");
    let doc = ReviewDoc {
        version: 1,
        file: "notes.md".to_string(),
        blocks: live
            .iter()
            .map(|b| ReviewBlock {
                hash: b.hash.clone(),
                excerpt: b.excerpt.clone(),
                kind: AnchorKindDto::Block,
                comments: vec![comment("c_1", "ok")],
            })
            .collect(),
        file_comments: Vec::new(),
    };
    assert!(unanchored(&doc, &live).is_empty());
}

#[test]
fn export_markdown_of_an_empty_document_has_only_the_header() {
    let doc = ReviewDoc {
        version: 1,
        file: "notes.md".to_string(),
        blocks: vec![],
        file_comments: Vec::new(),
    };
    let out = export_markdown("notes.md", "# Hi\n", &doc, "2026-08-22T07:10:00Z");
    assert_eq!(
        out,
        "# Review: notes.md\n\nExported: 2026-08-22T07:10:00Z · 0 comments on 0 blocks\n"
    );
}

#[test]
fn export_markdown_matches_the_expected_layout() {
    let markdown = "## 設計方針\n\nNext paragraph with more than eighty characters so the excerpt truncation actually applies to it here.\n";
    let live = blocks(markdown);
    let heading_hash = live[0].hash.clone();
    let para_hash = live[1].hash.clone();

    let doc = ReviewDoc {
        version: 1,
        file: "notes.md".to_string(),
        blocks: vec![
            ReviewBlock {
                hash: heading_hash,
                excerpt: "## 設計方針".to_string(),
                kind: AnchorKindDto::Block,
                comments: vec![
                    comment("c_1", "ここは根拠が弱い"),
                    comment("c_2", "代替案も書く"),
                ],
            },
            ReviewBlock {
                hash: para_hash,
                excerpt: live[1].excerpt.clone(),
                kind: AnchorKindDto::Block,
                comments: vec![comment("c_3", "…")],
            },
        ],
        file_comments: Vec::new(),
    };

    let out = export_markdown("notes.md", markdown, &doc, "2026-08-22T07:10:00Z");

    let expected = format!(
        "# Review: notes.md\n\n\
         Exported: 2026-08-22T07:10:00Z · 3 comments on 2 blocks\n\n\
         > L1: ## 設計方針\n\n\
         - ここは根拠が弱い\n\
         - 代替案も書く\n\n\
         > L3: {}\n\n\
         - …\n",
        live[1].excerpt
    );
    assert_eq!(out, expected);
}

#[test]
fn export_markdown_puts_file_comments_first_with_a_file_section_and_combined_count() {
    let markdown = "## 設計方針\n\nBody paragraph.\n";
    let live = blocks(markdown);
    let doc = ReviewDoc {
        version: 1,
        file: "notes.md".to_string(),
        blocks: vec![ReviewBlock {
            hash: live[0].hash.clone(),
            excerpt: live[0].excerpt.clone(),
            kind: AnchorKindDto::Block,
            comments: vec![comment("c_1", "設計方針の根拠")],
        }],
        file_comments: vec![comment("c_2", "全体として章立てが前後している")],
    };

    let out = export_markdown("notes.md", markdown, &doc, "2026-08-24T01:00:00Z");
    let expected = "# Review: notes.md\n\n\
         Exported: 2026-08-24T01:00:00Z · 2 comments (1 on the file, 1 on 1 blocks)\n\n\
         > (file): notes.md\n\n\
         - 全体として章立てが前後している\n\n\
         > L1: ## 設計方針\n\n\
         - 設計方針の根拠\n";
    assert_eq!(out, expected);
    let file_idx = out.find("(file)").expect("file section present");
    let block_idx = out.find("L1: ## 設計方針").expect("block section present");
    assert!(file_idx < block_idx);
}

#[test]
fn export_markdown_omits_the_file_section_when_there_are_no_file_comments() {
    let doc = ReviewDoc {
        version: 1,
        file: "notes.md".to_string(),
        blocks: vec![],
        file_comments: Vec::new(),
    };
    let out = export_markdown("notes.md", "# Hi\n", &doc, "2026-08-22T07:10:00Z");
    assert!(!out.contains("(file)"));
    assert!(out.contains("0 comments on 0 blocks"));
    assert!(!out.contains("on the file"));
}

#[test]
fn export_markdown_file_comments_only_has_no_block_sections() {
    let doc = ReviewDoc {
        version: 1,
        file: "notes.md".to_string(),
        blocks: vec![],
        file_comments: vec![comment("c_1", "全体コメント")],
    };
    let out = export_markdown("notes.md", "# Hi\n", &doc, "2026-08-22T07:10:00Z");
    assert_eq!(
        out,
        "# Review: notes.md\n\n\
         Exported: 2026-08-22T07:10:00Z · 1 comments (1 on the file, 0 on 0 blocks)\n\n\
         > (file): notes.md\n\n\
         - 全体コメント\n"
    );
}

#[test]
fn export_markdown_indents_multiline_file_comment_continuation_lines() {
    let doc = ReviewDoc {
        version: 1,
        file: "notes.md".to_string(),
        blocks: vec![],
        file_comments: vec![comment("c_1", "first line\nsecond line")],
    };
    let out = export_markdown("notes.md", "# Hi\n", &doc, "2026-08-22T07:10:00Z");
    assert!(out.contains("- first line\n  second line\n"));
}

#[test]
fn export_markdown_labels_a_multiline_block_with_a_line_range() {
    let markdown = "> line one\n> line two\n";
    let live = blocks(markdown);
    assert_eq!(live[0].line_start, 1);
    assert_eq!(live[0].line_end, 2);
    let doc = ReviewDoc {
        version: 1,
        file: "notes.md".to_string(),
        blocks: vec![ReviewBlock {
            hash: live[0].hash.clone(),
            excerpt: live[0].excerpt.clone(),
            kind: AnchorKindDto::Block,
            comments: vec![comment("c_1", "check this")],
        }],
        file_comments: Vec::new(),
    };

    let out = export_markdown("notes.md", markdown, &doc, "2026-08-22T07:10:00Z");
    assert!(out.contains("> L1-L2: > line one\n\n- check this\n"));
    assert!(!out.contains("line two"));
}

#[test]
fn export_markdown_labels_a_single_line_block_without_a_range() {
    let markdown = "# Heading\n";
    let live = blocks(markdown);
    assert_eq!(live[0].line_start, live[0].line_end);
    let doc = ReviewDoc {
        version: 1,
        file: "notes.md".to_string(),
        blocks: vec![ReviewBlock {
            hash: live[0].hash.clone(),
            excerpt: live[0].excerpt.clone(),
            kind: AnchorKindDto::Block,
            comments: vec![comment("c_1", "ok")],
        }],
        file_comments: Vec::new(),
    };

    let out = export_markdown("notes.md", markdown, &doc, "2026-08-22T07:10:00Z");
    assert!(out.contains("> L1: # Heading\n\n"));
    assert!(!out.contains("L1-L1"));
}

#[test]
fn export_markdown_indents_multiline_comment_continuation_lines() {
    let markdown = "# Heading\n";
    let live = blocks(markdown);
    let doc = ReviewDoc {
        version: 1,
        file: "notes.md".to_string(),
        blocks: vec![ReviewBlock {
            hash: live[0].hash.clone(),
            excerpt: live[0].excerpt.clone(),
            kind: AnchorKindDto::Block,
            comments: vec![comment("c_1", "first line\nsecond line\nthird line")],
        }],
        file_comments: Vec::new(),
    };
    let out = export_markdown("notes.md", markdown, &doc, "2026-08-22T07:10:00Z");
    assert!(out.contains("- first line\n  second line\n  third line\n"));
}

#[test]
fn export_markdown_lists_unanchored_comments_in_their_own_section() {
    let markdown = "# Current heading\n";
    let doc = ReviewDoc {
        version: 1,
        file: "notes.md".to_string(),
        blocks: vec![ReviewBlock {
            hash: "0000000000000000".to_string(),
            excerpt: "旧 excerpt".to_string(),
            kind: AnchorKindDto::Block,
            comments: vec![comment("c_1", "コメント本文")],
        }],
        file_comments: Vec::new(),
    };

    let out = export_markdown("notes.md", markdown, &doc, "2026-08-22T07:10:00Z");
    assert!(out.contains("## Unanchored\n\n"));
    assert!(out.contains("> (not found): 旧 excerpt\n\n"));
    assert!(out.contains("- コメント本文\n"));
    assert!(out.contains("0 comments on 0 blocks (+1 unanchored)"));
}

#[test]
fn export_markdown_omits_the_unanchored_section_when_everything_is_anchored() {
    let markdown = "# Hi\n";
    let live = blocks(markdown);
    let doc = ReviewDoc {
        version: 1,
        file: "notes.md".to_string(),
        blocks: vec![ReviewBlock {
            hash: live[0].hash.clone(),
            excerpt: live[0].excerpt.clone(),
            kind: AnchorKindDto::Block,
            comments: vec![comment("c_1", "ok")],
        }],
        file_comments: Vec::new(),
    };
    let out = export_markdown("notes.md", markdown, &doc, "2026-08-22T07:10:00Z");
    assert!(!out.contains("Unanchored"));
    assert!(!out.contains("unanchored"));
}

#[test]
fn export_markdown_skips_blocks_with_no_comments() {
    let markdown = "# Heading\n\nUncommented paragraph.\n";
    let live = blocks(markdown);
    let doc = ReviewDoc {
        version: 1,
        file: "notes.md".to_string(),
        blocks: vec![ReviewBlock {
            hash: live[0].hash.clone(),
            excerpt: live[0].excerpt.clone(),
            kind: AnchorKindDto::Block,
            comments: vec![comment("c_1", "noted")],
        }],
        file_comments: Vec::new(),
    };
    let out = export_markdown("notes.md", markdown, &doc, "2026-08-22T07:10:00Z");
    assert!(!out.contains("Uncommented paragraph"));
    assert_eq!(out.matches("> L").count(), 1);
}

#[test]
fn export_markdown_orders_sections_by_document_order_not_comment_order() {
    let markdown = "First heading\n\nSecond heading\n";
    let live = blocks(markdown);
    let doc = ReviewDoc {
        version: 1,
        file: "notes.md".to_string(),
        blocks: vec![
            ReviewBlock {
                hash: live[1].hash.clone(),
                excerpt: live[1].excerpt.clone(),
                kind: AnchorKindDto::Block,
                comments: vec![comment("c_2", "second")],
            },
            ReviewBlock {
                hash: live[0].hash.clone(),
                excerpt: live[0].excerpt.clone(),
                kind: AnchorKindDto::Block,
                comments: vec![comment("c_1", "first")],
            },
        ],
        file_comments: Vec::new(),
    };
    let out = export_markdown("notes.md", markdown, &doc, "2026-08-22T07:10:00Z");
    let first_idx = out.find("First heading").expect("first heading present");
    let second_idx = out.find("Second heading").expect("second heading present");
    assert!(first_idx < second_idx);
}

#[test]
fn export_markdown_dedups_a_hash_that_appears_in_multiple_live_blocks() {
    let markdown = "Same text.\n\nSame text.\n\nOther text.\n";
    let live = blocks(markdown);
    assert_eq!(live[0].hash, live[1].hash, "fixture sanity check");

    let doc = ReviewDoc {
        version: 1,
        file: "notes.md".to_string(),
        blocks: vec![ReviewBlock {
            hash: live[0].hash.clone(),
            excerpt: live[0].excerpt.clone(),
            kind: AnchorKindDto::Block,
            comments: vec![comment("c_1", "noted")],
        }],
        file_comments: Vec::new(),
    };
    let out = export_markdown("notes.md", markdown, &doc, "2026-08-22T07:10:00Z");
    assert_eq!(out.matches("> L").count(), 1);
    assert!(out.contains("1 comments on 1 blocks"));
}

#[test]
fn export_markdown_labels_a_list_item_with_an_in_list_suffix() {
    let markdown = "- first item\n- second item\n- 三番目の項目\n";
    let live = anchors(markdown);
    let block = &live[0];
    assert_eq!(block.kind, AnchorKind::Block);
    let third_item = live
        .iter()
        .find(|a| a.kind == AnchorKind::Item && a.excerpt == "三番目の項目")
        .expect("third item anchor");

    let doc = ReviewDoc {
        version: 1,
        file: "notes.md".to_string(),
        blocks: vec![ReviewBlock {
            hash: third_item.hash.clone(),
            excerpt: third_item.excerpt.clone(),
            kind: AnchorKindDto::Item,
            comments: vec![comment("c_1", "コメント")],
        }],
        file_comments: Vec::new(),
    };
    let out = export_markdown("notes.md", markdown, &doc, "2026-08-22T07:10:00Z");

    let expected_quote = format!(
        "> {}: 三番目の項目 （in list {}）\n\n- コメント\n",
        line_label(third_item.line_start, third_item.line_end),
        line_label(block.line_start, block.line_end),
    );
    assert!(
        out.contains(&expected_quote),
        "expected {expected_quote:?} in {out:?}"
    );
}

#[test]
fn export_markdown_labels_a_table_row_with_an_in_table_suffix() {
    let markdown = "| 値1 | 値2 | 値3 |\n|---|---|---|\n| a | b | c |\n| d | e | f |\n";
    let live = anchors(markdown);
    let block = &live[0];
    assert_eq!(block.kind, AnchorKind::Block);
    let second_row = live
        .iter()
        .find(|a| a.kind == AnchorKind::Row && a.excerpt == "d | e | f")
        .expect("second data row anchor");

    let doc = ReviewDoc {
        version: 1,
        file: "notes.md".to_string(),
        blocks: vec![ReviewBlock {
            hash: second_row.hash.clone(),
            excerpt: second_row.excerpt.clone(),
            kind: AnchorKindDto::Row,
            comments: vec![comment("c_1", "確認")],
        }],
        file_comments: Vec::new(),
    };
    let out = export_markdown("notes.md", markdown, &doc, "2026-08-22T07:10:00Z");

    let expected_quote = format!(
        "> {}: d | e | f （in table {}）\n\n- 確認\n",
        line_label(second_row.line_start, second_row.line_end),
        line_label(block.line_start, block.line_end),
    );
    assert!(
        out.contains(&expected_quote),
        "expected {expected_quote:?} in {out:?}"
    );
}

#[test]
fn export_markdown_block_anchors_get_no_in_list_or_in_table_suffix() {
    let markdown = "# Heading\n";
    let live = blocks(markdown);
    let doc = ReviewDoc {
        version: 1,
        file: "notes.md".to_string(),
        blocks: vec![ReviewBlock {
            hash: live[0].hash.clone(),
            excerpt: live[0].excerpt.clone(),
            kind: AnchorKindDto::Block,
            comments: vec![comment("c_1", "ok")],
        }],
        file_comments: Vec::new(),
    };
    let out = export_markdown("notes.md", markdown, &doc, "2026-08-22T07:10:00Z");
    assert!(out.contains("> L1: # Heading\n\n"));
    assert!(!out.contains("in list"));
    assert!(!out.contains("in table"));
}

#[test]
fn export_markdown_nested_item_suffix_names_the_whole_list_not_the_immediate_parent_item() {
    let markdown = "- outer\n  - inner comment target\n";
    let live = anchors(markdown);
    let block = &live[0];
    let inner = live
        .iter()
        .find(|a| a.kind == AnchorKind::Item && a.excerpt == "inner comment target")
        .expect("inner item anchor");
    assert_ne!(inner.line_start, block.line_start);

    let doc = ReviewDoc {
        version: 1,
        file: "notes.md".to_string(),
        blocks: vec![ReviewBlock {
            hash: inner.hash.clone(),
            excerpt: inner.excerpt.clone(),
            kind: AnchorKindDto::Item,
            comments: vec![comment("c_1", "note")],
        }],
        file_comments: Vec::new(),
    };
    let out = export_markdown("notes.md", markdown, &doc, "2026-08-22T07:10:00Z");
    let expected_suffix = format!(
        "（in list {}）",
        line_label(block.line_start, block.line_end)
    );
    assert!(
        out.contains(&expected_suffix),
        "expected {expected_suffix:?} in {out:?}"
    );
}

#[test]
fn export_markdown_labels_an_item_inside_a_blockquote_with_an_in_block_suffix() {
    let markdown = "> - quoted item one\n> - quoted item two\n";
    let live = anchors(markdown);
    let block = &live[0];
    assert_eq!(block.kind, AnchorKind::Block);
    let item = live
        .iter()
        .find(|a| a.kind == AnchorKind::Item && a.excerpt == "quoted item one")
        .expect("quoted item anchor");

    let doc = ReviewDoc {
        version: 1,
        file: "notes.md".to_string(),
        blocks: vec![ReviewBlock {
            hash: item.hash.clone(),
            excerpt: item.excerpt.clone(),
            kind: AnchorKindDto::Item,
            comments: vec![comment("c_1", "確認")],
        }],
        file_comments: Vec::new(),
    };
    let out = export_markdown("notes.md", markdown, &doc, "2026-08-22T07:10:00Z");

    let expected_suffix = format!(
        "（in block {}）",
        line_label(block.line_start, block.line_end)
    );
    assert!(
        out.contains(&expected_suffix),
        "expected {expected_suffix:?} in {out:?}"
    );
    assert!(!out.contains("in list"));
}

#[test]
fn export_markdown_omits_the_unanchored_section_when_the_only_entry_has_no_comments() {
    let markdown = "# Current heading\n";
    let doc = ReviewDoc {
        version: 1,
        file: "notes.md".to_string(),
        blocks: vec![ReviewBlock {
            hash: "0000000000000000".to_string(),
            excerpt: "旧 excerpt".to_string(),
            kind: AnchorKindDto::Block,
            comments: vec![],
        }],
        file_comments: Vec::new(),
    };
    let out = export_markdown("notes.md", markdown, &doc, "2026-08-22T07:10:00Z");
    assert!(!out.contains("Unanchored"));
    assert!(!out.contains("unanchored"));
}

#[test]
fn export_markdown_orders_a_block_immediately_followed_by_its_own_items() {
    let markdown = "- one\n- two\n\nUnrelated paragraph.\n";
    let live = anchors(markdown);
    let doc = ReviewDoc {
        version: 1,
        file: "notes.md".to_string(),
        blocks: live
            .iter()
            .map(|a| ReviewBlock {
                hash: a.hash.clone(),
                excerpt: a.excerpt.clone(),
                kind: match a.kind {
                    AnchorKind::Block => AnchorKindDto::Block,
                    AnchorKind::Item => AnchorKindDto::Item,
                    AnchorKind::Row => AnchorKindDto::Row,
                },
                comments: vec![comment("c_1", "x")],
            })
            .collect(),
        file_comments: Vec::new(),
    };
    let out = export_markdown("notes.md", markdown, &doc, "2026-08-22T07:10:00Z");
    let list_idx = out.find("- one").expect("list block quoted");
    let one_idx = out.find("in list").expect("first item's suffix present");
    let unrelated_idx = out
        .find("Unrelated paragraph")
        .expect("unrelated paragraph quoted");
    assert!(list_idx < one_idx && one_idx < unrelated_idx);
}

#[test]
fn export_writes_the_file_and_returns_its_name_only_path_and_markdown() {
    let doc = empty_doc("/docs/notes.md");
    let (path, markdown) = export("/docs/notes.md", "# Hi\n", &doc);
    assert_eq!(path, "/docs/notes.review.md");
    assert!(markdown.starts_with("# Review: notes.md"));
    let stamp = markdown
        .lines()
        .nth(2)
        .and_then(|line| line.strip_prefix("Exported: "))
        .and_then(|line| line.split(' ').next())
        .expect("a time");
    assert_eq!(stamp.len(), "2026-08-22T07:00:00Z".len());
    assert!(stamp.ends_with('Z'));
}

fn doc_with(blocks: Vec<ReviewBlock>) -> ReviewDoc {
    ReviewDoc {
        version: 1,
        file: "notes.md".to_string(),
        blocks,
        file_comments: Vec::new(),
    }
}

fn commented(hash: &str, excerpt: &str, comments: Vec<Comment>) -> ReviewBlock {
    ReviewBlock {
        hash: hash.to_string(),
        excerpt: excerpt.to_string(),
        kind: AnchorKindDto::Block,
        comments,
    }
}

#[test]
fn every_error_says_what_is_wrong() {
    let id = "c_0123456789abcdef";
    let hash = "0123456789abcdef";
    let message = |mut doc: ReviewDoc| validate(&mut doc).unwrap_err().message();

    let mut doc = doc_with(vec![]);
    doc.version = 7;
    assert_eq!(message(doc), "unsupported review document version: 7 (expected 1)");
    assert_eq!(
        message(doc_with(vec![commented("no\"pe", "", vec![])])),
        "invalid block hash: \"no\\\"pe\""
    );
    assert_eq!(
        message(doc_with(vec![commented(hash, "", vec![comment("c_é", "x")])])),
        "invalid comment id: \"c_é\""
    );
    assert_eq!(
        message(doc_with(vec![commented(hash, "", vec![comment(id, &"é".repeat(32769))])])),
        "comment text exceeds 65536 bytes"
    );
    let many: Vec<Comment> = (0..10001).map(|_| comment(id, "")).collect();
    assert_eq!(
        message(doc_with(vec![commented(hash, "", many)])),
        "review document has 10001 comments, exceeding the 10000 limit"
    );
    let large: Vec<Comment> = (0..140).map(|_| comment(id, &"x".repeat(65536))).collect();
    let text = message(doc_with(vec![commented(hash, "", large)]));
    assert!(text.starts_with("review document is 9"), "{text}");
    assert!(text.ends_with(" bytes, exceeding the 8388608 byte limit"), "{text}");
}

#[test]
fn the_size_of_a_sidecar_is_that_of_its_indented_text() {
    let id = "c_0123456789abcdef";
    let mut doc = doc_with(vec![]);
    doc.file_comments = (0..127).map(|_| comment(id, &"x".repeat(65536))).collect();
    validate(&mut doc).expect("room is left");
    let text_len = {
        let lines = [
            "{",
            "  \"version\": 1,",
            "  \"file\": \"notes.md\",",
            "  \"blocks\": [],",
            "  \"file_comments\": [",
            "  ]",
            "}",
        ];
        let frame: usize = lines.iter().map(|l| l.len() + 1).sum::<usize>() - 1;
        let one = [
            "    {",
            "      \"id\": \"c_0123456789abcdef\",",
            "      \"text\": \"\",",
            "      \"created\": \"2026-08-22T07:00:00Z\",",
            "      \"updated\": \"2026-08-22T07:00:00Z\"",
            "    },",
        ];
        let each: usize = one.iter().map(|l| l.len() + 1).sum();
        frame + 127 * (each + 65536) - 1
    };
    let room = 8 * 1024 * 1024 - text_len;
    let extra = "    {\n      \"id\": \"c_0123456789abcdef\",\n      \"text\": \"\",\n      \"created\": \"2026-08-22T07:00:00Z\",\n      \"updated\": \"2026-08-22T07:00:00Z\"\n    },\n".len();
    let fill = room - extra;
    let mut full = doc.clone();
    full.file_comments.push(comment(id, &"x".repeat(fill)));
    validate(&mut full).expect("exactly full");
    let mut over = doc.clone();
    over.file_comments.push(comment(id, &"x".repeat(fill + 1)));
    assert_eq!(
        validate(&mut over).unwrap_err(),
        ReviewError::TooLarge(8 * 1024 * 1024 + 1)
    );
}

#[test]
fn excerpts_are_put_in_order_up_to_what_is_wrong() {
    let good = "0123456789abcdef";
    let mut doc = doc_with(vec![
        commented(good, "a\nb", vec![]),
        commented(good, "c\rd", vec![comment("bad", "x")]),
        commented(good, "e\nf", vec![]),
    ]);
    assert_eq!(
        validate(&mut doc).unwrap_err(),
        ReviewError::InvalidCommentId("bad".to_string())
    );
    let excerpts: Vec<&str> = doc.blocks.iter().map(|b| b.excerpt.as_str()).collect();
    assert_eq!(excerpts, vec!["a b", "c d", "e\nf"]);

    let mut doc = doc_with(vec![
        commented(good, "a\nb", vec![]),
        commented("bad", "c\rd", vec![]),
    ]);
    assert_eq!(
        validate(&mut doc).unwrap_err(),
        ReviewError::InvalidHash("bad".to_string())
    );
    assert_eq!(doc.blocks[0].excerpt, "a b");
    assert_eq!(doc.blocks[1].excerpt, "c\rd");
}

#[test]
fn what_was_put_in_order_stays_so() {
    let long = format!("x\r\ny{}", "z".repeat(300));
    let mut doc = doc_with(vec![commented(
        "0123456789ABCDEF",
        &long,
        vec![comment("c_0123456789abcdef", "ok")],
    )]);
    validate(&mut doc).expect("valid");
    let once = doc.clone();
    validate(&mut doc).expect("still valid");
    assert_eq!(doc, once);
}

#[test]
fn hashes_of_anchors_are_accepted() {
    for anchor in anchors("# A\n\n- b\n") {
        let mut doc = doc_with(vec![commented(&anchor.hash, "", vec![])]);
        assert!(validate(&mut doc).is_ok());
    }
}

#[test]
fn every_comment_is_exported_once() {
    let md = "# A\n\n- b\n- b\n\n# A\n";
    let live = anchors(md);
    let mut listed: Vec<ReviewBlock> = live
        .iter()
        .enumerate()
        .map(|(n, a)| commented(&a.hash, "", vec![comment("c", &format!("live {n}."))]))
        .collect();
    listed.push(commented("ffffffffffffffff", "gone", vec![comment("c", "lost.")]));
    let mut firsts: Vec<ReviewBlock> = Vec::new();
    for block in listed {
        if !firsts.iter().any(|b| b.hash == block.hash) {
            firsts.push(block);
        }
    }
    let doc = doc_with(firsts);
    let text = export_markdown("notes.md", md, &doc, "now");
    for block in &doc.blocks {
        let bullet = format!("- {}\n", block.comments[0].text);
        assert_eq!(text.matches(&bullet).count(), 1, "{text}");
    }
    let shown = text.matches("\n> L").count();
    assert!(text.contains(&format!(" on {shown} blocks (+1 unanchored)")), "{text}");
}

#[test]
fn an_export_is_written_as_it_is_said() {
    let md = "intro\n\n- one\n- two\n";
    let found = anchors(md);
    let mut doc = doc_with(vec![
        commented(&found[3].hash, "two", vec![comment("c", "first\nsecond\r\n\nfourth")]),
        commented("ffffffffffffffff", "a\nb", vec![comment("c", "")]),
    ]);
    doc.file_comments = vec![comment("c", "whole")];
    assert_eq!(
        export_markdown("no\ntes.md", md, &doc, "T"),
        "# Review: no\ntes.md\n\n\
         Exported: T · 2 comments (1 on the file, 1 on 1 blocks) (+1 unanchored)\n\n\
         > (file): no tes.md\n\n- whole\n\n\
         > L4: two （in list L3-L4）\n\n- first\n  second\n  \n  fourth\n\n\
         ## Unanchored\n\n> (not found): a b\n\n-\n"
    );
}

#[test]
fn an_export_does_not_depend_on_the_order_of_the_sidecar() {
    let markdown = "One\n\n- two\n- three\n";
    let block = |hash: &str, id: &str| ReviewBlock {
        hash: hash.to_string(),
        excerpt: String::new(),
        kind: AnchorKindDto::Block,
        comments: vec![comment(id, id)],
    };
    let live = anchors(markdown);
    let mut doc = empty_doc("notes.md");
    doc.blocks = live
        .iter()
        .map(|anchor| block(&anchor.hash, &format!("c_{}", anchor.line_start)))
        .collect();
    let forth = export_markdown("notes.md", markdown, &doc, "now");
    doc.blocks.reverse();
    assert_eq!(export_markdown("notes.md", markdown, &doc, "now"), forth);
    assert!(forth.contains("4 comments on 4 blocks"), "{forth}");
}

#[test]
fn an_export_carries_the_time_of_the_clock() {
    let (_, text) = export("notes.md", "# Hi\n", &empty_doc("notes.md"));
    let line = text.lines().nth(2).expect("a summary");
    let time: Vec<char> = line["Exported: ".len()..].chars().take(20).collect();
    for (at, c) in [(4, '-'), (7, '-'), (10, 'T'), (13, ':'), (16, ':'), (19, 'Z')] {
        assert_eq!(time[at], c, "{line}");
    }
    assert!(time[0].is_ascii_digit() && time[18].is_ascii_digit());
}
