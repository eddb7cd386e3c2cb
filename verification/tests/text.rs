use markdown_remarkable::text::{
    chars_of, find_char_in, find_chars, find_last_char_in, first_line, is_white_space, lower_chars,
    push_decimal, push_html_escaped, same_text, second_line, slice, split_chars, split_line,
    string_of, trim, trim_end, trim_start, truncate,
};

fn samples() -> Vec<&'static str> {
    vec![
        "",
        " ",
        "a",
        "\n",
        "\r\n",
        "\r",
        "a\n",
        "a\r\nb",
        "a\n\nb\n",
        "a\rb\r",
        "\u{a0}x\u{3000}",
        "\u{200b}x\u{feff}",
        "  a b  ",
        "x\u{85}",
        "メモ\n日記\r\n",
        "a/b//c/",
        "&&=&",
    ]
}

fn text(s: &[char]) -> String {
    s.iter().collect()
}

#[test]
fn white_space_is_that_of_unicode() {
    for code in 0..=0x10FFFFu32 {
        if let Some(c) = char::from_u32(code) {
            assert_eq!(is_white_space(c), c.is_whitespace(), "{code:x}");
        }
    }
}

#[test]
fn trimming_is_that_of_std() {
    for sample in samples() {
        let chars = chars_of(sample);
        assert_eq!(text(trim(&chars)), sample.trim());
        assert_eq!(text(trim_start(&chars)), sample.trim_start());
        assert_eq!(text(trim_end(&chars)), sample.trim_end());
    }
}

#[test]
fn lines_are_those_of_std() {
    for sample in samples() {
        let chars = chars_of(sample);
        let expected: Vec<&str> = sample.lines().collect();
        assert_eq!(text(first_line(&chars)), *expected.first().unwrap_or(&""));
        assert_eq!(text(second_line(&chars)), *expected.get(1).unwrap_or(&""));
        let mut found = Vec::new();
        let mut rest = chars.as_slice();
        while !rest.is_empty() {
            let (line, next) = split_line(rest);
            found.push(text(line));
            rest = next;
        }
        assert_eq!(found, expected, "{sample:?}");
    }
}

#[test]
fn splitting_and_searching_are_those_of_std() {
    for sample in samples() {
        let chars = chars_of(sample);
        for sep in ['/', '&', '\n', 'a'] {
            let found: Vec<String> = split_chars(&chars, sep).into_iter().map(text).collect();
            let expected: Vec<&str> = sample.split(sep).collect();
            assert_eq!(found, expected, "{sample:?} {sep:?}");
            let place = |byte: usize| sample[..byte].chars().count();
            assert_eq!(find_char_in(&chars, sep), sample.find(sep).map(place));
            assert_eq!(find_last_char_in(&chars, sep), sample.rfind(sep).map(place));
        }
        for pat in ["", "a", "//", "\r\n", "&="] {
            let place = |byte: usize| sample[..byte].chars().count();
            let wanted = chars_of(pat);
            assert_eq!(find_chars(&chars, &wanted), sample.find(pat).map(place));
        }
    }
}

#[test]
fn numbers_are_written_in_decimal() {
    for n in [0u128, 7, 10, 1009, u64::MAX as u128, u128::MAX] {
        let mut out = String::from("n");
        push_decimal(&mut out, n);
        assert_eq!(out, format!("n{n}"));
    }
}

#[test]
fn lower_case_is_ascii_only() {
    let chars = chars_of("AZaz[É]09@`{");
    assert_eq!(text(&lower_chars(&chars)), "AZaz[É]09@`{".to_ascii_lowercase());
}

#[test]
fn escaped_text_holds_no_markup() {
    let mut out = String::new();
    push_html_escaped(&mut out, &chars_of("<a href=\"x\">'&'</a>"));
    assert_eq!(
        out,
        "&lt;a href=&quot;x&quot;&gt;&#39;&amp;&#39;&lt;/a&gt;"
    );
    assert!(!out.contains(['<', '>', '"', '\'']));
}

#[test]
fn cutting_counts_characters() {
    let chars = chars_of("三番目の項目");
    assert_eq!(text(truncate(&chars, 3)), "三番目");
    assert_eq!(text(truncate(&chars, 6)), "三番目の項目");
    assert_eq!(text(slice(&chars, 1, 3)), "番目");
    assert_eq!(text(slice(&chars, 3, 1)), "");
    assert_eq!(text(slice(&chars, 0, 7)), "");
    assert_eq!(string_of(&chars), "三番目の項目");
    assert!(same_text("é", "é"));
    assert!(!same_text("é", "e"));
}
