use prose_lint::chinese::{is_han, patterns, scan};
use prose_lint::findings::{count_words, dash_offsets};
use prose_lint::markdown::{mask_markdown, paragraph_spans};
use prose_lint::strings::{decimal, substring};
use prose_lint::text::{char_table, is_white_space, str_eq};
use prose_lint::words::{has_word_boundaries, is_word_char};
use prose_lint::Profile;

#[test]
fn white_space_agrees_with_char_is_whitespace() {
    for value in 0..=0x10ffffu32 {
        if let Some(c) = char::from_u32(value) {
            assert_eq!(is_white_space(value), c.is_whitespace(), "{value:#x}");
        }
    }
}

#[test]
fn word_characters_are_alphanumeric_or_underscore() {
    for c in ['a', 'Z', '7', '_', 'é', '中', 'ß'] {
        assert!(is_word_char(c), "{c}");
    }
    for c in [' ', '-', '—', '`', '.', '，'] {
        assert!(!is_word_char(c), "{c}");
    }
}

#[test]
fn word_boundaries_look_at_neighbouring_characters() {
    let text = "é delves édelves delves_x";
    assert!(has_word_boundaries(text, 3, 9));
    assert!(!has_word_boundaries(text, 12, 18));
    assert!(!has_word_boundaries(text, 19, 25));
    assert!(has_word_boundaries("delves", 0, 6));
}

#[test]
fn masking_blanks_fences_inline_code_and_urls() {
    let source = "keep\n  ```rust\nlet x = `y`;\n```\nsee https://a.b/c?d and `code` here\n`open\n";
    let masked = mask_markdown(source);
    assert_eq!(masked.len(), source.len());
    let expected = format!(
        "keep\n{}\n{}\n{}\nsee {} and {} here\n`open\n",
        " ".repeat(9),
        " ".repeat(12),
        " ".repeat(3),
        " ".repeat(15),
        " ".repeat(6)
    );
    assert_eq!(masked, expected);
}

#[test]
fn paragraphs_are_separated_by_blank_lines() {
    let text = "first\nstill first\n \t\nsecond\n\n\n  \nthird";
    let spans = paragraph_spans(text);
    let parts: Vec<&str> = spans.iter().map(|&(s, e)| &text[s..e]).collect();
    assert_eq!(parts, vec!["first\nstill first", "second", "third"]);
    assert!(paragraph_spans(" \n\n \n").is_empty());
}

#[test]
fn words_are_counted_as_split_whitespace_counts_them() {
    for text in [
        "",
        "   ",
        "one",
        " two  words ",
        "tab\tand\nnewline",
        "no\u{3000}break\u{a0}space",
        "a — b — c",
    ] {
        assert_eq!(count_words(text), text.split_whitespace().count(), "{text:?}");
    }
}

#[test]
fn em_dashes_are_found_left_to_right() {
    for text in ["", "a—b — c", "——", "no dash", "é—"] {
        let expected: Vec<usize> = text.match_indices('—').map(|(i, _)| i).collect();
        assert_eq!(dash_offsets(text), expected, "{text:?}");
    }
}

#[test]
fn decimal_writes_numbers_as_display_does() {
    for n in [0usize, 7, 10, 12345, usize::MAX] {
        assert_eq!(decimal(n), n.to_string());
    }
}

#[test]
fn substrings_and_character_tables_follow_byte_offsets() {
    let text = "aé中😀";
    assert_eq!(substring(text, 1, 6), "é中");
    let (chars, offsets) = char_table(text);
    assert_eq!(chars, vec!['a', 'é', '中', '😀']);
    assert_eq!(offsets, vec![0, 1, 3, 6, 10]);
    assert!(str_eq("中文", "中文"));
    assert!(!str_eq("中文", "中"));
}

#[test]
fn ideographs_are_recognized() {
    assert!(is_han('中'));
    assert!(is_han('\u{3400}'));
    assert!(is_han('\u{20000}'));
    assert!(!is_han('a'));
    assert!(!is_han('、'));
    assert!(!is_han('。'));
}

#[test]
fn structural_scan_needs_ideographs() {
    let compiled = patterns().unwrap();
    assert!(scan("## 1. a\n## 2. b\n## 3. c\n", &compiled).is_empty());
    let hits = scan("**一、甲**\n**二、乙**\n**三、丙**\n", &compiled);
    assert_eq!(hits.len(), 3);
    assert!(hits.iter().all(|h| h.0 == "zh.numbered-heading"));
}

#[test]
fn profile_names_round_trip() {
    for profile in [
        Profile::Technical,
        Profile::Academic,
        Profile::Pr,
        Profile::Commit,
        Profile::Casual,
        Profile::Marketing,
    ] {
        assert_eq!(Profile::parse(profile.name()), Some(profile));
    }
    assert_eq!(Profile::parse("Technical"), None);
    assert_eq!(Profile::default(), Profile::Technical);
}

#[test]
fn chinese_leads_lie_on_character_boundaries() {
    let compiled = patterns().unwrap();
    let text = "## 一、配置\n\n## 二、运行\n\n## 三、验证\n\n配置按用户隔离。\n\n值得注意的是，权限还需检查。\n\n团队完成了本轮测试，结果符合预期。用户完成了本轮操作，反馈符合预期。";
    let hits = scan(text, &compiled);
    assert!(!hits.is_empty());
    for &(id, start, end) in &hits {
        assert!(["zh.numbered-heading", "zh.zero-subject", "zh.sentence-template"].contains(&id));
        assert!(start <= end && end <= text.len());
        assert!(text.is_char_boundary(start) && text.is_char_boundary(end));
        if id == "zh.sentence-template" {
            assert!(start < end);
        }
    }
    assert!(hits.iter().any(|h| h.0 == "zh.sentence-template"));
}

#[test]
fn paragraph_spans_hold_no_blank_line() {
    let text = "one\n \ntwo\nthree\n\n\n four ";
    let spans = paragraph_spans(text);
    assert_eq!(spans, vec![(0, 3), (6, 15), (17, 24)]);
    for (s, e) in spans {
        assert!(!text[s..e].contains("\n\n"));
    }
}
