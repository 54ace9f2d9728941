use prose_lint::location::{line_column, newline_offsets};
use prose_lint::markdown::mask_markdown;
use prose_lint::{
    CustomTerm, Error, Finding, Profile, Report, RuleDef, RuleKind, ScanOptions, Scanner, Severity,
    VocabularyEntry,
};

fn rule(
    id: &str,
    severity: Severity,
    kind: RuleKind,
    patterns: &[&str],
    profiles: &[&str],
) -> RuleDef {
    RuleDef {
        id: id.to_owned(),
        severity,
        kind,
        patterns: patterns.iter().map(|p| p.to_string()).collect(),
        message: format!("message of {id}"),
        suggestion: format!("suggestion of {id}"),
        profiles: profiles.iter().map(|p| p.to_string()).collect(),
    }
}

fn entry(word: &str, class: &str) -> VocabularyEntry {
    VocabularyEntry {
        word: word.to_owned(),
        class: class.to_owned(),
    }
}

fn english_rules() -> Vec<RuleDef> {
    vec![
        rule(
            "technical.empty-importance",
            Severity::High,
            RuleKind::Literal,
            &["importantly", "Importantly"],
            &["all"],
        ),
        rule(
            "technical.contrast-template",
            Severity::Medium,
            RuleKind::Regex,
            &[r"not just [^,.\n]+, but"],
            &["technical", "academic"],
        ),
        rule(
            "technical.stock-implication",
            Severity::Medium,
            RuleKind::Literal,
            &["this ensures"],
            &["technical"],
        ),
    ]
}

fn zh_rules() -> Vec<RuleDef> {
    ["zh.numbered-heading", "zh.zero-subject", "zh.sentence-template"]
        .iter()
        .map(|id| rule(id, Severity::Medium, RuleKind::Literal, &[], &["all"]))
        .collect()
}

fn scanner() -> Scanner {
    let mut rules = english_rules();
    rules.extend(zh_rules());
    Scanner::with_rules(
        rules,
        vec![
            entry("delves", "style"),
            entry("data", "content"),
            entry("wild-card", "style"),
            entry("x1", "style"),
        ],
        Vec::new(),
    )
    .unwrap()
}

fn ids(report: &Report) -> Vec<&str> {
    report.findings.iter().map(|f| f.rule_id.as_str()).collect()
}

fn with_id<'a>(report: &'a Report, id: &str) -> Vec<&'a Finding> {
    report.findings.iter().filter(|f| f.rule_id == id).collect()
}

#[test]
fn line_lookup_handles_first_and_later_lines() {
    let source = "éone\ntwo\nthree";
    let offsets = newline_offsets(source);
    assert_eq!(line_column(source, &offsets, 2), (1, 2));
    assert_eq!(line_column(source, &offsets, 7), (2, 2));
}

#[test]
fn masking_preserves_byte_offsets() {
    let source = "é `delve https://example.com` — plain";
    let masked = mask_markdown(source);
    assert_eq!(source.len(), masked.len());
    assert_eq!(masked.find('—'), source.find('—'));
    assert!(!masked.contains("delve"));
    assert!(!masked.contains("example"));
}

#[test]
fn fixed_phrases_are_reported_once_at_word_boundaries_outside_code() {
    let report = scanner().scan_text(
        "draft.md",
        "Importantly, this works.\n`importantly` is code. Unimportantly not.\nIMPORTANTLY too.",
        &ScanOptions::default(),
    );
    let hits = with_id(&report, "technical.empty-importance");
    assert_eq!(hits.len(), 2);
    assert_eq!((hits[0].start, hits[0].end), (0, 11));
    assert_eq!((hits[0].line, hits[0].column), (1, 1));
    assert_eq!(hits[0].matched, "Importantly");
    assert_eq!(hits[0].severity, Severity::High);
    assert_eq!(hits[0].message, "message of technical.empty-importance");
    assert_eq!(hits[1].matched, "IMPORTANTLY");
    assert_eq!((hits[1].line, hits[1].column), (3, 1));
    assert_eq!(report.high_confidence_count(), 2);
}

#[test]
fn regex_rules_follow_their_profiles() {
    let text = "This is not just a cache, but a shift. This ensures robust operation.";
    let report = scanner().scan_text("a.md", text, &ScanOptions::default());
    let hits = with_id(&report, "technical.contrast-template");
    assert_eq!(hits.len(), 1);
    assert_eq!(hits[0].matched, "not just a cache, but");
    assert_eq!(with_id(&report, "technical.stock-implication").len(), 1);

    let casual = scanner().scan_text(
        "a.md",
        text,
        &ScanOptions {
            profile: Profile::Casual,
            show_all: false,
        },
    );
    assert!(with_id(&casual, "technical.contrast-template").is_empty());
    assert!(with_id(&casual, "technical.stock-implication").is_empty());
}

#[test]
fn regexes_do_not_match_inside_masked_code() {
    let report = scanner().scan_text(
        "a.md",
        "Plain text.\n```\nnot just a cache, but more\n```\n",
        &ScanOptions::default(),
    );
    assert!(report.findings.is_empty());
}

#[test]
fn findings_are_ordered_by_severity_then_position() {
    let report = scanner().scan_text(
        "a.md",
        "This is not just a cache, but fine. Importantly, this ensures it.",
        &ScanOptions::default(),
    );
    assert_eq!(
        ids(&report),
        vec![
            "technical.empty-importance",
            "technical.contrast-template",
            "technical.stock-implication",
        ]
    );
    let starts: Vec<usize> = report.findings.iter().map(|f| f.start).collect();
    assert!(starts[1] < starts[2]);
}

#[test]
fn vocabulary_hits_are_counted_unless_shown() {
    let scanner = scanner();
    let text = "é delves but édelves does not count twice.";
    let quiet = scanner.scan_text("unicode.md", text, &ScanOptions::default());
    assert!(quiet.findings.is_empty());
    assert_eq!(quiet.suppressed_low_confidence, 1);
    assert_eq!(quiet.vocabulary_candidates, 4);
    assert_eq!(quiet.active_style_vocabulary, 2);

    let all = scanner.scan_text(
        "unicode.md",
        text,
        &ScanOptions {
            profile: Profile::Technical,
            show_all: true,
        },
    );
    assert_eq!(all.suppressed_low_confidence, 0);
    let hits = with_id(&all, "research.excess-vocabulary");
    assert_eq!(hits.len(), 1);
    assert_eq!((hits[0].line, hits[0].column), (1, 3));
    assert_eq!(hits[0].severity, Severity::Low);
    assert_eq!(
        hits[0].message,
        "\"delves\" is an empirically observed excess style word in post-LLM PubMed abstracts; this is a weak, domain-specific signal."
    );
    assert_eq!(
        hits[0].suggestion,
        "Review only in context; do not replace mechanically."
    );
    assert_eq!(all.high_confidence_count(), 0);
}

#[test]
fn custom_terms_are_case_insensitive_and_respect_masking_and_boundaries() {
    let scanner = Scanner::with_rules(
        english_rules(),
        Vec::new(),
        vec![CustomTerm {
            term: "Magic Surface".to_owned(),
            severity: Severity::Medium,
            message: "Repository-specific abstraction.".to_owned(),
            suggestion: "Name the concrete API.".to_owned(),
        }],
    )
    .unwrap();
    let report = scanner.scan_text(
        "custom.md",
        "The MAGIC SURFACE is vague. `magic surface` and magic surfaces are excluded.",
        &ScanOptions::default(),
    );
    let hits = with_id(&report, "custom.repo-term");
    assert_eq!(hits.len(), 1);
    assert_eq!(hits[0].matched, "MAGIC SURFACE");
    assert_eq!(hits[0].message, "Repository-specific abstraction.");
    assert_eq!(hits[0].suggestion, "Name the concrete API.");
}

#[test]
fn abstraction_terms_are_reported_as_paragraph_clusters() {
    let scanner = scanner();
    let single = scanner.scan_text(
        "design.md",
        "The trust boundary is explicit.",
        &ScanOptions::default(),
    );
    assert!(with_id(&single, "codex.abstraction-cluster").is_empty());

    let text = "Intro line.\n\nThe contract at the boundary sets the surface and its posture.\nSecond line.\n\nTail.";
    let dense = scanner.scan_text("design.md", text, &ScanOptions::default());
    let hits = with_id(&dense, "codex.abstraction-cluster");
    assert_eq!(hits.len(), 1);
    assert_eq!(
        hits[0].message,
        "Dense Codex-style abstraction cluster: boundary, contract, posture, surface."
    );
    assert_eq!(hits[0].line, 3);
    assert_eq!(
        &text[hits[0].start..hits[0].end],
        "The contract at the boundary sets the surface and its posture.\nSecond line."
    );

    let marketing = scanner.scan_text(
        "design.md",
        text,
        &ScanOptions {
            profile: Profile::Marketing,
            show_all: false,
        },
    );
    assert!(with_id(&marketing, "codex.abstraction-cluster").is_empty());
}

#[test]
fn repeated_terms_count_once_toward_a_cluster() {
    let report = scanner().scan_text(
        "a.md",
        "Boundary, boundary and BOUNDARY meet a surface.",
        &ScanOptions::default(),
    );
    assert!(with_id(&report, "codex.abstraction-cluster").is_empty());
}

#[test]
fn dense_em_dashes_are_reported_at_the_first_one() {
    let text = "a — b — c — d";
    let report = scanner().scan_text("a.md", text, &ScanOptions::default());
    let hits = with_id(&report, "technical.em-dash-density");
    assert_eq!(hits.len(), 1);
    assert_eq!((hits[0].start, hits[0].end), (2, 5));
    assert_eq!(hits[0].matched, "—");
    assert_eq!(hits[0].column, 3);
    assert_eq!(hits[0].message, "High em-dash density: 3 in 7 words.");

    let casual = scanner().scan_text(
        "a.md",
        text,
        &ScanOptions {
            profile: Profile::Casual,
            show_all: false,
        },
    );
    assert!(with_id(&casual, "technical.em-dash-density").is_empty());
}

#[test]
fn sparse_em_dashes_are_not_reported() {
    let words = "word ".repeat(400);
    let text = format!("{words}a — b — c — d");
    let report = scanner().scan_text("a.md", &text, &ScanOptions::default());
    assert!(with_id(&report, "technical.em-dash-density").is_empty());
}

#[test]
fn numbered_chinese_headings_are_reported_in_runs_of_three() {
    let scanner = scanner();
    let text = "## 一、配置\n\n内容。\n\n## 二、运行\n\n内容。\n\n## 三、验证\n";
    let report = scanner.scan_text("zh.md", text, &ScanOptions::default());
    let hits = with_id(&report, "zh.numbered-heading");
    assert_eq!(hits.len(), 3);
    assert_eq!(hits[0].matched, "## 一、配置");
    assert_eq!(hits[2].line, 9);

    for text in [
        "## 一、配置\n\n## 二、运行\n",
        "```\n## 一、配置\n## 二、运行\n## 三、验证\n```",
        "## 一、配置\n## 二、运行\n## 附录\n## 三、验证\n",
    ] {
        let report = scanner.scan_text("zh.md", text, &ScanOptions::default());
        assert!(with_id(&report, "zh.numbered-heading").is_empty(), "{text}");
    }
}

#[test]
fn zero_subject_openings_need_an_earlier_prose_paragraph() {
    let scanner = scanner();
    let report = scanner.scan_text(
        "zh.md",
        "配置按用户隔离。\n\n值得注意的是，权限还需检查。",
        &ScanOptions::default(),
    );
    let hits = with_id(&report, "zh.zero-subject");
    assert_eq!(hits.len(), 1);
    assert_eq!(hits[0].matched, "值得注意的是，权限还需检查");
    assert_eq!(hits[0].line, 3);

    for text in [
        "值得注意的是，这是第一段。",
        "配置按用户隔离。\n\n值得注意的是，这还需要权限检查。",
        "## 标题\n\n值得注意的是，权限还需检查。",
    ] {
        let report = scanner.scan_text("zh.md", text, &ScanOptions::default());
        assert!(with_id(&report, "zh.zero-subject").is_empty(), "{text}");
    }
}

#[test]
fn neighbouring_template_sentences_are_reported() {
    let scanner = scanner();
    let text = "团队完成了本轮测试，结果符合预期。用户完成了本轮操作，反馈符合预期。";
    let report = scanner.scan_text("zh.md", text, &ScanOptions::default());
    let hits = with_id(&report, "zh.sentence-template");
    assert_eq!(hits.len(), 1);
    assert_eq!((hits[0].start, hits[0].end), (0, text.len()));

    for text in [
        "团队完成了本轮测试，结果符合预期。\n\n用户完成了本轮操作，反馈符合预期。",
        "首先，读取文件。其次，解析数据。最后，输出结果。",
        "团队完成了本轮测试，结果符合预期。用户完成了本轮操作：反馈符合预期。",
    ] {
        let report = scanner.scan_text("zh.md", text, &ScanOptions::default());
        assert!(with_id(&report, "zh.sentence-template").is_empty(), "{text}");
    }
}

#[test]
fn chinese_leads_need_a_rule_with_their_id() {
    let scanner = Scanner::with_rules(english_rules(), Vec::new(), Vec::new()).unwrap();
    let report = scanner.scan_text(
        "zh.md",
        "## 一、配置\n\n## 二、运行\n\n## 三、验证\n",
        &ScanOptions::default(),
    );
    assert!(report.findings.is_empty());
}

#[test]
fn scan_reports_path_profile_and_counts() {
    let report = scanner().scan_text(
        "empty.md",
        "",
        &ScanOptions {
            profile: Profile::Pr,
            show_all: false,
        },
    );
    assert_eq!(report.path, "empty.md");
    assert_eq!(report.profile, Profile::Pr);
    assert!(report.findings.is_empty());
    assert_eq!(report.vocabulary_candidates, 4);
    assert_eq!(report.active_style_vocabulary, 2);
}

#[test]
fn invalid_patterns_are_data_errors() {
    let rules = vec![rule("bad", Severity::Low, RuleKind::Regex, &["("], &["all"])];
    match Scanner::with_rules(rules, Vec::new(), Vec::new()) {
        Err(Error::Data(message)) => assert!(message.starts_with("cannot compile regex set: ")),
        Ok(_) => panic!("an unbalanced group must be refused"),
    }
}

#[test]
fn report_renders_as_text() {
    let report = scanner().scan_text(
        "draft.md",
        "Importantly, \"it\" works. delves",
        &ScanOptions::default(),
    );
    assert_eq!(
        report.render_text(),
        "draft.md [technical]: 1 finding(s), 1 low-confidence signal(s) summarized\n  High 1:1 technical.empty-importance\n    message of technical.empty-importance\n    matched: \"Importantly\"\n    suggestion: suggestion of technical.empty-importance\n"
    );
    let empty = scanner().scan_text("b.md", "Plain.", &ScanOptions::default());
    assert_eq!(empty.render_text(), "b.md [technical]: 0 finding(s)\n");
}

#[test]
fn high_confidence_count_counts_only_high_findings() {
    let report = scanner().scan_text(
        "a.md",
        "Importantly, this is not just a test, but more. Importantly.",
        &ScanOptions::default(),
    );
    assert_eq!(report.findings.len(), 3);
    assert_eq!(report.high_confidence_count(), 2);
}

#[test]
fn rule_order_does_not_change_a_report() {
    let text = "Importantly, this is not just a cache, but more. This ensures it — and — more — yes.";
    let forward = scanner().scan_text("a.md", text, &ScanOptions::default());
    let mut rules = english_rules();
    rules.reverse();
    let backward = Scanner::with_rules(rules, Vec::new(), Vec::new())
        .unwrap()
        .scan_text("a.md", text, &ScanOptions::default());
    let key = |f: &Finding| {
        (
            f.rule_id.clone(),
            f.severity,
            f.start,
            f.end,
            f.line,
            f.column,
            f.matched.clone(),
            f.message.clone(),
        )
    };
    let a: Vec<_> = forward.findings.iter().map(key).collect();
    let b: Vec<_> = backward.findings.iter().map(key).collect();
    assert_eq!(a.len(), 4);
    assert_eq!(a, b);
}

#[test]
fn abstraction_terms_in_different_paragraphs_do_not_combine() {
    let scanner = scanner();
    let split = scanner.scan_text(
        "design.md",
        "boundary surface\n\ncontract",
        &ScanOptions::default(),
    );
    assert!(with_id(&split, "codex.abstraction-cluster").is_empty());

    let plural = scanner.scan_text(
        "design.md",
        "boundaries, surfaces and contracts",
        &ScanOptions::default(),
    );
    assert!(with_id(&plural, "codex.abstraction-cluster").is_empty());

    let joined = scanner.scan_text(
        "design.md",
        "boundary surface contract",
        &ScanOptions::default(),
    );
    assert_eq!(with_id(&joined, "codex.abstraction-cluster").len(), 1);
}

#[test]
fn showing_vocabulary_keeps_the_high_count() {
    let scanner = scanner();
    let text = "Importantly, delves. Importantly delves again.";
    let quiet = scanner.scan_text("a.md", text, &ScanOptions::default());
    let all = scanner.scan_text(
        "a.md",
        text,
        &ScanOptions {
            profile: Profile::Technical,
            show_all: true,
        },
    );
    assert_eq!(quiet.high_confidence_count(), 2);
    assert_eq!(all.high_confidence_count(), 2);
    assert_eq!(with_id(&all, "research.excess-vocabulary").len(), 2);
    assert!(with_id(&quiet, "research.excess-vocabulary").is_empty());
}
