use prose_lint::cli::{
    contains_glob_meta, discovery_step, expands_as_glob, is_skipped_directory,
    is_supported_extension, literal_glob_prefix, parse_args, parse_usize, repository_term,
    strict_failure, Cli, Command, Discovery,
};
use prose_lint::{Format, Profile, ScanOptions, Scanner, Severity};

fn args(values: &[&str]) -> Vec<String> {
    values.iter().map(|v| v.to_string()).collect()
}

fn scan_of(values: &[&str]) -> Cli {
    match parse_args(args(values)) {
        Ok(Command::Scan(cli)) => cli,
        Ok(Command::Help) => panic!("help for {values:?}"),
        Ok(Command::Version) => panic!("version for {values:?}"),
        Err(message) => panic!("{message} for {values:?}"),
    }
}

fn error_of(values: &[&str]) -> String {
    match parse_args(args(values)) {
        Err(message) => message,
        Ok(_) => panic!("{values:?} should be refused"),
    }
}

#[test]
fn no_arguments_and_help_flags_ask_for_help() {
    assert!(matches!(parse_args(Vec::new()), Ok(Command::Help)));
    assert!(matches!(parse_args(args(&["scan", "-h"])), Ok(Command::Help)));
    assert!(matches!(parse_args(args(&["a.md", "--help"])), Ok(Command::Help)));
    assert!(matches!(parse_args(args(&["-V"])), Ok(Command::Version)));
    assert!(matches!(parse_args(args(&["scan", "--version"])), Ok(Command::Version)));
}

#[test]
fn options_and_paths_are_read() {
    let cli = scan_of(&[
        "scan", "--profile", "casual", "--format", "json", "--all", "--strict", "--jobs", "+4",
        "--config", "cfg.json", "a.md", "docs",
    ]);
    assert_eq!(cli.paths, vec!["a.md".to_owned(), "docs".to_owned()]);
    assert_eq!(cli.profile, Profile::Casual);
    assert_eq!(cli.format, Format::Json);
    assert!(cli.show_all);
    assert!(cli.strict);
    assert_eq!(cli.jobs, Some(4));
    assert_eq!(cli.config, Some("cfg.json".to_owned()));

    let plain = scan_of(&["notes.txt"]);
    assert_eq!(plain.paths, vec!["notes.txt".to_owned()]);
    assert_eq!(plain.profile, Profile::Technical);
    assert_eq!(plain.format, Format::Text);
    assert!(!plain.show_all && !plain.strict);
    assert_eq!(plain.jobs, None);
    assert_eq!(plain.config, None);
}

#[test]
fn everything_after_double_dash_is_a_path() {
    let cli = scan_of(&["a.md", "--", "-odd.md", "--all"]);
    assert_eq!(
        cli.paths,
        vec!["a.md".to_owned(), "-odd.md".to_owned(), "--all".to_owned()]
    );
    assert!(!cli.show_all);
}

#[test]
fn bad_arguments_are_refused_with_a_message() {
    assert_eq!(error_of(&["scan"]), "at least one path is required");
    assert_eq!(error_of(&["--all"]), "at least one path is required");
    assert_eq!(error_of(&["--"]), "at least one path is required");
    assert_eq!(error_of(&["a.md", "--profile"]), "--profile requires a value");
    assert_eq!(error_of(&["--format"]), "--format requires a value");
    assert_eq!(error_of(&["--jobs"]), "--jobs requires a value");
    assert_eq!(error_of(&["--config"]), "--config requires a value");
    assert_eq!(
        error_of(&["--profile", "poetry", "a.md"]),
        "unknown profile \"poetry\"; use technical, academic, pr, commit, casual, or marketing"
    );
    assert_eq!(
        error_of(&["--format", "xml", "a.md"]),
        "unknown format \"xml\"; use text or json"
    );
    assert_eq!(error_of(&["--jobs", "-1", "a.md"]), "invalid job count \"-1\"");
    assert_eq!(error_of(&["--bogus", "a.md"]), "unknown option \"--bogus\"");
}

#[test]
fn job_counts_parse_as_usize_does() {
    for text in ["0", "7", "+12", "0042", "18446744073709551615", "", "+", "-3", "1_000", " 5", "18446744073709551616"] {
        assert_eq!(parse_usize(text), text.parse::<usize>().ok(), "{text:?}");
    }
}

#[test]
fn glob_metacharacters_are_detected() {
    assert!(contains_glob_meta("**/*.md"));
    assert!(contains_glob_meta("file?.txt"));
    assert!(contains_glob_meta("[ab].md"));
    assert!(!contains_glob_meta("docs/readme.md"));
    let components = args(&["docs", "guide", "*.md"]);
    assert_eq!(literal_glob_prefix(&components), 2);
    assert_eq!(literal_glob_prefix(&args(&["**", "x.md"])), 0);
    assert_eq!(literal_glob_prefix(&args(&["a", "b"])), 2);
}

#[test]
fn prose_extensions_are_supported_in_any_ascii_case() {
    for ext in ["md", "MD", "mdx", "txt", "Rst", "adoc", "tex", "TYP"] {
        assert!(is_supported_extension(ext), "{ext}");
    }
    for ext in ["rs", "markdown", "", "m", "mdxx", "doc"] {
        assert!(!is_supported_extension(ext), "{ext}");
    }
}

#[test]
fn hidden_build_and_dependency_directories_are_skipped() {
    for name in [".git", ".cache", "target", "node_modules", "vendor", "dist", "build"] {
        assert!(is_skipped_directory(name), "{name}");
    }
    for name in ["docs", "src", "Target", "builds"] {
        assert!(!is_skipped_directory(name), "{name}");
    }
}

#[test]
fn repository_terms_are_trimmed_and_given_defaults() {
    let term = repository_term("cfg.json", "  Magic Surface \n", Severity::High, None, None).unwrap();
    assert_eq!(term.term, "Magic Surface");
    assert_eq!(term.severity, Severity::High);
    assert_eq!(
        term.message,
        "\"Magic Surface\" is discouraged by this repository's prose policy."
    );
    assert_eq!(
        term.suggestion,
        "Use the repository's preferred wording or explain why this term is needed."
    );

    let detailed = repository_term(
        "cfg.json",
        "leverage",
        Severity::Low,
        Some("Say use.".to_owned()),
        Some("Write use.".to_owned()),
    )
    .unwrap();
    assert_eq!(detailed.message, "Say use.");
    assert_eq!(detailed.suggestion, "Write use.");

    match repository_term("cfg.json", " \t ", Severity::Medium, None, None) {
        Err(message) => assert_eq!(message, "invalid cfg.json: custom term must not be empty"),
        Ok(_) => panic!("a blank term must be refused"),
    }
}

#[test]
fn strict_mode_fails_only_for_high_confidence_findings() {
    let scanner = Scanner::with_rules(
        vec![prose_lint::RuleDef {
            id: "technical.empty-importance".to_owned(),
            severity: Severity::High,
            kind: prose_lint::RuleKind::Literal,
            patterns: vec!["It is important to note".to_owned()],
            message: "m".to_owned(),
            suggestion: "s".to_owned(),
            profiles: vec!["all".to_owned()],
        }],
        vec![prose_lint::VocabularyEntry {
            word: "accentuates".to_owned(),
            class: "style".to_owned(),
        }],
        Vec::new(),
    )
    .unwrap();
    let all = ScanOptions {
        profile: Profile::Technical,
        show_all: true,
    };
    let weak = scanner.scan_text("weak.md", "The method accentuates the result.", &all);
    let strong = scanner.scan_text("strong.md", "It is important to note that this works.", &all);
    assert_eq!(weak.findings.len(), 1);
    assert!(!strict_failure(true, &vec![weak]));
    let weak = scanner.scan_text("weak.md", "The method accentuates the result.", &all);
    assert!(strict_failure(true, &vec![weak, strong]));
    let strong = scanner.scan_text("strong.md", "It is important to note that this works.", &all);
    assert!(!strict_failure(false, &vec![strong]));
}

#[test]
fn configuration_search_stops_at_the_repository_root() {
    assert_eq!(discovery_step(true, false), Discovery::Use);
    assert_eq!(discovery_step(true, true), Discovery::Use);
    assert_eq!(discovery_step(false, true), Discovery::Stop);
    assert_eq!(discovery_step(false, false), Discovery::Ascend);
}

#[test]
fn existing_paths_are_taken_literally() {
    assert!(expands_as_glob(false, "docs/*.md"));
    assert!(!expands_as_glob(true, "docs/*.md"));
    assert!(!expands_as_glob(false, "docs/readme.md"));
}
