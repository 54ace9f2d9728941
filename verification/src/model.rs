//! The data of the linter: writing profiles, severities, options, rules,
//! findings and reports.
use vstd::prelude::*;
use crate::text::str_eq;
use crate::strings::{debug_form, debug_text, decimal, decimal_chars};

verus! {

/// A writing genre; each rule applies to some of them.
#[derive(Clone, Copy, Debug, PartialEq, Eq, Structural)]
pub enum Profile {
    Technical,
    Academic,
    Pr,
    Commit,
    Casual,
    Marketing,
}

/// The profile that a name denotes, if any.
pub open spec fn profile_named(name: Seq<char>) -> Option<Profile> {
    if name == "technical"@ {
        Some(Profile::Technical)
    } else if name == "academic"@ {
        Some(Profile::Academic)
    } else if name == "pr"@ {
        Some(Profile::Pr)
    } else if name == "commit"@ {
        Some(Profile::Commit)
    } else if name == "casual"@ {
        Some(Profile::Casual)
    } else if name == "marketing"@ {
        Some(Profile::Marketing)
    } else {
        None
    }
}

/// The lower-case name of a profile.
pub open spec fn profile_name(p: Profile) -> Seq<char> {
    match p {
        Profile::Technical => "technical"@,
        Profile::Academic => "academic"@,
        Profile::Pr => "pr"@,
        Profile::Commit => "commit"@,
        Profile::Casual => "casual"@,
        Profile::Marketing => "marketing"@,
    }
}

impl Profile {
    /// The profile with the given lower-case name.
    pub fn parse(value: &str) -> (r: Option<Profile>)
        ensures
            r == profile_named(value@),
    {
        if str_eq(value, "technical") {
            Some(Profile::Technical)
        } else if str_eq(value, "academic") {
            Some(Profile::Academic)
        } else if str_eq(value, "pr") {
            Some(Profile::Pr)
        } else if str_eq(value, "commit") {
            Some(Profile::Commit)
        } else if str_eq(value, "casual") {
            Some(Profile::Casual)
        } else if str_eq(value, "marketing") {
            Some(Profile::Marketing)
        } else {
            None
        }
    }

    /// The lower-case name of the profile.
    pub fn name(self) -> (r: &'static str)
        ensures
            r@ == profile_name(self),
    {
        match self {
            Profile::Technical => "technical",
            Profile::Academic => "academic",
            Profile::Pr => "pr",
            Profile::Commit => "commit",
            Profile::Casual => "casual",
            Profile::Marketing => "marketing",
        }
    }
}

impl Default for Profile {
    fn default() -> (r: Profile)
        ensures
            r == Profile::Technical,
    {
        Profile::Technical
    }
}

/// Parsing the name of a profile gives that profile back.
pub proof fn lemma_parse_name(p: Profile)
    ensures
        profile_named(profile_name(p)) == Some(p),
{
    reveal_strlit("technical");
    reveal_strlit("academic");
    reveal_strlit("pr");
    reveal_strlit("commit");
    reveal_strlit("casual");
    reveal_strlit("marketing");
    assert("technical"@.len() == 9 && "academic"@.len() == 8 && "pr"@.len() == 2);
    assert("commit"@.len() == 6 && "casual"@.len() == 6 && "marketing"@.len() == 9);
    assert("technical"@[0] != "marketing"@[0]);
    assert("commit"@[1] != "casual"@[1]);
}

/// How much a finding weighs: only `High` findings fail a strict scan.
#[derive(Clone, Copy, Debug, PartialEq, Eq, Structural, PartialOrd, Ord, Hash)]
pub enum Severity {
    Low,
    Medium,
    High,
}

/// The rank of a severity, increasing from `Low` to `High`.
pub open spec fn severity_rank(s: Severity) -> int {
    match s {
        Severity::Low => 0,
        Severity::Medium => 1,
        Severity::High => 2,
    }
}

/// The rank of a severity, increasing from `Low` to `High`.
pub fn rank(s: Severity) -> (r: u8)
    ensures
        r == severity_rank(s),
{
    match s {
        Severity::Low => 0,
        Severity::Medium => 1,
        Severity::High => 2,
    }
}

/// The output format of a report.
#[derive(Clone, Copy, Debug, PartialEq, Eq, Structural)]
pub enum Format {
    Text,
    Json,
}

/// What a scan applies and shows.
#[derive(Clone, Copy, Debug)]
pub struct ScanOptions {
    pub profile: Profile,
    pub show_all: bool,
}

impl Default for ScanOptions {
    fn default() -> (r: ScanOptions)
        ensures
            r.profile == Profile::Technical,
            !r.show_all,
    {
        ScanOptions { profile: Profile::Technical, show_all: false }
    }
}

/// One reported span of a document.
#[derive(Clone, Debug)]
pub struct Finding {
    pub rule_id: String,
    pub severity: Severity,
    pub line: usize,
    pub column: usize,
    pub start: usize,
    pub end: usize,
    pub matched: String,
    pub message: String,
    pub suggestion: String,
}

/// The findings of one document.
#[derive(Clone, Debug)]
pub struct Report {
    pub path: String,
    pub profile: Profile,
    pub findings: Vec<Finding>,
    pub suppressed_low_confidence: usize,
    pub vocabulary_candidates: usize,
    pub active_style_vocabulary: usize,
}

/// The number of findings of severity `High` among the first `n`.
pub open spec fn high_count(fs: Seq<Finding>, n: int) -> nat
    decreases n,
{
    if n <= 0 {
        0
    } else {
        high_count(fs, n - 1) + if fs[n - 1].severity == Severity::High {
            1nat
        } else {
            0nat
        }
    }
}

impl Report {
    /// The number of findings of severity `High`.
    pub fn high_confidence_count(&self) -> (r: usize)
        ensures
            r == high_count(self.findings@, self.findings@.len() as int),
            r <= self.findings@.len(),
    {
        let mut count: usize = 0;
        let mut i: usize = 0;
        while i < self.findings.len()
            invariant
                i <= self.findings@.len(),
                count == high_count(self.findings@, i as int),
                count <= i,
            decreases self.findings@.len() - i,
        {
            if self.findings[i].severity == Severity::High {
                count = count + 1;
            }
            i = i + 1;
        }
        count
    }
}

/// How a rule's patterns are matched.
#[derive(Clone, Copy, Debug, PartialEq, Eq, Structural)]
pub enum RuleKind {
    Literal,
    Regex,
}

/// A curated rule: its patterns, the profiles it applies to, and what it
/// reports.
#[derive(Clone, Debug)]
pub struct RuleDef {
    pub id: String,
    pub severity: Severity,
    pub kind: RuleKind,
    pub patterns: Vec<String>,
    pub message: String,
    pub suggestion: String,
    pub profiles: Vec<String>,
}

/// One record of the excess-vocabulary data set.
#[derive(Clone, Debug)]
pub struct VocabularyEntry {
    pub word: String,
    pub class: String,
}

/// A term that a repository's configuration discourages.
#[derive(Clone, Debug)]
pub struct CustomTerm {
    pub term: String,
    pub severity: Severity,
    pub message: String,
    pub suggestion: String,
}

/// Why a scanner could not be built.
#[derive(Debug)]
pub enum Error {
    Data(String),
}


/// How `{:?}` writes a severity.
pub open spec fn severity_label(s: Severity) -> Seq<char> {
    match s {
        Severity::Low => "Low"@,
        Severity::Medium => "Medium"@,
        Severity::High => "High"@,
    }
}

/// The text lines of one finding: severity, line and column, rule id, then
/// the message, the quoted matched text and the suggestion, indented.
pub open spec fn finding_text(f: Finding) -> Seq<char> {
    "  "@ + severity_label(f.severity) + " "@ + decimal_chars(f.line as nat) + ":"@ + decimal_chars(
        f.column as nat,
    ) + " "@ + f.rule_id@ + "\n    "@ + f.message@ + "\n    matched: "@ + debug_form(f.matched@)
        + "\n    suggestion: "@ + f.suggestion@ + "\n"@
}

/// The text of the first `n` findings.
pub open spec fn findings_text(fs: Seq<Finding>, n: int) -> Seq<char>
    decreases n,
{
    if n <= 0 {
        Seq::empty()
    } else {
        findings_text(fs, n - 1) + finding_text(fs[n - 1])
    }
}

/// The first line of a report: path, profile, number of findings and, when
/// some were summarized, the number of low-confidence signals.
pub open spec fn report_header(r: Report) -> Seq<char> {
    r.path@ + " ["@ + profile_name(r.profile) + "]: "@ + decimal_chars(r.findings@.len()) + " finding(s)"@
        + (if r.suppressed_low_confidence > 0 {
        ", "@ + decimal_chars(r.suppressed_low_confidence as nat) + " low-confidence signal(s) summarized"@
    } else {
        Seq::empty()
    }) + "\n"@
}

/// The text rendering of a report.
pub open spec fn report_text(r: Report) -> Seq<char> {
    report_header(r) + findings_text(r.findings@, r.findings@.len() as int)
}

/// The name that `{:?}` gives a severity.
fn severity_text(s: Severity) -> (r: &'static str)
    ensures
        r@ == severity_label(s),
{
    match s {
        Severity::Low => "Low",
        Severity::Medium => "Medium",
        Severity::High => "High",
    }
}

/// The text of one finding.
fn finding_line(f: &Finding) -> (r: String)
    ensures
        r@ == finding_text(*f),
{
    let mut out = "  ".to_owned();
    out.append(severity_text(f.severity));
    out.append(" ");
    out.append(decimal(f.line).as_str());
    out.append(":");
    out.append(decimal(f.column).as_str());
    out.append(" ");
    out.append(f.rule_id.as_str());
    out.append("\n    ");
    out.append(f.message.as_str());
    out.append("\n    matched: ");
    out.append(debug_text(f.matched.as_str()).as_str());
    out.append("\n    suggestion: ");
    out.append(f.suggestion.as_str());
    out.append("\n");
    proof {
        assert(out@ =~= finding_text(*f));
    }
    out
}

impl Report {
    /// The report as text: a header line, then each finding.
    pub fn render_text(&self) -> (r: String)
        ensures
            r@ == report_text(*self),
    {
        let mut out = self.path.clone();
        out.append(" [");
        out.append(self.profile.name());
        out.append("]: ");
        out.append(decimal(self.findings.len()).as_str());
        out.append(" finding(s)");
        if self.suppressed_low_confidence > 0 {
            out.append(", ");
            out.append(decimal(self.suppressed_low_confidence).as_str());
            out.append(" low-confidence signal(s) summarized");
        }
        out.append("\n");
        proof {
            assert(out@ =~= report_header(*self));
        }
        let ghost header = out@;
        let mut i: usize = 0;
        while i < self.findings.len()
            invariant
                i <= self.findings@.len(),
                out@ == header + findings_text(self.findings@, i as int),
            decreases self.findings@.len() - i,
        {
            let ghost before = out@;
            let line = finding_line(&self.findings[i]);
            out.append(line.as_str());
            proof {
                assert(header + findings_text(self.findings@, i + 1) =~= before + finding_text(
                    self.findings@[i as int],
                ));
            }
            i = i + 1;
        }
        out
    }
}

} // verus!
