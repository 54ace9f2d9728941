//! The decisions of the command-line tool: what its arguments ask for,
//! which files and directories it reads, how a repository term becomes a
//! rule, and when a strict run fails. Reading files and printing stay with
//! the program.
use vstd::prelude::*;
use vstd::string::*;
use crate::chinese::{trimmed, trim_start_of, trim_end_of};
use crate::model::{
    high_count, profile_named, CustomTerm, Format, Profile, Report, Severity,
};
use crate::strings::{debug_form, debug_text, substring};
use crate::text::{char_table, lemma_table_slice, str_eq};

verus! {

/// The options and paths of a scan, as values.
pub struct CliView {
    pub paths: Seq<Seq<char>>,
    pub profile: Profile,
    pub format: Format,
    pub show_all: bool,
    pub strict: bool,
    pub jobs: Option<usize>,
    pub config: Option<Seq<char>>,
}

/// What the arguments ask for.
pub enum Parsed {
    /// Print the help text.
    Help,
    /// Print the version.
    Version,
    /// Scan with these options.
    Scan(CliView),
    /// Refuse the arguments with this message.
    Failed(Seq<char>),
}

/// The options before any argument is read.
pub open spec fn initial_view() -> CliView {
    CliView {
        paths: Seq::empty(),
        profile: Profile::Technical,
        format: Format::Text,
        show_all: false,
        strict: false,
        jobs: None,
        config: None,
    }
}

/// `c` is an ASCII digit.
pub open spec fn digit(c: char) -> bool {
    '0' <= c <= '9'
}

/// The value of a string of decimal digits.
pub open spec fn digits_value(s: Seq<char>) -> int
    decreases s.len(),
{
    if s.len() == 0 {
        0
    } else {
        digits_value(s.drop_last()) * 10 + (s.last() as int - '0' as int)
    }
}

/// The unsigned number that `s` writes, as `str::parse::<usize>` reads it:
/// an optional `+`, then one or more decimal digits, with a value that fits.
pub open spec fn decimal_value(s: Seq<char>) -> Option<usize> {
    decimal_value_of_digits(
        if s.len() > 0 && s[0] == '+' {
            s.drop_first()
        } else {
            s
        },
    )
}

/// The number that `d` writes, when it is a nonempty string of digits whose
/// value fits.
pub open spec fn decimal_value_of_digits(d: Seq<char>) -> Option<usize> {
    if d.len() > 0 && (forall|k: int| 0 <= k < d.len() ==> digit(#[trigger] d[k])) && digits_value(d)
        <= usize::MAX {
        Some(digits_value(d) as usize)
    } else {
        None
    }
}

/// The outcome of reading the arguments from the `i`-th on, with the
/// options `st` read so far.
pub open spec fn parse_from(args: Seq<Seq<char>>, i: int, st: CliView) -> Parsed
    decreases args.len() - i,
{
    if i < 0 || i >= args.len() {
        if st.paths.len() == 0 {
            Parsed::Failed("at least one path is required"@)
        } else {
            Parsed::Scan(st)
        }
    } else {
        let a = args[i];
        if a == "-h"@ || a == "--help"@ {
            Parsed::Help
        } else if a == "-V"@ || a == "--version"@ {
            Parsed::Version
        } else if a == "--all"@ {
            parse_from(args, i + 1, CliView { show_all: true, ..st })
        } else if a == "--strict"@ {
            parse_from(args, i + 1, CliView { strict: true, ..st })
        } else if a == "--profile"@ {
            if i + 1 >= args.len() {
                Parsed::Failed("--profile requires a value"@)
            } else {
                match profile_named(args[i + 1]) {
                    Some(p) => parse_from(args, i + 2, CliView { profile: p, ..st }),
                    None => Parsed::Failed(
                        "unknown profile "@ + debug_form(args[i + 1])
                            + "; use technical, academic, pr, commit, casual, or marketing"@,
                    ),
                }
            }
        } else if a == "--format"@ {
            if i + 1 >= args.len() {
                Parsed::Failed("--format requires a value"@)
            } else if args[i + 1] == "text"@ {
                parse_from(args, i + 2, CliView { format: Format::Text, ..st })
            } else if args[i + 1] == "json"@ {
                parse_from(args, i + 2, CliView { format: Format::Json, ..st })
            } else {
                Parsed::Failed("unknown format "@ + debug_form(args[i + 1]) + "; use text or json"@)
            }
        } else if a == "--jobs"@ {
            if i + 1 >= args.len() {
                Parsed::Failed("--jobs requires a value"@)
            } else {
                match decimal_value(args[i + 1]) {
                    Some(n) => parse_from(args, i + 2, CliView { jobs: Some(n), ..st }),
                    None => Parsed::Failed("invalid job count "@ + debug_form(args[i + 1])),
                }
            }
        } else if a == "--config"@ {
            if i + 1 >= args.len() {
                Parsed::Failed("--config requires a value"@)
            } else {
                parse_from(args, i + 2, CliView { config: Some(args[i + 1]), ..st })
            }
        } else if a == "--"@ {
            let paths = st.paths + args.subrange(i + 1, args.len() as int);
            if paths.len() == 0 {
                Parsed::Failed("at least one path is required"@)
            } else {
                Parsed::Scan(CliView { paths: paths, ..st })
            }
        } else if a.len() > 0 && a[0] == '-' {
            Parsed::Failed("unknown option "@ + debug_form(a))
        } else {
            parse_from(args, i + 1, CliView { paths: st.paths.push(a), ..st })
        }
    }
}

/// What the arguments ask for: help when there are none; otherwise the
/// options and paths that follow an optional leading `scan`.
pub open spec fn parsed(args: Seq<Seq<char>>) -> Parsed {
    if args.len() == 0 {
        Parsed::Help
    } else {
        parse_from(
            args,
            if args[0] == "scan"@ {
                1
            } else {
                0
            },
            initial_view(),
        )
    }
}

/// `p` with the output format of a scan set to `f`.
pub open spec fn with_format(p: Parsed, f: Format) -> Parsed {
    match p {
        Parsed::Scan(v) => Parsed::Scan(CliView { format: f, ..v }),
        _ => p,
    }
}

/// No argument from the `i`-th on is `--format`.
pub open spec fn no_format_option(args: Seq<Seq<char>>, i: int) -> bool {
    forall|k: int| i <= k < args.len() ==> #[trigger] args[k] != "--format"@
}

/// The option names differ from `--format`, and the two format values
/// differ from each other.
proof fn lemma_option_names()
    ensures
        "--format"@ != "-h"@,
        "--format"@ != "--help"@,
        "--format"@ != "-V"@,
        "--format"@ != "--version"@,
        "--format"@ != "--all"@,
        "--format"@ != "--strict"@,
        "--format"@ != "--profile"@,
        "--format"@ != "scan"@,
        "text"@ != "json"@,
{
    reveal_strlit("--format");
    reveal_strlit("-h");
    reveal_strlit("--help");
    reveal_strlit("-V");
    reveal_strlit("--version");
    reveal_strlit("--all");
    reveal_strlit("--strict");
    reveal_strlit("--profile");
    reveal_strlit("scan");
    reveal_strlit("text");
    reveal_strlit("json");
    assert("--format"@.len() != "-h"@.len());
    assert("--format"@.len() != "--help"@.len());
    assert("--format"@.len() != "-V"@.len());
    assert("--format"@.len() != "--version"@.len());
    assert("--format"@.len() != "--all"@.len());
    assert("--format"@[2] != "--strict"@[2]);
    assert("--format"@.len() != "--profile"@.len());
    assert("--format"@.len() != "scan"@.len());
    assert("text"@[0] != "json"@[0]);
}

/// Without a `--format` among the remaining arguments, the format read so
/// far is the format of the scan.
proof fn lemma_format_carried(args: Seq<Seq<char>>, i: int, st: CliView, f: Format)
    requires
        0 <= i,
        no_format_option(args, i),
    ensures
        parse_from(args, i, CliView { format: f, ..st }) == with_format(parse_from(args, i, st), f),
    decreases args.len() - i,
{
    let sf = CliView { format: f, ..st };
    if i < args.len() {
        let a = args[i];
        assert(a != "--format"@);
        if a == "-h"@ || a == "--help"@ || a == "-V"@ || a == "--version"@ {
        } else if a == "--all"@ {
            lemma_format_carried(args, i + 1, CliView { show_all: true, ..st }, f);
            assert(CliView { show_all: true, ..sf } == CliView { format: f, ..CliView { show_all: true, ..st } });
        } else if a == "--strict"@ {
            lemma_format_carried(args, i + 1, CliView { strict: true, ..st }, f);
            assert(CliView { strict: true, ..sf } == CliView { format: f, ..CliView { strict: true, ..st } });
        } else if a == "--profile"@ {
            if i + 1 < args.len() {
                match profile_named(args[i + 1]) {
                    Some(p) => {
                        lemma_format_carried(args, i + 2, CliView { profile: p, ..st }, f);
                        assert(CliView { profile: p, ..sf } == CliView { format: f, ..CliView { profile: p, ..st } });
                    },
                    None => {},
                }
            }
        } else if a == "--jobs"@ {
            if i + 1 < args.len() {
                match decimal_value(args[i + 1]) {
                    Some(n) => {
                        lemma_format_carried(args, i + 2, CliView { jobs: Some(n), ..st }, f);
                        assert(CliView { jobs: Some(n), ..sf } == CliView { format: f, ..CliView { jobs: Some(n), ..st } });
                    },
                    None => {},
                }
            }
        } else if a == "--config"@ {
            if i + 1 < args.len() {
                lemma_format_carried(args, i + 2, CliView { config: Some(args[i + 1]), ..st }, f);
                assert(CliView { config: Some(args[i + 1]), ..sf } == CliView {
                    format: f,
                    ..CliView { config: Some(args[i + 1]), ..st }
                });
            }
        } else if a == "--"@ {
        } else if a.len() > 0 && a[0] == '-' {
        } else {
            lemma_format_carried(args, i + 1, CliView { paths: st.paths.push(a), ..st }, f);
            assert(CliView { paths: sf.paths.push(a), ..sf } == CliView {
                format: f,
                ..CliView { paths: st.paths.push(a), ..st }
            });
        }
    }
}

/// Reading arguments after leading ones is reading the rest alone.
proof fn lemma_parse_shift(pre: Seq<Seq<char>>, args: Seq<Seq<char>>, i: int, st: CliView)
    requires
        0 <= i,
    ensures
        parse_from(pre + args, i + pre.len(), st) == parse_from(args, i, st),
    decreases args.len() - i,
{
    let all = pre + args;
    let d = pre.len() as int;
    if i < args.len() {
        assert(all[i + d] == args[i]);
        if i + 1 < args.len() {
            assert(all[i + d + 1] == args[i + 1]);
        }
        assert(all.subrange(i + d + 1, all.len() as int) =~= args.subrange(i + 1, args.len() as int));
        let a = args[i];
        if a == "-h"@ || a == "--help"@ || a == "-V"@ || a == "--version"@ {
        } else if a == "--all"@ {
            lemma_parse_shift(pre, args, i + 1, CliView { show_all: true, ..st });
        } else if a == "--strict"@ {
            lemma_parse_shift(pre, args, i + 1, CliView { strict: true, ..st });
        } else if a == "--profile"@ {
            if i + 1 < args.len() {
                match profile_named(args[i + 1]) {
                    Some(p) => {
                        lemma_parse_shift(pre, args, i + 2, CliView { profile: p, ..st });
                    },
                    None => {},
                }
            }
        } else if a == "--format"@ {
            if i + 1 < args.len() {
                lemma_parse_shift(pre, args, i + 2, CliView { format: Format::Text, ..st });
                lemma_parse_shift(pre, args, i + 2, CliView { format: Format::Json, ..st });
            }
        } else if a == "--jobs"@ {
            if i + 1 < args.len() {
                match decimal_value(args[i + 1]) {
                    Some(n) => {
                        lemma_parse_shift(pre, args, i + 2, CliView { jobs: Some(n), ..st });
                    },
                    None => {},
                }
            }
        } else if a == "--config"@ {
            if i + 1 < args.len() {
                lemma_parse_shift(pre, args, i + 2, CliView { config: Some(args[i + 1]), ..st });
            }
        } else if a == "--"@ {
        } else if a.len() > 0 && a[0] == '-' {
        } else {
            lemma_parse_shift(pre, args, i + 1, CliView { paths: st.paths.push(a), ..st });
        }
    }
}

/// The `--format` option decides the output format: without it a scan
/// writes text; `--format text` in front of arguments that do not name a
/// format gives what those arguments give, with text output, and
/// `--format json` the same with JSON output.
pub proof fn lemma_format_option(args: Seq<Seq<char>>)
    requires
        no_format_option(args, 0),
    ensures
        parse_from(args, 0, initial_view()) matches Parsed::Scan(v) ==> v.format == Format::Text,
        parsed(seq!["--format"@, "text"@] + args) == with_format(
            parse_from(args, 0, initial_view()),
            Format::Text,
        ),
        parsed(seq!["--format"@, "json"@] + args) == with_format(
            parse_from(args, 0, initial_view()),
            Format::Json,
        ),
{
    lemma_option_names();
    lemma_format_carried(args, 0, initial_view(), Format::Text);
    assert(CliView { format: Format::Text, ..initial_view() } == initial_view());
    lemma_format_carried(args, 0, initial_view(), Format::Json);
    let pt = seq!["--format"@, "text"@];
    let pj = seq!["--format"@, "json"@];
    assert((pt + args)[0] == "--format"@);
    assert((pt + args)[1] == "text"@);
    assert((pj + args)[0] == "--format"@);
    assert((pj + args)[1] == "json"@);
    lemma_parse_shift(pt, args, 0, CliView { format: Format::Text, ..initial_view() });
    lemma_parse_shift(pj, args, 0, CliView { format: Format::Json, ..initial_view() });
}

/// No argument from the `i`-th on is `name`.
pub open spec fn no_option(args: Seq<Seq<char>>, i: int, name: Seq<char>) -> bool {
    forall|k: int| i <= k < args.len() ==> #[trigger] args[k] != name
}

/// `p` with the profile of a scan set to `q`.
pub open spec fn with_profile(p: Parsed, q: Profile) -> Parsed {
    match p {
        Parsed::Scan(v) => Parsed::Scan(CliView { profile: q, ..v }),
        _ => p,
    }
}

/// `p` with `show_all` of a scan set when `x`, and `strict` when `y`.
pub open spec fn with_flags(p: Parsed, x: bool, y: bool) -> Parsed {
    match p {
        Parsed::Scan(v) => Parsed::Scan(CliView { show_all: v.show_all || x, strict: v.strict || y, ..v }),
        _ => p,
    }
}

/// The option names that `parse_from` tests before `--profile` differ
/// from it and from one another where the lemmas below need it, and the
/// profile names differ from one another.
proof fn lemma_profile_names()
    ensures
        "--profile"@ != "-h"@,
        "--profile"@ != "--help"@,
        "--profile"@ != "-V"@,
        "--profile"@ != "--version"@,
        "--profile"@ != "--all"@,
        "--profile"@ != "--strict"@,
        "--profile"@ != "scan"@,
        "--all"@ != "-h"@,
        "--all"@ != "--help"@,
        "--all"@ != "-V"@,
        "--all"@ != "--version"@,
        "--all"@ != "scan"@,
        "--strict"@ != "-h"@,
        "--strict"@ != "--help"@,
        "--strict"@ != "-V"@,
        "--strict"@ != "--version"@,
        "--strict"@ != "--all"@,
        "--strict"@ != "scan"@,
        "academic"@ != "technical"@,
        "pr"@ != "technical"@,
        "pr"@ != "academic"@,
        "commit"@ != "technical"@,
        "commit"@ != "academic"@,
        "commit"@ != "pr"@,
        "casual"@ != "technical"@,
        "casual"@ != "academic"@,
        "casual"@ != "pr"@,
        "casual"@ != "commit"@,
        "marketing"@ != "technical"@,
        "marketing"@ != "academic"@,
        "marketing"@ != "pr"@,
        "marketing"@ != "commit"@,
        "marketing"@ != "casual"@,
{
    reveal_strlit("--profile");
    reveal_strlit("-h");
    reveal_strlit("--help");
    reveal_strlit("-V");
    reveal_strlit("--version");
    reveal_strlit("--all");
    reveal_strlit("--strict");
    reveal_strlit("scan");
    reveal_strlit("technical");
    reveal_strlit("academic");
    reveal_strlit("pr");
    reveal_strlit("commit");
    reveal_strlit("casual");
    reveal_strlit("marketing");
    assert("--profile"@.len() != "-h"@.len());
    assert("--profile"@.len() != "-V"@.len());
    assert("--profile"@.len() != "--help"@.len());
    assert("--profile"@.len() != "--all"@.len());
    assert("--profile"@.len() != "--strict"@.len());
    assert("--profile"@.len() != "scan"@.len());
    assert("--all"@.len() != "-h"@.len());
    assert("--all"@.len() != "-V"@.len());
    assert("--all"@.len() != "--help"@.len());
    assert("--all"@.len() != "--version"@.len());
    assert("--all"@.len() != "scan"@.len());
    assert("--strict"@.len() != "-h"@.len());
    assert("--strict"@.len() != "-V"@.len());
    assert("--strict"@.len() != "--help"@.len());
    assert("--strict"@.len() != "--version"@.len());
    assert("--strict"@.len() != "--all"@.len());
    assert("--strict"@.len() != "scan"@.len());
    assert("--profile"@[2] != "--version"@[2]);
    assert("academic"@.len() != "technical"@.len());
    assert("pr"@.len() != "technical"@.len());
    assert("pr"@.len() != "academic"@.len());
    assert("commit"@.len() != "technical"@.len());
    assert("commit"@.len() != "academic"@.len());
    assert("commit"@.len() != "pr"@.len());
    assert("casual"@.len() != "technical"@.len());
    assert("casual"@.len() != "academic"@.len());
    assert("casual"@.len() != "pr"@.len());
    assert("marketing"@.len() != "academic"@.len());
    assert("marketing"@.len() != "pr"@.len());
    assert("marketing"@.len() != "commit"@.len());
    assert("marketing"@.len() != "casual"@.len());
    assert("commit"@[1] != "casual"@[1]);
    assert("marketing"@[0] != "technical"@[0]);
}

/// Without a `--profile` among the remaining arguments, the profile read so
/// far is the profile of the scan.
proof fn lemma_profile_carried(args: Seq<Seq<char>>, i: int, st: CliView, q: Profile)
    requires
        0 <= i,
        no_option(args, i, "--profile"@),
    ensures
        parse_from(args, i, CliView { profile: q, ..st }) == with_profile(parse_from(args, i, st), q),
    decreases args.len() - i,
{
    let sq = CliView { profile: q, ..st };
    if i < args.len() {
        let a = args[i];
        assert(a != "--profile"@);
        if a == "-h"@ || a == "--help"@ || a == "-V"@ || a == "--version"@ {
        } else if a == "--all"@ {
            lemma_profile_carried(args, i + 1, CliView { show_all: true, ..st }, q);
            assert(CliView { show_all: true, ..sq } == CliView { profile: q, ..CliView { show_all: true, ..st } });
        } else if a == "--strict"@ {
            lemma_profile_carried(args, i + 1, CliView { strict: true, ..st }, q);
            assert(CliView { strict: true, ..sq } == CliView { profile: q, ..CliView { strict: true, ..st } });
        } else if a == "--format"@ {
            if i + 1 < args.len() {
                lemma_profile_carried(args, i + 2, CliView { format: Format::Text, ..st }, q);
                lemma_profile_carried(args, i + 2, CliView { format: Format::Json, ..st }, q);
                assert(CliView { format: Format::Text, ..sq } == CliView { profile: q, ..CliView { format: Format::Text, ..st } });
                assert(CliView { format: Format::Json, ..sq } == CliView { profile: q, ..CliView { format: Format::Json, ..st } });
            }
        } else if a == "--jobs"@ {
            if i + 1 < args.len() {
                match decimal_value(args[i + 1]) {
                    Some(n) => {
                        lemma_profile_carried(args, i + 2, CliView { jobs: Some(n), ..st }, q);
                        assert(CliView { jobs: Some(n), ..sq } == CliView { profile: q, ..CliView { jobs: Some(n), ..st } });
                    },
                    None => {},
                }
            }
        } else if a == "--config"@ {
            if i + 1 < args.len() {
                lemma_profile_carried(args, i + 2, CliView { config: Some(args[i + 1]), ..st }, q);
                assert(CliView { config: Some(args[i + 1]), ..sq } == CliView {
                    profile: q,
                    ..CliView { config: Some(args[i + 1]), ..st }
                });
            }
        } else if a == "--"@ {
        } else if a.len() > 0 && a[0] == '-' {
        } else {
            lemma_profile_carried(args, i + 1, CliView { paths: st.paths.push(a), ..st }, q);
            assert(CliView { paths: sq.paths.push(a), ..sq } == CliView {
                profile: q,
                ..CliView { paths: st.paths.push(a), ..st }
            });
        }
    }
}

/// Flags set before the remaining arguments stay set in the scan.
proof fn lemma_flags_carried(args: Seq<Seq<char>>, i: int, st: CliView, x: bool, y: bool)
    requires
        0 <= i,
    ensures
        parse_from(args, i, CliView { show_all: st.show_all || x, strict: st.strict || y, ..st })
            == with_flags(parse_from(args, i, st), x, y),
    decreases args.len() - i,
{
    let sf = CliView { show_all: st.show_all || x, strict: st.strict || y, ..st };
    if i < args.len() {
        let a = args[i];
        if a == "-h"@ || a == "--help"@ || a == "-V"@ || a == "--version"@ {
        } else if a == "--all"@ {
            let t = CliView { show_all: true, ..st };
            lemma_flags_carried(args, i + 1, t, x, y);
            assert(CliView { show_all: true, ..sf } == CliView { show_all: t.show_all || x, strict: t.strict || y, ..t });
        } else if a == "--strict"@ {
            let t = CliView { strict: true, ..st };
            lemma_flags_carried(args, i + 1, t, x, y);
            assert(CliView { strict: true, ..sf } == CliView { show_all: t.show_all || x, strict: t.strict || y, ..t });
        } else if a == "--profile"@ {
            if i + 1 < args.len() {
                match profile_named(args[i + 1]) {
                    Some(p) => {
                        let t = CliView { profile: p, ..st };
                        lemma_flags_carried(args, i + 2, t, x, y);
                        assert(CliView { profile: p, ..sf } == CliView { show_all: t.show_all || x, strict: t.strict || y, ..t });
                    },
                    None => {},
                }
            }
        } else if a == "--format"@ {
            if i + 1 < args.len() {
                let t1 = CliView { format: Format::Text, ..st };
                let t2 = CliView { format: Format::Json, ..st };
                lemma_flags_carried(args, i + 2, t1, x, y);
                lemma_flags_carried(args, i + 2, t2, x, y);
                assert(CliView { format: Format::Text, ..sf } == CliView { show_all: t1.show_all || x, strict: t1.strict || y, ..t1 });
                assert(CliView { format: Format::Json, ..sf } == CliView { show_all: t2.show_all || x, strict: t2.strict || y, ..t2 });
            }
        } else if a == "--jobs"@ {
            if i + 1 < args.len() {
                match decimal_value(args[i + 1]) {
                    Some(n) => {
                        let t = CliView { jobs: Some(n), ..st };
                        lemma_flags_carried(args, i + 2, t, x, y);
                        assert(CliView { jobs: Some(n), ..sf } == CliView { show_all: t.show_all || x, strict: t.strict || y, ..t });
                    },
                    None => {},
                }
            }
        } else if a == "--config"@ {
            if i + 1 < args.len() {
                let t = CliView { config: Some(args[i + 1]), ..st };
                lemma_flags_carried(args, i + 2, t, x, y);
                assert(CliView { config: Some(args[i + 1]), ..sf } == CliView { show_all: t.show_all || x, strict: t.strict || y, ..t });
            }
        } else if a == "--"@ {
        } else if a.len() > 0 && a[0] == '-' {
        } else {
            let t = CliView { paths: st.paths.push(a), ..st };
            lemma_flags_carried(args, i + 1, t, x, y);
            assert(CliView { paths: sf.paths.push(a), ..sf } == CliView { show_all: t.show_all || x, strict: t.strict || y, ..t });
        }
    }
}

/// Without `--all` or `--strict` among the remaining arguments, the flags
/// read so far are those of the scan.
proof fn lemma_flags_kept(args: Seq<Seq<char>>, i: int, st: CliView)
    requires
        0 <= i,
    ensures
        no_option(args, i, "--all"@) ==> (parse_from(args, i, st) matches Parsed::Scan(v) ==> v.show_all
            == st.show_all),
        no_option(args, i, "--strict"@) ==> (parse_from(args, i, st) matches Parsed::Scan(v) ==> v.strict
            == st.strict),
    decreases args.len() - i,
{
    if i < args.len() {
        let a = args[i];
        if a == "-h"@ || a == "--help"@ || a == "-V"@ || a == "--version"@ {
        } else if a == "--all"@ {
            lemma_flags_kept(args, i + 1, CliView { show_all: true, ..st });
        } else if a == "--strict"@ {
            lemma_flags_kept(args, i + 1, CliView { strict: true, ..st });
        } else if a == "--profile"@ {
            if i + 1 < args.len() {
                match profile_named(args[i + 1]) {
                    Some(p) => {
                        lemma_flags_kept(args, i + 2, CliView { profile: p, ..st });
                    },
                    None => {},
                }
            }
        } else if a == "--format"@ {
            if i + 1 < args.len() {
                lemma_flags_kept(args, i + 2, CliView { format: Format::Text, ..st });
                lemma_flags_kept(args, i + 2, CliView { format: Format::Json, ..st });
            }
        } else if a == "--jobs"@ {
            if i + 1 < args.len() {
                match decimal_value(args[i + 1]) {
                    Some(n) => {
                        lemma_flags_kept(args, i + 2, CliView { jobs: Some(n), ..st });
                    },
                    None => {},
                }
            }
        } else if a == "--config"@ {
            if i + 1 < args.len() {
                lemma_flags_kept(args, i + 2, CliView { config: Some(args[i + 1]), ..st });
            }
        } else if a == "--"@ {
        } else if a.len() > 0 && a[0] == '-' {
        } else {
            lemma_flags_kept(args, i + 1, CliView { paths: st.paths.push(a), ..st });
        }
    }
}

/// `--all` shows every finding and `--strict` asks for a strict run: in
/// front of other arguments each sets its flag and changes nothing else,
/// and without them neither flag is set.
pub proof fn lemma_flag_options(args: Seq<Seq<char>>)
    ensures
        parsed(seq!["--all"@] + args) == with_flags(parse_from(args, 0, initial_view()), true, false),
        parsed(seq!["--strict"@] + args) == with_flags(parse_from(args, 0, initial_view()), false, true),
        no_option(args, 0, "--all"@) ==> (parse_from(args, 0, initial_view()) matches Parsed::Scan(v)
            ==> !v.show_all),
        no_option(args, 0, "--strict"@) ==> (parse_from(args, 0, initial_view()) matches Parsed::Scan(v)
            ==> !v.strict),
{
    lemma_profile_names();
    lemma_flags_kept(args, 0, initial_view());
    lemma_flags_carried(args, 0, initial_view(), true, false);
    lemma_flags_carried(args, 0, initial_view(), false, true);
    let pa = seq!["--all"@];
    let ps = seq!["--strict"@];
    assert((pa + args)[0] == "--all"@);
    assert((ps + args)[0] == "--strict"@);
    assert(CliView { show_all: true, ..initial_view() } == CliView {
        show_all: initial_view().show_all || true,
        strict: initial_view().strict || false,
        ..initial_view()
    });
    assert(CliView { strict: true, ..initial_view() } == CliView {
        show_all: initial_view().show_all || false,
        strict: initial_view().strict || true,
        ..initial_view()
    });
    lemma_parse_shift(pa, args, 0, CliView { show_all: true, ..initial_view() });
    lemma_parse_shift(ps, args, 0, CliView { strict: true, ..initial_view() });
}

/// `--profile` picks the profile by its name: in front of arguments that
/// do not name a profile, each of the six names gives what those arguments
/// give with that profile, and without the option the profile is
/// technical.
pub proof fn lemma_profile_option(args: Seq<Seq<char>>)
    requires
        no_option(args, 0, "--profile"@),
    ensures
        parse_from(args, 0, initial_view()) matches Parsed::Scan(v) ==> v.profile == Profile::Technical,
        parsed(seq!["--profile"@, "technical"@] + args) == with_profile(
            parse_from(args, 0, initial_view()),
            Profile::Technical,
        ),
        parsed(seq!["--profile"@, "academic"@] + args) == with_profile(
            parse_from(args, 0, initial_view()),
            Profile::Academic,
        ),
        parsed(seq!["--profile"@, "pr"@] + args) == with_profile(
            parse_from(args, 0, initial_view()),
            Profile::Pr,
        ),
        parsed(seq!["--profile"@, "commit"@] + args) == with_profile(
            parse_from(args, 0, initial_view()),
            Profile::Commit,
        ),
        parsed(seq!["--profile"@, "casual"@] + args) == with_profile(
            parse_from(args, 0, initial_view()),
            Profile::Casual,
        ),
        parsed(seq!["--profile"@, "marketing"@] + args) == with_profile(
            parse_from(args, 0, initial_view()),
            Profile::Marketing,
        ),
{
    lemma_profile_names();
    lemma_profile_carried(args, 0, initial_view(), Profile::Technical);
    assert(CliView { profile: Profile::Technical, ..initial_view() } == initial_view());
    lemma_profile_shifted(args, "technical"@, Profile::Technical);
    lemma_profile_shifted(args, "academic"@, Profile::Academic);
    lemma_profile_shifted(args, "pr"@, Profile::Pr);
    lemma_profile_shifted(args, "commit"@, Profile::Commit);
    lemma_profile_shifted(args, "casual"@, Profile::Casual);
    lemma_profile_shifted(args, "marketing"@, Profile::Marketing);
}

/// A profile option whose name reads as `q`, in front of arguments that
/// name no profile.
proof fn lemma_profile_shifted(args: Seq<Seq<char>>, name: Seq<char>, q: Profile)
    requires
        no_option(args, 0, "--profile"@),
        profile_named(name) == Some(q),
    ensures
        parsed(seq!["--profile"@, name] + args) == with_profile(parse_from(args, 0, initial_view()), q),
{
    lemma_profile_names();
    lemma_profile_carried(args, 0, initial_view(), q);
    let pre = seq!["--profile"@, name];
    assert((pre + args)[0] == "--profile"@);
    assert((pre + args)[1] == name);
    lemma_parse_shift(pre, args, 0, CliView { profile: q, ..initial_view() });
}

/// The options and paths of a scan.
pub struct Cli {
    pub paths: Vec<String>,
    pub profile: Profile,
    pub format: Format,
    pub show_all: bool,
    pub strict: bool,
    pub jobs: Option<usize>,
    pub config: Option<String>,
}

/// The strings of `v`, as character sequences.
pub open spec fn strings_view(v: Seq<String>) -> Seq<Seq<char>> {
    v.map_values(|s: String| s@)
}

impl Cli {
    /// The options as values.
    pub open spec fn view(&self) -> CliView {
        CliView {
            paths: strings_view(self.paths@),
            profile: self.profile,
            format: self.format,
            show_all: self.show_all,
            strict: self.strict,
            jobs: self.jobs,
            config: match self.config {
                Some(c) => Some(c@),
                None => None,
            },
        }
    }
}

/// What the arguments ask for.
pub enum Command {
    Help,
    Version,
    Scan(Cli),
}

impl Command {
    /// What the command stands for.
    pub open spec fn view(&self) -> Parsed {
        match self {
            Command::Help => Parsed::Help,
            Command::Version => Parsed::Version,
            Command::Scan(c) => Parsed::Scan(c.view()),
        }
    }
}

/// A digit's value is at most that of the string of digits it ends.
proof fn lemma_digits_prefix(s: Seq<char>, n: int)
    requires
        0 <= n <= s.len(),
        forall|k: int| 0 <= k < s.len() ==> digit(#[trigger] s[k]),
    ensures
        0 <= digits_value(s.take(n)) <= digits_value(s),
    decreases s.len() - n,
{
    if n < s.len() {
        lemma_digits_prefix(s, n + 1);
        assert(s.take(n + 1).drop_last() =~= s.take(n));
    } else {
        assert(s.take(n) =~= s);
    }
    lemma_digits_nonnegative(s.take(n));
}

/// A string of digits has a value of at least zero.
proof fn lemma_digits_nonnegative(s: Seq<char>)
    requires
        forall|k: int| 0 <= k < s.len() ==> digit(#[trigger] s[k]),
    ensures
        digits_value(s) >= 0,
    decreases s.len(),
{
    if s.len() > 0 {
        lemma_digits_nonnegative(s.drop_last());
    }
}

/// Reads an unsigned number as `str::parse::<usize>` does.
pub fn parse_usize(s: &str) -> (r: Option<usize>)
    ensures
        r == decimal_value(s@),
{
    let (cs, _) = char_table(s);
    let mut start: usize = 0;
    if cs.len() > 0 && cs[0] == '+' {
        start = 1;
    }
    let ghost d = if s@.len() > 0 && s@[0] == '+' {
        s@.drop_first()
    } else {
        s@
    };
    assert(d =~= cs@.subrange(start as int, cs@.len() as int));
    assert(decimal_value(s@) == decimal_value_of_digits(d));
    if start >= cs.len() {
        return None;
    }
    let mut value: usize = 0;
    let mut k = start;
    proof {
        assert(d.take(0) =~= Seq::<char>::empty());
    }
    while k < cs.len()
        invariant
            start <= k <= cs@.len(),
            d == cs@.subrange(start as int, cs@.len() as int),
            decimal_value(s@) == decimal_value_of_digits(d),
            forall|q: int| 0 <= q < k - start ==> digit(#[trigger] d[q]),
            value == digits_value(d.take(k - start)),
        decreases cs@.len() - k,
    {
        let c = cs[k];
        if !('0' <= c && c <= '9') {
            assert(d[k - start] == c);
            assert(!digit(d[k - start]));
            return None;
        }
        let dv = (c as u32 - '0' as u32) as usize;
        proof {
            assert(d.take(k - start + 1).drop_last() =~= d.take(k - start));
            assert(d.take(k - start + 1).last() == c);
        }
        match value.checked_mul(10) {
            Some(t) => match t.checked_add(dv) {
                Some(v) => {
                    value = v;
                },
                None => {
                    proof {
                        lemma_overflow_stays(d, k - start + 1);
                    }
                    return None;
                },
            },
            None => {
                proof {
                    lemma_overflow_stays(d, k - start + 1);
                }
                return None;
            },
        }
        k = k + 1;
    }
    proof {
        assert(d.take(k - start) =~= d);
    }
    Some(value)
}

/// Once a prefix of a string of digits (and of digits only so far) exceeds
/// `usize::MAX`, the whole string's value does too, or the string holds a
/// character that is not a digit.
proof fn lemma_overflow_stays(d: Seq<char>, n: int)
    requires
        0 < n <= d.len(),
        digits_value(d.take(n)) > usize::MAX,
    ensures
        decimal_value_of_digits(d) is None,
{
    if forall|k: int| 0 <= k < d.len() ==> digit(#[trigger] d[k]) {
        lemma_digits_prefix(d, n);
    }
}


/// The options read so far, as values.
pub open spec fn state_view(
    paths: Seq<String>,
    profile: Profile,
    format: Format,
    show_all: bool,
    strict: bool,
    jobs: Option<usize>,
    config: Option<String>,
) -> CliView {
    CliView {
        paths: strings_view(paths),
        profile,
        format,
        show_all,
        strict,
        jobs,
        config: match config {
            Some(c) => Some(c@),
            None => None,
        },
    }
}

/// An error message: `prefix`, the quoted `value`, then `suffix`.
fn quoted_error(prefix: &str, value: &str, suffix: &str) -> (r: String)
    ensures
        r@ == prefix@ + debug_form(value@) + suffix@,
{
    let mut m = prefix.to_owned();
    m.append(debug_text(value).as_str());
    m.append(suffix);
    m
}

/// Reads the command-line arguments (without the program name): help when
/// there are none or when `-h`/`--help` comes first among the options, the
/// version for `-V`/`--version`, otherwise the options and paths of a scan
/// after an optional leading `scan`; everything after `--` is a path. Fails
/// with a message on a missing or unknown value, an unknown option, or when
/// no path is given.
pub fn parse_args(args: Vec<String>) -> (r: Result<Command, String>)
    ensures
        r matches Ok(c) ==> c.view() == parsed(strings_view(args@)),
        r matches Err(m) ==> parsed(strings_view(args@)) == Parsed::Failed(m@),
{
    let ghost a = strings_view(args@);
    if args.len() == 0 {
        return Ok(Command::Help);
    }
    let mut index: usize = if str_eq(args[0].as_str(), "scan") {
        1
    } else {
        0
    };
    let mut paths: Vec<String> = Vec::new();
    let mut profile = Profile::Technical;
    let mut format = Format::Text;
    let mut show_all = false;
    let mut strict = false;
    let mut jobs: Option<usize> = None;
    let mut config: Option<String> = None;
    proof {
        assert(strings_view(paths@) =~= Seq::<Seq<char>>::empty());
        assert(a[0] == args@[0]@);
    }
    while index < args.len()
        invariant
            index <= args@.len(),
            a == strings_view(args@),
            a.len() > 0,
            parse_from(a, index as int, state_view(paths@, profile, format, show_all, strict, jobs, config))
                == parsed(a),
        decreases args@.len() - index,
    {
        let arg = args[index].as_str();
        let ghost st = state_view(paths@, profile, format, show_all, strict, jobs, config);
        assert(a[index as int] == arg@);
        if str_eq(arg, "-h") || str_eq(arg, "--help") {
            return Ok(Command::Help);
        } else if str_eq(arg, "-V") || str_eq(arg, "--version") {
            return Ok(Command::Version);
        } else if str_eq(arg, "--all") {
            show_all = true;
            index = index + 1;
        } else if str_eq(arg, "--strict") {
            strict = true;
            index = index + 1;
        } else if str_eq(arg, "--profile") {
            if index + 1 >= args.len() {
                return Err("--profile requires a value".to_owned());
            }
            let value = args[index + 1].as_str();
            assert(a[index + 1] == value@);
            match Profile::parse(value) {
                Some(p) => {
                    profile = p;
                    index = index + 2;
                },
                None => {
                    return Err(
                        quoted_error(
                            "unknown profile ",
                            value,
                            "; use technical, academic, pr, commit, casual, or marketing",
                        ),
                    );
                },
            }
        } else if str_eq(arg, "--format") {
            if index + 1 >= args.len() {
                return Err("--format requires a value".to_owned());
            }
            let value = args[index + 1].as_str();
            assert(a[index + 1] == value@);
            if str_eq(value, "text") {
                format = Format::Text;
            } else if str_eq(value, "json") {
                format = Format::Json;
            } else {
                return Err(quoted_error("unknown format ", value, "; use text or json"));
            }
            index = index + 2;
        } else if str_eq(arg, "--jobs") {
            if index + 1 >= args.len() {
                return Err("--jobs requires a value".to_owned());
            }
            let value = args[index + 1].as_str();
            assert(a[index + 1] == value@);
            match parse_usize(value) {
                Some(n) => {
                    jobs = Some(n);
                    index = index + 2;
                },
                None => {
                    proof {
                        reveal_strlit("");
                    }
                    return Err(quoted_error("invalid job count ", value, ""));
                },
            }
        } else if str_eq(arg, "--config") {
            if index + 1 >= args.len() {
                return Err("--config requires a value".to_owned());
            }
            assert(a[index + 1] == args@[index + 1]@);
            config = Some(args[index + 1].clone());
            index = index + 2;
        } else if str_eq(arg, "--") {
            let ghost p0 = strings_view(paths@);
            let mut j = index + 1;
            while j < args.len()
                invariant
                    index < j <= args@.len(),
                    a == strings_view(args@),
                    strings_view(paths@) == p0 + a.subrange(index + 1, j as int),
                decreases args@.len() - j,
            {
                let ghost before = strings_view(paths@);
                paths.push(args[j].clone());
                proof {
                    assert(strings_view(paths@) =~= before.push(a[j as int]));
                    assert(a.subrange(index + 1, j + 1) =~= a.subrange(index + 1, j as int).push(
                        a[j as int],
                    ));
                }
                j = j + 1;
            }
            if paths.len() == 0 {
                return Err("at least one path is required".to_owned());
            }
            let cli = Cli { paths, profile, format, show_all, strict, jobs, config };
            proof {
                assert(cli.view() =~= CliView { paths: p0 + a.subrange(index + 1, a.len() as int), ..st });
            }
            return Ok(Command::Scan(cli));
        } else if !arg.is_empty() && arg.get_char(0) == '-' {
            proof {
                reveal_strlit("");
            }
            return Err(quoted_error("unknown option ", arg, ""));
        } else {
            let ghost before = strings_view(paths@);
            paths.push(args[index].clone());
            proof {
                assert(strings_view(paths@) =~= before.push(arg@));
            }
            index = index + 1;
        }
    }
    if paths.len() == 0 {
        return Err("at least one path is required".to_owned());
    }
    Ok(Command::Scan(Cli { paths, profile, format, show_all, strict, jobs, config }))
}


/// `b` is a byte that makes a path a glob pattern: `*`, `?` or `[`.
pub open spec fn glob_meta_byte(b: u8) -> bool {
    b == 0x2a || b == 0x3f || b == 0x5b
}

/// The text holds a glob metacharacter.
pub open spec fn has_glob_meta(b: Seq<u8>) -> bool {
    exists|k: int| 0 <= k < b.len() && glob_meta_byte(#[trigger] b[k])
}

/// Whether `pattern` holds a glob metacharacter (`*`, `?` or `[`).
pub fn contains_glob_meta(pattern: &str) -> (r: bool)
    ensures
        r == has_glob_meta(pattern.spec_bytes()),
{
    let b = pattern.as_bytes();
    let mut k: usize = 0;
    while k < b.len()
        invariant
            k <= b@.len(),
            b@ == pattern.spec_bytes(),
            forall|q: int| 0 <= q < k ==> !glob_meta_byte(#[trigger] b@[q]),
        decreases b@.len() - k,
    {
        if b[k] == 0x2a || b[k] == 0x3f || b[k] == 0x5b {
            assert(glob_meta_byte(b@[k as int]));
            return true;
        }
        k = k + 1;
    }
    false
}

/// The number of leading path components that hold no glob metacharacter:
/// they form the literal directory a glob pattern is searched below.
pub open spec fn literal_prefix(components: Seq<Seq<u8>>, k: int) -> int
    decreases components.len() - k,
{
    if k < 0 || k >= components.len() || has_glob_meta(components[k]) {
        k
    } else {
        literal_prefix(components, k + 1)
    }
}

/// The number of leading components (as text) that hold no glob
/// metacharacter.
pub fn literal_glob_prefix(components: &Vec<String>) -> (r: usize)
    ensures
        r == literal_prefix(components@.map_values(|c: String| crate::text::bytes_of(c@)), 0),
        r <= components@.len(),
{
    let ghost cs = components@.map_values(|c: String| crate::text::bytes_of(c@));
    let mut k: usize = 0;
    while k < components.len()
        invariant
            k <= components@.len(),
            cs == components@.map_values(|c: String| crate::text::bytes_of(c@)),
            literal_prefix(cs, k as int) == literal_prefix(cs, 0),
        decreases components@.len() - k,
    {
        assert(cs[k as int] == crate::text::bytes_of(components@[k as int]@));
        if contains_glob_meta(components[k].as_str()) {
            return k;
        }
        k = k + 1;
    }
    k
}

/// `c` with an ASCII upper-case letter made lower-case.
pub open spec fn ascii_lower(c: char) -> char {
    if 'A' <= c <= 'Z' {
        ((c as u32) + 32) as char
    } else {
        c
    }
}

/// The extension in ASCII lower case.
pub open spec fn lowered(s: Seq<char>) -> Seq<char> {
    s.map_values(|c: char| ascii_lower(c))
}

/// The extensions of the prose files that a scan reads, compared without
/// regard to ASCII case: `md`, `mdx`, `txt`, `rst`, `adoc`, `tex`, `typ`.
pub open spec fn supported(extension: Seq<char>) -> bool {
    let l = lowered(extension);
    ||| l == seq!['m', 'd']
    ||| l == seq!['m', 'd', 'x']
    ||| l == seq!['t', 'x', 't']
    ||| l == seq!['r', 's', 't']
    ||| l == seq!['a', 'd', 'o', 'c']
    ||| l == seq!['t', 'e', 'x']
    ||| l == seq!['t', 'y', 'p']
}

/// `c` with an ASCII upper-case letter made lower-case.
fn lower_char(c: char) -> (r: char)
    ensures
        r == ascii_lower(c),
{
    if 'A' <= c && c <= 'Z' {
        let v = (c as u32) + 32;
        assert(v < 0xd800);
        match crate::words::char_from_scalar(v) {
            Some(x) => x,
            None => c,
        }
    } else {
        c
    }
}

/// Whether a file with this extension is read by a scan.
pub fn is_supported_extension(extension: &str) -> (r: bool)
    ensures
        r == supported(extension@),
{
    let (cs, _) = char_table(extension);
    let mut l: Vec<char> = Vec::new();
    let mut k: usize = 0;
    while k < cs.len()
        invariant
            k <= cs@.len(),
            cs@ == extension@,
            l@ == lowered(cs@).take(k as int),
        decreases cs@.len() - k,
    {
        l.push(lower_char(cs[k]));
        proof {
            assert(lowered(cs@).take(k + 1) =~= lowered(cs@).take(k as int).push(ascii_lower(cs@[k as int])));
        }
        k = k + 1;
    }
    proof {
        assert(lowered(cs@).take(k as int) =~= lowered(cs@));
    }
    if l.len() == 2 {
        let r = l[0] == 'm' && l[1] == 'd';
        proof {
            if r {
                assert(l@ =~= seq!['m', 'd']);
            }
        }
        r
    } else if l.len() == 3 {
        let r = (l[0] == 'm' && l[1] == 'd' && l[2] == 'x') || (l[0] == 't' && l[1] == 'x' && l[2]
            == 't') || (l[0] == 'r' && l[1] == 's' && l[2] == 't') || (l[0] == 't' && l[1] == 'e'
            && l[2] == 'x') || (l[0] == 't' && l[1] == 'y' && l[2] == 'p');
        proof {
            if l[0] == 'm' && l[1] == 'd' && l[2] == 'x' {
                assert(l@ =~= seq!['m', 'd', 'x']);
            } else if l[0] == 't' && l[1] == 'x' && l[2] == 't' {
                assert(l@ =~= seq!['t', 'x', 't']);
            } else if l[0] == 'r' && l[1] == 's' && l[2] == 't' {
                assert(l@ =~= seq!['r', 's', 't']);
            } else if l[0] == 't' && l[1] == 'e' && l[2] == 'x' {
                assert(l@ =~= seq!['t', 'e', 'x']);
            } else if l[0] == 't' && l[1] == 'y' && l[2] == 'p' {
                assert(l@ =~= seq!['t', 'y', 'p']);
            }
        }
        r
    } else if l.len() == 4 {
        let r = l[0] == 'a' && l[1] == 'd' && l[2] == 'o' && l[3] == 'c';
        proof {
            if r {
                assert(l@ =~= seq!['a', 'd', 'o', 'c']);
            }
        }
        r
    } else {
        false
    }
}

/// A directory that a scan does not enter: hidden, or a build, dependency
/// or vendored tree.
pub open spec fn skipped_directory(name: Seq<char>) -> bool {
    ||| name.len() > 0 && name[0] == '.'
    ||| name == "target"@
    ||| name == "node_modules"@
    ||| name == "vendor"@
    ||| name == "dist"@
    ||| name == "build"@
}

/// Whether a scan skips the directory with this name.
pub fn is_skipped_directory(name: &str) -> (r: bool)
    ensures
        r == skipped_directory(name@),
{
    (!name.is_empty() && name.get_char(0) == '.') || str_eq(name, "target") || str_eq(
        name,
        "node_modules",
    ) || str_eq(name, "vendor") || str_eq(name, "dist") || str_eq(name, "build")
}

/// The message of a repository term that does not say its own.
pub open spec fn default_term_message(term: Seq<char>) -> Seq<char> {
    debug_form(term) + " is discouraged by this repository's prose policy."@
}

/// The suggestion of a repository term that does not say its own.
pub open spec fn default_term_suggestion() -> Seq<char> {
    "Use the repository's preferred wording or explain why this term is needed."@
}

/// A repository term from its configuration entry: the term trimmed of
/// white space, with the given severity, and the given message and
/// suggestion or the defaults. Fails when the trimmed term is empty, with a
/// message that names the configuration file `config`.
pub fn repository_term(
    config: &str,
    term: &str,
    severity: Severity,
    message: Option<String>,
    suggestion: Option<String>,
) -> (r: Result<CustomTerm, String>)
    ensures
        r is Err <==> trimmed(term@).len() == 0,
        r matches Err(m) ==> m@ == "invalid "@ + config@ + ": custom term must not be empty"@,
        r matches Ok(t) ==> {
            &&& t.term@ == trimmed(term@)
            &&& t.severity == severity
            &&& t.message@ == match message {
                Some(m) => m@,
                None => default_term_message(trimmed(term@)),
            }
            &&& t.suggestion@ == match suggestion {
                Some(s) => s@,
                None => default_term_suggestion(),
            }
        },
{
    let (cs, offs) = char_table(term);
    let ts = crate::chinese::skip_white_exec(&cs, 0, cs.len());
    let te = crate::chinese::trim_white_end_exec(&cs, ts, cs.len());
    proof {
        lemma_table_slice(term.spec_bytes(), term@, offs@, ts as int, te as int);
    }
    let text = substring(term, offs[ts], offs[te]);
    assert(text@ == trimmed(term@));
    if text.is_empty() {
        let mut m = "invalid ".to_owned();
        m.append(config);
        m.append(": custom term must not be empty");
        return Err(m);
    }
    let message = match message {
        Some(m) => m,
        None => {
            let mut m = debug_text(text);
            m.append(" is discouraged by this repository's prose policy.");
            m
        },
    };
    let suggestion = match suggestion {
        Some(s) => s,
        None => "Use the repository's preferred wording or explain why this term is needed.".to_owned(),
    };
    Ok(CustomTerm { term: text.to_owned(), severity, message, suggestion })
}

/// A strict scan fails when some report holds a finding of severity `High`.
pub open spec fn strict_fails(strict: bool, reports: Seq<Report>) -> bool {
    strict && exists|k: int|
        0 <= k < reports.len() && high_count(
            #[trigger] reports[k].findings@,
            reports[k].findings@.len() as int,
        ) > 0
}

/// Whether a strict scan fails on these reports.
pub fn strict_failure(strict: bool, reports: &Vec<Report>) -> (r: bool)
    ensures
        r == strict_fails(strict, reports@),
{
    if !strict {
        return false;
    }
    let mut k: usize = 0;
    while k < reports.len()
        invariant
            k <= reports@.len(),
            strict,
            forall|q: int|
                0 <= q < k ==> high_count(
                    #[trigger] reports@[q].findings@,
                    reports@[q].findings@.len() as int,
                ) == 0,
        decreases reports@.len() - k,
    {
        if reports[k].high_confidence_count() > 0 {
            assert(high_count(reports@[k as int].findings@, reports@[k as int].findings@.len() as int) > 0);
            return true;
        }
        k = k + 1;
    }
    false
}


/// What the search for a repository configuration does at one directory,
/// walking from a file's directory towards the root.
#[derive(Clone, Copy, Debug, PartialEq, Eq, Structural)]
pub enum Discovery {
    /// Use the configuration file found in this directory.
    Use,
    /// Stop without a configuration: this directory is a repository root.
    Stop,
    /// Go on with the parent directory.
    Ascend,
}

/// The step of the configuration search at a directory: a configuration
/// file there is used, even at a repository root; otherwise the search
/// stops at a repository root and goes on to the parent elsewhere.
pub fn discovery_step(has_config: bool, repository_root: bool) -> (r: Discovery)
    ensures
        r == (if has_config {
            Discovery::Use
        } else if repository_root {
            Discovery::Stop
        } else {
            Discovery::Ascend
        }),
{
    if has_config {
        Discovery::Use
    } else if repository_root {
        Discovery::Stop
    } else {
        Discovery::Ascend
    }
}

/// Whether an input path is expanded as a glob pattern: only when no such
/// path exists and it holds a glob metacharacter.
pub fn expands_as_glob(exists: bool, pattern: &str) -> (r: bool)
    ensures
        r == (!exists && has_glob_meta(pattern.spec_bytes())),
{
    !exists && contains_glob_meta(pattern)
}

} // verus!
