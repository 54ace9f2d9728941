//! What a scan reports, stated over its inputs: the candidate findings of
//! each stage, the removal of repeated (rule, span) pairs, and the order of
//! a report. Also the functions that collect and order findings.
use vstd::prelude::*;
use vstd::utf8::*;
use vstd::string::*;
use crate::chinese::ZhHit;
use crate::location::{column_of, line_column, line_of, newline_index};
use crate::markdown::{masks, paragraphs};
use crate::model::{high_count, profile_name, severity_rank, rank, Finding, Profile, RuleDef, ScanOptions, Severity, CustomTerm};
use crate::scanner::LiteralTarget;
use crate::strings::{debug_form, decimal, decimal_chars, substring};
use crate::text::{
    at_char_start, chars_between, is_white_space, lemma_boundary_char_start, lemma_chars_between_split,
    scalar_at, str_eq, white_space,
};
use crate::words::word_boundaries;
use crate::engines::occurs_at;
use crate::confidence::{high_candidates, lemma_high_count_views, lemma_high_insert, lemma_high_suffix};

verus! {

/// A finding before its location is computed: rule id, severity, start and
/// end offsets, message and suggestion.
pub type Candidate = (Seq<char>, Severity, int, int, Seq<char>, Seq<char>);

/// The candidate of a finding.
pub open spec fn view_finding(f: Finding) -> Candidate {
    (f.rule_id@, f.severity, f.start as int, f.end as int, f.message@, f.suggestion@)
}

/// The candidates of a list of findings.
pub open spec fn views(fs: Seq<Finding>) -> Seq<Candidate> {
    fs.map_values(|f: Finding| view_finding(f))
}

/// A finding's line, column and matched text are those of its start and
/// span in the source bytes `src`.
pub open spec fn located(f: Finding, src: Seq<u8>) -> bool {
    &&& f.start <= f.end <= src.len()
    &&& f.line == line_of(src, f.start as int)
    &&& f.column == column_of(src, f.start as int)
    &&& f.matched@ == chars_between(src, f.start as int, f.end as int)
}

/// A rule applies to a profile when it lists `all` or the profile's name.
pub open spec fn rule_applies(rule: RuleDef, p: Profile) -> bool {
    exists|k: int|
        #![trigger rule.profiles@[k]]
        0 <= k < rule.profiles@.len() && (rule.profiles@[k]@ == "all"@ || rule.profiles@[k]@
            == profile_name(p))
}

/// The candidate that a rule reports for a span.
pub open spec fn rule_candidate(rule: RuleDef, s: int, e: int) -> Candidate {
    (rule.id@, rule.severity, s, e, rule.message@, rule.suggestion@)
}

/// The rule id of vocabulary findings.
pub open spec fn vocabulary_id() -> Seq<char> {
    "research.excess-vocabulary"@
}

/// The message of a vocabulary finding for `word`.
pub open spec fn vocabulary_message(word: Seq<char>) -> Seq<char> {
    debug_form(word)
        + " is an empirically observed excess style word in post-LLM PubMed abstracts; this is a weak, domain-specific signal."@
}

/// The suggestion of a vocabulary finding.
pub open spec fn vocabulary_suggestion() -> Seq<char> {
    "Review only in context; do not replace mechanically."@
}

/// The rule id of repository-term findings.
pub open spec fn custom_id() -> Seq<char> {
    "custom.repo-term"@
}

/// The candidate that a repository term reports for a span.
pub open spec fn custom_candidate(t: CustomTerm, s: int, e: int) -> Candidate {
    (custom_id(), t.severity, s, e, t.message@, t.suggestion@)
}

/// A fixed-phrase match from `s` to `e` of the masked bytes `m` counts:
/// it lies on character boundaries between word boundaries.
pub open spec fn hit_counts(m: Seq<u8>, s: int, e: int) -> bool {
    &&& 0 <= s <= e <= m.len()
    &&& is_char_boundary(m, s)
    &&& is_char_boundary(m, e)
    &&& word_boundaries(m, s, e)
}

/// The candidates of one fixed-phrase match.
pub open spec fn literal_step(
    rules: Seq<RuleDef>,
    custom: Seq<CustomTerm>,
    targets: Seq<LiteralTarget>,
    m: Seq<u8>,
    opts: ScanOptions,
    h: (usize, usize, usize),
) -> Seq<Candidate> {
    let (p, s, e) = h;
    if !hit_counts(m, s as int, e as int) {
        Seq::empty()
    } else {
        match targets[p as int] {
            LiteralTarget::Rule(i) => if rule_applies(rules[i as int], opts.profile) {
                seq![rule_candidate(rules[i as int], s as int, e as int)]
            } else {
                Seq::empty()
            },
            LiteralTarget::Vocabulary(w) => if opts.show_all {
                seq![
                    (
                        vocabulary_id(),
                        Severity::Low,
                        s as int,
                        e as int,
                        vocabulary_message(w@),
                        vocabulary_suggestion(),
                    ),
                ]
            } else {
                Seq::empty()
            },
            LiteralTarget::Custom(i) => seq![custom_candidate(custom[i as int], s as int, e as int)],
        }
    }
}

/// The candidates of the first `n` fixed-phrase matches, in order.
pub open spec fn literal_candidates(
    rules: Seq<RuleDef>,
    custom: Seq<CustomTerm>,
    targets: Seq<LiteralTarget>,
    m: Seq<u8>,
    opts: ScanOptions,
    hits: Seq<(usize, usize, usize)>,
    n: int,
) -> Seq<Candidate>
    decreases n,
{
    if n <= 0 {
        Seq::empty()
    } else {
        literal_candidates(rules, custom, targets, m, opts, hits, n - 1) + literal_step(
            rules,
            custom,
            targets,
            m,
            opts,
            hits[n - 1],
        )
    }
}

/// The number of counted vocabulary matches among the first `n` that a scan
/// without `show_all` summarizes instead of reporting.
pub open spec fn suppressed_count(
    targets: Seq<LiteralTarget>,
    m: Seq<u8>,
    opts: ScanOptions,
    hits: Seq<(usize, usize, usize)>,
    n: int,
) -> nat
    decreases n,
{
    if n <= 0 {
        0
    } else {
        suppressed_count(targets, m, opts, hits, n - 1) + if !opts.show_all && hit_counts(
            m,
            hits[n - 1].1 as int,
            hits[n - 1].2 as int,
        ) && targets[hits[n - 1].0 as int] is Vocabulary {
            1nat
        } else {
            0nat
        }
    }
}

/// The candidates that rule `rule` reports for a list of spans.
pub open spec fn spans_candidates(rule: RuleDef, spans: Seq<(usize, usize)>) -> Seq<Candidate> {
    spans.map_values(|sp: (usize, usize)| rule_candidate(rule, sp.0 as int, sp.1 as int))
}

/// The candidates of the first `n` regular expressions: each one that
/// matches the masked text and whose rule applies reports every match.
pub open spec fn regex_candidates(
    rules: Seq<RuleDef>,
    patterns: Seq<Seq<char>>,
    rule_of: Seq<usize>,
    masked: Seq<char>,
    opts: ScanOptions,
    n: int,
) -> Seq<Candidate>
    decreases n,
{
    if n <= 0 {
        Seq::empty()
    } else {
        regex_candidates(rules, patterns, rule_of, masked, opts, n - 1) + if crate::engines::regex_is_match(
            patterns[n - 1],
            masked,
        ) && rule_applies(rules[rule_of[n - 1] as int], opts.profile) {
            spans_candidates(
                rules[rule_of[n - 1] as int],
                crate::engines::regex_matches(patterns[n - 1], masked),
            )
        } else {
            Seq::empty()
        }
    }
}


/// The index of the first rule with id `id`, from the `i`-th rule on.
pub open spec fn rule_index_of(rules: Seq<RuleDef>, id: Seq<char>, i: int) -> Option<int>
    decreases rules.len() - i,
{
    if i < 0 || i >= rules.len() {
        None
    } else if rules[i].id@ == id {
        Some(i)
    } else {
        rule_index_of(rules, id, i + 1)
    }
}

/// The candidate of a structural lead: the rule with the lead's id reports
/// the lead's span, when there is such a rule and it applies.
pub open spec fn zh_step(rules: Seq<RuleDef>, opts: ScanOptions, h: ZhHit) -> Seq<Candidate> {
    match rule_index_of(rules, h.0, 0) {
        Some(i) => if rule_applies(rules[i], opts.profile) {
            seq![rule_candidate(rules[i], h.1, h.2)]
        } else {
            Seq::empty()
        },
        None => Seq::empty(),
    }
}

/// The candidates of the first `n` structural leads.
pub open spec fn zh_candidates(rules: Seq<RuleDef>, opts: ScanOptions, hits: Seq<ZhHit>, n: int) -> Seq<
    Candidate,
>
    decreases n,
{
    if n <= 0 {
        Seq::empty()
    } else {
        zh_candidates(rules, opts, hits, n - 1) + zh_step(rules, opts, hits[n - 1])
    }
}

/// The abstraction terms as bytes, the patterns of the cluster automaton.
pub open spec fn abstraction_bytes() -> Seq<Seq<u8>> {
    crate::scanner::abstraction_terms().map_values(|t: Seq<char>| encode_utf8(t))
}

/// The abstraction term with index `p` occurs in the paragraph `para` from
/// `s`, up to the case of ASCII letters, on character boundaries and between
/// word boundaries.
pub open spec fn term_at(para: Seq<u8>, p: int, s: int) -> bool {
    &&& occurs_at(para, abstraction_bytes()[p], s)
    &&& hit_counts(para, s, s + abstraction_bytes()[p].len())
}

/// The abstraction term with index `p` occurs somewhere in `para`.
pub open spec fn term_present(para: Seq<u8>, p: int) -> bool {
    exists|s: int| #[trigger] term_at(para, p, s)
}

/// For each of the eight abstraction terms, whether it occurs in `para`.
pub open spec fn present_terms(para: Seq<u8>) -> Seq<bool> {
    Seq::new(8, |p: int| term_present(para, p))
}

/// The abstraction terms are eight nonempty byte strings.
pub proof fn lemma_abstraction_bytes()
    ensures
        abstraction_bytes().len() == 8,
        forall|p: int| 0 <= p < 8 ==> #[trigger] abstraction_bytes()[p].len() > 0,
{
    reveal_strlit("boundary");
    reveal_strlit("surface");
    reveal_strlit("contract");
    reveal_strlit("posture");
    reveal_strlit("mechanism");
    reveal_strlit("authority");
    reveal_strlit("invariant");
    reveal_strlit("lifecycle");
    assert forall|p: int| 0 <= p < 8 implies #[trigger] abstraction_bytes()[p].len() > 0 by {
        let t = crate::scanner::abstraction_terms()[p];
        assert(t.len() > 0);
        assert(encode_utf8(t) == encode_scalar(t[0] as u32) + encode_utf8(t.drop_first()));
    }
}

/// The number of set flags among the first `n`.
pub open spec fn count_set(f: Seq<bool>, n: int) -> nat
    decreases n,
{
    if n <= 0 {
        0
    } else {
        count_set(f, n - 1) + if f[n - 1] {
            1nat
        } else {
            0nat
        }
    }
}

/// The indices of the abstraction terms in alphabetical order of the terms.
pub open spec fn alphabetical_terms() -> Seq<int> {
    seq![5, 0, 2, 6, 7, 4, 3, 1]
}

/// The flagged terms among the first `n` in alphabetical order, joined by
/// commas.
pub open spec fn joined_terms(f: Seq<bool>, n: int) -> Seq<char>
    decreases n,
{
    if n <= 0 {
        Seq::empty()
    } else {
        let prev = joined_terms(f, n - 1);
        let t = alphabetical_terms()[n - 1];
        if f[t] {
            if prev.len() == 0 {
                crate::scanner::abstraction_terms()[t]
            } else {
                prev + ", "@ + crate::scanner::abstraction_terms()[t]
            }
        } else {
            prev
        }
    }
}

/// The suggestion of an abstraction-cluster finding.
pub open spec fn cluster_suggestion() -> Seq<char> {
    "Keep canonical technical terms, but replace ornamental abstractions with concrete actors and operations."@
}

/// The candidate of the paragraph from `s` to `e` of the masked bytes `m`:
/// a cluster when at least three distinct abstraction terms occur in it.
pub open spec fn cluster_at(m: Seq<u8>, s: int, e: int) -> Seq<Candidate> {
    let para = m.subrange(s, e);
    let f = present_terms(para);
    if count_set(f, 8) >= 3 {
        seq![
            (
                "codex.abstraction-cluster"@,
                Severity::Medium,
                s,
                e,
                "Dense Codex-style abstraction cluster: "@ + joined_terms(f, 8) + "."@,
                cluster_suggestion(),
            ),
        ]
    } else {
        Seq::empty()
    }
}

/// The cluster candidates of the first `n` paragraphs.
pub open spec fn cluster_candidates(m: Seq<u8>, paras: Seq<(usize, usize)>, n: int) -> Seq<Candidate>
    decreases n,
{
    if n <= 0 {
        Seq::empty()
    } else {
        cluster_candidates(m, paras, n - 1) + cluster_at(m, paras[n - 1].0 as int, paras[n - 1].1 as int)
    }
}

/// The cluster stage: skipped for the casual and marketing profiles.
pub open spec fn cluster_stage(m: Seq<u8>, opts: ScanOptions) -> Seq<Candidate> {
    if opts.profile == Profile::Casual || opts.profile == Profile::Marketing {
        Seq::empty()
    } else {
        let paras = crate::markdown::paragraphs(m);
        cluster_candidates(m, paras, paras.len() as int)
    }
}

/// How many distinct abstraction terms occur in the paragraph from `s` to
/// `e` of `m`.
pub open spec fn terms_in(m: Seq<u8>, s: int, e: int) -> nat {
    count_set(present_terms(m.subrange(s, e)), 8)
}

proof fn lemma_cluster_candidates(m: Seq<u8>, paras: Seq<(usize, usize)>, n: int)
    requires
        0 <= n <= paras.len(),
    ensures
        forall|k: int|
            0 <= k < cluster_candidates(m, paras, n).len() ==> exists|q: int|
                0 <= q < n && #[trigger] cluster_candidates(m, paras, n)[k].2 == paras[q].0 && cluster_candidates(m, paras, n)[k].3
                    == paras[q].1 && terms_in(m, paras[q].0 as int, paras[q].1 as int) >= 3,
        (forall|q: int| 0 <= q < n ==> terms_in(m, #[trigger] paras[q].0 as int, paras[q].1 as int) < 3)
            ==> cluster_candidates(m, paras, n).len() == 0,
    decreases n,
{
    if n > 0 {
        lemma_cluster_candidates(m, paras, n - 1);
        let prev = cluster_candidates(m, paras, n - 1);
        let step = cluster_at(m, paras[n - 1].0 as int, paras[n - 1].1 as int);
        assert(cluster_candidates(m, paras, n) == prev + step);
        assert forall|k: int| 0 <= k < cluster_candidates(m, paras, n).len() implies exists|q: int|
            0 <= q < n && #[trigger] cluster_candidates(m, paras, n)[k].2 == paras[q].0 && cluster_candidates(m, paras, n)[k].3
                == paras[q].1 && terms_in(m, paras[q].0 as int, paras[q].1 as int) >= 3 by {
            if k < prev.len() {
                assert((prev + step)[k] == prev[k]);
                let q = choose|q: int|
                    0 <= q < n - 1 && #[trigger] prev[k].2 == paras[q].0 && prev[k].3 == paras[q].1
                        && terms_in(m, paras[q].0 as int, paras[q].1 as int) >= 3;
                assert(0 <= q < n);
            } else {
                assert((prev + step)[k] == step[k - prev.len()]);
                assert(cluster_candidates(m, paras, n)[k].2 == paras[n - 1].0);
            }
        }
        if forall|q: int| 0 <= q < n ==> terms_in(m, #[trigger] paras[q].0 as int, paras[q].1 as int) < 3 {
            assert(terms_in(m, paras[n - 1].0 as int, paras[n - 1].1 as int) < 3);
        }
    }
}

/// A cluster needs three distinct abstraction terms: each candidate of the
/// cluster stage spans a paragraph of the masked text in which at least
/// three of the terms occur on character and word boundaries; for the casual
/// and marketing profiles, or where no paragraph holds three of them, the
/// stage has no candidate.
pub proof fn lemma_clusters_need_three_terms(m: Seq<u8>, opts: ScanOptions)
    ensures
        forall|k: int|
            0 <= k < cluster_stage(m, opts).len() ==> exists|q: int|
                0 <= q < paragraphs(m).len() && #[trigger] cluster_stage(m, opts)[k].2 == paragraphs(m)[q].0
                    && cluster_stage(m, opts)[k].3 == paragraphs(m)[q].1 && terms_in(
                    m,
                    paragraphs(m)[q].0 as int,
                    paragraphs(m)[q].1 as int,
                ) >= 3,
        (opts.profile == Profile::Casual || opts.profile == Profile::Marketing || forall|q: int|
            0 <= q < paragraphs(m).len() ==> terms_in(
                m,
                #[trigger] paragraphs(m)[q].0 as int,
                paragraphs(m)[q].1 as int,
            ) < 3) ==> cluster_stage(m, opts).len() == 0,
{
    let paras = paragraphs(m);
    lemma_cluster_candidates(m, paras, paras.len() as int);
}

/// An em dash (`E2 80 94`) is encoded at offset `i`.
pub open spec fn dash_at(m: Seq<u8>, i: int) -> bool {
    0 <= i && i + 3 <= m.len() && m[i] == 0xe2 && m[i + 1] == 0x80 && m[i + 2] == 0x94
}

/// The offsets of the em dashes from offset `i` on, searched left to right.
pub open spec fn dash_positions(m: Seq<u8>, i: int) -> Seq<int>
    decreases m.len() - i,
{
    if i < 0 || i + 3 > m.len() {
        Seq::empty()
    } else if dash_at(m, i) {
        seq![i] + dash_positions(m, i + 3)
    } else {
        dash_positions(m, i + 1)
    }
}

/// The number of words of `cs`: maximal runs of characters that are not
/// white space.
pub open spec fn word_count(cs: Seq<char>) -> nat
    decreases cs.len(),
{
    if cs.len() == 0 {
        0
    } else {
        word_count(cs.drop_last()) + if !crate::text::white_space(cs.last() as u32) && (cs.len()
            == 1 || crate::text::white_space(cs[cs.len() - 2] as u32)) {
            1nat
        } else {
            0nat
        }
    }
}

/// The suggestion of an em-dash finding.
pub open spec fn dash_suggestion() -> Seq<char> {
    "Check whether commas, parentheses, full stops, or deletion better express each relation."@
}

/// The em-dash stage: one finding at the first em dash when there are at
/// least three and more than one per 120 words; skipped for the casual
/// profile.
pub open spec fn dash_stage(m: Seq<u8>, opts: ScanOptions) -> Seq<Candidate> {
    let ps = dash_positions(m, 0);
    let cs = decode_utf8(m);
    let wc = word_count(cs);
    let words: nat = if wc == 0 {
        1
    } else {
        wc
    };
    if opts.profile != Profile::Casual && ps.len() >= 3 && ps.len() * 120 > words {
        seq![
            (
                "technical.em-dash-density"@,
                Severity::Medium,
                ps[0],
                ps[0] + 3,
                "High em-dash density: "@ + decimal_chars(ps.len()) + " in "@ + decimal_chars(words)
                    + " words."@,
                dash_suggestion(),
            ),
        ]
    } else {
        Seq::empty()
    }
}

/// The key under which repeated findings are dropped: rule id and span.
pub open spec fn same_key(a: Candidate, b: Candidate) -> bool {
    a.0 == b.0 && a.2 == b.2 && a.3 == b.3
}

/// A candidate can be located in the source: its span lies on character
/// boundaries.
pub open spec fn admitted(src: Seq<u8>, c: Candidate) -> bool {
    &&& 0 <= c.2 <= c.3 <= src.len()
    &&& is_char_boundary(src, c.2)
    &&& is_char_boundary(src, c.3)
}

/// The candidates that a scan keeps, in order: those that can be located,
/// each rule id and span only the first time.
pub open spec fn collect(src: Seq<u8>, cs: Seq<Candidate>) -> Seq<Candidate>
    decreases cs.len(),
{
    if cs.len() == 0 {
        Seq::empty()
    } else {
        let d = collect(src, cs.drop_last());
        let c = cs.last();
        if !admitted(src, c) || exists|k: int| 0 <= k < d.len() && same_key(#[trigger] d[k], c) {
            d
        } else {
            d.push(c)
        }
    }
}

/// Byte strings in lexicographic order.
pub open spec fn lex_lt(x: Seq<u8>, y: Seq<u8>) -> bool
    decreases x.len(),
{
    if x.len() == 0 {
        y.len() > 0
    } else if y.len() == 0 {
        false
    } else if x[0] != y[0] {
        x[0] < y[0]
    } else {
        lex_lt(x.drop_first(), y.drop_first())
    }
}

/// The order of a report: higher severity first, then by start, end and
/// rule id.
pub open spec fn report_before(a: Candidate, b: Candidate) -> bool {
    ||| severity_rank(a.1) > severity_rank(b.1)
    ||| severity_rank(a.1) == severity_rank(b.1) && a.2 < b.2
    ||| severity_rank(a.1) == severity_rank(b.1) && a.2 == b.2 && a.3 < b.3
    ||| severity_rank(a.1) == severity_rank(b.1) && a.2 == b.2 && a.3 == b.3 && lex_lt(
        encode_utf8(a.0),
        encode_utf8(b.0),
    )
}

/// The findings `fs` are the candidates `d`, each once, in report order,
/// located in `src`.
pub open spec fn reports(fs: Seq<Finding>, d: Seq<Candidate>, src: Seq<u8>) -> bool {
    &&& fs.len() == d.len()
    &&& covers(fs, d, 0)
    &&& in_report_order(fs)
    &&& all_located(fs, src)
}

/// Some finding of `fs` has rule id `id` and spans from `s` to `e`.
pub open spec fn reported(fs: Seq<Finding>, id: Seq<char>, s: int, e: int) -> bool {
    exists|j: int|
        0 <= j < fs.len() && (#[trigger] fs[j]).rule_id@ == id && fs[j].start == s && fs[j].end == e
}

/// A kept candidate stands for every candidate with its key: each candidate
/// that can be located has one of its rule id and span among those kept.
pub proof fn lemma_collect_keeps(src: Seq<u8>, cs: Seq<Candidate>, k: int)
    requires
        0 <= k < cs.len(),
        admitted(src, cs[k]),
    ensures
        exists|j: int| 0 <= j < collect(src, cs).len() && same_key(#[trigger] collect(src, cs)[j], cs[k]),
    decreases cs.len(),
{
    let d = collect(src, cs.drop_last());
    let c = cs.last();
    if k == cs.len() - 1 {
        if exists|j: int| 0 <= j < d.len() && same_key(#[trigger] d[j], c) {
            let j = choose|j: int| 0 <= j < d.len() && same_key(#[trigger] d[j], c);
            assert(collect(src, cs) == d);
            assert(same_key(collect(src, cs)[j], cs[k]));
        } else {
            assert(collect(src, cs) == d.push(c));
            assert(same_key(collect(src, cs)[d.len() as int], cs[k]));
        }
    } else {
        assert(cs.drop_last()[k] == cs[k]);
        lemma_collect_keeps(src, cs.drop_last(), k);
        let j = choose|j: int| 0 <= j < d.len() && same_key(#[trigger] d[j], cs[k]);
        if !admitted(src, c) || exists|i: int| 0 <= i < d.len() && same_key(#[trigger] d[i], c) {
            assert(collect(src, cs) == d);
        } else {
            assert(collect(src, cs) == d.push(c));
            assert(collect(src, cs)[j] == d[j]);
        }
        assert(same_key(collect(src, cs)[j], cs[k]));
    }
}

/// Every kept candidate is one of the candidates.
pub proof fn lemma_collect_from(src: Seq<u8>, cs: Seq<Candidate>, j: int)
    requires
        0 <= j < collect(src, cs).len(),
    ensures
        exists|k: int| 0 <= k < cs.len() && cs[k] == collect(src, cs)[j],
    decreases cs.len(),
{
    let d = collect(src, cs.drop_last());
    if j < d.len() {
        lemma_collect_from(src, cs.drop_last(), j);
        let k = choose|k: int| 0 <= k < cs.drop_last().len() && cs.drop_last()[k] == d[j];
        assert(cs[k] == cs.drop_last()[k]);
        if !admitted(src, cs.last()) || exists|i: int| 0 <= i < d.len() && same_key(#[trigger] d[i], cs.last()) {
        } else {
            assert(collect(src, cs)[j] == d[j]);
        }
    } else {
        assert(cs[cs.len() - 1] == collect(src, cs)[j]);
    }
}

/// A report holds every candidate that can be located: some finding has
/// its rule id and span.
pub proof fn lemma_admitted_reported(fs: Seq<Finding>, cs: Seq<Candidate>, src: Seq<u8>, k: int)
    requires
        reports(fs, collect(src, cs), src),
        0 <= k < cs.len(),
        admitted(src, cs[k]),
    ensures
        reported(fs, cs[k].0, cs[k].2, cs[k].3),
{
    reveal(covers);
    lemma_collect_keeps(src, cs, k);
    let d = collect(src, cs);
    let j = choose|j: int| 0 <= j < d.len() && same_key(#[trigger] d[j], cs[k]);
    let i = choose|i: int| 0 <= i < fs.len() && view_finding(fs[i]) == #[trigger] d[j];
    assert(fs[i].rule_id@ == cs[k].0);
}

/// A report holds nothing but candidates: each finding is one of them,
/// located in the source.
pub proof fn lemma_reported_candidate(fs: Seq<Finding>, cs: Seq<Candidate>, src: Seq<u8>, i: int)
    requires
        reports(fs, collect(src, cs), src),
        0 <= i < fs.len(),
    ensures
        exists|k: int| 0 <= k < cs.len() && cs[k] == view_finding(fs[i]),
        located(fs[i], src),
{
    reveal(covers);
    reveal(all_located);
    let d = collect(src, cs);
    let j = choose|j: int| 0 <= j < d.len() && view_finding(#[trigger] fs[i]) == d[j];
    lemma_collect_from(src, cs, j);
}

/// A candidate of the match at `j` is among the candidates of the first
/// `n` fixed-phrase matches.
pub proof fn lemma_literal_candidates_has(
    rules: Seq<RuleDef>,
    custom: Seq<CustomTerm>,
    targets: Seq<LiteralTarget>,
    m: Seq<u8>,
    opts: ScanOptions,
    hits: Seq<(usize, usize, usize)>,
    n: int,
    j: int,
)
    requires
        0 <= j < n <= hits.len(),
        literal_step(rules, custom, targets, m, opts, hits[j]).len() > 0,
    ensures
        exists|k: int|
            0 <= k < literal_candidates(rules, custom, targets, m, opts, hits, n).len()
                && literal_candidates(rules, custom, targets, m, opts, hits, n)[k] == literal_step(
                rules,
                custom,
                targets,
                m,
                opts,
                hits[j],
            )[0],
    decreases n,
{
    let prev = literal_candidates(rules, custom, targets, m, opts, hits, n - 1);
    let step = literal_step(rules, custom, targets, m, opts, hits[n - 1]);
    assert(literal_candidates(rules, custom, targets, m, opts, hits, n) == prev + step);
    if j == n - 1 {
        assert((prev + step)[prev.len() as int] == step[0]);
    } else {
        lemma_literal_candidates_has(rules, custom, targets, m, opts, hits, n - 1, j);
        let k = choose|k: int| 0 <= k < prev.len() && prev[k] == literal_step(
            rules,
            custom,
            targets,
            m,
            opts,
            hits[j],
        )[0];
        assert((prev + step)[k] == prev[k]);
    }
}

/// Adds the candidate to the findings unless its span cannot be located or
/// its rule id and span were reported already.
pub fn push_finding(
    findings: &mut Vec<Finding>,
    source: &str,
    newlines: &[usize],
    rule_id: String,
    severity: Severity,
    start: usize,
    end: usize,
    message: String,
    suggestion: String,
    Ghost(before): Ghost<Seq<Candidate>>,
)
    requires
        newline_index(source.spec_bytes(), newlines@),
        source.spec_bytes().len() <= isize::MAX,
        views(old(findings)@) == collect(source.spec_bytes(), before),
        forall|k: int| 0 <= k < old(findings)@.len() ==> located(#[trigger] old(findings)@[k], source.spec_bytes()),
    ensures
        views(final(findings)@) == collect(
            source.spec_bytes(),
            before.push((rule_id@, severity, start as int, end as int, message@, suggestion@)),
        ),
        forall|k: int| 0 <= k < final(findings)@.len() ==> located(#[trigger] final(findings)@[k], source.spec_bytes()),
        final(findings)@.len() <= old(findings)@.len() + 1,
        final(findings)@.take(old(findings)@.len() as int) == old(findings)@,
        distinct_keys(views(final(findings)@)),
{
    proof {
        lemma_collect_distinct(source.spec_bytes(), before);
        lemma_collect_distinct(source.spec_bytes(), before.push(
            (rule_id@, severity, start as int, end as int, message@, suggestion@),
        ));
    }
    let ghost src = source.spec_bytes();
    let ghost c = (rule_id@, severity, start as int, end as int, message@, suggestion@);
    proof {
        assert(before.push(c).drop_last() =~= before);
    }
    if !(start <= end && end <= source.len() && source.is_char_boundary(start) && source.is_char_boundary(end)) {
        proof {
            assert(!admitted(src, c));
            assert(collect(src, before.push(c)) == collect(src, before));
        }
        return;
    }
    let mut k: usize = 0;
    while k < findings.len()
        invariant
            k <= findings@.len(),
            views(findings@) == collect(src, before),
            c == (rule_id@, severity, start as int, end as int, message@, suggestion@),
            src == source.spec_bytes(),
            before.push(c).drop_last() == before,
            findings@ == old(findings)@,
            distinct_keys(views(findings@)),
            forall|i: int| 0 <= i < findings@.len() ==> located(#[trigger] findings@[i], src),
            forall|i: int| 0 <= i < k ==> !same_key(views(findings@)[i], c),
        decreases findings@.len() - k,
    {
        proof {
            assert(views(findings@)[k as int] == view_finding(findings@[k as int]));
        }
        let same_id = findings[k].rule_id == rule_id;
        assert(same_id == (findings@[k as int].rule_id@ == rule_id@));
        if findings[k].start == start && findings[k].end == end && same_id {
            proof {
                assert(same_key(views(findings@)[k as int], c));
                assert(collect(src, before.push(c)) == collect(src, before));
            }
            return;
        }
        k = k + 1;
    }
    proof {
        assert(!exists|i: int| 0 <= i < collect(src, before).len() && same_key(#[trigger] collect(src, before)[i], c));
        assert(collect(src, before.push(c)) == collect(src, before).push(c));
        encode_utf8_valid_utf8(source@);
        lemma_boundary_char_start(src, start as int);
        lemma_boundary_char_start(src, end as int);
    }
    let (line, column) = line_column(source, newlines, start);
    let matched = substring(source, start, end).to_owned();
    let ghost old_findings = findings@;
    findings.push(
        Finding { rule_id, severity, line, column, start, end, matched, message, suggestion },
    );
    proof {
        assert(views(findings@) =~= views(old_findings).push(c));
    }
}


/// No two kept candidates share a rule id and span.
pub open spec fn distinct_keys(d: Seq<Candidate>) -> bool {
    forall|i: int, j: int| 0 <= i < j < d.len() ==> !same_key(#[trigger] d[i], #[trigger] d[j])
}

/// The kept candidates have distinct keys and can all be located.
pub proof fn lemma_collect_distinct(src: Seq<u8>, cs: Seq<Candidate>)
    ensures
        distinct_keys(collect(src, cs)),
        forall|k: int| 0 <= k < collect(src, cs).len() ==> admitted(src, #[trigger] collect(src, cs)[k]),
    decreases cs.len(),
{
    if cs.len() > 0 {
        lemma_collect_distinct(src, cs.drop_last());
        let d = collect(src, cs.drop_last());
        let c = cs.last();
        if !(!admitted(src, c) || exists|k: int| 0 <= k < d.len() && same_key(#[trigger] d[k], c)) {
            let e = d.push(c);
            assert forall|i: int, j: int| 0 <= i < j < e.len() implies !same_key(#[trigger] e[i], #[trigger] e[j]) by {
                if j == d.len() {
                    assert(e[i] == d[i]);
                }
            }
        }
    }
}

proof fn lemma_lex_irreflexive(x: Seq<u8>)
    ensures
        !lex_lt(x, x),
    decreases x.len(),
{
    if x.len() > 0 {
        lemma_lex_irreflexive(x.drop_first());
    }
}

proof fn lemma_lex_asymmetric(x: Seq<u8>, y: Seq<u8>)
    ensures
        lex_lt(x, y) ==> !lex_lt(y, x),
    decreases x.len(),
{
    if x.len() > 0 && y.len() > 0 && x[0] == y[0] {
        lemma_lex_asymmetric(x.drop_first(), y.drop_first());
    }
}

proof fn lemma_lex_transitive(x: Seq<u8>, y: Seq<u8>, z: Seq<u8>)
    ensures
        lex_lt(x, y) && lex_lt(y, z) ==> lex_lt(x, z),
    decreases x.len(),
{
    if x.len() > 0 && y.len() > 0 && z.len() > 0 {
        lemma_lex_transitive(x.drop_first(), y.drop_first(), z.drop_first());
    }
}

proof fn lemma_lex_total(x: Seq<u8>, y: Seq<u8>)
    ensures
        x != y ==> lex_lt(x, y) || lex_lt(y, x),
    decreases x.len(),
{
    if x.len() > 0 && y.len() > 0 && x[0] == y[0] {
        lemma_lex_total(x.drop_first(), y.drop_first());
        if x.drop_first() == y.drop_first() {
            assert(x =~= seq![x[0]] + x.drop_first());
            assert(y =~= seq![y[0]] + y.drop_first());
        }
    } else if x.len() == 0 && y.len() == 0 {
        assert(x =~= y);
    }
}

/// The report order is a strict order that decides between any two
/// candidates with different keys.
pub proof fn lemma_report_order(a: Candidate, b: Candidate, c: Candidate)
    ensures
        !report_before(a, a),
        report_before(a, b) ==> !report_before(b, a),
        report_before(a, b) && report_before(b, c) ==> report_before(a, c),
        !same_key(a, b) ==> report_before(a, b) || report_before(b, a),
{
    lemma_lex_irreflexive(encode_utf8(a.0));
    lemma_lex_asymmetric(encode_utf8(a.0), encode_utf8(b.0));
    lemma_lex_transitive(encode_utf8(a.0), encode_utf8(b.0), encode_utf8(c.0));
    lemma_lex_total(encode_utf8(a.0), encode_utf8(b.0));
    encode_utf8_decode_utf8(a.0);
    encode_utf8_decode_utf8(b.0);
}

/// The findings `fs` are in strict report order.
pub open spec fn in_report_order(fs: Seq<Finding>) -> bool {
    forall|k: int, l: int| 0 <= k < l < fs.len() ==> report_before(view_finding(#[trigger] fs[k]), view_finding(#[trigger] fs[l]))
}

/// Inserts `x` into findings in report order, at its place.
fn insert_in_order(sorted: &mut Vec<Finding>, x: Finding)
    requires
        in_report_order(old(sorted)@),
        forall|k: int| 0 <= k < old(sorted)@.len() ==> !same_key(view_finding(#[trigger] old(sorted)@[k]), view_finding(x)),
    ensures
        in_report_order(final(sorted)@),
        exists|pos: int| 0 <= pos <= old(sorted)@.len() && final(sorted)@ == old(sorted)@.insert(pos, x),
{
    let mut pos: usize = 0;
    while pos < sorted.len() && !finding_before(&x, &sorted[pos])
        invariant
            pos <= sorted@.len(),
            forall|k: int| 0 <= k < pos ==> !report_before(view_finding(x), view_finding(#[trigger] sorted@[k])),
        decreases sorted@.len() - pos,
    {
        pos = pos + 1;
    }
    let ghost before = sorted@;
    proof {
        assert forall|k: int| 0 <= k < pos implies report_before(view_finding(#[trigger] before[k]), view_finding(x)) by {
            lemma_report_order(view_finding(before[k]), view_finding(x), view_finding(x));
        }
        assert forall|k: int| pos <= k < before.len() implies report_before(view_finding(x), view_finding(#[trigger] before[k])) by {
            if k > pos {
                lemma_report_order(view_finding(x), view_finding(before[pos as int]), view_finding(before[k]));
            }
        }
    }
    sorted.insert(pos, x);
    proof {
        assert forall|k: int, l: int| 0 <= k < l < sorted@.len() implies report_before(view_finding(#[trigger] sorted@[k]), view_finding(#[trigger] sorted@[l])) by {
            if k < pos && l < pos {
                assert(sorted@[k] == before[k] && sorted@[l] == before[l]);
            } else if k < pos && l == pos {
            } else if k < pos {
                assert(sorted@[k] == before[k] && sorted@[l] == before[l - 1]);
            } else if k == pos {
                assert(sorted@[l] == before[l - 1]);
            } else {
                assert(sorted@[k] == before[k - 1] && sorted@[l] == before[l - 1]);
            }
        }
    }
}

/// The findings `fs` are exactly the candidates of `d` from index `from`.
#[verifier::opaque]
pub open spec fn covers(fs: Seq<Finding>, d: Seq<Candidate>, from: int) -> bool {
    &&& forall|k: int| 0 <= k < fs.len() ==> exists|j: int| from <= j < d.len() && view_finding(#[trigger] fs[k]) == d[j]
    &&& forall|j: int| from <= j < d.len() ==> exists|k: int| 0 <= k < fs.len() && view_finding(fs[k]) == #[trigger] d[j]
}

/// Every finding of `fs` is located in `src`.
#[verifier::opaque]
pub open spec fn all_located(fs: Seq<Finding>, src: Seq<u8>) -> bool {
    forall|k: int| 0 <= k < fs.len() ==> located(#[trigger] fs[k], src)
}

/// Inserting `x` at `pos` keeps every old finding, shifted past `pos`.
proof fn lemma_insert_index(before: Seq<Finding>, x: Finding, pos: int, k: int)
    requires
        0 <= pos <= before.len(),
        0 <= k < before.len(),
    ensures
        k < pos ==> before.insert(pos, x)[k] == before[k],
        k >= pos ==> before.insert(pos, x)[k + 1] == before[k],
{
}

/// One step of the insertion sort keeps its invariant.
#[verifier::rlimit(60)]
proof fn lemma_insert_step(
    before: Seq<Finding>,
    after: Seq<Finding>,
    x: Finding,
    pos: int,
    d: Seq<Candidate>,
    n: int,
    src: Seq<u8>,
)
    requires
        0 <= n < d.len(),
        view_finding(x) == d[n],
        located(x, src),
        0 <= pos <= before.len(),
        after == before.insert(pos, x),
        covers(before, d, n + 1),
        all_located(before, src),
    ensures
        covers(after, d, n),
        all_located(after, src),
{
    lemma_insert_covers_old(before, after, x, pos, d, n);
    lemma_insert_covers_new(before, after, x, pos, d, n);
    lemma_insert_located(before, after, x, pos, src);
    reveal(covers);
}

proof fn lemma_insert_covers_old(
    before: Seq<Finding>,
    after: Seq<Finding>,
    x: Finding,
    pos: int,
    d: Seq<Candidate>,
    n: int,
)
    requires
        0 <= n < d.len(),
        view_finding(x) == d[n],
        0 <= pos <= before.len(),
        after == before.insert(pos, x),
        covers(before, d, n + 1),
    ensures
        forall|k: int| 0 <= k < after.len() ==> exists|j: int| n <= j < d.len() && view_finding(#[trigger] after[k]) == d[j],
{
    reveal(covers);
    assert forall|k: int| 0 <= k < after.len() implies exists|j: int| n <= j < d.len() && view_finding(#[trigger] after[k]) == d[j] by {
        if k < pos {
            lemma_insert_index(before, x, pos, k);
            let j = choose|j: int| n + 1 <= j < d.len() && view_finding(before[k]) == d[j];
            assert(view_finding(after[k]) == d[j]);
        } else if k == pos {
            assert(view_finding(after[k]) == d[n]);
        } else {
            lemma_insert_index(before, x, pos, k - 1);
            let j = choose|j: int| n + 1 <= j < d.len() && view_finding(before[k - 1]) == d[j];
            assert(view_finding(after[k]) == d[j]);
        }
    }
}

proof fn lemma_insert_covers_new(
    before: Seq<Finding>,
    after: Seq<Finding>,
    x: Finding,
    pos: int,
    d: Seq<Candidate>,
    n: int,
)
    requires
        0 <= n < d.len(),
        view_finding(x) == d[n],
        0 <= pos <= before.len(),
        after == before.insert(pos, x),
        covers(before, d, n + 1),
    ensures
        forall|j: int| n <= j < d.len() ==> exists|k: int| 0 <= k < after.len() && view_finding(after[k]) == #[trigger] d[j],
{
    reveal(covers);
    assert forall|j: int| n <= j < d.len() implies exists|k: int| 0 <= k < after.len() && view_finding(after[k]) == #[trigger] d[j] by {
        if j == n {
            assert(view_finding(after[pos]) == d[j]);
        } else {
            let k = choose|k: int| 0 <= k < before.len() && view_finding(before[k]) == d[j];
            lemma_insert_index(before, x, pos, k);
            if k < pos {
                assert(view_finding(after[k]) == d[j]);
            } else {
                assert(view_finding(after[k + 1]) == d[j]);
            }
        }
    }
}

proof fn lemma_insert_located(
    before: Seq<Finding>,
    after: Seq<Finding>,
    x: Finding,
    pos: int,
    src: Seq<u8>,
)
    requires
        located(x, src),
        0 <= pos <= before.len(),
        after == before.insert(pos, x),
        all_located(before, src),
    ensures
        all_located(after, src),
{
    reveal(all_located);
    assert forall|k: int| 0 <= k < after.len() implies located(#[trigger] after[k], src) by {
        if k < pos {
            lemma_insert_index(before, x, pos, k);
        } else if k > pos {
            lemma_insert_index(before, x, pos, k - 1);
        }
    }
}

/// A sorted candidate's key differs from those of the candidates after it.
proof fn lemma_fresh_key(sorted: Seq<Finding>, d: Seq<Candidate>, n: int)
    requires
        0 <= n < d.len(),
        covers(sorted, d, n + 1),
        distinct_keys(d),
    ensures
        forall|k: int| 0 <= k < sorted.len() ==> !same_key(view_finding(#[trigger] sorted[k]), d[n]),
{
    reveal(covers);
    assert forall|k: int| 0 <= k < sorted.len() implies !same_key(view_finding(#[trigger] sorted[k]), d[n]) by {
        let j = choose|j: int| n + 1 <= j < d.len() && view_finding(sorted[k]) == d[j];
        assert(!same_key(d[n], d[j]));
    }
}

/// The findings in report order.
pub fn sort_findings(findings: Vec<Finding>, Ghost(src): Ghost<Seq<u8>>) -> (r: Vec<Finding>)
    requires
        distinct_keys(views(findings@)),
        forall|k: int| 0 <= k < findings@.len() ==> located(#[trigger] findings@[k], src),
    ensures
        reports(r@, views(findings@), src),
        high_count(r@, r@.len() as int) == high_candidates(views(findings@)),
{
    let ghost d = views(findings@);
    let ghost all = findings@;
    let mut rest = findings;
    let mut sorted: Vec<Finding> = Vec::new();
    proof {
        reveal(covers);
        reveal(all_located);
        assert(d.skip(d.len() as int) =~= Seq::<Candidate>::empty());
        assert(views(sorted@) =~= Seq::<Candidate>::empty());
    }
    while rest.len() > 0
        invariant
            d.len() == all.len(),
            forall|j: int| 0 <= j < all.len() ==> #[trigger] d[j] == view_finding(all[j]),
            distinct_keys(d),
            forall|k: int| 0 <= k < all.len() ==> located(#[trigger] all[k], src),
            rest@ == all.take(rest@.len() as int),
            rest@.len() <= all.len(),
            sorted@.len() == all.len() - rest@.len(),
            covers(sorted@, d, rest@.len() as int),
            in_report_order(sorted@),
            all_located(sorted@, src),
            high_candidates(views(sorted@)) == high_candidates(d.skip(rest@.len() as int)),
        decreases rest@.len(),
    {
        let ghost n = rest@.len() - 1;
        let x = rest.pop().unwrap();
        proof {
            assert(x == all[n]);
            assert(view_finding(x) == d[n]);
            lemma_fresh_key(sorted@, d, n);
        }
        let ghost before = sorted@;
        insert_in_order(&mut sorted, x);
        proof {
            let pos = choose|pos: int| 0 <= pos <= before.len() && sorted@ == before.insert(pos, x);
            lemma_insert_step(before, sorted@, x, pos, d, n, src);
            assert(rest@ =~= all.take(rest@.len() as int));
            assert(views(sorted@) =~= views(before).insert(pos, view_finding(x)));
            lemma_high_insert(views(before), pos, view_finding(x));
            lemma_high_suffix(d, n);
        }
    }
    proof {
        assert(d.skip(0) =~= d);
        lemma_high_count_views(sorted@, sorted@.len() as int);
        assert(views(sorted@).take(sorted@.len() as int) =~= views(sorted@));
    }
    sorted
}

/// Byte strings in lexicographic order, decided.
fn bytes_less(x: &[u8], y: &[u8]) -> (r: bool)
    ensures
        r == lex_lt(x@, y@),
{
    let mut i: usize = 0;
    proof {
        assert(x@.skip(0) =~= x@);
        assert(y@.skip(0) =~= y@);
    }
    while i < x.len() && i < y.len()
        invariant
            i <= x@.len(),
            i <= y@.len(),
            lex_lt(x@, y@) == lex_lt(x@.skip(i as int), y@.skip(i as int)),
        decreases x@.len() - i,
    {
        if x[i] != y[i] {
            return x[i] < y[i];
        }
        proof {
            assert(x@.skip(i as int).drop_first() =~= x@.skip(i + 1));
            assert(y@.skip(i as int).drop_first() =~= y@.skip(i + 1));
        }
        i = i + 1;
    }
    i < y.len()
}

/// Whether finding `a` comes before finding `b` in a report.
fn finding_before(a: &Finding, b: &Finding) -> (r: bool)
    ensures
        r == report_before(view_finding(*a), view_finding(*b)),
{
    let ra = rank(a.severity);
    let rb = rank(b.severity);
    if ra != rb {
        return ra > rb;
    }
    if a.start != b.start {
        return a.start < b.start;
    }
    if a.end != b.end {
        return a.end < b.end;
    }
    bytes_less(a.rule_id.as_str().as_bytes(), b.rule_id.as_str().as_bytes())
}


/// Whether a rule applies to a profile: it lists `all` or the profile's
/// name.
pub fn profile_enabled(rule: &RuleDef, profile: Profile) -> (r: bool)
    ensures
        r == rule_applies(*rule, profile),
{
    let name = profile.name();
    let mut k: usize = 0;
    while k < rule.profiles.len()
        invariant
            k <= rule.profiles@.len(),
            name@ == profile_name(profile),
            forall|i: int|
                #![trigger rule.profiles@[i]]
                0 <= i < k ==> !(rule.profiles@[i]@ == "all"@ || rule.profiles@[i]@ == profile_name(
                    profile,
                )),
        decreases rule.profiles@.len() - k,
    {
        let item = rule.profiles[k].as_str();
        if str_eq(item, "all") || str_eq(item, name) {
            return true;
        }
        k = k + 1;
    }
    false
}

/// The number of words of `text`, as `split_whitespace().count()` gives it.
pub fn count_words(text: &str) -> (r: usize)
    ensures
        r == word_count(text@),
{
    let b = text.as_bytes();
    proof {
        encode_utf8_valid_utf8(text@);
        encode_utf8_decode_utf8(text@);
        assert(b@.subrange(0, 0) =~= Seq::<u8>::empty());
    }
    let mut p: usize = 0;
    let mut count: usize = 0;
    let mut prev_white = true;
    while p < b.len()
        invariant
            valid_utf8(b@),
            p <= b@.len(),
            at_char_start(b@, p as int),
            count <= p,
            count == word_count(chars_between(b@, 0, p as int)),
            prev_white == (chars_between(b@, 0, p as int).len() == 0 || white_space(
                chars_between(b@, 0, p as int).last() as u32,
            )),
        decreases b@.len() - p,
    {
        let (c, w) = scalar_at(b, p);
        let white = is_white_space(c);
        proof {
            lemma_chars_between_split(b@, 0, p as int, p + w);
            let cs = chars_between(b@, 0, p as int);
            let next = chars_between(b@, 0, p + w);
            assert(next == cs.push(c as char));
            assert(next.drop_last() =~= cs);
            assert((c as char) as u32 == c);
        }
        if !white && prev_white {
            count = count + 1;
        }
        prev_white = white;
        p = p + w;
    }
    proof {
        assert(b@.subrange(0, b@.len() as int) =~= b@);
    }
    count
}

/// The offsets of the em dashes of `text`, left to right, as
/// `match_indices('—')` gives them.
pub fn dash_offsets(text: &str) -> (r: Vec<usize>)
    ensures
        r@.map_values(|x: usize| x as int) == dash_positions(text.spec_bytes(), 0),
        forall|k: int| 0 <= k < r@.len() ==> #[trigger] r@[k] + 3 <= text.spec_bytes().len(),
{
    let b = text.as_bytes();
    let mut r: Vec<usize> = Vec::new();
    let mut i: usize = 0;
    while i < b.len()
        invariant
            i <= b@.len(),
            r@.map_values(|x: usize| x as int) + dash_positions(b@, i as int) == dash_positions(
                b@,
                0,
            ),
            forall|k: int| 0 <= k < r@.len() ==> #[trigger] r@[k] + 3 <= b@.len(),
        decreases b@.len() - i,
    {
        if b.len() >= 3 && i <= b.len() - 3 && b[i] == 0xe2 && b[i + 1] == 0x80 && b[i + 2] == 0x94 {
            let ghost before = r@;
            r.push(i);
            proof {
                assert(r@.map_values(|x: usize| x as int) =~= before.map_values(|x: usize| x as int).push(
                    i as int,
                ));
                assert(dash_positions(b@, i as int) == seq![i as int] + dash_positions(b@, i + 3));
                assert(r@.map_values(|x: usize| x as int) + dash_positions(b@, i + 3)
                    =~= before.map_values(|x: usize| x as int) + dash_positions(b@, i as int));
            }
            i = i + 3;
        } else {
            i = i + 1;
        }
    }
    proof {
        assert(dash_positions(b@, i as int) =~= Seq::<int>::empty());
        assert(r@.map_values(|x: usize| x as int) + Seq::<int>::empty() =~= r@.map_values(
            |x: usize| x as int,
        ));
    }
    r
}

/// The index of the abstraction term that comes `n`-th in alphabetical order.
fn alphabetical_term(n: usize) -> (t: usize)
    requires
        n < 8,
    ensures
        t == alphabetical_terms()[n as int],
        t < 8,
{
    match n {
        0 => 5,
        1 => 0,
        2 => 2,
        3 => 6,
        4 => 7,
        5 => 4,
        6 => 3,
        _ => 1,
    }
}

/// The abstraction term with index `t`.
fn term_text(t: usize) -> (r: &'static str)
    requires
        t < 8,
    ensures
        r@ == crate::scanner::abstraction_terms()[t as int],
{
    match t {
        0 => "boundary",
        1 => "surface",
        2 => "contract",
        3 => "posture",
        4 => "mechanism",
        5 => "authority",
        6 => "invariant",
        _ => "lifecycle",
    }
}

/// The flagged abstraction terms in alphabetical order, joined by commas.
pub(crate) fn joined_terms_text(flags: &Vec<bool>) -> (r: String)
    requires
        flags@.len() == 8,
    ensures
        r@ == joined_terms(flags@, 8),
{
    let mut out = String::new();
    let mut n: usize = 0;
    while n < 8
        invariant
            n <= 8,
            flags@.len() == 8,
            out@ == joined_terms(flags@, n as int),
        decreases 8 - n,
    {
        let t = alphabetical_term(n);
        if flags[t] {
            if out.as_str().is_empty() {
                out.append(term_text(t));
                proof {
                    assert(out@ =~= crate::scanner::abstraction_terms()[t as int]);
                }
            } else {
                out.append(", ");
                out.append(term_text(t));
            }
        }
        n = n + 1;
    }
    out
}

/// The number of set flags.
pub(crate) fn count_flags(flags: &Vec<bool>) -> (r: usize)
    ensures
        r == count_set(flags@, flags@.len() as int),
{
    let mut r: usize = 0;
    let mut k: usize = 0;
    while k < flags.len()
        invariant
            k <= flags@.len(),
            r == count_set(flags@, k as int),
            r <= k,
        decreases flags@.len() - k,
    {
        if flags[k] {
            r = r + 1;
        }
        k = k + 1;
    }
    r
}

/// Reports a dense use of em dashes: at least three, and more than one per
/// 120 words of the masked text (at least one word counted), as one finding
/// at the first em dash. Skipped for the casual profile.
pub fn scan_em_dash_density(
    source: &str,
    masked: &str,
    newlines: &[usize],
    options: &ScanOptions,
    findings: &mut Vec<Finding>,
    Ghost(before): Ghost<Seq<Candidate>>,
)
    requires
        newline_index(source.spec_bytes(), newlines@),
        source.spec_bytes().len() <= isize::MAX,
        masks(masked.spec_bytes(), source.spec_bytes()),
        views(old(findings)@) == collect(source.spec_bytes(), before),
        forall|k: int| 0 <= k < old(findings)@.len() ==> located(#[trigger] old(findings)@[k], source.spec_bytes()),
    ensures
        views(final(findings)@) == collect(
            source.spec_bytes(),
            before + dash_stage(masked.spec_bytes(), *options),
        ),
        forall|k: int| 0 <= k < final(findings)@.len() ==> located(#[trigger] final(findings)@[k], source.spec_bytes()),
        views(final(findings)@) == if dash_stage(masked.spec_bytes(), *options).len() > 0 && !(exists|k: int|
            0 <= k < old(findings)@.len() && same_key(
                #[trigger] views(old(findings)@)[k],
                dash_stage(masked.spec_bytes(), *options)[0],
            )) {
            views(old(findings)@).push(dash_stage(masked.spec_bytes(), *options)[0])
        } else {
            views(old(findings)@)
        },
{
    let ghost m = masked.spec_bytes();
    let ghost src = source.spec_bytes();
    proof {
        encode_utf8_decode_utf8(masked@);
        encode_utf8_valid_utf8(source@);
        if dash_stage(m, *options).len() > 0 {
            lemma_dash_positions_at(m, 0, 0);
            lemma_dash_admitted(m, src, dash_positions(m, 0)[0]);
        }
    }
    if options.profile == Profile::Casual {
        proof {
            assert(before + dash_stage(m, *options) =~= before);
        }
        return;
    }
    let positions = dash_offsets(masked);
    let counted = count_words(masked);
    let words: usize = if counted == 0 {
        1
    } else {
        counted
    };
    let ghost ps = dash_positions(m, 0);
    assert(ps.len() == positions@.len());
    if positions.len() >= 3 && (positions.len() as u128) * 120 > words as u128 {
        let start = positions[0];
        assert(ps[0] == start);
        assert(positions@[0] + 3 <= m.len());
        let mut message = "High em-dash density: ".to_owned();
        message.append(decimal(positions.len()).as_str());
        message.append(" in ");
        message.append(decimal(words).as_str());
        message.append(" words.");
        push_finding(
            findings,
            source,
            newlines,
            "technical.em-dash-density".to_owned(),
            Severity::Medium,
            start,
            start + 3,
            message,
            "Check whether commas, parentheses, full stops, or deletion better express each relation.".to_owned(),
            Ghost(before),
        );
        proof {
            assert(before.push(dash_stage(m, *options)[0]) =~= before + dash_stage(m, *options));
            let c = dash_stage(m, *options)[0];
            assert(admitted(src, c));
            assert(before.push(c).drop_last() =~= before);
            assert(before.push(c).last() == c);
        }
    } else {
        proof {
            assert(before + dash_stage(m, *options) =~= before);
        }
    }
}


/// The candidates `x` are in strict report order.
#[verifier::opaque]
pub open spec fn strictly_ordered(x: Seq<Candidate>) -> bool {
    forall|i: int, j: int| 0 <= i < j < x.len() ==> report_before(#[trigger] x[i], #[trigger] x[j])
}

/// Two candidates of a strictly ordered list are in report order.
proof fn lemma_ordered_at(x: Seq<Candidate>, i: int, j: int)
    requires
        strictly_ordered(x),
        0 <= i < j < x.len(),
    ensures
        report_before(x[i], x[j]),
{
    reveal(strictly_ordered);
}

/// Dropping the first candidate keeps a list strictly ordered.
proof fn lemma_ordered_rest(x: Seq<Candidate>)
    requires
        strictly_ordered(x),
        x.len() > 0,
    ensures
        strictly_ordered(x.drop_first()),
{
    let xs = x.drop_first();
    assert forall|a: int, b: int| 0 <= a < b < xs.len() implies report_before(#[trigger] xs[a], #[trigger] xs[b]) by {
        lemma_ordered_at(x, a + 1, b + 1);
    }
    reveal(strictly_ordered);
}

/// Every candidate of `x` is one of `y`.
#[verifier::opaque]
pub open spec fn covered_by(x: Seq<Candidate>, y: Seq<Candidate>) -> bool {
    forall|i: int| 0 <= i < x.len() ==> y.contains(#[trigger] x[i])
}

/// `x` and `y` hold the same candidates.
pub open spec fn same_elements(x: Seq<Candidate>, y: Seq<Candidate>) -> bool {
    covered_by(x, y) && covered_by(y, x)
}

/// Dropping the first candidate of two strictly ordered lists with the same
/// candidates and the same first one leaves lists with the same candidates.
proof fn lemma_same_elements_rest(x: Seq<Candidate>, y: Seq<Candidate>)
    requires
        strictly_ordered(x),
        strictly_ordered(y),
        same_elements(x, y),
        x.len() > 0,
        y.len() > 0,
        x[0] == y[0],
    ensures
        same_elements(x.drop_first(), y.drop_first()),
{
    lemma_covered_rest(x, y);
    lemma_covered_rest(y, x);
}

/// Dropping an equal first candidate of two strictly ordered lists keeps
/// the first covered by the second.
proof fn lemma_covered_rest(x: Seq<Candidate>, y: Seq<Candidate>)
    requires
        strictly_ordered(x),
        covered_by(x, y),
        x.len() > 0,
        y.len() > 0,
        x[0] == y[0],
    ensures
        covered_by(x.drop_first(), y.drop_first()),
{
    let xs = x.drop_first();
    let ys = y.drop_first();
    assert forall|a: int| #![trigger xs[a]] 0 <= a < xs.len() implies exists|b: int| #![trigger ys[b]] 0 <= b < ys.len() && ys[b] == xs[a] by {
        assert(xs[a] == x[a + 1]);
        lemma_covered_at(x, y, a + 1);
        let b = choose|b: int| 0 <= b < y.len() && y[b] == x[a + 1];
        if b == 0 {
            lemma_ordered_at(x, 0, a + 1);
            lemma_report_order(x[0], x[0], x[0]);
        }
        assert(ys[b - 1] == y[b]);
    }
    reveal(covered_by);
}

/// An element of a covered list is an element of the covering one.
proof fn lemma_covered_at(x: Seq<Candidate>, y: Seq<Candidate>, i: int)
    requires
        covered_by(x, y),
        0 <= i < x.len(),
    ensures
        exists|q: int| 0 <= q < y.len() && y[q] == x[i],
{
    reveal(covered_by);
    assert(x[i] == x[i]);
}

/// Two lists in strict report order that hold the same candidates are
/// equal.
proof fn lemma_sorted_unique(x: Seq<Candidate>, y: Seq<Candidate>)
    requires
        strictly_ordered(x),
        strictly_ordered(y),
        same_elements(x, y),
    ensures
        x == y,
    decreases x.len(),
{
    if x.len() == 0 {
        if y.len() > 0 {
            lemma_covered_at(y, x, 0);
        }
        assert(x =~= y);
    } else {
        lemma_covered_at(x, y, 0);
        let j = choose|j: int| 0 <= j < y.len() && y[j] == x[0];
        lemma_covered_at(y, x, 0);
        let i = choose|i: int| 0 <= i < x.len() && x[i] == y[0];
        lemma_report_order(x[0], y[0], x[0]);
        lemma_report_order(y[0], y[0], y[0]);
        if j > 0 {
            lemma_ordered_at(y, 0, j);
            if i > 0 {
                lemma_ordered_at(x, 0, i);
            }
        }
        assert(x[0] == y[0]);
        lemma_same_elements_rest(x, y);
        lemma_ordered_rest(x);
        lemma_ordered_rest(y);
        lemma_sorted_unique(x.drop_first(), y.drop_first());
        assert(x =~= seq![x[0]] + x.drop_first());
        assert(y =~= seq![y[0]] + y.drop_first());
    }
}

/// The candidates of findings that report `d` hold the same candidates as
/// `d`.
proof fn lemma_reports_same_elements(a: Seq<Finding>, b: Seq<Finding>, d: Seq<Candidate>, src: Seq<u8>)
    requires
        reports(a, d, src),
        reports(b, d, src),
    ensures
        same_elements(views(a), views(b)),
{
    lemma_views_covered(a, b, d, src);
    lemma_views_covered(b, a, d, src);
}

/// The candidates of findings that report `d` are among those of any other
/// findings that report `d`.
proof fn lemma_views_covered(a: Seq<Finding>, b: Seq<Finding>, d: Seq<Candidate>, src: Seq<u8>)
    requires
        reports(a, d, src),
        reports(b, d, src),
    ensures
        covered_by(views(a), views(b)),
{
    let x = views(a);
    let y = views(b);
    assert forall|i: int| #![trigger x[i]] 0 <= i < x.len() implies exists|j: int| #![trigger y[j]] 0 <= j < y.len() && y[j] == x[i] by {
        lemma_covers_forward(a, d, i);
        let q = choose|q: int| 0 <= q < d.len() && view_finding(a[i]) == d[q];
        lemma_covers_backward(b, d, q);
        let j = choose|j: int| 0 <= j < b.len() && view_finding(b[j]) == d[q];
        assert(x[i] == view_finding(a[i]));
        assert(y[j] == view_finding(b[j]));
    }
    assert(covered_by(x, y)) by {
        reveal(covered_by);
    }
}

/// A finding of a report is one of its candidates.
proof fn lemma_covers_forward(fs: Seq<Finding>, d: Seq<Candidate>, i: int)
    requires
        covers(fs, d, 0),
        0 <= i < fs.len(),
    ensures
        exists|q: int| 0 <= q < d.len() && view_finding(fs[i]) == d[q],
{
    reveal(covers);
    assert(view_finding(fs[i]) == view_finding(fs[i]));
}

/// A candidate of a report is one of its findings.
proof fn lemma_covers_backward(fs: Seq<Finding>, d: Seq<Candidate>, q: int)
    requires
        covers(fs, d, 0),
        0 <= q < d.len(),
    ensures
        exists|j: int| 0 <= j < fs.len() && view_finding(fs[j]) == d[q],
{
    reveal(covers);
    assert(d[q] == d[q]);
}

/// A report is determined by the candidates it holds: two lists of
/// findings that both report the candidates `d` of the source `src` agree
/// finding by finding, in rule, severity, span, message, suggestion, line,
/// column and matched text. So the order in which the stages of a scan
/// produce candidates does not change its report.
pub proof fn lemma_report_determined(a: Seq<Finding>, b: Seq<Finding>, d: Seq<Candidate>, src: Seq<u8>)
    requires
        reports(a, d, src),
        reports(b, d, src),
    ensures
        views(a) == views(b),
        forall|k: int|
            0 <= k < a.len() ==> (#[trigger] a[k]).line == b[k].line && a[k].column == b[k].column
                && a[k].matched@ == b[k].matched@,
{
    let x = views(a);
    let y = views(b);
    assert(strictly_ordered(x)) by {
        reveal(strictly_ordered);
        assert forall|i: int, j: int| 0 <= i < j < x.len() implies report_before(#[trigger] x[i], #[trigger] x[j]) by {
            assert(report_before(view_finding(a[i]), view_finding(a[j])));
        }
    }
    assert(strictly_ordered(y)) by {
        reveal(strictly_ordered);
        assert forall|i: int, j: int| 0 <= i < j < y.len() implies report_before(#[trigger] y[i], #[trigger] y[j]) by {
            assert(report_before(view_finding(b[i]), view_finding(b[j])));
        }
    }
    lemma_reports_same_elements(a, b, d, src);
    lemma_sorted_unique(x, y);
    assert forall|k: int| 0 <= k < a.len() implies (#[trigger] a[k]).line == b[k].line && a[k].column
        == b[k].column && a[k].matched@ == b[k].matched@ by {
        reveal(all_located);
        assert(x[k] == y[k]);
        assert(located(a[k], src) && located(b[k], src));
    }
}



/// No two findings of a report share a rule id and a span.
pub proof fn lemma_report_keys_distinct(fs: Seq<Finding>, cs: Seq<Candidate>, src: Seq<u8>)
    requires
        reports(fs, collect(src, cs), src),
    ensures
        forall|i: int, j: int|
            0 <= i < j < fs.len() ==> !((#[trigger] fs[i]).rule_id@ == (#[trigger] fs[j]).rule_id@
                && fs[i].start == fs[j].start && fs[i].end == fs[j].end),
{
    let d = collect(src, cs);
    lemma_collect_distinct(src, cs);
    assert forall|i: int, j: int| 0 <= i < j < fs.len() implies !((#[trigger] fs[i]).rule_id@ == (
    #[trigger] fs[j]).rule_id@ && fs[i].start == fs[j].start && fs[i].end == fs[j].end) by {
        lemma_covers_forward(fs, d, i);
        lemma_covers_forward(fs, d, j);
        let p = choose|p: int| 0 <= p < d.len() && view_finding(fs[i]) == d[p];
        let q = choose|q: int| 0 <= q < d.len() && view_finding(fs[j]) == d[q];
        if p == q {
            assert(report_before(view_finding(fs[i]), view_finding(fs[j])));
            lemma_report_order(d[p], d[p], d[p]);
        } else if p < q {
            assert(!same_key(d[p], d[q]));
        } else {
            assert(!same_key(d[q], d[p]));
        }
    }
}

/// When vocabulary findings are shown, no vocabulary match is summarized.
pub proof fn lemma_shown_vocabulary_not_summarized(
    targets: Seq<LiteralTarget>,
    m: Seq<u8>,
    opts: ScanOptions,
    hits: Seq<(usize, usize, usize)>,
    n: int,
)
    requires
        opts.show_all,
    ensures
        suppressed_count(targets, m, opts, hits, n) == 0,
    decreases n,
{
    if n > 0 {
        lemma_shown_vocabulary_not_summarized(targets, m, opts, hits, n - 1);
    }
}


/// A finding with rule id `id` can be of severity `High` only through a rule
/// of that id and severity, or a repository term of severity `High`.
pub open spec fn high_origin(rules: Seq<RuleDef>, custom: Seq<CustomTerm>, id: Seq<char>) -> bool {
    ||| exists|i: int| 0 <= i < rules.len() && (#[trigger] rules[i]).severity == Severity::High
        && rules[i].id@ == id
    ||| id == custom_id() && exists|t: int|
        0 <= t < custom.len() && (#[trigger] custom[t]).severity == Severity::High
}

/// The targets of fixed phrases name existing rules and terms.
pub open spec fn targets_in_range(
    targets: Seq<LiteralTarget>,
    rules: Seq<RuleDef>,
    custom: Seq<CustomTerm>,
) -> bool {
    forall|k: int|
        0 <= k < targets.len() ==> match #[trigger] targets[k] {
            LiteralTarget::Rule(i) => i < rules.len(),
            LiteralTarget::Custom(i) => i < custom.len(),
            LiteralTarget::Vocabulary(_) => true,
        }
}

/// A `High` candidate of the fixed-phrase stage comes from a `High` rule or
/// repository term: vocabulary words are `Low`.
pub proof fn lemma_literal_high(
    rules: Seq<RuleDef>,
    custom: Seq<CustomTerm>,
    targets: Seq<LiteralTarget>,
    m: Seq<u8>,
    opts: ScanOptions,
    hits: Seq<(usize, usize, usize)>,
    n: int,
    k: int,
)
    requires
        targets_in_range(targets, rules, custom),
        forall|j: int| 0 <= j < hits.len() ==> (#[trigger] hits[j]).0 < targets.len(),
        n <= hits.len(),
        0 <= k < literal_candidates(rules, custom, targets, m, opts, hits, n).len(),
        literal_candidates(rules, custom, targets, m, opts, hits, n)[k].1 == Severity::High,
    ensures
        high_origin(rules, custom, literal_candidates(rules, custom, targets, m, opts, hits, n)[k].0),
    decreases n,
{
    let prev = literal_candidates(rules, custom, targets, m, opts, hits, n - 1);
    let step = literal_step(rules, custom, targets, m, opts, hits[n - 1]);
    assert(literal_candidates(rules, custom, targets, m, opts, hits, n) == prev + step);
    if k < prev.len() {
        assert((prev + step)[k] == prev[k]);
        lemma_literal_high(rules, custom, targets, m, opts, hits, n - 1, k);
    } else {
        assert((prev + step)[k] == step[k - prev.len()]);
        let p = hits[n - 1].0 as int;
        assert(0 <= p < targets.len());
        match targets[p] {
            LiteralTarget::Rule(i) => {
                assert(rules[i as int].severity == Severity::High);
            },
            LiteralTarget::Custom(i) => {
                assert(custom[i as int].severity == Severity::High);
            },
            LiteralTarget::Vocabulary(_) => {},
        }
    }
}

/// No rule has the rule id of vocabulary findings.
pub open spec fn no_vocabulary_rule(rules: Seq<RuleDef>) -> bool {
    forall|i: int| 0 <= i < rules.len() ==> (#[trigger] rules[i]).id@ != vocabulary_id()
}

/// The fixed rule ids of the other stages differ from the vocabulary id.
pub proof fn lemma_fixed_ids()
    ensures
        custom_id() != vocabulary_id(),
        "codex.abstraction-cluster"@ != vocabulary_id(),
        "technical.em-dash-density"@ != vocabulary_id(),
{
    reveal_strlit("research.excess-vocabulary");
    reveal_strlit("custom.repo-term");
    reveal_strlit("codex.abstraction-cluster");
    reveal_strlit("technical.em-dash-density");
    assert(custom_id()[0] != vocabulary_id()[0]);
    assert("codex.abstraction-cluster"@[0] != vocabulary_id()[0]);
    assert("technical.em-dash-density"@[0] != vocabulary_id()[0]);
}

/// Without `show_all`, and with no rule of the vocabulary id, no candidate
/// of the fixed-phrase stage has that id.
pub proof fn lemma_literal_not_vocabulary(
    rules: Seq<RuleDef>,
    custom: Seq<CustomTerm>,
    targets: Seq<LiteralTarget>,
    m: Seq<u8>,
    opts: ScanOptions,
    hits: Seq<(usize, usize, usize)>,
    n: int,
    k: int,
)
    requires
        targets_in_range(targets, rules, custom),
        forall|j: int| 0 <= j < hits.len() ==> (#[trigger] hits[j]).0 < targets.len(),
        n <= hits.len(),
        0 <= k < literal_candidates(rules, custom, targets, m, opts, hits, n).len(),
        !opts.show_all,
        no_vocabulary_rule(rules),
    ensures
        literal_candidates(rules, custom, targets, m, opts, hits, n)[k].0 != vocabulary_id(),
    decreases n,
{
    let prev = literal_candidates(rules, custom, targets, m, opts, hits, n - 1);
    let step = literal_step(rules, custom, targets, m, opts, hits[n - 1]);
    assert(literal_candidates(rules, custom, targets, m, opts, hits, n) == prev + step);
    if k < prev.len() {
        assert((prev + step)[k] == prev[k]);
        lemma_literal_not_vocabulary(rules, custom, targets, m, opts, hits, n - 1, k);
    } else {
        assert((prev + step)[k] == step[k - prev.len()]);
        let p = hits[n - 1].0 as int;
        assert(0 <= p < targets.len());
        lemma_fixed_ids();
        match targets[p] {
            LiteralTarget::Rule(i) => {
                assert(rules[i as int].id@ != vocabulary_id());
            },
            _ => {},
        }
    }
}

/// With no rule of the vocabulary id, no candidate of the regex stage has
/// that id.
pub proof fn lemma_regex_not_vocabulary(
    rules: Seq<RuleDef>,
    patterns: Seq<Seq<char>>,
    rule_of: Seq<usize>,
    masked: Seq<char>,
    opts: ScanOptions,
    n: int,
    k: int,
)
    requires
        forall|j: int| 0 <= j < rule_of.len() ==> #[trigger] rule_of[j] < rules.len(),
        n <= rule_of.len(),
        0 <= k < regex_candidates(rules, patterns, rule_of, masked, opts, n).len(),
        no_vocabulary_rule(rules),
    ensures
        regex_candidates(rules, patterns, rule_of, masked, opts, n)[k].0 != vocabulary_id(),
    decreases n,
{
    let prev = regex_candidates(rules, patterns, rule_of, masked, opts, n - 1);
    let rule = rules[rule_of[n - 1] as int];
    let step = if crate::engines::regex_is_match(patterns[n - 1], masked) && rule_applies(
        rule,
        opts.profile,
    ) {
        spans_candidates(rule, crate::engines::regex_matches(patterns[n - 1], masked))
    } else {
        Seq::empty()
    };
    assert(regex_candidates(rules, patterns, rule_of, masked, opts, n) == prev + step);
    if k < prev.len() {
        assert((prev + step)[k] == prev[k]);
        lemma_regex_not_vocabulary(rules, patterns, rule_of, masked, opts, n - 1, k);
    } else {
        assert((prev + step)[k] == step[k - prev.len()]);
        assert(rule_of[n - 1] < rules.len());
        assert(rules[rule_of[n - 1] as int].id@ != vocabulary_id());
    }
}

/// With no rule of the vocabulary id, no candidate of the structural stage
/// has that id.
pub proof fn lemma_zh_not_vocabulary(
    rules: Seq<RuleDef>,
    opts: ScanOptions,
    hits: Seq<ZhHit>,
    n: int,
    k: int,
)
    requires
        n <= hits.len(),
        0 <= k < zh_candidates(rules, opts, hits, n).len(),
        no_vocabulary_rule(rules),
    ensures
        zh_candidates(rules, opts, hits, n)[k].0 != vocabulary_id(),
    decreases n,
{
    let prev = zh_candidates(rules, opts, hits, n - 1);
    let step = zh_step(rules, opts, hits[n - 1]);
    assert(zh_candidates(rules, opts, hits, n) == prev + step);
    if k < prev.len() {
        assert((prev + step)[k] == prev[k]);
        lemma_zh_not_vocabulary(rules, opts, hits, n - 1, k);
    } else {
        assert((prev + step)[k] == step[k - prev.len()]);
        lemma_rule_index_of(rules, hits[n - 1].0, 0);
        let i = rule_index_of(rules, hits[n - 1].0, 0)->0;
        assert(rules[i].id@ != vocabulary_id());
    }
}

/// A `High` candidate of the regex stage comes from a `High` rule.
pub proof fn lemma_regex_high(
    rules: Seq<RuleDef>,
    patterns: Seq<Seq<char>>,
    rule_of: Seq<usize>,
    masked: Seq<char>,
    opts: ScanOptions,
    n: int,
    k: int,
)
    requires
        forall|j: int| 0 <= j < rule_of.len() ==> #[trigger] rule_of[j] < rules.len(),
        n <= rule_of.len(),
        0 <= k < regex_candidates(rules, patterns, rule_of, masked, opts, n).len(),
        regex_candidates(rules, patterns, rule_of, masked, opts, n)[k].1 == Severity::High,
    ensures
        high_origin(rules, Seq::empty(), regex_candidates(rules, patterns, rule_of, masked, opts, n)[k].0),
    decreases n,
{
    let prev = regex_candidates(rules, patterns, rule_of, masked, opts, n - 1);
    let rule = rules[rule_of[n - 1] as int];
    let step = if crate::engines::regex_is_match(patterns[n - 1], masked) && rule_applies(
        rule,
        opts.profile,
    ) {
        spans_candidates(rule, crate::engines::regex_matches(patterns[n - 1], masked))
    } else {
        Seq::empty()
    };
    assert(regex_candidates(rules, patterns, rule_of, masked, opts, n) == prev + step);
    if k < prev.len() {
        assert((prev + step)[k] == prev[k]);
        lemma_regex_high(rules, patterns, rule_of, masked, opts, n - 1, k);
    } else {
        assert((prev + step)[k] == step[k - prev.len()]);
        assert(rule_of[n - 1] < rules.len());
        assert(rules[rule_of[n - 1] as int].severity == Severity::High);
    }
}

/// The first rule with a given id exists.
pub proof fn lemma_rule_index_of(rules: Seq<RuleDef>, id: Seq<char>, i: int)
    requires
        0 <= i,
    ensures
        rule_index_of(rules, id, i) matches Some(j) ==> i <= j < rules.len() && rules[j].id@ == id,
    decreases rules.len() - i,
{
    if i < rules.len() && rules[i].id@ != id {
        lemma_rule_index_of(rules, id, i + 1);
    }
}

/// A `High` candidate of the structural stage comes from a `High` rule.
pub proof fn lemma_zh_high(
    rules: Seq<RuleDef>,
    opts: ScanOptions,
    hits: Seq<ZhHit>,
    n: int,
    k: int,
)
    requires
        n <= hits.len(),
        0 <= k < zh_candidates(rules, opts, hits, n).len(),
        zh_candidates(rules, opts, hits, n)[k].1 == Severity::High,
    ensures
        high_origin(rules, Seq::empty(), zh_candidates(rules, opts, hits, n)[k].0),
    decreases n,
{
    let prev = zh_candidates(rules, opts, hits, n - 1);
    let step = zh_step(rules, opts, hits[n - 1]);
    assert(zh_candidates(rules, opts, hits, n) == prev + step);
    if k < prev.len() {
        assert((prev + step)[k] == prev[k]);
        lemma_zh_high(rules, opts, hits, n - 1, k);
    } else {
        assert((prev + step)[k] == step[k - prev.len()]);
        lemma_rule_index_of(rules, hits[n - 1].0, 0);
        let i = rule_index_of(rules, hits[n - 1].0, 0)->0;
        assert(rules[i].severity == Severity::High);
    }
}

/// Cluster candidates are `Medium`.
pub proof fn lemma_clusters_medium(m: Seq<u8>, paras: Seq<(usize, usize)>, n: int, k: int)
    requires
        0 <= k < cluster_candidates(m, paras, n).len(),
    ensures
        cluster_candidates(m, paras, n)[k].1 == Severity::Medium,
        cluster_candidates(m, paras, n)[k].0 == "codex.abstraction-cluster"@,
    decreases n,
{
    let prev = cluster_candidates(m, paras, n - 1);
    let step = cluster_at(m, paras[n - 1].0 as int, paras[n - 1].1 as int);
    assert(cluster_candidates(m, paras, n) == prev + step);
    if k < prev.len() {
        assert((prev + step)[k] == prev[k]);
        lemma_clusters_medium(m, paras, n - 1, k);
    } else {
        assert((prev + step)[k] == step[k - prev.len()]);
    }
}


/// A candidate of the `k`-th match of the `i`-th expression is among the
/// candidates of the first `n` expressions, when the expression matches and
/// its rule applies.
pub proof fn lemma_regex_candidates_has(
    rules: Seq<RuleDef>,
    patterns: Seq<Seq<char>>,
    rule_of: Seq<usize>,
    masked: Seq<char>,
    opts: ScanOptions,
    n: int,
    i: int,
    k: int,
)
    requires
        0 <= i < n,
        crate::engines::regex_is_match(patterns[i], masked),
        rule_applies(rules[rule_of[i] as int], opts.profile),
        0 <= k < crate::engines::regex_matches(patterns[i], masked).len(),
    ensures
        regex_candidates(rules, patterns, rule_of, masked, opts, n).contains(
            rule_candidate(
                rules[rule_of[i] as int],
                crate::engines::regex_matches(patterns[i], masked)[k].0 as int,
                crate::engines::regex_matches(patterns[i], masked)[k].1 as int,
            ),
        ),
    decreases n,
{
    let prev = regex_candidates(rules, patterns, rule_of, masked, opts, n - 1);
    let rule = rules[rule_of[n - 1] as int];
    let step = if crate::engines::regex_is_match(patterns[n - 1], masked) && rule_applies(
        rule,
        opts.profile,
    ) {
        spans_candidates(rule, crate::engines::regex_matches(patterns[n - 1], masked))
    } else {
        Seq::empty()
    };
    assert(regex_candidates(rules, patterns, rule_of, masked, opts, n) == prev + step);
    let spans = crate::engines::regex_matches(patterns[i], masked);
    let c = rule_candidate(rules[rule_of[i] as int], spans[k].0 as int, spans[k].1 as int);
    if i == n - 1 {
        assert(step[k] == c);
        assert((prev + step)[prev.len() + k] == c);
    } else {
        lemma_regex_candidates_has(rules, patterns, rule_of, masked, opts, n - 1, i, k);
        let q = choose|q: int| 0 <= q < prev.len() && prev[q] == c;
        assert((prev + step)[q] == c);
    }
}


/// Each offset that `dash_positions` lists holds an em dash.
pub proof fn lemma_dash_positions_at(m: Seq<u8>, i: int, k: int)
    requires
        0 <= k < dash_positions(m, i).len(),
    ensures
        dash_at(m, dash_positions(m, i)[k]),
    decreases m.len() - i,
{
    if i < 0 || i + 3 > m.len() {
    } else if dash_at(m, i) {
        if k > 0 {
            lemma_dash_positions_at(m, i + 3, k - 1);
        }
    } else {
        lemma_dash_positions_at(m, i + 1, k);
    }
}

/// An em dash of the masking is an em dash of the source, with character
/// starts on both sides.
pub proof fn lemma_dash_admitted(m: Seq<u8>, src: Seq<u8>, p: int)
    requires
        masks(m, src),
        valid_utf8(src),
        dash_at(m, p),
    ensures
        p + 3 <= src.len(),
        is_char_boundary(src, p),
        is_char_boundary(src, p + 3),
{
    assert(m[p] != 0x20 && m[p + 1] != 0x20 && m[p + 2] != 0x20);
    assert(src[p] == 0xe2 && src[p + 1] == 0x80 && src[p + 2] == 0x94);
    assert(at_char_start(src, p));
    crate::text::lemma_next_char_start(src, p);
    let rest = src.subrange(p, src.len() as int);
    assert(rest[0] == 0xe2);
    assert(length_of_first_scalar(rest) == 3);
    crate::text::lemma_char_start_boundary(src, p);
    crate::text::lemma_char_start_boundary(src, p + 3);
}

/// The first em dash found from `i` on is the first offset from `i` at
/// which one is encoded; where none is found, there is none.
proof fn lemma_first_dash(m: Seq<u8>, i: int)
    requires
        0 <= i,
    ensures
        dash_positions(m, i).len() > 0 ==> i <= dash_positions(m, i)[0] && dash_at(
            m,
            dash_positions(m, i)[0],
        ) && forall|j: int| i <= j < dash_positions(m, i)[0] ==> !#[trigger] dash_at(m, j),
        dash_positions(m, i).len() == 0 ==> forall|j: int| i <= j ==> !#[trigger] dash_at(m, j),
    decreases m.len() - i,
{
    if i + 3 > m.len() {
    } else if dash_at(m, i) {
    } else {
        lemma_first_dash(m, i + 1);
    }
}

/// The number of em dashes in the masked bytes `m`.
pub open spec fn dash_count(m: Seq<u8>) -> nat {
    dash_positions(m, 0).len()
}

/// The number of words of the masked bytes `m`, counting at least one.
pub open spec fn counted_words(m: Seq<u8>) -> nat {
    if word_count(decode_utf8(m)) == 0 {
        1
    } else {
        word_count(decode_utf8(m))
    }
}

/// Dense em dashes are reported once, at the first one: for every profile
/// but casual, when the masked text holds at least three em dashes and more
/// than one per 120 words, the em-dash stage yields exactly one
/// `technical.em-dash-density` candidate of severity `Medium`, spanning the
/// first em dash and stating the count and the number of words; otherwise
/// it yields none.
pub proof fn lemma_dense_dashes_reported(m: Seq<u8>, opts: ScanOptions)
    ensures
        opts.profile != Profile::Casual && dash_count(m) >= 3 && dash_count(m) * 120 > counted_words(m)
            ==> {
            &&& dash_stage(m, opts).len() == 1
            &&& dash_stage(m, opts)[0].0 == "technical.em-dash-density"@
            &&& dash_stage(m, opts)[0].1 == Severity::Medium
            &&& dash_at(m, dash_stage(m, opts)[0].2)
            &&& forall|j: int| 0 <= j < dash_stage(m, opts)[0].2 ==> !#[trigger] dash_at(m, j)
            &&& dash_stage(m, opts)[0].3 == dash_stage(m, opts)[0].2 + 3
            &&& dash_stage(m, opts)[0].4 == "High em-dash density: "@ + decimal_chars(dash_count(m))
                + " in "@ + decimal_chars(counted_words(m)) + " words."@
        },
        !(opts.profile != Profile::Casual && dash_count(m) >= 3 && dash_count(m) * 120 > counted_words(
            m,
        )) ==> dash_stage(m, opts).len() == 0,
{
    lemma_first_dash(m, 0);
}

/// Every paragraph with three distinct abstraction terms is reported: for
/// every profile but casual and marketing, a paragraph of the masked text
/// in which at least three of the terms occur on character and word
/// boundaries yields a `codex.abstraction-cluster` candidate of severity
/// `Medium` spanning that paragraph.
pub proof fn lemma_dense_paragraphs_reported(m: Seq<u8>, opts: ScanOptions, q: int)
    requires
        opts.profile != Profile::Casual,
        opts.profile != Profile::Marketing,
        0 <= q < paragraphs(m).len(),
        terms_in(m, paragraphs(m)[q].0 as int, paragraphs(m)[q].1 as int) >= 3,
    ensures
        exists|k: int|
            0 <= k < cluster_stage(m, opts).len() && (#[trigger] cluster_stage(m, opts)[k]).0
                == "codex.abstraction-cluster"@ && cluster_stage(m, opts)[k].1 == Severity::Medium
                && cluster_stage(m, opts)[k].2 == paragraphs(m)[q].0 && cluster_stage(m, opts)[k].3
                == paragraphs(m)[q].1,
{
    let paras = paragraphs(m);
    lemma_cluster_reported(m, paras, paras.len() as int, q);
    let cs = cluster_candidates(m, paras, paras.len() as int);
    assert(cluster_stage(m, opts) == cs);
    let k = choose|k: int|
        0 <= k < cs.len() && (#[trigger] cs[k]).0 == "codex.abstraction-cluster"@ && cs[k].1
            == Severity::Medium && cs[k].2 == paras[q].0 && cs[k].3 == paras[q].1;
    assert(cluster_stage(m, opts)[k] == cs[k]);
}

proof fn lemma_cluster_reported(m: Seq<u8>, paras: Seq<(usize, usize)>, n: int, q: int)
    requires
        0 <= q < n <= paras.len(),
        terms_in(m, paras[q].0 as int, paras[q].1 as int) >= 3,
    ensures
        exists|k: int|
            0 <= k < cluster_candidates(m, paras, n).len() && (#[trigger] cluster_candidates(m, paras, n)[k]).0
                == "codex.abstraction-cluster"@ && cluster_candidates(m, paras, n)[k].1 == Severity::Medium
                && cluster_candidates(m, paras, n)[k].2 == paras[q].0 && cluster_candidates(m, paras, n)[k].3
                == paras[q].1,
    decreases n,
{
    let prev = cluster_candidates(m, paras, n - 1);
    let step = cluster_at(m, paras[n - 1].0 as int, paras[n - 1].1 as int);
    assert(cluster_candidates(m, paras, n) == prev + step);
    if q < n - 1 {
        lemma_cluster_reported(m, paras, n - 1, q);
        let k = choose|k: int|
            0 <= k < prev.len() && (#[trigger] prev[k]).0 == "codex.abstraction-cluster"@ && prev[k].1
                == Severity::Medium && prev[k].2 == paras[q].0 && prev[k].3 == paras[q].1;
        assert((prev + step)[k] == prev[k]);
    } else {
        assert(step.len() == 1);
        assert((prev + step)[prev.len() as int] == step[0]);
    }
}

} // verus!
