//! How many findings of severity `High` a scan reports, and why showing the
//! weak vocabulary matches does not change that number: vocabulary findings
//! are `Low` and carry a rule id of their own, so adding them neither adds
//! nor displaces a `High` finding.
use vstd::prelude::*;
use crate::chinese::ZhHit;
use crate::findings::{
    collect, lemma_fixed_ids, lemma_rule_index_of, literal_candidates, literal_step,
    regex_candidates, rule_index_of, same_key, spans_candidates, targets_in_range, view_finding,
    views, vocabulary_id, zh_candidates, zh_step, Candidate,
};
use crate::model::{high_count, CustomTerm, Finding, RuleDef, ScanOptions, Severity};
use crate::scanner::LiteralTarget;

verus! {

/// The number of candidates of severity `High`.
pub open spec fn high_candidates(d: Seq<Candidate>) -> nat
    decreases d.len(),
{
    if d.len() == 0 {
        0
    } else {
        high_candidates(d.drop_last()) + if d.last().1 == Severity::High {
            1nat
        } else {
            0nat
        }
    }
}

/// The candidates whose rule id is not the vocabulary id, in order.
pub open spec fn without_vocabulary(d: Seq<Candidate>) -> Seq<Candidate>
    decreases d.len(),
{
    if d.len() == 0 {
        d
    } else {
        let r = without_vocabulary(d.drop_last());
        if d.last().0 != vocabulary_id() {
            r.push(d.last())
        } else {
            r
        }
    }
}

/// No rule of severity `High` has the vocabulary id.
pub open spec fn no_high_vocabulary_rule(rules: Seq<RuleDef>) -> bool {
    forall|i: int|
        0 <= i < rules.len() && (#[trigger] rules[i]).id@ == vocabulary_id() ==> rules[i].severity
            != Severity::High
}

/// No candidate with the vocabulary id has severity `High`.
pub open spec fn vocabulary_not_high(d: Seq<Candidate>) -> bool {
    forall|k: int| 0 <= k < d.len() && (#[trigger] d[k]).0 == vocabulary_id() ==> d[k].1 != Severity::High
}

proof fn lemma_without_add(a: Seq<Candidate>, b: Seq<Candidate>)
    ensures
        without_vocabulary(a + b) == without_vocabulary(a) + without_vocabulary(b),
    decreases b.len(),
{
    if b.len() == 0 {
        assert(a + b =~= a);
        assert(without_vocabulary(a) + without_vocabulary(b) =~= without_vocabulary(a));
    } else {
        lemma_without_add(a, b.drop_last());
        assert((a + b).drop_last() =~= a + b.drop_last());
        assert((a + b).last() == b.last());
        if b.last().0 != vocabulary_id() {
            assert(without_vocabulary(a) + without_vocabulary(b.drop_last()).push(b.last())
                =~= (without_vocabulary(a) + without_vocabulary(b.drop_last())).push(b.last()));
        }
    }
}

proof fn lemma_without_members(d: Seq<Candidate>)
    ensures
        forall|k: int|
            0 <= k < without_vocabulary(d).len() ==> (#[trigger] without_vocabulary(d)[k]).0
                != vocabulary_id() && d.contains(without_vocabulary(d)[k]),
        forall|j: int|
            0 <= j < d.len() && (#[trigger] d[j]).0 != vocabulary_id() ==> without_vocabulary(
                d,
            ).contains(d[j]),
    decreases d.len(),
{
    if d.len() > 0 {
        let p = d.drop_last();
        lemma_without_members(p);
        let r = without_vocabulary(p);
        let w = without_vocabulary(d);
        assert forall|k: int| 0 <= k < w.len() implies (#[trigger] w[k]).0 != vocabulary_id()
            && d.contains(w[k]) by {
            if k < r.len() {
                assert(w[k] == r[k]);
                let j = choose|j: int| 0 <= j < p.len() && p[j] == r[k];
                assert(d[j] == p[j]);
            } else {
                assert(d[d.len() - 1] == w[k]);
            }
        }
        assert forall|j: int| 0 <= j < d.len() && (#[trigger] d[j]).0 != vocabulary_id() implies w.contains(
            d[j],
        ) by {
            if j < d.len() - 1 {
                assert(p[j] == d[j]);
                let k = choose|k: int| 0 <= k < r.len() && r[k] == p[j];
                assert(w[k] == r[k]);
            } else {
                assert(w[w.len() - 1] == d[j]);
            }
        }
    }
}

/// Keeping the first of each rule id and span commutes with leaving out the
/// vocabulary candidates, as a key holds its rule id.
proof fn lemma_collect_without(src: Seq<u8>, cs: Seq<Candidate>)
    ensures
        collect(src, without_vocabulary(cs)) == without_vocabulary(collect(src, cs)),
    decreases cs.len(),
{
    if cs.len() > 0 {
        let p = cs.drop_last();
        let c = cs.last();
        lemma_collect_without(src, p);
        let d = collect(src, p);
        let wd = without_vocabulary(d);
        lemma_without_members(d);
        if c.0 != vocabulary_id() {
            assert(without_vocabulary(cs).drop_last() =~= without_vocabulary(p));
            assert(without_vocabulary(cs).last() == c);
            if exists|k: int| 0 <= k < d.len() && same_key(#[trigger] d[k], c) {
                let k = choose|k: int| 0 <= k < d.len() && same_key(#[trigger] d[k], c);
                assert(d[k].0 != vocabulary_id());
                let j = choose|j: int| 0 <= j < wd.len() && wd[j] == d[k];
                assert(same_key(wd[j], c));
            }
            if exists|k: int| 0 <= k < wd.len() && same_key(#[trigger] wd[k], c) {
                let k = choose|k: int| 0 <= k < wd.len() && same_key(#[trigger] wd[k], c);
                let j = choose|j: int| 0 <= j < d.len() && d[j] == wd[k];
                assert(same_key(d[j], c));
            }
            let e = d.push(c);
            assert(e.drop_last() =~= d);
        } else {
            assert(without_vocabulary(cs) == without_vocabulary(p));
            let e = d.push(c);
            assert(e.drop_last() =~= d);
        }
    }
}

/// Leaving out candidates with the vocabulary id, none of them `High`,
/// keeps the number of `High` ones.
proof fn lemma_high_without(d: Seq<Candidate>)
    requires
        vocabulary_not_high(d),
    ensures
        high_candidates(without_vocabulary(d)) == high_candidates(d),
    decreases d.len(),
{
    if d.len() > 0 {
        let p = d.drop_last();
        assert forall|k: int| 0 <= k < p.len() && (#[trigger] p[k]).0 == vocabulary_id() implies p[k].1
            != Severity::High by {
            assert(d[k] == p[k]);
        }
        lemma_high_without(p);
        assert(d[d.len() - 1] == d.last());
        if d.last().0 != vocabulary_id() {
            assert(without_vocabulary(d).drop_last() =~= without_vocabulary(p));
        }
    }
}

/// Every kept candidate is one of the candidates.
proof fn lemma_collect_members(src: Seq<u8>, cs: Seq<Candidate>)
    ensures
        forall|k: int| 0 <= k < collect(src, cs).len() ==> cs.contains(#[trigger] collect(src, cs)[k]),
    decreases cs.len(),
{
    if cs.len() > 0 {
        let p = cs.drop_last();
        lemma_collect_members(src, p);
        let d = collect(src, p);
        assert forall|k: int| 0 <= k < collect(src, cs).len() implies cs.contains(
            #[trigger] collect(src, cs)[k],
        ) by {
            if k < d.len() {
                assert(collect(src, cs)[k] == d[k]);
                let j = choose|j: int| 0 <= j < p.len() && p[j] == d[k];
                assert(cs[j] == p[j]);
            } else {
                assert(cs[cs.len() - 1] == collect(src, cs)[k]);
            }
        }
    }
}

/// Without a `High` candidate of the vocabulary id, none is kept either.
proof fn lemma_collect_not_high(src: Seq<u8>, cs: Seq<Candidate>)
    requires
        vocabulary_not_high(cs),
    ensures
        vocabulary_not_high(collect(src, cs)),
{
    lemma_collect_members(src, cs);
}

/// `High` candidates of the fixed-phrase stage are never of the vocabulary
/// id when no `High` rule has it; the vocabulary matches aside, the stage
/// does not depend on `show_all`.
pub(crate) proof fn lemma_literal_confidence(
    rules: Seq<RuleDef>,
    custom: Seq<CustomTerm>,
    targets: Seq<LiteralTarget>,
    m: Seq<u8>,
    a: ScanOptions,
    b: ScanOptions,
    hits: Seq<(usize, usize, usize)>,
    n: int,
)
    requires
        targets_in_range(targets, rules, custom),
        forall|j: int| 0 <= j < hits.len() ==> (#[trigger] hits[j]).0 < targets.len(),
        n <= hits.len(),
        a.profile == b.profile,
        no_high_vocabulary_rule(rules),
    ensures
        vocabulary_not_high(literal_candidates(rules, custom, targets, m, a, hits, n)),
        without_vocabulary(literal_candidates(rules, custom, targets, m, a, hits, n))
            == without_vocabulary(literal_candidates(rules, custom, targets, m, b, hits, n)),
    decreases n,
{
    if n > 0 {
        lemma_literal_confidence(rules, custom, targets, m, a, b, hits, n - 1);
        let pa = literal_candidates(rules, custom, targets, m, a, hits, n - 1);
        let pb = literal_candidates(rules, custom, targets, m, b, hits, n - 1);
        let sa = literal_step(rules, custom, targets, m, a, hits[n - 1]);
        let sb = literal_step(rules, custom, targets, m, b, hits[n - 1]);
        lemma_without_add(pa, sa);
        lemma_without_add(pb, sb);
        lemma_fixed_ids();
        let p = hits[n - 1].0 as int;
        assert(0 <= p < targets.len());
        match targets[p] {
            LiteralTarget::Rule(i) => {
                assert(sa == sb);
                if sa.len() > 0 && rules[i as int].id@ == vocabulary_id() {
                    assert(rules[i as int].severity != Severity::High);
                }
            },
            LiteralTarget::Custom(i) => {
                assert(sa == sb);
            },
            LiteralTarget::Vocabulary(w) => {
                assert(without_vocabulary(sa) =~= Seq::<Candidate>::empty()) by {
                    if sa.len() > 0 {
                        assert(sa.len() == 1);
                        assert(sa.last().0 == vocabulary_id());
                        assert(sa.drop_last() =~= Seq::<Candidate>::empty());
                        assert(without_vocabulary(sa.drop_last()) =~= Seq::<Candidate>::empty());
                    }
                }
                assert(without_vocabulary(sb) =~= Seq::<Candidate>::empty()) by {
                    if sb.len() > 0 {
                        assert(sb.len() == 1);
                        assert(sb.last().0 == vocabulary_id());
                        assert(sb.drop_last() =~= Seq::<Candidate>::empty());
                        assert(without_vocabulary(sb.drop_last()) =~= Seq::<Candidate>::empty());
                    }
                }
            },
        }
        let all = pa + sa;
        assert forall|k: int| 0 <= k < all.len() && (#[trigger] all[k]).0 == vocabulary_id() implies all[k].1
            != Severity::High by {
            if k < pa.len() {
                assert(all[k] == pa[k]);
            } else {
                assert(all[k] == sa[k - pa.len()]);
            }
        }
    }
}

/// The regex stage does not depend on `show_all`, and none of its `High`
/// candidates has the vocabulary id when no `High` rule has it.
pub(crate) proof fn lemma_regex_confidence(
    rules: Seq<RuleDef>,
    patterns: Seq<Seq<char>>,
    rule_of: Seq<usize>,
    masked: Seq<char>,
    a: ScanOptions,
    b: ScanOptions,
    n: int,
)
    requires
        forall|j: int| 0 <= j < rule_of.len() ==> #[trigger] rule_of[j] < rules.len(),
        n <= rule_of.len(),
        a.profile == b.profile,
        no_high_vocabulary_rule(rules),
    ensures
        regex_candidates(rules, patterns, rule_of, masked, a, n) == regex_candidates(
            rules,
            patterns,
            rule_of,
            masked,
            b,
            n,
        ),
        vocabulary_not_high(regex_candidates(rules, patterns, rule_of, masked, a, n)),
    decreases n,
{
    if n > 0 {
        lemma_regex_confidence(rules, patterns, rule_of, masked, a, b, n - 1);
        let prev = regex_candidates(rules, patterns, rule_of, masked, a, n - 1);
        let rule = rules[rule_of[n - 1] as int];
        let step = if crate::engines::regex_is_match(patterns[n - 1], masked) && crate::findings::rule_applies(
            rule,
            a.profile,
        ) {
            spans_candidates(rule, crate::engines::regex_matches(patterns[n - 1], masked))
        } else {
            Seq::empty()
        };
        assert(regex_candidates(rules, patterns, rule_of, masked, a, n) == prev + step);
        assert(rule_of[n - 1] < rules.len());
        let all = prev + step;
        assert forall|k: int| 0 <= k < all.len() && (#[trigger] all[k]).0 == vocabulary_id() implies all[k].1
            != Severity::High by {
            if k < prev.len() {
                assert(all[k] == prev[k]);
            } else {
                assert(all[k] == step[k - prev.len()]);
            }
        }
    }
}

/// The structural stage does not depend on `show_all`, and none of its
/// `High` candidates has the vocabulary id when no `High` rule has it.
pub(crate) proof fn lemma_zh_confidence(rules: Seq<RuleDef>, a: ScanOptions, b: ScanOptions, hits: Seq<ZhHit>, n: int)
    requires
        n <= hits.len(),
        a.profile == b.profile,
        no_high_vocabulary_rule(rules),
    ensures
        zh_candidates(rules, a, hits, n) == zh_candidates(rules, b, hits, n),
        vocabulary_not_high(zh_candidates(rules, a, hits, n)),
    decreases n,
{
    if n > 0 {
        lemma_zh_confidence(rules, a, b, hits, n - 1);
        let prev = zh_candidates(rules, a, hits, n - 1);
        let step = zh_step(rules, a, hits[n - 1]);
        assert(zh_candidates(rules, a, hits, n) == prev + step);
        assert(zh_step(rules, a, hits[n - 1]) == zh_step(rules, b, hits[n - 1]));
        lemma_rule_index_of(rules, hits[n - 1].0, 0);
        let all = prev + step;
        assert forall|k: int| 0 <= k < all.len() && (#[trigger] all[k]).0 == vocabulary_id() implies all[k].1
            != Severity::High by {
            if k < prev.len() {
                assert(all[k] == prev[k]);
            } else {
                assert(all[k] == step[k - prev.len()]);
            }
        }
    }
}

/// The stages other than the fixed-phrase one, side by side for two
/// options of one profile: equal, and without a `High` vocabulary-id
/// candidate, the fixed-phrase stage being equal but for its vocabulary
/// candidates; then the kept candidates count as many `High` ones.
pub proof fn lemma_same_high_candidates(
    src: Seq<u8>,
    lit_a: Seq<Candidate>,
    lit_b: Seq<Candidate>,
    rest_a: Seq<Candidate>,
    rest_b: Seq<Candidate>,
)
    requires
        vocabulary_not_high(lit_a),
        vocabulary_not_high(lit_b),
        vocabulary_not_high(rest_a),
        rest_a == rest_b,
        without_vocabulary(lit_a) == without_vocabulary(lit_b),
    ensures
        high_candidates(collect(src, lit_a + rest_a)) == high_candidates(collect(src, lit_b + rest_b)),
{
    let ca = lit_a + rest_a;
    let cb = lit_b + rest_b;
    assert(vocabulary_not_high(ca)) by {
        assert forall|k: int| 0 <= k < ca.len() && (#[trigger] ca[k]).0 == vocabulary_id() implies ca[k].1
            != Severity::High by {
            if k < lit_a.len() {
                assert(ca[k] == lit_a[k]);
            } else {
                assert(ca[k] == rest_a[k - lit_a.len()]);
            }
        }
    }
    assert(vocabulary_not_high(cb)) by {
        assert forall|k: int| 0 <= k < cb.len() && (#[trigger] cb[k]).0 == vocabulary_id() implies cb[k].1
            != Severity::High by {
            if k < lit_b.len() {
                assert(cb[k] == lit_b[k]);
            } else {
                assert(cb[k] == rest_b[k - lit_b.len()]);
            }
        }
    }
    lemma_without_add(lit_a, rest_a);
    lemma_without_add(lit_b, rest_b);
    lemma_collect_without(src, ca);
    lemma_collect_without(src, cb);
    lemma_collect_not_high(src, ca);
    lemma_collect_not_high(src, cb);
    lemma_high_without(collect(src, ca));
    lemma_high_without(collect(src, cb));
}

/// A candidate put in front adds one `High` when it is `High`.
proof fn lemma_high_prepend(x: Candidate, d: Seq<Candidate>)
    ensures
        high_candidates(seq![x] + d) == high_candidates(d) + if x.1 == Severity::High {
            1nat
        } else {
            0nat
        },
    decreases d.len(),
{
    if d.len() == 0 {
        assert(seq![x] + d =~= seq![x]);
        assert(seq![x].drop_last() =~= Seq::<Candidate>::empty());
        assert(seq![x].last() == x);
        assert(high_candidates(Seq::<Candidate>::empty()) == 0);
    } else {
        lemma_high_prepend(x, d.drop_last());
        assert((seq![x] + d).drop_last() =~= seq![x] + d.drop_last());
        assert((seq![x] + d).last() == d.last());
    }
}

/// A candidate inserted anywhere adds one `High` when it is `High`.
pub proof fn lemma_high_insert(d: Seq<Candidate>, pos: int, x: Candidate)
    requires
        0 <= pos <= d.len(),
    ensures
        high_candidates(d.insert(pos, x)) == high_candidates(d) + if x.1 == Severity::High {
            1nat
        } else {
            0nat
        },
    decreases d.len(),
{
    if pos == d.len() {
        assert(d.insert(pos, x).drop_last() =~= d);
    } else {
        lemma_high_insert(d.drop_last(), pos, x);
        assert(d.insert(pos, x).drop_last() =~= d.drop_last().insert(pos, x));
        assert(d.insert(pos, x).last() == d.last());
    }
}

/// The suffix of `d` from `n` on counts the candidate at `n` and the suffix
/// after it.
pub proof fn lemma_high_suffix(d: Seq<Candidate>, n: int)
    requires
        0 <= n < d.len(),
    ensures
        high_candidates(d.skip(n)) == high_candidates(d.skip(n + 1)) + if d[n].1 == Severity::High {
            1nat
        } else {
            0nat
        },
{
    assert(d.skip(n) =~= seq![d[n]] + d.skip(n + 1));
    lemma_high_prepend(d[n], d.skip(n + 1));
}

/// The `High` findings among the first `n` are the `High` candidates among
/// their views.
pub proof fn lemma_high_count_views(fs: Seq<Finding>, n: int)
    requires
        0 <= n <= fs.len(),
    ensures
        high_count(fs, n) == high_candidates(views(fs).take(n)),
    decreases n,
{
    if n > 0 {
        lemma_high_count_views(fs, n - 1);
        assert(views(fs).take(n).drop_last() =~= views(fs).take(n - 1));
        assert(views(fs).take(n).last() == view_finding(fs[n - 1]));
    } else {
        assert(views(fs).take(0) =~= Seq::<Candidate>::empty());
    }
}

} // verus!
