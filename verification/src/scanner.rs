//! The scanner: rules compiled into one automaton for fixed phrases and one
//! regex set, and the scan of a document into a report.
use vstd::prelude::*;
use vstd::string::*;
use aho_corasick::AhoCorasick;
use regex::{Regex, RegexSet};
use vstd::utf8::*;
use crate::engines::{
    automaton_patterns, build_automaton, build_regex, build_regex_set, bytes_of_strings,
    chars_of_strings, automaton_builds, regex_builds, regex_set_builds, find_all, find_overlapping, occurs_at, overlapping_matches, regex_is_match,
    regex_matches,
    regex_source,
    set_matching, set_patterns, standard_semantics,
};
use crate::chinese::{hits_view, patterns, patterns_build, scan, zh_hits, Patterns};
use crate::findings::{
    rule_index_of, zh_candidates, abstraction_bytes, high_origin, lemma_clusters_medium,
    lemma_literal_high, lemma_regex_candidates_has, lemma_regex_high, lemma_reported_candidate, lemma_zh_high, targets_in_range,
    view_finding, custom_id, hit_counts, lemma_admitted_reported,
    lemma_literal_candidates_has, literal_step, reported, rule_applies, vocabulary_id, cluster_candidates, present_terms, term_at, term_present, lemma_abstraction_bytes, lemma_clusters_need_three_terms, terms_in, no_vocabulary_rule, lemma_fixed_ids, lemma_literal_not_vocabulary, lemma_regex_not_vocabulary, lemma_zh_not_vocabulary, cluster_stage, collect, count_flags,
    dash_stage, joined_terms_text, lemma_collect_distinct, literal_candidates, located,
    profile_enabled, push_finding, regex_candidates, reports, scan_em_dash_density, sort_findings,
    spans_candidates, suppressed_count, views, Candidate,
};
use crate::confidence::{
    high_candidates, lemma_literal_confidence, lemma_regex_confidence, lemma_same_high_candidates,
    lemma_zh_confidence, no_high_vocabulary_rule,
};
use crate::location::{newline_index, newline_offsets};
use crate::markdown::{mask_markdown, masked_bytes, paragraph_spans, paragraphs, well_formed_spans};
use crate::model::{
    high_count, CustomTerm, Error, Finding, Profile, Report, RuleDef, RuleKind, ScanOptions, Severity,
    VocabularyEntry,
};
use crate::strings::{debug_text, substring};
use crate::text::str_eq;
use crate::words::{char_is_alphabetic, has_word_boundaries, unicode_alphabetic};

verus! {

/// What a fixed phrase of the automaton stands for.
#[derive(Debug)]
pub enum LiteralTarget {
    /// A pattern of the rule with this index.
    Rule(usize),
    /// A word of the excess-vocabulary data set.
    Vocabulary(String),
    /// The repository term with this index.
    Custom(usize),
}

/// The terms whose density marks an abstraction cluster, in the order of
/// the cluster automaton's patterns.
pub open spec fn abstraction_terms() -> Seq<Seq<char>> {
    seq![
        "boundary"@,
        "surface"@,
        "contract"@,
        "posture"@,
        "mechanism"@,
        "authority"@,
        "invariant"@,
        "lifecycle"@,
    ]
}

/// A scanner compiled from rules, the vocabulary data set and repository
/// terms.
pub struct Scanner {
    rules: Vec<RuleDef>,
    custom_terms: Vec<CustomTerm>,
    literal_automaton: AhoCorasick,
    literal_meta: Vec<LiteralTarget>,
    regex_set: RegexSet,
    regexes: Vec<Regex>,
    regex_rule_indices: Vec<usize>,
    abstraction_automaton: AhoCorasick,
    zh_patterns: Patterns,
    vocabulary_candidates: usize,
    active_style_vocabulary: usize,
}

/// The fixed phrases of the rules among the first `n`, each with the rule
/// it belongs to.
pub open spec fn rule_literals(rules: Seq<RuleDef>, n: int) -> Seq<(Seq<char>, LiteralTarget)>
    decreases n,
{
    if n <= 0 {
        Seq::empty()
    } else {
        rule_literals(rules, n - 1) + if rules[n - 1].kind == RuleKind::Literal {
            rules[n - 1].patterns@.map_values(
                |p: String| (p@, LiteralTarget::Rule((n - 1) as usize)),
            )
        } else {
            Seq::empty()
        }
    }
}

/// The regular expressions of the rules among the first `n`, each with the
/// index of its rule.
pub open spec fn rule_regexes(rules: Seq<RuleDef>, n: int) -> Seq<(Seq<char>, usize)>
    decreases n,
{
    if n <= 0 {
        Seq::empty()
    } else {
        rule_regexes(rules, n - 1) + if rules[n - 1].kind == RuleKind::Regex {
            rules[n - 1].patterns@.map_values(|p: String| (p@, (n - 1) as usize))
        } else {
            Seq::empty()
        }
    }
}

/// A vocabulary entry is an active style signal: its class is `style` and
/// its word consists of alphabetic characters and hyphens.
pub open spec fn active_entry(e: VocabularyEntry) -> bool {
    &&& e.class@ == "style"@
    &&& forall|k: int| 0 <= k < e.word@.len() ==> unicode_alphabetic(#[trigger] e.word@[k])
        || e.word@[k] == '-'
}

/// The active vocabulary words among the first `n` entries.
pub open spec fn vocabulary_literals(v: Seq<VocabularyEntry>, n: int) -> Seq<
    (Seq<char>, LiteralTarget),
>
    decreases n,
{
    if n <= 0 {
        Seq::empty()
    } else {
        vocabulary_literals(v, n - 1) + if active_entry(v[n - 1]) {
            seq![(v[n - 1].word@, LiteralTarget::Vocabulary(v[n - 1].word))]
        } else {
            Seq::<(Seq<char>, LiteralTarget)>::empty()
        }
    }
}

/// The number of active entries among the first `n`.
pub open spec fn active_count(v: Seq<VocabularyEntry>, n: int) -> nat
    decreases n,
{
    if n <= 0 {
        0
    } else {
        active_count(v, n - 1) + if active_entry(v[n - 1]) {
            1nat
        } else {
            0nat
        }
    }
}

/// The repository terms among the first `n`, each with its index.
pub open spec fn custom_literals(c: Seq<CustomTerm>, n: int) -> Seq<(Seq<char>, LiteralTarget)>
    decreases n,
{
    if n <= 0 {
        Seq::empty()
    } else {
        custom_literals(c, n - 1).push((c[n - 1].term@, LiteralTarget::Custom((n - 1) as usize)))
    }
}

/// All fixed phrases of a scanner in the order of its automaton: the rules'
/// phrases, the active vocabulary, then the repository terms.
pub open spec fn literal_plan(
    rules: Seq<RuleDef>,
    vocabulary: Seq<VocabularyEntry>,
    custom: Seq<CustomTerm>,
) -> Seq<(Seq<char>, LiteralTarget)> {
    rule_literals(rules, rules.len() as int) + vocabulary_literals(
        vocabulary,
        vocabulary.len() as int,
    ) + custom_literals(custom, custom.len() as int)
}

impl Scanner {
    /// The rules of the scanner.
    pub closed spec fn spec_rules(&self) -> Seq<RuleDef> {
        self.rules@
    }

    /// The repository terms of the scanner.
    pub closed spec fn spec_custom_terms(&self) -> Seq<CustomTerm> {
        self.custom_terms@
    }

    /// The fixed phrases of the automaton, as bytes.
    pub closed spec fn literal_patterns(&self) -> Seq<Seq<u8>> {
        automaton_patterns(self.literal_automaton)
    }

    /// What each fixed phrase of the automaton stands for.
    pub closed spec fn literal_targets(&self) -> Seq<LiteralTarget> {
        self.literal_meta@
    }

    /// The regular expressions, in the order of the regex set.
    pub closed spec fn regex_patterns(&self) -> Seq<Seq<char>> {
        set_patterns(self.regex_set)
    }

    /// The index of the rule of each regular expression.
    pub closed spec fn regex_rules(&self) -> Seq<usize> {
        self.regex_rule_indices@
    }

    /// The number of records of the vocabulary data set.
    pub closed spec fn spec_vocabulary_candidates(&self) -> usize {
        self.vocabulary_candidates
    }

    /// The number of active vocabulary words.
    pub closed spec fn spec_active_style_vocabulary(&self) -> usize {
        self.active_style_vocabulary
    }

    /// The parts of a scanner agree: every phrase has a target, every target
    /// a rule or term, every regex a rule, and the cluster automaton holds
    /// the abstraction terms.
    #[verifier::type_invariant]
    closed spec fn wf(self) -> bool {
        &&& self.literal_meta@.len() == automaton_patterns(self.literal_automaton).len()
        &&& forall|k: int|
            0 <= k < self.literal_meta@.len() ==> match #[trigger] self.literal_meta@[k] {
                LiteralTarget::Rule(i) => i < self.rules@.len(),
                LiteralTarget::Custom(i) => i < self.custom_terms@.len(),
                LiteralTarget::Vocabulary(_) => true,
            }
        &&& self.regexes@.len() == set_patterns(self.regex_set).len()
        &&& self.regex_rule_indices@.len() == self.regexes@.len()
        &&& forall|k: int|
            0 <= k < self.regexes@.len() ==> regex_source(#[trigger] self.regexes@[k])
                == set_patterns(self.regex_set)[k]
        &&& forall|k: int|
            0 <= k < self.regex_rule_indices@.len() ==> #[trigger] self.regex_rule_indices@[k]
                < self.rules@.len()
        &&& automaton_patterns(self.abstraction_automaton) == abstraction_terms().map_values(
            |t: Seq<char>| vstd::utf8::encode_utf8(t),
        )
        &&& standard_semantics(self.literal_automaton)
        &&& standard_semantics(self.abstraction_automaton)
    }

    /// Compiles a scanner. Its automaton holds, in order, the fixed phrases
    /// of the literal rules, the active vocabulary words and the repository
    /// terms; its regex set holds the expressions of the regex rules; it also
    /// compiles the cluster terms and the expressions of the structural scan
    /// of Chinese prose. Fails with a `Data` error, named after the part that
    /// failed, when the crates refuse a pattern set.
    pub fn with_rules(
        rules: Vec<RuleDef>,
        vocabulary: Vec<VocabularyEntry>,
        custom_terms: Vec<CustomTerm>,
    ) -> (r: Result<Scanner, Error>)
        ensures
            r is Ok <==> scanner_builds(rules@, vocabulary@, custom_terms@),
            r matches Err(Error::Data(m)) ==> starts_with(
                m@,
                failure_prefix(rules@, vocabulary@, custom_terms@),
            ),
            r matches Ok(s) ==> {
                &&& s.spec_rules() == rules@
                &&& s.spec_custom_terms() == custom_terms@
                &&& s.literal_patterns().len() == literal_plan(rules@, vocabulary@, custom_terms@).len()
                &&& forall|k: int|
                    0 <= k < s.literal_patterns().len() ==> #[trigger] s.literal_patterns()[k]
                        == vstd::utf8::encode_utf8(literal_plan(rules@, vocabulary@, custom_terms@)[k].0)
                &&& s.literal_targets().len() == s.literal_patterns().len()
                &&& forall|k: int|
                    0 <= k < s.literal_targets().len() ==> #[trigger] s.literal_targets()[k]
                        == literal_plan(rules@, vocabulary@, custom_terms@)[k].1
                &&& s.regex_patterns().len() == rule_regexes(rules@, rules@.len() as int).len()
                &&& s.regex_rules().len() == s.regex_patterns().len()
                &&& forall|k: int|
                    0 <= k < s.regex_patterns().len() ==> #[trigger] s.regex_patterns()[k]
                        == rule_regexes(rules@, rules@.len() as int)[k].0 && s.regex_rules()[k]
                        == rule_regexes(rules@, rules@.len() as int)[k].1
                &&& s.spec_vocabulary_candidates() == vocabulary@.len()
                &&& s.spec_active_style_vocabulary() == active_count(
                    vocabulary@,
                    vocabulary@.len() as int,
                )
            },
    {
        let mut literal_meta: Vec<LiteralTarget> = Vec::new();
        let mut literal_patterns: Vec<String> = Vec::new();
        let mut regex_patterns: Vec<String> = Vec::new();
        let mut regex_rule_indices: Vec<usize> = Vec::new();
        let mut rule_index: usize = 0;
        proof {
            assert(rule_literals(rules@, 0) =~= Seq::<(Seq<char>, LiteralTarget)>::empty());
            assert(rule_regexes(rules@, 0) =~= Seq::<(Seq<char>, usize)>::empty());
        }
        while rule_index < rules.len()
            invariant
                rule_index <= rules@.len(),
                agrees(literal_patterns@, literal_meta@, rule_literals(rules@, rule_index as int)),
                regex_agrees(
                    regex_patterns@,
                    regex_rule_indices@,
                    rule_regexes(rules@, rule_index as int),
                ),
            decreases rules@.len() - rule_index,
        {
            let rule = &rules[rule_index];
            let ghost lit0 = rule_literals(rules@, rule_index as int);
            let ghost re0 = rule_regexes(rules@, rule_index as int);
            let ghost target = LiteralTarget::Rule(rule_index);
            let mut j: usize = 0;
            proof {
                assert(lit0 + rule.patterns@.take(0).map_values(|p: String| (p@, target)) =~= lit0);
                assert(re0 + rule.patterns@.take(0).map_values(|p: String| (p@, rule_index)) =~= re0);
            }
            while j < rule.patterns.len()
                invariant
                    rule_index < rules@.len(),
                    rule == &rules@[rule_index as int],
                    target == LiteralTarget::Rule(rule_index),
                    j <= rule.patterns@.len(),
                    rule.kind == RuleKind::Literal ==> agrees(
                        literal_patterns@,
                        literal_meta@,
                        lit0 + rule.patterns@.take(j as int).map_values(|p: String| (p@, target)),
                    ) && regex_agrees(regex_patterns@, regex_rule_indices@, re0),
                    rule.kind == RuleKind::Regex ==> regex_agrees(
                        regex_patterns@,
                        regex_rule_indices@,
                        re0 + rule.patterns@.take(j as int).map_values(|p: String| (p@, rule_index)),
                    ) && agrees(literal_patterns@, literal_meta@, lit0),
                decreases rule.patterns@.len() - j,
            {
                let pattern = rule.patterns[j].clone();
                match rule.kind {
                    RuleKind::Literal => {
                        proof {
                            let before = lit0 + rule.patterns@.take(j as int).map_values(
                                |p: String| (p@, target),
                            );
                            lemma_agrees_push(literal_patterns@, literal_meta@, before, pattern, target);
                            assert(rule.patterns@.take(j + 1) =~= rule.patterns@.take(j as int).push(
                                pattern,
                            ));
                            assert(before.push((pattern@, target)) =~= lit0 + rule.patterns@.take(
                                j + 1,
                            ).map_values(|p: String| (p@, target)));
                        }
                        literal_patterns.push(pattern);
                        literal_meta.push(LiteralTarget::Rule(rule_index));
                    },
                    RuleKind::Regex => {
                        proof {
                            let before = re0 + rule.patterns@.take(j as int).map_values(
                                |p: String| (p@, rule_index),
                            );
                            lemma_regex_agrees_push(
                                regex_patterns@,
                                regex_rule_indices@,
                                before,
                                pattern,
                                rule_index,
                            );
                            assert(rule.patterns@.take(j + 1) =~= rule.patterns@.take(j as int).push(
                                pattern,
                            ));
                            assert(before.push((pattern@, rule_index)) =~= re0 + rule.patterns@.take(
                                j + 1,
                            ).map_values(|p: String| (p@, rule_index)));
                        }
                        regex_patterns.push(pattern);
                        regex_rule_indices.push(rule_index);
                    },
                }
                j = j + 1;
            }
            proof {
                assert(rule.patterns@.take(j as int) =~= rule.patterns@);
                let n = rule_index + 1;
                assert(rules@[n - 1] == *rule);
                if rule.kind == RuleKind::Literal {
                    assert(rule_literals(rules@, n) == lit0 + rule.patterns@.map_values(
                        |p: String| (p@, LiteralTarget::Rule(rule_index)),
                    ));
                    assert(rule_regexes(rules@, n) =~= re0);
                } else {
                    assert(rule_regexes(rules@, n) == re0 + rule.patterns@.map_values(
                        |p: String| (p@, rule_index),
                    ));
                    assert(rule_literals(rules@, n) =~= lit0);
                }
            }
            rule_index = rule_index + 1;
        }
        let mut active_style_vocabulary: usize = 0;
        let mut v: usize = 0;
        proof {
            assert(rule_literals(rules@, rules@.len() as int) + vocabulary_literals(vocabulary@, 0)
                =~= rule_literals(rules@, rules@.len() as int));
        }
        while v < vocabulary.len()
            invariant
                v <= vocabulary@.len(),
                active_style_vocabulary == active_count(vocabulary@, v as int),
                active_style_vocabulary <= v,
                agrees(
                    literal_patterns@,
                    literal_meta@,
                    rule_literals(rules@, rules@.len() as int) + vocabulary_literals(
                        vocabulary@,
                        v as int,
                    ),
                ),
            decreases vocabulary@.len() - v,
        {
            let entry = &vocabulary[v];
            let ghost before = rule_literals(rules@, rules@.len() as int) + vocabulary_literals(
                vocabulary@,
                v as int,
            );
            let ghost after = rule_literals(rules@, rules@.len() as int) + vocabulary_literals(
                vocabulary@,
                v + 1,
            );
            if str_eq(entry.class.as_str(), "style") && word_is_alphabetic_or_hyphen(
                entry.word.as_str(),
            ) {
                active_style_vocabulary = active_style_vocabulary + 1;
                proof {
                    lemma_agrees_push(
                        literal_patterns@,
                        literal_meta@,
                        before,
                        entry.word,
                        LiteralTarget::Vocabulary(entry.word),
                    );
                    assert(before.push((entry.word@, LiteralTarget::Vocabulary(entry.word)))
                        =~= after);
                }
                literal_patterns.push(entry.word.clone());
                literal_meta.push(LiteralTarget::Vocabulary(entry.word.clone()));
            } else {
                proof {
                    assert(vocabulary@[v as int] == *entry);
                    assert(before =~= after);
                }
            }
            v = v + 1;
        }
        proof {
            assert(agrees(
                literal_patterns@,
                literal_meta@,
                rule_literals(rules@, rules@.len() as int) + vocabulary_literals(
                    vocabulary@,
                    vocabulary@.len() as int,
                ) + custom_literals(custom_terms@, 0),
            )) by {
                assert(rule_literals(rules@, rules@.len() as int) + vocabulary_literals(
                    vocabulary@,
                    vocabulary@.len() as int,
                ) + custom_literals(custom_terms@, 0) =~= rule_literals(
                    rules@,
                    rules@.len() as int,
                ) + vocabulary_literals(vocabulary@, vocabulary@.len() as int));
            }
        }
        let mut c: usize = 0;
        while c < custom_terms.len()
            invariant
                c <= custom_terms@.len(),
                agrees(
                    literal_patterns@,
                    literal_meta@,
                    rule_literals(rules@, rules@.len() as int) + vocabulary_literals(
                        vocabulary@,
                        vocabulary@.len() as int,
                    ) + custom_literals(custom_terms@, c as int),
                ),
            decreases custom_terms@.len() - c,
        {
            let ghost base = rule_literals(rules@, rules@.len() as int) + vocabulary_literals(
                vocabulary@,
                vocabulary@.len() as int,
            );
            proof {
                lemma_agrees_push(
                    literal_patterns@,
                    literal_meta@,
                    base + custom_literals(custom_terms@, c as int),
                    custom_terms@[c as int].term,
                    LiteralTarget::Custom(c),
                );
                assert(base + custom_literals(custom_terms@, c + 1) =~= (base + custom_literals(
                    custom_terms@,
                    c as int,
                )).push((custom_terms@[c as int].term@, LiteralTarget::Custom(c))));
            }
            literal_patterns.push(custom_terms[c].term.clone());
            literal_meta.push(LiteralTarget::Custom(c));
            c = c + 1;
        }
        let ghost plan = literal_plan(rules@, vocabulary@, custom_terms@);
        proof {
            lemma_targets_in_range(rules@, vocabulary@, custom_terms@);
            assert(agrees(literal_patterns@, literal_meta@, plan));
        }
        proof {
            assert(bytes_of_strings(literal_patterns@) =~= plan_bytes(
                rules@,
                vocabulary@,
                custom_terms@,
            )) by {
                assert forall|i: int| 0 <= i < plan.len() implies bytes_of_strings(literal_patterns@)[i]
                    == plan_bytes(rules@, vocabulary@, custom_terms@)[i] by {
                    assert(literal_patterns@[i]@ == plan[i].0);
                }
            }
            assert(chars_of_strings(regex_patterns@) =~= plan_expressions(rules@)) by {
                assert forall|i: int| 0 <= i < regex_patterns@.len() implies chars_of_strings(
                    regex_patterns@,
                )[i] == plan_expressions(rules@)[i] by {
                    assert(regex_patterns@[i]@ == rule_regexes(rules@, rules@.len() as int)[i].0);
                }
            }
        }
        let literal_automaton = match build_automaton(&literal_patterns) {
            Ok(a) => a,
            Err(e) => {
                return Err(data_error("cannot compile literals: ", e));
            },
        };
        let regex_set = match build_regex_set(&regex_patterns) {
            Ok(s) => s,
            Err(e) => {
                return Err(data_error("cannot compile regex set: ", e));
            },
        };
        let mut regexes: Vec<Regex> = Vec::new();
        let mut k: usize = 0;
        while k < regex_patterns.len()
            invariant
                k <= regex_patterns@.len(),
                regexes@.len() == k,
                chars_of_strings(regex_patterns@) == plan_expressions(rules@),
                automaton_builds(plan_bytes(rules@, vocabulary@, custom_terms@)),
                regex_set_builds(plan_expressions(rules@)),
                forall|i: int| 0 <= i < k ==> regex_source(#[trigger] regexes@[i])
                    == regex_patterns@[i]@,
                forall|i: int| 0 <= i < k ==> regex_builds(#[trigger] plan_expressions(rules@)[i]),
            decreases regex_patterns@.len() - k,
        {
            assert(plan_expressions(rules@)[k as int] == regex_patterns@[k as int]@);
            match build_regex(regex_patterns[k].as_str()) {
                Ok(re) => regexes.push(re),
                Err(e) => {
                    proof {
                        assert(!expressions_build(rules@));
                    }
                    return Err(data_error("cannot compile regex: ", e));
                },
            }
            k = k + 1;
        }
        assert(expressions_build(rules@));
        let abstraction_automaton = match build_automaton(&abstraction_term_strings()) {
            Ok(a) => a,
            Err(e) => {
                return Err(data_error("cannot compile cluster terms: ", e));
            },
        };
        let zh_patterns = match patterns() {
            Ok(p) => p,
            Err(e) => {
                return Err(data_error("cannot compile Chinese patterns: ", e));
            },
        };
        proof {
            assert forall|i: int| 0 <= i < plan.len() implies automaton_patterns(literal_automaton)[i]
                == vstd::utf8::encode_utf8(plan[i].0) by {
                assert(literal_patterns@[i]@ == plan[i].0);
            }
            assert forall|i: int| 0 <= i < regexes@.len() implies regex_source(#[trigger] regexes@[i])
                == set_patterns(regex_set)[i] by {
            }
            assert forall|i: int| 0 <= i < regex_rule_indices@.len() implies #[trigger] regex_rule_indices@[i]
                < rules@.len() by {
                assert(regex_patterns@[i]@ == rule_regexes(rules@, rules@.len() as int)[i].0);
                lemma_regex_rules_in_range(rules@, rules@.len() as int, i);
            }
            assert forall|k: int| 0 <= k < literal_meta@.len() implies match #[trigger] literal_meta@[k] {
                LiteralTarget::Rule(i) => i < rules@.len(),
                LiteralTarget::Custom(i) => i < custom_terms@.len(),
                LiteralTarget::Vocabulary(_) => true,
            } by {
                assert(literal_patterns@[k]@ == plan[k].0);
                assert(literal_meta@[k] == plan[k].1);
            }
            assert forall|k: int| 0 <= k < regex_patterns@.len() implies #[trigger] set_patterns(regex_set)[k]
                == rule_regexes(rules@, rules@.len() as int)[k].0 && regex_rule_indices@[k]
                == rule_regexes(rules@, rules@.len() as int)[k].1 by {
                assert(regex_patterns@[k]@ == rule_regexes(rules@, rules@.len() as int)[k].0);
            }
        }
        proof {
            assert forall|k: int| 0 <= k < literal_meta@.len() implies #[trigger] literal_meta@[k]
                == plan[k].1 by {
                assert(literal_patterns@[k]@ == plan[k].0);
            }
            assert(automaton_patterns(literal_automaton).len() == plan.len());
        }
        Ok(
            Scanner {
                rules,
                custom_terms,
                literal_automaton,
                literal_meta,
                regex_set,
                regexes,
                regex_rule_indices,
                abstraction_automaton,
                zh_patterns,
                vocabulary_candidates: vocabulary.len(),
                active_style_vocabulary,
            },
        )
    }
}

/// The patterns `lp` and their targets `lm` are, in order, the phrases and
/// targets of `plan`.
pub open spec fn agrees(
    lp: Seq<String>,
    lm: Seq<LiteralTarget>,
    plan: Seq<(Seq<char>, LiteralTarget)>,
) -> bool {
    &&& lp.len() == plan.len()
    &&& lm.len() == plan.len()
    &&& forall|k: int| #![trigger lp[k]] 0 <= k < plan.len() ==> lp[k]@ == plan[k].0 && lm[k] == plan[k].1
}

/// Appending one phrase and its target keeps the agreement.
proof fn lemma_agrees_push(
    lp: Seq<String>,
    lm: Seq<LiteralTarget>,
    plan: Seq<(Seq<char>, LiteralTarget)>,
    s: String,
    t: LiteralTarget,
)
    requires
        agrees(lp, lm, plan),
    ensures
        agrees(lp.push(s), lm.push(t), plan.push((s@, t))),
{
    assert forall|k: int| #![trigger lp.push(s)[k]] 0 <= k < plan.len() + 1 implies lp.push(s)[k]@ == plan.push(
        (s@, t),
    )[k].0 && lm.push(t)[k] == plan.push((s@, t))[k].1 by {
        if k < plan.len() {
            assert(lp.push(s)[k] == lp[k]);
            assert(lm.push(t)[k] == lm[k]);
            assert(plan.push((s@, t))[k] == plan[k]);
            assert(lp[k]@ == plan[k].0 && lm[k] == plan[k].1);
        } else {
            assert(lp.push(s)[k] == s);
            assert(lm.push(t)[k] == t);
        }
    }
}

/// The expressions `rp` and their rule indices `ri` are, in order, those
/// of `plan`.
pub open spec fn regex_agrees(rp: Seq<String>, ri: Seq<usize>, plan: Seq<(Seq<char>, usize)>) -> bool {
    &&& rp.len() == plan.len()
    &&& ri.len() == plan.len()
    &&& forall|k: int| #![trigger rp[k]] 0 <= k < plan.len() ==> rp[k]@ == plan[k].0 && ri[k] == plan[k].1
}

/// Appending one expression and its rule index keeps the agreement.
proof fn lemma_regex_agrees_push(
    rp: Seq<String>,
    ri: Seq<usize>,
    plan: Seq<(Seq<char>, usize)>,
    s: String,
    i: usize,
)
    requires
        regex_agrees(rp, ri, plan),
    ensures
        regex_agrees(rp.push(s), ri.push(i), plan.push((s@, i))),
{
    assert forall|k: int| #![trigger rp.push(s)[k]] 0 <= k < plan.len() + 1 implies rp.push(s)[k]@ == plan.push(
        (s@, i),
    )[k].0 && ri.push(i)[k] == plan.push((s@, i))[k].1 by {
        if k < plan.len() {
            assert(rp.push(s)[k] == rp[k]);
            assert(ri.push(i)[k] == ri[k]);
            assert(plan.push((s@, i))[k] == plan[k]);
            assert(rp[k]@ == plan[k].0 && ri[k] == plan[k].1);
        } else {
            assert(rp.push(s)[k] == s);
            assert(ri.push(i)[k] == i);
        }
    }
}

/// Every target of the literal plan names an existing rule or term.
proof fn lemma_targets_in_range(
    rules: Seq<RuleDef>,
    vocabulary: Seq<VocabularyEntry>,
    custom: Seq<CustomTerm>,
)
    ensures
        forall|k: int|
            0 <= k < literal_plan(rules, vocabulary, custom).len() ==> match #[trigger] literal_plan(
                rules,
                vocabulary,
                custom,
            )[k].1 {
                LiteralTarget::Rule(i) => i < rules.len(),
                LiteralTarget::Custom(i) => i < custom.len(),
                LiteralTarget::Vocabulary(_) => true,
            },
{
    lemma_rule_literals_in_range(rules, rules.len() as int);
    lemma_vocabulary_literals_targets(vocabulary, vocabulary.len() as int);
    lemma_custom_literals_in_range(custom, custom.len() as int);
    let a = rule_literals(rules, rules.len() as int);
    let b = vocabulary_literals(vocabulary, vocabulary.len() as int);
    let c = custom_literals(custom, custom.len() as int);
    assert forall|k: int| 0 <= k < (a + b + c).len() implies match #[trigger] (a + b + c)[k].1 {
        LiteralTarget::Rule(i) => i < rules.len(),
        LiteralTarget::Custom(i) => i < custom.len(),
        LiteralTarget::Vocabulary(_) => true,
    } by {
        if k < a.len() {
            assert((a + b + c)[k] == a[k]);
        } else if k < a.len() + b.len() {
            assert((a + b + c)[k] == b[k - a.len()]);
        } else {
            assert((a + b + c)[k] == c[k - a.len() - b.len()]);
        }
    }
}

proof fn lemma_rule_literals_in_range(rules: Seq<RuleDef>, n: int)
    requires
        n <= rules.len(),
    ensures
        forall|k: int|
            0 <= k < rule_literals(rules, n).len() ==> ((#[trigger] rule_literals(rules, n)[k].1) matches LiteralTarget::Rule(i) && i < n),
    decreases n,
{
    if n > 0 {
        lemma_rule_literals_in_range(rules, n - 1);
        let prev = rule_literals(rules, n - 1);
        assert forall|k: int| 0 <= k < rule_literals(rules, n).len() implies ((#[trigger] rule_literals(rules, n)[k].1) matches LiteralTarget::Rule(i) && i < n) by {
            if k < prev.len() {
                assert(rule_literals(rules, n)[k] == prev[k]);
            }
        }
    }
}

proof fn lemma_vocabulary_literals_targets(v: Seq<VocabularyEntry>, n: int)
    ensures
        forall|k: int|
            0 <= k < vocabulary_literals(v, n).len() ==> (#[trigger] vocabulary_literals(v, n)[k].1) is Vocabulary,
    decreases n,
{
    if n > 0 {
        lemma_vocabulary_literals_targets(v, n - 1);
        let prev = vocabulary_literals(v, n - 1);
        assert forall|k: int| 0 <= k < vocabulary_literals(v, n).len() implies (#[trigger] vocabulary_literals(v, n)[k].1) is Vocabulary by {
            if k < prev.len() {
                assert(vocabulary_literals(v, n)[k] == prev[k]);
            }
        }
    }
}

proof fn lemma_custom_literals_in_range(c: Seq<CustomTerm>, n: int)
    requires
        n <= c.len(),
    ensures
        forall|k: int|
            0 <= k < custom_literals(c, n).len() ==> ((#[trigger] custom_literals(c, n)[k].1) matches LiteralTarget::Custom(i) && i < n),
    decreases n,
{
    if n > 0 {
        lemma_custom_literals_in_range(c, n - 1);
    }
}

proof fn lemma_regex_rules_in_range(rules: Seq<RuleDef>, n: int, k: int)
    requires
        n <= rules.len(),
        0 <= k < rule_regexes(rules, n).len(),
    ensures
        rule_regexes(rules, n)[k].1 < n,
    decreases n,
{
    if n > 0 {
        if k < rule_regexes(rules, n - 1).len() {
            lemma_regex_rules_in_range(rules, n - 1, k);
        }
    }
}

/// Whether every character of `word` is alphabetic or a hyphen.
fn word_is_alphabetic_or_hyphen(word: &str) -> (r: bool)
    ensures
        r == forall|k: int| 0 <= k < word@.len() ==> unicode_alphabetic(#[trigger] word@[k]) || word@[k] == '-',
{
    let n = word.unicode_len();
    let mut i: usize = 0;
    while i < n
        invariant
            n == word@.len(),
            i <= n,
            forall|k: int| 0 <= k < i ==> unicode_alphabetic(#[trigger] word@[k]) || word@[k] == '-',
        decreases n - i,
    {
        let c = word.get_char(i);
        if !(c == '-' || char_is_alphabetic(c)) {
            return false;
        }
        i = i + 1;
    }
    true
}

/// The abstraction terms as strings.
fn abstraction_term_strings() -> (r: Vec<String>)
    ensures
        bytes_of_strings(r@) == abstraction_terms().map_values(|t: Seq<char>| vstd::utf8::encode_utf8(t)),
{
    let mut r: Vec<String> = Vec::new();
    r.push("boundary".to_owned());
    r.push("surface".to_owned());
    r.push("contract".to_owned());
    r.push("posture".to_owned());
    r.push("mechanism".to_owned());
    r.push("authority".to_owned());
    r.push("invariant".to_owned());
    r.push("lifecycle".to_owned());
    proof {
        assert(bytes_of_strings(r@) =~= abstraction_terms().map_values(|t: Seq<char>| vstd::utf8::encode_utf8(t)));
    }
    r
}

/// A `Data` error: `prefix` followed by the text of the crate's error.
fn data_error(prefix: &str, detail: String) -> (r: Error)
    ensures
        r matches Error::Data(m) && m@ == prefix@ + detail@ && starts_with(m@, prefix@),
{
    let mut message = prefix.to_owned();
    message.append(detail.as_str());
    proof {
        assert(message@.take(prefix@.len() as int) =~= prefix@);
    }
    Error::Data(message)
}

/// `m` begins with `p`.
pub open spec fn starts_with(m: Seq<char>, p: Seq<char>) -> bool {
    p.len() <= m.len() && m.take(p.len() as int) == p
}

/// The bytes of the fixed phrases of a scanner, in the automaton's order.
pub open spec fn plan_bytes(
    rules: Seq<RuleDef>,
    vocabulary: Seq<VocabularyEntry>,
    custom: Seq<CustomTerm>,
) -> Seq<Seq<u8>> {
    literal_plan(rules, vocabulary, custom).map_values(
        |x: (Seq<char>, LiteralTarget)| vstd::utf8::encode_utf8(x.0),
    )
}

/// The expressions of the regex rules, in the set's order.
pub open spec fn plan_expressions(rules: Seq<RuleDef>) -> Seq<Seq<char>> {
    rule_regexes(rules, rules.len() as int).map_values(|x: (Seq<char>, usize)| x.0)
}

/// Each expression of the regex rules compiles on its own.
pub open spec fn expressions_build(rules: Seq<RuleDef>) -> bool {
    forall|k: int|
        0 <= k < plan_expressions(rules).len() ==> regex_builds(#[trigger] plan_expressions(rules)[k])
}

/// Every part of a scanner compiles: the phrase automaton, the regex set,
/// each regex, the cluster automaton and the expressions of the Chinese
/// structural scan.
pub open spec fn scanner_builds(
    rules: Seq<RuleDef>,
    vocabulary: Seq<VocabularyEntry>,
    custom: Seq<CustomTerm>,
) -> bool {
    &&& automaton_builds(plan_bytes(rules, vocabulary, custom))
    &&& regex_set_builds(plan_expressions(rules))
    &&& expressions_build(rules)
    &&& automaton_builds(abstraction_bytes())
    &&& patterns_build()
}

/// The prefix of the error of the first part that does not compile, in the
/// order in which a scanner compiles its parts.
pub open spec fn failure_prefix(
    rules: Seq<RuleDef>,
    vocabulary: Seq<VocabularyEntry>,
    custom: Seq<CustomTerm>,
) -> Seq<char> {
    if !automaton_builds(plan_bytes(rules, vocabulary, custom)) {
        "cannot compile literals: "@
    } else if !regex_set_builds(plan_expressions(rules)) {
        "cannot compile regex set: "@
    } else if !expressions_build(rules) {
        "cannot compile regex: "@
    } else if !automaton_builds(abstraction_bytes()) {
        "cannot compile cluster terms: "@
    } else {
        "cannot compile Chinese patterns: "@
    }
}


impl Scanner {
    /// The candidates of the fixed-phrase matches in the masked bytes `m`.
    pub open spec fn literal_stage(&self, m: Seq<u8>, opts: ScanOptions) -> Seq<Candidate> {
        let hits = overlapping_matches(self.literal_patterns(), m);
        literal_candidates(
            self.spec_rules(),
            self.spec_custom_terms(),
            self.literal_targets(),
            m,
            opts,
            hits,
            hits.len() as int,
        )
    }

    /// The candidates of the regular expressions in the masked bytes `m`.
    pub open spec fn regex_stage(&self, m: Seq<u8>, opts: ScanOptions) -> Seq<Candidate> {
        regex_candidates(
            self.spec_rules(),
            self.regex_patterns(),
            self.regex_rules(),
            decode_utf8(m),
            opts,
            self.regex_patterns().len() as int,
        )
    }

    /// The candidates of the structural leads of Chinese prose in the masked
    /// bytes `m`.
    pub open spec fn zh_stage(&self, m: Seq<u8>, opts: ScanOptions) -> Seq<Candidate> {
        zh_candidates(self.spec_rules(), opts, zh_hits(m), zh_hits(m).len() as int)
    }

    /// The fixed-phrase matches in the masked bytes `m` include every
    /// occurrence of every nonempty phrase, up to ASCII case.
    pub open spec fn matches_complete(&self, m: Seq<u8>) -> bool {
        forall|p: int, s: int|
            0 <= p < self.literal_patterns().len() && self.literal_patterns()[p].len() > 0
                && #[trigger] occurs_at(m, self.literal_patterns()[p], s) ==> exists|j: int|
                0 <= j < overlapping_matches(self.literal_patterns(), m).len() && overlapping_matches(
                    self.literal_patterns(),
                    m,
                )[j] == (p as usize, s as usize, (s + self.literal_patterns()[p].len()) as usize)
    }

    /// The `p`-th fixed phrase occurs at byte `s` of the masking of `src`,
    /// up to ASCII case, between word boundaries, and its span lies on
    /// character boundaries of `src`.
    pub open spec fn phrase_at(&self, src: Seq<u8>, p: int, s: int) -> bool {
        let m = masked_bytes(src);
        let e = s + self.literal_patterns()[p].len();
        &&& 0 <= p < self.literal_patterns().len()
        &&& self.literal_patterns()[p].len() > 0
        &&& occurs_at(m, self.literal_patterns()[p], s)
        &&& hit_counts(m, s, e)
        &&& e <= src.len()
        &&& is_char_boundary(src, s)
        &&& is_char_boundary(src, e)
    }

    /// A report holds every occurrence of a fixed phrase whose match gives a
    /// candidate: a rule phrase whose rule applies, a repository term, or,
    /// when all findings are shown, a vocabulary word.
    proof fn lemma_phrase_reported(
        &self,
        src: Seq<u8>,
        opts: ScanOptions,
        fs: Seq<Finding>,
        p: int,
        s: int,
    )
        requires
            reports(fs, collect(src, self.candidates(src, opts)), src),
            self.matches_complete(masked_bytes(src)),
            self.phrase_at(src, p, s),
            src.len() <= isize::MAX,
            self.literal_patterns().len() <= usize::MAX,
            self.literal_targets().len() == self.literal_patterns().len(),
            forall|k: int|
                0 <= k < self.literal_targets().len() ==> match #[trigger] self.literal_targets()[k] {
                    LiteralTarget::Rule(i) => i < self.spec_rules().len(),
                    LiteralTarget::Custom(i) => i < self.spec_custom_terms().len(),
                    LiteralTarget::Vocabulary(_) => true,
                },
        ensures
            self.literal_targets()[p] matches LiteralTarget::Rule(i) ==> (rule_applies(
                self.spec_rules()[i as int],
                opts.profile,
            ) ==> reported(
                fs,
                self.spec_rules()[i as int].id@,
                s,
                s + self.literal_patterns()[p].len(),
            )),
            self.literal_targets()[p] is Custom ==> reported(
                fs,
                custom_id(),
                s,
                s + self.literal_patterns()[p].len(),
            ),
            opts.show_all && self.literal_targets()[p] is Vocabulary ==> reported(
                fs,
                vocabulary_id(),
                s,
                s + self.literal_patterns()[p].len(),
            ),
    {
        let m = masked_bytes(src);
        let e = s + self.literal_patterns()[p].len();
        let hits = overlapping_matches(self.literal_patterns(), m);
        let h = (p as usize, s as usize, e as usize);
        assert(h.0 as int == p && h.1 as int == s && h.2 as int == e);
        let step = literal_step(
            self.spec_rules(),
            self.spec_custom_terms(),
            self.literal_targets(),
            m,
            opts,
            h,
        );
        assert(hit_counts(m, s, e));
        if step.len() > 0 {
            assert(occurs_at(m, self.literal_patterns()[p], s));
            let j = choose|j: int| 0 <= j < hits.len() && hits[j] == h;
            lemma_literal_candidates_has(
                self.spec_rules(),
                self.spec_custom_terms(),
                self.literal_targets(),
                m,
                opts,
                hits,
                hits.len() as int,
                j,
            );
            let lit = self.literal_stage(m, opts);
            let k = choose|k: int| 0 <= k < lit.len() && lit[k] == step[0];
            let cs = self.candidates(src, opts);
            assert(cs[k] == lit[k]);
            assert(step[0].2 == s && step[0].3 == e);
            lemma_admitted_reported(fs, cs, src, k);
        }
        match self.literal_targets()[p] {
            LiteralTarget::Rule(i) => {
                if rule_applies(self.spec_rules()[i as int], opts.profile) {
                    assert(step.len() > 0);
                }
            },
            LiteralTarget::Custom(i) => {
                assert(step.len() > 0);
            },
            LiteralTarget::Vocabulary(_) => {
                if opts.show_all {
                    assert(step.len() > 0);
                }
            },
        }
    }

    /// The `k`-th match of the `i`-th expression in the masking of `src`
    /// counts: the expression matches there, its rule applies to `opts`, and
    /// the match lies on character boundaries of `src`.
    pub open spec fn expression_match(&self, src: Seq<u8>, opts: ScanOptions, i: int, k: int) -> bool {
        let text = decode_utf8(masked_bytes(src));
        let spans = regex_matches(self.regex_patterns()[i], text);
        &&& 0 <= i < self.regex_patterns().len()
        &&& regex_is_match(self.regex_patterns()[i], text)
        &&& rule_applies(self.spec_rules()[self.regex_rules()[i] as int], opts.profile)
        &&& 0 <= k < spans.len()
        &&& spans[k].0 <= spans[k].1 <= src.len()
        &&& is_char_boundary(src, spans[k].0 as int)
        &&& is_char_boundary(src, spans[k].1 as int)
    }

    /// A report holds every counted match of an expression under its rule.
    proof fn lemma_expression_reported(
        &self,
        src: Seq<u8>,
        opts: ScanOptions,
        fs: Seq<Finding>,
        i: int,
        k: int,
    )
        requires
            reports(fs, collect(src, self.candidates(src, opts)), src),
            self.expression_match(src, opts, i, k),
        ensures
            ({
                let span = regex_matches(
                    self.regex_patterns()[i],
                    decode_utf8(masked_bytes(src)),
                )[k];
                reported(
                    fs,
                    self.spec_rules()[self.regex_rules()[i] as int].id@,
                    span.0 as int,
                    span.1 as int,
                )
            }),
    {
        let m = masked_bytes(src);
        let text = decode_utf8(m);
        let spans = regex_matches(self.regex_patterns()[i], text);
        let rule = self.spec_rules()[self.regex_rules()[i] as int];
        let c = crate::findings::rule_candidate(rule, spans[k].0 as int, spans[k].1 as int);
        lemma_regex_candidates_has(
            self.spec_rules(),
            self.regex_patterns(),
            self.regex_rules(),
            text,
            opts,
            self.regex_patterns().len() as int,
            i,
            k,
        );
        let re = self.regex_stage(m, opts);
        let lit = self.literal_stage(m, opts);
        let q = choose|q: int| 0 <= q < re.len() && re[q] == c;
        let cs = self.candidates(src, opts);
        assert(cs == lit + re + self.zh_stage(m, opts) + cluster_stage(m, opts) + dash_stage(m, opts));
        assert(cs[lit.len() + q] == c);
        lemma_admitted_reported(fs, cs, src, lit.len() + q);
    }

    /// A `High` finding of a report comes from a `High` rule or repository
    /// term.
    proof fn lemma_high_from_rules(
        &self,
        src: Seq<u8>,
        opts: ScanOptions,
        fs: Seq<Finding>,
        j: int,
    )
        requires
            reports(fs, collect(src, self.candidates(src, opts)), src),
            0 <= j < fs.len(),
            fs[j].severity == Severity::High,
            targets_in_range(self.literal_targets(), self.spec_rules(), self.spec_custom_terms()),
            self.literal_targets().len() == self.literal_patterns().len(),
            forall|i: int|
                0 <= i < overlapping_matches(self.literal_patterns(), masked_bytes(src)).len()
                    ==> (#[trigger] overlapping_matches(self.literal_patterns(), masked_bytes(src))[i]).0
                    < self.literal_patterns().len(),
            self.regex_rules().len() == self.regex_patterns().len(),
            forall|i: int|
                0 <= i < self.regex_rules().len() ==> #[trigger] self.regex_rules()[i]
                    < self.spec_rules().len(),
        ensures
            high_origin(self.spec_rules(), self.spec_custom_terms(), fs[j].rule_id@),
    {
        let m = masked_bytes(src);
        let cs = self.candidates(src, opts);
        lemma_reported_candidate(fs, cs, src, j);
        let k = choose|k: int| 0 <= k < cs.len() && cs[k] == view_finding(fs[j]);
        let lit = self.literal_stage(m, opts);
        let re = self.regex_stage(m, opts);
        let zh = self.zh_stage(m, opts);
        let cl = cluster_stage(m, opts);
        let da = dash_stage(m, opts);
        assert(cs == lit + re + zh + cl + da);
        let hits = overlapping_matches(self.literal_patterns(), m);
        if k < lit.len() {
            assert(cs[k] == lit[k]);
            assert forall|i: int| 0 <= i < hits.len() implies (#[trigger] hits[i]).0 < self.literal_targets().len() by {
            }
            lemma_literal_high(
                self.spec_rules(),
                self.spec_custom_terms(),
                self.literal_targets(),
                m,
                opts,
                hits,
                hits.len() as int,
                k,
            );
        } else if k < lit.len() + re.len() {
            assert(cs[k] == re[k - lit.len()]);
            lemma_regex_high(
                self.spec_rules(),
                self.regex_patterns(),
                self.regex_rules(),
                decode_utf8(m),
                opts,
                self.regex_patterns().len() as int,
                k - lit.len(),
            );
        } else if k < lit.len() + re.len() + zh.len() {
            assert(cs[k] == zh[k - lit.len() - re.len()]);
            lemma_zh_high(
                self.spec_rules(),
                opts,
                zh_hits(m),
                zh_hits(m).len() as int,
                k - lit.len() - re.len(),
            );
        } else if k < lit.len() + re.len() + zh.len() + cl.len() {
            assert(cs[k] == cl[k - lit.len() - re.len() - zh.len()]);
            let paras = paragraphs(m);
            if !(opts.profile == Profile::Casual || opts.profile == Profile::Marketing) {
                lemma_clusters_medium(m, paras, paras.len() as int, k - lit.len() - re.len() - zh.len());
            }
        } else {
            assert(cs[k] == da[k - lit.len() - re.len() - zh.len() - cl.len()]);
        }
    }

    /// Without `show_all`, and with no rule of the vocabulary id, no finding
    /// of a report has that id.
    proof fn lemma_no_vocabulary_finding(
        &self,
        src: Seq<u8>,
        opts: ScanOptions,
        fs: Seq<Finding>,
        j: int,
    )
        requires
            reports(fs, collect(src, self.candidates(src, opts)), src),
            0 <= j < fs.len(),
            !opts.show_all,
            no_vocabulary_rule(self.spec_rules()),
            targets_in_range(self.literal_targets(), self.spec_rules(), self.spec_custom_terms()),
            self.literal_targets().len() == self.literal_patterns().len(),
            forall|i: int|
                0 <= i < overlapping_matches(self.literal_patterns(), masked_bytes(src)).len()
                    ==> (#[trigger] overlapping_matches(self.literal_patterns(), masked_bytes(src))[i]).0
                    < self.literal_patterns().len(),
            self.regex_rules().len() == self.regex_patterns().len(),
            forall|i: int|
                0 <= i < self.regex_rules().len() ==> #[trigger] self.regex_rules()[i]
                    < self.spec_rules().len(),
        ensures
            fs[j].rule_id@ != vocabulary_id(),
    {
        let m = masked_bytes(src);
        let cs = self.candidates(src, opts);
        lemma_reported_candidate(fs, cs, src, j);
        let k = choose|k: int| 0 <= k < cs.len() && cs[k] == view_finding(fs[j]);
        let lit = self.literal_stage(m, opts);
        let re = self.regex_stage(m, opts);
        let zh = self.zh_stage(m, opts);
        let cl = cluster_stage(m, opts);
        let da = dash_stage(m, opts);
        assert(cs == lit + re + zh + cl + da);
        let hits = overlapping_matches(self.literal_patterns(), m);
        lemma_fixed_ids();
        if k < lit.len() {
            assert(cs[k] == lit[k]);
            assert forall|i: int| 0 <= i < hits.len() implies (#[trigger] hits[i]).0 < self.literal_targets().len() by {
            }
            lemma_literal_not_vocabulary(
                self.spec_rules(),
                self.spec_custom_terms(),
                self.literal_targets(),
                m,
                opts,
                hits,
                hits.len() as int,
                k,
            );
        } else if k < lit.len() + re.len() {
            assert(cs[k] == re[k - lit.len()]);
            lemma_regex_not_vocabulary(
                self.spec_rules(),
                self.regex_patterns(),
                self.regex_rules(),
                decode_utf8(m),
                opts,
                self.regex_patterns().len() as int,
                k - lit.len(),
            );
        } else if k < lit.len() + re.len() + zh.len() {
            assert(cs[k] == zh[k - lit.len() - re.len()]);
            lemma_zh_not_vocabulary(
                self.spec_rules(),
                opts,
                zh_hits(m),
                zh_hits(m).len() as int,
                k - lit.len() - re.len(),
            );
        } else if k < lit.len() + re.len() + zh.len() + cl.len() {
            assert(cs[k] == cl[k - lit.len() - re.len() - zh.len()]);
            let paras = paragraphs(m);
            if !(opts.profile == Profile::Casual || opts.profile == Profile::Marketing) {
                lemma_clusters_medium(m, paras, paras.len() as int, k - lit.len() - re.len() - zh.len());
            }
        } else {
            assert(cs[k] == da[k - lit.len() - re.len() - zh.len() - cl.len()]);
        }
    }

    /// With no `High` rule of the vocabulary id, the kept candidates of a
    /// scan count as many `High` ones whether vocabulary matches are shown
    /// or not.
    proof fn lemma_show_all_high(&self, src: Seq<u8>, a: ScanOptions)
        requires
            no_high_vocabulary_rule(self.spec_rules()),
            targets_in_range(self.literal_targets(), self.spec_rules(), self.spec_custom_terms()),
            self.literal_targets().len() == self.literal_patterns().len(),
            forall|i: int|
                0 <= i < overlapping_matches(self.literal_patterns(), masked_bytes(src)).len()
                    ==> (#[trigger] overlapping_matches(self.literal_patterns(), masked_bytes(src))[i]).0
                    < self.literal_patterns().len(),
            self.regex_rules().len() == self.regex_patterns().len(),
            forall|i: int|
                0 <= i < self.regex_rules().len() ==> #[trigger] self.regex_rules()[i]
                    < self.spec_rules().len(),
        ensures
            high_candidates(collect(src, self.candidates(src, a))) == high_candidates(
                collect(src, self.candidates(src, (ScanOptions { profile: a.profile, show_all: false }))),
            ),
    {
        let b = ScanOptions { profile: a.profile, show_all: false };
        let m = masked_bytes(src);
        let hits = overlapping_matches(self.literal_patterns(), m);
        assert forall|i: int| 0 <= i < hits.len() implies (#[trigger] hits[i]).0 < self.literal_targets().len() by {
        }
        let rules = self.spec_rules();
        let custom = self.spec_custom_terms();
        let targets = self.literal_targets();
        lemma_literal_confidence(rules, custom, targets, m, a, b, hits, hits.len() as int);
        lemma_literal_confidence(rules, custom, targets, m, b, a, hits, hits.len() as int);
        lemma_regex_confidence(
            rules,
            self.regex_patterns(),
            self.regex_rules(),
            decode_utf8(m),
            a,
            b,
            self.regex_patterns().len() as int,
        );
        lemma_zh_confidence(rules, a, b, zh_hits(m), zh_hits(m).len() as int);
        let re = self.regex_stage(m, a);
        let zh = self.zh_stage(m, a);
        let cl = cluster_stage(m, a);
        let da = dash_stage(m, a);
        assert(cl == cluster_stage(m, b));
        assert(da == dash_stage(m, b));
        let rest = re + zh + cl + da;
        lemma_fixed_ids();
        assert forall|k: int| 0 <= k < rest.len() && (#[trigger] rest[k]).0 == vocabulary_id() implies rest[k].1
            != Severity::High by {
            if k < re.len() {
                assert(rest[k] == re[k]);
            } else if k < re.len() + zh.len() {
                assert(rest[k] == zh[k - re.len()]);
            } else if k < re.len() + zh.len() + cl.len() {
                assert(rest[k] == cl[k - re.len() - zh.len()]);
                let paras = paragraphs(m);
                if !(a.profile == Profile::Casual || a.profile == Profile::Marketing) {
                    lemma_clusters_medium(m, paras, paras.len() as int, k - re.len() - zh.len());
                }
            } else {
                assert(rest[k] == da[k - re.len() - zh.len() - cl.len()]);
            }
        }
        let lit_a = self.literal_stage(m, a);
        let lit_b = self.literal_stage(m, b);
        assert(self.candidates(src, a) =~= lit_a + rest);
        assert(self.candidates(src, b) =~= lit_b + rest);
        lemma_same_high_candidates(src, lit_a, lit_b, rest, rest);
    }

    /// All candidate findings of a scan of the source bytes `src`, stage by
    /// stage, before repeated (rule, span) pairs are dropped.
    pub open spec fn candidates(&self, src: Seq<u8>, opts: ScanOptions) -> Seq<Candidate> {
        let m = masked_bytes(src);
        self.literal_stage(m, opts) + self.regex_stage(m, opts) + self.zh_stage(m, opts)
            + cluster_stage(m, opts) + dash_stage(m, opts)
    }

    /// The number of vocabulary matches that a scan of `src` summarizes.
    pub open spec fn suppressed(&self, src: Seq<u8>, opts: ScanOptions) -> nat {
        let m = masked_bytes(src);
        let hits = overlapping_matches(self.literal_patterns(), m);
        suppressed_count(self.literal_targets(), m, opts, hits, hits.len() as int)
    }

    /// Scans `source` (of which `masked` is the masking) for fixed phrases:
    /// rule phrases, vocabulary words and repository terms. Returns how many
    /// vocabulary matches were summarized.
    fn scan_literals(
        &self,
        source: &str,
        masked: &str,
        newlines: &[usize],
        options: &ScanOptions,
        findings: &mut Vec<Finding>,
        Ghost(before): Ghost<Seq<Candidate>>,
    ) -> (suppressed: usize)
        requires
            newline_index(source.spec_bytes(), newlines@),
            source.spec_bytes().len() <= isize::MAX,
            views(old(findings)@) == collect(source.spec_bytes(), before),
            forall|k: int| 0 <= k < old(findings)@.len() ==> located(#[trigger] old(findings)@[k], source.spec_bytes()),
        ensures
            views(final(findings)@) == collect(
                source.spec_bytes(),
                before + self.literal_stage(masked.spec_bytes(), *options),
            ),
            forall|k: int| 0 <= k < final(findings)@.len() ==> located(#[trigger] final(findings)@[k], source.spec_bytes()),
            suppressed == suppressed_count(
                self.literal_targets(),
                masked.spec_bytes(),
                *options,
                overlapping_matches(self.literal_patterns(), masked.spec_bytes()),
                overlapping_matches(self.literal_patterns(), masked.spec_bytes()).len() as int,
            ),
            self.matches_complete(masked.spec_bytes()),
            forall|j: int|
                0 <= j < overlapping_matches(self.literal_patterns(), masked.spec_bytes()).len()
                    ==> (#[trigger] overlapping_matches(self.literal_patterns(), masked.spec_bytes())[j]).0
                    < self.literal_patterns().len(),
    {
        let ghost src = source.spec_bytes();
        let ghost m = masked.spec_bytes();
        let ghost opts = *options;
        proof {
            use_type_invariant(self);
        }
        let hits = find_overlapping(&self.literal_automaton, masked);
        let mut suppressed: usize = 0;
        let mut i: usize = 0;
        while i < hits.len()
            invariant
                i <= hits@.len(),
                src == source.spec_bytes(),
                m == masked.spec_bytes(),
                opts == *options,
                hits@ == overlapping_matches(self.literal_patterns(), m),
                forall|k: int|
                    0 <= k < hits@.len() ==> {
                        let (p, s, e) = #[trigger] hits@[k];
                        &&& p < self.literal_patterns().len()
                        &&& s <= e <= m.len()
                    },
                newline_index(src, newlines@),
                src.len() <= isize::MAX,
                views(findings@) == collect(
                    src,
                    before + literal_candidates(
                        self.spec_rules(),
                        self.spec_custom_terms(),
                        self.literal_targets(),
                        m,
                        opts,
                        hits@,
                        i as int,
                    ),
                ),
                forall|k: int| 0 <= k < findings@.len() ==> located(#[trigger] findings@[k], src),
                suppressed <= i,
                suppressed == suppressed_count(self.literal_targets(), m, opts, hits@, i as int),
            decreases hits@.len() - i,
        {
            proof {
                use_type_invariant(self);
            }
            let (p, s, e) = hits[i];
            let ghost done = literal_candidates(
                self.spec_rules(),
                self.spec_custom_terms(),
                self.literal_targets(),
                m,
                opts,
                hits@,
                i as int,
            );
            let ghost next = literal_candidates(
                self.spec_rules(),
                self.spec_custom_terms(),
                self.literal_targets(),
                m,
                opts,
                hits@,
                i + 1,
            );
            let ghost acc = before + done;
            proof {
                assert(hits@[i as int] == (p, s, e));
                assert(next == done + crate::findings::literal_step(
                    self.spec_rules(),
                    self.spec_custom_terms(),
                    self.literal_targets(),
                    m,
                    opts,
                    (p, s, e),
                ));
            }
            if masked.is_char_boundary(s) && masked.is_char_boundary(e) && has_word_boundaries(
                masked,
                s,
                e,
            ) {
                match &self.literal_meta[p] {
                    LiteralTarget::Rule(ri) => {
                        let rule = &self.rules[*ri];
                        if profile_enabled(rule, options.profile) {
                            push_finding(
                                findings,
                                source,
                                newlines,
                                rule.id.clone(),
                                rule.severity,
                                s,
                                e,
                                rule.message.clone(),
                                rule.suggestion.clone(),
                                Ghost(acc),
                            );
                            proof {
                                assert(acc.push(next.last()) =~= before + next);
                            }
                        } else {
                            proof {
                                assert(acc =~= before + next);
                            }
                        }
                    },
                    LiteralTarget::Vocabulary(word) => {
                        if options.show_all {
                            let mut message = debug_text(word.as_str());
                            message.append(
                                " is an empirically observed excess style word in post-LLM PubMed abstracts; this is a weak, domain-specific signal.",
                            );
                            push_finding(
                                findings,
                                source,
                                newlines,
                                "research.excess-vocabulary".to_owned(),
                                Severity::Low,
                                s,
                                e,
                                message,
                                "Review only in context; do not replace mechanically.".to_owned(),
                                Ghost(acc),
                            );
                            proof {
                                assert(acc.push(next.last()) =~= before + next);
                            }
                        } else {
                            suppressed = suppressed + 1;
                            proof {
                                assert(acc =~= before + next);
                            }
                        }
                    },
                    LiteralTarget::Custom(ci) => {
                        let term = &self.custom_terms[*ci];
                        push_finding(
                            findings,
                            source,
                            newlines,
                            "custom.repo-term".to_owned(),
                            term.severity,
                            s,
                            e,
                            term.message.clone(),
                            term.suggestion.clone(),
                            Ghost(acc),
                        );
                        proof {
                            assert(acc.push(next.last()) =~= before + next);
                        }
                    },
                }
            } else {
                proof {
                    assert(acc =~= before + next);
                }
            }
            i = i + 1;
        }
        suppressed
    }

    /// Scans the masked text with the regular expressions: each one that
    /// matches somewhere and whose rule applies reports all its matches.
    fn scan_regexes(
        &self,
        source: &str,
        masked: &str,
        newlines: &[usize],
        options: &ScanOptions,
        findings: &mut Vec<Finding>,
        Ghost(before): Ghost<Seq<Candidate>>,
    )
        requires
            newline_index(source.spec_bytes(), newlines@),
            source.spec_bytes().len() <= isize::MAX,
            views(old(findings)@) == collect(source.spec_bytes(), before),
            forall|k: int| 0 <= k < old(findings)@.len() ==> located(#[trigger] old(findings)@[k], source.spec_bytes()),
        ensures
            views(final(findings)@) == collect(
                source.spec_bytes(),
                before + self.regex_stage(masked.spec_bytes(), *options),
            ),
            forall|k: int| 0 <= k < final(findings)@.len() ==> located(#[trigger] final(findings)@[k], source.spec_bytes()),
    {
        let ghost src = source.spec_bytes();
        let ghost opts = *options;
        proof {
            use_type_invariant(self);
            encode_utf8_decode_utf8(masked@);
        }
        let ghost pats = self.regex_patterns();
        let ghost text = masked@;
        let matching = set_matching(&self.regex_set, masked);
        let mut i: usize = 0;
        let mut j: usize = 0;
        while i < self.regexes.len()
            invariant
                i <= self.regexes@.len(),
                j <= matching@.len(),
                self.regexes@.len() == pats.len(),
                pats == self.regex_patterns(),
                text == masked@,
                opts == *options,
                src == source.spec_bytes(),
                forall|k: int| 0 <= k < j ==> #[trigger] matching@[k] < i,
                forall|k: int| j <= k < matching@.len() ==> #[trigger] matching@[k] >= i,
                forall|k: int, l: int| 0 <= k < l < matching@.len() ==> #[trigger] matching@[k] < #[trigger] matching@[l],
                forall|r: int|
                    0 <= r < pats.len() ==> (regex_is_match(#[trigger] pats[r], text) <==> exists|k: int|
                        0 <= k < matching@.len() && matching@[k] == r),
                newline_index(src, newlines@),
                src.len() <= isize::MAX,
                views(findings@) == collect(
                    src,
                    before + regex_candidates(
                        self.spec_rules(),
                        pats,
                        self.regex_rules(),
                        text,
                        opts,
                        i as int,
                    ),
                ),
                forall|k: int| 0 <= k < findings@.len() ==> located(#[trigger] findings@[k], src),
            decreases self.regexes@.len() - i,
        {
            proof {
                use_type_invariant(self);
            }
            let ghost acc = before + regex_candidates(
                self.spec_rules(),
                pats,
                self.regex_rules(),
                text,
                opts,
                i as int,
            );
            let hit = j < matching.len() && matching[j] == i;
            proof {
                if hit {
                    assert(regex_is_match(pats[i as int], text));
                } else {
                    if regex_is_match(pats[i as int], text) {
                        let k = choose|k: int| 0 <= k < matching@.len() && matching@[k] == i;
                        if k > j {
                            assert(matching@[j as int] < matching@[k]);
                        }
                        assert(false);
                    }
                }
            }
            if hit {
                j = j + 1;
                let rule_index = self.regex_rule_indices[i];
                let rule = &self.rules[rule_index];
                if profile_enabled(rule, options.profile) {
                    let spans = find_all(&self.regexes[i], masked);
                    let ghost all = spans@;
                    assert(all == crate::engines::regex_matches(pats[i as int], text));
                    let mut k: usize = 0;
                    while k < spans.len()
                        invariant
                            k <= spans@.len(),
                            all == spans@,
                            src == source.spec_bytes(),
                            newline_index(src, newlines@),
                            src.len() <= isize::MAX,
                            views(findings@) == collect(
                                src,
                                acc + spans_candidates(*rule, all.take(k as int)),
                            ),
                            forall|q: int| 0 <= q < findings@.len() ==> located(#[trigger] findings@[q], src),
                        decreases spans@.len() - k,
                    {
                        let (s, e) = spans[k];
                        push_finding(
                            findings,
                            source,
                            newlines,
                            rule.id.clone(),
                            rule.severity,
                            s,
                            e,
                            rule.message.clone(),
                            rule.suggestion.clone(),
                            Ghost(acc + spans_candidates(*rule, all.take(k as int))),
                        );
                        proof {
                            assert(all.take(k + 1) =~= all.take(k as int).push((s, e)));
                            assert(spans_candidates(*rule, all.take(k + 1)) =~= spans_candidates(
                                *rule,
                                all.take(k as int),
                            ).push(crate::findings::rule_candidate(*rule, s as int, e as int)));
                            assert((acc + spans_candidates(*rule, all.take(k as int))).push(
                                crate::findings::rule_candidate(*rule, s as int, e as int),
                            ) =~= acc + spans_candidates(*rule, all.take(k + 1)));
                        }
                        k = k + 1;
                    }
                    proof {
                        assert(all.take(k as int) =~= all);
                        assert(acc + spans_candidates(*rule, all) =~= before + regex_candidates(
                            self.spec_rules(),
                            pats,
                            self.regex_rules(),
                            text,
                            opts,
                            i + 1,
                        ));
                    }
                } else {
                    proof {
                        assert(acc =~= before + regex_candidates(
                            self.spec_rules(),
                            pats,
                            self.regex_rules(),
                            text,
                            opts,
                            i + 1,
                        ));
                    }
                }
            } else {
                proof {
                    assert(acc =~= before + regex_candidates(
                        self.spec_rules(),
                        pats,
                        self.regex_rules(),
                        text,
                        opts,
                        i + 1,
                    ));
                }
            }
            i = i + 1;
        }
    }

    /// The index of the first rule with id `id`.
    fn rule_named(&self, id: &str) -> (r: Option<usize>)
        ensures
            r is Some ==> rule_index_of(self.spec_rules(), id@, 0) == Some(r->0 as int) && r->0
                < self.spec_rules().len(),
            r is None ==> rule_index_of(self.spec_rules(), id@, 0) is None,
    {
        let mut i: usize = 0;
        while i < self.rules.len()
            invariant
                i <= self.rules@.len(),
                rule_index_of(self.rules@, id@, 0) == rule_index_of(self.rules@, id@, i as int),
            decreases self.rules@.len() - i,
        {
            if str_eq(self.rules[i].id.as_str(), id) {
                return Some(i);
            }
            i = i + 1;
        }
        None
    }

    /// Reports the structural leads of Chinese prose in the masked text
    /// under the rules that carry their ids.
    fn scan_chinese(
        &self,
        source: &str,
        masked: &str,
        newlines: &[usize],
        options: &ScanOptions,
        findings: &mut Vec<Finding>,
        Ghost(before): Ghost<Seq<Candidate>>,
    )
        requires
            newline_index(source.spec_bytes(), newlines@),
            source.spec_bytes().len() <= isize::MAX,
            views(old(findings)@) == collect(source.spec_bytes(), before),
            forall|k: int| 0 <= k < old(findings)@.len() ==> located(#[trigger] old(findings)@[k], source.spec_bytes()),
        ensures
            views(final(findings)@) == collect(
                source.spec_bytes(),
                before + self.zh_stage(masked.spec_bytes(), *options),
            ),
            forall|k: int| 0 <= k < final(findings)@.len() ==> located(#[trigger] final(findings)@[k], source.spec_bytes()),
    {
        let ghost src = source.spec_bytes();
        let ghost opts = *options;
        let leads = scan(masked, &self.zh_patterns);
        let ghost hs = zh_hits(masked.spec_bytes());
        let mut k: usize = 0;
        while k < leads.len()
            invariant
                k <= leads@.len(),
                hits_view(leads@) == hs,
                src == source.spec_bytes(),
                opts == *options,
                newline_index(src, newlines@),
                src.len() <= isize::MAX,
                views(findings@) == collect(
                    src,
                    before + zh_candidates(self.spec_rules(), opts, hs, k as int),
                ),
                forall|q: int| 0 <= q < findings@.len() ==> located(#[trigger] findings@[q], src),
            decreases leads@.len() - k,
        {
            let (id, s, e) = leads[k];
            let ghost acc = before + zh_candidates(self.spec_rules(), opts, hs, k as int);
            let ghost next = before + zh_candidates(self.spec_rules(), opts, hs, k + 1);
            proof {
                assert(hs[k as int] == (id@, s as int, e as int));
                assert(next =~= acc + crate::findings::zh_step(
                    self.spec_rules(),
                    opts,
                    hs[k as int],
                ));
            }
            match self.rule_named(id) {
                Some(ri) => {
                    let rule = &self.rules[ri];
                    if profile_enabled(rule, options.profile) {
                        push_finding(
                            findings,
                            source,
                            newlines,
                            rule.id.clone(),
                            rule.severity,
                            s,
                            e,
                            rule.message.clone(),
                            rule.suggestion.clone(),
                            Ghost(acc),
                        );
                        proof {
                            assert(acc.push(next.last()) =~= next);
                        }
                    } else {
                        proof {
                            assert(acc =~= next);
                        }
                    }
                },
                None => {
                    proof {
                        assert(acc =~= next);
                    }
                },
            }
            k = k + 1;
        }
    }

    /// Which abstraction terms occur in `para` between word boundaries.
    fn abstraction_flags(&self, para: &str) -> (r: Vec<bool>)
        requires
            para.spec_bytes().len() <= usize::MAX,
        ensures
            r@.len() == 8,
            r@ == present_terms(para.spec_bytes()),
    {
        proof {
            use_type_invariant(self);
            lemma_abstraction_bytes();
        }
        let ghost b = para.spec_bytes();
        let ghost pats = abstraction_bytes();
        let hits = find_overlapping(&self.abstraction_automaton, para);
        assert(automaton_patterns(self.abstraction_automaton) == pats);
        let mut flags: Vec<bool> = Vec::new();
        let mut n: usize = 0;
        while n < 8
            invariant
                n <= 8,
                flags@ =~= Seq::new(n as nat, |x: int| false),
            decreases 8 - n,
        {
            flags.push(false);
            n = n + 1;
        }
        let mut i: usize = 0;
        while i < hits.len()
            invariant
                i <= hits@.len(),
                b == para.spec_bytes(),
                b.len() <= usize::MAX,
                pats == abstraction_bytes(),
                pats.len() == 8,
                forall|k: int|
                    0 <= k < hits@.len() ==> {
                        let (p, s, e) = #[trigger] hits@[k];
                        &&& p < 8
                        &&& s <= e <= b.len()
                        &&& e - s == pats[p as int].len()
                        &&& occurs_at(b, pats[p as int], s as int)
                    },
                forall|p: int| 0 <= p < 8 ==> #[trigger] pats[p].len() > 0,
                forall|p: int, s: int|
                    0 <= p < 8 && #[trigger] occurs_at(b, pats[p], s) ==> exists|k: int|
                        0 <= k < hits@.len() && hits@[k] == (p as usize, s as usize, (s + pats[p].len()) as usize),
                flags@.len() == 8,
                forall|p: int|
                    0 <= p < 8 ==> (#[trigger] flags@[p] <==> exists|j: int|
                        0 <= j < i && (#[trigger] hits@[j]).0 == p && hit_counts(
                            b,
                            hits@[j].1 as int,
                            hits@[j].2 as int,
                        )),
            decreases hits@.len() - i,
        {
            let (p, s, e) = hits[i];
            assert(hits@[i as int] == (p, s, e));
            let counts = para.is_char_boundary(s) && para.is_char_boundary(e) && has_word_boundaries(
                para,
                s,
                e,
            );
            let ghost old_flags = flags@;
            if counts {
                flags.set(p, true);
            }
            proof {
                assert forall|q: int| 0 <= q < 8 implies (#[trigger] flags@[q] <==> exists|j: int|
                    0 <= j < i + 1 && (#[trigger] hits@[j]).0 == q && hit_counts(
                        b,
                        hits@[j].1 as int,
                        hits@[j].2 as int,
                    )) by {
                    if flags@[q] && !old_flags[q] {
                        assert(hits@[i as int].0 == q);
                    }
                    if exists|j: int|
                        0 <= j < i + 1 && (#[trigger] hits@[j]).0 == q && hit_counts(
                            b,
                            hits@[j].1 as int,
                            hits@[j].2 as int,
                        ) {
                        let j = choose|j: int|
                            0 <= j < i + 1 && (#[trigger] hits@[j]).0 == q && hit_counts(
                                b,
                                hits@[j].1 as int,
                                hits@[j].2 as int,
                            );
                        if j < i {
                            assert(old_flags[q]);
                        }
                    }
                }
            }
            i = i + 1;
        }
        proof {
            assert forall|q: int| 0 <= q < 8 implies flags@[q] == #[trigger] present_terms(b)[q] by {
                if flags@[q] {
                    let j = choose|j: int|
                        0 <= j < hits@.len() && (#[trigger] hits@[j]).0 == q && hit_counts(
                            b,
                            hits@[j].1 as int,
                            hits@[j].2 as int,
                        );
                    assert(term_at(b, q, hits@[j].1 as int));
                }
                if term_present(b, q) {
                    let s = choose|s: int| #[trigger] term_at(b, q, s);
                    assert(occurs_at(b, pats[q], s));
                    let k = choose|k: int|
                        0 <= k < hits@.len() && hits@[k] == (q as usize, s as usize, (s + pats[q].len()) as usize);
                    assert(hits@[k].0 == q);
                }
            }
            assert(flags@ =~= present_terms(b));
        }
        flags
    }

    /// Reports each paragraph of the masked text in which at least three
    /// distinct abstraction terms occur on character and word boundaries.
    /// Skipped for the casual and marketing profiles; where no paragraph
    /// holds three terms, nothing is added.
    fn scan_abstraction_clusters(
        &self,
        source: &str,
        masked: &str,
        newlines: &[usize],
        options: &ScanOptions,
        findings: &mut Vec<Finding>,
        Ghost(before): Ghost<Seq<Candidate>>,
    )
        requires
            newline_index(source.spec_bytes(), newlines@),
            source.spec_bytes().len() <= isize::MAX,
            views(old(findings)@) == collect(source.spec_bytes(), before),
            forall|k: int| 0 <= k < old(findings)@.len() ==> located(#[trigger] old(findings)@[k], source.spec_bytes()),
        ensures
            views(final(findings)@) == collect(
                source.spec_bytes(),
                before + cluster_stage(masked.spec_bytes(), *options),
            ),
            forall|k: int| 0 <= k < final(findings)@.len() ==> located(#[trigger] final(findings)@[k], source.spec_bytes()),
            (options.profile == Profile::Casual || options.profile == Profile::Marketing || forall|q: int|
                0 <= q < paragraphs(masked.spec_bytes()).len() ==> terms_in(
                    masked.spec_bytes(),
                    #[trigger] paragraphs(masked.spec_bytes())[q].0 as int,
                    paragraphs(masked.spec_bytes())[q].1 as int,
                ) < 3) ==> views(final(findings)@) == views(old(findings)@),
    {
        proof {
            lemma_clusters_need_three_terms(masked.spec_bytes(), *options);
        }
        let ghost src = source.spec_bytes();
        let ghost m = masked.spec_bytes();
        if options.profile == Profile::Casual || options.profile == Profile::Marketing {
            proof {
                assert(before + cluster_stage(m, *options) =~= before);
            }
            return;
        }
        let spans = paragraph_spans(masked);
        let mut k: usize = 0;
        while k < spans.len()
            invariant
                k <= spans@.len(),
                spans@ == paragraphs(m),
                well_formed_spans(m, spans@),
                m == masked.spec_bytes(),
                src == source.spec_bytes(),
                newline_index(src, newlines@),
                src.len() <= isize::MAX,
                views(findings@) == collect(src, before + cluster_candidates(m, spans@, k as int)),
                forall|q: int| 0 <= q < findings@.len() ==> located(#[trigger] findings@[q], src),
            decreases spans@.len() - k,
        {
            let (s, e) = spans[k];
            assert(spans@[k as int] == (s, e));
            let para = substring(masked, s, e);
            let flags = self.abstraction_flags(para);
            let count = count_flags(&flags);
            let ghost acc = before + cluster_candidates(m, spans@, k as int);
            let ghost step = crate::findings::cluster_at(m, s as int, e as int);
            assert(cluster_candidates(m, spans@, k + 1) == cluster_candidates(m, spans@, k as int)
                + step);
            if count >= 3 {
                let mut message = "Dense Codex-style abstraction cluster: ".to_owned();
                message.append(joined_terms_text(&flags).as_str());
                message.append(".");
                push_finding(
                    findings,
                    source,
                    newlines,
                    "codex.abstraction-cluster".to_owned(),
                    Severity::Medium,
                    s,
                    e,
                    message,
                    "Keep canonical technical terms, but replace ornamental abstractions with concrete actors and operations.".to_owned(),
                    Ghost(acc),
                );
                proof {
                    assert(acc.push(step[0]) =~= before + cluster_candidates(m, spans@, k + 1));
                }
            } else {
                proof {
                    assert(acc =~= before + cluster_candidates(m, spans@, k + 1));
                }
            }
            k = k + 1;
        }
        proof {
            assert(cluster_stage(m, *options) == cluster_candidates(m, spans@, spans@.len() as int));
            if cluster_stage(m, *options).len() == 0 {
                assert(before + cluster_stage(m, *options) =~= before);
            }
        }
    }

    /// Scans a document. The report holds the candidates of all stages over
    /// the masked text, each rule id and span once, located in the source,
    /// in report order; it counts the summarized vocabulary matches and
    /// carries the scanner's vocabulary counts. In particular every counted
    /// occurrence of an applicable rule phrase, of a repository term and,
    /// when shown, of a vocabulary word is reported, and so is every match of
    /// an expression whose rule applies; a finding of severity `High` comes
    /// from a rule or repository term of that severity. Without `show_all`,
    /// and with no rule of the vocabulary id, no finding has that id; with
    /// no `High` rule of that id, the number of `High` findings is the same
    /// whether vocabulary matches are shown or not.
    pub fn scan_text(&self, path: &str, source: &str, options: &ScanOptions) -> (r: Report)
        requires
            source.spec_bytes().len() <= isize::MAX,
        ensures
            r.path@ == path@,
            r.profile == options.profile,
            reports(
                r.findings@,
                collect(source.spec_bytes(), self.candidates(source.spec_bytes(), *options)),
                source.spec_bytes(),
            ),
            r.suppressed_low_confidence == self.suppressed(source.spec_bytes(), *options),
            r.vocabulary_candidates == self.spec_vocabulary_candidates(),
            r.active_style_vocabulary == self.spec_active_style_vocabulary(),
            forall|p: int, s: int|
                #[trigger] self.phrase_at(source.spec_bytes(), p, s) ==> (self.literal_targets()[p] matches LiteralTarget::Rule(i)
                    ==> (rule_applies(self.spec_rules()[i as int], options.profile) ==> reported(
                    r.findings@,
                    self.spec_rules()[i as int].id@,
                    s,
                    s + self.literal_patterns()[p].len(),
                ))),
            forall|p: int, s: int|
                #[trigger] self.phrase_at(source.spec_bytes(), p, s)
                    && self.literal_targets()[p] is Custom ==> reported(
                    r.findings@,
                    custom_id(),
                    s,
                    s + self.literal_patterns()[p].len(),
                ),
            forall|p: int, s: int|
                #[trigger] self.phrase_at(source.spec_bytes(), p, s) && options.show_all
                    && self.literal_targets()[p] is Vocabulary ==> reported(
                    r.findings@,
                    vocabulary_id(),
                    s,
                    s + self.literal_patterns()[p].len(),
                ),
            forall|i: int, k: int|
                #[trigger] self.expression_match(source.spec_bytes(), *options, i, k) ==> reported(
                    r.findings@,
                    self.spec_rules()[self.regex_rules()[i] as int].id@,
                    regex_matches(
                        self.regex_patterns()[i],
                        decode_utf8(masked_bytes(source.spec_bytes())),
                    )[k].0 as int,
                    regex_matches(
                        self.regex_patterns()[i],
                        decode_utf8(masked_bytes(source.spec_bytes())),
                    )[k].1 as int,
                ),
            forall|j: int|
                0 <= j < r.findings@.len() && (#[trigger] r.findings@[j]).severity == Severity::High
                    ==> high_origin(self.spec_rules(), self.spec_custom_terms(), r.findings@[j].rule_id@),
            !options.show_all && no_vocabulary_rule(self.spec_rules()) ==> forall|j: int|
                0 <= j < r.findings@.len() ==> (#[trigger] r.findings@[j]).rule_id@ != vocabulary_id(),
            high_count(r.findings@, r.findings@.len() as int) == high_candidates(
                collect(source.spec_bytes(), self.candidates(source.spec_bytes(), *options)),
            ),
            no_high_vocabulary_rule(self.spec_rules()) ==> high_count(
                r.findings@,
                r.findings@.len() as int,
            ) == high_candidates(
                collect(
                    source.spec_bytes(),
                    self.candidates(
                        source.spec_bytes(),
                        (ScanOptions { profile: options.profile, show_all: false }),
                    ),
                ),
            ),
    {
        let ghost src = source.spec_bytes();
        let masked = mask_markdown(source);
        let ghost m = masked_bytes(src);
        let masked_text = masked.as_str();
        assert(masked_text.spec_bytes() == m);
        let newlines = newline_offsets(source);
        let mut findings: Vec<Finding> = Vec::new();
        let ghost opts = *options;
        proof {
            assert(views(findings@) =~= collect(src, Seq::<Candidate>::empty()));
        }
        let suppressed = self.scan_literals(
            source,
            masked_text,
            newlines.as_slice(),
            options,
            &mut findings,
            Ghost(Seq::empty()),
        );
        let ghost a = Seq::<Candidate>::empty() + self.literal_stage(m, opts);
        self.scan_regexes(
            source,
            masked_text,
            newlines.as_slice(),
            options,
            &mut findings,
            Ghost(a),
        );
        let ghost a2 = a + self.regex_stage(m, opts);
        self.scan_chinese(
            source,
            masked_text,
            newlines.as_slice(),
            options,
            &mut findings,
            Ghost(a2),
        );
        let ghost b = a2 + self.zh_stage(m, opts);
        self.scan_abstraction_clusters(
            source,
            masked_text,
            newlines.as_slice(),
            options,
            &mut findings,
            Ghost(b),
        );
        let ghost c = b + cluster_stage(m, opts);
        scan_em_dash_density(
            source,
            masked_text,
            newlines.as_slice(),
            options,
            &mut findings,
            Ghost(c),
        );
        let ghost d = c + dash_stage(m, opts);
        proof {
            assert(d =~= self.candidates(src, opts));
            lemma_collect_distinct(src, d);
        }
        let sorted = sort_findings(findings, Ghost(src));
        let phrase_count = self.literal_meta.len();
        proof {
            use_type_invariant(self);
            assert(phrase_count == self.literal_patterns().len());
            assert forall|p: int, s: int| #[trigger] self.phrase_at(src, p, s) implies {
                &&& self.literal_targets()[p] matches LiteralTarget::Rule(i) ==> (rule_applies(
                    self.spec_rules()[i as int],
                    opts.profile,
                ) ==> reported(
                    sorted@,
                    self.spec_rules()[i as int].id@,
                    s,
                    s + self.literal_patterns()[p].len(),
                ))
                &&& self.literal_targets()[p] is Custom ==> reported(
                    sorted@,
                    custom_id(),
                    s,
                    s + self.literal_patterns()[p].len(),
                )
                &&& opts.show_all && self.literal_targets()[p] is Vocabulary ==> reported(
                    sorted@,
                    vocabulary_id(),
                    s,
                    s + self.literal_patterns()[p].len(),
                )
            } by {
                self.lemma_phrase_reported(src, opts, sorted@, p, s);
            }
            assert forall|i: int, k: int|
                #[trigger] self.expression_match(src, opts, i, k) implies reported(
                sorted@,
                self.spec_rules()[self.regex_rules()[i] as int].id@,
                regex_matches(self.regex_patterns()[i], decode_utf8(m))[k].0 as int,
                regex_matches(self.regex_patterns()[i], decode_utf8(m))[k].1 as int,
            ) by {
                self.lemma_expression_reported(src, opts, sorted@, i, k);
            }
            assert forall|j: int|
                0 <= j < sorted@.len() && (#[trigger] sorted@[j]).severity == Severity::High implies high_origin(
                self.spec_rules(),
                self.spec_custom_terms(),
                sorted@[j].rule_id@,
            ) by {
                self.lemma_high_from_rules(src, opts, sorted@, j);
            }
            if no_high_vocabulary_rule(self.spec_rules()) {
                self.lemma_show_all_high(src, opts);
            }
            if !opts.show_all && no_vocabulary_rule(self.spec_rules()) {
                assert forall|j: int| 0 <= j < sorted@.len() implies (#[trigger] sorted@[j]).rule_id@
                    != vocabulary_id() by {
                    self.lemma_no_vocabulary_finding(src, opts, sorted@, j);
                }
            }
        }
        Report {
            path: path.to_owned(),
            profile: options.profile,
            findings: sorted,
            suppressed_low_confidence: suppressed,
            vocabulary_candidates: self.vocabulary_candidates,
            active_style_vocabulary: self.active_style_vocabulary,
        }
    }
}

} // verus!
