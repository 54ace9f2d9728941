//! The matching engines of the scanner: an Aho–Corasick automaton for fixed
//! phrases (from `aho-corasick`) and regular expressions (from `regex`).
//! Each call is made by one small function whose contract states what the
//! crate documents of it.
use vstd::prelude::*;
use vstd::utf8::*;
use vstd::string::*;
use aho_corasick::{AhoCorasick, AhoCorasickBuilder, MatchKind};
use regex::{Regex, RegexSet};
use crate::text::bytes_of;

verus! {

#[verifier::external_type_specification]
#[verifier::external_body]
pub struct ExAhoCorasick(AhoCorasick);

#[verifier::external_type_specification]
#[verifier::external_body]
pub struct ExRegex(Regex);

#[verifier::external_type_specification]
#[verifier::external_body]
pub struct ExRegexSet(RegexSet);

/// The patterns, as bytes and in order, that an automaton was built from.
pub uninterp spec fn automaton_patterns(a: AhoCorasick) -> Seq<Seq<u8>>;

/// The automaton was built with standard match semantics, which
/// `AhoCorasick::find_overlapping_iter` requires.
pub uninterp spec fn standard_semantics(a: AhoCorasick) -> bool;

/// Whether `AhoCorasickBuilder::build`, configured as `build_automaton`
/// configures it, succeeds on these patterns (it fails when the automaton
/// would exceed the crate's state or pattern-ID limits).
pub uninterp spec fn automaton_builds(patterns: Seq<Seq<u8>>) -> bool;

/// Whether `Regex::new` succeeds on `pattern` (it fails on a syntax error or
/// when the compiled regex would exceed the crate's size limits).
pub uninterp spec fn regex_builds(pattern: Seq<char>) -> bool;

/// Whether `RegexSet::new` succeeds on these patterns.
pub uninterp spec fn regex_set_builds(patterns: Seq<Seq<char>>) -> bool;

/// What `AhoCorasick::find_overlapping_iter` yields, as (pattern index,
/// start, end), for an ASCII-case-insensitive automaton with standard match
/// semantics built from `patterns`, searching the bytes `haystack`.
pub uninterp spec fn overlapping_matches(patterns: Seq<Seq<u8>>, haystack: Seq<u8>) -> Seq<
    (usize, usize, usize),
>;

/// What `Regex::as_str` returns: the pattern a regex was compiled from.
pub uninterp spec fn regex_source(r: Regex) -> Seq<char>;

/// What `RegexSet::patterns` returns: the patterns a set was compiled from.
pub uninterp spec fn set_patterns(s: RegexSet) -> Seq<Seq<char>>;

/// What `Regex::is_match` returns: whether `pattern` matches somewhere in
/// `haystack`.
pub uninterp spec fn regex_is_match(pattern: Seq<char>, haystack: Seq<char>) -> bool;

/// What `Regex::find_iter` yields, as byte spans: the successive
/// non-overlapping matches of `pattern` in `haystack`.
pub uninterp spec fn regex_matches(pattern: Seq<char>, haystack: Seq<char>) -> Seq<(usize, usize)>;

/// What `Regex::find` returns, as a byte span: the first match of `pattern`
/// in `haystack`.
pub uninterp spec fn regex_first_match(pattern: Seq<char>, haystack: Seq<char>) -> Option<
    (usize, usize),
>;

/// `x` with ASCII upper-case letters made lower-case.
pub open spec fn ascii_fold(x: u8) -> u8 {
    if 0x41 <= x <= 0x5a {
        (x + 0x20) as u8
    } else {
        x
    }
}

/// `a` and `b` are equal up to the case of ASCII letters.
pub open spec fn ascii_case_eq(a: Seq<u8>, b: Seq<u8>) -> bool {
    a.len() == b.len() && forall|k: int| 0 <= k < a.len() ==> ascii_fold(#[trigger] a[k])
        == ascii_fold(b[k])
}

/// `pattern` occurs in `h` from `s`, up to the case of ASCII letters.
pub open spec fn occurs_at(h: Seq<u8>, pattern: Seq<u8>, s: int) -> bool {
    0 <= s && s + pattern.len() <= h.len() && ascii_case_eq(h.subrange(s, s + pattern.len()), pattern)
}

/// The bytes of each string of `v`.
pub open spec fn bytes_of_strings(v: Seq<String>) -> Seq<Seq<u8>> {
    v.map_values(|s: String| bytes_of(s@))
}

/// The characters of each string of `v`.
pub open spec fn chars_of_strings(v: Seq<String>) -> Seq<Seq<char>> {
    v.map_values(|s: String| s@)
}

/// Builds, with `AhoCorasickBuilder`, an automaton with standard match
/// semantics that ignores the case of ASCII letters. On success the
/// automaton holds the given patterns in order and has standard match
/// semantics; on failure the result is the text of the builder's error.
/// Whether it succeeds is named `automaton_builds` of the patterns' bytes.
#[verifier::external_body]
pub(crate) fn build_automaton(patterns: &Vec<String>) -> (r: Result<AhoCorasick, String>)
    ensures
        r is Ok <==> automaton_builds(bytes_of_strings(patterns@)),
        r matches Ok(a) ==> automaton_patterns(a) == bytes_of_strings(patterns@) && standard_semantics(a),
{
    match AhoCorasickBuilder::new().ascii_case_insensitive(true).match_kind(
        MatchKind::Standard,
    ).build(patterns) {
        Ok(a) => Ok(a),
        Err(e) => Err(e.to_string()),
    }
}

/// Calls `AhoCorasick::find_overlapping_iter` on the bytes of `haystack` and
/// lists the matches as (pattern index, start, end), named
/// `overlapping_matches` of the automaton's patterns and the haystack. As the
/// crate documents it, the matches are all occurrences of all patterns,
/// compared without regard to the case of ASCII letters, each reported once;
/// the completeness is stated for nonempty patterns. The order is not stated
/// beyond the name of the result. The search panics unless the
/// automaton has standard match semantics, which it requires.
#[verifier::external_body]
pub(crate) fn find_overlapping(a: &AhoCorasick, haystack: &str) -> (r: Vec<(usize, usize, usize)>)
    requires
        standard_semantics(*a),
    ensures
        r@ == overlapping_matches(automaton_patterns(*a), haystack.spec_bytes()),
        forall|k: int|
            0 <= k < r@.len() ==> {
                let (p, s, e) = #[trigger] r@[k];
                &&& p < automaton_patterns(*a).len()
                &&& s <= e <= haystack.spec_bytes().len()
                &&& e - s == automaton_patterns(*a)[p as int].len()
                &&& occurs_at(haystack.spec_bytes(), automaton_patterns(*a)[p as int], s as int)
            },
        forall|p: int, s: int|
            0 <= p < automaton_patterns(*a).len() && automaton_patterns(*a)[p].len() > 0
                && #[trigger] occurs_at(haystack.spec_bytes(), automaton_patterns(*a)[p], s)
                ==> exists|k: int|
                0 <= k < r@.len() && r@[k] == (p as usize, s as usize, (s + automaton_patterns(
                    *a,
                )[p].len()) as usize),
        forall|k: int, l: int| 0 <= k < l < r@.len() ==> r@[k] != r@[l],
{
    a.find_overlapping_iter(haystack.as_bytes()).map(|m| (m.pattern().as_usize(), m.start(), m.end())).collect()
}

/// Compiles `pattern` with `Regex::new`; on success the regex's source is
/// the pattern, on failure the result is the text of the crate's error.
/// Whether it succeeds is named `regex_builds` of the pattern.
#[verifier::external_body]
pub(crate) fn build_regex(pattern: &str) -> (r: Result<Regex, String>)
    ensures
        r is Ok <==> regex_builds(pattern@),
        r matches Ok(re) ==> regex_source(re) == pattern@,
{
    match Regex::new(pattern) {
        Ok(re) => Ok(re),
        Err(e) => Err(e.to_string()),
    }
}

/// Compiles the patterns into one set with `RegexSet::new`; on success the
/// set holds the patterns in order, on failure the result is the text of the
/// crate's error. Whether it succeeds is named `regex_set_builds` of the
/// patterns.
#[verifier::external_body]
pub(crate) fn build_regex_set(patterns: &Vec<String>) -> (r: Result<RegexSet, String>)
    ensures
        r is Ok <==> regex_set_builds(chars_of_strings(patterns@)),
        r matches Ok(s) ==> set_patterns(s) == chars_of_strings(patterns@),
{
    match RegexSet::new(patterns) {
        Ok(s) => Ok(s),
        Err(e) => Err(e.to_string()),
    }
}

/// Calls `RegexSet::matches` and lists the indices it reports. As the crate
/// documents it, these are, in ascending order, the indices of the patterns
/// that match somewhere in `haystack`.
#[verifier::external_body]
pub(crate) fn set_matching(s: &RegexSet, haystack: &str) -> (r: Vec<usize>)
    ensures
        forall|k: int| 0 <= k < r@.len() ==> #[trigger] r@[k] < set_patterns(*s).len(),
        forall|k: int, l: int| 0 <= k < l < r@.len() ==> #[trigger] r@[k] < #[trigger] r@[l],
        forall|i: int|
            0 <= i < set_patterns(*s).len() ==> (regex_is_match(
                #[trigger] set_patterns(*s)[i],
                haystack@,
            ) <==> exists|k: int| 0 <= k < r@.len() && r@[k] == i),
{
    s.matches(haystack).into_iter().collect()
}

/// Calls `Regex::find_iter` and lists the byte spans of the matches, named
/// `regex_matches` of the regex's pattern and the haystack. As the crate
/// documents it, each span lies in the haystack with both ends on character
/// boundaries, the spans follow one another without overlap, and there is
/// none when the regex does not match.
#[verifier::external_body]
pub(crate) fn find_all(re: &Regex, haystack: &str) -> (r: Vec<(usize, usize)>)
    ensures
        r@ == regex_matches(regex_source(*re), haystack@),
        forall|k: int|
            0 <= k < r@.len() ==> {
                let (s, e) = #[trigger] r@[k];
                &&& s <= e <= haystack.spec_bytes().len()
                &&& is_char_boundary(haystack.spec_bytes(), s as int)
                &&& is_char_boundary(haystack.spec_bytes(), e as int)
            },
        forall|k: int| 0 < k < r@.len() ==> r@[k - 1].1 <= #[trigger] r@[k].0,
        !regex_is_match(regex_source(*re), haystack@) ==> r@.len() == 0,
{
    re.find_iter(haystack).map(|m| (m.start(), m.end())).collect()
}

/// Calls `Regex::find` and returns the byte span of the first match, named
/// `regex_first_match` of the regex's pattern and the haystack. As the crate
/// documents it, there is one exactly when the regex matches, and it lies in
/// the haystack with both ends on character boundaries.
#[verifier::external_body]
pub(crate) fn find_first(re: &Regex, haystack: &str) -> (r: Option<(usize, usize)>)
    ensures
        r == regex_first_match(regex_source(*re), haystack@),
        r is Some <==> regex_is_match(regex_source(*re), haystack@),
        r matches Some((s, e)) ==> s <= e <= haystack.spec_bytes().len() && is_char_boundary(
            haystack.spec_bytes(),
            s as int,
        ) && is_char_boundary(haystack.spec_bytes(), e as int),
{
    re.find(haystack).map(|m| (m.start(), m.end()))
}

/// Calls `Regex::is_match`: whether the regex matches somewhere in the
/// haystack, named `regex_is_match` of its pattern and the haystack.
#[verifier::external_body]
pub(crate) fn matches_somewhere(re: &Regex, haystack: &str) -> (r: bool)
    ensures
        r == regex_is_match(regex_source(*re), haystack@),
{
    re.is_match(haystack)
}

} // verus!
