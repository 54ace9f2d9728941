//! Structural editing leads for Chinese prose: runs of numbered headings,
//! prose paragraphs that open with a comment marker and no reference word,
//! and neighbouring sentences cut from one template. These heuristics do
//! not infer semantics; they work on the masked text.
use vstd::prelude::*;
use vstd::utf8::*;
use vstd::string::*;
use regex::Regex;
use crate::engines::{
    build_regex, find_first, matches_somewhere, regex_builds, regex_first_match, regex_is_match,
    regex_source,
};
use crate::markdown::{paragraph_spans, paragraphs, well_formed_spans};
use crate::strings::substring;
use crate::text::{
    at_char_start, byte_offset, char_table, char_table_of, chars_between, is_white_space,
    lemma_boundary_char_start, lemma_char_start_boundary, lemma_char_start_shift, lemma_table_slice,
    lemma_valid_between, white_space,
};

verus! {

/// A structural lead: rule id and byte span.
pub type ZhHit = (Seq<char>, int, int);

/// The rule id of numbered-heading runs.
pub open spec fn heading_id() -> Seq<char> {
    "zh.numbered-heading"@
}

/// The rule id of zero-subject paragraph openings.
pub open spec fn zero_subject_id() -> Seq<char> {
    "zh.zero-subject"@
}

/// The rule id of template sentences.
pub open spec fn template_id() -> Seq<char> {
    "zh.sentence-template"@
}

/// A numbered heading: Markdown hashes or a bold marker, then a Chinese
/// numeral and an enumeration comma or full stop.
pub open spec fn heading_pattern() -> Seq<char> {
    "(?m)^[ \\t]*(?:#{1,6}[ \\t]+|\\*\\*)[ \\t]*(?:第?[一二三四五六七八九十百]+)[、．.][^\\n]+"@
}

/// A comment marker at the start of a sentence.
pub open spec fn comment_pattern() -> Seq<char> {
    "^(?:听起来|看起来|看上去|听上去|说白了|说到底|换句话说|意味着|值得注意的是|不难看出|问题在于|原因在于|结果是|有意思的是|更重要的是|关键在于|真正的)"@
}

/// A simple reference word.
pub open spec fn reference_pattern() -> Seq<char> {
    "这|那|其|此|上面|前面|刚才|以上|该|它|他|她"@
}

/// A CJK unified ideograph (the main block, extension A, or extensions B
/// to G).
pub open spec fn han(c: char) -> bool {
    ||| 0x3400 <= c as u32 <= 0x4dbf
    ||| 0x4e00 <= c as u32 <= 0x9fff
    ||| 0x20000 <= c as u32 <= 0x3134f
}

/// Some character of `s` is a CJK ideograph.
pub open spec fn has_han(s: Seq<char>) -> bool {
    exists|k: int| 0 <= k < s.len() && han(#[trigger] s[k])
}

/// `c` is Unicode white space.
pub open spec fn white(c: char) -> bool {
    white_space(c as u32)
}

/// The first index from `i` on, before `e`, whose character is not white
/// space, or `e`.
pub open spec fn skip_white(s: Seq<char>, i: int, e: int) -> int
    decreases e - i,
{
    if 0 <= i < e && i < s.len() && white(s[i]) {
        skip_white(s, i + 1, e)
    } else {
        i
    }
}

/// The end `e` moved back over white space, down to `i`.
pub open spec fn trim_white_end(s: Seq<char>, i: int, e: int) -> int
    decreases e - i,
{
    if i < e && 0 < e <= s.len() && white(s[e - 1]) {
        trim_white_end(s, i, e - 1)
    } else {
        e
    }
}

/// The index just past the line that starts at `i`: after its newline, or
/// the end.
pub open spec fn line_stop(s: Seq<char>, i: int) -> int
    decreases s.len() - i,
{
    if i >= s.len() {
        s.len() as int
    } else if s[i] == '\n' {
        i + 1
    } else {
        line_stop(s, i + 1)
    }
}

/// A sentence ends with `。`, `！` or `？`.
pub open spec fn sentence_mark(c: char) -> bool {
    c == '。' || c == '！' || c == '？'
}

/// The index just past the sentence that starts at `i`: after its mark, or
/// the end.
pub open spec fn sentence_stop(s: Seq<char>, i: int) -> int
    decreases s.len() - i,
{
    if i >= s.len() {
        s.len() as int
    } else if sentence_mark(s[i]) {
        i + 1
    } else {
        sentence_stop(s, i + 1)
    }
}

/// The index of the first sentence mark or newline from `i` on, or the end.
pub open spec fn first_stop(s: Seq<char>, i: int) -> int
    decreases s.len() - i,
{
    if i >= s.len() {
        s.len() as int
    } else if sentence_mark(s[i]) || s[i] == '\n' {
        i
    } else {
        first_stop(s, i + 1)
    }
}

/// The line from `i` to `e`, trimmed, starts with `#` or `**`: an
/// unnumbered heading, which ends a run of numbered ones.
pub open spec fn heading_marker(s: Seq<char>, i: int, e: int) -> bool {
    let p = skip_white(s, i, e);
    p < e && (s[p] == '#' || (p + 1 < e && s[p] == '*' && s[p + 1] == '*'))
}

/// The leads of a run of numbered headings: all of them when there are at
/// least three.
pub open spec fn flush(run: Seq<(int, int)>) -> Seq<ZhHit> {
    if run.len() >= 3 {
        run.map_values(|x: (int, int)| (heading_id(), x.0, x.1))
    } else {
        Seq::empty()
    }
}

/// The numbered-heading leads of `s` from the line at `i` on, with `run`
/// the numbered headings seen since the last unnumbered one. A line holds a
/// numbered heading when the heading pattern matches in it.
pub open spec fn heading_hits(s: Seq<char>, i: int, run: Seq<(int, int)>) -> Seq<ZhHit>
    decreases s.len() - i,
{
    if i < 0 || i >= s.len() {
        flush(run)
    } else {
        let e = line_stop(s, i);
        proof {
            lemma_line_stop(s, i);
        }
        match regex_first_match(heading_pattern(), s.subrange(i, e)) {
            Some(m) => heading_hits(
                s,
                e,
                run.push((byte_offset(s, i) + m.0, byte_offset(s, i) + m.1)),
            ),
            None => if heading_marker(s, i, e) {
                flush(run) + heading_hits(s, e, Seq::empty())
            } else {
                heading_hits(s, e, run)
            },
        }
    }
}

/// Numbered headings are reported in runs of at least three: from any
/// line and run so far, the numbered-heading leads are none or at least
/// three, and each has the numbered-heading id.
pub proof fn lemma_heading_runs(s: Seq<char>, i: int, run: Seq<(int, int)>)
    ensures
        heading_hits(s, i, run).len() == 0 || heading_hits(s, i, run).len() >= 3,
        forall|k: int| 0 <= k < heading_hits(s, i, run).len() ==> (#[trigger] heading_hits(s, i, run)[k]).0
            == heading_id(),
    decreases s.len() - i,
{
    if i < 0 || i >= s.len() {
    } else {
        let e = line_stop(s, i);
        lemma_line_stop(s, i);
        match regex_first_match(heading_pattern(), s.subrange(i, e)) {
            Some(m) => {
                lemma_heading_runs(
                    s,
                    e,
                    run.push((byte_offset(s, i) + m.0, byte_offset(s, i) + m.1)),
                );
            },
            None => if heading_marker(s, i, e) {
                lemma_heading_runs(s, e, Seq::empty());
                let a = flush(run);
                let b = heading_hits(s, e, Seq::empty());
                assert(heading_hits(s, i, run) == a + b);
                assert forall|k: int| 0 <= k < (a + b).len() implies (#[trigger] (a + b)[k]).0
                    == heading_id() by {
                    if k < a.len() {
                        assert((a + b)[k] == a[k]);
                    } else {
                        assert((a + b)[k] == b[k - a.len()]);
                    }
                }
            } else {
                lemma_heading_runs(s, e, run);
            },
        }
    }
}

/// The number of occurrences of `c` in `s`.
pub open spec fn count_char(s: Seq<char>, c: char) -> nat
    decreases s.len(),
{
    if s.len() == 0 {
        0
    } else {
        count_char(s.drop_last(), c) + if s.last() == c {
            1nat
        } else {
            0nat
        }
    }
}

/// `c` occurs in `s`.
pub open spec fn contains_char(s: Seq<char>, c: char) -> bool {
    exists|k: int| 0 <= k < s.len() && s[k] == c
}

/// The shape of a sentence: its full-width commas, whether it holds a
/// full-width colon, whether it holds an opening parenthesis, and its
/// length in characters divided by fifteen.
pub type Signature = (nat, bool, bool, int);

/// The shape of the sentence `s`.
pub open spec fn signature(s: Seq<char>) -> Signature {
    (
        count_char(s, '，'),
        contains_char(s, '：'),
        contains_char(s, '（') || contains_char(s, '('),
        (s.len() / 15) as int,
    )
}

/// A sentence long enough to be compared: more than ten characters, a
/// full-width comma and an ideograph.
pub open spec fn comparable(s: Seq<char>) -> bool {
    s.len() > 10 && count_char(s, '，') > 0 && has_han(s)
}

/// Where the `n`-th sentence of `p` starts, counting from the sentence at
/// the start: each sentence ends just past its mark.
pub open spec fn nth_sentence(p: Seq<char>, n: nat) -> int
    decreases n,
{
    if n == 0 {
        0
    } else {
        sentence_stop(p, nth_sentence(p, (n - 1) as nat))
    }
}

/// The first character of the sentence that starts at `a`, after white
/// space.
pub open spec fn sentence_first(p: Seq<char>, a: int) -> int {
    skip_white(p, a, sentence_stop(p, a))
}

/// The end of the sentence that starts at `a`, before trailing white space.
pub open spec fn sentence_last(p: Seq<char>, a: int) -> int {
    trim_white_end(p, sentence_first(p, a), sentence_stop(p, a))
}

/// The sentence that starts at `a`, with white space trimmed.
pub open spec fn sentence_text(p: Seq<char>, a: int) -> Seq<char> {
    p.subrange(sentence_first(p, a), sentence_last(p, a))
}

/// The template leads of the trimmed paragraph `p` (which starts at byte
/// `base`) from the sentence at `a` on; `prev` is the shape and start of the
/// previous sentence when it was comparable. Two neighbouring comparable
/// sentences of one shape give a lead from the start of the first to the
/// end of the second.
pub open spec fn sentence_hits(p: Seq<char>, base: int, a: int, prev: Option<(Signature, int)>) -> Seq<
    ZhHit,
>
    decreases p.len() - a,
{
    if a < 0 || a >= p.len() {
        Seq::empty()
    } else {
        let z = sentence_stop(p, a);
        proof {
            lemma_sentence_stop(p, a);
        }
        let st = skip_white(p, a, z);
        let en = trim_white_end(p, st, z);
        let s = p.subrange(st, en);
        if comparable(s) {
            let sig = signature(s);
            (match prev {
                Some(x) => if x.0 == sig {
                    seq![(template_id(), x.1, base + byte_offset(p, en))]
                } else {
                    Seq::empty()
                },
                None => Seq::empty(),
            }) + sentence_hits(p, base, z, Some((sig, base + byte_offset(p, st))))
        } else {
            sentence_hits(p, base, z, None)
        }
    }
}

/// The start of a sentence only grows with its number.
proof fn lemma_nth_sentence(p: Seq<char>, n: nat)
    ensures
        0 <= nth_sentence(p, n),
    decreases n,
{
    if n > 0 {
        lemma_nth_sentence(p, (n - 1) as nat);
        let a = nth_sentence(p, (n - 1) as nat);
        if a < p.len() {
            lemma_sentence_stop(p, a);
        } else {
            assert(sentence_stop(p, a) == p.len());
        }
    }
}

/// A template lead spans exactly two neighbouring sentences of one
/// paragraph: it runs from the first character of the `n`-th sentence to
/// the end of the next one, and both are comparable with one shape.
pub open spec fn neighbour_lead(p: Seq<char>, base: int, h: ZhHit) -> bool {
    exists|n: nat|
        {
            let a = nth_sentence(p, n);
            let b = #[trigger] nth_sentence(p, n + 1);
            &&& b < p.len()
            &&& comparable(sentence_text(p, a))
            &&& comparable(sentence_text(p, b))
            &&& signature(sentence_text(p, a)) == signature(sentence_text(p, b))
            &&& h == (template_id(), base + byte_offset(p, sentence_first(p, a)), base + byte_offset(
                p,
                sentence_last(p, b),
            ))
        }
}

proof fn lemma_sentence_hits_neighbours(
    p: Seq<char>,
    base: int,
    n: nat,
    prev: Option<(Signature, int)>,
    k: int,
)
    requires
        prev matches Some(x) ==> n >= 1 && comparable(sentence_text(p, nth_sentence(p, (n - 1) as nat)))
            && signature(sentence_text(p, nth_sentence(p, (n - 1) as nat))) == x.0 && x.1 == base
            + byte_offset(p, sentence_first(p, nth_sentence(p, (n - 1) as nat))),
        0 <= k < sentence_hits(p, base, nth_sentence(p, n), prev).len(),
    ensures
        neighbour_lead(p, base, sentence_hits(p, base, nth_sentence(p, n), prev)[k]),
    decreases p.len() - nth_sentence(p, n),
{
    lemma_nth_sentence(p, n);
    let a = nth_sentence(p, n);
    if 0 <= a < p.len() {
        let z = sentence_stop(p, a);
        lemma_sentence_stop(p, a);
        assert(nth_sentence(p, n + 1) == z);
        let st = skip_white(p, a, z);
        let en = trim_white_end(p, st, z);
        let sen = p.subrange(st, en);
        assert(sen == sentence_text(p, a));
        if comparable(sen) {
            let sig = signature(sen);
            let head: Seq<ZhHit> = match prev {
                Some(x) => if x.0 == sig {
                    seq![(template_id(), x.1, base + byte_offset(p, en))]
                } else {
                    Seq::empty()
                },
                None => Seq::empty(),
            };
            let rest = sentence_hits(p, base, z, Some((sig, base + byte_offset(p, st))));
            assert(sentence_hits(p, base, a, prev) == head + rest);
            if k < head.len() {
                assert((head + rest)[k] == head[0]);
                let m = (n - 1) as nat;
                assert(m + 1 == n);
                assert(nth_sentence(p, m + 1) == a);
                assert(neighbour_lead(p, base, head[0]));
            } else {
                assert((head + rest)[k] == rest[k - head.len()]);
                lemma_sentence_hits_neighbours(
                    p,
                    base,
                    n + 1,
                    Some((sig, base + byte_offset(p, st))),
                    k - head.len(),
                );
            }
        } else {
            assert(sentence_hits(p, base, a, prev) == sentence_hits(p, base, z, None));
            lemma_sentence_hits_neighbours(p, base, n + 1, None, k);
        }
    }
}

/// Every template lead of a trimmed paragraph spans exactly two
/// neighbouring sentences that are comparable and of one shape: a sentence
/// that cannot be compared ends the comparison.
pub proof fn lemma_template_leads_are_neighbours(p: Seq<char>, base: int, k: int)
    requires
        0 <= k < sentence_hits(p, base, 0, None).len(),
    ensures
        neighbour_lead(p, base, sentence_hits(p, base, 0, None)[k]),
{
    assert(nth_sentence(p, 0) == 0);
    lemma_sentence_hits_neighbours(p, base, 0, None, k);
}

/// A trimmed paragraph that is not prose: empty, a heading, quote, table or
/// list, starting with a digit, or without ideographs.
pub open spec fn not_prose(p: Seq<char>) -> bool {
    ||| p.len() == 0
    ||| p[0] == '#' || p[0] == '>' || p[0] == '|'
    ||| p.len() >= 2 && p[0] == '*' && p[1] == '*'
    ||| p.len() >= 2 && (p[0] == '-' || p[0] == '*' || p[0] == '+') && p[1] == ' '
    ||| 0x30 <= p[0] as u32 <= 0x39
    ||| !has_han(p)
}

/// The start of the trimmed paragraph in `r`.
pub open spec fn trim_start_of(r: Seq<char>) -> int {
    skip_white(r, 0, r.len() as int)
}

/// The end of the trimmed paragraph in `r`.
pub open spec fn trim_end_of(r: Seq<char>) -> int {
    trim_white_end(r, trim_start_of(r), r.len() as int)
}

/// The paragraph `r` with white space trimmed at both ends.
pub open spec fn trimmed(r: Seq<char>) -> Seq<char> {
    r.subrange(trim_start_of(r), trim_end_of(r))
}

/// The zero-subject lead of the trimmed prose paragraph `p`, which starts
/// at byte `base`: when a prose paragraph came before it (`seen`), its first
/// sentence starts with a comment marker and holds no reference word, a lead
/// over that sentence.
pub open spec fn opening_hit(p: Seq<char>, base: int, seen: bool) -> Seq<ZhHit> {
    let fs = first_stop(p, 0);
    let first = p.take(fs);
    if seen && regex_is_match(comment_pattern(), first) && !regex_is_match(
        reference_pattern(),
        first,
    ) {
        seq![(zero_subject_id(), base, base + byte_offset(p, fs))]
    } else {
        Seq::empty()
    }
}

/// The leads of the prose paragraph `r`, which starts at byte `start`;
/// `seen` tells whether a prose paragraph came before it.
pub open spec fn paragraph_hits(r: Seq<char>, start: int, seen: bool) -> Seq<ZhHit> {
    let p = trimmed(r);
    let base = start + byte_offset(r, trim_start_of(r));
    opening_hit(p, base, seen) + sentence_hits(p, base, 0, None)
}

/// The leads of the paragraphs `spans` of the bytes `b` from the `k`-th on.
pub open spec fn paragraphs_hits(b: Seq<u8>, spans: Seq<(usize, usize)>, k: int, seen: bool) -> Seq<
    ZhHit,
>
    decreases spans.len() - k,
{
    if k < 0 || k >= spans.len() {
        Seq::empty()
    } else {
        let r = chars_between(b, spans[k].0 as int, spans[k].1 as int);
        if not_prose(trimmed(r)) {
            paragraphs_hits(b, spans, k + 1, seen)
        } else {
            paragraph_hits(r, spans[k].0 as int, seen) + paragraphs_hits(b, spans, k + 1, true)
        }
    }
}

/// The characters of the `q`-th paragraph.
pub open spec fn paragraph_chars(b: Seq<u8>, spans: Seq<(usize, usize)>, q: int) -> Seq<char> {
    chars_between(b, spans[q].0 as int, spans[q].1 as int)
}

/// The `q`-th paragraph is prose.
pub open spec fn prose_paragraph(b: Seq<u8>, spans: Seq<(usize, usize)>, q: int) -> bool {
    !not_prose(trimmed(paragraph_chars(b, spans, q)))
}

/// A zero-subject lead starts a prose paragraph after an earlier one.
pub open spec fn zero_subject_placed(b: Seq<u8>, spans: Seq<(usize, usize)>, i: int, h: ZhHit) -> bool {
    exists|j: int, q: int|
        0 <= j < q && i <= q < spans.len() && #[trigger] prose_paragraph(b, spans, j) && #[trigger] prose_paragraph(
            b,
            spans,
            q,
        ) && h.1 == spans[q].0 + byte_offset(paragraph_chars(b, spans, q), trim_start_of(paragraph_chars(b, spans, q)))
}

proof fn lemma_zero_subject_from(b: Seq<u8>, spans: Seq<(usize, usize)>, i: int, seen: bool, k: int)
    requires
        0 <= i,
        seen ==> exists|j: int| 0 <= j < i && #[trigger] prose_paragraph(b, spans, j),
        0 <= k < paragraphs_hits(b, spans, i, seen).len(),
        paragraphs_hits(b, spans, i, seen)[k].0 == zero_subject_id(),
    ensures
        zero_subject_placed(b, spans, i, paragraphs_hits(b, spans, i, seen)[k]),
    decreases spans.len() - i,
{
    if i < spans.len() {
        let r = paragraph_chars(b, spans, i);
        if not_prose(trimmed(r)) {
            lemma_zero_subject_from(b, spans, i + 1, seen, k);
        } else {
            let p = trimmed(r);
            let base = spans[i].0 + byte_offset(r, trim_start_of(r));
            let o = opening_hit(p, base, seen);
            let t = sentence_hits(p, base, 0, None);
            let rest = paragraphs_hits(b, spans, i + 1, true);
            assert(paragraphs_hits(b, spans, i, seen) == o + t + rest);
            lemma_lead_ids();
            if k < o.len() {
                assert((o + t + rest)[k] == o[k]);
                let j = choose|j: int| 0 <= j < i && #[trigger] prose_paragraph(b, spans, j);
                assert(prose_paragraph(b, spans, i));
            } else if k < o.len() + t.len() {
                assert((o + t + rest)[k] == t[k - o.len()]);
                lemma_template_leads_are_neighbours(p, base, k - o.len());
                assert(t[k - o.len()].0 == template_id());
            } else {
                assert((o + t + rest)[k] == rest[k - o.len() - t.len()]);
                assert(prose_paragraph(b, spans, i));
                lemma_zero_subject_from(b, spans, i + 1, true, k - o.len() - t.len());
            }
        }
    }
}

/// A zero-subject lead needs an earlier prose paragraph: each one of the
/// prose paragraphs' leads starts, after white space, a prose paragraph
/// that follows another prose paragraph, so the first prose paragraph
/// never gives one.
pub proof fn lemma_zero_subject_needs_earlier_prose(b: Seq<u8>, spans: Seq<(usize, usize)>, k: int)
    requires
        0 <= k < paragraphs_hits(b, spans, 0, false).len(),
        paragraphs_hits(b, spans, 0, false)[k].0 == zero_subject_id(),
    ensures
        zero_subject_placed(b, spans, 0, paragraphs_hits(b, spans, 0, false)[k]),
{
    lemma_zero_subject_from(b, spans, 0, false, k);
}

/// The structural leads of the text with bytes `b`: none unless it holds an
/// ideograph; otherwise the numbered-heading runs line by line, then the
/// leads of each prose paragraph.
pub open spec fn zh_hits(b: Seq<u8>) -> Seq<ZhHit> {
    let t = decode_utf8(b);
    if !has_han(t) {
        Seq::empty()
    } else {
        heading_hits(t, 0, Seq::empty()) + paragraphs_hits(b, paragraphs(b), 0, false)
    }
}

/// The leads as rule ids and byte spans.
pub open spec fn hits_view(v: Seq<(&'static str, usize, usize)>) -> Seq<ZhHit> {
    v.map_values(|h: (&'static str, usize, usize)| (h.0@, h.1 as int, h.2 as int))
}

/// A line ends past its start and within the text.
pub proof fn lemma_line_stop(s: Seq<char>, i: int)
    requires
        0 <= i < s.len(),
    ensures
        i < line_stop(s, i) <= s.len(),
    decreases s.len() - i,
{
    if s[i] != '\n' {
        if i + 1 < s.len() {
            lemma_line_stop(s, i + 1);
        } else {
            assert(line_stop(s, i + 1) == s.len());
        }
    }
}

/// A sentence ends past its start and within the text.
pub proof fn lemma_sentence_stop(s: Seq<char>, i: int)
    requires
        0 <= i < s.len(),
    ensures
        i < sentence_stop(s, i) <= s.len(),
    decreases s.len() - i,
{
    if !sentence_mark(s[i]) {
        if i + 1 < s.len() {
            lemma_sentence_stop(s, i + 1);
        } else {
            assert(sentence_stop(s, i + 1) == s.len());
        }
    }
}

/// Whether `c` is a CJK ideograph.
pub fn is_han(c: char) -> (r: bool)
    ensures
        r == han(c),
{
    let v = c as u32;
    (0x3400 <= v && v <= 0x4dbf) || (0x4e00 <= v && v <= 0x9fff) || (0x20000 <= v && v <= 0x3134f)
}

/// Whether a character from `i` to `j` of `s` is an ideograph.
fn has_han_between(s: &Vec<char>, i: usize, j: usize) -> (r: bool)
    requires
        i <= j <= s@.len(),
    ensures
        r == has_han(s@.subrange(i as int, j as int)),
{
    let mut k = i;
    while k < j
        invariant
            i <= k <= j <= s@.len(),
            forall|q: int| i <= q < k ==> !han(#[trigger] s@[q]),
        decreases j - k,
    {
        if is_han(s[k]) {
            assert(s@.subrange(i as int, j as int)[k - i] == s@[k as int]);
            return true;
        }
        k = k + 1;
    }
    proof {
        assert forall|q: int| 0 <= q < j - i implies !han(#[trigger] s@.subrange(i as int, j as int)[q]) by {
            assert(s@.subrange(i as int, j as int)[q] == s@[i + q]);
        }
    }
    false
}

/// The first index from `i` on, before `e`, whose character is not white
/// space, or `e`.
pub(crate) fn skip_white_exec(s: &Vec<char>, i: usize, e: usize) -> (r: usize)
    requires
        i <= e <= s@.len(),
    ensures
        r == skip_white(s@, i as int, e as int),
        i <= r <= e,
{
    let mut p = i;
    while p < e && is_white_space(s[p] as u32)
        invariant
            i <= p <= e <= s@.len(),
            skip_white(s@, p as int, e as int) == skip_white(s@, i as int, e as int),
        decreases e - p,
    {
        p = p + 1;
    }
    p
}

/// The end `e` moved back over white space, down to `i`.
pub(crate) fn trim_white_end_exec(s: &Vec<char>, i: usize, e: usize) -> (r: usize)
    requires
        i <= e <= s@.len(),
    ensures
        r == trim_white_end(s@, i as int, e as int),
        i <= r <= e,
{
    let mut q = e;
    while q > i && is_white_space(s[q - 1] as u32)
        invariant
            i <= q <= e <= s@.len(),
            trim_white_end(s@, i as int, q as int) == trim_white_end(s@, i as int, e as int),
        decreases q,
    {
        q = q - 1;
    }
    q
}

/// The index just past the line that starts at `i`.
fn line_stop_exec(s: &Vec<char>, i: usize) -> (r: usize)
    requires
        i < s@.len(),
    ensures
        r == line_stop(s@, i as int),
        i < r <= s@.len(),
{
    let mut k = i;
    while k < s.len() && s[k] != '\n'
        invariant
            i <= k <= s@.len(),
            line_stop(s@, k as int) == line_stop(s@, i as int),
        decreases s@.len() - k,
    {
        k = k + 1;
    }
    if k < s.len() {
        k + 1
    } else {
        k
    }
}

/// The index just past the sentence that starts at `i`.
fn sentence_stop_exec(s: &Vec<char>, i: usize) -> (r: usize)
    requires
        i < s@.len(),
    ensures
        r == sentence_stop(s@, i as int),
        i < r <= s@.len(),
{
    let mut k = i;
    while k < s.len() && !(s[k] == '。' || s[k] == '！' || s[k] == '？')
        invariant
            i <= k <= s@.len(),
            sentence_stop(s@, k as int) == sentence_stop(s@, i as int),
        decreases s@.len() - k,
    {
        k = k + 1;
    }
    if k < s.len() {
        k + 1
    } else {
        k
    }
}

/// The index of the first sentence mark or newline of `s`, or its length.
fn first_stop_exec(s: &Vec<char>) -> (r: usize)
    ensures
        r == first_stop(s@, 0),
        r <= s@.len(),
{
    let mut k: usize = 0;
    while k < s.len() && !(s[k] == '。' || s[k] == '！' || s[k] == '？' || s[k] == '\n')
        invariant
            k <= s@.len(),
            first_stop(s@, k as int) == first_stop(s@, 0),
        decreases s@.len() - k,
    {
        k = k + 1;
    }
    k
}

/// The number of occurrences of `c` from `i` to `j` of `s`.
fn count_char_between(s: &Vec<char>, i: usize, j: usize, c: char) -> (r: usize)
    requires
        i <= j <= s@.len(),
    ensures
        r == count_char(s@.subrange(i as int, j as int), c),
{
    let mut n: usize = 0;
    let mut k = i;
    proof {
        assert(s@.subrange(i as int, i as int) =~= Seq::<char>::empty());
    }
    while k < j
        invariant
            i <= k <= j <= s@.len(),
            n <= k - i,
            n == count_char(s@.subrange(i as int, k as int), c),
        decreases j - k,
    {
        proof {
            assert(s@.subrange(i as int, k + 1).drop_last() =~= s@.subrange(i as int, k as int));
        }
        if s[k] == c {
            n = n + 1;
        }
        k = k + 1;
    }
    n
}

/// Whether `c` occurs from `i` to `j` of `s`.
fn contains_between(s: &Vec<char>, i: usize, j: usize, c: char) -> (r: bool)
    requires
        i <= j <= s@.len(),
    ensures
        r == contains_char(s@.subrange(i as int, j as int), c),
{
    let mut k = i;
    while k < j
        invariant
            i <= k <= j <= s@.len(),
            forall|q: int| i <= q < k ==> s@[q] != c,
        decreases j - k,
    {
        if s[k] == c {
            assert(s@.subrange(i as int, j as int)[k - i] == c);
            return true;
        }
        k = k + 1;
    }
    proof {
        assert forall|q: int| 0 <= q < j - i implies s@.subrange(i as int, j as int)[q] != c by {
            assert(s@.subrange(i as int, j as int)[q] == s@[i + q]);
        }
    }
    false
}

/// Whether the line from `i` to `e` is an unnumbered heading.
fn heading_marker_exec(s: &Vec<char>, i: usize, e: usize) -> (r: bool)
    requires
        i <= e <= s@.len(),
    ensures
        r == heading_marker(s@, i as int, e as int),
{
    let p = skip_white_exec(s, i, e);
    p < e && (s[p] == '#' || (p + 1 < e && s[p] == '*' && s[p + 1] == '*'))
}


/// The compiled expressions of the structural scan.
pub struct Patterns {
    heading: Regex,
    comment: Regex,
    reference: Regex,
}

impl Patterns {
    /// Each expression was compiled from its pattern.
    #[verifier::type_invariant]
    closed spec fn wf(self) -> bool {
        &&& regex_source(self.heading) == heading_pattern()
        &&& regex_source(self.comment) == comment_pattern()
        &&& regex_source(self.reference) == reference_pattern()
    }

    /// The patterns of the heading, comment-marker and reference-word
    /// expressions.
    pub closed spec fn sources(&self) -> (Seq<char>, Seq<char>, Seq<char>) {
        (regex_source(self.heading), regex_source(self.comment), regex_source(self.reference))
    }
}

/// The heading, comment-marker and reference-word expressions all compile.
pub open spec fn patterns_build() -> bool {
    regex_builds(heading_pattern()) && regex_builds(comment_pattern()) && regex_builds(
        reference_pattern(),
    )
}

/// Compiles the heading, comment-marker and reference-word expressions;
/// succeeds exactly when all three compile, and otherwise fails with the
/// text of the crate's error for the first that does not.
pub fn patterns() -> (r: Result<Patterns, String>)
    ensures
        r is Ok <==> patterns_build(),
        r matches Ok(p) ==> p.sources() == (heading_pattern(), comment_pattern(), reference_pattern()),
{
    let heading = match build_regex(
        "(?m)^[ \\t]*(?:#{1,6}[ \\t]+|\\*\\*)[ \\t]*(?:第?[一二三四五六七八九十百]+)[、．.][^\\n]+",
    ) {
        Ok(x) => x,
        Err(e) => {
            return Err(e);
        },
    };
    let comment = match build_regex(
        "^(?:听起来|看起来|看上去|听上去|说白了|说到底|换句话说|意味着|值得注意的是|不难看出|问题在于|原因在于|结果是|有意思的是|更重要的是|关键在于|真正的)",
    ) {
        Ok(x) => x,
        Err(e) => {
            return Err(e);
        },
    };
    let reference = match build_regex("这|那|其|此|上面|前面|刚才|以上|该|它|他|她") {
        Ok(x) => x,
        Err(e) => {
            return Err(e);
        },
    };
    Ok(Patterns { heading, comment, reference })
}

/// A lead has one of the three rule ids and a span of the bytes `b` that
/// starts and ends where characters start.
pub open spec fn lead_within(b: Seq<u8>, h: (&'static str, usize, usize)) -> bool {
    &&& h.0@ == heading_id() || h.0@ == zero_subject_id() || h.0@ == template_id()
    &&& h.1 <= h.2 <= b.len()
    &&& h.0@ == template_id() ==> h.1 < h.2
    &&& at_char_start(b, h.1 as int)
    &&& at_char_start(b, h.2 as int)
}

/// The heading and zero-subject ids differ from the template id.
proof fn lemma_lead_ids()
    ensures
        heading_id() != template_id(),
        zero_subject_id() != template_id(),
{
    reveal_strlit("zh.numbered-heading");
    reveal_strlit("zh.zero-subject");
    reveal_strlit("zh.sentence-template");
    assert(heading_id()[3] != template_id()[3]);
    assert(zero_subject_id()[3] != template_id()[3]);
}

/// Every lead of `v` is within `b`.
pub open spec fn leads_within(b: Seq<u8>, v: Seq<(&'static str, usize, usize)>) -> bool {
    forall|k: int| 0 <= k < v.len() ==> lead_within(b, #[trigger] v[k])
}

/// Every span of a run lies in `b` between character starts.
pub open spec fn run_within(b: Seq<u8>, run: Seq<(usize, usize)>) -> bool {
    forall|k: int|
        0 <= k < run.len() ==> {
            let (s, e) = #[trigger] run[k];
            s <= e <= b.len() && at_char_start(b, s as int) && at_char_start(b, e as int)
        }
}

/// The spans of a run, as integers.
pub open spec fn run_view(run: Seq<(usize, usize)>) -> Seq<(int, int)> {
    run.map_values(|x: (usize, usize)| (x.0 as int, x.1 as int))
}

/// Appends the leads of a run of numbered headings and empties the run.
fn flush_run(
    hits: &mut Vec<(&'static str, usize, usize)>,
    run: &mut Vec<(usize, usize)>,
    Ghost(b): Ghost<Seq<u8>>,
)
    requires
        leads_within(b, old(hits)@),
        run_within(b, old(run)@),
    ensures
        hits_view(final(hits)@) == hits_view(old(hits)@) + flush(run_view(old(run)@)),
        final(run)@.len() == 0,
        leads_within(b, final(hits)@),
{
    if run.len() >= 3 {
        let ghost h0 = hits@;
        let mut k: usize = 0;
        while k < run.len()
            invariant
                k <= run@.len(),
                run@.len() >= 3,
                hits_view(hits@) == hits_view(h0) + flush(run_view(run@)).take(k as int),
                leads_within(b, hits@),
                run_within(b, run@),
            decreases run@.len() - k,
        {
            let ghost before = hits@;
            hits.push(("zh.numbered-heading", run[k].0, run[k].1));
            proof {
                lemma_lead_ids();
                assert(lead_within(b, hits@[hits@.len() - 1]));
                assert forall|j: int| 0 <= j < hits@.len() implies lead_within(b, #[trigger] hits@[j]) by {
                    if j < before.len() {
                        assert(hits@[j] == before[j]);
                    }
                }
                assert(hits_view(hits@) =~= hits_view(before).push(
                    ("zh.numbered-heading"@, run@[k as int].0 as int, run@[k as int].1 as int),
                ));
                assert(flush(run_view(run@)).take(k + 1) =~= flush(run_view(run@)).take(
                    k as int,
                ).push(flush(run_view(run@))[k as int]));
            }
            k = k + 1;
        }
        proof {
            assert(flush(run_view(run@)).take(k as int) =~= flush(run_view(run@)));
        }
    } else {
        proof {
            assert(hits_view(hits@) + flush(run_view(run@)) =~= hits_view(hits@));
        }
    }
    *run = Vec::new();
}

/// Appends the numbered-heading leads of `text`, line by line.
fn heading_leads(
    text: &str,
    t: &Vec<char>,
    offs: &Vec<usize>,
    heading: &Regex,
    hits: &mut Vec<(&'static str, usize, usize)>,
)
    requires
        t@ == text@,
        char_table_of(text.spec_bytes(), text@, offs@),
        regex_source(*heading) == heading_pattern(),
        leads_within(text.spec_bytes(), old(hits)@),
    ensures
        hits_view(final(hits)@) == hits_view(old(hits)@) + heading_hits(
            text@,
            0,
            Seq::empty(),
        ),
        leads_within(text.spec_bytes(), final(hits)@),
{
    let ghost b = text.spec_bytes();
    let ghost h0 = hits_view(hits@);
    let mut run: Vec<(usize, usize)> = Vec::new();
    let mut i: usize = 0;
    proof {
        assert(run_view(run@) =~= Seq::<(int, int)>::empty());
    }
    while i < t.len()
        invariant
            i <= t@.len(),
            t@ == text@,
            b == text.spec_bytes(),
            char_table_of(b, text@, offs@),
            regex_source(*heading) == heading_pattern(),
            hits_view(hits@) + heading_hits(t@, i as int, run_view(run@)) == h0 + heading_hits(
                t@,
                0,
                Seq::empty(),
            ),
            leads_within(b, hits@),
            run_within(b, run@),
        decreases t@.len() - i,
    {
        let e = line_stop_exec(t, i);
        proof {
            lemma_table_slice(b, t@, offs@, i as int, e as int);
        }
        let line = substring(text, offs[i], offs[e]);
        let ghost rest = heading_hits(t@, e as int, run_view(run@));
        match find_first(heading, line) {
            Some((a, z)) => {
                let ghost old_run = run@;
                proof {
                    let lb = b.subrange(offs[i as int] as int, offs[e as int] as int);
                    lemma_valid_between(b, offs[i as int] as int, offs[e as int] as int);
                    lemma_boundary_char_start(lb, a as int);
                    lemma_boundary_char_start(lb, z as int);
                    lemma_char_start_shift(b, offs[i as int] as int, offs[e as int] as int, a as int);
                    lemma_char_start_shift(b, offs[i as int] as int, offs[e as int] as int, z as int);
                }
                run.push((offs[i] + a, offs[i] + z));
                proof {
                    assert forall|j: int| 0 <= j < run@.len() implies {
                        let (x, y) = #[trigger] run@[j];
                        x <= y <= b.len() && at_char_start(b, x as int) && at_char_start(b, y as int)
                    } by {
                        if j < old_run.len() {
                            assert(run@[j] == old_run[j]);
                        }
                    }
                    assert(run_view(run@) =~= run_view(old_run).push(
                        (byte_offset(t@, i as int) + a, byte_offset(t@, i as int) + z),
                    ));
                }
            },
            None => {
                if heading_marker_exec(t, i, e) {
                    let ghost hv = hits_view(hits@);
                    let ghost rv = run_view(run@);
                    flush_run(hits, &mut run, Ghost(b));
                    proof {
                        assert(run_view(run@) =~= Seq::<(int, int)>::empty());
                        assert(hits_view(hits@) + heading_hits(t@, e as int, run_view(run@)) =~= hv
                            + (flush(rv) + heading_hits(t@, e as int, Seq::empty())));
                    }
                }
            },
        }
        i = e;
    }
    let ghost hv = hits_view(hits@);
    let ghost rv = run_view(run@);
    flush_run(hits, &mut run, Ghost(b));
    proof {
        assert(heading_hits(t@, i as int, rv) == flush(rv));
    }
}

/// Whether the trimmed paragraph `p` is not prose.
fn not_prose_exec(p: &Vec<char>) -> (r: bool)
    ensures
        r == not_prose(p@),
{
    if p.len() == 0 {
        return true;
    }
    let c = p[0];
    let two = p.len() >= 2;
    proof {
        assert(p@.subrange(0, p@.len() as int) =~= p@);
    }
    c == '#' || c == '>' || c == '|' || (two && c == '*' && p[1] == '*') || (two && (c == '-' || c
        == '*' || c == '+') && p[1] == ' ') || (0x30 <= c as u32 && c as u32 <= 0x39)
        || !has_han_between(p, 0, p.len())
}

/// The template leads and zero-subject lead of one trimmed prose paragraph
/// `para`, which starts at byte `base`.
fn prose_leads(
    para: &str,
    pc: &Vec<char>,
    po: &Vec<usize>,
    base: usize,
    seen: bool,
    patterns: &Patterns,
    hits: &mut Vec<(&'static str, usize, usize)>,
    Ghost(tb): Ghost<Seq<u8>>,
)
    requires
        pc@ == para@,
        char_table_of(para.spec_bytes(), para@, po@),
        base + para.spec_bytes().len() <= usize::MAX,
        base + para.spec_bytes().len() <= tb.len(),
        tb.subrange(base as int, base + para.spec_bytes().len()) == para.spec_bytes(),
        at_char_start(tb, base as int),
        at_char_start(tb, base + para.spec_bytes().len()),
        leads_within(tb, old(hits)@),
    ensures
        hits_view(final(hits)@) == hits_view(old(hits)@) + opening_hit(
            para@,
            base as int,
            seen,
        ) + sentence_hits(para@, base as int, 0, None),
        leads_within(tb, final(hits)@),
{
    proof {
        use_type_invariant(patterns);
    }
    let ghost pb = para.spec_bytes();
    let ghost p = para@;
    let ghost h0 = hits_view(hits@);
    let fs = first_stop_exec(pc);
    proof {
        lemma_table_slice(pb, p, po@, 0, fs as int);
        assert(p.take(0) =~= Seq::<char>::empty());
        assert(p.subrange(0, fs as int) =~= p.take(fs as int));
    }
    if seen {
        let first = substring(para, po[0], po[fs]);
        if matches_somewhere(&patterns.comment, first) && !matches_somewhere(
            &patterns.reference,
            first,
        ) {
            let ghost before = hits@;
            proof {
                lemma_char_start_shift(tb, base as int, base + pb.len(), po@[fs as int] as int);
            }
            hits.push(("zh.zero-subject", base, base + po[fs]));
            proof {
                lemma_lead_ids();
                assert forall|j: int| 0 <= j < hits@.len() implies lead_within(tb, #[trigger] hits@[j]) by {
                    if j < before.len() {
                        assert(hits@[j] == before[j]);
                    }
                }
                assert(hits_view(hits@) =~= h0 + opening_hit(p, base as int, seen));
            }
        } else {
            proof {
                assert(hits_view(hits@) =~= h0 + opening_hit(p, base as int, seen));
            }
        }
    } else {
        proof {
            assert(hits_view(hits@) =~= h0 + opening_hit(p, base as int, seen));
        }
    }
    let ghost h1 = hits_view(hits@);
    let mut a: usize = 0;
    let mut prev: Option<(usize, bool, bool, usize, usize)> = None;
    while a < pc.len()
        invariant
            a <= pc@.len(),
            pc@ == p,
            pb == para.spec_bytes(),
            char_table_of(pb, p, po@),
            base + pb.len() <= usize::MAX,
            hits_view(hits@) + sentence_hits(p, base as int, a as int, prev_view(prev)) == h1
                + sentence_hits(p, base as int, 0, None),
            base + pb.len() <= tb.len(),
            tb.subrange(base as int, base + pb.len()) == pb,
            at_char_start(tb, base + pb.len()),
            leads_within(tb, hits@),
            prev matches Some(x) ==> x.4 < base + po@[a as int] && at_char_start(tb, x.4 as int),
        decreases pc@.len() - a,
    {
        let z = sentence_stop_exec(pc, a);
        let st = skip_white_exec(pc, a, z);
        let en = trim_white_end_exec(pc, st, z);
        proof {
            lemma_table_slice(pb, p, po@, st as int, en as int);
            lemma_table_slice(pb, p, po@, en as int, p.len() as int);
            lemma_table_slice(pb, p, po@, a as int, st as int);
            lemma_table_slice(pb, p, po@, st as int, z as int);
            lemma_char_start_shift(tb, base as int, base + pb.len(), po@[st as int] as int);
            lemma_char_start_shift(tb, base as int, base + pb.len(), po@[en as int] as int);
        }
        let ghost sentence = p.subrange(st as int, en as int);
        let len = en - st;
        let commas = count_char_between(pc, st, en, '，');
        let colon = contains_between(pc, st, en, '：');
        let paren = contains_between(pc, st, en, '（') || contains_between(pc, st, en, '(');
        let bucket = len / 15;
        let ghost sig: Signature = (commas as nat, colon, paren, bucket as int);
        assert(sig == signature(sentence));
        let ghost hv = hits_view(hits@);
        let ghost pv = prev_view(prev);
        if len > 10 && commas > 0 && has_han_between(pc, st, en) {
            assert(comparable(sentence));
            proof {
                if po@[st as int] == po@[en as int] {
                    assert(pb.subrange(po@[st as int] as int, po@[en as int] as int) =~= Seq::<u8>::empty());
                    assert(chars_between(pb, po@[st as int] as int, po@[en as int] as int).len() == 0);
                }
            }
            match prev {
                Some((c0, c1, c2, c3, begin)) => {
                    if c0 == commas && c1 == colon && c2 == paren && c3 == bucket {
                        let ghost before = hits@;
                        hits.push(("zh.sentence-template", begin, base + po[en]));
                        proof {
                            assert forall|j: int| 0 <= j < hits@.len() implies lead_within(
                                tb,
                                #[trigger] hits@[j],
                            ) by {
                                if j < before.len() {
                                    assert(hits@[j] == before[j]);
                                }
                            }
                            assert(hits_view(hits@) =~= hv.push(
                                (template_id(), begin as int, base + byte_offset(p, en as int)),
                            ));
                        }
                    }
                },
                None => {},
            }
            prev = Some((commas, colon, paren, bucket, base + po[st]));
            proof {
                assert(prev_view(prev) == Some((sig, base + byte_offset(p, st as int))));
                assert(hits_view(hits@) + sentence_hits(p, base as int, z as int, prev_view(prev))
                    =~= hv + sentence_hits(p, base as int, a as int, pv));
            }
        } else {
            prev = None;
            proof {
                assert(!comparable(sentence));
            }
        }
        a = z;
    }
    proof {
        assert(sentence_hits(p, base as int, a as int, prev_view(prev)) =~= Seq::<ZhHit>::empty());
        assert(hits_view(hits@) =~= hits_view(old(hits)@) + opening_hit(p, base as int, seen)
            + sentence_hits(p, base as int, 0, None));
    }
}

/// The previous sentence's shape and start, as integers.
pub open spec fn prev_view(prev: Option<(usize, bool, bool, usize, usize)>) -> Option<(Signature, int)> {
    match prev {
        Some(x) => Some(((x.0 as nat, x.1, x.2, x.3 as int), x.4 as int)),
        None => None,
    }
}

/// Appends the leads of the prose paragraphs of `text`.
fn paragraph_leads(text: &str, patterns: &Patterns, hits: &mut Vec<(&'static str, usize, usize)>)
    requires
        leads_within(text.spec_bytes(), old(hits)@),
    ensures
        hits_view(final(hits)@) == hits_view(old(hits)@) + paragraphs_hits(
            text.spec_bytes(),
            paragraphs(text.spec_bytes()),
            0,
            false,
        ),
        leads_within(text.spec_bytes(), final(hits)@),
{
    let ghost b = text.spec_bytes();
    let ghost h0 = hits_view(hits@);
    let spans = paragraph_spans(text);
    let mut seen = false;
    let mut k: usize = 0;
    while k < spans.len()
        invariant
            k <= spans@.len(),
            b == text.spec_bytes(),
            spans@ == paragraphs(b),
            well_formed_spans(b, spans@),
            hits_view(hits@) + paragraphs_hits(b, spans@, k as int, seen) == h0 + paragraphs_hits(
                b,
                spans@,
                0,
                false,
            ),
            leads_within(b, hits@),
        decreases spans@.len() - k,
    {
        let (s, e) = spans[k];
        assert(spans@[k as int] == (s, e));
        let raw = substring(text, s, e);
        let ghost r = raw@;
        let (rc, ro) = char_table(raw);
        let ts = skip_white_exec(&rc, 0, rc.len());
        let te = trim_white_end_exec(&rc, ts, rc.len());
        proof {
            lemma_table_slice(raw.spec_bytes(), r, ro@, ts as int, te as int);
            lemma_table_slice(raw.spec_bytes(), r, ro@, te as int, r.len() as int);
        }
        let para = substring(raw, ro[ts], ro[te]);
        assert(para@ == trimmed(r));
        proof {
            lemma_char_start_shift(b, s as int, e as int, ro@[ts as int] as int);
            lemma_char_start_shift(b, s as int, e as int, ro@[te as int] as int);
            assert(para.spec_bytes() =~= b.subrange(s + ro@[ts as int], s + ro@[te as int]));
        }
        let (pc, po) = char_table(para);
        let ghost hv = hits_view(hits@);
        if !not_prose_exec(&pc) {
            let base = s + ro[ts];
            let ghost was_seen = seen;
            prose_leads(para, &pc, &po, base, seen, patterns, hits, Ghost(b));
            seen = true;
            proof {
                assert(hits_view(hits@) == hv + paragraph_hits(r, s as int, was_seen));
                assert(paragraphs_hits(b, spans@, k as int, was_seen) == paragraph_hits(
                    r,
                    s as int,
                    was_seen,
                ) + paragraphs_hits(b, spans@, k + 1, true));
                assert(hits_view(hits@) + paragraphs_hits(b, spans@, k + 1, seen) =~= hv
                    + paragraphs_hits(b, spans@, k as int, was_seen));
            }
        }
        k = k + 1;
    }
}

/// The structural leads of `text`, as rule ids and byte spans: nothing
/// unless it holds an ideograph; otherwise the runs of numbered headings,
/// then the zero-subject and template leads of each prose paragraph. Each
/// lead has one of the three rule ids and a span of `text` whose ends are
/// character boundaries.
pub fn scan(text: &str, patterns: &Patterns) -> (r: Vec<(&'static str, usize, usize)>)
    ensures
        hits_view(r@) == zh_hits(text.spec_bytes()),
        forall|k: int|
            0 <= k < r@.len() ==> {
                let (id, s, e) = #[trigger] r@[k];
                &&& id@ == heading_id() || id@ == zero_subject_id() || id@ == template_id()
                &&& s <= e <= text.spec_bytes().len()
                &&& id@ == template_id() ==> s < e
                &&& is_char_boundary(text.spec_bytes(), s as int)
                &&& is_char_boundary(text.spec_bytes(), e as int)
            },
{
    proof {
        use_type_invariant(patterns);
        encode_utf8_decode_utf8(text@);
    }
    let (t, offs) = char_table(text);
    let mut hits: Vec<(&'static str, usize, usize)> = Vec::new();
    proof {
        assert(t@.subrange(0, t@.len() as int) =~= t@);
        assert(hits_view(hits@) =~= Seq::<ZhHit>::empty());
    }
    if !has_han_between(&t, 0, t.len()) {
        return hits;
    }
    heading_leads(text, &t, &offs, &patterns.heading, &mut hits);
    paragraph_leads(text, patterns, &mut hits);
    proof {
        assert(hits_view(hits@) =~= zh_hits(text.spec_bytes()));
        assert forall|k: int| 0 <= k < hits@.len() implies {
            let (id, s, e) = #[trigger] hits@[k];
            &&& id@ == heading_id() || id@ == zero_subject_id() || id@ == template_id()
            &&& s <= e <= text.spec_bytes().len()
            &&& id@ == template_id() ==> s < e
            &&& is_char_boundary(text.spec_bytes(), s as int)
            &&& is_char_boundary(text.spec_bytes(), e as int)
        } by {
            assert(lead_within(text.spec_bytes(), hits@[k]));
            lemma_char_start_boundary(text.spec_bytes(), hits@[k].1 as int);
            lemma_char_start_boundary(text.spec_bytes(), hits@[k].2 as int);
        }
    }
    hits
}

} // verus!
