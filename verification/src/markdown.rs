//! Markdown structure: masking of fenced code, inline code and URLs with
//! spaces at unchanged byte offsets, and paragraph spans.
use vstd::prelude::*;
use vstd::utf8::*;
use vstd::string::*;
use crate::text::{
    all_ascii, at_char_start, string_from_utf8, ascii_white_space, bytes_of, is_ascii_white_space,
    is_white_space, lemma_ascii_valid, lemma_next_char_start, lemma_split, scalar_at,
    white_space,
};
use crate::location::lemma_after_ascii;

verus! {

/// The offset just past the line that starts at `i`: after its newline
/// byte, or the end of `b`.
pub open spec fn line_end(b: Seq<u8>, i: int) -> int
    decreases b.len() - i,
{
    if i >= b.len() {
        b.len() as int
    } else if b[i] == 0x0a {
        i + 1
    } else {
        line_end(b, i + 1)
    }
}

/// A first scalar is at least one byte long.
pub proof fn lemma_width_positive(s: Seq<u8>)
    ensures
        1 <= length_of_first_scalar(s) <= 4,
{
}

/// The end of a line lies past its start and within the text.
pub proof fn lemma_line_end(b: Seq<u8>, i: int)
    requires
        0 <= i < b.len(),
    ensures
        i < line_end(b, i) <= b.len(),
    decreases b.len() - i,
{
    if b[i] != 0x0a {
        if i + 1 < b.len() {
            lemma_line_end(b, i + 1);
        } else {
            assert(line_end(b, i + 1) == b.len());
        }
    }
}

/// `code_close` and `white_from` stay within the text and do not move back.
pub proof fn lemma_scan_bounds(m: Seq<u8>, i: int)
    requires
        0 <= i <= m.len(),
    ensures
        i <= code_close(m, i) <= m.len(),
        i <= white_from(m, i) <= m.len(),
        i < m.len() && !ascii_white_space(m[i]) ==> i < white_from(m, i),
    decreases m.len() - i,
{
    if i < m.len() {
        lemma_scan_bounds(m, i + 1);
    }
}

/// The offset reached from `i` by skipping the white-space characters that
/// start before `e`, as `str::trim_start` does.
pub open spec fn trim_start_pos(b: Seq<u8>, i: int, e: int) -> int
    decreases e - i,
{
    let w = length_of_first_scalar(b.subrange(i, b.len() as int));
    if 0 <= i < e && i < b.len() && i + w <= e && white_space(
        decode_first_scalar(b.subrange(i, b.len() as int)),
    ) {
        proof {
            lemma_width_positive(b.subrange(i, b.len() as int));
        }
        trim_start_pos(b, i + w, e)
    } else {
        i
    }
}

/// The bytes from `p` up to `e` begin with three copies of `c`.
pub open spec fn triple_at(b: Seq<u8>, p: int, e: int, c: u8) -> bool {
    p + 3 <= e && b[p] == c && b[p + 1] == c && b[p + 2] == c
}

/// The line from `i` to `e`, with leading white space trimmed, starts a
/// code fence: three backticks or three tildes.
pub open spec fn fence_line(b: Seq<u8>, i: int, e: int) -> bool {
    let p = trim_start_pos(b, i, e);
    triple_at(b, p, e, 0x60) || triple_at(b, p, e, 0x7e)
}

/// `s` with every byte except newlines replaced by a space.
pub open spec fn blank(s: Seq<u8>) -> Seq<u8> {
    s.map_values(|x: u8| if x == 0x0a { x } else { 0x20u8 })
}

/// The bytes of `b` from offset `i` on, after masking every line that is
/// inside a code fence or is itself a fence line; `in_fence` tells whether a
/// fence is open at `i`.
pub open spec fn fenced(b: Seq<u8>, i: int, in_fence: bool) -> Seq<u8>
    decreases b.len() - i,
{
    if i < 0 || i >= b.len() {
        Seq::empty()
    } else {
        let e = line_end(b, i);
        proof {
            lemma_line_end(b, i);
        }
        let f = fence_line(b, i, e);
        let line = b.subrange(i, e);
        (if in_fence || f {
            blank(line)
        } else {
            line
        }) + fenced(b, e, in_fence != f)
    }
}

/// `m` with the bytes from `i` to `j` replaced by spaces.
pub open spec fn fill(m: Seq<u8>, i: int, j: int) -> Seq<u8> {
    Seq::new(m.len(), |k: int| if i <= k < j { 0x20u8 } else { m[k] })
}

/// The first offset from `i` holding a backtick or a newline, or the end.
pub open spec fn code_close(m: Seq<u8>, i: int) -> int
    decreases m.len() - i,
{
    if i >= m.len() {
        m.len() as int
    } else if m[i] == 0x60 || m[i] == 0x0a {
        i
    } else {
        code_close(m, i + 1)
    }
}

/// The first offset from `i` holding ASCII white space, or the end.
pub open spec fn white_from(m: Seq<u8>, i: int) -> int
    decreases m.len() - i,
{
    if i >= m.len() {
        m.len() as int
    } else if ascii_white_space(m[i]) {
        i
    } else {
        white_from(m, i + 1)
    }
}

/// The bytes of `src` from offset `i` begin with `pat`.
pub open spec fn bytes_start_with(src: Seq<u8>, i: int, pat: Seq<u8>) -> bool {
    0 <= i && i + pat.len() <= src.len() && src.subrange(i, i + pat.len()) == pat
}

/// The bytes `http://`.
pub open spec fn http_prefix() -> Seq<u8> {
    seq![0x68u8, 0x74, 0x74, 0x70, 0x3a, 0x2f, 0x2f]
}

/// The bytes `https://`.
pub open spec fn https_prefix() -> Seq<u8> {
    seq![0x68u8, 0x74, 0x74, 0x70, 0x73, 0x3a, 0x2f, 0x2f]
}

/// A URL starts at offset `i` of the source.
pub open spec fn url_at(src: Seq<u8>, i: int) -> bool {
    bytes_start_with(src, i, http_prefix()) || bytes_start_with(src, i, https_prefix())
}

/// The result of masking, from offset `i` on, the inline code spans (a
/// backtick up to the next backtick on the same line) and the URLs (up to
/// the next ASCII white space) of the partly masked bytes `m` of `src`.
pub open spec fn inline_masked(m: Seq<u8>, src: Seq<u8>, i: int) -> Seq<u8>
    decreases m.len() - i,
{
    if i < 0 || i >= m.len() {
        m
    } else if m[i] == 0x60 {
        let j = code_close(m, i + 1);
        proof {
            lemma_scan_bounds(m, i + 1);
        }
        if j < m.len() && m[j] == 0x60 {
            inline_masked(fill(m, i, j + 1), src, j + 1)
        } else {
            inline_masked(m, src, j)
        }
    } else if !ascii_white_space(m[i]) && url_at(src, i) {
        proof {
            lemma_scan_bounds(m, i);
        }
        inline_masked(fill(m, i, white_from(m, i)), src, white_from(m, i))
    } else {
        inline_masked(m, src, i + 1)
    }
}

/// The bytes of `b` with fenced code, inline code and URLs masked.
pub open spec fn masked_bytes(b: Seq<u8>) -> Seq<u8> {
    inline_masked(fenced(b, 0, false), b, 0)
}

/// `m` agrees with `b` except where it holds a space, and holds a newline
/// exactly where `b` does.
pub open spec fn masks(m: Seq<u8>, b: Seq<u8>) -> bool {
    &&& m.len() == b.len()
    &&& forall|k: int| 0 <= k < b.len() ==> #[trigger] m[k] == b[k] || m[k] == 0x20
    &&& forall|k: int| 0 <= k < b.len() ==> (#[trigger] b[k] == 0x0a <==> m[k] == 0x0a)
}

/// Replacing the bytes between two character starts by spaces keeps UTF-8
/// valid.
proof fn lemma_fill_valid(m: Seq<u8>, i: int, j: int)
    requires
        valid_utf8(m),
        at_char_start(m, i),
        at_char_start(m, j),
        i <= j,
    ensures
        valid_utf8(fill(m, i, j)),
{
    lemma_split(m, i);
    let rest = m.subrange(i, m.len() as int);
    assert(at_char_start(rest, j - i));
    lemma_split(rest, j - i);
    let spaces = Seq::new((j - i) as nat, |k: int| 0x20u8);
    assert(all_ascii(spaces));
    lemma_ascii_valid(spaces);
    let tail = rest.subrange(j - i, rest.len() as int);
    valid_utf8_concat(spaces, tail);
    valid_utf8_concat(m.subrange(0, i), spaces + tail);
    assert(fill(m, i, j) =~= m.subrange(0, i) + (spaces + tail));
}

/// The offset just past a newline, or 0, starts a character.
proof fn lemma_line_start(b: Seq<u8>, i: int)
    requires
        valid_utf8(b),
        0 <= i <= b.len(),
        i == 0 || i == b.len() || b[i - 1] == 0x0a,
    ensures
        at_char_start(b, i),
{
    if i == b.len() {
    } else if i == 0 {
        if b.len() > 0 {
            assert(valid_first_scalar(b));
        }
    } else {
        lemma_after_ascii(b, i - 1);
    }
}

/// The offset just past the line that starts at byte `i`.
fn line_end_exec(b: &[u8], i: usize) -> (e: usize)
    requires
        i < b@.len(),
    ensures
        e == line_end(b@, i as int),
        i < e <= b@.len(),
        e == b@.len() || b@[e - 1] == 0x0a,
        forall|k: int| i <= k < e - 1 ==> b@[k] != 0x0a,
{
    let mut j = i;
    while j < b.len() && b[j] != 0x0a
        invariant
            i <= j <= b@.len(),
            line_end(b@, i as int) == line_end(b@, j as int),
            forall|k: int| i <= k < j ==> b@[k] != 0x0a,
        decreases b@.len() - j,
    {
        j = j + 1;
    }
    if j < b.len() {
        j + 1
    } else {
        j
    }
}

/// The offset reached from `i` by skipping the white-space characters that
/// start before `e`.
pub fn skip_white_space(b: &[u8], i: usize, e: usize) -> (p: usize)
    requires
        valid_utf8(b@),
        at_char_start(b@, i as int),
        at_char_start(b@, e as int),
        i <= e,
    ensures
        p == trim_start_pos(b@, i as int, e as int),
        i <= p <= e,
        at_char_start(b@, p as int),
{
    let mut p = i;
    while p < e
        invariant
            i <= p <= e <= b@.len(),
            valid_utf8(b@),
            at_char_start(b@, p as int),
            at_char_start(b@, e as int),
            trim_start_pos(b@, p as int, e as int) == trim_start_pos(b@, i as int, e as int),
        ensures
            i <= p <= e,
            at_char_start(b@, p as int),
            trim_start_pos(b@, p as int, e as int) == p,
            trim_start_pos(b@, p as int, e as int) == trim_start_pos(b@, i as int, e as int),
        decreases e - p,
    {
        let (c, w) = scalar_at(b, p);
        if !is_white_space(c) {
            break;
        }
        proof {
            if p + w > e {
                lemma_next_char_start(b@, p as int);
                let rest = b@.subrange(p as int, b@.len() as int);
                assert(rest[e - p] == b@[e as int]);
            }
        }
        p = p + w;
    }
    p
}

/// Whether the line from `i` to `e`, trimmed at its start, opens or closes a
/// code fence.
fn is_fence_line(b: &[u8], i: usize, e: usize) -> (r: bool)
    requires
        valid_utf8(b@),
        at_char_start(b@, i as int),
        at_char_start(b@, e as int),
        i <= e,
    ensures
        r == fence_line(b@, i as int, e as int),
{
    let p = skip_white_space(b, i, e);
    if e >= 3 && p <= e - 3 {
        (b[p] == 0x60 && b[p + 1] == 0x60 && b[p + 2] == 0x60) || (b[p] == 0x7e && b[p + 1]
            == 0x7e && b[p + 2] == 0x7e)
    } else {
        false
    }
}

/// The masking of `source`: the bytes of fenced code blocks (fence lines
/// included), of inline code spans and of `http://` or `https://` URLs are
/// replaced by spaces. Byte offsets, newlines and all other bytes stay as
/// they are.
pub fn mask_markdown(source: &str) -> (r: String)
    ensures
        bytes_of(r@) == masked_bytes(source.spec_bytes()),
        masks(bytes_of(r@), source.spec_bytes()),
{
    let b = source.as_bytes();
    let ghost sb = source.spec_bytes();
    proof {
        encode_utf8_valid_utf8(source@);
    }
    let mut masked: Vec<u8> = source.as_bytes_vec();
    let mut in_fence = false;
    let mut offset: usize = 0;
    proof {
        assert(masked@.subrange(0, 0) + fenced(sb, 0, false) =~= fenced(sb, 0, false));
        assert(masked@.subrange(0, masked@.len() as int) =~= masked@);
    }
    while offset < b.len()
        invariant
            b@ == sb,
            valid_utf8(sb),
            masked@.len() == sb.len(),
            offset <= sb.len(),
            offset == 0 || offset == sb.len() || sb[offset - 1] == 0x0a,
            masked@.subrange(0, offset as int) + fenced(sb, offset as int, in_fence)
                == fenced(sb, 0, false),
            masked@.subrange(offset as int, sb.len() as int) == sb.subrange(
                offset as int,
                sb.len() as int,
            ),
            valid_utf8(masked@),
            masks(masked@, sb),
        decreases sb.len() - offset,
    {
        let e = line_end_exec(b, offset);
        proof {
            lemma_line_start(sb, offset as int);
            lemma_line_start(sb, e as int);
        }
        let fence = is_fence_line(b, offset, e);
        let ghost before = masked@;
        if in_fence || fence {
            let stop = if b[e - 1] == 0x0a {
                e - 1
            } else {
                e
            };
            let mut k = offset;
            while k < stop
                invariant
                    offset <= k <= stop <= e <= sb.len(),
                    masked@.len() == sb.len(),
                    forall|x: int| 0 <= x < offset ==> masked@[x] == before[x],
                    forall|x: int| stop <= x < sb.len() ==> masked@[x] == before[x],
                    forall|x: int| offset <= x < k ==> masked@[x] == 0x20,
                    forall|x: int| k <= x < stop ==> masked@[x] == before[x],
                decreases stop - k,
            {
                masked.set(k, 0x20);
                k = k + 1;
            }
            proof {
                assert(masked@ =~= fill(before, offset as int, stop as int));
                assert(at_char_start(before, offset as int)) by {
                    lemma_line_start(before, offset as int);
                }
                assert(at_char_start(before, stop as int)) by {
                    if stop < e {
                        assert(before[stop as int] == sb[stop as int]);
                    } else {
                        lemma_line_start(before, e as int);
                    }
                }
                lemma_fill_valid(before, offset as int, stop as int);
                assert(masked@.subrange(offset as int, e as int) =~= blank(
                    sb.subrange(offset as int, e as int),
                )) by {
                    assert forall|x: int| offset <= x < e implies sb[x] != 0x0a || x == e - 1 by {}
                }
            }
        } else {
            proof {
                assert(masked@.subrange(offset as int, e as int) =~= sb.subrange(
                    offset as int,
                    e as int,
                ));
            }
        }
        proof {
            let line = sb.subrange(offset as int, e as int);
            assert(fenced(sb, offset as int, in_fence) == (if in_fence || fence {
                blank(line)
            } else {
                line
            }) + fenced(sb, e as int, in_fence != fence));
            assert(masked@.subrange(0, e as int) =~= masked@.subrange(0, offset as int)
                + masked@.subrange(offset as int, e as int));
            assert(masked@.subrange(0, offset as int) =~= before.subrange(0, offset as int));
            assert forall|x: int| e <= x < sb.len() implies masked@[x] == sb[x] by {
                assert(before.subrange(offset as int, sb.len() as int)[x - offset] == before[x]);
            }
            assert(masked@.subrange(e as int, sb.len() as int) =~= sb.subrange(
                e as int,
                sb.len() as int,
            ));
        }
        if fence {
            in_fence = !in_fence;
        }
        offset = e;
    }
    proof {
        assert(fenced(sb, offset as int, in_fence) =~= Seq::<u8>::empty());
        assert(masked@.subrange(0, offset as int) =~= masked@);
    }
    let ghost phase_one = masked@;
    let mut index: usize = 0;
    while index < masked.len()
        invariant
            b@ == sb,
            valid_utf8(masked@),
            masks(masked@, sb),
            index <= masked@.len(),
            inline_masked(masked@, sb, index as int) == inline_masked(phase_one, sb, 0),
        decreases masked@.len() - index,
    {
        let ghost cur = masked@;
        if masked[index] == 0x60 {
            let start = index;
            index = index + 1;
            while index < masked.len() && masked[index] != 0x60 && masked[index] != 0x0a
                invariant
                    start < index <= masked@.len(),
                    masked@ == cur,
                    code_close(cur, start + 1) == code_close(cur, index as int),
                    forall|x: int| start < x < index ==> cur[x] != 0x60 && cur[x] != 0x0a,
                decreases masked@.len() - index,
            {
                index = index + 1;
            }
            if index < masked.len() && masked[index] == 0x60 {
                index = index + 1;
                let mut k = start;
                while k < index
                    invariant
                        start <= k <= index <= cur.len(),
                        masked@.len() == cur.len(),
                        forall|x: int| 0 <= x < cur.len() && !(start <= x < k) ==> masked@[x] == cur[x],
                        forall|x: int| start <= x < k ==> masked@[x] == 0x20,
                    decreases index - k,
                {
                    masked.set(k, 0x20);
                    k = k + 1;
                }
                proof {
                    assert(masked@ =~= fill(cur, start as int, index as int));
                    assert(at_char_start(cur, start as int));
                    lemma_after_ascii(cur, index - 1);
                    lemma_fill_valid(cur, start as int, index as int);
                }
            }
            continue;
        }
        if !is_ascii_white_space(masked[index]) && (starts_with_at(b, index, &[0x68, 0x74, 0x74,
            0x70, 0x3a, 0x2f, 0x2f]) || starts_with_at(b, index, &[0x68, 0x74, 0x74, 0x70, 0x73,
            0x3a, 0x2f, 0x2f])) {
            proof {
                assert(url_at(sb, index as int));
                assert(sb[index as int] == 0x68) by {
                    let pat = if bytes_start_with(sb, index as int, http_prefix()) {
                        http_prefix()
                    } else {
                        https_prefix()
                    };
                    assert(sb.subrange(index as int, index + pat.len())[0] == sb[index as int]);
                }
            }
            let start = index;
            while index < masked.len() && !is_ascii_white_space(masked[index])
                invariant
                    start <= index <= masked@.len(),
                    masked@ == cur,
                    white_from(cur, start as int) == white_from(cur, index as int),
                    forall|x: int| start <= x < index ==> !ascii_white_space(#[trigger] cur[x]),
                decreases masked@.len() - index,
            {
                index = index + 1;
            }
            let mut k = start;
            while k < index
                invariant
                    start <= k <= index <= cur.len(),
                    masked@.len() == cur.len(),
                    forall|x: int| 0 <= x < cur.len() && !(start <= x < k) ==> masked@[x] == cur[x],
                    forall|x: int| start <= x < k ==> masked@[x] == 0x20,
                    forall|x: int| start <= x < index ==> !ascii_white_space(#[trigger] cur[x]),
                decreases index - k,
            {
                masked.set(k, 0x20);
                k = k + 1;
            }
            proof {
                assert(masked@ =~= fill(cur, start as int, index as int));
                assert(cur[start as int] == 0x68);
                assert(at_char_start(cur, start as int));
                if index < cur.len() {
                    assert(ascii_white_space(cur[index as int]));
                }
                assert(at_char_start(cur, index as int));
                lemma_fill_valid(cur, start as int, index as int);
            }
            continue;
        }
        index = index + 1;
    }
    proof {
        decode_utf8_encode_utf8(masked@);
    }
    let ghost final_bytes = masked@;
    match string_from_utf8(masked) {
        Some(s) => s,
        None => String::new(),
    }
}


/// The first offset from `i` whose byte is not a space, tab or carriage
/// return, or the end.
pub open spec fn gap_end(b: Seq<u8>, i: int) -> int
    decreases b.len() - i,
{
    if 0 <= i < b.len() && (b[i] == 0x20 || b[i] == 0x09 || b[i] == 0x0d) {
        gap_end(b, i + 1)
    } else {
        i
    }
}

/// The bytes from `s` to `e` encode only white space (`str::trim` leaves
/// nothing of them).
pub open spec fn blank_between(b: Seq<u8>, s: int, e: int) -> bool {
    trim_start_pos(b, s, e) == e
}

/// A newline at `index` starts a paragraph break: it is followed, after
/// spaces, tabs and carriage returns, by another newline.
pub open spec fn break_at(b: Seq<u8>, index: int) -> bool {
    0 <= index < b.len() && b[index] == 0x0a && gap_end(b, index + 1) < b.len() && b[gap_end(
        b,
        index + 1,
    )] == 0x0a
}

/// The paragraphs of `b`, scanning from `index` with the current paragraph
/// starting at `start`: spans between paragraph breaks that are not blank.
pub open spec fn paragraphs_from(b: Seq<u8>, start: int, index: int) -> Seq<(usize, usize)>
    decreases b.len() - index,
{
    if index < 0 || index >= b.len() {
        if 0 <= start < b.len() && !blank_between(b, start, b.len() as int) {
            seq![(start as usize, b.len() as usize)]
        } else {
            Seq::empty()
        }
    } else if break_at(b, index) {
        let next = gap_end(b, index + 1);
        proof {
            lemma_gap_end(b, index + 1);
        }
        (if !blank_between(b, start, index) {
            seq![(start as usize, index as usize)]
        } else {
            Seq::<(usize, usize)>::empty()
        }) + paragraphs_from(b, next + 1, next + 1)
    } else {
        paragraphs_from(b, start, index + 1)
    }
}

/// The paragraphs of `b`.
pub open spec fn paragraphs(b: Seq<u8>) -> Seq<(usize, usize)> {
    paragraphs_from(b, 0, 0)
}

/// `gap_end` does not move back and stays within the text.
pub proof fn lemma_gap_end(b: Seq<u8>, i: int)
    requires
        0 <= i,
    ensures
        i <= gap_end(b, i),
        i <= b.len() ==> gap_end(b, i) <= b.len(),
        forall|k: int| i <= k < gap_end(b, i) ==> (b[k] == 0x20 || b[k] == 0x09 || b[k] == 0x0d),
    decreases b.len() - i,
{
    if 0 <= i < b.len() && (b[i] == 0x20 || b[i] == 0x09 || b[i] == 0x0d) {
        lemma_gap_end(b, i + 1);
    }
}

/// The spans in `ps` lie in order within `b`, start and end at character
/// starts, and are not blank.
pub open spec fn well_formed_spans(b: Seq<u8>, ps: Seq<(usize, usize)>) -> bool {
    &&& forall|k: int|
        0 <= k < ps.len() ==> {
            let (s, e) = #[trigger] ps[k];
            &&& s < e <= b.len()
            &&& at_char_start(b, s as int)
            &&& at_char_start(b, e as int)
            &&& !blank_between(b, s as int, e as int)
        }
    &&& forall|k: int, l: int| 0 <= k < l < ps.len() ==> #[trigger] ps[k].1 < #[trigger] ps[l].0
}

/// Whether the bytes from `s` to `e` of `b` encode only white space.
fn is_blank_between(b: &[u8], s: usize, e: usize) -> (r: bool)
    requires
        valid_utf8(b@),
        at_char_start(b@, s as int),
        at_char_start(b@, e as int),
        s <= e,
    ensures
        r == blank_between(b@, s as int, e as int),
{
    skip_white_space(b, s, e) == e
}

/// The spans of the paragraphs of `text`: maximal runs between lines that
/// hold only spaces, tabs and carriage returns, leaving out blank runs. No
/// paragraph holds such a break, and all text outside the paragraphs is
/// white space.
#[verifier::rlimit(40)]
pub fn paragraph_spans(text: &str) -> (r: Vec<(usize, usize)>)
    ensures
        r@ == paragraphs(text.spec_bytes()),
        well_formed_spans(text.spec_bytes(), r@),
        forall|k: int, i: int|
            0 <= k < r@.len() && (#[trigger] r@[k]).0 <= i < r@[k].1 ==> !#[trigger] break_at(
                text.spec_bytes(),
                i,
            ),
        gaps_blank(text.spec_bytes(), r@, text.spec_bytes().len() as int),
{
    let b = text.as_bytes();
    let ghost sb = text.spec_bytes();
    proof {
        encode_utf8_valid_utf8(text@);
    }
    let mut spans: Vec<(usize, usize)> = Vec::new();
    let mut start: usize = 0;
    let mut index: usize = 0;
    proof {
        lemma_line_start(sb, 0);
    }
    while index < b.len()
        invariant
            b@ == sb,
            valid_utf8(sb),
            start <= index <= sb.len(),
            at_char_start(sb, start as int),
            spans@ + paragraphs_from(sb, start as int, index as int) == paragraphs(sb),
            well_formed_spans(sb, spans@),
            forall|k: int| 0 <= k < spans@.len() ==> #[trigger] spans@[k].1 < start,
            forall|k: int, i: int|
                0 <= k < spans@.len() && (#[trigger] spans@[k]).0 <= i < spans@[k].1 ==> !#[trigger] break_at(sb, i),
            forall|i: int| start <= i < index ==> !#[trigger] break_at(sb, i),
            gaps_blank(sb, spans@, start as int),
        decreases sb.len() - index,
    {
        if b[index] == 0x0a {
            let mut next = index + 1;
            while next < b.len() && (b[next] == 0x20 || b[next] == 0x09 || b[next] == 0x0d)
                invariant
                    index < next <= sb.len(),
                    b@ == sb,
                    gap_end(sb, index + 1) == gap_end(sb, next as int),
                decreases sb.len() - next,
            {
                next = next + 1;
            }
            if next < b.len() && b[next] == 0x0a {
                proof {
                    assert(break_at(sb, index as int));
                    lemma_after_ascii(sb, index as int);
                    lemma_after_ascii(sb, next as int);
                    lemma_gap_end(sb, index + 1);
                }
                let ghost old_spans = spans@;
                proof {
                    lemma_ascii_run_blank(sb, index as int, next + 1);
                }
                if !is_blank_between(b, start, index) {
                    proof {
                        lemma_blank_empty(sb, start as int);
                    }
                    spans.push((start, index));
                    proof {
                        assert(spans@ == old_spans + seq![(start, index)]);
                        lemma_gaps_push(sb, old_spans, start, index, next + 1);
                    }
                } else {
                    proof {
                        let le: int = if old_spans.len() == 0 { 0 } else { old_spans.last().1 as int };
                        if old_spans.len() > 0 {
                            assert(old_spans[old_spans.len() - 1].1 < start);
                        }
                        lemma_blank_concat(sb, le, start as int, index as int);
                        lemma_blank_concat(sb, le, index as int, next + 1);
                    }
                }
                proof {
                    assert(spans@ + paragraphs_from(sb, next + 1, next + 1) =~= old_spans
                        + paragraphs_from(sb, start as int, index as int));
                }
                start = next + 1;
                index = start;
                continue;
            }
            proof {
                lemma_gap_end(sb, index + 1);
                assert(!break_at(sb, index as int));
            }
        }
        index = index + 1;
    }
    let ghost old_spans = spans@;
    if start < b.len() && !is_blank_between(b, start, b.len()) {
        proof {
            lemma_line_start(sb, sb.len() as int);
        }
        proof {
            assert(trim_start_pos(sb, sb.len() as int, sb.len() as int) == sb.len());
            lemma_gaps_push(sb, old_spans, start, b@.len() as usize, sb.len() as int);
        }
        spans.push((start, b.len()));
    } else {
        proof {
            let le: int = if old_spans.len() == 0 { 0 } else { old_spans.last().1 as int };
            if old_spans.len() > 0 {
                assert(old_spans[old_spans.len() - 1].1 < start);
            }
            if start < sb.len() {
                lemma_blank_concat(sb, le, start as int, sb.len() as int);
            } else {
                assert(trim_start_pos(sb, start as int, sb.len() as int) == start);
            }
        }
    }
    proof {
        assert(spans@ =~= paragraphs(sb));
    }
    spans
}

/// The line that starts at `s`, after its leading white space, begins with
/// three copies of the byte `c`.
pub open spec fn line_opens_with(b: Seq<u8>, s: int, c: u8) -> bool {
    let e = line_end(b, s);
    let p = trim_start_pos(b, s, e);
    p + 3 <= e && b[p] == c && b[p + 1] == c && b[p + 2] == c
}

/// The line that starts at `s` is a fence marker: three backticks or three
/// tildes after its leading white space.
pub open spec fn marker_line(b: Seq<u8>, s: int) -> bool {
    line_opens_with(b, s, 0x60) || line_opens_with(b, s, 0x7e)
}

/// The number of fence-marker lines among the lines that start from `i`
/// (a line start) up to, not including, `s`.
pub open spec fn markers_between(b: Seq<u8>, i: int, s: int) -> nat
    decreases b.len() - i,
{
    if i < 0 || i >= s || i >= b.len() {
        0
    } else {
        proof {
            lemma_line_end(b, i);
        }
        (if marker_line(b, i) {
            1nat
        } else {
            0nat
        }) + markers_between(b, line_end(b, i), s)
    }
}

/// A line ends no later than just past any newline at or after its start.
proof fn lemma_line_end_before(b: Seq<u8>, i: int, j: int)
    requires
        0 <= i <= j < b.len(),
        b[j] == 0x0a,
    ensures
        line_end(b, i) <= j + 1,
    decreases j - i,
{
    if b[i] != 0x0a {
        lemma_line_end_before(b, i + 1, j);
    }
}

/// Masking the fences keeps the length.
proof fn lemma_fenced_len(b: Seq<u8>, i: int, f: bool)
    requires
        0 <= i <= b.len(),
    ensures
        fenced(b, i, f).len() == b.len() - i,
    decreases b.len() - i,
{
    if i < b.len() {
        lemma_line_end(b, i);
        let e = line_end(b, i);
        lemma_fenced_len(b, e, f != fence_line(b, i, e));
    }
}

/// Filling inline code and URLs keeps the length and every space.
proof fn lemma_inline_keeps_spaces(m: Seq<u8>, src: Seq<u8>, i: int)
    ensures
        inline_masked(m, src, i).len() == m.len(),
        forall|j: int| 0 <= j < m.len() && m[j] == 0x20 ==> #[trigger] inline_masked(m, src, i)[j] == 0x20,
    decreases m.len() - i,
{
    if 0 <= i < m.len() {
        if m[i] == 0x60 {
            let j = code_close(m, i + 1);
            lemma_scan_bounds(m, i + 1);
            if j < m.len() && m[j] == 0x60 {
                lemma_inline_keeps_spaces(fill(m, i, j + 1), src, j + 1);
            } else {
                lemma_inline_keeps_spaces(m, src, j);
            }
        } else if !ascii_white_space(m[i]) && url_at(src, i) {
            lemma_scan_bounds(m, i);
            lemma_inline_keeps_spaces(fill(m, i, white_from(m, i)), src, white_from(m, i));
        } else {
            lemma_inline_keeps_spaces(m, src, i + 1);
        }
    }
}

/// From the line at `i`, with a fence open there exactly when `f`, a
/// non-newline byte at `k` of the line at `s` is blanked when that line is
/// a marker or the fence is open there.
proof fn lemma_fenced_blanks(b: Seq<u8>, i: int, f: bool, s: int, k: int)
    requires
        0 <= i <= s <= k < b.len(),
        s == 0 || b[s - 1] == 0x0a,
        k < line_end(b, s),
        b[k] != 0x0a,
        marker_line(b, s) || (f != (markers_between(b, i, s) % 2 == 1)),
    ensures
        fenced(b, i, f)[k - i] == 0x20,
    decreases b.len() - i,
{
    lemma_line_end(b, i);
    let e = line_end(b, i);
    let fl = fence_line(b, i, e);
    assert(fl == marker_line(b, i));
    let line = b.subrange(i, e);
    let head = if f || fl {
        blank(line)
    } else {
        line
    };
    let rest = fenced(b, e, f != fl);
    assert(fenced(b, i, f) == head + rest);
    if i == s {
        assert(markers_between(b, i, s) == 0);
        assert(head == blank(line));
        assert(line[k - i] == b[k]);
        assert((head + rest)[k - i] == head[k - i]);
    } else {
        lemma_line_end_before(b, i, s - 1);
        assert(e <= s);
        assert(markers_between(b, i, s) == (if fl {
            1nat
        } else {
            0nat
        }) + markers_between(b, e, s));
        lemma_fenced_blanks(b, e, f != fl, s, k);
        lemma_fenced_len(b, e, f != fl);
        assert(head.len() == e - i);
        assert((head + rest)[k - i] == rest[k - e]);
    }
}

/// Fenced code is masked, whether the fence is made of backticks or of
/// tildes: every byte other than a newline of a line that, after leading
/// white space, begins with three backticks or three tildes, and of every
/// line after an odd number of such lines, is a space in the masking.
pub proof fn lemma_fenced_code_masked(b: Seq<u8>, s: int, k: int)
    requires
        0 <= s <= k < b.len(),
        s == 0 || b[s - 1] == 0x0a,
        k < line_end(b, s),
        b[k] != 0x0a,
        marker_line(b, s) || markers_between(b, 0, s) % 2 == 1,
    ensures
        masked_bytes(b)[k] == 0x20,
{
    lemma_fenced_blanks(b, 0, false, s, k);
    lemma_fenced_len(b, 0, false);
    lemma_inline_keeps_spaces(fenced(b, 0, false), b, 0);
}

/// A newline lies strictly between `p` and `q` in `m`.
pub open spec fn newline_between(m: Seq<u8>, p: int, q: int) -> bool {
    exists|r: int| p < r < q && #[trigger] m[r] == 0x0a
}

/// Before `i`, no two backticks of `m` share a line.
pub open spec fn backticks_apart(m: Seq<u8>, i: int) -> bool {
    forall|p: int, q: int|
        0 <= p < q < i && #[trigger] m[p] == 0x60 && #[trigger] m[q] == 0x60 ==> newline_between(m, p, q)
}

/// Every backtick before `i` is followed by a newline before `i`, or `i`
/// ends the line.
pub open spec fn backticks_closed(m: Seq<u8>, i: int) -> bool {
    forall|p: int|
        0 <= p < i && #[trigger] m[p] == 0x60 ==> newline_between(m, p, i) || i >= m.len() || m[i] == 0x0a
}

proof fn lemma_inline_apart(m: Seq<u8>, src: Seq<u8>, i: int)
    requires
        0 <= i <= m.len(),
        backticks_apart(m, i),
        backticks_closed(m, i),
    ensures
        backticks_apart(inline_masked(m, src, i), m.len() as int),
    decreases m.len() - i,
{
    if i < m.len() {
        if m[i] == 0x60 {
            let j = code_close(m, i + 1);
            lemma_scan_bounds(m, i + 1);
            lemma_code_close(m, i + 1);
            if j < m.len() && m[j] == 0x60 {
                let f = fill(m, i, j + 1);
                assert forall|p: int, q: int|
                    0 <= p < q < j + 1 && #[trigger] f[p] == 0x60 && #[trigger] f[q] == 0x60 implies newline_between(f, p, q) by {
                    assert(f[p] == m[p] && f[q] == m[q]);
                    let r = choose|r: int| p < r < q && #[trigger] m[r] == 0x0a;
                    assert(f[r] == m[r]);
                }
                assert forall|p: int| 0 <= p < j + 1 && #[trigger] f[p] == 0x60 implies newline_between(
                    f,
                    p,
                    j + 1,
                ) || j + 1 >= f.len() || f[j + 1] == 0x0a by {
                    assert(f[p] == m[p]);
                    assert(p < i);
                    let r = choose|r: int| p < r < i && #[trigger] m[r] == 0x0a;
                    assert(f[r] == m[r]);
                }
                lemma_inline_apart(f, src, j + 1);
            } else {
                assert forall|p: int, q: int|
                    0 <= p < q < j && #[trigger] m[p] == 0x60 && #[trigger] m[q] == 0x60 implies newline_between(m, p, q) by {
                    if q > i {
                        assert(m[q] != 0x60);
                    }
                }
                lemma_inline_apart(m, src, j);
            }
        } else if !ascii_white_space(m[i]) && url_at(src, i) {
            lemma_scan_bounds(m, i);
            let w = white_from(m, i);
            let f = fill(m, i, w);
            assert forall|p: int, q: int|
                0 <= p < q < w && #[trigger] f[p] == 0x60 && #[trigger] f[q] == 0x60 implies newline_between(f, p, q) by {
                assert(f[p] == m[p] && f[q] == m[q]);
                let r = choose|r: int| p < r < q && #[trigger] m[r] == 0x0a;
                assert(f[r] == m[r]);
            }
            assert forall|p: int| 0 <= p < w && #[trigger] f[p] == 0x60 implies newline_between(f, p, w)
                || w >= f.len() || f[w] == 0x0a by {
                assert(f[p] == m[p]);
                assert(m[i] != 0x0a);
                let r = choose|r: int| p < r < i && #[trigger] m[r] == 0x0a;
                assert(f[r] == m[r]);
            }
            lemma_inline_apart(f, src, w);
        } else {
            assert forall|p: int| 0 <= p < i + 1 && #[trigger] m[p] == 0x60 implies newline_between(
                m,
                p,
                i + 1,
            ) || i + 1 >= m.len() || m[i + 1] == 0x0a by {
                if m[i] == 0x0a {
                    assert(p < i);
                    assert(p < i < i + 1 && m[i] == 0x0a);
                } else {
                    let r = choose|r: int| p < r < i && #[trigger] m[r] == 0x0a;
                }
            }
            lemma_inline_apart(m, src, i + 1);
        }
    }
}

/// `code_close` stops at the first backtick or newline.
proof fn lemma_code_close(m: Seq<u8>, i: int)
    requires
        0 <= i <= m.len(),
    ensures
        forall|k: int| i <= k < code_close(m, i) ==> m[k] != 0x60 && m[k] != 0x0a,
        code_close(m, i) < m.len() ==> m[code_close(m, i)] == 0x60 || m[code_close(m, i)] == 0x0a,
    decreases m.len() - i,
{
    if i < m.len() && !(m[i] == 0x60 || m[i] == 0x0a) {
        lemma_code_close(m, i + 1);
    }
}

/// Inline code is masked: no two backticks of the masking share a line,
/// for a backtick that finds a closing one on its line is masked with it,
/// and one that does not leaves the rest of its line unread.
pub proof fn lemma_inline_code_masked(b: Seq<u8>, p: int, q: int)
    requires
        0 <= p < q < b.len(),
        masked_bytes(b)[p] == 0x60,
        masked_bytes(b)[q] == 0x60,
    ensures
        newline_between(masked_bytes(b), p, q),
{
    let m = fenced(b, 0, false);
    lemma_fenced_len(b, 0, false);
    lemma_inline_apart(m, b, 0);
    lemma_inline_keeps_spaces(m, b, 0);
}

/// A run of newlines, spaces, tabs and carriage returns is blank.
proof fn lemma_ascii_run_blank(b: Seq<u8>, i: int, e: int)
    requires
        0 <= i <= e <= b.len(),
        forall|k: int| i <= k < e ==> #[trigger] b[k] == 0x0a || b[k] == 0x20 || b[k] == 0x09 || b[k] == 0x0d,
    ensures
        blank_between(b, i, e),
    decreases e - i,
{
    if i < e {
        lemma_ascii_run_blank(b, i + 1, e);
        let rest = b.subrange(i, b.len() as int);
        let b0 = rest[0];
        assert(b0 == b[i]);
        let c = decode_first_scalar(rest);
        assert(c == (b0 & 0x7f) as u32);
        assert(c == b0 as u32) by (bit_vector)
            requires
                b0 < 0x80,
                c == (b0 & 0x7f) as u32,
        ;
        assert(length_of_first_scalar(rest) == 1);
    }
}

/// Two blank stretches that meet at a character start make one.
proof fn lemma_blank_concat(b: Seq<u8>, a: int, m: int, c: int)
    requires
        0 <= a <= m <= c <= b.len(),
        blank_between(b, a, m),
        blank_between(b, m, c),
    ensures
        blank_between(b, a, c),
    decreases m - a,
{
    if a < m {
        let rest = b.subrange(a, b.len() as int);
        lemma_width_positive(rest);
        let w = length_of_first_scalar(rest);
        assert(trim_start_pos(b, a, m) == trim_start_pos(b, a + w, m));
        lemma_blank_concat(b, a + w, m, c);
    }
}

/// Where the text between consecutive paragraphs, before the first and
/// after the last, is blank.
pub open spec fn gaps_blank(b: Seq<u8>, ps: Seq<(usize, usize)>, end: int) -> bool {
    &&& forall|k: int| 0 < k < ps.len() ==> blank_between(b, ps[k - 1].1 as int, (#[trigger] ps[k]).0 as int)
    &&& ps.len() > 0 ==> blank_between(b, 0, ps[0].0 as int)
    &&& blank_between(b, if ps.len() == 0 { 0 } else { ps.last().1 as int }, end)
}

/// A paragraph added after a blank gap keeps the gaps blank.
proof fn lemma_gaps_push(b: Seq<u8>, ps: Seq<(usize, usize)>, s: usize, e: usize, end: int)
    requires
        gaps_blank(b, ps, s as int),
        blank_between(b, e as int, end),
    ensures
        gaps_blank(b, ps.push((s, e)), end),
{
    let qs = ps.push((s, e));
    assert(qs.last() == (s, e));
    assert forall|k: int| 0 < k < qs.len() implies blank_between(
        b,
        qs[k - 1].1 as int,
        (#[trigger] qs[k]).0 as int,
    ) by {
        if k < ps.len() {
            assert(qs[k] == ps[k]);
            assert(qs[k - 1] == ps[k - 1]);
        } else {
            assert(qs[k - 1] == ps.last());
        }
    }
    if ps.len() > 0 {
        assert(qs[0] == ps[0]);
    }
}

/// An empty span is blank.
proof fn lemma_blank_empty(b: Seq<u8>, s: int)
    ensures
        blank_between(b, s, s),
{
}

/// Whether the bytes of `b` from offset `i` begin with `pat`.
fn starts_with_at(b: &[u8], i: usize, pat: &[u8]) -> (r: bool)
    ensures
        r == bytes_start_with(b@, i as int, pat@),
{
    if i > b.len() || pat.len() > b.len() - i {
        return false;
    }
    let mut k: usize = 0;
    while k < pat.len()
        invariant
            k <= pat@.len(),
            i + pat@.len() <= b@.len(),
            i + pat.len() <= b.len(),
            forall|x: int| 0 <= x < k ==> b@[i + x] == pat@[x],
        decreases pat@.len() - k,
    {
        if b[i + k] != pat[k] {
            assert(b@.subrange(i as int, i + pat@.len())[k as int] != pat@[k as int]);
            return false;
        }
        k = k + 1;
    }
    assert(b@.subrange(i as int, i + pat@.len()) =~= pat@);
    true
}

} // verus!
