//! Line and column numbers of byte offsets: lines are counted by newline
//! bytes, columns by characters.
use vstd::prelude::*;
use vstd::utf8::*;
use vstd::string::*;
use crate::text::{at_char_start, chars_between, lemma_boundary_char_start, lemma_chars_between_split, lemma_next_char_start, scalar_at};

verus! {

/// `nl` lists, in increasing order, exactly the offsets of the newline bytes
/// of `b`.
pub open spec fn newline_index(b: Seq<u8>, nl: Seq<usize>) -> bool {
    &&& forall|k: int| 0 <= k < nl.len() ==> #[trigger] nl[k] < b.len() && b[nl[k] as int] == 0x0a
    &&& forall|k: int, l: int| 0 <= k < l < nl.len() ==> #[trigger] nl[k] < #[trigger] nl[l]
    &&& forall|i: int|
        0 <= i < b.len() && #[trigger] b[i] == 0x0a ==> exists|k: int|
            0 <= k < nl.len() && nl[k] == i
}

/// The number of newline bytes before offset `n`.
pub open spec fn newlines_before(b: Seq<u8>, n: int) -> nat
    decreases n,
{
    if n <= 0 {
        0
    } else {
        newlines_before(b, n - 1) + if b[n - 1] == 0x0a {
            1nat
        } else {
            0nat
        }
    }
}

/// The offset at which the line holding offset `n` starts: just after the
/// last newline before `n`, or 0.
pub open spec fn line_start(b: Seq<u8>, n: int) -> int
    decreases n,
{
    if n <= 0 {
        0
    } else if b[n - 1] == 0x0a {
        n
    } else {
        line_start(b, n - 1)
    }
}

/// The 1-based line of offset `n`.
pub open spec fn line_of(b: Seq<u8>, n: int) -> int {
    newlines_before(b, n) + 1int
}

/// The 1-based column of offset `n`: one more than the number of characters
/// between the start of its line and `n`.
pub open spec fn column_of(b: Seq<u8>, n: int) -> int {
    chars_between(b, line_start(b, n), n).len() + 1int
}

/// The offsets of all newline bytes of `source`, in increasing order.
pub fn newline_offsets(source: &str) -> (r: Vec<usize>)
    ensures
        newline_index(source.spec_bytes(), r@),
{
    let b = source.as_bytes();
    let mut r: Vec<usize> = Vec::new();
    let mut i: usize = 0;
    while i < b.len()
        invariant
            i <= b@.len(),
            b@ == source.spec_bytes(),
            forall|k: int| 0 <= k < r@.len() ==> #[trigger] r@[k] < i && b@[r@[k] as int] == 0x0a,
            forall|k: int, l: int| 0 <= k < l < r@.len() ==> #[trigger] r@[k] < #[trigger] r@[l],
            forall|j: int|
                0 <= j < i && #[trigger] b@[j] == 0x0a ==> exists|k: int|
                    0 <= k < r@.len() && r@[k] == j,
        decreases b@.len() - i,
    {
        let ghost old_r = r@;
        if b[i] == 0x0a {
            r.push(i);
            assert(r@[r@.len() - 1] == i);
        }
        assert forall|j: int|
            0 <= j < i + 1 && #[trigger] b@[j] == 0x0a implies exists|k: int|
                0 <= k < r@.len() && r@[k] == j by {
            if j < i {
                let k = choose|k: int| 0 <= k < old_r.len() && old_r[k] == j;
                assert(r@[k] == j);
            } else {
                assert(r@[r@.len() - 1] == j);
            }
        }
        i = i + 1;
    }
    r
}

/// With `p` the number of listed newlines before `n`, that count is the
/// number of newline bytes before `n`, and the line of `n` starts after the
/// last of them.
proof fn lemma_partition(b: Seq<u8>, nl: Seq<usize>, n: int, p: int)
    requires
        newline_index(b, nl),
        0 <= n <= b.len(),
        0 <= p <= nl.len(),
        forall|k: int| 0 <= k < p ==> #[trigger] nl[k] < n,
        forall|k: int| p <= k < nl.len() ==> #[trigger] nl[k] >= n,
    ensures
        newlines_before(b, n) == p,
        line_start(b, n) == if p == 0 {
            0
        } else {
            nl[p - 1] + 1
        },
    decreases n,
{
    if n <= 0 {
        if p > 0 {
            assert(nl[0] < n);
        }
    } else {
        if b[n - 1] == 0x0a {
            let k = choose|k: int| 0 <= k < nl.len() && nl[k] == n - 1;
            assert(k == p - 1) by {
                if k < p - 1 {
                    assert(nl[k] < nl[p - 1]);
                }
                if k >= p {
                    assert(nl[k] >= n);
                }
            }
            assert forall|j: int| p - 1 <= j < nl.len() implies #[trigger] nl[j] >= n - 1 by {
                if j > p - 1 {
                    assert(nl[p - 1] < nl[j]);
                }
            }
            lemma_partition(b, nl, n - 1, p - 1);
        } else {
            if p > 0 {
                assert(nl[p - 1] != n - 1);
            }
            lemma_partition(b, nl, n - 1, p);
        }
    }
}

/// Strictly increasing offsets are at least their positions.
proof fn lemma_increasing_at_least_index(nl: Seq<usize>, k: int)
    requires
        forall|i: int, j: int| 0 <= i < j < nl.len() ==> #[trigger] nl[i] < #[trigger] nl[j],
        0 <= k < nl.len(),
    ensures
        nl[k] >= k,
    decreases k,
{
    if k > 0 {
        lemma_increasing_at_least_index(nl, k - 1);
        assert(nl[k - 1] < nl[k]);
    }
}

/// The byte after an ASCII byte of valid UTF-8 starts a character.
pub proof fn lemma_after_ascii(b: Seq<u8>, j: int)
    requires
        valid_utf8(b),
        0 <= j < b.len(),
        b[j] < 0x80,
    ensures
        at_char_start(b, j + 1),
{
    assert(at_char_start(b, j));
    lemma_next_char_start(b, j);
    assert(b.subrange(j, b.len() as int)[0] == b[j]);
}

/// The line start of an offset is a character start.
pub proof fn lemma_line_start_char_start(b: Seq<u8>, n: int)
    requires
        valid_utf8(b),
        0 <= n <= b.len(),
    ensures
        at_char_start(b, line_start(b, n)),
        0 <= line_start(b, n) <= n,
    decreases n,
{
    if n <= 0 {
        if b.len() > 0 {
            assert(valid_first_scalar(b));
        }
    } else if b[n - 1] == 0x0a {
        lemma_after_ascii(b, n - 1);
    } else {
        lemma_line_start_char_start(b, n - 1);
    }
}

/// The number of characters of `source` between two of its character
/// boundaries.
pub fn char_count_between(source: &str, from: usize, to: usize) -> (r: usize)
    requires
        from <= to <= source.spec_bytes().len(),
        at_char_start(source.spec_bytes(), from as int),
        at_char_start(source.spec_bytes(), to as int),
    ensures
        r == chars_between(source.spec_bytes(), from as int, to as int).len(),
        r <= to - from,
{
    let b = source.as_bytes();
    proof {
        encode_utf8_valid_utf8(source@);
        assert(b@.subrange(from as int, from as int) =~= Seq::<u8>::empty());
    }
    let mut pos: usize = from;
    let mut count: usize = 0;
    while pos < to
        invariant
            b@ == source.spec_bytes(),
            valid_utf8(b@),
            from <= pos <= to <= b@.len(),
            at_char_start(b@, pos as int),
            at_char_start(b@, to as int),
            at_char_start(b@, from as int),
            count == chars_between(b@, from as int, pos as int).len(),
            count <= pos - from,
        decreases to - pos,
    {
        let (_, w) = scalar_at(b, pos);
        proof {
            if pos + w > to {
                let rest = b@.subrange(pos as int, b@.len() as int);
                lemma_next_char_start(b@, pos as int);
                assert(rest[to - pos] == b@[to as int]);
            }
            lemma_chars_between_split(b@, from as int, pos as int, pos + w);
        }
        pos = pos + w;
        count = count + 1;
    }
    count
}

/// The 1-based line and column of byte `offset` of `source`, given the
/// offsets of its newlines.
pub fn line_column(source: &str, newlines: &[usize], offset: usize) -> (r: (usize, usize))
    requires
        newline_index(source.spec_bytes(), newlines@),
        offset <= source.spec_bytes().len() <= isize::MAX,
        is_char_boundary(source.spec_bytes(), offset as int),
    ensures
        r.0 == line_of(source.spec_bytes(), offset as int),
        r.1 == column_of(source.spec_bytes(), offset as int),
{
    let ghost b = source.spec_bytes();
    let mut lo: usize = 0;
    let mut hi: usize = newlines.len();
    while lo < hi
        invariant
            0 <= lo <= hi <= newlines@.len(),
            newline_index(b, newlines@),
            forall|k: int| 0 <= k < lo ==> #[trigger] newlines@[k] < offset,
            forall|k: int| hi <= k < newlines@.len() ==> #[trigger] newlines@[k] >= offset,
        decreases hi - lo,
    {
        let mid = lo + (hi - lo) / 2;
        if newlines[mid] < offset {
            assert forall|k: int| 0 <= k < mid + 1 implies #[trigger] newlines@[k] < offset by {
                if k < mid {
                    assert(newlines@[k] < newlines@[mid as int]);
                }
            }
            lo = mid + 1;
        } else {
            assert forall|k: int| mid <= k < newlines@.len() implies #[trigger] newlines@[k]
                >= offset by {
                if k > mid {
                    assert(newlines@[mid as int] < newlines@[k]);
                }
            }
            hi = mid;
        }
    }
    proof {
        lemma_partition(b, newlines@, offset as int, lo as int);
        encode_utf8_valid_utf8(source@);
        lemma_line_start_char_start(b, offset as int);
        lemma_boundary_char_start(b, offset as int);
        if lo > 0 {
            lemma_increasing_at_least_index(newlines@, lo - 1);
        }
    }
    let line_start = if lo == 0 {
        0
    } else {
        newlines[lo - 1] + 1
    };
    (lo + 1, char_count_between(source, line_start, offset) + 1)
}

} // verus!
