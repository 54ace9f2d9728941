//! Byte-level access to UTF-8 text: decoding the character at or before a
//! byte offset, Unicode and ASCII white space, and the facts about valid
//! UTF-8 that the scanners rely on.
use vstd::prelude::*;
use vstd::utf8::*;
use vstd::string::*;

verus! {

broadcast use vstd::seq_lib::group_seq_properties;

/// The Unicode `White_Space` property, which `char::is_whitespace` tests.
pub open spec fn white_space(c: u32) -> bool {
    ||| 0x09 <= c <= 0x0d
    ||| c == 0x20
    ||| c == 0x85
    ||| c == 0xa0
    ||| c == 0x1680
    ||| 0x2000 <= c <= 0x200a
    ||| c == 0x2028
    ||| c == 0x2029
    ||| c == 0x202f
    ||| c == 0x205f
    ||| c == 0x3000
}

/// The bytes that `u8::is_ascii_whitespace` accepts.
pub open spec fn ascii_white_space(b: u8) -> bool {
    b == 0x20 || b == 0x09 || b == 0x0a || b == 0x0c || b == 0x0d
}

/// Whether the scalar `c` is Unicode white space.
pub fn is_white_space(c: u32) -> (r: bool)
    ensures
        r == white_space(c),
{
    (0x09 <= c && c <= 0x0d) || c == 0x20 || c == 0x85 || c == 0xa0 || c == 0x1680 || (0x2000
        <= c && c <= 0x200a) || c == 0x2028 || c == 0x2029 || c == 0x202f || c == 0x205f || c
        == 0x3000
}

/// Whether the byte `b` is ASCII white space.
pub fn is_ascii_white_space(b: u8) -> (r: bool)
    ensures
        r == ascii_white_space(b),
{
    b == 0x20 || b == 0x09 || b == 0x0a || b == 0x0c || b == 0x0d
}

/// The UTF-8 bytes of a character sequence.
pub open spec fn bytes_of(s: Seq<char>) -> Seq<u8> {
    encode_utf8(s)
}

/// The characters that the bytes from `i` to `j` encode.
pub open spec fn chars_between(b: Seq<u8>, i: int, j: int) -> Seq<char> {
    decode_utf8(b.subrange(i, j))
}

/// `i` is an offset at which a character starts, or the end of `b`.
pub open spec fn at_char_start(b: Seq<u8>, i: int) -> bool {
    0 <= i <= b.len() && (i == b.len() || !is_continuation_byte(b[i]))
}

/// Every byte of `s` is ASCII.
pub open spec fn all_ascii(s: Seq<u8>) -> bool {
    forall|k: int| 0 <= k < s.len() ==> #[trigger] s[k] < 0x80
}

/// A sequence of ASCII bytes is valid UTF-8.
pub proof fn lemma_ascii_valid(s: Seq<u8>)
    requires
        all_ascii(s),
    ensures
        valid_utf8(s),
    decreases s.len(),
{
    if s.len() > 0 {
        assert(pop_first_scalar(s) =~= s.drop_first());
        lemma_ascii_valid(s.drop_first());
    }
}

/// An ASCII byte sequence decodes to the characters with the same values.
pub proof fn lemma_ascii_decode(s: Seq<u8>)
    requires
        all_ascii(s),
    ensures
        valid_utf8(s),
        decode_utf8(s).len() == s.len(),
        forall|k: int| 0 <= k < s.len() ==> #[trigger] decode_utf8(s)[k] as u32 == s[k] as u32,
        forall|k: int| 0 <= k < s.len() ==> #[trigger] decode_utf8(s)[k] == s[k] as char,
    decreases s.len(),
{
    lemma_ascii_valid(s);
    if s.len() > 0 {
        assert(pop_first_scalar(s) =~= s.drop_first());
        lemma_ascii_decode(s.drop_first());
        let c = decode_first_scalar(s);
        let b0 = s[0];
        assert(c == b0 as u32) by (bit_vector)
            requires
                b0 < 0x80,
                c == (b0 & 0x7f) as u32,
        ;
        assert forall|k: int| 0 <= k < s.len() implies #[trigger] decode_utf8(s)[k] as u32
            == s[k] as u32 && decode_utf8(s)[k] == s[k] as char by {
            if k > 0 {
                assert(decode_utf8(s)[k] == decode_utf8(s.drop_first())[k - 1]);
            } else {
                assert(decode_utf8(s)[0] == c as char);
                assert(is_scalar(c));
                assert((b0 as u32) as char == b0 as char);
            }
        }
    }
}

/// Splitting valid UTF-8 where a character starts leaves two valid halves
/// whose characters concatenate to those of the whole.
pub proof fn lemma_split(b: Seq<u8>, i: int)
    requires
        valid_utf8(b),
        at_char_start(b, i),
    ensures
        valid_utf8(b.subrange(0, i)),
        valid_utf8(b.subrange(i, b.len() as int)),
        decode_utf8(b) == decode_utf8(b.subrange(0, i)) + decode_utf8(
            b.subrange(i, b.len() as int),
        ),
{
    lemma_char_start_boundary(b, i);
    valid_utf8_split(b, i);
    decode_utf8_split(b, i);
}

/// A character start is a character boundary in the sense of `str`.
pub proof fn lemma_char_start_boundary(b: Seq<u8>, i: int)
    requires
        valid_utf8(b),
        at_char_start(b, i),
    ensures
        is_char_boundary(b, i),
{
    if i == b.len() {
        is_char_boundary_start_end_of_seq(b);
    } else {
        is_char_boundary_iff_not_is_continuation_byte(b, i);
    }
}

/// A character start of the bytes from `x` to `y` is one of the whole,
/// shifted by `x`, when `y` is a character start.
pub proof fn lemma_char_start_shift(b: Seq<u8>, x: int, y: int, a: int)
    requires
        0 <= x <= y <= b.len(),
        at_char_start(b, y),
        at_char_start(b.subrange(x, y), a),
    ensures
        at_char_start(b, x + a),
{
    if a < y - x {
        assert(b.subrange(x, y)[a] == b[x + a]);
    }
}

/// A character boundary is a character start.
pub proof fn lemma_boundary_char_start(b: Seq<u8>, i: int)
    requires
        valid_utf8(b),
        is_char_boundary(b, i),
        0 <= i <= b.len(),
    ensures
        at_char_start(b, i),
{
    if i < b.len() {
        is_char_boundary_iff_not_is_continuation_byte(b, i);
    }
}

/// The bytes between two character starts of valid UTF-8 are valid UTF-8.
pub proof fn lemma_valid_between(b: Seq<u8>, i: int, j: int)
    requires
        valid_utf8(b),
        at_char_start(b, i),
        at_char_start(b, j),
        i <= j,
    ensures
        valid_utf8(b.subrange(i, j)),
{
    lemma_split(b, i);
    let rest = b.subrange(i, b.len() as int);
    assert(at_char_start(rest, j - i));
    lemma_split(rest, j - i);
    assert(rest.subrange(0, j - i) =~= b.subrange(i, j));
}

/// Three character starts split the characters between the outer two.
pub proof fn lemma_chars_between_split(b: Seq<u8>, i: int, k: int, j: int)
    requires
        valid_utf8(b),
        at_char_start(b, i),
        at_char_start(b, k),
        at_char_start(b, j),
        i <= k <= j,
    ensures
        chars_between(b, i, j) == chars_between(b, i, k) + chars_between(b, k, j),
{
    lemma_valid_between(b, i, j);
    let s = b.subrange(i, j);
    assert(at_char_start(s, k - i));
    lemma_split(s, k - i);
    assert(s.subrange(0, k - i) =~= b.subrange(i, k));
    assert(s.subrange(k - i, s.len() as int) =~= b.subrange(k, j));
}

/// A character start after a valid prefix is followed by a valid first
/// scalar of the given width that ends at another character start.
pub proof fn lemma_next_char_start(b: Seq<u8>, i: int)
    requires
        valid_utf8(b),
        at_char_start(b, i),
        i < b.len(),
    ensures
        valid_first_scalar(b.subrange(i, b.len() as int)),
        1 <= length_of_first_scalar(b.subrange(i, b.len() as int)) <= 4,
        i + length_of_first_scalar(b.subrange(i, b.len() as int)) <= b.len(),
        at_char_start(b, i + length_of_first_scalar(b.subrange(i, b.len() as int))),
        chars_between(b, i, i + length_of_first_scalar(b.subrange(i, b.len() as int))) == seq![
            decode_first_scalar(b.subrange(i, b.len() as int)) as char,
        ],
        is_scalar(decode_first_scalar(b.subrange(i, b.len() as int))),
{
    lemma_split(b, i);
    let rest = b.subrange(i, b.len() as int);
    let w = length_of_first_scalar(rest);
    let tail = pop_first_scalar(rest);
    assert(valid_utf8(tail));
    if tail.len() > 0 {
        assert(valid_first_scalar(tail));
        assert(tail[0] == b[i + w]);
    }
    let one = rest.subrange(0, w);
    assert(one =~= b.subrange(i, i + w));
    assert(valid_first_scalar(one) && pop_first_scalar(one) =~= Seq::<u8>::empty());
    assert(valid_utf8(one)) by {
        assert(valid_utf8(pop_first_scalar(one)));
    }
    assert(decode_first_scalar(one) == decode_first_scalar(rest));
    assert(decode_utf8(pop_first_scalar(one)) =~= Seq::<char>::empty());
    assert(decode_utf8(one) =~= seq![decode_first_scalar(rest) as char]);
    decode_utf8_first_scalar(rest);
    let c = decode_first_scalar(rest);
    lemma_scalar_of_valid_first(rest);
}

/// The value that a valid first scalar decodes to is a Unicode scalar.
pub proof fn lemma_scalar_of_valid_first(s: Seq<u8>)
    requires
        valid_first_scalar(s),
    ensures
        is_scalar(decode_first_scalar(s)),
{
    let b0 = s[0];
    if is_leading_byte_width_1(b0) {
        let c = decode_first_scalar(s);
        assert(c == (b0 & 0x7f) as u32);
        assert(0 <= b0 <= 0x7f ==> (b0 & 0x7f) as u32 <= 0x7f) by (bit_vector);
    } else if is_leading_byte_width_2(b0) {
        let b1 = s[1];
        let c = decode_first_scalar(s);
        assert(c == (((b0 & 0x1f) as u32) << 6) | ((b1 & 0x3f) as u32));
        assert(((((b0 & 0x1f) as u32) << 6) | ((b1 & 0x3f) as u32)) <= 0x7ff) by (bit_vector);
    } else if is_leading_byte_width_3(b0) {
        let b1 = s[1];
        let b2 = s[2];
        let c = decode_first_scalar(s);
        assert(c == (((b0 & 0x0f) as u32) << 12) | (((b1 & 0x3f) as u32) << 6) | ((b2 & 0x3f)
            as u32));
        assert(((((b0 & 0x0f) as u32) << 12) | (((b1 & 0x3f) as u32) << 6) | ((b2 & 0x3f)
            as u32)) <= 0xffff) by (bit_vector);
    }
}

/// The scalar whose encoding starts at byte `i`, and the number of bytes of
/// that encoding.
pub fn scalar_at(b: &[u8], i: usize) -> (r: (u32, usize))
    requires
        valid_utf8(b@),
        at_char_start(b@, i as int),
        i < b@.len(),
    ensures
        r.0 == decode_first_scalar(b@.subrange(i as int, b@.len() as int)),
        r.1 == length_of_first_scalar(b@.subrange(i as int, b@.len() as int)),
        1 <= r.1 <= 4,
        i + r.1 <= b@.len(),
        at_char_start(b@, i + r.1),
        is_scalar(r.0),
        chars_between(b@, i as int, i + r.1) == seq![r.0 as char],
{
    proof {
        lemma_next_char_start(b@, i as int);
    }
    let ghost rest = b@.subrange(i as int, b@.len() as int);
    let b0 = b[i];
    if b0 <= 0x7f {
        assert(rest[0] == b0);
        ((b0 & 0x7f) as u32, 1)
    } else if 0xc0 <= b0 && b0 <= 0xdf {
        let b1 = b[i + 1];
        assert(rest[1] == b1);
        ((((b0 & 0x1f) as u32) << 6) | ((b1 & 0x3f) as u32), 2)
    } else if 0xe0 <= b0 && b0 <= 0xef {
        let b1 = b[i + 1];
        let b2 = b[i + 2];
        assert(rest[1] == b1 && rest[2] == b2);
        ((((b0 & 0x0f) as u32) << 12) | (((b1 & 0x3f) as u32) << 6) | ((b2 & 0x3f) as u32), 3)
    } else {
        let b1 = b[i + 1];
        let b2 = b[i + 2];
        let b3 = b[i + 3];
        assert(rest[1] == b1 && rest[2] == b2 && rest[3] == b3);
        (
            (((b0 & 0x07) as u32) << 18) | (((b1 & 0x3f) as u32) << 12) | (((b2 & 0x3f) as u32)
                << 6) | ((b3 & 0x3f) as u32),
            4,
        )
    }
}

/// The scalar whose encoding ends just before byte `i`, and the offset at
/// which that encoding starts.
pub fn scalar_before(b: &[u8], i: usize) -> (r: (u32, usize))
    requires
        valid_utf8(b@),
        at_char_start(b@, i as int),
        0 < i,
    ensures
        r.1 < i,
        at_char_start(b@, r.1 as int),
        is_scalar(r.0),
        chars_between(b@, r.1 as int, i as int) == seq![r.0 as char],
        chars_between(b@, 0, i as int).len() > 0,
        chars_between(b@, 0, i as int).last() == r.0 as char,
{
    let mut p: usize = i - 1;
    while p > 0 && 0x80 <= b[p] && b[p] <= 0xbf
        invariant
            p < i <= b@.len(),
            forall|k: int| p < k < i ==> is_continuation_byte(#[trigger] b@[k]),
        decreases p,
    {
        p = p - 1;
    }
    proof {
        if p == 0 {
            assert(valid_first_scalar(b@));
            assert(b@.subrange(0, b@.len() as int) =~= b@);
        }
    }
    assert(at_char_start(b@, p as int));
    let (c, w) = scalar_at(b, p);
    proof {
        let rest = b@.subrange(p as int, b@.len() as int);
        if p + w < i {
            assert(is_continuation_byte(b@[p + w]));
        } else if p + w > i {
            lemma_next_char_start(b@, p as int);
            assert(valid_first_scalar(rest));
            assert(rest[i - p] == b@[i as int]);
            assert(is_continuation_byte(rest[i - p]));
        }
        lemma_chars_between_split(b@, 0, p as int, i as int);
    }
    (c, p)
}

/// Whether two strings hold the same characters, decided on their bytes.
pub fn str_eq(a: &str, b: &str) -> (r: bool)
    ensures
        r == (a@ == b@),
{
    let x = a.as_bytes();
    let y = b.as_bytes();
    proof {
        encode_utf8_decode_utf8(a@);
        encode_utf8_decode_utf8(b@);
    }
    if x.len() != y.len() {
        return false;
    }
    let mut k: usize = 0;
    while k < x.len()
        invariant
            x@.len() == y@.len(),
            x@ == a.spec_bytes(),
            y@ == b.spec_bytes(),
            k <= x@.len(),
            forall|i: int| 0 <= i < k ==> x@[i] == y@[i],
        decreases x@.len() - k,
    {
        if x[k] != y[k] {
            return false;
        }
        k = k + 1;
    }
    assert(x@ =~= y@);
    true
}

/// Calls `String::from_utf8`, which per its documentation succeeds exactly
/// when the bytes are valid UTF-8 and then holds those bytes.
#[verifier::external_body]
pub(crate) fn string_from_utf8(v: Vec<u8>) -> (r: Option<String>)
    ensures
        valid_utf8(v@) <==> r is Some,
        r matches Some(s) ==> s@ == decode_utf8(v@),
{
    match String::from_utf8(v) {
        Ok(s) => Some(s),
        Err(_) => None,
    }
}


/// The number of bytes that the first `k` characters of `s` take.
pub open spec fn byte_offset(s: Seq<char>, k: int) -> int {
    encode_utf8(s.take(k)).len() as int
}

/// `offs` gives, for each character index of `t` and for its end, the byte
/// offset in `b` at which that character starts; `b` encodes `t`.
pub open spec fn char_table_of(b: Seq<u8>, t: Seq<char>, offs: Seq<usize>) -> bool {
    &&& valid_utf8(b)
    &&& decode_utf8(b) == t
    &&& offs.len() == t.len() + 1
    &&& forall|k: int|
        0 <= k < offs.len() ==> at_char_start(b, #[trigger] offs[k] as int) && chars_between(
            b,
            0,
            offs[k] as int,
        ) == t.take(k)
}

/// What a character table tells of a range of character indices: the byte
/// offsets are those of the characters, in order, and the bytes between
/// them encode the characters between them.
pub proof fn lemma_table_slice(b: Seq<u8>, t: Seq<char>, offs: Seq<usize>, i: int, j: int)
    requires
        char_table_of(b, t, offs),
        0 <= i <= j <= t.len(),
    ensures
        offs[i] as int == byte_offset(t, i),
        offs[j] as int == byte_offset(t, j),
        offs[i] <= offs[j] <= b.len(),
        at_char_start(b, offs[i] as int),
        at_char_start(b, offs[j] as int),
        chars_between(b, offs[i] as int, offs[j] as int) == t.subrange(i, j),
{
    let oi = offs[i] as int;
    let oj = offs[j] as int;
    assert(at_char_start(b, oi) && chars_between(b, 0, oi) == t.take(i));
    assert(at_char_start(b, oj) && chars_between(b, 0, oj) == t.take(j));
    lemma_prefix_offset(b, oi);
    lemma_prefix_offset(b, oj);
    if oj < oi {
        lemma_chars_between_split(b, 0, oj, oi);
        assert(t.take(i).len() == i);
        assert(false);
    }
    lemma_chars_between_split(b, 0, oi, oj);
    assert(chars_between(b, oi, oj) =~= t.subrange(i, j)) by {
        let x = chars_between(b, oi, oj);
        assert(t.take(j) == t.take(i) + x);
        assert forall|k: int| 0 <= k < x.len() implies x[k] == t.subrange(i, j)[k] by {
            assert(t.take(j)[i + k] == x[k]);
        }
    }
}

/// The characters before a character start encode to the bytes before it.
proof fn lemma_prefix_offset(b: Seq<u8>, o: int)
    requires
        valid_utf8(b),
        at_char_start(b, o),
    ensures
        encode_utf8(chars_between(b, 0, o)) == b.subrange(0, o),
        encode_utf8(chars_between(b, 0, o)).len() == o,
{
    lemma_split(b, o);
    decode_utf8_encode_utf8(b.subrange(0, o));
}

/// The characters of `text` and the byte offset at which each starts, with
/// the length of `text` last.
pub fn char_table(text: &str) -> (r: (Vec<char>, Vec<usize>))
    ensures
        r.0@ == text@,
        char_table_of(text.spec_bytes(), text@, r.1@),
{
    let b = text.as_bytes();
    proof {
        encode_utf8_valid_utf8(text@);
        encode_utf8_decode_utf8(text@);
        assert(b@.subrange(0, 0) =~= Seq::<u8>::empty());
        assert(text@.take(0) =~= Seq::<char>::empty());
    }
    let mut chars: Vec<char> = Vec::new();
    let mut offs: Vec<usize> = Vec::new();
    offs.push(0);
    let mut p: usize = 0;
    while p < b.len()
        invariant
            valid_utf8(b@),
            decode_utf8(b@) == text@,
            p <= b@.len(),
            at_char_start(b@, p as int),
            chars@ == chars_between(b@, 0, p as int),
            offs@.len() == chars@.len() + 1,
            offs@[chars@.len() as int] == p,
            forall|k: int|
                0 <= k < offs@.len() ==> at_char_start(b@, #[trigger] offs@[k] as int)
                    && chars_between(b@, 0, offs@[k] as int) == text@.take(k),
        decreases b@.len() - p,
    {
        let (c, w) = scalar_at(b, p);
        let ch = match crate::words::char_from_scalar(c) {
            Some(x) => x,
            None => ' ',
        };
        proof {
            lemma_chars_between_split(b@, 0, p as int, p + w);
            lemma_chars_between_split(b@, 0, p + w, b@.len() as int);
            assert(b@.subrange(0, b@.len() as int) =~= b@);
            let next = chars_between(b@, 0, p + w);
            assert(next == chars@.push(c as char));
            assert(text@ == next + chars_between(b@, p + w, b@.len() as int));
            assert(text@.take(next.len() as int) =~= next);
        }
        chars.push(ch);
        offs.push(p + w);
        p = p + w;
    }
    proof {
        assert(b@.subrange(0, b@.len() as int) =~= b@);
        assert(chars@ =~= text@);
    }
    (chars, offs)
}

} // verus!
