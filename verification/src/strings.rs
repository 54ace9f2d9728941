//! Building the text of messages: decimal numbers, quoted strings and
//! substrings.
use vstd::prelude::*;
use vstd::utf8::*;
use vstd::string::*;
use crate::text::{
    all_ascii, at_char_start, bytes_of, chars_between, lemma_ascii_decode, lemma_char_start_boundary,
    lemma_split, string_from_utf8,
};

verus! {

/// The decimal digit character of `d`.
pub open spec fn digit_char(d: nat) -> char {
    ((d + 0x30) as u8) as char
}

/// The decimal representation of `n`, without leading zeros.
pub open spec fn decimal_chars(n: nat) -> Seq<char>
    decreases n,
{
    if n < 10 {
        seq![digit_char(n)]
    } else {
        decimal_chars(n / 10).push(digit_char(n % 10))
    }
}

/// The characters of the bytes of `v`, last byte first.
pub open spec fn reversed_chars(v: Seq<u8>) -> Seq<char> {
    Seq::new(v.len(), |k: int| v[v.len() - 1 - k] as char)
}

/// The decimal representation of `n`, as `usize`'s `Display` writes it.
pub fn decimal(n: usize) -> (r: String)
    ensures
        r@ == decimal_chars(n as nat),
{
    let mut digits: Vec<u8> = Vec::new();
    let mut m = n;
    loop
        invariant_except_break
            digits@.len() > 0 ==> m > 0,
        invariant
            m <= n,
            forall|k: int| 0 <= k < digits@.len() ==> 0x30 <= #[trigger] digits@[k] <= 0x39,
            digits@.len() == 0 ==> m == n,
            m > 0 || digits@.len() == 0 ==> decimal_chars(n as nat) == decimal_chars(m as nat)
                + reversed_chars(digits@),
            m == 0 && digits@.len() > 0 ==> decimal_chars(n as nat) == reversed_chars(digits@),
        ensures
            m == 0,
            digits@.len() > 0,
            decimal_chars(n as nat) == reversed_chars(digits@),
            forall|k: int| 0 <= k < digits@.len() ==> 0x30 <= #[trigger] digits@[k] <= 0x39,
        decreases m,
    {
        let d = (m % 10) as u8;
        let q = m / 10;
        let ghost before = digits@;
        digits.push(0x30 + d);
        proof {
            assert(reversed_chars(digits@) =~= seq![digit_char(d as nat)] + reversed_chars(before));
            if q > 0 {
                assert(decimal_chars(m as nat) == decimal_chars(q as nat).push(digit_char(d as nat)));
                assert(decimal_chars(m as nat) + reversed_chars(before) =~= decimal_chars(q as nat)
                    + reversed_chars(digits@));
            } else {
                assert(decimal_chars(m as nat) == seq![digit_char(d as nat)]);
                assert(decimal_chars(n as nat) =~= reversed_chars(digits@));
            }
        }
        m = q;
        if m == 0 {
            break;
        }
    }
    let mut bytes: Vec<u8> = Vec::new();
    let mut k = digits.len();
    while k > 0
        invariant
            k <= digits@.len(),
            bytes@.len() == digits@.len() - k,
            forall|i: int| 0 <= i < bytes@.len() ==> bytes@[i] == digits@[digits@.len() - 1 - i],
            forall|i: int| 0 <= i < digits@.len() ==> 0x30 <= #[trigger] digits@[i] <= 0x39,
        decreases k,
    {
        k = k - 1;
        bytes.push(digits[k]);
    }
    proof {
        assert(all_ascii(bytes@));
        lemma_ascii_decode(bytes@);
        assert(decode_utf8(bytes@) =~= reversed_chars(digits@));
    }
    match string_from_utf8(bytes) {
        Some(s) => s,
        None => String::new(),
    }
}

/// What `format!("{:?}", s)` writes for a string `s`: the string in
/// double quotes with the escapes of `char::escape_debug`.
pub uninterp spec fn debug_form(s: Seq<char>) -> Seq<char>;

/// Formats `s` with `{:?}`; the result is named `debug_form`.
#[verifier::external_body]
pub(crate) fn debug_text(s: &str) -> (r: String)
    ensures
        r@ == debug_form(s@),
{
    format!("{:?}", s)
}

/// The part of `s` from byte `start` to byte `end`.
pub fn substring(s: &str, start: usize, end: usize) -> (r: &str)
    requires
        start <= end <= s.spec_bytes().len(),
        at_char_start(s.spec_bytes(), start as int),
        at_char_start(s.spec_bytes(), end as int),
    ensures
        r@ == chars_between(s.spec_bytes(), start as int, end as int),
        r.spec_bytes() == s.spec_bytes().subrange(start as int, end as int),
{
    let ghost b = s.spec_bytes();
    proof {
        encode_utf8_valid_utf8(s@);
        lemma_char_start_boundary(b, end as int);
        lemma_split(b, end as int);
        let head = b.subrange(0, end as int);
        assert(at_char_start(head, start as int)) by {
            if start < end {
                assert(head[start as int] == b[start as int]);
            }
        }
        lemma_char_start_boundary(head, start as int);
    }
    let (head, _) = s.split_at(end);
    let (_, tail) = head.split_at(start);
    proof {
        assert(tail.spec_bytes() =~= b.subrange(start as int, end as int));
        encode_utf8_decode_utf8(tail@);
    }
    tail
}

} // verus!
