//! Building message strings in verified code: decimal rendering of numbers.

use vstd::prelude::*;
use vstd::utf8::{
    valid_utf8, decode_utf8, encode_utf8, is_ascii_chars, is_ascii_chars_encode_utf8,
    encode_utf8_valid_utf8, encode_utf8_decode_utf8,
};

verus! {

/// The decimal digits of `n`, most significant first, as ASCII bytes.
pub open spec fn digits_bytes(n: nat) -> Seq<u8>
    decreases n,
{
    if n < 10 {
        seq![(48 + n) as u8]
    } else {
        digits_bytes(n / 10).push((48 + n % 10) as u8)
    }
}

/// The decimal digits of `n`, most significant first, as characters.
pub open spec fn spec_digits(n: nat) -> Seq<char> {
    digits_bytes(n).map_values(|b: u8| b as char)
}

proof fn lemma_digits_bytes_ascii(n: nat)
    ensures
        forall|i: int| 0 <= i < digits_bytes(n).len() ==> 48 <= #[trigger] digits_bytes(n)[i] < 58,
    decreases n,
{
    if n >= 10 {
        lemma_digits_bytes_ascii(n / 10);
        let s = digits_bytes(n / 10);
        assert forall|i: int| 0 <= i < digits_bytes(n).len() implies 48 <= #[trigger] digits_bytes(
            n,
        )[i] < 58 by {
            if i < s.len() {
                assert(digits_bytes(n)[i] == s[i]);
            } else {
                assert(digits_bytes(n)[i] == (48 + n % 10) as u8);
            }
        }
    }
}

/// The characters of `spec_digits` are ASCII, and they encode to exactly
/// `digits_bytes` under UTF-8.
proof fn lemma_digits_encode(n: nat)
    ensures
        is_ascii_chars(spec_digits(n)),
        encode_utf8(spec_digits(n)) =~= digits_bytes(n),
        valid_utf8(digits_bytes(n)),
        decode_utf8(digits_bytes(n)) == spec_digits(n),
{
    lemma_digits_bytes_ascii(n);
    assert(is_ascii_chars(spec_digits(n))) by {
        assert forall|i| 0 <= i < spec_digits(n).len() implies '\0' <= #[trigger] spec_digits(
            n,
        )[i] <= '\u{7f}' by {
            assert(48 <= digits_bytes(n)[i] < 58);
        }
    }
    is_ascii_chars_encode_utf8(spec_digits(n));
    assert(encode_utf8(spec_digits(n)) =~= digits_bytes(n)) by {
        assert forall|i: int| 0 <= i < digits_bytes(n).len() implies encode_utf8(
            spec_digits(n),
        )[i] == digits_bytes(n)[i] by {
            assert(spec_digits(n)[i] == digits_bytes(n)[i] as char);
            assert(encode_utf8(spec_digits(n))[i] == spec_digits(n)[i] as u8);
        }
    }
    encode_utf8_valid_utf8(spec_digits(n));
    encode_utf8_decode_utf8(spec_digits(n));
}

/// Relies on `String::from_utf8`: it succeeds exactly on valid UTF-8 input,
/// and the returned string holds the input bytes' decoding.
#[verifier::external_body]
pub(crate) fn string_from_utf8(bytes: Vec<u8>) -> (r: Option<String>)
    ensures
        r is Some <==> valid_utf8(bytes@),
        r matches Some(s) ==> s@ == decode_utf8(bytes@),
{
    String::from_utf8(bytes).ok()
}

/// Render `n` in decimal.
pub fn u32_to_string(n: u32) -> (s: String)
    ensures
        s@ == spec_digits(n as nat),
{
    let mut rev: Vec<u8> = Vec::new();
    let mut m: u32 = n;
    while m >= 10
        invariant
            rev@.len() == 0 ==> m == n,
            rev@.len() > 0 ==> m >= 1 && digits_bytes(n as nat) == digits_bytes(m as nat)
                + rev@.reverse(),
        decreases m,
    {
        let d: u8 = (m % 10) as u8 + 48;
        let ghost pre = rev@;
        rev.push(d);
        proof {
            assert(rev@.reverse() =~= seq![d] + pre.reverse());
            if pre.len() == 0 {
                assert(digits_bytes(n as nat) =~= digits_bytes((m / 10) as nat) + rev@.reverse());
            } else {
                assert(digits_bytes(m as nat) == digits_bytes((m / 10) as nat).push(d));
                assert(digits_bytes(n as nat) =~= digits_bytes((m / 10) as nat) + rev@.reverse());
            }
        }
        m = m / 10;
    }
    let dl: u8 = (m % 10) as u8 + 48;
    let ghost pre = rev@;
    rev.push(dl);
    proof {
        assert(rev@.reverse() =~= seq![dl] + pre.reverse());
        assert(digits_bytes(n as nat) =~= rev@.reverse());
    }
    // reverse into most-significant-first order
    let mut out: Vec<u8> = Vec::new();
    let mut i: usize = rev.len();
    while i > 0
        invariant
            i <= rev@.len(),
            out@.len() == rev@.len() - i,
            forall|k: int| 0 <= k < out@.len() ==> out@[k] == rev@[rev@.len() - 1 - k],
        decreases i,
    {
        i = i - 1;
        let b = rev[i];
        out.push(b);
    }
    proof {
        assert(out@ =~= rev@.reverse());
        lemma_digits_encode(n as nat);
    }
    match string_from_utf8(out) {
        Some(s) => s,
        None => {
            proof {
                assert(false);
            }
            String::new()
        },
    }
}

} // verus!
