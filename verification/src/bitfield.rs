//! Decoding of hex-encoded aggregation bitfields.
//!
//! A bitfield arrives as a hex string, optionally prefixed `0x`. It is
//! read as one big unsigned base-16 integer, rendered in binary with no
//! leading zeros, and the zero bits of that rendering are counted: each
//! zero bit is one missed attestation. Leading zero bits of the
//! most-significant digit are lost by this conversion; that fidelity
//! quirk of decoding through a big-integer rendering is kept on purpose.

use vstd::prelude::*;
use vstd::string::StrSliceExecFns;
use num_traits::Num;
use crate::errors::DecodeError;

verus! {

/// True of the sixteen hexadecimal digit characters, in either case.
pub open spec fn is_hex_digit(c: char) -> bool {
    ||| ('0' as u32) <= (c as u32) && (c as u32) <= ('9' as u32)
    ||| ('a' as u32) <= (c as u32) && (c as u32) <= ('f' as u32)
    ||| ('A' as u32) <= (c as u32) && (c as u32) <= ('F' as u32)
}

/// Numeric value of one hexadecimal digit character.
pub open spec fn hex_digit_value(c: char) -> nat {
    if ('0' as u32) <= (c as u32) && (c as u32) <= ('9' as u32) {
        ((c as u32) - ('0' as u32)) as nat
    } else if ('a' as u32) <= (c as u32) && (c as u32) <= ('f' as u32) {
        ((c as u32) - ('a' as u32) + 10) as nat
    } else {
        ((c as u32) - ('A' as u32) + 10) as nat
    }
}

/// The natural number a sequence of hexadecimal digits denotes, read
/// most significant digit first.
pub open spec fn hex_value(s: Seq<char>) -> nat
    decreases s.len(),
{
    if s.len() == 0 {
        0
    } else {
        (16 * hex_value(s.drop_last()) + hex_digit_value(s.last())) as nat
    }
}

/// The binary rendering of a natural number: most significant bit first,
/// no leading zeros, and a single `'0'` for zero.
pub open spec fn binary_repr(n: nat) -> Seq<char>
    decreases n,
{
    if n == 0 {
        seq!['0']
    } else if n == 1 {
        seq!['1']
    } else {
        binary_repr(n / 2).push(if n % 2 == 1 { '1' } else { '0' })
    }
}

/// How many characters of a sequence are the character `'0'`.
pub open spec fn count_zero_chars(s: Seq<char>) -> nat
    decreases s.len(),
{
    if s.len() == 0 {
        0
    } else {
        (count_zero_chars(s.drop_last()) + if s.last() == '0' { 1nat } else { 0nat }) as nat
    }
}

/// The bitfield with one optional leading `0x` removed.
pub open spec fn strip_hex_prefix(s: Seq<char>) -> Seq<char> {
    if s.len() >= 2 && s[0] == '0' && s[1] == 'x' {
        s.subrange(2, s.len() as int)
    } else {
        s
    }
}

/// A bitfield is valid when, after the optional `0x` prefix, at least one
/// character remains and every one of them is a hexadecimal digit.
pub open spec fn valid_bitfield(s: Seq<char>) -> bool {
    &&& strip_hex_prefix(s).len() > 0
    &&& forall|i: int|
        0 <= i < strip_hex_prefix(s).len() ==> is_hex_digit(#[trigger] strip_hex_prefix(s)[i])
}

/// The missed-attestation count a valid bitfield decodes to: the number
/// of zero bits in the binary expansion implied by the hex value.
pub open spec fn missed_in_bitfield(s: Seq<char>) -> nat {
    count_zero_chars(binary_repr(hex_value(strip_hex_prefix(s))))
}

/// Relies on num_bigint: `BigUint::from_str_radix` with radix 16 parses a
/// nonempty string of hexadecimal digits (either case) as a base-16
/// natural number, and `BigUint::to_str_radix` with radix 2 renders that
/// number in binary, most significant bit first, with no leading zeros
/// and `"0"` for zero.
#[verifier::external_body]
fn hex_to_binary(s: &str) -> (r: String)
    requires
        s@.len() > 0,
        forall|i: int| 0 <= i < s@.len() ==> is_hex_digit(#[trigger] s@[i]),
    ensures
        r@ == binary_repr(hex_value(s@)),
{
    let n = num_bigint::BigUint::from_str_radix(s, 16).unwrap();
    n.to_str_radix(2)
}

/// Count the `'0'` characters of a string.
fn count_zero_digits(s: &str) -> (count: u64)
    ensures
        count == count_zero_chars(s@),
{
    let n = s.unicode_len();
    let mut count: u64 = 0;
    let mut i: usize = 0;
    while i < n
        invariant
            i <= n,
            n == s@.len(),
            count == count_zero_chars(s@.subrange(0, i as int)),
            count <= i,
        decreases n - i,
    {
        let c = s.get_char(i);
        if c == '0' {
            count = count + 1;
        }
        i = i + 1;
        proof {
            let pre = s@.subrange(0, i as int);
            assert(pre.drop_last() =~= s@.subrange(0, i - 1));
            assert(pre.last() == s@[i - 1]);
        }
    }
    proof {
        assert(s@.subrange(0, n as int) =~= s@);
    }
    count
}

/// Whether one character is a hexadecimal digit.
fn is_hex_digit_char(c: char) -> (r: bool)
    ensures
        r == is_hex_digit(c),
{
    let u = c as u32;
    (48 <= u && u <= 57) || (97 <= u && u <= 102) || (65 <= u && u <= 70)
}

/// Decode a hex-encoded aggregation bitfield into its missed-attestation
/// count: the number of zero bits in the binary expansion of its value.
/// A malformed bitfield — one with a character that is not a hex digit,
/// or with no digits at all — fails with `DecodeError`.
pub fn calculate_missed_attestations(aggregationbits: &str) -> (r: Result<u64, DecodeError>)
    ensures
        r is Ok <==> valid_bitfield(aggregationbits@),
        r is Ok ==> r->Ok_0 == missed_in_bitfield(aggregationbits@),
{
    let n = aggregationbits.unicode_len();
    let digits: &str = if n >= 2 && aggregationbits.get_char(0) == '0' && aggregationbits.get_char(
        1,
    ) == 'x' {
        aggregationbits.substring_char(2, n)
    } else {
        aggregationbits
    };
    proof {
        assert(digits@ =~= strip_hex_prefix(aggregationbits@));
    }
    let d = digits.unicode_len();
    if d == 0 {
        return Err(DecodeError);
    }
    let mut i: usize = 0;
    while i < d
        invariant
            i <= d,
            d == digits@.len(),
            digits@ == strip_hex_prefix(aggregationbits@),
            forall|j: int| 0 <= j < i ==> is_hex_digit(#[trigger] digits@[j]),
        decreases d - i,
    {
        if !is_hex_digit_char(digits.get_char(i)) {
            proof {
                assert(!is_hex_digit(strip_hex_prefix(aggregationbits@)[i as int]));
            }
            return Err(DecodeError);
        }
        i = i + 1;
    }
    let binary = hex_to_binary(digits);
    Ok(count_zero_digits(binary.as_str()))
}

} // verus!
