//! The network participation rate over the most recent epoch window.
//!
//! The rate is the fraction `1 - missed / (epoch_count * validator_sum)`
//! over the window the store aggregates. The service boundary renders it
//! as a percentage with two decimal places, rounding to the nearest
//! hundredth of a percent with halves rounded up; when no rate can be
//! computed the default `0.00%` is rendered instead.

use vstd::prelude::*;
use vstd::string::StringExecFns;
use crate::errors::InsufficientDataError;
use crate::models::Epoch;
use crate::store::{
    RecordStore, epoch_sums_fit, epochs_above, lemma_epochs_above_finite, max_epoch_of,
    sum_missed_above, sum_validators_above, window_min_epoch,
};
use crate::models::{Slot, wf_slot};

verus! {

/// The participation rate as an exact fraction: the rate is
/// `1 - missed / expected`, where `expected` is the distinct-epoch count
/// of the window times its summed validator-set size.
#[derive(Clone, Copy, Debug, PartialEq, Eq, Structural)]
pub struct RateFraction {
    pub missed: u64,
    pub expected: u128,
}

/// Turn the window aggregate into the rate fraction. The rate's
/// denominator is `epoch_count * validator_set_size`; when either factor
/// is zero — an empty window, or one with no validators — no rate exists
/// and the computation fails with `InsufficientDataError`.
pub fn participation_rate_of(data: &Epoch) -> (r: Result<RateFraction, InsufficientDataError>)
    ensures
        r is Err <==> (data.epoch_count == 0 || data.validator_set_size == 0),
        r is Ok ==> r->Ok_0.missed == data.missed_attestations,
        r is Ok ==> r->Ok_0.expected == (data.epoch_count as int) * (data.validator_set_size as int),
{
    if data.epoch_count == 0 || data.validator_set_size == 0 {
        Err(InsufficientDataError)
    } else {
        proof {
            vstd::arithmetic::mul::lemma_mul_upper_bound(
                data.epoch_count as int,
                u64::MAX as int,
                data.validator_set_size as int,
                u64::MAX as int,
            );
        }
        Ok(
            RateFraction {
                missed: data.missed_attestations,
                expected: (data.epoch_count as u128) * (data.validator_set_size as u128),
            },
        )
    }
}

/// The highest stored epoch lies inside its own window, so a nonempty
/// store always has at least one distinct epoch in the window.
pub proof fn lemma_window_epoch_count_pos(s: Seq<Slot>)
    requires
        s.len() > 0,
        forall|i: int| 0 <= i < s.len() ==> wf_slot(#[trigger] s[i]),
    ensures
        epochs_above(s, window_min_epoch(s)).len() > 0,
{
    lemma_window_contains_max(s, window_min_epoch(s));
    lemma_epochs_above_finite(s, window_min_epoch(s));
    vstd::set::axiom_set_contains_len(epochs_above(s, window_min_epoch(s)), max_epoch_of(s));
}

proof fn lemma_window_contains_max(s: Seq<Slot>, min: int)
    requires
        s.len() > 0,
        forall|i: int| 0 <= i < s.len() ==> wf_slot(#[trigger] s[i]),
        min < max_epoch_of(s),
    ensures
        epochs_above(s, min).contains(max_epoch_of(s)),
    decreases s.len(),
{
    let s1 = s.drop_last();
    if s.last().epoch > max_epoch_of(s1) {
        assert(epochs_above(s, min).contains(s.last().epoch as int));
    } else if s1.len() == 0 {
        assert(max_epoch_of(s) == 0 && s.last().epoch == 0);
        assert(epochs_above(s, min).contains(s.last().epoch as int));
    } else {
        lemma_window_contains_max(s1, min);
    }
}

/// Compute the network participation rate from the store: aggregate the
/// most recent epoch window and return the exact fraction, or fail with
/// `InsufficientDataError` exactly when the store is empty or the
/// window's validator-set sum is zero.
pub fn calculate_network_participation_rate(store: &RecordStore) -> (r: Result<
    RateFraction,
    InsufficientDataError,
>)
    requires
        store.wf(),
        epoch_sums_fit(store@),
    ensures
        r is Err <==> (store@.len() == 0 || sum_validators_above(store@, window_min_epoch(store@))
            == 0),
        r is Ok ==> r->Ok_0.missed == sum_missed_above(store@, window_min_epoch(store@)),
        r is Ok ==> r->Ok_0.expected == epochs_above(store@, window_min_epoch(store@)).len()
            * sum_validators_above(store@, window_min_epoch(store@)),
{
    let data = store.get_last_five_epochs_data();
    proof {
        if store@.len() > 0 {
            lemma_window_epoch_count_pos(store@);
        }
    }
    participation_rate_of(&data)
}

/// The decimal digit character of one digit value.
pub open spec fn digit_char(d: int) -> char {
    if d == 0 {
        '0'
    } else if d == 1 {
        '1'
    } else if d == 2 {
        '2'
    } else if d == 3 {
        '3'
    } else if d == 4 {
        '4'
    } else if d == 5 {
        '5'
    } else if d == 6 {
        '6'
    } else if d == 7 {
        '7'
    } else if d == 8 {
        '8'
    } else {
        '9'
    }
}

/// The decimal rendering of a natural number, most significant digit
/// first, with no leading zeros and a single `'0'` for zero.
pub open spec fn dec_repr(n: nat) -> Seq<char>
    decreases n,
{
    if n < 10 {
        seq![digit_char(n as int)]
    } else {
        dec_repr(n / 10).push(digit_char((n % 10) as int))
    }
}

/// The rate scaled to hundredths of a percent, rounded to the nearest
/// whole hundredth with halves rounded up — except that what is rounded
/// here is the missed fraction `missed / expected`, scaled by 10000.
pub open spec fn rounded_missed_basis_points(missed: nat, expected: nat) -> nat
    recommends
        expected > 0,
{
    let x = 10000 * missed;
    let q = x / expected;
    let r = x % expected;
    if expected - r <= r {
        q + 1
    } else {
        q
    }
}

/// A percentage value in hundredths, rendered with two decimal places
/// and the percent sign.
pub open spec fn percent_chars(v: nat) -> Seq<char> {
    dec_repr(v / 100) + seq!['.'] + seq![
        digit_char(((v % 100) / 10) as int),
        digit_char((v % 100 % 10) as int),
    ] + seq!['%']
}

/// The rendered participation rate `1 - missed / expected`: the rounded
/// percentage, negative when more attestations were missed than the
/// window expected.
pub open spec fn rate_text(missed: nat, expected: nat) -> Seq<char>
    recommends
        expected > 0,
{
    let t = rounded_missed_basis_points(missed, expected);
    if t <= 10000 {
        "Participation Rate: "@ + percent_chars((10000 - t) as nat)
    } else {
        "Participation Rate: -"@ + percent_chars((t - 10000) as nat)
    }
}

/// What the service renders for a window aggregate: the rounded rate, or
/// the default `0.00%` when no rate can be computed.
pub open spec fn service_text(data: Epoch) -> Seq<char> {
    if data.epoch_count == 0 || data.validator_set_size == 0 {
        "Participation Rate: 0.00%"@
    } else {
        rate_text(
            data.missed_attestations as nat,
            (data.epoch_count as nat) * (data.validator_set_size as nat),
        )
    }
}

/// The one-character string of one decimal digit value.
fn digit_str(d: u64) -> (r: &'static str)
    requires
        d < 10,
    ensures
        r@ == seq![digit_char(d as int)],
{
    let r: &'static str = if d == 0 {
        "0"
    } else if d == 1 {
        "1"
    } else if d == 2 {
        "2"
    } else if d == 3 {
        "3"
    } else if d == 4 {
        "4"
    } else if d == 5 {
        "5"
    } else if d == 6 {
        "6"
    } else if d == 7 {
        "7"
    } else if d == 8 {
        "8"
    } else {
        "9"
    };
    proof {
        reveal_strlit("0");
        reveal_strlit("1");
        reveal_strlit("2");
        reveal_strlit("3");
        reveal_strlit("4");
        reveal_strlit("5");
        reveal_strlit("6");
        reveal_strlit("7");
        reveal_strlit("8");
        reveal_strlit("9");
        assert(r@ =~= seq![digit_char(d as int)]);
    }
    r
}

/// The digit values of a digit sequence read back to front, as characters.
spec fn rev_digit_chars(ds: Seq<u64>) -> Seq<char> {
    Seq::new(ds.len(), |i: int| digit_char(ds[ds.len() - 1 - i] as int))
}

/// Append the decimal rendering of a number to the string.
fn append_decimal(out: &mut String, n: u128)
    ensures
        final(out)@ == old(out)@ + dec_repr(n as nat),
{
    let mut digits: Vec<u64> = Vec::new();
    let mut m = n;
    proof {
        assert(dec_repr(n as nat) =~= dec_repr(m as nat) + rev_digit_chars(digits@));
    }
    while m >= 10
        invariant
            dec_repr(n as nat) == dec_repr(m as nat) + rev_digit_chars(digits@),
            forall|j: int| 0 <= j < digits@.len() ==> (#[trigger] digits@[j]) < 10,
        decreases m,
    {
        let d = (m % 10) as u64;
        digits.push(d);
        m = m / 10;
        proof {
            assert(rev_digit_chars(digits@) =~= seq![digit_char(d as int)]
                + rev_digit_chars(digits@.drop_last()));
            assert(dec_repr((m * 10 + d) as nat) == dec_repr(m as nat).push(
                digit_char(d as int),
            ));
            assert(dec_repr(m as nat).push(digit_char(d as int)) + rev_digit_chars(
                digits@.drop_last(),
            ) =~= dec_repr(m as nat) + rev_digit_chars(digits@));
        }
    }
    out.append(digit_str(m as u64));
    let len = digits.len();
    let mut j: usize = len;
    proof {
        assert(out@ =~= old(out)@ + dec_repr(m as nat) + rev_digit_chars(digits@).subrange(
            0,
            len - j,
        ));
    }
    while j > 0
        invariant
            j <= len,
            len == digits@.len(),
            forall|k: int| 0 <= k < digits@.len() ==> (#[trigger] digits@[k]) < 10,
            dec_repr(n as nat) == dec_repr(m as nat) + rev_digit_chars(digits@),
            m < 10,
            out@ == old(out)@ + dec_repr(m as nat) + rev_digit_chars(digits@).subrange(
                0,
                len - j,
            ),
        decreases j,
    {
        j = j - 1;
        out.append(digit_str(digits[j]));
        proof {
            let rev = rev_digit_chars(digits@);
            assert(rev[len - j - 1] == digit_char(digits@[j as int] as int));
            assert(rev.subrange(0, len - j) =~= rev.subrange(0, len - j - 1).push(
                rev[len - j - 1],
            ));
            assert(out@ =~= old(out)@ + dec_repr(m as nat) + rev.subrange(0, len - j));
        }
    }
    proof {
        assert(rev_digit_chars(digits@).subrange(0, len as int) =~= rev_digit_chars(digits@));
        assert(out@ =~= old(out)@ + dec_repr(n as nat));
    }
}

/// Append a percentage in hundredths with two decimal places and the
/// percent sign.
fn append_percent(out: &mut String, v: u128)
    ensures
        final(out)@ == old(out)@ + percent_chars(v as nat),
{
    append_decimal(out, v / 100);
    out.append(".");
    let frac = (v % 100) as u64;
    out.append(digit_str(frac / 10));
    out.append(digit_str(frac % 10));
    out.append("%");
    proof {
        reveal_strlit(".");
        reveal_strlit("%");
        assert("."@ =~= seq!['.']);
        assert("%"@ =~= seq!['%']);
        assert(out@ =~= old(out)@ + percent_chars(v as nat));
    }
}

/// Render the participation rate for display: the window's rate as a
/// percentage with two decimal places, or the default `0.00%` when the
/// aggregate supports no rate. This is the text the service layer serves.
pub fn participation_rate_text(data: &Epoch) -> (r: String)
    ensures
        r@ == service_text(*data),
{
    match participation_rate_of(data) {
        Err(_) => "Participation Rate: 0.00%".to_owned(),
        Ok(f) => {
            proof {
                assert((f.expected as int) > 0) by (nonlinear_arith)
                    requires
                        f.expected == (data.epoch_count as int) * (data.validator_set_size as int),
                        data.epoch_count > 0,
                        data.validator_set_size > 0,
                ;
            }
            let x: u128 = 10000u128 * (f.missed as u128);
            let e = f.expected;
            let q = x / e;
            let r0 = x % e;
            proof {
                vstd::arithmetic::div_mod::lemma_div_nonincreasing(x as int, e as int);
            }
            let t = if e - r0 <= r0 {
                q + 1
            } else {
                q
            };
            proof {
                assert(t == rounded_missed_basis_points(f.missed as nat, f.expected as nat));
            }
            let mut out = "Participation Rate: ".to_owned();
            if t <= 10000 {
                append_percent(&mut out, 10000 - t);
            } else {
                out.append("-");
                append_percent(&mut out, t - 10000);
                proof {
                    reveal_strlit("Participation Rate: ");
                    reveal_strlit("-");
                    reveal_strlit("Participation Rate: -");
                    assert("Participation Rate: "@ + "-"@ =~= "Participation Rate: -"@);
                }
            }
            out
        },
    }
}

} // verus!
