//! Exact decimal prices.
//!
//! Spot prices arrive as decimal text such as `0.0605`. The aggregator keeps
//! them exact by reading them into whole micro-units (millionths of the
//! currency unit): `0.0605` becomes `60500`. A price is accepted when it is
//! unsigned decimal text with at most twelve digits before the point and at
//! most six after it, so every accepted value fits comfortably in a `u64`.

use vstd::prelude::*;

use crate::SpotError;

verus! {

/// How many fractional digits a price may carry: one micro-unit is the
/// smallest step.
pub const FRAC_DIGITS: usize = 6;

/// How many integral digits a price may carry.
pub const INT_DIGITS: usize = 12;

pub open spec fn is_ascii_digit(b: u8) -> bool {
    48 <= b <= 57
}

pub open spec fn all_digits(s: Seq<u8>) -> bool {
    forall|i: int| 0 <= i < s.len() ==> is_ascii_digit(#[trigger] s[i])
}

/// The number written by a string of decimal digits, most significant first.
pub open spec fn digits_value(s: Seq<u8>) -> int
    decreases s.len(),
{
    if s.len() == 0 {
        0
    } else {
        digits_value(s.drop_last()) * 10 + (s.last() - 48)
    }
}

pub open spec fn pow10(n: nat) -> int
    decreases n,
{
    if n == 0 {
        1
    } else {
        10 * pow10((n - 1) as nat)
    }
}

/// The position of the first decimal point, or the length if there is none.
pub open spec fn point_index(s: Seq<u8>) -> int
    decreases s.len(),
{
    if s.len() == 0 {
        0
    } else if s[0] == 46 {
        0
    } else {
        1 + point_index(s.drop_first())
    }
}

/// The digits before the decimal point.
pub open spec fn int_part(s: Seq<u8>) -> Seq<u8> {
    s.take(point_index(s))
}

/// The digits after the decimal point; empty if there is no point.
pub open spec fn frac_part(s: Seq<u8>) -> Seq<u8> {
    if point_index(s) == s.len() {
        Seq::empty()
    } else {
        s.skip(point_index(s) + 1)
    }
}

/// Decimal text the aggregator accepts: digits with at most one point,
/// at least one digit in all, at most `INT_DIGITS` integral and
/// `FRAC_DIGITS` fractional digits.
pub open spec fn valid_price(s: Seq<u8>) -> bool {
    &&& all_digits(int_part(s))
    &&& all_digits(frac_part(s))
    &&& int_part(s).len() + frac_part(s).len() >= 1
    &&& int_part(s).len() <= INT_DIGITS
    &&& frac_part(s).len() <= FRAC_DIGITS
}

/// The value of valid price text, in micro-units.
pub open spec fn price_micros(s: Seq<u8>) -> int {
    digits_value(int_part(s)) * pow10(FRAC_DIGITS as nat) + digits_value(frac_part(s)) * pow10(
        (FRAC_DIGITS - frac_part(s).len()) as nat,
    )
}

/// A run of digits writes a value below ten to the power of its length.
pub proof fn lemma_digits_value_bound(s: Seq<u8>)
    requires
        all_digits(s),
    ensures
        0 <= digits_value(s) < pow10(s.len() as nat),
    decreases s.len(),
{
    if s.len() > 0 {
        assert(all_digits(s.drop_last())) by {
            assert(forall|i: int|
                0 <= i < s.len() - 1 ==> s.drop_last()[i] == #[trigger] s[i]);
        }
        lemma_digits_value_bound(s.drop_last());
    }
}

pub proof fn lemma_pow10_monotonic(m: nat, n: nat)
    requires
        m <= n,
    ensures
        pow10(m) <= pow10(n),
    decreases n,
{
    if m < n {
        lemma_pow10_monotonic(m, (n - 1) as nat);
        assert(pow10((n - 1) as nat) >= 1) by {
            lemma_pow10_positive((n - 1) as nat);
        }
    }
}

pub proof fn lemma_pow10_twelve()
    ensures
        pow10(12) == 1000000000000,
{
    reveal_with_fuel(pow10, 13);
}

pub proof fn lemma_pow10_six()
    ensures
        pow10(6) == 1000000,
{
    reveal_with_fuel(pow10, 7);
}

pub proof fn lemma_pow10_positive(n: nat)
    ensures
        pow10(n) >= 1,
    decreases n,
{
    if n > 0 {
        lemma_pow10_positive((n - 1) as nat);
    }
}

/// A fractional part scaled out to six digits stays below one whole unit.
proof fn lemma_frac_scaled_bound(f: Seq<u8>)
    requires
        all_digits(f),
        f.len() <= 6,
    ensures
        0 <= digits_value(f) * pow10((6 - f.len()) as nat) < 1000000,
{
    lemma_digits_value_bound(f);
    lemma_pow10_positive((6 - f.len()) as nat);
    assert(pow10(f.len() as nat) * pow10((6 - f.len()) as nat) == pow10(6)) by {
        lemma_pow10_add(f.len() as nat, (6 - f.len()) as nat);
    }
    lemma_pow10_six();
    assert(digits_value(f) * pow10((6 - f.len()) as nat) <= (pow10(f.len() as nat) - 1) * pow10(
        (6 - f.len()) as nat,
    )) by (nonlinear_arith)
        requires
            digits_value(f) <= pow10(f.len() as nat) - 1,
            pow10((6 - f.len()) as nat) >= 1,
    ;
    assert((pow10(f.len() as nat) - 1) * pow10((6 - f.len()) as nat) < pow10(f.len() as nat)
        * pow10((6 - f.len()) as nat)) by (nonlinear_arith)
        requires
            pow10((6 - f.len()) as nat) >= 1,
    ;
    assert(digits_value(f) >= 0);
    assert(digits_value(f) * pow10((6 - f.len()) as nat) >= 0) by (nonlinear_arith)
        requires
            digits_value(f) >= 0,
            pow10((6 - f.len()) as nat) >= 1,
    ;
}

proof fn lemma_pow10_add(m: nat, n: nat)
    ensures
        pow10(m) * pow10(n) == pow10(m + n),
    decreases m,
{
    if m == 0 {
    } else {
        lemma_pow10_add((m - 1) as nat, n);
        assert(pow10(m) * pow10(n) == 10 * (pow10((m - 1) as nat) * pow10(n)))
            by (nonlinear_arith)
            requires
                pow10(m) == 10 * pow10((m - 1) as nat),
        ;
    }
}

/// Where the first decimal point of `s` sits, found by scanning.
proof fn lemma_point_index_from_scan(s: Seq<u8>, i: int)
    requires
        0 <= i <= s.len(),
        forall|j: int| 0 <= j < i ==> #[trigger] s[j] != 46,
        i < s.len() ==> s[i] == 46,
    ensures
        point_index(s) == i,
    decreases s.len(),
{
    if s.len() > 0 && s[0] != 46 {
        assert(forall|j: int|
            0 <= j < i - 1 ==> s.drop_first()[j] == #[trigger] s[j + 1]);
        lemma_point_index_from_scan(s.drop_first(), i - 1);
    }
}

/// Appending one digit multiplies the value by ten and adds the digit.
proof fn lemma_digits_value_step(s: Seq<u8>, i: int)
    requires
        0 <= i < s.len(),
    ensures
        digits_value(s.take(i + 1)) == digits_value(s.take(i)) * 10 + (s[i] - 48),
{
    assert(s.take(i + 1).drop_last() =~= s.take(i));
    assert(s.take(i + 1).last() == s[i]);
}

/// Read a run of decimal digits as a number.
///
/// Returns the value of `text[start .. start + count]`, or `None` if any
/// byte in that range is not a digit. `count` is at most twelve, so the
/// value always fits.
fn read_digits(text: &Vec<u8>, start: usize, count: usize) -> (r: Option<u64>)
    requires
        start + count <= text@.len(),
        count <= 12,
    ensures
        r is Some <==> all_digits(text@.subrange(start as int, start + count)),
        r is Some ==> r->0 == digits_value(text@.subrange(start as int, start + count)),
{
    let ghost whole = text@.subrange(start as int, start + count);
    let mut acc: u64 = 0;
    let mut i: usize = 0;
    while i < count
        invariant
            i <= count,
            start + count <= text@.len(),
            text@.len() == text.len(),
            count <= 12,
            whole == text@.subrange(start as int, start + count),
            all_digits(whole.take(i as int)),
            acc == digits_value(whole.take(i as int)),
            acc < pow10(i as nat),
        decreases count - i,
    {
        let b = text[start + i];
        assert(whole[i as int] == text@[start + i]);
        if b < 48 || b > 57 {
            assert(!is_ascii_digit(whole[i as int]));
            return None;
        }
        proof {
            assert(forall|j: int|
                0 <= j < i + 1 ==> is_ascii_digit(#[trigger] whole.take(i as int + 1)[j]));
            lemma_digits_value_step(whole, i as int);
            lemma_pow10_monotonic((i + 1) as nat, 12);
            lemma_pow10_twelve();
        }
        acc = acc * 10 + ((b - 48) as u64);
        i = i + 1;
    }
    proof {
        assert(whole.take(count as int) =~= whole);
    }
    Some(acc)
}

/// Scale factors for the missing fractional digits.
fn pow10_u64(n: usize) -> (r: u64)
    requires
        n <= 6,
    ensures
        r == pow10(n as nat),
{
    let mut r: u64 = 1;
    let mut i: usize = 0;
    while i < n
        invariant
            i <= n,
            n <= 6,
            r == pow10(i as nat),
            r <= 1000000,
        decreases n - i,
    {
        proof {
            lemma_pow10_monotonic((i + 1) as nat, 6);
            lemma_pow10_six();
        }
        r = r * 10;
        i = i + 1;
    }
    r
}

/// Read decimal price text into whole micro-units.
///
/// Accepts unsigned decimal text with at most one point, at least one digit,
/// at most twelve integral and six fractional digits; anything else is
/// `MalformedPrice`. A malformed price fails the whole aggregation, so the
/// caller gives up on the first `Err`.
pub fn parse_price(text: &Vec<u8>) -> (r: Result<u64, SpotError>)
    ensures
        r is Ok <==> valid_price(text@),
        r is Ok ==> r->Ok_0 == price_micros(text@),
        r is Err ==> r->Err_0 == SpotError::MalformedPrice,
{
    // Find the first decimal point.
    let mut point: usize = text.len();
    let mut i: usize = 0;
    while i < text.len()
        invariant_except_break
            i <= text@.len(),
            point == text@.len(),
            forall|j: int| 0 <= j < i ==> #[trigger] text@[j] != 46,
        ensures
            point <= text@.len(),
            forall|j: int| 0 <= j < point ==> #[trigger] text@[j] != 46,
            point < text@.len() ==> text@[point as int] == 46,
        decreases text@.len() - i,
    {
        if text[i] == 46 {
            point = i;
            break;
        }
        i = i + 1;
    }
    proof {
        lemma_point_index_from_scan(text@, point as int);
    }

    let int_len = point;
    let frac_len = if point == text.len() {
        0
    } else {
        text.len() - point - 1
    };
    proof {
        assert(int_part(text@) =~= text@.take(point as int));
        if point != text@.len() {
            assert(frac_part(text@) =~= text@.skip(point as int + 1));
        }
        assert(int_part(text@).len() == int_len);
        assert(frac_part(text@).len() == frac_len);
    }
    if int_len > INT_DIGITS || frac_len > FRAC_DIGITS || int_len + frac_len < 1 {
        return Err(SpotError::MalformedPrice);
    }

    proof {
        assert(text@.subrange(0, int_len as int) =~= int_part(text@));
    }
    let whole = match read_digits(text, 0, int_len) {
        Some(v) => v,
        None => {
            return Err(SpotError::MalformedPrice);
        },
    };
    let frac = if point == text.len() {
        proof {
            assert(text@.subrange(text@.len() as int, text@.len() as int) =~= frac_part(text@));
        }
        0u64
    } else {
        proof {
            assert(text@.subrange(point + 1, point + 1 + frac_len) =~= frac_part(text@));
        }
        match read_digits(text, point + 1, frac_len) {
            Some(v) => v,
            None => {
                return Err(SpotError::MalformedPrice);
            },
        }
    };

    proof {
        lemma_digits_value_bound(int_part(text@));
        lemma_pow10_monotonic(int_part(text@).len() as nat, 12);
        lemma_pow10_twelve();
        lemma_pow10_six();
        lemma_frac_scaled_bound(frac_part(text@));
    }
    let scale = pow10_u64(FRAC_DIGITS - frac_len);
    assert(whole * 1000000 <= 999999999999i64 * 1000000) by (nonlinear_arith)
        requires
            0 <= whole <= 999999999999i64,
    ;
    assert(frac * scale < 1000000);
    Ok(whole * 1000000 + frac * scale)
}

} // verus!
