use vstd::prelude::*;
use crate::error::{ArgumentFault, Error};

verus! {

/// The byte `0`.
pub const ZERO_DIGIT: u8 = 48;

/// The byte `.`.
pub const DECIMAL_POINT: u8 = 46;

/// The number of fraction digits that a threshold keeps.
pub const FRACTION_DIGITS: usize = 19;

/// A prevalence threshold, held as the fraction `numerator / denominator`.
#[derive(Clone, Copy, Debug, PartialEq, Eq, Structural)]
pub struct Threshold {
    pub numerator: u64,
    pub denominator: u64,
}

impl Threshold {
    /// Whether the threshold is at least 0 and less than 1.
    pub open spec fn in_range(&self) -> bool {
        self.numerator < self.denominator
    }

    /// Whether `count` out of `samples` is strictly more than the threshold:
    /// `count / samples > numerator / denominator`, with both sides
    /// multiplied by the two denominators.
    pub open spec fn exceeded_by(&self, count: nat, samples: nat) -> bool {
        count * self.denominator > self.numerator * samples
    }

    /// Whether the threshold is at least 0 and less than 1.
    pub fn is_in_range(&self) -> (within: bool)
        ensures
            within == self.in_range(),
    {
        self.numerator < self.denominator
    }

    /// Whether `count` out of `samples` is strictly more than the threshold.
    pub fn is_exceeded_by(&self, count: usize, samples: usize) -> (exceeded: bool)
        ensures
            exceeded == self.exceeded_by(count as nat, samples as nat),
    {
        proof {
            lemma_product_fits(count as int, self.denominator as int);
            lemma_product_fits(self.numerator as int, samples as int);
        }
        let left: u128 = (count as u128) * (self.denominator as u128);
        let right: u128 = (self.numerator as u128) * (samples as u128);
        left > right
    }
}

/// The product of two 64-bit numbers fits in 128 bits.
proof fn lemma_product_fits(a: int, b: int)
    requires
        0 <= a <= u64::MAX,
        0 <= b <= u64::MAX,
    ensures
        0 <= a * b <= u128::MAX,
{
    assert(0 <= a * b <= 0xFFFF_FFFF_FFFF_FFFF * 0xFFFF_FFFF_FFFF_FFFF) by (nonlinear_arith)
        requires
            0 <= a <= 0xFFFF_FFFF_FFFF_FFFF,
            0 <= b <= 0xFFFF_FFFF_FFFF_FFFF,
    ;
}

/// An identity that every sample holds exceeds every threshold below 1.
pub proof fn lemma_present_everywhere(threshold: Threshold, samples: nat)
    requires
        threshold.in_range(),
        samples > 0,
    ensures
        threshold.exceeded_by(samples, samples),
{
    let n = threshold.numerator as int;
    let d = threshold.denominator as int;
    assert(samples * d > n * samples) by (nonlinear_arith)
        requires
            0 <= n < d,
            samples > 0,
    ;
}

/// The comparison is strict: a ratio that equals the threshold does not
/// exceed it.
pub proof fn lemma_exact_ratio_excluded(threshold: Threshold, count: nat, samples: nat)
    requires
        count * threshold.denominator == threshold.numerator * samples,
    ensures
        !threshold.exceeded_by(count, samples),
{
}

/// An identity that no sample held exceeds no threshold.
pub proof fn lemma_absent_excluded(threshold: Threshold, samples: nat)
    ensures
        !threshold.exceeded_by(0, samples),
{
    let n = threshold.numerator as int;
    assert(n * samples >= 0) by (nonlinear_arith)
        requires
            n >= 0,
            samples >= 0,
    ;
}

/// Whether the byte is a decimal digit.
pub open spec fn is_digit(byte: u8) -> bool {
    48 <= byte <= 57
}

/// Whether every byte is a decimal digit.
pub open spec fn all_digits(s: Seq<u8>) -> bool {
    forall|i: int| 0 <= i < s.len() ==> is_digit(#[trigger] s[i])
}

/// The number that decimal digits spell.
pub open spec fn digits_value(s: Seq<u8>) -> nat
    decreases s.len(),
{
    if s.len() == 0 {
        0
    } else {
        digits_value(s.drop_last()) * 10 + (s.last() - 48) as nat
    }
}

/// Ten to the power of `k`.
pub open spec fn power_of_ten(k: nat) -> nat
    decreases k,
{
    if k == 0 {
        1
    } else {
        10 * power_of_ten((k - 1) as nat)
    }
}

/// The fraction digits of a decimal text that count: those behind `0.`, and
/// of more than nineteen the first nineteen.
pub open spec fn kept_digits(text: Seq<u8>) -> Seq<u8> {
    if text.len() - 2 > FRACTION_DIGITS {
        text.subrange(2, 2 + FRACTION_DIGITS as int)
    } else {
        text.skip(2)
    }
}

/// The threshold that a decimal text names. `0` names zero; `0.` with one
/// digit or more behind it names those digits over the power of ten with as
/// many zeros. No other text names a threshold.
pub open spec fn decimal_threshold(text: Seq<u8>) -> Option<Threshold> {
    if text.len() == 1 && text[0] == ZERO_DIGIT {
        Some(Threshold { numerator: 0, denominator: 1 })
    } else if text.len() >= 3 && text[0] == ZERO_DIGIT && text[1] == DECIMAL_POINT && all_digits(
        text.skip(2),
    ) {
        Some(
            Threshold {
                numerator: digits_value(kept_digits(text)) as u64,
                denominator: power_of_ten(kept_digits(text).len()) as u64,
            },
        )
    } else {
        None
    }
}

/// A power of ten with at most nineteen zeros fits in 64 bits.
pub proof fn lemma_power_fits(k: nat)
    requires
        k <= FRACTION_DIGITS,
    ensures
        1 <= power_of_ten(k) <= 10_000_000_000_000_000_000,
{
    reveal_with_fuel(power_of_ten, 21);
}

/// Digits spell a number below the power of ten with as many zeros.
pub proof fn lemma_digits_below_power(s: Seq<u8>)
    requires
        all_digits(s),
    ensures
        digits_value(s) < power_of_ten(s.len()),
    decreases s.len(),
{
    if s.len() > 0 {
        assert(is_digit(s[s.len() - 1]));
        assert forall|i: int| 0 <= i < s.drop_last().len() implies is_digit(
            #[trigger] s.drop_last()[i],
        ) by {
            assert(s.drop_last()[i] == s[i]);
        }
        lemma_digits_below_power(s.drop_last());
    }
}

/// Every threshold that a decimal text names is at least 0 and less than 1.
pub proof fn lemma_decimal_threshold_in_range(text: Seq<u8>)
    requires
        decimal_threshold(text) is Some,
    ensures
        decimal_threshold(text)->0.in_range(),
{
    if text.len() >= 3 {
        let kept = kept_digits(text);
        assert forall|i: int| 0 <= i < kept.len() implies is_digit(#[trigger] kept[i]) by {
            assert(kept[i] == text.skip(2)[i]);
        }
        lemma_digits_below_power(kept);
        lemma_power_fits(kept.len());
    }
}

/// Reads a threshold from its decimal text, and refuses every text that
/// names none.
pub fn parse_threshold(text: &[u8]) -> (parsed: Result<Threshold, Error>)
    ensures
        match decimal_threshold(text@) {
            Some(threshold) => parsed == Ok::<Threshold, Error>(threshold),
            None => parsed == Err::<Threshold, Error>(
                Error::ArgumentError(ArgumentFault::ThresholdOutOfRange),
            ),
        },
{
    if text.len() == 1 && text[0] == ZERO_DIGIT {
        return Ok(Threshold { numerator: 0, denominator: 1 });
    }
    if text.len() < 3 || text[0] != ZERO_DIGIT || text[1] != DECIMAL_POINT {
        return Err(Error::ArgumentError(ArgumentFault::ThresholdOutOfRange));
    }
    let mut numerator: u64 = 0;
    let mut denominator: u64 = 1;
    let mut i: usize = 2;
    let mut kept: usize = 0;
    proof {
        reveal_with_fuel(power_of_ten, 2);
    }
    while i < text.len()
        invariant
            2 <= i <= text@.len(),
            kept <= FRACTION_DIGITS,
            kept == if i - 2 > FRACTION_DIGITS {
                FRACTION_DIGITS as int
            } else {
                i - 2
            },
            forall|j: int| 2 <= j < i ==> is_digit(#[trigger] text@[j]),
            numerator == digits_value(text@.subrange(2, 2 + kept)),
            denominator == power_of_ten(kept as nat),
            numerator < denominator,
        decreases text@.len() - i,
    {
        let byte: u8 = text[i];
        if byte < 48 || byte > 57 {
            proof {
                assert(text@.skip(2)[i - 2] == byte);
            }
            return Err(Error::ArgumentError(ArgumentFault::ThresholdOutOfRange));
        }
        if kept < FRACTION_DIGITS {
            proof {
                lemma_power_fits((kept + 1) as nat);
                assert(text@.subrange(2, 2 + kept + 1).drop_last() =~= text@.subrange(
                    2,
                    2 + kept,
                ));
                assert(text@.subrange(2, 2 + kept + 1).last() == byte);
            }
            numerator = numerator * 10 + (byte - 48) as u64;
            denominator = denominator * 10;
            kept += 1;
        }
        i += 1;
    }
    proof {
        assert forall|j: int| 0 <= j < text@.skip(2).len() implies is_digit(
            #[trigger] text@.skip(2)[j],
        ) by {
            assert(text@.skip(2)[j] == text@[j + 2]);
        }
        assert(text@.skip(2) =~= text@.subrange(2, text@.len() as int));
        lemma_power_fits(kept as nat);
    }
    Ok(Threshold { numerator, denominator })
}

} // verus!
