//! Ratios for the report, in hundredths, rounded half up.

use vstd::prelude::*;
use crate::decimal::{Decimal, lemma_at_scale_nonnegative, scale_up};

verus! {

/// Why a ratio is not given.
#[derive(Debug, Clone, Copy, PartialEq, Eq, Structural)]
pub enum RatioError {
    /// The denominator is zero.
    DivisionUndefined,
    /// The two numbers cannot be brought to one scale in 64 bits.
    OutOfRange,
}

/// `100 * n / d`, rounded half up.
pub open spec fn rounded_hundredths(n: int, d: int) -> int {
    (200 * n + d) / (2 * d)
}

/// `100 * n / d`, rounded half up; an error when `d` is zero.
pub fn ratio_hundredths(n: u64, d: u64) -> (r: Result<u128, RatioError>)
    ensures
        d == 0 ==> r == Err::<u128, RatioError>(RatioError::DivisionUndefined),
        d > 0 ==> r == Ok::<u128, RatioError>(rounded_hundredths(n as int, d as int) as u128),
{
    if d == 0 {
        return Err(RatioError::DivisionUndefined);
    }
    let num: u128 = 200 * (n as u128) + (d as u128);
    let den: u128 = 2 * (d as u128);
    proof {
        assert(num / den <= num) by (nonlinear_arith)
            requires den >= 2, num >= 0;
    }
    Ok(num / den)
}

/// The ratio of two decimals in hundredths, rounded half up, computed
/// exactly at the larger of their scales.
pub fn decimal_ratio_hundredths(n: Decimal, d: Decimal) -> (r: Result<u128, RatioError>)
    ensures
        ({
            let k = (if n.scale >= d.scale { n.scale } else { d.scale }) as nat;
            &&& d.mantissa == 0 ==> r == Err::<u128, RatioError>(RatioError::DivisionUndefined)
            &&& d.mantissa > 0 && n.at_scale(k) <= u64::MAX && d.at_scale(k) <= u64::MAX ==> r
                == Ok::<u128, RatioError>(rounded_hundredths(n.at_scale(k), d.at_scale(k)) as u128)
            &&& d.mantissa > 0 && (n.at_scale(k) > u64::MAX || d.at_scale(k) > u64::MAX) ==> r
                == Err::<u128, RatioError>(RatioError::OutOfRange)
        }),
{
    if d.mantissa == 0 {
        return Err(RatioError::DivisionUndefined);
    }
    let k = if n.scale >= d.scale { n.scale } else { d.scale };
    let a = match scale_up(n.mantissa, k - n.scale) {
        Some(a) => a,
        None => {
            return Err(RatioError::OutOfRange);
        },
    };
    let b = match scale_up(d.mantissa, k - d.scale) {
        Some(b) => b,
        None => {
            return Err(RatioError::OutOfRange);
        },
    };
    proof {
        lemma_at_scale_nonnegative(n, k as nat);
        vstd::arithmetic::power::lemma_pow_positive(10, (k - d.scale) as nat);
        assert(d.mantissa * vstd::arithmetic::power::pow(10, (k - d.scale) as nat) > 0)
            by (nonlinear_arith)
            requires d.mantissa > 0, vstd::arithmetic::power::pow(10, (k - d.scale) as nat) > 0;
    }
    ratio_hundredths(a, b)
}

/// Whole kilobytes (of 1000 bytes) in `bytes`, as the report shows sizes.
pub fn kilobytes(bytes: u64) -> (r: u64)
    ensures
        r == bytes / 1000,
{
    bytes / 1000
}

} // verus!
