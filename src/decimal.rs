//! Exact decimal numbers as printed by a tool: a mantissa and a count of
//! fractional digits, so `12.50` is 1250 with scale 2.

use vstd::prelude::*;
use vstd::arithmetic::power::*;

verus! {

/// The number `mantissa / 10^scale`.
#[derive(Debug, Clone, Copy, PartialEq, Eq, Structural)]
pub struct Decimal {
    pub mantissa: u64,
    pub scale: usize,
}

/// Why a byte string is not read as a number.
#[derive(Debug, Clone, Copy, PartialEq, Eq, Structural)]
pub enum NumberError {
    /// Not of the form `digits`, `digits.digits`, `digits.` or `.digits`.
    Malformed,
    /// Well formed, but its digits do not fit in a 64-bit mantissa.
    OutOfRange,
}

pub open spec fn is_digit(c: u8) -> bool {
    48 <= c <= 57
}

pub open spec fn is_dot(c: u8) -> bool {
    c == 46
}

/// Every byte is a digit or a dot.
pub open spec fn only_digits_and_dots(s: Seq<u8>) -> bool {
    forall|i: int| 0 <= i < s.len() ==> is_digit(#[trigger] s[i]) || is_dot(s[i])
}

/// How many dots `s` holds.
pub open spec fn dot_count(s: Seq<u8>) -> nat
    decreases s.len(),
{
    if s.len() == 0 {
        0
    } else {
        dot_count(s.drop_last()) + if is_dot(s.last()) { 1nat } else { 0nat }
    }
}

/// The integer that the digits of `s` spell when its dot is left out.
pub open spec fn digits_value(s: Seq<u8>) -> nat
    decreases s.len(),
{
    if s.len() == 0 {
        0
    } else if is_digit(s.last()) {
        digits_value(s.drop_last()) * 10 + (s.last() - 48) as nat
    } else {
        digits_value(s.drop_last())
    }
}

/// How many digits follow the first dot of `s`.
pub open spec fn fraction_digits(s: Seq<u8>) -> nat
    decreases s.len(),
{
    if s.len() == 0 {
        0
    } else if is_digit(s.last()) && dot_count(s.drop_last()) > 0 {
        fraction_digits(s.drop_last()) + 1
    } else {
        fraction_digits(s.drop_last())
    }
}

/// `s` is a plain non-negative decimal: digits with at most one dot, and at
/// least one digit.
pub open spec fn is_number_text(s: Seq<u8>) -> bool {
    only_digits_and_dots(s) && dot_count(s) <= 1 && dot_count(s) < s.len()
}

/// What reading `s` as a number gives.
pub open spec fn spec_parse_decimal(s: Seq<u8>) -> Result<Decimal, NumberError> {
    if !is_number_text(s) {
        Err(NumberError::Malformed)
    } else if digits_value(s) > u64::MAX {
        Err(NumberError::OutOfRange)
    } else {
        Ok(Decimal { mantissa: digits_value(s) as u64, scale: fraction_digits(s) as usize })
    }
}

impl Decimal {
    /// The value counted in units of `10^-k`; exact when `k >= self.scale`.
    pub open spec fn at_scale(self, k: nat) -> int {
        self.mantissa * pow(10, (k - self.scale) as nat)
    }
}

proof fn lemma_scan_step(s: Seq<u8>, i: int)
    requires
        0 <= i < s.len(),
    ensures
        s.take(i + 1).drop_last() == s.take(i),
        s.take(i + 1).last() == s[i],
{
    assert(s.take(i + 1).drop_last() =~= s.take(i));
}

proof fn lemma_fraction_bounded(s: Seq<u8>)
    ensures
        fraction_digits(s) <= s.len(),
    decreases s.len(),
{
    if s.len() > 0 {
        lemma_fraction_bounded(s.drop_last());
    }
}

/// Reads `s` as a plain decimal number.
pub fn parse_decimal(s: &[u8]) -> (r: Result<Decimal, NumberError>)
    ensures
        r == spec_parse_decimal(s@),
{
    let mut mantissa: u64 = 0;
    let mut overflow = false;
    let mut dots: usize = 0;
    let mut fraction: usize = 0;
    let mut well_formed = true;
    let mut i: usize = 0;
    while i < s.len()
        invariant
            0 <= i <= s.len(),
            dots as nat == dot_count(s@.take(i as int)),
            fraction as nat == fraction_digits(s@.take(i as int)),
            fraction <= i,
            dots <= i,
            well_formed == (only_digits_and_dots(s@.take(i as int)) && dot_count(
                s@.take(i as int),
            ) <= 1),
            !overflow ==> mantissa as nat == digits_value(s@.take(i as int)),
            overflow ==> digits_value(s@.take(i as int)) > u64::MAX,
        decreases s.len() - i,
    {
        let c = s[i];
        proof {
            lemma_scan_step(s@, i as int);
        }
        let ghost prev = s@.take(i as int);
        let ghost next = s@.take(i + 1);
        if 48 <= c && c <= 57 {
            if !overflow {
                match mantissa.checked_mul(10) {
                    Some(m) => match m.checked_add((c - 48) as u64) {
                        Some(m2) => {
                            mantissa = m2;
                        },
                        None => {
                            overflow = true;
                        },
                    },
                    None => {
                        overflow = true;
                    },
                }
            }
            if dots > 0 {
                fraction = fraction + 1;
            }
        } else {
            if c == 46 {
                if dots > 0 {
                    well_formed = false;
                }
                dots = dots + 1;
            } else {
                well_formed = false;
            }
        }
        proof {
            assert(next.last() == c);
            assert(dot_count(next) == dot_count(prev) + if is_dot(c) { 1nat } else { 0nat });
            assert(only_digits_and_dots(next) == (only_digits_and_dots(prev) && (is_digit(c)
                || is_dot(c)))) by {
                if only_digits_and_dots(prev) && (is_digit(c) || is_dot(c)) {
                    assert forall|j: int| 0 <= j < next.len() implies is_digit(#[trigger] next[j])
                        || is_dot(next[j]) by {
                        if j < i {
                            assert(next[j] == prev[j]);
                        }
                    }
                }
                if only_digits_and_dots(next) {
                    assert forall|j: int| 0 <= j < prev.len() implies is_digit(#[trigger] prev[j])
                        || is_dot(prev[j]) by {
                        assert(next[j] == prev[j]);
                    }
                    assert(is_digit(next[i as int]) || is_dot(next[i as int]));
                }
            }
        }
        i = i + 1;
    }
    proof {
        assert(s@.take(s@.len() as int) =~= s@);
        lemma_fraction_bounded(s@);
    }
    if !well_formed || dots >= s.len() {
        Err(NumberError::Malformed)
    } else if overflow {
        Err(NumberError::OutOfRange)
    } else {
        Ok(Decimal { mantissa, scale: fraction })
    }
}

/// `at_scale` grows by a power of ten as the scale goes up.
pub proof fn lemma_at_scale_shift(d: Decimal, m: nat, k: nat)
    requires
        d.scale <= m <= k,
    ensures
        d.at_scale(k) == d.at_scale(m) * pow(10, (k - m) as nat),
{
    lemma_pow_adds(10, (m - d.scale) as nat, (k - m) as nat);
    assert((m - d.scale) as nat + (k - m) as nat == (k - d.scale) as nat);
    assert(d.mantissa * (pow(10, (m - d.scale) as nat) * pow(10, (k - m) as nat)) == (d.mantissa
        * pow(10, (m - d.scale) as nat)) * pow(10, (k - m) as nat)) by (nonlinear_arith);
}

/// `m * 10^e`, if it fits in 64 bits.
pub fn scale_up(m: u64, e: usize) -> (r: Option<u64>)
    ensures
        m * pow(10, e as nat) <= u64::MAX ==> r == Some(
            (m * pow(10, e as nat)) as u64,
        ),
        m * pow(10, e as nat) > u64::MAX ==> r is None,
{
    proof {
        lemma_pow0(10);
    }
    if m == 0 {
        return Some(0);
    }
    let mut acc: u64 = m;
    let mut j: usize = 0;
    while j < e
        invariant
            0 <= j <= e,
            m > 0,
            acc == m * pow(10, j as nat),
        decreases e - j,
    {
        proof {
            lemma_pow_adds(10, j as nat, 1);
            lemma_pow1(10);
            lemma_pow_increases(10, (j + 1) as nat, e as nat);
            assert(m * pow(10, (j + 1) as nat) <= m * pow(10, e as nat)) by (nonlinear_arith)
                requires
                    m > 0,
                    pow(10, (j + 1) as nat) <= pow(10, e as nat),
            ;
            assert(m * pow(10, (j + 1) as nat) == acc * 10) by (nonlinear_arith)
                requires
                    acc == m * pow(10, j as nat),
                    pow(10, (j + 1) as nat) == pow(10, j as nat) * 10,
            ;
        }
        match acc.checked_mul(10) {
            Some(a) => {
                acc = a;
            },
            None => {
                return None;
            },
        }
        j = j + 1;
    }
    Some(acc)
}

/// The exact sum of `a` and `b`, at the larger of their scales, if its
/// mantissa fits in 64 bits.
pub open spec fn spec_add(a: Decimal, b: Decimal) -> Option<Decimal> {
    let k = if a.scale >= b.scale { a.scale } else { b.scale };
    if a.at_scale(k as nat) + b.at_scale(k as nat) <= u64::MAX {
        Some(Decimal { mantissa: (a.at_scale(k as nat) + b.at_scale(k as nat)) as u64, scale: k })
    } else {
        None
    }
}

impl Decimal {
    /// The exact sum, at the larger of the two scales, if its mantissa fits
    /// in 64 bits.
    pub fn checked_add(self, other: Decimal) -> (r: Option<Decimal>)
        ensures
            r == spec_add(self, other),
    {
        let k = if self.scale >= other.scale { self.scale } else { other.scale };
        proof {
            lemma_pow_positive(10, (k - self.scale) as nat);
            lemma_pow_positive(10, (k - other.scale) as nat);
            assert(self.at_scale(k as nat) >= 0) by (nonlinear_arith)
                requires pow(10, (k - self.scale) as nat) > 0;
            assert(other.at_scale(k as nat) >= 0) by (nonlinear_arith)
                requires pow(10, (k - other.scale) as nat) > 0;
        }
        let a = match scale_up(self.mantissa, k - self.scale) {
            Some(a) => a,
            None => {
                return None;
            },
        };
        let b = match scale_up(other.mantissa, k - other.scale) {
            Some(b) => b,
            None => {
                return None;
            },
        };
        match a.checked_add(b) {
            Some(m) => Some(Decimal { mantissa: m, scale: k }),
            None => None,
        }
    }
}

/// The largest scale in `ds`, 0 when it is empty.
pub open spec fn max_scale(ds: Seq<Decimal>) -> nat
    decreases ds.len(),
{
    if ds.len() == 0 {
        0
    } else if max_scale(ds.drop_last()) >= ds.last().scale {
        max_scale(ds.drop_last())
    } else {
        ds.last().scale as nat
    }
}

/// The sum of `ds` counted in units of `10^-k`.
pub open spec fn sum_at(ds: Seq<Decimal>, k: nat) -> int
    decreases ds.len(),
{
    if ds.len() == 0 {
        0
    } else {
        sum_at(ds.drop_last(), k) + ds.last().at_scale(k)
    }
}

/// The exact sum of `ds` at the largest scale among them, if its mantissa
/// fits in 64 bits.
pub open spec fn spec_sum(ds: Seq<Decimal>) -> Option<Decimal> {
    if sum_at(ds, max_scale(ds)) <= u64::MAX {
        Some(Decimal { mantissa: sum_at(ds, max_scale(ds)) as u64, scale: max_scale(ds) as usize })
    } else {
        None
    }
}

pub proof fn lemma_at_scale_nonnegative(d: Decimal, k: nat)
    ensures
        d.at_scale(k) >= 0,
{
    lemma_pow_positive(10, (k - d.scale) as nat);
    assert(d.mantissa * pow(10, (k - d.scale) as nat) >= 0) by (nonlinear_arith)
        requires
            pow(10, (k - d.scale) as nat) > 0,
    ;
}

pub proof fn lemma_sum_push(ds: Seq<Decimal>, x: Decimal, k: nat)
    ensures
        sum_at(ds.push(x), k) == sum_at(ds, k) + x.at_scale(k),
        max_scale(ds.push(x)) == if max_scale(ds) >= x.scale {
            max_scale(ds)
        } else {
            x.scale as nat
        },
{
    assert(ds.push(x).drop_last() =~= ds);
}

pub proof fn lemma_max_scale_bounded(ds: Seq<Decimal>)
    ensures
        max_scale(ds) <= usize::MAX,
        forall|i: int| 0 <= i < ds.len() ==> #[trigger] ds[i].scale <= max_scale(ds),
    decreases ds.len(),
{
    if ds.len() > 0 {
        lemma_max_scale_bounded(ds.drop_last());
        assert forall|i: int| 0 <= i < ds.len() implies #[trigger] ds[i].scale <= max_scale(
            ds,
        ) by {
            if i < ds.len() - 1 {
                assert(ds[i] == ds.drop_last()[i]);
            }
        }
    }
}

pub proof fn lemma_sum_nonnegative(ds: Seq<Decimal>, k: nat)
    ensures
        sum_at(ds, k) >= 0,
    decreases ds.len(),
{
    if ds.len() > 0 {
        lemma_sum_nonnegative(ds.drop_last(), k);
        lemma_at_scale_nonnegative(ds.last(), k);
    }
}

/// Raising the scale of a sum multiplies it by a power of ten.
pub proof fn lemma_sum_shift(ds: Seq<Decimal>, m: nat, k: nat)
    requires
        max_scale(ds) <= m <= k,
    ensures
        sum_at(ds, k) == sum_at(ds, m) * pow(10, (k - m) as nat),
    decreases ds.len(),
{
    if ds.len() > 0 {
        let init = ds.drop_last();
        lemma_max_scale_bounded(ds);
        lemma_max_scale_bounded(init);
        assert(max_scale(init) <= max_scale(ds));
        lemma_sum_shift(init, m, k);
        lemma_at_scale_shift(ds.last(), m, k);
        let p = pow(10, (k - m) as nat);
        assert(sum_at(init, m) * p + ds.last().at_scale(m) * p == (sum_at(init, m)
            + ds.last().at_scale(m)) * p) by (nonlinear_arith);
    }
}

/// A prefix sums to no more than the whole.
pub proof fn lemma_sum_prefix(ds: Seq<Decimal>, n: int, k: nat)
    requires
        0 <= n <= ds.len(),
    ensures
        sum_at(ds.take(n), k) <= sum_at(ds, k),
        max_scale(ds.take(n)) <= max_scale(ds),
    decreases ds.len(),
{
    if n == ds.len() {
        assert(ds.take(n) =~= ds);
    } else {
        let init = ds.drop_last();
        assert(init.take(n) =~= ds.take(n));
        lemma_sum_prefix(init, n, k);
        lemma_at_scale_nonnegative(ds.last(), k);
    }
}

/// Once the sum of a prefix no longer fits, the sum of the whole does not.
pub proof fn lemma_sum_overflow_persists(ds: Seq<Decimal>, n: int)
    requires
        0 <= n <= ds.len(),
        spec_sum(ds.take(n)) is None,
    ensures
        spec_sum(ds) is None,
{
    let pre = ds.take(n);
    let m = max_scale(pre);
    let k = max_scale(ds);
    lemma_sum_prefix(ds, n, k);
    lemma_sum_shift(pre, m, k);
    lemma_sum_nonnegative(pre, m);
    lemma_pow_positive(10, (k - m) as nat);
    assert(sum_at(pre, m) * pow(10, (k - m) as nat) >= sum_at(pre, m)) by (nonlinear_arith)
        requires
            pow(10, (k - m) as nat) >= 1,
            sum_at(pre, m) >= 0,
    ;
}

/// Adding `x` to the sum of `ds` gives the sum of `ds.push(x)`.
pub proof fn lemma_sum_step(ds: Seq<Decimal>, acc: Decimal, x: Decimal)
    requires
        spec_sum(ds) == Some(acc),
    ensures
        spec_sum(ds.push(x)) == spec_add(acc, x),
{
    let k = if acc.scale >= x.scale { acc.scale } else { x.scale };
    lemma_max_scale_bounded(ds);
    lemma_sum_push(ds, x, k as nat);
    lemma_sum_shift(ds, acc.scale as nat, k as nat);
    lemma_sum_nonnegative(ds, max_scale(ds));
    assert(acc.mantissa == sum_at(ds, acc.scale as nat));
}

/// The exact sum of `ds`, if its mantissa fits in 64 bits.
pub fn sum_decimals(ds: &[Decimal]) -> (r: Option<Decimal>)
    ensures
        r == spec_sum(ds@),
{
    let mut acc = Decimal { mantissa: 0, scale: 0 };
    let mut i: usize = 0;
    proof {
        assert(ds@.take(0) =~= Seq::<Decimal>::empty());
    }
    while i < ds.len()
        invariant
            0 <= i <= ds@.len(),
            spec_sum(ds@.take(i as int)) == Some(acc),
        decreases ds@.len() - i,
    {
        proof {
            assert(ds@.take(i + 1) =~= ds@.take(i as int).push(ds@[i as int]));
            lemma_sum_step(ds@.take(i as int), acc, ds@[i as int]);
        }
        match acc.checked_add(ds[i]) {
            Some(a) => {
                acc = a;
            },
            None => {
                proof {
                    lemma_sum_overflow_persists(ds@, i + 1);
                }
                return None;
            },
        }
        i = i + 1;
    }
    proof {
        assert(ds@.take(ds@.len() as int) =~= ds@);
    }
    Some(acc)
}

} // verus!
