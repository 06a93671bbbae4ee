//! Parse durations that the engine reports, and their totals per
//! configuration.

use vstd::prelude::*;
use crate::decimal::{Decimal, spec_add, spec_sum, lemma_sum_step, lemma_sum_overflow_persists};
use crate::extract::{ExtractError, extract_value, spec_extract_value};
use vstd::string::StringSliceAdditionalSpecFns;

verus! {

/// The three durations, in milliseconds, that one engine run reports.
#[derive(Debug, Clone, Copy, PartialEq, Eq, Structural)]
pub struct DurationSample {
    /// Parsing the source text eagerly.
    pub full: Decimal,
    /// Parsing the source text lazily.
    pub lazy: Decimal,
    /// Reading the binary AST.
    pub encoded: Decimal,
}

/// Sums of the durations of one configuration.
#[derive(Debug, Clone, Copy, PartialEq, Eq, Structural)]
pub struct PerformanceTotals {
    pub full: Decimal,
    pub lazy: Decimal,
    pub encoded: Decimal,
}

pub open spec fn full_duration_prefix() -> Seq<u8> {
    "Parser<>::parse() full duration: ".spec_bytes()
}

pub open spec fn lazy_duration_prefix() -> Seq<u8> {
    "Parser<>::parse() lazy duration: ".spec_bytes()
}

pub open spec fn encoded_duration_prefix() -> Seq<u8> {
    "ReadBinaryAST duration: ".spec_bytes()
}

pub open spec fn milliseconds_suffix() -> Seq<u8> {
    "ms".spec_bytes()
}

/// What `extract_durations` gives: the three values, or the first error in
/// the order full, lazy, encoded.
pub open spec fn spec_extract_durations(text: Seq<u8>) -> Result<DurationSample, ExtractError> {
    let full = spec_extract_value(text, full_duration_prefix(), milliseconds_suffix());
    let lazy = spec_extract_value(text, lazy_duration_prefix(), milliseconds_suffix());
    let encoded = spec_extract_value(text, encoded_duration_prefix(), milliseconds_suffix());
    match full {
        Err(e) => Err(e),
        Ok(f) => match lazy {
            Err(e) => Err(e),
            Ok(l) => match encoded {
                Err(e) => Err(e),
                Ok(b) => Ok(DurationSample { full: f, lazy: l, encoded: b }),
            },
        },
    }
}

/// Reads the full, lazy and binary AST parse durations, in milliseconds,
/// from the diagnostic output of one engine run.
pub fn extract_durations(text: &[u8]) -> (r: Result<DurationSample, ExtractError>)
    ensures
        r == spec_extract_durations(text@),
{
    let ms = "ms".as_bytes();
    let full = extract_value(text, "Parser<>::parse() full duration: ".as_bytes(), ms)?;
    let lazy = extract_value(text, "Parser<>::parse() lazy duration: ".as_bytes(), ms)?;
    let encoded = extract_value(text, "ReadBinaryAST duration: ".as_bytes(), ms)?;
    Ok(DurationSample { full, lazy, encoded })
}

pub open spec fn fulls(ss: Seq<DurationSample>) -> Seq<Decimal> {
    ss.map_values(|s: DurationSample| s.full)
}

pub open spec fn lazies(ss: Seq<DurationSample>) -> Seq<Decimal> {
    ss.map_values(|s: DurationSample| s.lazy)
}

pub open spec fn encodeds(ss: Seq<DurationSample>) -> Seq<Decimal> {
    ss.map_values(|s: DurationSample| s.encoded)
}

/// The field-wise exact sums of `ss`, if each fits.
pub open spec fn spec_total_durations(ss: Seq<DurationSample>) -> Option<PerformanceTotals> {
    match (spec_sum(fulls(ss)), spec_sum(lazies(ss)), spec_sum(encodeds(ss))) {
        (Some(f), Some(l), Some(e)) => Some(PerformanceTotals { full: f, lazy: l, encoded: e }),
        _ => None,
    }
}

impl PerformanceTotals {
    /// Totals before any sample: all zero.
    pub fn new() -> (r: PerformanceTotals)
        ensures
            r == spec_total_durations(Seq::empty()).unwrap(),
    {
        proof {
            assert(fulls(Seq::empty()) =~= Seq::<Decimal>::empty());
            assert(lazies(Seq::empty()) =~= Seq::<Decimal>::empty());
            assert(encodeds(Seq::empty()) =~= Seq::<Decimal>::empty());
        }
        let zero = Decimal { mantissa: 0, scale: 0 };
        PerformanceTotals { full: zero, lazy: zero, encoded: zero }
    }

    /// Adds one sample to each total. Returns false, and leaves the totals
    /// as they were, when a sum would not fit.
    pub fn add_sample(&mut self, s: DurationSample) -> (ok: bool)
        ensures
            ok == (spec_add(old(self).full, s.full) is Some && spec_add(old(self).lazy, s.lazy) is Some
                && spec_add(old(self).encoded, s.encoded) is Some),
            ok ==> *final(self) == (PerformanceTotals {
                full: spec_add(old(self).full, s.full).unwrap(),
                lazy: spec_add(old(self).lazy, s.lazy).unwrap(),
                encoded: spec_add(old(self).encoded, s.encoded).unwrap(),
            }),
            !ok ==> *final(self) == *old(self),
    {
        let full = match self.full.checked_add(s.full) {
            Some(d) => d,
            None => {
                return false;
            },
        };
        let lazy = match self.lazy.checked_add(s.lazy) {
            Some(d) => d,
            None => {
                return false;
            },
        };
        let encoded = match self.encoded.checked_add(s.encoded) {
            Some(d) => d,
            None => {
                return false;
            },
        };
        *self = PerformanceTotals { full, lazy, encoded };
        true
    }
}

proof fn lemma_fields_push(ss: Seq<DurationSample>, i: int)
    requires
        0 <= i < ss.len(),
    ensures
        fulls(ss.take(i + 1)) == fulls(ss.take(i)).push(ss[i].full),
        lazies(ss.take(i + 1)) == lazies(ss.take(i)).push(ss[i].lazy),
        encodeds(ss.take(i + 1)) == encodeds(ss.take(i)).push(ss[i].encoded),
        fulls(ss).take(i + 1) == fulls(ss.take(i + 1)),
        lazies(ss).take(i + 1) == lazies(ss.take(i + 1)),
        encodeds(ss).take(i + 1) == encodeds(ss.take(i + 1)),
{
    assert(fulls(ss.take(i + 1)) =~= fulls(ss.take(i)).push(ss[i].full));
    assert(lazies(ss.take(i + 1)) =~= lazies(ss.take(i)).push(ss[i].lazy));
    assert(encodeds(ss.take(i + 1)) =~= encodeds(ss.take(i)).push(ss[i].encoded));
    assert(fulls(ss).take(i + 1) =~= fulls(ss.take(i + 1)));
    assert(lazies(ss).take(i + 1) =~= lazies(ss.take(i + 1)));
    assert(encodeds(ss).take(i + 1) =~= encodeds(ss.take(i + 1)));
}

/// The totals of a configuration's samples, in the order they were taken:
/// each field is the exact sum of that field over all samples. `None` when
/// a sum does not fit in a 64-bit mantissa.
pub fn total_durations(samples: &[DurationSample]) -> (r: Option<PerformanceTotals>)
    ensures
        r == spec_total_durations(samples@),
{
    let mut totals = PerformanceTotals::new();
    let mut i: usize = 0;
    proof {
        assert(samples@.take(0) =~= Seq::<DurationSample>::empty());
    }
    while i < samples.len()
        invariant
            0 <= i <= samples@.len(),
            spec_total_durations(samples@.take(i as int)) == Some(totals),
        decreases samples@.len() - i,
    {
        let ghost pre = samples@.take(i as int);
        proof {
            lemma_fields_push(samples@, i as int);
            lemma_sum_step(fulls(pre), totals.full, samples@[i as int].full);
            lemma_sum_step(lazies(pre), totals.lazy, samples@[i as int].lazy);
            lemma_sum_step(encodeds(pre), totals.encoded, samples@[i as int].encoded);
        }
        if !totals.add_sample(samples[i]) {
            proof {
                let ss = samples@;
                let n = i + 1;
                if spec_sum(fulls(ss.take(n))) is None {
                    lemma_sum_overflow_persists(fulls(ss), n);
                } else if spec_sum(lazies(ss.take(n))) is None {
                    lemma_sum_overflow_persists(lazies(ss), n);
                } else {
                    lemma_sum_overflow_persists(encodeds(ss), n);
                }
            }
            return None;
        }
        i = i + 1;
    }
    proof {
        assert(samples@.take(samples@.len() as int) =~= samples@);
    }
    Some(totals)
}

/// Over any number of engine outputs, one per run, each of which yields its
/// durations: the totals are the field-wise exact sums of the durations read
/// from each output, in order.
pub proof fn lemma_totals_of_outputs(outputs: Seq<Seq<u8>>, samples: Seq<DurationSample>)
    requires
        outputs.len() == samples.len(),
        forall|k: int|
            0 <= k < outputs.len() ==> #[trigger] spec_extract_durations(outputs[k]) == Ok::<
                DurationSample,
                ExtractError,
            >(samples[k]),
    ensures
        spec_total_durations(samples) == spec_total_durations(
            outputs.map_values(|t: Seq<u8>| spec_extract_durations(t)->Ok_0),
        ),
{
    let read = outputs.map_values(|t: Seq<u8>| spec_extract_durations(t)->Ok_0);
    assert(read =~= samples) by {
        assert forall|k: int| 0 <= k < samples.len() implies read[k] == samples[k] by {
            assert(spec_extract_durations(outputs[k]) == Ok::<DurationSample, ExtractError>(
                samples[k],
            ));
        }
    }
}

} // verus!
