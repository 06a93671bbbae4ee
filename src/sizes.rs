//! Compressed sizes of each source, plain and encoded, and their totals.

use vstd::prelude::*;

verus! {

/// Compressed sizes, in bytes, of one source and of its binary AST.
#[derive(Debug, Clone, Copy, PartialEq, Eq, Structural)]
pub struct SourceSizes {
    pub raw: u64,
    pub encoded: u64,
}

/// Sums of compressed sizes over the sources measured so far.
#[derive(Debug, Clone, Copy, PartialEq, Eq, Structural)]
pub struct SizeTotals {
    pub raw: u64,
    pub encoded: u64,
}

pub open spec fn sum_raw(ss: Seq<SourceSizes>) -> nat
    decreases ss.len(),
{
    if ss.len() == 0 {
        0
    } else {
        sum_raw(ss.drop_last()) + ss.last().raw as nat
    }
}

pub open spec fn sum_encoded(ss: Seq<SourceSizes>) -> nat
    decreases ss.len(),
{
    if ss.len() == 0 {
        0
    } else {
        sum_encoded(ss.drop_last()) + ss.last().encoded as nat
    }
}

impl SizeTotals {
    /// Totals before any source: both zero.
    pub fn new() -> (r: SizeTotals)
        ensures
            r.raw == 0,
            r.encoded == 0,
    {
        SizeTotals { raw: 0, encoded: 0 }
    }

    /// Adds one source's sizes. Returns false, and leaves the totals as they
    /// were, when a sum would not fit in 64 bits.
    pub fn add(&mut self, s: SourceSizes) -> (ok: bool)
        ensures
            ok == (old(self).raw + s.raw <= u64::MAX && old(self).encoded + s.encoded <= u64::MAX),
            ok ==> final(self).raw == old(self).raw + s.raw && final(self).encoded == old(
                self,
            ).encoded + s.encoded,
            !ok ==> *final(self) == *old(self),
    {
        let raw = match self.raw.checked_add(s.raw) {
            Some(v) => v,
            None => {
                return false;
            },
        };
        let encoded = match self.encoded.checked_add(s.encoded) {
            Some(v) => v,
            None => {
                return false;
            },
        };
        self.raw = raw;
        self.encoded = encoded;
        true
    }
}

proof fn lemma_sums_monotone(ss: Seq<SourceSizes>, n: int)
    requires
        0 <= n <= ss.len(),
    ensures
        sum_raw(ss.take(n)) <= sum_raw(ss),
        sum_encoded(ss.take(n)) <= sum_encoded(ss),
    decreases ss.len(),
{
    if n == ss.len() {
        assert(ss.take(n) =~= ss);
    } else {
        assert(ss.drop_last().take(n) =~= ss.take(n));
        lemma_sums_monotone(ss.drop_last(), n);
    }
}

/// The totals over all sources, in order: exactly the sums of the sizes
/// reported for each. `None` when a sum does not fit in 64 bits.
pub fn total_sizes(sources: &[SourceSizes]) -> (r: Option<SizeTotals>)
    ensures
        (sum_raw(sources@) <= u64::MAX && sum_encoded(sources@) <= u64::MAX) == r is Some,
        r matches Some(t) ==> t.raw == sum_raw(sources@) && t.encoded == sum_encoded(sources@),
{
    let mut totals = SizeTotals::new();
    let mut i: usize = 0;
    proof {
        assert(sources@.take(0) =~= Seq::<SourceSizes>::empty());
    }
    while i < sources.len()
        invariant
            0 <= i <= sources@.len(),
            totals.raw == sum_raw(sources@.take(i as int)),
            totals.encoded == sum_encoded(sources@.take(i as int)),
        decreases sources@.len() - i,
    {
        proof {
            assert(sources@.take(i + 1).drop_last() =~= sources@.take(i as int));
            lemma_sums_monotone(sources@, i + 1);
        }
        if !totals.add(sources[i]) {
            return None;
        }
        i = i + 1;
    }
    proof {
        assert(sources@.take(sources@.len() as int) =~= sources@);
    }
    Some(totals)
}

} // verus!
