//! Finding a number framed by a marker (a prefix and a suffix) in the free
//! text that a tool prints.

use vstd::prelude::*;
use crate::decimal::{
    Decimal, NumberError, digits_value, fraction_digits, is_number_text, parse_decimal,
    spec_parse_decimal,
};

verus! {

/// Why no value was taken from a text.
#[derive(Debug, Clone, Copy, PartialEq, Eq, Structural)]
pub enum ExtractError {
    /// The prefix does not occur in the text.
    MarkerNotFound,
    /// No suffix follows the last occurrence of the prefix.
    MarkerUnterminated,
    /// The framed bytes are not a plain decimal number.
    MalformedNumber,
    /// The framed number is too long for a 64-bit mantissa.
    NumberOutOfRange,
    /// The prefix occurs more than once in the text, so the number it
    /// frames is not known to be the intended one.
    AmbiguousMarker,
}

/// `p` occurs in `t` starting at index `i`.
pub open spec fn occurs_at(t: Seq<u8>, p: Seq<u8>, i: int) -> bool {
    0 <= i && i + p.len() <= t.len() && t.subrange(i, i + p.len()) == p
}

/// `i` is where the last occurrence of `p` in `t` starts.
pub open spec fn is_last_occurrence(t: Seq<u8>, p: Seq<u8>, i: int) -> bool {
    occurs_at(t, p, i) && forall|j: int| i < j ==> !#[trigger] occurs_at(t, p, j)
}

/// `k` is where the first occurrence of `s` at or after `from` starts.
pub open spec fn is_first_from(t: Seq<u8>, s: Seq<u8>, from: int, k: int) -> bool {
    from <= k && occurs_at(t, s, k) && forall|j: int| from <= j < k ==> !#[trigger] occurs_at(t, s, j)
}

pub open spec fn number_error(e: NumberError) -> ExtractError {
    match e {
        NumberError::Malformed => ExtractError::MalformedNumber,
        NumberError::OutOfRange => ExtractError::NumberOutOfRange,
    }
}

/// The number framed by `prefix` and `suffix` in `text`: it starts after
/// the last occurrence of the prefix and runs up to the first occurrence of
/// the suffix after that. The prefix must occur only once: a number framed
/// after a prefix that also occurs elsewhere, before or after, is rejected
/// as ambiguous.
pub open spec fn spec_extract_value(text: Seq<u8>, prefix: Seq<u8>, suffix: Seq<u8>) -> Result<
    Decimal,
    ExtractError,
> {
    if !exists|i: int| is_last_occurrence(text, prefix, i) {
        Err(ExtractError::MarkerNotFound)
    } else {
        let i = choose|i: int| is_last_occurrence(text, prefix, i);
        let start = i + prefix.len();
        if !exists|k: int| is_first_from(text, suffix, start, k) {
            Err(ExtractError::MarkerUnterminated)
        } else {
            let k = choose|k: int| is_first_from(text, suffix, start, k);
            match spec_parse_decimal(text.subrange(start, k)) {
                Ok(d) => if exists|j: int| j != i && #[trigger] occurs_at(text, prefix, j) {
                    Err(ExtractError::AmbiguousMarker)
                } else {
                    Ok(d)
                },
                Err(e) => Err(number_error(e)),
            }
        }
    }
}

fn occurs_at_exec(t: &[u8], p: &[u8], i: usize) -> (r: bool)
    requires
        i + p@.len() <= t@.len(),
    ensures
        r == occurs_at(t@, p@, i as int),
{
    let n = t.len();
    let mut j: usize = 0;
    while j < p.len()
        invariant
            n == t@.len(),
            i + p@.len() <= t@.len(),
            0 <= j <= p@.len(),
            forall|m: int| 0 <= m < j ==> t@[i + m] == p@[m],
        decreases p@.len() - j,
    {
        if t[i + j] != p[j] {
            proof {
                assert(t@.subrange(i as int, i + p@.len())[j as int] != p@[j as int]);
            }
            return false;
        }
        j = j + 1;
    }
    proof {
        assert(t@.subrange(i as int, i + p@.len()) =~= p@);
    }
    true
}

/// Where the last occurrence of `p` in `t` starts, if any.
fn rfind_bytes(t: &[u8], p: &[u8]) -> (r: Option<usize>)
    ensures
        match r {
            Some(i) => is_last_occurrence(t@, p@, i as int) && i + p.len() <= t.len(),
            None => forall|i: int| !#[trigger] occurs_at(t@, p@, i),
        },
{
    if p.len() > t.len() {
        return None;
    }
    let mut i: usize = t.len() - p.len();
    loop
        invariant
            p@.len() <= t@.len(),
            0 <= i <= t@.len() - p@.len(),
            forall|j: int| i < j ==> !#[trigger] occurs_at(t@, p@, j),
        decreases i,
    {
        if occurs_at_exec(t, p, i) {
            return Some(i);
        }
        if i == 0 {
            return None;
        }
        i = i - 1;
    }
}

/// Where the first occurrence of `p` in `t` at or after `from` starts, if any.
fn find_bytes_from(t: &[u8], p: &[u8], from: usize) -> (r: Option<usize>)
    ensures
        match r {
            Some(k) => is_first_from(t@, p@, from as int, k as int),
            None => forall|k: int| from <= k ==> !#[trigger] occurs_at(t@, p@, k),
        },
{
    if p.len() > t.len() || from > t.len() - p.len() {
        return None;
    }
    let last = t.len() - p.len();
    let mut k: usize = from;
    loop
        invariant
            p@.len() <= t@.len(),
            last == t@.len() - p@.len(),
            from <= k <= last,
            forall|j: int| from <= j < k ==> !#[trigger] occurs_at(t@, p@, j),
        decreases last - k,
    {
        if occurs_at_exec(t, p, k) {
            return Some(k);
        }
        if k == last {
            return None;
        }
        k = k + 1;
    }
}

proof fn lemma_last_unique(t: Seq<u8>, p: Seq<u8>, i: int, j: int)
    requires
        is_last_occurrence(t, p, i),
        is_last_occurrence(t, p, j),
    ensures
        i == j,
{
    if i < j {
        assert(!occurs_at(t, p, j));
    } else if j < i {
        assert(!occurs_at(t, p, i));
    }
}

proof fn lemma_first_unique(t: Seq<u8>, s: Seq<u8>, from: int, k: int, m: int)
    requires
        is_first_from(t, s, from, k),
        is_first_from(t, s, from, m),
    ensures
        k == m,
{
    if k < m {
        assert(!occurs_at(t, s, k));
    } else if m < k {
        assert(!occurs_at(t, s, m));
    }
}

/// Takes the number framed by `prefix` and `suffix` out of `text`. The last
/// occurrence of the prefix is used, and it must be the only one: where it
/// frames a number, a text in which the prefix also occurs elsewhere, before
/// or after, fails with `AmbiguousMarker`.
pub fn extract_value(text: &[u8], prefix: &[u8], suffix: &[u8]) -> (r: Result<Decimal, ExtractError>)
    ensures
        r == spec_extract_value(text@, prefix@, suffix@),
{
    let i = match rfind_bytes(text, prefix) {
        Some(i) => i,
        None => {
            return Err(ExtractError::MarkerNotFound);
        },
    };
    proof {
        let c = choose|c: int| is_last_occurrence(text@, prefix@, c);
        lemma_last_unique(text@, prefix@, i as int, c);
    }
    let start = i + prefix.len();
    let k = match find_bytes_from(text, suffix, start) {
        Some(k) => k,
        None => {
            return Err(ExtractError::MarkerUnterminated);
        },
    };
    proof {
        let c = choose|c: int| is_first_from(text@, suffix@, start as int, c);
        lemma_first_unique(text@, suffix@, start as int, k as int, c);
    }
    let value = match parse_decimal(&text[start..k]) {
        Ok(d) => d,
        Err(NumberError::Malformed) => {
            return Err(ExtractError::MalformedNumber);
        },
        Err(NumberError::OutOfRange) => {
            return Err(ExtractError::NumberOutOfRange);
        },
    };
    let first = match find_bytes_from(text, prefix, 0) {
        Some(f) => f,
        None => {
            assert(occurs_at(text@, prefix@, i as int));
            return Err(ExtractError::MarkerNotFound);
        },
    };
    if first != i {
        return Err(ExtractError::AmbiguousMarker);
    }
    proof {
        assert forall|j: int| j != i implies !#[trigger] occurs_at(text@, prefix@, j) by {
            if j < i && occurs_at(text@, prefix@, j) {
                assert(0 <= j < first);
            }
        }
    }
    Ok(value)
}

/// A text in which the prefix occurs exactly once, followed later by the
/// suffix around a number, gives that number.
pub proof fn lemma_single_marker_gives_value(
    text: Seq<u8>,
    prefix: Seq<u8>,
    suffix: Seq<u8>,
    i: int,
    k: int,
)
    requires
        occurs_at(text, prefix, i),
        forall|j: int| j != i ==> !#[trigger] occurs_at(text, prefix, j),
        is_first_from(text, suffix, i + prefix.len(), k),
        is_number_text(text.subrange(i + prefix.len(), k)),
        digits_value(text.subrange(i + prefix.len(), k)) <= u64::MAX,
    ensures
        spec_extract_value(text, prefix, suffix) == Ok::<Decimal, ExtractError>(
            Decimal {
                mantissa: digits_value(text.subrange(i + prefix.len(), k)) as u64,
                scale: fraction_digits(text.subrange(i + prefix.len(), k)) as usize,
            },
        ),
{
    assert(is_last_occurrence(text, prefix, i));
    let c = choose|c: int| is_last_occurrence(text, prefix, c);
    lemma_last_unique(text, prefix, i, c);
    let start = i + prefix.len();
    let m = choose|m: int| is_first_from(text, suffix, start, m);
    lemma_first_unique(text, suffix, start, k, m);
}

/// A text without the prefix fails with `MarkerNotFound`.
pub proof fn lemma_absent_prefix_not_found(text: Seq<u8>, prefix: Seq<u8>, suffix: Seq<u8>)
    requires
        forall|i: int| !#[trigger] occurs_at(text, prefix, i),
    ensures
        spec_extract_value(text, prefix, suffix) == Err::<Decimal, ExtractError>(
            ExtractError::MarkerNotFound,
        ),
{
}

/// A text with no suffix after the last prefix fails with
/// `MarkerUnterminated`.
pub proof fn lemma_absent_suffix_unterminated(
    text: Seq<u8>,
    prefix: Seq<u8>,
    suffix: Seq<u8>,
    i: int,
)
    requires
        is_last_occurrence(text, prefix, i),
        forall|k: int| i + prefix.len() <= k ==> !#[trigger] occurs_at(text, suffix, k),
    ensures
        spec_extract_value(text, prefix, suffix) == Err::<Decimal, ExtractError>(
            ExtractError::MarkerUnterminated,
        ),
{
    let c = choose|c: int| is_last_occurrence(text, prefix, c);
    lemma_last_unique(text, prefix, i, c);
}

/// A text whose framed bytes are not a number fails with `MalformedNumber`.
pub proof fn lemma_framed_text_malformed(
    text: Seq<u8>,
    prefix: Seq<u8>,
    suffix: Seq<u8>,
    i: int,
    k: int,
)
    requires
        is_last_occurrence(text, prefix, i),
        is_first_from(text, suffix, i + prefix.len(), k),
        !is_number_text(text.subrange(i + prefix.len(), k)),
    ensures
        spec_extract_value(text, prefix, suffix) == Err::<Decimal, ExtractError>(
            ExtractError::MalformedNumber,
        ),
{
    let c = choose|c: int| is_last_occurrence(text, prefix, c);
    lemma_last_unique(text, prefix, i, c);
    let start = i + prefix.len();
    let m = choose|m: int| is_first_from(text, suffix, start, m);
    lemma_first_unique(text, suffix, start, k, m);
}

/// A text in which the prefix occurs twice fails with `AmbiguousMarker`
/// rather than give the number after its last occurrence.
pub proof fn lemma_repeated_prefix_ambiguous(
    text: Seq<u8>,
    prefix: Seq<u8>,
    suffix: Seq<u8>,
    i: int,
    j: int,
    k: int,
)
    requires
        is_last_occurrence(text, prefix, i),
        occurs_at(text, prefix, j),
        j != i,
        is_first_from(text, suffix, i + prefix.len(), k),
        spec_parse_decimal(text.subrange(i + prefix.len(), k)) is Ok,
    ensures
        spec_extract_value(text, prefix, suffix) == Err::<Decimal, ExtractError>(
            ExtractError::AmbiguousMarker,
        ),
{
    let c = choose|c: int| is_last_occurrence(text, prefix, c);
    lemma_last_unique(text, prefix, i, c);
    let start = i + prefix.len();
    let m = choose|m: int| is_first_from(text, suffix, start, m);
    lemma_first_unique(text, suffix, start, k, m);
}

} // verus!
