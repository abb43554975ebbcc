//! The calls into std and outside crates that the verified code relies on.
use vstd::prelude::*;
use vstd::utf8::{decode_utf8, valid_utf8};

use histogram::Histogram;
use rand::distributions::Alphanumeric;
use rand::rngs::StdRng;
use rand::{Rng, SeedableRng};

verus! {

/// Relies on `std::str::from_utf8`: it succeeds exactly on valid UTF-8, and the
/// resulting `str` holds the decoded characters.
#[verifier::external_body]
pub(crate) fn utf8_chars(b: &[u8]) -> (r: Option<Vec<char>>)
    ensures
        r.is_some() == valid_utf8(b@),
        r.is_some() ==> r->0@ == decode_utf8(b@),
{
    match std::str::from_utf8(b) {
        Ok(s) => Some(s.chars().collect()),
        Err(_) => None,
    }
}

/// Relies on `String: FromIterator<&char>`: the string holds the given characters in order.
#[verifier::external_body]
pub(crate) fn string_of(cs: &[char]) -> (r: String)
    ensures
        r@ == cs@,
{
    cs.iter().collect()
}

#[verifier::external_type_specification]
#[verifier::external_body]
pub struct ExHistogram(Histogram);

#[verifier::external_type_specification]
#[verifier::external_body]
pub struct ExStdRng(StdRng);

/// The entry count of a histogram, as `Histogram::entries` reports it.
pub uninterp spec fn entries_of(h: Histogram) -> u64;

/// The largest value that a histogram was configured to bucket.
pub uninterp spec fn max_value_of(h: Histogram) -> u64;

/// The significant figures that a histogram was configured to keep.
pub uninterp spec fn precision_of(h: Histogram) -> u32;

/// The one configuration that `record` is used on: values up to 10^9
/// nanoseconds, 4 significant figures. With it every value that
/// `Histogram::increment` indexes (at most 10^9) falls inside the bucket
/// vector; some other configurations index one past its end.
pub open spec fn latency_config(h: Histogram) -> bool {
    max_value_of(h) == 1_000_000_000 && precision_of(h) == 4
}

pub open spec fn saturating_inc(n: u64) -> u64 {
    if n < u64::MAX {
        (n + 1) as u64
    } else {
        n
    }
}

/// Relies on histogram's `Config::build`: it gives `None` only when a memory
/// cap is set and exceeded, and a built histogram holds no entries. A
/// precision of at most 4 keeps its bucket arithmetic in range.
#[verifier::external_body]
pub(crate) fn build_histogram(max_value: u64, precision: u32, max_memory: u32) -> (r: Option<
    Histogram,
>)
    requires
        precision <= 4,
    ensures
        max_memory == 0 ==> r.is_some(),
        r matches Some(h) ==> entries_of(h) == 0 && max_value_of(h) == max_value && precision_of(h)
            == precision,
{
    Histogram::configure().max_value(max_value).precision(precision).max_memory(max_memory).build()
}

/// Relies on histogram's `Histogram::increment`: every call adds one to the
/// entry count, saturating, whether or not the value fell in a bucket, and
/// leaves the configuration as it was. It panics when the bucket index of a
/// value at most `max_value` runs past the buckets, which the configuration
/// required here rules out.
#[verifier::external_body]
pub(crate) fn record(h: &mut Histogram, value: u64)
    requires
        latency_config(*old(h)),
    ensures
        entries_of(*final(h)) == saturating_inc(entries_of(*old(h))),
        max_value_of(*final(h)) == max_value_of(*old(h)),
        precision_of(*final(h)) == precision_of(*old(h)),
{
    let _ = h.increment(value);
}

/// Relies on rand's `SeedableRng::seed_from_u64` for `StdRng`: a generator
/// fixed by the seed.
#[verifier::external_body]
pub(crate) fn seeded_rng(seed: u64) -> StdRng {
    StdRng::seed_from_u64(seed)
}

pub open spec fn is_alphanumeric(b: u8) -> bool {
    (48 <= b <= 57) || (65 <= b <= 90) || (97 <= b <= 122)
}

/// Relies on rand's `Alphanumeric` distribution: every byte it draws is an
/// ASCII letter or digit.
#[verifier::external_body]
pub(crate) fn random_alphanumeric(rng: &mut StdRng, len: usize) -> (r: Vec<u8>)
    ensures
        r@.len() == len,
        forall|i: int| 0 <= i < len ==> is_alphanumeric(#[trigger] r@[i]),
{
    (&mut *rng).sample_iter(Alphanumeric).take(len).collect()
}

} // verus!
