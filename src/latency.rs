use hdrhistogram::errors::{AdditionError, CreationError, RecordError};
use hdrhistogram::serialization::{Serializer, V2SerializeError, V2Serializer};
use hdrhistogram::Histogram;
use crate::store::DbError;
use vstd::prelude::*;

verus! {

/// Relies on hdrhistogram's `V2Serializer::serialize`: the histogram in the V2
/// format, which depends on the histogram alone.
#[verifier::external_body]
fn histogram_encode(h: &LatencyHistogram) -> (r: Result<Vec<u8>, V2SerializeError>)
    ensures
        r matches Ok(b) ==> b@ == v2_encoding(*h),
{
    let mut out: Vec<u8> = Vec::new();
    match V2Serializer::new().serialize(&h.hist, &mut out) {
        Ok(_) => Ok(out),
        Err(e) => Err(e),
    }
}

/// Latency samples counted in hdrhistogram's logarithmic buckets, with
/// `u64` counts. Only the functions of this module make or change one.
#[verifier::external_body]
pub struct LatencyHistogram {
    hist: Histogram<u64>,
}

#[verifier::external_type_specification]
#[verifier::external_body]
pub struct ExCreationError(CreationError);

#[verifier::external_type_specification]
#[verifier::external_body]
pub struct ExRecordError(RecordError);

#[verifier::external_type_specification]
#[verifier::external_body]
pub struct ExAdditionError(AdditionError);

#[verifier::external_type_specification]
#[verifier::external_body]
pub struct ExV2SerializeError(V2SerializeError);

/// The total number of samples that a histogram counts.
pub uninterp spec fn sample_count(h: LatencyHistogram) -> u64;

/// The bytes of the histogram in hdrhistogram's V2 format.
pub uninterp spec fn v2_encoding(h: LatencyHistogram) -> Seq<u8>;

/// The histogram resizes itself to take any value.
pub uninterp spec fn grows(h: LatencyHistogram) -> bool;

/// Number of significant decimal digits the histogram keeps: a recorded value
/// is known to within one part in 100 000.
pub const SIGNIFICANT_DIGITS: u8 = 5;

/// `a + b`, or `u64::MAX` where that does not fit.
pub open spec fn saturating_sum(a: u64, b: u64) -> u64 {
    if a + b <= u64::MAX {
        (a + b) as u64
    } else {
        u64::MAX
    }
}

/// `n + 1`, or `n` where that does not fit.
pub open spec fn saturating_succ(n: u64) -> u64 {
    if n < u64::MAX {
        (n + 1) as u64
    } else {
        n
    }
}

/// Relies on hdrhistogram's `Histogram::new`: with at most 5 significant
/// digits it succeeds, with an auto-resizing histogram that counts no sample
/// yet.
#[verifier::external_body]
fn histogram_new(sigfig: u8) -> (r: Result<LatencyHistogram, CreationError>)
    ensures
        sigfig <= 5 ==> r is Ok,
        r matches Ok(h) ==> sample_count(h) == 0 && grows(h),
{
    match Histogram::new(sigfig) {
        Ok(hist) => Ok(LatencyHistogram { hist }),
        Err(e) => Err(e),
    }
}

/// Relies on hdrhistogram's `Histogram::record`: on an auto-resizing
/// histogram it succeeds (it fails only where a bucket count does not fit a
/// `usize`, which a 32- or 64-bit target rules out), and the total count goes
/// up by one, saturating.
#[verifier::external_body]
fn histogram_record(h: &mut LatencyHistogram, value: u64) -> (r: Result<(), RecordError>)
    ensures
        grows(*old(h)) ==> r is Ok && grows(*final(h)),
        r is Ok ==> sample_count(*final(h)) == saturating_succ(sample_count(*old(h))),
{
    h.hist.record(value)
}

/// Relies on hdrhistogram's `Histogram::add`: adding an empty histogram
/// succeeds and changes nothing; adding to an auto-resizing histogram succeeds
/// (it fails only where a bucket count does not fit a `usize`); and the total
/// counts add, saturating.
#[verifier::external_body]
fn histogram_add(h: &mut LatencyHistogram, other: &LatencyHistogram) -> (r: Result<(), AdditionError>)
    ensures
        sample_count(*other) == 0 ==> r is Ok && *final(h) == *old(h),
        grows(*old(h)) ==> r is Ok && grows(*final(h)),
        r is Ok ==> sample_count(*final(h)) == saturating_sum(
            sample_count(*old(h)),
            sample_count(*other),
        ),
{
    h.hist.add(&other.hist)
}

/// Relies on hdrhistogram's `Histogram::len`: the total count.
#[verifier::external_body]
fn histogram_len(h: &LatencyHistogram) -> (r: u64)
    ensures
        r == sample_count(*h),
{
    h.hist.len()
}

/// Latencies in nanoseconds, kept in logarithmic buckets of bounded relative
/// error. One is meant per worker, merged periodically into an aggregate that
/// a reporter reads.
pub struct LatencyStats {
    hist: LatencyHistogram,
}

impl LatencyStats {
    /// The number of latencies recorded.
    pub closed spec fn spec_count(&self) -> u64 {
        sample_count(self.hist)
    }

    /// The histogram takes every value that is recorded or merged into it.
    pub closed spec fn wf(&self) -> bool {
        grows(self.hist)
    }

    /// An empty collector.
    pub fn new() -> (r: Result<LatencyStats, DbError>)
        ensures
            r is Ok,
            r matches Ok(s) ==> s.wf() && s.spec_count() == 0,
    {
        match histogram_new(SIGNIFICANT_DIGITS) {
            Ok(hist) => Ok(LatencyStats { hist }),
            Err(_) => Err(DbError::Histogram),
        }
    }

    /// Records one latency; the count goes up by one.
    pub fn record(&mut self, nanos: u64) -> (r: Result<(), DbError>)
        requires
            old(self).wf(),
        ensures
            r is Ok,
            final(self).wf(),
            final(self).spec_count() == saturating_succ(old(self).spec_count()),
    {
        match histogram_record(&mut self.hist, nanos) {
            Ok(()) => Ok(()),
            Err(_) => Err(DbError::Histogram),
        }
    }

    /// Adds every latency of `other` to this collector: the counts add.
    /// Merging an empty collector changes nothing.
    pub fn merge(&mut self, other: &LatencyStats) -> (r: Result<(), DbError>)
        requires
            old(self).wf(),
        ensures
            r is Ok,
            final(self).wf(),
            final(self).spec_count() == saturating_sum(old(self).spec_count(), other.spec_count()),
            other.spec_count() == 0 ==> *final(self) == *old(self),
    {
        match histogram_add(&mut self.hist, &other.hist) {
            Ok(()) => Ok(()),
            Err(_) => Err(DbError::Histogram),
        }
    }

    /// The number of latencies recorded.
    pub fn count(&self) -> (r: u64)
        ensures
            r == self.spec_count(),
    {
        histogram_len(&self.hist)
    }

    /// The collector's histogram in hdrhistogram's V2 format, from which a
    /// reader gets quantiles and the mean.
    pub closed spec fn spec_encoding(&self) -> Seq<u8> {
        v2_encoding(self.hist)
    }

    /// The collector's histogram in hdrhistogram's V2 format, or the
    /// histogram error where a count is too large for the format.
    pub fn encode(&self) -> (r: Result<Vec<u8>, DbError>)
        ensures
            r matches Ok(b) ==> b@ == self.spec_encoding(),
            r is Err ==> r == Err::<Vec<u8>, DbError>(DbError::Histogram),
    {
        match histogram_encode(&self.hist) {
            Ok(b) => Ok(b),
            Err(_) => Err(DbError::Histogram),
        }
    }
}

} // verus!
