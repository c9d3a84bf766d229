//! A mergeable numeric summary of a set of requests.

use vstd::prelude::*;

verus! {

/// Status codes from here on count as server errors.
pub const SERVER_ERROR_FLOOR: u16 = 500;

/// Sum of two counters, held at the largest representable value.
pub open spec fn sat_add(a: u64, b: u64) -> u64 {
    if a + b > u64::MAX {
        u64::MAX
    } else {
        (a + b) as u64
    }
}

/// The lesser of two optional durations; an absent side is the identity.
pub open spec fn opt_min(a: Option<u64>, b: Option<u64>) -> Option<u64> {
    match (a, b) {
        (None, _) => b,
        (_, None) => a,
        (Some(x), Some(y)) => if y < x { Some(y) } else { Some(x) },
    }
}

/// The greater of two optional durations; an absent side is the identity.
pub open spec fn opt_max(a: Option<u64>, b: Option<u64>) -> Option<u64> {
    match (a, b) {
        (None, _) => b,
        (_, None) => a,
        (Some(x), Some(y)) => if y > x { Some(y) } else { Some(x) },
    }
}

/// One request as the aggregator sees it.
#[derive(Clone, Copy, Debug, PartialEq, Eq)]
pub struct Sample {
    pub bytes_sent: u32,
    pub duration_ms: u64,
    pub status_code: u16,
}

/// Request count, bytes sent, duration sum, shortest and longest duration
/// and server-error count of a set of requests. Durations are whole
/// milliseconds. Sums that exceed `u64::MAX` stay at `u64::MAX`.
#[derive(Clone, Copy, Debug, PartialEq, Eq)]
pub struct Metrics {
    pub count: u64,
    pub bytes: u64,
    pub duration_sum: u64,
    pub min_duration: Option<u64>,
    pub max_duration: Option<u64>,
    pub errors: u64,
}

impl Metrics {
    /// The summary of no requests.
    pub open spec fn spec_empty() -> Metrics {
        Metrics {
            count: 0,
            bytes: 0,
            duration_sum: 0,
            min_duration: None,
            max_duration: None,
            errors: 0,
        }
    }

    /// The summary of exactly one request.
    pub open spec fn spec_single(s: Sample) -> Metrics {
        Metrics {
            count: 1,
            bytes: s.bytes_sent as u64,
            duration_sum: s.duration_ms,
            min_duration: Some(s.duration_ms),
            max_duration: Some(s.duration_ms),
            errors: if s.status_code >= SERVER_ERROR_FLOOR { 1 } else { 0 },
        }
    }

    /// The summary of two sets of requests taken together.
    pub open spec fn spec_merge(self, other: Metrics) -> Metrics {
        Metrics {
            count: sat_add(self.count, other.count),
            bytes: sat_add(self.bytes, other.bytes),
            duration_sum: sat_add(self.duration_sum, other.duration_sum),
            min_duration: opt_min(self.min_duration, other.min_duration),
            max_duration: opt_max(self.max_duration, other.max_duration),
            errors: sat_add(self.errors, other.errors),
        }
    }

    /// The summary after one more request.
    pub open spec fn spec_increment(self, s: Sample) -> Metrics {
        self.spec_merge(Metrics::spec_single(s))
    }

    /// The summary of a sequence of requests, taken one after the other.
    pub open spec fn spec_of(samples: Seq<Sample>) -> Metrics
        decreases samples.len(),
    {
        if samples.len() == 0 {
            Metrics::spec_empty()
        } else {
            Metrics::spec_of(samples.drop_last()).spec_increment(samples.last())
        }
    }

    /// Whether at least one request went into the summary, as far as the
    /// duration bounds show it.
    pub open spec fn spec_observed(self) -> bool {
        self.min_duration is Some && self.max_duration is Some
    }

    /// The summary of one request.
    pub fn default_with_request(sample: &Sample) -> (m: Metrics)
        ensures
            m == Metrics::spec_single(*sample),
            m == Metrics::spec_empty().spec_increment(*sample),
    {
        let mut m = Metrics::default();
        m.increment(sample);
        m
    }

    /// Counts one more request: the count grows by one, bytes and duration
    /// are added, the duration bounds widen to hold the new duration, and
    /// the error count grows by one exactly for a status of 500 or more.
    pub fn increment(&mut self, sample: &Sample)
        ensures
            *final(self) == old(self).spec_increment(*sample),
            final(self).count == sat_add(old(self).count, 1),
            final(self).errors == if sample.status_code >= 500 {
                sat_add(old(self).errors, 1)
            } else {
                old(self).errors
            },
    {
        self.count = add_held(self.count, 1);
        self.bytes = add_held(self.bytes, sample.bytes_sent as u64);
        match self.min_duration {
            Some(min_duration) => {
                if sample.duration_ms < min_duration {
                    self.min_duration = Some(sample.duration_ms);
                }
            },
            None => self.min_duration = Some(sample.duration_ms),
        }
        match self.max_duration {
            Some(max_duration) => {
                if sample.duration_ms > max_duration {
                    self.max_duration = Some(sample.duration_ms);
                }
            },
            None => self.max_duration = Some(sample.duration_ms),
        }
        self.duration_sum = add_held(self.duration_sum, sample.duration_ms);
        if sample.status_code >= SERVER_ERROR_FLOOR {
            self.errors = add_held(self.errors, 1);
        }
    }

    /// Merges another summary into this one.
    pub fn increment_with_metric(&mut self, metrics: &Metrics)
        ensures
            *final(self) == old(self).spec_merge(*metrics),
    {
        self.count = add_held(self.count, metrics.count);
        self.bytes = add_held(self.bytes, metrics.bytes);
        self.min_duration = lesser(self.min_duration, metrics.min_duration);
        self.max_duration = greater(self.max_duration, metrics.max_duration);
        self.duration_sum = add_held(self.duration_sum, metrics.duration_sum);
        self.errors = add_held(self.errors, metrics.errors);
    }

    /// Whether both duration bounds are set.
    pub fn observed(&self) -> (b: bool)
        ensures
            b == self.spec_observed(),
    {
        self.min_duration.is_some() && self.max_duration.is_some()
    }
}

impl Default for Metrics {
    fn default() -> (m: Metrics)
        ensures
            m == Metrics::spec_empty(),
    {
        Metrics {
            count: 0,
            bytes: 0,
            duration_sum: 0,
            min_duration: None,
            max_duration: None,
            errors: 0,
        }
    }
}

/// Adds two counters; a sum that does not fit stays at `u64::MAX`.
pub fn add_held(a: u64, b: u64) -> (r: u64)
    ensures
        r == sat_add(a, b),
{
    if a > u64::MAX - b {
        u64::MAX
    } else {
        a + b
    }
}

/// The lesser of two optional durations.
pub fn lesser(a: Option<u64>, b: Option<u64>) -> (r: Option<u64>)
    ensures
        r == opt_min(a, b),
{
    match (a, b) {
        (None, _) => b,
        (_, None) => a,
        (Some(x), Some(y)) => if y < x { Some(y) } else { Some(x) },
    }
}

/// The greater of two optional durations.
pub fn greater(a: Option<u64>, b: Option<u64>) -> (r: Option<u64>)
    ensures
        r == opt_max(a, b),
{
    match (a, b) {
        (None, _) => b,
        (_, None) => a,
        (Some(x), Some(y)) => if y > x { Some(y) } else { Some(x) },
    }
}

/// Merging is associative: how summaries are grouped does not matter.
pub proof fn lemma_merge_associative(a: Metrics, b: Metrics, c: Metrics)
    ensures
        a.spec_merge(b).spec_merge(c) == a.spec_merge(b.spec_merge(c)),
{
}

/// Merging is commutative: the order of two summaries does not matter.
pub proof fn lemma_merge_commutative(a: Metrics, b: Metrics)
    ensures
        a.spec_merge(b) == b.spec_merge(a),
{
}

/// The empty summary is the identity of merging, on both sides.
pub proof fn lemma_merge_empty(a: Metrics)
    ensures
        a.spec_merge(Metrics::spec_empty()) == a,
        Metrics::spec_empty().spec_merge(a) == a,
{
}

/// The sum of the bytes of a sequence of requests.
pub open spec fn total_bytes(samples: Seq<Sample>) -> nat
    decreases samples.len(),
{
    if samples.len() == 0 {
        0
    } else {
        total_bytes(samples.drop_last()) + samples.last().bytes_sent as nat
    }
}

/// The sum of the durations of a sequence of requests.
pub open spec fn total_duration(samples: Seq<Sample>) -> nat
    decreases samples.len(),
{
    if samples.len() == 0 {
        0
    } else {
        total_duration(samples.drop_last()) + samples.last().duration_ms as nat
    }
}

/// The number of requests of a sequence whose status is a server error.
pub open spec fn total_errors(samples: Seq<Sample>) -> nat
    decreases samples.len(),
{
    if samples.len() == 0 {
        0
    } else {
        total_errors(samples.drop_last()) + if samples.last().status_code >= 500 {
            1nat
        } else {
            0nat
        }
    }
}

/// A number held at `u64::MAX`.
pub open spec fn held(n: nat) -> u64 {
    if n > u64::MAX {
        u64::MAX
    } else {
        n as u64
    }
}

/// The summary of a sequence of requests holds their number, the sums of
/// their bytes and durations and the number of server errors among them
/// (each held at `u64::MAX`); its shortest duration is one of theirs and no
/// request was shorter, and likewise for the longest.
pub proof fn lemma_summary_exact(samples: Seq<Sample>)
    ensures
        Metrics::spec_of(samples).count == held(samples.len()),
        Metrics::spec_of(samples).bytes == held(total_bytes(samples)),
        Metrics::spec_of(samples).duration_sum == held(total_duration(samples)),
        Metrics::spec_of(samples).errors == held(total_errors(samples)),
        samples.len() == 0 ==> Metrics::spec_of(samples) == Metrics::spec_empty(),
        samples.len() > 0 ==> {
            &&& Metrics::spec_of(samples).min_duration is Some
            &&& Metrics::spec_of(samples).max_duration is Some
            &&& exists|i: int|
                0 <= i < samples.len() && Metrics::spec_of(samples).min_duration == Some(
                    #[trigger] samples[i].duration_ms,
                )
            &&& exists|i: int|
                0 <= i < samples.len() && Metrics::spec_of(samples).max_duration == Some(
                    #[trigger] samples[i].duration_ms,
                )
            &&& forall|i: int|
                0 <= i < samples.len() ==> Metrics::spec_of(samples).min_duration->0
                    <= #[trigger] samples[i].duration_ms
            &&& forall|i: int|
                0 <= i < samples.len() ==> Metrics::spec_of(samples).max_duration->0
                    >= #[trigger] samples[i].duration_ms
        },
    decreases samples.len(),
{
    if samples.len() > 0 {
        let front = samples.drop_last();
        lemma_summary_exact(front);
        let m = Metrics::spec_of(samples);
        let last = samples.len() - 1;
        assert(samples[last] == samples.last());
        assert forall|i: int| 0 <= i < front.len() implies front[i] == samples[i] by {}
        if front.len() > 0 {
            let i_min = choose|i: int|
                0 <= i < front.len() && Metrics::spec_of(front).min_duration == Some(
                    #[trigger] front[i].duration_ms,
                );
            let i_max = choose|i: int|
                0 <= i < front.len() && Metrics::spec_of(front).max_duration == Some(
                    #[trigger] front[i].duration_ms,
                );
            assert(front[i_min] == samples[i_min]);
            assert(front[i_max] == samples[i_max]);
            assert(m.min_duration == Some(samples[i_min].duration_ms) || m.min_duration == Some(
                samples[last].duration_ms,
            ));
            assert(m.max_duration == Some(samples[i_max].duration_ms) || m.max_duration == Some(
                samples[last].duration_ms,
            ));
        } else {
            assert(m.min_duration == Some(samples[last].duration_ms));
            assert(m.max_duration == Some(samples[last].duration_ms));
        }
        assert forall|i: int| 0 <= i < samples.len() implies m.min_duration->0
            <= #[trigger] samples[i].duration_ms by {
            if i < front.len() {
                assert(front[i] == samples[i]);
            }
        }
        assert forall|i: int| 0 <= i < samples.len() implies m.max_duration->0
            >= #[trigger] samples[i].duration_ms by {
            if i < front.len() {
                assert(front[i] == samples[i]);
            }
        }
    }
}

} // verus!
