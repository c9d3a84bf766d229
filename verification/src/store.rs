//! The store of all hours and the run over a whole log.

use crate::bucket::{HourView, ParseNginxLogHour};
use crate::metrics::Sample;
use crate::method::Method;
use crate::node::{row_views, ServerStatistic, StatisticView};
use crate::path::spec_strip_minutes;
use crate::request::{
    normalize_record, pattern_groups, spec_method_of, spec_path_of, LogRecord, NormalizedRequest,
    REQUEST_PATTERN,
};
use vstd::prelude::*;

verus! {

/// What a sequence of buckets is.
pub open spec fn hour_views(hours: Seq<ParseNginxLogHour>) -> Seq<HourView> {
    Seq::new(hours.len(), |i: int| hours[i]@)
}

/// Index of the first bucket from `from` on that is for `hour`; the number
/// of buckets if there is none.
pub open spec fn hour_from(hours: Seq<HourView>, hour: Seq<char>, from: int) -> int
    decreases hours.len() - from,
{
    if from < 0 || from >= hours.len() {
        hours.len() as int
    } else if hours[from].hour == hour {
        from
    } else {
        hour_from(hours, hour, from + 1)
    }
}

/// The buckets after one request: it goes into the bucket of its hour, or
/// into a new bucket behind the others.
pub open spec fn store_with(
    hours: Seq<HourView>,
    hour: Seq<char>,
    path: Seq<char>,
    method: Method,
    sample: Sample,
) -> Seq<HourView> {
    let k = hour_from(hours, hour, 0);
    if k < hours.len() {
        hours.update(k, hours[k].inserted(path, method, sample))
    } else {
        hours.push(HourView::started(hour).inserted(path, method, sample))
    }
}

/// Whether no two of some buckets are for the same hour.
pub open spec fn distinct_hours(hours: Seq<HourView>) -> bool {
    forall|i: int, j: int|
        0 <= i < j < hours.len() ==> (#[trigger] hours[i]).hour != (#[trigger] hours[j]).hour
}

/// A search that finds nothing has seen no bucket of the hour; one that
/// finds something ends within bounds.
pub proof fn lemma_hour_miss(hours: Seq<HourView>, hour: Seq<char>, from: int)
    requires
        0 <= from <= hours.len(),
    ensures
        from <= hour_from(hours, hour, from) <= hours.len(),
        hour_from(hours, hour, from) >= hours.len() ==> forall|i: int|
            from <= i < hours.len() ==> (#[trigger] hours[i]).hour != hour,
    decreases hours.len() - from,
{
    if from < hours.len() {
        lemma_hour_miss(hours, hour, from + 1);
    }
}

/// Taking a request in never makes two buckets for the same hour.
pub proof fn lemma_store_distinct(
    hours: Seq<HourView>,
    hour: Seq<char>,
    path: Seq<char>,
    method: Method,
    sample: Sample,
)
    requires
        distinct_hours(hours),
    ensures
        distinct_hours(store_with(hours, hour, path, method, sample)),
{
    let now = store_with(hours, hour, path, method, sample);
    let k = hour_from(hours, hour, 0);
    lemma_hour_miss(hours, hour, 0);
    assert forall|i: int, j: int| 0 <= i < j < now.len() implies (#[trigger] now[i]).hour != (
    #[trigger] now[j]).hour by {
        if j < hours.len() {
            assert(hours[i].hour != hours[j].hour);
        } else {
            assert(hours[i].hour != hour);
        }
    }
}

/// Every bucket with its leaves turned into a tree.
pub open spec fn all_built(hours: Seq<HourView>) -> Seq<HourView> {
    Seq::new(hours.len(), |i: int| hours[i].built())
}

/// Every bucket with its tree turned into rows.
pub open spec fn all_flattened(hours: Seq<HourView>) -> Seq<HourView> {
    Seq::new(hours.len(), |i: int| hours[i].flattened())
}

/// Every bucket with its rows taken out.
pub open spec fn all_drained(hours: Seq<HourView>) -> Seq<HourView> {
    Seq::new(hours.len(), |i: int| hours[i].drained())
}

/// The rows of the first `upto` buckets, bucket after bucket.
pub open spec fn rows_upto(hours: Seq<HourView>, upto: int) -> Seq<StatisticView>
    decreases upto,
{
    if upto <= 0 {
        Seq::empty()
    } else {
        rows_upto(hours, upto - 1) + hours[upto - 1].rows()
    }
}

/// All rows of the buckets.
pub open spec fn all_rows(hours: Seq<HourView>) -> Seq<StatisticView> {
    rows_upto(hours, hours.len() as int)
}

/// The buckets after the first `upto` records of a log were taken in.
pub open spec fn ingested(records: Seq<LogRecord>, upto: int) -> Seq<HourView>
    decreases upto,
{
    if upto <= 0 {
        Seq::empty()
    } else {
        let record = records[upto - 1];
        let groups = pattern_groups(REQUEST_PATTERN@, record.request@);
        store_with(
            ingested(records, upto - 1),
            spec_strip_minutes(record.time_iso8601@),
            spec_path_of(groups),
            spec_method_of(groups),
            Sample {
                bytes_sent: record.bytes_sent,
                duration_ms: record.request_time_ms,
                status_code: record.status,
            },
        )
    }
}

/// The rows that a log gives: its records taken in one after the other,
/// every hour's tree built and flattened, the rows put together.
pub open spec fn spec_statistics(records: Seq<LogRecord>) -> Seq<StatisticView> {
    all_rows(all_flattened(all_built(ingested(records, records.len() as int))))
}

/// All hours of a log.
#[derive(Debug)]
pub struct ParseNginxLog {
    pub hours: Vec<ParseNginxLogHour>,
}

impl ParseNginxLog {
    pub open spec fn view(&self) -> Seq<HourView> {
        hour_views(self.hours@)
    }

    /// Every bucket is well-formed, and no two are for the same hour.
    pub open spec fn wf(&self) -> bool {
        &&& forall|i: int| 0 <= i < self@.len() ==> (#[trigger] self@[i]).wf()
        &&& distinct_hours(self@)
    }

    /// Whether the store is well-formed.
    pub fn is_well_formed(&self) -> (b: bool)
        ensures
            b == self.wf(),
    {
        let mut i: usize = 0;
        while i < self.hours.len()
            invariant
                i <= self.hours@.len(),
                forall|j: int| 0 <= j < i ==> (#[trigger] self@[j]).wf(),
                forall|a: int, b: int|
                    0 <= a < b < i ==> (#[trigger] self@[a]).hour != (#[trigger] self@[b]).hour,
            decreases self.hours@.len() - i,
        {
            proof {
                assert(self@[i as int] == self.hours@[i as int]@);
            }
            if !self.hours[i].is_well_formed() {
                return false;
            }
            let mut j: usize = 0;
            while j < i
                invariant
                    j <= i < self.hours@.len(),
                    forall|a: int| 0 <= a < j ==> (#[trigger] self@[a]).hour != self@[i as int].hour,
                decreases i - j,
            {
                proof {
                    assert(self@[j as int] == self.hours@[j as int]@);
                    assert(self@[i as int] == self.hours@[i as int]@);
                }
                if self.hours[j].hour == self.hours[i].hour {
                    proof {
                        if distinct_hours(self@) {
                            assert(self@[j as int].hour != self@[i as int].hour);
                        }
                    }
                    return false;
                }
                j = j + 1;
            }
            i = i + 1;
        }
        true
    }

    /// Index of the bucket of an hour, or the number of buckets.
    pub fn find_hour(&self, hour: &String) -> (k: usize)
        ensures
            k == hour_from(self@, hour@, 0),
            k <= self.hours@.len(),
    {
        let mut i: usize = 0;
        while i < self.hours.len()
            invariant
                i <= self.hours@.len(),
                hour_from(self@, hour@, i as int) == hour_from(self@, hour@, 0),
            decreases self.hours@.len() - i,
        {
            proof {
                assert(self@[i as int].hour == self.hours@[i as int].hour@);
            }
            if self.hours[i].hour == *hour {
                return i;
            }
            i = i + 1;
        }
        i
    }

    /// Takes one request into the bucket of its hour, which is created
    /// with the first request of that hour.
    pub fn insert(&mut self, request: NormalizedRequest)
        requires
            old(self).wf(),
        ensures
            final(self).wf(),
            final(self)@ == store_with(
                old(self)@,
                request.hour_timestamp@,
                request.normalized_path@,
                request.method,
                request.spec_sample(),
            ),
    {
        let ghost before = self@;
        proof {
            lemma_store_distinct(
                before,
                request.hour_timestamp@,
                request.normalized_path@,
                request.method,
                request.spec_sample(),
            );
        }
        let k = self.find_hour(&request.hour_timestamp);
        if k < self.hours.len() {
            let ghost path = request.normalized_path@;
            let ghost method = request.method;
            let ghost sample = request.spec_sample();
            proof {
                assert(before[k as int].wf());
            }
            let bucket = &mut self.hours[k];
            bucket.insert(request);
            proof {
                assert(self@ =~= before.update(
                    k as int,
                    before[k as int].inserted(path, method, sample),
                ));
                assert forall|i: int| 0 <= i < self@.len() implies (#[trigger] self@[i]).wf() by {
                    if i != k {
                        assert(before[i].wf());
                    }
                }
            }
        } else {
            let ghost path = request.normalized_path@;
            let ghost method = request.method;
            let ghost sample = request.spec_sample();
            let mut bucket = ParseNginxLogHour::new(request.hour_timestamp.clone());
            bucket.insert(request);
            let ghost fresh = bucket@;
            self.hours.push(bucket);
            proof {
                assert(self@ =~= before.push(fresh));
                assert forall|i: int| 0 <= i < self@.len() implies (#[trigger] self@[i]).wf() by {
                    if i < before.len() {
                        assert(before[i].wf());
                    }
                }
            }
        }
    }

    /// Builds the tree of every hour.
    pub fn build_hierarchies(&mut self)
        requires
            old(self).wf(),
        ensures
            final(self).wf(),
            final(self)@ == all_built(old(self)@),
    {
        let ghost before = self@;
        let mut i: usize = 0;
        while i < self.hours.len()
            invariant
                i <= self.hours@.len(),
                self@.len() == before.len(),
                self.wf(),
                forall|j: int| 0 <= j < i ==> #[trigger] self@[j] == before[j].built(),
                forall|j: int| i <= j < before.len() ==> #[trigger] self@[j] == before[j],
            decreases self.hours@.len() - i,
        {
            let ghost earlier = self@;
            proof {
                assert(earlier[i as int].wf());
            }
            let bucket = &mut self.hours[i];
            bucket.build_hierarchy();
            proof {
                assert(self@ =~= earlier.update(i as int, earlier[i as int].built()));
                assert forall|j: int| 0 <= j < self@.len() implies (#[trigger] self@[j]).wf() by {
                    if j != i {
                        assert(earlier[j].wf());
                    }
                }
            }
            i = i + 1;
        }
        proof {
            assert(self@ =~= all_built(before));
        }
    }

    /// Flattens the tree of every hour and hands out all rows, hour after
    /// hour. The buckets hold no rows afterwards.
    pub fn flatten(&mut self) -> (list: Vec<ServerStatistic>)
        requires
            old(self).wf(),
        ensures
            final(self).wf(),
            row_views(list@) == all_rows(all_flattened(old(self)@)),
            final(self)@ == all_drained(all_flattened(old(self)@)),
    {
        let ghost before = self@;
        let ghost flat = all_flattened(before);
        let mut list: Vec<ServerStatistic> = Vec::new();
        let mut i: usize = 0;
        proof {
            assert(row_views(list@) =~= rows_upto(flat, 0));
        }
        while i < self.hours.len()
            invariant
                i <= self.hours@.len(),
                self@.len() == before.len(),
                flat == all_flattened(before),
                self.wf(),
                row_views(list@) == rows_upto(flat, i as int),
                forall|j: int| 0 <= j < i ==> #[trigger] self@[j] == flat[j].drained(),
                forall|j: int| i <= j < before.len() ==> #[trigger] self@[j] == before[j],
            decreases self.hours@.len() - i,
        {
            let ghost earlier = self@;
            let ghost listed = list@;
            proof {
                assert(earlier[i as int].wf());
            }
            let bucket = &mut self.hours[i];
            bucket.flatten();
            let mut rows = bucket.take_rows();
            let ghost taken = rows@;
            list.append(&mut rows);
            proof {
                assert(self@ =~= earlier.update(i as int, flat[i as int].drained()));
                assert forall|j: int| 0 <= j < self@.len() implies (#[trigger] self@[j]).wf() by {
                    if j != i {
                        assert(earlier[j].wf());
                    }
                }
                assert(row_views(list@) =~= row_views(listed) + row_views(taken));
            }
            i = i + 1;
        }
        proof {
            assert(self@ =~= all_drained(flat));
        }
        list
    }
}

impl Default for ParseNginxLog {
    /// A store without hours.
    fn default() -> (s: ParseNginxLog)
        ensures
            s.wf(),
            s@ == Seq::<HourView>::empty(),
    {
        let s = ParseNginxLog { hours: Vec::new() };
        proof {
            assert(s@ =~= Seq::<HourView>::empty());
        }
        s
    }
}

/// Takes the records of a log in, one after the other.
pub fn ingest(records: &Vec<LogRecord>) -> (store: ParseNginxLog)
    ensures
        store.wf(),
        store@ == ingested(records@, records@.len() as int),
{
    let mut results = ParseNginxLog::default();
    let mut i: usize = 0;
    while i < records.len()
        invariant
            i <= records@.len(),
            results.wf(),
            results@ == ingested(records@, i as int),
        decreases records@.len() - i,
    {
        let request = normalize_record(&records[i]);
        results.insert(request);
        i = i + 1;
    }
    results
}

/// Aggregates the records of a log into rows: one per node of each hour's
/// path tree that received requests, and one per method at the nodes that
/// keep a per-method breakdown.
pub fn parse_nginx_log(records: &Vec<LogRecord>) -> (rows: Vec<ServerStatistic>)
    ensures
        row_views(rows@) == spec_statistics(records@),
{
    let mut results = ingest(records);
    results.build_hierarchies();
    results.flatten()
}

} // verus!
