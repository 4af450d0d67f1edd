//! The statistics aggregator: per-request-name counters that requests are
//! recorded into and that merge by addition.
//!
//! Every request yields a record. Records are counted under their request
//! name: how many, how many succeeded and failed, the sum, least and greatest
//! of their latencies, a histogram of the latencies and a count for each
//! status code. The counters of two sources merge name by name and counter by
//! counter, so that it matters neither in which order records arrive nor in
//! which order the statistics of workers are merged.

use vstd::prelude::*;
use crate::histogram::{
    added, bucket_floor, bucket_index, bucket_of, floor_of, is_rank_bucket, lemma_added_commutes,
    nearest_rank, Counts, BUCKETS,
};

verus! {

/// The number of status slots: one for each status code below 1000, the slot
/// of 0 standing for a request without a response.
pub const STATUS_SLOTS: usize = 1000;

/// The request methods that a task can use.
#[derive(Debug, Clone, Copy, PartialEq, Eq, Structural)]
pub enum Method {
    /// A GET request.
    Get,
    /// A POST request.
    Post,
}

/// The outcome of one request.
#[derive(Debug, Clone)]
pub struct RequestRecord {
    /// The request's method.
    pub method: Method,
    /// The name under which the request is counted.
    pub name: String,
    /// The URL that answered, after redirects.
    pub url: String,
    /// The status code of the response; 0 if there was none.
    pub status: u16,
    /// The time from request to response, in milliseconds.
    pub elapsed_ms: u64,
    /// Whether the request counts as a success.
    pub success: bool,
    /// What went wrong, if something did.
    pub error: Option<String>,
}

impl RequestRecord {
    /// The record of a request that was answered with `status`. It counts as
    /// a success until the task says otherwise.
    pub fn answered(method: Method, name: String, url: String, status: u16, elapsed_ms: u64) -> (record:
        RequestRecord)
        ensures
            record.method == method,
            record.name == name,
            record.url == url,
            record.status == status,
            record.elapsed_ms == elapsed_ms,
            record.success,
            record.error.is_none(),
    {
        RequestRecord {
            method: method,
            name: name,
            url: url,
            status: status,
            elapsed_ms: elapsed_ms,
            success: true,
            error: None,
        }
    }

    /// The record of a request that got no response: a failure with status 0.
    pub fn unanswered(
        method: Method,
        name: String,
        url: String,
        elapsed_ms: u64,
        error: String,
    ) -> (record: RequestRecord)
        ensures
            record.method == method,
            record.name == name,
            record.url == url,
            record.status == 0,
            record.elapsed_ms == elapsed_ms,
            !record.success,
            record.error == Some(error),
    {
        RequestRecord {
            method: method,
            name: name,
            url: url,
            status: 0,
            elapsed_ms: elapsed_ms,
            success: false,
            error: Some(error),
        }
    }

    /// Marks the request as failed, as a task does that finds a response
    /// unacceptable.
    pub fn set_failure(&mut self, error: String)
        ensures
            !final(self).success,
            final(self).error == Some(error),
            final(self).method == old(self).method,
            final(self).name == old(self).name,
            final(self).url == old(self).url,
            final(self).status == old(self).status,
            final(self).elapsed_ms == old(self).elapsed_ms,
    {
        self.success = false;
        self.error = Some(error);
    }
}

/// Why statistics were not updated.
#[derive(Debug, Clone, Copy, PartialEq, Eq, Structural)]
pub enum StatsError {
    /// A counter would exceed 64 bits.
    Overflow,
}

/// The slot under which a status code is counted: the code itself below 1000,
/// and 0 for any other.
pub open spec fn status_slot(status: u16) -> int {
    if status < 1000 {
        status as int
    } else {
        0
    }
}

/// The counters of one request name, as numbers.
pub struct Tally {
    /// Requests counted.
    pub count: nat,
    /// Requests that succeeded.
    pub success: nat,
    /// Requests that failed.
    pub failure: nat,
    /// Sum of the latencies, in milliseconds.
    pub total_ms: nat,
    /// Least latency; 0 without requests.
    pub min_ms: nat,
    /// Greatest latency; 0 without requests.
    pub max_ms: nat,
    /// Requests in each latency bucket.
    pub histogram: Seq<nat>,
    /// Requests in each status slot.
    pub statuses: Seq<nat>,
}

impl Tally {
    /// The counters of no request.
    pub open spec fn zero() -> Tally {
        Tally {
            count: 0,
            success: 0,
            failure: 0,
            total_ms: 0,
            min_ms: 0,
            max_ms: 0,
            histogram: Seq::new(BUCKETS as nat, |i: int| 0nat),
            statuses: Seq::new(STATUS_SLOTS as nat, |i: int| 0nat),
        }
    }

    /// The counters of one request.
    pub open spec fn sample(status: u16, elapsed_ms: u64, success: bool) -> Tally {
        Tally {
            count: 1,
            success: if success {
                1
            } else {
                0
            },
            failure: if success {
                0
            } else {
                1
            },
            total_ms: elapsed_ms as nat,
            min_ms: elapsed_ms as nat,
            max_ms: elapsed_ms as nat,
            histogram: Seq::new(
                BUCKETS as nat,
                |i: int|
                    if i == bucket_of(elapsed_ms as nat) {
                        1nat
                    } else {
                        0nat
                    },
            ),
            statuses: Seq::new(
                STATUS_SLOTS as nat,
                |i: int|
                    if i == status_slot(status) {
                        1nat
                    } else {
                        0nat
                    },
            ),
        }
    }

    /// Counters are valid if they have a count for each latency bucket and
    /// each status slot, and count no latency where they count no request.
    pub open spec fn wf(self) -> bool {
        &&& self.histogram.len() == BUCKETS
        &&& self.statuses.len() == STATUS_SLOTS
        &&& self.count == 0 ==> self.min_ms == 0 && self.max_ms == 0
    }

    /// The counters of the requests of `self` and of `other` together: every
    /// count is the sum of the two, the least and greatest latency are those
    /// of both.
    pub open spec fn plus(self, other: Tally) -> Tally {
        Tally {
            count: self.count + other.count,
            success: self.success + other.success,
            failure: self.failure + other.failure,
            total_ms: self.total_ms + other.total_ms,
            min_ms: if self.count == 0 {
                other.min_ms
            } else if other.count == 0 {
                self.min_ms
            } else if self.min_ms <= other.min_ms {
                self.min_ms
            } else {
                other.min_ms
            },
            max_ms: if self.max_ms >= other.max_ms {
                self.max_ms
            } else {
                other.max_ms
            },
            histogram: added(self.histogram, other.histogram),
            statuses: added(self.statuses, other.statuses),
        }
    }

    /// Whether the counters of `self` and `other` can be added within 64 bits.
    pub open spec fn fits(self, other: Tally) -> bool {
        &&& self.count + other.count <= u64::MAX
        &&& self.total_ms + other.total_ms <= u64::MAX
    }
}

/// The counters of all of `tallies` together.
pub open spec fn sum_tallies(tallies: Seq<Tally>) -> Tally
    decreases tallies.len(),
{
    if tallies.len() == 0 {
        Tally::zero()
    } else {
        sum_tallies(tallies.drop_last()).plus(tallies.last())
    }
}

/// The sum of what `pick` takes from each of `tallies`.
pub open spec fn total_of(tallies: Seq<Tally>, pick: spec_fn(Tally) -> nat) -> nat
    decreases tallies.len(),
{
    if tallies.len() == 0 {
        0
    } else {
        total_of(tallies.drop_last(), pick) + pick(tallies.last())
    }
}

/// Whether all of `tallies` are valid.
pub open spec fn all_wf(tallies: Seq<Tally>) -> bool {
    forall|i: int| 0 <= i < tallies.len() ==> (#[trigger] tallies[i]).wf()
}

/// Adding the counters of no request changes nothing, and adding valid
/// counters gives valid counters.
pub proof fn lemma_plus_zero(a: Tally, b: Tally)
    requires
        a.wf(),
        b.wf(),
    ensures
        Tally::zero().wf(),
        Tally::zero().plus(a) == a,
        a.plus(Tally::zero()) == a,
        a.plus(b).wf(),
{
    let z = Tally::zero();
    assert(added(z.histogram, a.histogram) =~= a.histogram);
    assert(added(z.statuses, a.statuses) =~= a.statuses);
    assert(added(a.histogram, z.histogram) =~= a.histogram);
    assert(added(a.statuses, z.statuses) =~= a.statuses);
}

/// Merging is commutative: two sets of counters merge to the same whichever
/// comes first.
pub proof fn lemma_plus_commutes(a: Tally, b: Tally)
    requires
        a.wf(),
        b.wf(),
    ensures
        a.plus(b) == b.plus(a),
{
    lemma_added_commutes(a.histogram, b.histogram, b.histogram);
    lemma_added_commutes(a.statuses, b.statuses, b.statuses);
}

/// Merging is associative: three sets of counters merge to the same however
/// they are grouped.
pub proof fn lemma_plus_associates(a: Tally, b: Tally, c: Tally)
    requires
        a.wf(),
        b.wf(),
        c.wf(),
    ensures
        a.plus(b).plus(c) == a.plus(b.plus(c)),
{
    lemma_added_commutes(a.histogram, b.histogram, c.histogram);
    lemma_added_commutes(a.statuses, b.statuses, c.statuses);
}

/// The counters of valid counters together are valid.
pub proof fn lemma_sum_tallies_wf(tallies: Seq<Tally>)
    requires
        all_wf(tallies),
    ensures
        sum_tallies(tallies).wf(),
    decreases tallies.len(),
{
    if tallies.len() > 0 {
        assert(tallies.last().wf());
        assert(all_wf(tallies.drop_last())) by {
            assert forall|i: int| 0 <= i < tallies.drop_last().len() implies (
            #[trigger] tallies.drop_last()[i]).wf() by {
                assert(tallies[i].wf());
            }
        }
        lemma_sum_tallies_wf(tallies.drop_last());
        lemma_plus_zero(sum_tallies(tallies.drop_last()), tallies.last());
    } else {
        lemma_plus_zero(Tally::zero(), Tally::zero());
    }
}

/// One set of counters can be taken out of a merge and merged in at the end.
pub proof fn lemma_sum_tallies_remove(tallies: Seq<Tally>, i: int)
    requires
        all_wf(tallies),
        0 <= i < tallies.len(),
    ensures
        all_wf(tallies.remove(i)),
        sum_tallies(tallies) == sum_tallies(tallies.remove(i)).plus(tallies[i]),
    decreases tallies.len(),
{
    let rest: Seq<Tally> = tallies.remove(i);
    assert forall|k: int| 0 <= k < rest.len() implies (#[trigger] rest[k]).wf() by {
        if k < i {
            assert(tallies[k].wf());
        } else {
            assert(tallies[k + 1].wf());
        }
    }
    if i < tallies.len() - 1 {
        let init: Seq<Tally> = tallies.drop_last();
        assert forall|k: int| 0 <= k < init.len() implies (#[trigger] init[k]).wf() by {
            assert(tallies[k].wf());
        }
        lemma_sum_tallies_remove(init, i);
        assert(rest.drop_last() == init.remove(i));
        assert(rest.last() == tallies.last());
        assert(init[i] == tallies[i]);
        let head: Tally = sum_tallies(init.remove(i));
        assert(all_wf(init.remove(i)));
        lemma_sum_tallies_wf(init.remove(i));
        assert(tallies.last().wf());
        assert(tallies[i].wf());
        lemma_plus_associates(head, tallies[i], tallies.last());
        lemma_plus_commutes(tallies[i], tallies.last());
        lemma_plus_associates(head, tallies.last(), tallies[i]);
    } else {
        assert(rest == tallies.drop_last());
    }
}

/// Aggregation does not depend on the order of what is aggregated: the same
/// sets of counters, merged in any order, give the same counters.
pub proof fn lemma_sum_tallies_any_order(a: Seq<Tally>, b: Seq<Tally>)
    requires
        all_wf(a),
        all_wf(b),
        a.to_multiset() == b.to_multiset(),
    ensures
        sum_tallies(a) == sum_tallies(b),
    decreases a.len(),
{
    broadcast use vstd::seq_lib::group_to_multiset_ensures;

    a.to_multiset_ensures();
    b.to_multiset_ensures();
    if a.len() > 0 {
        let x: Tally = a.last();
        let init: Seq<Tally> = a.drop_last();
        assert(a == init.push(x));
        assert(a.to_multiset().count(x) > 0);
        assert(b.contains(x));
        let i: int = choose|i: int| 0 <= i < b.len() && b[i] == x;
        lemma_sum_tallies_remove(b, i);
        assert(init.to_multiset() =~= a.to_multiset().remove(x));
        assert(b.remove(i).to_multiset() =~= b.to_multiset().remove(x));
        assert forall|k: int| 0 <= k < init.len() implies (#[trigger] init[k]).wf() by {
            assert(a[k].wf());
        }
        lemma_sum_tallies_any_order(init, b.remove(i));
    } else {
        assert(b.len() == 0);
    }
}

/// The aggregate is the sum of what was aggregated, counter by counter: each
/// count of the merged counters is the sum of that count over all of them.
pub proof fn lemma_sum_tallies_is_sum(tallies: Seq<Tally>)
    requires
        all_wf(tallies),
    ensures
        sum_tallies(tallies).count == total_of(tallies, |t: Tally| t.count),
        sum_tallies(tallies).success == total_of(tallies, |t: Tally| t.success),
        sum_tallies(tallies).failure == total_of(tallies, |t: Tally| t.failure),
        sum_tallies(tallies).total_ms == total_of(tallies, |t: Tally| t.total_ms),
        forall|b: int|
            0 <= b < BUCKETS ==> #[trigger] sum_tallies(tallies).histogram[b] == total_of(
                tallies,
                |t: Tally| t.histogram[b],
            ),
        forall|s: int|
            0 <= s < STATUS_SLOTS ==> #[trigger] sum_tallies(tallies).statuses[s] == total_of(
                tallies,
                |t: Tally| t.statuses[s],
            ),
    decreases tallies.len(),
{
    if tallies.len() > 0 {
        let init: Seq<Tally> = tallies.drop_last();
        assert forall|k: int| 0 <= k < init.len() implies (#[trigger] init[k]).wf() by {
            assert(tallies[k].wf());
        }
        assert(tallies.last().wf());
        lemma_sum_tallies_is_sum(init);
        lemma_sum_tallies_wf(init);
    }
}


/// The index that `index_of_first` gives is the one before which the needle
/// does not stand.
pub proof fn lemma_first_index<A>(s: Seq<A>, x: A, i: int)
    requires
        0 <= i < s.len(),
        s[i] == x,
        forall|j: int| 0 <= j < i ==> s[j] != x,
    ensures
        s.index_of_first(x) == Some(i),
{
    s.index_of_first_ensures(x);
    assert(s.contains(x));
}

/// In a sequence without duplicates every element is its own first
/// occurrence.
pub proof fn lemma_first_index_distinct<A>(s: Seq<A>, i: int)
    requires
        s.no_duplicates(),
        0 <= i < s.len(),
    ensures
        s.index_of_first(s[i]) == Some(i),
{
    lemma_first_index(s, s[i], i);
}

/// Appending an element that a sequence lacks makes the new place its first
/// occurrence and leaves the first occurrence of every other as it was.
pub proof fn lemma_first_index_push<A>(s: Seq<A>, x: A, y: A)
    requires
        !s.contains(x),
    ensures
        s.push(x).index_of_first(x) == Some(s.len() as int),
        y != x ==> s.push(x).index_of_first(y) == s.index_of_first(y),
        s.no_duplicates() ==> s.push(x).no_duplicates(),
{
    let t: Seq<A> = s.push(x);
    assert forall|j: int| 0 <= j < s.len() implies t[j] != x by {
        assert(s[j] == t[j]);
        assert(s.contains(s[j]));
    }
    lemma_first_index(t, x, s.len() as int);
    if y != x {
        s.index_of_first_ensures(y);
        t.index_of_first_ensures(y);
        match s.index_of_first(y) {
            Some(i) => {
                assert forall|j: int| 0 <= j < i implies t[j] != y by {
                    assert(s[j] == t[j]);
                }
                assert(t[i] == s[i]);
                lemma_first_index(t, y, i);
            },
            None => {
                if t.contains(y) {
                    let j: int = choose|j: int| 0 <= j < t.len() && t[j] == y;
                    assert(s[j] == y);
                    assert(s.contains(y));
                }
            },
        }
    }
}

/// What the first `k + 1` elements hold is what the first `k` hold and the
/// element at `k`.
pub proof fn lemma_take_contains<A>(s: Seq<A>, k: int, x: A)
    requires
        0 <= k < s.len(),
    ensures
        s.take(k + 1).contains(x) <==> s.take(k).contains(x) || s[k] == x,
        s.no_duplicates() ==> !s.take(k).contains(s[k]),
{
    let a: Seq<A> = s.take(k);
    let b: Seq<A> = s.take(k + 1);
    if a.contains(x) {
        let j: int = choose|j: int| 0 <= j < a.len() && a[j] == x;
        assert(b[j] == x);
    }
    if s[k] == x {
        assert(b[k] == x);
    }
    if b.contains(x) {
        let j: int = choose|j: int| 0 <= j < b.len() && b[j] == x;
        if j < k {
            assert(a[j] == x);
        }
    }
    if s.no_duplicates() && a.contains(s[k]) {
        let j: int = choose|j: int| 0 <= j < a.len() && a[j] == s[k];
        assert(s[j] == s[k]);
    }
}

/// The counters of one request name.
#[derive(Debug)]
pub struct Summary {
    /// The request name.
    pub name: String,
    /// Requests counted.
    pub count: u64,
    /// Requests that succeeded.
    pub success: u64,
    /// Requests that failed.
    pub failure: u64,
    /// Sum of the latencies, in milliseconds.
    pub total_ms: u64,
    /// Least latency; 0 without requests.
    pub min_ms: u64,
    /// Greatest latency; 0 without requests.
    pub max_ms: u64,
    /// Requests in each latency bucket.
    pub histogram: Counts,
    /// Requests in each status slot.
    pub statuses: Counts,
}

impl Summary {
    /// The counters as numbers.
    pub open spec fn tally(&self) -> Tally {
        Tally {
            count: self.count as nat,
            success: self.success as nat,
            failure: self.failure as nat,
            total_ms: self.total_ms as nat,
            min_ms: self.min_ms as nat,
            max_ms: self.max_ms as nat,
            histogram: self.histogram.view(),
            statuses: self.statuses.view(),
        }
    }

    /// A summary is valid if its histogram and its status counts each count
    /// every request once, every request is a success or a failure, and
    /// without requests there is no latency.
    pub open spec fn wf(&self) -> bool {
        &&& self.histogram.counts@.len() == BUCKETS
        &&& self.statuses.counts@.len() == STATUS_SLOTS
        &&& self.histogram.total() == self.count
        &&& self.statuses.total() == self.count
        &&& self.success + self.failure == self.count
        &&& self.count == 0 ==> self.min_ms == 0 && self.max_ms == 0
    }

    /// Whether the summary is valid, as one that came from elsewhere may not
    /// be.
    pub fn is_valid(&self) -> (valid: bool)
        ensures
            valid == self.wf(),
    {
        if self.histogram.counts.len() != BUCKETS || self.statuses.counts.len() != STATUS_SLOTS {
            return false;
        }
        let in_buckets: bool = match self.histogram.sum_within() {
            Some(t) => t == self.count,
            None => false,
        };
        let in_slots: bool = match self.statuses.sum_within() {
            Some(t) => t == self.count,
            None => false,
        };
        let judged: bool = self.failure <= u64::MAX - self.success && self.success + self.failure
            == self.count;
        in_buckets && in_slots && judged && (self.count != 0 || (self.min_ms == 0 && self.max_ms
            == 0))
    }

    /// The summary of no request under `name`.
    pub fn new(name: &String) -> (summary: Summary)
        ensures
            summary.wf(),
            summary.name@ == name@,
            summary.tally() == Tally::zero(),
    {
        Summary {
            name: name.clone(),
            count: 0,
            success: 0,
            failure: 0,
            total_ms: 0,
            min_ms: 0,
            max_ms: 0,
            histogram: Counts::new(BUCKETS),
            statuses: Counts::new(STATUS_SLOTS),
        }
    }

    /// A copy of the summary.
    pub fn copy(&self) -> (summary: Summary)
        requires
            self.wf(),
        ensures
            summary.wf(),
            summary.name@ == self.name@,
            summary.tally() == self.tally(),
    {
        Summary {
            name: self.name.clone(),
            count: self.count,
            success: self.success,
            failure: self.failure,
            total_ms: self.total_ms,
            min_ms: self.min_ms,
            max_ms: self.max_ms,
            histogram: self.histogram.copy(),
            statuses: self.statuses.copy(),
        }
    }

    /// Counts one more request.
    pub fn add_sample(&mut self, status: u16, elapsed_ms: u64, success: bool)
        requires
            old(self).wf(),
            old(self).tally().fits(Tally::sample(status, elapsed_ms, success)),
        ensures
            final(self).wf(),
            final(self).name == old(self).name,
            final(self).tally() == old(self).tally().plus(Tally::sample(status, elapsed_ms, success)),
    {
        let slot: usize = if status < 1000 {
            status as usize
        } else {
            0
        };
        let bucket: usize = bucket_index(elapsed_ms);
        if self.count == 0 || elapsed_ms < self.min_ms {
            self.min_ms = elapsed_ms;
        }
        if elapsed_ms > self.max_ms {
            self.max_ms = elapsed_ms;
        }
        self.count = self.count + 1;
        if success {
            self.success = self.success + 1;
        } else {
            self.failure = self.failure + 1;
        }
        self.total_ms = self.total_ms + elapsed_ms;
        self.histogram.add_one(bucket);
        self.statuses.add_one(slot);
        proof {
            let sample = Tally::sample(status, elapsed_ms, success);
            assert(self.histogram.view() =~= added(old(self).histogram.view(), sample.histogram));
            assert(self.statuses.view() =~= added(old(self).statuses.view(), sample.statuses));
        }
    }

    /// Adds the counters of `other`.
    pub fn absorb(&mut self, other: &Summary)
        requires
            old(self).wf(),
            other.wf(),
            old(self).tally().fits(other.tally()),
        ensures
            final(self).wf(),
            final(self).name == old(self).name,
            final(self).tally() == old(self).tally().plus(other.tally()),
    {
        if self.count == 0 {
            self.min_ms = other.min_ms;
        } else if other.count != 0 && other.min_ms < self.min_ms {
            self.min_ms = other.min_ms;
        }
        if other.max_ms > self.max_ms {
            self.max_ms = other.max_ms;
        }
        self.count = self.count + other.count;
        self.success = self.success + other.success;
        self.failure = self.failure + other.failure;
        self.total_ms = self.total_ms + other.total_ms;
        self.histogram.merge(&other.histogram);
        self.statuses.merge(&other.statuses);
    }

    /// The mean latency in whole milliseconds, rounded down; none without
    /// requests.
    pub fn mean_ms(&self) -> (mean: Option<u64>)
        ensures
            self.count == 0 <==> mean.is_none(),
            self.count > 0 ==> mean == Some((self.total_ms / self.count) as u64),
    {
        if self.count == 0 {
            None
        } else {
            Some(self.total_ms / self.count)
        }
    }

    /// The `p`-th percentile of the latencies, in milliseconds: the floor of
    /// the bucket that holds the sample of the nearest rank. None without
    /// requests and for a `p` above 100. The value is at most the sample, and
    /// less than it by at most a 128th of it
    /// ([`lemma_percentile_accuracy`](crate::histogram::lemma_percentile_accuracy)).
    pub fn percentile(&self, p: u64) -> (value: Option<u64>)
        requires
            self.wf(),
        ensures
            (self.count == 0 || p > 100) <==> value.is_none(),
            value matches Some(v) ==> exists|b: int|
                #[trigger] is_rank_bucket(
                    self.tally().histogram,
                    nearest_rank(p as nat, self.count as nat),
                    b,
                ) && v == bucket_floor(b as nat),
    {
        if self.count == 0 || p > 100 {
            return None;
        }
        let n: u64 = self.count;
        assert(p * n <= 100 * n) by (nonlinear_arith)
            requires
                p <= 100,
                n >= 0,
        ;
        let product: u128 = (p as u128) * (n as u128);
        let rank: u64 = if product == 0 {
            1
        } else {
            ((product + 99) / 100) as u64
        };
        assert(rank == nearest_rank(p as nat, n as nat));
        let bucket: usize = self.histogram.rank_slot(rank);
        assert(is_rank_bucket(
            self.tally().histogram,
            nearest_rank(p as nat, self.count as nat),
            bucket as int,
        ));
        Some(floor_of(bucket))
    }
}

/// The counters of every request name that was seen.
#[derive(Debug)]
pub struct Statistics {
    /// One summary for each request name.
    pub entries: Vec<Summary>,
}

impl Statistics {
    /// The request names, in the order of the entries.
    pub open spec fn names(&self) -> Seq<Seq<char>> {
        Seq::new(self.entries@.len(), |i: int| self.entries@[i].name@)
    }

    /// Statistics are valid if every summary is valid and no name has two.
    pub open spec fn wf(&self) -> bool {
        &&& forall|i: int| 0 <= i < self.entries@.len() ==> (#[trigger] self.entries@[i]).wf()
        &&& self.names().no_duplicates()
    }

    /// The counters of `name`; those of no request if the name was not seen.
    pub open spec fn tally_of(&self, name: Seq<char>) -> Tally {
        match self.names().index_of_first(name) {
            Some(i) => self.entries@[i].tally(),
            None => Tally::zero(),
        }
    }

    /// Whether the statistics are valid, as those that came from elsewhere
    /// may not be.
    pub fn is_valid(&self) -> (valid: bool)
        ensures
            valid == self.wf(),
    {
        let mut i: usize = 0;
        while i < self.entries.len()
            invariant
                i <= self.entries.len(),
                forall|j: int| 0 <= j < i ==> (#[trigger] self.entries@[j]).wf(),
                forall|a: int, b: int| 0 <= a < b < i ==> self.names()[a] != self.names()[b],
            decreases self.entries.len() - i,
        {
            if !self.entries[i].is_valid() {
                return false;
            }
            let mut k: usize = 0;
            while k < i
                invariant
                    k <= i,
                    i < self.entries.len(),
                    forall|a: int| 0 <= a < k ==> self.names()[a] != self.names()[i as int],
                decreases i - k,
            {
                if self.entries[k].name == self.entries[i].name {
                    proof {
                        assert(self.names()[k as int] == self.names()[i as int]);
                    }
                    return false;
                }
                k = k + 1;
            }
            i = i + 1;
        }
        true
    }

    /// Statistics of no request.
    pub fn new() -> (stats: Statistics)
        ensures
            stats.wf(),
            stats.entries@.len() == 0,
            forall|name: Seq<char>| #[trigger] stats.tally_of(name) == Tally::zero(),
    {
        let stats = Statistics { entries: Vec::new() };
        proof {
            assert forall|name: Seq<char>| #[trigger] stats.tally_of(name) == Tally::zero() by {
                stats.names().index_of_first_ensures(name);
            }
        }
        stats
    }

    /// The index of the summary of `name`, if there is one.
    pub fn find(&self, name: &String) -> (found: Option<usize>)
        ensures
            match found {
                Some(i) => self.names().index_of_first(name@) == Some(i as int) && i
                    < self.entries@.len(),
                None => self.names().index_of_first(name@).is_none() && !self.names().contains(
                    name@,
                ),
            },
    {
        let mut i: usize = 0;
        while i < self.entries.len()
            invariant
                i <= self.entries.len(),
                forall|j: int| 0 <= j < i ==> self.names()[j] != name@,
            decreases self.entries.len() - i,
        {
            if self.entries[i].name == *name {
                proof {
                    lemma_first_index(self.names(), name@, i as int);
                }
                return Some(i);
            }
            i = i + 1;
        }
        proof {
            self.names().index_of_first_ensures(name@);
        }
        None
    }

    /// Counts `record` under its name. Nothing is counted where a counter
    /// would exceed 64 bits.
    #[verifier::rlimit(40)]
    pub fn record(&mut self, record: &RequestRecord) -> (result: Result<(), StatsError>)
        requires
            old(self).wf(),
        ensures
            final(self).wf(),
            result.is_ok() <==> old(self).tally_of(record.name@).fits(
                Tally::sample(record.status, record.elapsed_ms, record.success),
            ),
            result.is_ok() ==> forall|name: Seq<char>| #[trigger]
                final(self).tally_of(name) == if name == record.name@ {
                    old(self).tally_of(name).plus(
                        Tally::sample(record.status, record.elapsed_ms, record.success),
                    )
                } else {
                    old(self).tally_of(name)
                },
            result.is_err() ==> result == Err::<(), StatsError>(StatsError::Overflow) && *final(self)
                == *old(self),
    {
        let ghost sample = Tally::sample(record.status, record.elapsed_ms, record.success);
        match self.find(&record.name) {
            Some(i) => {
                if self.entries[i].count == u64::MAX || record.elapsed_ms > u64::MAX
                    - self.entries[i].total_ms {
                    return Err(StatsError::Overflow);
                }
                self.entries[i].add_sample(record.status, record.elapsed_ms, record.success);
                proof {
                    assert(self.names() =~= old(self).names());
                    old(self).names().index_of_first_ensures(record.name@);
                    assert(self.entries@[i as int].tally() == old(self).tally_of(record.name@).plus(
                        sample,
                    ));
                    assert forall|j: int| 0 <= j < self.entries@.len() && j != i implies #[trigger]
                        self.entries@[j] == old(self).entries@[j] by {}
                    assert forall|name: Seq<char>| #[trigger]
                        self.tally_of(name) == if name == record.name@ {
                            old(self).tally_of(name).plus(sample)
                        } else {
                            old(self).tally_of(name)
                        } by {
                        self.names().index_of_first_ensures(name);
                    }
                }
            },
            None => {
                let mut entry = Summary::new(&record.name);
                entry.add_sample(record.status, record.elapsed_ms, record.success);
                self.entries.push(entry);
                proof {
                    assert(self.names() =~= old(self).names().push(record.name@));
                    assert forall|name: Seq<char>| #[trigger]
                        self.tally_of(name) == if name == record.name@ {
                            old(self).tally_of(name).plus(sample)
                        } else {
                            old(self).tally_of(name)
                        } by {
                        lemma_first_index_push(old(self).names(), record.name@, name);
                        old(self).names().index_of_first_ensures(name);
                    }
                    lemma_first_index_push(old(self).names(), record.name@, record.name@);
                }
            },
        }
        Ok(())
    }

    /// Whether the counters of `delta` can be added to these within 64 bits.
    pub open spec fn fits(&self, delta: &Statistics) -> bool {
        forall|name: Seq<char>| #[trigger] self.tally_of(name).fits(delta.tally_of(name))
    }

    /// Whether the counters of `delta` can be added to these within 64 bits.
    pub fn can_merge(&self, delta: &Statistics) -> (fits: bool)
        requires
            self.wf(),
            delta.wf(),
        ensures
            fits == self.fits(delta),
    {
        let mut k: usize = 0;
        while k < delta.entries.len()
            invariant
                k <= delta.entries.len(),
                self.wf(),
                delta.wf(),
                forall|j: int|
                    0 <= j < k ==> self.tally_of(#[trigger] delta.names()[j]).fits(
                        delta.entries@[j].tally(),
                    ),
            decreases delta.entries.len() - k,
        {
            proof {
                lemma_first_index_distinct(delta.names(), k as int);
            }
            match self.find(&delta.entries[k].name) {
                Some(i) => {
                    if delta.entries[k].count > u64::MAX - self.entries[i].count
                        || delta.entries[k].total_ms > u64::MAX - self.entries[i].total_ms {
                        proof {
                            let name: Seq<char> = delta.names()[k as int];
                            assert(!self.tally_of(name).fits(delta.tally_of(name)));
                        }
                        return false;
                    }
                },
                None => {},
            }
            k = k + 1;
        }
        proof {
            assert forall|name: Seq<char>| #[trigger]
                self.tally_of(name).fits(delta.tally_of(name)) by {
                delta.names().index_of_first_ensures(name);
                self.names().index_of_first_ensures(name);
                match delta.names().index_of_first(name) {
                    Some(j) => {
                        assert(self.tally_of(delta.names()[j]).fits(delta.entries@[j].tally()));
                    },
                    None => {},
                }
            }
        }
        true
    }

    /// Adds the counters of `delta`, name by name. Nothing is added where a
    /// counter would exceed 64 bits.
    #[verifier::rlimit(40)]
    pub fn merge(&mut self, delta: &Statistics) -> (result: Result<(), StatsError>)
        requires
            old(self).wf(),
            delta.wf(),
        ensures
            final(self).wf(),
            result.is_ok() <==> old(self).fits(delta),
            result.is_ok() ==> forall|name: Seq<char>| #[trigger]
                final(self).tally_of(name) == old(self).tally_of(name).plus(delta.tally_of(name)),
            result.is_err() ==> result == Err::<(), StatsError>(StatsError::Overflow) && *final(self)
                == *old(self),
    {
        if !self.can_merge(delta) {
            return Err(StatsError::Overflow);
        }
        let mut k: usize = 0;
        while k < delta.entries.len()
            invariant
                k <= delta.entries.len(),
                self.wf(),
                delta.wf(),
                old(self).fits(delta),
                forall|name: Seq<char>| #[trigger]
                    self.tally_of(name) == if delta.names().take(k as int).contains(name) {
                        old(self).tally_of(name).plus(delta.tally_of(name))
                    } else {
                        old(self).tally_of(name)
                    },
            decreases delta.entries.len() - k,
        {
            let ghost before = *self;
            let ghost key: Seq<char> = delta.names()[k as int];
            proof {
                lemma_first_index_distinct(delta.names(), k as int);
                lemma_take_contains(delta.names(), k as int, key);
                assert(before.tally_of(key) == old(self).tally_of(key));
                assert(old(self).tally_of(key).fits(delta.tally_of(key)));
            }
            match self.find(&delta.entries[k].name) {
                Some(i) => {
                    self.entries[i].absorb(&delta.entries[k]);
                    proof {
                        assert(self.names() =~= before.names());
                        before.names().index_of_first_ensures(key);
                        assert(self.entries@[i as int].tally() == before.tally_of(key).plus(
                            delta.tally_of(key),
                        ));
                        assert forall|j: int|
                            0 <= j < self.entries@.len() && j != i implies #[trigger] self.entries@[j]
                            == before.entries@[j] by {}
                        assert forall|name: Seq<char>| #[trigger]
                            self.tally_of(name) == if delta.names().take(k + 1).contains(name) {
                                old(self).tally_of(name).plus(delta.tally_of(name))
                            } else {
                                old(self).tally_of(name)
                            } by {
                            lemma_take_contains(delta.names(), k as int, name);
                            self.names().index_of_first_ensures(name);
                            assert(before.tally_of(name) == if delta.names().take(
                                k as int,
                            ).contains(name) {
                                old(self).tally_of(name).plus(delta.tally_of(name))
                            } else {
                                old(self).tally_of(name)
                            });
                        }
                    }
                },
                None => {
                    let entry = delta.entries[k].copy();
                    self.entries.push(entry);
                    proof {
                        assert(self.names() =~= before.names().push(key));
                        lemma_first_index_push(before.names(), key, key);
                        lemma_plus_zero(delta.entries@[k as int].tally(), Tally::zero());
                        assert forall|name: Seq<char>| #[trigger]
                            self.tally_of(name) == if delta.names().take(k + 1).contains(name) {
                                old(self).tally_of(name).plus(delta.tally_of(name))
                            } else {
                                old(self).tally_of(name)
                            } by {
                            lemma_take_contains(delta.names(), k as int, name);
                            lemma_first_index_push(before.names(), key, name);
                            before.names().index_of_first_ensures(name);
                            assert(before.tally_of(name) == if delta.names().take(
                                k as int,
                            ).contains(name) {
                                old(self).tally_of(name).plus(delta.tally_of(name))
                            } else {
                                old(self).tally_of(name)
                            });
                        }
                    }
                },
            }
            k = k + 1;
        }
        proof {
            assert(delta.names().take(k as int) == delta.names());
            assert forall|name: Seq<char>| #[trigger]
                self.tally_of(name) == old(self).tally_of(name).plus(delta.tally_of(name)) by {
                delta.names().index_of_first_ensures(name);
                if !delta.names().contains(name) {
                    old(self).names().index_of_first_ensures(name);
                    match old(self).names().index_of_first(name) {
                        Some(i) => {
                            assert(old(self).entries@[i].wf());
                            lemma_plus_zero(old(self).tally_of(name), Tally::zero());
                        },
                        None => {
                            lemma_plus_zero(Tally::zero(), Tally::zero());
                        },
                    }
                }
            }
        }
        Ok(())
    }

    /// Hands out the statistics gathered so far and starts anew with none, as
    /// a worker does with each report.
    pub fn take(&mut self) -> (taken: Statistics)
        ensures
            taken == *old(self),
            final(self).wf(),
            final(self).entries@.len() == 0,
            forall|name: Seq<char>| #[trigger] final(self).tally_of(name) == Tally::zero(),
    {
        let mut taken = Statistics::new();
        std::mem::swap(self, &mut taken);
        taken
    }
}


/// The counters that valid statistics hold of a name are valid.
pub proof fn lemma_tally_of_wf(stats: Statistics, name: Seq<char>)
    requires
        stats.wf(),
    ensures
        stats.tally_of(name).wf(),
{
    stats.names().index_of_first_ensures(name);
    match stats.names().index_of_first(name) {
        Some(i) => {
            assert(stats.entries@[i].wf());
        },
        None => {},
    }
}

/// Reports in another order hold, of any name, the same counters in another
/// order.
pub proof fn lemma_map_keeps_multiset(a: Seq<Statistics>, b: Seq<Statistics>, name: Seq<char>)
    requires
        a.to_multiset() == b.to_multiset(),
    ensures
        a.map_values(|d: Statistics| d.tally_of(name)).to_multiset() == b.map_values(
            |d: Statistics| d.tally_of(name),
        ).to_multiset(),
    decreases a.len(),
{
    broadcast use vstd::seq_lib::group_to_multiset_ensures;

    let f = |d: Statistics| d.tally_of(name);
    a.to_multiset_ensures();
    b.to_multiset_ensures();
    if a.len() == 0 {
        assert(b.len() == 0);
        assert(a.map_values(f) =~= b.map_values(f));
    } else {
        let x: Statistics = a.last();
        assert(a == a.drop_last().push(x));
        assert(a.to_multiset().count(x) > 0);
        assert(b.contains(x));
        let i: int = choose|i: int| 0 <= i < b.len() && b[i] == x;
        assert(a.drop_last().to_multiset() =~= a.to_multiset().remove(x));
        assert(b.remove(i).to_multiset() =~= b.to_multiset().remove(x));
        lemma_map_keeps_multiset(a.drop_last(), b.remove(i), name);
        assert(a.map_values(f) =~= a.drop_last().map_values(f).push(f(x)));
        assert(b.map_values(f).remove(i) =~= b.remove(i).map_values(f));
        assert(b.map_values(f)[i] == f(x));
        let bm: Seq<Tally> = b.map_values(f);
        assert(bm.remove(i).to_multiset() =~= bm.to_multiset().remove(f(x)));
        assert(bm.to_multiset().count(f(x)) > 0) by {
            assert(bm.contains(bm[i]));
        }
        assert(bm.to_multiset() =~= bm.remove(i).to_multiset().insert(f(x)));
    }
}

} // verus!
