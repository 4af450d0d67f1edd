//! A histogram of latencies with buckets of bounded relative width.
//!
//! Latencies are whole milliseconds. Below 256 every value has a bucket of its
//! own. From 256 on, every range from a power of two to the next is cut into
//! 128 buckets of equal width, so that no value is further from the floor of
//! its bucket than a 128th of itself. From such a histogram the percentiles of
//! a run can be read at its end to within one percent, and two histograms
//! merge by adding their counts bucket by bucket.

use vstd::prelude::*;
use vstd::arithmetic::power2::{lemma2_to64, lemma_pow2_adds, lemma_pow2_unfold, pow2};

verus! {

/// The number of buckets: 256 for the values below 256, and 128 for each of
/// the 56 doublings from there to the largest latency that 64 bits hold.
pub const BUCKETS: usize = 7424;

/// The bucket of the latency `v`.
pub open spec fn bucket_of(v: nat) -> nat
    decreases v,
{
    if v < 256 {
        v
    } else {
        bucket_of(v / 2) + 128
    }
}

/// The least latency of bucket `b`.
pub open spec fn bucket_floor(b: nat) -> nat
    decreases b,
{
    if b < 256 {
        b
    } else {
        2 * bucket_floor((b - 128) as nat)
    }
}

/// The number of latencies of bucket `b`.
pub open spec fn bucket_width(b: nat) -> nat
    decreases b,
{
    if b < 256 {
        1
    } else {
        2 * bucket_width((b - 128) as nat)
    }
}

/// The sum of the counts `s`.
pub open spec fn sum(s: Seq<nat>) -> nat
    decreases s.len(),
{
    if s.len() == 0 {
        0
    } else {
        sum(s.drop_last()) + s.last()
    }
}

/// The counts `a` and `b` added bucket by bucket.
pub open spec fn added(a: Seq<nat>, b: Seq<nat>) -> Seq<nat> {
    Seq::new(a.len(), |i: int| a[i] + b[i])
}

/// Whether `b` is the bucket of the sample of rank `rank` (the first sample
/// has rank 1) when the samples that `counts` holds are put in ascending
/// order: the first bucket up to which at least `rank` samples are counted.
pub open spec fn is_rank_bucket(counts: Seq<nat>, rank: nat, b: int) -> bool {
    &&& 0 <= b < counts.len()
    &&& sum(counts.take(b)) < rank
    &&& rank <= sum(counts.take(b + 1))
}

/// The rank of the `p`-th percentile among `n` samples by the nearest-rank
/// rule: the least rank that at least `p` percent of the samples reach, and at
/// least 1.
pub open spec fn nearest_rank(p: nat, n: nat) -> nat {
    if p * n == 0 {
        1
    } else {
        ((p * n + 99) / 100) as nat
    }
}

/// A latency lies in its bucket: at or above the bucket's floor and within its
/// width. The buckets below 256 hold one latency each; from there on a bucket
/// is no wider than a 128th of its floor.
pub proof fn lemma_bucket_holds(v: nat)
    ensures
        bucket_floor(bucket_of(v)) <= v < bucket_floor(bucket_of(v)) + bucket_width(bucket_of(v)),
        v < 256 <==> bucket_of(v) < 256,
        v >= 128 ==> bucket_of(v) >= 128,
        v < 256 ==> bucket_of(v) == v,
        bucket_of(v) >= 128 ==> bucket_floor(bucket_of(v)) >= 128 * bucket_width(bucket_of(v)),
    decreases v,
{
    if v >= 256 {
        lemma_bucket_holds(v / 2);
        let inner: nat = bucket_of(v / 2);
        assert(bucket_of(v) == inner + 128);
        assert(bucket_floor(bucket_of(v)) == 2 * bucket_floor(inner));
        assert(bucket_width(bucket_of(v)) == 2 * bucket_width(inner));
    }
}

/// The floor of a latency's bucket is less than the latency by at most a
/// 128th of the latency, which is less than one percent.
pub proof fn lemma_bucket_error(v: nat)
    ensures
        bucket_floor(bucket_of(v)) <= v,
        128 * (v - bucket_floor(bucket_of(v))) <= v,
{
    lemma_bucket_holds(v);
}

/// A larger latency has no smaller bucket.
pub proof fn lemma_bucket_monotone(v: nat, w: nat)
    requires
        v <= w,
    ensures
        bucket_of(v) <= bucket_of(w),
    decreases w,
{
    lemma_bucket_holds(v);
    lemma_bucket_holds(w);
    if v >= 256 {
        lemma_bucket_monotone(v / 2, w / 2);
    }
}

/// A latency below `256 * 2^s` has a bucket below `256 + 128 * s`.
pub proof fn lemma_bucket_bound(v: nat, s: nat)
    requires
        v < 256 * pow2(s),
    ensures
        bucket_of(v) < 256 + 128 * s,
    decreases v,
{
    if v >= 256 {
        if s == 0 {
            lemma2_to64();
        } else {
            lemma_pow2_unfold(s);
            lemma_bucket_bound(v / 2, (s - 1) as nat);
        }
    }
}

/// Every latency that 64 bits hold has one of the [`BUCKETS`] buckets.
pub proof fn lemma_bucket_in_range(v: u64)
    ensures
        bucket_of(v as nat) < BUCKETS,
{
    lemma2_to64();
    lemma_pow2_adds(8, 56);
    lemma_bucket_bound(v as nat, 56);
}

/// A bucket below `256 + 128 * s` has a floor below `256 * 2^s`, and a bucket
/// from 128 on has a floor from 128 on.
pub proof fn lemma_floor_bound(b: nat, s: nat)
    requires
        b < 256 + 128 * s,
    ensures
        bucket_floor(b) < 256 * pow2(s),
        b >= 128 ==> bucket_floor(b) >= 128,
    decreases b,
{
    if b >= 256 {
        lemma_pow2_unfold(s);
        lemma_floor_bound((b - 128) as nat, (s - 1) as nat);
    } else {
        vstd::arithmetic::power2::lemma_pow2_pos(s);
        assert(256 * pow2(s) >= 256) by (nonlinear_arith)
            requires
                pow2(s) >= 1,
        ;
    }
}

/// The floor of each of the [`BUCKETS`] buckets fits in 64 bits.
pub proof fn lemma_floor_in_range(b: nat)
    requires
        b < BUCKETS,
    ensures
        bucket_floor(b) <= u64::MAX,
{
    lemma2_to64();
    lemma_pow2_adds(8, 56);
    lemma_floor_bound(b, 56);
}

/// The histogram of `samples`: for each bucket the number of samples in it.
pub open spec fn histogram_of(samples: Seq<u64>) -> Seq<nat>
    decreases samples.len(),
{
    if samples.len() == 0 {
        Seq::new(BUCKETS as nat, |i: int| 0nat)
    } else {
        let before = histogram_of(samples.drop_last());
        let b = bucket_of(samples.last() as nat) as int;
        before.update(b, before[b] + 1)
    }
}

/// The number of samples below `bound`.
pub open spec fn count_below(samples: Seq<u64>, bound: int) -> nat
    decreases samples.len(),
{
    if samples.len() == 0 {
        0
    } else {
        count_below(samples.drop_last(), bound) + if samples.last() < bound {
            1nat
        } else {
            0nat
        }
    }
}

/// Every bucket holds a latency, and the next bucket begins where a bucket
/// ends.
pub proof fn lemma_floor_next(b: nat)
    ensures
        bucket_width(b) >= 1,
        bucket_floor(b + 1) == bucket_floor(b) + bucket_width(b),
    decreases b,
{
    if b >= 256 {
        lemma_floor_next((b - 128) as nat);
        assert(bucket_floor(b + 1) == 2 * bucket_floor((b + 1 - 128) as nat));
    } else if b == 255 {
        assert(bucket_floor(256) == 2 * bucket_floor(128));
    }
}

/// A later bucket has no lower floor.
pub proof fn lemma_floor_monotone(a: nat, b: nat)
    requires
        a <= b,
    ensures
        bucket_floor(a) <= bucket_floor(b),
    decreases b - a,
{
    if a < b {
        lemma_floor_next(a);
        lemma_floor_monotone(a + 1, b);
    }
}

/// The latencies of the buckets before `b` are those below the floor of `b`.
pub proof fn lemma_bucket_below(v: nat, b: nat)
    ensures
        bucket_of(v) < b <==> v < bucket_floor(b),
{
    let mine: nat = bucket_of(v);
    lemma_bucket_holds(v);
    lemma_floor_next(mine);
    if mine < b {
        lemma_floor_monotone(mine + 1, b);
    } else {
        lemma_floor_monotone(b, mine);
    }
}

/// No fewer samples lie below a greater bound.
pub proof fn lemma_count_below_monotone(samples: Seq<u64>, low: int, high: int)
    requires
        low <= high,
    ensures
        count_below(samples, low) <= count_below(samples, high),
    decreases samples.len(),
{
    if samples.len() > 0 {
        lemma_count_below_monotone(samples.drop_last(), low, high);
    }
}

/// The counts of a histogram up to a bucket add up to the samples below the
/// bucket's floor.
pub proof fn lemma_histogram_counts(samples: Seq<u64>, b: int)
    requires
        0 <= b <= BUCKETS,
    ensures
        histogram_of(samples).len() == BUCKETS,
        sum(histogram_of(samples).take(b)) == count_below(samples, bucket_floor(b as nat) as int),
    decreases samples.len(),
{
    let h: Seq<nat> = histogram_of(samples);
    if samples.len() == 0 {
        lemma_sum_zero(h.take(b));
    } else {
        let before: Seq<nat> = histogram_of(samples.drop_last());
        let x: u64 = samples.last();
        let at: int = bucket_of(x as nat) as int;
        lemma_histogram_counts(samples.drop_last(), b);
        lemma_bucket_in_range(x);
        lemma_bucket_below(x as nat, b as nat);
        if at < b {
            assert(h.take(b) == before.take(b).update(at, before[at] + 1));
            lemma_sum_update(before.take(b), at, before[at] + 1);
        } else {
            assert(h.take(b) == before.take(b));
        }
    }
}

/// Histograms merge as samples do: the histogram of two lots of samples
/// together is the two histograms added bucket by bucket.
pub proof fn lemma_histogram_of_concat(a: Seq<u64>, b: Seq<u64>)
    ensures
        histogram_of(a + b) == added(histogram_of(a), histogram_of(b)),
    decreases b.len(),
{
    lemma_histogram_counts(a, 0);
    lemma_histogram_counts(b, 0);
    if b.len() == 0 {
        assert(a + b == a);
        assert(added(histogram_of(a), histogram_of(b)) =~= histogram_of(a));
    } else {
        let x: u64 = b.last();
        let at: int = bucket_of(x as nat) as int;
        lemma_bucket_in_range(x);
        lemma_histogram_of_concat(a, b.drop_last());
        lemma_histogram_counts(b.drop_last(), 0);
        assert((a + b).drop_last() == a + b.drop_last());
        assert((a + b).last() == x);
        assert(histogram_of(a + b) =~= added(histogram_of(a), histogram_of(b)));
    }
}

/// The percentile that a histogram gives is within a 128th, and so within one
/// percent, below the percentile of the samples. Where `b` is the bucket of
/// rank `rank` in the histogram of `samples`, and `x` is the sample of that
/// rank when the samples are put in ascending order (fewer than `rank` samples
/// lie below `x`, and at least `rank` samples are at most `x`), then `x` lies
/// in bucket `b`: the floor of `b` is at most `x` and less than `x` by at most
/// a 128th of `x`, and it is `x` itself below 256.
pub proof fn lemma_percentile_accuracy(samples: Seq<u64>, rank: nat, b: int, x: u64)
    requires
        is_rank_bucket(histogram_of(samples), rank, b),
        count_below(samples, x as int) < rank <= count_below(samples, x + 1),
    ensures
        bucket_of(x as nat) == b,
        bucket_floor(b as nat) <= x,
        128 * (x - bucket_floor(b as nat)) <= x,
        x < 256 ==> bucket_floor(b as nat) == x,
{
    lemma_histogram_counts(samples, 0);
    lemma_histogram_counts(samples, b);
    lemma_histogram_counts(samples, b + 1);
    let floor: int = bucket_floor(b as nat) as int;
    let next: int = bucket_floor((b + 1) as nat) as int;
    if x < floor {
        lemma_count_below_monotone(samples, x + 1, floor);
    }
    if x >= next {
        lemma_count_below_monotone(samples, next, x as int);
    }
    lemma_bucket_below(x as nat, b as nat);
    lemma_bucket_below(x as nat, (b + 1) as nat);
    lemma_bucket_holds(x as nat);
}

/// Changing one count changes the sum by as much.
pub proof fn lemma_sum_update(s: Seq<nat>, i: int, x: nat)
    requires
        0 <= i < s.len(),
    ensures
        sum(s.update(i, x)) == sum(s) - s[i] + x,
        s[i] <= sum(s),
    decreases s.len(),
{
    if i == s.len() - 1 {
        assert(s.update(i, x).drop_last() == s.drop_last());
    } else {
        assert(s.update(i, x).drop_last() == s.drop_last().update(i, x));
        lemma_sum_update(s.drop_last(), i, x);
    }
}

/// The sum of counts added bucket by bucket is the sum of the sums.
pub proof fn lemma_sum_added(a: Seq<nat>, b: Seq<nat>)
    requires
        a.len() == b.len(),
    ensures
        sum(added(a, b)) == sum(a) + sum(b),
    decreases a.len(),
{
    if a.len() > 0 {
        assert(added(a, b).drop_last() == added(a.drop_last(), b.drop_last()));
        lemma_sum_added(a.drop_last(), b.drop_last());
    }
}

/// The first counts sum to no more than all, and each further count adds
/// itself.
pub proof fn lemma_sum_take(s: Seq<nat>, k: int)
    requires
        0 <= k <= s.len(),
    ensures
        sum(s.take(k)) <= sum(s),
        k < s.len() ==> sum(s.take(k + 1)) == sum(s.take(k)) + s[k],
    decreases s.len() - k,
{
    if k < s.len() {
        assert(s.take(k + 1).drop_last() == s.take(k));
        lemma_sum_take(s, k + 1);
    } else {
        assert(s.take(k) == s);
    }
}

/// Counts of zero sum to zero.
pub proof fn lemma_sum_zero(s: Seq<nat>)
    requires
        forall|i: int| 0 <= i < s.len() ==> s[i] == 0,
    ensures
        sum(s) == 0,
    decreases s.len(),
{
    if s.len() > 0 {
        lemma_sum_zero(s.drop_last());
    }
}

/// Adding counts bucket by bucket does not depend on the order of the two, nor
/// on how three are grouped.
pub proof fn lemma_added_commutes(a: Seq<nat>, b: Seq<nat>, c: Seq<nat>)
    requires
        a.len() == b.len(),
        b.len() == c.len(),
    ensures
        added(a, b) == added(b, a),
        added(added(a, b), c) == added(a, added(b, c)),
{
    assert(added(a, b) =~= added(b, a));
    assert(added(added(a, b), c) =~= added(a, added(b, c)));
}

/// The bucket of the latency `v`.
pub fn bucket_index(v: u64) -> (b: usize)
    ensures
        b == bucket_of(v as nat),
        b < BUCKETS,
{
    let mut m: u64 = v;
    let mut steps: usize = 0;
    proof {
        lemma_bucket_in_range(v);
    }
    while m >= 256
        invariant
            bucket_of(v as nat) == bucket_of(m as nat) + steps,
            bucket_of(v as nat) < BUCKETS,
        decreases m,
    {
        m = m / 2;
        steps = steps + 128;
    }
    steps + m as usize
}

/// The least latency of bucket `b`.
pub fn floor_of(b: usize) -> (floor: u64)
    requires
        b < BUCKETS,
    ensures
        floor == bucket_floor(b as nat),
{
    let mut rest: usize = b;
    let mut scale: u64 = 1;
    proof {
        lemma_floor_in_range(b as nat);
    }
    while rest >= 256
        invariant
            rest <= b,
            b < BUCKETS,
            b >= 256 ==> rest >= 128,
            scale >= 1,
            scale * bucket_floor(rest as nat) == bucket_floor(b as nat),
            bucket_floor(b as nat) <= u64::MAX,
        decreases rest,
    {
        proof {
            let inner: nat = bucket_floor((rest - 128) as nat);
            lemma_floor_bound((rest - 128) as nat, 56);
            assert(scale * (2 * inner) == (2 * scale) * inner) by (nonlinear_arith);
            assert(2 * scale <= u64::MAX) by (nonlinear_arith)
                requires
                    (2 * scale) * inner <= u64::MAX,
                    inner >= 128,
                    scale >= 1,
            ;
        }
        rest = rest - 128;
        scale = scale * 2;
    }
    assert(scale * rest == bucket_floor(b as nat));
    scale * (rest as u64)
}

/// A row of counters, one for each of a fixed number of slots. A histogram of
/// latencies is a row with one slot for each bucket.
#[derive(Debug)]
pub struct Counts {
    /// The count of each slot.
    pub counts: Vec<u64>,
}

impl Counts {
    /// The counts as naturals.
    pub open spec fn view(&self) -> Seq<nat> {
        Seq::new(self.counts@.len(), |i: int| self.counts@[i] as nat)
    }

    /// The sum of all counts.
    pub open spec fn total(&self) -> nat {
        sum(self.view())
    }

    /// A row of `slots` counters is valid if it has that many counts and their
    /// sum fits in 64 bits.
    pub open spec fn wf(&self, slots: nat) -> bool {
        &&& self.counts@.len() == slots
        &&& self.total() <= u64::MAX
    }

    /// A row of `slots` counters at zero.
    pub fn new(slots: usize) -> (row: Counts)
        ensures
            row.wf(slots as nat),
            row.total() == 0,
            row.view() == Seq::new(slots as nat, |i: int| 0nat),
    {
        let mut counts: Vec<u64> = Vec::new();
        let mut i: usize = 0;
        while i < slots
            invariant
                i <= slots,
                counts@.len() == i,
                forall|k: int| 0 <= k < i ==> counts@[k] == 0,
            decreases slots - i,
        {
            counts.push(0);
            i = i + 1;
        }
        let row = Counts { counts: counts };
        proof {
            lemma_sum_zero(row.view());
            assert(row.view() =~= Seq::new(slots as nat, |i: int| 0nat));
        }
        row
    }

    /// A copy of the row.
    pub fn copy(&self) -> (row: Counts)
        ensures
            row.view() == self.view(),
            row.counts@.len() == self.counts@.len(),
    {
        let mut counts: Vec<u64> = Vec::new();
        let mut i: usize = 0;
        while i < self.counts.len()
            invariant
                i <= self.counts.len(),
                counts@.len() == i,
                forall|k: int| 0 <= k < i ==> counts@[k] == self.counts@[k],
            decreases self.counts.len() - i,
        {
            counts.push(self.counts[i]);
            i = i + 1;
        }
        let row = Counts { counts: counts };
        proof {
            assert(row.view() =~= self.view());
        }
        row
    }

    /// Adds one to the count of `slot`.
    pub fn add_one(&mut self, slot: usize)
        requires
            slot < old(self).counts@.len(),
            old(self).total() < u64::MAX,
        ensures
            final(self).counts@.len() == old(self).counts@.len(),
            final(self).view() == old(self).view().update(
                slot as int,
                old(self).view()[slot as int] + 1,
            ),
            final(self).total() == old(self).total() + 1,
    {
        proof {
            lemma_sum_update(self.view(), slot as int, self.view()[slot as int] + 1);
        }
        let count: u64 = self.counts[slot];
        self.counts[slot] = count + 1;
        proof {
            assert(self.view() =~= old(self).view().update(
                slot as int,
                old(self).view()[slot as int] + 1,
            ));
        }
    }

    /// Adds the counts of `other`, slot by slot.
    pub fn merge(&mut self, other: &Counts)
        requires
            old(self).counts@.len() == other.counts@.len(),
            old(self).total() + other.total() <= u64::MAX,
        ensures
            final(self).counts@.len() == old(self).counts@.len(),
            final(self).view() == added(old(self).view(), other.view()),
            final(self).total() == old(self).total() + other.total(),
    {
        let slots: usize = self.counts.len();
        let mut i: usize = 0;
        while i < slots
            invariant
                i <= slots,
                self.counts@.len() == slots,
                other.counts@.len() == slots,
                old(self).counts@.len() == slots,
                old(self).total() + other.total() <= u64::MAX,
                forall|k: int| 0 <= k < i ==> self.counts@[k] == old(self).counts@[k] + other.counts@[k],
                forall|k: int| i <= k < slots ==> self.counts@[k] == old(self).counts@[k],
            decreases slots - i,
        {
            proof {
                lemma_sum_update(old(self).view(), i as int, 0);
                lemma_sum_update(other.view(), i as int, 0);
            }
            let sum: u64 = self.counts[i] + other.counts[i];
            self.counts[i] = sum;
            i = i + 1;
        }
        proof {
            assert(self.view() =~= added(old(self).view(), other.view()));
            lemma_sum_added(old(self).view(), other.view());
        }
    }

    /// The sum of all counts, if it fits in 64 bits.
    pub fn sum_within(&self) -> (total: Option<u64>)
        ensures
            match total {
                Some(t) => t == self.total(),
                None => self.total() > u64::MAX,
            },
    {
        let mut total: u64 = 0;
        let mut i: usize = 0;
        while i < self.counts.len()
            invariant
                i <= self.counts.len(),
                total == sum(self.view().take(i as int)),
            decreases self.counts.len() - i,
        {
            proof {
                lemma_sum_take(self.view(), i as int);
                lemma_sum_take(self.view(), i + 1);
            }
            if self.counts[i] > u64::MAX - total {
                return None;
            }
            total = total + self.counts[i];
            i = i + 1;
        }
        proof {
            assert(self.view().take(i as int) == self.view());
        }
        Some(total)
    }

    /// The slot of the sample of rank `rank`, where the samples are ordered by
    /// their slots.
    pub fn rank_slot(&self, rank: u64) -> (b: usize)
        requires
            self.total() <= u64::MAX,
            1 <= rank <= self.total(),
        ensures
            is_rank_bucket(self.view(), rank as nat, b as int),
    {
        let slots: usize = self.counts.len();
        let mut b: usize = 0;
        let mut below: u64 = 0;
        proof {
            assert(self.view().take(0) == Seq::<nat>::empty());
            lemma_sum_take(self.view(), 0);
            if slots == 0 {
                assert(self.view() == Seq::<nat>::empty());
            }
        }
        loop
            invariant
                slots == self.counts@.len(),
                self.total() <= u64::MAX,
                1 <= rank <= self.total(),
                b < slots,
                below == sum(self.view().take(b as int)),
                below < rank,
            ensures
                is_rank_bucket(self.view(), rank as nat, b as int),
            decreases slots - b,
        {
            proof {
                lemma_sum_take(self.view(), b as int);
                lemma_sum_take(self.view(), b + 1);
                if b == slots - 1 {
                    assert(self.view().take(b + 1) == self.view());
                }
            }
            let upto: u64 = below + self.counts[b];
            if upto >= rank {
                break;
            }
            below = upto;
            b = b + 1;
        }
        b
    }
}

} // verus!
