//! The weight planner: turns a task set's declared weights and sequence
//! numbers into the three bucket lists that a user walks through.
//!
//! The tasks of one phase are grouped by sequence number. Within a group each
//! weight is divided by the greatest common divisor of the group's weights,
//! and the group becomes a bucket in which each task's index stands as often
//! as its reduced weight says. Buckets are ordered by ascending sequence
//! number; the tasks without a sequence number form the last bucket.

use vstd::prelude::*;
use vstd::arithmetic::div_mod::lemma_fundamental_div_mod;
use crate::random::{is_permutation, lemma_permutation_length};
use crate::task::{all_tasks_wf, Phase, Task, TaskSet};
use crate::weights::{
    compute_gcd, gcd, lemma_divides_transitive, lemma_gcd_divides, lemma_gcd_greatest,
};

verus! {

/// Whether `task` belongs to the group of `phase` with sequence number
/// `sequence` (`None` for the group of unsequenced tasks).
pub open spec fn in_partition(task: Task, phase: Phase, sequence: Option<usize>) -> bool {
    task.runs_in(phase) && task.sequence == sequence
}

/// Whether some task belongs to the group.
pub open spec fn has_partition(tasks: Seq<Task>, phase: Phase, sequence: Option<usize>) -> bool {
    exists|i: int| 0 <= i < tasks.len() && in_partition(#[trigger] tasks[i], phase, sequence)
}

/// The greatest common divisor of the weights of the group's tasks; 0 if the
/// group is empty.
pub open spec fn partition_gcd(tasks: Seq<Task>, phase: Phase, sequence: Option<usize>) -> nat
    decreases tasks.len(),
{
    if tasks.len() == 0 {
        0
    } else {
        let before = partition_gcd(tasks.drop_last(), phase, sequence);
        if in_partition(tasks.last(), phase, sequence) {
            gcd(before, tasks.last().weight as nat)
        } else {
            before
        }
    }
}

/// `times` copies of `task`.
pub open spec fn repeated(task: usize, times: nat) -> Seq<usize> {
    Seq::new(times, |k: int| task)
}

/// The indices of the group's tasks in ascending order, each standing as often
/// as its weight divided by `divisor`.
pub open spec fn expansion(
    tasks: Seq<Task>,
    phase: Phase,
    sequence: Option<usize>,
    divisor: nat,
) -> Seq<usize>
    decreases tasks.len(),
{
    if tasks.len() == 0 {
        Seq::empty()
    } else {
        let before = expansion(tasks.drop_last(), phase, sequence, divisor);
        if in_partition(tasks.last(), phase, sequence) {
            before + repeated((tasks.len() - 1) as usize, tasks.last().weight as nat / divisor)
        } else {
            before
        }
    }
}

/// What the planner puts into the bucket of a group: the group's expansion by
/// its reduced weights.
pub open spec fn bucket_content(tasks: Seq<Task>, phase: Phase, sequence: Option<usize>) -> Seq<
    usize,
> {
    expansion(tasks, phase, sequence, partition_gcd(tasks, phase, sequence))
}

/// How often `x` stands in `s`.
pub open spec fn occurrences(s: Seq<usize>, x: usize) -> nat
    decreases s.len(),
{
    if s.len() == 0 {
        0
    } else {
        occurrences(s.drop_last(), x) + if s.last() == x {
            1nat
        } else {
            0nat
        }
    }
}

/// Whether `a` and `b` hold the same entries, each as often, in any order.
pub open spec fn same_entries(a: Seq<usize>, b: Seq<usize>) -> bool {
    forall|x: usize| occurrences(a, x) == occurrences(b, x)
}

/// How often the plan of `phase` lists task `index`: its weight divided by the
/// greatest common divisor of its group's weights if it runs in `phase`, and
/// never otherwise.
pub open spec fn planned_runs(tasks: Seq<Task>, phase: Phase, index: int) -> nat {
    if 0 <= index < tasks.len() && tasks[index].runs_in(phase) {
        tasks[index].weight as nat / partition_gcd(tasks, phase, tasks[index].sequence)
    } else {
        0
    }
}

/// The tasks of one group, weight-expanded.
#[derive(Debug, Clone)]
pub struct Bucket {
    /// The sequence number that the bucket's tasks share, if they have one.
    pub sequence: Option<usize>,
    /// Task indices, each as often as its reduced weight says.
    pub tasks: Vec<usize>,
}

/// Whether a bucket with sequence number `a` comes before one with `b`:
/// ascending by number, unsequenced last.
pub open spec fn sequence_before(a: Option<usize>, b: Option<usize>) -> bool {
    match (a, b) {
        (Some(x), Some(y)) => x < y,
        (Some(_), None) => true,
        (None, _) => false,
    }
}

/// Whether some bucket of `buckets` has the sequence number `sequence`.
pub open spec fn covers(buckets: Seq<Bucket>, sequence: Option<usize>) -> bool {
    exists|k: int| 0 <= k < buckets.len() && (#[trigger] buckets[k]).sequence == sequence
}

/// Whether `buckets` has one bucket for each non-empty group of `phase`, in
/// order, each with the entries that the planner gives it. With `exact` the
/// entries stand in the planner's order; without, in any order, as they do
/// once a user has shuffled a bucket.
pub open spec fn buckets_of(buckets: Seq<Bucket>, tasks: Seq<Task>, phase: Phase, exact: bool) -> bool {
    &&& forall|a: int, b: int|
        0 <= a < b < buckets.len() ==> sequence_before(
            (#[trigger] buckets[a]).sequence,
            (#[trigger] buckets[b]).sequence,
        )
    &&& forall|k: int|
        0 <= k < buckets.len() ==> has_partition(tasks, phase, (#[trigger] buckets[k]).sequence)
    &&& forall|i: int|
        0 <= i < tasks.len() && (#[trigger] tasks[i]).runs_in(phase) ==> covers(buckets, tasks[i].sequence)
    &&& forall|k: int|
        0 <= k < buckets.len() ==> if exact {
            (#[trigger] buckets[k]).tasks@ == bucket_content(tasks, phase, buckets[k].sequence)
        } else {
            same_entries(
                (#[trigger] buckets[k]).tasks@,
                bucket_content(tasks, phase, buckets[k].sequence),
            )
        }
}

/// The entries of all buckets, in order.
pub open spec fn positions(buckets: Seq<Bucket>) -> Seq<usize>
    decreases buckets.len(),
{
    if buckets.len() == 0 {
        Seq::empty()
    } else {
        positions(buckets.drop_last()) + buckets.last().tasks@
    }
}

/// A user's execution plan: the buckets of its start, steady and stop phases.
#[derive(Debug, Clone)]
pub struct Plan {
    /// Buckets of the tasks that run when the user starts.
    pub on_start_buckets: Vec<Bucket>,
    /// Buckets of the tasks that run repeatedly.
    pub steady_buckets: Vec<Bucket>,
    /// Buckets of the tasks that run when the user stops.
    pub on_stop_buckets: Vec<Bucket>,
}

impl Plan {
    /// The bucket list of `phase`.
    pub open spec fn buckets(&self, phase: Phase) -> Seq<Bucket> {
        match phase {
            Phase::OnStart => self.on_start_buckets@,
            Phase::Steady => self.steady_buckets@,
            Phase::OnStop => self.on_stop_buckets@,
        }
    }

    /// Whether this is a plan of `tasks`; see [`buckets_of`] for `exact`.
    pub open spec fn plans(&self, tasks: Seq<Task>, exact: bool) -> bool {
        &&& buckets_of(self.on_start_buckets@, tasks, Phase::OnStart, exact)
        &&& buckets_of(self.steady_buckets@, tasks, Phase::Steady, exact)
        &&& buckets_of(self.on_stop_buckets@, tasks, Phase::OnStop, exact)
    }
}

/// A sequence followed by another holds each entry as often as the two
/// together.
pub proof fn lemma_occurrences_concat(a: Seq<usize>, b: Seq<usize>, x: usize)
    ensures
        occurrences(a + b, x) == occurrences(a, x) + occurrences(b, x),
    decreases b.len(),
{
    if b.len() == 0 {
        assert(a + b == a);
    } else {
        assert((a + b).drop_last() == a + b.drop_last());
        lemma_occurrences_concat(a, b.drop_last(), x);
    }
}

/// `times` copies of `task` hold `task` that often and nothing else.
pub proof fn lemma_occurrences_repeated(task: usize, times: nat, x: usize)
    ensures
        occurrences(repeated(task, times), x) == if x == task {
            times
        } else {
            0
        },
    decreases times,
{
    if times > 0 {
        assert(repeated(task, times).drop_last() == repeated(task, (times - 1) as nat));
        lemma_occurrences_repeated(task, (times - 1) as nat, x);
    }
}

/// `occurrences` counts as the multiset of the sequence does.
pub proof fn lemma_occurrences_is_count(s: Seq<usize>, x: usize)
    ensures
        occurrences(s, x) == s.to_multiset().count(x),
    decreases s.len(),
{
    broadcast use vstd::seq_lib::group_to_multiset_ensures;

    if s.len() == 0 {
        assert(s.to_multiset().len() == 0);
    } else {
        assert(s == s.drop_last().push(s.last()));
        lemma_occurrences_is_count(s.drop_last(), x);
    }
}

/// Sequences with the same multiset hold the same entries.
pub proof fn lemma_same_multiset_same_entries(a: Seq<usize>, b: Seq<usize>)
    requires
        a.to_multiset() == b.to_multiset(),
    ensures
        same_entries(a, b),
{
    assert forall|x: usize| occurrences(a, x) == occurrences(b, x) by {
        lemma_occurrences_is_count(a, x);
        lemma_occurrences_is_count(b, x);
    }
}

/// The greatest common divisor of a group's weights is positive, divides the
/// weight of each of the group's tasks and is at most that weight.
pub proof fn lemma_partition_gcd_divides(
    tasks: Seq<Task>,
    phase: Phase,
    sequence: Option<usize>,
    i: int,
)
    requires
        all_tasks_wf(tasks),
        0 <= i < tasks.len(),
        in_partition(tasks[i], phase, sequence),
    ensures
        0 < partition_gcd(tasks, phase, sequence) <= tasks[i].weight,
        tasks[i].weight as nat % partition_gcd(tasks, phase, sequence) == 0,
    decreases tasks.len(),
{
    let init: Seq<Task> = tasks.drop_last();
    let before: nat = partition_gcd(init, phase, sequence);
    let g: nat = partition_gcd(tasks, phase, sequence);
    let w: nat = tasks[i].weight as nat;
    assert(tasks[i].wf());
    assert(tasks.last().wf());
    if in_partition(tasks.last(), phase, sequence) {
        lemma_gcd_divides(before, tasks.last().weight as nat);
    }
    if i < tasks.len() - 1 {
        assert(init[i] == tasks[i]);
        lemma_partition_gcd_divides(init, phase, sequence, i);
        if in_partition(tasks.last(), phase, sequence) {
            lemma_divides_transitive(w, before, g);
        }
    }
    lemma_fundamental_div_mod(w as int, g as int);
    let q: int = w as int / g as int;
    assert(g <= w) by (nonlinear_arith)
        requires
            w as int == (g as int) * q,
            w > 0,
            g > 0,
    ;
}

/// Every number that divides the weight of each of a group's tasks divides the
/// greatest common divisor of the group's weights.
pub proof fn lemma_partition_gcd_greatest(
    tasks: Seq<Task>,
    phase: Phase,
    sequence: Option<usize>,
    d: nat,
)
    requires
        d > 0,
        forall|i: int|
            0 <= i < tasks.len() && in_partition(#[trigger] tasks[i], phase, sequence)
                ==> tasks[i].weight as nat % d == 0,
    ensures
        partition_gcd(tasks, phase, sequence) % d == 0,
    decreases tasks.len(),
{
    if tasks.len() == 0 {
        vstd::arithmetic::div_mod::lemma_small_mod(0, d);
    } else {
        let init: Seq<Task> = tasks.drop_last();
        assert forall|i: int|
            0 <= i < init.len() && in_partition(#[trigger] init[i], phase, sequence)
                implies init[i].weight as nat % d == 0 by {
            assert(init[i] == tasks[i]);
        }
        lemma_partition_gcd_greatest(init, phase, sequence, d);
        if in_partition(tasks.last(), phase, sequence) {
            assert(tasks.last() == tasks[tasks.len() - 1]);
            lemma_gcd_greatest(
                partition_gcd(init, phase, sequence),
                tasks.last().weight as nat,
                d,
            );
        }
    }
}

/// A group's expansion holds the index of each of its tasks as often as the
/// task's weight divided by the divisor, and nothing else.
pub proof fn lemma_expansion_occurrences(
    tasks: Seq<Task>,
    phase: Phase,
    sequence: Option<usize>,
    divisor: nat,
    x: usize,
)
    requires
        tasks.len() <= usize::MAX,
    ensures
        occurrences(expansion(tasks, phase, sequence, divisor), x) == if x < tasks.len()
            && in_partition(tasks[x as int], phase, sequence) {
            tasks[x as int].weight as nat / divisor
        } else {
            0
        },
    decreases tasks.len(),
{
    if tasks.len() > 0 {
        let init: Seq<Task> = tasks.drop_last();
        let before: Seq<usize> = expansion(init, phase, sequence, divisor);
        lemma_expansion_occurrences(init, phase, sequence, divisor, x);
        if x < init.len() {
            assert(init[x as int] == tasks[x as int]);
        }
        if in_partition(tasks.last(), phase, sequence) {
            let last: usize = (tasks.len() - 1) as usize;
            let times: nat = tasks.last().weight as nat / divisor;
            lemma_occurrences_concat(before, repeated(last, times), x);
            lemma_occurrences_repeated(last, times, x);
        }
    }
}

/// The positions of a phase's buckets hold each task's index as often as
/// [`planned_runs`] says.
pub proof fn lemma_positions_occurrences(
    buckets: Seq<Bucket>,
    tasks: Seq<Task>,
    phase: Phase,
    exact: bool,
    x: usize,
)
    requires
        tasks.len() <= usize::MAX,
        all_tasks_wf(tasks),
        buckets_of(buckets, tasks, phase, exact),
    ensures
        occurrences(positions(buckets), x) == planned_runs(tasks, phase, x as int),
{
    lemma_prefix_occurrences(buckets, tasks, phase, exact, x, buckets.len() as int);
    assert(buckets.take(buckets.len() as int) == buckets);
    if x < tasks.len() && tasks[x as int].runs_in(phase) {
        assert(covers(buckets, tasks[x as int].sequence));
    }
}

/// The positions of the first `m` buckets hold a task's index as often as its
/// plan says if the task's bucket is among them, and never otherwise.
#[verifier::rlimit(40)]
proof fn lemma_prefix_occurrences(
    buckets: Seq<Bucket>,
    tasks: Seq<Task>,
    phase: Phase,
    exact: bool,
    x: usize,
    m: int,
)
    requires
        tasks.len() <= usize::MAX,
        all_tasks_wf(tasks),
        buckets_of(buckets, tasks, phase, exact),
        0 <= m <= buckets.len(),
    ensures
        occurrences(positions(buckets.take(m)), x) == if x < tasks.len() && tasks[x as int].runs_in(
            phase,
        ) && covers(buckets.take(m), tasks[x as int].sequence) {
            planned_runs(tasks, phase, x as int)
        } else {
            0
        },
    decreases m,
{
    let head: Seq<Bucket> = buckets.take(m);
    if m > 0 {
        let init: Seq<Bucket> = buckets.take(m - 1);
        let bucket: Bucket = buckets[m - 1];
        assert(head.drop_last() == init);
        assert(head.last() == bucket);
        lemma_prefix_occurrences(buckets, tasks, phase, exact, x, m - 1);
        lemma_occurrences_concat(positions(init), bucket.tasks@, x);
        let content: Seq<usize> = bucket_content(tasks, phase, bucket.sequence);
        assert(occurrences(bucket.tasks@, x) == occurrences(content, x));
        lemma_expansion_occurrences(
            tasks,
            phase,
            bucket.sequence,
            partition_gcd(tasks, phase, bucket.sequence),
            x,
        );
        if x < tasks.len() && tasks[x as int].runs_in(phase) {
            let sequence: Option<usize> = tasks[x as int].sequence;
            if bucket.sequence == sequence {
                assert(head[m - 1].sequence == sequence);
                assert(covers(head, sequence));
                if covers(init, sequence) {
                    let k: int = choose|k: int| 0 <= k < init.len() && (#[trigger] init[k]).sequence == sequence;
                    assert(init[k] == buckets[k]);
                    assert(sequence_before(buckets[k].sequence, buckets[m - 1].sequence));
                }
            } else {
                if covers(head, sequence) {
                    let k: int = choose|k: int| 0 <= k < head.len() && (#[trigger] head[k]).sequence == sequence;
                    assert(k < m - 1);
                    assert(init[k] == head[k]);
                    assert(covers(init, sequence));
                }
                if covers(init, sequence) {
                    let k: int = choose|k: int| 0 <= k < init.len() && (#[trigger] init[k]).sequence == sequence;
                    assert(head[k] == init[k]);
                    assert(covers(head, sequence));
                }
            }
        }
    } else {
        assert(head.len() == 0);
    }
}

/// The entries that a user has run when it is about to run the entry at
/// `(bucket, position)`: those of the buckets before, and of this bucket those
/// before `position`.
pub open spec fn before(buckets: Seq<Bucket>, bucket: int, position: int) -> Seq<usize> {
    positions(buckets.take(bucket)) + buckets[bucket].tasks@.take(position)
}

/// The entries that a user has run when it has run the entry at
/// `(bucket, position)`.
pub open spec fn walked(buckets: Seq<Bucket>, bucket: int, position: int) -> Seq<usize> {
    before(buckets, bucket, position + 1)
}

/// Whether no bucket is empty.
pub open spec fn all_nonempty(buckets: Seq<Bucket>) -> bool {
    forall|k: int| 0 <= k < buckets.len() ==> (#[trigger] buckets[k]).tasks@.len() > 0
}

/// Whether `after` is `before` with bucket `k` in a new order.
pub open spec fn reshuffled(before: Seq<Bucket>, after: Seq<Bucket>, k: int) -> bool {
    &&& after.len() == before.len()
    &&& forall|j: int| 0 <= j < before.len() && j != k ==> after[j] == before[j]
    &&& after[k].sequence == before[k].sequence
    &&& is_permutation(after[k].tasks@, before[k].tasks@)
}

/// Appending an entry adds one occurrence of it.
pub proof fn lemma_occurrences_push(s: Seq<usize>, x: usize, t: usize)
    ensures
        occurrences(s.push(x), t) == occurrences(s, t) + if x == t {
            1nat
        } else {
            0nat
        },
{
    assert(s.push(x).drop_last() == s);
}

/// An entry that stands in a sequence occurs in it.
pub proof fn lemma_occurrences_positive(s: Seq<usize>, p: int)
    requires
        0 <= p < s.len(),
    ensures
        occurrences(s, s[p]) > 0,
    decreases s.len(),
{
    if p < s.len() - 1 {
        assert(s.drop_last()[p] == s[p]);
        lemma_occurrences_positive(s.drop_last(), p);
    }
}

/// The first `q` entries of a sequence hold no entry more often than the
/// sequence.
pub proof fn lemma_occurrences_take(s: Seq<usize>, q: int, t: usize)
    requires
        0 <= q <= s.len(),
    ensures
        occurrences(s.take(q), t) <= occurrences(s, t),
{
    assert(s == s.take(q) + s.skip(q));
    lemma_occurrences_concat(s.take(q), s.skip(q), t);
}

/// The positions of the first `m + 1` buckets are those of the first `m`
/// followed by the entries of bucket `m`.
pub proof fn lemma_positions_take_next(buckets: Seq<Bucket>, m: int)
    requires
        0 <= m < buckets.len(),
    ensures
        positions(buckets.take(m + 1)) == positions(buckets.take(m)) + buckets[m].tasks@,
        positions(buckets.take(buckets.len() as int)) == positions(buckets),
{
    assert(buckets.take(m + 1).drop_last() == buckets.take(m));
    assert(buckets.take(buckets.len() as int) == buckets);
}

/// The positions of the first `m` buckets hold no entry more often than the
/// positions of all.
pub proof fn lemma_positions_take_within(buckets: Seq<Bucket>, m: int, t: usize)
    requires
        0 <= m <= buckets.len(),
    ensures
        occurrences(positions(buckets.take(m)), t) <= occurrences(positions(buckets), t),
    decreases buckets.len() - m,
{
    if m == buckets.len() {
        assert(buckets.take(m) == buckets);
    } else {
        lemma_positions_take_within(buckets, m + 1, t);
        lemma_positions_take_next(buckets, m);
        lemma_occurrences_concat(positions(buckets.take(m)), buckets[m].tasks@, t);
    }
}

/// What a user has run within a pass holds no entry more often than the
/// positions of all buckets.
pub proof fn lemma_before_within(buckets: Seq<Bucket>, bucket: int, position: int, t: usize)
    requires
        0 <= bucket < buckets.len(),
        0 <= position <= buckets[bucket].tasks@.len(),
    ensures
        occurrences(before(buckets, bucket, position), t) <= occurrences(positions(buckets), t),
{
    let head: Seq<usize> = positions(buckets.take(bucket));
    let entries: Seq<usize> = buckets[bucket].tasks@;
    lemma_occurrences_concat(head, entries.take(position), t);
    lemma_occurrences_take(entries, position, t);
    lemma_positions_take_next(buckets, bucket);
    lemma_occurrences_concat(head, entries, t);
    lemma_positions_take_within(buckets, bucket + 1, t);
}

/// Every entry of a phase's buckets is the index of a task that runs in the
/// phase.
pub proof fn lemma_entry_is_task(
    buckets: Seq<Bucket>,
    tasks: Seq<Task>,
    phase: Phase,
    exact: bool,
    k: int,
    p: int,
)
    requires
        tasks.len() <= usize::MAX,
        buckets_of(buckets, tasks, phase, exact),
        0 <= k < buckets.len(),
        0 <= p < buckets[k].tasks@.len(),
    ensures
        buckets[k].tasks@[p] < tasks.len(),
        in_partition(tasks[buckets[k].tasks@[p] as int], phase, buckets[k].sequence),
{
    let x: usize = buckets[k].tasks@[p];
    lemma_occurrences_positive(buckets[k].tasks@, p);
    assert(occurrences(buckets[k].tasks@, x) == occurrences(bucket_content(tasks, phase, buckets[k].sequence), x));
    lemma_expansion_occurrences(
        tasks,
        phase,
        buckets[k].sequence,
        partition_gcd(tasks, phase, buckets[k].sequence),
        x,
    );
}

/// No bucket of a plan of valid tasks is empty.
pub proof fn lemma_planned_nonempty(buckets: Seq<Bucket>, tasks: Seq<Task>, phase: Phase, exact: bool)
    requires
        tasks.len() <= usize::MAX,
        all_tasks_wf(tasks),
        buckets_of(buckets, tasks, phase, exact),
    ensures
        all_nonempty(buckets),
        buckets_of(buckets, tasks, phase, false),
{
    assert forall|k: int| 0 <= k < buckets.len() implies (#[trigger] buckets[k]).tasks@.len() > 0 by {
        let sequence: Option<usize> = buckets[k].sequence;
        assert(has_partition(tasks, phase, sequence));
        let i: int = choose|i: int| 0 <= i < tasks.len() && in_partition(#[trigger] tasks[i], phase, sequence);
        let g: nat = partition_gcd(tasks, phase, sequence);
        lemma_partition_gcd_divides(tasks, phase, sequence, i);
        lemma_expansion_occurrences(tasks, phase, sequence, g, i as usize);
        vstd::arithmetic::div_mod::lemma_div_non_zero(tasks[i].weight as int, g as int);
        assert(occurrences(buckets[k].tasks@, i as usize) == occurrences(bucket_content(tasks, phase, sequence), i as usize));
    }
}

/// A plan stays a plan when a bucket comes into a new order, and keeps
/// everything before that bucket.
pub proof fn lemma_reshuffled_keeps_plan(
    old_buckets: Seq<Bucket>,
    new_buckets: Seq<Bucket>,
    k: int,
    tasks: Seq<Task>,
    phase: Phase,
)
    requires
        0 <= k < old_buckets.len(),
        buckets_of(old_buckets, tasks, phase, false),
        all_nonempty(old_buckets),
        reshuffled(old_buckets, new_buckets, k),
    ensures
        buckets_of(new_buckets, tasks, phase, false),
        all_nonempty(new_buckets),
        new_buckets.take(k) == old_buckets.take(k),
{
    lemma_permutation_length(new_buckets[k].tasks@, old_buckets[k].tasks@);
    lemma_same_multiset_same_entries(new_buckets[k].tasks@, old_buckets[k].tasks@);
    assert forall|j: int| 0 <= j < new_buckets.len() implies (#[trigger] new_buckets[j]).sequence
        == old_buckets[j].sequence by {}
    assert forall|i: int|
        0 <= i < tasks.len() && (#[trigger] tasks[i]).runs_in(phase) implies covers(
        new_buckets,
        tasks[i].sequence,
    ) by {
        assert(covers(old_buckets, tasks[i].sequence));
        let j: int = choose|j: int|
            0 <= j < old_buckets.len() && (#[trigger] old_buckets[j]).sequence == tasks[i].sequence;
        assert(new_buckets[j].sequence == tasks[i].sequence);
    }
    assert forall|j: int| 0 <= j < new_buckets.len() implies same_entries(
        (#[trigger] new_buckets[j]).tasks@,
        bucket_content(tasks, phase, new_buckets[j].sequence),
    ) by {
        assert(same_entries(
            old_buckets[j].tasks@,
            bucket_content(tasks, phase, old_buckets[j].sequence),
        ));
    }
    assert forall|a: int, b: int| 0 <= a < b < new_buckets.len() implies sequence_before(
        (#[trigger] new_buckets[a]).sequence,
        (#[trigger] new_buckets[b]).sequence,
    ) by {
        assert(sequence_before(old_buckets[a].sequence, old_buckets[b].sequence));
    }
    assert forall|j: int| 0 <= j < new_buckets.len() implies has_partition(
        tasks,
        phase,
        (#[trigger] new_buckets[j]).sequence,
    ) by {
        assert(has_partition(tasks, phase, old_buckets[j].sequence));
    }
    assert forall|j: int| 0 <= j < new_buckets.len() implies (#[trigger] new_buckets[j]).tasks@.len() > 0 by {
        assert(old_buckets[j].tasks@.len() > 0);
    }
    assert(new_buckets.take(k) =~= old_buckets.take(k));
}

/// A bucket list in which one bucket came into a new order holds as many
/// positions as before.
pub proof fn lemma_reshuffled_length(old_buckets: Seq<Bucket>, new_buckets: Seq<Bucket>, k: int)
    requires
        0 <= k < old_buckets.len(),
        reshuffled(old_buckets, new_buckets, k),
    ensures
        positions(new_buckets).len() == positions(old_buckets).len(),
    decreases old_buckets.len(),
{
    lemma_permutation_length(new_buckets[k].tasks@, old_buckets[k].tasks@);
    let old_init: Seq<Bucket> = old_buckets.drop_last();
    let new_init: Seq<Bucket> = new_buckets.drop_last();
    if k < old_buckets.len() - 1 {
        assert(reshuffled(old_init, new_init, k));
        lemma_reshuffled_length(old_init, new_init, k);
    } else {
        assert(new_init =~= old_init);
    }
}

/// The number of entries that a user has run when it is about to run the entry
/// at `(bucket, position)` grows with the position, and is no more than the
/// number of all positions.
pub proof fn lemma_positions_length(buckets: Seq<Bucket>, bucket: int, position: int)
    requires
        0 <= bucket < buckets.len(),
        0 <= position <= buckets[bucket].tasks@.len(),
    ensures
        before(buckets, bucket, position).len() == positions(buckets.take(bucket)).len() + position,
        before(buckets, bucket, position).len() <= positions(buckets).len(),
{
    lemma_positions_take_next(buckets, bucket);
    lemma_positions_take_length(buckets, bucket + 1);
}

/// The first `m` buckets hold no more positions than all.
pub proof fn lemma_positions_take_length(buckets: Seq<Bucket>, m: int)
    requires
        0 <= m <= buckets.len(),
    ensures
        positions(buckets.take(m)).len() <= positions(buckets).len(),
    decreases buckets.len() - m,
{
    if m == buckets.len() {
        assert(buckets.take(m) == buckets);
    } else {
        lemma_positions_take_length(buckets, m + 1);
        lemma_positions_take_next(buckets, m);
    }
}

/// Whether two sequence numbers are the same.
fn same_sequence(a: Option<usize>, b: Option<usize>) -> (same: bool)
    ensures
        same == (a == b),
{
    match (a, b) {
        (Some(x), Some(y)) => x == y,
        (None, None) => true,
        _ => false,
    }
}

/// Whether some task belongs to the group.
fn group_exists(tasks: &Vec<Task>, phase: Phase, sequence: Option<usize>) -> (found: bool)
    ensures
        found == has_partition(tasks@, phase, sequence),
{
    let mut i: usize = 0;
    while i < tasks.len()
        invariant
            i <= tasks.len(),
            forall|k: int| 0 <= k < i ==> !in_partition(#[trigger] tasks@[k], phase, sequence),
        decreases tasks.len() - i,
    {
        if tasks[i].in_phase(phase) && same_sequence(tasks[i].sequence, sequence) {
            return true;
        }
        i = i + 1;
    }
    false
}

/// The greatest common divisor of the weights of the group's tasks.
fn group_divisor(tasks: &Vec<Task>, phase: Phase, sequence: Option<usize>) -> (g: usize)
    ensures
        g == partition_gcd(tasks@, phase, sequence),
{
    let mut g: usize = 0;
    let mut i: usize = 0;
    while i < tasks.len()
        invariant
            i <= tasks.len(),
            g == partition_gcd(tasks@.take(i as int), phase, sequence),
        decreases tasks.len() - i,
    {
        proof {
            let next: Seq<Task> = tasks@.take(i + 1);
            assert(next.drop_last() == tasks@.take(i as int));
            assert(next.last() == tasks@[i as int]);
        }
        if tasks[i].in_phase(phase) && same_sequence(tasks[i].sequence, sequence) {
            g = compute_gcd(g, tasks[i].weight);
        }
        i = i + 1;
    }
    proof {
        assert(tasks@.take(i as int) == tasks@);
    }
    g
}

/// Builds the bucket of a group.
fn build_bucket(tasks: &Vec<Task>, phase: Phase, sequence: Option<usize>) -> (bucket: Bucket)
    requires
        all_tasks_wf(tasks@),
    ensures
        bucket.sequence == sequence,
        bucket.tasks@ == bucket_content(tasks@, phase, sequence),
{
    let g: usize = group_divisor(tasks, phase, sequence);
    let mut entries: Vec<usize> = Vec::new();
    let mut i: usize = 0;
    while i < tasks.len()
        invariant
            i <= tasks.len(),
            all_tasks_wf(tasks@),
            g == partition_gcd(tasks@, phase, sequence),
            entries@ == expansion(tasks@.take(i as int), phase, sequence, g as nat),
        decreases tasks.len() - i,
    {
        proof {
            let next: Seq<Task> = tasks@.take(i + 1);
            assert(next.drop_last() == tasks@.take(i as int));
            assert(next.last() == tasks@[i as int]);
        }
        if tasks[i].in_phase(phase) && same_sequence(tasks[i].sequence, sequence) {
            proof {
                lemma_partition_gcd_divides(tasks@, phase, sequence, i as int);
            }
            let times: usize = tasks[i].weight / g;
            let ghost before: Seq<usize> = entries@;
            let mut k: usize = 0;
            while k < times
                invariant
                    k <= times,
                    entries@ == before + repeated(i, k as nat),
                decreases times - k,
            {
                entries.push(i);
                k = k + 1;
                proof {
                    assert(repeated(i, k as nat) == repeated(i, (k - 1) as nat).push(i));
                }
            }
        }
        i = i + 1;
    }
    proof {
        assert(tasks@.take(i as int) == tasks@);
    }
    Bucket { sequence: sequence, tasks: entries }
}

/// Whether `x` lies above `bound`; every number lies above no bound.
pub open spec fn above(bound: Option<usize>, x: usize) -> bool {
    match bound {
        None => true,
        Some(b) => x > b,
    }
}

/// The smallest sequence number above `bound` that a task of `phase` has.
fn next_sequence(tasks: &Vec<Task>, phase: Phase, bound: Option<usize>) -> (next: Option<usize>)
    ensures
        match next {
            Some(s) => {
                &&& above(bound, s)
                &&& has_partition(tasks@, phase, Some(s))
                &&& forall|i: int|
                    0 <= i < tasks.len() && (#[trigger] tasks@[i]).runs_in(phase)
                        && tasks@[i].sequence.is_some() && above(
                        bound,
                        tasks@[i].sequence.unwrap(),
                    ) ==> s <= tasks@[i].sequence.unwrap()
            },
            None => forall|i: int|
                0 <= i < tasks.len() && (#[trigger] tasks@[i]).runs_in(phase)
                    && tasks@[i].sequence.is_some() ==> !above(bound, tasks@[i].sequence.unwrap()),
        },
{
    let mut next: Option<usize> = None;
    let mut i: usize = 0;
    while i < tasks.len()
        invariant
            i <= tasks.len(),
            match next {
                Some(s) => {
                    &&& above(bound, s)
                    &&& exists|j: int| 0 <= j < i && in_partition(#[trigger] tasks@[j], phase, Some(s))
                    &&& forall|j: int|
                        0 <= j < i && (#[trigger] tasks@[j]).runs_in(phase)
                            && tasks@[j].sequence.is_some() && above(
                            bound,
                            tasks@[j].sequence.unwrap(),
                        ) ==> s <= tasks@[j].sequence.unwrap()
                },
                None => forall|j: int|
                    0 <= j < i && (#[trigger] tasks@[j]).runs_in(phase)
                        && tasks@[j].sequence.is_some() ==> !above(
                        bound,
                        tasks@[j].sequence.unwrap(),
                    ),
            },
        decreases tasks.len() - i,
    {
        if tasks[i].in_phase(phase) {
            match tasks[i].sequence {
                Some(x) => {
                    let is_above: bool = match bound {
                        None => true,
                        Some(b) => x > b,
                    };
                    let is_smaller: bool = match next {
                        None => true,
                        Some(s) => x < s,
                    };
                    if is_above && is_smaller {
                        next = Some(x);
                        assert(in_partition(tasks@[i as int], phase, Some(x)));
                    }
                },
                None => {},
            }
        }
        i = i + 1;
    }
    next
}

/// How far a bound is from the largest sequence number.
spec fn room(bound: Option<usize>) -> int {
    match bound {
        None => usize::MAX + 1,
        Some(b) => usize::MAX - b,
    }
}

/// Builds the buckets of one phase.
#[verifier::rlimit(40)]
fn plan_phase(tasks: &Vec<Task>, phase: Phase) -> (buckets: Vec<Bucket>)
    requires
        all_tasks_wf(tasks@),
    ensures
        buckets_of(buckets@, tasks@, phase, true),
{
    let mut buckets: Vec<Bucket> = Vec::new();
    let mut bound: Option<usize> = None;
    let mut more: bool = true;
    while more
        invariant
            all_tasks_wf(tasks@),
            forall|a: int, b: int|
                0 <= a < b < buckets@.len() ==> sequence_before(
                    (#[trigger] buckets@[a]).sequence,
                    (#[trigger] buckets@[b]).sequence,
                ),
            forall|k: int|
                0 <= k < buckets@.len() ==> (#[trigger] buckets@[k]).sequence.is_some() && !above(
                    bound,
                    buckets@[k].sequence.unwrap(),
                ),
            forall|k: int|
                0 <= k < buckets@.len() ==> has_partition(
                    tasks@,
                    phase,
                    (#[trigger] buckets@[k]).sequence,
                ),
            forall|k: int|
                0 <= k < buckets@.len() ==> (#[trigger] buckets@[k]).tasks@ == bucket_content(
                    tasks@,
                    phase,
                    buckets@[k].sequence,
                ),
            forall|i: int|
                0 <= i < tasks.len() && (#[trigger] tasks@[i]).runs_in(phase)
                    && tasks@[i].sequence.is_some() && !above(bound, tasks@[i].sequence.unwrap())
                    ==> covers(buckets@, tasks@[i].sequence),
            !more ==> forall|i: int|
                0 <= i < tasks.len() && (#[trigger] tasks@[i]).runs_in(phase)
                    && tasks@[i].sequence.is_some() ==> !above(bound, tasks@[i].sequence.unwrap()),
        decreases room(bound), if more { 1int } else { 0int },
    {
        match next_sequence(tasks, phase, bound) {
            Some(s) => {
                let bucket = build_bucket(tasks, phase, Some(s));
                let ghost before: Seq<Bucket> = buckets@;
                buckets.push(bucket);
                proof {
                    assert forall|i: int|
                        0 <= i < tasks.len() && (#[trigger] tasks@[i]).runs_in(phase)
                            && tasks@[i].sequence.is_some() && !above(
                            Some(s),
                            tasks@[i].sequence.unwrap(),
                        ) implies covers(buckets@, tasks@[i].sequence) by {
                        let x: usize = tasks@[i].sequence.unwrap();
                        if above(bound, x) {
                            assert(x == s);
                            assert(buckets@[before.len() as int].sequence == Some(s));
                        } else {
                            assert(covers(before, tasks@[i].sequence));
                            let k: int = choose|k: int|
                                0 <= k < before.len() && (#[trigger] before[k]).sequence
                                    == tasks@[i].sequence;
                            assert(buckets@[k] == before[k]);
                        }
                    }
                }
                bound = Some(s);
            },
            None => {
                more = false;
            },
        }
    }
    if group_exists(tasks, phase, None) {
        let bucket = build_bucket(tasks, phase, None);
        let ghost before: Seq<Bucket> = buckets@;
        buckets.push(bucket);
        proof {
            assert forall|i: int|
                0 <= i < tasks.len() && (#[trigger] tasks@[i]).runs_in(phase) implies covers(
                buckets@,
                tasks@[i].sequence,
            ) by {
                if tasks@[i].sequence.is_some() {
                    assert(covers(before, tasks@[i].sequence));
                    let k: int = choose|k: int|
                        0 <= k < before.len() && (#[trigger] before[k]).sequence
                            == tasks@[i].sequence;
                    assert(buckets@[k] == before[k]);
                } else {
                    assert(buckets@[before.len() as int].sequence == None::<usize>);
                }
            }
        }
    } else {
        proof {
            assert forall|i: int|
                0 <= i < tasks.len() && (#[trigger] tasks@[i]).runs_in(phase) implies covers(
                buckets@,
                tasks@[i].sequence,
            ) by {
                if tasks@[i].sequence.is_none() {
                    assert(in_partition(tasks@[i], phase, None));
                }
            }
        }
    }
    buckets
}

impl Plan {
    /// Plans the tasks of `set`: for each phase one bucket per group of tasks
    /// with the same sequence number, ascending, the unsequenced tasks last,
    /// and in each bucket every task's index as often as its weight divided by
    /// the greatest common divisor of the group's weights.
    pub fn new(set: &TaskSet) -> (plan: Plan)
        requires
            set.wf(),
        ensures
            plan.plans(set.tasks@, true),
            forall|phase: Phase, index: usize|
                occurrences(#[trigger] positions(plan.buckets(phase)), index) == #[trigger] planned_runs(
                    set.tasks@,
                    phase,
                    index as int,
                ),
    {
        let plan = Plan {
            on_start_buckets: plan_phase(&set.tasks, Phase::OnStart),
            steady_buckets: plan_phase(&set.tasks, Phase::Steady),
            on_stop_buckets: plan_phase(&set.tasks, Phase::OnStop),
        };
        proof {
            vstd::std_specs::vec::axiom_spec_len(&set.tasks);
            assert forall|phase: Phase, index: usize|
                occurrences(#[trigger] positions(plan.buckets(phase)), index) == #[trigger] planned_runs(
                    set.tasks@,
                    phase,
                    index as int,
                ) by {
                lemma_positions_occurrences(plan.buckets(phase), set.tasks@, phase, true, index);
            }
        }
        plan
    }
}

} // verus!
