//! The user pool: how many users each task set gets, and in which order the
//! users are spawned.
//!
//! Users are dealt to the task sets in the ratio of the sets' weights. They
//! are dealt one by one, so that the users spawned so far are as close to
//! that ratio as whole users can be at every moment of the ramp-up: after any
//! number of users, each task set has its share of them rounded down or
//! rounded up.

use vstd::prelude::*;
use vstd::arithmetic::div_mod::{lemma_fundamental_div_mod, lemma_mod_bound};
use crate::histogram::{lemma_sum_update, sum};
use crate::planner::{lemma_occurrences_push, occurrences};
use crate::task::ConfigError;
use crate::weights::{as_nats, gcd_of, lemma_reduced_keeps_ratio, reduce_weights, reduced};

verus! {

/// Whether weights can be dealt by: there is one, none is 0, and their sum
/// fits in a machine word.
pub open spec fn valid_weights(ws: Seq<nat>) -> bool {
    &&& ws.len() > 0
    &&& forall|i: int| 0 <= i < ws.len() ==> ws[i] > 0
    &&& sum(ws) <= usize::MAX
}

/// Whether users can be dealt by the declared weights `ws`: there is one,
/// none is 0, and reduced by their greatest common divisor they have a sum
/// that fits in a machine word.
pub open spec fn can_deal(ws: Seq<usize>) -> bool {
    &&& ws.len() > 0
    &&& forall|i: int| 0 <= i < ws.len() ==> ws[i] > 0
    &&& sum(as_nats(reduced(ws))) <= usize::MAX
}

/// Whether set `i` may get the user that is spawned as number `step`: it has
/// fewer users than its share of `step` users.
pub open spec fn eligible(ws: Seq<nat>, cs: Seq<nat>, step: nat, i: int) -> bool {
    sum(ws) * cs[i] < step * ws[i]
}

/// The number of users by which set `i` must have its next user, lest it fall
/// below its share rounded down.
pub open spec fn deadline(ws: Seq<nat>, cs: Seq<nat>, i: int) -> nat {
    ((sum(ws) * (cs[i] + 1) + ws[i] - 1) / (ws[i] as int)) as nat
}

/// Among the first `n` sets, the eligible one with the earliest deadline, and
/// of several the first.
pub open spec fn earliest(ws: Seq<nat>, cs: Seq<nat>, step: nat, n: int) -> Option<int>
    decreases n,
{
    if n <= 0 {
        None
    } else {
        let before = earliest(ws, cs, step, n - 1);
        if eligible(ws, cs, step, n - 1) && (before.is_none() || deadline(ws, cs, n - 1) < deadline(
            ws,
            cs,
            before.unwrap(),
        )) {
            Some(n - 1)
        } else {
            before
        }
    }
}

/// The set that gets the user spawned as number `step`, where `cs` users of
/// each set are spawned already.
pub open spec fn next_set(ws: Seq<nat>, cs: Seq<nat>, step: nat) -> int {
    match earliest(ws, cs, step, ws.len() as int) {
        Some(i) => i,
        None => 0,
    }
}

/// The number of users of each set among the first `k` users.
pub open spec fn counts_after(ws: Seq<nat>, k: nat) -> Seq<nat>
    decreases k,
{
    if k == 0 {
        Seq::new(ws.len(), |i: int| 0nat)
    } else {
        let cs = counts_after(ws, (k - 1) as nat);
        let i = next_set(ws, cs, k);
        cs.update(i, cs[i] + 1)
    }
}

/// The order in which `users` users are spawned: for each the index of its
/// task set.
pub open spec fn spawn_order(ws: Seq<nat>, users: nat) -> Seq<usize> {
    Seq::new(users, |k: int| next_set(ws, counts_after(ws, k as nat), (k + 1) as nat) as usize)
}

/// The users that set `i` still owes at `horizon` users: its share of them
/// rounded down, less the users it has.
pub open spec fn pending(ws: Seq<nat>, cs: Seq<nat>, horizon: nat, i: int) -> nat {
    let due = (horizon * ws[i]) / sum(ws);
    if due > cs[i] {
        (due - cs[i]) as nat
    } else {
        0
    }
}

/// The users that all sets together still owe at `horizon` users.
pub open spec fn demand(ws: Seq<nat>, cs: Seq<nat>, horizon: nat) -> nat {
    sum(Seq::new(ws.len(), |i: int| pending(ws, cs, horizon, i)))
}

/// What holds of the counts `cs` after `k` users: they count `k` users, no
/// set is ahead of its share rounded up, and at no later number of users are
/// more users owed than can be spawned by then.
pub open spec fn balanced(ws: Seq<nat>, cs: Seq<nat>, k: nat) -> bool {
    &&& cs.len() == ws.len()
    &&& sum(cs) == k
    &&& forall|i: int| 0 <= i < ws.len() ==> cs[i] == 0 || sum(ws) * (cs[i] - 1) < k * ws[i]
    &&& forall|t: nat| t >= k ==> #[trigger] demand(ws, cs, t) <= t - k
}

/// A quotient times its divisor is at most the dividend and within one
/// divisor of it.
proof fn lemma_floor(x: nat, d: nat)
    requires
        d > 0,
    ensures
        d * (x / d) <= x < d * (x / d) + d,
{
    lemma_fundamental_div_mod(x as int, d as int);
    lemma_mod_bound(x as int, d as int);
}

/// A set's deadline is at most `t` just when its next user is within its
/// share of `t` users.
proof fn lemma_deadline(total: nat, c: nat, w: nat, t: nat)
    requires
        w > 0,
    ensures
        (total * (c + 1) + w - 1) / (w as int) <= t <==> total * (c + 1) <= t * w,
{
    let a: int = (total * (c + 1)) as int;
    let d: int = (a + w - 1) / (w as int);
    assert(a >= 0) by (nonlinear_arith)
        requires
            a == total * (c + 1),
    ;
    lemma_floor((a + w - 1) as nat, w);
    if a <= t * w {
        assert(d <= t) by (nonlinear_arith)
            requires
                w * d <= a + w - 1,
                a <= t * w,
                w > 0,
        ;
    }
    if d <= t {
        assert(a <= t * w) by (nonlinear_arith)
            requires
                a + w - 1 < w * d + w,
                d <= t,
                w > 0,
        ;
    }
}

/// Where each of some numbers, times `a`, is at most its weight times `b`,
/// their sum times `a` is at most the sum of the weights times `b`.
proof fn lemma_weighted_sum_le(xs: Seq<nat>, ws: Seq<nat>, a: nat, b: nat)
    requires
        xs.len() == ws.len(),
        forall|i: int| 0 <= i < xs.len() ==> a * (#[trigger] xs[i]) <= b * ws[i],
    ensures
        a * sum(xs) <= b * sum(ws),
    decreases xs.len(),
{
    if xs.len() > 0 {
        let xi: Seq<nat> = xs.drop_last();
        let wi: Seq<nat> = ws.drop_last();
        assert forall|i: int| 0 <= i < xi.len() implies a * (#[trigger] xi[i]) <= b * wi[i] by {
            assert(xi[i] == xs[i]);
            assert(wi[i] == ws[i]);
        }
        lemma_weighted_sum_le(xi, wi, a, b);
        let x: nat = xs.last();
        let w: nat = ws.last();
        assert(a * xs[xs.len() - 1] <= b * ws[xs.len() - 1]);
        assert(sum(xs) == sum(xi) + x);
        assert(sum(ws) == sum(wi) + w);
        assert(a * sum(xs) == a * sum(xi) + a * x) by (nonlinear_arith)
            requires
                sum(xs) == sum(xi) + x,
        ;
        assert(b * sum(ws) == b * sum(wi) + b * w) by (nonlinear_arith)
            requires
                sum(ws) == sum(wi) + w,
        ;
        assert(a * x <= b * w);
    } else {
        assert(a * sum(xs) == 0 && b * sum(ws) == 0) by (nonlinear_arith)
            requires
                sum(xs) == 0,
                sum(ws) == 0,
        ;
    }
}

/// Where each of some numbers, times `a`, is at least its weight times `b`,
/// their sum times `a` is at least the sum of the weights times `b`.
proof fn lemma_weighted_sum_ge(xs: Seq<nat>, ws: Seq<nat>, a: nat, b: nat)
    requires
        xs.len() == ws.len(),
        forall|i: int| 0 <= i < xs.len() ==> a * (#[trigger] xs[i]) >= b * ws[i],
    ensures
        a * sum(xs) >= b * sum(ws),
    decreases xs.len(),
{
    if xs.len() > 0 {
        let xi: Seq<nat> = xs.drop_last();
        let wi: Seq<nat> = ws.drop_last();
        assert forall|i: int| 0 <= i < xi.len() implies a * (#[trigger] xi[i]) >= b * wi[i] by {
            assert(xi[i] == xs[i]);
            assert(wi[i] == ws[i]);
        }
        lemma_weighted_sum_ge(xi, wi, a, b);
        let x: nat = xs.last();
        let w: nat = ws.last();
        assert(a * xs[xs.len() - 1] >= b * ws[xs.len() - 1]);
        assert(sum(xs) == sum(xi) + x);
        assert(sum(ws) == sum(wi) + w);
        assert(a * sum(xs) == a * sum(xi) + a * x) by (nonlinear_arith)
            requires
                sum(xs) == sum(xi) + x,
        ;
        assert(b * sum(ws) == b * sum(wi) + b * w) by (nonlinear_arith)
            requires
                sum(ws) == sum(wi) + w,
        ;
        assert(a * x >= b * w);
    } else {
        assert(a * sum(xs) == 0 && b * sum(ws) == 0) by (nonlinear_arith)
            requires
                sum(xs) == 0,
                sum(ws) == 0,
        ;
    }
}

/// There are no more weights than their sum, as none is 0.
proof fn lemma_len_le_sum(ws: Seq<nat>)
    requires
        forall|i: int| 0 <= i < ws.len() ==> ws[i] > 0,
    ensures
        ws.len() <= sum(ws),
    decreases ws.len(),
{
    if ws.len() > 0 {
        assert(ws.last() == ws[ws.len() - 1]);
        assert forall|i: int| 0 <= i < ws.drop_last().len() implies ws.drop_last()[i] > 0 by {
            assert(ws.drop_last()[i] == ws[i]);
        }
        lemma_len_le_sum(ws.drop_last());
    }
}

/// What `earliest` finds is eligible and has no later deadline than any
/// eligible set, and it finds nothing only where no set is eligible.
proof fn lemma_earliest(ws: Seq<nat>, cs: Seq<nat>, step: nat, n: int)
    requires
        0 <= n <= ws.len(),
    ensures
        match earliest(ws, cs, step, n) {
            Some(i) => {
                &&& 0 <= i < n
                &&& eligible(ws, cs, step, i)
                &&& forall|j: int|
                    0 <= j < n && #[trigger] eligible(ws, cs, step, j) ==> deadline(ws, cs, i)
                        <= deadline(ws, cs, j)
            },
            None => forall|j: int| 0 <= j < n ==> !#[trigger] eligible(ws, cs, step, j),
        },
    decreases n,
{
    if n > 0 {
        lemma_earliest(ws, cs, step, n - 1);
    }
}

/// While fewer than `step` users are spawned, some set is eligible for the
/// user of number `step`.
proof fn lemma_some_eligible(ws: Seq<nat>, cs: Seq<nat>, step: nat)
    requires
        valid_weights(ws),
        cs.len() == ws.len(),
        sum(cs) < step,
    ensures
        earliest(ws, cs, step, ws.len() as int).is_some(),
        0 <= next_set(ws, cs, step) < ws.len(),
        eligible(ws, cs, step, next_set(ws, cs, step)),
{
    lemma_earliest(ws, cs, step, ws.len() as int);
    lemma_sum_update(ws, 0, 0);
    let total: nat = sum(ws);
    if earliest(ws, cs, step, ws.len() as int).is_none() {
        assert forall|i: int| 0 <= i < cs.len() implies total * (#[trigger] cs[i]) >= step
            * ws[i] by {
            assert(!eligible(ws, cs, step, i));
        }
        lemma_weighted_sum_ge(cs, ws, total, step);
        assert(false) by (nonlinear_arith)
            requires
                total * sum(cs) >= step * total,
                sum(cs) < step,
                total > 0,
        ;
    }
}

/// Before any user is spawned the counts are balanced.
proof fn lemma_balanced_at_start(ws: Seq<nat>)
    requires
        valid_weights(ws),
    ensures
        balanced(ws, counts_after(ws, 0), 0),
{
    let cs: Seq<nat> = counts_after(ws, 0);
    let total: nat = sum(ws);
    lemma_sum_update(ws, 0, 0);
    crate::histogram::lemma_sum_zero(cs);
    assert forall|t: nat| t >= 0 implies #[trigger] demand(ws, cs, t) <= t - 0 by {
        let owed: Seq<nat> = Seq::new(ws.len(), |i: int| pending(ws, cs, t, i));
        assert forall|i: int| 0 <= i < owed.len() implies total * (#[trigger] owed[i]) <= t
            * ws[i] by {
            lemma_floor(t * ws[i], total);
        }
        lemma_weighted_sum_le(owed, ws, total, t);
        assert(sum(owed) <= t) by (nonlinear_arith)
            requires
                total * sum(owed) <= t * total,
                total > 0,
        ;
    }
}

/// Spawning the next user keeps the counts balanced.
#[verifier::rlimit(40)]
proof fn lemma_balanced_step(ws: Seq<nat>, cs: Seq<nat>, k: nat)
    requires
        valid_weights(ws),
        balanced(ws, cs, k),
    ensures
        balanced(ws, cs.update(next_set(ws, cs, k + 1), cs[next_set(ws, cs, k + 1)] + 1), k + 1),
{
    let total: nat = sum(ws);
    let step: nat = k + 1;
    let pick: int = next_set(ws, cs, step);
    lemma_some_eligible(ws, cs, step);
    lemma_earliest(ws, cs, step, ws.len() as int);
    lemma_sum_update(ws, 0, 0);
    let next: Seq<nat> = cs.update(pick, cs[pick] + 1);
    lemma_sum_update(cs, pick, cs[pick] + 1);
    assert forall|i: int| 0 <= i < ws.len() implies next[i] == 0 || total * (next[i] - 1) < step
        * ws[i] by {
        if i != pick && cs[i] != 0 {
            assert(total * (cs[i] - 1) < step * ws[i]) by (nonlinear_arith)
                requires
                    total * (cs[i] - 1) < k * ws[i],
                    step == k + 1,
            ;
        }
    }
    let due_by: nat = deadline(ws, cs, pick);
    assert forall|t: nat| t >= step implies #[trigger] demand(ws, next, t) <= t - step by {
        let owed: Seq<nat> = Seq::new(ws.len(), |i: int| pending(ws, cs, t, i));
        let left: Seq<nat> = Seq::new(ws.len(), |i: int| pending(ws, next, t, i));
        lemma_deadline(total, cs[pick], ws[pick], t);
        lemma_floor(t * ws[pick], total);
        if due_by <= t {
            assert(total * (cs[pick] + 1) <= t * ws[pick]);
            assert((t * ws[pick]) / total >= cs[pick] + 1) by (nonlinear_arith)
                requires
                    total * (cs[pick] + 1) <= t * ws[pick],
                    t * ws[pick] < total * ((t * ws[pick]) / total) + total,
                    total > 0,
            ;
            assert(left =~= owed.update(pick, (owed[pick] - 1) as nat));
            lemma_sum_update(owed, pick, (owed[pick] - 1) as nat);
            assert(demand(ws, cs, t) <= t - k);
        } else {
            assert forall|i: int| 0 <= i < left.len() implies total * (#[trigger] left[i]) <= (t
                - step) as nat * ws[i] by {
                let due: nat = (t * ws[i]) / total;
                lemma_floor(t * ws[i], total);
                assert(0 <= (t - step) as nat * ws[i]) by (nonlinear_arith)
                    requires
                        t >= step,
                ;
                if i == pick {
                    assert(due <= cs[pick]) by (nonlinear_arith)
                        requires
                            total * (cs[pick] + 1) > t * ws[pick],
                            total * due <= t * ws[pick],
                            total > 0,
                    ;
                    assert(left[i] == 0);
                    assert(total * left[i] == 0) by (nonlinear_arith)
                        requires
                            left[i] == 0,
                    ;
                } else if due > cs[i] {
                    lemma_deadline(total, cs[i], ws[i], t);
                    assert(total * (cs[i] + 1) <= t * ws[i]) by (nonlinear_arith)
                        requires
                            total * due <= t * ws[i],
                            due >= cs[i] + 1,
                            total > 0,
                    ;
                    assert(deadline(ws, cs, i) <= t);
                    assert(!eligible(ws, cs, step, i));
                    assert(total * left[i] <= (t - step) as nat * ws[i]) by (nonlinear_arith)
                        requires
                            left[i] == due - cs[i],
                            total * due <= t * ws[i],
                            total * cs[i] >= step * ws[i],
                            t >= step,
                    ;
                } else {
                    assert(left[i] == 0);
                    assert(total * left[i] == 0) by (nonlinear_arith)
                        requires
                            left[i] == 0,
                    ;
                }
            }
            lemma_weighted_sum_le(left, ws, total, (t - step) as nat);
            assert(sum(left) <= t - step) by (nonlinear_arith)
                requires
                    total * sum(left) <= (t - step) as nat * total,
                    total > 0,
                    t >= step,
            ;
        }
    }
}

/// After any number of users the counts are balanced.
pub proof fn lemma_counts_balanced(ws: Seq<nat>, k: nat)
    requires
        valid_weights(ws),
    ensures
        balanced(ws, counts_after(ws, k), k),
    decreases k,
{
    if k == 0 {
        lemma_balanced_at_start(ws);
    } else {
        lemma_counts_balanced(ws, (k - 1) as nat);
        lemma_balanced_step(ws, counts_after(ws, (k - 1) as nat), (k - 1) as nat);
    }
}

/// Every prefix of the spawn order is as close to the ratio of the weights as
/// whole users can be: among the first `k` users each task set has its share
/// `k * w / total`, rounded down or rounded up. So no set is ever a whole user
/// ahead of its share or behind it, and a set whose share is whole has exactly
/// its share.
pub proof fn lemma_spawn_order_fair(ws: Seq<nat>, users: nat, k: nat, i: int)
    requires
        valid_weights(ws),
        k <= users,
        0 <= i < ws.len(),
    ensures
        occurrences(spawn_order(ws, users).take(k as int), i as usize) == counts_after(ws, k)[i],
        sum(counts_after(ws, k)) == k,
        sum(ws) * counts_after(ws, k)[i] < k * ws[i] + sum(ws),
        k * ws[i] < sum(ws) * counts_after(ws, k)[i] + sum(ws),
        (k * ws[i]) / sum(ws) <= counts_after(ws, k)[i] <= (k * ws[i] + sum(ws) - 1) / (sum(
            ws,
        ) as int),
        (k * ws[i]) % sum(ws) == 0 ==> counts_after(ws, k)[i] == (k * ws[i]) / sum(ws),
{
    let total: nat = sum(ws);
    let cs: Seq<nat> = counts_after(ws, k);
    let c: nat = cs[i];
    lemma_counts_balanced(ws, k);
    lemma_order_counts(ws, users, k, i);
    lemma_sum_update(ws, 0, 0);
    assert(demand(ws, cs, k) <= k - k);
    let owed: Seq<nat> = Seq::new(ws.len(), |j: int| pending(ws, cs, k, j));
    lemma_sum_update(owed, i, 0);
    assert(owed[i] == 0);
    let share: nat = k * ws[i];
    lemma_floor(share, total);
    lemma_floor((share + total - 1) as nat, total);
    lemma_fundamental_div_mod(share as int, total as int);
    let low: int = share as int / total as int;
    let high: int = (share + total - 1) / (total as int);
    assert(low <= c);
    assert(total * c < share + total) by (nonlinear_arith)
        requires
            c == 0 || total * (c - 1) < share,
            total > 0,
    ;
    assert(share < total * c + total) by (nonlinear_arith)
        requires
            share < total * low + total,
            low <= c,
            total > 0,
    ;
    assert(c <= high) by (nonlinear_arith)
        requires
            total * c < share + total,
            share + total - 1 < total * high + total,
            total > 0,
    ;
    if share % total == 0 {
        assert(c <= low) by (nonlinear_arith)
            requires
                total * c < share + total,
                share == total * low,
                total > 0,
        ;
    }
}

/// Declared weights by which users can be dealt are, reduced, weights by
/// which the spawn order is defined, and they reduce by a common factor: each
/// reduced weight times the greatest common divisor is the declared weight,
/// and so are the sums.
pub proof fn lemma_reduced_deals(ws: Seq<usize>)
    requires
        can_deal(ws),
    ensures
        valid_weights(as_nats(reduced(ws))),
        gcd_of(as_nats(ws)) > 0,
        sum(as_nats(reduced(ws))) * gcd_of(as_nats(ws)) == sum(as_nats(ws)),
        forall|i: int|
            0 <= i < ws.len() ==> (#[trigger] as_nats(reduced(ws))[i]) * gcd_of(as_nats(ws))
                == ws[i],
{
    let rs: Seq<nat> = as_nats(reduced(ws));
    let g: nat = gcd_of(as_nats(ws));
    lemma_reduced_keeps_ratio(ws, 0, 0);
    assert forall|i: int| 0 <= i < ws.len() implies (#[trigger] rs[i]) * g == ws[i] && rs[i]
        > 0 by {
        lemma_reduced_keeps_ratio(ws, i, i);
        assert(rs[i] == reduced(ws)[i]);
    }
    assert forall|i: int| 0 <= i < ws.len() implies 1 * (#[trigger] as_nats(ws)[i]) <= g
        * rs[i] by {
        assert(rs[i] * g == ws[i]);
        assert(g * rs[i] == rs[i] * g) by (nonlinear_arith);
    }
    assert forall|i: int| 0 <= i < ws.len() implies 1 * (#[trigger] as_nats(ws)[i]) >= g
        * rs[i] by {
        assert(rs[i] * g == ws[i]);
        assert(g * rs[i] == rs[i] * g) by (nonlinear_arith);
    }
    lemma_weighted_sum_le(as_nats(ws), rs, 1, g);
    lemma_weighted_sum_ge(as_nats(ws), rs, 1, g);
    assert(sum(rs) * g == g * sum(rs)) by (nonlinear_arith);
}

/// Users are dealt in the ratio of the declared weights: among the first `k`
/// users that are spawned, each task set has its share `k * w / total` of
/// them, rounded down or rounded up, where `w` is the set's declared weight
/// and `total` the sum of all. A set whose share is whole has exactly its
/// share; so after every `total` users the ratio is exact.
#[verifier::rlimit(40)]
pub proof fn lemma_users_in_ratio(ws: Seq<usize>, users: nat, k: nat, i: int)
    requires
        can_deal(ws),
        k <= users,
        0 <= i < ws.len(),
    ensures
        ({
            let c = counts_after(as_nats(reduced(ws)), k)[i];
            let total = sum(as_nats(ws));
            &&& occurrences(spawn_order(as_nats(reduced(ws)), users).take(k as int), i as usize)
                == c
            &&& total * c < k * ws[i] + total
            &&& k * ws[i] < total * c + total
            &&& (k * ws[i]) % (total as int) == 0 ==> c == (k * ws[i]) / (total as int)
        }),
{
    let rs: Seq<nat> = as_nats(reduced(ws));
    let g: nat = gcd_of(as_nats(ws));
    let c: nat = counts_after(rs, k)[i];
    let total: nat = sum(as_nats(ws));
    let small: nat = sum(rs);
    let w: nat = ws[i] as nat;
    let r: nat = rs[i];
    lemma_reduced_deals(ws);
    lemma_spawn_order_fair(rs, users, k, i);
    assert(r * g == w);
    assert(total * c < k * w + total) by (nonlinear_arith)
        requires
            small * c < k * r + small,
            small * g == total,
            r * g == w,
            g > 0,
    ;
    assert(k * w < total * c + total) by (nonlinear_arith)
        requires
            k * r < small * c + small,
            small * g == total,
            r * g == w,
            g > 0,
    ;
    let share: int = (k * w) as int;
    if share % (total as int) == 0 {
        lemma_fundamental_div_mod(share, total as int);
        let q: int = share / (total as int);
        assert(c == q) by (nonlinear_arith)
            requires
                total * c < share + total,
                share < total * c + total,
                share == total * q,
                total > 0,
        ;
    }
}

/// The users of a set among the first `k` of the spawn order are those that
/// the counts after `k` users count.
proof fn lemma_order_counts(ws: Seq<nat>, users: nat, k: nat, i: int)
    requires
        valid_weights(ws),
        k <= users,
        0 <= i < ws.len(),
    ensures
        occurrences(spawn_order(ws, users).take(k as int), i as usize) == counts_after(ws, k)[i],
    decreases k,
{
    let order: Seq<usize> = spawn_order(ws, users);
    lemma_len_le_sum(ws);
    if k > 0 {
        let before: nat = (k - 1) as nat;
        lemma_order_counts(ws, users, before, i);
        lemma_counts_balanced(ws, before);
        let cs: Seq<nat> = counts_after(ws, before);
        lemma_some_eligible(ws, cs, k);
        let pick: int = next_set(ws, cs, k);
        assert(order.take(k as int) == order.take(before as int).push(order[before as int]));
        assert(order[before as int] == pick as usize);
        lemma_occurrences_push(order.take(before as int), pick as usize, i as usize);
    } else {
        assert(order.take(0).len() == 0);
    }
}

/// The users of a pool, dealt to the task sets.
#[derive(Debug)]
pub struct SpawnPlan {
    /// For each user, in the order of spawning, the index of its task set.
    pub order: Vec<usize>,
    /// For each task set the number of its users.
    pub counts: Vec<usize>,
}

/// The sum of `weights`, if it fits in a machine word.
fn total_weight(weights: &Vec<usize>) -> (total: Option<usize>)
    ensures
        match total {
            Some(t) => t == sum(as_nats(weights@)),
            None => sum(as_nats(weights@)) > usize::MAX,
        },
{
    let mut total: usize = 0;
    let mut i: usize = 0;
    while i < weights.len()
        invariant
            i <= weights.len(),
            total == sum(as_nats(weights@).take(i as int)),
        decreases weights.len() - i,
    {
        proof {
            crate::histogram::lemma_sum_take(as_nats(weights@), i as int);
            crate::histogram::lemma_sum_take(as_nats(weights@), i + 1);
            assert(as_nats(weights@)[i as int] == weights@[i as int]);
        }
        if weights[i] > usize::MAX - total {
            return None;
        }
        total = total + weights[i];
        i = i + 1;
    }
    proof {
        assert(as_nats(weights@).take(i as int) == as_nats(weights@));
    }
    Some(total)
}

/// Whether no weight is 0.
fn all_positive(weights: &Vec<usize>) -> (positive: bool)
    ensures
        positive == forall|i: int| 0 <= i < weights@.len() ==> weights@[i] > 0,
{
    let mut i: usize = 0;
    while i < weights.len()
        invariant
            i <= weights.len(),
            forall|j: int| 0 <= j < i ==> weights@[j] > 0,
        decreases weights.len() - i,
    {
        if weights[i] == 0 {
            return false;
        }
        i = i + 1;
    }
    true
}

/// The set that gets the user spawned as number `step`.
fn pick_next(weights: &Vec<usize>, counts: &Vec<usize>, total: usize, step: usize) -> (pick: usize)
    requires
        valid_weights(as_nats(weights@)),
        total == sum(as_nats(weights@)),
        counts@.len() == weights@.len(),
        step >= 1,
        balanced(as_nats(weights@), as_nats(counts@), (step - 1) as nat),
    ensures
        pick == next_set(as_nats(weights@), as_nats(counts@), step as nat),
        pick < weights@.len(),
{
    let ghost ws: Seq<nat> = as_nats(weights@);
    let ghost cs: Seq<nat> = as_nats(counts@);
    let mut best: Option<usize> = None;
    let mut best_deadline: u128 = 0;
    let mut i: usize = 0;
    proof {
        lemma_some_eligible(ws, cs, step as nat);
    }
    while i < weights.len()
        invariant
            i <= weights.len(),
            counts@.len() == weights@.len(),
            ws == as_nats(weights@),
            cs == as_nats(counts@),
            valid_weights(ws),
            total == sum(ws),
            sum(cs) == step - 1,
            match best {
                Some(b) => earliest(ws, cs, step as nat, i as int) == Some(b as int) && b < i
                    && best_deadline == deadline(ws, cs, b as int),
                None => earliest(ws, cs, step as nat, i as int).is_none(),
            },
        decreases weights.len() - i,
    {
        let w: usize = weights[i];
        let c: usize = counts[i];
        proof {
            assert(ws[i as int] == w);
            assert(cs[i as int] == c);
            lemma_sum_update(cs, i as int, 0);
            lemma_sum_update(ws, i as int, 0);
            assert(usize::MAX * usize::MAX <= 0xFFFF_FFFF_FFFF_FFFE_0000_0000_0000_0001)
                by (nonlinear_arith)
                requires
                    usize::MAX <= 0xFFFF_FFFF_FFFF_FFFF,
            ;
            assert(total * c <= usize::MAX * usize::MAX) by (nonlinear_arith)
                requires
                    total <= usize::MAX,
                    c <= usize::MAX,
            ;
            assert(step * w <= usize::MAX * usize::MAX) by (nonlinear_arith)
                requires
                    step <= usize::MAX,
                    w <= usize::MAX,
            ;
            assert(total * (c + 1) <= usize::MAX * usize::MAX) by (nonlinear_arith)
                requires
                    total <= usize::MAX,
                    c + 1 <= usize::MAX,
            ;
        }
        if (total as u128) * (c as u128) < (step as u128) * (w as u128) {
            let due: u128 = ((total as u128) * (c as u128 + 1) + (w as u128) - 1) / (w as u128);
            let better: bool = match best {
                None => true,
                Some(_) => due < best_deadline,
            };
            if better {
                best = Some(i);
                best_deadline = due;
            }
        }
        i = i + 1;
    }
    match best {
        Some(b) => b,
        None => 0,
    }
}

/// Deals `users` users to the task sets with the given weights. The weights
/// are reduced by their greatest common divisor; then each user goes to the
/// set that is behind its share and must have its next user soonest. Weights
/// are refused where there is none, where one is 0, and where the sum of the
/// reduced weights does not fit in a machine word.
pub fn plan_users(weights: &Vec<usize>, users: usize) -> (result: Result<SpawnPlan, ConfigError>)
    ensures
        match result {
            Ok(plan) => {
                &&& can_deal(weights@)
                &&& plan.order@ == spawn_order(as_nats(reduced(weights@)), users as nat)
                &&& as_nats(plan.counts@) == counts_after(as_nats(reduced(weights@)), users as nat)
            },
            Err(ConfigError::EmptyTaskSet) => weights@.len() == 0,
            Err(ConfigError::InvalidWeight) => weights@.len() > 0 && !can_deal(weights@),
            Err(_) => false,
        },
{
    if weights.len() == 0 {
        return Err(ConfigError::EmptyTaskSet);
    }
    if !all_positive(weights) {
        return Err(ConfigError::InvalidWeight);
    }
    let shares: Vec<usize> = reduce_weights(weights);
    let ghost ws: Seq<nat> = as_nats(shares@);
    let total: usize = match total_weight(&shares) {
        Some(total) => total,
        None => {
            return Err(ConfigError::InvalidWeight);
        },
    };
    proof {
        lemma_reduced_deals(weights@);
    }
    let mut counts: Vec<usize> = Vec::new();
    let mut i: usize = 0;
    while i < shares.len()
        invariant
            i <= shares.len(),
            counts@.len() == i,
            forall|j: int| 0 <= j < i ==> counts@[j] == 0,
        decreases shares.len() - i,
    {
        counts.push(0);
        i = i + 1;
    }
    let mut order: Vec<usize> = Vec::new();
    let mut k: usize = 0;
    proof {
        assert(as_nats(counts@) =~= counts_after(ws, 0));
        lemma_counts_balanced(ws, 0);
    }
    while k < users
        invariant
            k <= users,
            ws == as_nats(shares@),
            valid_weights(ws),
            total == sum(ws),
            counts@.len() == shares@.len(),
            as_nats(counts@) == counts_after(ws, k as nat),
            balanced(ws, counts_after(ws, k as nat), k as nat),
            order@.len() == k,
            forall|j: int| 0 <= j < k ==> order@[j] == spawn_order(ws, users as nat)[j],
        decreases users - k,
    {
        let pick: usize = pick_next(&shares, &counts, total, k + 1);
        let ghost cs: Seq<nat> = counts_after(ws, k as nat);
        proof {
            lemma_counts_balanced(ws, (k + 1) as nat);
            lemma_sum_update(counts_after(ws, (k + 1) as nat), pick as int, 0);
            assert(cs[pick as int] == counts@[pick as int]);
        }
        let count: usize = counts[pick];
        counts[pick] = count + 1;
        order.push(pick);
        proof {
            assert(as_nats(counts@) =~= cs.update(pick as int, cs[pick as int] + 1));
        }
        k = k + 1;
    }
    proof {
        assert(order@ =~= spawn_order(ws, users as nat));
    }
    Ok(SpawnPlan { order: order, counts: counts })
}

} // verus!
