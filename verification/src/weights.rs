//! Greatest common divisors and the reduction of declared weights to their
//! smallest whole-number ratio.
//!
//! Weights are declared as positive integers. Before they are turned into
//! repeated entries (of a bucket, or of the user population) they are divided
//! by their greatest common divisor, which keeps the ratio and shortens the
//! result.

use vstd::prelude::*;
use vstd::arithmetic::div_mod::{
    lemma_fundamental_div_mod, lemma_mod_multiples_basic, lemma_small_mod,
};

verus! {

/// The greatest common divisor of two naturals, by Euclid's recursion;
/// `gcd(0, 0)` is 0. That the value divides both arguments and is divided by
/// every other common divisor is shown by [`lemma_gcd_divides`] and
/// [`lemma_gcd_greatest`].
pub open spec fn gcd(a: nat, b: nat) -> nat
    decreases b,
{
    if b == 0 {
        a
    } else {
        gcd(b, a % b)
    }
}

/// The greatest common divisor of all elements of `ws`; 0 for the empty
/// sequence.
pub open spec fn gcd_of(ws: Seq<nat>) -> nat
    decreases ws.len(),
{
    if ws.len() == 0 {
        0
    } else {
        gcd(gcd_of(ws.drop_last()), ws.last())
    }
}

/// The weights of `ws` as naturals.
pub open spec fn as_nats(ws: Seq<usize>) -> Seq<nat> {
    ws.map_values(|w: usize| w as nat)
}

/// A multiple of `g` times anything, plus a multiple of `g`, is a multiple of
/// `g`.
pub proof fn lemma_multiple_combination(x: int, q: int, y: int, g: int)
    requires
        g > 0,
        x % g == 0,
        y % g == 0,
    ensures
        (x * q + y) % g == 0,
{
    lemma_fundamental_div_mod(x, g);
    lemma_fundamental_div_mod(y, g);
    let k: int = (x / g) * q + (y / g);
    assert(x * q + y == k * g) by (nonlinear_arith)
        requires
            x == g * (x / g),
            y == g * (y / g),
            k == (x / g) * q + (y / g),
    ;
    lemma_mod_multiples_basic(k, g);
}

/// Divisibility is transitive.
pub proof fn lemma_divides_transitive(x: nat, g: nat, d: nat)
    requires
        g > 0,
        d > 0,
        x % g == 0,
        g % d == 0,
    ensures
        x % d == 0,
{
    lemma_fundamental_div_mod(x as int, g as int);
    lemma_multiple_combination(g as int, (x / g) as int, 0, d as int);
    assert(g * (x / g) == (g as int) * ((x / g) as int) + 0);
}

/// The greatest common divisor is 0 only of two zeros, and otherwise divides
/// both arguments.
pub proof fn lemma_gcd_divides(a: nat, b: nat)
    ensures
        gcd(a, b) == 0 <==> a == 0 && b == 0,
        gcd(a, b) > 0 ==> a % gcd(a, b) == 0 && b % gcd(a, b) == 0,
    decreases b,
{
    if b != 0 {
        lemma_gcd_divides(b, a % b);
        let g: nat = gcd(a, b);
        lemma_fundamental_div_mod(a as int, b as int);
        lemma_multiple_combination(b as int, (a / b) as int, (a % b) as int, g as int);
    }
}

/// Every common divisor of `a` and `b` divides their greatest common divisor.
pub proof fn lemma_gcd_greatest(a: nat, b: nat, d: nat)
    requires
        d > 0,
        a % d == 0,
        b % d == 0,
    ensures
        gcd(a, b) % d == 0,
    decreases b,
{
    if b != 0 {
        lemma_fundamental_div_mod(a as int, b as int);
        lemma_multiple_combination(b as int, -((a / b) as int), a as int, d as int);
        assert((a % b) as int == (b as int) * (-((a / b) as int)) + (a as int)) by (nonlinear_arith)
            requires
                a as int == (b as int) * ((a / b) as int) + ((a % b) as int),
        ;
        lemma_gcd_greatest(b, a % b, d);
    }
}

/// `gcd_of(ws)` is 0 only if every element is 0, and otherwise divides every
/// element.
pub proof fn lemma_gcd_of_divides(ws: Seq<nat>)
    ensures
        gcd_of(ws) == 0 <==> (forall|i: int| 0 <= i < ws.len() ==> ws[i] == 0),
        gcd_of(ws) > 0 ==> (forall|i: int| 0 <= i < ws.len() ==> #[trigger] ws[i] % gcd_of(ws) == 0),
    decreases ws.len(),
{
    if ws.len() > 0 {
        let init: Seq<nat> = ws.drop_last();
        let g0: nat = gcd_of(init);
        let g: nat = gcd_of(ws);
        lemma_gcd_of_divides(init);
        lemma_gcd_divides(g0, ws.last());
        assert forall|i: int| 0 <= i < init.len() implies init[i] == ws[i] by {}
        if g > 0 {
            assert forall|i: int| 0 <= i < ws.len() implies #[trigger] ws[i] % g == 0 by {
                if i < ws.len() - 1 {
                    assert(init[i] == ws[i]);
                    if g0 > 0 {
                        assert(init[i] % g0 == 0);
                        lemma_divides_transitive(ws[i], g0, g);
                    } else {
                        assert(init[i] == 0);
                    }
                }
            }
        }
        if g == 0 {
            assert forall|i: int| 0 <= i < ws.len() implies ws[i] == 0 by {
                if i < ws.len() - 1 {
                    assert(init[i] == ws[i]);
                }
            }
        }
        if forall|i: int| 0 <= i < ws.len() ==> ws[i] == 0 {
            assert(ws.last() == ws[ws.len() - 1]);
            assert forall|i: int| 0 <= i < init.len() implies init[i] == 0 by {
                assert(init[i] == ws[i]);
            }
        }
    }
}

/// Every common divisor of the elements of `ws` divides `gcd_of(ws)`.
pub proof fn lemma_gcd_of_greatest(ws: Seq<nat>, d: nat)
    requires
        d > 0,
        forall|i: int| 0 <= i < ws.len() ==> #[trigger] ws[i] % d == 0,
    ensures
        gcd_of(ws) % d == 0,
    decreases ws.len(),
{
    if ws.len() > 0 {
        let init: Seq<nat> = ws.drop_last();
        assert forall|i: int| 0 <= i < init.len() implies #[trigger] init[i] % d == 0 by {
            assert(init[i] == ws[i]);
        }
        lemma_gcd_of_greatest(init, d);
        assert(ws.last() == ws[ws.len() - 1]);
        lemma_gcd_greatest(gcd_of(init), ws.last(), d);
    } else {
        lemma_small_mod(0, d);
    }
}

/// Computes the greatest common divisor of `a` and `b`.
pub fn compute_gcd(a: usize, b: usize) -> (g: usize)
    ensures
        g == gcd(a as nat, b as nat),
{
    let mut x: usize = a;
    let mut y: usize = b;
    while y != 0
        invariant
            gcd(x as nat, y as nat) == gcd(a as nat, b as nat),
        decreases y,
    {
        let r: usize = x % y;
        x = y;
        y = r;
    }
    x
}

/// Computes the greatest common divisor of all of `weights`.
pub fn compute_gcd_of(weights: &Vec<usize>) -> (g: usize)
    ensures
        g == gcd_of(as_nats(weights@)),
{
    let mut g: usize = 0;
    let mut i: usize = 0;
    while i < weights.len()
        invariant
            i <= weights.len(),
            g == gcd_of(as_nats(weights@.take(i as int))),
        decreases weights.len() - i,
    {
        proof {
            let next: Seq<usize> = weights@.take(i + 1);
            assert(next.drop_last() == weights@.take(i as int));
            assert(as_nats(next).drop_last() == as_nats(weights@.take(i as int)));
            assert(as_nats(next).last() == weights@[i as int] as nat);
        }
        g = compute_gcd(g, weights[i]);
        i = i + 1;
    }
    proof {
        assert(weights@.take(i as int) == weights@);
    }
    g
}

/// What [`reduce_weights`] returns: each weight divided by the greatest common
/// divisor of all of them.
pub open spec fn reduced(ws: Seq<usize>) -> Seq<usize> {
    Seq::new(ws.len(), |i: int| (ws[i] / (gcd_of(as_nats(ws)) as usize)) as usize)
}

/// Divides each weight by the greatest common divisor of all of them. Of
/// weights that are all positive the result keeps every ratio
/// ([`lemma_reduced_keeps_ratio`]).
pub fn reduce_weights(weights: &Vec<usize>) -> (out: Vec<usize>)
    requires
        forall|i: int| 0 <= i < weights.len() ==> weights[i] > 0,
    ensures
        out@ == reduced(weights@),
{
    let g: usize = compute_gcd_of(weights);
    let mut out: Vec<usize> = Vec::new();
    let mut i: usize = 0;
    proof {
        lemma_gcd_of_divides(as_nats(weights@));
        if weights.len() > 0 {
            assert(as_nats(weights@)[0] == weights[0] as nat);
        }
    }
    while i < weights.len()
        invariant
            i <= weights.len(),
            weights.len() > 0 ==> g > 0,
            g == gcd_of(as_nats(weights@)),
            out@.len() == i,
            forall|k: int| 0 <= k < i ==> out@[k] == reduced(weights@)[k],
        decreases weights.len() - i,
    {
        out.push(weights[i] / g);
        i = i + 1;
    }
    proof {
        assert(out@ =~= reduced(weights@));
    }
    out
}

/// Reduction keeps the ratio of any two weights exactly, and every reduced
/// weight of a positive weight is positive.
pub proof fn lemma_reduced_keeps_ratio(ws: Seq<usize>, i: int, j: int)
    requires
        forall|k: int| 0 <= k < ws.len() ==> ws[k] > 0,
        0 <= i < ws.len(),
        0 <= j < ws.len(),
    ensures
        reduced(ws)[i] * ws[j] == reduced(ws)[j] * ws[i],
        reduced(ws)[i] > 0,
        reduced(ws)[i] * gcd_of(as_nats(ws)) == ws[i],
{
    let g: nat = gcd_of(as_nats(ws));
    lemma_gcd_of_divides(as_nats(ws));
    assert(as_nats(ws)[i] == ws[i] as nat);
    assert(as_nats(ws)[j] == ws[j] as nat);
    assert(g > 0);
    assert(ws[i] as nat % g == 0);
    assert(ws[j] as nat % g == 0);
    lemma_gcd_of_bounded(ws, i);
    lemma_fundamental_div_mod(ws[i] as int, g as int);
    lemma_fundamental_div_mod(ws[j] as int, g as int);
    let ri: int = ws[i] as int / g as int;
    let rj: int = ws[j] as int / g as int;
    assert(reduced(ws)[i] == ri);
    assert(reduced(ws)[j] == rj);
    assert(ri * ws[j] == rj * ws[i]) by (nonlinear_arith)
        requires
            ws[i] as int == (g as int) * ri,
            ws[j] as int == (g as int) * rj,
    ;
    assert(ri > 0) by (nonlinear_arith)
        requires
            ws[i] as int == (g as int) * ri,
            ws[i] > 0,
            g > 0,
    ;
    assert(ri * g == ws[i]) by (nonlinear_arith)
        requires
            ws[i] as int == (g as int) * ri,
    ;
}

/// The greatest common divisor of positive weights is at most each of them, so
/// it fits the machine word that holds them.
pub proof fn lemma_gcd_of_bounded(ws: Seq<usize>, i: int)
    requires
        0 <= i < ws.len(),
        ws[i] > 0,
    ensures
        0 < gcd_of(as_nats(ws)) <= ws[i],
{
    let g: nat = gcd_of(as_nats(ws));
    lemma_gcd_of_divides(as_nats(ws));
    assert(as_nats(ws)[i] == ws[i] as nat);
    assert(g > 0);
    assert(ws[i] as nat % g == 0);
    lemma_fundamental_div_mod(ws[i] as int, g as int);
    let q: int = ws[i] as int / g as int;
    assert(g <= ws[i]) by (nonlinear_arith)
        requires
            ws[i] as int == (g as int) * q,
            ws[i] > 0,
            g > 0,
    ;
}

} // verus!
