//! The fixed-point number model shared by every component.

use vstd::prelude::*;
use vstd::arithmetic::div_mod::{
    lemma_fundamental_div_mod, lemma_hoist_over_denominator, lemma_mod_multiples_vanish,
};

verus! {

/// The integer that stands for the real number 1.0.
pub const SCALE: u64 = 1_000_000_000;

/// The integer that stands for the real number 0.5.
pub const HALF: u64 = 500_000_000;

/// A list of scores as natural numbers.
pub open spec fn naturals(scores: Seq<u64>) -> Seq<nat> {
    Seq::new(scores.len(), |k: int| scores[k] as nat)
}

/// The sum of a list of weights.
pub open spec fn total(weights: Seq<nat>) -> nat
    decreases weights.len(),
{
    if weights.len() == 0 {
        0
    } else {
        total(weights.drop_last()) + weights.last()
    }
}

/// The total of a list grows by the weight that is appended.
pub proof fn lemma_total_take(weights: Seq<nat>, k: int)
    requires
        0 <= k < weights.len(),
    ensures
        total(weights.take(k + 1)) == total(weights.take(k)) + weights[k],
{
    assert(weights.take(k + 1).drop_last() =~= weights.take(k));
}

/// A partial total never exceeds the whole, and the whole never exceeds the
/// length times a bound on the weights.
pub proof fn lemma_total_bounds(weights: Seq<nat>, k: int, bound: nat)
    requires
        0 <= k <= weights.len(),
        forall|j: int| 0 <= j < weights.len() ==> weights[j] <= bound,
    ensures
        total(weights.take(k)) <= total(weights),
        total(weights) <= weights.len() * bound,
    decreases weights.len() - k,
{
    if k == weights.len() {
        assert(weights.take(k) =~= weights);
        lemma_total_upper(weights, bound);
    } else {
        lemma_total_take(weights, k);
        lemma_total_bounds(weights, k + 1, bound);
    }
}

proof fn lemma_total_upper(weights: Seq<nat>, bound: nat)
    requires
        forall|j: int| 0 <= j < weights.len() ==> weights[j] <= bound,
    ensures
        total(weights) <= weights.len() * bound,
    decreases weights.len(),
{
    if weights.len() > 0 {
        lemma_total_upper(weights.drop_last(), bound);
        assert((weights.len() - 1) * bound + bound == weights.len() * bound) by (nonlinear_arith);
    }
}

/// A total is zero exactly when every weight is zero.
pub proof fn lemma_total_zero(weights: Seq<nat>)
    ensures
        total(weights) == 0 <==> forall|k: int| 0 <= k < weights.len() ==> weights[k] == 0,
    decreases weights.len(),
{
    if weights.len() > 0 {
        lemma_total_zero(weights.drop_last());
        if total(weights) == 0 {
            assert forall|k: int| 0 <= k < weights.len() implies weights[k] == 0 by {
                if k < weights.len() - 1 {
                    assert(weights.drop_last()[k] == weights[k]);
                }
            }
        } else if forall|k: int| 0 <= k < weights.len() ==> weights[k] == 0 {
            assert forall|k: int| 0 <= k < weights.drop_last().len() implies weights.drop_last()[k]
                == 0 by {
                assert(weights.drop_last()[k] == weights[k]);
            }
        }
    }
}

/// The total of a list that repeats one weight.
pub proof fn lemma_total_of_equal(weights: Seq<nat>, weight: nat)
    requires
        forall|k: int| 0 <= k < weights.len() ==> weights[k] == weight,
    ensures
        total(weights) == weights.len() * weight,
    decreases weights.len(),
{
    if weights.len() > 0 {
        lemma_total_of_equal(weights.drop_last(), weight);
        assert((weights.len() - 1) * weight + weight == weights.len() * weight)
            by (nonlinear_arith);
    } else {
        assert(0 * weight == 0) by (nonlinear_arith);
    }
}

/// The part of `amount` that falls to the part at position `k` when `amount`
/// is given out in proportion to `parts`, each a fraction `parts[k] / whole`.
/// The parts handed out are the steps of the rounded-down running total, so
/// that nothing is lost to rounding on the way: together they make
/// `amount as int * total(parts) / whole`, rounded down once.
pub open spec fn portion(amount: nat, parts: Seq<nat>, whole: nat, k: int) -> nat {
    (amount as int * total(parts.take(k + 1)) / (whole as int) - amount as int * total(parts.take(k)) / (
    whole as int)) as nat
}

/// The sum of the first `m` portions.
pub open spec fn portion_sum(amount: nat, parts: Seq<nat>, whole: nat, m: int) -> nat
    decreases m,
{
    if m <= 0 {
        0
    } else {
        portion_sum(amount, parts, whole, m - 1) + portion(amount, parts, whole, m - 1)
    }
}

/// The part of `amount` that falls to place `v` when `amount` is given out
/// evenly to `n` places, by the steps of the rounded-down running total: each
/// place gets `amount as int / (n as int)`, rounded down or up, and all places together get
/// exactly `amount`.
pub open spec fn even_part(amount: nat, n: nat, v: int) -> nat {
    (amount as int * (v + 1) / (n as int) - amount as int * v / (n as int)) as nat
}

/// The sum of the even parts of the first `m` places.
pub open spec fn even_sum(amount: nat, n: nat, m: int) -> nat
    decreases m,
{
    if m <= 0 {
        0
    } else {
        even_sum(amount, n, m - 1) + even_part(amount, n, m - 1)
    }
}

/// Dividing a sum step by step: the quotient grows by what the new term and
/// the remainder so far make together, and the remainder is carried on.
pub proof fn lemma_division_carry(a: int, b: int, m: int)
    requires
        a >= 0,
        b >= 0,
        m > 0,
    ensures
        (a + b) / m - a / m == (b + a % m) / m,
        (a + b) % m == (b + a % m) % m,
        0 <= a % m < m,
        (b + a % m) / m >= 0,
{
    lemma_fundamental_div_mod(a, m);
    lemma_hoist_over_denominator(b + a % m, a / m, m as nat);
    lemma_mod_multiples_vanish(a / m, b + a % m, m);
    assert((a / m) * m == m * (a / m)) by (nonlinear_arith);
    assert(a + b == b + a % m + (a / m) * m);
    assert(a + b == m * (a / m) + (b + a % m));
    assert((b + a % m) / m >= 0) by (nonlinear_arith)
        requires
            b + a % m >= 0,
            m > 0,
    ;
}

/// The first `m` portions add up to the rounded-down part of `amount` that
/// the first `m` parts make.
pub proof fn lemma_portions_telescope(amount: nat, parts: Seq<nat>, whole: nat, m: int)
    requires
        whole > 0,
        0 <= m <= parts.len(),
    ensures
        portion_sum(amount, parts, whole, m) == amount as int * total(parts.take(m)) / (whole as int),
    decreases m,
{
    if m == 0 {
        assert(parts.take(0) =~= Seq::<nat>::empty());
        assert(amount as int * 0 / (whole as int) == 0) by (nonlinear_arith)
            requires
                whole > 0,
        ;
    } else {
        lemma_portions_telescope(amount, parts, whole, m - 1);
        lemma_portion_by_carry(amount, parts, whole, m - 1);
    }
}

/// A portion computed from the remainder carried so far, and the remainder
/// carried on.
pub proof fn lemma_portion_by_carry(amount: nat, parts: Seq<nat>, whole: nat, k: int)
    requires
        whole > 0,
        0 <= k < parts.len(),
    ensures
        portion(amount, parts, whole, k) == (amount as int * parts[k] + (amount as int * total(parts.take(k)))
            % (whole as int)) / (whole as int),
        (amount as int * total(parts.take(k + 1))) % (whole as int) == (amount as int * parts[k] + (amount as int
            * total(parts.take(k))) % (whole as int)) % (whole as int),
        amount as int * total(parts.take(k + 1)) / (whole as int) == amount as int * total(parts.take(k)) / (
        whole as int) + portion(amount, parts, whole, k),
{
    lemma_total_take(parts, k);
    let before = total(parts.take(k));
    let here = parts[k];
    assert(amount as int * (before + here) == amount as int * before + amount as int * here) by (nonlinear_arith);
    assert(amount as int * before >= 0 && amount as int * here >= 0) by (nonlinear_arith)
        requires
            amount >= 0,
            before >= 0,
            here >= 0,
    ;
    lemma_division_carry(amount as int * before, amount as int * here, whole as int);
}

/// An even part computed from the remainder carried so far, and the remainder
/// carried on.
pub proof fn lemma_even_part_by_carry(amount: nat, n: nat, v: int)
    requires
        n > 0,
        0 <= v,
    ensures
        even_part(amount, n, v) == (amount as int + (amount as int * v) % (n as int)) / (n as int),
        (amount as int * (v + 1)) % (n as int) == (amount as int + (amount as int * v) % (n as int)) % (n as int),
        amount as int * (v + 1) / (n as int) == amount as int * v / (n as int) + even_part(amount, n, v),
        amount as int / (n as int) <= even_part(amount, n, v) <= amount as int / (n as int) + 1,
{
    assert(amount as int * (v + 1) == amount as int * v + amount) by (nonlinear_arith);
    assert(amount as int * v >= 0) by (nonlinear_arith)
        requires
            amount >= 0,
            v >= 0,
    ;
    lemma_division_carry(amount as int * v, amount as int, n as int);
    let carry = (amount as int * v) % (n as int);
    assert(amount as int / (n as int) <= (amount as int + carry) / (n as int) <= amount as int / (n as int) + 1) by (nonlinear_arith)
        requires
            0 <= carry < n,
            amount >= 0,
            n > 0,
    ;
}

/// The even parts of the first `m` places add up to the rounded-down part of
/// `amount` that `m` of `n` places make; all `n` places get exactly `amount`.
pub proof fn lemma_even_parts_telescope(amount: nat, n: nat, m: int)
    requires
        n > 0,
        0 <= m,
    ensures
        even_sum(amount, n, m) == amount as int * m / (n as int),
        m == n ==> even_sum(amount, n, m) == amount as int,
    decreases m,
{
    if m == 0 {
        assert(amount as int * 0 / (n as int) == 0) by (nonlinear_arith)
            requires
                n > 0,
        ;
    } else {
        lemma_even_parts_telescope(amount, n, m - 1);
        lemma_even_part_by_carry(amount, n, m - 1);
    }
    if m == n {
        assert(amount as int * n as int / (n as int) == amount as int) by (nonlinear_arith)
            requires
                n > 0,
        ;
    }
}

} // verus!
