//! The weighted average of scores.

use crate::accuracy_laws;
use crate::binary64::Binary64;
use crate::score::clip01;
use vstd::prelude::*;

verus! {

/// The sum of the numbers, added from the left to negative zero, which leaves
/// every number that is added to it unchanged.
pub open spec fn total(terms: Seq<Binary64>) -> Binary64
    decreases terms.len(),
{
    if terms.len() == 0 {
        Binary64::negative_zero()
    } else {
        total(terms.drop_last()).sum(terms.last())
    }
}

/// Each value times its weight.
pub open spec fn weighted(values: Seq<Binary64>, weights: Seq<Binary64>) -> Seq<Binary64> {
    Seq::new(values.len(), |i: int| values[i].product(weights[i]))
}

/// The weighted average of the values, clipped to the unit interval: the sum of
/// each value times its weight, divided by the sum of the weights. Zero where
/// the weights sum to zero or to what is not a number.
pub open spec fn overall(values: Seq<Binary64>, weights: Seq<Binary64>) -> Binary64 {
    let sum = total(weights);
    if sum.equals(Binary64::zero()) || sum.is_nan() {
        Binary64::zero()
    } else {
        total(weighted(values, weights)).quotient(sum).clipped()
    }
}

/// The sum of the numbers, added from the left.
pub fn sum_of(terms: &Vec<Binary64>) -> (r: Binary64)
    ensures
        r == total(terms@),
        r == terms@.fold_left(
            Binary64::negative_zero(),
            |a: Binary64, x: Binary64| a.sum(x),
        ),
{
    let mut r: Binary64 = Binary64::negative_zero();
    for i in 0..terms.len()
        invariant
            r == total(terms@.take(i as int)),
    {
        assert(terms@.take(i + 1).drop_last() =~= terms@.take(i as int));
        r = r.add(terms[i]);
    }
    assert(terms@.take(terms.len() as int) =~= terms@);
    proof {
        accuracy_laws::lemma_fold_total(terms@, |a: Binary64, x: Binary64| a.sum(x));
    }
    r
}

/// The weighted average of the values, clipped to the unit interval.
pub fn overall_score(values: &Vec<Binary64>, weights: &Vec<Binary64>) -> (r: Binary64)
    requires
        values.len() == weights.len(),
    ensures
        r == overall(values@, weights@),
        r.in_unit_interval(),
        ({
            let t = weights@.fold_left(
                Binary64::negative_zero(),
                |a: Binary64, x: Binary64| a.sum(x),
            );
            let a = Seq::new(
                weights@.len(),
                |i: int| values@[i].product(weights@[i]),
            ).fold_left(Binary64::negative_zero(), |a: Binary64, x: Binary64| a.sum(x));
            r == if t.is_nan() || t.value() == 0 {
                Binary64::zero()
            } else {
                a.quotient(t).clipped()
            }
        }),
{
    let sum: Binary64 = sum_of(weights);
    proof {
        crate::binary64::lemma_one_value();
        accuracy_laws::law_overall_step_by_step(values@, weights@);
    }
    if sum.equal_to(Binary64::zero()) || sum.is_not_a_number() {
        return Binary64::zero();
    }
    let mut terms: Vec<Binary64> = Vec::new();
    for i in 0..values.len()
        invariant
            values.len() == weights.len(),
            terms@ =~= weighted(values@, weights@).take(i as int),
    {
        terms.push(values[i].mul(weights[i]));
    }
    assert(terms@ =~= weighted(values@, weights@));
    clip01(sum_of(&terms).div(sum))
}

} // verus!
