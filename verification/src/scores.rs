//! Choosing among scores: the best of a list, and a draw weighted by the
//! softmax of the scores.
use crate::binary32::{below, is_below, total_key, total_le, ZERO};
use crate::instructions::{computes, total, Operation};
use vstd::prelude::*;

verus! {

/// The later of two optional scores in the total order; of two that are
/// equal there the second.
pub open spec fn later_of(a: Option<u32>, b: Option<u32>) -> Option<u32> {
    match (a, b) {
        (Some(x), Some(y)) => if total_key(x) <= total_key(y) {
            b
        } else {
            a
        },
        (None, _) => b,
        (_, None) => a,
    }
}

/// The greatest score of the sequence in the total order, or `None` if it
/// holds no score at all.
pub open spec fn best_of(scores: Seq<Option<u32>>) -> Option<u32>
    decreases scores.len(),
{
    if scores.len() == 0 {
        None
    } else {
        later_of(best_of(scores.drop_last()), scores.last())
    }
}

/// What [`best_of`] gives is one of the scores, and none of them comes after
/// it in the total order.
pub proof fn lemma_best_of_greatest(scores: Seq<Option<u32>>)
    ensures
        best_of(scores) is None <==> (forall|i: int|
            0 <= i < scores.len() ==> (#[trigger] scores[i]) is None),
        best_of(scores) matches Some(b) ==> {
            &&& scores.contains(Some(b))
            &&& forall|i: int|
                0 <= i < scores.len() && (#[trigger] scores[i]) is Some ==> total_key(
                    scores[i].unwrap(),
                ) <= total_key(b)
        },
    decreases scores.len(),
{
    if scores.len() > 0 {
        let front = scores.drop_last();
        lemma_best_of_greatest(front);
        assert forall|i: int| 0 <= i < front.len() implies front[i] == scores[i] by {}
        match best_of(scores) {
            Some(b) => {
                if scores.last() == Some(b) {
                    assert(scores[scores.len() - 1] == Some(b));
                } else {
                    assert(front.contains(Some(b)));
                    let k = choose|k: int| 0 <= k < front.len() && front[k] == Some(b);
                    assert(scores[k] == Some(b));
                }
                assert forall|i: int|
                    0 <= i < scores.len() && (#[trigger] scores[i]) is Some implies total_key(
                    scores[i].unwrap(),
                ) <= total_key(b) by {
                    if i < front.len() {
                        assert(front[i] == scores[i]);
                    }
                }
            },
            None => {
                assert forall|i: int| 0 <= i < scores.len() implies (#[trigger] scores[i]) is None by {
                    if i < front.len() {
                        assert(front[i] == scores[i]);
                    }
                }
            },
        }
        if forall|i: int| 0 <= i < scores.len() ==> (#[trigger] scores[i]) is None {
            assert(scores[scores.len() - 1] is None);
            assert forall|i: int| 0 <= i < front.len() implies (#[trigger] front[i]) is None by {
                assert(front[i] == scores[i]);
            }
        }
    }
}

/// The later of two optional scores in the total order.
pub fn later_score(a: Option<u32>, b: Option<u32>) -> (r: Option<u32>)
    ensures
        r == later_of(a, b),
{
    match (a, b) {
        (Some(x), Some(y)) => if total_le(x, y) {
            b
        } else {
            a
        },
        (None, _) => b,
        (_, None) => a,
    }
}

/// The exponential of a score's distance to the greatest score.
pub open spec fn exponential(model: spec_fn(Operation) -> u32, score: u32, greatest: u32) -> u32 {
    model(Operation::Exp(model(Operation::Sub(score, greatest))))
}

/// The sum of the exponentials of the scores, taken from the left and
/// started at zero.
pub open spec fn exponential_sum(
    model: spec_fn(Operation) -> u32,
    scores: Seq<Option<u32>>,
    greatest: u32,
) -> u32
    decreases scores.len(),
{
    if scores.len() == 0 {
        ZERO
    } else {
        let front = exponential_sum(model, scores.drop_last(), greatest);
        match scores.last() {
            Some(score) => model(Operation::Add(front, exponential(model, score, greatest))),
            None => front,
        }
    }
}

/// The sum of the softmax weights of the scores, taken from the left and
/// started at zero. The weight of a score is its exponential over `whole`.
pub open spec fn cumulative_weight(
    model: spec_fn(Operation) -> u32,
    scores: Seq<Option<u32>>,
    greatest: u32,
    whole: u32,
) -> u32
    decreases scores.len(),
{
    if scores.len() == 0 {
        ZERO
    } else {
        let front = cumulative_weight(model, scores.drop_last(), greatest, whole);
        match scores.last() {
            Some(score) => model(
                Operation::Add(
                    front,
                    model(Operation::Div(exponential(model, score, greatest), whole)),
                ),
            ),
            None => front,
        }
    }
}

/// The score that the others are measured against: the greatest of them, or
/// zero where there is none.
pub open spec fn reference_score(scores: Seq<Option<u32>>) -> u32 {
    match best_of(scores) {
        Some(greatest) => greatest,
        None => ZERO,
    }
}

/// Whether the draw falls to position `i`: the position holds a score, and
/// the weights up to and including it add up to more than the draw.
pub open spec fn falls_to(
    model: spec_fn(Operation) -> u32,
    scores: Seq<Option<u32>>,
    draw: u32,
    i: int,
) -> bool {
    let greatest = reference_score(scores);
    let whole = exponential_sum(model, scores, greatest);
    scores[i] is Some && below(draw, cumulative_weight(model, scores.take(i + 1), greatest, whole))
}

/// Whether `chosen` is the first position that the draw falls to, or the
/// last position of all where it falls to none.
pub open spec fn softmax_choice(
    model: spec_fn(Operation) -> u32,
    scores: Seq<Option<u32>>,
    draw: u32,
    chosen: int,
) -> bool {
    &&& 0 <= chosen < scores.len()
    &&& forall|j: int| 0 <= j < chosen ==> !#[trigger] falls_to(model, scores, draw, j)
    &&& falls_to(model, scores, draw, chosen) || (chosen == scores.len() - 1 && forall|j: int|
        0 <= j < scores.len() ==> !#[trigger] falls_to(model, scores, draw, j))
}

/// The greatest of the scores in the total order.
pub fn best_score(scores: &Vec<Option<u32>>) -> (r: Option<u32>)
    ensures
        r == best_of(scores@),
{
    let mut best: Option<u32> = None;
    let mut i: usize = 0;
    assert(scores@.take(0) =~= Seq::<Option<u32>>::empty());
    while i < scores.len()
        invariant
            i <= scores@.len(),
            best == best_of(scores@.take(i as int)),
        decreases scores@.len() - i,
    {
        assert(scores@.take(i + 1).drop_last() =~= scores@.take(i as int));
        best = later_score(best, scores[i]);
        i = i + 1;
    }
    assert(scores@.take(scores@.len() as int) =~= scores@);
    best
}

/// Picks a position by a draw from the unit interval: each score weighs as
/// much as the softmax gives it, the weights are added up from the left, and
/// the first position at which the sum exceeds the draw is taken. Where the
/// sum never exceeds the draw the last position is taken.
pub fn choose_position<A: Fn(Operation) -> u32>(scores: &Vec<Option<u32>>, draw: u32, unit: &A) -> (r:
    usize)
    requires
        scores@.len() > 0,
        total(unit),
    ensures
        r < scores@.len(),
        forall|model: spec_fn(Operation) -> u32| #[trigger]
            computes(unit, model) ==> softmax_choice(model, scores@, draw, r as int),
{
    let greatest = match best_score(scores) {
        Some(greatest) => greatest,
        None => ZERO,
    };
    let n = scores.len();
    let mut whole = ZERO;
    let mut i: usize = 0;
    assert(scores@.take(0) =~= Seq::<Option<u32>>::empty());
    while i < n
        invariant
            n == scores@.len(),
            i <= n,
            total(unit),
            forall|model: spec_fn(Operation) -> u32| #[trigger]
                computes(unit, model) ==> whole == exponential_sum(
                    model,
                    scores@.take(i as int),
                    greatest,
                ),
        decreases n - i,
    {
        assert(scores@.take(i + 1).drop_last() =~= scores@.take(i as int));
        match scores[i] {
            Some(score) => {
                let distance = unit(Operation::Sub(score, greatest));
                let term = unit(Operation::Exp(distance));
                whole = unit(Operation::Add(whole, term));
            },
            None => {},
        }
        i = i + 1;
    }
    assert(scores@.take(n as int) =~= scores@);
    let mut cumulative = ZERO;
    let mut k: usize = 0;
    while k < n
        invariant
            n == scores@.len(),
            k <= n,
            total(unit),
            greatest == reference_score(scores@),
            forall|model: spec_fn(Operation) -> u32| #[trigger]
                computes(unit, model) ==> {
                    &&& whole == exponential_sum(model, scores@, greatest)
                    &&& cumulative == cumulative_weight(
                        model,
                        scores@.take(k as int),
                        greatest,
                        whole,
                    )
                    &&& forall|j: int| 0 <= j < k ==> !#[trigger] falls_to(model, scores@, draw, j)
                },
        decreases n - k,
    {
        assert(scores@.take(k + 1).drop_last() =~= scores@.take(k as int));
        match scores[k] {
            Some(score) => {
                let distance = unit(Operation::Sub(score, greatest));
                let term = unit(Operation::Exp(distance));
                let weight = unit(Operation::Div(term, whole));
                cumulative = unit(Operation::Add(cumulative, weight));
                if is_below(draw, cumulative) {
                    return k;
                }
            },
            None => {},
        }
        k = k + 1;
    }
    n - 1
}

} // verus!
