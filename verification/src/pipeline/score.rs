use vstd::prelude::*;
use crate::pipeline::layout::floor_log2;
use crate::pipeline::layout::minus_or_zero;
use crate::pipeline::layout::smaller;

verus! {

/// How a counter that was read turns into a vote.
#[derive(Copy, Clone, Debug, PartialEq, Eq, Structural)]
pub enum ActivationType {
    /// One for every counter above the threshold.
    Binary,
    /// The counter's excess over the threshold.
    Linear,
    /// The logarithm of the excess plus one.
    Log,
    /// The logarithm of the excess plus one, at most 5.
    BoundedLog,
}

/// The largest vote that the bounded logarithm gives.
pub const LOG_BOUND: u64 = 5;

/// The vote that a counter `value` gives under `threshold`.
pub open spec fn vote(value: nat, threshold: nat, kind: ActivationType) -> nat {
    let excess = minus_or_zero(value, threshold);
    match kind {
        ActivationType::Binary => if excess > 0 { 1 } else { 0 },
        ActivationType::Linear => excess,
        ActivationType::Log => floor_log2(excess + 1),
        ActivationType::BoundedLog => smaller(floor_log2(excess + 1), LOG_BOUND as nat),
    }
}

/// `at` is the index of the largest score, the last one where several are largest.
pub open spec fn is_last_max(scores: Seq<u64>, at: int) -> bool {
    &&& 0 <= at < scores.len()
    &&& forall|j: int| 0 <= j < scores.len() ==> scores[j] <= scores[at]
    &&& forall|j: int| at < j < scores.len() ==> scores[j] < scores[at]
}

/// The number of bits of `x` below its leading one.
pub fn floor_log2_word(x: u64) -> (r: u64)
    ensures
        r == floor_log2(x as nat),
{
    let mut y: u64 = x;
    let mut r: u64 = 0;
    proof {
        crate::pipeline::layout::lemma_floor_log2_small(x as nat);
    }
    while y > 1
        invariant
            floor_log2(x as nat) == r + floor_log2(y as nat),
            floor_log2(x as nat) <= x,
        decreases y,
    {
        y = y / 2;
        r += 1;
    }
    r
}

/// The vote of a counter: its excess over the threshold, as the activation `kind` counts
/// it.
pub fn activate(value: u64, threshold: u64, kind: ActivationType) -> (r: u64)
    requires
        minus_or_zero(value as nat, threshold as nat) < u64::MAX,
    ensures
        r == vote(value as nat, threshold as nat, kind),
{
    let excess: u64 = if value >= threshold {
        value - threshold
    } else {
        0
    };
    match kind {
        ActivationType::Binary => if excess > 0 {
            1
        } else {
            0
        },
        ActivationType::Linear => excess,
        ActivationType::Log => floor_log2_word(excess + 1),
        ActivationType::BoundedLog => {
            let v = floor_log2_word(excess + 1);
            if v <= LOG_BOUND {
                v
            } else {
                LOG_BOUND
            }
        },
    }
}

/// The label with the largest score; among several, the last.
pub fn predict(scores: &Vec<u64>) -> (at: usize)
    requires
        scores@.len() >= 1,
    ensures
        is_last_max(scores@, at as int),
{
    let mut at: usize = 0;
    let mut i: usize = 1;
    while i < scores.len()
        invariant
            1 <= i <= scores@.len(),
            0 <= at < i,
            forall|j: int| 0 <= j < i ==> scores@[j] <= scores@[at as int],
            forall|j: int| at < j < i ==> scores@[j] < scores@[at as int],
        decreases scores@.len() - i,
    {
        if scores[i] >= scores[at] {
            at = i;
        }
        i += 1;
    }
    at
}

} // verus!
