//! Liveness analysis over an addition chain.
//!
//! For every entry that a later step could consume, the analysis yields the
//! position of the last step that consumes it. An entry no step consumes is
//! given its own index as its last use: it dies right where it was defined.
//! The final entry of the chain holds the overall result, is never consumed
//! by a step, and therefore has no last-use position at all.

use vstd::prelude::*;

use crate::chain::{chain_wf, step_in_bounds, ChainStep};

verus! {

/// The given step consumes entry `j` as an operand.
pub open spec fn consumes(step: ChainStep, j: int) -> bool {
    match step {
        ChainStep::Double { index } => index == j,
        ChainStep::Add { left, right } => left == j || right == j,
    }
}

/// Last use of entry `j` among the first `n` steps: the greatest position
/// `p < n` whose step consumes `j`, or `j` itself if no such step exists.
pub open spec fn last_use_upto(steps: Seq<ChainStep>, j: int, n: int) -> int
    decreases n,
{
    if n <= 0 {
        j
    } else if consumes(steps[n - 1], j) {
        n - 1
    } else {
        last_use_upto(steps, j, n - 1)
    }
}

/// The position of the last step that consumes entry `j`, or `j` itself if
/// the entry is never consumed.
pub open spec fn last_use(steps: Seq<ChainStep>, j: int) -> int {
    last_use_upto(steps, j, steps.len() as int)
}

/// The last-use positions of entries `0..N-1` of a chain with `N` steps.
/// The final entry `N` is the result and is deliberately left out: it stays
/// live to the end of the program.
pub open spec fn last_use_seq(steps: Seq<ChainStep>) -> Seq<int> {
    Seq::new(steps.len(), |j: int| last_use(steps, j))
}

/// In a well-formed chain, an entry's last use never precedes the entry's
/// own index: a step can only consume entries defined before it.
pub proof fn lemma_last_use_ge(steps: Seq<ChainStep>, j: int, n: int)
    requires
        chain_wf(steps),
        0 <= j,
        n <= steps.len(),
    ensures
        j <= last_use_upto(steps, j, n),
    decreases n,
{
    if n <= 0 {
    } else if consumes(steps[n - 1], j) {
        assert(step_in_bounds(steps[n - 1], n - 1));
    } else {
        lemma_last_use_ge(steps, j, n - 1);
    }
}

/// If the step at position `p` consumes entry `j`, then the last use of `j`
/// is at or after `p`.
pub proof fn lemma_last_use_after(steps: Seq<ChainStep>, j: int, p: int, n: int)
    requires
        0 <= p < n <= steps.len(),
        consumes(steps[p], j),
    ensures
        last_use_upto(steps, j, n) >= p,
    decreases n,
{
    if consumes(steps[n - 1], j) {
    } else {
        lemma_last_use_after(steps, j, p, n - 1);
    }
}

/// One linear scan in definition order computes every entry's last use:
/// later consumptions overwrite earlier ones, so the value left at the end
/// of the scan is exactly the last consuming position.
pub fn compute_last_use(steps: &Vec<ChainStep>) -> (r: Vec<usize>)
    requires
        chain_wf(steps@),
    ensures
        r@.len() == steps@.len(),
        forall|j: int| 0 <= j < r@.len() ==> r@[j] == last_use(steps@, j),
{
    let n = steps.len();
    let mut r: Vec<usize> = Vec::new();
    for j in 0..n
        invariant
            r@.len() == j,
            forall|k: int| 0 <= k < j ==> r@[k] == k,
    {
        r.push(j);
    }
    for i in 0..n
        invariant
            n == steps@.len(),
            chain_wf(steps@),
            r@.len() == n,
            forall|k: int| 0 <= k < n ==> r@[k] == last_use_upto(steps@, k, i as int),
    {
        assert(step_in_bounds(steps@[i as int], i as int));
        match steps[i] {
            ChainStep::Double { index } => {
                r.set(index, i);
            },
            ChainStep::Add { left, right } => {
                r.set(left, i);
                r.set(right, i);
            },
        }
        assert forall|k: int| 0 <= k < n implies r@[k] == last_use_upto(
            steps@,
            k,
            i as int + 1,
        ) by {
            if !consumes(steps@[i as int], k) {
                assert(r@[k] == last_use_upto(steps@, k, i as int));
            }
        }
    }
    r
}

} // verus!
