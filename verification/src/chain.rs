//! Addition chains: the input consumed by the synthesizer.
//!
//! A chain of length `N` describes `N + 1` entries, numbered `0..=N`.
//! Entry `0` is implicit and stands for the base value itself (exponent
//! value 1). The step at position `n` (for `n < N`) defines entry `n + 1`
//! and may only reference entries `0..=n`, so the chain forms a DAG whose
//! references point strictly backward.

use vstd::prelude::*;

verus! {

/// One step of an addition chain. The step at position `n` defines entry
/// `n + 1` of the chain.
#[derive(Clone, Copy, Debug, PartialEq, Eq, Structural)]
pub enum ChainStep {
    /// Entry `n + 1` holds twice the exponent value of entry `index`.
    Double { index: usize },
    /// Entry `n + 1` holds the sum of the exponent values of entries
    /// `left` and `right`.
    Add { left: usize, right: usize },
}

/// The step at position `n` references only entries that are already
/// defined at that point, namely entries `0..=n`.
pub open spec fn step_in_bounds(step: ChainStep, n: int) -> bool {
    match step {
        ChainStep::Double { index } => index <= n,
        ChainStep::Add { left, right } => left <= n && right <= n,
    }
}

/// A well-formed chain: every reference points strictly backward, so the
/// entries form a DAG with entry 0 as its unique source.
pub open spec fn chain_wf(steps: Seq<ChainStep>) -> bool {
    forall|n: int| 0 <= n < steps.len() ==> step_in_bounds(steps[n], n)
}

/// The exponent value represented by entry `i` of the chain: entry 0 is the
/// base itself (value 1), a `Double` step doubles the value of the entry it
/// references, and an `Add` step sums the values of its two operands.
pub open spec fn entry_value(steps: Seq<ChainStep>, i: int) -> nat
    decreases i,
{
    if i <= 0 || i > steps.len() {
        1
    } else {
        match steps[i - 1] {
            ChainStep::Double { index } => {
                if index < i {
                    2 * entry_value(steps, index as int)
                } else {
                    0
                }
            },
            ChainStep::Add { left, right } => {
                (if left < i {
                    entry_value(steps, left as int)
                } else {
                    0
                }) + (if right < i {
                    entry_value(steps, right as int)
                } else {
                    0
                })
            },
        }
    }
}

/// Runtime check of the chain invariant, for callers that receive a chain
/// from an unverified provider.
pub fn chain_is_wf(steps: &Vec<ChainStep>) -> (b: bool)
    ensures
        b == chain_wf(steps@),
{
    let n = steps.len();
    for i in 0..n
        invariant
            n == steps@.len(),
            forall|k: int| 0 <= k < i ==> step_in_bounds(steps@[k], k),
    {
        let ok = match steps[i] {
            ChainStep::Double { index } => index <= i,
            ChainStep::Add { left, right } => left <= i && right <= i,
        };
        if !ok {
            assert(!step_in_bounds(steps@[i as int], i as int));
            return false;
        }
    }
    true
}

} // verus!
