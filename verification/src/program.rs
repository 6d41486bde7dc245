//! The synthesized program: an ordered sequence of instructions over
//! storage slots, together with the slot that holds the final power.

use vstd::prelude::*;

verus! {

/// One instruction of a synthesized program. The base value itself is
/// threaded in by the renderer: `Init` copies it into a slot, and the two
/// arithmetic instructions work on slots alone.
#[derive(Clone, Copy, Debug, PartialEq, Eq, Structural)]
pub enum Instruction {
    /// The slot `out` receives a copy of the base value.
    Init { out: usize },
    /// The slot `out` receives the square of the value in `input`.
    Square { out: usize, input: usize },
    /// The slot `out` receives the product of the values in `left` and
    /// `right`.
    Multiply { out: usize, left: usize, right: usize },
}

/// A synthesized program: the instructions in execution order, the slot
/// holding the overall result once they have all run, and the number of
/// distinct slots the instructions use.
#[derive(Debug, PartialEq, Eq)]
pub struct Program {
    pub instructions: Vec<Instruction>,
    pub result_slot: usize,
    pub n_slots: usize,
}

/// The slot an instruction writes.
pub open spec fn inst_out(inst: Instruction) -> int {
    match inst {
        Instruction::Init { out } => out as int,
        Instruction::Square { out, .. } => out as int,
        Instruction::Multiply { out, .. } => out as int,
    }
}

/// Whether an instruction reads slot `s`.
pub open spec fn inst_reads(inst: Instruction, s: int) -> bool {
    match inst {
        Instruction::Init { .. } => false,
        Instruction::Square { input, .. } => input == s,
        Instruction::Multiply { left, right, .. } => left == s || right == s,
    }
}

/// Slot `s` is written by one of the first `k` instructions.
pub open spec fn slot_written_before(insts: Seq<Instruction>, k: int, s: int) -> bool {
    exists|q: int| 0 <= q < k && #[trigger] inst_out(insts[q]) == s
}

/// Every slot an instruction reads was written by a strictly earlier
/// instruction of the same program.
pub open spec fn reads_are_prior_writes(insts: Seq<Instruction>) -> bool {
    forall|k: int, s: int|
        0 <= k < insts.len() && #[trigger] inst_reads(insts[k], s) ==> slot_written_before(
            insts,
            k,
            s,
        )
}

/// The arithmetic interpretation of one instruction, mapping each written
/// slot to the exponent (relative to the base) of the value it holds:
/// `Init` stores the base, exponent 1; squaring doubles the exponent; a
/// product sums the exponents of its factors.
pub open spec fn interp_inst(state: Map<int, nat>, inst: Instruction) -> Map<int, nat> {
    match inst {
        Instruction::Init { out } => state.insert(out as int, 1),
        Instruction::Square { out, input } => state.insert(out as int, 2 * state[input as int]),
        Instruction::Multiply { out, left, right } => state.insert(
            out as int,
            state[left as int] + state[right as int],
        ),
    }
}

/// The slot contents, as exponents of the base, after the first `k`
/// instructions have run.
pub open spec fn interp_prefix(insts: Seq<Instruction>, k: int) -> Map<int, nat>
    decreases k,
{
    if k <= 0 {
        Map::empty()
    } else {
        interp_inst(interp_prefix(insts, k - 1), insts[k - 1])
    }
}

} // verus!
