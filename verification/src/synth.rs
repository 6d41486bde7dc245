//! The synthesizer: liveness analysis, slot allocation, and instruction
//! emission, run as a strict three-phase pipeline. The emitted program is
//! pinned down exactly by a specification-level model, so synthesis is a
//! pure function of the chain.

use vstd::prelude::*;

use crate::chain::{chain_wf, entry_value, step_in_bounds, ChainStep};
use crate::liveness::{
    compute_last_use, consumes, last_use, last_use_seq, lemma_last_use_after, lemma_last_use_ge,
};
use crate::program::{
    inst_out, inst_reads, interp_inst, interp_prefix, reads_are_prior_writes, slot_written_before,
    Instruction, Program,
};
use crate::slots::{
    alloc_assign, alloc_reclaim, alloc_state, allocate_slots, covered, drops_at, int_seq,
    lemma_drops_props,
    lemma_max_live_le, lemma_n_slots_le_max_live, lemma_slot_coverage, lemma_slots_len,
    lemma_slots_prefix, lemma_state_inv, live_at, max_live, schedule_wf,
};

verus! {

/// The slot the synthesizer assigns to entry `j` of the chain.
pub open spec fn slot_spec(steps: Seq<ChainStep>, j: int) -> int {
    alloc_state(last_use_seq(steps), steps.len() as int + 1).slots[j]
}

/// The number of distinct slots the synthesizer creates for the chain.
pub open spec fn n_slots_spec(steps: Seq<ChainStep>) -> int {
    alloc_state(last_use_seq(steps), steps.len() as int + 1).n_slots
}

/// The slot that holds the final power once the program has run: the slot
/// of the chain's last entry.
pub open spec fn result_slot_spec(steps: Seq<ChainStep>) -> int {
    slot_spec(steps, steps.len() as int)
}

/// The instruction emitted for entry `k`: entry 0 is initialized from the
/// base, and every later entry is computed by the operation of the step
/// that defines it, reading the slots of its operands.
pub open spec fn instruction_spec(steps: Seq<ChainStep>, k: int) -> Instruction {
    if k <= 0 {
        Instruction::Init { out: slot_spec(steps, 0) as usize }
    } else {
        match steps[k - 1] {
            ChainStep::Double { index } => Instruction::Square {
                out: slot_spec(steps, k) as usize,
                input: slot_spec(steps, index as int) as usize,
            },
            ChainStep::Add { left, right } => Instruction::Multiply {
                out: slot_spec(steps, k) as usize,
                left: slot_spec(steps, left as int) as usize,
                right: slot_spec(steps, right as int) as usize,
            },
        }
    }
}

/// The whole synthesized program, one instruction per chain entry.
pub open spec fn program_spec(steps: Seq<ChainStep>) -> Seq<Instruction> {
    Seq::new(steps.len() + 1, |k: int| instruction_spec(steps, k))
}

/// The last-use schedule of a well-formed chain is a well-formed drop
/// schedule: no entry dies before it is defined.
pub proof fn lemma_schedule_wf(steps: Seq<ChainStep>)
    requires
        chain_wf(steps),
    ensures
        schedule_wf(last_use_seq(steps)),
{
    assert forall|j: int| 0 <= j < last_use_seq(steps).len() implies j <= #[trigger] last_use_seq(
        steps,
    )[j] by {
        lemma_last_use_ge(steps, j, steps.len() as int);
    }
}

/// Slots are numbered densely from zero: every slot of the program lies
/// below the total count, which itself never exceeds the number of entries.
pub proof fn lemma_slot_spec_bounds(steps: Seq<ChainStep>)
    requires
        chain_wf(steps),
    ensures
        forall|j: int|
            0 <= j <= steps.len() ==> 0 <= #[trigger] slot_spec(steps, j) < n_slots_spec(steps),
        n_slots_spec(steps) <= steps.len() + 1,
{
    lemma_schedule_wf(steps);
    lemma_state_inv(last_use_seq(steps), steps.len() as int + 1);
}

/// Dependency ordering: every slot an instruction of the synthesized
/// program reads was written by a strictly earlier instruction.
pub proof fn lemma_program_reads_prior_writes(steps: Seq<ChainStep>)
    requires
        chain_wf(steps),
    ensures
        reads_are_prior_writes(program_spec(steps)),
{
    let p = program_spec(steps);
    assert forall|k: int, s: int|
        0 <= k < p.len() && #[trigger] inst_reads(p[k], s) implies slot_written_before(
        p,
        k,
        s,
    ) by {
        if k >= 1 {
            assert(step_in_bounds(steps[k - 1], k - 1));
            match steps[k - 1] {
                ChainStep::Double { index } => {
                    assert(0 <= index < k);
                    assert(inst_out(p[index as int]) == s);
                },
                ChainStep::Add { left, right } => {
                    if s == slot_spec(steps, left as int) as usize as int {
                        assert(inst_out(p[left as int]) == s);
                    } else {
                        assert(inst_out(p[right as int]) == s);
                    }
                },
            }
        }
    }
}

/// Slots are handed out in first-use order: whenever an instruction writes
/// slot `s`, every slot numbered below `s` was written by an earlier
/// instruction of the program. A renderer may therefore declare a slot at
/// its first write, which happens exactly when the slot number equals the
/// count of slots declared so far.
pub proof fn lemma_slots_first_use_dense(steps: Seq<ChainStep>)
    requires
        chain_wf(steps),
        steps.len() < usize::MAX,
    ensures
        forall|k: int, s: int|
            0 <= k < program_spec(steps).len() && 0 <= s < inst_out(program_spec(steps)[k])
                ==> #[trigger] slot_written_before(program_spec(steps), k, s),
{
    let lu = last_use_seq(steps);
    let p = program_spec(steps);
    let n = steps.len() as int;
    lemma_schedule_wf(steps);
    lemma_slot_spec_bounds(steps);
    assert forall|k: int| 0 <= k <= n implies #[trigger] inst_out(p[k]) == slot_spec(steps, k) by {
        assert(p[k] == instruction_spec(steps, k));
        assert(0 <= slot_spec(steps, k) < n_slots_spec(steps));
    }
    assert forall|k: int, s: int|
        0 <= k < p.len() && 0 <= s < inst_out(p[k]) implies #[trigger] slot_written_before(
        p,
        k,
        s,
    ) by {
        lemma_state_inv(lu, k);
        lemma_state_inv(lu, k + 1);
        lemma_slots_len(lu, k + 1);
        lemma_slot_coverage(lu, k);
        lemma_slots_prefix(lu, k + 1, n + 1);
        lemma_drops_props(lu, k + 1, n);
        let prev = alloc_state(lu, k);
        let st = alloc_state(lu, k + 1);
        let d = drops_at(prev.slots, lu, k - 1, n);
        let mid = alloc_reclaim(prev, d);
        assert(st == alloc_assign(mid));
        assert(slot_spec(steps, k) == st.slots[k]);
        // The newly written slot lies at or below the count of slots that
        // existed before this assignment, so everything under it was
        // already assigned and written.
        if mid.free.len() > 0 {
            let li = mid.free.len() - 1;
            assert(st.slots[k] == mid.free[li as int]);
            if li < prev.free.len() {
                assert(mid.free[li as int] == prev.free[li as int]);
            } else {
                assert(mid.free[li as int] == d[li - prev.free.len()]);
            }
            assert(0 <= st.slots[k] < prev.n_slots);
        } else {
            assert(st.slots[k] == prev.n_slots);
        }
        assert(s < prev.n_slots);
        assert(covered(prev.slots, k, s));
        let jw = choose|j: int| 0 <= j < k && #[trigger] prev.slots[j] == s;
        assert(slot_spec(steps, jw) == prev.slots[jw]);
        assert(inst_out(p[jw]) == s);
    }
}

/// After the first `k` instructions have run, every entry whose slot the
/// allocator still considers occupied holds exactly its exponent value:
/// a slot is only ever reused once its previous occupant is dead.
proof fn lemma_interp_live(steps: Seq<ChainStep>, k: int)
    requires
        chain_wf(steps),
        steps.len() < usize::MAX,
        1 <= k <= steps.len() + 1,
    ensures
        forall|j: int|
            #[trigger] live_at(last_use_seq(steps), k, j) ==> interp_prefix(
                program_spec(steps),
                k,
            ).dom().contains(slot_spec(steps, j)) && interp_prefix(program_spec(steps), k)[
                slot_spec(steps, j)] == entry_value(steps, j),
    decreases k,
{
    let lu = last_use_seq(steps);
    let p = program_spec(steps);
    let n = steps.len() as int;
    lemma_schedule_wf(steps);
    lemma_slot_spec_bounds(steps);
    lemma_state_inv(lu, k);
    lemma_slots_len(lu, k);
    lemma_slots_prefix(lu, k, n + 1);
    assert forall|j: int| 0 <= j <= n implies (#[trigger] slot_spec(steps, j) as usize) as int
        == slot_spec(steps, j) by {
        assert(0 <= slot_spec(steps, j) < n_slots_spec(steps));
    }
    let st = interp_prefix(p, k);
    if k == 1 {
        assert(p[0] == instruction_spec(steps, 0));
        assert(interp_prefix(p, 0) == Map::<int, nat>::empty());
        assert(st == interp_inst(Map::<int, nat>::empty(), p[0]));
        assert forall|j: int| #[trigger] live_at(lu, k, j) implies st.dom().contains(
            slot_spec(steps, j),
        ) && st[slot_spec(steps, j)] == entry_value(steps, j) by {
            assert(j == 0);
            assert(entry_value(steps, 0) == 1);
        }
    } else {
        lemma_interp_live(steps, k - 1);
        let prevst = interp_prefix(p, k - 1);
        let e = k - 1;
        assert(p[e] == instruction_spec(steps, e));
        assert(st == interp_inst(prevst, p[e]));
        assert(step_in_bounds(steps[e - 1], e - 1));
        assert(e >= lu.len() || lu[e] >= e);
        assert(live_at(lu, k, e));
        match steps[e - 1] {
            ChainStep::Double { index } => {
                let idx = index as int;
                assert(consumes(steps[e - 1], idx));
                lemma_last_use_after(steps, idx, e - 1, n);
                assert(lu[idx] == last_use(steps, idx));
                assert(live_at(lu, k - 1, idx));
                assert(prevst[slot_spec(steps, idx)] == entry_value(steps, idx));
                assert(st[slot_spec(steps, e)] == 2 * entry_value(steps, idx));
                assert(entry_value(steps, e) == 2 * entry_value(steps, idx));
            },
            ChainStep::Add { left, right } => {
                let l = left as int;
                let r = right as int;
                assert(consumes(steps[e - 1], l) && consumes(steps[e - 1], r));
                lemma_last_use_after(steps, l, e - 1, n);
                lemma_last_use_after(steps, r, e - 1, n);
                assert(lu[l] == last_use(steps, l) && lu[r] == last_use(steps, r));
                assert(live_at(lu, k - 1, l) && live_at(lu, k - 1, r));
                assert(prevst[slot_spec(steps, l)] == entry_value(steps, l));
                assert(prevst[slot_spec(steps, r)] == entry_value(steps, r));
                assert(st[slot_spec(steps, e)] == entry_value(steps, l) + entry_value(steps, r));
                assert(entry_value(steps, e) == entry_value(steps, l) + entry_value(steps, r));
            },
        }
        assert forall|j: int| #[trigger] live_at(lu, k, j) implies st.dom().contains(
            slot_spec(steps, j),
        ) && st[slot_spec(steps, j)] == entry_value(steps, j) by {
            if j != e {
                assert(j < e);
                assert(live_at(lu, k - 1, j));
                assert(alloc_state(lu, k).slots[j] != alloc_state(lu, k).slots[e]);
                assert(slot_spec(steps, j) != slot_spec(steps, e));
                assert(st[slot_spec(steps, j)] == prevst[slot_spec(steps, j)]);
            }
        }
    }
}

/// Round-trip semantics: running the whole synthesized program under the
/// arithmetic interpretation leaves, in the result slot, the base raised to
/// exactly the exponent value of the chain's last entry.
pub proof fn lemma_program_computes_chain_value(steps: Seq<ChainStep>)
    requires
        chain_wf(steps),
        steps.len() < usize::MAX,
    ensures
        ({
            let end = interp_prefix(program_spec(steps), steps.len() as int + 1);
            &&& end.dom().contains(result_slot_spec(steps))
            &&& end[result_slot_spec(steps)] == entry_value(steps, steps.len() as int)
        }),
{
    let lu = last_use_seq(steps);
    let n = steps.len() as int;
    lemma_interp_live(steps, n + 1);
    assert(live_at(lu, n + 1, n));
}

/// Determinism: the synthesized program is a function of the chain alone.
/// Any two programs that satisfy `synthesize`'s contract for the same
/// chain are identical, so repeated synthesis always reproduces the same
/// instructions, result slot, and slot count.
pub proof fn lemma_synthesis_deterministic(steps: Seq<ChainStep>, p1: Program, p2: Program)
    requires
        p1.instructions@ == program_spec(steps),
        p2.instructions@ == program_spec(steps),
        p1.result_slot as int == result_slot_spec(steps),
        p2.result_slot as int == result_slot_spec(steps),
        p1.n_slots as int == n_slots_spec(steps),
        p2.n_slots as int == n_slots_spec(steps),
    ensures
        p1.instructions@ == p2.instructions@,
        p1.result_slot == p2.result_slot,
        p1.n_slots == p2.n_slots,
{
}

/// Emit the program: one `Init` for the base entry, then one `Square` or
/// `Multiply` per chain step, in chain order, reading and writing the
/// assigned slots.
pub fn emit(steps: &Vec<ChainStep>, slot_of: &Vec<usize>) -> (insts: Vec<Instruction>)
    requires
        chain_wf(steps@),
        slot_of@.len() == steps@.len() + 1,
        forall|j: int|
            0 <= j < slot_of@.len() ==> #[trigger] slot_of@[j] as int == slot_spec(steps@, j),
    ensures
        insts@ == program_spec(steps@),
{
    let n = steps.len();
    let mut insts: Vec<Instruction> = Vec::new();
    insts.push(Instruction::Init { out: slot_of[0] });
    proof {
        assert(insts@[0] == instruction_spec(steps@, 0));
    }
    let mut i: usize = 0;
    while i < n
        invariant
            n == steps@.len(),
            chain_wf(steps@),
            slot_of@.len() == n + 1,
            forall|j: int|
                0 <= j < slot_of@.len() ==> #[trigger] slot_of@[j] as int == slot_spec(steps@, j),
            i <= n,
            insts@.len() == i + 1,
            forall|k: int| 0 <= k < insts@.len() ==> #[trigger] insts@[k] == instruction_spec(
                steps@,
                k,
            ),
        decreases n - i,
    {
        assert(step_in_bounds(steps@[i as int], i as int));
        let inst = match steps[i] {
            ChainStep::Double { index } => Instruction::Square {
                out: slot_of[i + 1],
                input: slot_of[index],
            },
            ChainStep::Add { left, right } => Instruction::Multiply {
                out: slot_of[i + 1],
                left: slot_of[left],
                right: slot_of[right],
            },
        };
        insts.push(inst);
        proof {
            assert(insts@[i as int + 1] == instruction_spec(steps@, i as int + 1));
        }
        i += 1;
    }
    proof {
        assert(insts@ =~= program_spec(steps@));
    }
    insts
}

/// Synthesize the power program for an addition chain.
///
/// The contract pins the output down completely: the program is a function
/// of the chain alone, so repeated synthesis of the same chain yields the
/// identical program (determinism). The remaining clauses state the
/// structural laws: one `Init` followed by one `Square` or `Multiply` per
/// chain step in chain order (completeness); every slot read was written by
/// an earlier instruction (dependency ordering); the slot count is bounded
/// by the number of entries and by the peak number of simultaneously live
/// entries (minimality under the greedy reuse policy); and running the
/// program under the arithmetic interpretation leaves the exponent value of
/// the chain's last entry in the result slot (round-trip semantics).
pub fn synthesize(steps: &Vec<ChainStep>) -> (p: Program)
    requires
        chain_wf(steps@),
        steps@.len() < usize::MAX,
    ensures
        p.instructions@ == program_spec(steps@),
        p.result_slot as int == result_slot_spec(steps@),
        p.n_slots as int == n_slots_spec(steps@),
        p.instructions@.len() == steps@.len() + 1,
        p.instructions@[0] is Init,
        forall|k: int|
            1 <= k < p.instructions@.len() ==> (#[trigger] p.instructions@[k] is Square <==> steps@[
                k - 1] is Double),
        forall|k: int|
            1 <= k < p.instructions@.len() ==> (#[trigger] p.instructions@[k] is Multiply
                <==> steps@[k - 1] is Add),
        reads_are_prior_writes(p.instructions@),
        forall|k: int, s: int|
            0 <= k < p.instructions@.len() && 0 <= s < inst_out(p.instructions@[k])
                ==> #[trigger] slot_written_before(p.instructions@, k, s),
        p.n_slots <= steps@.len() + 1,
        p.n_slots as int <= max_live(last_use_seq(steps@), steps@.len() as int + 1),
        interp_prefix(p.instructions@, p.instructions@.len() as int).dom().contains(
            p.result_slot as int,
        ),
        interp_prefix(p.instructions@, p.instructions@.len() as int)[p.result_slot as int]
            == entry_value(steps@, steps@.len() as int),
{
    let last_used = compute_last_use(steps);
    proof {
        lemma_schedule_wf(steps@);
        assert(int_seq(last_used@) =~= last_use_seq(steps@));
        assert forall|j: int| 0 <= j < last_used@.len() implies j <= #[trigger] last_used@[j] by {
            lemma_last_use_ge(steps@, j, steps@.len() as int);
        }
    }
    let (slot_of, n_slots) = allocate_slots(&last_used);
    let instructions = emit(steps, &slot_of);
    let result_slot = slot_of[steps.len()];
    proof {
        lemma_program_reads_prior_writes(steps@);
        lemma_slots_first_use_dense(steps@);
        lemma_slot_spec_bounds(steps@);
        lemma_n_slots_le_max_live(last_use_seq(steps@), steps@.len() as int + 1);
        lemma_max_live_le(last_use_seq(steps@), steps@.len() as int + 1);
        lemma_program_computes_chain_value(steps@);
        let n = steps@.len() as int;
        assert(result_slot as int == result_slot_spec(steps@));
        assert((result_slot_spec(steps@) as usize) as int == result_slot_spec(steps@));
        assert forall|k: int| 1 <= k < program_spec(steps@).len() implies (
        #[trigger] program_spec(steps@)[k] is Square <==> steps@[k - 1] is Double) && (program_spec(
            steps@,
        )[k] is Multiply <==> steps@[k - 1] is Add) by {
            assert(program_spec(steps@)[k] == instruction_spec(steps@, k));
        }
    }
    Program { instructions, result_slot, n_slots }
}

} // verus!
