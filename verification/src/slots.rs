//! Greedy slot allocation with stack-like reuse.
//!
//! Entries are assigned storage slots in definition order. Just before entry
//! `m` is assigned its slot, every entry whose last use lies at position
//! `m - 2` is reclaimed: position `m - 2` is the step that defined entry
//! `m - 1`, so by the time entry `m` is created those operands have been read
//! for the last time. Reclaimed slots go onto a stack and the most recently
//! freed slot is reused first; a fresh slot is created only when the stack is
//! empty. The whole allocation is described by the ghost model below, which
//! the executable allocator follows step for step.

use vstd::prelude::*;

verus! {

/// Ghost state of the allocator after some number of entries have been
/// assigned slots.
pub struct AllocState {
    /// The slot assigned to each entry processed so far, in entry order.
    pub slots: Seq<int>,
    /// The stack of slots that have been reclaimed and not yet reused.
    pub free: Seq<int>,
    /// The number of distinct slots created so far.
    pub n_slots: int,
}

/// A drop schedule is well formed when no entry is scheduled for
/// reclamation before its own index: an entry cannot be consumed by a step
/// that precedes its definition.
pub open spec fn schedule_wf(lu: Seq<int>) -> bool {
    forall|j: int| 0 <= j < lu.len() ==> j <= #[trigger] lu[j]
}

/// The slots of the entries scheduled to drop at position `pos`, among
/// entries `0..upto`, in increasing entry order.
pub open spec fn drops_at(slots: Seq<int>, lu: Seq<int>, pos: int, upto: int) -> Seq<int>
    decreases upto,
{
    if upto <= 0 {
        Seq::empty()
    } else if lu[upto - 1] == pos {
        drops_at(slots, lu, pos, upto - 1).push(slots[upto - 1])
    } else {
        drops_at(slots, lu, pos, upto - 1)
    }
}

/// The number of entries among `0..upto` whose last use lies at `pos`.
pub open spec fn drop_count(lu: Seq<int>, pos: int, upto: int) -> int
    decreases upto,
{
    if upto <= 0 {
        0
    } else {
        drop_count(lu, pos, upto - 1) + if lu[upto - 1] == pos {
            1int
        } else {
            0int
        }
    }
}

/// Return the reclaimed slots to the free stack.
pub open spec fn alloc_reclaim(st: AllocState, freed: Seq<int>) -> AllocState {
    AllocState { slots: st.slots, free: st.free + freed, n_slots: st.n_slots }
}

/// Assign a slot to the next entry: reuse the most recently freed slot if
/// one exists, otherwise create a new one.
pub open spec fn alloc_assign(st: AllocState) -> AllocState {
    if st.free.len() > 0 {
        AllocState {
            slots: st.slots.push(st.free.last()),
            free: st.free.drop_last(),
            n_slots: st.n_slots,
        }
    } else {
        AllocState { slots: st.slots.push(st.n_slots), free: st.free, n_slots: st.n_slots + 1 }
    }
}

/// The allocator state after the first `m` entries have been assigned
/// slots. The `m`-th assignment (entry `m - 1`) is preceded by reclaiming
/// every entry whose last use lies at position `m - 3 + 1 == m - 2`; for the
/// very first assignment no position has been processed yet and nothing is
/// reclaimed.
pub open spec fn alloc_state(lu: Seq<int>, m: int) -> AllocState
    decreases m,
{
    if m <= 0 {
        AllocState { slots: Seq::empty(), free: Seq::empty(), n_slots: 0 }
    } else {
        let prev = alloc_state(lu, m - 1);
        alloc_assign(alloc_reclaim(prev, drops_at(prev.slots, lu, m - 2, lu.len() as int)))
    }
}

/// Entry `j` occupies a slot at stage `m` (that is, once `m` entries have
/// been assigned slots): it has been assigned one (`j < m`) and has not yet
/// been reclaimed. An entry beyond the schedule (the final entry of the
/// chain) is never reclaimed.
pub open spec fn live_at(lu: Seq<int>, m: int, j: int) -> bool {
    0 <= j < m && (j >= lu.len() || lu[j] >= m - 1)
}

/// The number of live entries among `0..upto` at stage `m`.
pub open spec fn live_count_upto(lu: Seq<int>, m: int, upto: int) -> int
    decreases upto,
{
    if upto <= 0 {
        0
    } else {
        live_count_upto(lu, m, upto - 1) + if live_at(lu, m, upto - 1) {
            1int
        } else {
            0int
        }
    }
}

/// The number of entries whose liveness interval covers stage `m`.
pub open spec fn live_count(lu: Seq<int>, m: int) -> int {
    live_count_upto(lu, m, lu.len() as int + 1)
}

/// The largest number of simultaneously live entries at any stage up to `m`.
pub open spec fn max_live(lu: Seq<int>, m: int) -> int
    decreases m,
{
    if m <= 0 {
        0
    } else if live_count(lu, m) >= max_live(lu, m - 1) {
        live_count(lu, m)
    } else {
        max_live(lu, m - 1)
    }
}

/// Each assignment appends exactly one slot.
pub proof fn lemma_slots_len(lu: Seq<int>, m: int)
    requires
        0 <= m,
    ensures
        alloc_state(lu, m).slots.len() == m,
    decreases m,
{
    if m > 0 {
        lemma_slots_len(lu, m - 1);
    }
}

/// Later stages only extend the slot assignment: the slot an entry received
/// never changes afterwards.
pub proof fn lemma_slots_prefix(lu: Seq<int>, m1: int, m2: int)
    requires
        0 <= m1 <= m2,
    ensures
        forall|j: int|
            0 <= j < m1 ==> #[trigger] alloc_state(lu, m2).slots[j] == alloc_state(
                lu,
                m1,
            ).slots[j],
    decreases m2,
{
    if m2 > m1 {
        lemma_slots_prefix(lu, m1, m2 - 1);
        lemma_slots_len(lu, m2 - 1);
    }
}

/// The well-formedness of one allocator stage: slot values are in range,
/// slots of simultaneously live entries are pairwise distinct, the free
/// stack holds each reclaimed slot exactly once and nothing a live entry
/// still needs, and every created slot is either occupied or free.
pub open spec fn state_inv(lu: Seq<int>, m: int) -> bool {
    let st = alloc_state(lu, m);
    &&& st.slots.len() == m
    &&& 0 <= st.n_slots <= m
    &&& (forall|j: int| 0 <= j < m ==> 0 <= #[trigger] st.slots[j] < st.n_slots)
    &&& (forall|k: int| 0 <= k < st.free.len() ==> 0 <= #[trigger] st.free[k] < st.n_slots)
    &&& (forall|j1: int, j2: int|
        #![trigger live_at(lu, m, j1), live_at(lu, m, j2)]
        live_at(lu, m, j1) && live_at(lu, m, j2) && j1 != j2 ==> st.slots[j1] != st.slots[j2])
    &&& (forall|k: int, j: int|
        #![trigger st.free[k], live_at(lu, m, j)]
        0 <= k < st.free.len() && live_at(lu, m, j) ==> st.free[k] != st.slots[j])
    &&& (forall|k1: int, k2: int|
        #![trigger st.free[k1], st.free[k2]]
        0 <= k1 < k2 < st.free.len() ==> st.free[k1] != st.free[k2])
    &&& st.free.len() + live_count(lu, m) == st.n_slots
}

/// Nothing is scheduled to drop at a negative position.
pub proof fn lemma_drops_at_none(slots: Seq<int>, lu: Seq<int>, pos: int, upto: int)
    requires
        schedule_wf(lu),
        pos < 0,
        0 <= upto <= lu.len(),
    ensures
        drops_at(slots, lu, pos, upto) =~= Seq::<int>::empty(),
        drop_count(lu, pos, upto) == 0,
    decreases upto,
{
    if upto > 0 {
        lemma_drops_at_none(slots, lu, pos, upto - 1);
    }
}

/// Position `k` of the reclamation scan `d` holds the slot of some entry
/// among `0..upto` that dies at position `pos`.
pub open spec fn reclaimed_from(
    d: Seq<int>,
    slots: Seq<int>,
    lu: Seq<int>,
    pos: int,
    upto: int,
    k: int,
) -> bool {
    exists|j: int| #![trigger lu[j]] 0 <= j < upto && lu[j] == pos && d[k] == slots[j]
}

/// What the reclamation scan yields just before entry `m - 1` is assigned:
/// one slot per entry dying at position `m - 2`, each the slot that entry
/// held, pairwise distinct.
pub proof fn lemma_drops_props(lu: Seq<int>, m: int, upto: int)
    requires
        schedule_wf(lu),
        1 <= m,
        state_inv(lu, m - 1),
        0 <= upto <= lu.len(),
    ensures
        ({
            let prev = alloc_state(lu, m - 1);
            let d = drops_at(prev.slots, lu, m - 2, upto);
            &&& d.len() == drop_count(lu, m - 2, upto)
            &&& (forall|k: int|
                0 <= k < d.len() ==> #[trigger] reclaimed_from(
                    d,
                    prev.slots,
                    lu,
                    m - 2,
                    upto,
                    k,
                ))
            &&& (forall|k1: int, k2: int|
                #![trigger d[k1], d[k2]]
                0 <= k1 < k2 < d.len() ==> d[k1] != d[k2])
            &&& (forall|k: int| 0 <= k < d.len() ==> 0 <= #[trigger] d[k] < prev.n_slots)
        }),
    decreases upto,
{
    let prev = alloc_state(lu, m - 1);
    if upto > 0 {
        lemma_drops_props(lu, m, upto - 1);
        let d0 = drops_at(prev.slots, lu, m - 2, upto - 1);
        let d = drops_at(prev.slots, lu, m - 2, upto);
        if lu[upto - 1] == m - 2 {
            let j0 = upto - 1;
            assert(j0 <= lu[j0]);
            assert(live_at(lu, m - 1, j0));
            assert(d == d0.push(prev.slots[j0]));
            assert forall|k: int| 0 <= k < d.len() implies #[trigger] reclaimed_from(
                d,
                prev.slots,
                lu,
                m - 2,
                upto,
                k,
            ) by {
                if k < d0.len() {
                    assert(reclaimed_from(d0, prev.slots, lu, m - 2, upto - 1, k));
                    let jw = choose|j: int|
                        #![trigger lu[j]]
                        0 <= j < upto - 1 && lu[j] == m - 2 && d0[k] == prev.slots[j];
                    assert(0 <= jw < upto && lu[jw] == m - 2 && d[k] == prev.slots[jw]);
                } else {
                    assert(d[k] == prev.slots[j0]);
                    assert(0 <= j0 < upto && lu[j0] == m - 2);
                }
            }
            assert forall|k1: int, k2: int|
                #![trigger d[k1], d[k2]]
                0 <= k1 < k2 < d.len() implies d[k1] != d[k2] by {
                if k2 == d0.len() {
                    assert(reclaimed_from(d0, prev.slots, lu, m - 2, upto - 1, k1));
                    let jw = choose|j: int|
                        #![trigger lu[j]]
                        0 <= j < upto - 1 && lu[j] == m - 2 && d0[k1] == prev.slots[j];
                    assert(jw <= lu[jw]);
                    assert(live_at(lu, m - 1, jw));
                    assert(jw != j0);
                    assert(prev.slots[jw] != prev.slots[j0]);
                }
            }
        } else {
            assert(d == d0);
            assert forall|k: int| 0 <= k < d.len() implies #[trigger] reclaimed_from(
                d,
                prev.slots,
                lu,
                m - 2,
                upto,
                k,
            ) by {
                assert(reclaimed_from(d0, prev.slots, lu, m - 2, upto - 1, k));
                let jw = choose|j: int|
                    #![trigger lu[j]]
                    0 <= j < upto - 1 && lu[j] == m - 2 && d0[k] == prev.slots[j];
                assert(0 <= jw < upto && lu[jw] == m - 2 && d[k] == prev.slots[jw]);
            }
        }
    }
    let d = drops_at(prev.slots, lu, m - 2, upto);
    assert forall|k: int| 0 <= k < d.len() implies 0 <= #[trigger] d[k] < prev.n_slots by {
        assert(reclaimed_from(d, prev.slots, lu, m - 2, upto, k));
        let jw = choose|j: int|
            #![trigger lu[j]]
            0 <= j < upto && lu[j] == m - 2 && d[k] == prev.slots[j];
        assert(jw <= lu[jw]);
        assert(0 <= jw < m - 1);
    }
}

/// Counting live entries beyond the last candidate adds nothing.
pub proof fn lemma_live_count_stable(lu: Seq<int>, m: int, upto1: int, upto2: int)
    requires
        0 <= m <= upto1 <= upto2,
    ensures
        live_count_upto(lu, m, upto1) == live_count_upto(lu, m, upto2),
    decreases upto2,
{
    if upto2 > upto1 {
        lemma_live_count_stable(lu, m, upto1, upto2 - 1);
        assert(!live_at(lu, m, upto2 - 1));
    }
}

/// A count of live entries is a count: non-negative and at most the number
/// of candidates.
pub proof fn lemma_live_count_bounds(lu: Seq<int>, m: int, upto: int)
    requires
        0 <= upto,
    ensures
        0 <= live_count_upto(lu, m, upto) <= upto,
    decreases upto,
{
    if upto > 0 {
        lemma_live_count_bounds(lu, m, upto - 1);
    }
}

/// How the live count changes from one stage to the next, over a common
/// range of candidates: the newly assigned entry becomes live and the
/// entries dying at the newly completed position cease to be.
pub proof fn lemma_live_count_delta(lu: Seq<int>, m: int, upto: int)
    requires
        schedule_wf(lu),
        1 <= m,
        0 <= upto <= lu.len(),
    ensures
        live_count_upto(lu, m, upto) == live_count_upto(lu, m - 1, upto) + (if m - 1 < upto {
            1int
        } else {
            0int
        }) - drop_count(lu, m - 2, upto),
    decreases upto,
{
    if upto > 0 {
        lemma_live_count_delta(lu, m, upto - 1);
        let j = upto - 1;
        assert(j <= lu[j]);
        if j == m - 1 {
            assert(live_at(lu, m, j));
            assert(!live_at(lu, m - 1, j));
            assert(lu[j] != m - 2);
        }
    }
}

/// The live count after `m` assignments, relative to the stage before:
/// one new entry, minus those dying at the completed position.
pub proof fn lemma_live_count_step(lu: Seq<int>, m: int)
    requires
        schedule_wf(lu),
        1 <= m <= lu.len() + 1,
    ensures
        live_count(lu, m) == live_count(lu, m - 1) + 1 - drop_count(lu, m - 2, lu.len() as int),
{
    let n = lu.len() as int;
    lemma_live_count_delta(lu, m, n);
    if m == n + 1 {
        assert(live_at(lu, m, n));
        assert(!live_at(lu, m - 1, n));
    } else {
        assert(!live_at(lu, m, n));
        assert(!live_at(lu, m - 1, n));
    }
}

/// The allocator invariant holds at every stage.
pub proof fn lemma_state_inv(lu: Seq<int>, m: int)
    requires
        schedule_wf(lu),
        0 <= m <= lu.len() + 1,
    ensures
        state_inv(lu, m),
    decreases m,
{
    let n = lu.len() as int;
    if m == 0 {
        lemma_live_count_stable(lu, 0, 0, n + 1);
    } else {
        lemma_state_inv(lu, m - 1);
        lemma_drops_props(lu, m, n);
        lemma_live_count_step(lu, m);
        lemma_live_count_bounds(lu, m, n + 1);
        let prev = alloc_state(lu, m - 1);
        let d = drops_at(prev.slots, lu, m - 2, n);
        let mid = alloc_reclaim(prev, d);
        let st = alloc_state(lu, m);
        assert(st == alloc_assign(mid));

        // Entries dropped now were live a moment ago; entries live now were
        // live a moment ago as well and are not being dropped.
        assert forall|j: int| #![trigger live_at(lu, m, j)] live_at(lu, m, j) && j < m - 1 implies live_at(
            lu,
            m - 1,
            j,
        ) && (j < lu.len() ==> lu[j] != m - 2) by {}

        // The free stack after reclamation: in range, pairwise distinct, and
        // disjoint from the slots of entries still live.
        assert forall|k: int| #![trigger mid.free[k]] 0 <= k < mid.free.len() implies 0 <= mid.free[k]
            < prev.n_slots by {
            if k >= prev.free.len() {
                assert(reclaimed_from(d, prev.slots, lu, m - 2, n, k - prev.free.len()));
                let jw = choose|j: int|
                    #![trigger lu[j]]
                    0 <= j < n && lu[j] == m - 2 && d[k - prev.free.len()] == prev.slots[j];
                assert(jw <= lu[jw]);
                assert(0 <= jw < m - 1);
            }
        }
        assert forall|k: int, j: int|
            #![trigger mid.free[k], live_at(lu, m, j)]
            0 <= k < mid.free.len() && live_at(lu, m, j) && j < m - 1 implies mid.free[k]
            != prev.slots[j] by {
            assert(live_at(lu, m - 1, j));
            if k < prev.free.len() {
                assert(prev.free[k] != prev.slots[j]);
            } else {
                assert(reclaimed_from(d, prev.slots, lu, m - 2, n, k - prev.free.len()));
                let jw = choose|j2: int|
                    #![trigger lu[j2]]
                    0 <= j2 < n && lu[j2] == m - 2 && d[k - prev.free.len()] == prev.slots[j2];
                assert(jw <= lu[jw]);
                assert(live_at(lu, m - 1, jw));
                assert(jw != j);
                assert(prev.slots[jw] != prev.slots[j]);
            }
        }
        assert forall|k1: int, k2: int|
            #![trigger mid.free[k1], mid.free[k2]]
            0 <= k1 < k2 < mid.free.len() implies mid.free[k1] != mid.free[k2] by {
            if k1 < prev.free.len() && k2 >= prev.free.len() {
                assert(reclaimed_from(d, prev.slots, lu, m - 2, n, k2 - prev.free.len()));
                let jw = choose|j2: int|
                    #![trigger lu[j2]]
                    0 <= j2 < n && lu[j2] == m - 2 && d[k2 - prev.free.len()] == prev.slots[j2];
                assert(jw <= lu[jw]);
                assert(live_at(lu, m - 1, jw));
                assert(prev.free[k1] != prev.slots[jw]);
            }
        }

        // The newly assigned slot is distinct from everything still live.
        let s_new = st.slots[m - 1];
        assert(st.slots == prev.slots.push(s_new));
        assert forall|j: int| #![trigger live_at(lu, m, j)] live_at(lu, m, j) && j < m - 1 implies s_new
            != prev.slots[j] by {
            if mid.free.len() > 0 {
                assert(s_new == mid.free[mid.free.len() - 1]);
                assert(mid.free[mid.free.len() - 1] != prev.slots[j]);
            } else {
                assert(s_new == prev.n_slots);
            }
        }

        // Counting: the reclaimed slots match the entries that died.
        assert(d.len() == drop_count(lu, m - 2, n));
        assert(mid.free.len() == prev.free.len() + d.len());
        assert(live_count(lu, m) == live_count(lu, m - 1) + 1 - d.len());
        if mid.free.len() > 0 {
            assert(st.free == mid.free.drop_last());
            assert(st.n_slots == prev.n_slots);
            assert(st.free.len() + live_count(lu, m) == st.n_slots);
        } else {
            assert(prev.free.len() == 0 && d.len() == 0);
            assert(st.free.len() + live_count(lu, m) == st.n_slots);
        }

        assert forall|j1: int, j2: int|
            #![trigger live_at(lu, m, j1), live_at(lu, m, j2)]
            live_at(lu, m, j1) && live_at(lu, m, j2) && j1 != j2 implies st.slots[j1]
            != st.slots[j2] by {
            if j1 < m - 1 && j2 < m - 1 {
                assert(live_at(lu, m - 1, j1));
                assert(live_at(lu, m - 1, j2));
                assert(st.slots[j1] == prev.slots[j1]);
                assert(st.slots[j2] == prev.slots[j2]);
            } else if j1 == m - 1 {
                assert(st.slots[j2] == prev.slots[j2]);
                assert(s_new != prev.slots[j2]);
            } else {
                assert(st.slots[j1] == prev.slots[j1]);
                assert(s_new != prev.slots[j1]);
            }
        }

        assert forall|k: int, j: int|
            #![trigger st.free[k], live_at(lu, m, j)]
            0 <= k < st.free.len() && live_at(lu, m, j) implies st.free[k] != st.slots[j] by {
            assert(st.free[k] == mid.free[k]);
            if j < m - 1 {
                assert(mid.free[k] != prev.slots[j]);
            } else {
                // the assigned slot was popped off the stack, and the stack
                // held no duplicates
                assert(mid.free.len() > 0);
                assert(s_new == mid.free[mid.free.len() - 1]);
                assert(mid.free[k] != mid.free[mid.free.len() - 1]);
            }
        }
    }
}

/// Under the greedy policy the number of slots ever created never exceeds
/// the largest number of entries simultaneously live at any stage: a fresh
/// slot is only created when every existing slot is occupied.
pub proof fn lemma_n_slots_le_max_live(lu: Seq<int>, m: int)
    requires
        schedule_wf(lu),
        0 <= m <= lu.len() + 1,
    ensures
        alloc_state(lu, m).n_slots <= max_live(lu, m),
    decreases m,
{
    if m > 0 {
        lemma_n_slots_le_max_live(lu, m - 1);
        lemma_state_inv(lu, m - 1);
        lemma_state_inv(lu, m);
        lemma_drops_props(lu, m, lu.len() as int);
        let prev = alloc_state(lu, m - 1);
        let d = drops_at(prev.slots, lu, m - 2, lu.len() as int);
        let mid = alloc_reclaim(prev, d);
        let st = alloc_state(lu, m);
        assert(st == alloc_assign(mid));
        if mid.free.len() == 0 {
            assert(st.n_slots == st.free.len() + live_count(lu, m));
        }
    }
}

/// Slot `s` is assigned to one of the first `k` entries.
pub open spec fn covered(slots: Seq<int>, k: int, s: int) -> bool {
    exists|j: int| 0 <= j < k && #[trigger] slots[j] == s
}

/// Every slot created so far has been assigned to some entry: fresh slots
/// are handed out in numeric order, each at the moment it is created.
pub proof fn lemma_slot_coverage(lu: Seq<int>, m: int)
    requires
        schedule_wf(lu),
        0 <= m <= lu.len() + 1,
    ensures
        forall|s: int|
            0 <= s < alloc_state(lu, m).n_slots ==> #[trigger] covered(
                alloc_state(lu, m).slots,
                m,
                s,
            ),
    decreases m,
{
    if m > 0 {
        lemma_slot_coverage(lu, m - 1);
        lemma_state_inv(lu, m - 1);
        lemma_state_inv(lu, m);
        let prev = alloc_state(lu, m - 1);
        let st = alloc_state(lu, m);
        assert(st.slots == prev.slots.push(st.slots[m - 1]));
        assert forall|s: int| 0 <= s < st.n_slots implies #[trigger] covered(st.slots, m, s) by {
            if s < prev.n_slots {
                assert(covered(prev.slots, m - 1, s));
                let jw = choose|j: int| 0 <= j < m - 1 && #[trigger] prev.slots[j] == s;
                assert(st.slots[jw] == s);
            } else {
                assert(st.slots[m - 1] == s);
            }
        }
    }
}

/// The number of simultaneously live entries never exceeds the number of
/// entries assigned so far.
pub proof fn lemma_max_live_le(lu: Seq<int>, m: int)
    requires
        0 <= m <= lu.len() + 1,
    ensures
        max_live(lu, m) <= m,
    decreases m,
{
    if m > 0 {
        lemma_max_live_le(lu, m - 1);
        lemma_live_count_stable(lu, m, m, lu.len() as int + 1);
        lemma_live_count_bounds(lu, m, m);
    }
}

/// The last-use schedule of a chain, as mathematical integers.
pub open spec fn int_seq(s: Seq<usize>) -> Seq<int> {
    Seq::new(s.len(), |j: int| s[j] as int)
}

/// Assign a reusable storage slot to every chain entry, following the ghost
/// model stage by stage, and report how many distinct slots were created.
pub fn allocate_slots(last_use: &Vec<usize>) -> (r: (Vec<usize>, usize))
    requires
        forall|j: int| 0 <= j < last_use@.len() ==> j <= #[trigger] last_use@[j],
        last_use@.len() < usize::MAX,
    ensures
        r.0@.len() == last_use@.len() + 1,
        forall|j: int|
            0 <= j < r.0@.len() ==> #[trigger] r.0@[j] as int == alloc_state(
                int_seq(last_use@),
                last_use@.len() as int + 1,
            ).slots[j],
        r.1 as int == alloc_state(int_seq(last_use@), last_use@.len() as int + 1).n_slots,
{
    let n = last_use.len();
    let ghost lu: Seq<int> = int_seq(last_use@);
    proof {
        assert(schedule_wf(lu));
    }
    let mut slots: Vec<usize> = Vec::new();
    let mut free_list: Vec<usize> = Vec::new();
    let mut n_slots: usize = 0;
    let mut m: usize = 0;
    while m <= n
        invariant
            n == last_use@.len(),
            n < usize::MAX,
            lu == int_seq(last_use@),
            schedule_wf(lu),
            m <= n + 1,
            slots@.len() == m,
            forall|j: int|
                0 <= j < m ==> #[trigger] slots@[j] as int == alloc_state(lu, m as int).slots[j],
            free_list@.len() == alloc_state(lu, m as int).free.len(),
            forall|k: int|
                0 <= k < free_list@.len() ==> #[trigger] free_list@[k] as int == alloc_state(
                    lu,
                    m as int,
                ).free[k],
            n_slots as int == alloc_state(lu, m as int).n_slots,
        decreases n - m + 1,
    {
        let ghost prev = alloc_state(lu, m as int);
        let ghost d = drops_at(prev.slots, lu, m as int - 1, n as int);
        proof {
            lemma_state_inv(lu, m as int);
            lemma_state_inv(lu, m as int + 1);
            lemma_drops_props(lu, m as int + 1, n as int);
            assert(alloc_state(lu, m as int + 1) == alloc_assign(alloc_reclaim(prev, d)));
        }
        // Reclaim every entry whose last use lies at the position that
        // defined the most recent entry; before any step has been emitted
        // there is nothing to reclaim.
        if m == 0 {
            proof {
                lemma_drops_at_none(prev.slots, lu, -1, n as int);
                assert(prev.free + d =~= prev.free);
            }
        } else {
            let pos = m - 1;
            let mut j: usize = 0;
            while j < n
                invariant
                    n == last_use@.len(),
                    lu == int_seq(last_use@),
                    schedule_wf(lu),
                    1 <= m <= n,
                    pos == m - 1,
                    j <= n,
                    prev == alloc_state(lu, m as int),
                    state_inv(lu, m as int),
                    slots@.len() == m,
                    forall|i: int| 0 <= i < m ==> #[trigger] slots@[i] as int == prev.slots[i],
                    free_list@.len() == prev.free.len() + drops_at(
                        prev.slots,
                        lu,
                        pos as int,
                        j as int,
                    ).len(),
                    forall|k: int|
                        0 <= k < free_list@.len() ==> #[trigger] free_list@[k] as int == (prev.free
                            + drops_at(prev.slots, lu, pos as int, j as int))[k],
                decreases n - j,
            {
                if last_use[j] == pos {
                    proof {
                        assert(lu[j as int] == pos as int);
                        assert(j as int <= lu[j as int]);
                    }
                    let s = slots[j];
                    free_list.push(s);
                }
                j += 1;
            }
            proof {
                assert(d == drops_at(prev.slots, lu, pos as int, n as int));
            }
        }
        // Assign a slot to the next entry: pop the most recently freed slot,
        // or create a fresh one when none is free.
        let ghost mid = alloc_reclaim(prev, d);
        proof {
            assert(free_list@.len() == mid.free.len());
            assert(forall|k: int|
                0 <= k < free_list@.len() ==> #[trigger] free_list@[k] as int == mid.free[k]);
        }
        let s: usize;
        if free_list.len() > 0 {
            s = free_list.pop().unwrap();
        } else {
            s = n_slots;
            n_slots = n_slots + 1;
        }
        slots.push(s);
        m = m + 1;
        proof {
            let st = alloc_state(lu, m as int);
            assert(st == alloc_assign(mid));
            assert(st.slots == prev.slots.push(st.slots[m as int - 1]));
            assert(slots@[m as int - 1] as int == st.slots[m as int - 1]);
        }
    }
    (slots, n_slots)
}

} // verus!
