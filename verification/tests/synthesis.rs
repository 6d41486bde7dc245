use pow_fixed::chain_is_wf;
use pow_fixed::liveness::compute_last_use;
use pow_fixed::slots::allocate_slots;
use pow_fixed::synthesize;
use pow_fixed::ChainStep;
use pow_fixed::Instruction;

/// Interpret a program arithmetically over a concrete base, returning the
/// value left in the result slot.
fn run_program(program: &pow_fixed::Program, base: u128) -> u128 {
    let mut slots = vec![0u128; program.n_slots];
    for inst in program.instructions.iter() {
        match *inst {
            Instruction::Init { out } => slots[out] = base,
            Instruction::Square { out, input } => slots[out] = slots[input] * slots[input],
            Instruction::Multiply { out, left, right } => {
                slots[out] = slots[left] * slots[right]
            }
        }
    }
    slots[program.result_slot]
}

#[test]
fn exponent_one_yields_single_init() {
    let steps: Vec<ChainStep> = vec![];
    let p = synthesize(&steps);
    assert_eq!(p.instructions, vec![Instruction::Init { out: 0 }]);
    assert_eq!(p.result_slot, 0);
    assert_eq!(p.n_slots, 1);
    assert_eq!(run_program(&p, 7), 7);
}

#[test]
fn exponent_two_squares_in_place() {
    let steps = vec![ChainStep::Double { index: 0 }];
    let p = synthesize(&steps);
    assert_eq!(
        p.instructions,
        vec![
            Instruction::Init { out: 0 },
            Instruction::Square { out: 0, input: 0 },
        ]
    );
    assert_eq!(p.result_slot, 0);
    assert_eq!(p.n_slots, 1);
    assert_eq!(run_program(&p, 7), 49);
}

#[test]
fn exponent_three_keeps_base_alive() {
    let steps = vec![
        ChainStep::Double { index: 0 },
        ChainStep::Add { left: 0, right: 1 },
    ];
    let p = synthesize(&steps);
    // The base's slot must still be live when the multiply executes: its
    // last use is the Add step, so the square lands in a second slot.
    assert_eq!(
        p.instructions,
        vec![
            Instruction::Init { out: 0 },
            Instruction::Square { out: 1, input: 0 },
            Instruction::Multiply {
                out: 1,
                left: 0,
                right: 1,
            },
        ]
    );
    assert_eq!(p.result_slot, 1);
    assert_eq!(p.n_slots, 2);
    assert_eq!(run_program(&p, 3), 27);
}

#[test]
fn repeated_synthesis_is_deterministic() {
    let steps = vec![
        ChainStep::Double { index: 0 },
        ChainStep::Double { index: 1 },
        ChainStep::Add { left: 0, right: 2 },
    ];
    let p1 = synthesize(&steps);
    let p2 = synthesize(&steps);
    assert_eq!(p1, p2);
}

#[test]
fn squaring_ladder_reuses_one_slot() {
    // A pure squaring ladder has one live value at a time, so the greedy
    // allocator must get by with a single slot.
    let steps = vec![
        ChainStep::Double { index: 0 },
        ChainStep::Double { index: 1 },
        ChainStep::Double { index: 2 },
    ];
    let p = synthesize(&steps);
    assert_eq!(
        p.instructions,
        vec![
            Instruction::Init { out: 0 },
            Instruction::Square { out: 0, input: 0 },
            Instruction::Square { out: 0, input: 0 },
            Instruction::Square { out: 0, input: 0 },
        ]
    );
    assert_eq!(p.result_slot, 0);
    assert_eq!(p.n_slots, 1);
    assert_eq!(run_program(&p, 2), 256);
}

/// Entry 1 is consumed last at step 5 while entry 2 dies at step 2: the
/// allocator reuses entry 2's slot for entries defined after step 2, and
/// leaves entry 1's slot untouched until after step 5.
#[test]
fn early_death_frees_slot_while_long_lived_entry_stays() {
    let steps = vec![
        ChainStep::Double { index: 0 },
        ChainStep::Double { index: 1 },
        ChainStep::Double { index: 2 },
        ChainStep::Double { index: 3 },
        ChainStep::Double { index: 4 },
        ChainStep::Add { left: 1, right: 5 },
    ];
    let last_use = compute_last_use(&steps);
    assert_eq!(last_use, vec![0, 5, 2, 3, 4, 5]);
    let (slot_of, n_slots) = allocate_slots(&last_use);
    assert_eq!(slot_of, vec![0, 0, 1, 1, 1, 1, 1]);
    assert_eq!(n_slots, 2);

    let p = synthesize(&steps);
    assert_eq!(
        p.instructions,
        vec![
            Instruction::Init { out: 0 },
            Instruction::Square { out: 0, input: 0 },
            Instruction::Square { out: 1, input: 0 },
            Instruction::Square { out: 1, input: 1 },
            Instruction::Square { out: 1, input: 1 },
            Instruction::Square { out: 1, input: 1 },
            Instruction::Multiply {
                out: 1,
                left: 0,
                right: 1,
            },
        ]
    );
    // Entry 1 holds slot 0; nothing may overwrite it between its definition
    // and the final multiply that consumes it.
    for inst in &p.instructions[2..6] {
        let out = match *inst {
            Instruction::Init { out } => out,
            Instruction::Square { out, .. } => out,
            Instruction::Multiply { out, .. } => out,
        };
        assert_ne!(out, 0);
    }
    assert_eq!(p.result_slot, 1);
    assert_eq!(p.n_slots, 2);
    // Exponent: entry values are 1, 2, 4, 8, 16, 32, then 2 + 32 = 34.
    assert_eq!(run_program(&p, 2), 1u128 << 34);
}

#[test]
fn slot_count_never_exceeds_entry_count() {
    let chains: Vec<Vec<ChainStep>> = vec![
        vec![],
        vec![ChainStep::Double { index: 0 }],
        vec![
            ChainStep::Double { index: 0 },
            ChainStep::Add { left: 0, right: 1 },
        ],
        vec![
            ChainStep::Double { index: 0 },
            ChainStep::Double { index: 1 },
            ChainStep::Add { left: 0, right: 2 },
            ChainStep::Add { left: 1, right: 3 },
        ],
    ];
    for steps in &chains {
        let p = synthesize(steps);
        assert!(p.n_slots <= steps.len() + 1);
        assert_eq!(p.instructions.len(), steps.len() + 1);
    }
}

#[test]
fn last_use_defaults_to_own_index() {
    let steps = vec![
        ChainStep::Double { index: 0 },
        ChainStep::Add { left: 0, right: 1 },
    ];
    // Entry 0 and entry 1 are both consumed last by the Add at position 1.
    assert_eq!(compute_last_use(&steps), vec![1, 1]);

    // An entry nothing consumes keeps its own index.
    let steps = vec![
        ChainStep::Double { index: 0 },
        ChainStep::Double { index: 0 },
    ];
    assert_eq!(compute_last_use(&steps), vec![1, 1]);
}

#[test]
fn well_formed_chain_check() {
    assert!(chain_is_wf(&vec![]));
    assert!(chain_is_wf(&vec![
        ChainStep::Double { index: 0 },
        ChainStep::Add { left: 0, right: 1 },
    ]));
    // A step may not reference itself or anything later.
    assert!(!chain_is_wf(&vec![ChainStep::Double { index: 1 }]));
    assert!(!chain_is_wf(&vec![
        ChainStep::Double { index: 0 },
        ChainStep::Add { left: 0, right: 2 },
    ]));
}

#[test]
fn slots_appear_in_first_use_order() {
    // Whenever an instruction writes a slot for the first time, that slot's
    // number equals the count of slots seen so far: a renderer can declare
    // temporaries exactly at first use.
    let chains: Vec<Vec<ChainStep>> = vec![
        vec![],
        vec![ChainStep::Double { index: 0 }],
        vec![
            ChainStep::Double { index: 0 },
            ChainStep::Add { left: 0, right: 1 },
        ],
        vec![
            ChainStep::Double { index: 0 },
            ChainStep::Double { index: 1 },
            ChainStep::Double { index: 2 },
            ChainStep::Double { index: 3 },
            ChainStep::Double { index: 4 },
            ChainStep::Add { left: 1, right: 5 },
        ],
    ];
    for steps in &chains {
        let p = synthesize(steps);
        let mut declared = 0usize;
        for inst in &p.instructions {
            let out = match *inst {
                Instruction::Init { out } => out,
                Instruction::Square { out, .. } => out,
                Instruction::Multiply { out, .. } => out,
            };
            assert!(out <= declared);
            if out == declared {
                declared += 1;
            }
        }
        assert_eq!(declared, p.n_slots);
    }
}
