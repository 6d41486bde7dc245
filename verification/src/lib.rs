//! Synthesis of straight-line programs that raise a value to a fixed exponent.
//!
//! Given an addition chain for the exponent, the synthesizer computes the
//! liveness of every chain entry, assigns reusable storage slots, and emits an
//! ordered sequence of `Init` / `Square` / `Multiply` instructions together
//! with the slot that holds the final power. A downstream renderer turns the
//! instructions into concrete target-language statements.

pub mod chain;
pub mod liveness;
pub mod program;
pub mod slots;
pub mod synth;

pub use chain::{chain_is_wf, ChainStep};
pub use program::{Instruction, Program};
pub use synth::synthesize;
