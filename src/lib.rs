//! The integer core of a state-vector quantum circuit simulator.
//!
//! - `program` and `subroutine`: builders that check every instruction against the
//!   register and the table of gates, and inline parameterised sub-routines forwards
//!   (`call`) or inverted (`uncall`); `chain` is the interface the two builders share.
//! - `state`: the basis-state literal `|b_{n-1}...b_0>`.
//! - `computer`: the table of gates and the kernel launches that run a program.
//! - `addressing`: which pair of amplitudes each work-item of a gate kernel updates.
//! - `random`: the skippable MWC64X generator and the batches of the sampling kernel.
//! - `hardware`: the device interface and the run procedure over it.
//! - `measure`: drawn states tallied and ranked.
//! - `memory`: a buffer cut into chunks and per-core segments.
//!
//! Amplitudes and gate matrices are floating point and stay with the device.

pub mod addressing;
pub mod chain;
pub mod computer;
pub mod error;
pub mod hardware;
pub mod measure;
pub mod memory;
pub mod program;
pub mod random;
pub mod state;
pub mod subroutine;
