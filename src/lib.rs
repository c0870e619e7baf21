//! Replicated tracking of intruders in a decoy network: state-based CRDTs
//! (a Lamport clock, grow-only and add-wins sets, last-writer-wins registers
//! and maps) composed into one replica state whose merge is idempotent,
//! commutative and associative, with a canonical snapshot text and digest.

pub mod attacker;
pub mod aworset;
pub mod clock;
pub mod digest;
pub mod gset;
pub mod keymap;
pub mod laws;
pub mod lww;
pub mod merge;
pub mod order;
pub mod orset;
pub mod snapshot;
pub mod state;
