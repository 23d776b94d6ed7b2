//! A translation-lookaside-buffer (TLB) simulator: a fixed-capacity FIFO
//! cache in front of a page table, a translation unit that decomposes
//! virtual addresses into page number and offset, and a driver that folds
//! a trace of addresses into hit/miss statistics.

pub mod error;
pub mod mmu;
pub mod simulation;
pub mod trace;

pub use error::SimulationError;
pub use mmu::AddressTranslationResult;
pub use mmu::Mmu;
pub use simulation::Simulation;
pub use simulation::SimulationResult;
pub use trace::Trace;
