//! A verified core of conflict-free replicated data types (CRDTs).
//!
//! The causality substrate (dots and version vectors), the context objects a
//! host uses to derive causal operations, a multi-value register, and a
//! dense-identifier replicated sequence.

pub mod ctx;
pub mod lseq;
pub mod mvreg;
pub mod vclock;

pub use ctx::AddCtx;
pub use ctx::ReadCtx;
pub use lseq::Error;
pub use lseq::Identifier;
pub use lseq::LSeq;
pub use mvreg::MVReg;
pub use mvreg::Val;

pub use vclock::Dot;
pub use vclock::VClock;
pub use vclock::ClockOrdering;
