//! Core of the ICE-based Horn clause learner: qualifier mining and the
//! decision logic of the teacher, verified with Verus.

pub mod instance;
pub mod term;
pub mod mining;
pub mod teacher;
pub mod smt2;
