//! A decision procedure for validity in the modal logic K.
//!
//! A formula is first normalized so that it contains neither necessity nor
//! implication nodes.  A sequent engine then rewrites proof obligations by a
//! fixed list of rules, a proof-tree builder drives the engine to a verdict,
//! and, when the verdict is `invalid`, a counter-model synthesizer extracts a
//! finite Kripke model that falsifies the formula at its root world.
#![verifier::loop_isolation(false)]

pub mod atoms;
pub mod countermodel;
pub mod formulae;
pub mod meta;
pub mod models;
pub mod proofs;
pub mod sequents;
