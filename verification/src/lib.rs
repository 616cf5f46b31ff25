//! Core of a partial evaluator for WebAssembly modules.
//!
//! The library covers the context-sensitive abstract-interpretation state
//! model that drives specialization decisions, and the effect-aware
//! dead-code elimination pass that cleans up specialized function bodies.
//! Collaborating layers (module loading, CFG/SSA construction, the
//! specializer driver, module re-encoding) hand this core plain data:
//! single-assignment function bodies with explicit control flow, a table of
//! declared operator side effects, and a static image of memories and
//! globals.

pub mod assoc;
pub mod ctx;
pub mod dce;
pub mod image;
pub mod ir;
pub mod lattice;
pub mod state;
