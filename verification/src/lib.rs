//! Atomic-context typestate analysis at the Rust to C FFI boundary.
//!
//! For a MIR-shaped program, `guardstate` computes whether a preemption-disabling lock guard is
//! live at each FFI call site. Given the callees that may sleep, it reports the calls that may
//! sleep in atomic context.
//!
//! A program text is read by [`parse`], line by line in the forms of [`grammar`], into the
//! functions of [`ir`]. [`typestate`] says what the states of a function are, and [`analysis`]
//! computes them, the call sites and the violations. [`report`] puts them into text. [`summary`]
//! reads the callees that may sleep, and [`cli`] the command line.
//!
//! What holds of the whole is proved in [`paths`], [`laws`], [`determinism`] and [`layout`]. What
//! each stage does is stated once more, apart from how it is computed: in [`reading`] and
//! [`program`] of the parser, in [`transfer`] of the dataflow, and in [`listing`] of the report.

pub mod analysis;
pub mod cli;
pub mod determinism;
pub mod grammar;
pub mod ir;
pub mod laws;
pub mod layout;
pub mod listing;
pub mod names;
pub mod ordering;
pub mod parse;
pub mod paths;
pub mod program;
pub mod reading;
pub mod report;
pub mod scan;
pub mod summary;
pub mod text;
pub mod transfer;
pub mod typestate;
