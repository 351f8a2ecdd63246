//! Core of a digital-logic circuit simulator: an arena-backed component
//! graph, a spatial circuit layer that auto-connects wires to component
//! ports, a compiler lowering the netlist to a single-accumulator
//! instruction stream, and a dirty-set driven interpreter.

pub mod arena;
pub mod integer_set;
pub mod component;
pub mod graph;
pub mod program;
pub mod rom;
pub mod circuit;
pub mod log;
pub mod script;

use vstd::prelude::*;

verus! {

/// Slot value standing for "not mapped to any memory location".
pub const SENTINEL: usize = usize::MAX;

} // verus!
