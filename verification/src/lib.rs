//! Exact state-vector simulation of quantum circuits given as token grids.
//!
//! A circuit arrives as a rectangular grid of gate tokens, rows are qubits
//! and columns are time steps.  The parser resolves each column into gate
//! placements, the entanglement tracker partitions the qubits of every step
//! into groups that must be represented jointly, the combiner fuses each
//! step's placements into one operator per group, and the evolution engine
//! applies the operators to independent state fragments, merging fragments
//! only when a gate forces it.  The frontend adapter flattens every snapshot
//! into one full-system amplitude column.
//!
//! All arithmetic is exact: amplitudes are elements of the cyclotomic ring
//! Z[e^{i*pi/4}] scaled by a power of 1/sqrt(2), which contains every entry
//! of the supported gate set.  Each stage carries a contract equating it with
//! its mathematical specification; an amplitude whose coordinates leave the
//! representable range is reported as a typed overflow outcome rather than
//! approximated.

pub mod amplitude;
pub mod quantum_gate;
pub mod circuit_parser;
pub mod quantum_state;
pub mod simulator;
