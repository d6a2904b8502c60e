//! Symmetry-reduced bases and Hamiltonian terms for periodic spin-1/2 chains.
//!
//! A spin configuration of a chain with `L` sites is an `L`-bit integer.  The
//! modules below supply the bit primitives, the orbit structure under one-site
//! translation, the quantum-number sectors built on top of it, the structure
//! of the Ising and XXZ terms, and the bookkeeping for degenerate levels.

pub mod theory;
pub mod error;
pub mod tables;
pub mod states;
pub mod bases;
pub mod hamiltonian;
pub mod prelude;
