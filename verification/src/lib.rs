//! Basis enumeration and selection-rule operator construction for composite
//! quantum-mechanical state spaces.
//!
//! A composite space is an ordered collection of quantum-number axes, each
//! either a single irreducible list of values or a sum of such lists sharing
//! one label kind. The space enumerates its full Cartesian-product basis in
//! mixed-radix odometer order, and an operator matrix over that basis is
//! populated from a matrix-element rule applied only to the axes the operator
//! acts on, with all other axes enforced as conserved selection rules.

pub mod internals;
pub mod states;
