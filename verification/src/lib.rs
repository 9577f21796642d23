//! Molecular integrals over Cartesian Gaussian orbitals.
//!
//! The heart of the crate is an Obara--Saika-style recursion engine that
//! rewrites an integral of arbitrary Cartesian angular momentum into a flat
//! expansion of base-case terms.  The engine is purely combinatorial: a term
//! carries an integer coefficient, a list of geometric-prefactor slots and a
//! Boys-function order, and the numerical reduction of an expansion to a
//! scalar is left to the caller.

pub mod basis;
pub mod matrix;
pub mod os86;
pub mod pyquante;
pub mod shell;
pub mod simint;
