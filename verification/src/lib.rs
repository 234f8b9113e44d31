//! Solvers for a collection of small puzzles, the largest of which is a
//! genetic-relationship engine: DNA sequences are packed into bit fields,
//! candidate parent pairs are tested for bitwise compatibility, and the
//! confirmed relationships are gathered into a graph whose largest connected
//! family is reported.

pub mod boxes;
pub mod common;
pub mod dial;
pub mod dna;
pub mod engraving;
pub mod family;
pub mod mentoring;
pub mod naming;
pub mod relations;
pub mod spin;
pub mod sword;
pub mod threads;
