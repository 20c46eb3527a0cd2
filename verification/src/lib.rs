//! Verified combinatorial core of a discrete-exterior-calculus toolkit:
//! halfedge surfaces, canonical simplicial complexes, exact signed boundary
//! matrices, and the resource accounting around them.

pub mod error;
pub mod limit;
pub mod halfedge;
pub mod orbit;
pub mod cycle;
pub mod disjoint;
pub mod lex;
pub mod incidence;
pub mod sort;
pub mod bucket;
pub mod binomial;
pub mod combination;
pub mod complex;
pub mod correspondence;
pub mod chain;
pub mod homology;
pub mod realization;
pub mod form;
pub mod mask;
pub mod evidence;
pub mod surface;
pub mod face_pair;
