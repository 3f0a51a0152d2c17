//! Deterministic planar geometry kernel: the combinatorial core.
//!
//! The modules here hold the parts of the kernel whose behaviour does not
//! depend on floating-point arithmetic: the option and result enums, the
//! error type, the vertex-deletion passes of buffer-input simplification,
//! the face walks over planar arrangements and half-edge graphs, the
//! key-ordered sorting of neighbour lists, the scans over coordinate
//! sequences and the assignment of holes to shells. Geometric tests come in
//! as closures, and each function's contract says what it returns in terms
//! of their answers.

pub mod arrangement;
pub mod assign;
pub mod error;
pub mod halfedge;
pub mod kinds;
pub mod order;
pub mod overlay;
pub mod scan;
pub mod simplify;
