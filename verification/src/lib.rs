//! Heuristic solver core for the symmetric travelling-salesman problem.
//!
//! The crate provides a dense symmetric cost matrix, a Hamiltonian tour kept
//! as per-vertex adjacency pairs, a 2-opt local search whose candidate scan
//! runs in parallel, and a guided-local-search driver that escapes local
//! minima by penalising high-utility tour edges.

pub mod cycle;
pub mod matrix;
pub mod path;
pub mod route;
pub mod search;

pub use matrix::SymmetricMatrix;
pub use path::Path;
pub use route::Route;
pub use search::gls;
pub use search::local_search;
