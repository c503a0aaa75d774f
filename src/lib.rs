//! Exact shortest open visiting path through a small set of towns on the
//! plane, found by branch-and-bound search.
pub mod path;
pub mod solve;
pub mod town;

pub use path::path_dist;
pub use solve::tsp_solve;
pub use town::Town;
