//! What chunk-granular storage costs a repository, beside storing every version of
//! a file whole.
pub mod corpus;
pub mod cost;
pub mod draws;
pub mod series;
pub mod set;
pub mod shapes;
