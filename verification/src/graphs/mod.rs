//! Graph algorithms: Tarjan's strongly connected components and SCC summaries.

pub mod fx;
pub mod laws;
pub mod reach;
pub mod scc;
pub mod scc_paths;
pub mod search;
