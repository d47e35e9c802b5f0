//! A verified memory engine for AI agents: provenance-guarded, canon-retaining
//! hypergraph memory with associative recall (see the crate README).

pub mod affect_overlay;
pub mod c_api;
pub mod canon;
pub mod entities;
pub mod fbits;
pub mod fround;
pub mod graph_nexus;
pub mod ids;
pub mod keys;
pub mod laws;
pub mod linking;
pub mod persistence;
pub mod provenance;
pub mod ricci_curvature;
pub mod text;
pub mod topology_24cell;
pub mod util;
pub mod vector_index;
