//! A small distributed graph-analytics core: a fixed set of cooperating
//! ranks jointly holds a partitioned graph. This crate verifies the pieces
//! that make that work: the chunked wire-frame protocol and the all-to-all
//! exchange built on it, the reduction primitive, vertex-range partitioning
//! with edge redistribution, and the local adjacency assembly.

use vstd::prelude::*;

pub mod cluster;
pub mod codec;
pub mod edge;
pub mod error;
pub mod example;
pub mod exchange;
pub mod frame;
pub mod graph;
pub mod io;
pub mod parallel;
pub mod server;
pub mod traits;

verus! {

} // verus!
