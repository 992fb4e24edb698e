//! Knobs for a bulk-synchronous step's worker layout: how many threads
//! drive sends and receives, and how many assist with the local work
//! around them. Held by the runtime that drives the collectives.

use vstd::prelude::*;

verus! {

/// Thread counts for one bulk-synchronous superstep.
#[allow(non_camel_case_types)]
#[derive(Debug, Clone, Copy, PartialEq, Eq, Structural)]
pub struct bsp_opts {
    pub send_threads: u8,
    pub send_assist_threads: u8,
    pub recv_threads: u8,
    pub recv_assist_threads: u8,
}

} // verus!
