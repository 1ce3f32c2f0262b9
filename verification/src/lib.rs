//! Deterministic helpers of the differential drivers: pseudo-random streams,
//! text escaping and normalisation, and the renderings of geometric values.
use vstd::prelude::*;

pub mod batch_probe;
pub mod board_probe;
pub mod cli_gate;
pub mod delaunay_probe;
pub mod drc_probe;
pub mod dsn_probe;
pub mod fanout_probe;
pub mod geometry;
pub mod java_random;
pub mod kinds;
pub mod lexical;
pub mod job_probe;
pub mod manifest;
pub mod mutation;
pub mod render;
pub mod report;
pub mod room_probe;
pub mod routing_probe;
pub mod search_probe;
pub mod settings_probe;
pub mod shape_probe;
pub mod stats_probe;
pub mod text;
pub mod tolerance_probe;
pub mod tree_dump_probe;
pub mod tree_probe;
pub mod tree_replay_probe;
pub mod xorshift;

verus! {

} // verus!
