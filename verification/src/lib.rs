//! Core of a voxel-world engine: spatial indexing of an unbounded block world
//! into fixed-size chunks, terrain generation from a sampled density field,
//! meshing of chunk data into packed vertex/index buffers, face-reachability
//! visibility graphs built by flood fill, collision-shape extraction, and the
//! loader/streamer state machine that keeps the set of resident chunks in sync
//! with a moving observer.

pub mod chunk;
pub mod util;
