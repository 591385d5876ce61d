//! Small verified containers shared by the chunk pipeline.

pub mod pos_map;
pub mod vec_set;
