//! A falling-sand world engine: rectangles, chunk addressing, chunk loading
//! and the sand simulation, with their contracts proved by Verus.

pub mod chunk;
pub mod chunk_handler;
pub mod chunk_laws;
pub mod chunk_ops;
pub mod coords;
pub mod file_helper;
pub mod gen;
pub mod material;
pub mod modding;
pub mod objects;
pub mod rect;
pub mod sand_laws;
pub mod simulator;
pub mod tick;
pub mod world_sim;
