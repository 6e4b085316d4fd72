pub mod chunk;
pub mod region;
pub mod rounding;
pub mod tile;
pub mod terrain_generator;
pub mod chunk_manager;
pub mod mesh;
pub mod chunk_table;
