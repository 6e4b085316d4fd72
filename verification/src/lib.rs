//! Tile-world terrain and inventory logic: chunked terrain storage, chunk
//! streaming decisions, explosions, mesh construction and tile extraction.
pub mod engine;
pub mod game;
