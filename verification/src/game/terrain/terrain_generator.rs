use vstd::prelude::*;
use crate::game::terrain::chunk::{in_chunk, ChunkPosition, TILES_PER_LAYER};
use crate::game::terrain::tile::{Tile, MAX_TILE_ID};

verus! {

/// Generates flat terrain: every tile below the surface row is solid ground
/// (id 1) in both layers, every tile at or above it is empty.
pub struct TerrainGenerator {
    pub surface: i32,
}

impl TerrainGenerator {
    /// Terrain whose surface is the world row 0.
    pub fn new() -> (r: Self)
        ensures
            r.surface == 0,
    {
        Self { surface: 0 }
    }

    /// The tile that generation puts at local (x, y) of `layer` in chunk `pos`.
    pub open spec fn generated_tile(&self, pos: ChunkPosition, layer: int, x: int, y: int) -> Tile {
        if pos.y * 32 + y < self.surface {
            Tile { id: 1 }
        } else {
            Tile { id: 0 }
        }
    }

    pub proof fn lemma_generated_ids_valid(&self, pos: ChunkPosition)
        ensures
            forall|l: int, x: int, y: int| in_chunk(l, x, y) ==> #[trigger] self.generated_tile(pos, l, x, y).id
                <= MAX_TILE_ID,
    {
    }

    /// The background and foreground layers of the chunk at `position`,
    /// column by column.
    pub fn chunk_tiles(&self, position: &ChunkPosition) -> (r: (Vec<Tile>, Vec<Tile>))
        ensures
            r.0@.len() == TILES_PER_LAYER,
            r.1@.len() == TILES_PER_LAYER,
            forall|i: int| 0 <= i < TILES_PER_LAYER ==> #[trigger] r.0@[i] == self.generated_tile(*position, 0, i / 32, i % 32),
            forall|i: int| 0 <= i < TILES_PER_LAYER ==> #[trigger] r.1@[i] == self.generated_tile(*position, 1, i / 32, i % 32),
    {
        let mut bg: Vec<Tile> = Vec::new();
        let mut fg: Vec<Tile> = Vec::new();
        let base: i64 = position.y as i64 * 32;
        let mut i: usize = 0;
        while i < TILES_PER_LAYER
            invariant
                i <= TILES_PER_LAYER,
                bg@.len() == i,
                fg@.len() == i,
                base == position.y * 32,
                forall|k: int| 0 <= k < i ==> #[trigger] bg@[k] == self.generated_tile(*position, 0, k / 32, k % 32),
                forall|k: int| 0 <= k < i ==> #[trigger] fg@[k] == self.generated_tile(*position, 1, k / 32, k % 32),
            decreases TILES_PER_LAYER - i,
        {
            let y: i64 = (i % 32) as i64;
            let t = if base + y < self.surface as i64 { Tile { id: 1 } } else { Tile { id: 0 } };
            bg.push(t);
            fg.push(t);
            i = i + 1;
        }
        (bg, fg)
    }
}

} // verus!
