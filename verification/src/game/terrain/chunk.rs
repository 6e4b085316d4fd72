use vstd::prelude::*;
use crate::engine::gpu_handle::{MaterialHandle, MeshHandle};
use crate::game::terrain::chunk_manager::ChunkBorders;
use crate::game::terrain::mesh::{
    bit_weight, frame_filled, neighbour_offset_at, layer_quads, mask_sum, neighbour_mask, neighbour_offset, quad_index,
    tile_quad, ChunkMesh, TileQuad, MARCHING_SQUARES, TILE_TEX_COORDS,
};
use crate::game::terrain::region::{RegionPosition, REGION_WIDTH};
use crate::game::terrain::terrain_generator::TerrainGenerator;
use crate::game::terrain::tile::{Tile, MAX_TILE_ID};

verus! {

/// Side length of a chunk, in tiles.
pub const CHUNK_SIZE: usize = 32;

/// Side length of a chunk, in tiles, as a signed world distance.
pub const CHUNK_SIZE_I32: i32 = 32;

/// Floor division of a world coordinate by a positive width.
pub open spec fn floor_div(a: int, w: int) -> int {
    a / w
}

/// Non-negative remainder of a world coordinate by a positive width.
pub open spec fn floor_mod(a: int, w: int) -> int {
    a % w
}

/// Number of tiles in one layer of a chunk.
pub const TILES_PER_LAYER: usize = 1024;

/// Index of local tile (x, y) in a layer: tiles are stored column by column.
pub open spec fn tile_index(x: int, y: int) -> int {
    x * 32 + y
}

/// Whether (x, y) is a tile of a chunk and `layer` one of its two layers
/// (0: background, 1: foreground).
pub open spec fn in_chunk(layer: int, x: int, y: int) -> bool {
    0 <= layer < 2 && 0 <= x < 32 && 0 <= y < 32
}

/// The tiles of a chunk: a background layer and a foreground layer of
/// 32 x 32 tiles each.
pub struct ChunkData {
    bg: Vec<Tile>,
    fg: Vec<Tile>,
}

impl ChunkData {
    /// Both layers hold exactly `TILES_PER_LAYER` tiles.
    pub closed spec fn wf(&self) -> bool {
        self.bg@.len() == TILES_PER_LAYER && self.fg@.len() == TILES_PER_LAYER
    }

    /// The tile at local (x, y) of `layer`, stored at index `x * 32 + y`.
    pub closed spec fn tile(&self, layer: int, x: int, y: int) -> Tile {
        if layer == 0 {
            self.bg@[tile_index(x, y)]
        } else {
            self.fg@[tile_index(x, y)]
        }
    }

    /// Every tile of both layers is empty or has a texture.
    pub open spec fn ids_valid(&self) -> bool {
        forall|l: int, x: int, y: int| in_chunk(l, x, y) ==> #[trigger] self.tile(l, x, y).id <= MAX_TILE_ID
    }

    /// Generates the tiles of the chunk at `position`.
    pub fn new(position: &ChunkPosition, generator: &TerrainGenerator) -> (r: Self)
        ensures
            forall|l: int, x: int, y: int| in_chunk(l, x, y) ==> #[trigger] r.tile(l, x, y)
                == generator.generated_tile(*position, l, x, y),
            r.wf(),
            r.ids_valid(),
    {
        let (bg, fg) = generator.chunk_tiles(position);
        let r = Self { bg, fg };
        assert forall|l: int, x: int, y: int| in_chunk(l, x, y) implies #[trigger] r.tile(l, x, y)
            == generator.generated_tile(*position, l, x, y) by {
            assert(0 <= tile_index(x, y) < 1024) by (nonlinear_arith)
                requires 0 <= x < 32, 0 <= y < 32;
        }
        proof { generator.lemma_generated_ids_valid(*position); }
        r
    }

    /// Builds chunk data from two stored layers, each `TILES_PER_LAYER` long
    /// and stored column by column; `None` when a layer has another length.
    pub fn from_layers(bg: Vec<Tile>, fg: Vec<Tile>) -> (r: Option<Self>)
        ensures
            r.is_some() <==> (bg@.len() == TILES_PER_LAYER && fg@.len() == TILES_PER_LAYER),
            r matches Some(d) ==> d.wf(),
            r matches Some(d) ==> forall|x: int, y: int| in_chunk(0, x, y) ==> {
                &&& #[trigger] d.tile(0, x, y) == bg@[tile_index(x, y)]
                &&& d.tile(1, x, y) == fg@[tile_index(x, y)]
            },
    {
        if bg.len() == TILES_PER_LAYER && fg.len() == TILES_PER_LAYER {
            Some(Self { bg, fg })
        } else {
            None
        }
    }

    /// Whether every tile of both layers is empty or has a texture.
    pub fn has_valid_ids(&self) -> (r: bool)
        requires
            self.wf(),
        ensures
            r == self.ids_valid(),
    {
        let mut i: usize = 0;
        while i < TILES_PER_LAYER
            invariant
                self.wf(),
                i <= TILES_PER_LAYER,
                forall|j: int| 0 <= j < i ==> #[trigger] self.bg@[j].id <= MAX_TILE_ID && self.fg@[j].id <= MAX_TILE_ID,
            decreases TILES_PER_LAYER - i,
        {
            if self.bg[i].id > MAX_TILE_ID || self.fg[i].id > MAX_TILE_ID {
                proof {
                    let (x, y) = (i as int / 32, i as int % 32);
                    assert(tile_index(x, y) == i) by (nonlinear_arith)
                        requires x == i / 32, y == i % 32, 0 <= i;
                    assert(in_chunk(0, x, y));
                    assert(self.tile(0, x, y).id > MAX_TILE_ID || self.tile(1, x, y).id > MAX_TILE_ID);
                }
                return false;
            }
            i = i + 1;
        }
        proof {
            assert forall|l: int, x: int, y: int| in_chunk(l, x, y) implies #[trigger] self.tile(l, x, y).id <= MAX_TILE_ID by {
                assert(0 <= tile_index(x, y) < 1024) by (nonlinear_arith)
                    requires 0 <= x < 32, 0 <= y < 32;
                let t = tile_index(x, y);
                assert(self.bg@[t].id <= MAX_TILE_ID && self.fg@[t].id <= MAX_TILE_ID);
            }
        }
        true
    }

    /// The two stored layers (background, foreground), column by column.
    pub fn layers(&self) -> (r: (&Vec<Tile>, &Vec<Tile>))
        requires
            self.wf(),
        ensures
            r.0@.len() == TILES_PER_LAYER,
            r.1@.len() == TILES_PER_LAYER,
            forall|x: int, y: int| in_chunk(0, x, y) ==> {
                &&& #[trigger] self.tile(0, x, y) == r.0@[tile_index(x, y)]
                &&& self.tile(1, x, y) == r.1@[tile_index(x, y)]
            },
    {
        (&self.bg, &self.fg)
    }
}

/// A loaded chunk: its tiles, the meshes built for its two layers, which
/// layers need a new mesh (`dirty`) and whether its tiles changed since it
/// was loaded (`save`).
pub struct Chunk {
    data: ChunkData,
    meshes: [Option<MeshHandle>; 2],
    pub dirty: [bool; 2],
    pub save: bool,
}

impl Chunk {
    /// The tile at local (x, y) of `layer`, stored at index `x * 32 + y`.
    pub closed spec fn tile(&self, layer: int, x: int, y: int) -> Tile {
        self.data.tile(layer, x, y)
    }

    /// The mesh built for `layer`, if any.
    pub closed spec fn mesh_of(&self, layer: int) -> Option<MeshHandle> {
        self.meshes@[layer]
    }

    /// Both layers of the chunk are complete.
    pub closed spec fn wf(&self) -> bool {
        self.data.wf()
    }

    /// Whether `layer` waits for a new mesh.
    pub closed spec fn dirty_layer(&self, layer: int) -> bool {
        self.dirty[layer]
    }

    /// Whether the chunk's tiles changed since it was loaded.
    pub closed spec fn save_flag(&self) -> bool {
        self.save
    }

    /// Every tile of the chunk is empty or has a texture.
    pub open spec fn ids_valid(&self) -> bool {
        forall|l: int, x: int, y: int| in_chunk(l, x, y) ==> #[trigger] self.tile(l, x, y).id <= MAX_TILE_ID
    }

    /// Every tile of `layer` is empty or has a texture.
    pub open spec fn layer_ids_valid(&self, layer: int) -> bool {
        forall|x: int, y: int| in_chunk(layer, x, y) ==> #[trigger] self.tile(layer, x, y).id <= MAX_TILE_ID
    }

    /// `self` and `other` hold the same tiles.
    pub open spec fn same_tiles(&self, other: Chunk) -> bool {
        forall|l: int, x: int, y: int| in_chunk(l, x, y) ==> #[trigger] self.tile(l, x, y) == other.tile(l, x, y)
    }

    /// `self` and `other` hold the same meshes.
    pub open spec fn same_meshes(&self, other: Chunk) -> bool {
        self.mesh_of(0) == other.mesh_of(0) && self.mesh_of(1) == other.mesh_of(1)
    }

    /// A freshly loaded chunk: no meshes, both layers waiting for a mesh,
    /// nothing to save.
    pub fn new(data: ChunkData) -> (r: Self)
        requires
            data.wf(),
        ensures
            r.wf(),
            forall|l: int, x: int, y: int| in_chunk(l, x, y) ==> #[trigger] r.tile(l, x, y) == data.tile(l, x, y),
            r.mesh_of(0).is_none(),
            r.mesh_of(1).is_none(),
            r.dirty_layer(0) && r.dirty_layer(1),
            !r.save_flag(),
    {
        Self { data, meshes: [None, None], dirty: [true, true], save: false }
    }

    /// The tile stored at index `x * 32 + y` of `layer`: local (x, y) when
    /// `y < 32`, and otherwise the tile that index lands on further along
    /// the layer.
    pub fn get_tile(&self, x: usize, y: usize, layer: usize) -> (r: &Tile)
        requires
            self.wf(),
            x * 32 + y < 1024,
            layer < 2,
        ensures
            *r == self.tile(layer as int, x as int, y as int),
    {
        let i = x * CHUNK_SIZE + y;
        if layer == 0 {
            &self.data.bg[i]
        } else {
            &self.data.fg[i]
        }
    }

    /// Writes tile `id` at index `x * 32 + y` of `layer` (local (x, y) when
    /// `y < 32`), marks the layer for a new mesh and the chunk for saving.
    pub fn set_tile(&mut self, x: usize, y: usize, id: u8, layer: usize)
        requires
            old(self).wf(),
            x * 32 + y < 1024,
            layer < 2,
        ensures
            final(self).wf(),
            final(self).tile(layer as int, x as int, y as int) == (Tile { id }),
            final(self).tile(layer as int, (x * 32 + y) / 32, (x * 32 + y) % 32) == (Tile { id }),
            forall|l: int, a: int, b: int| in_chunk(l, a, b) && (l != layer || tile_index(a, b) != x * 32 + y)
                ==> #[trigger] final(self).tile(l, a, b) == old(self).tile(l, a, b),
            y < 32 ==> forall|l: int, a: int, b: int| in_chunk(l, a, b) && (l, a, b) != (layer as int, x as int, y as int)
                ==> #[trigger] final(self).tile(l, a, b) == old(self).tile(l, a, b),
            final(self).same_meshes(*old(self)),
            final(self).dirty_layer(layer as int),
            final(self).dirty_layer(1 - layer) == old(self).dirty_layer(1 - layer),
            final(self).save_flag(),
    {
        let i = x * CHUNK_SIZE + y;
        proof {
            let n: int = x * 32 + y;
            assert(tile_index(n / 32, n % 32) == n) by (nonlinear_arith)
                requires 0 <= n;
            assert forall|a: int, b: int| y < 32 && in_chunk(0, a, b) && (a, b) != (x as int, y as int)
                implies #[trigger] tile_index(a, b) != tile_index(x as int, y as int) by {
                if a == x { } else if a < x {
                    assert(a * 32 + b < x * 32) by (nonlinear_arith) requires a < x, b < 32;
                } else {
                    assert(x * 32 + y < a * 32) by (nonlinear_arith) requires x < a, y < 32;
                }
            }
        }
        if layer == 0 {
            self.data.bg.set(i, Tile { id });
        } else {
            self.data.fg.set(i, Tile { id });
        }
        self.dirty[layer] = true;
        self.save = true;
    }

    /// Marks both layers as meshed.
    pub fn remove_mark(&mut self)
        ensures
            final(self).wf() == old(self).wf(),
            !final(self).dirty_layer(0) && !final(self).dirty_layer(1),
            final(self).same_tiles(*old(self)),
            final(self).same_meshes(*old(self)),
            final(self).save_flag() == old(self).save_flag(),
    {
        self.dirty[0] = false;
        self.dirty[1] = false;
    }

    pub fn has_mesh(&self) -> (r: bool)
        ensures
            r == (self.mesh_of(0).is_some() || self.mesh_of(1).is_some()),
    {
        self.meshes[0].is_some() || self.meshes[1].is_some()
    }

    pub fn dirty(&self) -> (r: bool)
        ensures
            r == (self.dirty_layer(0) || self.dirty_layer(1)),
    {
        self.dirty[0] || self.dirty[1]
    }

    /// Whether `layer` waits for a new mesh.
    pub fn layer_dirty(&self, layer: usize) -> (r: bool)
        requires
            layer < 2,
        ensures
            r == self.dirty_layer(layer as int),
    {
        self.dirty[layer]
    }

    /// Whether the chunk's tiles changed since it was loaded.
    pub fn needs_save(&self) -> (r: bool)
        ensures
            r == self.save_flag(),
    {
        self.save
    }

    /// Marks `layer` as needing a new mesh.
    pub fn mark_dirty(&mut self, layer: usize)
        requires
            layer < 2,
        ensures
            final(self).wf() == old(self).wf(),
            final(self).dirty_layer(layer as int),
            final(self).dirty_layer(1 - layer) == old(self).dirty_layer(1 - layer),
            final(self).same_tiles(*old(self)),
            final(self).same_meshes(*old(self)),
            final(self).save_flag() == old(self).save_flag(),
    {
        self.dirty[layer] = true;
    }

    pub fn data(&self) -> (r: &ChunkData)
        ensures
            r.wf() == self.wf(),
            forall|l: int, x: int, y: int| in_chunk(l, x, y) ==> #[trigger] r.tile(l, x, y) == self.tile(l, x, y),
    {
        &self.data
    }

    /// Drops both meshes and marks both layers as needing a new one.
    pub fn destroy_mesh(&mut self)
        ensures
            final(self).wf() == old(self).wf(),
            final(self).mesh_of(0).is_none() && final(self).mesh_of(1).is_none(),
            final(self).dirty_layer(0) && final(self).dirty_layer(1),
            final(self).same_tiles(*old(self)),
            final(self).save_flag() == old(self).save_flag(),
    {
        self.dirty = [true, true];
        self.meshes = [None, None];
    }

    pub fn set_mesh(&mut self, layer: usize, mesh: MeshHandle)
        requires
            layer < 2,
        ensures
            final(self).wf() == old(self).wf(),
            final(self).mesh_of(layer as int) == Some(mesh),
            final(self).mesh_of(1 - layer) == old(self).mesh_of(1 - layer),
            final(self).same_tiles(*old(self)),
            final(self).dirty_layer(0) == old(self).dirty_layer(0),
            final(self).dirty_layer(1) == old(self).dirty_layer(1),
            final(self).save_flag() == old(self).save_flag(),
    {
        self.meshes[layer] = Some(mesh);
    }

    pub fn mesh(&self, layer: usize) -> (r: &Option<MeshHandle>)
        requires
            layer < 2,
        ensures
            *r == self.mesh_of(layer as int),
    {
        &self.meshes[layer]
    }

    /// The (mesh, material) pairs to draw: layer `i` is drawn with
    /// `materials[i]` when it has a mesh and that material exists.
    pub fn draw_list(&self, materials: &Vec<MaterialHandle>) -> (r: Vec<(MeshHandle, MaterialHandle)>)
        ensures
            r@ == draw_pairs(self.mesh_of(0), self.mesh_of(1), materials@),
    {
        let mut r: Vec<(MeshHandle, MaterialHandle)> = Vec::new();
        if materials.len() > 0 {
            if let Some(m) = self.meshes[0] {
                r.push((m, materials[0]));
            }
        }
        if materials.len() > 1 {
            if let Some(m) = self.meshes[1] {
                r.push((m, materials[1]));
            }
        }
        r
    }
}

impl Chunk {
    /// Whether the neighbour (x + i, y + j) of local tile (x, y) is filled:
    /// inside the chunk a tile is filled when not empty, outside it the
    /// borders say.
    fn neighbour_filled(&self, x: i32, y: i32, i: i32, j: i32, layer: usize, borders: &ChunkBorders) -> (r: bool)
        requires
            self.wf(),
            0 <= x < 32,
            0 <= y < 32,
            -1 <= i <= 1,
            -1 <= j <= 1,
            layer < 2,
        ensures
            r == frame_filled(*self, layer as int, *borders, x + i, y + j),
    {
        if x + i < 0 || x + i == CHUNK_SIZE_I32 || y + j < 0 || y + j == CHUNK_SIZE_I32 {
            if j == 1 && y == CHUNK_SIZE_I32 - 1 {
                borders.top[(x + i + 1) as usize]
            } else if j == -1 && y == 0 {
                borders.bottom[(x + i + 1) as usize]
            } else if i == 1 {
                borders.right[(y + j) as usize]
            } else {
                borders.left[(y + j) as usize]
            }
        } else {
            self.get_tile((x + i) as usize, (y + j) as usize, layer).id > 0
        }
    }

    /// The neighbour mask of local tile (x, y) in `layer`: bit `k` is set
    /// when the neighbour at `neighbour_offset(k)` is filled.
    pub fn tile_neighbours(&self, x: i32, y: i32, layer: usize, borders: &ChunkBorders) -> (mask: u8)
        requires
            self.wf(),
            0 <= x < 32,
            0 <= y < 32,
            layer < 2,
        ensures
            mask == neighbour_mask(*self, layer as int, *borders, x as int, y as int),
    {
        let mut mask: u16 = 0;
        let mut weight: u16 = 1;
        let mut k: usize = 0;
        while k < 8
            invariant
                self.wf(),
                0 <= x < 32,
                0 <= y < 32,
                layer < 2,
                k <= 8,
                weight == if k < 8 { bit_weight(k as int) } else { 256 },
                mask == mask_sum(*self, layer as int, *borders, x as int, y as int, k as nat),
                0 <= mask < weight,
            decreases 8 - k,
        {
            let (i, j) = neighbour_offset_at(k);
            if self.neighbour_filled(x, y, i, j, layer, borders) {
                mask = mask + weight;
            }
            weight = weight * 2;
            k = k + 1;
        }
        mask as u8
    }

    /// The marching-squares shape for a neighbour mask.
    pub fn map_marching_squares(mask: u8) -> (r: [u8; 2])
        ensures
            r == MARCHING_SQUARES[mask as int],
    {
        MARCHING_SQUARES[mask as usize]
    }

    /// Builds the mesh of `layer`: one quad per non-empty tile, in storage
    /// order, and six indices per quad; `None` when the layer is empty.
    pub fn build_mesh(&self, layer: usize, borders: &ChunkBorders) -> (r: Option<ChunkMesh>)
        requires
            self.wf(),
            layer < 2,
            self.layer_ids_valid(layer as int),
        ensures
            r is None <==> layer_quads(*self, layer as int, *borders, 1024).len() == 0,
            r matches Some(m) ==> {
                &&& m.quads@ == layer_quads(*self, layer as int, *borders, 1024)
                &&& m.indices@.len() == 6 * m.quads@.len()
                &&& forall|t: int| 0 <= t < m.indices@.len() ==> #[trigger] m.indices@[t] == quad_index(t)
            },
    {
        let mut quads: Vec<TileQuad> = Vec::new();
        let mut indices: Vec<u16> = Vec::new();
        let mut sides: u16 = 0;
        let mut x: usize = 0;
        while x < CHUNK_SIZE
            invariant
                self.wf(),
                layer < 2,
                self.layer_ids_valid(layer as int),
                x <= 32,
                quads@ == layer_quads(*self, layer as int, *borders, (x * 32) as nat),
                quads@.len() <= x * 32,
                indices@.len() == 6 * quads@.len(),
                sides == 4 * quads@.len(),
                forall|t: int| 0 <= t < indices@.len() ==> #[trigger] indices@[t] == quad_index(t),
            decreases 32 - x,
        {
            let mut y: usize = 0;
            while y < CHUNK_SIZE
                invariant
                    self.wf(),
                    layer < 2,
                    self.layer_ids_valid(layer as int),
                    x < 32,
                    y <= 32,
                    quads@ == layer_quads(*self, layer as int, *borders, (x * 32 + y) as nat),
                    quads@.len() <= x * 32 + y,
                    indices@.len() == 6 * quads@.len(),
                    sides == 4 * quads@.len(),
                    forall|t: int| 0 <= t < indices@.len() ==> #[trigger] indices@[t] == quad_index(t),
                decreases 32 - y,
            {
                let ghost n: int = x * 32 + y;
                assert(n / 32 == x && n % 32 == y) by (nonlinear_arith)
                    requires n == x * 32 + y, y < 32;
                assert(x * 32 + y + 1 <= 1024) by (nonlinear_arith)
                    requires x < 32, y < 32;
                let id = self.get_tile(x, y, layer).id;
                if id != 0 {
                    let mask = self.tile_neighbours(x as i32, y as i32, layer, borders);
                    let shape = Self::map_marching_squares(mask);
                    assert(in_chunk(layer as int, x as int, y as int));
                    let atlas = TILE_TEX_COORDS[layer][(id - 1) as usize];
                    quads.push(TileQuad { x, y, atlas, shape });
                    let ghost q: int = quads@.len() - 1;
                    let ghost old_len: int = indices@.len() as int;
                    indices.push(sides + 1);
                    indices.push(sides + 3);
                    indices.push(sides);
                    indices.push(sides + 1);
                    indices.push(sides + 2);
                    indices.push(sides + 3);
                    sides = sides + 4;
                    proof {
                        assert forall|t: int| 0 <= t < indices@.len() implies #[trigger] indices@[t] == quad_index(t) by {
                            if t >= old_len {
                                let k = t - old_len;
                                assert(t / 6 == q && t % 6 == k) by (nonlinear_arith)
                                    requires t == 6 * q + k, 0 <= k < 6;
                            }
                        }
                    }
                }
                y = y + 1;
            }
            x = x + 1;
        }
        if indices.len() == 0 {
            return None;
        }
        Some(ChunkMesh { quads, indices })
    }
}

/// The pair drawn for one layer, if any.
pub open spec fn layer_draw(mesh: Option<MeshHandle>, materials: Seq<MaterialHandle>, layer: int) -> Seq<(MeshHandle, MaterialHandle)> {
    match mesh {
        Some(m) => if layer < materials.len() { seq![(m, materials[layer])] } else { Seq::empty() },
        None => Seq::empty(),
    }
}

/// Meshes of layers 0 and 1 zipped with the materials, keeping the layers
/// that have a mesh.
pub open spec fn draw_pairs(
    mesh0: Option<MeshHandle>,
    mesh1: Option<MeshHandle>,
    materials: Seq<MaterialHandle>,
) -> Seq<(MeshHandle, MaterialHandle)> {
    layer_draw(mesh0, materials, 0) + layer_draw(mesh1, materials, 1)
}

/// Position of a chunk in chunk space: chunk (x, y) covers the world tiles
/// `32 * x .. 32 * x + 32` by `32 * y .. 32 * y + 32`.
#[derive(Hash, PartialEq, Clone, Debug, Eq, Copy, Structural)]
pub struct ChunkPosition {
    pub x: i32,
    pub y: i32,
}

/// Whether chunk `pos` has a neighbour on every side without leaving `i32`.
pub open spec fn inner_position(pos: ChunkPosition) -> bool {
    i32::MIN < pos.x < i32::MAX && i32::MIN < pos.y < i32::MAX
}

/// Whether the world origin of chunk (x, y) is representable as `i32`.
pub open spec fn world_origin_fits(x: int, y: int) -> bool {
    &&& i32::MIN <= x * 32 <= i32::MAX
    &&& i32::MIN <= y * 32 <= i32::MAX
}

impl ChunkPosition {
    pub fn new(x: i32, y: i32) -> (r: Self)
        ensures
            r.x == x,
            r.y == y,
    {
        Self { x, y }
    }

    /// The region that contains this chunk.
    pub fn to_region_space(&self) -> (r: RegionPosition)
        ensures
            r.x == floor_div(self.x as int, REGION_WIDTH as int),
            r.y == floor_div(self.y as int, REGION_WIDTH as int),
    {
        RegionPosition {
            x: self.x.checked_div_euclid(REGION_WIDTH).unwrap(),
            y: self.y.checked_div_euclid(REGION_WIDTH).unwrap(),
        }
    }

    /// Whether the chunk has a neighbour position on every side.
    pub fn is_inner(&self) -> (r: bool)
        ensures
            r == inner_position(*self),
    {
        i32::MIN < self.x && self.x < i32::MAX && i32::MIN < self.y && self.y < i32::MAX
    }

    /// World coordinates of the chunk's lowest corner tile.
    pub fn to_world_space(&self) -> (r: (i32, i32))
        requires
            world_origin_fits(self.x as int, self.y as int),
        ensures
            r.0 == self.x * 32,
            r.1 == self.y * 32,
    {
        (self.x * CHUNK_SIZE_I32, self.y * CHUNK_SIZE_I32)
    }

    /// The chunk that contains world tile (x, y).
    pub fn from_world_space(x: i32, y: i32) -> (r: Self)
        ensures
            r.x == floor_div(x as int, 32),
            r.y == floor_div(y as int, 32),
    {
        Self {
            x: x.checked_div_euclid(CHUNK_SIZE_I32).unwrap(),
            y: y.checked_div_euclid(CHUNK_SIZE_I32).unwrap(),
        }
    }
}

/// Converting a chunk to world space and back gives the same chunk.
pub proof fn lemma_world_space_round_trip(c: ChunkPosition)
    requires
        world_origin_fits(c.x as int, c.y as int),
    ensures
        floor_div(c.x * 32, 32) == c.x,
        floor_div(c.y * 32, 32) == c.y,
{
    assert((c.x * 32) / 32 == c.x) by (nonlinear_arith);
    assert((c.y * 32) / 32 == c.y) by (nonlinear_arith);
}

/// Every world tile lies inside the chunk that `from_world_space` names:
/// it is that chunk's origin plus a local offset in `0..32`.
pub proof fn lemma_world_tile_in_its_chunk(x: int, y: int)
    ensures
        floor_div(x, 32) * 32 <= x < floor_div(x, 32) * 32 + 32,
        floor_div(y, 32) * 32 <= y < floor_div(y, 32) * 32 + 32,
        x == floor_div(x, 32) * 32 + floor_mod(x, 32),
        0 <= floor_mod(x, 32) < 32,
        y == floor_div(y, 32) * 32 + floor_mod(y, 32),
        0 <= floor_mod(y, 32) < 32,
{
}

/// A chunk lies in the region that `to_region_space` names.
pub proof fn lemma_chunk_in_its_region(c: ChunkPosition)
    ensures
        floor_div(c.x as int, REGION_WIDTH as int) * REGION_WIDTH <= c.x
            < floor_div(c.x as int, REGION_WIDTH as int) * REGION_WIDTH + REGION_WIDTH,
        floor_div(c.y as int, REGION_WIDTH as int) * REGION_WIDTH <= c.y
            < floor_div(c.y as int, REGION_WIDTH as int) * REGION_WIDTH + REGION_WIDTH,
{
}

} // verus!
