use vstd::prelude::*;
use crate::game::terrain::chunk::Chunk;
use crate::game::terrain::chunk_manager::ChunkBorders;

verus! {

/// Atlas cell (column, row) of the texture of each tile id (id 1 first),
/// for the background layer and the foreground layer.
pub const TILE_TEX_COORDS: [[[u8; 2]; 9]; 2] = [
    [[0, 0], [1, 0], [2, 0], [3, 2], [2, 1], [2, 2], [1, 2], [0, 2], [0, 2]],
    [[0, 0], [1, 0], [2, 0], [3, 2], [2, 1], [2, 2], [1, 2], [0, 2], [0, 2]],
];

/// Marching-squares shape (column, row in a tile's 7 x 7 sub-atlas) for
/// each neighbour mask.
pub const MARCHING_SQUARES: [[u8; 2]; 256] = [
    [0, 0], [0, 0], [3, 0], [3, 0], [0, 0], [0, 0], [3, 0], [3, 0],
    [3, 1], [3, 1], [4, 1], [2, 1], [3, 1], [3, 1], [4, 1], [2, 1],
    [3, 3], [3, 3], [4, 0], [4, 0], [3, 3], [3, 3], [2, 3], [2, 3],
    [3, 2], [3, 2], [6, 0], [6, 4], [3, 2], [3, 2], [5, 5], [2, 2],
    [0, 0], [0, 0], [3, 0], [3, 0], [0, 0], [0, 0], [3, 0], [3, 0],
    [3, 1], [3, 1], [4, 1], [2, 1], [3, 1], [3, 1], [4, 1], [2, 1],
    [3, 3], [3, 3], [4, 0], [4, 0], [3, 3], [3, 3], [2, 3], [2, 3],
    [3, 2], [3, 2], [6, 0], [6, 4], [3, 2], [3, 2], [5, 5], [2, 2],
    [1, 0], [1, 0], [2, 0], [2, 0], [1, 0], [1, 0], [2, 0], [2, 0],
    [1, 4], [1, 4], [6, 1], [6, 2], [1, 4], [1, 4], [6, 1], [6, 2],
    [0, 4], [0, 4], [5, 1], [5, 1], [0, 4], [0, 4], [6, 3], [6, 3],
    [5, 0], [5, 0], [4, 4], [1, 5], [5, 0], [5, 0], [1, 6], [0, 5],
    [1, 0], [1, 0], [2, 0], [2, 0], [1, 0], [1, 0], [2, 0], [2, 0],
    [0, 1], [0, 1], [5, 2], [1, 1], [0, 1], [0, 1], [5, 2], [1, 1],
    [0, 4], [0, 4], [5, 1], [5, 1], [0, 4], [0, 4], [6, 3], [6, 3],
    [5, 4], [5, 4], [3, 6], [2, 5], [5, 4], [5, 4], [4, 6], [2, 4],
    [0, 0], [0, 0], [3, 0], [3, 0], [0, 0], [0, 0], [3, 0], [3, 0],
    [3, 1], [3, 1], [4, 1], [2, 1], [3, 1], [3, 1], [4, 1], [2, 1],
    [3, 3], [3, 3], [4, 0], [4, 0], [3, 3], [3, 3], [2, 3], [2, 3],
    [3, 2], [3, 2], [6, 0], [6, 4], [3, 2], [3, 2], [5, 5], [2, 2],
    [0, 0], [0, 0], [3, 0], [3, 0], [0, 0], [0, 0], [3, 0], [3, 0],
    [3, 1], [3, 1], [4, 1], [2, 1], [3, 1], [3, 1], [4, 1], [2, 1],
    [3, 3], [3, 3], [4, 0], [4, 0], [3, 3], [3, 3], [2, 3], [2, 3],
    [3, 2], [3, 2], [6, 0], [6, 4], [3, 2], [3, 2], [5, 5], [2, 2],
    [1, 0], [1, 0], [2, 0], [2, 0], [1, 0], [1, 0], [2, 0], [2, 0],
    [1, 4], [1, 4], [6, 1], [6, 2], [1, 4], [1, 4], [6, 1], [6, 2],
    [0, 3], [0, 3], [5, 3], [5, 3], [0, 3], [0, 3], [1, 3], [1, 3],
    [4, 5], [4, 5], [3, 5], [5, 6], [4, 5], [4, 5], [0, 6], [3, 4],
    [1, 0], [1, 0], [2, 0], [2, 0], [1, 0], [1, 0], [2, 0], [2, 0],
    [0, 1], [0, 1], [5, 2], [1, 1], [0, 1], [0, 1], [5, 2], [1, 1],
    [0, 3], [0, 3], [5, 3], [5, 3], [0, 3], [0, 3], [1, 3], [1, 3],
    [0, 2], [0, 2], [2, 6], [4, 3], [0, 2], [0, 2], [4, 2], [1, 2],
];

/// One textured quad of a chunk mesh: the local tile it covers, the atlas
/// cell of the tile's texture and the marching-squares shape within it.
#[derive(Clone, Copy, Debug, PartialEq, Eq)]
pub struct TileQuad {
    pub x: usize,
    pub y: usize,
    pub atlas: [u8; 2],
    pub shape: [u8; 2],
}

/// The mesh of one chunk layer: four vertices per quad, in the order
/// (x - 0.5, y - 0.5), (x + 0.5, y - 0.5), (x + 0.5, y + 0.5), (x - 0.5, y + 0.5),
/// and six indices per quad.
pub struct ChunkMesh {
    pub quads: Vec<TileQuad>,
    pub indices: Vec<u16>,
}

/// Offset of the neighbour that bit `k` of a neighbour mask describes.
pub open spec fn neighbour_offset(k: int) -> (int, int) {
    if k == 0 {
        (-1, -1)
    } else if k == 1 {
        (-1, 0)
    } else if k == 2 {
        (-1, 1)
    } else if k == 3 {
        (0, -1)
    } else if k == 4 {
        (0, 1)
    } else if k == 5 {
        (1, -1)
    } else if k == 6 {
        (1, 0)
    } else {
        (1, 1)
    }
}

/// Offset of neighbour `k` of a tile, in mask bit order.
pub fn neighbour_offset_at(k: usize) -> (r: (i32, i32))
    requires
        k < 8,
    ensures
        r.0 == neighbour_offset(k as int).0,
        r.1 == neighbour_offset(k as int).1,
{
    if k == 0 {
        (-1, -1)
    } else if k == 1 {
        (-1, 0)
    } else if k == 2 {
        (-1, 1)
    } else if k == 3 {
        (0, -1)
    } else if k == 4 {
        (0, 1)
    } else if k == 5 {
        (1, -1)
    } else if k == 6 {
        (1, 0)
    } else {
        (1, 1)
    }
}

/// Value of bit `k` in a mask.
pub open spec fn bit_weight(k: int) -> int {
    if k == 0 {
        1
    } else if k == 1 {
        2
    } else if k == 2 {
        4
    } else if k == 3 {
        8
    } else if k == 4 {
        16
    } else if k == 5 {
        32
    } else if k == 6 {
        64
    } else {
        128
    }
}

/// Whether cell (nx, ny), with -1 <= nx, ny <= 32, is filled when meshing
/// `layer` of chunk `c`: cells of the chunk are filled when not empty, cells
/// just outside it are read from the borders.
pub open spec fn frame_filled(c: Chunk, layer: int, b: ChunkBorders, nx: int, ny: int) -> bool {
    if 0 <= nx < 32 && 0 <= ny < 32 {
        c.tile(layer, nx, ny).id > 0
    } else if ny == 32 {
        b.top[nx + 1]
    } else if ny == -1 {
        b.bottom[nx + 1]
    } else if nx == 32 {
        b.right[ny]
    } else {
        b.left[ny]
    }
}

/// Sum of the weights of the filled neighbours among the first `n`.
pub open spec fn mask_sum(c: Chunk, layer: int, b: ChunkBorders, x: int, y: int, n: nat) -> int
    decreases n,
{
    if n == 0 {
        0
    } else {
        let k = n - 1;
        mask_sum(c, layer, b, x, y, k as nat) + if frame_filled(
            c,
            layer,
            b,
            x + neighbour_offset(k).0,
            y + neighbour_offset(k).1,
        ) {
            bit_weight(k)
        } else {
            0
        }
    }
}

/// The neighbour mask of tile (x, y): bit `k` is set when the neighbour at
/// `neighbour_offset(k)` is filled.
pub open spec fn neighbour_mask(c: Chunk, layer: int, b: ChunkBorders, x: int, y: int) -> int {
    mask_sum(c, layer, b, x, y, 8)
}

/// The quad that meshing puts on non-empty tile (x, y) of `layer`.
pub open spec fn tile_quad(c: Chunk, layer: int, b: ChunkBorders, x: int, y: int) -> TileQuad {
    TileQuad {
        x: x as usize,
        y: y as usize,
        atlas: TILE_TEX_COORDS[layer][c.tile(layer, x, y).id - 1],
        shape: MARCHING_SQUARES[neighbour_mask(c, layer, b, x, y)],
    }
}

/// The quads of the non-empty tiles among the first `n` tiles of `layer`,
/// in storage order (column by column).
pub open spec fn layer_quads(c: Chunk, layer: int, b: ChunkBorders, n: nat) -> Seq<TileQuad>
    decreases n,
{
    if n == 0 {
        Seq::empty()
    } else {
        let i = n - 1;
        let prev = layer_quads(c, layer, b, i as nat);
        if c.tile(layer, i / 32, i % 32).id == 0 {
            prev
        } else {
            prev.push(tile_quad(c, layer, b, i / 32, i % 32))
        }
    }
}

/// Index `t` of a mesh's index list: quad `t / 6` is drawn as the two
/// triangles (1, 3, 0) and (1, 2, 3) of its four vertices.
pub open spec fn quad_index(t: int) -> int {
    let base = 4 * (t / 6);
    let k = t % 6;
    base + if k == 0 || k == 3 {
        1int
    } else if k == 1 || k == 5 {
        3
    } else if k == 2 {
        0
    } else {
        2
    }
}

/// Every index of a mesh with `n` quads names a vertex of the mesh, and the
/// six indices of quad `q` name only its own four vertices.
pub proof fn lemma_quad_indices_in_range(n: int, t: int)
    requires
        0 <= t < 6 * n,
    ensures
        4 * (t / 6) <= quad_index(t) < 4 * (t / 6) + 4,
        0 <= quad_index(t) < 4 * n,
{
    assert(0 <= t / 6 < n) by (nonlinear_arith)
        requires 0 <= t < 6 * n;
}

/// Bit `k` of a neighbour mask is set exactly when neighbour `k` is filled.
#[verifier::rlimit(50)]
pub proof fn lemma_neighbour_mask_bit(c: Chunk, layer: int, b: ChunkBorders, x: int, y: int, k: int)
    requires
        0 <= k < 8,
    ensures
        (neighbour_mask(c, layer, b, x, y) / bit_weight(k)) % 2 == if frame_filled(
            c,
            layer,
            b,
            x + neighbour_offset(k).0,
            y + neighbour_offset(k).1,
        ) {
            1int
        } else {
            0int
        },
{
    reveal_with_fuel(mask_sum, 9);
}

} // verus!
