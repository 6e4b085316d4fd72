use vstd::prelude::*;
use ahash::AHashMap;
use crate::engine::gpu_handle::{MaterialHandle, MeshHandle};
use crate::game::terrain::chunk::{
    floor_div, floor_mod, in_chunk, inner_position, Chunk, ChunkData, ChunkPosition, CHUNK_SIZE, CHUNK_SIZE_I32,
};
use crate::game::terrain::chunk_table::{
    chunk_table, table_contains, table_get, table_insert, table_keys, table_new, table_remove, ChunkKey,
};
use crate::game::terrain::mesh::{
    bit_weight, lemma_neighbour_mask_bit, layer_quads, neighbour_mask, neighbour_offset, neighbour_offset_at, quad_index, ChunkMesh,
};
use crate::game::terrain::rounding::{edit_chunk, edit_chunk_of, lemma_edit_chunk_exact};
use crate::game::terrain::tile::{Tile, MAX_TILE_ID};

verus! {

/// Solidity of the tiles just outside a chunk's edges, in one layer.
/// `top[i]` and `bottom[i]` describe the rows above and below the chunk at
/// local x = i - 1 (so index 0 and 33 are the corner tiles); `left[y]` and
/// `right[y]` describe the columns beside it.
pub struct ChunkBorders {
    pub top: [bool; 34],
    pub bottom: [bool; 34],
    pub left: [bool; 32],
    pub right: [bool; 32],
}

/// A layer mesh to build: the chunk, the layer and the layer's borders as
/// they stood when the job was made.
pub struct MeshJob {
    pub chunk_pos: ChunkPosition,
    pub layer: usize,
    pub borders: ChunkBorders,
}

/// Chunks within this many chunks of the player's chunk, horizontally, are
/// loaded and meshed.
pub const HORIZONTAL_CHUNK_LOAD_DISTANCE: i32 = 3;

/// Chunks within this many chunks of the player's chunk, vertically, are
/// loaded and meshed.
pub const VERTICAL_CHUNK_LOAD_DISTANCE: i32 = 2;

/// Most chunks whose data is loaded in one step.
pub const MAX_LOADS_PER_FRAME: usize = 4;

/// The player's position as the chunk logic reads it: the world tile that
/// holds it (the floor of each coordinate) and, per axis, whether the
/// coordinate is exactly that whole number. Every distance the chunk logic
/// compares is against a whole number of tiles, so these decide each
/// comparison exactly.
#[derive(Clone, Copy, Debug, PartialEq, Eq, Structural)]
pub struct PlayerPos {
    pub tile_x: i32,
    pub tile_y: i32,
    pub on_grid_x: bool,
    pub on_grid_y: bool,
}

impl PlayerPos {
    /// Twice the x coordinate, with any coordinate strictly between two
    /// whole numbers standing at the midpoint.
    pub open spec fn twice_x(self) -> int {
        2 * self.tile_x + if self.on_grid_x { 0int } else { 1int }
    }

    /// Twice the y coordinate, as `twice_x`.
    pub open spec fn twice_y(self) -> int {
        2 * self.tile_y + if self.on_grid_y { 0int } else { 1int }
    }

    /// The chunk the player stands in.
    pub open spec fn spec_chunk(self) -> ChunkPosition {
        ChunkPosition { x: floor_div(self.tile_x as int, 32) as i32, y: floor_div(self.tile_y as int, 32) as i32 }
    }

    pub fn chunk(&self) -> (r: ChunkPosition)
        ensures
            r == self.spec_chunk(),
    {
        ChunkPosition::from_world_space(self.tile_x, self.tile_y)
    }
}

/// Whether the centre of chunk column (or row) `c` lies at least `d` tiles
/// from the player coordinate whose double is `twice_p`.
pub open spec fn centre_far(c: int, twice_p: int, d: int) -> bool {
    let gap = 2 * (32 * c + 16) - twice_p;
    gap >= 2 * d || -gap >= 2 * d
}

/// Whether the chunk at `k` is far enough from the player to be unloaded.
pub open spec fn unload_far(k: ChunkKey, p: PlayerPos) -> bool {
    centre_far(k.0 as int, p.twice_x(), (HORIZONTAL_CHUNK_LOAD_DISTANCE + 2) * 32)
        || centre_far(k.1 as int, p.twice_y(), (VERTICAL_CHUNK_LOAD_DISTANCE + 2) * 32)
}

/// Whether the chunk at `k` is outside the meshed area around the player.
pub open spec fn mesh_far(k: ChunkKey, p: PlayerPos) -> bool {
    centre_far(k.0 as int, p.twice_x(), HORIZONTAL_CHUNK_LOAD_DISTANCE * 32)
        || centre_far(k.1 as int, p.twice_y(), VERTICAL_CHUNK_LOAD_DISTANCE * 32)
}

/// Whether the chunk at `k` is far enough from the player to drop its
/// meshes (both axes measured against the horizontal distance).
pub open spec fn mesh_drop_far(k: ChunkKey, p: PlayerPos) -> bool {
    centre_far(k.0 as int, p.twice_x(), (HORIZONTAL_CHUNK_LOAD_DISTANCE + 1) * 32)
        || centre_far(k.1 as int, p.twice_y(), (HORIZONTAL_CHUNK_LOAD_DISTANCE + 1) * 32)
}

/// The chunk position that key `k` stands for.
pub open spec fn pos_of(k: ChunkKey) -> ChunkPosition {
    ChunkPosition { x: k.0, y: k.1 }
}

/// Key of the chunk at `p` in the chunk table.
pub open spec fn key_of(p: ChunkPosition) -> ChunkKey {
    (p.x, p.y)
}

/// The chunk positions that data loading considers around the player's
/// chunk `c`: columns `c.x - 4 ..= c.x + 4`, each with the rows
/// `c.y - 3 ..= c.y + 3`, in that order.
pub open spec fn load_window(c: ChunkPosition) -> Seq<ChunkPosition> {
    Seq::new(
        63,
        |i: int|
            ChunkPosition {
                x: (c.x + i / 7 - (HORIZONTAL_CHUNK_LOAD_DISTANCE + 1)) as i32,
                y: (c.y + i % 7 - (VERTICAL_CHUNK_LOAD_DISTANCE + 1)) as i32,
            },
    )
}

/// The tile at world (x, y) of `layer`, when its chunk is loaded.
pub open spec fn world_tile(chunks: Map<ChunkKey, Chunk>, x: int, y: int, layer: int) -> Option<Tile> {
    let k = (floor_div(x, 32) as i32, floor_div(y, 32) as i32);
    if chunks.contains_key(k) {
        Some(chunks[k].tile(layer, floor_mod(x, 32), floor_mod(y, 32)))
    } else {
        None
    }
}

/// Whether all eight chunks around `pos` are loaded.
pub open spec fn neighbours_loaded(chunks: Map<ChunkKey, Chunk>, pos: ChunkPosition) -> bool {
    forall|k: int| 0 <= k < 8 ==> #[trigger] chunks.contains_key(
        ((pos.x + neighbour_offset(k).0) as i32, (pos.y + neighbour_offset(k).1) as i32),
    )
}

/// Whether meshing around player `p` drops the meshes of the chunk at `k`.
pub open spec fn drops_meshes(chunks: Map<ChunkKey, Chunk>, k: ChunkKey, p: PlayerPos) -> bool {
    &&& mesh_far(k, p)
    &&& mesh_drop_far(k, p)
    &&& (chunks[k].mesh_of(0).is_some() || chunks[k].mesh_of(1).is_some())
}

/// Whether meshing around player `p` queues the chunk at `k`: it is in the
/// meshed area, a layer waits for a mesh and all its neighbours are loaded.
pub open spec fn queues_for_mesh(chunks: Map<ChunkKey, Chunk>, k: ChunkKey, p: PlayerPos) -> bool {
    &&& chunks.contains_key(k)
    &&& !mesh_far(k, p)
    &&& (chunks[k].dirty_layer(0) || chunks[k].dirty_layer(1))
    &&& neighbours_loaded(chunks, pos_of(k))
}

/// `c` is `before` with its meshes dropped and both layers marked for
/// meshing.
pub open spec fn meshes_dropped(c: Chunk, before: Chunk) -> bool {
    &&& c.wf() == before.wf()
    &&& c.same_tiles(before)
    &&& c.mesh_of(0).is_none()
    &&& c.mesh_of(1).is_none()
    &&& c.dirty_layer(0)
    &&& c.dirty_layer(1)
    &&& c.save_flag() == before.save_flag()
}

/// The data most recently given for the chunk at `k` in `loaded`, if any.
pub open spec fn last_loaded(loaded: Seq<(ChunkPosition, ChunkData)>, k: ChunkKey) -> Option<ChunkData>
    decreases loaded.len(),
{
    if loaded.len() == 0 {
        None
    } else if key_of(loaded.last().0) == k {
        Some(loaded.last().1)
    } else {
        last_loaded(loaded.drop_last(), k)
    }
}

/// `c` is a freshly loaded chunk holding the tiles of `d`.
pub open spec fn fresh_chunk(c: Chunk, d: ChunkData) -> bool {
    &&& c.wf()
    &&& forall|l: int, x: int, y: int| in_chunk(l, x, y) ==> #[trigger] c.tile(l, x, y) == d.tile(l, x, y)
    &&& c.mesh_of(0).is_none()
    &&& c.mesh_of(1).is_none()
    &&& c.dirty_layer(0)
    &&& c.dirty_layer(1)
    &&& !c.save_flag()
}

/// Whether local tile (x, y) of `layer` in the chunk at `k` is solid; a
/// chunk that is not loaded counts as solid.
pub open spec fn edge_solid(chunks: Map<ChunkKey, Chunk>, k: ChunkKey, layer: int, x: int, y: int) -> bool {
    !chunks.contains_key(k) || chunks[k].tile(layer, x, y).is_solid()
}

/// Whether `b` holds the borders of `layer` of the chunk at `pos`: each
/// border tile is read from the neighbouring chunk on that side (solid when
/// that chunk is not loaded); the corner entries of the top and bottom rows
/// are read from the west and east neighbours' top or bottom corner tiles,
/// and are solid when the north (top) or south (bottom) chunk is missing.
pub open spec fn borders_of(chunks: Map<ChunkKey, Chunk>, pos: ChunkPosition, layer: int, b: ChunkBorders) -> bool {
    let north = (pos.x, (pos.y + 1) as i32);
    let south = (pos.x, (pos.y - 1) as i32);
    let west = ((pos.x - 1) as i32, pos.y);
    let east = ((pos.x + 1) as i32, pos.y);
    &&& forall|i: int| 0 <= i < 32 ==> #[trigger] b.top[i + 1] == edge_solid(chunks, north, layer, i, 0)
    &&& b.top[0] == (!chunks.contains_key(north) || edge_solid(chunks, west, layer, 31, 31))
    &&& b.top[33] == (!chunks.contains_key(north) || edge_solid(chunks, east, layer, 0, 31))
    &&& forall|i: int| 0 <= i < 32 ==> #[trigger] b.bottom[i + 1] == edge_solid(chunks, south, layer, i, 31)
    &&& b.bottom[0] == (!chunks.contains_key(south) || edge_solid(chunks, west, layer, 31, 0))
    &&& b.bottom[33] == (!chunks.contains_key(south) || edge_solid(chunks, east, layer, 0, 0))
    &&& forall|i: int| 0 <= i < 32 ==> #[trigger] b.left[i] == edge_solid(chunks, west, layer, 31, i)
    &&& forall|i: int| 0 <= i < 32 ==> #[trigger] b.right[i] == edge_solid(chunks, east, layer, 0, i)
}

/// Whether a position with key `k` occurs among the first `n` entries of `q`.
pub open spec fn queued_before(q: Seq<ChunkPosition>, k: ChunkKey, n: int) -> bool {
    exists|j: int| 0 <= j < n && #[trigger] key_of(q[j]) == k
}

/// For the first `n` queued positions whose chunk is loaded, in queue
/// order: the position and whether its background and foreground layers
/// wait for a mesh. A position that occurred earlier in the queue has had
/// its marks removed already, so both flags are false.
pub open spec fn queued_flags(chunks: Map<ChunkKey, Chunk>, q: Seq<ChunkPosition>, n: nat) -> Seq<(ChunkPosition, bool, bool)>
    decreases n,
{
    if n == 0 {
        Seq::empty()
    } else {
        let i = n - 1;
        let prev = queued_flags(chunks, q, i as nat);
        let k = key_of(q[i]);
        if chunks.contains_key(k) {
            let first = !queued_before(q, k, i);
            prev.push((q[i], first && chunks[k].dirty_layer(0), first && chunks[k].dirty_layer(1)))
        } else {
            prev
        }
    }
}

/// The (position, layer) jobs for the first `n` flag entries: the
/// foreground job before the background job of each entry.
pub open spec fn jobs_for(e: Seq<(ChunkPosition, bool, bool)>, n: nat) -> Seq<(ChunkPosition, usize)>
    decreases n,
{
    if n == 0 {
        Seq::empty()
    } else {
        let i = n - 1;
        jobs_for(e, i as nat) + (if e[i].2 { seq![(e[i].0, 1usize)] } else { Seq::empty() }) + (if e[i].1 {
            seq![(e[i].0, 0usize)]
        } else {
            Seq::empty()
        })
    }
}

/// Every entry of `queued_flags` names a loaded chunk.
proof fn lemma_queued_flags_loaded(chunks: Map<ChunkKey, Chunk>, q: Seq<ChunkPosition>, n: nat)
    requires
        n <= q.len(),
    ensures
        forall|u: int| 0 <= u < queued_flags(chunks, q, n).len() ==> #[trigger] chunks.contains_key(
            key_of(queued_flags(chunks, q, n)[u].0),
        ),
    decreases n,
{
    if n > 0 {
        let prev = queued_flags(chunks, q, (n - 1) as nat);
        lemma_queued_flags_loaded(chunks, q, (n - 1) as nat);
        let cur = queued_flags(chunks, q, n);
        assert forall|u: int| 0 <= u < cur.len() implies #[trigger] chunks.contains_key(key_of(cur[u].0)) by {
            if u < prev.len() {
                assert(cur[u] == prev[u]);
                assert(chunks.contains_key(key_of(prev[u].0)));
            }
        }
    }
}

/// `c` is `before` with both layers marked as meshed.
pub open spec fn marks_removed(c: Chunk, before: Chunk) -> bool {
    &&& c.wf() == before.wf()
    &&& c.same_tiles(before)
    &&& c.same_meshes(before)
    &&& !c.dirty_layer(0)
    &&& !c.dirty_layer(1)
    &&& c.save_flag() == before.save_flag()
}

/// Step towards the neighbouring chunk that shares the edge at local
/// coordinate `l`, if `l` lies on an edge.
pub open spec fn edge_step(l: int) -> int {
    if l == 0 {
        -1
    } else if l == 31 {
        1
    } else {
        0
    }
}

/// Key of the chunk that an edit of world tile (x, y) reaches: each
/// coordinate is taken as a single-precision value, divided by 32 and
/// floored (`edit_chunk`). Below 2^24 in magnitude this is the chunk that
/// holds the tile; further out, rounding can name a neighbouring chunk.
pub open spec fn tile_chunk(x: int, y: int) -> ChunkKey {
    (edit_chunk(x) as i32, edit_chunk(y) as i32)
}

/// Whether editing world tile (x, y) writes local tile (a, b) of the chunk
/// at `k`: the edit reaches chunk `tile_chunk(x, y)`, at the local offset
/// `(x mod 32, y mod 32)`.
pub open spec fn edit_lands(x: int, y: int, k: ChunkKey, a: int, b: int) -> bool {
    tile_chunk(x, y) == k && floor_mod(x, 32) == a && floor_mod(y, 32) == b
}

/// Whether editing world tile (x, y) marks the chunk at `k` for a new
/// mesh: the tile's own chunk, and the chunks across each edge (and the
/// corner) that the tile touches.
pub open spec fn remesh_target(x: int, y: int, k: ChunkKey) -> bool {
    let c = tile_chunk(x, y);
    let ax = edge_step(floor_mod(x, 32));
    let ay = edge_step(floor_mod(y, 32));
    ||| k == c
    ||| (ax != 0 && k == ((c.0 + ax) as i32, c.1))
    ||| (ay != 0 && k == (c.0, (c.1 + ay) as i32))
    ||| (ax != 0 && ay != 0 && k == ((c.0 + ax) as i32, (c.1 + ay) as i32))
}

/// `after` is the chunk map `before` once world tile (x, y) of `layer` is
/// set to `id`: when the tile's chunk is loaded, the tile changes, the
/// chunk is marked for saving, and every remesh target has `layer` marked
/// for a new mesh; nothing else changes.
pub open spec fn tile_edited(
    before: Map<ChunkKey, Chunk>,
    after: Map<ChunkKey, Chunk>,
    x: int,
    y: int,
    id: u8,
    layer: int,
) -> bool {
    let c = tile_chunk(x, y);
    let hit = before.contains_key(c);
    &&& after.dom() == before.dom()
    &&& forall|k: ChunkKey| #[trigger] before.contains_key(k) ==> {
        &&& after[k].wf() == before[k].wf()
        &&& after[k].same_meshes(before[k])
        &&& forall|l: int, a: int, b: int| in_chunk(l, a, b) ==> #[trigger] after[k].tile(l, a, b) == if hit && k == c
            && l == layer && a == floor_mod(x, 32) && b == floor_mod(y, 32) {
            Tile { id }
        } else {
            before[k].tile(l, a, b)
        }
        &&& after[k].dirty_layer(layer) == (before[k].dirty_layer(layer) || (hit && remesh_target(x, y, k)))
        &&& after[k].dirty_layer(1 - layer) == before[k].dirty_layer(1 - layer)
        &&& after[k].save_flag() == (before[k].save_flag() || (hit && k == c))
    }
}

/// Whether offset (i, j) from an explosion's centre is blasted by an
/// explosion of `radius`: the offsets `-radius..radius` on each axis whose
/// squared distance is at most `radius * radius`.
pub open spec fn in_blast(radius: int, i: int, j: int) -> bool {
    -radius <= i < radius && -radius <= j < radius && i * i + j * j <= radius * radius
}

/// Whether the explosion has cleared the tile of chunk `k` at local
/// (a, b): the edit of some blasted world tile lands there.
pub open spec fn blast_hits_tile(radius: int, cx: int, cy: int, k: ChunkKey, a: int, b: int) -> bool {
    exists|i: int, j: int| #[trigger] in_blast(radius, i, j) && edit_lands(cx + i, cy + j, k, a, b)
}

/// Whether the edit of some blast offset handled before (i0, j0) lands on
/// local tile (a, b) of the chunk at `k`.
pub open spec fn blast_before_hits(radius: int, cx: int, cy: int, i0: int, j0: int, k: ChunkKey, a: int, b: int) -> bool {
    exists|i: int, j: int| #[trigger] blast_before(radius, i, j, i0, j0) && edit_lands(cx + i, cy + j, k, a, b)
}

/// Whether some blasted tile lies in the chunk at `k`.
pub open spec fn blast_touches(radius: int, cx: int, cy: int, k: ChunkKey) -> bool {
    exists|i: int, j: int| #[trigger] in_blast(radius, i, j) && tile_chunk(cx + i, cy + j) == k
}

/// Whether some blasted tile in a loaded chunk marks the chunk at `k` for
/// a new mesh.
pub open spec fn blast_remeshes(chunks: Map<ChunkKey, Chunk>, radius: int, cx: int, cy: int, k: ChunkKey) -> bool {
    exists|i: int, j: int| #[trigger]
        in_blast(radius, i, j) && chunks.contains_key(tile_chunk(cx + i, cy + j)) && remesh_target(cx + i, cy + j, k)
}

/// `after` is `before` once an explosion of `radius` at world (cx, cy)
/// cleared the foreground tiles of the blast in loaded chunks: cleared
/// tiles become empty, their chunks are marked for saving, and every chunk
/// that shows a cleared tile has its foreground marked for a new mesh.
pub open spec fn explosion_applied(
    before: Map<ChunkKey, Chunk>,
    after: Map<ChunkKey, Chunk>,
    radius: int,
    cx: int,
    cy: int,
) -> bool {
    &&& after.dom() == before.dom()
    &&& forall|k: ChunkKey| #[trigger] before.contains_key(k) ==> {
        &&& after[k].wf() == before[k].wf()
        &&& after[k].same_meshes(before[k])
        &&& forall|l: int, a: int, b: int| in_chunk(l, a, b) ==> #[trigger] after[k].tile(l, a, b) == if l == 1
            && blast_hits_tile(radius, cx, cy, k, a, b) {
            Tile { id: 0 }
        } else {
            before[k].tile(l, a, b)
        }
        &&& after[k].dirty_layer(1) == (before[k].dirty_layer(1) || blast_remeshes(before, radius, cx, cy, k))
        &&& after[k].dirty_layer(0) == before[k].dirty_layer(0)
        &&& after[k].save_flag() == (before[k].save_flag() || blast_touches(radius, cx, cy, k))
    }
}

/// Blast offsets that the explosion loop handles before offset (i0, j0).
pub open spec fn blast_before(radius: int, i: int, j: int, i0: int, j0: int) -> bool {
    in_blast(radius, i, j) && (i < i0 || (i == i0 && j < j0))
}

/// `after` is `before` once the explosion loop handled every blast offset
/// before (i0, j0).
pub open spec fn explosion_prefix(
    before: Map<ChunkKey, Chunk>,
    after: Map<ChunkKey, Chunk>,
    radius: int,
    cx: int,
    cy: int,
    i0: int,
    j0: int,
) -> bool {
    &&& after.dom() == before.dom()
    &&& forall|k: ChunkKey| #[trigger] before.contains_key(k) ==> {
        &&& after[k].wf() == before[k].wf()
        &&& after[k].same_meshes(before[k])
        &&& forall|l: int, a: int, b: int| in_chunk(l, a, b) ==> #[trigger] after[k].tile(l, a, b) == if l == 1
            && blast_before_hits(radius, cx, cy, i0, j0, k, a, b) {
            Tile { id: 0 }
        } else {
            before[k].tile(l, a, b)
        }
        &&& after[k].dirty_layer(1) == (before[k].dirty_layer(1) || exists|i: int, j: int| #[trigger]
            blast_before(radius, i, j, i0, j0) && before.contains_key(tile_chunk(cx + i, cy + j)) && remesh_target(
            cx + i,
            cy + j,
            k,
        ))
        &&& after[k].dirty_layer(0) == before[k].dirty_layer(0)
        &&& after[k].save_flag() == (before[k].save_flag() || exists|i: int, j: int| #[trigger]
            blast_before(radius, i, j, i0, j0) && tile_chunk(cx + i, cy + j) == k)
    }
}

/// A world tile is the local tile of its chunk at its local offset.
proof fn lemma_world_tile_local(x: int, y: int)
    ensures
        x == floor_div(x, 32) * 32 + floor_mod(x, 32),
        y == floor_div(y, 32) * 32 + floor_mod(y, 32),
        0 <= floor_mod(x, 32) < 32,
        0 <= floor_mod(y, 32) < 32,
{
    crate::game::terrain::chunk::lemma_world_tile_in_its_chunk(x, y);
}

/// One step of the explosion loop: handling offset (i, j) extends the
/// handled prefix to (i, j + 1).
proof fn lemma_explosion_step(
    start: Map<ChunkKey, Chunk>,
    cur: Map<ChunkKey, Chunk>,
    next: Map<ChunkKey, Chunk>,
    radius: int,
    cx: int,
    cy: int,
    i: int,
    j: int,
)
    requires
        explosion_prefix(start, cur, radius, cx, cy, i, j),
        i32::MIN <= cx + i <= i32::MAX,
        i32::MIN <= cy + j <= i32::MAX,
        if in_blast(radius, i, j) {
            tile_edited(cur, next, cx + i, cy + j, 0, 1)
        } else {
            next == cur
        },
    ensures
        explosion_prefix(start, next, radius, cx, cy, i, j + 1),
{
    let x = cx + i;
    let y = cy + j;
    let c = tile_chunk(x, y);
    lemma_world_tile_local(x, y);
    assert forall|ii: int, jj: int| #[trigger] blast_before(radius, ii, jj, i, j + 1) <==> (blast_before(
        radius,
        ii,
        jj,
        i,
        j,
    ) || (ii == i && jj == j && in_blast(radius, i, j))) by {}
    assert forall|k: ChunkKey| #[trigger] start.contains_key(k) implies {
        &&& next[k].wf() == start[k].wf()
        &&& next[k].same_meshes(start[k])
        &&& forall|l: int, a: int, b: int| in_chunk(l, a, b) ==> #[trigger] next[k].tile(l, a, b) == if l == 1
            && blast_before_hits(radius, cx, cy, i, j + 1, k, a, b) {
            Tile { id: 0 }
        } else {
            start[k].tile(l, a, b)
        }
        &&& next[k].dirty_layer(1) == (start[k].dirty_layer(1) || exists|ii: int, jj: int| #[trigger]
            blast_before(radius, ii, jj, i, j + 1) && start.contains_key(tile_chunk(cx + ii, cy + jj))
            && remesh_target(cx + ii, cy + jj, k))
        &&& next[k].dirty_layer(0) == start[k].dirty_layer(0)
        &&& next[k].save_flag() == (start[k].save_flag() || exists|ii: int, jj: int| #[trigger]
            blast_before(radius, ii, jj, i, j + 1) && tile_chunk(cx + ii, cy + jj) == k)
    } by {
        assert(cur.contains_key(k));
        if in_blast(radius, i, j) {
            assert forall|l: int, a: int, b: int| in_chunk(l, a, b) implies #[trigger] next[k].tile(l, a, b) == if l == 1
                && blast_before_hits(radius, cx, cy, i, j + 1, k, a, b) {
                Tile { id: 0 }
            } else {
                start[k].tile(l, a, b)
            } by {
                assert(cur[k].tile(l, a, b) == if l == 1 && blast_before_hits(radius, cx, cy, i, j, k, a, b) {
                    Tile { id: 0 }
                } else {
                    start[k].tile(l, a, b)
                });
                if edit_lands(x, y, k, a, b) {
                    assert(blast_before(radius, i, j, i, j + 1));
                    assert(blast_before_hits(radius, cx, cy, i, j + 1, k, a, b));
                }
                if blast_before_hits(radius, cx, cy, i, j, k, a, b) {
                    let (ii, jj) = choose|ii: int, jj: int| #[trigger] blast_before(radius, ii, jj, i, j)
                        && edit_lands(cx + ii, cy + jj, k, a, b);
                    assert(blast_before(radius, ii, jj, i, j + 1));
                    assert(blast_before_hits(radius, cx, cy, i, j + 1, k, a, b));
                }
                if blast_before_hits(radius, cx, cy, i, j + 1, k, a, b) {
                    let (ii, jj) = choose|ii: int, jj: int| #[trigger] blast_before(radius, ii, jj, i, j + 1)
                        && edit_lands(cx + ii, cy + jj, k, a, b);
                    if !(ii == i && jj == j) {
                        assert(blast_before(radius, ii, jj, i, j));
                        assert(blast_before_hits(radius, cx, cy, i, j, k, a, b));
                    }
                }
            }
            // dirty flag of the foreground
            let old_ex = exists|ii: int, jj: int| #[trigger]
                blast_before(radius, ii, jj, i, j) && start.contains_key(tile_chunk(cx + ii, cy + jj)) && remesh_target(
                cx + ii,
                cy + jj,
                k,
            );
            let new_ex = exists|ii: int, jj: int| #[trigger]
                blast_before(radius, ii, jj, i, j + 1) && start.contains_key(tile_chunk(cx + ii, cy + jj))
                && remesh_target(cx + ii, cy + jj, k);
            assert(cur.dom() == start.dom());
            assert(cur[k].dirty_layer(1) == (start[k].dirty_layer(1) || old_ex));
            assert(next[k].dirty_layer(1) == (cur[k].dirty_layer(1) || (cur.contains_key(c) && remesh_target(x, y, k))));
            if next[k].dirty_layer(1) && !start[k].dirty_layer(1) {
                if old_ex {
                    let (ii, jj) = choose|ii: int, jj: int| #[trigger]
                        blast_before(radius, ii, jj, i, j) && start.contains_key(tile_chunk(cx + ii, cy + jj)) && remesh_target(
                        cx + ii,
                        cy + jj,
                        k,
                    );
                    assert(blast_before(radius, ii, jj, i, j + 1));
                    assert(new_ex);
                } else {
                    assert(cur.contains_key(c) && remesh_target(x, y, k));
                    assert(blast_before(radius, i, j, i, j + 1));
                    assert(start.contains_key(tile_chunk(cx + i, cy + j)));
                    assert(new_ex);
                }
            }
            if new_ex {
                let (ii, jj) = choose|ii: int, jj: int| #[trigger]
                    blast_before(radius, ii, jj, i, j + 1) && start.contains_key(tile_chunk(cx + ii, cy + jj))
                    && remesh_target(cx + ii, cy + jj, k);
                if !(ii == i && jj == j) {
                    assert(blast_before(radius, ii, jj, i, j));
                }
            }
            assert(next[k].dirty_layer(1) == (start[k].dirty_layer(1) || new_ex));
            // save flag
            let old_sv = exists|ii: int, jj: int| #[trigger] blast_before(radius, ii, jj, i, j) && tile_chunk(cx + ii, cy + jj) == k;
            let new_sv = exists|ii: int, jj: int| #[trigger] blast_before(radius, ii, jj, i, j + 1) && tile_chunk(cx + ii, cy + jj) == k;
            assert(cur[k].save_flag() == (start[k].save_flag() || old_sv));
            assert(next[k].save_flag() == (cur[k].save_flag() || (cur.contains_key(c) && k == c)));
            if next[k].save_flag() && !start[k].save_flag() {
                if old_sv {
                    let (ii, jj) = choose|ii: int, jj: int| #[trigger] blast_before(radius, ii, jj, i, j) && tile_chunk(cx + ii, cy + jj) == k;
                    assert(blast_before(radius, ii, jj, i, j + 1));
                    assert(new_sv);
                } else {
                    assert(k == c);
                    assert(blast_before(radius, i, j, i, j + 1));
                    assert(tile_chunk(cx + i, cy + j) == k);
                    assert(new_sv);
                }
            }
            if new_sv {
                let (ii, jj) = choose|ii: int, jj: int| #[trigger] blast_before(radius, ii, jj, i, j + 1) && tile_chunk(cx + ii, cy + jj) == k;
                if !(ii == i && jj == j) {
                    assert(blast_before(radius, ii, jj, i, j));
                }
            }
            assert(next[k].save_flag() == (start[k].save_flag() || new_sv));
        } else {
            assert forall|l: int, a: int, b: int| in_chunk(l, a, b) implies #[trigger] next[k].tile(l, a, b) == if l == 1
                && blast_before_hits(radius, cx, cy, i, j + 1, k, a, b) {
                Tile { id: 0 }
            } else {
                start[k].tile(l, a, b)
            } by {
                assert(cur[k].tile(l, a, b) == if l == 1 && blast_before_hits(radius, cx, cy, i, j, k, a, b) {
                    Tile { id: 0 }
                } else {
                    start[k].tile(l, a, b)
                });
                if blast_before_hits(radius, cx, cy, i, j, k, a, b) {
                    let (ii, jj) = choose|ii: int, jj: int| #[trigger] blast_before(radius, ii, jj, i, j)
                        && edit_lands(cx + ii, cy + jj, k, a, b);
                    assert(blast_before(radius, ii, jj, i, j + 1));
                }
                if blast_before_hits(radius, cx, cy, i, j + 1, k, a, b) {
                    let (ii, jj) = choose|ii: int, jj: int| #[trigger] blast_before(radius, ii, jj, i, j + 1)
                        && edit_lands(cx + ii, cy + jj, k, a, b);
                    assert(blast_before(radius, ii, jj, i, j));
                }
            }
            let new_ex = exists|ii: int, jj: int| #[trigger]
                blast_before(radius, ii, jj, i, j + 1) && start.contains_key(tile_chunk(cx + ii, cy + jj))
                && remesh_target(cx + ii, cy + jj, k);
            let old_ex = exists|ii: int, jj: int| #[trigger]
                blast_before(radius, ii, jj, i, j) && start.contains_key(tile_chunk(cx + ii, cy + jj)) && remesh_target(
                cx + ii,
                cy + jj,
                k,
            );
            if new_ex {
                let (ii, jj) = choose|ii: int, jj: int| #[trigger]
                    blast_before(radius, ii, jj, i, j + 1) && start.contains_key(tile_chunk(cx + ii, cy + jj))
                    && remesh_target(cx + ii, cy + jj, k);
                assert(blast_before(radius, ii, jj, i, j));
            }
            if old_ex {
                let (ii, jj) = choose|ii: int, jj: int| #[trigger]
                    blast_before(radius, ii, jj, i, j) && start.contains_key(tile_chunk(cx + ii, cy + jj)) && remesh_target(
                    cx + ii,
                    cy + jj,
                    k,
                );
                assert(blast_before(radius, ii, jj, i, j + 1));
                assert(new_ex);
            }
            let new_sv = exists|ii: int, jj: int| #[trigger] blast_before(radius, ii, jj, i, j + 1) && tile_chunk(cx + ii, cy + jj) == k;
            let old_sv = exists|ii: int, jj: int| #[trigger] blast_before(radius, ii, jj, i, j) && tile_chunk(cx + ii, cy + jj) == k;
            if new_sv {
                let (ii, jj) = choose|ii: int, jj: int| #[trigger] blast_before(radius, ii, jj, i, j + 1) && tile_chunk(cx + ii, cy + jj) == k;
                assert(blast_before(radius, ii, jj, i, j));
            }
            if old_sv {
                let (ii, jj) = choose|ii: int, jj: int| #[trigger] blast_before(radius, ii, jj, i, j) && tile_chunk(cx + ii, cy + jj) == k;
                assert(blast_before(radius, ii, jj, i, j + 1));
                assert(new_sv);
            }
        }
    }
}

/// The handled prefix depends only on which offsets it holds.
proof fn lemma_explosion_prefix_same(
    start: Map<ChunkKey, Chunk>,
    m: Map<ChunkKey, Chunk>,
    radius: int,
    cx: int,
    cy: int,
    i0: int,
    j0: int,
    i1: int,
    j1: int,
)
    requires
        explosion_prefix(start, m, radius, cx, cy, i0, j0),
        forall|ii: int, jj: int| blast_before(radius, ii, jj, i0, j0) == blast_before(radius, ii, jj, i1, j1),
    ensures
        explosion_prefix(start, m, radius, cx, cy, i1, j1),
{
    assert forall|k: ChunkKey| #[trigger] start.contains_key(k) implies {
        &&& forall|l: int, a: int, b: int| in_chunk(l, a, b) ==> #[trigger] m[k].tile(l, a, b) == if l == 1
            && blast_before_hits(radius, cx, cy, i1, j1, k, a, b) {
            Tile { id: 0 }
        } else {
            start[k].tile(l, a, b)
        }
        &&& m[k].dirty_layer(1) == (start[k].dirty_layer(1) || exists|ii: int, jj: int| #[trigger]
            blast_before(radius, ii, jj, i1, j1) && start.contains_key(tile_chunk(cx + ii, cy + jj)) && remesh_target(
            cx + ii,
            cy + jj,
            k,
        ))
        &&& m[k].save_flag() == (start[k].save_flag() || exists|ii: int, jj: int| #[trigger]
            blast_before(radius, ii, jj, i1, j1) && tile_chunk(cx + ii, cy + jj) == k)
    } by {
        let e0 = exists|ii: int, jj: int| #[trigger]
            blast_before(radius, ii, jj, i0, j0) && start.contains_key(tile_chunk(cx + ii, cy + jj)) && remesh_target(
            cx + ii,
            cy + jj,
            k,
        );
        let e1 = exists|ii: int, jj: int| #[trigger]
            blast_before(radius, ii, jj, i1, j1) && start.contains_key(tile_chunk(cx + ii, cy + jj)) && remesh_target(
            cx + ii,
            cy + jj,
            k,
        );
        if e0 {
            let (ii, jj) = choose|ii: int, jj: int| #[trigger]
                blast_before(radius, ii, jj, i0, j0) && start.contains_key(tile_chunk(cx + ii, cy + jj)) && remesh_target(
                cx + ii,
                cy + jj,
                k,
            );
            assert(blast_before(radius, ii, jj, i1, j1));
        }
        if e1 {
            let (ii, jj) = choose|ii: int, jj: int| #[trigger]
                blast_before(radius, ii, jj, i1, j1) && start.contains_key(tile_chunk(cx + ii, cy + jj)) && remesh_target(
                cx + ii,
                cy + jj,
                k,
            );
            assert(blast_before(radius, ii, jj, i0, j0));
        }
        let s0 = exists|ii: int, jj: int| #[trigger] blast_before(radius, ii, jj, i0, j0) && tile_chunk(cx + ii, cy + jj) == k;
        let s1 = exists|ii: int, jj: int| #[trigger] blast_before(radius, ii, jj, i1, j1) && tile_chunk(cx + ii, cy + jj) == k;
        if s0 {
            let (ii, jj) = choose|ii: int, jj: int| #[trigger] blast_before(radius, ii, jj, i0, j0) && tile_chunk(cx + ii, cy + jj) == k;
            assert(blast_before(radius, ii, jj, i1, j1));
        }
        if s1 {
            let (ii, jj) = choose|ii: int, jj: int| #[trigger] blast_before(radius, ii, jj, i1, j1) && tile_chunk(cx + ii, cy + jj) == k;
            assert(blast_before(radius, ii, jj, i0, j0));
        }
        assert forall|l: int, a: int, b: int| in_chunk(l, a, b) implies #[trigger] m[k].tile(l, a, b) == if l == 1
            && blast_before_hits(radius, cx, cy, i1, j1, k, a, b) {
            Tile { id: 0 }
        } else {
            start[k].tile(l, a, b)
        } by {
            if blast_before_hits(radius, cx, cy, i0, j0, k, a, b) {
                let (ii, jj) = choose|ii: int, jj: int| #[trigger] blast_before(radius, ii, jj, i0, j0)
                    && edit_lands(cx + ii, cy + jj, k, a, b);
                assert(blast_before(radius, ii, jj, i1, j1));
            }
            if blast_before_hits(radius, cx, cy, i1, j1, k, a, b) {
                let (ii, jj) = choose|ii: int, jj: int| #[trigger] blast_before(radius, ii, jj, i1, j1)
                    && edit_lands(cx + ii, cy + jj, k, a, b);
                assert(blast_before(radius, ii, jj, i0, j0));
            }
        }
    }
}

/// Once every row is handled, the whole blast has been applied.
proof fn lemma_explosion_done(start: Map<ChunkKey, Chunk>, m: Map<ChunkKey, Chunk>, radius: int, cx: int, cy: int, i0: int)
    requires
        explosion_prefix(start, m, radius, cx, cy, i0, -radius),
        i0 >= radius,
    ensures
        explosion_applied(start, m, radius, cx, cy),
{
    assert forall|ii: int, jj: int| #[trigger] blast_before(radius, ii, jj, i0, -radius) == in_blast(radius, ii, jj) by {}
    assert forall|k: ChunkKey| #[trigger] start.contains_key(k) implies {
        &&& forall|l: int, a: int, b: int| in_chunk(l, a, b) ==> #[trigger] m[k].tile(l, a, b) == if l == 1
            && blast_hits_tile(radius, cx, cy, k, a, b) {
            Tile { id: 0 }
        } else {
            start[k].tile(l, a, b)
        }
        &&& m[k].dirty_layer(1) == (start[k].dirty_layer(1) || blast_remeshes(start, radius, cx, cy, k))
        &&& m[k].save_flag() == (start[k].save_flag() || blast_touches(radius, cx, cy, k))
    } by {
        let e0 = exists|ii: int, jj: int| #[trigger]
            blast_before(radius, ii, jj, i0, -radius) && start.contains_key(tile_chunk(cx + ii, cy + jj)) && remesh_target(
            cx + ii,
            cy + jj,
            k,
        );
        if e0 {
            let (ii, jj) = choose|ii: int, jj: int| #[trigger]
                blast_before(radius, ii, jj, i0, -radius) && start.contains_key(tile_chunk(cx + ii, cy + jj)) && remesh_target(
                cx + ii,
                cy + jj,
                k,
            );
            assert(in_blast(radius, ii, jj));
        }
        if blast_remeshes(start, radius, cx, cy, k) {
            let (ii, jj) = choose|ii: int, jj: int| #[trigger]
                in_blast(radius, ii, jj) && start.contains_key(tile_chunk(cx + ii, cy + jj)) && remesh_target(cx + ii, cy + jj, k);
            assert(blast_before(radius, ii, jj, i0, -radius));
        }
        let s0 = exists|ii: int, jj: int| #[trigger] blast_before(radius, ii, jj, i0, -radius) && tile_chunk(cx + ii, cy + jj) == k;
        if s0 {
            let (ii, jj) = choose|ii: int, jj: int| #[trigger] blast_before(radius, ii, jj, i0, -radius) && tile_chunk(cx + ii, cy + jj) == k;
            assert(in_blast(radius, ii, jj));
        }
        if blast_touches(radius, cx, cy, k) {
            let (ii, jj) = choose|ii: int, jj: int| #[trigger] in_blast(radius, ii, jj) && tile_chunk(cx + ii, cy + jj) == k;
            assert(blast_before(radius, ii, jj, i0, -radius));
        }
        assert forall|l: int, a: int, b: int| in_chunk(l, a, b) implies #[trigger] m[k].tile(l, a, b) == if l == 1
            && blast_hits_tile(radius, cx, cy, k, a, b) {
            Tile { id: 0 }
        } else {
            start[k].tile(l, a, b)
        } by {
            if blast_before_hits(radius, cx, cy, i0, -radius, k, a, b) {
                let (ii, jj) = choose|ii: int, jj: int| #[trigger] blast_before(radius, ii, jj, i0, -radius)
                    && edit_lands(cx + ii, cy + jj, k, a, b);
                assert(in_blast(radius, ii, jj));
            }
            if blast_hits_tile(radius, cx, cy, k, a, b) {
                let (ii, jj) = choose|ii: int, jj: int| #[trigger] in_blast(radius, ii, jj)
                    && edit_lands(cx + ii, cy + jj, k, a, b);
                assert(blast_before(radius, ii, jj, i0, -radius));
            }
        }
    }
}

/// Width, in tiles, of the tile view around the player (7 chunks).
pub const TILE_VIEW_WIDTH: usize = 224;

/// Height, in tiles, of the tile view around the player (5 chunks).
pub const TILE_VIEW_HEIGHT: usize = 160;

/// Class of a tile in the tile view: 1 for a solid foreground tile, 2 for
/// an empty foreground in front of a background tile, 0 for open space.
pub open spec fn tile_class(fg: u8, bg: u8) -> u8 {
    if fg == 0 {
        if bg == 0 {
            0
        } else {
            2
        }
    } else {
        1
    }
}

/// Position in the tile view of local tile (lx, ly) of view chunk (a, b):
/// rows of `TILE_VIEW_WIDTH` tiles, bottom row first.
pub open spec fn view_index(a: int, b: int, lx: int, ly: int) -> int {
    (b * 32 + ly) * 224 + a * 32 + lx
}

/// Whether (a, b, lx, ly) names a tile of the tile view: chunk column `a`
/// of 7, chunk row `b` of 5, local tile (lx, ly).
pub open spec fn view_tile(a: int, b: int, lx: int, ly: int) -> bool {
    0 <= a < 7 && 0 <= b < 5 && 0 <= lx < 32 && 0 <= ly < 32
}

/// The class of local tile (lx, ly) of view chunk (a, b), which is chunk
/// `(pc.x + a - 3, pc.y + b - 2)`; tiles of chunks that are not loaded
/// count as solid.
pub open spec fn view_cell(chunks: Map<ChunkKey, Chunk>, pc: ChunkPosition, a: int, b: int, lx: int, ly: int) -> u8 {
    let k = ((pc.x + a - HORIZONTAL_CHUNK_LOAD_DISTANCE) as i32, (pc.y + b - VERTICAL_CHUNK_LOAD_DISTANCE) as i32);
    if chunks.contains_key(k) {
        tile_class(chunks[k].tile(1, lx, ly).id, chunks[k].tile(0, lx, ly).id)
    } else {
        1
    }
}

/// Distinct tiles of the view have distinct positions in it.
proof fn lemma_view_index_injective(a: int, b: int, lx: int, ly: int, a2: int, b2: int, lx2: int, ly2: int)
    requires
        view_tile(a, b, lx, ly),
        view_tile(a2, b2, lx2, ly2),
        view_index(a, b, lx, ly) == view_index(a2, b2, lx2, ly2),
    ensures
        a == a2 && b == b2 && lx == lx2 && ly == ly2,
{
    let g = b * 32 + ly;
    let g2 = b2 * 32 + ly2;
    let h = a * 32 + lx;
    let h2 = a2 * 32 + lx2;
    assert(0 <= h < 224 && 0 <= h2 < 224);
    assert(g == g2 && h == h2) by (nonlinear_arith)
        requires g * 224 + h == g2 * 224 + h2, 0 <= h < 224, 0 <= h2 < 224;
    assert(b == b2 && ly == ly2) by (nonlinear_arith)
        requires b * 32 + ly == b2 * 32 + ly2, 0 <= ly < 32, 0 <= ly2 < 32;
    assert(a == a2 && lx == lx2) by (nonlinear_arith)
        requires a * 32 + lx == a2 * 32 + lx2, 0 <= lx < 32, 0 <= lx2 < 32;
}

/// The tiles of the view cover it: every position of the tile view belongs
/// to exactly one view tile.
pub proof fn lemma_view_covers(idx: int)
    requires
        0 <= idx < TILE_VIEW_WIDTH * TILE_VIEW_HEIGHT,
    ensures
        view_tile((idx % 224) / 32, (idx / 224) / 32, (idx % 224) % 32, (idx / 224) % 32),
        view_index((idx % 224) / 32, (idx / 224) / 32, (idx % 224) % 32, (idx / 224) % 32) == idx,
{
    let gx = idx % 224;
    let gy = idx / 224;
    assert(idx == gy * 224 + gx && 0 <= gx < 224 && 0 <= gy < 160) by (nonlinear_arith)
        requires gx == idx % 224, gy == idx / 224, 0 <= idx < 35840;
    assert(gx == (gx / 32) * 32 + gx % 32 && 0 <= gx / 32 < 7) by (nonlinear_arith)
        requires 0 <= gx < 224;
    assert(gy == (gy / 32) * 32 + gy % 32 && 0 <= gy / 32 < 5) by (nonlinear_arith)
        requires 0 <= gy < 160;
}


/// Whether chunk column (or row) `c` has its centre at least `d` tiles from
/// the player coordinate `tile` (+ a fraction when not `on_grid`).
fn centre_far_at(c: i32, tile: i32, on_grid: bool, d: i64) -> (r: bool)
    requires
        0 <= d <= 1000,
    ensures
        r == centre_far(c as int, 2 * tile + if on_grid { 0int } else { 1int }, d as int),
{
    let twice_p: i64 = 2 * (tile as i64) + if on_grid { 0 } else { 1 };
    let gap: i64 = 2 * (32 * (c as i64) + 16) - twice_p;
    gap >= 2 * d || -gap >= 2 * d
}

/// Loads, meshes and unloads the chunks around the player, and edits
/// their tiles.
pub struct ChunkManager {
    pub dirty: bool,
    chunks: AHashMap<ChunkKey, Chunk>,
    data_load_queue: Vec<ChunkPosition>,
    mesh_load_queue: Vec<ChunkPosition>,
    mesh_materials: Vec<MaterialHandle>,
}

impl ChunkManager {
    /// The loaded chunks.
    pub closed spec fn chunks(&self) -> Map<ChunkKey, Chunk> {
        chunk_table(self.chunks)
    }

    /// Positions waiting for their data to be loaded, oldest first.
    pub closed spec fn data_queue(&self) -> Seq<ChunkPosition> {
        self.data_load_queue@
    }

    /// Positions waiting for their meshes to be built, oldest first.
    pub closed spec fn mesh_queue(&self) -> Seq<ChunkPosition> {
        self.mesh_load_queue@
    }

    /// Materials of the background and foreground layer meshes.
    pub closed spec fn materials(&self) -> Seq<MaterialHandle> {
        self.mesh_materials@
    }

    /// Whether meshes were queued since the flag was last cleared.
    pub closed spec fn meshes_pending(&self) -> bool {
        self.dirty
    }

    /// Every loaded chunk is complete, holds only tiles with a texture and
    /// has a neighbour position on every side.
    pub open spec fn wf(&self) -> bool {
        forall|k: ChunkKey| #[trigger] self.chunks().contains_key(k) ==> {
            &&& self.chunks()[k].wf()
            &&& self.chunks()[k].ids_valid()
            &&& inner_position(pos_of(k))
        }
    }

    pub fn new() -> (r: Self)
        ensures
            r.wf(),
            r.chunks().dom() == Set::<ChunkKey>::empty(),
            r.data_queue() == Seq::<ChunkPosition>::empty(),
            r.mesh_queue() == Seq::<ChunkPosition>::empty(),
            r.materials() == Seq::<MaterialHandle>::empty(),
            !r.meshes_pending(),
    {
        Self {
            dirty: false,
            chunks: table_new(),
            data_load_queue: Vec::new(),
            mesh_load_queue: Vec::new(),
            mesh_materials: Vec::new(),
        }
    }

    pub fn set_mesh_materials(&mut self, materials: Vec<MaterialHandle>)
        ensures
            final(self).materials() == materials@,
            final(self).chunks() == old(self).chunks(),
            final(self).data_queue() == old(self).data_queue(),
            final(self).mesh_queue() == old(self).mesh_queue(),
            final(self).meshes_pending() == old(self).meshes_pending(),
    {
        self.mesh_materials = materials;
    }

    /// Materials of the layer meshes, background first.
    pub fn mesh_materials(&self) -> (r: &Vec<MaterialHandle>)
        ensures
            r@ == self.materials(),
    {
        &self.mesh_materials
    }

    /// The loaded chunk at `pos`, if any.
    pub fn get_chunk(&self, pos: &ChunkPosition) -> (r: Option<&Chunk>)
        ensures
            r is Some <==> self.chunks().contains_key(key_of(*pos)),
            r matches Some(c) ==> *c == self.chunks()[key_of(*pos)],
    {
        table_get(&self.chunks, (pos.x, pos.y))
    }

    /// The positions of all loaded chunks, each once, in the chunk table's
    /// iteration order.
    pub fn loaded_positions(&self) -> (r: Vec<ChunkPosition>)
        ensures
            r@.len() == self.chunks().dom().len(),
            r@.map_values(|p: ChunkPosition| key_of(p)).no_duplicates(),
            forall|p: ChunkPosition| r@.contains(p) <==> self.chunks().contains_key(key_of(p)),
    {
        let keys = table_keys(&self.chunks);
        let mut r: Vec<ChunkPosition> = Vec::new();
        let mut i: usize = 0;
        while i < keys.len()
            invariant
                i <= keys@.len(),
                r@.len() == i,
                forall|j: int| 0 <= j < i ==> #[trigger] key_of(r@[j]) == keys@[j],
            decreases keys@.len() - i,
        {
            let k = keys[i];
            r.push(ChunkPosition::new(k.0, k.1));
            i = i + 1;
        }
        proof {
            assert(r@.map_values(|p: ChunkPosition| key_of(p)) =~= keys@);
            assert forall|p: ChunkPosition| r@.contains(p) <==> self.chunks().contains_key(key_of(p)) by {
                if r@.contains(p) {
                    let j = choose|j: int| 0 <= j < r@.len() && r@[j] == p;
                    assert(keys@[j] == key_of(p));
                    assert(keys@.contains(keys@[j]));
                }
                if self.chunks().contains_key(key_of(p)) {
                    assert(keys@.contains(key_of(p)));
                    let j = choose|j: int| 0 <= j < keys@.len() && keys@[j] == key_of(p);
                    assert(key_of(r@[j]) == key_of(p));
                    assert(r@[j] == p);
                    assert(r@.contains(r@[j]));
                }
            }
            keys@.unique_seq_to_set();
            assert(keys@.to_set() =~= self.chunks().dom());
        }
        r
    }

    /// Unloads every chunk whose centre is at least 5 chunks (horizontally)
    /// or 4 chunks (vertically) from the player.
    pub fn unload_chunks(&mut self, player: PlayerPos)
        requires
            old(self).wf(),
        ensures
            final(self).wf(),
            forall|k: ChunkKey| #[trigger] final(self).chunks().contains_key(k)
                <==> (old(self).chunks().contains_key(k) && !unload_far(k, player)),
            forall|k: ChunkKey| #[trigger] final(self).chunks().contains_key(k)
                ==> final(self).chunks()[k] == old(self).chunks()[k],
            final(self).data_queue() == old(self).data_queue(),
            final(self).mesh_queue() == old(self).mesh_queue(),
            final(self).materials() == old(self).materials(),
            final(self).meshes_pending() == old(self).meshes_pending(),
    {
        let keys = table_keys(&self.chunks);
        let mut unload: Vec<ChunkKey> = Vec::new();
        let mut i: usize = 0;
        while i < keys.len()
            invariant
                i <= keys@.len(),
                *self == *old(self),
                forall|k: ChunkKey| #[trigger] keys@.contains(k) <==> old(self).chunks().contains_key(k),
                forall|k: ChunkKey| #[trigger] unload@.contains(k) ==> old(self).chunks().contains_key(k) && unload_far(k, player),
                forall|j: int| 0 <= j < i && unload_far(keys@[j], player) ==> unload@.contains(#[trigger] keys@[j]),
            decreases keys@.len() - i,
        {
            let k = keys[i];
            let far_x = centre_far_at(k.0, player.tile_x, player.on_grid_x, ((HORIZONTAL_CHUNK_LOAD_DISTANCE + 2) * CHUNK_SIZE_I32) as i64);
            let far_y = centre_far_at(k.1, player.tile_y, player.on_grid_y, ((VERTICAL_CHUNK_LOAD_DISTANCE + 2) * CHUNK_SIZE_I32) as i64);
            proof {
                assert(keys@.contains(keys@[i as int]));
                assert((far_x || far_y) == unload_far(k, player));
                assert(old(self).chunks().contains_key(k));
            }
            let ghost prev = unload@;
            if far_x || far_y {
                unload.push(k);
                proof {
                    assert(unload@.contains(unload@[prev.len() as int]));
                }
            }
            proof {
                assert forall|kk: ChunkKey| #[trigger] unload@.contains(kk) implies old(self).chunks().contains_key(kk) && unload_far(kk, player) by {
                    if prev.contains(kk) {
                        assert(old(self).chunks().contains_key(kk));
                        assert(unload_far(kk, player));
                    } else {
                        let t = choose|t: int| 0 <= t < unload@.len() && unload@[t] == kk;
                        if t < prev.len() {
                            assert(prev[t] == kk);
                            assert(prev.contains(kk));
                        }
                        assert(unload@.len() == prev.len() + 1);
                        assert(kk == k);
                        assert(old(self).chunks().contains_key(kk));
                        assert(unload_far(kk, player));
                    }
                }
                assert forall|jj: int| 0 <= jj < i + 1 && unload_far(keys@[jj], player) implies unload@.contains(#[trigger] keys@[jj]) by {
                    if jj < i {
                        assert(prev.contains(keys@[jj]));
                        let t = choose|t: int| 0 <= t < prev.len() && prev[t] == keys@[jj];
                        assert(unload@[t] == keys@[jj]);
                    }
                }
            }
            i = i + 1;
        }
        proof {
            assert forall|k: ChunkKey| old(self).chunks().contains_key(k) && unload_far(k, player) implies unload@.contains(k) by {
                assert(keys@.contains(k));
                let jj = choose|jj: int| 0 <= jj < keys@.len() && keys@[jj] == k;
                assert(unload@.contains(keys@[jj]));
            }
        }
        let mut j: usize = 0;
        while j < unload.len()
            invariant
                j <= unload@.len(),
                old(self).wf(),
                forall|k: ChunkKey| #[trigger] unload@.contains(k) ==> old(self).chunks().contains_key(k) && unload_far(k, player),
                forall|k: ChunkKey| old(self).chunks().contains_key(k) && unload_far(k, player) ==> #[trigger] unload@.contains(k),
                forall|k: ChunkKey| #[trigger] self.chunks().contains_key(k)
                    <==> (old(self).chunks().contains_key(k) && !unload@.take(j as int).contains(k)),
                forall|k: ChunkKey| #[trigger] self.chunks().contains_key(k) ==> self.chunks()[k] == old(self).chunks()[k],
                self.data_queue() == old(self).data_queue(),
                self.mesh_queue() == old(self).mesh_queue(),
                self.materials() == old(self).materials(),
                self.meshes_pending() == old(self).meshes_pending(),
            decreases unload@.len() - j,
        {
            let k = unload[j];
            let ghost before = self.chunks();
            let _ = table_remove(&mut self.chunks, k);
            proof {
                assert(unload@.take(j + 1) =~= unload@.take(j as int).push(k));
                assert forall|kk: ChunkKey| unload@.take(j + 1).contains(kk) <==> (unload@.take(j as int).contains(kk) || kk == k) by {
                    let s1 = unload@.take(j + 1);
                    let s0 = unload@.take(j as int);
                    if s1.contains(kk) && kk != k {
                        let t = choose|t: int| 0 <= t < s1.len() && s1[t] == kk;
                        assert(s0[t] == kk);
                    }
                    if s0.contains(kk) {
                        let t = choose|t: int| 0 <= t < s0.len() && s0[t] == kk;
                        assert(s1[t] == kk);
                    }
                    if kk == k {
                        assert(unload@.take(j + 1)[j as int] == kk);
                    }
                }
            }
            j = j + 1;
        }
        proof {
            assert(unload@.take(unload@.len() as int) =~= unload@);
        }
    }

    /// Queues for loading every position of the load window around the
    /// player's chunk whose chunk is not loaded, in window order.
    pub fn update_data_queue(&mut self, player: PlayerPos)
        ensures
            final(self).data_queue() == old(self).data_queue() + load_window(player.spec_chunk()).filter(
                |p: ChunkPosition| !old(self).chunks().contains_key(key_of(p)),
            ),
            final(self).chunks() == old(self).chunks(),
            final(self).mesh_queue() == old(self).mesh_queue(),
            final(self).materials() == old(self).materials(),
            final(self).meshes_pending() == old(self).meshes_pending(),
    {
        let player_chunk = player.chunk();
        let ghost window = load_window(player_chunk);
        let ghost missing = |p: ChunkPosition| !old(self).chunks().contains_key(key_of(p));
        let ghost start = old(self).data_queue();
        assert(forall|p: ChunkPosition| #[trigger] missing(p) == !old(self).chunks().contains_key(key_of(p)));
        assert(-67108864 <= player_chunk.x <= 67108864 && -67108864 <= player_chunk.y <= 67108864);
        let mut x: i32 = -(HORIZONTAL_CHUNK_LOAD_DISTANCE + 1);
        while x <= HORIZONTAL_CHUNK_LOAD_DISTANCE + 1
            invariant
                -4 <= x <= 5,
                -67108864 <= player_chunk.x <= 67108864,
                -67108864 <= player_chunk.y <= 67108864,
                window == load_window(player_chunk),
                forall|p: ChunkPosition| #[trigger] missing(p) == !old(self).chunks().contains_key(key_of(p)),
                self.data_queue() == start + window.take((x + 4) * 7).filter(missing),
                self.chunks() == old(self).chunks(),
                self.mesh_queue() == old(self).mesh_queue(),
                self.materials() == old(self).materials(),
                self.meshes_pending() == old(self).meshes_pending(),
            decreases 5 - x,
        {
            let mut y: i32 = -(VERTICAL_CHUNK_LOAD_DISTANCE + 1);
            while y <= VERTICAL_CHUNK_LOAD_DISTANCE + 1
                invariant
                    -4 <= x <= 4,
                    -3 <= y <= 4,
                    -67108864 <= player_chunk.x <= 67108864,
                    -67108864 <= player_chunk.y <= 67108864,
                    window == load_window(player_chunk),
                    forall|p: ChunkPosition| #[trigger] missing(p) == !old(self).chunks().contains_key(key_of(p)),
                    self.data_queue() == start + window.take((x + 4) * 7 + (y + 3)).filter(missing),
                    self.chunks() == old(self).chunks(),
                    self.mesh_queue() == old(self).mesh_queue(),
                    self.materials() == old(self).materials(),
                    self.meshes_pending() == old(self).meshes_pending(),
                decreases 4 - y,
            {
                let chunk_pos = ChunkPosition::new(player_chunk.x + x, player_chunk.y + y);
                let ghost n: int = (x + 4) * 7 + (y + 3);
                proof {
                    assert(n / 7 == x + 4 && n % 7 == y + 3) by (nonlinear_arith)
                        requires n == (x + 4) * 7 + (y + 3), 0 <= y + 3 < 7;
                    assert(window[n] == chunk_pos);
                    assert(window.take(n + 1).drop_last() =~= window.take(n));
                    assert(window.take(n + 1).last() == chunk_pos);
                    reveal_with_fuel(Seq::filter, 1);
                    assert(window.take(n + 1).filter(missing) == if missing(chunk_pos) {
                        window.take(n).filter(missing).push(chunk_pos)
                    } else {
                        window.take(n).filter(missing)
                    });
                }
                let ghost before = self.data_queue();
                let present = table_contains(&self.chunks, (chunk_pos.x, chunk_pos.y));
                proof {
                    assert(missing(chunk_pos) == !present);
                    assert(before == start + window.take(n).filter(missing));
                }
                if !present {
                    self.data_load_queue.push(chunk_pos);
                    proof {
                        assert(self.data_queue() == before.push(chunk_pos));
                        assert(self.data_queue() =~= start + window.take(n + 1).filter(missing));
                    }
                } else {
                    proof {
                        assert(self.data_queue() =~= start + window.take(n + 1).filter(missing));
                    }
                }
                y = y + 1;
            }
            x = x + 1;
        }
        proof {
            assert(window.take(63) =~= window);
        }
    }

    /// Drops the meshes of chunks that the player left far behind, and
    /// queues for meshing, in the chunk table's iteration order, each chunk
    /// in the meshed area that waits for a mesh and whose neighbours are all
    /// loaded.
    pub fn update_mesh_queue(&mut self, player: PlayerPos)
        requires
            old(self).wf(),
        ensures
            final(self).wf(),
            final(self).chunks().dom() == old(self).chunks().dom(),
            forall|k: ChunkKey| #[trigger] old(self).chunks().contains_key(k) ==> if drops_meshes(old(self).chunks(), k, player) {
                meshes_dropped(final(self).chunks()[k], old(self).chunks()[k])
            } else {
                final(self).chunks()[k] == old(self).chunks()[k]
            },
            final(self).mesh_queue().len() >= old(self).mesh_queue().len(),
            final(self).mesh_queue().take(old(self).mesh_queue().len() as int) == old(self).mesh_queue(),
            final(self).mesh_queue().skip(old(self).mesh_queue().len() as int).map_values(|p: ChunkPosition| key_of(p)).no_duplicates(),
            forall|p: ChunkPosition| #[trigger] final(self).mesh_queue().skip(old(self).mesh_queue().len() as int).contains(p)
                <==> queues_for_mesh(old(self).chunks(), key_of(p), player),
            final(self).meshes_pending() == (old(self).meshes_pending()
                || final(self).mesh_queue().len() > old(self).mesh_queue().len()),
            final(self).data_queue() == old(self).data_queue(),
            final(self).materials() == old(self).materials(),
    {
        let keys = table_keys(&self.chunks);
        let ghost start = old(self).chunks();
        let mut to_mesh: Vec<ChunkPosition> = Vec::new();
        let mut i: usize = 0;
        while i < keys.len()
            invariant
                i <= keys@.len(),
                keys@.no_duplicates(),
                start == old(self).chunks(),
                old(self).wf(),
                forall|k: ChunkKey| #[trigger] keys@.contains(k) <==> start.contains_key(k),
                self.chunks().dom() == start.dom(),
                forall|k: ChunkKey| #[trigger] start.contains_key(k) ==> if keys@.take(i as int).contains(k)
                    && drops_meshes(start, k, player) {
                    meshes_dropped(self.chunks()[k], start[k])
                } else {
                    self.chunks()[k] == start[k]
                },
                to_mesh@.map_values(|p: ChunkPosition| key_of(p)).no_duplicates(),
                forall|p: ChunkPosition| #[trigger] to_mesh@.contains(p) <==> (keys@.take(i as int).contains(key_of(p))
                    && !mesh_far(key_of(p), player) && (start[key_of(p)].dirty_layer(0) || start[key_of(p)].dirty_layer(1))),
                self.data_queue() == old(self).data_queue(),
                self.mesh_queue() == old(self).mesh_queue(),
                self.materials() == old(self).materials(),
                self.meshes_pending() == old(self).meshes_pending(),
            decreases keys@.len() - i,
        {
            let k = keys[i];
            proof {
                assert(keys@.contains(keys@[i as int]));
                assert(!keys@.take(i as int).contains(k)) by {
                    if keys@.take(i as int).contains(k) {
                        let t = choose|t: int| 0 <= t < i && keys@.take(i as int)[t] == k;
                        assert(keys@[t] == keys@[i as int]);
                    }
                }
                assert forall|kk: ChunkKey| #[trigger] keys@.take(i + 1).contains(kk) <==> (keys@.take(i as int).contains(kk) || kk == k) by {
                    let s1 = keys@.take(i + 1);
                    let s0 = keys@.take(i as int);
                    if s1.contains(kk) && kk != k {
                        let t = choose|t: int| 0 <= t < s1.len() && s1[t] == kk;
                        assert(s0[t] == kk);
                    }
                    if s0.contains(kk) {
                        let t = choose|t: int| 0 <= t < s0.len() && s0[t] == kk;
                        assert(s1[t] == kk);
                    }
                    if kk == k {
                        assert(s1[i as int] == kk);
                    }
                }
            }
            let far = centre_far_at(k.0, player.tile_x, player.on_grid_x, (HORIZONTAL_CHUNK_LOAD_DISTANCE * CHUNK_SIZE_I32) as i64)
                || centre_far_at(k.1, player.tile_y, player.on_grid_y, (VERTICAL_CHUNK_LOAD_DISTANCE * CHUNK_SIZE_I32) as i64);
            let ghost before_chunks = self.chunks();
            let ghost before_mesh = to_mesh@;
            if far {
                let drop_far = centre_far_at(k.0, player.tile_x, player.on_grid_x, ((HORIZONTAL_CHUNK_LOAD_DISTANCE + 1) * CHUNK_SIZE_I32) as i64)
                    || centre_far_at(k.1, player.tile_y, player.on_grid_y, ((HORIZONTAL_CHUNK_LOAD_DISTANCE + 1) * CHUNK_SIZE_I32) as i64);
                if drop_far {
                    match table_remove(&mut self.chunks, k) {
                        Some(mut chunk) => {
                            if chunk.has_mesh() {
                                chunk.destroy_mesh();
                            }
                            let _ = table_insert(&mut self.chunks, k, chunk);
                            proof {
                                assert(self.chunks() =~= before_chunks.insert(k, chunk));
                            }
                        },
                        None => {},
                    }
                }
            } else {
                let dirty = match table_get(&self.chunks, k) {
                    Some(chunk) => chunk.dirty(),
                    None => false,
                };
                if dirty {
                    to_mesh.push(ChunkPosition::new(k.0, k.1));
                    proof {
                        assert(to_mesh@.map_values(|p: ChunkPosition| key_of(p)) =~= before_mesh.map_values(
                            |p: ChunkPosition| key_of(p),
                        ).push(k));
                        let mv = before_mesh.map_values(|p: ChunkPosition| key_of(p));
                        assert(!mv.contains(k)) by {
                            if mv.contains(k) {
                                let t = choose|t: int| 0 <= t < mv.len() && mv[t] == k;
                                assert(before_mesh.contains(before_mesh[t]));
                            }
                        }
                    }
                }
            }
            proof {
                assert forall|p: ChunkPosition| #[trigger] to_mesh@.contains(p) <==> (keys@.take(i + 1).contains(key_of(p))
                    && !mesh_far(key_of(p), player) && (start[key_of(p)].dirty_layer(0) || start[key_of(p)].dirty_layer(1))) by {
                    if to_mesh@.contains(p) && !before_mesh.contains(p) {
                        let t = choose|t: int| 0 <= t < to_mesh@.len() && to_mesh@[t] == p;
                        assert(t == before_mesh.len());
                    }
                    if before_mesh.contains(p) {
                        let t = choose|t: int| 0 <= t < before_mesh.len() && before_mesh[t] == p;
                        assert(to_mesh@[t] == p);
                    }
                    if key_of(p) == k && !far && (start[k].dirty_layer(0) || start[k].dirty_layer(1)) {
                        assert(p == to_mesh@[to_mesh@.len() - 1]);
                        assert(to_mesh@.contains(to_mesh@[to_mesh@.len() - 1]));
                    }
                }
            }
            i = i + 1;
        }
        proof {
            assert(keys@.take(keys@.len() as int) =~= keys@);
        }
        let ghost added_from = to_mesh@;
        let ghost queue_start = self.mesh_queue();
        let ghost mid = self.chunks();
        let mut j: usize = 0;
        while j < to_mesh.len()
            invariant
                j <= to_mesh@.len(),
                to_mesh@ == added_from,
                queue_start == old(self).mesh_queue(),
                self.chunks() == mid,
                start == old(self).chunks(),
                mid.dom() == start.dom(),
                forall|k: ChunkKey| #[trigger] start.contains_key(k) ==> if drops_meshes(start, k, player) {
                    meshes_dropped(mid[k], start[k])
                } else {
                    mid[k] == start[k]
                },
                forall|p: ChunkPosition| #[trigger] added_from.contains(p) <==> (start.contains_key(key_of(p))
                    && !mesh_far(key_of(p), player) && (start[key_of(p)].dirty_layer(0) || start[key_of(p)].dirty_layer(1))),
                self.chunks().dom() == old(self).chunks().dom(),
                self.wf(),
                forall|k: ChunkKey| #[trigger] self.chunks().contains_key(k) ==> inner_position(pos_of(k)),
                added_from.map_values(|p: ChunkPosition| key_of(p)).no_duplicates(),
                forall|p: ChunkPosition| #[trigger] added_from.contains(p) ==> self.chunks().contains_key(key_of(p)),
                self.mesh_queue().len() >= queue_start.len(),
                self.mesh_queue().take(queue_start.len() as int) == queue_start,
                self.mesh_queue().skip(queue_start.len() as int).map_values(|p: ChunkPosition| key_of(p)).no_duplicates(),
                forall|p: ChunkPosition| #[trigger] self.mesh_queue().skip(queue_start.len() as int).contains(p)
                    <==> (added_from.take(j as int).contains(p) && neighbours_loaded(self.chunks(), p)),
                self.meshes_pending() == (old(self).meshes_pending() || self.mesh_queue().len() > queue_start.len()),
                self.data_queue() == old(self).data_queue(),
                self.materials() == old(self).materials(),
            decreases to_mesh@.len() - j,
        {
            let chunk_pos = to_mesh[j];
            let ghost prev = self.mesh_queue();
            let ghost prev_added = prev.skip(queue_start.len() as int);
            let ghost akeys = added_from.map_values(|p: ChunkPosition| key_of(p));
            proof {
                assert(added_from.contains(added_from[j as int]));
                assert(added_from.take(j + 1) =~= added_from.take(j as int).push(chunk_pos));
                assert forall|q: ChunkPosition| #[trigger] added_from.take(j + 1).contains(q) <==> (added_from.take(j as int).contains(q) || q == chunk_pos) by {
                    let s1 = added_from.take(j + 1);
                    let s0 = added_from.take(j as int);
                    if s1.contains(q) && q != chunk_pos {
                        let t = choose|t: int| 0 <= t < s1.len() && s1[t] == q;
                        assert(s0[t] == q);
                    }
                    if s0.contains(q) {
                        let t = choose|t: int| 0 <= t < s0.len() && s0[t] == q;
                        assert(s1[t] == q);
                    }
                    if q == chunk_pos {
                        assert(s1[j as int] == q);
                    }
                }
                // no earlier queued position shares the key of `chunk_pos`
                assert forall|q: ChunkPosition| #[trigger] prev_added.contains(q) implies key_of(q) != key_of(chunk_pos) by {
                    assert(added_from.take(j as int).contains(q));
                    let t = choose|t: int| 0 <= t < j && added_from.take(j as int)[t] == q;
                    assert(akeys[t] == key_of(q));
                    assert(akeys[j as int] == key_of(chunk_pos));
                }
            }
            if self.can_mesh_chunk(&chunk_pos) {
                self.mesh_load_queue.push(chunk_pos);
                self.dirty = true;
                proof {
                    assert(self.mesh_queue().take(queue_start.len() as int) =~= queue_start);
                    assert(self.mesh_queue().skip(queue_start.len() as int) =~= prev_added.push(chunk_pos));
                    let nk = prev_added.push(chunk_pos).map_values(|p: ChunkPosition| key_of(p));
                    let ok = prev_added.map_values(|p: ChunkPosition| key_of(p));
                    assert(nk =~= ok.push(key_of(chunk_pos)));
                    assert forall|a: int, b: int| 0 <= a < nk.len() && 0 <= b < nk.len() && a != b implies nk[a] != nk[b] by {
                        if a < ok.len() && b < ok.len() {
                        } else if a < ok.len() {
                            assert(prev_added.contains(prev_added[a]));
                        } else {
                            assert(prev_added.contains(prev_added[b]));
                        }
                    }
                    assert forall|q: ChunkPosition| #[trigger] prev_added.push(chunk_pos).contains(q) <==> (prev_added.contains(q) || q == chunk_pos) by {
                        let s1 = prev_added.push(chunk_pos);
                        if s1.contains(q) && q != chunk_pos {
                            let t = choose|t: int| 0 <= t < s1.len() && s1[t] == q;
                            assert(prev_added[t] == q);
                        }
                        if prev_added.contains(q) {
                            let t = choose|t: int| 0 <= t < prev_added.len() && prev_added[t] == q;
                            assert(s1[t] == q);
                        }
                        if q == chunk_pos {
                            assert(s1[prev_added.len() as int] == q);
                        }
                    }
                }
            }
            j = j + 1;
        }
        proof {
            assert(added_from.take(added_from.len() as int) =~= added_from);
            assert forall|p: ChunkPosition| #[trigger] self.mesh_queue().skip(queue_start.len() as int).contains(p)
                <==> queues_for_mesh(old(self).chunks(), key_of(p), player) by {
                assert(pos_of(key_of(p)) == p);
            }
        }
    }

    /// Takes the oldest positions, at most `MAX_LOADS_PER_FRAME`, off the
    /// data load queue.
    pub fn take_data_batch(&mut self) -> (r: Vec<ChunkPosition>)
        ensures
            r@.len() == if old(self).data_queue().len() < MAX_LOADS_PER_FRAME {
                old(self).data_queue().len() as int
            } else {
                MAX_LOADS_PER_FRAME as int
            },
            r@ == old(self).data_queue().take(r@.len() as int),
            final(self).data_queue() == old(self).data_queue().skip(r@.len() as int),
            final(self).chunks() == old(self).chunks(),
            final(self).mesh_queue() == old(self).mesh_queue(),
            final(self).materials() == old(self).materials(),
            final(self).meshes_pending() == old(self).meshes_pending(),
    {
        let n = if self.data_load_queue.len() < MAX_LOADS_PER_FRAME {
            self.data_load_queue.len()
        } else {
            MAX_LOADS_PER_FRAME
        };
        let mut rest = self.data_load_queue.split_off(n);
        std::mem::swap(&mut self.data_load_queue, &mut rest);
        proof {
            assert(rest@ =~= old(self).data_queue().take(n as int));
            assert(self.data_queue() =~= old(self).data_queue().skip(n as int));
        }
        rest
    }

    /// Stores loaded chunk data, in order: each position gets a fresh chunk
    /// holding its data, replacing any chunk already there, and a later entry
    /// for the same position wins.
    pub fn insert_chunks(&mut self, loaded: Vec<(ChunkPosition, ChunkData)>)
        requires
            old(self).wf(),
            forall|i: int| 0 <= i < loaded@.len() ==> {
                &&& (#[trigger] loaded@[i]).1.wf()
                &&& loaded@[i].1.ids_valid()
                &&& inner_position(loaded@[i].0)
            },
        ensures
            final(self).wf(),
            forall|k: ChunkKey| #[trigger] final(self).chunks().contains_key(k)
                <==> (old(self).chunks().contains_key(k) || last_loaded(loaded@, k) is Some),
            forall|k: ChunkKey| #[trigger] final(self).chunks().contains_key(k) ==> match last_loaded(loaded@, k) {
                Some(d) => fresh_chunk(final(self).chunks()[k], d),
                None => final(self).chunks()[k] == old(self).chunks()[k],
            },
            final(self).data_queue() == old(self).data_queue(),
            final(self).mesh_queue() == old(self).mesh_queue(),
            final(self).materials() == old(self).materials(),
            final(self).meshes_pending() == old(self).meshes_pending(),
    {
        let ghost all = loaded@;
        let mut loaded = loaded;
        assert(all.len() == loaded.len());
        let mut done: usize = 0;
        while loaded.len() > 0
            invariant
                done <= all.len(),
                all.len() <= usize::MAX,
                loaded@ == all.skip(done as int),
                self.wf(),
                forall|i: int| 0 <= i < all.len() ==> {
                    &&& (#[trigger] all[i]).1.wf()
                    &&& all[i].1.ids_valid()
                    &&& inner_position(all[i].0)
                },
                forall|k: ChunkKey| #[trigger] self.chunks().contains_key(k)
                    <==> (old(self).chunks().contains_key(k) || last_loaded(all.take(done as int), k) is Some),
                forall|k: ChunkKey| #[trigger] self.chunks().contains_key(k) ==> match last_loaded(all.take(done as int), k) {
                    Some(d) => fresh_chunk(self.chunks()[k], d),
                    None => self.chunks()[k] == old(self).chunks()[k],
                },
                self.data_queue() == old(self).data_queue(),
                self.mesh_queue() == old(self).mesh_queue(),
                self.materials() == old(self).materials(),
                self.meshes_pending() == old(self).meshes_pending(),
            decreases loaded@.len(),
        {
            let (pos, data) = loaded.remove(0);
            proof {
                assert(all[done as int] == (pos, data));
                assert(all.take(done + 1).drop_last() =~= all.take(done as int));
                assert(all.take(done + 1).last() == (pos, data));
                assert(all.skip(done + 1) =~= all.skip(done as int).remove(0));
            }
            let chunk = Chunk::new(data);
            proof {
                assert(all.contains(all[done as int]));
                assert forall|l: int, x: int, y: int| in_chunk(l, x, y) implies #[trigger] chunk.tile(l, x, y).id <= MAX_TILE_ID by {
                    assert(data.tile(l, x, y).id <= MAX_TILE_ID);
                }
            }
            let ghost before = self.chunks();
            let _ = table_insert(&mut self.chunks, (pos.x, pos.y), chunk);
            proof {
                let t1 = all.take(done + 1);
                assert forall|k: ChunkKey| #[trigger] last_loaded(t1, k) == if k == key_of(pos) {
                    Some(data)
                } else {
                    last_loaded(all.take(done as int), k)
                } by {
                    assert(t1.drop_last() =~= all.take(done as int));
                }
                assert(chunk.wf() && chunk.ids_valid() && inner_position(pos));
                assert forall|k: ChunkKey| #[trigger] self.chunks().contains_key(k) implies {
                    &&& self.chunks()[k].wf()
                    &&& self.chunks()[k].ids_valid()
                    &&& inner_position(pos_of(k))
                } by {
                    if k == key_of(pos) {
                        assert(pos_of(k) == pos);
                    } else {
                        assert(before.contains_key(k));
                    }
                }
            }
            done = done + 1;
        }
        proof {
            assert(all.take(done as int) =~= all);
        }
    }

    /// Stores `mesh` as the mesh of `layer` of the chunk at `pos`, when
    /// that chunk is loaded.
    pub fn set_chunk_mesh(&mut self, pos: &ChunkPosition, layer: usize, mesh: MeshHandle)
        requires
            old(self).wf(),
            layer < 2,
        ensures
            final(self).wf(),
            final(self).chunks().dom() == old(self).chunks().dom(),
            forall|k: ChunkKey| #[trigger] old(self).chunks().contains_key(k) && k != key_of(*pos)
                ==> final(self).chunks()[k] == old(self).chunks()[k],
            old(self).chunks().contains_key(key_of(*pos)) ==> {
                let c = final(self).chunks()[key_of(*pos)];
                let b = old(self).chunks()[key_of(*pos)];
                &&& c.mesh_of(layer as int) == Some(mesh)
                &&& c.mesh_of(1 - layer) == b.mesh_of(1 - layer)
                &&& c.wf() && c.same_tiles(b)
                &&& c.dirty_layer(0) == b.dirty_layer(0) && c.dirty_layer(1) == b.dirty_layer(1)
                &&& c.save_flag() == b.save_flag()
            },
            final(self).data_queue() == old(self).data_queue(),
            final(self).mesh_queue() == old(self).mesh_queue(),
            final(self).materials() == old(self).materials(),
            final(self).meshes_pending() == old(self).meshes_pending(),
    {
        let key = (pos.x, pos.y);
        match table_remove(&mut self.chunks, key) {
            Some(mut chunk) => {
                chunk.set_mesh(layer, mesh);
                let _ = table_insert(&mut self.chunks, key, chunk);
                proof {
                    assert(self.chunks() =~= old(self).chunks().insert(key, chunk));
                }
            },
            None => {
                proof {
                    assert(self.chunks() =~= old(self).chunks());
                }
            },
        }
    }

    /// The positions of the loaded chunks whose tiles changed since they
    /// were loaded, each once, in the chunk table's iteration order.
    pub fn chunks_to_save(&self) -> (r: Vec<ChunkPosition>)
        ensures
            r@.map_values(|p: ChunkPosition| key_of(p)).no_duplicates(),
            forall|p: ChunkPosition| #[trigger] r@.contains(p) <==> (self.chunks().contains_key(key_of(p))
                && self.chunks()[key_of(p)].save_flag()),
    {
        let keys = table_keys(&self.chunks);
        let mut r: Vec<ChunkPosition> = Vec::new();
        let mut i: usize = 0;
        while i < keys.len()
            invariant
                i <= keys@.len(),
                keys@.no_duplicates(),
                forall|k: ChunkKey| #[trigger] keys@.contains(k) <==> self.chunks().contains_key(k),
                r@.map_values(|p: ChunkPosition| key_of(p)).no_duplicates(),
                forall|p: ChunkPosition| #[trigger] r@.contains(p) <==> (keys@.take(i as int).contains(key_of(p))
                    && self.chunks()[key_of(p)].save_flag()),
            decreases keys@.len() - i,
        {
            let k = keys[i];
            let ghost prev = r@;
            proof {
                assert(keys@.contains(keys@[i as int]));
                assert(!keys@.take(i as int).contains(k)) by {
                    if keys@.take(i as int).contains(k) {
                        let t = choose|t: int| 0 <= t < i && keys@.take(i as int)[t] == k;
                        assert(keys@[t] == keys@[i as int]);
                    }
                }
                assert forall|kk: ChunkKey| #[trigger] keys@.take(i + 1).contains(kk) <==> (keys@.take(i as int).contains(kk) || kk == k) by {
                    let s1 = keys@.take(i + 1);
                    let s0 = keys@.take(i as int);
                    if s1.contains(kk) && kk != k {
                        let t = choose|t: int| 0 <= t < s1.len() && s1[t] == kk;
                        assert(s0[t] == kk);
                    }
                    if s0.contains(kk) {
                        let t = choose|t: int| 0 <= t < s0.len() && s0[t] == kk;
                        assert(s1[t] == kk);
                    }
                    if kk == k {
                        assert(s1[i as int] == kk);
                    }
                }
            }
            let save = match table_get(&self.chunks, k) {
                Some(chunk) => chunk.needs_save(),
                None => false,
            };
            if save {
                r.push(ChunkPosition::new(k.0, k.1));
                proof {
                    let nk = r@.map_values(|p: ChunkPosition| key_of(p));
                    let ok = prev.map_values(|p: ChunkPosition| key_of(p));
                    assert(nk =~= ok.push(k));
                    assert forall|a: int, b: int| 0 <= a < nk.len() && 0 <= b < nk.len() && a != b implies nk[a] != nk[b] by {
                        if a < ok.len() && b < ok.len() {
                        } else if a < ok.len() {
                            assert(prev.contains(prev[a]));
                        } else {
                            assert(prev.contains(prev[b]));
                        }
                    }
                }
            }
            proof {
                assert forall|p: ChunkPosition| #[trigger] r@.contains(p) <==> (keys@.take(i + 1).contains(key_of(p))
                    && self.chunks()[key_of(p)].save_flag()) by {
                    if r@.contains(p) && !prev.contains(p) {
                        let t = choose|t: int| 0 <= t < r@.len() && r@[t] == p;
                        assert(t == prev.len());
                    }
                    if prev.contains(p) {
                        let t = choose|t: int| 0 <= t < prev.len() && prev[t] == p;
                        assert(r@[t] == p);
                    }
                    if key_of(p) == k && save {
                        assert(p == r@[r@.len() - 1]);
                        assert(r@.contains(r@[r@.len() - 1]));
                    }
                }
            }
            i = i + 1;
        }
        proof {
            assert(keys@.take(keys@.len() as int) =~= keys@);
        }
        r
    }

    /// The borders of `layer` of the chunk at `chunk_pos`, read from its
    /// loaded neighbours.
    pub fn chunk_borders(&self, chunk_pos: &ChunkPosition, layer: usize) -> (r: ChunkBorders)
        requires
            self.wf(),
            inner_position(*chunk_pos),
            layer < 2,
        ensures
            borders_of(self.chunks(), *chunk_pos, layer as int, r),
    {
        let north = table_get(&self.chunks, (chunk_pos.x, chunk_pos.y + 1));
        let south = table_get(&self.chunks, (chunk_pos.x, chunk_pos.y - 1));
        let west = table_get(&self.chunks, (chunk_pos.x - 1, chunk_pos.y));
        let east = table_get(&self.chunks, (chunk_pos.x + 1, chunk_pos.y));
        let ghost chunks = self.chunks();
        let ghost nk = (chunk_pos.x, (chunk_pos.y + 1) as i32);
        let ghost sk = (chunk_pos.x, (chunk_pos.y - 1) as i32);
        let ghost wk = ((chunk_pos.x - 1) as i32, chunk_pos.y);
        let ghost ek = ((chunk_pos.x + 1) as i32, chunk_pos.y);
        proof {
            assert(chunks.contains_key(nk) ==> chunks[nk].wf());
            assert(chunks.contains_key(sk) ==> chunks[sk].wf());
            assert(chunks.contains_key(wk) ==> chunks[wk].wf());
            assert(chunks.contains_key(ek) ==> chunks[ek].wf());
        }

        let mut top = [true; 34];
        let mut bottom = [true; 34];
        let mut left = [true; 32];
        let mut right = [true; 32];

        if let Some(chunk) = north {
            let mut x: usize = 0;
            while x < CHUNK_SIZE
                invariant
                    x <= 32,
                    layer < 2,
                    chunk.wf(),
                    *chunk == chunks[nk],
                    chunks.contains_key(nk),
                    forall|i: int| 0 <= i < x ==> #[trigger] top[i + 1] == edge_solid(chunks, nk, layer as int, i, 0),
                decreases 32 - x,
            {
                top[x + 1] = chunk.get_tile(x, 0, layer).solid();
                x = x + 1;
            }
            top[0] = match west {
                Some(c) => c.get_tile(CHUNK_SIZE - 1, CHUNK_SIZE - 1, layer).solid(),
                None => true,
            };
            top[CHUNK_SIZE + 1] = match east {
                Some(c) => c.get_tile(0, CHUNK_SIZE - 1, layer).solid(),
                None => true,
            };
        }

        if let Some(chunk) = south {
            let mut x: usize = 0;
            while x < CHUNK_SIZE
                invariant
                    x <= 32,
                    layer < 2,
                    chunk.wf(),
                    *chunk == chunks[sk],
                    chunks.contains_key(sk),
                    forall|i: int| 0 <= i < x ==> #[trigger] bottom[i + 1] == edge_solid(chunks, sk, layer as int, i, 31),
                decreases 32 - x,
            {
                bottom[x + 1] = chunk.get_tile(x, CHUNK_SIZE - 1, layer).solid();
                x = x + 1;
            }
            bottom[0] = match west {
                Some(c) => c.get_tile(CHUNK_SIZE - 1, 0, layer).solid(),
                None => true,
            };
            bottom[CHUNK_SIZE + 1] = match east {
                Some(c) => c.get_tile(0, 0, layer).solid(),
                None => true,
            };
        }

        if let Some(chunk) = west {
            let mut y: usize = 0;
            while y < CHUNK_SIZE
                invariant
                    y <= 32,
                    layer < 2,
                    chunk.wf(),
                    *chunk == chunks[wk],
                    chunks.contains_key(wk),
                    forall|i: int| 0 <= i < y ==> #[trigger] left[i] == edge_solid(chunks, wk, layer as int, 31, i),
                decreases 32 - y,
            {
                left[y] = chunk.get_tile(CHUNK_SIZE - 1, y, layer).solid();
                y = y + 1;
            }
        }

        if let Some(chunk) = east {
            let mut y: usize = 0;
            while y < CHUNK_SIZE
                invariant
                    y <= 32,
                    layer < 2,
                    chunk.wf(),
                    *chunk == chunks[ek],
                    chunks.contains_key(ek),
                    forall|i: int| 0 <= i < y ==> #[trigger] right[i] == edge_solid(chunks, ek, layer as int, 0, i),
                decreases 32 - y,
            {
                right[y] = chunk.get_tile(0, y, layer).solid();
                y = y + 1;
            }
        }

        ChunkBorders { top, bottom, left, right }
    }

    /// Empties the mesh queue: every queued chunk that is loaded has both
    /// layers marked as meshed, and each layer that waited for a mesh gets
    /// a job, foreground first, with the layer's current borders.
    pub fn take_mesh_jobs(&mut self) -> (r: Vec<MeshJob>)
        requires
            old(self).wf(),
        ensures
            final(self).wf(),
            final(self).mesh_queue() == Seq::<ChunkPosition>::empty(),
            final(self).chunks().dom() == old(self).chunks().dom(),
            forall|k: ChunkKey| #[trigger] old(self).chunks().contains_key(k) ==> if queued_before(
                old(self).mesh_queue(),
                k,
                old(self).mesh_queue().len() as int,
            ) {
                marks_removed(final(self).chunks()[k], old(self).chunks()[k])
            } else {
                final(self).chunks()[k] == old(self).chunks()[k]
            },
            r@.map_values(|j: MeshJob| (j.chunk_pos, j.layer)) == jobs_for(
                queued_flags(old(self).chunks(), old(self).mesh_queue(), old(self).mesh_queue().len()),
                queued_flags(old(self).chunks(), old(self).mesh_queue(), old(self).mesh_queue().len()).len(),
            ),
            forall|t: int| 0 <= t < r@.len() ==> {
                &&& (#[trigger] r@[t]).layer < 2
                &&& inner_position(r@[t].chunk_pos)
                &&& borders_of(final(self).chunks(), r@[t].chunk_pos, r@[t].layer as int, r@[t].borders)
            },
            final(self).data_queue() == old(self).data_queue(),
            final(self).materials() == old(self).materials(),
            final(self).meshes_pending() == old(self).meshes_pending(),
    {
        let mut queued: Vec<ChunkPosition> = Vec::new();
        std::mem::swap(&mut self.mesh_load_queue, &mut queued);
        let ghost q = queued@;
        let ghost start = old(self).chunks();
        let mut dirty_chunks: Vec<(ChunkPosition, bool, bool)> = Vec::new();
        let mut i: usize = 0;
        while i < queued.len()
            invariant
                i <= queued@.len(),
                q == queued@,
                q == old(self).mesh_queue(),
                start == old(self).chunks(),
                old(self).wf(),
                self.wf(),
                self.chunks().dom() == start.dom(),
                forall|k: ChunkKey| #[trigger] start.contains_key(k) ==> if queued_before(q, k, i as int) {
                    marks_removed(self.chunks()[k], start[k])
                } else {
                    self.chunks()[k] == start[k]
                },
                dirty_chunks@ == queued_flags(start, q, i as nat),
                self.mesh_queue() == Seq::<ChunkPosition>::empty(),
                self.data_queue() == old(self).data_queue(),
                self.materials() == old(self).materials(),
                self.meshes_pending() == old(self).meshes_pending(),
            decreases queued@.len() - i,
        {
            let chunk_pos = queued[i];
            let key = (chunk_pos.x, chunk_pos.y);
            let ghost before = self.chunks();
            proof {
                assert forall|k: ChunkKey| #[trigger] queued_before(q, k, i + 1) <==> (queued_before(q, k, i as int) || k == key) by {
                    if queued_before(q, k, i + 1) && !queued_before(q, k, i as int) {
                        let j = choose|j: int| 0 <= j < i + 1 && #[trigger] key_of(q[j]) == k;
                        assert(j == i);
                    }
                    if k == key {
                        assert(key_of(q[i as int]) == k);
                    }
                }
            }
            match table_remove(&mut self.chunks, key) {
                Some(mut chunk) => {
                    let d0 = chunk.layer_dirty(0);
                    let d1 = chunk.layer_dirty(1);
                    dirty_chunks.push((chunk_pos, d0, d1));
                    chunk.remove_mark();
                    let _ = table_insert(&mut self.chunks, key, chunk);
                    proof {
                        assert(self.chunks() =~= before.insert(key, chunk));
                        if queued_before(q, key, i as int) {
                            assert(!d0 && !d1);
                        }
                    }
                },
                None => {},
            }
            i = i + 1;
        }
        let ghost flags = dirty_chunks@;
        proof {
            lemma_queued_flags_loaded(start, q, q.len());
        }
        let mut jobs: Vec<MeshJob> = Vec::new();
        let mut t: usize = 0;
        while t < dirty_chunks.len()
            invariant
                t <= flags.len(),
                flags == dirty_chunks@,
                flags == queued_flags(start, q, q.len()),
                self.wf(),
                self.chunks().dom() == start.dom(),
                forall|u: int| 0 <= u < flags.len() ==> #[trigger] start.contains_key(key_of(flags[u].0)),
                jobs@.map_values(|j: MeshJob| (j.chunk_pos, j.layer)) == jobs_for(flags, t as nat),
                forall|u: int| 0 <= u < jobs@.len() ==> {
                    &&& (#[trigger] jobs@[u]).layer < 2
                    &&& inner_position(jobs@[u].chunk_pos)
                    &&& borders_of(self.chunks(), jobs@[u].chunk_pos, jobs@[u].layer as int, jobs@[u].borders)
                },
            decreases flags.len() - t,
        {
            let (chunk_pos, d0, d1) = dirty_chunks[t];
            let ghost before_jobs = jobs@;
            proof {
                assert(start.contains_key(key_of(flags[t as int].0)));
                assert(self.chunks().contains_key(key_of(chunk_pos)));
                assert(inner_position(pos_of(key_of(chunk_pos))));
                assert(pos_of(key_of(chunk_pos)) == chunk_pos);
            }
            if d1 {
                let borders = self.chunk_borders(&chunk_pos, 1);
                jobs.push(MeshJob { chunk_pos, layer: 1, borders });
            }
            let ghost mid_jobs = jobs@;
            if d0 {
                let borders = self.chunk_borders(&chunk_pos, 0);
                jobs.push(MeshJob { chunk_pos, layer: 0, borders });
            }
            proof {
                let m = |j: MeshJob| (j.chunk_pos, j.layer);
                assert(mid_jobs.map_values(m) =~= before_jobs.map_values(m) + (if d1 {
                    seq![(chunk_pos, 1usize)]
                } else {
                    Seq::empty()
                }));
                assert(jobs@.map_values(m) =~= mid_jobs.map_values(m) + (if d0 {
                    seq![(chunk_pos, 0usize)]
                } else {
                    Seq::empty()
                }));
            }
            t = t + 1;
        }
        jobs
    }

    /// Marks `layer` of the chunk at `key` for a new mesh, when loaded.
    fn mark_dirty_at(&mut self, key: ChunkKey, layer: usize)
        requires
            old(self).wf(),
            layer < 2,
        ensures
            final(self).wf(),
            final(self).chunks().dom() == old(self).chunks().dom(),
            forall|k: ChunkKey| #[trigger] old(self).chunks().contains_key(k) ==> if k == key {
                &&& final(self).chunks()[k].wf() == old(self).chunks()[k].wf()
                &&& final(self).chunks()[k].same_tiles(old(self).chunks()[k])
                &&& final(self).chunks()[k].same_meshes(old(self).chunks()[k])
                &&& final(self).chunks()[k].dirty_layer(layer as int)
                &&& final(self).chunks()[k].dirty_layer(1 - layer) == old(self).chunks()[k].dirty_layer(1 - layer)
                &&& final(self).chunks()[k].save_flag() == old(self).chunks()[k].save_flag()
            } else {
                final(self).chunks()[k] == old(self).chunks()[k]
            },
            final(self).data_queue() == old(self).data_queue(),
            final(self).mesh_queue() == old(self).mesh_queue(),
            final(self).materials() == old(self).materials(),
            final(self).meshes_pending() == old(self).meshes_pending(),
    {
        match table_remove(&mut self.chunks, key) {
            Some(mut chunk) => {
                chunk.mark_dirty(layer);
                proof {
                    assert forall|l: int, x: int, y: int| in_chunk(l, x, y) implies #[trigger] chunk.tile(l, x, y).id <= MAX_TILE_ID by {
                        assert(old(self).chunks()[key].tile(l, x, y).id <= MAX_TILE_ID);
                    }
                }
                let _ = table_insert(&mut self.chunks, key, chunk);
                proof {
                    assert(self.chunks() =~= old(self).chunks().insert(key, chunk));
                }
            },
            None => {
                proof {
                    assert(self.chunks() =~= old(self).chunks());
                }
            },
        }
    }

    /// Sets world tile (x, y) of `layer` to `id` when the chunk that the
    /// edit reaches (`tile_chunk`) is loaded, at local offset
    /// `(x mod 32, y mod 32)`, and marks the chunks that show the tile for
    /// a new mesh.
    fn set_tile(&mut self, x: i32, y: i32, id: u8, layer: usize)
        requires
            old(self).wf(),
            layer < 2,
            id <= MAX_TILE_ID,
        ensures
            final(self).wf(),
            tile_edited(old(self).chunks(), final(self).chunks(), x as int, y as int, id, layer as int),
            final(self).data_queue() == old(self).data_queue(),
            final(self).mesh_queue() == old(self).mesh_queue(),
            final(self).materials() == old(self).materials(),
            final(self).meshes_pending() == old(self).meshes_pending(),
    {
        let key = (edit_chunk_of(x), edit_chunk_of(y));
        let ghost c = tile_chunk(x as int, y as int);
        let ghost lx0 = floor_mod(x as int, 32);
        let ghost ly0 = floor_mod(y as int, 32);
        let mut adj_x: i32 = 0;
        let mut adj_y: i32 = 0;
        let ghost start = old(self).chunks();
        assert(key == c);
        assert(-0x400_0010 <= key.0 <= 0x400_0010 && -0x400_0010 <= key.1 <= 0x400_0010);
        match table_remove(&mut self.chunks, key) {
            Some(mut chunk) => {
                let lx = x.checked_rem_euclid(CHUNK_SIZE_I32).unwrap() as usize;
                let ly = y.checked_rem_euclid(CHUNK_SIZE_I32).unwrap() as usize;
                if lx == 0 {
                    adj_x = -1;
                } else if lx == CHUNK_SIZE - 1 {
                    adj_x = 1;
                }
                if ly == 0 {
                    adj_y = -1;
                } else if ly == CHUNK_SIZE - 1 {
                    adj_y = 1;
                }
                chunk.set_tile(lx, ly, id, layer);
                proof {
                    assert forall|l: int, a: int, b: int| in_chunk(l, a, b) implies #[trigger] chunk.tile(l, a, b).id <= MAX_TILE_ID by {
                        if (l, a, b) != (layer as int, lx as int, ly as int) {
                            assert(start[key].tile(l, a, b).id <= MAX_TILE_ID);
                        }
                    }
                }
                let _ = table_insert(&mut self.chunks, key, chunk);
                proof {
                    assert(self.chunks() =~= start.insert(key, chunk));
                }
            },
            None => {
                proof {
                    assert(self.chunks() =~= start);
                }
            },
        }
        let ghost hit = start.contains_key(c);
        assert(adj_x == if hit { edge_step(lx0) } else { 0 });
        assert(adj_y == if hit { edge_step(ly0) } else { 0 });
        let ghost after_center = self.chunks();
        if adj_x != 0 {
            self.mark_dirty_at((key.0 + adj_x, key.1), layer);
        }
        let ghost after_x = self.chunks();
        if adj_y != 0 {
            self.mark_dirty_at((key.0, key.1 + adj_y), layer);
        }
        let ghost after_y = self.chunks();
        if adj_x != 0 && adj_y != 0 {
            self.mark_dirty_at((key.0 + adj_x, key.1 + adj_y), layer);
        }
        proof {
            let fin = self.chunks();
            assert forall|k: ChunkKey| #[trigger] start.contains_key(k) implies {
                &&& fin[k].wf() == start[k].wf()
                &&& fin[k].same_meshes(start[k])
                &&& forall|l: int, a: int, b: int| in_chunk(l, a, b) ==> #[trigger] fin[k].tile(l, a, b) == if hit && k == c
                    && l == layer && a == lx0 && b == ly0 {
                    Tile { id }
                } else {
                    start[k].tile(l, a, b)
                }
                &&& fin[k].dirty_layer(layer as int) == (start[k].dirty_layer(layer as int) || (hit && remesh_target(x as int, y as int, k)))
                &&& fin[k].dirty_layer(1 - layer) == start[k].dirty_layer(1 - layer)
                &&& fin[k].save_flag() == (start[k].save_flag() || (hit && k == c))
            } by {
                assert(after_center.contains_key(k));
                assert(after_x.contains_key(k));
                assert(after_y.contains_key(k));
                assert forall|l: int, a: int, b: int| in_chunk(l, a, b) implies #[trigger] fin[k].tile(l, a, b) == if hit && k == c
                    && l == layer && a == lx0 && b == ly0 {
                    Tile { id }
                } else {
                    start[k].tile(l, a, b)
                } by {
                    assert(fin[k].tile(l, a, b) == after_y[k].tile(l, a, b));
                    assert(after_y[k].tile(l, a, b) == after_x[k].tile(l, a, b));
                    assert(after_x[k].tile(l, a, b) == after_center[k].tile(l, a, b));
                }
            }
        }
    }

    /// Clears the foreground tiles within `radius` of world tile (x, y):
    /// offsets `-radius..radius` on each axis whose squared distance is at
    /// most `radius * radius`, in loaded chunks.
    pub fn explode(&mut self, radius: i32, x: i32, y: i32)
        requires
            old(self).wf(),
            i32::MIN < radius <= 32767,
            radius > 0 ==> {
                &&& i32::MIN <= x - radius
                &&& x + radius - 1 <= i32::MAX
                &&& i32::MIN <= y - radius
                &&& y + radius - 1 <= i32::MAX
            },
        ensures
            final(self).wf(),
            explosion_applied(old(self).chunks(), final(self).chunks(), radius as int, x as int, y as int),
            final(self).data_queue() == old(self).data_queue(),
            final(self).mesh_queue() == old(self).mesh_queue(),
            final(self).materials() == old(self).materials(),
            final(self).meshes_pending() == old(self).meshes_pending(),
    {
        let ghost start = old(self).chunks();
        let ghost r = radius as int;
        proof {
            assert forall|ii: int, jj: int| #[trigger] blast_before(r, ii, jj, -r, -r) == false by {}
            assert(explosion_prefix(start, start, r, x as int, y as int, -r, -r));
        }
        let mut i: i32 = -radius;
        while i < radius
            invariant
                i32::MIN < radius <= 32767,
                radius > 0 ==> {
                    &&& i32::MIN <= x - radius
                    &&& x + radius - 1 <= i32::MAX
                    &&& i32::MIN <= y - radius
                    &&& y + radius - 1 <= i32::MAX
                },
                r == radius,
                start == old(self).chunks(),
                radius > 0 ==> -radius <= i <= radius,
                radius <= 0 ==> i == -radius,
                self.wf(),
                explosion_prefix(start, self.chunks(), r, x as int, y as int, i as int, -r),
                self.data_queue() == old(self).data_queue(),
                self.mesh_queue() == old(self).mesh_queue(),
                self.materials() == old(self).materials(),
                self.meshes_pending() == old(self).meshes_pending(),
            decreases radius - i,
        {
            let mut j: i32 = -radius;
            while j < radius
                invariant
                    0 < radius <= 32767,
                    i32::MIN <= x - radius,
                    x + radius - 1 <= i32::MAX,
                    i32::MIN <= y - radius,
                    y + radius - 1 <= i32::MAX,
                    r == radius,
                    start == old(self).chunks(),
                    -radius <= i < radius,
                    -radius <= j <= radius,
                    self.wf(),
                    explosion_prefix(start, self.chunks(), r, x as int, y as int, i as int, j as int),
                    self.data_queue() == old(self).data_queue(),
                    self.mesh_queue() == old(self).mesh_queue(),
                    self.materials() == old(self).materials(),
                    self.meshes_pending() == old(self).meshes_pending(),
                decreases radius - j,
            {
                assert(0 <= i * i <= 32767 * 32767) by (nonlinear_arith)
                    requires -32767 <= i <= 32767;
                assert(0 <= j * j <= 32767 * 32767) by (nonlinear_arith)
                    requires -32767 <= j <= 32767;
                assert(0 <= radius * radius <= 32767 * 32767) by (nonlinear_arith)
                    requires 0 < radius <= 32767;
                let ghost cur = self.chunks();
                if i * i + j * j <= radius * radius {
                    self.set_tile(x + i, y + j, 0, 1);
                }
                proof {
                    lemma_explosion_step(start, cur, self.chunks(), r, x as int, y as int, i as int, j as int);
                }
                j = j + 1;
            }
            proof {
                assert forall|ii: int, jj: int| blast_before(r, ii, jj, i as int, r) == blast_before(r, ii, jj, i + 1, -r) by {}
                lemma_explosion_prefix_same(start, self.chunks(), r, x as int, y as int, i as int, r, i + 1, -r);
            }
            i = i + 1;
        }
        proof {
            lemma_explosion_done(start, self.chunks(), r, x as int, y as int, i as int);
        }
    }

    /// The tile view around the player: the 7 x 5 chunks centred on the
    /// player's chunk, `TILE_VIEW_WIDTH` tiles per row, each tile classed by
    /// `tile_class`; tiles of chunks that are not loaded read as solid.
    pub fn extract_tiles(&self, player: PlayerPos) -> (r: Vec<u8>)
        requires
            self.wf(),
        ensures
            r@.len() == TILE_VIEW_WIDTH * TILE_VIEW_HEIGHT,
            forall|a: int, b: int, lx: int, ly: int| view_tile(a, b, lx, ly) ==> #[trigger] r@[view_index(a, b, lx, ly)]
                == view_cell(self.chunks(), player.spec_chunk(), a, b, lx, ly),
    {
        let width_tiles: i32 = (HORIZONTAL_CHUNK_LOAD_DISTANCE * 2 + 1) * CHUNK_SIZE_I32;
        let height_tiles: i32 = (VERTICAL_CHUNK_LOAD_DISTANCE * 2 + 1) * CHUNK_SIZE_I32;
        let total = (width_tiles * height_tiles) as usize;
        let mut tiles: Vec<u8> = Vec::new();
        while tiles.len() < total
            invariant
                total == 35840,
                tiles@.len() <= total,
                forall|t: int| 0 <= t < tiles@.len() ==> #[trigger] tiles@[t] == 1u8,
            decreases total - tiles@.len(),
        {
            tiles.push(1u8);
        }
        let pc = player.chunk();
        let ghost chunks = self.chunks();
        assert(-67108864 <= pc.x <= 67108864 && -67108864 <= pc.y <= 67108864);
        // view tiles already written, in (chunk row, chunk column, row, column) order
        let mut cy: i32 = -VERTICAL_CHUNK_LOAD_DISTANCE;
        while cy <= VERTICAL_CHUNK_LOAD_DISTANCE
            invariant
                -2 <= cy <= 3,
                width_tiles == 224,
                chunks == self.chunks(),
                self.wf(),
                pc == player.spec_chunk(),
                -67108864 <= pc.x <= 67108864,
                -67108864 <= pc.y <= 67108864,
                tiles@.len() == 35840,
                forall|a: int, b: int, lx: int, ly: int| view_tile(a, b, lx, ly) ==> #[trigger] tiles@[view_index(a, b, lx, ly)]
                    == if b < cy + 2 { view_cell(chunks, pc, a, b, lx, ly) } else { 1u8 },
            decreases 3 - cy,
        {
            let mut cx: i32 = -HORIZONTAL_CHUNK_LOAD_DISTANCE;
            while cx <= HORIZONTAL_CHUNK_LOAD_DISTANCE
                invariant
                    -2 <= cy <= 2,
                    -3 <= cx <= 4,
                        width_tiles == 224,
                    chunks == self.chunks(),
                    self.wf(),
                    pc == player.spec_chunk(),
                    -67108864 <= pc.x <= 67108864,
                    -67108864 <= pc.y <= 67108864,
                    tiles@.len() == 35840,
                    forall|a: int, b: int, lx: int, ly: int| view_tile(a, b, lx, ly) ==> #[trigger] tiles@[view_index(a, b, lx, ly)]
                        == if b < cy + 2 || (b == cy + 2 && a < cx + 3) { view_cell(chunks, pc, a, b, lx, ly) } else { 1u8 },
                decreases 4 - cx,
            {
                let chunk_pos = ChunkPosition::new(pc.x + cx, pc.y + cy);
                let ghost ca: int = cx + 3;
                let ghost cb: int = cy + 2;
                match table_get(&self.chunks, (chunk_pos.x, chunk_pos.y)) {
                    Some(chunk) => {
                        proof {
                            assert(chunks.contains_key(key_of(chunk_pos)));
                        }
                        let base_x = (cx + HORIZONTAL_CHUNK_LOAD_DISTANCE) * CHUNK_SIZE_I32;
                        let base_y = (cy + VERTICAL_CHUNK_LOAD_DISTANCE) * CHUNK_SIZE_I32;
                        let mut y: usize = 0;
                        while y < CHUNK_SIZE
                            invariant
                                -2 <= cy <= 2,
                                -3 <= cx <= 3,
                                ca == cx + 3,
                                cb == cy + 2,
                                base_x == ca * 32,
                                base_y == cb * 32,
                                y <= 32,
                                width_tiles == 224,
                                chunk.wf(),
                                *chunk == chunks[key_of(chunk_pos)],
                                chunks.contains_key(key_of(chunk_pos)),
                                chunk_pos.x == pc.x + ca - 3,
                                chunk_pos.y == pc.y + cb - 2,
                                tiles@.len() == 35840,
                                forall|a: int, b: int, lx: int, ly: int| view_tile(a, b, lx, ly) ==> #[trigger] tiles@[view_index(a, b, lx, ly)]
                                    == if b < cb || (b == cb && a < ca) || (b == cb && a == ca && ly < y) {
                                    view_cell(chunks, pc, a, b, lx, ly)
                                } else {
                                    1u8
                                },
                            decreases 32 - y,
                        {
                            assert((cb * 32 + y) * 224 + ca * 32 <= 160 * 224) by (nonlinear_arith)
                                requires 0 <= cb < 5, 0 <= ca < 7, 0 <= y < 32;
                            let row_start = ((base_y as usize + y) * width_tiles as usize) + base_x as usize;
                            let mut x: usize = 0;
                            while x < CHUNK_SIZE
                                invariant
                                    -2 <= cy <= 2,
                                    -3 <= cx <= 3,
                                    ca == cx + 3,
                                    cb == cy + 2,
                                    base_x == ca * 32,
                                    base_y == cb * 32,
                                    y < 32,
                                    x <= 32,
                                    row_start == (cb * 32 + y) * 224 + ca * 32,
                                    chunk.wf(),
                                    *chunk == chunks[key_of(chunk_pos)],
                                    chunks.contains_key(key_of(chunk_pos)),
                                    chunk_pos.x == pc.x + ca - 3,
                                    chunk_pos.y == pc.y + cb - 2,
                                    tiles@.len() == 35840,
                                    forall|a: int, b: int, lx: int, ly: int| view_tile(a, b, lx, ly) ==> #[trigger] tiles@[view_index(a, b, lx, ly)]
                                        == if b < cb || (b == cb && a < ca) || (b == cb && a == ca && (ly < y || (ly == y && lx < x))) {
                                        view_cell(chunks, pc, a, b, lx, ly)
                                    } else {
                                        1u8
                                    },
                                decreases 32 - x,
                            {
                                let fg = chunk.get_tile(x, y, 1).id;
                                let bg = chunk.get_tile(x, y, 0).id;
                                let value = if fg == 0 {
                                    if bg == 0 {
                                        0
                                    } else {
                                        2
                                    }
                                } else {
                                    1
                                };
                                let ghost idx = view_index(ca, cb, x as int, y as int);
                                proof {
                                    assert(idx == row_start + x);
                                    assert(0 <= idx < 35840) by (nonlinear_arith)
                                        requires idx == (cb * 32 + y) * 224 + ca * 32 + x, 0 <= cb < 5, 0 <= ca < 7, 0 <= y < 32, 0 <= x < 32;
                                }
                                let ghost before = tiles@;
                                tiles.set(row_start + x, value);
                                proof {
                                    assert forall|a: int, b: int, lx: int, ly: int| view_tile(a, b, lx, ly) implies #[trigger] tiles@[view_index(a, b, lx, ly)]
                                        == if b < cb || (b == cb && a < ca) || (b == cb && a == ca && (ly < y || (ly == y && lx < x + 1))) {
                                        view_cell(chunks, pc, a, b, lx, ly)
                                    } else {
                                        1u8
                                    } by {
                                        if view_index(a, b, lx, ly) == idx {
                                            lemma_view_index_injective(a, b, lx, ly, ca, cb, x as int, y as int);
                                        } else {
                                            assert(before[view_index(a, b, lx, ly)] == tiles@[view_index(a, b, lx, ly)]);
                                        }
                                    }
                                }
                                x = x + 1;
                            }
                            y = y + 1;
                        }
                    },
                    None => {
                        proof {
                            assert forall|a: int, b: int, lx: int, ly: int| view_tile(a, b, lx, ly) && b == cb && a == ca
                                implies view_cell(chunks, pc, a, b, lx, ly) == 1u8 by {
                                assert(!chunks.contains_key(key_of(chunk_pos)));
                            }
                        }
                    },
                }
                cx = cx + 1;
            }
            cy = cy + 1;
        }
        tiles
    }

    /// Edits the foreground tile under the cursor at world tile (x, y): the
    /// right button clears it, otherwise the left button places tile 4.
    pub fn handle_input(&mut self, x: i32, y: i32, left_mouse: bool, right_mouse: bool)
        requires
            old(self).wf(),
        ensures
            final(self).wf(),
            right_mouse ==> tile_edited(old(self).chunks(), final(self).chunks(), x as int, y as int, 0, 1),
            !right_mouse && left_mouse ==> tile_edited(old(self).chunks(), final(self).chunks(), x as int, y as int, 4, 1),
            !right_mouse && !left_mouse ==> final(self).chunks() == old(self).chunks(),
            final(self).data_queue() == old(self).data_queue(),
            final(self).mesh_queue() == old(self).mesh_queue(),
            final(self).materials() == old(self).materials(),
            final(self).meshes_pending() == old(self).meshes_pending(),
    {
        if right_mouse {
            self.set_tile(x, y, 0, 1);
        } else if left_mouse {
            self.set_tile(x, y, 4, 1);
        }
    }

    /// Builds the mesh that `job` asks for, when its chunk is loaded.
    pub fn build_job_mesh(&self, job: &MeshJob) -> (r: Option<ChunkMesh>)
        requires
            self.wf(),
            job.layer < 2,
        ensures
            !self.chunks().contains_key(key_of(job.chunk_pos)) ==> r is None,
            self.chunks().contains_key(key_of(job.chunk_pos)) ==> {
                let c = self.chunks()[key_of(job.chunk_pos)];
                let quads = layer_quads(c, job.layer as int, job.borders, 1024);
                &&& (r is None <==> quads.len() == 0)
                &&& r matches Some(m) ==> {
                    &&& m.quads@ == quads
                    &&& m.indices@.len() == 6 * m.quads@.len()
                    &&& forall|t: int| 0 <= t < m.indices@.len() ==> #[trigger] m.indices@[t] == quad_index(t)
                }
            },
    {
        match table_get(&self.chunks, (job.chunk_pos.x, job.chunk_pos.y)) {
            Some(chunk) => {
                proof {
                    assert(self.chunks().contains_key(key_of(job.chunk_pos)));
                }
                chunk.build_mesh(job.layer, &job.borders)
            },
            None => None,
        }
    }

    /// Whether all eight chunks around `chunk_pos` are loaded.
    pub fn can_mesh_chunk(&self, chunk_pos: &ChunkPosition) -> (r: bool)
        requires
            inner_position(*chunk_pos),
        ensures
            r == neighbours_loaded(self.chunks(), *chunk_pos),
    {
        let mut k: usize = 0;
        while k < 8
            invariant
                k <= 8,
                inner_position(*chunk_pos),
                forall|kk: int| 0 <= kk < k ==> #[trigger] self.chunks().contains_key(
                    ((chunk_pos.x + neighbour_offset(kk).0) as i32, (chunk_pos.y + neighbour_offset(kk).1) as i32),
                ),
            decreases 8 - k,
        {
            let (dx, dy) = neighbour_offset_at(k);
            if !table_contains(&self.chunks, (chunk_pos.x + dx, chunk_pos.y + dy)) {
                return false;
            }
            k = k + 1;
        }
        true
    }

    /// The tile at world (x, y) of `layer`, when its chunk is loaded.
    pub fn get_tile(&self, x: i32, y: i32, layer: usize) -> (r: Option<&Tile>)
        requires
            self.wf(),
            layer < 2,
        ensures
            r is Some <==> world_tile(self.chunks(), x as int, y as int, layer as int) is Some,
            r matches Some(t) ==> *t == world_tile(self.chunks(), x as int, y as int, layer as int)->0,
    {
        let chunk_pos = ChunkPosition::from_world_space(x, y);
        match table_get(&self.chunks, (chunk_pos.x, chunk_pos.y)) {
            Some(chunk) => {
                let lx = x.checked_rem_euclid(CHUNK_SIZE_I32).unwrap() as usize;
                let ly = y.checked_rem_euclid(CHUNK_SIZE_I32).unwrap() as usize;
                Some(chunk.get_tile(lx, ly, layer))
            },
            None => None,
        }
    }
}

/// Chunks that data loading asks for around the player are never far
/// enough to be unloaded while the player stays in the same chunk.
pub proof fn law_load_window_not_unloaded(player: PlayerPos, p: ChunkPosition)
    requires
        load_window(player.spec_chunk()).contains(p),
    ensures
        !unload_far(key_of(p), player),
{
    let w = load_window(player.spec_chunk());
    let i = choose|i: int| 0 <= i < w.len() && w[i] == p;
    let pc = player.spec_chunk();
    crate::game::terrain::chunk::lemma_world_tile_in_its_chunk(player.tile_x as int, player.tile_y as int);
    assert(p.x == pc.x + i / 7 - 4 && p.y == pc.y + i % 7 - 3);
    assert(0 <= i / 7 < 9 && 0 <= i % 7 < 7);
}

/// After the data queue is updated, every position of the load window is
/// loaded or queued for loading.
pub proof fn law_load_window_covered(
    chunks: Map<ChunkKey, Chunk>,
    queue_before: Seq<ChunkPosition>,
    queue_after: Seq<ChunkPosition>,
    player: PlayerPos,
    p: ChunkPosition,
)
    requires
        queue_after == queue_before + load_window(player.spec_chunk()).filter(
            |q: ChunkPosition| !chunks.contains_key(key_of(q)),
        ),
        load_window(player.spec_chunk()).contains(p),
    ensures
        chunks.contains_key(key_of(p)) || queue_after.contains(p),
{
    let pred = |q: ChunkPosition| !chunks.contains_key(key_of(q));
    let w = load_window(player.spec_chunk());
    if !chunks.contains_key(key_of(p)) {
        let i = choose|i: int| 0 <= i < w.len() && w[i] == p;
        w.lemma_filter_contains(pred, i);
        let f = w.filter(pred);
        let j = choose|j: int| 0 <= j < f.len() && f[j] == p;
        assert(queue_after[queue_before.len() + j] == p);
    }
}

/// After an explosion, every blasted tile of a loaded chunk reads as empty
/// in the foreground.
pub proof fn law_explosion_clears(
    before: Map<ChunkKey, Chunk>,
    after: Map<ChunkKey, Chunk>,
    radius: int,
    cx: int,
    cy: int,
    i: int,
    j: int,
)
    requires
        explosion_applied(before, after, radius, cx, cy),
        in_blast(radius, i, j),
        -0x100_0000 < cx + i < 0x100_0000,
        -0x100_0000 < cy + j < 0x100_0000,
        world_tile(before, cx + i, cy + j, 1) is Some,
    ensures
        world_tile(after, cx + i, cy + j, 1) == Some(Tile { id: 0 }),
{
    let x = cx + i;
    let y = cy + j;
    lemma_edit_chunk_exact(x);
    lemma_edit_chunk_exact(y);
    let k = tile_chunk(x, y);
    lemma_world_tile_local(x, y);
    assert(before.contains_key(k));
    assert(edit_lands(cx + i, cy + j, k, floor_mod(x, 32), floor_mod(y, 32)));
    assert(blast_hits_tile(radius, cx, cy, k, floor_mod(x, 32), floor_mod(y, 32)));
}

/// An explosion leaves every tile outside its blast, and every background
/// tile, as it was.
pub proof fn law_explosion_keeps(
    before: Map<ChunkKey, Chunk>,
    after: Map<ChunkKey, Chunk>,
    radius: int,
    cx: int,
    cy: int,
    x: int,
    y: int,
    layer: int,
)
    requires
        explosion_applied(before, after, radius, cx, cy),
        0 <= layer < 2,
        layer == 0 || !in_blast(radius, x - cx, y - cy),
        i32::MIN <= x <= i32::MAX,
        i32::MIN <= y <= i32::MAX,
        forall|i: int, j: int| #[trigger] in_blast(radius, i, j) ==> -0x100_0000 < cx + i < 0x100_0000 && -0x100_0000 < cy + j < 0x100_0000,
    ensures
        world_tile(after, x, y, layer) == world_tile(before, x, y, layer),
{
    let k = (floor_div(x, 32) as i32, floor_div(y, 32) as i32);
    let (a, b) = (floor_mod(x, 32), floor_mod(y, 32));
    lemma_world_tile_local(x, y);
    if before.contains_key(k) {
        assert(in_chunk(layer, a, b));
        if layer == 1 && blast_hits_tile(radius, cx, cy, k, a, b) {
            let (i, j) = choose|i: int, j: int| #[trigger] in_blast(radius, i, j) && edit_lands(cx + i, cy + j, k, a, b);
            lemma_edit_chunk_exact(cx + i);
            lemma_edit_chunk_exact(cy + j);
            lemma_world_tile_local(cx + i, cy + j);
            assert(-0x10_0000 <= floor_div(x, 32) < 0x10_0000 && -0x10_0000 <= floor_div(y, 32) < 0x10_0000) by {
                assert(-0x8000_0000 <= x < 0x8000_0000 && -0x8000_0000 <= y < 0x8000_0000);
            }
            assert(-0x10_0000 <= floor_div(cx + i, 32) < 0x10_0000 && -0x10_0000 <= floor_div(cy + j, 32) < 0x10_0000);
            assert(floor_div(cx + i, 32) == floor_div(x, 32) && floor_div(cy + j, 32) == floor_div(y, 32));
            assert(cx + i == x && cy + j == y);
            assert(false);
        }
        assert(after[k].tile(layer, a, b) == before[k].tile(layer, a, b));
    }
}

/// Editing a tile of a loaded chunk and reading it back gives the new tile.
pub proof fn law_tile_read_after_write(
    before: Map<ChunkKey, Chunk>,
    after: Map<ChunkKey, Chunk>,
    x: int,
    y: int,
    id: u8,
    layer: int,
)
    requires
        tile_edited(before, after, x, y, id, layer),
        0 <= layer < 2,
        -0x100_0000 < x < 0x100_0000,
        -0x100_0000 < y < 0x100_0000,
        world_tile(before, x, y, layer) is Some,
    ensures
        world_tile(after, x, y, layer) == Some(Tile { id }),
{
    lemma_edit_chunk_exact(x);
    lemma_edit_chunk_exact(y);
    let k = tile_chunk(x, y);
    lemma_world_tile_local(x, y);
    assert(before.contains_key(k));
    assert(in_chunk(layer, floor_mod(x, 32), floor_mod(y, 32)));
}

/// Whether world tile (x, y) of `layer` is solid, a tile of a chunk that is
/// not loaded counting as solid.
pub open spec fn world_solid(chunks: Map<ChunkKey, Chunk>, x: int, y: int, layer: int) -> bool {
    match world_tile(chunks, x, y, layer) {
        Some(t) => t.is_solid(),
        None => true,
    }
}

/// Local coordinate `n` of a chunk at `c`, with `-1 <= n <= 32`, lies in
/// chunk `c + floor(n / 32)` at local `n mod 32`.
proof fn lemma_local_to_world(c: int, n: int)
    requires
        -1 <= n <= 32,
    ensures
        floor_div(32 * c + n, 32) == c + if n < 0 { -1int } else if n < 32 { 0int } else { 1int },
        floor_mod(32 * c + n, 32) == if n < 0 { 31int } else if n < 32 { n } else { 0int },
{
    let w = 32 * c + n;
    if n < 0 {
        assert(w == 32 * (c - 1) + 31);
    } else if n < 32 {
        assert(w == 32 * c + n);
    } else {
        assert(w == 32 * (c + 1) + 0);
    }
    assert(w / 32 == c + if n < 0 { -1int } else if n < 32 { 0int } else { 1int }) by (nonlinear_arith)
        requires w == 32 * c + n, -1 <= n <= 32;
    assert(w % 32 == if n < 0 { 31int } else if n < 32 { n } else { 0int }) by (nonlinear_arith)
        requires w == 32 * c + n, -1 <= n <= 32;
}

/// Each border entry that faces a side of the chunk says whether the world
/// tile touching the chunk there is solid: the top row reads the row just
/// above the chunk, the bottom row the row just below, the left and right
/// columns the columns just beside it; tiles of chunks that are not loaded
/// count as solid. The corner entries of the top (bottom) row are solid
/// when the chunk above (below) is not loaded, and otherwise say whether
/// the tile beside the chunk's own top (bottom) corner tile is solid.
pub proof fn law_borders_read_touching_tiles(
    chunks: Map<ChunkKey, Chunk>,
    pos: ChunkPosition,
    layer: int,
    b: ChunkBorders,
    i: int,
)
    requires
        borders_of(chunks, pos, layer, b),
        inner_position(pos),
        0 <= i < 32,
    ensures
        b.top[i + 1] == world_solid(chunks, 32 * pos.x + i, 32 * pos.y + 32, layer),
        b.bottom[i + 1] == world_solid(chunks, 32 * pos.x + i, 32 * pos.y - 1, layer),
        b.left[i] == world_solid(chunks, 32 * pos.x - 1, 32 * pos.y + i, layer),
        b.right[i] == world_solid(chunks, 32 * pos.x + 32, 32 * pos.y + i, layer),
        b.top[0] == (world_tile(chunks, 32 * pos.x, 32 * pos.y + 32, layer) is None
            || world_solid(chunks, 32 * pos.x - 1, 32 * pos.y + 31, layer)),
        b.top[33] == (world_tile(chunks, 32 * pos.x, 32 * pos.y + 32, layer) is None
            || world_solid(chunks, 32 * pos.x + 32, 32 * pos.y + 31, layer)),
        b.bottom[0] == (world_tile(chunks, 32 * pos.x, 32 * pos.y - 1, layer) is None
            || world_solid(chunks, 32 * pos.x - 1, 32 * pos.y, layer)),
        b.bottom[33] == (world_tile(chunks, 32 * pos.x, 32 * pos.y - 1, layer) is None
            || world_solid(chunks, 32 * pos.x + 32, 32 * pos.y, layer)),
{
    lemma_local_to_world(pos.x as int, 0);
    lemma_local_to_world(pos.y as int, 0);
    lemma_local_to_world(pos.y as int, 31);
    lemma_local_to_world(pos.x as int, i);
    lemma_local_to_world(pos.y as int, i);
    lemma_local_to_world(pos.x as int, -1);
    lemma_local_to_world(pos.x as int, 32);
    lemma_local_to_world(pos.y as int, -1);
    lemma_local_to_world(pos.y as int, 32);
}

/// Bit `k` of the neighbour mask of local tile (x, y), for a neighbour that
/// is not beyond a corner of the chunk, says whether the world tile next to
/// (x, y) in that direction is solid (an unloaded chunk's tiles counting as
/// solid), whether it lies in the chunk itself or in the chunk across an
/// edge. For a neighbour beyond a corner the bit is set when the chunk
/// above or below is not loaded, and otherwise says whether the tile beside
/// (x, y) on that neighbour's side is solid.
pub proof fn law_neighbour_mask_reads_world(
    chunks: Map<ChunkKey, Chunk>,
    pos: ChunkPosition,
    layer: int,
    b: ChunkBorders,
    x: int,
    y: int,
    k: int,
)
    requires
        chunks.contains_key(key_of(pos)),
        borders_of(chunks, pos, layer, b),
        inner_position(pos),
        0 <= x < 32,
        0 <= y < 32,
        0 <= k < 8,
    ensures
        0 <= x + neighbour_offset(k).0 < 32 || 0 <= y + neighbour_offset(k).1 < 32 ==> ((neighbour_mask(
            chunks[key_of(pos)],
            layer,
            b,
            x,
            y,
        ) / bit_weight(k)) % 2 == 1) == world_solid(
            chunks,
            32 * pos.x + x + neighbour_offset(k).0,
            32 * pos.y + y + neighbour_offset(k).1,
            layer,
        ),
        !(0 <= x + neighbour_offset(k).0 < 32 || 0 <= y + neighbour_offset(k).1 < 32) ==> ((neighbour_mask(
            chunks[key_of(pos)],
            layer,
            b,
            x,
            y,
        ) / bit_weight(k)) % 2 == 1) == (world_tile(chunks, 32 * pos.x + x, 32 * pos.y + y + neighbour_offset(k).1, layer) is None
            || world_solid(chunks, 32 * pos.x + x + neighbour_offset(k).0, 32 * pos.y + y, layer)),
{
    let nx = x + neighbour_offset(k).0;
    let ny = y + neighbour_offset(k).1;
    lemma_neighbour_mask_bit(chunks[key_of(pos)], layer, b, x, y, k);
    lemma_local_to_world(pos.x as int, nx);
    lemma_local_to_world(pos.y as int, ny);
    assert(32 * pos.x + x + neighbour_offset(k).0 == 32 * pos.x + nx);
    assert(32 * pos.y + y + neighbour_offset(k).1 == 32 * pos.y + ny);
    lemma_local_to_world(pos.x as int, x);
    lemma_local_to_world(pos.y as int, y);
    if ny == 32 || ny == -1 {
        if 0 <= nx < 32 {
            law_borders_read_touching_tiles(chunks, pos, layer, b, nx);
        } else {
            law_borders_read_touching_tiles(chunks, pos, layer, b, 0);
        }
    } else if nx == 32 || nx == -1 {
        law_borders_read_touching_tiles(chunks, pos, layer, b, ny);
    }
}

/// The tile view classes each world tile of the 7 x 5 chunks around the
/// player: 1 where the foreground tile is not empty or its chunk is not
/// loaded, 2 where the foreground is empty and the background is not, and 0
/// where both are empty.
pub proof fn law_view_classes_world_tiles(
    chunks: Map<ChunkKey, Chunk>,
    player: PlayerPos,
    r: Seq<u8>,
    a: int,
    b: int,
    lx: int,
    ly: int,
)
    requires
        forall|a: int, b: int, lx: int, ly: int| view_tile(a, b, lx, ly) ==> #[trigger] r[view_index(a, b, lx, ly)]
            == view_cell(chunks, player.spec_chunk(), a, b, lx, ly),
        view_tile(a, b, lx, ly),
    ensures
        ({
            let pc = player.spec_chunk();
            let wx = 32 * (pc.x + a - HORIZONTAL_CHUNK_LOAD_DISTANCE) + lx;
            let wy = 32 * (pc.y + b - VERTICAL_CHUNK_LOAD_DISTANCE) + ly;
            let fg = world_tile(chunks, wx, wy, 1);
            let bg = world_tile(chunks, wx, wy, 0);
            &&& r[view_index(a, b, lx, ly)] == 0 <==> (fg == Some(Tile { id: 0 }) && bg == Some(Tile { id: 0 }))
            &&& r[view_index(a, b, lx, ly)] == 2 <==> (fg == Some(Tile { id: 0 }) && bg is Some && bg->0.id != 0)
            &&& r[view_index(a, b, lx, ly)] == 1 <==> fg != Some(Tile { id: 0 })
        }),
{
    let pc = player.spec_chunk();
    lemma_local_to_world(pc.x + a - HORIZONTAL_CHUNK_LOAD_DISTANCE, lx);
    lemma_local_to_world(pc.y + b - VERTICAL_CHUNK_LOAD_DISTANCE, ly);
}

/// A chunk is unloaded exactly when its centre lies at least 160 tiles
/// (5 chunks) from the player horizontally or at least 128 tiles (4 chunks)
/// vertically, each axis measured against the player's own coordinate on
/// that axis; the chunk the player stands in is never unloaded.
pub proof fn law_unload_distance(k: ChunkKey, p: PlayerPos)
    ensures
        ({
            let gx = 2 * (32 * k.0 + 16) - p.twice_x();
            let gy = 2 * (32 * k.1 + 16) - p.twice_y();
            unload_far(k, p) <==> (gx >= 2 * 160 || gx <= -2 * 160 || gy >= 2 * 128 || gy <= -2 * 128)
        }),
        !unload_far(key_of(p.spec_chunk()), p),
{
    crate::game::terrain::chunk::lemma_world_tile_in_its_chunk(p.tile_x as int, p.tile_y as int);
}

/// A chunk lies in the meshed area exactly when its centre is less than 96
/// tiles (3 chunks) from the player horizontally and less than 64 tiles
/// (2 chunks) vertically, each axis against the player's coordinate on that
/// axis; meshes are dropped only from 128 tiles on either axis. The chunk
/// the player stands in is always in the meshed area, and a chunk of the
/// meshed area is never unloaded and never loses its meshes.
pub proof fn law_mesh_area(k: ChunkKey, p: PlayerPos)
    ensures
        ({
            let gx = 2 * (32 * k.0 + 16) - p.twice_x();
            let gy = 2 * (32 * k.1 + 16) - p.twice_y();
            &&& mesh_far(k, p) <==> (gx >= 2 * 96 || gx <= -2 * 96 || gy >= 2 * 64 || gy <= -2 * 64)
            &&& mesh_drop_far(k, p) <==> (gx >= 2 * 128 || gx <= -2 * 128 || gy >= 2 * 128 || gy <= -2 * 128)
        }),
        !mesh_far(key_of(p.spec_chunk()), p),
        !mesh_far(k, p) ==> !unload_far(k, p) && !mesh_drop_far(k, p),
{
    crate::game::terrain::chunk::lemma_world_tile_in_its_chunk(p.tile_x as int, p.tile_y as int);
}

} // verus!
