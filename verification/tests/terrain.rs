use tile_world::engine::gpu_handle::{MaterialHandle, MeshHandle};
use tile_world::game::items::inventory::Inventory;
use tile_world::game::terrain::chunk::{Chunk, ChunkData, ChunkPosition, TILES_PER_LAYER};
use tile_world::game::terrain::chunk_manager::{ChunkManager, PlayerPos, TILE_VIEW_HEIGHT, TILE_VIEW_WIDTH};
use tile_world::game::terrain::mesh::{neighbour_offset_at, MARCHING_SQUARES};
use tile_world::game::terrain::region::REGION_WIDTH;
use tile_world::game::terrain::rounding::edit_chunk_of;
use tile_world::game::terrain::terrain_generator::TerrainGenerator;
use tile_world::game::terrain::tile::Tile;

fn player_at(x: i32, y: i32) -> PlayerPos {
    PlayerPos { tile_x: x, tile_y: y, on_grid_x: true, on_grid_y: true }
}

fn filled_data(bg: u8, fg: u8) -> ChunkData {
    ChunkData::from_layers(vec![Tile { id: bg }; TILES_PER_LAYER], vec![Tile { id: fg }; TILES_PER_LAYER]).unwrap()
}

fn manager_with(positions: &[(i32, i32)], fg: u8) -> ChunkManager {
    let mut m = ChunkManager::new();
    let loaded: Vec<(ChunkPosition, ChunkData)> =
        positions.iter().map(|&(x, y)| (ChunkPosition::new(x, y), filled_data(1, fg))).collect();
    m.insert_chunks(loaded);
    m
}

#[test]
fn chunk_position_world_space() {
    let c = ChunkPosition::new(3, -2);
    assert_eq!(c.to_world_space(), (96, -64));
    assert_eq!(ChunkPosition::from_world_space(96, -64), c);
    assert_eq!(ChunkPosition::from_world_space(127, -33), c);
    assert_eq!(ChunkPosition::from_world_space(-1, 0), ChunkPosition::new(-1, 0));
    assert_eq!(ChunkPosition::from_world_space(-32, 31), ChunkPosition::new(-1, 0));
    assert_eq!(ChunkPosition::from_world_space(-33, 32), ChunkPosition::new(-2, 1));
}

#[test]
fn chunk_position_region() {
    let r = ChunkPosition::new(REGION_WIDTH, -1).to_region_space();
    assert_eq!((r.x, r.y), (1, -1));
    let r = ChunkPosition::new(REGION_WIDTH - 1, -REGION_WIDTH).to_region_space();
    assert_eq!((r.x, r.y), (0, -1));
}

#[test]
fn tile_solidity() {
    assert!(!Tile { id: 0 }.solid());
    assert!(Tile { id: 3 }.solid());
}

#[test]
fn generated_chunk_data() {
    let generator = TerrainGenerator::new();
    let below = Chunk::new(ChunkData::new(&ChunkPosition::new(0, -1), &generator));
    let above = Chunk::new(ChunkData::new(&ChunkPosition::new(5, 0), &generator));
    assert_eq!(*below.get_tile(3, 31, 1), Tile { id: 1 });
    assert_eq!(*below.get_tile(0, 0, 0), Tile { id: 1 });
    assert_eq!(*above.get_tile(3, 0, 1), Tile { id: 0 });
    let mut g = TerrainGenerator::new();
    g.surface = 10;
    let mid = ChunkData::new(&ChunkPosition::new(0, 0), &g);
    let (bg, fg) = mid.layers();
    assert_eq!(bg[9], Tile { id: 1 });
    assert_eq!(fg[10], Tile { id: 0 });
    assert_eq!(fg[32 + 9], Tile { id: 1 });
}

#[test]
fn chunk_data_from_layers_checks_length() {
    assert!(ChunkData::from_layers(vec![Tile { id: 0 }; 10], vec![Tile { id: 0 }; TILES_PER_LAYER]).is_none());
    assert!(ChunkData::from_layers(vec![Tile { id: 0 }; TILES_PER_LAYER], vec![Tile { id: 0 }; TILES_PER_LAYER]).is_some());
}

#[test]
fn chunk_flags_and_tiles() {
    let mut c = Chunk::new(filled_data(0, 0));
    assert!(c.dirty());
    assert!(!c.needs_save());
    assert!(!c.has_mesh());
    c.remove_mark();
    assert!(!c.dirty());
    c.set_tile(5, 7, 3, 1);
    assert_eq!(c.get_tile(5, 7, 1).id, 3);
    assert_eq!(c.get_tile(7, 5, 1).id, 0);
    assert_eq!(c.get_tile(5, 7, 0).id, 0);
    assert!(c.layer_dirty(1));
    assert!(!c.layer_dirty(0));
    assert!(c.needs_save());
    let m = MeshHandle { index: 4, generation: 1 };
    c.set_mesh(0, m);
    assert!(c.has_mesh());
    assert_eq!(*c.mesh(0), Some(m));
    assert_eq!(*c.mesh(1), None);
    c.remove_mark();
    c.destroy_mesh();
    assert!(!c.has_mesh());
    assert!(c.layer_dirty(0) && c.layer_dirty(1));
}

#[test]
fn chunk_draw_list() {
    let mut c = Chunk::new(filled_data(0, 0));
    let mat0 = MaterialHandle { index: 0, generation: 0 };
    let mat1 = MaterialHandle { index: 1, generation: 0 };
    let mesh1 = MeshHandle { index: 9, generation: 2 };
    assert!(c.draw_list(&vec![mat0, mat1]).is_empty());
    c.set_mesh(1, mesh1);
    assert_eq!(c.draw_list(&vec![mat0, mat1]), vec![(mesh1, mat1)]);
    assert!(c.draw_list(&vec![mat0]).is_empty());
}

#[test]
fn neighbour_mask_and_mesh() {
    let mut c = Chunk::new(filled_data(0, 0));
    let m = manager_with(&[], 0);
    let borders = m.chunk_borders(&ChunkPosition::new(0, 0), 1);
    // all border tiles read as solid when no neighbour is loaded
    assert!(borders.top.iter().all(|&b| b));
    assert!(borders.left.iter().all(|&b| b));
    assert!(c.build_mesh(1, &borders).is_none());
    c.set_tile(10, 10, 2, 1);
    c.set_tile(11, 10, 2, 1);
    // neighbour (1, 0) of (10, 10) is bit 6
    assert_eq!(c.tile_neighbours(10, 10, 1, &borders), 64);
    // at the chunk corner every outside neighbour is solid: bits 0, 1, 2, 3, 5
    assert_eq!(c.tile_neighbours(0, 0, 1, &borders), 1 + 2 + 4 + 8 + 32);
    assert_eq!(Chunk::map_marching_squares(64), MARCHING_SQUARES[64]);
    assert_eq!(MARCHING_SQUARES[64], [1, 0]);
    let mesh = c.build_mesh(1, &borders).unwrap();
    assert_eq!(mesh.quads.len(), 2);
    assert_eq!((mesh.quads[0].x, mesh.quads[0].y), (10, 10));
    assert_eq!((mesh.quads[1].x, mesh.quads[1].y), (11, 10));
    assert_eq!(mesh.quads[0].atlas, [1, 0]);
    assert_eq!(mesh.quads[0].shape, MARCHING_SQUARES[64]);
    assert_eq!(mesh.indices, vec![1, 3, 0, 1, 2, 3, 5, 7, 4, 5, 6, 7]);
}

#[test]
fn inventory_starts_empty() {
    assert_eq!(Inventory::new().slot_count(), 0);
}

#[test]
fn data_queue_and_loading() {
    let mut m = ChunkManager::new();
    m.update_data_queue(player_at(5, 0));
    let batch = m.take_data_batch();
    assert_eq!(batch, vec![
        ChunkPosition::new(-4, -3),
        ChunkPosition::new(-4, -2),
        ChunkPosition::new(-4, -1),
        ChunkPosition::new(-4, 0),
    ]);
    let generator = TerrainGenerator::new();
    let loaded: Vec<(ChunkPosition, ChunkData)> =
        batch.iter().map(|p| (*p, ChunkData::new(p, &generator))).collect();
    m.insert_chunks(loaded);
    assert_eq!(m.loaded_positions().len(), 4);
    // the other 59 window positions are still queued; a new update queues
    // only the positions that are still missing
    let mut rest = 0;
    while !m.take_data_batch().is_empty() {
        rest += 1;
    }
    assert_eq!(rest, 15);
    m.update_data_queue(player_at(5, 0));
    let mut queued = 0;
    loop {
        let b = m.take_data_batch();
        if b.is_empty() {
            break;
        }
        queued += b.len();
    }
    assert_eq!(queued, 59);
}

#[test]
fn get_tile_reads_world_coordinates() {
    let mut m = manager_with(&[(-1, -1)], 5);
    assert_eq!(m.get_tile(-1, -1, 1), Some(&Tile { id: 5 }));
    assert_eq!(m.get_tile(-32, -32, 0), Some(&Tile { id: 1 }));
    assert_eq!(m.get_tile(0, -1, 1), None);
    m.handle_input(-3, -4, false, true);
    assert_eq!(m.get_tile(-3, -4, 1), Some(&Tile { id: 0 }));
    m.handle_input(-3, -4, true, false);
    assert_eq!(m.get_tile(-3, -4, 1), Some(&Tile { id: 4 }));
    m.handle_input(-3, -4, false, false);
    assert_eq!(m.get_tile(-3, -4, 1), Some(&Tile { id: 4 }));
}

#[test]
fn explosion_clears_disc() {
    let mut m = manager_with(&[(0, 0), (-1, 0), (0, -1), (-1, -1)], 3);
    m.explode(5, 0, 0);
    // inside: i*i + j*j <= 25 with -5 <= i, j < 5
    assert_eq!(m.get_tile(0, 0, 1), Some(&Tile { id: 0 }));
    assert_eq!(m.get_tile(-5, 0, 1), Some(&Tile { id: 0 }));
    assert_eq!(m.get_tile(3, 4, 1), Some(&Tile { id: 0 }));
    assert_eq!(m.get_tile(-4, -3, 1), Some(&Tile { id: 0 }));
    // outside: the upper bound is exclusive, and the corners are too far
    assert_eq!(m.get_tile(5, 0, 1), Some(&Tile { id: 3 }));
    assert_eq!(m.get_tile(0, 5, 1), Some(&Tile { id: 3 }));
    assert_eq!(m.get_tile(-5, -5, 1), Some(&Tile { id: 3 }));
    assert_eq!(m.get_tile(4, 4, 1), Some(&Tile { id: 3 }));
    // the background stays
    assert_eq!(m.get_tile(0, 0, 0), Some(&Tile { id: 1 }));
    // all four chunks are marked for saving
    assert_eq!(m.chunks_to_save().len(), 4);
}

#[test]
fn explosion_with_zero_radius_changes_nothing() {
    let mut m = manager_with(&[(0, 0)], 3);
    m.explode(0, 4, 4);
    assert_eq!(m.get_tile(4, 4, 1), Some(&Tile { id: 3 }));
    assert!(m.chunks_to_save().is_empty());
}

#[test]
fn mesh_queue_and_jobs() {
    let mut positions = Vec::new();
    for x in -1..=1 {
        for y in -1..=1 {
            positions.push((x, y));
        }
    }
    let mut m = manager_with(&positions, 2);
    assert!(m.can_mesh_chunk(&ChunkPosition::new(0, 0)));
    assert!(!m.can_mesh_chunk(&ChunkPosition::new(1, 0)));
    m.update_mesh_queue(player_at(16, 16));
    assert!(m.dirty);
    let jobs = m.take_mesh_jobs();
    assert_eq!(jobs.len(), 2);
    assert_eq!((jobs[0].chunk_pos, jobs[0].layer), (ChunkPosition::new(0, 0), 1));
    assert_eq!((jobs[1].chunk_pos, jobs[1].layer), (ChunkPosition::new(0, 0), 0));
    assert!(!m.get_chunk(&ChunkPosition::new(0, 0)).unwrap().dirty());
    // a full chunk surrounded by full chunks: every tile gets a quad
    let mesh = m.build_job_mesh(&jobs[0]).unwrap();
    assert_eq!(mesh.quads.len(), 1024);
    assert_eq!(mesh.indices.len(), 6 * 1024);
    assert_eq!(mesh.quads[0].shape, MARCHING_SQUARES[255]);
    let handle = MeshHandle { index: 1, generation: 0 };
    m.set_chunk_mesh(&ChunkPosition::new(0, 0), 1, handle);
    assert_eq!(*m.get_chunk(&ChunkPosition::new(0, 0)).unwrap().mesh(1), Some(handle));
    // nothing is queued twice once the marks are removed
    m.update_mesh_queue(player_at(16, 16));
    assert!(m.take_mesh_jobs().is_empty());
}

#[test]
fn far_meshes_are_dropped_and_far_chunks_unloaded() {
    let mut m = manager_with(&[(0, 0), (10, 0)], 2);
    m.set_chunk_mesh(&ChunkPosition::new(10, 0), 0, MeshHandle { index: 2, generation: 0 });
    m.update_mesh_queue(player_at(16, 16));
    assert!(!m.get_chunk(&ChunkPosition::new(10, 0)).unwrap().has_mesh());
    m.unload_chunks(player_at(16, 16));
    assert!(m.get_chunk(&ChunkPosition::new(10, 0)).is_none());
    assert!(m.get_chunk(&ChunkPosition::new(0, 0)).is_some());
    // centre of chunk 5 is at x = 176: exactly 160 from x = 16 unloads it,
    // anything nearer keeps it
    let mut m = manager_with(&[(5, 0)], 2);
    m.unload_chunks(PlayerPos { tile_x: 16, tile_y: 16, on_grid_x: false, on_grid_y: true });
    assert!(m.get_chunk(&ChunkPosition::new(5, 0)).is_some());
    m.unload_chunks(player_at(16, 16));
    assert!(m.get_chunk(&ChunkPosition::new(5, 0)).is_none());
}

#[test]
fn chunk_borders_read_neighbours() {
    let mut m = manager_with(&[(0, 1), (-1, 0)], 0);
    m.handle_input(3, 32, true, false);
    m.handle_input(-1, 31, true, false);
    let b = m.chunk_borders(&ChunkPosition::new(0, 0), 1);
    assert!(b.top[4]);
    assert!(!b.top[5]);
    assert!(b.top[0]);
    assert!(b.top[33]);
    assert!(!b.left[0]);
    assert!(b.right[0]);
    assert!(b.bottom.iter().all(|&t| t));
}

#[test]
fn extract_tiles_classes() {
    let mut m = manager_with(&[(0, 0)], 0);
    m.handle_input(2, 1, true, false);
    let tiles = m.extract_tiles(player_at(16, 16));
    assert_eq!(tiles.len(), TILE_VIEW_WIDTH * TILE_VIEW_HEIGHT);
    // chunk (0, 0) is view chunk (3, 2)
    let row = 2 * 32 + 1;
    assert_eq!(tiles[row * TILE_VIEW_WIDTH + 3 * 32 + 2], 1);
    assert_eq!(tiles[row * TILE_VIEW_WIDTH + 3 * 32 + 3], 2);
    // unloaded chunks read as solid
    assert_eq!(tiles[0], 1);
}

#[test]
fn tile_ids_above_the_atlas_are_invalid() {
    assert!(filled_data(1, 9).has_valid_ids());
    assert!(!filled_data(10, 1).has_valid_ids());
    assert!(!filled_data(0, 255).has_valid_ids());
}

#[test]
fn inner_chunk_positions() {
    assert!(ChunkPosition::new(0, 0).is_inner());
    assert!(ChunkPosition::new(i32::MAX - 1, i32::MIN + 1).is_inner());
    assert!(!ChunkPosition::new(i32::MAX, 0).is_inner());
    assert!(!ChunkPosition::new(0, i32::MIN).is_inner());
}

#[test]
fn neighbour_offsets_in_mask_order() {
    let offsets: Vec<(i32, i32)> = (0..8).map(neighbour_offset_at).collect();
    assert_eq!(offsets, vec![(-1, -1), (-1, 0), (-1, 1), (0, -1), (0, 1), (1, -1), (1, 0), (1, 1)]);
}

#[test]
fn mesh_materials_are_kept() {
    let mut m = ChunkManager::new();
    assert!(m.mesh_materials().is_empty());
    let bg = MaterialHandle { index: 0, generation: 0 };
    let fg = MaterialHandle { index: 1, generation: 0 };
    m.set_mesh_materials(vec![bg, fg]);
    assert_eq!(m.mesh_materials(), &vec![bg, fg]);
}

#[test]
fn tile_index_past_a_column_lands_on_the_next() {
    let mut c = Chunk::new(filled_data(0, 0));
    c.set_tile(0, 33, 4, 0);
    assert_eq!(c.get_tile(1, 1, 0).id, 4);
    assert_eq!(c.get_tile(0, 33, 0).id, 4);
    assert_eq!(c.get_tile(0, 1, 0).id, 0);
}

#[test]
fn meshing_one_layer_ignores_the_other() {
    let mut c = Chunk::new(filled_data(200, 0));
    let m = manager_with(&[], 0);
    let borders = m.chunk_borders(&ChunkPosition::new(0, 0), 1);
    assert!(c.build_mesh(1, &borders).is_none());
    c.set_tile(3, 4, 9, 1);
    let mesh = c.build_mesh(1, &borders).unwrap();
    assert_eq!(mesh.quads.len(), 1);
    assert_eq!((mesh.quads[0].x, mesh.quads[0].y), (3, 4));
    assert_eq!(mesh.indices, vec![1, 3, 0, 1, 2, 3]);
}

#[test]
fn edits_far_out_reach_the_chunk_of_the_rounded_coordinate() {
    // 33554431 = 2^25 - 1 rounds to 2^25 as a single-precision value, so the
    // edit reaches chunk 2^20 at local column 31.
    let mut m = manager_with(&[(1048575, 0), (1048576, 0)], 3);
    m.handle_input(33554431, 5, false, true);
    assert_eq!(m.get_chunk(&ChunkPosition::new(1048576, 0)).unwrap().get_tile(31, 5, 1).id, 0);
    assert_eq!(m.get_chunk(&ChunkPosition::new(1048575, 0)).unwrap().get_tile(31, 5, 1).id, 3);
    // 33554430 is exact, and lies in chunk 2^20 - 1.
    m.handle_input(33554430, 6, false, true);
    assert_eq!(m.get_chunk(&ChunkPosition::new(1048575, 0)).unwrap().get_tile(30, 6, 1).id, 0);
    assert_eq!(m.get_chunk(&ChunkPosition::new(1048576, 0)).unwrap().get_tile(30, 6, 1).id, 3);
    // below 2^24 every edit reaches the chunk that holds the tile
    let mut near = manager_with(&[(-1, 0)], 3);
    near.handle_input(-1, 0, false, true);
    assert_eq!(near.get_chunk(&ChunkPosition::new(-1, 0)).unwrap().get_tile(31, 0, 1).id, 0);
}

#[test]
fn edit_chunks_of_rounded_coordinates() {
    assert_eq!(edit_chunk_of(0), 0);
    assert_eq!(edit_chunk_of(31), 0);
    assert_eq!(edit_chunk_of(-1), -1);
    assert_eq!(edit_chunk_of(-33), -2);
    // 2^24 + 31 ties between 2^24 + 30 and 2^24 + 32 and goes to the even significand
    assert_eq!(edit_chunk_of(16777247), 524289);
    assert_eq!(edit_chunk_of(-16777247), -524289);
    assert_eq!(edit_chunk_of(16777245), 524288);
    assert_eq!(edit_chunk_of(i32::MAX), 67108864);
    assert_eq!(edit_chunk_of(i32::MIN), -67108864);
}
