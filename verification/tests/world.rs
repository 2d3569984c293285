use minecraft_but_optimized::world::block::{AIR, DIRT, GRASS, SAND, STONE};
use minecraft_but_optimized::world::chunk::Chunk;
use minecraft_but_optimized::world::generation::{
    fill_column, should_carve_cave, CAVE_SURFACE_MARGIN, VERTICAL_CHUNKS,
};
use minecraft_but_optimized::world::meshing::mesh_chunk;
use minecraft_but_optimized::world::streaming::{ChunkStreamer, ColumnPos};
use minecraft_but_optimized::world::{chunk_origin, world_to_chunk, ChunkPos, Pos3, World};

fn world_with_dense(setup: impl FnOnce(&mut Chunk)) -> World {
    let mut chunk = Chunk::empty();
    setup(&mut chunk);
    let mut world = World::new();
    world.insert_chunk(ChunkPos::new(0, 0, 0), chunk);
    world
}

#[test]
fn single_voxel_produces_six_unmerged_faces() {
    let world = world_with_dense(|c| c.set(0, 0, 0, STONE));
    let mesh = mesh_chunk(&world, ChunkPos::new(0, 0, 0));
    assert_eq!(mesh.vertices.len(), 24);
    assert_eq!(mesh.indices.len(), 36);
}

#[test]
fn two_adjacent_voxels_merge_side_faces() {
    let world = world_with_dense(|c| {
        c.set(0, 0, 0, STONE);
        c.set(1, 0, 0, STONE);
    });
    let mesh = mesh_chunk(&world, ChunkPos::new(0, 0, 0));
    // top, bottom, +z, -z faces merge into 2x1 quads; the two x-end faces stay 1x1.
    assert_eq!(mesh.indices.len(), 6 * 6);
    assert_eq!(mesh.vertices.len(), 6 * 4);
}

#[test]
fn empty_chunk_has_no_faces() {
    let world = world_with_dense(|_| {});
    let mesh = mesh_chunk(&world, ChunkPos::new(0, 0, 0));
    assert!(mesh.is_empty());
}

#[test]
fn full_layer_is_one_quad_per_side() {
    let world = world_with_dense(|c| {
        for x in 0..32 {
            for z in 0..32 {
                c.set(x, 0, z, DIRT);
            }
        }
    });
    let mesh = mesh_chunk(&world, ChunkPos::new(0, 0, 0));
    assert_eq!(mesh.vertices.len(), 6 * 4);
    assert_eq!(mesh.indices.len(), 6 * 6);
}

#[test]
fn faces_against_a_solid_neighbor_chunk_are_culled() {
    let mut world = world_with_dense(|c| c.set(31, 0, 0, STONE));
    world.insert_chunk(ChunkPos::new(1, 0, 0), Chunk::uniform(STONE));
    let mesh = mesh_chunk(&world, ChunkPos::new(0, 0, 0));
    // Five faces of the voxel (the one against the neighbor is culled),
    // plus the neighbor's boundary face around it, greedily merged into two
    // quads.
    assert_eq!(mesh.vertices.len(), 7 * 4);
    assert_eq!(mesh.indices.len(), 7 * 6);
}

#[test]
fn different_blocks_do_not_merge() {
    let world = world_with_dense(|c| {
        c.set(0, 0, 0, STONE);
        c.set(1, 0, 0, GRASS);
    });
    let mesh = mesh_chunk(&world, ChunkPos::new(0, 0, 0));
    assert_eq!(mesh.vertices.len(), 10 * 4);
    assert_eq!(mesh.indices.len(), 10 * 6);
}

#[test]
fn world_blocks_read_across_chunks_and_negative_coordinates() {
    let mut world = World::new();
    let mut chunk = Chunk::empty();
    chunk.set(31, 0, 5, SAND);
    world.insert_chunk(ChunkPos::new(-1, 0, 0), chunk);
    assert_eq!(world.get_block(Pos3::new(-1, 0, 5)), SAND);
    assert_eq!(world.get_block(Pos3::new(-2, 0, 5)), AIR);
    assert_eq!(world.get_block(Pos3::new(100, 100, 100)), AIR);
    assert_eq!(world_to_chunk(Pos3::new(-1, 33, -32)), (Pos3::new(-1, 1, -1), [31, 1, 0]));
    assert_eq!(chunk_origin(Pos3::new(-2, 1, 3)), Pos3::new(-64, 32, 96));
    world.insert_chunk(ChunkPos::new(i32::MIN, i32::MAX, 7), Chunk::empty());
    let mut loaded: Vec<(i32, i32, i32)> =
        world.loaded_chunk_positions().iter().map(|p| (p.x, p.y, p.z)).collect();
    loaded.sort();
    assert_eq!(loaded, vec![(i32::MIN, i32::MAX, 7), (-1, 0, 0)]);
    world.remove_chunk(ChunkPos::new(-1, 0, 0));
    assert!(world.chunk(ChunkPos::new(-1, 0, 0)).is_none());
    assert_eq!(world.loaded_chunk_positions(), vec![Pos3::new(i32::MIN, i32::MAX, 7)]);
}

/// Caves must never reach into the dirt/grass/sand layer, so the visible
/// ground surface never grows holes, even where the cave noise is in its
/// band everywhere.
#[test]
fn caves_never_reach_the_surface_layer() {
    for height in -64..192 {
        for depth in 0..CAVE_SURFACE_MARGIN {
            let world_y = height - depth;
            assert!(
                !should_carve_cave(world_y, height, true),
                "cave reached within {depth} blocks of the surface at height {height}"
            );
        }
        assert!(should_carve_cave(height - CAVE_SURFACE_MARGIN, height, true));
        assert!(!should_carve_cave(height - CAVE_SURFACE_MARGIN, height, false));
    }
}

#[test]
fn column_fill_layers_grass_dirt_and_stone() {
    let heights = vec![70; 32 * 32];
    let column = fill_column(2, -3, &heights, &|_, _, _| false);
    assert_eq!(column.len(), VERTICAL_CHUNKS as usize);
    for (y, (pos, _)) in column.iter().enumerate() {
        assert_eq!(*pos, Pos3::new(2, y as i32, -3));
    }
    let low = &column[2].1;
    // World y 70 is local y 6 of the third chunk.
    assert_eq!(low.get(0, 6, 0), GRASS);
    assert_eq!(low.get(0, 5, 0), DIRT);
    assert_eq!(low.get(0, 3, 0), DIRT);
    assert_eq!(low.get(0, 2, 0), STONE);
    assert_eq!(low.get(0, 7, 0), AIR);
    assert!(column[3].1.is_empty());
    assert_eq!(column[0].1.get(9, 9, 9), STONE);
}

#[test]
fn beach_columns_are_sand_topped_and_caves_are_carved() {
    let heights = vec![63; 32 * 32];
    let column = fill_column(0, 0, &heights, &|_, y, _| y == 10);
    assert_eq!(column[1].1.get(0, 31, 0), SAND);
    assert_eq!(column[0].1.get(4, 10, 4), AIR);
    assert_eq!(column[0].1.get(4, 11, 4), STONE);
}

fn flat(x: i32, z: i32) -> Vec<(ChunkPos, Chunk)> {
    fill_column(x, z, &vec![64; 32 * 32], &|_, _, _| false)
}

/// The column under a world position, as the game computes it from the
/// camera.
fn column_of(x: f32, z: f32) -> ColumnPos {
    ((x / 32.0).floor() as i32, (z / 32.0).floor() as i32)
}

#[test]
fn initial_update_loads_a_circular_area_not_a_square() {
    let mut world = World::new();
    let mut streamer = ChunkStreamer::new(0, 2, 3);

    streamer.update(&mut world, column_of(0.0, 0.0), usize::MAX, &flat);

    assert!(world.chunk(ChunkPos::new(0, 0, 0)).is_some());
    assert!(world.chunk(ChunkPos::new(2, 0, 0)).is_some());
    assert!(world.chunk(ChunkPos::new(1, 0, 1)).is_some());
    // (2, 2) has squared distance 8 from the center, outside load_radius=2 (squared 4):
    // a square load region would include it, a circular one must not.
    assert!(world.chunk(ChunkPos::new(2, 0, 2)).is_none());
}

#[test]
fn standing_still_produces_no_further_load_or_unload_churn() {
    let mut world = World::new();
    let mut streamer = ChunkStreamer::new(0, 6, 8);

    streamer.update(&mut world, column_of(0.0, 0.0), usize::MAX, &flat);
    for _ in 0..5 {
        let update = streamer.update(&mut world, column_of(0.0, 0.0), usize::MAX, &flat);
        assert!(update.meshes.is_empty());
        assert!(update.removed.is_empty());
    }
}

#[test]
fn load_budget_caps_columns_loaded_per_call() {
    let mut world = World::new();
    let mut streamer = ChunkStreamer::new(0, 5, 6);

    streamer.update(&mut world, column_of(0.0, 0.0), 3, &flat);

    assert_eq!(streamer.loaded_columns().len(), 3);
}

#[test]
fn moving_far_away_unloads_old_columns_and_loads_new_ones() {
    let mut world = World::new();
    let mut streamer = ChunkStreamer::new(0, 2, 3);

    streamer.update(&mut world, column_of(0.0, 0.0), usize::MAX, &flat);
    assert!(world.chunk(ChunkPos::new(0, 0, 0)).is_some());

    let far = column_of(10_000.0, 0.0);
    let update = streamer.update(&mut world, far, usize::MAX, &flat);

    assert!(world.chunk(ChunkPos::new(0, 0, 0)).is_none());
    assert!(!update.removed.is_empty());

    assert!(world.chunk(ChunkPos::new(far.0, 0, far.1)).is_some());
}

#[test]
fn budgeted_loading_goes_nearest_first() {
    let mut world = World::new();
    let mut streamer = ChunkStreamer::new(0, 3, 4);
    let plan = streamer.plan_update((0, 0), 5);
    assert_eq!(plan.to_load, vec![(0, 0), (0, -1), (-1, 0), (1, 0), (0, 1)]);
    assert!(plan.to_unload.is_empty());
    streamer.update(&mut world, (0, 0), 5, &flat);
    let mut loaded = streamer.loaded_columns();
    loaded.sort();
    assert_eq!(loaded, vec![(-1, 0), (0, -1), (0, 0), (0, 1), (1, 0)]);
}

#[test]
fn first_update_remeshes_every_loaded_chunk_once() {
    let mut world = World::new();
    let mut streamer = ChunkStreamer::new(0, 1, 1);
    let update = streamer.update(&mut world, (0, 0), usize::MAX, &flat);
    // Five columns (a plus sign), four chunks each.
    assert_eq!(update.meshes.len(), 20);
    assert!(update.removed.is_empty());
    let mut positions: Vec<(i32, i32, i32)> = update.meshes.iter().map(|(p, _)| (p.x, p.y, p.z)).collect();
    positions.sort();
    positions.dedup();
    assert_eq!(positions.len(), 20);
}

#[test]
fn shrinking_the_radius_unloads_gradually_beyond_the_new_unload_radius() {
    let mut world = World::new();
    let mut streamer = ChunkStreamer::new(0, 3, 4);
    streamer.update(&mut world, (0, 0), usize::MAX, &flat);
    streamer.set_load_radius(1);
    assert_eq!(streamer.load_radius(), 1);
    assert_eq!(streamer.unload_radius(), 2);
    let update = streamer.update(&mut world, (0, 0), usize::MAX, &flat);
    // Columns at squared distance 5, 8 and 9 from the center go.
    assert_eq!(update.removed.len(), 4 * (8 + 4 + 4));
    assert!(world.chunk(ChunkPos::new(3, 0, 0)).is_none());
    assert!(world.chunk(ChunkPos::new(2, 0, 0)).is_some());
    assert_eq!(streamer.seed(), 0);
}
