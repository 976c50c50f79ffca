use rust_renderer::world::{
    block_tint_level, face_direction, in_bounds, ray_left_world, ray_step, tree_positions, Face,
    RayHit,
    World, AIR, COLUMNS, DIRT, GRASS, LEAVES, SAND, SIZE_X, SIZE_Y, SIZE_Z, STONE, WOOD,
};

fn flat(height: i32) -> Vec<i32> {
    vec![height; COLUMNS]
}

fn count_solid(world: &World) -> u32 {
    let mut n = 0;
    for x in 0..SIZE_X {
        for y in 0..SIZE_Y {
            for z in 0..SIZE_Z {
                if world.get(x, y, z) != AIR {
                    n += 1;
                }
            }
        }
    }
    n
}

#[test]
fn terrain_layers_follow_the_height() {
    let world = World::generate(&flat(5));
    assert_eq!(world.get(0, 5, 0), GRASS);
    assert_eq!(world.get(0, 4, 0), DIRT);
    assert_eq!(world.get(0, 3, 0), DIRT);
    assert_eq!(world.get(0, 2, 0), STONE);
    assert_eq!(world.get(0, 0, 0), STONE);
    assert_eq!(world.get(0, 6, 0), AIR);
}

#[test]
fn low_terrain_is_topped_with_sand() {
    let world = World::generate(&flat(3));
    assert_eq!(world.get(1, 3, 1), SAND);
    assert_eq!(world.get(1, 2, 1), DIRT);
    assert_eq!(world.get(1, 0, 1), STONE);
}

#[test]
fn reads_outside_the_world() {
    let world = World::generate(&flat(5));
    assert_eq!(world.get(3, -1, 3), STONE);
    assert_eq!(world.get(3, SIZE_Y, 3), AIR);
    assert_eq!(world.get(-1, 10, 3), STONE);
    assert_eq!(world.get(3, 10, SIZE_Z), STONE);
    assert!(world.is_solid(SIZE_X, 12, 0));
    assert!(!world.is_solid(0, 12, 0));
    assert_eq!(world.get_for_ray(-1, 10, 3), AIR);
    assert_eq!(world.get_for_ray(3, -1, 3), AIR);
    assert_eq!(world.get_for_ray(3, 0, 3), STONE);
}

#[test]
fn trees_have_trunk_and_crown() {
    let world = World::generate(&flat(5));
    // The first tree stands at (6, 7) on ground at height 5.
    for y in 6..10 {
        assert_eq!(world.get(6, y, 7), WOOD);
    }
    assert_eq!(world.get(6, 10, 7), LEAVES);
    assert_eq!(world.get(8, 9, 7), LEAVES);
    assert_eq!(world.get(8, 10, 7), AIR);
    assert_eq!(world.get(8, 9, 9), AIR);
    assert_eq!(world.get(7, 8, 8), LEAVES);
}

#[test]
fn tree_positions_are_fixed() {
    assert_eq!(
        tree_positions(),
        vec![(6, 7), (24, 9), (9, 23), (26, 25), (16, 5), (5, 16)]
    );
}

#[test]
fn solid_count_counts_the_blocks() {
    let world = World::generate(&flat(5));
    assert_eq!(world.solid_count, count_solid(&world));
    assert_eq!(world.revision, 0);
}

#[test]
fn spawn_on_flat_terrain_is_the_centre() {
    let world = World::generate(&flat(5));
    assert_eq!(world.spawn, (16, 16));
}

#[test]
fn spawn_prefers_flat_ground_over_the_centre() {
    // Rough terrain everywhere but a flat patch round (5, 5).
    let mut heights = vec![0; COLUMNS];
    for z in 0..32 {
        for x in 0..32 {
            heights[z * 32 + x] = if (x + z) % 2 == 0 { 2 } else { 7 };
        }
    }
    for z in 3..8 {
        for x in 3..8 {
            heights[z * 32 + x] = 4;
        }
    }
    let world = World::generate(&heights);
    assert_eq!(world.spawn, (6, 6));
}

#[test]
fn spawn_ignores_trees() {
    // The column under the trunk at (16, 5) is as flat as the rest; the tree
    // is planted after the spawn point is chosen.
    let world = World::generate(&flat(5));
    assert_eq!(world.surface_height(16, 5), 9 + 1);
    assert_eq!(world.spawn, (16, 16));
}

#[test]
fn surface_height_finds_the_highest_block() {
    let world = World::generate(&flat(5));
    assert_eq!(world.surface_height(0, 0), 5);
    assert_eq!(world.surface_height(6, 7), 10);
    assert_eq!(world.surface_height(-1, 0), 0);
    assert_eq!(world.surface_height(3, SIZE_Z), 0);
    let tall = World::generate(&flat(40));
    assert_eq!(tall.surface_height(0, 0), SIZE_Y - 1);
    let empty = World::generate(&flat(-3));
    assert_eq!(empty.surface_height(0, 0), 0);
    assert_eq!(empty.get(0, 0, 0), AIR);
}

#[test]
fn set_then_get_reads_back() {
    let mut world = World::generate(&flat(5));
    assert!(world.set(1, 8, 1, STONE));
    assert_eq!(world.get(1, 8, 1), STONE);
    assert_eq!(world.get(1, 9, 1), AIR);
    assert_eq!(world.revision, 1);
}

#[test]
fn second_equal_set_changes_nothing() {
    let mut world = World::generate(&flat(5));
    assert!(world.set(2, 0, 2, AIR));
    let revision = world.revision;
    assert!(!world.set(2, 0, 2, AIR));
    assert_eq!(world.revision, revision);
}

#[test]
fn set_outside_is_ignored() {
    let mut world = World::generate(&flat(5));
    assert!(!world.set(-1, 3, 3, AIR));
    assert!(!world.set(3, SIZE_Y, 3, STONE));
    assert_eq!(world.revision, 0);
}

#[test]
fn set_keeps_the_solid_count() {
    let mut world = World::generate(&flat(5));
    let before = world.solid_count;
    assert!(world.set(0, 0, 0, AIR));
    assert_eq!(world.solid_count, before - 1);
    assert!(world.set(0, 12, 0, WOOD));
    assert_eq!(world.solid_count, before);
    // Replacing a solid block by another leaves the count.
    assert!(world.set(0, 12, 0, STONE));
    assert_eq!(world.solid_count, before);
    assert_eq!(world.solid_count, count_solid(&world));
}

#[test]
fn place_against_copies_the_hit_block() {
    let mut world = World::generate(&flat(5));
    let hit = RayHit { block: [3, 5, 3], face: [0, 1, 0] };
    assert_eq!(hit.place_target(), [3, 6, 3]);
    assert!(world.place_against(hit));
    assert_eq!(world.get(3, 6, 3), GRASS);
    let hit = RayHit { block: [3, 2, 3], face: [1, 0, 0] };
    assert!(!world.place_against(hit));
}

#[test]
fn place_against_air_places_grass() {
    let mut world = World::generate(&flat(5));
    let hit = RayHit { block: [3, 12, 3], face: [0, 0, 0] };
    assert!(world.place_against(hit));
    assert_eq!(world.get(3, 12, 3), GRASS);
}

#[test]
fn collision_box_query() {
    let world = World::generate(&flat(5));
    assert!(world.any_solid_in(0, 1, 5, 6, 0, 0));
    assert!(!world.any_solid_in(0, 1, 6, 7, 0, 0));
    assert!(!world.any_solid_in(2, 1, 0, 0, 0, 0));
    assert!(world.any_solid_in(-2, -1, 12, 12, 3, 3));
}

#[test]
fn faces_only_where_air_borders() {
    let world = World::generate(&flat(5));
    let faces = world.visible_faces();
    for f in &faces {
        let (dx, dy, dz) = face_direction(f.dir);
        assert_ne!(world.get(f.x, f.y, f.z), AIR);
        assert_eq!(world.get(f.x + dx, f.y + dy, f.z + dz), AIR);
    }
    // Every top face of the ground away from the trees is drawn.
    assert!(faces.iter().any(|f: &Face| f.x == 0 && f.y == 5 && f.z == 0 && f.dir == 0));
    // Faces toward the wall round the world are not drawn.
    assert!(!faces.iter().any(|f: &Face| f.x == 0 && f.y == 5 && f.z == 0 && f.dir == 3));
    // The first face listed is the top of the lowest column block at x = 0.
    assert_eq!((faces[0].x, faces[0].y, faces[0].z, faces[0].dir), (0, 5, 0, 0));
}

#[test]
fn face_count_of_flat_ground_without_trees_nearby() {
    let world = World::generate(&flat(5));
    let faces = world.visible_faces();
    let column = faces.iter().filter(|f| f.x == 0 && f.z == 0).count();
    assert_eq!(column, 1);
}

#[test]
fn bounds() {
    assert!(in_bounds(0, 0, 0));
    assert!(in_bounds(31, 15, 31));
    assert!(!in_bounds(32, 0, 0));
    assert!(!in_bounds(0, -1, 0));
    assert!(!in_bounds(0, 0, 32));
}

#[test]
fn ray_box() {
    assert!(!ray_left_world(-1, -1, -1));
    assert!(!ray_left_world(33, 17, 33));
    assert!(ray_left_world(-2, 0, 0));
    assert!(ray_left_world(0, 18, 0));
    assert!(ray_left_world(0, 0, 34));
}

#[test]
fn tint_levels() {
    assert_eq!(block_tint_level(0, 0, 0), 0);
    assert_eq!(block_tint_level(1, 0, 0), 121);
    assert_eq!(block_tint_level(3, 7, -2), 216);
    assert_eq!(block_tint_level(-5, 2, 31), 96);
}

#[test]
fn face_directions() {
    assert_eq!(face_direction(0), (0, 1, 0));
    assert_eq!(face_direction(1), (0, -1, 0));
    assert_eq!(face_direction(2), (1, 0, 0));
    assert_eq!(face_direction(3), (-1, 0, 0));
    assert_eq!(face_direction(4), (0, 0, 1));
    assert_eq!(face_direction(5), (0, 0, -1));
}

#[test]
fn clone_keeps_everything() {
    let mut world = World::generate(&flat(5));
    world.set(4, 4, 4, AIR);
    let copy = world.clone();
    assert_eq!(copy.revision, world.revision);
    assert_eq!(copy.solid_count, world.solid_count);
    assert_eq!(copy.spawn, world.spawn);
    assert_eq!(copy.get(4, 4, 4), AIR);
}

#[test]
fn surface_outside_the_world_is_the_ground() {
    let world = World::generate(&flat(40));
    assert_eq!(world.surface_height(-1, 5), 0);
    assert_eq!(world.surface_height(SIZE_X, 5), 0);
    assert_eq!(world.surface_height(5, -7), 0);
    assert_eq!(world.surface_height(5, 5), SIZE_Y - 1);
}

#[test]
fn flat_spawn_of_a_generated_world() {
    let world = World::generate(&flat(5));
    assert_eq!(world.flat_spawn(), (16, 16));
}

#[test]
fn planting_a_tree() {
    let mut world = World::generate(&flat(5));
    let count = world.solid_count;
    world.plant_tree(20, 6, 20);
    for y in 6..10 {
        assert_eq!(world.get(20, y, 20), WOOD);
    }
    assert_eq!(world.get(20, 10, 20), LEAVES);
    assert_eq!(world.get(22, 9, 20), LEAVES);
    assert_eq!(world.get(22, 9, 22), AIR);
    assert_eq!(world.get(20, 11, 20), AIR);
    assert_eq!(world.revision, 0);
    assert_eq!(world.solid_count, count);
}

#[test]
fn leaves_do_not_replace_ground() {
    let mut world = World::generate(&flat(5));
    world.plant_tree(20, 4, 20);
    assert_eq!(world.get(20, 4, 20), WOOD);
    assert_eq!(world.get(20, 5, 20), WOOD);
    assert_eq!(world.get(21, 5, 20), GRASS);
    assert_eq!(world.get(21, 6, 20), LEAVES);
}

#[test]
fn getters_read_the_fields() {
    let mut world = World::generate(&flat(5));
    world.set(1, 1, 1, AIR);
    assert_eq!(world.revision(), world.revision);
    assert_eq!(world.revision(), 1);
    assert_eq!(world.solid_count(), world.solid_count);
    assert_eq!(world.spawn(), (16, 16));
}

#[test]
fn recount_after_planting() {
    let mut world = World::generate(&flat(5));
    world.plant_tree(20, 6, 20);
    world.recount();
    assert_eq!(world.solid_count, count_solid(&world));
    assert!(world.set(20, 6, 20, AIR));
    assert_eq!(world.solid_count, count_solid(&world));
}

#[test]
fn ray_steps() {
    assert_eq!(ray_step([3, 4, 5], [1, -1, 1], 0), ([4, 4, 5], [-1, 0, 0]));
    assert_eq!(ray_step([3, 4, 5], [1, -1, 1], 1), ([3, 3, 5], [0, 1, 0]));
    assert_eq!(ray_step([3, 4, 5], [1, -1, -1], 2), ([3, 4, 4], [0, 0, 1]));
}

fn drawn_count(world: &World) -> usize {
    let mut n = 0;
    for x in 0..SIZE_X {
        for y in 0..SIZE_Y {
            for z in 0..SIZE_Z {
                if world.get(x, y, z) == AIR {
                    continue;
                }
                for d in 0..6 {
                    let (dx, dy, dz) = face_direction(d);
                    if world.get(x + dx, y + dy, z + dz) == AIR {
                        n += 1;
                    }
                }
            }
        }
    }
    n
}

#[test]
fn each_drawn_face_listed_once() {
    let world = World::generate(&flat(5));
    let faces = world.visible_faces();
    assert_eq!(faces.len(), drawn_count(&world));
    let mut keys: Vec<(i32, i32, i32, usize)> = faces.iter().map(|f| (f.x, f.y, f.z, f.dir)).collect();
    let sorted = keys.clone();
    keys.sort();
    keys.dedup();
    assert_eq!(keys, sorted);
}

#[test]
fn block_in_open_air_adds_six_faces() {
    let mut world = World::generate(&flat(5));
    let before = world.visible_faces().len();
    assert!(world.set(10, 14, 5, STONE));
    assert_eq!(world.visible_faces().len(), before + 6);
}
