use rust_renderer::mesh::{
    face_axes, face_corners, mesh_counts, mesh_is_stale, push_quad_indices, quad_layout,
};
use rust_renderer::world::{Face, World, COLUMNS};

#[test]
fn axes_of_each_direction() {
    assert_eq!(face_axes((0, 1, 0)), (1, 2, 0));
    assert_eq!(face_axes((0, -1, 0)), (1, 2, 0));
    assert_eq!(face_axes((1, 0, 0)), (0, 1, 2));
    assert_eq!(face_axes((-1, 0, 0)), (0, 1, 2));
    assert_eq!(face_axes((0, 0, 1)), (2, 0, 1));
    assert_eq!(face_axes((0, 0, -1)), (2, 0, 1));
}

#[test]
fn top_face_corners() {
    assert_eq!(
        face_corners(3, 5, 7, (0, 1, 0)),
        [[3, 6, 7], [3, 6, 8], [4, 6, 8], [4, 6, 7]]
    );
}

#[test]
fn bottom_face_corners() {
    assert_eq!(
        face_corners(3, 5, 7, (0, -1, 0)),
        [[3, 5, 7], [3, 5, 8], [4, 5, 8], [4, 5, 7]]
    );
}

#[test]
fn side_face_corners() {
    assert_eq!(
        face_corners(0, 0, 0, (1, 0, 0)),
        [[1, 0, 0], [1, 1, 0], [1, 1, 1], [1, 0, 1]]
    );
    assert_eq!(
        face_corners(0, 0, 0, (0, 0, -1)),
        [[0, 0, 0], [1, 0, 0], [1, 1, 0], [0, 1, 0]]
    );
}

#[test]
fn quad_indices() {
    let mut indices = vec![7];
    push_quad_indices(&mut indices, 4);
    assert_eq!(indices, vec![7, 4, 5, 6, 4, 6, 7]);
}

#[test]
fn counts() {
    assert_eq!(mesh_counts(0), (0, 0));
    assert_eq!(mesh_counts(12), (12, 4));
    assert_eq!(mesh_counts(14), (14, 4));
}

#[test]
fn quad_layout_of_two_faces() {
    let faces = vec![
        Face { x: 3, y: 5, z: 7, dir: 0 },
        Face { x: 0, y: 0, z: 0, dir: 2 },
    ];
    let (quads, indices) = quad_layout(&faces);
    assert_eq!(quads.len(), 2);
    assert_eq!(quads[0], [[3, 6, 7], [3, 6, 8], [4, 6, 8], [4, 6, 7]]);
    assert_eq!(quads[1], [[1, 0, 0], [1, 1, 0], [1, 1, 1], [1, 0, 1]]);
    assert_eq!(indices, vec![0, 1, 2, 0, 2, 3, 4, 5, 6, 4, 6, 7]);
}

#[test]
fn quad_layout_of_a_world_stays_in_range() {
    let world = World::generate(&vec![5; COLUMNS]);
    let faces = world.visible_faces();
    let (quads, indices) = quad_layout(&faces);
    assert_eq!(quads.len(), faces.len());
    assert_eq!(indices.len(), 6 * faces.len());
    assert!(indices.iter().all(|&i| (i as usize) < 4 * faces.len()));
}

#[test]
fn stale_mesh() {
    assert!(!mesh_is_stale(3, 3));
    assert!(mesh_is_stale(4, 3));
    assert!(mesh_is_stale(0, u64::MAX));
}
