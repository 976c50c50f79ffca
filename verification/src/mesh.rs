//! The integer geometry of the world mesh: where the four corners of a
//! block face lie, the two triangles that draw it, and the counts that a
//! renderer keeps of an uploaded mesh.
use vstd::prelude::*;

use crate::world::{face_dir, face_direction, Face};

verus! {

/// The axis that a face direction points along (0 for x, 1 for y, 2 for z):
/// the first one with a non-zero component.
pub open spec fn normal_axis(dir: (int, int, int)) -> int {
    if dir.0 != 0 {
        0
    } else if dir.1 != 0 {
        1
    } else {
        2
    }
}

/// Component `c` (0, 1 or 2) of a direction.
pub open spec fn component(dir: (int, int, int), c: int) -> int {
    if c == 0 {
        dir.0
    } else if c == 1 {
        dir.1
    } else {
        dir.2
    }
}

/// The face's normal axis, then the two axes that span the face: the next
/// one and the one after it, cyclically.
pub fn face_axes(dir: (i32, i32, i32)) -> (r: (usize, usize, usize))
    ensures
        r.0 == normal_axis((dir.0 as int, dir.1 as int, dir.2 as int)),
        r.1 == (r.0 + 1) % 3,
        r.2 == (r.0 + 2) % 3,
{
    let axis: usize = if dir.0 != 0 {
        0
    } else if dir.1 != 0 {
        1
    } else {
        2
    };
    (axis, (axis + 1) % 3, (axis + 2) % 3)
}

/// The offsets along the face's first and second spanning axis of its k-th
/// corner: (0, 0), (1, 0), (1, 1), (0, 1), once round the face.
pub open spec fn corner_offsets(k: int) -> (int, int) {
    if k == 0 {
        (0, 0)
    } else if k == 1 {
        (1, 0)
    } else if k == 2 {
        (1, 1)
    } else {
        (0, 1)
    }
}

/// Coordinate `c` of the k-th corner of the face of block `(x, y, z)` in
/// direction `dir`: the face lies on the block's boundary, on its far side
/// along the normal when the direction is positive.
pub open spec fn corner_coord(x: int, y: int, z: int, dir: (int, int, int), k: int, c: int) -> int {
    let axis = normal_axis(dir);
    let base = component((x, y, z), c);
    if c == axis {
        base + if component(dir, axis) > 0 {
            1int
        } else {
            0int
        }
    } else if c == (axis + 1) % 3 {
        base + corner_offsets(k).0
    } else {
        base + corner_offsets(k).1
    }
}

fn corner_component(
    x: i32,
    y: i32,
    z: i32,
    dir: (i32, i32, i32),
    axes: (usize, usize, usize),
    k: usize,
    c: usize,
) -> (r: i32)
    requires
        axes.0 == normal_axis((dir.0 as int, dir.1 as int, dir.2 as int)),
        axes.1 == (axes.0 + 1) % 3,
        axes.2 == (axes.0 + 2) % 3,
        k < 4,
        c < 3,
        x < i32::MAX,
        y < i32::MAX,
        z < i32::MAX,
    ensures
        r == corner_coord(
            x as int,
            y as int,
            z as int,
            (dir.0 as int, dir.1 as int, dir.2 as int),
            k as int,
            c as int,
        ),
{
    let base = if c == 0 {
        x
    } else if c == 1 {
        y
    } else {
        z
    };
    let sign = if axes.0 == 0 {
        dir.0
    } else if axes.0 == 1 {
        dir.1
    } else {
        dir.2
    };
    let (du, dv): (i32, i32) = if k == 0 {
        (0, 0)
    } else if k == 1 {
        (1, 0)
    } else if k == 2 {
        (1, 1)
    } else {
        (0, 1)
    };
    if c == axes.0 {
        base + if sign > 0 {
            1
        } else {
            0
        }
    } else if c == axes.1 {
        base + du
    } else {
        base + dv
    }
}

/// The four corners of the face of block `(x, y, z)` in direction `dir`,
/// once round the face.
pub fn face_corners(x: i32, y: i32, z: i32, dir: (i32, i32, i32)) -> (r: [[i32; 3]; 4])
    requires
        x < i32::MAX,
        y < i32::MAX,
        z < i32::MAX,
    ensures
        forall|k: int, c: int|
            0 <= k < 4 && 0 <= c < 3 ==> #[trigger] r[k][c] == corner_coord(
                x as int,
                y as int,
                z as int,
                (dir.0 as int, dir.1 as int, dir.2 as int),
                k,
                c,
            ),
{
    let axes = face_axes(dir);
    let c0 = [
        corner_component(x, y, z, dir, axes, 0, 0),
        corner_component(x, y, z, dir, axes, 0, 1),
        corner_component(x, y, z, dir, axes, 0, 2),
    ];
    let c1 = [
        corner_component(x, y, z, dir, axes, 1, 0),
        corner_component(x, y, z, dir, axes, 1, 1),
        corner_component(x, y, z, dir, axes, 1, 2),
    ];
    let c2 = [
        corner_component(x, y, z, dir, axes, 2, 0),
        corner_component(x, y, z, dir, axes, 2, 1),
        corner_component(x, y, z, dir, axes, 2, 2),
    ];
    let c3 = [
        corner_component(x, y, z, dir, axes, 3, 0),
        corner_component(x, y, z, dir, axes, 3, 1),
        corner_component(x, y, z, dir, axes, 3, 2),
    ];
    let r = [c0, c1, c2, c3];
    assert forall|k: int, c: int| 0 <= k < 4 && 0 <= c < 3 implies #[trigger] r[k][c]
        == corner_coord(
        x as int,
        y as int,
        z as int,
        (dir.0 as int, dir.1 as int, dir.2 as int),
        k,
        c,
    ) by {
        if k == 0 {
            assert(r[k] == c0);
        } else if k == 1 {
            assert(r[k] == c1);
        } else if k == 2 {
            assert(r[k] == c2);
        } else {
            assert(r[k] == c3);
        }
    }
    r
}

/// Appends the two triangles of a face whose four corners are the vertices
/// from `start` on: corners (0, 1, 2) and (0, 2, 3). The corners go once
/// round the face, so these two cover it.
pub fn push_quad_indices(indices: &mut Vec<u32>, start: u32)
    requires
        start <= u32::MAX - 3,
    ensures
        final(indices)@ == old(indices)@ + seq![
            start,
            (start + 1) as u32,
            (start + 2) as u32,
            start,
            (start + 2) as u32,
            (start + 3) as u32,
        ],
{
    indices.push(start);
    indices.push(start + 1);
    indices.push(start + 2);
    indices.push(start);
    indices.push(start + 2);
    indices.push(start + 3);
    assert(indices@ =~= old(indices)@ + seq![
        start,
        (start + 1) as u32,
        (start + 2) as u32,
        start,
        (start + 2) as u32,
        (start + 3) as u32,
    ]);
}

/// The counts a renderer keeps of an uploaded mesh with `index_len`
/// indices: the index count and the triangle count, both as `u32` (the
/// count wraps round past `u32::MAX`, as a cast does).
pub fn mesh_counts(index_len: usize) -> (r: (u32, u32))
    ensures
        r.0 == index_len as u32,
        r.1 == (index_len as u32) / 3,
{
    let index_count = index_len as u32;
    (index_count, index_count / 3)
}


/// Coordinate `c` of corner `k` of the quad that draws face `f`.
pub open spec fn face_corner(f: Face, k: int, c: int) -> int {
    corner_coord(f.x as int, f.y as int, f.z as int, face_dir(f.dir as int), k, c)
}

/// Whether a face has a direction and coordinates that its corners fit.
pub open spec fn face_fits(f: Face) -> bool {
    &&& f.x < i32::MAX
    &&& f.y < i32::MAX
    &&& f.z < i32::MAX
    &&& f.dir < 6
}

/// The corner of a quad that the j-th of its six indices names.
pub open spec fn quad_corner_of_index(j: int) -> int {
    if j == 0 || j == 3 {
        0
    } else if j == 1 {
        1
    } else if j == 2 || j == 4 {
        2
    } else {
        3
    }
}

/// The indices of the first `n` quads, whose corners are the vertices 4k
/// to 4k + 3 of quad k.
pub open spec fn quad_indices(n: int) -> Seq<u32>
    decreases n,
{
    if n <= 0 {
        Seq::empty()
    } else {
        let m = 4 * (n - 1);
        quad_indices(n - 1) + seq![
            m as u32,
            (m + 1) as u32,
            (m + 2) as u32,
            m as u32,
            (m + 2) as u32,
            (m + 3) as u32,
        ]
    }
}

/// The index list of `n` quads has six indices per quad, the j-th index of
/// quad k names its corner `quad_corner_of_index(j)`, and so every index
/// names one of the 4n vertices.
pub proof fn law_quad_indices_in_range(n: int)
    requires
        0 <= n,
        4 * n <= u32::MAX + 1,
    ensures
        quad_indices(n).len() == 6 * n,
        forall|k: int, j: int|
            0 <= k < n && 0 <= j < 6 ==> #[trigger] quad_indices(n)[6 * k + j] == 4 * k
                + quad_corner_of_index(j),
        forall|i: int| 0 <= i < 6 * n ==> #[trigger] quad_indices(n)[i] < 4 * n,
    decreases n,
{
    if n > 0 {
        law_quad_indices_in_range(n - 1);
        let prev = quad_indices(n - 1);
        let all = quad_indices(n);
        assert forall|k: int, j: int| 0 <= k < n && 0 <= j < 6 implies #[trigger] all[6 * k + j]
            == 4 * k + quad_corner_of_index(j) by {
            if k < n - 1 {
                assert(all[6 * k + j] == prev[6 * k + j]);
            }
        }
        assert forall|i: int| 0 <= i < 6 * n implies #[trigger] all[i] < 4 * n by {
            if i < 6 * (n - 1) {
                assert(all[i] == prev[i]);
            }
        }
    }
}

/// Lays out the quads of a list of faces, as the mesh draws them: the four
/// corners of each face, in order, and the index list that draws face k as
/// the two triangles over vertices 4k to 4k + 3.
pub fn quad_layout(faces: &Vec<Face>) -> (r: (Vec<[[i32; 3]; 4]>, Vec<u32>))
    requires
        4 * faces.len() <= u32::MAX + 1,
        forall|k: int| 0 <= k < faces.len() ==> face_fits(#[trigger] faces@[k]),
    ensures
        r.0@.len() == faces@.len(),
        forall|k: int, j: int, c: int|
            0 <= k < faces.len() && 0 <= j < 4 && 0 <= c < 3 ==> #[trigger] r.0@[k][j][c]
                == face_corner(faces@[k], j, c),
        r.1@ == quad_indices(faces.len() as int),
        r.1@.len() == 6 * faces.len(),
        forall|i: int| 0 <= i < r.1@.len() ==> #[trigger] r.1@[i] < 4 * faces.len(),
{
    let mut quads: Vec<[[i32; 3]; 4]> = Vec::new();
    let mut indices: Vec<u32> = Vec::new();
    let mut k: usize = 0;
    while k < faces.len()
        invariant
            4 * faces.len() <= u32::MAX + 1,
            forall|k: int| 0 <= k < faces.len() ==> face_fits(#[trigger] faces@[k]),
            0 <= k <= faces.len(),
            quads@.len() == k,
            forall|q: int, j: int, c: int|
                0 <= q < k && 0 <= j < 4 && 0 <= c < 3 ==> #[trigger] quads@[q][j][c]
                    == face_corner(faces@[q], j, c),
            indices@ == quad_indices(k as int),
        decreases faces.len() - k,
    {
        let f = faces[k];
        assert(face_fits(faces@[k as int]));
        let (dx, dy, dz) = face_direction(f.dir);
        let corners = face_corners(f.x, f.y, f.z, (dx, dy, dz));
        quads.push(corners);
        let start = (4 * k) as u32;
        push_quad_indices(&mut indices, start);
        assert(indices@ =~= quad_indices(k + 1));
        k = k + 1;
    }
    proof {
        law_quad_indices_in_range(faces.len() as int);
    }
    (quads, indices)
}

/// Whether the mesh must be rebuilt: the world has moved on from the
/// revision that the mesh was built from.
pub fn mesh_is_stale(world_revision: u64, mesh_revision: u64) -> (r: bool)
    ensures
        r == (world_revision != mesh_revision),
{
    world_revision != mesh_revision
}


/// Corner `k` of the quad of face `d` of block `(x, y, z)`, as a point.
pub open spec fn quad_point(x: int, y: int, z: int, d: int, k: int) -> (int, int, int) {
    (
        corner_coord(x, y, z, face_dir(d), k, 0),
        corner_coord(x, y, z, face_dir(d), k, 1),
        corner_coord(x, y, z, face_dir(d), k, 2),
    )
}

/// The quad of a face lies on the boundary that the block shares with its
/// neighbour in the face's direction: along the direction's axis every
/// corner is one past the block for a positive direction and at the block
/// for a negative one; across it every corner is at the block or one past.
pub proof fn law_face_corners_on_the_shared_boundary(x: int, y: int, z: int, d: int, k: int)
    requires
        0 <= d < 6,
        0 <= k < 4,
    ensures
        face_dir(d).0 == 1 ==> quad_point(x, y, z, d, k).0 == x + 1,
        face_dir(d).0 == -1 ==> quad_point(x, y, z, d, k).0 == x,
        face_dir(d).0 == 0 ==> x <= quad_point(x, y, z, d, k).0 <= x + 1,
        face_dir(d).1 == 1 ==> quad_point(x, y, z, d, k).1 == y + 1,
        face_dir(d).1 == -1 ==> quad_point(x, y, z, d, k).1 == y,
        face_dir(d).1 == 0 ==> y <= quad_point(x, y, z, d, k).1 <= y + 1,
        face_dir(d).2 == 1 ==> quad_point(x, y, z, d, k).2 == z + 1,
        face_dir(d).2 == -1 ==> quad_point(x, y, z, d, k).2 == z,
        face_dir(d).2 == 0 ==> z <= quad_point(x, y, z, d, k).2 <= z + 1,
{
}

/// Number of coordinates in which two points differ.
pub open spec fn differing_coords(a: (int, int, int), b: (int, int, int)) -> int {
    (if a.0 != b.0 {
        1int
    } else {
        0
    }) + (if a.1 != b.1 {
        1int
    } else {
        0
    }) + (if a.2 != b.2 {
        1int
    } else {
        0
    })
}

/// The four corners of a face's quad are its four distinct corners, taken
/// once round: neighbouring corners differ in one coordinate, and corners 0
/// and 2, which the two triangles share, lie diagonally opposite.
pub proof fn law_face_corners_go_round_the_face(x: int, y: int, z: int, d: int, k: int, j: int)
    requires
        0 <= d < 6,
        0 <= k < 4,
        0 <= j < 4,
    ensures
        k != j ==> quad_point(x, y, z, d, k) != quad_point(x, y, z, d, j),
        differing_coords(quad_point(x, y, z, d, k), quad_point(x, y, z, d, (k + 1) % 4)) == 1,
        differing_coords(quad_point(x, y, z, d, 0), quad_point(x, y, z, d, 2)) == 2,
{
}

/// The index list draws quad k as the triangles over its corners
/// (0, 1, 2) and (0, 2, 3), that is vertices 4k, 4k + 1, 4k + 2 and 4k,
/// 4k + 2, 4k + 3.
pub proof fn law_quad_indices_two_triangles(n: int, k: int)
    requires
        0 <= k < n,
        4 * n <= u32::MAX + 1,
    ensures
        quad_indices(n)[6 * k] == 4 * k,
        quad_indices(n)[6 * k + 1] == 4 * k + 1,
        quad_indices(n)[6 * k + 2] == 4 * k + 2,
        quad_indices(n)[6 * k + 3] == 4 * k,
        quad_indices(n)[6 * k + 4] == 4 * k + 2,
        quad_indices(n)[6 * k + 5] == 4 * k + 3,
{
    law_quad_indices_in_range(n);
    assert(quad_indices(n)[6 * k + 0] == 4 * k + quad_corner_of_index(0));
    assert(quad_indices(n)[6 * k + 1] == 4 * k + quad_corner_of_index(1));
    assert(quad_indices(n)[6 * k + 2] == 4 * k + quad_corner_of_index(2));
    assert(quad_indices(n)[6 * k + 3] == 4 * k + quad_corner_of_index(3));
    assert(quad_indices(n)[6 * k + 4] == 4 * k + quad_corner_of_index(4));
    assert(quad_indices(n)[6 * k + 5] == 4 * k + quad_corner_of_index(5));
}

} // verus!
