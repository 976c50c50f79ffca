//! The voxel world: a fixed box of blocks, its reads and writes, the terrain
//! and trees it is generated with, and the queries that rendering and physics
//! make of it.
use vstd::prelude::*;

verus! {

// Block kinds.
pub const AIR: u8 = 0;

pub const GRASS: u8 = 1;

pub const DIRT: u8 = 2;

pub const STONE: u8 = 3;

pub const SAND: u8 = 4;

pub const WOOD: u8 = 5;

pub const LEAVES: u8 = 6;

// World size, in blocks.
pub const SIZE_X: i32 = 32;

pub const SIZE_Y: i32 = 16;

pub const SIZE_Z: i32 = 32;

/// Number of cells in the world: `SIZE_X * SIZE_Y * SIZE_Z`.
pub const VOLUME: usize = 16384;

/// Whether a coordinate lies inside the world's box.
pub open spec fn in_world(x: int, y: int, z: int) -> bool {
    &&& 0 <= x < 32
    &&& 0 <= y < 16
    &&& 0 <= z < 32
}

/// Position of a cell in the flat block array: x varies fastest, then z, then y.
pub open spec fn cell_index(x: int, y: int, z: int) -> int {
    (y * 32 + z) * 32 + x
}

/// What a read at a coordinate gives: below the floor is solid stone, above
/// the ceiling is air, and beyond the four sides is a solid stone wall.
pub open spec fn block_in(cells: Seq<u8>, x: int, y: int, z: int) -> u8 {
    if y < 0 {
        STONE
    } else if y >= 16 {
        AIR
    } else if x < 0 || x >= 32 || z < 0 || z >= 32 {
        STONE
    } else {
        cells[cell_index(x, y, z)]
    }
}

/// What a ray sees at a coordinate: the cell inside the world, air outside.
pub open spec fn ray_block_in(cells: Seq<u8>, x: int, y: int, z: int) -> u8 {
    if in_world(x, y, z) {
        cells[cell_index(x, y, z)]
    } else {
        AIR
    }
}

/// Number of cells that are not air.
pub open spec fn count_solid(cells: Seq<u8>) -> nat
    decreases cells.len(),
{
    if cells.len() == 0 {
        0
    } else {
        count_solid(cells.drop_last()) + if cells.last() != AIR {
            1nat
        } else {
            0nat
        }
    }
}

/// 1 for a solid block, 0 for air.
pub open spec fn solid_weight(b: u8) -> int {
    if b != AIR {
        1
    } else {
        0
    }
}

pub proof fn lemma_count_solid_bound(cells: Seq<u8>)
    ensures
        count_solid(cells) <= cells.len(),
    decreases cells.len(),
{
    if cells.len() > 0 {
        lemma_count_solid_bound(cells.drop_last());
    }
}

/// Writing one cell changes the solid count by the difference of the two
/// blocks' weights.
pub proof fn lemma_count_solid_update(cells: Seq<u8>, i: int, v: u8)
    requires
        0 <= i < cells.len(),
    ensures
        count_solid(cells.update(i, v)) == count_solid(cells) - solid_weight(cells[i])
            + solid_weight(v),
    decreases cells.len(),
{
    if i == cells.len() - 1 {
        assert(cells.update(i, v).drop_last() =~= cells.drop_last());
    } else {
        lemma_count_solid_update(cells.drop_last(), i, v);
        assert(cells.update(i, v).drop_last() =~= cells.drop_last().update(i, v));
    }
}

/// Distinct coordinates inside the world have distinct cells, all inside the array.
pub proof fn lemma_cell_index(x: int, y: int, z: int)
    requires
        in_world(x, y, z),
    ensures
        0 <= cell_index(x, y, z) < VOLUME,
        forall|a: int, b: int, c: int|
            in_world(a, b, c) && cell_index(a, b, c) == cell_index(x, y, z) ==> a == x && b == y
                && c == z,
{
}

/// The voxel world.
pub struct World {
    blocks: Vec<u8>,
    /// Goes up by one on every change of a block, so that a renderer can tell
    /// when its mesh is stale.
    pub revision: u64,
    /// Number of blocks in the world that are not air.
    pub solid_count: u32,
    /// Horizontal coordinates of the spawn point, chosen where the terrain is flattest.
    pub spawn: (i32, i32),
}

impl Clone for World {
    /// A copy with the same blocks, revision, count and spawn point.
    fn clone(&self) -> (r: Self)
        ensures
            r@ == self@,
    {
        let blocks = self.blocks.clone();
        assert(blocks@ =~= self.blocks@);
        World {
            blocks,
            revision: self.revision,
            solid_count: self.solid_count,
            spawn: (self.spawn.0, self.spawn.1),
        }
    }
}

/// What a `World` holds, as mathematical values.
pub struct WorldView {
    /// The blocks, cell by cell, in the order of `cell_index`.
    pub cells: Seq<u8>,
    pub revision: u64,
    pub solid_count: u32,
    pub spawn: (i32, i32),
}

impl View for World {
    type V = WorldView;

    closed spec fn view(&self) -> WorldView {
        WorldView {
            cells: self.blocks@,
            revision: self.revision,
            solid_count: self.solid_count,
            spawn: self.spawn,
        }
    }
}

/// Whether `x`, `y`, `z` lies inside the world's box.
pub fn in_bounds(x: i32, y: i32, z: i32) -> (r: bool)
    ensures
        r == in_world(x as int, y as int, z as int),
{
    x >= 0 && x < SIZE_X && y >= 0 && y < SIZE_Y && z >= 0 && z < SIZE_Z
}

fn index(x: i32, y: i32, z: i32) -> (r: usize)
    requires
        in_world(x as int, y as int, z as int),
    ensures
        r as int == cell_index(x as int, y as int, z as int),
        r < VOLUME,
{
    ((y * SIZE_Z + z) * SIZE_X + x) as usize
}

impl World {
    /// The revision: how many block changes the world has seen.
    pub fn revision(&self) -> (r: u64)
        ensures
            r == self@.revision,
    {
        self.revision
    }

    /// The number of blocks that are not air, as the world keeps it.
    pub fn solid_count(&self) -> (r: u32)
        ensures
            r == self@.solid_count,
    {
        self.solid_count
    }

    /// The spawn point's horizontal coordinates.
    pub fn spawn(&self) -> (r: (i32, i32))
        ensures
            r == self@.spawn,
    {
        self.spawn
    }

    /// The block array has one cell per coordinate of the box.
    pub open spec fn sized(&self) -> bool {
        self@.cells.len() == VOLUME
    }

    /// Well-formedness: the array is sized, and `solid_count` counts the
    /// blocks that are not air.
    pub open spec fn wf(&self) -> bool {
        &&& self.sized()
        &&& self@.solid_count == count_solid(self@.cells)
    }

    /// The block that `get` reads at a coordinate.
    pub open spec fn block_at(&self, x: int, y: int, z: int) -> u8 {
        block_in(self@.cells, x, y, z)
    }

    /// Whether `set` would change the block at a coordinate.
    pub open spec fn changes(&self, x: int, y: int, z: int, id: u8) -> bool {
        changes_cells(self@.cells, x, y, z, id)
    }

    /// Reads a block. Below the floor and beyond the sides the world reads as
    /// solid stone, so that a player cannot fall out; above it reads as air.
    pub fn get(&self, x: i32, y: i32, z: i32) -> (r: u8)
        requires
            self.sized(),
        ensures
            r == self.block_at(x as int, y as int, z as int),
    {
        if y < 0 {
            return STONE;
        }
        if y >= SIZE_Y {
            return AIR;
        }
        if x < 0 || x >= SIZE_X || z < 0 || z >= SIZE_Z {
            return STONE;
        }
        self.blocks[index(x, y, z)]
    }

    /// Reads a block for ray picking: the invisible walls around the world
    /// take no part in a hit, so everything outside reads as air.
    pub fn get_for_ray(&self, x: i32, y: i32, z: i32) -> (r: u8)
        requires
            self.sized(),
        ensures
            r == ray_block_in(self@.cells, x as int, y as int, z as int),
    {
        if !in_bounds(x, y, z) {
            return AIR;
        }
        self.blocks[index(x, y, z)]
    }

    /// Whether the block at a coordinate is anything but air.
    pub fn is_solid(&self, x: i32, y: i32, z: i32) -> (r: bool)
        requires
            self.sized(),
        ensures
            r == (self.block_at(x as int, y as int, z as int) != AIR),
    {
        self.get(x, y, z) != AIR
    }

    /// Writes a cell inside the world and ignores a coordinate outside it; the
    /// solid count and the revision are left as they are.
    fn set_raw(&mut self, x: i32, y: i32, z: i32, id: u8)
        requires
            old(self).sized(),
        ensures
            final(self).sized(),
            in_world(x as int, y as int, z as int) ==> final(self)@.cells == old(self)@.cells.update(
                cell_index(x as int, y as int, z as int),
                id,
            ),
            !in_world(x as int, y as int, z as int) ==> final(self)@.cells == old(self)@.cells,
            final(self)@.revision == old(self)@.revision,
            final(self)@.solid_count == old(self)@.solid_count,
            final(self)@.spawn == old(self)@.spawn,
    {
        if in_bounds(x, y, z) {
            let i = index(x, y, z);
            self.blocks.set(i, id);
        }
    }

    /// Changes a block; a coordinate outside the world is ignored. Returns
    /// whether the block really changed, and only then moves the revision on.
    pub fn set(&mut self, x: i32, y: i32, z: i32, id: u8) -> (changed: bool)
        requires
            old(self).wf(),
            old(self).changes(x as int, y as int, z as int, id) ==> old(self)@.revision
                < u64::MAX,
        ensures
            final(self).wf(),
            changed == old(self).changes(x as int, y as int, z as int, id),
            changed ==> final(self)@.cells == old(self)@.cells.update(
                cell_index(x as int, y as int, z as int),
                id,
            ),
            !changed ==> final(self)@.cells == old(self)@.cells,
            final(self)@.revision == old(self)@.revision + if changed {
                1int
            } else {
                0int
            },
            final(self)@.spawn == old(self)@.spawn,
    {
        if !in_bounds(x, y, z) {
            return false;
        }
        let i = index(x, y, z);
        let before = self.blocks[i];
        if before == id {
            return false;
        }
        proof {
            lemma_count_solid_update(self@.cells, i as int, id);
            lemma_count_solid_bound(self@.cells.update(i as int, id));
        }
        self.blocks.set(i, id);
        if id == AIR {
            self.solid_count = self.solid_count - 1;
        } else if before == AIR {
            self.solid_count = self.solid_count + 1;
        }
        self.revision = self.revision + 1;
        true
    }

    /// Counts the blocks that are not air into `solid_count`.
    pub fn recount(&mut self)
        requires
            old(self).sized(),
        ensures
            final(self).wf(),
            final(self)@.cells == old(self)@.cells,
            final(self)@.revision == old(self)@.revision,
            final(self)@.spawn == old(self)@.spawn,
    {
        let mut count: u32 = 0;
        let mut i: usize = 0;
        while i < self.blocks.len()
            invariant
                self.sized(),
                0 <= i <= VOLUME,
                count == count_solid(self@.cells.take(i as int)),
            decreases VOLUME - i,
        {
            proof {
                assert(self@.cells.take(i as int + 1).drop_last() =~= self@.cells.take(i as int));
                lemma_count_solid_bound(self@.cells.take(i as int));
            }
            if self.blocks[i] != AIR {
                count = count + 1;
            }
            i = i + 1;
        }
        assert(self@.cells.take(VOLUME as int) =~= self@.cells);
        self.solid_count = count;
    }
}


/// The block of cell `(x, y, z)` in a block array.
pub open spec fn cell(cells: Seq<u8>, x: int, y: int, z: int) -> u8 {
    cells[cell_index(x, y, z)]
}

/// The highest solid block at or below height `y` of column `(x, z)`, or 0
/// when there is none.
pub open spec fn top_solid(cells: Seq<u8>, x: int, z: int, y: int) -> int
    decreases y + 1,
{
    if y < 0 {
        0
    } else if block_in(cells, x, y, z) != AIR {
        y
    } else {
        top_solid(cells, x, z, y - 1)
    }
}

/// Height of the highest solid block of a column, 0 when the column is
/// empty; outside the world it is the ground level, 0.
pub open spec fn surface_in(cells: Seq<u8>, x: int, z: int) -> int {
    if 0 <= x < 32 && 0 <= z < 32 {
        top_solid(cells, x, z, 15)
    } else {
        0
    }
}

pub proof fn lemma_top_solid_range(cells: Seq<u8>, x: int, z: int, y: int)
    requires
        y >= -1,
    ensures
        0 <= top_solid(cells, x, z, y),
        y >= 0 ==> top_solid(cells, x, z, y) <= y,
    decreases y + 1,
{
    if y >= 0 {
        lemma_top_solid_range(cells, x, z, y - 1);
    }
}

/// The surface is the highest solid block of the column: every block above
/// it is air, and the block at it is solid unless the whole column is air.
pub proof fn lemma_surface_is_highest_solid(cells: Seq<u8>, x: int, z: int)
    requires
        0 <= x < 32,
        0 <= z < 32,
    ensures
        0 <= surface_in(cells, x, z) < 16,
        forall|y: int|
            surface_in(cells, x, z) < y < 16 ==> #[trigger] block_in(cells, x, y, z) == AIR,
        block_in(cells, x, surface_in(cells, x, z), z) != AIR || forall|y: int|
            0 <= y < 16 ==> #[trigger] block_in(cells, x, y, z) == AIR,
{
    lemma_top_solid_above(cells, x, z, 15);
    lemma_top_solid_range(cells, x, z, 15);
}

proof fn lemma_top_solid_above(cells: Seq<u8>, x: int, z: int, y: int)
    requires
        y >= -1,
    ensures
        forall|w: int| top_solid(cells, x, z, y) < w <= y ==> #[trigger] block_in(cells, x, w, z) == AIR,
        block_in(cells, x, top_solid(cells, x, z, y), z) != AIR || forall|w: int|
            0 <= w <= y ==> #[trigger] block_in(cells, x, w, z) == AIR,
    decreases y + 1,
{
    if y >= 0 {
        lemma_top_solid_above(cells, x, z, y - 1);
        lemma_top_solid_range(cells, x, z, y - 1);
    }
}

pub open spec fn abs(a: int) -> int {
    if a < 0 {
        -a
    } else {
        a
    }
}

pub open spec fn max(a: int, b: int) -> int {
    if a < b {
        b
    } else {
        a
    }
}

/// The k-th neighbour offset of the 3x3 square, x offset first.
pub open spec fn square_offset(k: int) -> (int, int) {
    (k / 3 - 1, k % 3 - 1)
}

/// Largest height difference between column `(x, z)` and the first `k`
/// columns of its 3x3 square (0 for none).
pub open spec fn spread_upto(surface: spec_fn(int, int) -> int, x: int, z: int, k: int) -> int
    decreases k,
{
    if k <= 0 {
        0
    } else {
        let (dx, dz) = square_offset(k - 1);
        max(
            spread_upto(surface, x, z, k - 1),
            abs(surface(x + dx, z + dz) - surface(x, z)),
        )
    }
}

/// How unsuited a column is as a spawn point: its largest height difference
/// to the 3x3 square around it weighs six times the distance to the centre.
pub open spec fn spawn_score(surface: spec_fn(int, int) -> int, x: int, z: int) -> int {
    spread_upto(surface, x, z, 9) * 6 + abs(x - 16) + abs(z - 16)
}

/// Whether column `(x, z)` is one of those that the spawn point is chosen from.
pub open spec fn spawn_candidate(x: int, z: int) -> bool {
    2 <= x < 30 && 2 <= z < 30
}

/// Whether candidate `(x, z)` is looked at before candidate `(sx, sz)`.
pub open spec fn before(x: int, z: int, sx: int, sz: int) -> bool {
    x < sx || (x == sx && z < sz)
}

/// `(sx, sz)` has the lowest score of all candidates, and is the first in
/// order with that score.
pub open spec fn is_flattest(score: spec_fn(int, int) -> int, sx: int, sz: int) -> bool {
    &&& spawn_candidate(sx, sz)
    &&& forall|x: int, z: int| spawn_candidate(x, z) ==> score(sx, sz) <= #[trigger] score(x, z)
    &&& forall|x: int, z: int|
        spawn_candidate(x, z) && before(x, z, sx, sz) ==> score(sx, sz) < #[trigger] score(x, z)
}

pub open spec fn cells_score(cells: Seq<u8>, x: int, z: int) -> int {
    spawn_score(|p: int, q: int| surface_in(cells, p, q), x, z)
}

/// Index of column `(x, z)` in a height map.
pub open spec fn column_index(x: int, z: int) -> int {
    z * 32 + x
}

/// Number of columns of the world, the length of a height map.
pub const COLUMNS: usize = 1024;

/// The block that terrain whose top is at height `top` puts at height `y`:
/// sand or grass on top (sand where the top is at most 3), two layers of
/// dirt under it, stone below, and air above.
pub open spec fn terrain_block(top: int, y: int) -> u8 {
    if y > top {
        AIR
    } else if y == top {
        if top <= 3 {
            SAND
        } else {
            GRASS
        }
    } else if y >= top - 2 {
        DIRT
    } else {
        STONE
    }
}

/// The surface height of a terrain column: its top, held to the world's height range.
pub open spec fn terrain_surface(heights: Seq<i32>, x: int, z: int) -> int {
    let h = heights[column_index(x, z)] as int;
    if h < 0 {
        0
    } else if h > 15 {
        15
    } else {
        h
    }
}

/// Where the k-th tree stands.
pub open spec fn tree_pos(k: int) -> (int, int) {
    if k == 0 {
        (6, 7)
    } else if k == 1 {
        (24, 9)
    } else if k == 2 {
        (9, 23)
    } else if k == 3 {
        (26, 25)
    } else if k == 4 {
        (16, 5)
    } else {
        (5, 16)
    }
}

/// Number of trees that a generated world has.
pub const TREE_COUNT: usize = 6;

/// Whether `(x, y, z)` is in the trunk of a tree at `(tx, tz)` whose trunk
/// starts at height `base`: four blocks of wood.
pub open spec fn trunk_cell(tx: int, base: int, tz: int, x: int, y: int, z: int) -> bool {
    x == tx && z == tz && base <= y < base + 4
}

/// Whether the offsets `(dx, dy, dz)` from a crown's centre lie in the
/// crown: a small rounded ball without its four vertical edges.
pub open spec fn crown_shape(dx: int, dy: int, dz: int) -> bool {
    &&& -2 <= dx <= 2
    &&& -2 <= dy <= 1
    &&& -2 <= dz <= 2
    &&& dx * dx + dy * dy * 2 + dz * dz <= 5
    &&& !(abs(dx) == 2 && abs(dz) == 2)
}

/// Whether `(x, y, z)` is in the crown of a tree at `(tx, tz)` whose trunk
/// starts at height `base`; the crown is centred on the trunk's top block.
pub open spec fn crown_cell(tx: int, base: int, tz: int, x: int, y: int, z: int) -> bool {
    crown_shape(x - tx, y - (base + 3), z - tz)
}

/// The block at `(x, y, z)` after a tree is planted on a cell that held
/// `prev`: the trunk replaces anything, and leaves fill only air.
pub open spec fn planted(prev: u8, tx: int, base: int, tz: int, x: int, y: int, z: int) -> u8 {
    if trunk_cell(tx, base, tz, x, y, z) {
        WOOD
    } else if crown_cell(tx, base, tz, x, y, z) && prev == AIR {
        LEAVES
    } else {
        prev
    }
}

/// The block at `(x, y, z)` of a world generated from `heights`, after its
/// first `k` trees; each tree stands on the terrain of its own column.
pub open spec fn generated_block(heights: Seq<i32>, k: int, x: int, y: int, z: int) -> u8
    decreases k,
{
    if k <= 0 {
        terrain_block(heights[column_index(x, z)] as int, y)
    } else {
        let (tx, tz) = tree_pos(k - 1);
        planted(
            generated_block(heights, k - 1, x, y, z),
            tx,
            heights[column_index(tx, tz)] + 1,
            tz,
            x,
            y,
            z,
        )
    }
}

/// The trees' positions `(x, z)`.
pub fn tree_positions() -> (v: Vec<(i32, i32)>)
    ensures
        v@.len() == TREE_COUNT,
        forall|k: int| 0 <= k < TREE_COUNT ==> v@[k].0 == tree_pos(k).0 && v@[k].1 == tree_pos(k).1,
        v@ == seq![(6i32, 7i32), (24i32, 9i32), (9i32, 23i32), (26i32, 25i32), (16i32, 5i32), (5i32, 16i32)],
{
    vec![(6, 7), (24, 9), (9, 23), (26, 25), (16, 5), (5, 16)]
}

fn abs_i32(a: i32) -> (r: i32)
    requires
        a > i32::MIN,
    ensures
        r == abs(a as int),
{
    if a < 0 {
        -a
    } else {
        a
    }
}

/// The columns of terrain given by `heights` have the surface `terrain_surface`.
proof fn lemma_terrain_surface(cells: Seq<u8>, heights: Seq<i32>, x: int, z: int, y: int)
    requires
        0 <= x < 32,
        0 <= z < 32,
        -1 <= y < 16,
        forall|w: int|
            0 <= w < 16 ==> #[trigger] cell(cells, x, w, z) == terrain_block(
                heights[column_index(x, z)] as int,
                w,
            ),
    ensures
        top_solid(cells, x, z, y) == if heights[column_index(x, z)] >= 0 && y >= 0 {
            if (heights[column_index(x, z)] as int) < y {
                heights[column_index(x, z)] as int
            } else {
                y
            }
        } else {
            0
        },
    decreases y + 1,
{
    if y >= 0 {
        assert(cell(cells, x, y, z) == block_in(cells, x, y, z));
        lemma_terrain_surface(cells, heights, x, z, y - 1);
    }
}

impl World {
    /// Height of the highest solid block of a column (0 when the column is
    /// empty); outside the world it is the ground level, 0.
    pub fn surface_height(&self, x: i32, z: i32) -> (r: i32)
        requires
            self.sized(),
        ensures
            r == surface_in(self@.cells, x as int, z as int),
            !(0 <= x < SIZE_X && 0 <= z < SIZE_Z) ==> r == 0,
            0 <= r < SIZE_Y,
    {
        if !in_bounds(x, 0, z) {
            return 0;
        }
        proof {
            lemma_top_solid_range(self@.cells, x as int, z as int, 15);
        }
        let mut y: i32 = SIZE_Y - 1;
        while y >= 0
            invariant
                self.sized(),
                -1 <= y < 16,
                top_solid(self@.cells, x as int, z as int, y as int) == surface_in(
                    self@.cells,
                    x as int,
                    z as int,
                ),
            decreases y + 1,
        {
            if self.get(x, y, z) != AIR {
                return y;
            }
            y = y - 1;
        }
        0
    }
}


/// Whether offsets `(ody, odx, odz)` come before `(dy, dx, dz)` in the order
/// in which a crown is filled: height first, then x, then z.
pub open spec fn crown_order_before(ody: int, odx: int, odz: int, dy: int, dx: int, dz: int) -> bool {
    ody < dy || (ody == dy && (odx < dx || (odx == dx && odz < dz)))
}

/// The state of a tree's planting after its trunk and the crown offsets
/// before `(dy, dx, dz)`.
spec fn leaves_placed(
    before: Seq<u8>,
    now: Seq<u8>,
    tx: int,
    base: int,
    tz: int,
    dy: int,
    dx: int,
    dz: int,
) -> bool {
    forall|a: int, b: int, c: int|
        in_world(a, b, c) ==> #[trigger] cell(now, a, b, c) == if trunk_cell(tx, base, tz, a, b, c) {
            WOOD
        } else if crown_cell(tx, base, tz, a, b, c) && crown_order_before(
            b - (base + 3),
            a - tx,
            c - tz,
            dy,
            dx,
            dz,
        ) && cell(before, a, b, c) == AIR {
            LEAVES
        } else {
            cell(before, a, b, c)
        }
}

/// The state of the terrain fill when the columns before `(x, z)` and the
/// cells of column `(x, z)` below `y` are done.
spec fn terrain_filled(cells: Seq<u8>, heights: Seq<i32>, x: int, z: int, y: int) -> bool {
    forall|a: int, b: int, c: int|
        in_world(a, b, c) ==> #[trigger] cell(cells, a, b, c) == if before(a, c, x, z) || (a == x
            && c == z && b < y) {
            terrain_block(heights[column_index(a, c)] as int, b)
        } else {
            AIR
        }
}

/// The spawn search has seen the candidates before `(x, z)`, and `best` is
/// the first of them with the lowest score.
spec fn best_so_far(cells: Seq<u8>, best: (i32, i32), best_score: i32, x: int, z: int) -> bool {
    &&& (x > 2 || z > 2) ==> {
        &&& spawn_candidate(best.0 as int, best.1 as int)
        &&& before(best.0 as int, best.1 as int, x, z)
        &&& best_score == cells_score(cells, best.0 as int, best.1 as int)
        &&& forall|a: int, c: int|
            spawn_candidate(a, c) && before(a, c, x, z) ==> best_score <= #[trigger] cells_score(
                cells,
                a,
                c,
            )
        &&& forall|a: int, c: int|
            spawn_candidate(a, c) && before(a, c, best.0 as int, best.1 as int) ==> best_score
                < #[trigger] cells_score(cells, a, c)
    }
    &&& !(x > 2 || z > 2) ==> best_score == i32::MAX
}

proof fn lemma_spread_bound(surface: spec_fn(int, int) -> int, x: int, z: int, k: int)
    requires
        forall|p: int, q: int| 0 <= #[trigger] surface(p, q) < 16,
    ensures
        0 <= spread_upto(surface, x, z, k) < 16,
    decreases k,
{
    if k > 0 {
        lemma_spread_bound(surface, x, z, k - 1);
    }
}

/// Two surfaces that agree on the 3x3 square around `(x, z)` give it the same spread.
proof fn lemma_spread_agrees(
    s1: spec_fn(int, int) -> int,
    s2: spec_fn(int, int) -> int,
    x: int,
    z: int,
    k: int,
)
    requires
        0 <= k <= 9,
        forall|p: int, q: int|
            x - 1 <= p <= x + 1 && z - 1 <= q <= z + 1 ==> #[trigger] s1(p, q) == s2(p, q),
    ensures
        spread_upto(s1, x, z, k) == spread_upto(s2, x, z, k),
    decreases k,
{
    if k > 0 {
        lemma_spread_agrees(s1, s2, x, z, k - 1);
        let (dx, dz) = square_offset(k - 1);
        assert(s1(x + dx, z + dz) == s2(x + dx, z + dz));
        assert(s1(x, z) == s2(x, z));
    }
}

impl World {
    /// Puts one leaf of a crown whose top trunk block is at height `top - 1`,
    /// at offsets `(dx, dy, dz)` from it, if the offsets lie in the crown's
    /// shape and the cell is air.
    fn place_leaf(&mut self, x: i32, top: i32, z: i32, dx: i32, dy: i32, dz: i32)
        requires
            old(self).sized(),
            i32::MIN + 2 <= x <= i32::MAX - 2,
            i32::MIN + 2 <= z <= i32::MAX - 2,
            top > i32::MIN + 2,
            -2 <= dx <= 2,
            -2 <= dy <= 1,
            -2 <= dz <= 2,
        ensures
            final(self).sized(),
            final(self)@.revision == old(self)@.revision,
            final(self)@.solid_count == old(self)@.solid_count,
            final(self)@.spawn == old(self)@.spawn,
            forall|a: int, b: int, c: int|
                in_world(a, b, c) ==> #[trigger] cell(final(self)@.cells, a, b, c) == if a == x
                    + dx && b == top - 1 + dy && c == z + dz && crown_shape(
                    dx as int,
                    dy as int,
                    dz as int,
                ) && cell(old(self)@.cells, a, b, c) == AIR {
                    LEAVES
                } else {
                    cell(old(self)@.cells, a, b, c)
                },
    {
        assert(0 <= dx * dx <= 4 && 0 <= dy * dy <= 4 && 0 <= dz * dz <= 4) by (nonlinear_arith)
            requires
                -2 <= dx <= 2,
                -2 <= dy <= 2,
                -2 <= dz <= 2,
        ;
        let r = dx * dx + dy * dy * 2 + dz * dz;
        if r > 5 || (abs_i32(dx) == 2 && abs_i32(dz) == 2) {
            return;
        }
        let lx = x + dx;
        let ly = top - 1 + dy;
        let lz = z + dz;
        if in_bounds(lx, ly, lz) && self.get(lx, ly, lz) == AIR {
            proof {
                lemma_cell_index(lx as int, ly as int, lz as int);
            }
            self.set_raw(lx, ly, lz, LEAVES);
        }
    }

    /// Grows a tree four blocks high at `(x, z)` from height `base_y`: a trunk
    /// of wood, and a rounded crown of leaves round its top that fills only air.
    pub fn plant_tree(&mut self, x: i32, base_y: i32, z: i32)
        requires
            old(self).sized(),
            i32::MIN + 2 <= x <= i32::MAX - 2,
            i32::MIN + 2 <= z <= i32::MAX - 2,
            i32::MIN < base_y <= i32::MAX - 4,
        ensures
            final(self).sized(),
            final(self)@.revision == old(self)@.revision,
            final(self)@.solid_count == old(self)@.solid_count,
            final(self)@.spawn == old(self)@.spawn,
            forall|a: int, b: int, c: int|
                in_world(a, b, c) ==> #[trigger] cell(final(self)@.cells, a, b, c) == planted(
                    cell(old(self)@.cells, a, b, c),
                    x as int,
                    base_y as int,
                    z as int,
                    a,
                    b,
                    c,
                ),
    {
        let ghost start = self@.cells;
        let trunk_height: i32 = 4;
        let mut i: i32 = 0;
        while i < trunk_height
            invariant
                self.sized(),
                0 <= i <= 4,
                trunk_height == 4,
                i32::MIN < base_y <= i32::MAX - 4,
                i32::MIN + 2 <= x <= i32::MAX - 2,
                i32::MIN + 2 <= z <= i32::MAX - 2,
                self@.revision == old(self)@.revision,
                self@.solid_count == old(self)@.solid_count,
                self@.spawn == old(self)@.spawn,
                forall|a: int, b: int, c: int|
                    in_world(a, b, c) ==> #[trigger] cell(self@.cells, a, b, c) == if a == x && c
                        == z && base_y <= b < base_y + i {
                        WOOD
                    } else {
                        cell(start, a, b, c)
                    },
            decreases 4 - i,
        {
            let y = base_y + i;
            proof {
                if in_world(x as int, y as int, z as int) {
                    lemma_cell_index(x as int, y as int, z as int);
                }
            }
            let ghost prev = self@.cells;
            self.set_raw(x, y, z, WOOD);
            assert forall|a: int, b: int, c: int| in_world(a, b, c) implies #[trigger] cell(
                self@.cells,
                a,
                b,
                c,
            ) == if a == x && c == z && base_y <= b < base_y + i + 1 {
                WOOD
            } else {
                cell(start, a, b, c)
            } by {
                lemma_cell_index(a, b, c);
                if in_world(x as int, y as int, z as int) {
                    assert(self@.cells == prev.update(cell_index(x as int, y as int, z as int), WOOD));
                    if a == x && c == z && b == y {
                        assert(cell(self@.cells, a, b, c) == WOOD);
                    } else {
                        assert(cell_index(a, b, c) != cell_index(x as int, y as int, z as int));
                        assert(cell(self@.cells, a, b, c) == cell(prev, a, b, c));
                    }
                } else {
                    assert(self@.cells == prev);
                }
            }
            i = i + 1;
        }
        let top = base_y + trunk_height;
        let mut dy: i32 = -2;
        while dy <= 1
            invariant
                self.sized(),
                -2 <= dy <= 2,
                top == base_y + 4,
                top > i32::MIN + 2,
                i32::MIN + 2 <= x <= i32::MAX - 2,
                i32::MIN + 2 <= z <= i32::MAX - 2,
                self@.revision == old(self)@.revision,
                self@.solid_count == old(self)@.solid_count,
                self@.spawn == old(self)@.spawn,
                leaves_placed(start, self@.cells, x as int, base_y as int, z as int, dy as int, -2, -2),
            decreases 2 - dy,
        {
            let mut dx: i32 = -2;
            while dx <= 2
                invariant
                    self.sized(),
                    -2 <= dy <= 1,
                    -2 <= dx <= 3,
                    top == base_y + 4,
                    top > i32::MIN + 2,
                    i32::MIN + 2 <= x <= i32::MAX - 2,
                    i32::MIN + 2 <= z <= i32::MAX - 2,
                    self@.revision == old(self)@.revision,
                    self@.solid_count == old(self)@.solid_count,
                    self@.spawn == old(self)@.spawn,
                    leaves_placed(
                        start,
                        self@.cells,
                        x as int,
                        base_y as int,
                        z as int,
                        dy as int,
                        dx as int,
                        -2,
                    ),
                decreases 3 - dx,
            {
                let mut dz: i32 = -2;
                while dz <= 2
                    invariant
                        self.sized(),
                        -2 <= dy <= 1,
                        -2 <= dx <= 2,
                        -2 <= dz <= 3,
                        top == base_y + 4,
                        top > i32::MIN + 2,
                        i32::MIN + 2 <= x <= i32::MAX - 2,
                        i32::MIN + 2 <= z <= i32::MAX - 2,
                        self@.revision == old(self)@.revision,
                        self@.solid_count == old(self)@.solid_count,
                        self@.spawn == old(self)@.spawn,
                        leaves_placed(
                            start,
                            self@.cells,
                            x as int,
                            base_y as int,
                            z as int,
                            dy as int,
                            dx as int,
                            dz as int,
                        ),
                    decreases 3 - dz,
                {
                    let ghost prev = self@.cells;
                    self.place_leaf(x, top, z, dx, dy, dz);
                    assert(leaves_placed(
                        start,
                        self@.cells,
                        x as int,
                        base_y as int,
                        z as int,
                        dy as int,
                        dx as int,
                        dz + 1,
                    )) by {
                        assert forall|a: int, b: int, c: int| in_world(a, b, c) implies #[trigger] cell(
                            self@.cells,
                            a,
                            b,
                            c,
                        ) == if trunk_cell(x as int, base_y as int, z as int, a, b, c) {
                            WOOD
                        } else if crown_cell(x as int, base_y as int, z as int, a, b, c)
                            && crown_order_before(
                            b - (base_y + 3),
                            a - x,
                            c - z,
                            dy as int,
                            dx as int,
                            dz + 1,
                        ) && cell(start, a, b, c) == AIR {
                            LEAVES
                        } else {
                            cell(start, a, b, c)
                        } by {
                            // Names the cell, so that the invariant is read at it.
                            assert(cell(prev, a, b, c) == cell(prev, a, b, c));
                        }
                    }
                    dz = dz + 1;
                }
                dx = dx + 1;
            }
            dy = dy + 1;
        }
    }
}


impl World {
    /// Largest height difference between column `(x, z)`, whose surface is
    /// `height`, and the columns of the 3x3 square around it.
    fn spread(&self, x: i32, z: i32, height: i32) -> (r: i32)
        requires
            self.sized(),
            1 <= x <= 30,
            1 <= z <= 30,
            height == surface_in(self@.cells, x as int, z as int),
        ensures
            r == spread_upto(|p: int, q: int| surface_in(self@.cells, p, q), x as int, z as int, 9),
            0 <= r < 16,
    {
        let ghost surface = |p: int, q: int| surface_in(self@.cells, p, q);
        proof {
            assert forall|p: int, q: int| 0 <= #[trigger] surface(p, q) < 16 by {
                lemma_top_solid_range(self@.cells, p, q, 15);
            }
        }
        let mut difference: i32 = 0;
        let mut dx: i32 = -1;
        while dx <= 1
            invariant
                self.sized(),
                1 <= x <= 30,
                1 <= z <= 30,
                -1 <= dx <= 2,
                height == surface(x as int, z as int),
                surface == (|p: int, q: int| surface_in(self@.cells, p, q)),
                forall|p: int, q: int| 0 <= #[trigger] surface(p, q) < 16,
                difference == spread_upto(surface, x as int, z as int, (dx + 1) * 3),
            decreases 2 - dx,
        {
            let mut dz: i32 = -1;
            while dz <= 1
                invariant
                    self.sized(),
                    1 <= x <= 30,
                    1 <= z <= 30,
                    -1 <= dx <= 1,
                    -1 <= dz <= 2,
                    height == surface(x as int, z as int),
                    surface == (|p: int, q: int| surface_in(self@.cells, p, q)),
                    forall|p: int, q: int| 0 <= #[trigger] surface(p, q) < 16,
                    difference == spread_upto(surface, x as int, z as int, (dx + 1) * 3 + dz + 1),
                decreases 2 - dz,
            {
                let k = (dx + 1) * 3 + dz + 1;
                assert(square_offset(k as int) == (dx as int, dz as int));
                let h = self.surface_height(x + dx, z + dz);
                let d = abs_i32(h - height);
                difference = if difference < d {
                    d
                } else {
                    difference
                };
                dz = dz + 1;
            }
            dx = dx + 1;
        }
        proof {
            lemma_spread_bound(surface, x as int, z as int, 9);
        }
        difference
    }

    /// Finds a rather flat place for the spawn point: the column whose 3x3
    /// square differs least in height, where the height difference weighs
    /// far more than the distance to the world's centre.
    pub fn flat_spawn(&self) -> (r: (i32, i32))
        requires
            self.sized(),
        ensures
            is_flattest(|a: int, b: int| cells_score(self@.cells, a, b), r.0 as int, r.1 as int),
    {
        let center = (SIZE_X / 2, SIZE_Z / 2);
        let mut best = center;
        let mut best_score = i32::MAX;
        let mut x: i32 = 2;
        while x < SIZE_X - 2
            invariant
                self.sized(),
                2 <= x <= 30,
                center == (16i32, 16i32),
                best_so_far(self@.cells, best, best_score, x as int, 2),
            decreases 30 - x,
        {
            let mut z: i32 = 2;
            while z < SIZE_Z - 2
                invariant
                    self.sized(),
                    2 <= x < 30,
                    2 <= z <= 30,
                    center == (16i32, 16i32),
                    best_so_far(self@.cells, best, best_score, x as int, z as int),
                decreases 30 - z,
            {
                let height = self.surface_height(x, z);
                let difference = self.spread(x, z, height);
                // The height difference weighs far more than the distance to the centre.
                let score = difference * 6 + abs_i32(x - center.0) + abs_i32(z - center.1);
                assert(score == cells_score(self@.cells, x as int, z as int));
                if score < best_score {
                    best_score = score;
                    best = (x, z);
                }
                z = z + 1;
            }
            x = x + 1;
        }
        best
    }

    /// Generates a world from a terrain height map (`heights[z * SIZE_X + x]`
    /// is the height of the top block of column `(x, z)`): each column is
    /// filled up to its height, the spawn point is chosen on that terrain
    /// before any tree is planted, so that it never lies on a crown, and then
    /// the trees are planted, each on the terrain of its own column.
    pub fn generate(heights: &Vec<i32>) -> (w: World)
        requires
            heights@.len() == COLUMNS,
            forall|k: int|
                0 <= k < TREE_COUNT ==> heights@[column_index(tree_pos(k).0, tree_pos(k).1)]
                    <= i32::MAX - 5,
        ensures
            w.wf(),
            w@.revision == 0,
            forall|x: int, y: int, z: int|
                in_world(x, y, z) ==> #[trigger] w.block_at(x, y, z) == generated_block(
                    heights@,
                    TREE_COUNT as int,
                    x,
                    y,
                    z,
                ),
            is_flattest(
                |a: int, b: int|
                    spawn_score(|p: int, q: int| terrain_surface(heights@, p, q), a, b),
                w@.spawn.0 as int,
                w@.spawn.1 as int,
            ),
    {
        let mut world = World {
            blocks: vec![AIR; VOLUME],
            revision: 0,
            solid_count: 0,
            spawn: (SIZE_X / 2, SIZE_Z / 2),
        };
        let mut x: i32 = 0;
        while x < SIZE_X
            invariant
                world.sized(),
                world@.revision == 0,
                0 <= x <= 32,
                heights@.len() == COLUMNS,
                terrain_filled(world@.cells, heights@, x as int, 0, 0),
            decreases 32 - x,
        {
            let mut z: i32 = 0;
            while z < SIZE_Z
                invariant
                    world.sized(),
                    world@.revision == 0,
                    0 <= x < 32,
                    0 <= z <= 32,
                    heights@.len() == COLUMNS,
                    terrain_filled(world@.cells, heights@, x as int, z as int, 0),
                decreases 32 - z,
            {
                let top = heights[(z * SIZE_X + x) as usize];
                let mut y: i32 = 0;
                while y <= top && y < SIZE_Y
                    invariant
                        world.sized(),
                        world@.revision == 0,
                        0 <= x < 32,
                        0 <= z < 32,
                        0 <= y <= 16,
                        heights@.len() == COLUMNS,
                        top == heights@[column_index(x as int, z as int)],
                        y > 0 ==> y <= top + 1,
                        terrain_filled(world@.cells, heights@, x as int, z as int, y as int),
                    decreases 16 - y,
                {
                    let id = if y == top {
                        if top <= 3 {
                            SAND
                        } else {
                            GRASS
                        }
                    } else if y >= top - 2 {
                        DIRT
                    } else {
                        STONE
                    };
                    let ghost prev = world@.cells;
                    proof {
                        lemma_cell_index(x as int, y as int, z as int);
                    }
                    world.set_raw(x, y, z, id);
                    assert forall|a: int, b: int, c: int| in_world(a, b, c) implies #[trigger] cell(
                        world@.cells,
                        a,
                        b,
                        c,
                    ) == if before(a, c, x as int, z as int) || (a == x && c == z && b < y + 1) {
                        terrain_block(heights@[column_index(a, c)] as int, b)
                    } else {
                        AIR
                    } by {
                        lemma_cell_index(a, b, c);
                        assert(id == terrain_block(top as int, y as int));
                        assert(world@.cells == prev.update(cell_index(x as int, y as int, z as int), id));
                        if a == x && c == z && b == y {
                            assert(cell(world@.cells, a, b, c) == id);
                        } else {
                            assert(cell_index(a, b, c) != cell_index(x as int, y as int, z as int));
                            assert(cell(world@.cells, a, b, c) == cell(prev, a, b, c));
                        }
                    }
                    y = y + 1;
                }
                assert forall|a: int, b: int, c: int| in_world(a, b, c) implies #[trigger] cell(
                    world@.cells,
                    a,
                    b,
                    c,
                ) == if before(a, c, x as int, z + 1) {
                    terrain_block(heights@[column_index(a, c)] as int, b)
                } else {
                    AIR
                } by {
                    // Names the cell, so that the invariant is read at it.
                    assert(cell(world@.cells, a, b, c) == cell(world@.cells, a, b, c));
                }
                z = z + 1;
            }
            assert forall|a: int, b: int, c: int| in_world(a, b, c) implies #[trigger] cell(
                world@.cells,
                a,
                b,
                c,
            ) == if before(a, c, x + 1, 0) {
                terrain_block(heights@[column_index(a, c)] as int, b)
            } else {
                AIR
            } by {
                // Names the cell, so that the invariant is read at it.
                assert(cell(world@.cells, a, b, c) == cell(world@.cells, a, b, c));
            }
            x = x + 1;
        }
        let ghost terrain = world@.cells;
        world.spawn = world.flat_spawn();
        proof {
            let s1 = |p: int, q: int| surface_in(terrain, p, q);
            let s2 = |p: int, q: int| terrain_surface(heights@, p, q);
            assert forall|p: int, q: int| 0 <= p < 32 && 0 <= q < 32 implies #[trigger] s1(p, q)
                == s2(p, q) by {
                assert forall|w: int| 0 <= w < 16 implies #[trigger] cell(terrain, p, w, q)
                    == terrain_block(heights@[column_index(p, q)] as int, w) by {
                    assert(in_world(p, w, q));
                }
                lemma_terrain_surface(terrain, heights@, p, q, 15);
            }
            assert forall|a: int, b: int| spawn_candidate(a, b) implies #[trigger] cells_score(
                terrain,
                a,
                b,
            ) == spawn_score(s2, a, b) by {
                lemma_spread_agrees(s1, s2, a, b, 9);
                assert(s1(a, b) == s2(a, b));
            }
        }
        let ghost spawn0 = world@.spawn;
        let trees = tree_positions();
        let mut k: usize = 0;
        while k < trees.len()
            invariant
                world.sized(),
                world@.revision == 0,
                world@.spawn == spawn0,
                0 <= k <= TREE_COUNT,
                heights@.len() == COLUMNS,
                trees@.len() == TREE_COUNT,
                forall|j: int|
                    0 <= j < TREE_COUNT ==> trees@[j].0 == tree_pos(j).0 && trees@[j].1 == tree_pos(
                        j,
                    ).1,
                forall|j: int|
                    0 <= j < TREE_COUNT ==> heights@[column_index(tree_pos(j).0, tree_pos(j).1)]
                        <= i32::MAX - 5,
                forall|a: int, b: int, c: int|
                    in_world(a, b, c) ==> #[trigger] cell(world@.cells, a, b, c)
                        == generated_block(heights@, k as int, a, b, c),
            decreases TREE_COUNT - k,
        {
            let (tx, tz) = trees[k];
            assert(tx == tree_pos(k as int).0 && tz == tree_pos(k as int).1);
            assert(0 <= tx < 32 && 0 <= tz < 32);
            let ground = heights[(tz * SIZE_X + tx) as usize];
            let ghost prev = world@.cells;
            world.plant_tree(tx, ground + 1, tz);
            assert forall|a: int, b: int, c: int| in_world(a, b, c) implies #[trigger] cell(
                world@.cells,
                a,
                b,
                c,
            ) == generated_block(heights@, k + 1, a, b, c) by {
                assert(cell(prev, a, b, c) == generated_block(heights@, k as int, a, b, c));
            }
            k = k + 1;
        }
        world.recount();
        assert forall|x: int, y: int, z: int| in_world(x, y, z) implies #[trigger] world.block_at(
            x,
            y,
            z,
        ) == generated_block(heights@, TREE_COUNT as int, x, y, z) by {
            assert(cell(world@.cells, x, y, z) == generated_block(heights@, TREE_COUNT as int, x, y, z));
        }
        proof {
            let t = |a: int, b: int| spawn_score(|p: int, q: int| terrain_surface(heights@, p, q), a, b);
            let c = |a: int, b: int| cells_score(terrain, a, b);
            assert(is_flattest(c, spawn0.0 as int, spawn0.1 as int));
            assert forall|a: int, b: int| spawn_candidate(a, b) implies #[trigger] t(a, b) == c(a, b) by {
                assert(cells_score(terrain, a, b) == spawn_score(
                    |p: int, q: int| terrain_surface(heights@, p, q),
                    a,
                    b,
                ));
            }
            assert(t(spawn0.0 as int, spawn0.1 as int) == c(spawn0.0 as int, spawn0.1 as int));
            assert forall|a: int, b: int| spawn_candidate(a, b) implies t(spawn0.0 as int, spawn0.1 as int) <= #[trigger] t(a, b) by {
                assert(c(spawn0.0 as int, spawn0.1 as int) <= c(a, b));
            }
            assert forall|a: int, b: int| spawn_candidate(a, b) && before(a, b, spawn0.0 as int, spawn0.1 as int) implies t(spawn0.0 as int, spawn0.1 as int) < #[trigger] t(a, b) by {
                assert(c(spawn0.0 as int, spawn0.1 as int) < c(a, b));
            }
        }
        world
    }
}


/// Number of face directions of a block.
pub const FACE_COUNT: usize = 6;

/// The d-th face direction: up, down, then +x, -x, +z, -z.
pub open spec fn face_dir(d: int) -> (int, int, int) {
    if d == 0 {
        (0, 1, 0)
    } else if d == 1 {
        (0, -1, 0)
    } else if d == 2 {
        (1, 0, 0)
    } else if d == 3 {
        (-1, 0, 0)
    } else if d == 4 {
        (0, 0, 1)
    } else {
        (0, 0, -1)
    }
}

/// The d-th face direction: up, down, then +x, -x, +z, -z.
pub fn face_direction(d: usize) -> (r: (i32, i32, i32))
    requires
        d < FACE_COUNT,
    ensures
        r.0 == face_dir(d as int).0,
        r.1 == face_dir(d as int).1,
        r.2 == face_dir(d as int).2,
{
    if d == 0 {
        (0, 1, 0)
    } else if d == 1 {
        (0, -1, 0)
    } else if d == 2 {
        (1, 0, 0)
    } else if d == 3 {
        (-1, 0, 0)
    } else if d == 4 {
        (0, 0, 1)
    } else {
        (0, 0, -1)
    }
}

/// One visible face of a block: the block's coordinate and the face's direction.
#[derive(Clone, Copy, Debug)]
pub struct Face {
    pub x: i32,
    pub y: i32,
    pub z: i32,
    pub dir: usize,
}

pub open spec fn face_at(x: int, y: int, z: int, d: int) -> Face {
    Face { x: x as i32, y: y as i32, z: z as i32, dir: d as usize }
}

/// Whether face `d` of the block at `(x, y, z)` is drawn: the block is
/// solid and its neighbour in that direction reads as air.
pub open spec fn exposed(cells: Seq<u8>, x: int, y: int, z: int, d: int) -> bool {
    let (dx, dy, dz) = face_dir(d);
    block_in(cells, x, y, z) != AIR && block_in(cells, x + dx, y + dy, z + dz) == AIR
}

/// The drawn faces of block `(x, y, z)` among its first `n` directions, in order.
pub open spec fn block_faces(cells: Seq<u8>, x: int, y: int, z: int, n: int) -> Seq<Face>
    decreases n,
{
    if n <= 0 {
        Seq::empty()
    } else {
        block_faces(cells, x, y, z, n - 1) + if exposed(cells, x, y, z, n - 1) {
            seq![face_at(x, y, z, n - 1)]
        } else {
            Seq::empty()
        }
    }
}

/// The drawn faces of the first `n` blocks of row `(x, y)`, z ascending.
pub open spec fn row_faces(cells: Seq<u8>, x: int, y: int, n: int) -> Seq<Face>
    decreases n,
{
    if n <= 0 {
        Seq::empty()
    } else {
        row_faces(cells, x, y, n - 1) + block_faces(cells, x, y, n - 1, 6)
    }
}

/// The drawn faces of the first `n` rows of slice `x`, y ascending.
pub open spec fn slice_faces(cells: Seq<u8>, x: int, n: int) -> Seq<Face>
    decreases n,
{
    if n <= 0 {
        Seq::empty()
    } else {
        slice_faces(cells, x, n - 1) + row_faces(cells, x, n - 1, 32)
    }
}

/// The drawn faces of the first `n` slices of the world, x ascending.
pub open spec fn world_faces(cells: Seq<u8>, n: int) -> Seq<Face>
    decreases n,
{
    if n <= 0 {
        Seq::empty()
    } else {
        world_faces(cells, n - 1) + slice_faces(cells, n - 1, 16)
    }
}

/// The block that a click on a hit face places a new block in: the cell in
/// front of that face.
#[derive(Clone, Copy, Debug)]
pub struct RayHit {
    /// The block that was hit.
    pub block: [i32; 3],
    /// The face through which the ray entered it (all zero when the ray
    /// started inside it).
    pub face: [i32; 3],
}

impl RayHit {
    /// Whether the cell in front of the hit face has coordinates that fit an `i32`.
    pub open spec fn target_fits(&self) -> bool {
        &&& i32::MIN <= self.block[0] + self.face[0] <= i32::MAX
        &&& i32::MIN <= self.block[1] + self.face[1] <= i32::MAX
        &&& i32::MIN <= self.block[2] + self.face[2] <= i32::MAX
    }

    /// The cell in front of the hit face, where a placed block goes.
    pub fn place_target(&self) -> (r: [i32; 3])
        requires
            self.target_fits(),
        ensures
            r[0] == self.block[0] + self.face[0],
            r[1] == self.block[1] + self.face[1],
            r[2] == self.block[2] + self.face[2],
    {
        [self.block[0] + self.face[0], self.block[1] + self.face[1], self.block[2] + self.face[2]]
    }
}

/// Whether a ray walking through the cells has left the box around the
/// world for good (one cell of margin on every side), so that it can stop.
pub fn ray_left_world(x: i32, y: i32, z: i32) -> (r: bool)
    ensures
        r == (x < -1 || x > 33 || z < -1 || z > 33 || y < -1 || y > 17),
{
    x < -1 || x > SIZE_X + 1 || z < -1 || z > SIZE_Z + 1 || y < -1 || y > SIZE_Y + 1
}

/// The colour variation of a block, a hash of its coordinate in 0..=255, so
/// that blocks of the same kind do not look all the same.
pub open spec fn tint_hash(x: i32, y: i32, z: i32) -> u32 {
    let h0 = (x.wrapping_mul(374_761_393) ^ y.wrapping_mul(668_265_263) ^ z.wrapping_mul(
        1_274_126_177,
    )) as u32;
    let h1 = h0 ^ (h0 >> 13u32);
    let h2 = h1.wrapping_mul(1_274_126_177);
    (h2 >> 9u32) & 0xFFu32
}

/// The colour variation of a block, in 0..=255.
pub fn block_tint_level(x: i32, y: i32, z: i32) -> (r: u32)
    ensures
        r == tint_hash(x, y, z),
        r <= 255,
{
    let mut h = (x.wrapping_mul(374_761_393) ^ y.wrapping_mul(668_265_263) ^ z.wrapping_mul(
        1_274_126_177,
    )) as u32;
    h ^= h >> 13;
    h = h.wrapping_mul(1_274_126_177);
    let r = (h >> 9) & 0xFF;
    assert(r <= 255) by (bit_vector)
        requires
            r == (h >> 9u32) & 0xFFu32,
    ;
    r
}

impl World {
    /// Lists, for face culling, the faces that are drawn: those of solid
    /// blocks whose neighbour reads as air. The order is that of the blocks
    /// (x, then y, then z ascending), each block's faces in the order of
    /// `face_direction`.
    pub fn visible_faces(&self) -> (faces: Vec<Face>)
        requires
            self.sized(),
        ensures
            faces@ == world_faces(self@.cells, 32),
    {
        let mut faces: Vec<Face> = Vec::new();
        let mut x: i32 = 0;
        while x < SIZE_X
            invariant
                self.sized(),
                0 <= x <= 32,
                faces@ == world_faces(self@.cells, x as int),
            decreases 32 - x,
        {
            let mut y: i32 = 0;
            while y < SIZE_Y
                invariant
                    self.sized(),
                    0 <= x < 32,
                    0 <= y <= 16,
                    faces@ == world_faces(self@.cells, x as int) + slice_faces(self@.cells, x as int, y as int),
                decreases 16 - y,
            {
                let mut z: i32 = 0;
                while z < SIZE_Z
                    invariant
                        self.sized(),
                        0 <= x < 32,
                        0 <= y < 16,
                        0 <= z <= 32,
                        faces@ == world_faces(self@.cells, x as int) + slice_faces(
                            self@.cells,
                            x as int,
                            y as int,
                        ) + row_faces(self@.cells, x as int, y as int, z as int),
                    decreases 32 - z,
                {
                    let ghost start = faces@;
                    let id = self.get(x, y, z);
                    if id != AIR {
                        let mut d: usize = 0;
                        while d < FACE_COUNT
                            invariant
                                self.sized(),
                                0 <= x < 32,
                                0 <= y < 16,
                                0 <= z < 32,
                                0 <= d <= 6,
                                id == self.block_at(x as int, y as int, z as int),
                                id != AIR,
                                faces@ == start + block_faces(
                                    self@.cells,
                                    x as int,
                                    y as int,
                                    z as int,
                                    d as int,
                                ),
                            decreases 6 - d,
                        {
                            let (dx, dy, dz) = face_direction(d);
                            let neighbor = self.get(x + dx, y + dy, z + dz);
                            if neighbor == AIR {
                                faces.push(Face { x, y, z, dir: d });
                            }
                            proof {
                                assert(face_at(x as int, y as int, z as int, d as int) == Face {
                                    x,
                                    y,
                                    z,
                                    dir: d,
                                });
                            }
                            assert(faces@ =~= start + block_faces(
                                self@.cells,
                                x as int,
                                y as int,
                                z as int,
                                d + 1,
                            ));
                            d = d + 1;
                        }
                    } else {
                        proof {
                            lemma_no_faces_of_air(self@.cells, x as int, y as int, z as int, 6);
                        }
                    }
                    assert(faces@ =~= world_faces(self@.cells, x as int) + slice_faces(
                        self@.cells,
                        x as int,
                        y as int,
                    ) + row_faces(self@.cells, x as int, y as int, z + 1));
                    z = z + 1;
                }
                assert(faces@ =~= world_faces(self@.cells, x as int) + slice_faces(
                    self@.cells,
                    x as int,
                    y + 1,
                ));
                y = y + 1;
            }
            assert(faces@ =~= world_faces(self@.cells, x + 1));
            x = x + 1;
        }
        faces
    }

    /// Whether any cell of the box `[x0, x1] x [y0, y1] x [z0, z1]` (bounds
    /// included) reads as solid; the player's collision test.
    pub fn any_solid_in(&self, x0: i32, x1: i32, y0: i32, y1: i32, z0: i32, z1: i32) -> (r: bool)
        requires
            self.sized(),
        ensures
            r == exists|a: int, b: int, c: int|
                x0 <= a <= x1 && y0 <= b <= y1 && z0 <= c <= z1 && #[trigger] block_in(
                    self@.cells,
                    a,
                    b,
                    c,
                ) != AIR,
    {
        let mut x: i64 = x0 as i64;
        while x <= x1 as i64
            invariant
                self.sized(),
                x0 <= x,
                x <= x1 + 1 || x == x0,
                forall|a: int, b: int, c: int|
                    x0 <= a < x && y0 <= b <= y1 && z0 <= c <= z1 ==> #[trigger] block_in(
                        self@.cells,
                        a,
                        b,
                        c,
                    ) == AIR,
            decreases x1 + 1 - x,
        {
            let mut y: i64 = y0 as i64;
            while y <= y1 as i64
                invariant
                    self.sized(),
                    x0 <= x <= x1,
                    y0 <= y,
                    y <= y1 + 1 || y == y0,
                    forall|a: int, b: int, c: int|
                        x0 <= a < x && y0 <= b <= y1 && z0 <= c <= z1 ==> #[trigger] block_in(
                            self@.cells,
                            a,
                            b,
                            c,
                        ) == AIR,
                    forall|b: int, c: int|
                        y0 <= b < y && z0 <= c <= z1 ==> #[trigger] block_in(self@.cells, x as int, b, c)
                            == AIR,
                decreases y1 + 1 - y,
            {
                let mut z: i64 = z0 as i64;
                while z <= z1 as i64
                    invariant
                        self.sized(),
                        x0 <= x <= x1,
                        y0 <= y <= y1,
                        z0 <= z,
                        z <= z1 + 1 || z == z0,
                        forall|a: int, b: int, c: int|
                            x0 <= a < x && y0 <= b <= y1 && z0 <= c <= z1 ==> #[trigger] block_in(
                                self@.cells,
                                a,
                                b,
                                c,
                            ) == AIR,
                        forall|b: int, c: int|
                            y0 <= b < y && z0 <= c <= z1 ==> #[trigger] block_in(
                                self@.cells,
                                x as int,
                                b,
                                c,
                            ) == AIR,
                        forall|c: int|
                            z0 <= c < z ==> #[trigger] block_in(self@.cells, x as int, y as int, c)
                                == AIR,
                    decreases z1 + 1 - z,
                {
                    if self.is_solid(x as i32, y as i32, z as i32) {
                        return true;
                    }
                    z = z + 1;
                }
                y = y + 1;
            }
            x = x + 1;
        }
        false
    }

    /// Places a block in front of the hit face, of the same kind as the block
    /// that was hit (a read of air counts as grass); returns whether the world
    /// changed.
    pub fn place_against(&mut self, hit: RayHit) -> (changed: bool)
        requires
            old(self).wf(),
            hit.target_fits(),
            old(self).changes(
                hit.block[0] + hit.face[0],
                hit.block[1] + hit.face[1],
                hit.block[2] + hit.face[2],
                placed_kind(old(self).block_at(hit.block[0] as int, hit.block[1] as int, hit.block[2] as int)),
            ) ==> old(self)@.revision < u64::MAX,
        ensures
            ({
                let (tx, ty, tz) = (
                    hit.block[0] + hit.face[0],
                    hit.block[1] + hit.face[1],
                    hit.block[2] + hit.face[2],
                );
                let kind = placed_kind(
                    old(self).block_at(hit.block[0] as int, hit.block[1] as int, hit.block[2] as int),
                );
                &&& final(self).wf()
                &&& changed == old(self).changes(tx, ty, tz, kind)
                &&& changed ==> final(self)@.cells == old(self)@.cells.update(
                    cell_index(tx, ty, tz),
                    kind,
                )
                &&& !changed ==> final(self)@.cells == old(self)@.cells
                &&& final(self)@.revision == old(self)@.revision + if changed {
                    1int
                } else {
                    0int
                }
                &&& final(self)@.spawn == old(self)@.spawn
            }),
    {
        let target = hit.place_target();
        let hit_kind = self.get(hit.block[0], hit.block[1], hit.block[2]);
        let block_id = if hit_kind < 1 {
            1
        } else {
            hit_kind
        };
        self.set(target[0], target[1], target[2], block_id)
    }
}

/// The kind of block placed against a block of kind `hit`: the same kind,
/// or grass for air.
pub open spec fn placed_kind(hit: u8) -> u8 {
    if hit < 1 {
        1
    } else {
        hit
    }
}

proof fn lemma_no_faces_of_air(cells: Seq<u8>, x: int, y: int, z: int, n: int)
    requires
        block_in(cells, x, y, z) == AIR,
    ensures
        block_faces(cells, x, y, z, n) == Seq::<Face>::empty(),
    decreases n,
{
    if n > 0 {
        lemma_no_faces_of_air(cells, x, y, z, n - 1);
        assert(block_faces(cells, x, y, z, n) =~= Seq::<Face>::empty());
    }
}


/// Whether `f` is a face that is drawn: of a block inside the world, in one
/// of the six directions, with a solid block and air in front of it.
pub open spec fn drawn(cells: Seq<u8>, f: Face) -> bool {
    &&& in_world(f.x as int, f.y as int, f.z as int)
    &&& f.dir < 6
    &&& exposed(cells, f.x as int, f.y as int, f.z as int, f.dir as int)
}

proof fn lemma_seq_add_all<A>(a: Seq<A>, b: Seq<A>, p: spec_fn(A) -> bool)
    requires
        forall|i: int| 0 <= i < a.len() ==> #[trigger] p(a[i]),
        forall|i: int| 0 <= i < b.len() ==> #[trigger] p(b[i]),
    ensures
        forall|i: int| 0 <= i < (a + b).len() ==> #[trigger] p((a + b)[i]),
{
    assert forall|i: int| 0 <= i < (a + b).len() implies #[trigger] p((a + b)[i]) by {
        if i < a.len() {
            assert((a + b)[i] == a[i]);
        } else {
            assert((a + b)[i] == b[i - a.len()]);
        }
    }
}

proof fn lemma_seq_add_contains<A>(a: Seq<A>, b: Seq<A>, v: A)
    requires
        a.contains(v) || b.contains(v),
    ensures
        (a + b).contains(v),
{
    if a.contains(v) {
        let j = choose|j: int| 0 <= j < a.len() && a[j] == v;
        assert((a + b)[j] == v);
    } else {
        let j = choose|j: int| 0 <= j < b.len() && b[j] == v;
        assert((a + b)[a.len() + j] == v);
    }
}

proof fn lemma_block_faces_sound(cells: Seq<u8>, x: int, y: int, z: int, n: int)
    requires
        in_world(x, y, z),
        n <= 6,
    ensures
        forall|i: int|
            0 <= i < block_faces(cells, x, y, z, n).len() ==> #[trigger] drawn(
                cells,
                block_faces(cells, x, y, z, n)[i],
            ),
    decreases n,
{
    if n > 0 {
        lemma_block_faces_sound(cells, x, y, z, n - 1);
        let tail = if exposed(cells, x, y, z, n - 1) {
            seq![face_at(x, y, z, n - 1)]
        } else {
            Seq::<Face>::empty()
        };
        lemma_seq_add_all(block_faces(cells, x, y, z, n - 1), tail, |f: Face| drawn(cells, f));
    }
}

proof fn lemma_row_faces_sound(cells: Seq<u8>, x: int, y: int, n: int)
    requires
        0 <= x < 32,
        0 <= y < 16,
        n <= 32,
    ensures
        forall|i: int|
            0 <= i < row_faces(cells, x, y, n).len() ==> #[trigger] drawn(
                cells,
                row_faces(cells, x, y, n)[i],
            ),
    decreases n,
{
    if n > 0 {
        lemma_row_faces_sound(cells, x, y, n - 1);
        lemma_block_faces_sound(cells, x, y, n - 1, 6);
        lemma_seq_add_all(
            row_faces(cells, x, y, n - 1),
            block_faces(cells, x, y, n - 1, 6),
            |f: Face| drawn(cells, f),
        );
    }
}

proof fn lemma_slice_faces_sound(cells: Seq<u8>, x: int, n: int)
    requires
        0 <= x < 32,
        n <= 16,
    ensures
        forall|i: int|
            0 <= i < slice_faces(cells, x, n).len() ==> #[trigger] drawn(
                cells,
                slice_faces(cells, x, n)[i],
            ),
    decreases n,
{
    if n > 0 {
        lemma_slice_faces_sound(cells, x, n - 1);
        lemma_row_faces_sound(cells, x, n - 1, 32);
        lemma_seq_add_all(
            slice_faces(cells, x, n - 1),
            row_faces(cells, x, n - 1, 32),
            |f: Face| drawn(cells, f),
        );
    }
}

proof fn lemma_world_faces_sound(cells: Seq<u8>, n: int)
    requires
        n <= 32,
    ensures
        forall|i: int|
            0 <= i < world_faces(cells, n).len() ==> #[trigger] drawn(cells, world_faces(cells, n)[i]),
    decreases n,
{
    if n > 0 {
        lemma_world_faces_sound(cells, n - 1);
        lemma_slice_faces_sound(cells, n - 1, 16);
        lemma_seq_add_all(
            world_faces(cells, n - 1),
            slice_faces(cells, n - 1, 16),
            |f: Face| drawn(cells, f),
        );
    }
}

proof fn lemma_block_faces_complete(cells: Seq<u8>, x: int, y: int, z: int, n: int, d: int)
    requires
        0 <= d < n,
        exposed(cells, x, y, z, d),
    ensures
        block_faces(cells, x, y, z, n).contains(face_at(x, y, z, d)),
    decreases n,
{
    let tail = if exposed(cells, x, y, z, n - 1) {
        seq![face_at(x, y, z, n - 1)]
    } else {
        Seq::<Face>::empty()
    };
    if d < n - 1 {
        lemma_block_faces_complete(cells, x, y, z, n - 1, d);
    } else {
        assert(tail[0] == face_at(x, y, z, d));
    }
    lemma_seq_add_contains(block_faces(cells, x, y, z, n - 1), tail, face_at(x, y, z, d));
}

proof fn lemma_row_faces_complete(cells: Seq<u8>, x: int, y: int, z: int, n: int, d: int)
    requires
        0 <= z < n,
        0 <= d < 6,
        exposed(cells, x, y, z, d),
    ensures
        row_faces(cells, x, y, n).contains(face_at(x, y, z, d)),
    decreases n,
{
    if z < n - 1 {
        lemma_row_faces_complete(cells, x, y, z, n - 1, d);
    } else {
        lemma_block_faces_complete(cells, x, y, z, 6, d);
    }
    lemma_seq_add_contains(
        row_faces(cells, x, y, n - 1),
        block_faces(cells, x, y, n - 1, 6),
        face_at(x, y, z, d),
    );
}

proof fn lemma_slice_faces_complete(cells: Seq<u8>, x: int, y: int, z: int, n: int, d: int)
    requires
        0 <= y < n,
        0 <= z < 32,
        0 <= d < 6,
        exposed(cells, x, y, z, d),
    ensures
        slice_faces(cells, x, n).contains(face_at(x, y, z, d)),
    decreases n,
{
    if y < n - 1 {
        lemma_slice_faces_complete(cells, x, y, z, n - 1, d);
    } else {
        lemma_row_faces_complete(cells, x, y, z, 32, d);
    }
    lemma_seq_add_contains(
        slice_faces(cells, x, n - 1),
        row_faces(cells, x, n - 1, 32),
        face_at(x, y, z, d),
    );
}

proof fn lemma_world_faces_complete(cells: Seq<u8>, x: int, y: int, z: int, n: int, d: int)
    requires
        0 <= x < n,
        0 <= y < 16,
        0 <= z < 32,
        0 <= d < 6,
        exposed(cells, x, y, z, d),
    ensures
        world_faces(cells, n).contains(face_at(x, y, z, d)),
    decreases n,
{
    if x < n - 1 {
        lemma_world_faces_complete(cells, x, y, z, n - 1, d);
    } else {
        lemma_slice_faces_complete(cells, x, y, z, 16, d);
    }
    lemma_seq_add_contains(
        world_faces(cells, n - 1),
        slice_faces(cells, n - 1, 16),
        face_at(x, y, z, d),
    );
}

/// Face culling: the mesh has a face exactly where a solid block of the
/// world borders on air. Every listed face is of a block inside the world,
/// solid, with air in front of it; and every such face is listed.
pub proof fn law_faces_drawn_exactly_where_air_borders(cells: Seq<u8>)
    ensures
        forall|i: int|
            0 <= i < world_faces(cells, 32).len() ==> #[trigger] drawn(cells, world_faces(cells, 32)[i]),
        forall|x: int, y: int, z: int, d: int|
            in_world(x, y, z) && 0 <= d < 6 && #[trigger] exposed(cells, x, y, z, d) ==> world_faces(
                cells,
                32,
            ).contains(face_at(x, y, z, d)),
{
    lemma_world_faces_sound(cells, 32);
    assert forall|x: int, y: int, z: int, d: int|
        in_world(x, y, z) && 0 <= d < 6 && #[trigger] exposed(cells, x, y, z, d) implies world_faces(
        cells,
        32,
    ).contains(face_at(x, y, z, d)) by {
        lemma_world_faces_complete(cells, x, y, z, 32, d);
    }
}

/// A read gives back what a write wrote, and a write inside the world
/// leaves every other coordinate as it was.
pub proof fn law_read_after_write(w: World, x: int, y: int, z: int, id: u8, a: int, b: int, c: int)
    requires
        w.sized(),
        in_world(x, y, z),
    ensures
        block_in(w@.cells.update(cell_index(x, y, z), id), x, y, z) == id,
        (a, b, c) != (x, y, z) ==> block_in(w@.cells.update(cell_index(x, y, z), id), a, b, c)
            == w.block_at(a, b, c),
{
    lemma_cell_index(x, y, z);
}

/// Writing the block that is already there changes nothing: so the second
/// of two equal writes reports no change and leaves the revision as it is.
pub proof fn law_second_equal_write_changes_nothing(w: World, x: int, y: int, z: int, id: u8)
    requires
        w.sized(),
        in_world(x, y, z),
    ensures
        !changes_cells(w@.cells.update(cell_index(x, y, z), id), x, y, z, id),
{
    lemma_cell_index(x, y, z);
}

/// Whether a write of `id` at `(x, y, z)` changes a block array.
pub open spec fn changes_cells(cells: Seq<u8>, x: int, y: int, z: int, id: u8) -> bool {
    in_world(x, y, z) && cells[cell_index(x, y, z)] != id
}


/// Planting a tree puts wood on its trunk, and changes any other cell only
/// from air to leaves, and only within two blocks of the trunk sideways and
/// from one block above the trunk's foot to one block above its top.
pub proof fn law_planting_only_fills_air_round_the_trunk(
    prev: u8,
    tx: int,
    base: int,
    tz: int,
    x: int,
    y: int,
    z: int,
)
    ensures
        trunk_cell(tx, base, tz, x, y, z) ==> planted(prev, tx, base, tz, x, y, z) == WOOD,
        !trunk_cell(tx, base, tz, x, y, z) && planted(prev, tx, base, tz, x, y, z) != prev ==> {
            &&& prev == AIR
            &&& planted(prev, tx, base, tz, x, y, z) == LEAVES
            &&& abs(x - tx) <= 2
            &&& abs(z - tz) <= 2
            &&& base + 1 <= y <= base + 4
        },
{
}


/// The place of a face in the order in which `visible_faces` lists faces:
/// by block (x, then y, then z), then by direction.
pub open spec fn face_key(f: Face) -> int {
    ((f.x * 16 + f.y) * 32 + f.z) * 6 + f.dir
}

/// The faces of `s` come in strictly increasing order of `face_key`, with
/// keys from `lo` up to `hi`.
spec fn keyed_in(s: Seq<Face>, lo: int, hi: int) -> bool {
    &&& forall|i: int| 0 <= i < s.len() ==> lo <= #[trigger] face_key(s[i]) < hi
    &&& forall|i: int, j: int|
        0 <= i < j < s.len() ==> #[trigger] face_key(s[i]) < #[trigger] face_key(s[j])
}

proof fn lemma_keyed_add(a: Seq<Face>, b: Seq<Face>, lo: int, mid: int, hi: int)
    requires
        lo <= mid <= hi,
        keyed_in(a, lo, mid),
        keyed_in(b, mid, hi),
    ensures
        keyed_in(a + b, lo, hi),
{
    let s = a + b;
    assert forall|i: int| 0 <= i < s.len() implies lo <= #[trigger] face_key(s[i]) < hi by {
        if i < a.len() {
            assert(s[i] == a[i]);
        } else {
            assert(s[i] == b[i - a.len()]);
        }
    }
    assert forall|i: int, j: int| 0 <= i < j < s.len() implies #[trigger] face_key(s[i])
        < #[trigger] face_key(s[j]) by {
        if j < a.len() {
            assert(s[i] == a[i] && s[j] == a[j]);
        } else if i >= a.len() {
            assert(s[i] == b[i - a.len()] && s[j] == b[j - a.len()]);
        } else {
            assert(s[i] == a[i] && s[j] == b[j - a.len()]);
        }
    }
}

proof fn lemma_keyed_empty(lo: int, hi: int)
    ensures
        keyed_in(Seq::<Face>::empty(), lo, hi),
{
}

proof fn lemma_block_faces_keyed(cells: Seq<u8>, x: int, y: int, z: int, n: int)
    requires
        in_world(x, y, z),
        0 <= n <= 6,
    ensures
        keyed_in(
            block_faces(cells, x, y, z, n),
            ((x * 16 + y) * 32 + z) * 6,
            ((x * 16 + y) * 32 + z) * 6 + n,
        ),
    decreases n,
{
    let base = ((x * 16 + y) * 32 + z) * 6;
    if n > 0 {
        lemma_block_faces_keyed(cells, x, y, z, n - 1);
        let tail = if exposed(cells, x, y, z, n - 1) {
            seq![face_at(x, y, z, n - 1)]
        } else {
            Seq::<Face>::empty()
        };
        assert(face_key(face_at(x, y, z, n - 1)) == base + n - 1);
        assert(keyed_in(tail, base + n - 1, base + n));
        lemma_keyed_add(block_faces(cells, x, y, z, n - 1), tail, base, base + n - 1, base + n);
    }
}

proof fn lemma_row_faces_keyed(cells: Seq<u8>, x: int, y: int, n: int)
    requires
        0 <= x < 32,
        0 <= y < 16,
        0 <= n <= 32,
    ensures
        keyed_in(row_faces(cells, x, y, n), ((x * 16 + y) * 32) * 6, ((x * 16 + y) * 32 + n) * 6),
    decreases n,
{
    if n > 0 {
        lemma_row_faces_keyed(cells, x, y, n - 1);
        lemma_block_faces_keyed(cells, x, y, n - 1, 6);
        lemma_keyed_add(
            row_faces(cells, x, y, n - 1),
            block_faces(cells, x, y, n - 1, 6),
            ((x * 16 + y) * 32) * 6,
            ((x * 16 + y) * 32 + n - 1) * 6,
            ((x * 16 + y) * 32 + n) * 6,
        );
    }
}

proof fn lemma_slice_faces_keyed(cells: Seq<u8>, x: int, n: int)
    requires
        0 <= x < 32,
        0 <= n <= 16,
    ensures
        keyed_in(slice_faces(cells, x, n), (x * 16 * 32) * 6, ((x * 16 + n) * 32) * 6),
    decreases n,
{
    if n > 0 {
        lemma_slice_faces_keyed(cells, x, n - 1);
        lemma_row_faces_keyed(cells, x, n - 1, 32);
        lemma_keyed_add(
            slice_faces(cells, x, n - 1),
            row_faces(cells, x, n - 1, 32),
            (x * 16 * 32) * 6,
            ((x * 16 + n - 1) * 32) * 6,
            ((x * 16 + n) * 32) * 6,
        );
    }
}

proof fn lemma_world_faces_keyed(cells: Seq<u8>, n: int)
    requires
        0 <= n <= 32,
    ensures
        keyed_in(world_faces(cells, n), 0, (n * 16 * 32) * 6),
    decreases n,
{
    if n > 0 {
        lemma_world_faces_keyed(cells, n - 1);
        lemma_slice_faces_keyed(cells, n - 1, 16);
        lemma_keyed_add(
            world_faces(cells, n - 1),
            slice_faces(cells, n - 1, 16),
            0,
            ((n - 1) * 16 * 32) * 6,
            (n * 16 * 32) * 6,
        );
    }
}

/// The faces that are drawn, as a set.
pub open spec fn drawn_faces(cells: Seq<u8>) -> Set<Face> {
    Set::new(|f: Face| drawn(cells, f))
}

/// Face counting: the mesh lists each drawn face once (in strictly
/// increasing `face_key` order), so the number of faces listed is the number
/// of faces that are drawn.
pub proof fn law_each_drawn_face_listed_once(cells: Seq<u8>)
    ensures
        forall|i: int, j: int|
            0 <= i < j < world_faces(cells, 32).len() ==> face_key(
                #[trigger] world_faces(cells, 32)[i],
            ) < face_key(#[trigger] world_faces(cells, 32)[j]),
        world_faces(cells, 32).no_duplicates(),
        world_faces(cells, 32).to_set() == drawn_faces(cells),
        drawn_faces(cells).finite(),
        world_faces(cells, 32).len() == drawn_faces(cells).len(),
{
    let s = world_faces(cells, 32);
    lemma_world_faces_keyed(cells, 32);
    assert forall|i: int, j: int| 0 <= i < s.len() && 0 <= j < s.len() && i != j implies s[i]
        != s[j] by {
        if i < j {
            assert(face_key(s[i]) < face_key(s[j]));
        } else {
            assert(face_key(s[j]) < face_key(s[i]));
        }
    }
    law_faces_drawn_exactly_where_air_borders(cells);
    assert forall|f: Face| s.to_set().contains(f) <==> drawn_faces(cells).contains(f) by {
        if s.contains(f) {
            let i = choose|i: int| 0 <= i < s.len() && s[i] == f;
            assert(drawn(cells, s[i]));
        }
        if drawn(cells, f) {
            assert(exposed(cells, f.x as int, f.y as int, f.z as int, f.dir as int));
            assert(face_at(f.x as int, f.y as int, f.z as int, f.dir as int) == f);
        }
    }
    assert(s.to_set() =~= drawn_faces(cells));
    vstd::seq_lib::seq_to_set_is_finite(s);
    s.unique_seq_to_set();
}


/// Whether `(x, y, z)` is an air cell inside the world with air on all six sides.
pub open spec fn in_open_air(cells: Seq<u8>, x: int, y: int, z: int) -> bool {
    &&& in_world(x, y, z)
    &&& cell(cells, x, y, z) == AIR
    &&& block_in(cells, x, y + 1, z) == AIR
    &&& block_in(cells, x, y - 1, z) == AIR
    &&& block_in(cells, x + 1, y, z) == AIR
    &&& block_in(cells, x - 1, y, z) == AIR
    &&& block_in(cells, x, y, z + 1) == AIR
    &&& block_in(cells, x, y, z - 1) == AIR
}

/// The six faces of block `(x, y, z)`, in direction order.
pub open spec fn all_faces_of(x: int, y: int, z: int) -> Seq<Face> {
    seq![
        face_at(x, y, z, 0),
        face_at(x, y, z, 1),
        face_at(x, y, z, 2),
        face_at(x, y, z, 3),
        face_at(x, y, z, 4),
        face_at(x, y, z, 5),
    ]
}

proof fn lemma_block_in_update(cells: Seq<u8>, x: int, y: int, z: int, id: u8, a: int, b: int, c: int)
    requires
        cells.len() == VOLUME,
        in_world(x, y, z),
    ensures
        block_in(cells.update(cell_index(x, y, z), id), a, b, c) == if a == x && b == y && c == z {
            id
        } else {
            block_in(cells, a, b, c)
        },
{
    lemma_cell_index(x, y, z);
    if in_world(a, b, c) {
        lemma_cell_index(a, b, c);
    }
}

/// A solid block put into air with air on all six sides adds exactly its six
/// faces to the mesh and hides no other face.
pub proof fn law_block_in_open_air_adds_six_faces(cells: Seq<u8>, x: int, y: int, z: int, id: u8)
    requires
        cells.len() == VOLUME,
        in_open_air(cells, x, y, z),
        id != AIR,
    ensures
        drawn_faces(cells.update(cell_index(x, y, z), id)) == drawn_faces(cells) + all_faces_of(
            x,
            y,
            z,
        ).to_set(),
        world_faces(cells.update(cell_index(x, y, z), id), 32).len() == world_faces(cells, 32).len()
            + 6,
{
    let after = cells.update(cell_index(x, y, z), id);
    let six = all_faces_of(x, y, z);
    assert(six.no_duplicates()) by {
        assert forall|i: int, j: int| 0 <= i < 6 && 0 <= j < 6 && i != j implies six[i] != six[j] by {
            assert(six[i].dir == i && six[j].dir == j);
        }
    }
    six.unique_seq_to_set();
    vstd::seq_lib::seq_to_set_is_finite(six);
    assert forall|f: Face| #[trigger] drawn_faces(after).contains(f) <==> (drawn_faces(cells)
        + six.to_set()).contains(f) by {
        if six.contains(f) {
            let i = choose|i: int| 0 <= i < 6 && six[i] == f;
            assert(six[i] == face_at(x, y, z, i));
        }
        if in_world(f.x as int, f.y as int, f.z as int) && f.dir < 6 {
            let (dx, dy, dz) = face_dir(f.dir as int);
            lemma_block_in_update(cells, x, y, z, id, f.x as int, f.y as int, f.z as int);
            lemma_block_in_update(
                cells,
                x,
                y,
                z,
                id,
                f.x + dx,
                f.y + dy,
                f.z + dz,
            );
            if f.x == x && f.y == y && f.z == z {
                assert(six[f.dir as int] == f);
            }
        }
    }
    assert(drawn_faces(after) =~= drawn_faces(cells) + six.to_set());
    assert(drawn_faces(cells).disjoint(six.to_set())) by {
        assert forall|f: Face| six.to_set().contains(f) implies !drawn_faces(cells).contains(f) by {
            let i = choose|i: int| 0 <= i < 6 && six[i] == f;
            assert(six[i] == face_at(x, y, z, i));
        }
    }
    law_each_drawn_face_listed_once(cells);
    law_each_drawn_face_listed_once(after);
    vstd::set_lib::lemma_set_disjoint_lens(drawn_faces(cells), six.to_set());
}


/// One step of a ray walk through the cells, along the axis that the walk
/// chose (the one whose next cell boundary is nearest): the cell moves by
/// `step` along that axis, and the face through which the ray enters the new
/// cell faces back against the step.
pub fn ray_step(voxel: [i32; 3], step: [i32; 3], axis: usize) -> (r: ([i32; 3], [i32; 3]))
    requires
        axis < 3,
        -1 <= step[axis as int] <= 1,
        i32::MIN <= voxel[axis as int] + step[axis as int] <= i32::MAX,
    ensures
        forall|c: int|
            0 <= c < 3 ==> #[trigger] r.0[c] == voxel[c] + if c == axis {
                step[axis as int] as int
            } else {
                0
            },
        forall|c: int|
            0 <= c < 3 ==> #[trigger] r.1[c] == if c == axis {
                -step[axis as int]
            } else {
                0
            },
{
    let s = step[axis];
    let moved = [
        if axis == 0 {
            voxel[0] + s
        } else {
            voxel[0]
        },
        if axis == 1 {
            voxel[1] + s
        } else {
            voxel[1]
        },
        if axis == 2 {
            voxel[2] + s
        } else {
            voxel[2]
        },
    ];
    let face = [
        if axis == 0 {
            -s
        } else {
            0
        },
        if axis == 1 {
            -s
        } else {
            0
        },
        if axis == 2 {
            -s
        } else {
            0
        },
    ];
    (moved, face)
}


/// Terrain layers: a column whose top is at height `t` (inside the world's
/// height) has at its top sand when `t` is at most 3 and grass above that,
/// dirt in the two blocks below the top, stone further down, and air above.
pub proof fn law_terrain_layers(t: int, y: int)
    requires
        0 <= t < 16,
        0 <= y < 16,
    ensures
        (terrain_block(t, t) == SAND) <==> t <= 3,
        (terrain_block(t, t) == GRASS) <==> t >= 4,
        t - 2 <= y < t ==> terrain_block(t, y) == DIRT,
        y < t - 2 ==> terrain_block(t, y) == STONE,
        y > t ==> terrain_block(t, y) == AIR,
        y <= t ==> terrain_block(t, y) != AIR,
{
}

/// Whether column `(x, z)` is more than two blocks away, along x or z, from
/// every tree, out of reach of any trunk or crown.
pub open spec fn clear_of_trees(x: int, z: int) -> bool {
    forall|k: int|
        0 <= k < 6 ==> (#[trigger] tree_pos(k)).0 - x > 2 || x - tree_pos(k).0 > 2 || tree_pos(
            k,
        ).1 - z > 2 || z - tree_pos(k).1 > 2
}

proof fn lemma_clear_of_trees_upto(heights: Seq<i32>, k: int, x: int, y: int, z: int)
    requires
        0 <= k <= 6,
        clear_of_trees(x, z),
    ensures
        generated_block(heights, k, x, y, z) == terrain_block(heights[column_index(x, z)] as int, y),
    decreases k,
{
    if k > 0 {
        lemma_clear_of_trees_upto(heights, k - 1, x, y, z);
        let p = tree_pos(k - 1);
        assert(p.0 - x > 2 || x - p.0 > 2 || p.1 - z > 2 || z - p.1 > 2);
    }
}

/// Away from the trees a generated world is plain terrain: in a column more
/// than two blocks from every tree, each block is the terrain layer of that
/// column's height.
pub proof fn law_generated_terrain_away_from_trees(heights: Seq<i32>, x: int, y: int, z: int)
    requires
        clear_of_trees(x, z),
    ensures
        generated_block(heights, 6, x, y, z) == terrain_block(heights[column_index(x, z)] as int, y),
{
    lemma_clear_of_trees_upto(heights, 6, x, y, z);
}

proof fn lemma_trunk_stays_wood(heights: Seq<i32>, k: int, j: int, y: int)
    requires
        0 <= k < j <= 6,
        heights[column_index(tree_pos(k).0, tree_pos(k).1)] + 1 <= y < heights[column_index(
            tree_pos(k).0,
            tree_pos(k).1,
        )] + 5,
    ensures
        generated_block(heights, j, tree_pos(k).0, y, tree_pos(k).1) == WOOD,
    decreases j,
{
    if j > k + 1 {
        lemma_trunk_stays_wood(heights, k, j - 1, y);
    }
}

/// Every tree of a generated world keeps its whole trunk: the four blocks
/// from just above its column's terrain up are wood, whatever trees follow.
pub proof fn law_generated_trunks_are_wood(heights: Seq<i32>, k: int, i: int)
    requires
        0 <= k < 6,
        0 <= i < 4,
    ensures
        generated_block(
            heights,
            6,
            tree_pos(k).0,
            heights[column_index(tree_pos(k).0, tree_pos(k).1)] + 1 + i,
            tree_pos(k).1,
        ) == WOOD,
{
    lemma_trunk_stays_wood(heights, k, 6, heights[column_index(tree_pos(k).0, tree_pos(k).1)] + 1 + i);
}

/// A tree's trunk is the four blocks from `base` up in its column, its crown
/// reaches one block above the trunk and two blocks out sideways on the
/// trunk's top level, and leaves the four vertical edges of its box empty.
pub proof fn law_tree_shape(prev: u8, tx: int, base: int, tz: int, i: int)
    requires
        0 <= i < 4,
        prev == AIR,
    ensures
        planted(prev, tx, base, tz, tx, base + i, tz) == WOOD,
        planted(prev, tx, base, tz, tx, base + 4, tz) == LEAVES,
        planted(prev, tx, base, tz, tx, base - 1, tz) == AIR,
        planted(prev, tx, base, tz, tx, base + 5, tz) == AIR,
        planted(prev, tx, base, tz, tx + 2, base + 3, tz) == LEAVES,
        planted(prev, tx, base, tz, tx - 2, base + 3, tz) == LEAVES,
        planted(prev, tx, base, tz, tx, base + 3, tz + 2) == LEAVES,
        planted(prev, tx, base, tz, tx, base + 3, tz - 2) == LEAVES,
        planted(prev, tx, base, tz, tx + 3, base + 3, tz) == AIR,
        planted(prev, tx, base, tz, tx + 2, base + 3, tz + 2) == AIR,
        planted(prev, tx, base, tz, tx - 2, base + 2, tz - 2) == AIR,
        planted(prev, tx, base, tz, tx + 1, base + 3, tz + 1) == LEAVES,
        planted(prev, tx, base, tz, tx + 2, base + 4, tz) == AIR,
        planted(prev, tx, base, tz, tx + 2, base + 3, tz + 1) == LEAVES,
        planted(prev, tx, base, tz, tx - 1, base + 3, tz - 2) == LEAVES,
        planted(prev, tx, base, tz, tx + 1, base + 2, tz + 1) == LEAVES,
        planted(prev, tx, base, tz, tx + 1, base + 1, tz) == AIR,
        planted(prev, tx, base, tz, tx, base + 1, tz + 1) == AIR,
{
    assert(crown_shape(2, 0, 0) && crown_shape(-2, 0, 0) && crown_shape(0, 0, 2) && crown_shape(
        0,
        0,
        -2,
    ));
    assert(crown_shape(0, 1, 0) && crown_shape(1, 0, 1) && crown_shape(2, 0, 1) && crown_shape(
        -1,
        0,
        -2,
    ) && crown_shape(1, -1, 1));
    assert(!crown_shape(1, -2, 0) && !crown_shape(0, -2, 1));
    assert(!crown_shape(2, 1, 0) && !crown_shape(0, 2, 0) && !crown_shape(3, 0, 0));
}

/// Placing copies the kind of the block that was hit, whatever solid kind
/// it is; only a hit that reads as air places grass.
pub proof fn law_placed_kind_copies_the_hit_block(k: u8)
    ensures
        k != AIR ==> placed_kind(k) == k,
        placed_kind(AIR) == GRASS,
{
}

/// Inside the world a ray sees the stored block of every cell, whatever its
/// kind; outside the world it sees air.
pub proof fn law_ray_sees_stored_blocks(cells: Seq<u8>, x: int, y: int, z: int)
    ensures
        0 <= x < 32 && 0 <= y < 16 && 0 <= z < 32 ==> ray_block_in(cells, x, y, z)
            == cells[cell_index(x, y, z)],
        0 <= x < 32 && 0 <= y < 16 && 0 <= z < 32 ==> ray_block_in(cells, x, y, z) == block_in(
            cells,
            x,
            y,
            z,
        ),
        !(0 <= x < 32 && 0 <= y < 16 && 0 <= z < 32) ==> ray_block_in(cells, x, y, z) == AIR,
{
}

/// Reads: inside the 32 x 16 x 32 box a read gives the stored cell; below
/// the floor it gives stone, above the top air, and beside the box stone.
pub proof fn law_reads(cells: Seq<u8>, x: int, y: int, z: int)
    ensures
        0 <= x < 32 && 0 <= y < 16 && 0 <= z < 32 ==> block_in(cells, x, y, z) == cells[cell_index(
            x,
            y,
            z,
        )],
        y < 0 ==> block_in(cells, x, y, z) == STONE,
        y >= 16 ==> block_in(cells, x, y, z) == AIR,
        0 <= y < 16 && !(0 <= x < 32 && 0 <= z < 32) ==> block_in(cells, x, y, z) == STONE,
{
}

/// Every cell of the 32 x 16 x 32 box can be written: a write of a block
/// other than the one stored changes the world, and only such writes do.
pub proof fn law_every_cell_is_writable(cells: Seq<u8>, x: int, y: int, z: int, id: u8)
    ensures
        0 <= x < 32 && 0 <= y < 16 && 0 <= z < 32 && cells[cell_index(x, y, z)] != id
            ==> changes_cells(cells, x, y, z, id),
        changes_cells(cells, x, y, z, id) ==> 0 <= x < 32 && 0 <= y < 16 && 0 <= z < 32
            && cells[cell_index(x, y, z)] != id,
{
}

/// The six face directions are the six unit steps along the axes, each once,
/// and directions 2k and 2k + 1 are opposite.
pub proof fn law_face_directions_are_the_six_unit_steps(d: int, e: int)
    requires
        0 <= d < 6,
        0 <= e < 6,
    ensures
        abs(face_dir(d).0) + abs(face_dir(d).1) + abs(face_dir(d).2) == 1,
        d != e ==> face_dir(d) != face_dir(e),
        d % 2 == 0 ==> face_dir(d + 1) == (-face_dir(d).0, -face_dir(d).1, -face_dir(d).2),
{
}

/// On a world of one flat height every column is equally flat, so the spawn
/// point is the world's centre, (16, 16).
pub proof fn law_flat_world_spawns_at_the_centre(h: int)
    ensures
        is_flattest(|a: int, b: int| spawn_score(|p: int, q: int| h, a, b), 16, 16),
{
    let surface = |p: int, q: int| h;
    assert forall|x: int, z: int| spawn_candidate(x, z) implies #[trigger] spawn_score(surface, x, z)
        == abs(x - 16) + abs(z - 16) by {
        lemma_spread_of_flat(h, x, z, 9);
    }
    let score = |a: int, b: int| spawn_score(surface, a, b);
    assert forall|x: int, z: int| spawn_candidate(x, z) implies score(16, 16) <= #[trigger] score(
        x,
        z,
    ) by {
        assert(spawn_score(surface, x, z) == abs(x - 16) + abs(z - 16));
        assert(spawn_score(surface, 16, 16) == 0);
    }
    assert forall|x: int, z: int| spawn_candidate(x, z) && before(x, z, 16, 16) implies score(16, 16)
        < #[trigger] score(x, z) by {
        assert(spawn_score(surface, x, z) == abs(x - 16) + abs(z - 16));
        assert(spawn_score(surface, 16, 16) == 0);
    }
}

proof fn lemma_spread_of_flat(h: int, x: int, z: int, k: int)
    ensures
        spread_upto(|p: int, q: int| h, x, z, k) == 0,
    decreases k,
{
    if k > 0 {
        lemma_spread_of_flat(h, x, z, k - 1);
    }
}

/// A column's spread is the largest height difference between it and a
/// column of its 3x3 square: no difference exceeds it and one reaches it.
pub proof fn law_spread_is_largest_difference(surface: spec_fn(int, int) -> int, x: int, z: int)
    ensures
        forall|p: int, q: int|
            x - 1 <= p <= x + 1 && z - 1 <= q <= z + 1 ==> abs(#[trigger] surface(p, q) - surface(x, z))
                <= spread_upto(surface, x, z, 9),
        exists|p: int, q: int|
            x - 1 <= p <= x + 1 && z - 1 <= q <= z + 1 && abs(#[trigger] surface(p, q) - surface(
                x,
                z,
            )) == spread_upto(surface, x, z, 9),
{
    lemma_spread_upto_max(surface, x, z, 9);
    assert forall|p: int, q: int| x - 1 <= p <= x + 1 && z - 1 <= q <= z + 1 implies abs(
        #[trigger] surface(p, q) - surface(x, z),
    ) <= spread_upto(surface, x, z, 9) by {
        let j = (p - x + 1) * 3 + (q - z + 1);
        assert(square_offset(j) == (p - x, q - z));
    }
    let j = choose|j: int|
        0 <= j < 9 && abs(surface(x + square_offset(j).0, z + square_offset(j).1) - surface(x, z))
            == spread_upto(surface, x, z, 9);
    let (dx, dz) = square_offset(j);
    assert(surface(x + dx, z + dz) == surface(x + dx, z + dz));
}

proof fn lemma_spread_upto_max(surface: spec_fn(int, int) -> int, x: int, z: int, k: int)
    requires
        0 <= k <= 9,
    ensures
        forall|j: int|
            0 <= j < k ==> abs(surface(x + (#[trigger] square_offset(j)).0, z + square_offset(j).1)
                - surface(x, z)) <= spread_upto(surface, x, z, k),
        k > 0 ==> exists|j: int|
            0 <= j < k && abs(surface(x + (#[trigger] square_offset(j)).0, z + square_offset(j).1)
                - surface(x, z)) == spread_upto(surface, x, z, k),
        0 <= spread_upto(surface, x, z, k),
    decreases k,
{
    if k > 0 {
        lemma_spread_upto_max(surface, x, z, k - 1);
        let last = k - 1;
        assert(square_offset(last) == square_offset(last));
    }
}


/// The test for a block that is not air.
pub open spec fn not_air() -> spec_fn(u8) -> bool {
    |b: u8| b != AIR
}

/// The solid count of a block array is the number of its blocks that are
/// not air: the length of the array filtered to its solid blocks.
pub proof fn law_solid_count_counts_non_air(cells: Seq<u8>)
    ensures
        count_solid(cells) == cells.filter(not_air()).len(),
        count_solid(Seq::new(cells.len(), |i: int| AIR)) == 0,
    decreases cells.len(),
{
    if cells.len() > 0 {
        law_solid_count_counts_non_air(cells.drop_last());
        reveal(Seq::filter);
        assert(cells.filter(not_air()).len() == cells.drop_last().filter(not_air()).len() + if cells.last() != AIR {
            1int
        } else {
            0
        });
        assert(Seq::new(cells.len(), |i: int| AIR).drop_last() =~= Seq::new(
            (cells.len() - 1) as nat,
            |i: int| AIR,
        ));
    }
}


/// The height difference weighs six times the distance to the centre: of
/// two surfaces that give a column spreads one block apart, the rougher one
/// scores that column exactly six more; at equal spread the column nearer
/// the centre scores less.
pub proof fn law_spread_weighs_six(
    s1: spec_fn(int, int) -> int,
    s2: spec_fn(int, int) -> int,
    x: int,
    z: int,
    x2: int,
    z2: int,
)
    ensures
        spread_upto(s1, x, z, 9) == spread_upto(s2, x, z, 9) + 1 ==> spawn_score(s1, x, z)
            == spawn_score(s2, x, z) + 6,
        spread_upto(s1, x, z, 9) == spread_upto(s1, x2, z2, 9) && abs(x - 16) + abs(z - 16) < abs(
            x2 - 16,
        ) + abs(z2 - 16) ==> spawn_score(s1, x, z) < spawn_score(s1, x2, z2),
{
}

} // verus!
