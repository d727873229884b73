use vstd::arithmetic::div_mod::{lemma_fundamental_div_mod, lemma_fundamental_div_mod_converse};
use vstd::prelude::*;

use crate::color::Rgb;

verus! {

/// One cell of the carving grid.
///
/// `carved` is terminal: once a cell is carved it never comes back, and a
/// carved cell is never `visible`.  `visible` flags the cells of the current
/// frontier, the only candidates a sweep examines.  `color` is filled in once
/// a cell has been judged photo-consistent.
#[derive(Clone, Copy, Debug)]
pub struct Voxel {
    pub carved: bool,
    pub visible: bool,
    pub seen: bool,
    pub color: Option<Rgb>,
}

impl Voxel {
    pub fn new() -> (voxel: Voxel)
        ensures
            !voxel.carved,
            !voxel.visible,
            !voxel.seen,
            voxel.color is None,
    {
        Voxel { carved: false, visible: false, seen: false, color: None }
    }
}

/// Linear index of the cell with axis indices `(x, y, z)` in a grid of
/// `r` cells per side.
pub open spec fn flat_index(x: int, y: int, z: int, r: int) -> int {
    x + y * r + z * (r * r)
}

/// X axis index of the cell with linear index `i`.
pub open spec fn axis_x(i: int, r: int) -> int {
    (i % (r * r)) % r
}

/// Y axis index of the cell with linear index `i`.
pub open spec fn axis_y(i: int, r: int) -> int {
    (i % (r * r)) / r
}

/// Z axis index of the cell with linear index `i`.
pub open spec fn axis_z(i: int, r: int) -> int {
    i / (r * r)
}

/// A cell lies on the outer shell of the grid when one of its axis indices
/// touches a face of the cube.
pub open spec fn on_shell(i: int, r: int) -> bool {
    ||| axis_x(i, r) == 0
    ||| axis_x(i, r) == r - 1
    ||| axis_y(i, r) == 0
    ||| axis_y(i, r) == r - 1
    ||| axis_z(i, r) == 0
    ||| axis_z(i, r) == r - 1
}

/// Cells `i` and `j` are orthogonal neighbors: they agree on two axes and
/// differ by exactly one step on the third.  This is a per-axis relation;
/// in particular the flat predecessor of a cell in column 0 is *not* its
/// neighbor, however close the linear indices are.
pub open spec fn adjacent(i: int, j: int, r: int) -> bool {
    let xi = axis_x(i, r);
    let yi = axis_y(i, r);
    let zi = axis_z(i, r);
    let xj = axis_x(j, r);
    let yj = axis_y(j, r);
    let zj = axis_z(j, r);
    ||| (yi == yj && zi == zj && (xj == xi + 1 || xj == xi - 1))
    ||| (xi == xj && zi == zj && (yj == yi + 1 || yj == yi - 1))
    ||| (xi == xj && yi == yj && (zj == zi + 1 || zj == zi - 1))
}

pub proof fn lemma_flat_index_bounds(x: int, y: int, z: int, r: int)
    requires
        0 <= x < r,
        0 <= y < r,
        0 <= z < r,
    ensures
        0 <= flat_index(x, y, z, r) < r * r * r,
{
    assert(0 <= x + y * r + z * (r * r) < r * r * r) by (nonlinear_arith)
        requires
            0 <= x < r,
            0 <= y < r,
            0 <= z < r,
    ;
}

/// The axis indices of `flat_index(x, y, z, r)` are `x`, `y` and `z` again.
pub proof fn lemma_flat_index_components(x: int, y: int, z: int, r: int)
    requires
        0 <= x < r,
        0 <= y < r,
        0 <= z < r,
    ensures
        axis_x(flat_index(x, y, z, r), r) == x,
        axis_y(flat_index(x, y, z, r), r) == y,
        axis_z(flat_index(x, y, z, r), r) == z,
{
    let i = flat_index(x, y, z, r);
    assert(0 <= x + y * r < r * r) by (nonlinear_arith)
        requires
            0 <= x < r,
            0 <= y < r,
    ;
    lemma_fundamental_div_mod_converse(i, r * r, z, x + y * r);
    lemma_fundamental_div_mod_converse(x + y * r, r, y, x);
}

/// Every linear index decomposes into in-range axis indices that recompose
/// to the same linear index.
pub proof fn lemma_flat_index_recompose(i: int, r: int)
    requires
        r >= 1,
        0 <= i < r * r * r,
    ensures
        0 <= axis_x(i, r) < r,
        0 <= axis_y(i, r) < r,
        0 <= axis_z(i, r) < r,
        flat_index(axis_x(i, r), axis_y(i, r), axis_z(i, r), r) == i,
{
    let rsq = r * r;
    assert(r * r >= 1) by (nonlinear_arith)
        requires
            r >= 1,
    ;
    lemma_fundamental_div_mod(i, rsq);
    let z = i / rsq;
    let rem = i % rsq;
    assert(0 <= rem < rsq) by {
        vstd::arithmetic::div_mod::lemma_mod_bound(i, rsq);
    }
    assert(0 <= z < r) by (nonlinear_arith)
        requires
            i == rsq * z + rem,
            0 <= rem < rsq,
            0 <= i < r * r * r,
            rsq == r * r,
            r >= 1,
    ;
    lemma_fundamental_div_mod(rem, r);
    let y = rem / r;
    let x = rem % r;
    assert(0 <= x < r) by {
        vstd::arithmetic::div_mod::lemma_mod_bound(rem, r);
    }
    assert(0 <= y < r) by (nonlinear_arith)
        requires
            rem == r * y + x,
            0 <= x < r,
            0 <= rem < rsq,
            rsq == r * r,
            r >= 1,
    ;
    assert(y * r == r * y && z * (r * r) == (r * r) * z) by (nonlinear_arith);
}

/// Adjacency in terms of linear indices: `j` is a neighbor of `i` exactly
/// when it is one of the six flat offsets of `i` *and* the step stays in
/// range on the stepped axis.
pub proof fn lemma_adjacent_flat(i: int, j: int, r: int)
    requires
        r >= 1,
        0 <= i < r * r * r,
        0 <= j < r * r * r,
    ensures
        adjacent(i, j, r) <==> ({
            let x = axis_x(i, r);
            let y = axis_y(i, r);
            let z = axis_z(i, r);
            ||| (x + 1 < r && j == i + 1)
            ||| (x >= 1 && j == i - 1)
            ||| (y + 1 < r && j == i + r)
            ||| (y >= 1 && j == i - r)
            ||| (z + 1 < r && j == i + r * r)
            ||| (z >= 1 && j == i - r * r)
        }),
{
    lemma_flat_index_recompose(i, r);
    lemma_flat_index_recompose(j, r);
    let x = axis_x(i, r);
    let y = axis_y(i, r);
    let z = axis_z(i, r);
    assert forall|t: int| #[trigger] ((t + 1) * r) == t * r + r && #[trigger] ((t - 1) * r) == t * r
        - r by {
        vstd::arithmetic::mul::lemma_mul_is_distributive_add_other_way(r, t, 1);
        vstd::arithmetic::mul::lemma_mul_is_distributive_sub_other_way(r, t, 1);
    }
    assert forall|t: int| #[trigger] ((t + 1) * (r * r)) == t * (r * r) + r * r && #[trigger] ((t
        - 1) * (r * r)) == t * (r * r) - r * r by {
        vstd::arithmetic::mul::lemma_mul_is_distributive_add_other_way(r * r, t, 1);
        vstd::arithmetic::mul::lemma_mul_is_distributive_sub_other_way(r * r, t, 1);
    }
    if x + 1 < r {
        lemma_flat_index_components(x + 1, y, z, r);
    }
    if x >= 1 {
        lemma_flat_index_components(x - 1, y, z, r);
    }
    if y + 1 < r {
        lemma_flat_index_components(x, y + 1, z, r);
    }
    if y >= 1 {
        lemma_flat_index_components(x, y - 1, z, r);
    }
    if z + 1 < r {
        lemma_flat_index_components(x, y, z + 1, r);
    }
    if z >= 1 {
        lemma_flat_index_components(x, y, z - 1, r);
    }
}

/// Neighbor-bound correctness: the flat predecessor of a cell in column 0
/// belongs to the previous row, and carving must not treat it as a
/// neighbor.  Flat-index bound checks alone would wrongly accept it.
pub proof fn lemma_no_wraparound(i: int, r: int)
    requires
        r >= 1,
        1 <= i < r * r * r,
        axis_x(i, r) == 0,
    ensures
        !adjacent(i, i - 1, r),
{
    lemma_adjacent_flat(i, i - 1, r);
    lemma_flat_index_recompose(i, r);
    assert(r * r >= r) by (nonlinear_arith)
        requires
            r >= 1,
    ;
}

/// How many cells of `voxels` are carved.
pub open spec fn num_carved(voxels: Seq<Voxel>) -> int
    decreases voxels.len(),
{
    if voxels.len() == 0 {
        0
    } else {
        num_carved(voxels.drop_last()) + if voxels.last().carved {
            1int
        } else {
            0int
        }
    }
}

pub proof fn lemma_num_carved_le_len(voxels: Seq<Voxel>)
    ensures
        0 <= num_carved(voxels) <= voxels.len(),
    decreases voxels.len(),
{
    if voxels.len() > 0 {
        lemma_num_carved_le_len(voxels.drop_last());
    }
}

/// Two grids with pointwise equal `carved` flags hold the same number of
/// carved cells.
pub proof fn lemma_num_carved_congruent(a: Seq<Voxel>, b: Seq<Voxel>)
    requires
        a.len() == b.len(),
        forall|j: int| 0 <= j < a.len() ==> a[j].carved == b[j].carved,
    ensures
        num_carved(a) == num_carved(b),
    decreases a.len(),
{
    if a.len() > 0 {
        lemma_num_carved_congruent(a.drop_last(), b.drop_last());
    }
}

/// World positions are measured in half-voxel units from the center of the
/// block: one unit is `length / (2 * resolution)` world units.  Every
/// position the carver cares about — cell corners and cell centers — is a
/// whole number of such units, so the mapping between world space and grid
/// indices is exact.
///
/// `corner_coordinate` is the position of the lower corner of the cell with
/// axis index `a`.
pub open spec fn corner_coordinate(a: int, r: int) -> int {
    2 * a - r
}

/// The axis index of the cell that contains the world position `c`, given
/// in half-voxel units from the center of the block.
pub open spec fn coordinate_cell(c: int, r: int) -> int {
    (c + r) / 2
}

/// A grid that fits in the address space cannot have more than `2^24` cells
/// per side, so axis indices and half-voxel coordinates fit comfortably in
/// an `i64`.
pub proof fn lemma_resolution_small(r: int)
    requires
        1 <= r,
        r * r * r <= usize::MAX,
    ensures
        r < 0x100_0000,
{
    if r >= 0x100_0000 {
        vstd::arithmetic::mul::lemma_mul_inequality(0x100_0000, r, 0x100_0000);
        vstd::arithmetic::mul::lemma_mul_is_commutative(r, 0x100_0000);
        vstd::arithmetic::mul::lemma_mul_inequality(0x100_0000, r, r);
        assert(r * r >= 0x1_0000_0000_0000);
        vstd::arithmetic::mul::lemma_mul_inequality(0x100_0000, r, 0x1_0000_0000_0000);
        vstd::arithmetic::mul::lemma_mul_is_commutative(r, 0x1_0000_0000_0000);
        vstd::arithmetic::mul::lemma_mul_inequality(0x1_0000_0000_0000, r * r, r);
        assert(r * r * r >= 0x1_0000_0000_0000_0000_0000);
    }
}

/// Coordinate round-trip: a valid linear index, sent to the world
/// coordinate of its cell's lower corner and back to an index, is recovered
/// exactly.
pub proof fn lemma_coordinate_round_trip(i: int, r: int)
    requires
        1 <= r,
        0 <= i < r * r * r,
    ensures
        flat_index(
            coordinate_cell(corner_coordinate(axis_x(i, r), r), r),
            coordinate_cell(corner_coordinate(axis_y(i, r), r), r),
            coordinate_cell(corner_coordinate(axis_z(i, r), r), r),
            r,
        ) == i,
{
    lemma_flat_index_recompose(i, r);
}

/// Monotonic carving: `now` is `then` with possibly more cells carved — a
/// carved cell never comes back — and `seen` has grown by exactly the
/// cells that were carved along the way.
pub open spec fn carving_monotone(then: Seq<Voxel>, now: Seq<Voxel>) -> bool {
    &&& now.len() == then.len()
    &&& forall|j: int| 0 <= j < then.len() ==> ((#[trigger] then[j]).carved ==> now[j].carved)
    &&& forall|j: int|
        0 <= j < then.len() ==> (#[trigger] now[j]).seen == (then[j].seen || (now[j].carved
            && !then[j].carved))
}

pub proof fn lemma_carving_monotone_trans(a: Seq<Voxel>, b: Seq<Voxel>, c: Seq<Voxel>)
    requires
        carving_monotone(a, b),
        carving_monotone(b, c),
    ensures
        carving_monotone(a, c),
{
}

/// A cell that was on the frontier stays there until it is carved:
/// carving reveals cells but never hides an uncarved one.
pub open spec fn frontier_preserved(then: Seq<Voxel>, now: Seq<Voxel>) -> bool {
    forall|j: int|
        0 <= j < then.len() ==> ((#[trigger] then[j]).visible && !now[j].carved ==> now[j].visible)
}

/// Termination of the pass loop rests on this: a monotone carving step
/// never shrinks the carved population, and the cell count caps it.  A
/// pass that carves anything strictly reduces the uncarved population, so
/// a run makes at most `resolution³` carving passes before the fixpoint.
pub proof fn lemma_carving_bounded(then: Seq<Voxel>, now: Seq<Voxel>)
    requires
        now.len() == then.len(),
        forall|j: int| 0 <= j < then.len() ==> ((#[trigger] then[j]).carved ==> now[j].carved),
    ensures
        num_carved(then) <= num_carved(now) <= now.len(),
    decreases then.len(),
{
    if then.len() > 0 {
        lemma_carving_bounded(then.drop_last(), now.drop_last());
    }
    lemma_num_carved_le_len(now);
}

/// A voxel freshly allocated for cell `i` of a grid with `r` cells per
/// side: untouched, and visible exactly on the outer shell.
pub open spec fn initial_voxel(v: Voxel, i: int, r: int) -> bool {
    &&& !v.carved
    &&& !v.seen
    &&& v.color is None
    &&& (v.visible <==> on_shell(i, r))
}

/// The dense cubic grid that a carving run whittles down.
///
/// Cells are addressed by the linear index `x + y*resolution +
/// z*resolution²`.  The cube of side `length` (world units) is centered at
/// the origin; `length / resolution` world units make one voxel.
pub struct VoxelBlock {
    pub voxels: Vec<Voxel>,
    /// world-space side length of the whole block
    pub length: usize,
    /// how many voxels per side
    pub resolution: usize,
}

impl VoxelBlock {
    /// Structural soundness: the cell array fills the cube exactly, and a
    /// carved cell is never part of the visible frontier.
    pub open spec fn wf(&self) -> bool {
        &&& self.resolution >= 1
        &&& self.length >= 1
        &&& self.resolution * self.resolution * self.resolution <= usize::MAX
        &&& self.voxels@.len() == self.resolution * self.resolution * self.resolution
        &&& forall|i: int|
            0 <= i < self.voxels@.len() ==> ((#[trigger] self.voxels@[i]).carved
                ==> !self.voxels@[i].visible)
    }

    /// Allocate a solid block.  Shell initialization: a cell starts visible
    /// if and only if one of its axis indices is `0` or `resolution - 1`.
    pub fn new(length: usize, resolution: usize) -> (block: VoxelBlock)
        requires
            length >= 1,
            resolution >= 1,
            resolution * resolution * resolution <= usize::MAX,
        ensures
            block.wf(),
            block.length == length,
            block.resolution == resolution,
            forall|i: int|
                0 <= i < block.voxels@.len() ==> initial_voxel(
                    #[trigger] block.voxels@[i],
                    i,
                    resolution as int,
                ),
    {
        let ghost r = resolution as int;
        proof {
            assert(r <= r * r <= r * r * r && 1 <= r * r) by (nonlinear_arith)
                requires
                    r >= 1,
            ;
        }
        let res_sq: usize = resolution * resolution;
        let total: usize = res_sq * resolution;
        let mut voxels: Vec<Voxel> = Vec::new();
        let mut i: usize = 0;
        while i < total
            invariant
                res_sq == r * r,
                total == r * r * r,
                r == resolution,
                i <= total,
                voxels@.len() == i,
                forall|k: int| 0 <= k < i ==> initial_voxel(#[trigger] voxels@[k], k, r),
            decreases total - i,
        {
            let rem = i % res_sq;
            let x = rem % resolution;
            let y = rem / resolution;
            let z = i / res_sq;
            let visible = x == 0 || x == resolution - 1 || y == 0 || y == resolution - 1 || z == 0
                || z == resolution - 1;
            voxels.push(Voxel { carved: false, visible, seen: false, color: None });
            i = i + 1;
        }
        VoxelBlock { voxels, length, resolution }
    }

    /// Linear index of the cell at axis indices `(x, y, z)`.
    pub fn cell_index(&self, x: usize, y: usize, z: usize) -> (index: usize)
        requires
            self.wf(),
            x < self.resolution,
            y < self.resolution,
            z < self.resolution,
        ensures
            index == flat_index(x as int, y as int, z as int, self.resolution as int),
            index < self.voxels@.len(),
    {
        let ghost r = self.resolution as int;
        proof {
            lemma_flat_index_bounds(x as int, y as int, z as int, r);
            assert(r * r <= r * r * r && y * r < r * r && z * (r * r) <= (r - 1) * (r * r))
                by (nonlinear_arith)
                requires
                    r >= 1,
                    0 <= y < r,
                    0 <= z < r,
            ;
        }
        let res_sq: usize = self.resolution * self.resolution;
        x + y * self.resolution + z * res_sq
    }

    /// World coordinate of the lower corner of the cell `index`, in
    /// half-voxel units from the center of the block.
    pub fn index_to_coordinate(&self, index: usize) -> (c: (i64, i64, i64))
        requires
            self.wf(),
            index < self.voxels@.len(),
        ensures
            c.0 == corner_coordinate(axis_x(index as int, self.resolution as int), self.resolution as int),
            c.1 == corner_coordinate(axis_y(index as int, self.resolution as int), self.resolution as int),
            c.2 == corner_coordinate(axis_z(index as int, self.resolution as int), self.resolution as int),
    {
        let ghost r = self.resolution as int;
        proof {
            assert(r <= r * r <= r * r * r) by (nonlinear_arith)
                requires
                    r >= 1,
            ;
            lemma_resolution_small(r);
            lemma_flat_index_recompose(index as int, r);
        }
        let res_sq: usize = self.resolution * self.resolution;
        let rem = index % res_sq;
        let x = rem % self.resolution;
        let y = rem / self.resolution;
        let z = index / res_sq;
        let half_r = self.resolution as i64;
        (2 * (x as i64) - half_r, 2 * (y as i64) - half_r, 2 * (z as i64) - half_r)
    }

    /// Linear index of the cell containing the world position `(x, y, z)`,
    /// in half-voxel units from the center of the block.
    pub fn coordinate_to_index(&self, x: i64, y: i64, z: i64) -> (index: usize)
        requires
            self.wf(),
            -(self.resolution as int) <= x < self.resolution as int,
            -(self.resolution as int) <= y < self.resolution as int,
            -(self.resolution as int) <= z < self.resolution as int,
        ensures
            index == flat_index(
                coordinate_cell(x as int, self.resolution as int),
                coordinate_cell(y as int, self.resolution as int),
                coordinate_cell(z as int, self.resolution as int),
                self.resolution as int,
            ),
            index < self.voxels@.len(),
    {
        let ghost r = self.resolution as int;
        proof {
            assert(r <= r * r <= r * r * r) by (nonlinear_arith)
                requires
                    r >= 1,
            ;
            lemma_resolution_small(r);
        }
        let half_r = self.resolution as i64;
        let xi = ((x + half_r) as usize) / 2;
        let yi = ((y + half_r) as usize) / 2;
        let zi = ((z + half_r) as usize) / 2;
        proof {
            lemma_flat_index_bounds(xi as int, yi as int, zi as int, r);
            assert(yi * r < r * r && zi * (r * r) <= (r - 1) * (r * r)) by (nonlinear_arith)
                requires
                    r >= 1,
                    0 <= yi < r,
                    0 <= zi < r,
            ;
        }
        let res_sq: usize = self.resolution * self.resolution;
        xi + yi * self.resolution + zi * res_sq
    }

    /// Pull one cell onto the visible frontier unless it is already carved.
    fn uncover(&mut self, j: usize)
        requires
            j < old(self).voxels@.len(),
        ensures
            final(self).resolution == old(self).resolution,
            final(self).length == old(self).length,
            final(self).voxels@.len() == old(self).voxels@.len(),
            forall|k: int|
                0 <= k < old(self).voxels@.len() && k != j ==> final(self).voxels@[k] == old(
                    self,
                ).voxels@[k],
            ({
                let vo = old(self).voxels@[j as int];
                let vn = final(self).voxels@[j as int];
                &&& vn.carved == vo.carved
                &&& vn.seen == vo.seen
                &&& vn.color == vo.color
                &&& vn.visible == (vo.visible || !vo.carved)
            }),
    {
        if !self.voxels[j].carved {
            self.voxels[j].visible = true;
        }
    }

    /// Carve the cell at axis indices `(x, y, z)`: mark it carved and
    /// permanently off the frontier, and reveal each orthogonal neighbor
    /// that is not itself carved.  Neighbors are found by per-axis bound
    /// checks, so carving in column 0 never reaches into the previous row.
    #[verifier::rlimit(60)]
    pub fn carve(&mut self, x: usize, y: usize, z: usize)
        requires
            old(self).wf(),
            x < old(self).resolution,
            y < old(self).resolution,
            z < old(self).resolution,
        ensures
            final(self).wf(),
            final(self).resolution == old(self).resolution,
            final(self).length == old(self).length,
            final(self).voxels@.len() == old(self).voxels@.len(),
            ({
                let r = old(self).resolution as int;
                let i = flat_index(x as int, y as int, z as int, r);
                &&& final(self).voxels@[i].carved
                &&& !final(self).voxels@[i].visible
                &&& final(self).voxels@[i].seen
                &&& final(self).voxels@[i].color == old(self).voxels@[i].color
                &&& forall|j: int|
                    0 <= j < old(self).voxels@.len() && j != i ==> ({
                        let vo = old(self).voxels@[j];
                        let vn = #[trigger] final(self).voxels@[j];
                        &&& vn.carved == vo.carved
                        &&& vn.seen == vo.seen
                        &&& vn.color == vo.color
                        &&& vn.visible == (vo.visible || (adjacent(i, j, r) && !vo.carved))
                    })
            }),
    {
        let ghost r = self.resolution as int;
        proof {
            lemma_flat_index_bounds(x as int, y as int, z as int, r);
            assert(r * r <= r * r * r && y * r < r * r && z * (r * r) <= (r - 1) * (r * r))
                by (nonlinear_arith)
                requires
                    r >= 1,
                    0 <= y < r,
                    0 <= z < r,
            ;
            assert((y as int + 1) * r == y as int * r + r) by (nonlinear_arith);
            assert((y as int - 1) * r == y as int * r - r) by (nonlinear_arith);
            assert((z as int + 1) * (r * r) == z as int * (r * r) + r * r) by (nonlinear_arith);
            assert((z as int - 1) * (r * r) == z as int * (r * r) - r * r) by (nonlinear_arith);
        }
        let res_sq: usize = self.resolution * self.resolution;
        let index: usize = x + y * self.resolution + z * res_sq;
        let ghost i = index as int;
        self.voxels[index].carved = true;
        self.voxels[index].visible = false;
        self.voxels[index].seen = true;
        if x >= 1 {
            self.uncover(index - 1);
        }
        if x + 1 < self.resolution {
            proof {
                lemma_flat_index_bounds(x as int + 1, y as int, z as int, r);
            }
            self.uncover(index + 1);
        }
        if y >= 1 {
            self.uncover(index - self.resolution);
        }
        if y + 1 < self.resolution {
            proof {
                lemma_flat_index_bounds(x as int, y as int + 1, z as int, r);
            }
            self.uncover(index + self.resolution);
        }
        if z >= 1 {
            self.uncover(index - res_sq);
        }
        if z + 1 < self.resolution {
            proof {
                lemma_flat_index_bounds(x as int, y as int, z as int + 1, r);
            }
            self.uncover(index + res_sq);
        }
        proof {
            assert forall|j: int| 0 <= j < old(self).voxels@.len() && j != i implies ({
                let vo = old(self).voxels@[j];
                let vn = #[trigger] self.voxels@[j];
                &&& vn.carved == vo.carved
                &&& vn.seen == vo.seen
                &&& vn.color == vo.color
                &&& vn.visible == (vo.visible || (((x as int + 1 < r && j == i + 1) || (x as int
                    >= 1 && j == i - 1) || (y as int + 1 < r && j == i + r) || (y as int >= 1 && j
                    == i - r) || (z as int + 1 < r && j == i + r * r) || (z as int >= 1 && j == i
                    - r * r)) && !vo.carved))
            }) by {}
            lemma_flat_index_components(x as int, y as int, z as int, r);
            assert forall|j: int| 0 <= j < old(self).voxels@.len() && j != i implies ({
                let vo = old(self).voxels@[j];
                let vn = #[trigger] self.voxels@[j];
                &&& vn.carved == vo.carved
                &&& vn.seen == vo.seen
                &&& vn.color == vo.color
                &&& vn.visible == (vo.visible || (adjacent(i, j, r) && !vo.carved))
            }) by {
                lemma_adjacent_flat(i, j, r);
            }
        }
    }
}

/// Carving one previously uncarved cell raises the carved count by one.
pub proof fn lemma_num_carved_step(a: Seq<Voxel>, b: Seq<Voxel>, i: int)
    requires
        a.len() == b.len(),
        0 <= i < a.len(),
        forall|j: int| 0 <= j < a.len() && j != i ==> a[j].carved == b[j].carved,
        !a[i].carved,
        b[i].carved,
    ensures
        num_carved(b) == num_carved(a) + 1,
    decreases a.len(),
{
    if i == a.len() - 1 {
        lemma_num_carved_congruent(a.drop_last(), b.drop_last());
    } else {
        lemma_num_carved_step(a.drop_last(), b.drop_last(), i);
    }
}

} // verus!
