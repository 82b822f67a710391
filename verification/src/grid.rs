//! Dense voxel grids: the decoded form a volume is built from.

use vstd::prelude::*;
use vstd::arithmetic::div_mod::lemma_fundamental_div_mod_converse;
use crate::column::colors_wf;
use crate::voxel::RgbVoxel;

verus! {

/// A dense three-dimensional grid of voxels, stored row-major with x
/// outermost: the voxel at (x, y, z) sits at flat index
/// `(x * ysize + y) * zsize + z`.
#[derive(Clone, Debug, PartialEq, Eq)]
pub struct VoxelGrid {
    /// Extent along the x axis.
    pub xsize: usize,
    /// Extent along the y axis (the vertical column direction).
    pub ysize: usize,
    /// Extent along the z axis.
    pub zsize: usize,
    /// One voxel per cell, in row-major order.
    pub data: Vec<RgbVoxel>,
}

/// Bounds and nonnegativity of the row-major flat index.
pub proof fn lemma_index_bound(xs: int, ys: int, zs: int, x: int, y: int, z: int)
    requires
        0 <= x < xs,
        0 <= y < ys,
        0 <= z < zs,
    ensures
        0 <= x * ys + y < xs * ys,
        xs * ys <= xs * ys * zs,
        0 <= (x * ys + y) * zs + z < xs * ys * zs,
{
    assert(0 <= x * ys + y < xs * ys) by (nonlinear_arith)
        requires
            0 <= x < xs,
            0 <= y < ys,
    ;
    assert(xs * ys <= xs * ys * zs) by (nonlinear_arith)
        requires
            0 <= xs,
            0 <= ys,
            1 <= zs,
    ;
    assert(0 <= (x * ys + y) * zs + z < xs * ys * zs) by (nonlinear_arith)
        requires
            0 <= x * ys + y < xs * ys,
            0 <= z < zs,
    ;
}

/// Distinct cells have distinct flat indices.
pub proof fn lemma_index_injective(
    ys: int,
    zs: int,
    x1: int,
    y1: int,
    z1: int,
    x2: int,
    y2: int,
    z2: int,
)
    requires
        0 <= y1 < ys,
        0 <= z1 < zs,
        0 <= y2 < ys,
        0 <= z2 < zs,
        0 <= x1,
        0 <= x2,
        (x1 * ys + y1) * zs + z1 == (x2 * ys + y2) * zs + z2,
    ensures
        x1 == x2 && y1 == y2 && z1 == z2,
{
    let idx = (x1 * ys + y1) * zs + z1;
    lemma_fundamental_div_mod_converse(idx, zs, x1 * ys + y1, z1);
    lemma_fundamental_div_mod_converse(idx, zs, x2 * ys + y2, z2);
    lemma_fundamental_div_mod_converse(x1 * ys + y1, ys, x1, y1);
    lemma_fundamental_div_mod_converse(x2 * ys + y2, ys, x2, y2);
}

/// A grid is determined by its columns: two well-formed grids of the
/// same extents whose columns all agree hold the same voxel data.
/// Together with the encoder's and decoder's contracts this closes the
/// end-to-end round trip: decoding an encoded grid gives it back.
pub proof fn lemma_grid_columns_determine(g1: VoxelGrid, g2: VoxelGrid)
    requires
        g1.wf(),
        g2.wf(),
        g1.xsize == g2.xsize,
        g1.ysize == g2.ysize,
        g1.zsize == g2.zsize,
        forall|x: int, z: int|
            0 <= x < g1.xsize && 0 <= z < g1.zsize ==> #[trigger] g1.column_spec(x, z)
                == g2.column_spec(x, z),
    ensures
        g1.data@ == g2.data@,
{
    let xs = g1.xsize as int;
    let ys = g1.ysize as int;
    let zs = g1.zsize as int;
    assert forall|idx: int| 0 <= idx < g1.data@.len() implies g1.data@[idx] == g2.data@[idx] by {
        assert(xs >= 1 && ys >= 1 && zs >= 1) by (nonlinear_arith)
            requires
                0 <= xs,
                0 <= ys,
                0 <= zs,
                0 < xs * ys * zs,
        ;
        let z = idx % zs;
        let y = (idx / zs) % ys;
        let x = idx / zs / ys;
        vstd::arithmetic::div_mod::lemma_multiply_divide_lt(idx, zs, xs * ys);
        vstd::arithmetic::div_mod::lemma_multiply_divide_lt(idx / zs, ys, xs);
        vstd::arithmetic::div_mod::lemma_fundamental_div_mod(idx, zs);
        vstd::arithmetic::div_mod::lemma_fundamental_div_mod(idx / zs, ys);
        assert(idx == (x * ys + y) * zs + z) by (nonlinear_arith)
            requires
                idx == zs * (idx / zs) + z,
                idx / zs == ys * x + y,
        ;
        assert(g1.column_spec(x, z)[y] == g2.column_spec(x, z)[y]);
    }
    assert(g1.data@ =~= g2.data@);
}

/// Every voxel of a column of a well-formed grid is well formed.
pub proof fn lemma_column_wf(g: VoxelGrid, x: int, z: int)
    requires
        g.wf(),
        0 <= x < g.xsize,
        0 <= z < g.zsize,
    ensures
        colors_wf(g.column_spec(x, z)),
{
    assert forall|j: int| 0 <= j < g.column_spec(x, z).len() implies #[trigger] g.column_spec(
        x,
        z,
    )[j].wf() by {
        lemma_index_bound(g.xsize as int, g.ysize as int, g.zsize as int, x, j, z);
        assert(g.column_spec(x, z)[j] == g.data@[g.index_of(x, j, z)]);
    }
}

impl VoxelGrid {
    /// Flat index of cell (x, y, z).
    pub open spec fn index_of(self, x: int, y: int, z: int) -> int {
        (x * self.ysize + y) * self.zsize + z
    }

    /// The grid holds exactly one well-formed voxel per cell.
    pub open spec fn wf(self) -> bool {
        &&& self.data@.len() == self.xsize * self.ysize * self.zsize
        &&& colors_wf(self.data@)
    }

    /// The voxel stored at (x, y, z).
    pub open spec fn voxel_spec(self, x: int, y: int, z: int) -> RgbVoxel {
        self.data@[self.index_of(x, y, z)]
    }

    /// The vertical column of voxels at (x, z), ordered by y.
    pub open spec fn column_spec(self, x: int, z: int) -> Seq<RgbVoxel> {
        Seq::new(self.ysize as nat, |y: int| self.voxel_spec(x, y, z))
    }

    /// A grid of the given extents with every cell holding `v`.
    #[verifier::loop_isolation(false)]
    pub fn filled(xsize: usize, ysize: usize, zsize: usize, v: RgbVoxel) -> (r: VoxelGrid)
        requires
            v.wf(),
            xsize * ysize <= usize::MAX,
            xsize * ysize * zsize <= usize::MAX,
        ensures
            r.wf(),
            r.xsize == xsize,
            r.ysize == ysize,
            r.zsize == zsize,
            forall|x: int, y: int, z: int|
                0 <= x < xsize && 0 <= y < ysize && 0 <= z < zsize ==> r.voxel_spec(x, y, z) == v,
    {
        let count: usize = xsize * ysize * zsize;
        let mut data: Vec<RgbVoxel> = Vec::new();
        let mut i: usize = 0;
        while i < count
            invariant
                i <= count,
                data@.len() == i,
                forall|j: int| 0 <= j < i ==> data@[j] == v,
            decreases count - i,
        {
            data.push(v);
            i = i + 1;
        }
        let r = VoxelGrid { xsize, ysize, zsize, data };
        proof {
            assert forall|x: int, y: int, z: int|
                0 <= x < xsize && 0 <= y < ysize && 0 <= z < zsize implies r.voxel_spec(x, y, z)
                == v by {
                lemma_index_bound(xsize as int, ysize as int, zsize as int, x, y, z);
            }
        }
        r
    }

    /// Read the voxel at (x, y, z).
    pub fn get(&self, x: usize, y: usize, z: usize) -> (r: RgbVoxel)
        requires
            self.wf(),
            x < self.xsize,
            y < self.ysize,
            z < self.zsize,
        ensures
            r == self.voxel_spec(x as int, y as int, z as int),
    {
        let dl: usize = self.data.len();
        proof {
            lemma_index_bound(
                self.xsize as int,
                self.ysize as int,
                self.zsize as int,
                x as int,
                y as int,
                z as int,
            );
        }
        let idx: usize = (x * self.ysize + y) * self.zsize + z;
        self.data[idx]
    }

    /// Replace the voxel at (x, y, z); every other cell keeps its value.
    pub fn set(&mut self, x: usize, y: usize, z: usize, v: RgbVoxel)
        requires
            old(self).wf(),
            x < old(self).xsize,
            y < old(self).ysize,
            z < old(self).zsize,
            v.wf(),
        ensures
            final(self).wf(),
            final(self).xsize == old(self).xsize,
            final(self).ysize == old(self).ysize,
            final(self).zsize == old(self).zsize,
            final(self).voxel_spec(x as int, y as int, z as int) == v,
            forall|x2: int, y2: int, z2: int|
                0 <= x2 < old(self).xsize && 0 <= y2 < old(self).ysize && 0 <= z2 < old(
                    self,
                ).zsize && !(x2 == x && y2 == y && z2 == z) ==> final(self).voxel_spec(x2, y2, z2)
                    == old(self).voxel_spec(x2, y2, z2),
    {
        let dl: usize = self.data.len();
        proof {
            lemma_index_bound(
                self.xsize as int,
                self.ysize as int,
                self.zsize as int,
                x as int,
                y as int,
                z as int,
            );
        }
        let idx: usize = (x * self.ysize + y) * self.zsize + z;
        self.data[idx] = v;
        proof {
            assert(colors_wf(self.data@)) by {
                assert(forall|j: int|
                    0 <= j < self.data@.len() && j != idx ==> self.data@[j] == old(self).data@[j]);
            }
            assert forall|x2: int, y2: int, z2: int|
                0 <= x2 < old(self).xsize && 0 <= y2 < old(self).ysize && 0 <= z2 < old(
                    self,
                ).zsize && !(x2 == x && y2 == y && z2 == z) implies self.voxel_spec(x2, y2, z2)
                == old(self).voxel_spec(x2, y2, z2) by {
                lemma_index_bound(
                    self.xsize as int,
                    self.ysize as int,
                    self.zsize as int,
                    x2,
                    y2,
                    z2,
                );
                if self.index_of(x2, y2, z2) == idx {
                    lemma_index_injective(
                        self.ysize as int,
                        self.zsize as int,
                        x2,
                        y2,
                        z2,
                        x as int,
                        y as int,
                        z as int,
                    );
                }
            }
        }
    }

    /// Replace the whole vertical column at (x, z); every other column
    /// keeps its voxels.
    #[verifier::loop_isolation(false)]
    pub fn set_column(&mut self, x: usize, z: usize, col: &Vec<RgbVoxel>)
        requires
            old(self).wf(),
            x < old(self).xsize,
            z < old(self).zsize,
            col@.len() == old(self).ysize,
            colors_wf(col@),
        ensures
            final(self).wf(),
            final(self).xsize == old(self).xsize,
            final(self).ysize == old(self).ysize,
            final(self).zsize == old(self).zsize,
            final(self).column_spec(x as int, z as int) == col@,
            forall|x2: int, y2: int, z2: int|
                0 <= x2 < old(self).xsize && 0 <= y2 < old(self).ysize && 0 <= z2 < old(
                    self,
                ).zsize && !(x2 == x && z2 == z) ==> final(self).voxel_spec(x2, y2, z2) == old(
                    self,
                ).voxel_spec(x2, y2, z2),
    {
        let mut y: usize = 0;
        while y < self.ysize
            invariant
                y <= self.ysize,
                self.wf(),
                self.xsize == old(self).xsize,
                self.ysize == old(self).ysize,
                self.zsize == old(self).zsize,
                forall|yy: int| 0 <= yy < y ==> self.voxel_spec(x as int, yy, z as int) == col@[yy],
                forall|x2: int, y2: int, z2: int|
                    0 <= x2 < old(self).xsize && 0 <= y2 < old(self).ysize && 0 <= z2 < old(
                        self,
                    ).zsize && !(x2 == x && z2 == z) ==> self.voxel_spec(x2, y2, z2) == old(
                        self,
                    ).voxel_spec(x2, y2, z2),
            decreases self.ysize - y,
        {
            let v = col[y];
            self.set(x, y, z, v);
            y = y + 1;
        }
        proof {
            assert(self.column_spec(x as int, z as int) =~= col@);
        }
    }

    /// Extract the vertical column of voxels at (x, z), ordered by y.
    #[verifier::loop_isolation(false)]
    pub fn column(&self, x: usize, z: usize) -> (r: Vec<RgbVoxel>)
        requires
            self.wf(),
            x < self.xsize,
            z < self.zsize,
        ensures
            r@ == self.column_spec(x as int, z as int),
    {
        let mut r: Vec<RgbVoxel> = Vec::new();
        let mut y: usize = 0;
        while y < self.ysize
            invariant
                y <= self.ysize,
                r@.len() == y,
                forall|j: int| 0 <= j < y ==> r@[j] == self.voxel_spec(x as int, j, z as int),
            decreases self.ysize - y,
        {
            let v = self.get(x, y, z);
            r.push(v);
            y = y + 1;
        }
        proof {
            assert(r@ =~= self.column_spec(x as int, z as int));
        }
        r
    }
}

} // verus!
