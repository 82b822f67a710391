//! Run-length encoded volumes: a pointer map of per-column head
//! records plus one packed byte buffer of column bodies.

use vstd::prelude::*;
use vstd::arithmetic::div_mod::lemma_fundamental_div_mod;
use vstd::arithmetic::div_mod::lemma_fundamental_div_mod_converse;
use crate::column::RleColumn;
use crate::column::compress_ranges;
use crate::column::decoded_ranges;
use crate::column::decoded_voxels;
use crate::column::decompress_spec;
use crate::column::drawn_colors;
use crate::column::empty_run;
use crate::column::first_seq;
use crate::column::lemma_compress_ranges_len;
use crate::column::lemma_compress_ranges_wf;
use crate::column::lemma_compress_roundtrip;
use crate::column::lemma_compress_total_drawn;
use crate::column::lemma_decoded_at_offset;
use crate::column::lemma_decompress_wf;
use crate::column::lemma_drawn_colors_len;
use crate::column::lemma_drawn_colors_wf;
use crate::column::packed_bytes;
use crate::column::ranges_wf;
use crate::column::total_drawn;
use crate::grid::VoxelGrid;
use crate::range::RleRange;
use crate::voxel::RgbVoxel;

verus! {

/// Per-cell head record of the pointer map: where the column's packed
/// body begins in the columns buffer, how many ranges are stored there,
/// and a cached copy of the column's first range, kept here so the
/// consumer saves one memory fetch.
#[derive(Clone, Copy, Debug, PartialEq, Eq, Structural)]
pub struct PointerColumn {
    /// Byte offset of the column body in the columns buffer.
    pub pointer: u32,
    /// Count of ranges stored at that offset, the cached head excluded.
    pub rle_count: u16,
    /// The column's first range, cached out of the buffer.
    pub first_range: RleRange,
}

/// Whether `x` is a power of two.
pub open spec fn is_pow2_spec(x: int) -> bool
    decreases x,
{
    if x <= 0 {
        false
    } else if x == 1 {
        true
    } else {
        x % 2 == 0 && is_pow2_spec(x / 2)
    }
}

/// A volume dimension must be zero or a power of two, and in every
/// case below 1024, so a whole empty column fits one skip field and the
/// pointer map stays addressable.
pub open spec fn valid_dim(d: int) -> bool {
    d < 1024 && (d == 0 || is_pow2_spec(d))
}

/// Check whether a number is a power of two.  Zero is not.
pub fn is_power2(x: usize) -> (r: bool)
    ensures
        r == is_pow2_spec(x as int),
{
    if x == 0 {
        return false;
    }
    let mut y: usize = x;
    while y % 2 == 0
        invariant
            1 <= y <= x,
            is_pow2_spec(x as int) == is_pow2_spec(y as int),
        decreases y,
    {
        y = y / 2;
    }
    y == 1
}

/// A head record, the columns buffer, and the column of voxels they
/// stand for: the cached head plus the decoded stored ranges replay to
/// exactly `col`, and the whole body lies inside the buffer.
pub open spec fn cell_encodes(pc: PointerColumn, bytes: Seq<u8>, col: Seq<RgbVoxel>) -> bool {
    let cr = seq![pc.first_range] + decoded_ranges(bytes, pc.pointer as int, pc.rle_count as int);
    let cc = decoded_voxels(bytes, pc.pointer + 2 * pc.rle_count, total_drawn(cr));
    &&& pc.first_range.wf()
    &&& 0 <= total_drawn(cr)
    &&& pc.pointer + 2 * pc.rle_count + 2 * total_drawn(cr) <= bytes.len()
    &&& decompress_spec(cr, cc) == col
}

/// A head record keeps its meaning when the columns buffer grows at
/// the end: its body's bytes are untouched.
proof fn lemma_cell_encodes_extend(
    pc: PointerColumn,
    b1: Seq<u8>,
    b2: Seq<u8>,
    col: Seq<RgbVoxel>,
)
    requires
        cell_encodes(pc, b1, col),
        b1.len() <= b2.len(),
        b2.subrange(0, b1.len() as int) == b1,
    ensures
        cell_encodes(pc, b2, col),
{
    assert(forall|j: int| 0 <= j < b1.len() ==> b1[j] == b2[j]);
    assert(decoded_ranges(b2, pc.pointer as int, pc.rle_count as int) =~= decoded_ranges(
        b1,
        pc.pointer as int,
        pc.rle_count as int,
    ));
    let cr = seq![pc.first_range] + decoded_ranges(b1, pc.pointer as int, pc.rle_count as int);
    assert(decoded_voxels(b2, pc.pointer + 2 * pc.rle_count, total_drawn(cr)) =~= decoded_voxels(
        b1,
        pc.pointer + 2 * pc.rle_count,
        total_drawn(cr),
    ));
}

/// The first range the pointer map caches for cell `i` of a grid:
/// the head of the cell's compressed column, or an all-zero range when
/// the column compresses to nothing (a zero-height volume).
pub open spec fn cell_head_range(g: VoxelGrid, i: int) -> RleRange {
    let crs = compress_ranges(g.column_spec(i % (g.xsize as int), i / (g.xsize as int)), 0, 0);
    if crs.len() == 0 {
        RleRange { skipped: 0, drawn: 0 }
    } else {
        crs[0]
    }
}

/// The ranges stored in the buffer for cell `i` of a grid: the cell's
/// compressed column with its head split off.
pub open spec fn cell_rest_ranges(g: VoxelGrid, i: int) -> Seq<RleRange> {
    let crs = compress_ranges(g.column_spec(i % (g.xsize as int), i / (g.xsize as int)), 0, 0);
    if crs.len() == 0 {
        Seq::empty()
    } else {
        crs.drop_first()
    }
}

/// The packed body of cell `i` of a grid: its stored ranges, then all
/// of the column's drawn colors, the head's included.
pub open spec fn cell_body_bytes(g: VoxelGrid, i: int) -> Seq<u8> {
    packed_bytes(
        cell_rest_ranges(g, i),
        drawn_colors(g.column_spec(i % (g.xsize as int), i / (g.xsize as int))),
    )
}

/// The columns buffer a grid encodes to: the packed bodies of cells 0
/// up to `n`, laid end to end in cell order with no gaps.
pub open spec fn encoded_bodies(g: VoxelGrid, n: int) -> Seq<u8>
    decreases n,
{
    if n <= 0 {
        Seq::empty()
    } else {
        encoded_bodies(g, n - 1) + cell_body_bytes(g, n - 1)
    }
}

/// Where cell `i`'s body begins: the total size of the bodies before
/// it.
pub open spec fn body_offset(g: VoxelGrid, i: int) -> int
    decreases i,
{
    if i <= 0 {
        0
    } else {
        body_offset(g, i - 1) + cell_body_bytes(g, i - 1).len()
    }
}

/// The running offset is exactly the length of the buffer built so
/// far.
proof fn lemma_encoded_bodies_len(g: VoxelGrid, n: int)
    ensures
        encoded_bodies(g, n).len() == body_offset(g, n),
        body_offset(g, n) >= 0,
    decreases n,
{
    if n > 0 {
        lemma_encoded_bodies_len(g, n - 1);
    }
}

/// Decoded views of a body are unchanged when the buffer grows at the
/// end.
proof fn lemma_decoded_stable(b1: Seq<u8>, b2: Seq<u8>, off: int, n: int, voff: int, m: int)
    requires
        b1.len() <= b2.len(),
        b2.subrange(0, b1.len() as int) == b1,
        0 <= off,
        0 <= n,
        off + 2 * n <= b1.len(),
        0 <= voff,
        0 <= m,
        voff + 2 * m <= b1.len(),
    ensures
        decoded_ranges(b2, off, n) == decoded_ranges(b1, off, n),
        decoded_voxels(b2, voff, m) == decoded_voxels(b1, voff, m),
{
    assert(forall|j: int| 0 <= j < b1.len() ==> b1[j] == b2[j]);
    assert(decoded_ranges(b2, off, n) =~= decoded_ranges(b1, off, n));
    assert(decoded_voxels(b2, voff, m) =~= decoded_voxels(b1, voff, m));
}

/// A run-length encoded volume of voxels: the flat pointer map, one
/// entry per (x, z) cell in row-major order with x fastest (cell i is
/// x = i % xsize, z = i / xsize), and the packed columns buffer.
#[derive(Debug)]
pub struct RleVolume {
    /// Size of the volume along the x axis.
    pub xsize: u32,
    /// Size of the volume along the y axis: the height of the columns.
    pub ysize: u32,
    /// Size of the volume along the z axis.
    pub zsize: u32,
    /// `xsize * zsize` head records locating each column's packed body.
    pub pointers: Vec<PointerColumn>,
    /// The packed bodies: per cell, `rle_count` ranges then as many
    /// colors as the whole column (cached head included) draws.
    pub columns: Vec<u8>,
}

impl RleVolume {
    /// All ranges of cell `i`: the cached head, then the stored ones.
    pub open spec fn cell_ranges(self, i: int) -> Seq<RleRange> {
        seq![self.pointers@[i].first_range] + decoded_ranges(
            self.columns@,
            self.pointers@[i].pointer as int,
            self.pointers@[i].rle_count as int,
        )
    }

    /// The colors stored for cell `i`, directly after its ranges.
    pub open spec fn cell_colors(self, i: int) -> Seq<RgbVoxel> {
        decoded_voxels(
            self.columns@,
            self.pointers@[i].pointer + 2 * self.pointers@[i].rle_count,
            total_drawn(self.cell_ranges(i)),
        )
    }

    /// The full voxel column that cell `i` stands for.
    pub open spec fn cell_voxels(self, i: int) -> Seq<RgbVoxel> {
        decompress_spec(self.cell_ranges(i), self.cell_colors(i))
    }

    /// The volume is intact: valid dimensions, a full pointer map, and
    /// every cell's body inside the buffer, replaying to a column of
    /// exactly `ysize` voxels.
    pub open spec fn wf(self) -> bool {
        &&& valid_dim(self.xsize as int)
        &&& valid_dim(self.ysize as int)
        &&& valid_dim(self.zsize as int)
        &&& self.pointers@.len() == self.xsize * self.zsize
        &&& forall|i: int|
            0 <= i < self.pointers@.len() ==> {
                &&& self.pointers@[i].first_range.wf()
                &&& 0 <= total_drawn(#[trigger] self.cell_ranges(i))
                &&& self.pointers@[i].pointer + 2 * self.pointers@[i].rle_count + 2 * total_drawn(
                    self.cell_ranges(i),
                ) <= self.columns@.len()
                &&& self.cell_voxels(i).len() == self.ysize
            }
    }

    /// Byte `k` of the fixed 8-byte wire record of one pointer-map
    /// entry: 4 bytes of buffer offset, 2 of range count, 2 of the
    /// cached head range, all little-endian.
    pub open spec fn record_byte(pc: PointerColumn, k: int) -> u8 {
        if k == 0 {
            (pc.pointer % 256) as u8
        } else if k == 1 {
            ((pc.pointer / 256) % 256) as u8
        } else if k == 2 {
            ((pc.pointer / 65536) % 256) as u8
        } else if k == 3 {
            ((pc.pointer / 16777216) % 256) as u8
        } else if k == 4 {
            (pc.rle_count % 256) as u8
        } else if k == 5 {
            ((pc.rle_count / 256) % 256) as u8
        } else if k == 6 {
            (pc.first_range.word() % 256) as u8
        } else {
            (pc.first_range.word() / 256) as u8
        }
    }

    /// The pointer map's wire form: the 8-byte records of all entries,
    /// in cell order.
    pub open spec fn pointer_map_bytes_spec(ps: Seq<PointerColumn>) -> Seq<u8> {
        Seq::new(8 * ps.len(), |j: int| RleVolume::record_byte(ps[j / 8], j % 8))
    }

    /// Serialize the pointer map for the upload boundary: one 8-byte
    /// record per cell.
    #[verifier::loop_isolation(false)]
    pub fn pointer_map_bytes(&self) -> (r: Vec<u8>)
        requires
            self.wf(),
        ensures
            r@ == RleVolume::pointer_map_bytes_spec(self.pointers@),
    {
        let mut r: Vec<u8> = Vec::new();
        let np: usize = self.pointers.len();
        let mut i: usize = 0;
        while i < np
            invariant
                i <= np,
                r@.len() == 8 * i,
                forall|j: int|
                    0 <= j < 8 * i ==> r@[j] == RleVolume::pointer_map_bytes_spec(
                        self.pointers@,
                    )[j],
            decreases np - i,
        {
            let pc = self.pointers[i];
            proof {
                let cri = self.cell_ranges(i as int);
                assert(pc.first_range.wf());
            }
            let fb = pc.first_range.into_bytes();
            r.push((pc.pointer % 256) as u8);
            r.push(((pc.pointer / 256) % 256) as u8);
            r.push(((pc.pointer / 65536) % 256) as u8);
            r.push(((pc.pointer / 16777216) % 256) as u8);
            r.push((pc.rle_count % 256) as u8);
            r.push(((pc.rle_count as u32 / 256) % 256) as u8);
            r.push(fb[0]);
            r.push(fb[1]);
            i = i + 1;
            proof {
                assert forall|j: int| 0 <= j < 8 * i implies r@[j]
                    == RleVolume::pointer_map_bytes_spec(self.pointers@)[j] by {
                    if j >= 8 * (i - 1) {
                        let k = j - 8 * (i - 1);
                        lemma_fundamental_div_mod_converse(j, 8, i - 1, k);
                    }
                }
            }
        }
        proof {
            assert(r@ =~= RleVolume::pointer_map_bytes_spec(self.pointers@));
        }
        r
    }

    /// Size of the columns buffer in bytes.
    pub fn columns_size(&self) -> (r: usize)
        ensures
            r == self.columns@.len(),
    {
        self.columns.len()
    }

    /// Construct a volume with no voxels: every pointer-map entry keeps
    /// offset zero, no stored ranges, and a cached head that skips the
    /// whole column, with an empty columns buffer.
    #[verifier::loop_isolation(false)]
    pub fn empty(xsize: usize, ysize: usize, zsize: usize) -> (r: RleVolume)
        requires
            valid_dim(xsize as int),
            valid_dim(ysize as int),
            valid_dim(zsize as int),
        ensures
            r.wf(),
            r.xsize == xsize,
            r.ysize == ysize,
            r.zsize == zsize,
            r.columns@.len() == 0,
            forall|i: int| 0 <= i < xsize * zsize ==> r.cell_voxels(i) == empty_run(ysize as int),
    {
        proof {
            assert(xsize * zsize < 1024 * 1024) by (nonlinear_arith)
                requires
                    0 <= xsize < 1024,
                    0 <= zsize < 1024,
            ;
        }
        let n: usize = xsize * zsize;
        let fr = RleRange { skipped: ysize as u16, drawn: 0 };
        let pc = PointerColumn { pointer: 0, rle_count: 0, first_range: fr };
        let mut pointers: Vec<PointerColumn> = Vec::new();
        let mut i: usize = 0;
        while i < n
            invariant
                i <= n,
                pointers@.len() == i,
                forall|j: int| 0 <= j < i ==> pointers@[j] == pc,
            decreases n - i,
        {
            pointers.push(pc);
            i = i + 1;
        }
        let r = RleVolume {
            xsize: xsize as u32,
            ysize: ysize as u32,
            zsize: zsize as u32,
            pointers,
            columns: Vec::new(),
        };
        proof {
            assert forall|i: int| 0 <= i < xsize * zsize implies r.cell_voxels(i) == empty_run(
                ysize as int,
            ) && total_drawn(#[trigger] r.cell_ranges(i)) == 0 by {
                assert(decoded_ranges(r.columns@, 0, 0) =~= Seq::<RleRange>::empty());
                assert(r.cell_ranges(i) =~= seq![fr] + Seq::<RleRange>::empty());
                assert(r.cell_ranges(i)[0] == fr);
                assert(r.cell_ranges(i).drop_first() =~= Seq::<RleRange>::empty());
                assert(total_drawn(Seq::<RleRange>::empty()) == 0);
                assert(total_drawn(r.cell_ranges(i)) == 0);
                assert(r.cell_colors(i) =~= Seq::<RgbVoxel>::empty());
                assert(decompress_spec(Seq::<RleRange>::empty(), Seq::<RgbVoxel>::empty().skip(0))
                    =~= Seq::<RgbVoxel>::empty());
                assert(r.cell_voxels(i) =~= empty_run(ysize as int) + Seq::<RgbVoxel>::empty().take(
                    0,
                ) + Seq::<RgbVoxel>::empty());
                assert(r.cell_voxels(i) =~= empty_run(ysize as int));
            }
        }
        r
    }

    /// Encode a dense grid: for every (x, z) cell in row-major order
    /// (x fastest), compress the column, split off its head range into
    /// the pointer map, and pack the remainder at the running offset in
    /// the shared columns buffer.  The contract pins the artifact
    /// itself, not just its meaning: every pointer-map entry caches the
    /// compressed column's head and records the offset and count of its
    /// stored remainder, each cell's ranges are exactly `compress` of
    /// its column, the buffer is the packed remainders laid end to end
    /// in cell order with no gaps, and every cell replays to its column
    /// of the grid.
    #[verifier::loop_isolation(false)]
    pub fn from_dense(grid: &VoxelGrid) -> (r: RleVolume)
        requires
            grid.wf(),
            valid_dim(grid.xsize as int),
            valid_dim(grid.ysize as int),
            valid_dim(grid.zsize as int),
        ensures
            r.wf(),
            r.xsize == grid.xsize,
            r.ysize == grid.ysize,
            r.zsize == grid.zsize,
            r.columns@ == encoded_bodies(*grid, grid.xsize * grid.zsize),
            forall|i: int|
                0 <= i < grid.xsize * grid.zsize ==> {
                    &&& (#[trigger] r.pointers@[i]).pointer == body_offset(*grid, i)
                    &&& r.pointers@[i].rle_count == cell_rest_ranges(*grid, i).len()
                    &&& r.pointers@[i].first_range == cell_head_range(*grid, i)
                },
            forall|i: int|
                0 <= i < grid.xsize * grid.zsize ==> #[trigger] r.cell_ranges(i) == seq![
                    cell_head_range(*grid, i),
                ] + cell_rest_ranges(*grid, i),
            forall|i: int|
                0 <= i < grid.xsize * grid.zsize && compress_ranges(
                    grid.column_spec(i % (grid.xsize as int), i / (grid.xsize as int)),
                    0,
                    0,
                ).len() > 0 ==> #[trigger] r.cell_ranges(i) == compress_ranges(
                    grid.column_spec(i % (grid.xsize as int), i / (grid.xsize as int)),
                    0,
                    0,
                ),
            forall|i: int|
                0 <= i < grid.xsize * grid.zsize ==> #[trigger] r.cell_colors(i) == drawn_colors(
                    grid.column_spec(i % (grid.xsize as int), i / (grid.xsize as int)),
                ),
            forall|x: int, z: int|
                0 <= x < grid.xsize && 0 <= z < grid.zsize ==> #[trigger] r.cell_voxels(
                    z * grid.xsize + x,
                ) == grid.column_spec(x, z),
    {
        let xs: usize = grid.xsize;
        let ys: usize = grid.ysize;
        let zs: usize = grid.zsize;
        proof {
            assert(xs * zs <= 1023 * 1023) by (nonlinear_arith)
                requires
                    0 <= xs < 1024,
                    0 <= zs < 1024,
            ;
        }
        let n: usize = xs * zs;
        let mut pointers: Vec<PointerColumn> = Vec::new();
        let mut columns: Vec<u8> = Vec::new();
        let mut i: usize = 0;
        proof {
            assert(encoded_bodies(*grid, 0) =~= Seq::<u8>::empty());
        }
        while i < n
            invariant
                i <= n,
                pointers@.len() == i,
                columns@.len() <= 4092 * i,
                columns@ == encoded_bodies(*grid, i as int),
                forall|j: int|
                    0 <= j < i ==> cell_encodes(
                        #[trigger] pointers@[j],
                        columns@,
                        grid.column_spec(j % (xs as int), j / (xs as int)),
                    ),
                forall|j: int|
                    0 <= j < i ==> {
                        &&& (#[trigger] pointers@[j]).pointer == body_offset(*grid, j)
                        &&& pointers@[j].rle_count == cell_rest_ranges(*grid, j).len()
                        &&& pointers@[j].first_range == cell_head_range(*grid, j)
                        &&& decoded_ranges(
                            columns@,
                            pointers@[j].pointer as int,
                            pointers@[j].rle_count as int,
                        ) == cell_rest_ranges(*grid, j)
                        &&& decoded_voxels(
                            columns@,
                            pointers@[j].pointer + 2 * pointers@[j].rle_count,
                            total_drawn(
                                seq![cell_head_range(*grid, j)] + cell_rest_ranges(*grid, j),
                            ),
                        ) == drawn_colors(grid.column_spec(j % (xs as int), j / (xs as int)))
                    },
            decreases n - i,
        {
            proof {
                assert(xs >= 1 && zs >= 1) by (nonlinear_arith)
                    requires
                        i < n,
                        n == xs * zs,
                        0 <= xs,
                        0 <= zs,
                ;
                vstd::arithmetic::div_mod::lemma_multiply_divide_lt(i as int, xs as int, zs as int);
            }
            let x: usize = i % xs;
            let z: usize = i / xs;
            let col = grid.column(x, z);
            proof {
                crate::grid::lemma_column_wf(*grid, x as int, z as int);
                lemma_compress_ranges_wf(col@, 0, 0);
                lemma_compress_ranges_len(col@, 0, 0);
                lemma_compress_total_drawn(col@, 0, 0);
                lemma_drawn_colors_wf(col@);
                lemma_drawn_colors_len(col@);
                lemma_compress_roundtrip(col@);
            }
            let rc = RleColumn::compress(col.as_slice());
            let ghost crs = rc.ranges@;
            let (head, rest) = match rc.split_head() {
                Some(p) => p,
                None => (
                    RleRange { skipped: 0, drawn: 0 },
                    RleColumn { ranges: Vec::new(), colors: Vec::new() },
                ),
            };
            proof {
                if crs.len() > 0 {
                    assert(seq![head] + rest.ranges@ =~= crs);
                    assert(ranges_wf(rest.ranges@)) by {
                        assert(forall|j: int|
                            0 <= j < rest.ranges@.len() ==> rest.ranges@[j] == crs[j + 1]);
                    }
                } else {
                    assert(decompress_spec(crs, drawn_colors(col@)) =~= Seq::<RgbVoxel>::empty());
                    assert(col@ =~= Seq::<RgbVoxel>::empty());
                    assert(drawn_colors(col@).len() == 0);
                }
            }
            let rle_count: usize = rest.intervals_count();
            let sz: usize = rest.memory_size();
            let offset: usize = columns.len();
            proof {
                assert(rest.ranges@.len() <= 1023);
                assert(rest.colors@.len() <= 1023);
                assert(offset <= 4092 * (1023 * 1023 - 1));
            }
            pointers.push(
                PointerColumn {
                    pointer: offset as u32,
                    rle_count: rle_count as u16,
                    first_range: head,
                },
            );
            let ghost columns_before = columns@;
            columns.resize(offset + sz, 0u8);
            let written = rest.pack_into(&mut columns, offset);
            proof {
                assert(columns@.subrange(0, offset as int) =~= columns_before);
                let pc = PointerColumn {
                    pointer: offset as u32,
                    rle_count: rle_count as u16,
                    first_range: head,
                };
                lemma_decoded_at_offset(columns@, offset as int, rest.ranges@, rest.colors@);
                let cr = seq![pc.first_range] + decoded_ranges(
                    columns@,
                    pc.pointer as int,
                    pc.rle_count as int,
                );
                assert(cr =~= seq![head] + rest.ranges@);
                if crs.len() > 0 {
                    assert(cr == crs);
                } else {
                    assert(cr =~= seq![head]);
                    assert(cr[0] == head);
                    assert(cr.drop_first() =~= Seq::<RleRange>::empty());
                    assert(total_drawn(Seq::<RleRange>::empty()) == 0);
                    assert(total_drawn(cr) == 0);
                }
                assert(total_drawn(cr) == rest.colors@.len()) by {
                    if crs.len() > 0 {
                        assert(total_drawn(crs) == drawn_colors(col@).len());
                    }
                }
                let cc = decoded_voxels(columns@, pc.pointer + 2 * pc.rle_count, total_drawn(cr));
                assert(cc == rest.colors@);
                assert(decompress_spec(cr, cc) == col@) by {
                    if crs.len() == 0 {
                        assert(cc =~= Seq::<RgbVoxel>::empty());
                        assert(decompress_spec(
                            Seq::<RleRange>::empty(),
                            cc.skip(0),
                        ) =~= Seq::<RgbVoxel>::empty());
                        assert(decompress_spec(cr, cc) =~= empty_run(0) + cc.take(0)
                            + decompress_spec(cr.drop_first(), cc.skip(0)));
                        assert(decompress_spec(cr, cc) =~= col@);
                    }
                }
                assert(cell_encodes(pc, columns@, grid.column_spec(x as int, z as int)));
                assert forall|j: int|
                    0 <= j < i + 1 implies cell_encodes(
                    #[trigger] pointers@[j],
                    columns@,
                    grid.column_spec(j % (xs as int), j / (xs as int)),
                ) by {
                    if j < i {
                        lemma_cell_encodes_extend(
                            pointers@[j],
                            columns_before,
                            columns@,
                            grid.column_spec(j % (xs as int), j / (xs as int)),
                        );
                    } else {
                        assert(j % (xs as int) == x as int);
                        assert(j / (xs as int) == z as int);
                        assert(pointers@[j] == pc);
                    }
                }
                lemma_encoded_bodies_len(*grid, i as int);
                assert(offset == body_offset(*grid, i as int));
                if crs.len() > 0 {
                    assert(cell_head_range(*grid, i as int) == head);
                    assert(cell_rest_ranges(*grid, i as int) == rest.ranges@);
                    assert(drawn_colors(
                        grid.column_spec(i as int % (xs as int), i as int / (xs as int)),
                    ) == rest.colors@);
                } else {
                    assert(cell_head_range(*grid, i as int) == head);
                    assert(cell_rest_ranges(*grid, i as int) =~= rest.ranges@);
                    assert(drawn_colors(
                        grid.column_spec(i as int % (xs as int), i as int / (xs as int)),
                    ) =~= rest.colors@);
                }
                assert(cell_body_bytes(*grid, i as int) == packed_bytes(
                    rest.ranges@,
                    rest.colors@,
                ));
                assert(columns@ =~= columns_before + packed_bytes(rest.ranges@, rest.colors@));
                assert(columns@ == encoded_bodies(*grid, i as int + 1));
                assert forall|j: int|
                    0 <= j < i + 1 implies {
                    &&& (#[trigger] pointers@[j]).pointer == body_offset(*grid, j)
                    &&& pointers@[j].rle_count == cell_rest_ranges(*grid, j).len()
                    &&& pointers@[j].first_range == cell_head_range(*grid, j)
                    &&& decoded_ranges(
                        columns@,
                        pointers@[j].pointer as int,
                        pointers@[j].rle_count as int,
                    ) == cell_rest_ranges(*grid, j)
                    &&& decoded_voxels(
                        columns@,
                        pointers@[j].pointer + 2 * pointers@[j].rle_count,
                        total_drawn(seq![cell_head_range(*grid, j)] + cell_rest_ranges(*grid, j)),
                    ) == drawn_colors(grid.column_spec(j % (xs as int), j / (xs as int)))
                } by {
                    if j < i {
                        let pcj = pointers@[j];
                        let crj = seq![pcj.first_range] + decoded_ranges(
                            columns_before,
                            pcj.pointer as int,
                            pcj.rle_count as int,
                        );
                        assert(cell_encodes(
                            pcj,
                            columns_before,
                            grid.column_spec(j % (xs as int), j / (xs as int)),
                        ));
                        assert(crj == seq![cell_head_range(*grid, j)] + cell_rest_ranges(
                            *grid,
                            j,
                        ));
                        lemma_decoded_stable(
                            columns_before,
                            columns@,
                            pcj.pointer as int,
                            pcj.rle_count as int,
                            pcj.pointer + 2 * pcj.rle_count,
                            total_drawn(crj),
                        );
                    } else {
                        assert(pointers@[j] == pc);
                        assert(offset <= 0xffff_ffff);
                        assert(pc.pointer == offset);
                        assert(pc.rle_count == rest.ranges@.len());
                        assert(total_drawn(
                            seq![cell_head_range(*grid, j)] + cell_rest_ranges(*grid, j),
                        ) == total_drawn(cr));
                    }
                }
            }
            i = i + 1;
        }
        let r = RleVolume {
            xsize: xs as u32,
            ysize: ys as u32,
            zsize: zs as u32,
            pointers,
            columns,
        };
        proof {
            assert forall|x: int, z: int|
                0 <= x < grid.xsize && 0 <= z < grid.zsize implies #[trigger] r.cell_voxels(
                z * grid.xsize + x,
            ) == grid.column_spec(x, z) by {
                let j = z * grid.xsize + x;
                assert(0 <= j < n) by (nonlinear_arith)
                    requires
                        0 <= x < xs,
                        0 <= z < zs,
                        n == xs * zs,
                        j == z * xs + x,
                ;
                lemma_fundamental_div_mod_converse(j, xs as int, z, x);
                assert(cell_encodes(r.pointers@[j], r.columns@, grid.column_spec(x, z)));
            }
            assert forall|j: int| 0 <= j < r.pointers@.len() implies {
                &&& r.pointers@[j].first_range.wf()
                &&& 0 <= total_drawn(#[trigger] r.cell_ranges(j))
                &&& r.pointers@[j].pointer + 2 * r.pointers@[j].rle_count + 2 * total_drawn(
                    r.cell_ranges(j),
                ) <= r.columns@.len()
                &&& r.cell_voxels(j).len() == r.ysize
            } by {
                assert(cell_encodes(
                    r.pointers@[j],
                    r.columns@,
                    grid.column_spec(j % (xs as int), j / (xs as int)),
                ));
                assert(xs >= 1) by (nonlinear_arith)
                    requires
                        0 < n,
                        n == xs * zs,
                        0 <= xs,
                        0 <= zs,
                ;
                vstd::arithmetic::div_mod::lemma_multiply_divide_lt(j, xs as int, zs as int);
                assert(grid.column_spec(j % (xs as int), j / (xs as int)).len() == ys);
            }
            assert forall|i: int|
                0 <= i < grid.xsize * grid.zsize implies {
                &&& (#[trigger] r.pointers@[i]).pointer == body_offset(*grid, i)
                &&& r.pointers@[i].rle_count == cell_rest_ranges(*grid, i).len()
                &&& r.pointers@[i].first_range == cell_head_range(*grid, i)
                &&& r.cell_ranges(i) == seq![cell_head_range(*grid, i)] + cell_rest_ranges(
                    *grid,
                    i,
                )
                &&& r.cell_colors(i) == drawn_colors(
                    grid.column_spec(i % (grid.xsize as int), i / (grid.xsize as int)),
                )
            } by {
                assert(r.pointers@[i].pointer == body_offset(*grid, i));
                assert(decoded_ranges(
                    r.columns@,
                    r.pointers@[i].pointer as int,
                    r.pointers@[i].rle_count as int,
                ) == cell_rest_ranges(*grid, i));
                assert(r.cell_ranges(i) == seq![cell_head_range(*grid, i)] + cell_rest_ranges(
                    *grid,
                    i,
                ));
                assert(decoded_voxels(
                    r.columns@,
                    r.pointers@[i].pointer + 2 * r.pointers@[i].rle_count,
                    total_drawn(seq![cell_head_range(*grid, i)] + cell_rest_ranges(*grid, i)),
                ) == drawn_colors(grid.column_spec(i % (xs as int), i / (xs as int))));
                assert(r.cell_colors(i) == decoded_voxels(
                    r.columns@,
                    r.pointers@[i].pointer + 2 * r.pointers@[i].rle_count,
                    total_drawn(r.cell_ranges(i)),
                ));
            }
            assert forall|i: int|
                0 <= i < grid.xsize * grid.zsize && compress_ranges(
                    grid.column_spec(i % (grid.xsize as int), i / (grid.xsize as int)),
                    0,
                    0,
                ).len() > 0 implies #[trigger] r.cell_ranges(i) == compress_ranges(
                grid.column_spec(i % (grid.xsize as int), i / (grid.xsize as int)),
                0,
                0,
            ) by {
                let crs = compress_ranges(
                    grid.column_spec(i % (grid.xsize as int), i / (grid.xsize as int)),
                    0,
                    0,
                );
                assert(cell_head_range(*grid, i) == crs[0]);
                assert(cell_rest_ranges(*grid, i) == crs.drop_first());
                assert(seq![crs[0]] + crs.drop_first() =~= crs);
                assert(r.cell_ranges(i) == seq![cell_head_range(*grid, i)] + cell_rest_ranges(
                    *grid,
                    i,
                ));
            }
            assert(r.columns@ == encoded_bodies(*grid, grid.xsize * grid.zsize));
        }
        r
    }

    /// Decode the volume back into a dense grid: every pointer-map
    /// cell is unpacked with its cached head range, decompressed, and
    /// scattered into the column at its (x, z) position.
    #[verifier::loop_isolation(false)]
    pub fn to_dense(&self) -> (g: VoxelGrid)
        requires
            self.wf(),
        ensures
            g.wf(),
            g.xsize == self.xsize,
            g.ysize == self.ysize,
            g.zsize == self.zsize,
            forall|x: int, z: int|
                0 <= x < self.xsize && 0 <= z < self.zsize ==> #[trigger] g.column_spec(x, z)
                    == self.cell_voxels(z * self.xsize + x),
    {
        let xs: usize = self.xsize as usize;
        let ys: usize = self.ysize as usize;
        let zs: usize = self.zsize as usize;
        proof {
            assert(xs * ys <= 1023 * 1023 && xs * zs <= 1023 * 1023 && xs * ys * zs <= 1023
                * 1023 * 1023) by (nonlinear_arith)
                requires
                    0 <= xs < 1024,
                    0 <= ys < 1024,
                    0 <= zs < 1024,
            ;
        }
        let mut g = VoxelGrid::filled(xs, ys, zs, RgbVoxel::empty());
        let n: usize = xs * zs;
        let mut i: usize = 0;
        while i < n
            invariant
                i <= n,
                g.wf(),
                g.xsize == xs,
                g.ysize == ys,
                g.zsize == zs,
                forall|j: int|
                    0 <= j < i ==> #[trigger] g.column_spec(j % (xs as int), j / (xs as int))
                        == self.cell_voxels(j),
            decreases n - i,
        {
            proof {
                assert(xs >= 1 && zs >= 1) by (nonlinear_arith)
                    requires
                        i < n,
                        n == xs * zs,
                        0 <= xs,
                        0 <= zs,
                ;
                vstd::arithmetic::div_mod::lemma_multiply_divide_lt(i as int, xs as int, zs as int);
            }
            let x: usize = i % xs;
            let z: usize = i / xs;
            let pc = self.pointers[i];
            proof {
                let cri = self.cell_ranges(i as int);
                assert(pc.first_range.wf());
                assert(first_seq(Some(pc.first_range)) =~= seq![pc.first_range]);
            }
            let col = RleColumn::unpack_from(
                &self.columns,
                pc.pointer as usize,
                pc.rle_count as usize,
                Some(pc.first_range),
            );
            proof {
                assert(col.ranges@ == self.cell_ranges(i as int));
                assert(col.colors@ == self.cell_colors(i as int));
                lemma_decompress_wf(col.ranges@, col.colors@);
            }
            let vox = col.decompress();
            proof {
                assert(vox@ == self.cell_voxels(i as int));
                assert(vox@.len() == ys);
            }
            let ghost g_before = g;
            g.set_column(x, z, &vox);
            proof {
                assert forall|j: int|
                    0 <= j < i + 1 implies #[trigger] g.column_spec(
                    j % (xs as int),
                    j / (xs as int),
                ) == self.cell_voxels(j) by {
                    if j < i {
                        let xj = j % (xs as int);
                        let zj = j / (xs as int);
                        vstd::arithmetic::div_mod::lemma_multiply_divide_lt(j, xs as int, zs as int);
                        if xj == x as int && zj == z as int {
                            lemma_fundamental_div_mod(j, xs as int);
                            lemma_fundamental_div_mod(i as int, xs as int);
                            assert(false);
                        }
                        assert(g.column_spec(xj, zj) =~= g_before.column_spec(xj, zj));
                    } else {
                        assert(j % (xs as int) == x as int);
                        assert(j / (xs as int) == z as int);
                    }
                }
            }
            i = i + 1;
        }
        proof {
            assert forall|x: int, z: int|
                0 <= x < self.xsize && 0 <= z < self.zsize implies #[trigger] g.column_spec(x, z)
                == self.cell_voxels(z * self.xsize + x) by {
                let j = z * (xs as int) + x;
                assert(0 <= j < n) by (nonlinear_arith)
                    requires
                        0 <= x < xs,
                        0 <= z < zs,
                        n == xs * zs,
                        j == z * xs + x,
                ;
                lemma_fundamental_div_mod_converse(j, xs as int, z, x);
            }
        }
        g
    }
}

} // verus!
