//! Import helpers for voxel models with 8-bit palette colors.

use vstd::prelude::*;
use crate::grid::VoxelGrid;
use crate::voxel::RgbVoxel;

verus! {

/// Quantize a 32-bit color with 8-bit channels, packed little-endian
/// with red in bits [0,8), green in [8,16) and blue in [16,24), down to
/// the 5/6/5 voxel layout by dropping the low bits of each channel.
pub open spec fn shakal_spec(rgb: u32) -> RgbVoxel {
    RgbVoxel {
        red: ((rgb % 256) / 8) as u8,
        green: (((rgb / 256) % 256) / 4) as u8,
        blue: (((rgb / 65536) % 256) / 8) as u8,
    }
}

/// Convert a color with 8-bit channels, packed little-endian into a
/// 32-bit word, into a 5/6/5 voxel.
pub fn shakal(rgb: u32) -> (r: RgbVoxel)
    ensures
        r == shakal_spec(rgb),
        r.wf(),
{
    let red = ((rgb % 256) / 8) as u8;
    let green = (((rgb / 256) % 256) / 4) as u8;
    let blue = (((rgb / 65536) % 256) / 8) as u8;
    RgbVoxel { red, green, blue }
}

/// Flat index into a 256-cubed voxel space, row-major with x outermost.
pub fn metric(x: usize, y: usize, z: usize) -> (r: usize)
    requires
        x < 256,
        y < 256,
        z < 256,
    ensures
        r == (x * 256 + y) * 256 + z,
{
    (x * 256 + y) * 256 + z
}

/// The color that cell (x, y, z) ends up with after the listed voxels
/// are written in order: the latest entry at those coordinates wins,
/// and a cell no entry names stays empty.
pub open spec fn model_voxel(
    voxels: Seq<(u8, u8, u8, u8)>,
    palette: Seq<u32>,
    x: int,
    y: int,
    z: int,
) -> RgbVoxel
    decreases voxels.len(),
{
    if voxels.len() == 0 {
        RgbVoxel::empty_spec()
    } else {
        let last = voxels.last();
        if last.0 == x && last.1 == y && last.2 == z {
            shakal_spec(palette[last.3 as int])
        } else {
            model_voxel(voxels.drop_last(), palette, x, y, z)
        }
    }
}

/// Build the dense 256-cubed grid a voxel model describes: every cell
/// empty except the listed voxels, each written in order with its
/// palette color quantized to 5/6/5.
#[verifier::loop_isolation(false)]
pub fn voxels_to_grid(voxels: &Vec<(u8, u8, u8, u8)>, palette: &Vec<u32>) -> (g: VoxelGrid)
    requires
        palette@.len() >= 256,
    ensures
        g.wf(),
        g.xsize == 256,
        g.ysize == 256,
        g.zsize == 256,
        forall|x: int, y: int, z: int|
            0 <= x < 256 && 0 <= y < 256 && 0 <= z < 256 ==> g.voxel_spec(x, y, z) == model_voxel(
                voxels@,
                palette@,
                x,
                y,
                z,
            ),
{
    let mut g = VoxelGrid::filled(256, 256, 256, RgbVoxel::empty());
    let n: usize = voxels.len();
    let mut i: usize = 0;
    proof {
        assert(voxels@.take(0) =~= Seq::<(u8, u8, u8, u8)>::empty());
    }
    while i < n
        invariant
            i <= n,
            g.wf(),
            g.xsize == 256,
            g.ysize == 256,
            g.zsize == 256,
            forall|x: int, y: int, z: int|
                0 <= x < 256 && 0 <= y < 256 && 0 <= z < 256 ==> g.voxel_spec(x, y, z)
                    == model_voxel(voxels@.take(i as int), palette@, x, y, z),
        decreases n - i,
    {
        let v = voxels[i];
        let c = shakal(palette[v.3 as usize]);
        let ghost g_before = g;
        g.set(v.0 as usize, v.1 as usize, v.2 as usize, c);
        i = i + 1;
        proof {
            let pre = voxels@.take(i - 1);
            let cur = voxels@.take(i as int);
            assert(cur.drop_last() =~= pre);
            assert(cur.last() == voxels@[i - 1]);
            assert forall|x: int, y: int, z: int|
                0 <= x < 256 && 0 <= y < 256 && 0 <= z < 256 implies g.voxel_spec(x, y, z)
                == model_voxel(cur, palette@, x, y, z) by {
                if v.0 == x && v.1 == y && v.2 == z {
                    assert(g.voxel_spec(x, y, z) == c);
                } else {
                    assert(g.voxel_spec(x, y, z) == g_before.voxel_spec(x, y, z));
                }
            }
        }
    }
    proof {
        assert(voxels@.take(n as int) =~= voxels@);
    }
    g
}

} // verus!
