use rynda_format::grid::VoxelGrid;
use rynda_format::volume::{is_power2, RleVolume};
use rynda_format::voxel::RgbVoxel;

/// Build a grid from nested per-axis vectors indexed as cells[x][y][z].
fn grid3(cells: Vec<Vec<Vec<RgbVoxel>>>) -> VoxelGrid {
    let xsize = cells.len();
    let ysize = if xsize > 0 { cells[0].len() } else { 0 };
    let zsize = if ysize > 0 { cells[0][0].len() } else { 0 };
    let mut g = VoxelGrid::filled(xsize, ysize, zsize, RgbVoxel::empty());
    for (x, plane) in cells.iter().enumerate() {
        assert_eq!(plane.len(), ysize);
        for (y, row) in plane.iter().enumerate() {
            assert_eq!(row.len(), zsize);
            for (z, voxel) in row.iter().enumerate() {
                g.set(x, y, z, *voxel);
            }
        }
    }
    g
}

fn encode_decode_array(voxels: VoxelGrid, descr: &str) {
    let (x, y, z) = (voxels.xsize, voxels.ysize, voxels.zsize);
    let volume = RleVolume::from_dense(&voxels);
    let decoded = volume.to_dense();
    assert_eq!(
        decoded, voxels,
        "Encoding-decoding {} volume {}x{}x{}",
        descr, x, y, z
    );
}

#[test]
fn types_empty_volumes() {
    let _volume1 = RleVolume::empty(1, 1, 1);
    let _volume2 = RleVolume::empty(2, 2, 2);
    let _volume4 = RleVolume::empty(4, 4, 4);
    let _volume8 = RleVolume::empty(8, 8, 8);
    let _volume16 = RleVolume::empty(16, 16, 16);
    let _volume32 = RleVolume::empty(32, 32, 32);
    let _volume64 = RleVolume::empty(64, 64, 64);
    let _volume128 = RleVolume::empty(128, 128, 128);
    let _volume256 = RleVolume::empty(256, 256, 256);
    let _volume512 = RleVolume::empty(512, 512, 512);
}

#[test]
fn volume_empty_volumes() {
    let _volume1 = RleVolume::empty(1, 1, 1);
    let _volume2 = RleVolume::empty(2, 2, 2);
    let _volume4 = RleVolume::empty(4, 4, 4);
    let _volume8 = RleVolume::empty(8, 8, 8);
    let _volume16 = RleVolume::empty(16, 16, 16);
    let _volume32 = RleVolume::empty(32, 32, 32);
    let _volume64 = RleVolume::empty(64, 64, 64);
    let _volume128 = RleVolume::empty(128, 128, 128);
    let _volume256 = RleVolume::empty(256, 256, 256);
    let _volume512 = RleVolume::empty(512, 512, 512);
}

#[test]
fn empty_zero_volume0() {
    let _v = RleVolume::empty(0, 0, 0);
    let _v = RleVolume::empty(1, 0, 0);
    let _v = RleVolume::empty(0, 1, 0);
    let _v = RleVolume::empty(0, 0, 1);
}

#[test]
fn empty_volume_shape() {
    let v = RleVolume::empty(2, 4, 2);
    assert_eq!(v.xsize, 2);
    assert_eq!(v.ysize, 4);
    assert_eq!(v.zsize, 2);
    assert_eq!(v.pointers.len(), 4);
    assert_eq!(v.columns_size(), 0);
    for pc in &v.pointers {
        assert_eq!(pc.pointer, 0);
        assert_eq!(pc.rle_count, 0);
        assert_eq!(pc.first_range.skipped, 4);
        assert_eq!(pc.first_range.drawn, 0);
    }
    let decoded = v.to_dense();
    for x in 0..2 {
        for y in 0..4 {
            for z in 0..2 {
                assert!(decoded.get(x, y, z).is_empty());
            }
        }
    }
}

#[test]
fn pointer_map_wire_bytes() {
    let v = RleVolume::empty(2, 4, 2);
    let bytes = v.pointer_map_bytes();
    assert_eq!(bytes.len(), 32);
    for rec in bytes.chunks(8) {
        assert_eq!(rec, &[0, 0, 0, 0, 0, 0, 4, 0]);
    }
}

#[test]
fn encode_array_test01() {
    let z = RgbVoxel::empty();
    let voxels = grid3(vec![
        vec![vec![z, z], vec![z, z]],
        vec![vec![z, z], vec![z, z]],
    ]);
    encode_decode_array(voxels, "empty");
}

#[test]
fn encode_array_test02() {
    let z = RgbVoxel::empty();
    let r = RgbVoxel::only_red(1);
    let voxels = grid3(vec![
        vec![vec![z, r], vec![z, r]],
        vec![vec![z, z], vec![z, z]],
    ]);
    encode_decode_array(voxels, "simple");
}

#[test]
fn encode_array_test03() {
    let r = RgbVoxel::only_red(1);
    let g = RgbVoxel::only_green(1);
    let voxels = grid3(vec![
        vec![vec![g, r], vec![g, r]],
        vec![vec![r, g], vec![g, r]],
    ]);
    encode_decode_array(voxels, "filled");
}

#[test]
fn encode_array_test04() {
    let z = RgbVoxel::empty();
    let r = RgbVoxel::only_red(1);
    let g = RgbVoxel::only_green(1);
    let voxels = grid3(vec![
        vec![vec![g, z], vec![g, r]],
        vec![vec![z, g], vec![g, r]],
    ]);
    encode_decode_array(voxels, "partially filled");
}

#[test]
fn encode_array_test05() {
    let z = RgbVoxel::empty();
    let r = RgbVoxel::only_red(1);
    let g = RgbVoxel::only_green(1);
    let voxels = grid3(vec![
        vec![
            vec![g, z, z, r],
            vec![g, r, z, z],
            vec![g, r, z, z],
            vec![g, r, z, z],
        ],
        vec![
            vec![z, g, g, z],
            vec![g, r, r, g],
            vec![g, r, r, g],
            vec![g, r, r, g],
        ],
        vec![
            vec![z, g, g, z],
            vec![g, r, r, g],
            vec![g, r, r, g],
            vec![g, r, r, g],
        ],
        vec![
            vec![z, g, g, z],
            vec![g, r, r, g],
            vec![g, r, r, g],
            vec![g, r, r, g],
        ],
    ]);
    encode_decode_array(voxels, "partially filled");
}

#[test]
fn encoded_volume_layout() {
    // One 2x2x1 grid: the column at (0, 0) holds one red voxel at the
    // bottom, the others are empty.
    let z = RgbVoxel::empty();
    let r = RgbVoxel::only_red(1);
    let grid = grid3(vec![vec![vec![r], vec![z]], vec![vec![z], vec![z]]]);
    let volume = RleVolume::from_dense(&grid);
    assert_eq!(volume.pointers.len(), 2);
    // Cell 0 is (x=0, z=0): the head range draws the one voxel, and one
    // stored range skips the rest of the column.
    let pc0 = volume.pointers[0];
    assert_eq!(pc0.pointer, 0);
    assert_eq!(pc0.first_range.skipped, 0);
    assert_eq!(pc0.first_range.drawn, 1);
    assert_eq!(pc0.rle_count, 1);
    // Cell 1 is (x=1, z=0): the whole column is empty.
    let pc1 = volume.pointers[1];
    assert_eq!(pc1.pointer, 4);
    assert_eq!(pc1.first_range.skipped, 2);
    assert_eq!(pc1.first_range.drawn, 0);
    assert_eq!(pc1.rle_count, 0);
    // The buffer holds cell 0's stored range word, then its red color.
    assert_eq!(volume.columns, vec![1, 0, 1, 0]);
}

#[test]
fn encoded_bodies_are_contiguous() {
    // Four columns of height two whose packed bodies have different
    // sizes: the pointer of each cell must be the running sum of the
    // earlier bodies, and the buffer their exact concatenation.
    let z = RgbVoxel::empty();
    let r = RgbVoxel::only_red(1);
    let grid = grid3(vec![
        vec![vec![r], vec![r]],
        vec![vec![z], vec![r]],
        vec![vec![z], vec![z]],
        vec![vec![r], vec![z]],
    ]);
    let volume = RleVolume::from_dense(&grid);
    assert_eq!(volume.pointers.len(), 4);
    // Cell 0, column [r, r]: head (0,2), no stored range, two colors.
    assert_eq!(volume.pointers[0].pointer, 0);
    assert_eq!(volume.pointers[0].rle_count, 0);
    assert_eq!(volume.pointers[0].first_range.skipped, 0);
    assert_eq!(volume.pointers[0].first_range.drawn, 2);
    // Cell 1, column [z, r]: head (1,1), no stored range, one color.
    assert_eq!(volume.pointers[1].pointer, 4);
    assert_eq!(volume.pointers[1].rle_count, 0);
    assert_eq!(volume.pointers[1].first_range.skipped, 1);
    assert_eq!(volume.pointers[1].first_range.drawn, 1);
    // Cell 2, column [z, z]: head (2,0), empty body.
    assert_eq!(volume.pointers[2].pointer, 6);
    assert_eq!(volume.pointers[2].rle_count, 0);
    assert_eq!(volume.pointers[2].first_range.skipped, 2);
    assert_eq!(volume.pointers[2].first_range.drawn, 0);
    // Cell 3, column [r, z]: head (0,1), one stored range, one color.
    assert_eq!(volume.pointers[3].pointer, 6);
    assert_eq!(volume.pointers[3].rle_count, 1);
    assert_eq!(volume.pointers[3].first_range.skipped, 0);
    assert_eq!(volume.pointers[3].first_range.drawn, 1);
    // The buffer is the bodies laid end to end with no gaps.
    assert_eq!(volume.columns, vec![1, 0, 1, 0, 1, 0, 1, 0, 1, 0]);
    assert_eq!(volume.columns_size(), 10);
}

#[test]
fn is_power2_tests() {
    assert!(!is_power2(0));
    assert!(is_power2(1));
    assert!(is_power2(2));
    assert!(!is_power2(3));
    assert!(is_power2(512));
    assert!(!is_power2(513));
    assert!(is_power2(1024));
}
