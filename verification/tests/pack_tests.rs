use rynda_format::column::RleColumn;
use rynda_format::range::RleRange;
use rynda_format::voxel::RgbVoxel;

#[test]
fn pack_into_test_empty() {
    let column = RleColumn::compress(&[]);
    let mut buffer = vec![];
    let size = column.pack_into(&mut buffer, 0);
    assert_eq!(size, buffer.len(), "Packed size is not equal buffer size");
    assert_eq!(buffer, vec![], "Packing column with no ranges");
}

#[test]
fn pack_into_test_simple01() {
    let column = RleColumn::compress(&[RgbVoxel::empty()]);
    let mut buffer = vec![0; 2];
    let size = column.pack_into(&mut buffer, 0);
    assert_eq!(size, buffer.len(), "Packed size is not equal buffer size");
    assert_eq!(buffer, vec![1, 0], "Packing column with single empty range");
}

#[test]
fn pack_into_test_simple02() {
    let column = RleColumn::compress(&[RgbVoxel::only_green(1)]);
    let mut buffer = vec![0; 4];
    let size = column.pack_into(&mut buffer, 0);
    assert_eq!(size, buffer.len(), "Packed size is not equal buffer size");
    assert_eq!(
        buffer,
        vec![0, 0b00000100, 0b00100000, 0],
        "Packing column with single color range"
    );
}

#[test]
fn pack_into_test_simple03() {
    let column = RleColumn::compress(&[RgbVoxel::only_red(1), RgbVoxel::only_red(1)]);
    let mut buffer = vec![0; 6];
    let size = column.pack_into(&mut buffer, 0);
    assert_eq!(size, buffer.len(), "Packed size is not equal buffer size");
    assert_eq!(
        buffer,
        vec![0, 0b00001000, 0b00000001, 0, 0b00000001, 0],
        "Packing column with single color range"
    );
}

#[test]
fn pack_into_test_simple04() {
    let (_, column) = RleColumn::compress(&[RgbVoxel::only_red(1), RgbVoxel::only_red(1)])
        .split_head()
        .unwrap();
    let mut buffer = vec![0; 4];
    let size = column.pack_into(&mut buffer, 0);
    assert_eq!(size, buffer.len(), "Packed size is not equal buffer size");
    assert_eq!(
        buffer,
        vec![0b00000001, 0, 0b00000001, 0],
        "Packing column with single color range with split"
    );
}

#[test]
fn pack_into_test_complex() {
    let column = RleColumn::compress(&[
        RgbVoxel::only_red(1),
        RgbVoxel::empty(),
        RgbVoxel::only_blue(1),
    ]);
    let mut buffer = vec![0; 8];
    let size = column.pack_into(&mut buffer, 0);
    assert_eq!(size, buffer.len(), "Packed size is not equal buffer size");
    assert_eq!(
        buffer,
        vec![0, 0b00000100, 1, 0b00000100, 0b00000001, 0, 0, 0b00001000],
        "Packing column with two ranges"
    );
}

#[test]
fn unpack_from_test_empty() {
    let buffer = vec![];
    let column = RleColumn::unpack_from(&buffer, 0, 0, None);
    assert_eq!(column, RleColumn::compress(&[]), "Unpacking column with no ranges");
}

#[test]
fn unpack_from_test_empty_first() {
    let buffer = vec![];
    let column = RleColumn::unpack_from(&buffer, 0, 0, Some(RleRange::range(1, 0)));
    assert_eq!(
        column,
        RleColumn { ranges: vec![RleRange::range(1, 0)], colors: vec![] },
        "Unpacking column with no ranges"
    );
}

#[test]
fn unpack_from_test_simple01() {
    let buffer = vec![1, 0];
    let column = RleColumn::unpack_from(&buffer, 0, 1, None);
    assert_eq!(
        column,
        RleColumn::compress(&[RgbVoxel::empty()]),
        "Unpacking column with single range"
    );
}

#[test]
fn unpack_from_test_simple01_first() {
    let buffer = vec![1, 0];
    let column = RleColumn::unpack_from(&buffer, 0, 1, Some(RleRange::range(1, 0)));
    assert_eq!(
        column.optimize(),
        RleColumn::compress(&[RgbVoxel::empty(), RgbVoxel::empty()]),
        "Unpacking column with single range"
    );
}

#[test]
fn unpack_from_test_simple02() {
    let buffer = vec![0, 0b00000100, 0b00100000, 0];
    let column = RleColumn::unpack_from(&buffer, 0, 1, None);
    assert_eq!(
        column,
        RleColumn::compress(&[RgbVoxel::only_green(1)]),
        "Unpacking column with single range"
    );
}

#[test]
fn unpack_from_test_simple03() {
    let buffer = vec![0b00000001, 0, 0b00000001, 0];
    let column = RleColumn::unpack_from(&buffer, 0, 0, Some(RleRange::range(0, 2)));
    assert_eq!(
        column,
        RleColumn::compress(&[RgbVoxel::only_red(1), RgbVoxel::only_red(1)]),
        "Unpacking column with single range"
    );
}

#[test]
fn unpack_from_test_simple04() {
    let buffer = vec![
        1, 0b00001000, 0b00000001, 0, 0b00000001, 0, 0b00100000, 0, 0b00100000, 0,
    ];
    let column = RleColumn::unpack_from(&buffer, 0, 1, Some(RleRange::range(0, 2)));
    assert_eq!(
        column,
        RleColumn::compress(&[
            RgbVoxel::only_red(1),
            RgbVoxel::only_red(1),
            RgbVoxel::empty(),
            RgbVoxel::only_green(1),
            RgbVoxel::only_green(1)
        ]),
        "Unpacking column with two range"
    );
}

#[test]
fn pack_unpack_roundtrip() {
    let voxels = vec![
        RgbVoxel::empty(),
        RgbVoxel::only_red(3),
        RgbVoxel::rgb(1, 2, 3),
        RgbVoxel::empty(),
        RgbVoxel::empty(),
        RgbVoxel::only_blue(9),
    ];
    let column = RleColumn::compress(&voxels);
    let size = column.memory_size();
    let mut buffer = vec![0u8; size];
    let written = column.pack_into(&mut buffer, 0);
    assert_eq!(written, size);
    let back = RleColumn::unpack_from(&buffer, 0, column.intervals_count(), None);
    assert_eq!(back, column);
}

#[test]
fn pack_at_offset_leaves_rest_alone() {
    let column = RleColumn::compress(&[RgbVoxel::only_green(1)]);
    let mut buffer = vec![0xAA; 8];
    let size = column.pack_into(&mut buffer, 2);
    assert_eq!(size, 4);
    assert_eq!(buffer, vec![0xAA, 0xAA, 0, 0b00000100, 0b00100000, 0, 0xAA, 0xAA]);
    let back = RleColumn::unpack_from(&buffer, 2, 1, None);
    assert_eq!(back, column);
}
