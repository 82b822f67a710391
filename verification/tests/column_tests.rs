use rynda_format::column::RleColumn;
use rynda_format::range::RleRange;
use rynda_format::voxel::RgbVoxel;

#[test]
fn column_tests() {
    assert_eq!(
        RleColumn::compress(&[]),
        RleColumn { ranges: vec![], colors: vec![] },
        "Compression of empty column"
    );

    assert_eq!(
        RleColumn::compress(&[RgbVoxel::empty()]),
        RleColumn { ranges: vec![RleRange::range(1, 0)], colors: vec![] },
        "Compression of single empty voxel"
    );

    assert_eq!(
        RleColumn::compress(&[RgbVoxel::empty(); 5]),
        RleColumn { ranges: vec![RleRange::range(5, 0)], colors: vec![] },
        "Compression of empty column"
    );
    assert_eq!(
        RleColumn::compress(&[RgbVoxel::empty(), RgbVoxel::empty(), RgbVoxel::only_red(1)]),
        RleColumn { ranges: vec![RleRange::range(2, 1)], colors: vec![RgbVoxel::only_red(1)] },
        "Compression of simple column"
    );

    assert_eq!(
        RleColumn::compress(&[RgbVoxel::only_red(1), RgbVoxel::only_green(1)]),
        RleColumn {
            ranges: vec![RleRange::range(0, 2)],
            colors: vec![RgbVoxel::only_red(1), RgbVoxel::only_green(1)],
        },
        "Compression of two non empty voxels"
    );

    assert_eq!(
        RleColumn::compress(&[RgbVoxel::only_red(1); 64]),
        RleColumn {
            ranges: vec![RleRange::range(0, 63), RleRange::range(0, 1)],
            colors: vec![RgbVoxel::only_red(1); 64],
        },
        "Compression of column with drawn overflow"
    );

    assert_eq!(
        RleColumn::compress(&[RgbVoxel::empty(); 1024]),
        RleColumn {
            ranges: vec![RleRange::range(1023, 0), RleRange::range(1, 0)],
            colors: vec![],
        },
        "Compression of column with skipped overflow"
    );

    assert_eq!(
        RleColumn::compress(&[
            RgbVoxel::empty(),
            RgbVoxel::only_red(1),
            RgbVoxel::empty(),
            RgbVoxel::only_blue(1)
        ]),
        RleColumn {
            ranges: vec![RleRange::range(1, 1), RleRange::range(1, 1)],
            colors: vec![RgbVoxel::only_red(1), RgbVoxel::only_blue(1)],
        },
        "Compression of column with two ranges"
    );

    assert_eq!(
        RleColumn::compress(&[RgbVoxel::empty(), RgbVoxel::only_red(1), RgbVoxel::empty()]),
        RleColumn {
            ranges: vec![RleRange::range(1, 1), RleRange::range(1, 0)],
            colors: vec![RgbVoxel::only_red(1)],
        },
        "Compression of column with two ranges, second empty"
    );
}

#[test]
fn column_compress_tests() {
    assert_eq!(
        RleColumn::compress(&[]),
        RleColumn { ranges: vec![], colors: vec![] },
        "Compression of empty column"
    );

    assert_eq!(
        RleColumn::compress(&[RgbVoxel::empty()]),
        RleColumn { ranges: vec![RleRange::range(1, 0)], colors: vec![] },
        "Compression of single empty voxel"
    );

    assert_eq!(
        RleColumn::compress(&[RgbVoxel::empty(); 5]),
        RleColumn { ranges: vec![RleRange::range(5, 0)], colors: vec![] },
        "Compression of empty column"
    );
    assert_eq!(
        RleColumn::compress(&[RgbVoxel::empty(), RgbVoxel::empty(), RgbVoxel::only_red(1)]),
        RleColumn { ranges: vec![RleRange::range(2, 1)], colors: vec![RgbVoxel::only_red(1)] },
        "Compression of simple column"
    );

    assert_eq!(
        RleColumn::compress(&[RgbVoxel::only_red(1), RgbVoxel::only_green(1)]),
        RleColumn {
            ranges: vec![RleRange::range(0, 2)],
            colors: vec![RgbVoxel::only_red(1), RgbVoxel::only_green(1)],
        },
        "Compression of two non empty voxels"
    );

    assert_eq!(
        RleColumn::compress(&[RgbVoxel::only_red(1); 64]),
        RleColumn {
            ranges: vec![RleRange::range(0, 63), RleRange::range(0, 1)],
            colors: vec![RgbVoxel::only_red(1); 64],
        },
        "Compression of column with drawn overflow"
    );

    assert_eq!(
        RleColumn::compress(&[RgbVoxel::empty(); 1024]),
        RleColumn {
            ranges: vec![RleRange::range(1023, 0), RleRange::range(1, 0)],
            colors: vec![],
        },
        "Compression of column with skipped overflow"
    );

    assert_eq!(
        RleColumn::compress(&[
            RgbVoxel::empty(),
            RgbVoxel::only_red(1),
            RgbVoxel::empty(),
            RgbVoxel::only_blue(1)
        ]),
        RleColumn {
            ranges: vec![RleRange::range(1, 1), RleRange::range(1, 1)],
            colors: vec![RgbVoxel::only_red(1), RgbVoxel::only_blue(1)],
        },
        "Compression of column with two ranges"
    );

    assert_eq!(
        RleColumn::compress(&[RgbVoxel::empty(), RgbVoxel::only_red(1), RgbVoxel::empty()]),
        RleColumn {
            ranges: vec![RleRange::range(1, 1), RleRange::range(1, 0)],
            colors: vec![RgbVoxel::only_red(1)],
        },
        "Compression of column with two ranges, second empty"
    );
}

#[test]
fn column_decompress_test() {
    assert_eq!(
        RleColumn { ranges: vec![], colors: vec![] }.decompress(),
        vec![],
        "Decompression of empty column"
    );

    assert_eq!(
        RleColumn { ranges: vec![RleRange::range(1, 0)], colors: vec![] }.decompress(),
        vec![RgbVoxel::empty()],
        "Decompression of single empty voxel"
    );

    assert_eq!(
        RleColumn { ranges: vec![RleRange::range(5, 0)], colors: vec![] }.decompress(),
        vec![RgbVoxel::empty(); 5],
        "Decompression of empty column"
    );
    assert_eq!(
        RleColumn { ranges: vec![RleRange::range(2, 1)], colors: vec![RgbVoxel::only_red(1)] }
            .decompress(),
        vec![RgbVoxel::empty(), RgbVoxel::empty(), RgbVoxel::only_red(1)],
        "Decompression of simple column"
    );

    assert_eq!(
        RleColumn {
            ranges: vec![RleRange::range(0, 2)],
            colors: vec![RgbVoxel::only_red(1), RgbVoxel::only_green(1)],
        }
        .decompress(),
        vec![RgbVoxel::only_red(1), RgbVoxel::only_green(1)],
        "Decompression of two non empty voxels"
    );

    assert_eq!(
        RleColumn {
            ranges: vec![RleRange::range(0, 63), RleRange::range(0, 1)],
            colors: vec![RgbVoxel::only_red(1); 64],
        }
        .decompress(),
        vec![RgbVoxel::only_red(1); 64],
        "Decompression of column with drawn overflow"
    );

    assert_eq!(
        RleColumn {
            ranges: vec![RleRange::range(1023, 0), RleRange::range(1, 0)],
            colors: vec![],
        }
        .decompress(),
        vec![RgbVoxel::empty(); 1024],
        "Decompression of column with skipped overflow"
    );

    assert_eq!(
        RleColumn {
            ranges: vec![RleRange::range(1, 1), RleRange::range(1, 1)],
            colors: vec![RgbVoxel::only_red(1), RgbVoxel::only_blue(1)],
        }
        .decompress(),
        vec![
            RgbVoxel::empty(),
            RgbVoxel::only_red(1),
            RgbVoxel::empty(),
            RgbVoxel::only_blue(1)
        ],
        "Decompression of column with two ranges"
    );

    assert_eq!(
        RleColumn {
            ranges: vec![RleRange::range(1, 1), RleRange::range(1, 0)],
            colors: vec![RgbVoxel::only_red(1)],
        }
        .decompress(),
        vec![RgbVoxel::empty(), RgbVoxel::only_red(1), RgbVoxel::empty()],
        "Decompression of column with two ranges, second empty"
    );
}

#[test]
fn split_head_test() {
    assert_eq!(
        RleColumn::compress(&[]).split_head(),
        None,
        "Splitting empty column produces non empty result"
    );
    assert_eq!(
        RleColumn::compress(&[RgbVoxel::empty()]).split_head(),
        Some((RleRange::range(1, 0), RleColumn { ranges: vec![], colors: vec![] })),
        "Splitting column with single range produces wrong result"
    );
    assert_eq!(
        RleColumn::compress(&[RgbVoxel::only_red(1), RgbVoxel::empty()]).split_head(),
        Some((
            RleRange::range(0, 1),
            RleColumn {
                ranges: vec![RleRange::range(1, 0)],
                colors: vec![RgbVoxel::only_red(1)]
            }
        )),
        "Splitting column with two ranges produces wrong result"
    );
}

#[test]
fn intervals_count_test() {
    assert_eq!(
        RleColumn::compress(&[RgbVoxel::empty(), RgbVoxel::only_red(1), RgbVoxel::empty()])
            .intervals_count(),
        2
    );
}

#[test]
fn optimize_test_01() {
    let column_a = RleColumn { ranges: vec![], colors: vec![] };
    let column_b = RleColumn { ranges: vec![], colors: vec![] };
    assert_eq!(column_a.optimize(), column_b, "Empty column optmizes to empty column");
}

#[test]
fn optimize_test_02() {
    let column_a = RleColumn {
        ranges: vec![RleRange::range(1, 1)],
        colors: vec![RgbVoxel::only_red(1)],
    };
    let column_b = RleColumn {
        ranges: vec![RleRange::range(1, 1)],
        colors: vec![RgbVoxel::only_red(1)],
    };
    assert_eq!(column_a.optimize(), column_b, "Single sized column optmizes to the same column");
}

#[test]
fn optimize_test_03() {
    let column_a = RleColumn {
        ranges: vec![RleRange::range(1, 1), RleRange::range(1, 1)],
        colors: vec![RgbVoxel::only_red(1), RgbVoxel::only_blue(1)],
    };
    let column_b = RleColumn {
        ranges: vec![RleRange::range(1, 1), RleRange::range(1, 1)],
        colors: vec![RgbVoxel::only_red(1), RgbVoxel::only_blue(1)],
    };
    assert_eq!(column_a.optimize(), column_b, "Optimized column optmizes to the same column");
}

#[test]
fn optimize_test_04() {
    let column_a = RleColumn {
        ranges: vec![RleRange::range(1, 0), RleRange::range(1, 1)],
        colors: vec![RgbVoxel::only_blue(1)],
    };
    let column_b = RleColumn {
        ranges: vec![RleRange::range(2, 1)],
        colors: vec![RgbVoxel::only_blue(1)],
    };
    assert_eq!(column_a.optimize(), column_b, "Skipped range optimization");
}

#[test]
fn optimize_test_05() {
    let column_a = RleColumn {
        ranges: vec![
            RleRange::range(1, 0),
            RleRange::range(1, 0),
            RleRange::range(1, 1),
            RleRange::range(1, 0),
        ],
        colors: vec![RgbVoxel::only_blue(1)],
    };
    let column_b = RleColumn {
        ranges: vec![RleRange::range(3, 1), RleRange::range(1, 0)],
        colors: vec![RgbVoxel::only_blue(1)],
    };
    assert_eq!(column_a.optimize(), column_b, "Skipped range optimization");
}

#[test]
fn optimize_test_06() {
    let column_a = RleColumn {
        ranges: vec![RleRange::range(1, 1), RleRange::range(0, 1), RleRange::range(1, 1)],
        colors: vec![RgbVoxel::only_blue(1), RgbVoxel::only_red(1), RgbVoxel::only_blue(1)],
    };
    let column_b = RleColumn {
        ranges: vec![RleRange::range(1, 2), RleRange::range(1, 1)],
        colors: vec![RgbVoxel::only_blue(1), RgbVoxel::only_red(1), RgbVoxel::only_blue(1)],
    };
    assert_eq!(column_a.optimize(), column_b, "Drawn range optimization");
}

#[test]
fn memory_size_test() {
    assert_eq!(
        RleColumn::compress(&[RgbVoxel::empty(), RgbVoxel::only_red(1), RgbVoxel::empty()])
            .memory_size(),
        6
    );

    let column =
        RleColumn::compress(&[RgbVoxel::empty(), RgbVoxel::only_red(1), RgbVoxel::empty()]);
    let mut buffer = vec![0; 1024];
    assert_eq!(column.pack_into(&mut buffer, 0), column.memory_size());
}

#[test]
fn compress_decompress_roundtrip() {
    let mut voxels: Vec<RgbVoxel> = Vec::new();
    for i in 0..300usize {
        if i % 7 == 0 || i % 11 == 3 {
            voxels.push(RgbVoxel::rgb((i % 32) as u8, (i % 64) as u8, ((i / 3) % 32) as u8));
        } else {
            voxels.push(RgbVoxel::empty());
        }
    }
    let column = RleColumn::compress(&voxels);
    assert_eq!(column.decompress(), voxels);

    let long_empty = vec![RgbVoxel::empty(); 2500];
    assert_eq!(RleColumn::compress(&long_empty).decompress(), long_empty);

    let long_full = vec![RgbVoxel::only_green(7); 200];
    assert_eq!(RleColumn::compress(&long_full).decompress(), long_full);
}

#[test]
fn optimize_idempotent_and_preserving() {
    let column = RleColumn {
        ranges: vec![
            RleRange::range(2, 0),
            RleRange::range(1, 1),
            RleRange::range(0, 2),
            RleRange::range(0, 0),
            RleRange::range(3, 0),
        ],
        colors: vec![RgbVoxel::only_red(1), RgbVoxel::only_green(2), RgbVoxel::only_blue(3)],
    };
    let once = column.clone().optimize();
    let twice = once.clone().optimize();
    assert_eq!(once, twice);
    assert_eq!(column.decompress(), once.decompress());
}
