use wkwrap::Box3;
use wkwrap::Mat;
use wkwrap::Vec3;
use wkwrap::VoxelType;
use wkwrap::WkwError;

fn shape(n: u32) -> Vec3 {
    Vec3 { x: n, y: n, z: n }
}

#[test]
fn mat_new_checks_lengths() {
    assert!(Mat::new(vec![0u8; 8], shape(2), 1, VoxelType::U8, false).is_ok());
    assert_eq!(
        Mat::new(vec![0u8; 7], shape(2), 1, VoxelType::U8, false).err(),
        Some(WkwError::ShapeMismatch)
    );
    assert_eq!(
        Mat::new(vec![0u8; 24], shape(2), 3, VoxelType::U16, false).err(),
        Some(WkwError::VoxelSizeMismatch)
    );
}

#[test]
fn copy_from_moves_a_sub_box() {
    // a two-cube of marked bytes lands at (1,1,1) of a three-cube of zeros
    let src_data: Vec<u8> = (0..8u8).collect();
    let src = Mat::new(src_data, shape(2), 1, VoxelType::U8, false).unwrap();
    let mut dst = Mat::new(vec![0u8; 27], shape(3), 1, VoxelType::U8, false).unwrap();
    let all = Box3::new(Vec3 { x: 0, y: 0, z: 0 }, shape(2)).unwrap();
    dst.copy_from(Vec3 { x: 1, y: 1, z: 1 }, &src, all).unwrap();
    // fortran order: index = x + 3 * (y + 3 * z)
    for z in 0..3u32 {
        for y in 0..3u32 {
            for x in 0..3u32 {
                let at = (x + 3 * (y + 3 * z)) as usize;
                let got = dst.as_slice()[at];
                if x >= 1 && y >= 1 && z >= 1 {
                    let expect = (x - 1) + 2 * ((y - 1) + 2 * (z - 1));
                    assert_eq!(got, expect as u8);
                } else {
                    assert_eq!(got, 0);
                }
            }
        }
    }
}

#[test]
fn copy_from_rejects_mismatches() {
    let src = Mat::new(vec![0u8; 8], shape(2), 1, VoxelType::U8, false).unwrap();
    let all = Box3::new(Vec3 { x: 0, y: 0, z: 0 }, shape(2)).unwrap();
    let mut wrong_type = Mat::new(vec![0u8; 27], shape(3), 1, VoxelType::I8, false).unwrap();
    assert_eq!(
        wrong_type.copy_from(Vec3 { x: 0, y: 0, z: 0 }, &src, all),
        Err(WkwError::VoxelTypeMismatch)
    );
    let mut c_order = Mat::new(vec![0u8; 27], shape(3), 1, VoxelType::U8, true).unwrap();
    assert_eq!(
        c_order.copy_from(Vec3 { x: 0, y: 0, z: 0 }, &src, all),
        Err(WkwError::OrderMismatch)
    );
    let mut small = Mat::new(vec![0u8; 1], shape(1), 1, VoxelType::U8, false).unwrap();
    assert_eq!(
        small.copy_from(Vec3 { x: 0, y: 0, z: 0 }, &src, all),
        Err(WkwError::OutOfBounds)
    );
}

#[test]
fn transposition_round_trip() {
    // row-major bytes transposed to column-major and located element-wise
    let n = 3u32;
    let src_data: Vec<u8> = (0..27u8).collect();
    let a = Mat::new(src_data.clone(), shape(n), 1, VoxelType::U8, true).unwrap();
    let mut b = Mat::new(vec![0u8; 27], shape(n), 1, VoxelType::U8, false).unwrap();
    let all = Box3::new(Vec3 { x: 0, y: 0, z: 0 }, shape(n)).unwrap();
    a.copy_as_fortran_order(&mut b, all).unwrap();
    for z in 0..n {
        for y in 0..n {
            for x in 0..n {
                let c_at = (z + n * (y + n * x)) as usize;
                let f_at = (x + n * (y + n * z)) as usize;
                assert_eq!(a.as_slice()[c_at], b.as_slice()[f_at]);
            }
        }
    }
    // the reverse per-element copy restores the original bytes
    let mut back = vec![0u8; 27];
    for z in 0..n {
        for y in 0..n {
            for x in 0..n {
                let c_at = (z + n * (y + n * x)) as usize;
                let f_at = (x + n * (y + n * z)) as usize;
                back[c_at] = b.as_slice()[f_at];
            }
        }
    }
    assert_eq!(back, src_data);
}

#[test]
fn order_agnostic_copy_stages_row_major_sources() {
    let n = 2u32;
    let src_data: Vec<u8> = (10..18u8).collect();
    let src = Mat::new(src_data, shape(n), 1, VoxelType::U8, true).unwrap();
    let mut dst = Mat::new(vec![0u8; 8], shape(n), 1, VoxelType::U8, false).unwrap();
    let mut scratch = Mat::new(vec![0u8; 8], shape(n), 1, VoxelType::U8, true).unwrap();
    let all = Box3::new(Vec3 { x: 0, y: 0, z: 0 }, shape(n)).unwrap();
    dst.copy_from_order_agnostic(Vec3 { x: 0, y: 0, z: 0 }, &src, all, &mut scratch).unwrap();
    for z in 0..n {
        for y in 0..n {
            for x in 0..n {
                let c_at = (z + n * (y + n * x)) as usize;
                let f_at = (x + n * (y + n * z)) as usize;
                assert_eq!(dst.as_slice()[f_at], src.as_slice()[c_at]);
            }
        }
    }
}

#[test]
fn channels_last_source_is_interleaved() {
    // two channels, a two-cube: the source holds one full plane per channel
    let n = 2u32;
    let numel = 8usize;
    let mut planar = vec![0u8; numel * 2];
    for i in 0..numel {
        planar[i] = 100 + i as u8;  // channel zero
        planar[numel + i] = 200 + i as u8;  // channel one
    }
    let src = Mat::new(planar, shape(n), 2, VoxelType::U8, false).unwrap();
    let mut dst = Mat::new(vec![0u8; numel * 2], shape(n), 2, VoxelType::U8, false).unwrap();
    let all = Box3::new(Vec3 { x: 0, y: 0, z: 0 }, shape(n)).unwrap();
    dst.copy_from_and_put_channels_last(Vec3 { x: 0, y: 0, z: 0 }, &src, all).unwrap();
    for i in 0..numel {
        assert_eq!(dst.as_slice()[2 * i], 100 + i as u8);
        assert_eq!(dst.as_slice()[2 * i + 1], 200 + i as u8);
    }
}

#[test]
fn offset_addresses_voxels() {
    let m = Mat::new(vec![0u8; 24], Vec3 { x: 2, y: 3, z: 4 }, 1, VoxelType::U8, false).unwrap();
    assert_eq!(m.offset(Vec3 { x: 1, y: 2, z: 3 }), 1 + 2 * (2 + 3 * 3));
    let c = Mat::new(vec![0u8; 24], Vec3 { x: 2, y: 3, z: 4 }, 1, VoxelType::U8, true).unwrap();
    assert_eq!(c.offset(Vec3 { x: 1, y: 2, z: 3 }), 3 + 4 * (2 + 3 * 1));
}
