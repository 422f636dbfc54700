use wkwrap::BlockType;
use wkwrap::Dataset;
use wkwrap::Header;
use wkwrap::Mat;
use wkwrap::Vec3;
use wkwrap::VoxelType;
use wkwrap::WkwError;

fn raw_header() -> Header {
    Header {
        version: 1,
        block_len_log2: 5,
        file_len_log2: 5,
        block_type: BlockType::Raw,
        voxel_type: VoxelType::U8,
        voxel_size: 1,
        data_offset: 0,
        jump_table: None,
    }
}

fn cube(n: u32, fill: u8) -> Mat {
    let len = (n as usize) * (n as usize) * (n as usize);
    Mat::new(vec![fill; len], Vec3 { x: n, y: n, z: n }, 1, VoxelType::U8, false).unwrap()
}

#[test]
fn write_then_read_raw_dataset() {
    // one raw dataset of thirty-two voxel blocks, thirty-two blocks per file
    let mut ds = Dataset::create(raw_header()).unwrap();
    assert_eq!(ds.header().block_type, BlockType::Raw);
    let src = cube(64, 0x2a);
    ds.write_mat(Vec3 { x: 0, y: 0, z: 0 }, &src).unwrap();

    let mut dst = cube(16, 0);
    ds.read_mat(Vec3 { x: 40, y: 40, z: 40 }, &mut dst).unwrap();
    for &b in dst.as_slice() {
        assert_eq!(b, 0x2a);
    }
}

#[test]
fn sparse_read_leaves_buffer_unchanged() {
    let mut ds = Dataset::create(raw_header()).unwrap();
    let src = cube(64, 0x2a);
    ds.write_mat(Vec3 { x: 0, y: 0, z: 0 }, &src).unwrap();

    // a region far outside any written file keeps the caller's fill value
    let mut dst = cube(16, 0x77);
    ds.read_mat(Vec3 { x: 2000, y: 2000, z: 2000 }, &mut dst).unwrap();
    for &b in dst.as_slice() {
        assert_eq!(b, 0x77);
    }
}

fn pattern(i: usize) -> u8 {
    (i.wrapping_mul(31).wrapping_add(17) % 251) as u8
}

#[test]
fn compressed_whole_cube_write_and_read() {
    // small compressed dataset: blocks of four voxels, four blocks per file
    let header = Header {
        block_len_log2: 2,
        file_len_log2: 2,
        block_type: BlockType::LZ4HC,
        ..raw_header()
    };
    let mut ds = Dataset::create(header).unwrap();
    let flv = 16u32;
    let len = (flv as usize).pow(3);
    let data: Vec<u8> = (0..len).map(pattern).collect();
    let src = Mat::new(data.clone(), Vec3 { x: flv, y: flv, z: flv }, 1, VoxelType::U8, false)
        .unwrap();
    ds.write_mat(Vec3 { x: 0, y: 0, z: 0 }, &src).unwrap();

    let mut dst = cube(16, 0);
    ds.read_mat(Vec3 { x: 0, y: 0, z: 0 }, &mut dst).unwrap();
    assert_eq!(dst.as_slice(), data.as_slice());

    // a misaligned write on a compressed dataset is rejected
    let small = cube(4, 1);
    assert_eq!(
        ds.write_mat(Vec3 { x: 0, y: 0, z: 0 }, &small),
        Err(WkwError::CompressedWriteAlignment)
    );
}

#[test]
fn type_and_size_mismatches_are_rejected() {
    let mut ds = Dataset::create(raw_header()).unwrap();
    let wrong_type = Mat::new(vec![0u8; 8], Vec3 { x: 2, y: 2, z: 2 }, 1, VoxelType::I8, false)
        .unwrap();
    assert_eq!(
        ds.write_mat(Vec3 { x: 0, y: 0, z: 0 }, &wrong_type),
        Err(WkwError::VoxelTypeMismatch)
    );
    let wrong_size = Mat::new(vec![0u8; 16], Vec3 { x: 2, y: 2, z: 2 }, 2, VoxelType::U8, false)
        .unwrap();
    assert_eq!(
        ds.write_mat(Vec3 { x: 0, y: 0, z: 0 }, &wrong_size),
        Err(WkwError::VoxelSizeMismatch)
    );
}

#[test]
fn dataset_create_normalizes_header() {
    let template = Header { data_offset: 99, ..raw_header() };
    let ds = Dataset::create(template).unwrap();
    assert_eq!(ds.header().data_offset, 0);
    assert!(ds.header().jump_table.is_none());
    let twin = ds.compress().unwrap();
    assert_eq!(twin.header().block_type, BlockType::LZ4HC);
}

#[test]
fn dataset_rejects_bad_header() {
    let bad = Header { voxel_size: 3, voxel_type: VoxelType::U16, ..raw_header() };
    assert_eq!(Dataset::create(bad).err(), Some(WkwError::HeaderInvalid));
}

#[test]
fn row_major_write_round_trips() {
    // a row-major host buffer written to a raw dataset and read back
    let mut ds = Dataset::create(raw_header()).unwrap();
    let n = 4u32;
    let src_data: Vec<u8> = (0..64u8).collect();
    let src = Mat::new(src_data.clone(), Vec3 { x: n, y: n, z: n }, 1, VoxelType::U8, true)
        .unwrap();
    ds.write_mat(Vec3 { x: 0, y: 0, z: 0 }, &src).unwrap();

    let mut dst = Mat::new(vec![0u8; 64], Vec3 { x: n, y: n, z: n }, 1, VoxelType::U8, false)
        .unwrap();
    ds.read_mat(Vec3 { x: 0, y: 0, z: 0 }, &mut dst).unwrap();
    for z in 0..n {
        for y in 0..n {
            for x in 0..n {
                let c_at = (z + n * (y + n * x)) as usize;
                let f_at = (x + n * (y + n * z)) as usize;
                assert_eq!(dst.as_slice()[f_at], src_data[c_at]);
            }
        }
    }
}
