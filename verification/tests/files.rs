use wkwrap::BlockType;
use wkwrap::File;
use wkwrap::Header;
use wkwrap::Mat;
use wkwrap::Vec3;
use wkwrap::VoxelType;
use wkwrap::WkwError;

fn small_header(block_type: BlockType) -> Header {
    Header {
        version: 1,
        block_len_log2: 2,
        file_len_log2: 2,
        block_type,
        voxel_type: VoxelType::U8,
        voxel_size: 1,
        data_offset: 0,
        jump_table: None,
    }
}

fn pattern(i: usize) -> u8 {
    // long runs of equal bytes, so the compressed twin is the smaller file
    (i / 97 % 251) as u8
}

fn full_cube() -> Mat {
    let len = 16usize.pow(3);
    let data: Vec<u8> = (0..len).map(pattern).collect();
    Mat::new(data, Vec3 { x: 16, y: 16, z: 16 }, 1, VoxelType::U8, false).unwrap()
}

#[test]
fn raw_file_write_read_blocks() {
    let mut f = File::create(&small_header(BlockType::Raw));
    let src = full_cube();
    f.write_mat(Vec3 { x: 0, y: 0, z: 0 }, &src, Vec3 { x: 0, y: 0, z: 0 }).unwrap();
    let mut dst = Mat::new(
        vec![0u8; 16usize.pow(3)],
        Vec3 { x: 16, y: 16, z: 16 },
        1,
        VoxelType::U8,
        false,
    )
    .unwrap();
    f.read_mat(Vec3 { x: 0, y: 0, z: 0 }, &mut dst, Vec3 { x: 0, y: 0, z: 0 }).unwrap();
    assert_eq!(dst.as_slice(), src.as_slice());
    // a block index past the file volume is rejected
    assert_eq!(f.read_block(64).err(), Some(WkwError::BlockIndexOutOfBounds));
}

#[test]
fn file_round_trips_through_bytes() {
    let mut f = File::create(&small_header(BlockType::Raw));
    let src = full_cube();
    f.write_mat(Vec3 { x: 0, y: 0, z: 0 }, &src, Vec3 { x: 0, y: 0, z: 0 }).unwrap();
    let bytes = f.to_bytes();
    let dataset_header = small_header(BlockType::Raw);
    let g = File::open(&dataset_header, &bytes).unwrap();
    let mut dst = Mat::new(
        vec![0u8; 16usize.pow(3)],
        Vec3 { x: 16, y: 16, z: 16 },
        1,
        VoxelType::U8,
        false,
    )
    .unwrap();
    g.read_mat(Vec3 { x: 0, y: 0, z: 0 }, &mut dst, Vec3 { x: 0, y: 0, z: 0 }).unwrap();
    assert_eq!(dst.as_slice(), src.as_slice());
}

#[test]
fn compress_file_round_trip() {
    let mut f = File::create(&small_header(BlockType::Raw));
    let src = full_cube();
    f.write_mat(Vec3 { x: 0, y: 0, z: 0 }, &src, Vec3 { x: 0, y: 0, z: 0 }).unwrap();

    let c = f.compress().unwrap();
    assert_eq!(c.header.block_type, BlockType::LZ4HC);
    let mut dst = Mat::new(
        vec![0u8; 16usize.pow(3)],
        Vec3 { x: 16, y: 16, z: 16 },
        1,
        VoxelType::U8,
        false,
    )
    .unwrap();
    c.read_mat(Vec3 { x: 0, y: 0, z: 0 }, &mut dst, Vec3 { x: 0, y: 0, z: 0 }).unwrap();
    assert_eq!(dst.as_slice(), src.as_slice());
    // the compressed file takes no more room on disk than the raw one
    assert!(c.to_bytes().len() <= f.to_bytes().len());
}

#[test]
fn compressed_file_round_trips_through_bytes() {
    let mut f = File::create(&small_header(BlockType::Raw));
    let src = full_cube();
    f.write_mat(Vec3 { x: 0, y: 0, z: 0 }, &src, Vec3 { x: 0, y: 0, z: 0 }).unwrap();
    let c = f.compress().unwrap();
    let bytes = c.to_bytes();
    let g = File::open(&small_header(BlockType::LZ4HC), &bytes).unwrap();
    let mut dst = Mat::new(
        vec![0u8; 16usize.pow(3)],
        Vec3 { x: 16, y: 16, z: 16 },
        1,
        VoxelType::U8,
        false,
    )
    .unwrap();
    g.read_mat(Vec3 { x: 0, y: 0, z: 0 }, &mut dst, Vec3 { x: 0, y: 0, z: 0 }).unwrap();
    assert_eq!(dst.as_slice(), src.as_slice());
}

#[test]
fn open_rejects_short_and_corrupt_bytes() {
    let dataset_header = small_header(BlockType::Raw);
    assert_eq!(File::open(&dataset_header, &vec![0u8; 4]).err(), Some(WkwError::HeaderIo));

    let mut f = File::create(&small_header(BlockType::Raw));
    let src = full_cube();
    f.write_mat(Vec3 { x: 0, y: 0, z: 0 }, &src, Vec3 { x: 0, y: 0, z: 0 }).unwrap();
    let c = f.compress().unwrap();
    let mut bytes = c.to_bytes();
    // break the jump table monotonicity
    bytes[16] = 0xff;
    bytes[17] = 0xff;
    bytes[18] = 0xff;
    bytes[19] = 0xff;
    let r = File::open(&small_header(BlockType::LZ4HC), &bytes);
    assert!(r.is_err());
}
