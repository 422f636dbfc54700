use wkwrap::BlockType;
use wkwrap::Header;
use wkwrap::Vec3;
use wkwrap::VoxelType;
use wkwrap::WkwError;

fn sample_header() -> Header {
    Header {
        version: 1,
        block_len_log2: 5,
        file_len_log2: 5,
        block_type: BlockType::Raw,
        voxel_type: VoxelType::U8,
        voxel_size: 1,
        data_offset: 16,
        jump_table: None,
    }
}

#[test]
fn header_parse_fixed_bytes() {
    // "WKW" 01 55 01 01 01 followed by data offset sixteen, little endian
    let bytes: Vec<u8> = vec![
        0x57, 0x4b, 0x57, 0x01, 0x55, 0x01, 0x01, 0x01, 0x10, 0x00, 0x00, 0x00, 0x00, 0x00, 0x00,
        0x00,
    ];
    let h = Header::from_bytes(&bytes, 0).unwrap();
    assert_eq!(h.version, 1);
    assert_eq!(h.block_len_log2, 5);
    assert_eq!(h.file_len_log2, 5);
    assert_eq!(h.block_type, BlockType::Raw);
    assert_eq!(h.voxel_type, VoxelType::U8);
    assert_eq!(h.voxel_size, 1);
    assert_eq!(h.data_offset, 16);
}

#[test]
fn header_round_trip() {
    let h = sample_header();
    let bytes = h.to_bytes();
    assert_eq!(bytes.len(), 16);
    let back = Header::from_bytes(&bytes, 0).unwrap();
    assert_eq!(back, h);

    let h2 = Header {
        version: 2,
        block_len_log2: 3,
        file_len_log2: 4,
        block_type: BlockType::LZ4HC,
        voxel_type: VoxelType::I32,
        voxel_size: 8,
        data_offset: 0,
        jump_table: None,
    };
    let b2 = h2.to_bytes();
    assert_eq!(Header::from_bytes(&b2, 0).unwrap(), h2);
}

#[test]
fn header_rejects_bad_magic_and_codes() {
    let good = sample_header().to_bytes();
    let mut bad = good.clone();
    bad[0] = 0x58;
    assert_eq!(Header::from_bytes(&bad, 0), Err(WkwError::HeaderInvalid));
    let mut bad_version = good.clone();
    bad_version[3] = 9;
    assert_eq!(Header::from_bytes(&bad_version, 0), Err(WkwError::HeaderInvalid));
    let mut bad_block = good.clone();
    bad_block[5] = 4;
    assert_eq!(Header::from_bytes(&bad_block, 0), Err(WkwError::HeaderInvalid));
    let mut bad_voxel = good.clone();
    bad_voxel[6] = 11;
    assert_eq!(Header::from_bytes(&bad_voxel, 0), Err(WkwError::HeaderInvalid));
    let mut bad_size = good;
    bad_size[6] = 3;  // a four byte voxel type
    bad_size[7] = 3;  // with a three byte voxel
    assert_eq!(Header::from_bytes(&bad_size, 0), Err(WkwError::HeaderInvalid));
}

#[test]
fn header_geometry() {
    let h = sample_header();
    assert_eq!(h.block_len(), 32);
    assert_eq!(h.block_vol(), 32768);
    assert_eq!(h.block_size(), 32768);
    assert_eq!(h.file_len(), 32);
    assert_eq!(h.file_vol(), 32768);
    assert_eq!(h.file_len_vx_log2(), 10);
    assert_eq!(h.file_len_vx(), 1024);
    assert_eq!(h.file_vol_vx(), 1 << 30);
    assert_eq!(h.file_size(), 1 << 30);
    assert_eq!(h.size_on_disk(), 16);
    assert_eq!(h.voxel_type_size(), 1);
    assert_eq!(h.num_channels(), 1);
    assert!(!h.is_multi_channel());

    let multi = Header { voxel_type: VoxelType::U16, voxel_size: 6, ..sample_header() };
    assert_eq!(multi.num_channels(), 3);
    assert!(multi.is_multi_channel());
}

#[test]
fn header_block_offsets() {
    let h = sample_header();
    assert_eq!(h.block_offset(0), Ok(16));
    assert_eq!(h.block_offset(1), Ok(16 + 32768));
    assert_eq!(h.block_offset(32768), Err(WkwError::BlockIndexOutOfBounds));
    assert_eq!(h.block_size_on_disk(5), Ok(32768));
    assert_eq!(h.block_size_on_disk(40000), Err(WkwError::BlockIndexOutOfBounds));
    assert_eq!(h.max_block_size_on_disk(), 32768);

    let hc = Header {
        block_type: BlockType::LZ4HC,
        data_offset: 16 + 8 * 32768,
        jump_table: Some(vec![0u64; 32768]),
        ..sample_header()
    };
    // the worst case the compressor documents
    assert_eq!(hc.max_block_size_on_disk(), 32768 + 32768 / 255 + 16);
}

#[test]
fn header_templates() {
    let base = sample_header();
    let t = Header::from_template(&base);
    assert_eq!(t.block_type, BlockType::Raw);
    assert_eq!(t.data_offset, 16);
    assert!(t.jump_table.is_none());

    let c = Header::compress(&base);
    assert_eq!(c.block_type, BlockType::LZ4HC);
    assert_eq!(c.data_offset, 16 + 8 * 32768);
    assert_eq!(c.jump_table.as_ref().unwrap().len(), 32768);
}
