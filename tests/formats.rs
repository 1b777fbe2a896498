use emfir::labels::{compression_to_string, sample_format_to_string};
use emfir::mrc::{
    bytes_per_voxel, parse_header, sample_offset, thumbnail_size, voxel_type_for_mode, MrcError,
    VoxelType,
};

#[test]
fn compression_names() {
    assert_eq!(compression_to_string(1), "None");
    assert_eq!(compression_to_string(5), "LZW");
    assert_eq!(compression_to_string(32773), "PackBits");
    assert_eq!(compression_to_string(65000), "Unknown");
}

#[test]
fn sample_format_names() {
    assert_eq!(sample_format_to_string(1), "Unsigned integer");
    assert_eq!(sample_format_to_string(3), "IEEE floating point");
    assert_eq!(sample_format_to_string(9), "Unknown");
}

fn header(nx: i32, ny: i32, nz: i32, mode: i32) -> Vec<u8> {
    let mut b = vec![0u8; 1024];
    b[0..4].copy_from_slice(&nx.to_le_bytes());
    b[4..8].copy_from_slice(&ny.to_le_bytes());
    b[8..12].copy_from_slice(&nz.to_le_bytes());
    b[12..16].copy_from_slice(&mode.to_le_bytes());
    b[40..44].copy_from_slice(&2.5f32.to_bits().to_le_bytes());
    b[64..68].copy_from_slice(&(-3i32).to_le_bytes());
    b
}

#[test]
fn header_fields_are_read() {
    let h = parse_header(&header(100, 200, -1, 6)).unwrap();
    assert_eq!((h.nx, h.ny, h.nz, h.mode), (100, 200, -1, 6));
    assert_eq!(f32::from_bits(h.cell_lengths_bits[0]), 2.5);
    assert_eq!(h.map_axis[0], -3);
}

#[test]
fn header_errors() {
    assert!(matches!(parse_header(&header(1, 1, 1, 7)), Err(MrcError::Format(m)) if m == "Invalid mode value"));
    assert!(matches!(parse_header(&header(1, 1, 1, -1)), Err(MrcError::Format(_))));
    assert!(matches!(parse_header(&[0u8; 75]), Err(MrcError::Format(m)) if m == "Truncated header"));
}

#[test]
fn voxel_types() {
    assert_eq!(voxel_type_for_mode(0), VoxelType::Int8);
    assert_eq!(voxel_type_for_mode(1), VoxelType::Int16);
    assert_eq!(voxel_type_for_mode(2), VoxelType::Float32);
    assert_eq!(voxel_type_for_mode(6), VoxelType::UInt16);
    assert_eq!(voxel_type_for_mode(4), VoxelType::Float32);
    assert_eq!(bytes_per_voxel(2).unwrap(), 4);
    assert_eq!(bytes_per_voxel(6).unwrap(), 2);
    assert!(matches!(bytes_per_voxel(3), Err(MrcError::Format(m)) if m == "Unsupported mode for thumbnails"));
}

#[test]
fn thumbnail_geometry() {
    assert_eq!(thumbnail_size(100, 35, 10), (10, 4));
    assert_eq!(thumbnail_size(0, 1, 3), (0, 1));
    assert_eq!(sample_offset(100, 2, 3, 2, 10), 1024 + 2 * (20 * 100 + 30));
    assert_eq!(sample_offset(100, 1, 0, 0, 4), 1024);
}
