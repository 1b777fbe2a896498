//! The fixed layout of an MRC map: the integer fields of its header, the
//! voxel type of each mode, and where the samples of a strided thumbnail lie.
use crate::accumulate::{ceil_div, frames_to_process};
use vstd::prelude::*;

verus! {

/// Size of the header that precedes the voxels.
pub const HEADER_LEN: u64 = 1024;

/// Bytes of the header that the header reader looks at.
pub const HEADER_FIELDS_LEN: usize = 76;

/// Declares std's I/O error so that the error type can carry it.
#[verifier::external_type_specification]
#[verifier::external_body]
pub struct ExIoError(std::io::Error);

/// What can go wrong while reading an MRC map.
#[derive(Debug)]
pub enum MrcError {
    Io(std::io::Error),
    Format(String),
}

/// The type of the voxels that a mode stands for.
#[derive(Debug, Clone, Copy, PartialEq, Eq, Structural)]
pub enum VoxelType {
    Float32,
    Float64,
    Int8,
    UInt8,
    Int16,
    UInt16,
}

/// The integer fields of a header, and the bit patterns of its float fields.
#[derive(Debug, Clone, Copy)]
pub struct MrcHeaderFields {
    pub nx: i32,
    pub ny: i32,
    pub nz: i32,
    pub mode: i32,
    /// Bytes 16..28.
    pub cell_dims_bits: [u32; 3],
    /// Bytes 40..52: the cell's lengths, in Angstroms.
    pub cell_lengths_bits: [u32; 3],
    /// Bytes 52..64.
    pub cell_angles_bits: [u32; 3],
    /// Bytes 64..76.
    pub map_axis: [i32; 3],
}

/// The little-endian 32-bit word at byte `off`.
pub open spec fn u32_at(b: Seq<u8>, off: int) -> u32 {
    (b[off] as nat + 0x100 * b[off + 1] as nat + 0x1_0000 * b[off + 2] as nat + 0x100_0000
        * b[off + 3] as nat) as u32
}

/// Whether a mode is one that the format defines.
pub open spec fn mode_valid(mode: i32) -> bool {
    0 <= mode <= 6
}

pub open spec fn voxel_type_spec(mode: i32) -> VoxelType {
    if mode == 0 {
        VoxelType::Int8
    } else if mode == 1 {
        VoxelType::Int16
    } else if mode == 6 {
        VoxelType::UInt16
    } else {
        VoxelType::Float32
    }
}

/// Bytes of one voxel of the modes that thumbnails support.
pub open spec fn voxel_bytes(mode: i32) -> Option<u64> {
    if mode == 0 {
        Some(1)
    } else if mode == 1 || mode == 6 {
        Some(2)
    } else if mode == 2 {
        Some(4)
    } else {
        None
    }
}

fn read_u32_le(b: &[u8], off: usize) -> (r: u32)
    requires
        off + 4 <= b@.len(),
    ensures
        r == u32_at(b@, off as int),
{
    (b[off] as u32) + 0x100 * (b[off + 1] as u32) + 0x1_0000 * (b[off + 2] as u32) + 0x100_0000 * (
    b[off + 3] as u32)
}

/// Reads the header fields from the first bytes of a map.
pub fn parse_header(bytes: &[u8]) -> (r: Result<MrcHeaderFields, MrcError>)
    ensures
        bytes@.len() < HEADER_FIELDS_LEN ==> r is Err && r->Err_0 is Format
            && r->Err_0->Format_0@ == "Truncated header"@,
        bytes@.len() >= HEADER_FIELDS_LEN ==> {
            let b = bytes@;
            let mode = u32_at(b, 12) as i32;
            &&& !mode_valid(mode) ==> r is Err && r->Err_0 is Format && r->Err_0->Format_0@
                == "Invalid mode value"@
            &&& mode_valid(mode) ==> r is Ok && r->Ok_0 == (MrcHeaderFields {
                nx: u32_at(b, 0) as i32,
                ny: u32_at(b, 4) as i32,
                nz: u32_at(b, 8) as i32,
                mode,
                cell_dims_bits: [u32_at(b, 16), u32_at(b, 20), u32_at(b, 24)],
                cell_lengths_bits: [u32_at(b, 40), u32_at(b, 44), u32_at(b, 48)],
                cell_angles_bits: [u32_at(b, 52), u32_at(b, 56), u32_at(b, 60)],
                map_axis: [u32_at(b, 64) as i32, u32_at(b, 68) as i32, u32_at(b, 72) as i32],
            })
        },
{
    if bytes.len() < HEADER_FIELDS_LEN {
        return Err(MrcError::Format("Truncated header".to_string()));
    }
    let mode = read_u32_le(bytes, 12) as i32;
    if mode < 0 || mode > 6 {
        return Err(MrcError::Format("Invalid mode value".to_string()));
    }
    Ok(MrcHeaderFields {
        nx: read_u32_le(bytes, 0) as i32,
        ny: read_u32_le(bytes, 4) as i32,
        nz: read_u32_le(bytes, 8) as i32,
        mode,
        cell_dims_bits: [read_u32_le(bytes, 16), read_u32_le(bytes, 20), read_u32_le(bytes, 24)],
        cell_lengths_bits: [read_u32_le(bytes, 40), read_u32_le(bytes, 44), read_u32_le(bytes, 48)],
        cell_angles_bits: [read_u32_le(bytes, 52), read_u32_le(bytes, 56), read_u32_le(bytes, 60)],
        map_axis: [
            read_u32_le(bytes, 64) as i32,
            read_u32_le(bytes, 68) as i32,
            read_u32_le(bytes, 72) as i32,
        ],
    })
}

/// The voxel type of a mode; modes without one of their own read as 32-bit floats.
pub fn voxel_type_for_mode(mode: i32) -> (r: VoxelType)
    ensures
        r == voxel_type_spec(mode),
{
    match mode {
        0 => VoxelType::Int8,
        1 => VoxelType::Int16,
        6 => VoxelType::UInt16,
        _ => VoxelType::Float32,
    }
}

/// Bytes of one voxel, for the modes that thumbnails support.
pub fn bytes_per_voxel(mode: i32) -> (r: Result<u64, MrcError>)
    ensures
        voxel_bytes(mode) is Some ==> r is Ok && r->Ok_0 == voxel_bytes(mode)->Some_0,
        voxel_bytes(mode) is None ==> r is Err && r->Err_0 is Format && r->Err_0->Format_0@
            == "Unsupported mode for thumbnails"@,
{
    match mode {
        0 => Ok(1),
        1 => Ok(2),
        6 => Ok(2),
        2 => Ok(4),
        _ => Err(MrcError::Format("Unsupported mode for thumbnails".to_string())),
    }
}

/// Width and height of a thumbnail that keeps every `downsample`-th voxel
/// of each row and column of an `nx` by `ny` section.
pub fn thumbnail_size(nx: u32, ny: u32, downsample: u32) -> (r: (u32, u32))
    requires
        downsample >= 1,
    ensures
        r.0 as nat == ceil_div(nx as nat, downsample as nat),
        r.1 as nat == ceil_div(ny as nat, downsample as nat),
{
    (frames_to_process(nx, downsample), frames_to_process(ny, downsample))
}

/// File offset of the voxel shown at thumbnail pixel `(x, y)`: the voxel
/// at column `x * downsample` and row `y * downsample` of the first section.
pub fn sample_offset(nx: u32, voxel_len: u64, x: u32, y: u32, downsample: u32) -> (r: u64)
    requires
        HEADER_LEN + voxel_len * ((y as nat * downsample as nat) * nx as nat + x as nat
            * downsample as nat) <= u64::MAX,
    ensures
        r as nat == HEADER_LEN + voxel_len * ((y as nat * downsample as nat) * nx as nat + x as nat
            * downsample as nat),
{
    let ghost row = y as nat * downsample as nat;
    let ghost col = x as nat * downsample as nat;
    let ghost index = row * nx as nat + col;
    proof {
        if voxel_len == 0 {
            assert(voxel_len * index == 0) by (nonlinear_arith)
                requires
                    voxel_len == 0,
            ;
        }
        assert(row * nx as nat <= index);
        assert(voxel_len >= 1 ==> index <= voxel_len * index) by (nonlinear_arith);
        assert(row <= 0xffff_ffff * 0xffff_ffff) by (nonlinear_arith)
            requires
                row == y as nat * downsample as nat,
                y <= 0xffff_ffff,
                downsample <= 0xffff_ffff,
        ;
        assert(col <= 0xffff_ffff * 0xffff_ffff) by (nonlinear_arith)
            requires
                col == x as nat * downsample as nat,
                x <= 0xffff_ffff,
                downsample <= 0xffff_ffff,
        ;
    }
    if voxel_len == 0 {
        return HEADER_LEN;
    }
    let src_y = (y as u64) * (downsample as u64);
    let src_x = (x as u64) * (downsample as u64);
    HEADER_LEN + voxel_len * (src_y * (nx as u64) + src_x)
}

} // verus!
