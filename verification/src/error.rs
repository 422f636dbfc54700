use vstd::prelude::*;

verus! {

/// The error kinds that the library's operations can report.
#[derive(Clone, Copy, Debug, PartialEq, Eq, Structural)]
pub enum WkwError {
    /// Wrong magic bytes, unsupported version, unknown block or voxel type
    /// code, or a voxel size that is not a multiple of the element size.
    HeaderInvalid,
    /// The byte buffer is too short to hold the header.
    HeaderIo,
    /// The byte buffer is too short to hold the jump table.
    JumpTableIo,
    /// A computed block index lies at or past the file volume.
    BlockIndexOutOfBounds,
    /// The jump table entries are not monotone or disagree with the file size.
    CorruptJumpTable,
    /// Decompression produced a block of the wrong length.
    DecompressLength,
    /// The LZ4 compressor reported a failure.
    CompressFailed,
    /// The LZ4 decompressor reported a failure.
    DecompressFailed,
    /// Buffer length and matrix shape disagree.
    ShapeMismatch,
    /// Voxel sizes of two matrices, or matrix and header, disagree.
    VoxelSizeMismatch,
    /// Voxel types of two matrices, or matrix and header, disagree.
    VoxelTypeMismatch,
    /// Storage orders of two matrices disagree with what the copy expects.
    OrderMismatch,
    /// A box was constructed with a minimum above its maximum.
    InvalidBox,
    /// A copy would read or write past a buffer extent.
    OutOfBounds,
    /// A write to a compressed dataset is not aligned to whole file cubes.
    CompressedWriteAlignment,
}

} // verus!
