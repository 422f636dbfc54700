//! Verified library for reading and writing large three-dimensional voxel
//! datasets stored as directory trees of fixed-size cubic files.  Each file
//! keeps its voxels in Morton (Z-order) layout as a sequence of cubic blocks,
//! optionally LZ4-compressed with a per-file jump table.

pub mod dataset;
pub mod error;
pub mod file;
pub mod header;
pub mod lz4;
pub mod mat;
pub mod morton;
pub mod vec3;

pub use dataset::Dataset;
pub use error::WkwError;
pub use file::File;
pub use header::BlockType;
pub use header::Header;
pub use header::VoxelType;
pub use mat::Mat;
pub use morton::Iter;
pub use morton::Morton;
pub use vec3::Box3;
pub use vec3::Vec3;
