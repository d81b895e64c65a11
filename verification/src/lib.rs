//! Filesystem layout simulation: inodes, directory trees, block allocation
//! bitmaps, data blocks and path resolution, each with a verified contract.

pub mod bitmap;
pub mod block;
pub mod inode;
pub mod directory;
pub mod path;
