use vstd::prelude::*;

pub mod bitmap;
pub mod block_cache;
pub mod block_dev;
pub mod efs;
pub mod grow_law;
pub mod layout;
pub mod new_file;
pub mod round_trip;
pub mod vfs;

verus! {

/// Size of a block in bytes.
pub const BLOCK_SZ: usize = 512;

/// The content of a disk: the bytes of each block, by block number.
pub type Disk = Map<usize, Seq<u8>>;

} // verus!
