//! A read-oriented ext2 filesystem over a pluggable, sector-addressed volume.
use vstd::prelude::*;

pub mod block_group;
pub mod bytes;
pub mod error;
pub mod fs;
pub mod inode;
pub mod sector;
pub mod superblock;
pub mod volume;

verus! {

} // verus!
