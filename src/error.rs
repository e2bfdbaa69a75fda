//! The errors the filesystem reports.
use vstd::prelude::*;

verus! {

/// The set of all possible errors.
#[derive(Debug)]
pub enum Error {
    /// An error of the host storage, with its message.
    Other(String),
    BadMagic { magic: u16 },
    OutOfBounds { index: usize },
    AddressOutOfBounds { sector: u32, offset: u32, size: usize },
    BadBlockGroupCount { by_blocks: u32, by_inodes: u32 },
    /// The superblock asks for blocks over 2 GiB, which a byte offset of
    /// 32 bits and a `usize` on 32-bit hosts cannot address; ext2 itself
    /// goes no further than 64 KiB.
    BadBlockSize { log_block_size: u32 },
    InodeNotFound { inode: u32 },
    /// A directory record at this byte offset of its block does not fit
    /// the block, or its name does not fit the record: a corrupt directory,
    /// reported instead of reading past the record.
    MalformedEntry { offset: usize },
    NotADirectory { inode: u32, name: String },
    NotAbsolute { name: String },
    NotFound { name: String },
}

} // verus!
