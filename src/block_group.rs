//! Block group descriptors: where each block group keeps its bitmaps and
//! its inode table.
use vstd::prelude::*;
use crate::bytes::{le_u16, le_u32, read_u16, read_u32};
use crate::error::Error;
use crate::sector::{Address, SectorSize, addressable};
use crate::volume::{Volume, readable, is_storage_error, slice_at};

verus! {

/// Length of a descriptor in bytes.
pub const DESCRIPTOR_LEN: u32 = 32;

/// One entry of the block group descriptor table, which starts in the block
/// after the superblock's.
#[derive(Debug, Clone, Copy)]
pub struct BlockGroupDescriptor {
    /// Block address of the block usage bitmap
    pub block_usage_addr: u32,
    /// Block address of the inode usage bitmap
    pub inode_usage_addr: u32,
    /// Starting block address of the inode table
    pub inode_table_block: u32,
    /// Number of unallocated blocks in the group
    pub free_blocks_count: u16,
    /// Number of unallocated inodes in the group
    pub free_inodes_count: u16,
    /// Number of directories in the group
    pub dirs_count: u16,
}

impl BlockGroupDescriptor {
    /// Whether the record holds the fields encoded in its bytes `s`.
    pub open spec fn decodes(self, s: Seq<u8>) -> bool {
        self.block_usage_addr == le_u32(s, 0)
        && self.inode_usage_addr == le_u32(s, 4)
        && self.inode_table_block == le_u32(s, 8)
        && self.free_blocks_count == le_u16(s, 12)
        && self.free_inodes_count == le_u16(s, 14)
        && self.dirs_count == le_u16(s, 16)
    }

    /// Decodes the descriptor at byte `at` of `b`.
    pub fn parse(b: &[u8], at: usize) -> (r: BlockGroupDescriptor)
        requires
            at + 32 <= b@.len(),
        ensures
            r.decodes(b@.subrange(at as int, at + 32)),
    {
        let n: usize = b.len();
        BlockGroupDescriptor {
            block_usage_addr: read_u32(b, at + 0),
            inode_usage_addr: read_u32(b, at + 4),
            inode_table_block: read_u32(b, at + 8),
            free_blocks_count: read_u16(b, at + 12),
            free_inodes_count: read_u16(b, at + 14),
            dirs_count: read_u16(b, at + 16),
        }
    }

    /// Reads the descriptor at `offset`.
    pub fn find_descriptor<S: SectorSize, V: Volume<S>>(haystack: &V, offset: Address<S>) -> (r: Result<(BlockGroupDescriptor, Address<S>), Error>)
        requires
            offset.wf(),
        ensures
            r matches Ok((d, at)) ==> at == offset && offset.index() + 32 <= haystack.contents().len()
                && d.decodes(haystack.contents().subrange(offset.index(), offset.index() + 32)),
            r matches Err(e) ==> is_storage_error(e),
            !addressable::<S>(offset.index() + 32) ==> r matches Err(Error::OutOfBounds { .. }),
            addressable::<S>(offset.index() + 32) && !haystack.spec_size().covers(offset.index() + 32)
                ==> r matches Err(Error::AddressOutOfBounds { .. }),
            haystack.reliable() && addressable::<S>(offset.index() + 32) && readable(
                haystack,
                offset.index() + 32,
            ) ==> r is Ok,
    {
        let slice = match slice_at(haystack, offset, DESCRIPTOR_LEN as u64) {
            Ok(slice) => slice,
            Err(e) => return Err(e),
        };
        let d = BlockGroupDescriptor::parse(slice.as_slice(), 0);
        proof {
            assert(slice@.subrange(0, 32) =~= slice@);
        }
        Ok((d, offset))
    }

    /// Reads `count` consecutive descriptors starting at `offset`.
    pub fn find_descriptor_table<S: SectorSize, V: Volume<S>>(haystack: &V, offset: Address<S>, count: usize) -> (r: Result<(Vec<BlockGroupDescriptor>, Address<S>), Error>)
        requires
            offset.wf(),
            count <= u32::MAX,
        ensures
            r matches Ok((table, at)) ==> {
                &&& at == offset
                &&& table@.len() == count
                &&& offset.index() + 32 * count <= haystack.contents().len()
                &&& forall|i: int|
                    0 <= i < count ==> #[trigger] table@[i].decodes(
                        haystack.contents().subrange(offset.index() + 32 * i, offset.index() + 32 * i + 32),
                    )
            },
            r matches Err(e) ==> is_storage_error(e),
            !addressable::<S>(offset.index() + 32 * count) ==> r matches Err(Error::OutOfBounds { .. }),
            addressable::<S>(offset.index() + 32 * count) && !haystack.spec_size().covers(
                offset.index() + 32 * count,
            ) ==> r matches Err(Error::AddressOutOfBounds { .. }),
            haystack.reliable() && addressable::<S>(offset.index() + 32 * count) && readable(
                haystack,
                offset.index() + 32 * count,
            ) ==> r is Ok,
    {
        let slice = match slice_at(haystack, offset, count as u64 * 32) {
            Ok(slice) => slice,
            Err(e) => return Err(e),
        };
        let bytes = slice.as_slice();
        let n: usize = bytes.len();
        let ghost c = haystack.contents();
        let ghost base = offset.index();
        let mut table: Vec<BlockGroupDescriptor> = Vec::with_capacity(count);
        let mut i: usize = 0;
        while i < count
            invariant
                i <= count <= u32::MAX,
                0 <= base,
                bytes@.len() == 32 * count,
                n == bytes@.len(),
                bytes@ == c.subrange(base, base + 32 * count),
                base + 32 * count <= c.len(),
                table@.len() == i,
                forall|j: int| 0 <= j < i ==> #[trigger] table@[j].decodes(c.subrange(base + 32 * j, base + 32 * j + 32)),
            decreases count - i,
        {
            let d = BlockGroupDescriptor::parse(bytes, i * 32);
            proof {
                assert(bytes@.subrange(32 * i, 32 * i + 32) =~= c.subrange(base + 32 * i, base + 32 * i + 32));
            }
            table.push(d);
            i = i + 1;
        }
        Ok((table, offset))
    }
}

} // verus!
