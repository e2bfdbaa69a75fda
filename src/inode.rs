//! The on-disk inode record: 128 bytes describing one file, directory or
//! other object, and pointing at its data blocks.
use vstd::prelude::*;
use crate::bytes::{le_u16, le_u32, read_u16, read_u32};
use crate::error::Error;
use crate::sector::{Address, SectorSize, addressable};
use crate::volume::{Volume, readable, is_storage_error, slice_at};

verus! {

/// Length of the inode record this library reads.
pub const INODE_LEN: u32 = 128;

/// Mask of the type bits of `type_perm`.
pub const TYPE_MASK: u16 = 0xF000;
/// FIFO
pub const FIFO: u16 = 0x1000;
/// Character device
pub const CHAR_DEVICE: u16 = 0x2000;
/// Directory
pub const DIRECTORY: u16 = 0x4000;
/// Block device
pub const BLOCK_DEVICE: u16 = 0x6000;
/// Regular file
pub const FILE: u16 = 0x8000;
/// Symbolic link
pub const SYMLINK: u16 = 0xA000;
/// Unix socket
pub const SOCKET: u16 = 0xC000;
/// Other: execute permission
pub const O_EXEC: u16 = 0x001;
/// Other: write permission
pub const O_WRITE: u16 = 0x002;
/// Other: read permission
pub const O_READ: u16 = 0x004;
/// Group: execute permission
pub const G_EXEC: u16 = 0x008;
/// Group: write permission
pub const G_WRITE: u16 = 0x010;
/// Group: read permission
pub const G_READ: u16 = 0x020;
/// User: execute permission
pub const U_EXEC: u16 = 0x040;
/// User: write permission
pub const U_WRITE: u16 = 0x080;
/// User: read permission
pub const U_READ: u16 = 0x100;
/// Sticky bit
pub const STICKY: u16 = 0x200;
/// Set group ID
pub const SET_GID: u16 = 0x400;
/// Set user ID
pub const SET_UID: u16 = 0x800;

/// Secure deletion (not used)
pub const SECURE_DEL: u32 = 0x00000001;
/// Keep a copy of data when deleted (not used)
pub const KEEP_COPY: u32 = 0x00000002;
/// File compression (not used)
pub const COMPRESSION: u32 = 0x00000004;
/// Synchronous updates
pub const SYNC_UPDATE: u32 = 0x00000008;
/// Immutable file
pub const IMMUTABLE: u32 = 0x00000010;
/// Append only
pub const APPEND_ONLY: u32 = 0x00000020;
/// Not included in dumps
pub const NODUMP: u32 = 0x00000040;
/// Last access time is not updated
pub const DONT_ATIME: u32 = 0x00000080;
/// Hash indexed directory
pub const HASH_DIR: u32 = 0x00010000;
/// AFS directory
pub const AFS_DIR: u32 = 0x00020000;
/// Journal file data
pub const JOURNAL_DATA: u32 = 0x00040000;

/// The raw inode record.
#[derive(Debug, Clone, Copy)]
pub struct Inode {
    /// Type and permissions
    pub type_perm: u16,
    /// User ID
    pub uid: u16,
    /// Lower 32 bits of the size in bytes
    pub size_low: u32,
    /// Last access time (POSIX time)
    pub atime: u32,
    /// Creation time (POSIX time)
    pub ctime: u32,
    /// Last modification time (POSIX time)
    pub mtime: u32,
    /// Deletion time (POSIX time)
    pub dtime: u32,
    /// Group ID
    pub gid: u16,
    /// Count of hard links; the inode is free when this is 0
    pub hard_links: u16,
    /// Count of disk sectors in use by the inode
    pub sectors_count: u32,
    /// Flags
    pub flags: u32,
    /// Operating system specific value
    pub os_specific_1: u32,
    /// Direct block pointers
    pub direct_pointer: [u32; 12],
    /// Singly indirect block pointer: a block of block pointers
    pub indirect_pointer: u32,
    /// Doubly indirect block pointer: a block of singly indirect pointers
    pub doubly_indirect: u32,
    /// Triply indirect block pointer: a block of doubly indirect pointers
    pub triply_indirect: u32,
    /// Generation number
    pub gen_number: u32,
    /// Extended attribute block (revision 1 and later)
    pub ext_attribute_block: u32,
    /// Upper 32 bits of the size in bytes (revision 1 and later)
    pub size_high: u32,
    /// Block address of the fragment
    pub frag_block_addr: u32,
}

impl Inode {
    /// Whether the record holds the fields encoded in its bytes `s`.
    pub open spec fn decodes(self, s: Seq<u8>) -> bool {
        self.type_perm == le_u16(s, 0)
        && self.uid == le_u16(s, 2)
        && self.size_low == le_u32(s, 4)
        && self.atime == le_u32(s, 8)
        && self.ctime == le_u32(s, 12)
        && self.mtime == le_u32(s, 16)
        && self.dtime == le_u32(s, 20)
        && self.gid == le_u16(s, 24)
        && self.hard_links == le_u16(s, 26)
        && self.sectors_count == le_u32(s, 28)
        && self.flags == le_u32(s, 32)
        && self.os_specific_1 == le_u32(s, 36)
        && self.indirect_pointer == le_u32(s, 88)
        && self.doubly_indirect == le_u32(s, 92)
        && self.triply_indirect == le_u32(s, 96)
        && self.gen_number == le_u32(s, 100)
        && self.ext_attribute_block == le_u32(s, 104)
        && self.size_high == le_u32(s, 108)
        && self.frag_block_addr == le_u32(s, 112)
        && forall|i: int| 0 <= i < 12 ==> #[trigger] self.direct_pointer@[i] == le_u32(s, 40 + 4 * i)
    }

    /// Decodes the inode in the first 128 bytes of `b`.
    pub fn parse(b: &[u8]) -> (r: Inode)
        requires
            128 <= b@.len(),
        ensures
            r.decodes(b@),
    {
        let direct_pointer: [u32; 12] = [
            read_u32(b, 40),
            read_u32(b, 44),
            read_u32(b, 48),
            read_u32(b, 52),
            read_u32(b, 56),
            read_u32(b, 60),
            read_u32(b, 64),
            read_u32(b, 68),
            read_u32(b, 72),
            read_u32(b, 76),
            read_u32(b, 80),
            read_u32(b, 84),
        ];
        proof {
            assert forall|i: int| 0 <= i < 12 implies #[trigger] direct_pointer@[i] == le_u32(b@, 40 + 4 * i) by {
                assert(direct_pointer@ =~= seq![
                    le_u32(b@, 40),
                    le_u32(b@, 44),
                    le_u32(b@, 48),
                    le_u32(b@, 52),
                    le_u32(b@, 56),
                    le_u32(b@, 60),
                    le_u32(b@, 64),
                    le_u32(b@, 68),
                    le_u32(b@, 72),
                    le_u32(b@, 76),
                    le_u32(b@, 80),
                    le_u32(b@, 84),
                ]);
            }
        }
        Inode {
            type_perm: read_u16(b, 0),
            uid: read_u16(b, 2),
            size_low: read_u32(b, 4),
            atime: read_u32(b, 8),
            ctime: read_u32(b, 12),
            mtime: read_u32(b, 16),
            dtime: read_u32(b, 20),
            gid: read_u16(b, 24),
            hard_links: read_u16(b, 26),
            sectors_count: read_u32(b, 28),
            flags: read_u32(b, 32),
            os_specific_1: read_u32(b, 36),
            direct_pointer,
            indirect_pointer: read_u32(b, 88),
            doubly_indirect: read_u32(b, 92),
            triply_indirect: read_u32(b, 96),
            gen_number: read_u32(b, 100),
            ext_attribute_block: read_u32(b, 104),
            size_high: read_u32(b, 108),
            frag_block_addr: read_u32(b, 112),
        }
    }

    /// A record is determined by the bytes it decodes.
    pub proof fn lemma_decodes_unique(a: Inode, b: Inode, s: Seq<u8>)
        requires
            a.decodes(s),
            b.decodes(s),
        ensures
            a == b,
    {
        assert(a.direct_pointer =~= b.direct_pointer);
    }

    /// Reads the inode at `addr`. Only the first 128 bytes of a larger
    /// inode are read.
    pub fn find_inode<S: SectorSize, V: Volume<S>>(haystack: &V, addr: Address<S>, inode_size: usize) -> (r: Result<(Inode, Address<S>), Error>)
        requires
            addr.wf(),
        ensures
            r matches Ok((ino, at)) ==> at == addr && addr.index() + 128 <= haystack.contents().len()
                && ino.decodes(haystack.contents().subrange(addr.index(), addr.index() + 128)),
            r matches Err(e) ==> is_storage_error(e),
            !addressable::<S>(addr.index() + 128) ==> r matches Err(Error::OutOfBounds { .. }),
            addressable::<S>(addr.index() + 128) && !haystack.spec_size().covers(addr.index() + 128)
                ==> r matches Err(Error::AddressOutOfBounds { .. }),
            haystack.reliable() && addressable::<S>(addr.index() + 128) && readable(
                haystack,
                addr.index() + 128,
            ) ==> r is Ok,
    {
        let slice = match slice_at(haystack, addr, INODE_LEN as u64) {
            Ok(slice) => slice,
            Err(e) => return Err(e),
        };
        let ino = Inode::parse(slice.as_slice());
        Ok((ino, addr))
    }
}

} // verus!
