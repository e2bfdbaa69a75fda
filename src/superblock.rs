//! The superblock: the file system's root metadata record, 1024 bytes at
//! byte 1024 of the volume.
use vstd::prelude::*;
use crate::bytes::{le_u16, le_u32, read_u16, read_u32};
use crate::error::Error;
use crate::sector::{Address, SectorSize, spec_size, address_of_u64, lemma_sector_size};
use crate::volume::{Volume, readable, is_storage_error};

verus! {

/// Ext2 signature, used to confirm the presence of ext2 on a volume.
pub const EXT2_MAGIC: u16 = 0xef53;

/// File system is free of errors
pub const FS_CLEAN: u16 = 1;
/// File system has errors
pub const FS_ERR: u16 = 2;

/// Ignore errors
pub const ERR_IGNORE: u16 = 1;
/// Remount as read-only on error
pub const ERR_RONLY: u16 = 2;
/// Panic on error
pub const ERR_PANIC: u16 = 3;

/// Creator OS is Linux
pub const OS_LINUX: u32 = 0;
/// Creator OS is Hurd
pub const OS_HURD: u32 = 1;
/// Creator OS is Masix
pub const OS_MASIX: u32 = 2;
/// Creator OS is FreeBSD
pub const OS_FREEBSD: u32 = 3;
/// Creator OS is a BSD4.4-Lite derivative
pub const OS_LITE: u32 = 4;

/// Optional feature: preallocate blocks for new directories
pub const FEATURE_PREALLOCATE: u32 = 0x0001;
/// Optional feature: AFS server inodes exist
pub const FEATURE_AFS: u32 = 0x0002;
/// Optional feature: the file system has a journal
pub const FEATURE_JOURNAL: u32 = 0x0004;
/// Optional feature: inodes have extended attributes
pub const FEATURE_EXTENDED_INODE: u32 = 0x0008;
/// Optional feature: the file system can resize itself
pub const FEATURE_SELF_RESIZE: u32 = 0x0010;
/// Optional feature: directories use a hash index
pub const FEATURE_HASH_INDEX: u32 = 0x0020;

/// Required feature: compression is used
pub const REQ_COMPRESSION: u32 = 0x0001;
/// Required feature: directory entries contain a type field
pub const REQ_DIRECTORY_TYPE: u32 = 0x0002;
/// Required feature: the journal must be replayed
pub const REQ_REPLAY_JOURNAL: u32 = 0x0004;
/// Required feature: a journal device is used
pub const REQ_JOURNAL_DEVICE: u32 = 0x0008;

/// Read-only feature: sparse superblocks and group descriptor tables
pub const RONLY_SPARSE: u32 = 0x0001;
/// Read-only feature: 64-bit file sizes
pub const RONLY_FILE_SIZE_64: u32 = 0x0002;
/// Read-only feature: directories are stored as binary trees
pub const RONLY_BTREE_DIRECTORY: u32 = 0x0004;

/// Byte index of the superblock on the volume.
pub const SUPERBLOCK_START: u64 = 1024;
/// Length of the superblock in bytes.
pub const SUPERBLOCK_LEN: u64 = 1024;

/// The layout of the file system and the features it was created with.
#[derive(Debug, Clone, Copy)]
pub struct Superblock {
    /// Total number of inodes in the file system
    pub inodes_count: u32,
    /// Total number of blocks in the file system
    pub blocks_count: u32,
    /// Number of blocks reserved for the superuser
    pub r_blocks_count: u32,
    /// Total number of unallocated blocks
    pub free_blocks_count: u32,
    /// Total number of unallocated inodes
    pub free_inodes_count: u32,
    /// Block number of the block containing the superblock
    pub first_data_block: u32,
    /// log2(block size) - 10
    pub log_block_size: u32,
    /// log2(fragment size) - 10
    pub log_frag_size: u32,
    /// Number of blocks in each block group
    pub blocks_per_group: u32,
    /// Number of fragments in each block group
    pub frags_per_group: u32,
    /// Number of inodes in each block group
    pub inodes_per_group: u32,
    /// Last mount time (POSIX time)
    pub mtime: u32,
    /// Last written time (POSIX time)
    pub wtime: u32,
    /// Number of mounts since the last consistency check
    pub mnt_count: u16,
    /// Number of mounts allowed before a consistency check
    pub max_mnt_count: u16,
    /// Ext2 signature, 0xef53
    pub magic: u16,
    /// File system state
    pub state: u16,
    /// What to do when an error is detected
    pub errors: u16,
    /// Minor portion of the version
    pub rev_minor: u16,
    /// Time of the last consistency check (POSIX time)
    pub lastcheck: u32,
    /// Interval between forced consistency checks
    pub checkinterval: u32,
    /// Operating system that created the file system
    pub creator_os: u32,
    /// Major portion of the version
    pub rev_major: u32,
    /// User ID that can use reserved blocks
    pub block_uid: u16,
    /// Group ID that can use reserved blocks
    pub block_gid: u16,
    /// First non-reserved inode
    pub first_inode: u32,
    /// Size of each inode structure in bytes
    pub inode_size: u16,
    /// Block group that this superblock is part of
    pub block_group: u16,
    /// Optional features present
    pub features_opt: u32,
    /// Required features present
    pub features_req: u32,
    /// Features that, if unsupported, force a read-only mount
    pub features_ronly: u32,
    /// Compression algorithms used
    pub compression: u32,
    /// Journal inode
    pub journal_inode: u32,
    /// Journal device
    pub journal_dev: u32,
    /// Head of the orphan inode list
    pub journal_orphan_head: u32,
}

impl Superblock {
    /// Whether the record holds the fields encoded in `s`.
    pub open spec fn decodes(self, s: Seq<u8>) -> bool {
        self.inodes_count == le_u32(s, 0)
        && self.blocks_count == le_u32(s, 4)
        && self.r_blocks_count == le_u32(s, 8)
        && self.free_blocks_count == le_u32(s, 12)
        && self.free_inodes_count == le_u32(s, 16)
        && self.first_data_block == le_u32(s, 20)
        && self.log_block_size == le_u32(s, 24)
        && self.log_frag_size == le_u32(s, 28)
        && self.blocks_per_group == le_u32(s, 32)
        && self.frags_per_group == le_u32(s, 36)
        && self.inodes_per_group == le_u32(s, 40)
        && self.mtime == le_u32(s, 44)
        && self.wtime == le_u32(s, 48)
        && self.mnt_count == le_u16(s, 52)
        && self.max_mnt_count == le_u16(s, 54)
        && self.magic == le_u16(s, 56)
        && self.state == le_u16(s, 58)
        && self.errors == le_u16(s, 60)
        && self.rev_minor == le_u16(s, 62)
        && self.lastcheck == le_u32(s, 64)
        && self.checkinterval == le_u32(s, 68)
        && self.creator_os == le_u32(s, 72)
        && self.rev_major == le_u32(s, 76)
        && self.block_uid == le_u16(s, 80)
        && self.block_gid == le_u16(s, 82)
        && self.first_inode == le_u32(s, 84)
        && self.inode_size == le_u16(s, 88)
        && self.block_group == le_u16(s, 90)
        && self.features_opt == le_u32(s, 92)
        && self.features_req == le_u32(s, 96)
        && self.features_ronly == le_u32(s, 100)
        && self.compression == le_u32(s, 200)
        && self.journal_inode == le_u32(s, 224)
        && self.journal_dev == le_u32(s, 228)
        && self.journal_orphan_head == le_u32(s, 232)
    }

    /// Decodes a superblock from its 1024 bytes.
    pub fn parse(b: &[u8]) -> (r: Superblock)
        requires
            b@.len() >= 1024,
        ensures
            r.decodes(b@),
    {
        Superblock {
            inodes_count: read_u32(b, 0),
            blocks_count: read_u32(b, 4),
            r_blocks_count: read_u32(b, 8),
            free_blocks_count: read_u32(b, 12),
            free_inodes_count: read_u32(b, 16),
            first_data_block: read_u32(b, 20),
            log_block_size: read_u32(b, 24),
            log_frag_size: read_u32(b, 28),
            blocks_per_group: read_u32(b, 32),
            frags_per_group: read_u32(b, 36),
            inodes_per_group: read_u32(b, 40),
            mtime: read_u32(b, 44),
            wtime: read_u32(b, 48),
            mnt_count: read_u16(b, 52),
            max_mnt_count: read_u16(b, 54),
            magic: read_u16(b, 56),
            state: read_u16(b, 58),
            errors: read_u16(b, 60),
            rev_minor: read_u16(b, 62),
            lastcheck: read_u32(b, 64),
            checkinterval: read_u32(b, 68),
            creator_os: read_u32(b, 72),
            rev_major: read_u32(b, 76),
            block_uid: read_u16(b, 80),
            block_gid: read_u16(b, 82),
            first_inode: read_u32(b, 84),
            inode_size: read_u16(b, 88),
            block_group: read_u16(b, 90),
            features_opt: read_u32(b, 92),
            features_req: read_u32(b, 96),
            features_ronly: read_u32(b, 100),
            compression: read_u32(b, 200),
            journal_inode: read_u32(b, 224),
            journal_dev: read_u32(b, 228),
            journal_orphan_head: read_u32(b, 232),
        }
    }

    /// Finds the superblock of `haystack`: the 1024 bytes at byte 1024,
    /// which must carry the ext2 magic number. Returns the record and its
    /// address.
    pub fn find<S: SectorSize, V: Volume<S>>(haystack: &V) -> (r: Result<(Superblock, Address<S>), Error>)
        ensures
            !haystack.spec_size().covers(2048) ==> r == Err::<(Superblock, Address<S>), Error>(
                Error::AddressOutOfBounds {
                    sector: address_of_u64::<S>(2048).spec_sector(),
                    offset: address_of_u64::<S>(2048).spec_offset(),
                    size: spec_size::<S>() as usize,
                }),
            r matches Ok((sb, at)) ==> {
                &&& haystack.contents().len() >= 2048
                &&& sb.decodes(haystack.contents().subrange(1024, 2048))
                &&& sb.magic == EXT2_MAGIC
                &&& at.index() == 1024
            },
            r matches Err(e) ==> is_storage_error(e) || e is BadMagic,
            r matches Err(Error::BadMagic { magic }) ==> {
                &&& haystack.contents().len() >= 2048
                &&& magic == le_u16(haystack.contents(), 1080)
                &&& magic != EXT2_MAGIC
            },
            haystack.reliable() && readable(haystack, 2048) ==> (r is Ok <==> le_u16(
                haystack.contents(),
                1080,
            ) == EXT2_MAGIC),
            haystack.reliable() && readable(haystack, 2048) && le_u16(haystack.contents(), 1080)
                != EXT2_MAGIC ==> r matches Err(Error::BadMagic { .. }),
    {
        proof {
            lemma_sector_size::<S>();
            vstd::arithmetic::power2::lemma2_to64();
        }
        let offset: Address<S> = Address::from(SUPERBLOCK_START);
        let end: Address<S> = Address::from(SUPERBLOCK_START + SUPERBLOCK_LEN);
        proof {
            Address::<S>::lemma_at_index(1024);
            Address::<S>::lemma_at_index(2048);
            assert(1024int % (crate::sector::sector_count() * spec_size::<S>()) == 1024) by (nonlinear_arith)
                requires spec_size::<S>() >= 512;
            assert(2048int % (crate::sector::sector_count() * spec_size::<S>()) == 2048) by (nonlinear_arith)
                requires spec_size::<S>() >= 512;
        }
        if !haystack.size().covers_end(&end) {
            return Err(Error::AddressOutOfBounds {
                sector: end.sector(),
                offset: end.offset(),
                size: end.sector_size(),
            });
        }
        let slice = match haystack.slice(offset..end) {
            Ok(slice) => slice,
            Err(e) => return Err(e),
        };
        let bytes = slice.as_slice();
        let superblock = Superblock::parse(bytes);
        proof {
            assert(bytes@.subrange(56, 58) == haystack.contents().subrange(1080, 1082));
        }
        if superblock.magic != EXT2_MAGIC {
            Err(Error::BadMagic { magic: superblock.magic })
        } else {
            Ok((superblock, offset))
        }
    }

    /// Block size in bytes: `1024 << log_block_size`.
    pub fn block_size(&self) -> (r: usize)
        requires
            self.log_block_size <= 21,
        ensures
            r == vstd::arithmetic::power2::pow2(self.log_block_size as nat + 10),
    {
        proof {
            vstd::arithmetic::power2::lemma_pow2_adds(self.log_block_size as nat, 10);
            vstd::arithmetic::power2::lemma2_to64();
            if self.log_block_size < 21 {
                vstd::arithmetic::power2::lemma_pow2_strictly_increases(self.log_block_size as nat, 21);
            }
            vstd::bits::lemma_u64_shl_is_mul(1024, self.log_block_size as u64);
        }
        (1024u64 << self.log_block_size as u64) as usize
    }

    /// Fragment size in bytes: `1024 << log_frag_size`.
    pub fn frag_size(&self) -> (r: usize)
        requires
            self.log_frag_size <= 21,
        ensures
            r == vstd::arithmetic::power2::pow2(self.log_frag_size as nat + 10),
    {
        proof {
            vstd::arithmetic::power2::lemma_pow2_adds(self.log_frag_size as nat, 10);
            vstd::arithmetic::power2::lemma2_to64();
            if self.log_frag_size < 21 {
                vstd::arithmetic::power2::lemma_pow2_strictly_increases(self.log_frag_size as nat, 21);
            }
            vstd::bits::lemma_u64_shl_is_mul(1024, self.log_frag_size as u64);
        }
        (1024u64 << self.log_frag_size as u64) as usize
    }

    /// The number of block groups, counted from the blocks and from the
    /// inodes. The two counts must agree; otherwise both are returned.
    pub fn block_group_count(&self) -> (r: Result<u32, (u32, u32)>)
        ensures
            r == group_count_result(
                self.blocks_count,
                self.blocks_per_group,
                self.inodes_count,
                self.inodes_per_group,
            ),
    {
        let by_blocks = count_groups(self.blocks_count, self.blocks_per_group);
        let by_inodes = count_groups(self.inodes_count, self.inodes_per_group);
        if by_blocks == by_inodes {
            Ok(by_blocks)
        } else {
            Err((by_blocks, by_inodes))
        }
    }
}

/// `ceil(n / per_group)`; no groups when a group holds nothing.
pub open spec fn groups_for(n: u32, per_group: u32) -> u32 {
    if per_group == 0 {
        0
    } else {
        ((n as int + per_group as int - 1) / per_group as int) as u32
    }
}

/// The group count when the two ways of counting agree, or both counts.
pub open spec fn group_count_result(blocks: u32, blocks_per_group: u32, inodes: u32, inodes_per_group: u32) -> Result<u32, (u32, u32)> {
    let by_blocks = groups_for(blocks, blocks_per_group);
    let by_inodes = groups_for(inodes, inodes_per_group);
    if by_blocks == by_inodes {
        Ok(by_blocks)
    } else {
        Err((by_blocks, by_inodes))
    }
}

/// `ceil(n / per_group)`, and 0 when `per_group` is 0.
pub fn count_groups(n: u32, per_group: u32) -> (r: u32)
    ensures
        r == groups_for(n, per_group),
{
    if per_group == 0 {
        return 0;
    }
    let q = n / per_group;
    let inc: u32 = if n % per_group == 0 { 0 } else { 1 };
    proof {
        let m = per_group as int;
        let rem = (n % per_group) as int;
        let qq = q as int;
        let k = n as int + m - 1;
        vstd::arithmetic::div_mod::lemma_fundamental_div_mod(n as int, m);
        assert(n as int == qq * m + rem) by (nonlinear_arith)
            requires n as int == m * qq + rem;
        assert(qq <= n as int) by (nonlinear_arith)
            requires n as int == qq * m + rem, m >= 1, rem >= 0, qq >= 0;
        if rem == 0 {
            vstd::arithmetic::div_mod::lemma_fundamental_div_mod_converse(k, m, qq, m - 1);
        } else {
            assert(qq < n as int) by (nonlinear_arith)
                requires n as int == qq * m + rem, m >= 1, rem >= 1, qq >= 0;
            assert(k == (qq + 1) * m + (rem - 1)) by (nonlinear_arith)
                requires n as int == qq * m + rem, k == n as int + m - 1;
            vstd::arithmetic::div_mod::lemma_fundamental_div_mod_converse(k, m, qq + 1, rem - 1);
        }
    }
    q + inc
}

} // verus!
