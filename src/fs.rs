//! The filesystem handle: the superblock and group descriptor table of a
//! volume, inode lookup, the block resolver, file reads, directory walks and
//! path resolution.
use vstd::prelude::*;
use vstd::arithmetic::power2::pow2;
use crate::bytes::{le_u16, le_u32, read_u16, read_u32};
use crate::error::Error;
use crate::sector::{Address, SectorSize, spec_size, addressable, lemma_sector_size};
use crate::volume::{Volume, VolumeSlice, readable, is_storage_error, slice_at};
use crate::superblock::{Superblock, EXT2_MAGIC, groups_for, group_count_result};
use crate::block_group::BlockGroupDescriptor;
use crate::inode::{Inode as RawInode, DIRECTORY, INODE_LEN};

verus! {

/// Largest `log_block_size` the superblock may hold: blocks of 2 GiB.
pub const MAX_LOG_BLOCK_SIZE: u32 = 21;

/// The address of byte `offset` of block `block`, for blocks of
/// `2^log_block_size` bytes. `OutOfBounds` names the byte index when no
/// address reaches it.
pub fn block_address<S: SectorSize>(block: u64, offset: u64, log_block_size: u32) -> (r: Result<Address<S>, Error>)
    requires
        log_block_size <= 31,
        block <= 0x1_0000_0000,
        offset <= 0x1_0000_0000_0000,
    ensures
        r matches Ok(a) ==> a.wf() && a.index() == block * pow2(log_block_size as nat) + offset,
        r is Ok <==> addressable::<S>(block * pow2(log_block_size as nat) + offset),
        r matches Err(e) ==> e is OutOfBounds,
{
    proof {
        lemma_sector_size::<S>();
        vstd::arithmetic::power2::lemma2_to64();
        if log_block_size < 31 {
            vstd::arithmetic::power2::lemma_pow2_strictly_increases(log_block_size as nat, 31);
        }
        vstd::bits::lemma_u64_shl_is_mul(1, log_block_size as u64);
        assert(block * pow2(log_block_size as nat) <= 0x1_0000_0000 * 0x8000_0000) by (nonlinear_arith)
            requires block <= 0x1_0000_0000, pow2(log_block_size as nat) <= 0x8000_0000;
    }
    let block_size: u64 = 1u64 << log_block_size as u64;
    let index: u64 = block * block_size + offset;
    let span: u64 = 0x1_0000_0000u64 << S::log_size();
    proof {
        vstd::bits::lemma_u64_shl_is_mul(0x1_0000_0000u64, S::spec_log_size() as u64);
        assert(0x1_0000_0000u64 * spec_size::<S>() <= u64::MAX) by (nonlinear_arith)
            requires spec_size::<S>() <= 4096;
    }
    if index >= span {
        return Err(Error::OutOfBounds { index: #[verifier::truncate] (index as usize) });
    }
    proof {
        vstd::arithmetic::div_mod::lemma_small_mod(index as nat, span as nat);
        Address::<S>::lemma_at_index(index as int);
    }
    Ok(Address::from(index))
}

/// The group counts of the superblock stored in `c`.
pub open spec fn stored_group_count(c: Seq<u8>) -> Result<u32, (u32, u32)> {
    group_count_result(le_u32(c, 1028), le_u32(c, 1056), le_u32(c, 1024), le_u32(c, 1064))
}

/// A block pointer: 0 means no block.
pub open spec fn nonzero(p: u32) -> Option<u32> {
    if p == 0 {
        None
    } else {
        Some(p)
    }
}

/// A pointer read from disk: 0 means no block.
fn nz(p: u32) -> (r: Option<u32>)
    ensures
        r == nonzero(p),
{
    if p == 0 {
        None
    } else {
        Some(p)
    }
}

/// Where the group descriptor table of the superblock stored in `c` ends:
/// it starts in the block after the superblock's and holds one 32-byte
/// descriptor per group.
pub open spec fn stored_table_end(c: Seq<u8>) -> int {
    (le_u32(c, 1044) + 1) * pow2(le_u32(c, 1048) as nat + 10) + 32 * stored_group_count(c)->Ok_0
}

/// How looking up a name in a directory turns out: the walk ends without
/// the name, meets a malformed record first, or finds the name's record,
/// which names an inode.
pub enum Lookup {
    Missing,
    Malformed,
    Found(u32),
    Unreadable,
}

/// An ext2 filesystem on a volume: the volume, its superblock and its block
/// group descriptor table, each with the address it was read from.
pub struct Ext2<S: SectorSize, V: Volume<S>> {
    volume: V,
    superblock: Superblock,
    superblock_addr: Address<S>,
    block_groups: Vec<BlockGroupDescriptor>,
    block_groups_addr: Address<S>,
}

/// Byte index of the group descriptor table for a superblock.
pub open spec fn table_index(sb: Superblock) -> int {
    (sb.first_data_block + 1) * pow2(sb.log_block_size as nat + 10)
}

impl<S: SectorSize, V: Volume<S>> Ext2<S, V> {
    /// The volume the filesystem was read from.
    pub closed spec fn volume(&self) -> V {
        self.volume
    }

    /// The superblock read at construction.
    pub closed spec fn sb(&self) -> Superblock {
        self.superblock
    }

    /// The block group descriptor table read at construction.
    pub closed spec fn groups(&self) -> Seq<BlockGroupDescriptor> {
        self.block_groups@
    }

    /// The bytes of the volume.
    pub open spec fn contents(&self) -> Seq<u8> {
        self.volume().contents()
    }

    /// Whether the bytes up to `end` can be read through an address.
    pub open spec fn can_read(&self, end: int) -> bool {
        addressable::<S>(end) && readable(&self.volume(), end)
    }

    /// What construction established: the superblock decodes the volume's
    /// bytes at 1024, carries the magic number and a supported block size.
    pub open spec fn wf(&self) -> bool {
        &&& self.contents().len() >= 2048
        &&& self.sb().decodes(self.contents().subrange(1024, 2048))
        &&& self.sb().magic == EXT2_MAGIC
        &&& self.sb().log_block_size <= MAX_LOG_BLOCK_SIZE
        &&& self.groups().len() <= u32::MAX
    }

    /// Base-2 logarithm of the block size.
    pub open spec fn spec_log_block_size(&self) -> nat {
        self.sb().log_block_size as nat + 10
    }

    /// Block size in bytes.
    pub open spec fn spec_block_size(&self) -> nat {
        pow2(self.spec_log_block_size())
    }

    /// Size of an inode record in the inode tables.
    pub open spec fn spec_inode_size(&self) -> nat {
        if self.sb().rev_major == 0 {
            128
        } else {
            self.sb().inode_size as nat
        }
    }

    /// Number of 32-bit block pointers in a block.
    pub open spec fn n4(&self) -> int {
        self.spec_block_size() as int / 4
    }

    /// Logical blocks past this index are never present.
    pub open spec fn max_blocks(&self) -> int {
        let n4 = self.n4();
        12 + n4 + n4 * n4 + n4 * n4 * n4
    }

    /// Slot `idx` of pointer block `block`; `None` when it cannot be read.
    pub open spec fn pointer(&self, block: u32, idx: int) -> Option<u32> {
        let at = block * self.spec_block_size() + 4 * idx;
        if self.can_read(at + 4) {
            Some(le_u32(self.contents(), at))
        } else {
            None
        }
    }

    /// One step down the pointer tree: from a resolved pointer to the
    /// pointer in its slot `idx`. A hole stays a hole and a failed read
    /// stays failed.
    pub open spec fn step(&self, ptr: Option<Option<u32>>, idx: int) -> Option<Option<u32>> {
        match ptr {
            Some(Some(b)) => match self.pointer(b, idx) {
                Some(p) => Some(nonzero(p)),
                None => None,
            },
            other => other,
        }
    }

    /// The physical block that holds logical block `i` of an inode:
    /// `Some(Some(b))` for block `b`, `Some(None)` for a hole or an index
    /// past the triply indirect tree, `None` when a pointer block cannot be
    /// read.
    pub open spec fn resolve(&self, ino: RawInode, i: int) -> Option<Option<u32>> {
        let n4 = self.n4();
        if i < 12 {
            Some(nonzero(ino.direct_pointer@[i]))
        } else if i < 12 + n4 {
            self.step(Some(nonzero(ino.indirect_pointer)), i - 12)
        } else if i < 12 + n4 + n4 * n4 {
            let j = i - 12 - n4;
            self.step(self.step(Some(nonzero(ino.doubly_indirect)), j / n4), j % n4)
        } else if i < 12 + n4 + n4 * n4 + n4 * n4 * n4 {
            let j = i - 12 - n4 - n4 * n4;
            self.step(
                self.step(self.step(Some(nonzero(ino.triply_indirect)), j / (n4 * n4)), (j / n4) % n4),
                j % n4,
            )
        } else {
            Some(None)
        }
    }

    /// Reads slot `index` of pointer block `block`, which is not 0.
    fn block_index(&self, block: u32, index: u64) -> (r: Result<Option<u32>, Error>)
        requires
            self.wf(),
            block != 0,
            index < self.n4(),
        ensures
            r matches Ok(x) ==> self.step(Some(Some(block)), index as int) == Some(x),
            r matches Err(e) ==> is_storage_error(e),
            self.volume().reliable() && self.step(Some(Some(block)), index as int) is Some ==> r is Ok,
    {
        proof {
            self.lemma_block_size();
        }
        let addr = match block_address::<S>(block as u64, index * 4, self.log_block_size()) {
            Ok(a) => a,
            Err(e) => return Err(e),
        };
        let slice = match slice_at(&self.volume, addr, 4) {
            Ok(slice) => slice,
            Err(e) => return Err(e),
        };
        let p = read_u32(slice.as_slice(), 0);
        proof {
            assert(slice@[0] == self.contents()[addr.index()]);
            assert(slice@[1] == self.contents()[addr.index() + 1]);
            assert(slice@[2] == self.contents()[addr.index() + 2]);
            assert(slice@[3] == self.contents()[addr.index() + 3]);
        }
        if p == 0 {
            Ok(None)
        } else {
            Ok(Some(p))
        }
    }

    /// Follows a resolved pointer into slot `index`: a hole stays a hole.
    fn follow(&self, ptr: Option<u32>, index: u64) -> (r: Result<Option<u32>, Error>)
        requires
            self.wf(),
            ptr matches Some(b) ==> b != 0,
            index < self.n4(),
        ensures
            r matches Ok(x) ==> self.step(Some(ptr), index as int) == Some(x),
            ptr is None ==> r == Ok::<Option<u32>, Error>(None),
            r matches Err(e) ==> is_storage_error(e),
            self.volume().reliable() && self.step(Some(ptr), index as int) is Some ==> r is Ok,
    {
        match ptr {
            None => Ok(None),
            Some(b) => self.block_index(b, index),
        }
    }

    /// The facts about the block size that the resolver needs.
    proof fn lemma_block_size(&self)
        requires
            self.wf(),
        ensures
            1024 <= self.spec_block_size() <= 0x8000_0000,
            self.spec_block_size() % 4 == 0,
            self.n4() * 4 == self.spec_block_size(),
            256 <= self.n4() <= 0x2000_0000,
    {
        vstd::arithmetic::power2::lemma2_to64();
        let l = self.spec_log_block_size();
        vstd::arithmetic::power2::lemma_pow2_adds((l - 2) as nat, 2);
        vstd::arithmetic::power2::lemma_pow2_pos((l - 2) as nat);
        if l > 10 {
            vstd::arithmetic::power2::lemma_pow2_strictly_increases(10, l);
        }
        if l < 31 {
            vstd::arithmetic::power2::lemma_pow2_strictly_increases(l, 31);
        }
        if l - 2 > 8 {
            vstd::arithmetic::power2::lemma_pow2_strictly_increases(8, (l - 2) as nat);
        }
    }

    /// The bytes of block `blk`.
    pub open spec fn block_bytes(&self, blk: u32) -> Seq<u8> {
        let bs = self.spec_block_size() as int;
        self.contents().subrange(blk * bs, blk * bs + bs)
    }

    /// `e` is the well-formed record at byte `o` of logical block `j` of
    /// directory `dir`.
    pub open spec fn dir_entry_at(&self, dir: RawInode, j: int, o: int, e: DirectoryEntry) -> bool {
        &&& self.resolve(dir, j) matches Some(Some(blk))
        &&& entry_fits(self.block_bytes(self.resolve(dir, j)->Some_0->Some_0), o)
        &&& entry_decodes(self.block_bytes(self.resolve(dir, j)->Some_0->Some_0), o, e)
    }

    /// Directory `dir` holds a record named `name` for inode `target`.
    pub open spec fn lists(&self, dir: RawInode, name: Seq<u8>, target: int) -> bool {
        exists|j: int, o: int, e: DirectoryEntry|
            #[trigger] self.dir_entry_at(dir, j, o, e) && e.name@ == name && e.inode == target
    }

    /// The bytes of logical block `j` of inode `ino`.
    pub open spec fn data_block(&self, ino: RawInode, j: int) -> Seq<u8> {
        self.block_bytes(self.resolve(ino, j)->Some_0->Some_0)
    }

    /// Where a directory walk goes after the record at byte `o` of logical
    /// block `j`: the record's length further on, or the start of the next
    /// block.
    pub open spec fn walk_next(&self, ino: RawInode, p: (int, int)) -> (int, int) {
        let next = p.1 + le_u16(self.data_block(ino, p.0), p.1 + 4);
        if next >= self.spec_block_size() {
            (p.0 + 1, 0)
        } else {
            (p.0, next)
        }
    }

    /// Position (logical block, byte offset) of record `n` of a walk of
    /// directory `ino`.
    pub open spec fn walk_pos(&self, ino: RawInode, n: nat) -> (int, int)
        decreases n,
    {
        if n == 0 {
            (0, 0)
        } else {
            self.walk_next(ino, self.walk_pos(ino, (n - 1) as nat))
        }
    }

    /// A directory walk ends at position `p`: at a hole, or at the record
    /// with inode 0.
    pub open spec fn walk_ends(&self, ino: RawInode, p: (int, int)) -> bool {
        ||| self.resolve(ino, p.0) == Some(None::<u32>)
        ||| (self.resolve(ino, p.0) matches Some(Some(_)) && entry_ends(self.data_block(ino, p.0), p.1))
    }

    /// The name of the record at position `p` of directory `ino`.
    pub open spec fn record_name(&self, ino: RawInode, p: (int, int)) -> Seq<u8> {
        let s = self.data_block(ino, p.0);
        s.subrange(p.1 + 8, p.1 + 8 + s[p.1 + 6])
    }

    /// The first `n` records of the walk of directory `dir` are well formed
    /// and none of them is named `name`.
    #[verifier::opaque]
    pub open spec fn walk_misses(&self, dir: RawInode, name: Seq<u8>, n: nat) -> bool {
        forall|k: nat|
            k < n ==> {
                &&& #[trigger] self.resolve(dir, self.walk_pos(dir, k).0) matches Some(Some(_))
                &&& entry_fits(self.data_block(dir, self.walk_pos(dir, k).0), self.walk_pos(dir, k).1)
                &&& !entry_ends(self.data_block(dir, self.walk_pos(dir, k).0), self.walk_pos(dir, k).1)
                &&& self.record_name(dir, self.walk_pos(dir, k)) != name
            }
    }

    proof fn lemma_misses_extend(&self, dir: RawInode, name: Seq<u8>, n: nat)
        requires
            self.walk_misses(dir, name, n),
            self.resolve(dir, self.walk_pos(dir, n).0) matches Some(Some(_)),
            entry_fits(self.data_block(dir, self.walk_pos(dir, n).0), self.walk_pos(dir, n).1),
            !entry_ends(self.data_block(dir, self.walk_pos(dir, n).0), self.walk_pos(dir, n).1),
            self.record_name(dir, self.walk_pos(dir, n)) != name,
        ensures
            self.walk_misses(dir, name, n + 1),
    {
        reveal(Ext2::walk_misses);
        assert forall|k: nat| k < n + 1 implies {
            &&& #[trigger] self.resolve(dir, self.walk_pos(dir, k).0) matches Some(Some(_))
            &&& entry_fits(self.data_block(dir, self.walk_pos(dir, k).0), self.walk_pos(dir, k).1)
            &&& !entry_ends(self.data_block(dir, self.walk_pos(dir, k).0), self.walk_pos(dir, k).1)
            &&& self.record_name(dir, self.walk_pos(dir, k)) != name
        } by {
            if k < n {
            }
        }
    }

    /// Every block of directory `dir` can be resolved and read.
    pub open spec fn dir_readable(&self, dir: RawInode) -> bool {
        forall|j: int| 0 <= j ==> #[trigger] self.block_readable(dir, j)
    }

    /// Every read that resolving a path can make succeeds: the volume is
    /// reliable, logical block numbers fit a `usize`, every inode record in
    /// range can be read, and so can every block of every directory.
    pub open spec fn sound(&self) -> bool {
        &&& self.volume().reliable()
        &&& self.max_blocks() < usize::MAX
        &&& forall|n: int| #[trigger] self.inode_in_range(n) ==> self.can_read(self.inode_index(n) + 128)
        &&& forall|n: int, dir: RawInode|
            #[trigger] dir.decodes(self.contents().subrange(self.inode_index(n), self.inode_index(n) + 128))
                && self.inode_in_range(n) && dir.type_perm & DIRECTORY == DIRECTORY ==> self.dir_readable(dir)
    }

    /// The walk of directory `dir` meets `n` well-formed records, none of
    /// them named `name`, and then ends.
    pub open spec fn walk_lacks(&self, dir: RawInode, name: Seq<u8>, n: nat) -> bool {
        &&& self.walk_ends(dir, self.walk_pos(dir, n))
        &&& self.walk_misses(dir, name, n)
    }

    /// Record `n` of the walk of directory `dir` is the first one named
    /// `name`, and it names inode `target`.
    pub open spec fn walk_finds(&self, dir: RawInode, name: Seq<u8>, target: int, n: nat) -> bool {
        let p = self.walk_pos(dir, n);
        &&& self.resolve(dir, p.0) matches Some(Some(_))
        &&& entry_fits(self.data_block(dir, p.0), p.1)
        &&& self.record_name(dir, p) == name
        &&& le_u32(self.data_block(dir, p.0), p.1) == target
        &&& target != 0
        &&& self.walk_misses(dir, name, n)
    }

    /// Record `n` of the walk of directory `dir` is malformed, and none
    /// before it is named `name`.
    pub open spec fn walk_malformed(&self, dir: RawInode, name: Seq<u8>, n: nat) -> bool {
        let p = self.walk_pos(dir, n);
        &&& self.resolve(dir, p.0) matches Some(Some(_))
        &&& !entry_ends(self.data_block(dir, p.0), p.1)
        &&& !entry_fits(self.data_block(dir, p.0), p.1)
        &&& self.walk_misses(dir, name, n)
    }

    /// The walks of one directory for one name end in one way only: the
    /// record found, the end of the walk, or a malformed record.
    pub proof fn lemma_walk_outcomes(&self, dir: RawInode, name: Seq<u8>, n: nat, m: nat)
        ensures
            !(self.walk_finds(dir, name, self.walk_target(dir, n), n) && self.walk_lacks(dir, name, m)),
            !(self.walk_malformed(dir, name, n) && self.walk_lacks(dir, name, m)),
            !(self.walk_malformed(dir, name, n) && self.walk_finds(dir, name, self.walk_target(dir, m), m)),
            self.walk_finds(dir, name, self.walk_target(dir, n), n) && self.walk_finds(
                dir,
                name,
                self.walk_target(dir, m),
                m,
            ) ==> n == m,
    {
        reveal(Ext2::walk_misses);
        if n < m {
            assert(self.resolve(dir, self.walk_pos(dir, n).0) matches Some(Some(_)) ==> true);
        } else if m < n {
            assert(self.resolve(dir, self.walk_pos(dir, m).0) matches Some(Some(_)) ==> true);
        }
    }

    /// The outcome of looking `name` up in directory `dir`; `Unreadable`
    /// when the walk reaches a block that cannot be read.
    #[verifier::opaque]
    pub open spec fn lookup(&self, dir: RawInode, name: Seq<u8>) -> Lookup {
        if exists|n: nat| #[trigger] self.walk_lacks(dir, name, n) {
            Lookup::Missing
        } else if exists|n: nat| #[trigger] self.walk_malformed(dir, name, n) {
            Lookup::Malformed
        } else if exists|n: nat| #[trigger] self.walk_finds(dir, name, self.walk_target(dir, n), n) {
            Lookup::Found(
                self.walk_target(
                    dir,
                    choose|n: nat| #[trigger] self.walk_finds(dir, name, self.walk_target(dir, n), n),
                ) as u32,
            )
        } else {
            Lookup::Unreadable
        }
    }

    /// A walk that ends without the name looks it up as missing.
    pub proof fn lemma_lookup_missing(&self, dir: RawInode, name: Seq<u8>, n: nat)
        requires
            self.walk_lacks(dir, name, n),
        ensures
            self.lookup(dir, name) == Lookup::Missing,
    {
        reveal(Ext2::lookup);
    }

    /// A walk that meets a malformed record first looks the name up as
    /// malformed.
    pub proof fn lemma_lookup_malformed(&self, dir: RawInode, name: Seq<u8>, n: nat)
        requires
            self.walk_malformed(dir, name, n),
        ensures
            self.lookup(dir, name) == Lookup::Malformed,
    {
        reveal(Ext2::lookup);
        assert forall|m: nat| !#[trigger] self.walk_lacks(dir, name, m) by {
            self.lemma_walk_outcomes(dir, name, n, m);
        }
    }

    /// A walk that finds the name at record `n` looks it up as that
    /// record's inode.
    pub proof fn lemma_lookup_found(&self, dir: RawInode, name: Seq<u8>, n: nat)
        requires
            self.walk_finds(dir, name, self.walk_target(dir, n), n),
        ensures
            self.lookup(dir, name) == Lookup::Found(self.walk_target(dir, n) as u32),
    {
        reveal(Ext2::lookup);
        assert forall|m: nat| !#[trigger] self.walk_lacks(dir, name, m) by {
            self.lemma_walk_outcomes(dir, name, n, m);
        }
        assert forall|m: nat| !#[trigger] self.walk_malformed(dir, name, m) by {
            self.lemma_walk_outcomes(dir, name, m, n);
        }
        assert forall|m: nat| #[trigger] self.walk_finds(dir, name, self.walk_target(dir, m), m) implies m == n by {
            self.lemma_walk_outcomes(dir, name, n, m);
        }
    }

    /// The inode field of record `n` of the walk of directory `dir`.
    pub open spec fn walk_target(&self, dir: RawInode, n: nat) -> int {
        le_u32(self.data_block(dir, self.walk_pos(dir, n).0), self.walk_pos(dir, n).1) as int
    }

    /// The first record named `name` in a walk of directory `dir` names
    /// inode `target`.
    #[verifier::opaque]
    pub open spec fn finds(&self, dir: RawInode, name: Seq<u8>, target: int) -> bool {
        exists|n: nat| #[trigger] self.walk_finds(dir, name, target, n)
    }

    /// The first record named `name` in a walk of directory `dir` names an
    /// inode that is out of range or cannot be read.
    pub open spec fn finds_unreadable(&self, dir: RawInode, name: Seq<u8>) -> bool {
        exists|target: int|
            #[trigger] self.finds(dir, name, target) && (!self.inode_in_range(target) || !self.can_read(
                self.inode_index(target) + 128,
            ) || !self.volume().reliable())
    }

    /// The first record named `name` in a walk of directory `dir` names an
    /// inode outside the inode tables.
    pub open spec fn finds_out_of_range(&self, dir: RawInode, name: Seq<u8>) -> bool {
        exists|target: int| #[trigger] self.finds(dir, name, target) && !self.inode_in_range(target)
    }

    /// A walk of directory `dir` ends without meeting a record named `name`.
    pub open spec fn lacks(&self, dir: RawInode, name: Seq<u8>) -> bool {
        exists|n: nat| #[trigger] self.walk_lacks(dir, name, n)
    }

    /// Logical block `j` of the inode resolves without a failed read, and
    /// when it is present its bytes can be read.
    pub open spec fn block_readable(&self, ino: RawInode, j: int) -> bool {
        &&& self.resolve(ino, j) is Some
        &&& self.resolve(ino, j) matches Some(Some(b)) ==> self.can_read(
            b * self.spec_block_size() + self.spec_block_size(),
        )
    }

    /// Every logical block that holds one of the first `limit` bytes, up
    /// to the first hole, can be resolved and read.
    pub open spec fn data_readable(&self, ino: RawInode, limit: int) -> bool {
        forall|j: int|
            0 <= j && j * self.spec_block_size() < limit && self.present(ino, j) ==> #[trigger] self.block_readable(
                ino,
                j,
            )
    }

    /// Logical blocks `0..k` of the inode all resolve to a block.
    pub open spec fn present(&self, ino: RawInode, k: int) -> bool {
        forall|j: int| 0 <= j < k ==> #[trigger] self.resolve(ino, j) matches Some(Some(_))
    }

    /// Byte `p` of the inode's data, read through the block that holds it.
    pub open spec fn file_byte(&self, ino: RawInode, p: int) -> u8 {
        let bs = self.spec_block_size() as int;
        let b = self.resolve(ino, p / bs)->Some_0->Some_0;
        self.contents()[b * bs + p % bs]
    }

    /// A read of an inode of `size` bytes into a buffer of `buf_len` bytes
    /// that copied `n` bytes: the read stops at the smaller of the size and
    /// the buffer, or at the first hole before that. Every block it copied
    /// from is present.
    pub open spec fn read_outcome(&self, ino: RawInode, size: int, buf_len: int, n: int) -> bool {
        let bs = self.spec_block_size() as int;
        let limit = if size < buf_len { size } else { buf_len };
        &&& 0 <= n <= limit
        &&& self.present(ino, (n + bs - 1) / bs)
        &&& n < limit ==> n % bs == 0 && self.resolve(ino, n / bs) == Some(None::<u32>)
    }

    /// What a read loop that found `k` blocks and copied `n` bytes returns.
    proof fn lemma_read_outcome(&self, ino: RawInode, size: int, buf_len: int, k: int, n: int)
        requires
            self.wf(),
            0 <= k,
            0 <= size,
            0 <= buf_len,
            self.present(ino, k),
            n == (if k * self.spec_block_size() < (if size < buf_len { size } else { buf_len }) {
                k * self.spec_block_size()
            } else {
                if size < buf_len { size } else { buf_len }
            }),
            n < (if size < buf_len { size } else { buf_len }) ==> self.resolve(ino, k) == Some(None::<u32>),
        ensures
            self.read_outcome(ino, size, buf_len, n),
    {
        self.lemma_block_size();
        let bs = self.spec_block_size() as int;
        let limit = if size < buf_len { size } else { buf_len };
        let c = (n + bs - 1) / bs;
        if k * bs < limit {
            vstd::arithmetic::div_mod::lemma_fundamental_div_mod_converse(n, bs, k, 0);
            vstd::arithmetic::div_mod::lemma_fundamental_div_mod_converse(n + bs - 1, bs, k, bs - 1);
        } else {
            // n == limit <= k * bs, so ceil(n / bs) <= k
            vstd::arithmetic::div_mod::lemma_div_is_ordered(n + bs - 1, k * bs + bs - 1, bs);
            vstd::arithmetic::div_mod::lemma_fundamental_div_mod_converse(k * bs + bs - 1, bs, k, bs - 1);
            assert forall|j: int| 0 <= j < c implies #[trigger] self.resolve(ino, j) matches Some(Some(_)) by {
                assert(self.present(ino, k));
            }
        }
    }

    proof fn lemma_present_extend(&self, ino: RawInode, k: int)
        requires
            0 <= k,
            self.present(ino, k),
            self.resolve(ino, k) matches Some(Some(_)),
        ensures
            self.present(ino, k + 1),
    {
        assert forall|j: int| 0 <= j < k + 1 implies #[trigger] self.resolve(ino, j) matches Some(Some(_)) by {
            if j < k {
                assert(self.present(ino, k));
            }
        }
    }

    /// The resolver's regions: logical blocks `0..12` are the direct
    /// pointers; block 12 is the first slot of the singly indirect table;
    /// block `12 + n4` goes through the first slots of the doubly indirect
    /// tree, and block `12 + n4 + n4^2` through those of the triply indirect
    /// tree, where `n4` is the number of pointers in a block. A zero
    /// pointer, at any level, is a hole and not a failure.
    pub proof fn lemma_resolver_regions(&self, ino: RawInode)
        requires
            self.wf(),
        ensures
            forall|i: int| 0 <= i < 12 ==> #[trigger] self.resolve(ino, i) == Some(nonzero(ino.direct_pointer@[i])),
            self.resolve(ino, 12) == self.step(Some(nonzero(ino.indirect_pointer)), 0),
            self.resolve(ino, 12 + self.n4()) == self.step(
                self.step(Some(nonzero(ino.doubly_indirect)), 0),
                0,
            ),
            self.resolve(ino, 12 + self.n4() + self.n4() * self.n4()) == self.step(
                self.step(self.step(Some(nonzero(ino.triply_indirect)), 0), 0),
                0,
            ),
            forall|i: int| i >= self.max_blocks() ==> #[trigger] self.resolve(ino, i) == Some(None::<u32>),
            forall|idx: int| #[trigger] self.step(Some(None), idx) == Some(None::<u32>),
            forall|b: u32, idx: int|
                #[trigger] self.pointer(b, idx) == Some(0u32) ==> self.step(Some(Some(b)), idx) == Some(
                    None::<u32>,
                ),
    {
        self.lemma_block_size();
        let n4 = self.n4();
        assert(n4 * n4 >= n4) by (nonlinear_arith)
            requires n4 >= 1;
        assert(n4 * n4 * n4 >= n4 * n4) by (nonlinear_arith)
            requires n4 >= 1;
        assert(0int / n4 == 0 && 0int % n4 == 0);
        assert(0int / (n4 * n4) == 0);
        assert((0int / n4) % n4 == 0);
    }

    /// A read into a buffer that holds the whole file, of a file whose
    /// blocks are all present, copies exactly the file's size.
    pub proof fn lemma_full_read(&self, ino: RawInode, size: int, buf_len: int, n: int)
        requires
            self.wf(),
            0 <= size <= buf_len,
            self.read_outcome(ino, size, buf_len, n),
            forall|j: int|
                0 <= j && j * self.spec_block_size() < size ==> #[trigger] self.resolve(ino, j) matches Some(
                    Some(_),
                ),
        ensures
            n == size,
    {
        self.lemma_block_size();
        let bs = self.spec_block_size() as int;
        if n < size {
            let k = n / bs;
            vstd::arithmetic::div_mod::lemma_fundamental_div_mod(n, bs);
            assert(k * bs == n) by (nonlinear_arith)
                requires n == bs * k + n % bs, n % bs == 0;
            assert(self.resolve(ino, k) matches Some(Some(_)));
        }
    }

    /// A hole inside the file, before the end of the buffer, makes the
    /// read stop short of the file's size, without an error.
    pub proof fn lemma_sparse_read(&self, ino: RawInode, size: int, buf_len: int, n: int, hole: int)
        requires
            self.wf(),
            0 <= size <= buf_len,
            self.read_outcome(ino, size, buf_len, n),
            0 <= hole,
            hole * self.spec_block_size() < size,
            self.resolve(ino, hole) == Some(None::<u32>),
        ensures
            n < size,
    {
        self.lemma_block_size();
        let bs = self.spec_block_size() as int;
        if n == size {
            let c = (n + bs - 1) / bs;
            vstd::arithmetic::div_mod::lemma_fundamental_div_mod(n + bs - 1, bs);
            vstd::arithmetic::div_mod::lemma_mod_bound(n + bs - 1, bs);
            assert(hole < c) by (nonlinear_arith)
                requires hole * bs < n, n + bs - 1 == bs * c + (n + bs - 1) % bs,
                    (n + bs - 1) % bs < bs, (n + bs - 1) % bs >= 0, bs > 0;
            assert(self.resolve(ino, hole) matches Some(Some(_)));
        }
    }

    /// Reads the superblock and the group descriptor table of `volume`.
    pub fn new(volume: V) -> (r: Result<Ext2<S, V>, Error>)
        ensures
            !volume.spec_size().covers(2048) ==> r matches Err(Error::AddressOutOfBounds { .. }),
            r matches Ok(fs) ==> {
                &&& fs.wf()
                &&& fs.volume() == volume
                &&& fs.groups().len() == groups_for(fs.sb().blocks_count, fs.sb().blocks_per_group)
                &&& groups_for(fs.sb().blocks_count, fs.sb().blocks_per_group) == groups_for(
                    fs.sb().inodes_count,
                    fs.sb().inodes_per_group,
                )
                &&& forall|i: int|
                    0 <= i < fs.groups().len() ==> #[trigger] fs.groups()[i].decodes(
                        volume.contents().subrange(
                            table_index(fs.sb()) + 32 * i,
                            table_index(fs.sb()) + 32 * i + 32,
                        ),
                    )
            },
            r matches Err(Error::BadMagic { magic }) ==> {
                &&& volume.contents().len() >= 2048
                &&& magic == le_u16(volume.contents(), 1080)
                &&& magic != EXT2_MAGIC
            },
            r matches Err(Error::BadBlockSize { log_block_size }) ==> {
                &&& le_u16(volume.contents(), 1080) == EXT2_MAGIC
                &&& log_block_size == le_u32(volume.contents(), 1048)
                &&& log_block_size > MAX_LOG_BLOCK_SIZE
            },
            r matches Err(Error::BadBlockGroupCount { by_blocks, by_inodes }) ==> {
                &&& le_u16(volume.contents(), 1080) == EXT2_MAGIC
                &&& stored_group_count(volume.contents()) == Err::<u32, (u32, u32)>(
                    (by_blocks, by_inodes),
                )
            },
            volume.reliable() && readable(&volume, 2048) ==> (le_u16(volume.contents(), 1080)
                != EXT2_MAGIC <==> r matches Err(Error::BadMagic { .. })),
            volume.reliable() && readable(&volume, 2048) && le_u16(volume.contents(), 1080)
                == EXT2_MAGIC && le_u32(volume.contents(), 1048) <= MAX_LOG_BLOCK_SIZE
                && stored_group_count(volume.contents()) is Ok && addressable::<S>(
                stored_table_end(volume.contents()),
            ) && readable(&volume, stored_table_end(volume.contents())) ==> r is Ok,
            volume.reliable() && readable(&volume, 2048) && le_u16(volume.contents(), 1080)
                == EXT2_MAGIC && le_u32(volume.contents(), 1048) <= MAX_LOG_BLOCK_SIZE
                && stored_group_count(volume.contents()) is Err ==> (r matches Err(
                Error::BadBlockGroupCount { by_blocks, by_inodes },
            ) && stored_group_count(volume.contents()) == Err::<u32, (u32, u32)>(
                (by_blocks, by_inodes),
            )),
    {
        let (superblock, superblock_addr) = match Superblock::find(&volume) {
            Ok(found) => found,
            Err(e) => return Err(e),
        };
        proof {
            let c = volume.contents();
            let sub = c.subrange(1024, 2048);
            assert(sub[56] == c[1080]);
            assert(sub[57] == c[1081]);
            assert(le_u32(sub, 0) == le_u32(c, 1024));
            assert(le_u32(sub, 4) == le_u32(c, 1028));
            assert(le_u32(sub, 20) == le_u32(c, 1044));
            assert(le_u32(sub, 24) == le_u32(c, 1048));
            assert(le_u32(sub, 32) == le_u32(c, 1056));
            assert(le_u32(sub, 40) == le_u32(c, 1064));
        }
        if superblock.log_block_size > MAX_LOG_BLOCK_SIZE {
            return Err(Error::BadBlockSize { log_block_size: superblock.log_block_size });
        }
        let count = match superblock.block_group_count() {
            Ok(count) => count,
            Err((by_blocks, by_inodes)) => {
                return Err(Error::BadBlockGroupCount { by_blocks, by_inodes });
            },
        };
        let table_addr = match block_address::<S>(
            superblock.first_data_block as u64 + 1,
            0,
            superblock.log_block_size + 10,
        ) {
            Ok(a) => a,
            Err(e) => return Err(e),
        };
        let (block_groups, block_groups_addr) = match BlockGroupDescriptor::find_descriptor_table(
            &volume,
            table_addr,
            count as usize,
        ) {
            Ok(found) => found,
            Err(e) => return Err(e),
        };
        Ok(Ext2 { volume, superblock, superblock_addr, block_groups, block_groups_addr })
    }

    /// Revision of the filesystem: `(major, minor)`.
    pub fn version(&self) -> (r: (u32, u16))
        ensures
            r == (self.sb().rev_major, self.sb().rev_minor),
    {
        (self.superblock.rev_major, self.superblock.rev_minor)
    }

    /// Size of an inode record: 128 bytes in revision 0, otherwise as the
    /// superblock says (only the first 128 bytes are read).
    pub fn inode_size(&self) -> (r: usize)
        ensures
            r == self.spec_inode_size(),
    {
        if self.superblock.rev_major == 0 {
            INODE_LEN as usize
        } else {
            self.superblock.inode_size as usize
        }
    }

    /// Number of inodes in each block group.
    pub fn inodes_count(&self) -> (r: usize)
        ensures
            r == self.sb().inodes_per_group,
    {
        self.superblock.inodes_per_group as usize
    }

    /// Number of inodes in the filesystem.
    pub fn total_inodes_count(&self) -> (r: usize)
        ensures
            r == self.sb().inodes_count,
    {
        self.superblock.inodes_count as usize
    }

    /// Number of block groups, or the two conflicting counts.
    pub fn block_group_count(&self) -> (r: Result<usize, Error>)
        ensures
            r matches Ok(n) ==> n <= u32::MAX && group_count_result(
                self.sb().blocks_count,
                self.sb().blocks_per_group,
                self.sb().inodes_count,
                self.sb().inodes_per_group,
            ) == Ok::<u32, (u32, u32)>(n as u32),
            r matches Err(e) ==> (e matches Error::BadBlockGroupCount { by_blocks, by_inodes }
                && group_count_result(
                self.sb().blocks_count,
                self.sb().blocks_per_group,
                self.sb().inodes_count,
                self.sb().inodes_per_group,
            ) == Err::<u32, (u32, u32)>((by_blocks, by_inodes))),
    {
        match self.superblock.block_group_count() {
            Ok(count) => Ok(count as usize),
            Err((by_blocks, by_inodes)) => Err(Error::BadBlockGroupCount { by_blocks, by_inodes }),
        }
    }

    /// Number of blocks in the filesystem.
    pub fn total_block_count(&self) -> (r: usize)
        ensures
            r == self.sb().blocks_count,
    {
        self.superblock.blocks_count as usize
    }

    /// Number of unallocated blocks.
    pub fn free_block_count(&self) -> (r: usize)
        ensures
            r == self.sb().free_blocks_count,
    {
        self.superblock.free_blocks_count as usize
    }

    /// Block size in bytes.
    pub fn block_size(&self) -> (r: usize)
        requires
            self.wf(),
        ensures
            r == self.spec_block_size(),
    {
        self.superblock.block_size()
    }

    /// Base-2 logarithm of the block size.
    pub fn log_block_size(&self) -> (r: u32)
        requires
            self.wf(),
        ensures
            r == self.spec_log_block_size(),
    {
        self.superblock.log_block_size + 10
    }

    pub fn sector_size(&self) -> (r: usize)
        ensures
            r == spec_size::<S>(),
    {
        proof {
            lemma_sector_size::<S>();
            vstd::bits::lemma_u64_shl_is_mul(1, S::spec_log_size() as u64);
        }
        (1u64 << S::log_size()) as usize
    }

    pub fn log_sector_size(&self) -> (r: u32)
        ensures
            r == S::spec_log_size(),
    {
        S::log_size()
    }

    /// Byte index of the record of inode `n` (1-based): slot
    /// `(n - 1) % inodes_per_group` of the inode table of block group
    /// `(n - 1) / inodes_per_group`.
    pub open spec fn inode_index(&self, n: int) -> int {
        let group = (n - 1) / self.sb().inodes_per_group as int;
        let slot = (n - 1) % self.sb().inodes_per_group as int;
        self.groups()[group].inode_table_block * self.spec_block_size() + slot
            * self.spec_inode_size()
    }

    /// Whether inode `n` exists in the tables: inodes are numbered from 1.
    pub open spec fn inode_in_range(&self, n: int) -> bool {
        &&& 1 <= n <= self.sb().inodes_count
        &&& self.sb().inodes_per_group > 0
        &&& (n - 1) / (self.sb().inodes_per_group as int) < self.groups().len()
    }

    /// Inode number `index` (1-based). `None` for 0, for a number past the
    /// tables, and when its record cannot be read.
    pub fn inode_nth<'vol>(&'vol self, index: usize) -> (r: Option<Inode<'vol, S, V>>)
        requires
            self.wf(),
        ensures
            index == 0 ==> r is None,
            r matches Some(ino) ==> {
                &&& self.inode_in_range(index as int)
                &&& ino.fs() == self
                &&& ino.spec_num() == index
                &&& ino.spec_address().index() == self.inode_index(index as int)
                &&& ino.raw().decodes(
                    self.contents().subrange(
                        self.inode_index(index as int),
                        self.inode_index(index as int) + 128,
                    ),
                )
            },
            self.volume().reliable() && self.inode_in_range(index as int) && self.can_read(
                self.inode_index(index as int) + 128,
            ) ==> r is Some,
    {
        let per_group = self.superblock.inodes_per_group as usize;
        if index == 0 || index > self.superblock.inodes_count as usize || per_group == 0 {
            return None;
        }
        let group = (index - 1) / per_group;
        let slot = (index - 1) % per_group;
        if group >= self.block_groups.len() {
            return None;
        }
        let inode_size = self.inode_size();
        proof {
            vstd::arithmetic::div_mod::lemma_mod_bound((index - 1) as int, per_group as int);
            assert(slot as u64 * inode_size as u64 <= 0xffff_ffff * 0xffff) by (nonlinear_arith)
                requires slot <= 0xffff_ffff, inode_size <= 0xffff;
        }
        let table_block = self.block_groups[group].inode_table_block;
        let addr = match block_address::<S>(
            table_block as u64,
            slot as u64 * inode_size as u64,
            self.log_block_size(),
        ) {
            Ok(a) => a,
            Err(_) => return None,
        };
        match RawInode::find_inode(&self.volume, addr, inode_size) {
            Ok((inner, addr)) => Some(Inode { fs: self, inner, addr, num: index as u32 }),
            Err(_) => None,
        }
    }

    /// Inodes from number 1 on.
    pub fn inodes<'vol>(&'vol self) -> (r: Inodes<'vol, S, V>)
        ensures
            r.fs() == self,
            r.spec_index() == 1,
    {
        Inodes { fs: self, index: 1 }
    }

    /// Inodes from number `index` (1-based) on.
    pub fn inodes_nth<'vol>(&'vol self, index: usize) -> (r: Inodes<'vol, S, V>)
        requires
            index > 0,
        ensures
            r.fs() == self,
            r.spec_index() == index,
    {
        Inodes { fs: self, index: index as u64 }
    }

    /// The root directory: inode 2.
    pub fn root_inode<'vol>(&'vol self) -> (r: Option<Inode<'vol, S, V>>)
        requires
            self.wf(),
        ensures
            r matches Some(ino) ==> ino.fs() == self && ino.spec_num() == 2 && ino.raw().decodes(
                self.contents().subrange(self.inode_index(2), self.inode_index(2) + 128),
            ),
            r matches Some(ino) ==> self.inode_in_range(2) && ino.spec_address().index() == self.inode_index(2),
            self.volume().reliable() && self.inode_in_range(2) && self.can_read(
                self.inode_index(2) + 128,
            ) ==> r is Some,
    {
        self.inode_nth(2)
    }
}

/// The inodes of a filesystem in order of their numbers.
pub struct Inodes<'vol, S: SectorSize, V: Volume<S>> {
    fs: &'vol Ext2<S, V>,
    index: u64,
}

impl<'vol, S: SectorSize, V: Volume<S>> Inodes<'vol, S, V> {
    pub closed spec fn fs(&self) -> &'vol Ext2<S, V> {
        self.fs
    }

    pub closed spec fn spec_index(&self) -> u64 {
        self.index
    }

    /// The next inode; `None` past the last one, and where one cannot be read.
    pub fn next(&mut self) -> (r: Option<Inode<'vol, S, V>>)
        requires
            old(self).fs().wf(),
        ensures
            final(self).fs() == old(self).fs(),
            r matches Some(ino) ==> ino.spec_num() == old(self).spec_index() && ino.fs() == old(self).fs()
                && old(self).fs().inode_in_range(ino.spec_num() as int)
                && ino.spec_address().index() == old(self).fs().inode_index(ino.spec_num() as int)
                && ino.raw().decodes(
                old(self).fs().contents().subrange(
                    old(self).fs().inode_index(ino.spec_num() as int),
                    old(self).fs().inode_index(ino.spec_num() as int) + 128,
                ),
            ),
            old(self).spec_index() > old(self).fs().sb().inodes_count ==> r is None,
            old(self).spec_index() <= old(self).fs().sb().inodes_count ==> final(self).spec_index()
                == old(self).spec_index() + 1,
            old(self).fs().volume().reliable() && old(self).fs().inode_in_range(
                old(self).spec_index() as int,
            ) && old(self).fs().can_read(old(self).fs().inode_index(old(self).spec_index() as int) + 128)
                ==> r is Some,
    {
        if self.index > self.fs.superblock.inodes_count as u64 {
            return None;
        }
        let r = self.fs.inode_nth(self.index as usize);
        self.index = self.index + 1;
        r
    }
}

impl<'vol, S: SectorSize, V: Volume<S>> Clone for Inode<'vol, S, V> {
    fn clone(&self) -> (r: Self)
        ensures
            r == *self,
    {
        Inode { fs: self.fs, inner: self.inner, addr: self.addr, num: self.num }
    }
}

/// The data blocks of an inode in logical order, up to the first hole.
pub struct InodeBlocks<'vol, S: SectorSize, V: Volume<S>> {
    inode: Inode<'vol, S, V>,
    index: usize,
}

impl<'vol, S: SectorSize, V: Volume<S>> InodeBlocks<'vol, S, V> {
    pub closed spec fn inode(&self) -> Inode<'vol, S, V> {
        self.inode
    }

    pub closed spec fn spec_index(&self) -> usize {
        self.index
    }

    /// The next block's bytes and address; `None` at the first hole. The
    /// stream moves past a present block even when reading it fails.
    pub fn next(&mut self) -> (r: Option<Result<(VolumeSlice<S>, Address<S>), Error>>)
        requires
            old(self).inode().fs().wf(),
        ensures
            final(self).inode() == old(self).inode(),
            ({
                let fs = old(self).inode().fs();
                let i = old(self).spec_index() as int;
                let bs = fs.spec_block_size() as int;
                &&& r is None ==> fs.resolve(old(self).inode().raw(), i) == Some(None::<u32>)
                &&& fs.volume().reliable() && fs.resolve(old(self).inode().raw(), i) == Some(None::<u32>) ==> r is None
                &&& r matches Some(Ok((data, at))) ==> {
                    &&& fs.resolve(old(self).inode().raw(), i) matches Some(Some(b))
                    &&& at.index() == b * bs
                    &&& data@ == fs.contents().subrange(b * bs, b * bs + bs)
                    &&& data@.len() == bs
                    &&& final(self).spec_index() == i + 1
                }
                &&& r matches Some(Err(e)) ==> is_storage_error(e)
                &&& final(self).spec_index() == i || (final(self).spec_index() == i + 1 && fs.resolve(
                    old(self).inode().raw(),
                    i,
                ) matches Some(Some(_)))
                &&& r is None ==> final(self).spec_index() == i
                &&& fs.volume().reliable() && i < usize::MAX && (fs.resolve(old(self).inode().raw(), i) matches Some(
                    Some(_),
                )) ==> final(self).spec_index() == i + 1
                &&& fs.volume().reliable() && i < usize::MAX && fs.block_readable(old(self).inode().raw(), i)
                    && (fs.resolve(old(self).inode().raw(), i) matches Some(Some(_))) ==> (r matches Some(Ok(_)))
            }),
    {
        let fs = self.inode.fs;
        let b = match self.inode.try_block(self.index) {
            Ok(Some(b)) => b,
            Ok(None) => return None,
            Err(e) => return Some(Err(e)),
        };
        proof {
            fs.lemma_block_size();
        }
        if self.index == usize::MAX {
            return Some(Err(Error::OutOfBounds { index: self.index }));
        }
        self.index = self.index + 1;
        let addr = match block_address::<S>(b as u64, 0, fs.log_block_size()) {
            Ok(a) => a,
            Err(e) => return Some(Err(e)),
        };
        match slice_at(&fs.volume, addr, fs.block_size() as u64) {
            Ok(slice) => Some(Ok((slice, addr))),
            Err(e) => Some(Err(e)),
        }
    }
}

/// An inode of a filesystem: its record, where it was read from and its
/// number.
pub struct Inode<'vol, S: SectorSize, V: Volume<S>> {
    fs: &'vol Ext2<S, V>,
    inner: RawInode,
    addr: Address<S>,
    num: u32,
}

impl<'vol, S: SectorSize, V: Volume<S>> Inode<'vol, S, V> {
    pub closed spec fn fs(&self) -> &'vol Ext2<S, V> {
        self.fs
    }

    /// The inode's on-disk record.
    pub closed spec fn raw(&self) -> RawInode {
        self.inner
    }

    pub closed spec fn spec_address(&self) -> Address<S> {
        self.addr
    }

    /// The inode's number (1-based).
    pub closed spec fn spec_num(&self) -> u32 {
        self.num
    }

    /// A handle on inode `num` of `fs`, whose record `inner` was read at
    /// `addr`.
    pub fn new(fs: &'vol Ext2<S, V>, inner: RawInode, addr: Address<S>, num: u32) -> (r: Inode<'vol, S, V>)
        ensures
            r.fs() == fs,
            r.raw() == inner,
            r.spec_address() == addr,
            r.spec_num() == num,
    {
        Inode { fs, inner, addr, num }
    }

    /// The physical block holding logical block `index` of the inode:
    /// `None` for a hole, or past the triply indirect tree; errors of the
    /// volume are passed on.
    #[verifier::rlimit(40)]
    pub fn try_block(&self, index: usize) -> (r: Result<Option<u32>, Error>)
        requires
            self.fs().wf(),
        ensures
            r matches Ok(x) ==> self.fs().resolve(self.raw(), index as int) == Some(x),
            r matches Ok(Some(b)) ==> b != 0,
            r matches Err(e) ==> is_storage_error(e),
            self.fs().volume().reliable() && self.fs().resolve(self.raw(), index as int) is Some
                ==> r is Ok,
            index < 12 ==> r == Ok::<Option<u32>, Error>(nonzero(self.raw().direct_pointer@[index as int])),
            12 <= index < 12 + self.fs().n4() && self.raw().indirect_pointer == 0 ==> r == Ok::<
                Option<u32>,
                Error,
            >(None),
            12 + self.fs().n4() <= index < 12 + self.fs().n4() + self.fs().n4() * self.fs().n4()
                && self.raw().doubly_indirect == 0 ==> r == Ok::<Option<u32>, Error>(None),
            12 + self.fs().n4() + self.fs().n4() * self.fs().n4() <= index < self.fs().max_blocks()
                && self.raw().triply_indirect == 0 ==> r == Ok::<Option<u32>, Error>(None),
            index >= self.fs().max_blocks() ==> r == Ok::<Option<u32>, Error>(None),
    {
        let fs = self.fs;
        proof {
            fs.lemma_block_size();
        }
        let n4: u64 = (fs.block_size() / 4) as u64;
        let i: u64 = index as u64;
        if i < 12 {
            let p = self.inner.direct_pointer[i as usize];
            return if p == 0 { Ok(None) } else { Ok(Some(p)) };
        }
        let i = i - 12;
        if i < n4 {
            return fs.follow(nz(self.inner.indirect_pointer), i);
        }
        let i = i - n4;
        proof {
            assert(n4 * n4 <= 0x2000_0000 * 0x2000_0000) by (nonlinear_arith)
                requires n4 <= 0x2000_0000;
            assert(n4 * n4 >= 1) by (nonlinear_arith)
                requires n4 >= 1;
        }
        let n4n4: u64 = n4 * n4;
        if i < n4n4 {
            return self.resolve_doubly(i, n4);
        }
        let i = i - n4n4;
        proof {
            vstd::arithmetic::div_mod::lemma_fundamental_div_mod(i as int, n4n4 as int);
            vstd::arithmetic::div_mod::lemma_mod_bound(i as int, n4n4 as int);
        }
        if i / n4n4 < n4 {
            proof {
                assert(i < n4 * n4 * n4) by (nonlinear_arith)
                    requires i == n4n4 * (i / n4n4) + i % n4n4, i % n4n4 < n4n4, i / n4n4 < n4, n4n4 == n4 * n4, i / n4n4 >= 0;
            }
            return self.resolve_triply(i, n4);
        }
        proof {
            assert(i >= n4 * n4 * n4) by (nonlinear_arith)
                requires i == n4n4 * (i / n4n4) + i % n4n4, i % n4n4 >= 0, i / n4n4 >= n4, n4n4 == n4 * n4, n4 > 0;
        }
        Ok(None)
    }

    /// Slot `i` of the doubly indirect tree.
    fn resolve_doubly(&self, i: u64, n4: u64) -> (r: Result<Option<u32>, Error>)
        requires
            self.fs().wf(),
            n4 == self.fs().n4(),
            i < n4 * n4,
        ensures
            r matches Ok(x) ==> self.fs().step(
                self.fs().step(Some(nonzero(self.raw().doubly_indirect)), i as int / n4 as int),
                i as int % n4 as int,
            ) == Some(x),
            r matches Ok(Some(b)) ==> b != 0,
            r matches Err(e) ==> is_storage_error(e),
            self.raw().doubly_indirect == 0 ==> r == Ok::<Option<u32>, Error>(None),
            self.fs().volume().reliable() && self.fs().step(
                self.fs().step(Some(nonzero(self.raw().doubly_indirect)), i as int / n4 as int),
                i as int % n4 as int,
            ) is Some ==> r is Ok,
    {
        let fs = self.fs;
        proof {
            fs.lemma_block_size();
            vstd::arithmetic::div_mod::lemma_multiply_divide_lt(i as int, n4 as int, n4 as int);
            vstd::arithmetic::div_mod::lemma_mod_bound(i as int, n4 as int);
        }
        let a = match fs.follow(nz(self.inner.doubly_indirect), i / n4) {
            Ok(a) => a,
            Err(e) => return Err(e),
        };
        fs.follow(a, i % n4)
    }

    /// Slot `i` of the triply indirect tree.
    fn resolve_triply(&self, i: u64, n4: u64) -> (r: Result<Option<u32>, Error>)
        requires
            self.fs().wf(),
            n4 == self.fs().n4(),
            i < n4 * n4 * n4,
        ensures
            r matches Ok(x) ==> self.fs().step(
                self.fs().step(
                    self.fs().step(Some(nonzero(self.raw().triply_indirect)), i as int / (n4 * n4)),
                    (i as int / n4 as int) % (n4 as int),
                ),
                i as int % n4 as int,
            ) == Some(x),
            r matches Ok(Some(b)) ==> b != 0,
            r matches Err(e) ==> is_storage_error(e),
            self.raw().triply_indirect == 0 ==> r == Ok::<Option<u32>, Error>(None),
            self.fs().volume().reliable() && self.fs().step(
                self.fs().step(
                    self.fs().step(Some(nonzero(self.raw().triply_indirect)), i as int / (n4 * n4)),
                    (i as int / n4 as int) % (n4 as int),
                ),
                i as int % n4 as int,
            ) is Some ==> r is Ok,
    {
        let fs = self.fs;
        proof {
            fs.lemma_block_size();
            assert(n4 * n4 <= 0x2000_0000 * 0x2000_0000) by (nonlinear_arith)
                requires n4 <= 0x2000_0000;
            vstd::arithmetic::div_mod::lemma_multiply_divide_lt(i as int, (n4 * n4) as int, n4 as int);
            vstd::arithmetic::div_mod::lemma_mod_bound((i / n4) as int, n4 as int);
            vstd::arithmetic::div_mod::lemma_mod_bound(i as int, n4 as int);
        }
        let n4n4: u64 = n4 * n4;
        let a = match fs.follow(nz(self.inner.triply_indirect), i / n4n4) {
            Ok(a) => a,
            Err(e) => return Err(e),
        };
        let b = match fs.follow(a, (i / n4) % n4) {
            Ok(b) => b,
            Err(e) => return Err(e),
        };
        fs.follow(b, i % n4)
    }

    /// The block behind logical block `index`; `None` for a hole or an
    /// error.
    pub fn block(&self, index: usize) -> (r: Option<u32>)
        requires
            self.fs().wf(),
        ensures
            r matches Some(b) ==> self.fs().resolve(self.raw(), index as int) == Some(Some(b)),
            self.fs().volume().reliable() && self.fs().resolve(self.raw(), index as int) is Some ==> r
                == self.fs().resolve(self.raw(), index as int)->Some_0,
    {
        match self.try_block(index) {
            Ok(x) => x,
            Err(_) => None,
        }
    }

    /// Copies the first `n` bytes of block `b`, which holds logical block
    /// `k`, to `buf[offset..offset + n]`.
    fn copy_block(&self, buf: &mut [u8], b: u32, k: usize, offset: usize, n: usize) -> (r: Result<(), Error>)
        requires
            self.fs().wf(),
            self.fs().resolve(self.raw(), k as int) == Some(Some(b)),
            offset == k * self.fs().spec_block_size(),
            n <= self.fs().spec_block_size(),
            offset + n <= old(buf)@.len(),
        ensures
            final(buf)@.len() == old(buf)@.len(),
            forall|p: int| 0 <= p < offset ==> final(buf)@[p] == old(buf)@[p],
            forall|p: int| offset + n <= p < old(buf)@.len() ==> final(buf)@[p] == old(buf)@[p],
            r is Ok ==> forall|p: int| offset <= p < offset + n ==> #[trigger] final(buf)@[p] == self.fs().file_byte(self.raw(), p),
            r matches Err(e) ==> is_storage_error(e),
            self.fs().volume().reliable() && self.fs().block_readable(self.raw(), k as int) ==> r is Ok,
    {
        let fs = self.fs;
        proof {
            fs.lemma_block_size();
        }
        let bs: usize = fs.block_size();
        let addr = match block_address::<S>(b as u64, 0, fs.log_block_size()) {
            Ok(a) => a,
            Err(e) => return Err(e),
        };
        let slice = match slice_at(&fs.volume, addr, bs as u64) {
            Ok(slice) => slice,
            Err(e) => return Err(e),
        };
        let data = slice.as_slice();
        let len: usize = buf.len();
        let mut t: usize = 0;
        while t < n
            invariant
                len == buf@.len(),
                n <= bs,
                offset + n <= buf@.len(),
                buf@.len() == old(buf)@.len(),
                data@.len() == bs,
                t <= n,
                forall|p: int| 0 <= p < offset ==> buf@[p] == old(buf)@[p],
                forall|p: int| offset + n <= p < buf@.len() ==> buf@[p] == old(buf)@[p],
                forall|p: int| 0 <= p < t ==> buf@[offset + p] == data@[p],
            decreases n - t,
        {
            buf[offset + t] = data[t];
            t = t + 1;
        }
        proof {
            assert forall|p: int| offset <= p < offset + n implies #[trigger] buf@[p] == fs.file_byte(self.raw(), p) by {
                let q = p - offset;
                vstd::arithmetic::div_mod::lemma_fundamental_div_mod_converse(p, bs as int, k as int, q);
                assert(buf@[offset + q] == data@[q]);
            }
        }
        Ok(())
    }

    /// Reads the whole data of the inode into `buf`, replacing what it
    /// held: as much as `read` copies into a buffer of the inode's size.
    /// On an error `buf` is left empty.
    pub fn read_to_end(&self, buf: &mut Vec<u8>) -> (r: Result<usize, Error>)
        requires
            self.fs().wf(),
        ensures
            r matches Ok(n) ==> final(buf)@.len() == n && self.fs().read_outcome(
                self.raw(),
                self.spec_size64(),
                self.spec_size64(),
                n as int,
            ),
            r matches Ok(n) ==> forall|p: int|
                0 <= p < n ==> #[trigger] final(buf)@[p] == self.fs().file_byte(self.raw(), p),
            r is Err ==> final(buf)@.len() == 0,
            r matches Err(e) ==> is_storage_error(e),
            self.fs().volume().reliable() && self.spec_size64() <= usize::MAX && self.fs().data_readable(
                self.raw(),
                self.spec_size64(),
            ) ==> r is Ok,
    {
        let total: u64 = self.size64();
        buf.clear();
        if total > usize::MAX as u64 {
            return Err(Error::OutOfBounds { index: usize::MAX });
        }
        let size = total as usize;
        let mut i: usize = 0;
        while i < size
            invariant
                i <= size,
                buf@.len() == i,
            decreases size - i,
        {
            buf.push(0);
            i = i + 1;
        }
        match self.read(buf.as_mut_slice()) {
            Ok(n) => {
                buf.truncate(n);
                Ok(n)
            },
            Err(e) => {
                buf.clear();
                Err(e)
            },
        }
    }

    /// The blocks of the inode in logical order, up to the first hole.
    pub fn blocks(&self) -> (r: InodeBlocks<'vol, S, V>)
        ensures
            r.inode() == *self,
            r.spec_index() == 0,
    {
        InodeBlocks { inode: self.clone(), index: 0 }
    }

    /// Copies the inode's data into `buf`, block after block, until the
    /// size of the inode or of `buf` is reached or a hole ends the data.
    /// Returns the number of bytes copied.
    pub fn read(&self, buf: &mut [u8]) -> (r: Result<usize, Error>)
        requires
            self.fs().wf(),
        ensures
            final(buf)@.len() == old(buf)@.len(),
            r matches Ok(n) ==> self.fs().read_outcome(self.raw(), self.spec_size64(), old(buf)@.len() as int, n as int),
            r matches Ok(n) ==> forall|p: int| n <= p < old(buf)@.len() ==> #[trigger] final(buf)@[p] == old(buf)@[p],
            self.fs().volume().reliable() && self.fs().data_readable(
                self.raw(),
                if self.spec_size64() < old(buf)@.len() { self.spec_size64() } else { old(buf)@.len() as int },
            ) ==> r is Ok,
            r matches Ok(n) ==> forall|p: int|
                0 <= p < n ==> #[trigger] final(buf)@[p] == self.fs().file_byte(self.raw(), p),
            r matches Err(e) ==> is_storage_error(e),
    {
        let fs = self.fs;
        proof {
            fs.lemma_block_size();
        }
        let bs: usize = fs.block_size();
        let total: u64 = self.size64();
        let limit: usize = if total < buf.len() as u64 { total as usize } else { buf.len() };
        let ghost size = self.spec_size64();
        let ghost buf_len = buf@.len() as int;
        let ghost owed = fs.volume().reliable() && fs.data_readable(self.raw(), limit as int);
        let mut offset: usize = 0;
        let mut k: usize = 0;
        while offset < limit
            invariant
                fs == self.fs(),
                fs.wf(),
                bs == fs.spec_block_size(),
                1024 <= bs <= 0x8000_0000,
                buf_len == old(buf)@.len(),
                size == self.spec_size64(),
                owed == (fs.volume().reliable() && fs.data_readable(self.raw(), limit as int)),
                limit == (if size < buf_len { size } else { buf_len }),
                buf@.len() == buf_len,
                offset <= limit,
                k <= offset + 1,
                offset == (if k * bs < limit { k * bs } else { limit as int }),
                fs.present(self.raw(), k as int),
                forall|p: int| 0 <= p < offset ==> #[trigger] buf@[p] == fs.file_byte(self.raw(), p),
                forall|p: int| offset <= p < buf_len ==> buf@[p] == old(buf)@[p],
            decreases limit - offset,
        {
            proof {
                assert(k <= offset) by (nonlinear_arith)
                    requires offset == k * bs, bs >= 1, k >= 0;
                if owed {
                    assert(fs.block_readable(self.raw(), k as int));
                }
            }
            let b = match self.try_block(k) {
                Ok(Some(b)) => b,
                Ok(None) => {
                    proof {
                        fs.lemma_read_outcome(self.raw(), size, buf_len, k as int, offset as int);
                    }
                    return Ok(offset);
                },
                Err(e) => return Err(e),
            };
            let n: usize = if bs < limit - offset { bs } else { limit - offset };
            match self.copy_block(buf, b, k, offset, n) {
                Ok(()) => {},
                Err(e) => return Err(e),
            }
            proof {
                fs.lemma_present_extend(self.raw(), k as int);
                vstd::arithmetic::mul::lemma_mul_is_distributive_add_other_way(bs as int, k as int, 1);
            }
            offset = offset + n;
            k = k + 1;
        }
        proof {
            fs.lemma_read_outcome(self.raw(), size, buf_len, k as int, offset as int);
        }
        Ok(offset)
    }

    /// The entries of the inode, when it is a directory.
    pub fn directory(&self) -> (r: Option<Directory<'vol, S, V>>)
        requires
            self.fs().wf(),
        ensures
            r is Some <==> self.spec_is_dir(),
            r matches Some(d) ==> d.wf() && d.inode() == *self && d.cursor() is None && d.next_block() == 0
                && d.count() == 0 && d.intact(),
    {
        if self.is_dir() {
            proof {
                self.fs().lemma_block_size();
                assert(0 <= self.fs().n4() * self.fs().n4()) by (nonlinear_arith);
                assert(0 <= self.fs().n4() * self.fs().n4() * self.fs().n4()) by (nonlinear_arith)
                    requires self.fs().n4() >= 0;
            }
            Some(Directory {
                blocks: self.blocks(),
                offset: 0,
                buffer: None,
                block_size: self.fs.block_size(),
                last: Ghost(0),
                count: Ghost(0),
                intact: Ghost(true),
            })
        } else {
            None
        }
    }

    pub fn num(&self) -> (r: u32)
        ensures
            r == self.spec_num(),
    {
        self.num
    }

    pub fn address(&self) -> (r: Address<S>)
        ensures
            r == self.spec_address(),
    {
        self.addr
    }

    /// The record's type and permissions hold the directory bit.
    pub open spec fn spec_is_dir(&self) -> bool {
        self.raw().type_perm & DIRECTORY == DIRECTORY
    }

    pub fn is_dir(&self) -> (r: bool)
        ensures
            r == self.spec_is_dir(),
    {
        self.inner.type_perm & DIRECTORY == DIRECTORY
    }

    /// The inode is in use: it has at least one hard link.
    pub fn in_use(&self) -> (r: bool)
        ensures
            r == (self.raw().hard_links > 0),
    {
        self.inner.hard_links > 0
    }

    pub fn uid(&self) -> (r: u16)
        ensures
            r == self.raw().uid,
    {
        self.inner.uid
    }

    /// Count of disk sectors in use.
    pub fn sectors(&self) -> (r: usize)
        ensures
            r == self.raw().sectors_count,
    {
        self.inner.sectors_count as usize
    }

    pub fn size32(&self) -> (r: u32)
        ensures
            r == self.raw().size_low,
    {
        self.inner.size_low
    }

    /// The 64-bit size: `size_high` above `size_low`.
    pub open spec fn spec_size64(&self) -> int {
        self.raw().size_low + self.raw().size_high * 0x1_0000_0000
    }

    /// The 64-bit size: `size_high` above `size_low`.
    pub fn size64(&self) -> (r: u64)
        ensures
            r == self.spec_size64(),
    {
        self.inner.size_low as u64 + self.inner.size_high as u64 * 0x1_0000_0000
    }

    /// The size in bytes.
    pub fn size(&self) -> (r: u64)
        ensures
            r == self.spec_size64(),
    {
        self.size64()
    }
}

/// The text of a byte path as it appears in errors: the bytes read as UTF-8,
/// with each invalid sequence replaced by U+FFFD.
pub uninterp spec fn lossy_utf8(b: Seq<u8>) -> Seq<char>;

/// Relies on `String::from_utf8_lossy`, whose result depends on the bytes
/// alone, and which returns valid UTF-8 (so ASCII, and the empty string)
/// unchanged.
#[verifier::external_body]
fn lossy_name(b: &[u8]) -> (r: String)
    ensures
        r@ == lossy_utf8(b@),
        (forall|i: int| 0 <= i < b@.len() ==> b@[i] < 0x80) ==> r@.len() == b@.len() && forall|i: int|
            0 <= i < b@.len() ==> r@[i] == b@[i] as char,
{
    String::from_utf8_lossy(b).into_owned()
}

/// Whether two byte strings are equal.
fn bytes_eq(a: &[u8], b: &[u8]) -> (r: bool)
    ensures
        r == (a@ == b@),
{
    if a.len() != b.len() {
        return false;
    }
    let mut i: usize = 0;
    while i < a.len()
        invariant
            a@.len() == b@.len(),
            i <= a@.len(),
            a@.subrange(0, i as int) == b@.subrange(0, i as int),
        decreases a@.len() - i,
    {
        if a[i] != b[i] {
            assert(a@[i as int] != b@[i as int]);
            return false;
        }
        assert(a@.subrange(0, i + 1) =~= a@.subrange(0, i as int).push(a@[i as int]));
        assert(b@.subrange(0, i + 1) =~= b@.subrange(0, i as int).push(b@[i as int]));
        i = i + 1;
    }
    assert(a@ =~= a@.subrange(0, i as int));
    assert(b@ =~= b@.subrange(0, i as int));
    true
}

/// Start of the path component that ends at byte `i`: the byte after the
/// last `/` before `i`.
pub open spec fn component_start(path: Seq<u8>, i: int) -> int
    decreases i,
{
    if i <= 0 || path[i - 1] == 0x2f {
        i
    } else {
        component_start(path, i - 1)
    }
}

/// With a `/` at byte `start - 1` and none in `start..end`, the component
/// ending at `end` starts at `start`.
pub proof fn lemma_component_start(path: Seq<u8>, start: int, end: int)
    requires
        1 <= start <= end <= path.len(),
        path[start - 1] == 0x2f,
        forall|k: int| start <= k < end ==> path[k] != 0x2f,
    ensures
        component_start(path, end) == start,
    decreases end - start,
{
    if end > start {
        lemma_component_start(path, start, end - 1);
    }
}

/// The component ending at byte `end` starts after a `/` and holds none.
pub proof fn lemma_component_start_facts(path: Seq<u8>, end: int)
    requires
        end <= path.len(),
        1 <= component_start(path, end),
    ensures
        component_start(path, end) <= end,
        path[component_start(path, end) - 1] == 0x2f,
        forall|k: int| component_start(path, end) <= k < end ==> path[k] != 0x2f,
    decreases end,
{
    if end > 0 && path[end - 1] != 0x2f {
        lemma_component_start_facts(path, end - 1);
    }
}

impl<S: SectorSize, V: Volume<S>> Ext2<S, V> {
    /// Resolving the components of `path` up to byte `end` (a `/` or the
    /// end of the path) from the root reaches inode `target`: each
    /// component is found, by its first record, in the directory reached
    /// before it.
    pub open spec fn reaches(&self, path: Seq<u8>, end: int, target: int) -> bool
        decreases end,
    {
        if end <= 0 {
            target == 2
        } else {
            let start = component_start(path, end);
            if start < 1 || start > end {
                false
            } else {
                exists|cur: int, dir: RawInode|
                    #[trigger] self.lookup_step(path, start, end, cur, dir, target) && self.reaches(
                        path,
                        start - 1,
                        cur,
                    )
            }
        }
    }

    /// Inode `cur`, whose record is `dir`, is a directory in which the
    /// component `path[start..end]` is found as inode `target`, which lies
    /// in the inode tables.
    pub open spec fn lookup_step(&self, path: Seq<u8>, start: int, end: int, cur: int, dir: RawInode, target: int) -> bool {
        &&& self.inode_in_range(cur)
        &&& dir.decodes(self.contents().subrange(self.inode_index(cur), self.inode_index(cur) + 128))
        &&& dir.type_perm & DIRECTORY == DIRECTORY
        &&& self.finds(dir, path.subrange(start, end), target)
        &&& self.inode_in_range(target)
    }

    /// Resolving `path` from the root reaches inode `cur`, whose record is
    /// `dir`, just before the component `path[start..end]`.
    pub open spec fn reaches_before(&self, path: Seq<u8>, start: int, end: int, cur: int, dir: RawInode) -> bool {
        &&& 1 <= start <= end <= path.len()
        &&& path[start - 1] == 0x2f
        &&& forall|k: int| start <= k < end ==> path[k] != 0x2f
        &&& (end == path.len() || path[end] == 0x2f)
        &&& self.reaches(path, start - 1, cur)
        &&& self.inode_in_range(cur)
        &&& dir.decodes(self.contents().subrange(self.inode_index(cur), self.inode_index(cur) + 128))
    }

    /// Resolving `path` reaches a directory whose walk ends without the
    /// next component.
    pub open spec fn missing_component(&self, path: Seq<u8>) -> bool {
        exists|start: int, end: int, cur: int, dir: RawInode|
            #[trigger] self.reaches_before(path, start, end, cur, dir) && dir.type_perm & DIRECTORY
                == DIRECTORY && self.lacks(dir, path.subrange(start, end))
    }

    /// Resolving `path` reaches inode `inode`, which is not a directory,
    /// before a component.
    pub open spec fn file_in_path(&self, path: Seq<u8>, inode: int) -> bool {
        exists|start: int, end: int, dir: RawInode|
            #[trigger] self.reaches_before(path, start, end, inode, dir) && dir.type_perm & DIRECTORY
                != DIRECTORY
    }

    /// Resolving `path` reaches directory inode `inode`, whose first record
    /// for the next component names an inode outside the inode tables.
    pub open spec fn dangling_in_path(&self, path: Seq<u8>, inode: int) -> bool {
        exists|start: int, end: int, dir: RawInode|
            #[trigger] self.reaches_before(path, start, end, inode, dir) && dir.type_perm & DIRECTORY
                == DIRECTORY && self.finds_out_of_range(dir, path.subrange(start, end))
    }

    /// Resolving `path` reaches a directory whose walk meets a malformed
    /// record before the next component.
    pub open spec fn malformed_in_path(&self, path: Seq<u8>) -> bool {
        exists|start: int, end: int, cur: int, dir: RawInode|
            #[trigger] self.reaches_before(path, start, end, cur, dir) && dir.type_perm & DIRECTORY
                == DIRECTORY && self.lookup(dir, path.subrange(start, end)) == Lookup::Malformed
    }

    /// A resolution that reaches an inode at byte `end` (past the root)
    /// reaches one in the inode tables.
    pub proof fn lemma_reaches_in_range(&self, path: Seq<u8>, end: int, t: int)
        requires
            self.reaches(path, end, t),
            end > 0,
        ensures
            self.inode_in_range(t),
    {
    }

    /// One more component resolved: from the inode reached before byte
    /// `start - 1` to `target` at `end`.
    proof fn lemma_reaches_step(&self, path: Seq<u8>, start: int, end: int, cur: int, dir: RawInode, target: int)
        requires
            1 <= start <= end <= path.len(),
            path[start - 1] == 0x2f,
            forall|k: int| start <= k < end ==> path[k] != 0x2f,
            self.reaches(path, start - 1, cur),
            self.inode_in_range(cur),
            dir.decodes(self.contents().subrange(self.inode_index(cur), self.inode_index(cur) + 128)),
            dir.type_perm & DIRECTORY == DIRECTORY,
            self.finds(dir, path.subrange(start, end), target),
            self.inode_in_range(target),
        ensures
            self.reaches(path, end, target),
    {
        lemma_component_start(path, start, end);
        assert(self.lookup_step(path, start, end, cur, dir, target));
    }

    /// A name found in a directory is what looking it up gives.
    pub proof fn lemma_finds_lookup(&self, dir: RawInode, name: Seq<u8>, t: int)
        requires
            self.finds(dir, name, t),
        ensures
            self.lookup(dir, name) == Lookup::Found(t as u32),
            0 < t <= u32::MAX,
    {
        reveal(Ext2::finds);
        let n = choose|n: nat| #[trigger] self.walk_finds(dir, name, t, n);
        assert(self.walk_target(dir, n) == t);
        self.lemma_lookup_found(dir, name, n);
    }

    /// A name a directory lacks looks up as missing.
    pub proof fn lemma_lacks_lookup(&self, dir: RawInode, name: Seq<u8>)
        requires
            self.lacks(dir, name),
        ensures
            self.lookup(dir, name) == Lookup::Missing,
    {
        let n = choose|n: nat| #[trigger] self.walk_lacks(dir, name, n);
        self.lemma_lookup_missing(dir, name, n);
    }

    /// Resolving a path prefix reaches one inode only.
    pub proof fn lemma_reaches_unique(&self, path: Seq<u8>, end: int, c1: int, c2: int)
        requires
            self.reaches(path, end, c1),
            self.reaches(path, end, c2),
        ensures
            c1 == c2,
        decreases end,
    {
        if end > 0 {
            let start = component_start(path, end);
            let (p1, d1) = choose|cur: int, dir: RawInode|
                #[trigger] self.lookup_step(path, start, end, cur, dir, c1) && self.reaches(path, start - 1, cur);
            let (p2, d2) = choose|cur: int, dir: RawInode|
                #[trigger] self.lookup_step(path, start, end, cur, dir, c2) && self.reaches(path, start - 1, cur);
            self.lemma_reaches_unique(path, start - 1, p1, p2);
            RawInode::lemma_decodes_unique(
                d1,
                d2,
                self.contents().subrange(self.inode_index(p1), self.inode_index(p1) + 128),
            );
            self.lemma_finds_lookup(d1, path.subrange(start, end), c1);
            self.lemma_finds_lookup(d1, path.subrange(start, end), c2);
        }
    }

    /// Resolving a path prefix that reaches any inode starts at the root,
    /// which is then in the inode tables.
    pub proof fn lemma_reaches_root(&self, path: Seq<u8>, end: int, c: int)
        requires
            self.reaches(path, end, c),
            self.inode_in_range(c),
        ensures
            self.inode_in_range(2),
        decreases end,
    {
        if end > 0 {
            let start = component_start(path, end);
            let (p, d) = choose|cur: int, dir: RawInode|
                #[trigger] self.lookup_step(path, start, end, cur, dir, c) && self.reaches(path, start - 1, cur);
            self.lemma_reaches_root(path, start - 1, p);
        }
    }

    /// The resolution goes on past `dir`: it is a directory where the next
    /// component is found as an inode in the tables.
    pub open spec fn continues(&self, path: Seq<u8>, start: int, end: int, dir: RawInode) -> bool {
        &&& dir.type_perm & DIRECTORY == DIRECTORY
        &&& self.lookup(dir, path.subrange(start, end)) matches Lookup::Found(x)
        &&& self.inode_in_range(x as int)
    }

    /// A resolution that reaches byte `e` (the end of the path or a `/`)
    /// goes on past every directory it met before.
    pub proof fn lemma_reaches_through(&self, path: Seq<u8>, s1: int, e1: int, c1: int, d1: RawInode, e: int, t: int)
        requires
            self.reaches_before(path, s1, e1, c1, d1),
            self.reaches(path, e, t),
            e1 <= e <= path.len(),
            e == path.len() || path[e] == 0x2f,
        ensures
            self.continues(path, s1, e1, d1),
        decreases e,
    {
        let start = component_start(path, e);
        let (cur, dir) = choose|cur: int, dir: RawInode|
            #[trigger] self.lookup_step(path, start, e, cur, dir, t) && self.reaches(path, start - 1, cur);
        lemma_component_start_facts(path, e);
        if start == s1 {
            if e1 < e {
                assert(path[e1] == 0x2f);
            }
            self.lemma_reaches_unique(path, start - 1, cur, c1);
            RawInode::lemma_decodes_unique(
                dir,
                d1,
                self.contents().subrange(self.inode_index(cur), self.inode_index(cur) + 128),
            );
            self.lemma_finds_lookup(dir, path.subrange(start, e), t);
        } else {
            if s1 > start {
                assert(path[s1 - 1] == 0x2f);
            }
            if e1 > start - 1 {
                assert(path[start - 1] == 0x2f);
            }
            self.lemma_reaches_through(path, s1, e1, c1, d1, start - 1, cur);
        }
    }

    /// A resolution stops at one place only.
    pub proof fn lemma_stops_unique(
        &self,
        path: Seq<u8>,
        s1: int,
        e1: int,
        c1: int,
        d1: RawInode,
        s2: int,
        e2: int,
        c2: int,
        d2: RawInode,
    )
        requires
            self.reaches_before(path, s1, e1, c1, d1),
            self.reaches_before(path, s2, e2, c2, d2),
            !self.continues(path, s1, e1, d1),
            !self.continues(path, s2, e2, d2),
        ensures
            s1 == s2 && e1 == e2 && c1 == c2 && d1 == d2,
    {
        if s1 < s2 {
            if e1 > s2 - 1 {
                assert(path[s2 - 1] == 0x2f);
            }
            self.lemma_reaches_through(path, s1, e1, c1, d1, s2 - 1, c2);
        } else if s2 < s1 {
            if e2 > s1 - 1 {
                assert(path[s1 - 1] == 0x2f);
            }
            self.lemma_reaches_through(path, s2, e2, c2, d2, s1 - 1, c1);
        } else {
            self.lemma_reaches_unique(path, s1 - 1, c1, c2);
            RawInode::lemma_decodes_unique(
                d1,
                d2,
                self.contents().subrange(self.inode_index(c1), self.inode_index(c1) + 128),
            );
            if e1 < e2 {
                assert(path[e1] == 0x2f);
            }
            if e2 < e1 {
                assert(path[e2] == 0x2f);
            }
        }
    }

    /// The stop of a resolution whose walk met a record naming an inode
    /// outside the tables.
    proof fn lemma_dangling_stop(&self, path: Seq<u8>, i: int) -> (w: (int, int, RawInode))
        requires
            self.dangling_in_path(path, i),
        ensures
            self.reaches_before(path, w.0, w.1, i, w.2),
            w.2.type_perm & DIRECTORY == DIRECTORY,
            !self.continues(path, w.0, w.1, w.2),
            self.lookup(w.2, path.subrange(w.0, w.1)) is Found,
    {
        let (s, e, d) = choose|start: int, end: int, dir: RawInode|
            #[trigger] self.reaches_before(path, start, end, i, dir) && dir.type_perm & DIRECTORY
                == DIRECTORY && self.finds_out_of_range(dir, path.subrange(start, end));
        let y = choose|target: int| #[trigger] self.finds(d, path.subrange(s, e), target) && !self.inode_in_range(target);
        self.lemma_finds_lookup(d, path.subrange(s, e), y);
        (s, e, d)
    }

    /// The stop of a resolution that met a malformed record.
    proof fn lemma_malformed_stop(&self, path: Seq<u8>) -> (w: (int, int, int, RawInode))
        requires
            self.malformed_in_path(path),
        ensures
            self.reaches_before(path, w.0, w.1, w.2, w.3),
            w.3.type_perm & DIRECTORY == DIRECTORY,
            !self.continues(path, w.0, w.1, w.3),
            self.lookup(w.3, path.subrange(w.0, w.1)) == Lookup::Malformed,
    {
        choose|start: int, end: int, cur: int, dir: RawInode|
            #[trigger] self.reaches_before(path, start, end, cur, dir) && dir.type_perm & DIRECTORY
                == DIRECTORY && self.lookup(dir, path.subrange(start, end)) == Lookup::Malformed
    }

    /// The stop of a resolution that missed a component.
    proof fn lemma_missing_stop(&self, path: Seq<u8>) -> (w: (int, int, int, RawInode))
        requires
            self.missing_component(path),
        ensures
            self.reaches_before(path, w.0, w.1, w.2, w.3),
            w.3.type_perm & DIRECTORY == DIRECTORY,
            !self.continues(path, w.0, w.1, w.3),
            self.lookup(w.3, path.subrange(w.0, w.1)) == Lookup::Missing,
    {
        let (s, e, c, d) = choose|start: int, end: int, cur: int, dir: RawInode|
            #[trigger] self.reaches_before(path, start, end, cur, dir) && dir.type_perm & DIRECTORY
                == DIRECTORY && self.lacks(dir, path.subrange(start, end));
        self.lemma_lacks_lookup(d, path.subrange(s, e));
        (s, e, c, d)
    }

    /// The stop of a resolution that met a file.
    proof fn lemma_file_stop(&self, path: Seq<u8>, i: int) -> (w: (int, int, RawInode))
        requires
            self.file_in_path(path, i),
        ensures
            self.reaches_before(path, w.0, w.1, i, w.2),
            w.2.type_perm & DIRECTORY != DIRECTORY,
            !self.continues(path, w.0, w.1, w.2),
    {
        choose|start: int, end: int, dir: RawInode|
            #[trigger] self.reaches_before(path, start, end, i, dir) && dir.type_perm & DIRECTORY
                != DIRECTORY
    }

    /// A stop lies past the root, which is then in the inode tables.
    proof fn lemma_stop_root(&self, path: Seq<u8>, s: int, e: int, c: int, d: RawInode)
        requires
            self.reaches_before(path, s, e, c, d),
        ensures
            self.inode_in_range(2),
    {
        self.lemma_reaches_root(path, s - 1, c);
    }

    /// On a sound volume, what `open` returns is owed: the outcomes of a
    /// resolution exclude one another.
    proof fn lemma_open_outcomes<'vol>(&self, path: Seq<u8>, r: Result<Inode<'vol, S, V>, Error>)
        requires
            self.sound(),
            path.len() > 1,
            path[0] == 0x2f,
            r matches Ok(ino) ==> self.reaches(path, path.len() as int, ino.spec_num() as int),
            r matches Err(Error::NotFound { .. }) ==> self.missing_component(path),
            r matches Err(Error::NotADirectory { inode, .. }) ==> self.file_in_path(path, inode as int),
            r matches Err(Error::InodeNotFound { inode }) ==> self.dangling_in_path(path, inode as int)
                || (inode == 2 && !self.inode_in_range(2)),
            r matches Err(Error::MalformedEntry { .. }) ==> self.malformed_in_path(path),
            r matches Err(e) ==> e is NotADirectory || e is NotFound || e is InodeNotFound
                || e is MalformedEntry,
        ensures
            forall|t: int| #[trigger]
                self.reaches(path, path.len() as int, t) ==> (r matches Ok(ino) && ino.spec_num() == t),
            self.missing_component(path) ==> (r matches Err(Error::NotFound { .. })),
            forall|i: int| #[trigger]
                self.file_in_path(path, i) ==> (r matches Err(Error::NotADirectory { inode, .. }) && inode
                    == i),
    {
        let len = path.len() as int;
        assert forall|t: int| #[trigger]
            self.reaches(path, len, t) implies (r matches Ok(ino) && ino.spec_num() == t) by {
            match r {
                Ok(ino) => {
                    self.lemma_reaches_unique(path, len, ino.spec_num() as int, t);
                },
                Err(Error::NotFound { .. }) => {
                    let w = self.lemma_missing_stop(path);
                    self.lemma_reaches_through(path, w.0, w.1, w.2, w.3, len, t);
                },
                Err(Error::NotADirectory { inode, .. }) => {
                    let w = self.lemma_file_stop(path, inode as int);
                    self.lemma_reaches_through(path, w.0, w.1, inode as int, w.2, len, t);
                },
                Err(Error::InodeNotFound { inode }) => {
                    if self.dangling_in_path(path, inode as int) {
                        let w = self.lemma_dangling_stop(path, inode as int);
                        self.lemma_reaches_through(path, w.0, w.1, inode as int, w.2, len, t);
                    } else {
                        self.lemma_reaches_in_range(path, len, t);
                        self.lemma_reaches_root(path, len, t);
                    }
                },
                Err(Error::MalformedEntry { .. }) => {
                    let w = self.lemma_malformed_stop(path);
                    self.lemma_reaches_through(path, w.0, w.1, w.2, w.3, len, t);
                },
                _ => {},
            }
        }
        if self.missing_component(path) {
            let m = self.lemma_missing_stop(path);
            match r {
                Ok(ino) => {
                    self.lemma_reaches_through(path, m.0, m.1, m.2, m.3, len, ino.spec_num() as int);
                },
                Err(Error::NotADirectory { inode, .. }) => {
                    let w = self.lemma_file_stop(path, inode as int);
                    self.lemma_stops_unique(path, m.0, m.1, m.2, m.3, w.0, w.1, inode as int, w.2);
                },
                Err(Error::InodeNotFound { inode }) => {
                    if self.dangling_in_path(path, inode as int) {
                        let w = self.lemma_dangling_stop(path, inode as int);
                        self.lemma_stops_unique(path, m.0, m.1, m.2, m.3, w.0, w.1, inode as int, w.2);
                    } else {
                        self.lemma_stop_root(path, m.0, m.1, m.2, m.3);
                    }
                },
                Err(Error::MalformedEntry { .. }) => {
                    let w = self.lemma_malformed_stop(path);
                    self.lemma_stops_unique(path, m.0, m.1, m.2, m.3, w.0, w.1, w.2, w.3);
                },
                _ => {},
            }
        }
        assert forall|i: int| #[trigger]
            self.file_in_path(path, i) implies (r matches Err(Error::NotADirectory { inode, .. }) && inode
                == i) by {
            let f = self.lemma_file_stop(path, i);
            match r {
                Ok(ino) => {
                    self.lemma_reaches_through(path, f.0, f.1, i, f.2, len, ino.spec_num() as int);
                },
                Err(Error::NotFound { .. }) => {
                    let m = self.lemma_missing_stop(path);
                    self.lemma_stops_unique(path, m.0, m.1, m.2, m.3, f.0, f.1, i, f.2);
                },
                Err(Error::NotADirectory { inode, .. }) => {
                    let w = self.lemma_file_stop(path, inode as int);
                    self.lemma_stops_unique(path, w.0, w.1, inode as int, w.2, f.0, f.1, i, f.2);
                },
                Err(Error::InodeNotFound { inode }) => {
                    if self.dangling_in_path(path, inode as int) {
                        let w = self.lemma_dangling_stop(path, inode as int);
                        self.lemma_stops_unique(path, w.0, w.1, inode as int, w.2, f.0, f.1, i, f.2);
                    } else {
                        self.lemma_stop_root(path, f.0, f.1, i, f.2);
                    }
                },
                Err(Error::MalformedEntry { .. }) => {
                    let w = self.lemma_malformed_stop(path);
                    self.lemma_stops_unique(path, w.0, w.1, w.2, w.3, f.0, f.1, i, f.2);
                },
                _ => {},
            }
        }
    }

    /// Copies the data of `inode` into `buf`; see `Inode::read`.
    pub fn read_inode<'vol>(&'vol self, buf: &mut [u8], inode: &Inode<'vol, S, V>) -> (r: Result<usize, Error>)
        requires
            inode.fs().wf(),
        ensures
            final(buf)@.len() == old(buf)@.len(),
            r matches Ok(n) ==> inode.fs().read_outcome(inode.raw(), inode.spec_size64(), old(buf)@.len() as int, n as int),
            inode.fs().volume().reliable() && inode.fs().data_readable(
                inode.raw(),
                if inode.spec_size64() < old(buf)@.len() { inode.spec_size64() } else { old(buf)@.len() as int },
            ) ==> r is Ok,
            r matches Ok(n) ==> forall|p: int| n <= p < old(buf)@.len() ==> #[trigger] final(buf)@[p] == old(buf)@[p],
            r matches Ok(n) ==> forall|p: int|
                0 <= p < n ==> #[trigger] final(buf)@[p] == inode.fs().file_byte(inode.raw(), p),
            r matches Err(e) ==> is_storage_error(e),
    {
        inode.read(buf)
    }

    /// The entry of directory `dir` named `name`, as an inode.
    /// `NotADirectory` and `NotFound` name `path`; an entry whose inode
    /// cannot be read gives `InodeNotFound` with the directory's number.
    fn child<'vol>(&'vol self, dir: &Inode<'vol, S, V>, name: &[u8], path: &[u8]) -> (r: Result<Inode<'vol, S, V>, Error>)
        requires
            self.wf(),
            dir.fs() == self,
            self.inode_in_range(dir.spec_num() as int),
            dir.raw().decodes(
                self.contents().subrange(
                    self.inode_index(dir.spec_num() as int),
                    self.inode_index(dir.spec_num() as int) + 128,
                ),
            ),
        ensures
            r matches Ok(ino) ==> ino.fs() == self && self.inode_in_range(ino.spec_num() as int)
                && ino.raw().decodes(
                self.contents().subrange(
                    self.inode_index(ino.spec_num() as int),
                    self.inode_index(ino.spec_num() as int) + 128,
                ),
            ),
            !dir.spec_is_dir() <==> (r matches Err(Error::NotADirectory { .. })),
            r matches Err(Error::NotADirectory { inode, name: n }) ==> inode == dir.spec_num() && n@
                == lossy_utf8(path@),
            r matches Err(Error::NotFound { name: n }) ==> n@ == lossy_utf8(path@),
            r matches Err(Error::InodeNotFound { inode }) ==> inode == dir.spec_num(),
            r matches Err(e) ==> is_storage_error(e) || e is NotADirectory || e is NotFound
                || e is InodeNotFound || e is MalformedEntry,
            r matches Ok(ino) ==> dir.spec_is_dir() && self.lists(dir.raw(), name@, ino.spec_num() as int),
            r matches Err(Error::NotFound { .. }) ==> self.lacks(dir.raw(), name@),
            r matches Ok(ino) ==> self.finds(dir.raw(), name@, ino.spec_num() as int),
            r matches Err(Error::InodeNotFound { .. }) ==> self.finds_unreadable(dir.raw(), name@),
            self.sound() ==> (r matches Err(e) ==> !is_storage_error(e)),
            self.sound() ==> (r matches Err(Error::InodeNotFound { .. }) ==> self.finds_out_of_range(
                dir.raw(),
                name@,
            )),
            self.sound() && dir.spec_is_dir() ==> match self.lookup(dir.raw(), name@) {
                Lookup::Missing => r matches Err(Error::NotFound { .. }),
                Lookup::Malformed => r matches Err(Error::MalformedEntry { .. }),
                Lookup::Found(t) => if self.inode_in_range(t as int) {
                    r matches Ok(ino) && ino.spec_num() == t
                } else {
                    r matches Err(Error::InodeNotFound { .. })
                },
                Lookup::Unreadable => false,
            },
    {
        let mut entries = match dir.directory() {
            Some(d) => d,
            None => return Err(Error::NotADirectory { inode: dir.num(), name: lossy_name(path) }),
        };
        proof {
            reveal(Ext2::walk_misses);
        }
        loop
            invariant
                entries.wf(),
                entries.inode() == *dir,
                entries.intact(),
                dir.fs() == self,
                self.wf(),
                dir.spec_is_dir(),
                self.inode_in_range(dir.spec_num() as int),
                dir.raw().decodes(
                    self.contents().subrange(
                        self.inode_index(dir.spec_num() as int),
                        self.inode_index(dir.spec_num() as int) + 128,
                    ),
                ),
                self.walk_misses(dir.raw(), name@, entries.count()),
            decreases entries.remaining(),
        {
            let ghost before = entries.count();
            proof {
                if self.sound() {
                    assert(self.dir_readable(dir.raw()));
                    assert(self.block_readable(dir.raw(), entries.next_block() as int));
                }
            }
            match entries.next() {
                None => {
                    proof {
                        assert(self.walk_lacks(dir.raw(), name@, before));
                        self.lemma_lookup_missing(dir.raw(), name@, before);
                    }
                    return Err(Error::NotFound { name: lossy_name(path) });
                },
                Some(Err(e)) => {
                    proof {
                        if self.sound() && e is MalformedEntry {
                            self.lemma_lookup_malformed(dir.raw(), name@, before);
                        }
                    }
                    return Err(e);
                },
                Some(Ok(entry)) => {
                    if bytes_eq(entry.name.as_slice(), name) {
                        proof {
                            assert(self.walk_finds(dir.raw(), name@, entry.inode as int, before));
                            assert(self.walk_target(dir.raw(), before) == entry.inode as int);
                            self.lemma_lookup_found(dir.raw(), name@, before);
                            reveal(Ext2::finds);
                            assert(self.dir_entry_at(dir.raw(), entries.next_block() - 1, entries.last_entry(), entry));
                        }
                        return match self.inode_nth(entry.inode) {
                            Some(ino) => Ok(ino),
                            None => {
                                proof {
                                    reveal(Ext2::finds);
                                    assert(self.finds(dir.raw(), name@, entry.inode as int));
                                    if self.sound() {
                                        assert(!self.inode_in_range(entry.inode as int));
                                    }
                                }
                                Err(Error::InodeNotFound { inode: dir.num() })
                            },
                        };
                    }
                    proof {
                        let p = self.walk_pos(dir.raw(), before);
                        assert(self.record_name(dir.raw(), p) == entry.name@);
                        self.lemma_misses_extend(dir.raw(), name@, before);
                    }
                },
            }
        }
    }

    /// Resolves an absolute byte path from the root directory. The path
    /// must start with `/` (`NotAbsolute` otherwise); `/` is the root. Each
    /// component is looked up in the directory reached so far: a component
    /// under a file gives `NotADirectory`, a missing one `NotFound`, and an
    /// entry whose inode cannot be read `InodeNotFound`. Symbolic links are
    /// not followed.
    pub fn open<'vol>(&'vol self, abs_path: &[u8]) -> (r: Result<Inode<'vol, S, V>, Error>)
        requires
            self.wf(),
        ensures
            self.sound() ==> (r matches Err(Error::InodeNotFound { inode }) ==> self.dangling_in_path(
                abs_path@,
                inode as int,
            ) || (inode == 2 && !self.inode_in_range(2))),
            self.sound() ==> (r matches Err(Error::MalformedEntry { .. }) ==> self.malformed_in_path(abs_path@)),
            (abs_path@.len() == 0 || abs_path@[0] != 0x2f) <==> (r matches Err(Error::NotAbsolute { .. })),
            r matches Err(Error::NotAbsolute { name }) ==> name@ == lossy_utf8(abs_path@),
            r matches Err(Error::NotFound { name }) ==> name@ == lossy_utf8(abs_path@),
            r matches Err(Error::NotADirectory { name, .. }) ==> name@ == lossy_utf8(abs_path@),
            r matches Ok(ino) ==> ino.fs() == self && self.inode_in_range(ino.spec_num() as int)
                && ino.raw().decodes(
                self.contents().subrange(
                    self.inode_index(ino.spec_num() as int),
                    self.inode_index(ino.spec_num() as int) + 128,
                ),
            ),
            abs_path@ == seq![0x2fu8] ==> (r matches Ok(ino) ==> ino.spec_num() == 2),
            r matches Err(Error::NotFound { .. }) ==> self.missing_component(abs_path@),
            r matches Err(Error::NotADirectory { inode, .. }) ==> self.file_in_path(abs_path@, inode as int),
            r matches Ok(ino) ==> abs_path@ == seq![0x2fu8] || self.reaches(
                abs_path@,
                abs_path@.len() as int,
                ino.spec_num() as int,
            ),
            abs_path@ == seq![0x2fu8] && self.volume().reliable() && self.inode_in_range(2)
                && self.can_read(self.inode_index(2) + 128) ==> r is Ok,
            r matches Err(e) ==> is_storage_error(e) || e is NotADirectory || e is NotFound
                || e is InodeNotFound || e is NotAbsolute || e is MalformedEntry,
            self.sound() ==> (r matches Err(e) ==> !is_storage_error(e)),
            forall|t: int|
                self.sound() && abs_path@.len() > 1 && abs_path@[0] == 0x2f && #[trigger] self.reaches(
                    abs_path@,
                    abs_path@.len() as int,
                    t,
                ) ==> (r matches Ok(ino) && ino.spec_num() == t),
            self.sound() && abs_path@.len() > 1 && abs_path@[0] == 0x2f && self.missing_component(abs_path@)
                ==> (r matches Err(Error::NotFound { .. })),
            forall|i: int|
                self.sound() && abs_path@.len() > 1 && abs_path@[0] == 0x2f && #[trigger] self.file_in_path(
                    abs_path@,
                    i,
                ) ==> (r matches Err(Error::NotADirectory { inode, .. }) && inode == i),
    {
        let r = self.walk_path(abs_path);
        proof {
            if self.sound() && abs_path@.len() > 1 && abs_path@[0] == 0x2f {
                self.lemma_open_outcomes(abs_path@, r);
            }
        }
        r
    }

    /// The walk behind `open`, with what each outcome implies.
    fn walk_path<'vol>(&'vol self, abs_path: &[u8]) -> (r: Result<Inode<'vol, S, V>, Error>)
        requires
            self.wf(),
        ensures
            self.sound() ==> (r matches Err(Error::InodeNotFound { inode }) ==> self.dangling_in_path(
                abs_path@,
                inode as int,
            ) || (inode == 2 && !self.inode_in_range(2))),
            self.sound() ==> (r matches Err(Error::MalformedEntry { .. }) ==> self.malformed_in_path(abs_path@)),
            (abs_path@.len() == 0 || abs_path@[0] != 0x2f) <==> (r matches Err(Error::NotAbsolute { .. })),
            r matches Err(Error::NotAbsolute { name }) ==> name@ == lossy_utf8(abs_path@),
            r matches Err(Error::NotFound { name }) ==> name@ == lossy_utf8(abs_path@),
            r matches Err(Error::NotADirectory { name, .. }) ==> name@ == lossy_utf8(abs_path@),
            r matches Ok(ino) ==> ino.fs() == self && self.inode_in_range(ino.spec_num() as int)
                && ino.raw().decodes(
                self.contents().subrange(
                    self.inode_index(ino.spec_num() as int),
                    self.inode_index(ino.spec_num() as int) + 128,
                ),
            ),
            abs_path@ == seq![0x2fu8] ==> (r matches Ok(ino) ==> ino.spec_num() == 2),
            r matches Err(Error::NotFound { .. }) ==> self.missing_component(abs_path@),
            r matches Err(Error::NotADirectory { inode, .. }) ==> self.file_in_path(abs_path@, inode as int),
            r matches Ok(ino) ==> abs_path@ == seq![0x2fu8] || self.reaches(
                abs_path@,
                abs_path@.len() as int,
                ino.spec_num() as int,
            ),
            abs_path@ == seq![0x2fu8] && self.volume().reliable() && self.inode_in_range(2)
                && self.can_read(self.inode_index(2) + 128) ==> r is Ok,
            r matches Err(e) ==> is_storage_error(e) || e is NotADirectory || e is NotFound
                || e is InodeNotFound || e is NotAbsolute || e is MalformedEntry,
            self.sound() ==> (r matches Err(e) ==> !is_storage_error(e)),
    {
        let len = abs_path.len();
        if len == 0 || abs_path[0] != 0x2f {
            return Err(Error::NotAbsolute { name: lossy_name(abs_path) });
        }
        let root = match self.inode_nth(2) {
            Some(root) => root,
            None => return Err(Error::InodeNotFound { inode: 2 }),
        };
        if len == 1 {
            return Ok(root);
        }
        let mut current = root;
        let mut start: usize = 1;
        loop
            invariant
                self.wf(),
                len == abs_path@.len(),
                1 <= start <= len,
                len > 1,
                abs_path@[0] == 0x2f,
                abs_path@[start - 1] == 0x2f,
                self.reaches(abs_path@, start - 1, current.spec_num() as int),
                current.fs() == self,
                self.inode_in_range(current.spec_num() as int),
                current.raw().decodes(
                    self.contents().subrange(
                        self.inode_index(current.spec_num() as int),
                        self.inode_index(current.spec_num() as int) + 128,
                    ),
                ),
            decreases len - start,
        {
            let mut end: usize = start;
            while end < len && abs_path[end] != 0x2f
                invariant
                    start <= end <= len,
                    len == abs_path@.len(),
                    forall|k: int| start <= k < end ==> abs_path@[k] != 0x2f,
                decreases len - end,
            {
                end = end + 1;
            }
            let name = crate::volume::copy_range(abs_path, start, end);
            let ghost parent = current.raw();
            let ghost parent_num = current.spec_num() as int;
            proof {
                assert(self.reaches_before(abs_path@, start as int, end as int, parent_num, parent));
            }
            current = match self.child(&current, name.as_slice(), abs_path) {
                Ok(ino) => ino,
                Err(e) => {
                    proof {
                        assert(name@ == abs_path@.subrange(start as int, end as int));
                    }
                    return Err(e);
                },
            };
            proof {
                self.lemma_reaches_step(abs_path@, start as int, end as int, parent_num, parent, current.spec_num() as int);
            }
            if end == len {
                return Ok(current);
            }
            start = end + 1;
        }
    }
}

/// One directory record: the target inode, the name and the type byte.
#[derive(Debug, Clone)]
pub struct DirectoryEntry {
    pub name: Vec<u8>,
    pub inode: usize,
    pub ty: u8,
}

/// The directory record at byte `off` of block `s` is well formed: its
/// header lies in the block, its name fits its length, and the record ends
/// inside the block.
pub open spec fn entry_fits(s: Seq<u8>, off: int) -> bool {
    &&& off + 8 <= s.len()
    &&& 8 + s[off + 6] <= le_u16(s, off + 4)
    &&& off + le_u16(s, off + 4) <= s.len()
}

/// The record at byte `off` of block `s` ends the directory: its inode
/// field lies in the block and is 0.
pub open spec fn entry_ends(s: Seq<u8>, off: int) -> bool {
    &&& 0 <= off
    &&& off + 4 <= s.len()
    &&& le_u32(s, off) == 0
}

/// `e` is the record at byte `off` of block `s`.
pub open spec fn entry_decodes(s: Seq<u8>, off: int, e: DirectoryEntry) -> bool {
    &&& e.inode == le_u32(s, off)
    &&& e.ty == s[off + 7]
    &&& e.name@ == s.subrange(off + 8, off + 8 + s[off + 6])
}

/// Decodes the directory record at byte `offset` of `block`: `None` for the
/// record with inode 0 that ends the directory, otherwise the entry and the
/// record length. A record that does not fit gives `OutOfBounds` with its
/// offset.
pub fn parse_entry(block: &[u8], offset: usize) -> (r: Result<Option<(DirectoryEntry, usize)>, Error>)
    ensures
        entry_ends(block@, offset as int) <==> (r matches Ok(None)),
        r matches Ok(Some((e, rec_len))) ==> {
            &&& entry_fits(block@, offset as int)
            &&& entry_decodes(block@, offset as int, e)
            &&& rec_len == le_u16(block@, offset + 4)
            &&& e.inode != 0
            &&& e.name@.len() + 8 <= rec_len
        },
        r is Err <==> !entry_ends(block@, offset as int) && !entry_fits(block@, offset as int),
        r matches Err(e) ==> e == (Error::MalformedEntry { offset }),
{
    let len = block.len();
    if offset > len || len - offset < 4 {
        return Err(Error::MalformedEntry { offset });
    }
    let inode = read_u32(block, offset);
    if inode == 0 {
        return Ok(None);
    }
    if len - offset < 8 {
        return Err(Error::MalformedEntry { offset });
    }
    let rec_len = read_u16(block, offset + 4) as usize;
    let name_len = block[offset + 6] as usize;
    if 8 + name_len > rec_len || rec_len > len - offset {
        return Err(Error::MalformedEntry { offset });
    }
    let name = crate::volume::copy_range(block, offset + 8, offset + 8 + name_len);
    let ty = block[offset + 7];
    Ok(Some((DirectoryEntry { name, inode: inode as usize, ty }, rec_len)))
}

/// The entries of a directory inode, in the order they are stored.
pub struct Directory<'vol, S: SectorSize, V: Volume<S>> {
    blocks: InodeBlocks<'vol, S, V>,
    offset: usize,
    buffer: Option<Vec<u8>>,
    block_size: usize,
    last: Ghost<int>,
    count: Ghost<nat>,
    intact: Ghost<bool>,
}

impl<'vol, S: SectorSize, V: Volume<S>> Directory<'vol, S, V> {
    /// No block of the walk failed to be read: the entries returned so
    /// far are the first records of the directory's walk.
    pub closed spec fn intact(&self) -> bool {
        self.intact@
    }

    /// Number of entries returned so far.
    pub closed spec fn count(&self) -> nat {
        self.count@
    }

    /// Offset of the record the last entry came from.
    pub closed spec fn last_entry(&self) -> int {
        self.last@
    }

    pub closed spec fn inode(&self) -> Inode<'vol, S, V> {
        self.blocks.inode()
    }

    pub closed spec fn wf(&self) -> bool {
        &&& self.blocks.inode().fs().wf()
        &&& self.block_size == self.blocks.inode().fs().spec_block_size()
        &&& self.blocks.spec_index() <= self.blocks.inode().fs().max_blocks()
        &&& self.buffer matches Some(b) ==> b@.len() == self.block_size
        &&& self.intact@ ==> ({
            let p = self.blocks.inode().fs().walk_pos(self.blocks.inode().raw(), self.count@);
            if self.buffer is Some && self.offset < self.block_size {
                p == (self.blocks.spec_index() - 1, self.offset as int)
            } else {
                p == (self.blocks.spec_index() as int, 0int)
            }
        })
        &&& self.buffer matches Some(b) ==> {
            &&& self.blocks.spec_index() >= 1
            &&& self.blocks.inode().fs().resolve(self.blocks.inode().raw(), self.blocks.spec_index() - 1) matches Some(Some(blk))
            &&& b@ == self.blocks.inode().fs().block_bytes(blk)
        }
    }

    /// What is left to walk: blocks not yet fetched, and bytes of the
    /// current block not yet read. Every entry returned makes it smaller.
    pub closed spec fn remaining(&self) -> int {
        let bs = self.block_size as int;
        let tail = match self.buffer {
            Some(_) => if self.offset < bs { bs - self.offset } else { 0 },
            None => 0,
        };
        (self.blocks.inode().fs().max_blocks() - self.blocks.spec_index()) * (bs + 1) + tail
    }

    /// Logical index of the next block to fetch.
    pub closed spec fn next_block(&self) -> usize {
        self.blocks.spec_index()
    }

    /// The block being walked and the byte offset in it of the next
    /// record, if a block has been fetched.
    pub closed spec fn cursor(&self) -> Option<(Seq<u8>, int)> {
        match self.buffer {
            Some(b) => Some((b@, self.offset as int)),
            None => None,
        }
    }

    /// The next entry. The walk stops at the record with inode 0 and at
    /// the end of the inode's blocks; a malformed record gives
    /// `MalformedEntry` with its offset. A block that cannot be read gives
    /// the volume's error, and the walk goes on with the next block.
    pub fn next(&mut self) -> (r: Option<Result<DirectoryEntry, Error>>)
        requires
            old(self).wf(),
        ensures
            final(self).wf(),
            final(self).inode() == old(self).inode(),
            r matches Some(Ok(e)) ==> (final(self).cursor() matches Some((s, off)) && entry_fits(
                s,
                final(self).last_entry(),
            ) && entry_decodes(s, final(self).last_entry(), e) && off == final(self).last_entry()
                + le_u16(s, final(self).last_entry() + 4) && e.inode != 0 && e.name@.len() + 8 <= le_u16(
                s,
                final(self).last_entry() + 4,
            )),
            r is None ==> (final(self).cursor() matches Some((s, off)) && entry_ends(s, off))
                || old(self).inode().fs().resolve(old(self).inode().raw(), old(self).next_block() as int)
                == Some(None::<u32>),
            r matches Some(Err(e)) ==> is_storage_error(e) || e is MalformedEntry,
            r matches Some(Ok(_)) ==> 0 <= final(self).remaining() < old(self).remaining(),
            old(self).intact() && !(r matches Some(Err(e)) && is_storage_error(e)) ==> final(self).intact(),
            ({
                let fs = old(self).inode().fs();
                let raw = old(self).inode().raw();
                let p = fs.walk_pos(raw, old(self).count());
                old(self).intact() ==> {
                    &&& r matches Some(Ok(e)) ==> final(self).count() == old(self).count() + 1
                        && fs.dir_entry_at(raw, p.0, p.1, e)
                    &&& !(r matches Some(Ok(_))) ==> final(self).count() == old(self).count()
                    &&& r is None ==> fs.walk_ends(raw, p)
                    &&& r matches Some(Err(Error::MalformedEntry { .. })) ==> {
                        &&& fs.resolve(raw, p.0) matches Some(Some(_))
                        &&& !entry_ends(fs.data_block(raw, p.0), p.1)
                        &&& !entry_fits(fs.data_block(raw, p.0), p.1)
                    }
                }
            }),
            ({
                let fs = old(self).inode().fs();
                let raw = old(self).inode().raw();
                let nb = old(self).next_block() as int;
                let blk = fs.resolve(raw, nb)->Some_0->Some_0;
                let s = fs.block_bytes(blk);
                (old(self).cursor() is None || old(self).cursor()->Some_0.1 >= fs.spec_block_size())
                    && fs.volume().reliable() && nb < usize::MAX && fs.block_readable(raw, nb) ==> {
                    &&& fs.resolve(raw, nb) == Some(None::<u32>) ==> r is None
                    &&& fs.resolve(raw, nb) matches Some(Some(_)) ==> {
                        &&& r is None <==> entry_ends(s, 0)
                        &&& (r matches Some(Ok(_))) <==> !entry_ends(s, 0) && entry_fits(s, 0)
                        &&& r matches Some(Err(e)) ==> e == (Error::MalformedEntry { offset: 0 })
                    }
                }
            }),
            ({
                let s = old(self).cursor()->Some_0.0;
                let off = old(self).cursor()->Some_0.1;
                old(self).cursor() is Some && off < old(self).inode().fs().spec_block_size() ==> {
                    &&& r is None <==> entry_ends(s, off)
                    &&& r matches Some(Err(e)) ==> e == (Error::MalformedEntry { offset: off as usize })
                    &&& (r matches Some(Err(_))) <==> !entry_ends(s, off) && !entry_fits(s, off)
                    &&& r matches Some(Ok(_)) ==> final(self).last_entry() == off
                    &&& final(self).cursor() matches Some((s2, _)) && s2 == s
                    &&& final(self).next_block() == old(self).next_block()
                }
            }),
            r matches Some(Ok(e)) ==> old(self).inode().fs().dir_entry_at(
                old(self).inode().raw(),
                final(self).next_block() - 1,
                final(self).last_entry(),
                e,
            ),
    {
        proof {
            self.blocks.inode().fs().lemma_block_size();
        }
        let need_block = match &self.buffer {
            None => true,
            Some(_) => self.offset >= self.block_size,
        };
        if need_block {
            let ghost i = self.blocks.spec_index() as int;
            let r = self.blocks.next();
            proof {
                let fs = self.blocks.inode().fs();
                if i >= fs.max_blocks() {
                    assert(fs.resolve(self.blocks.inode().raw(), i) == Some(None::<u32>));
                }
            }
            match r {
                None => return None,
                Some(Err(e)) => {
                    self.buffer = None;
                    self.intact = Ghost(false);
                    return Some(Err(e));
                },
                Some(Ok((slice, _))) => {
                    let bytes = crate::volume::copy_range(slice.as_slice(), 0, slice.len());
                    proof {
                        let fs = self.blocks.inode().fs();
                        let blk = fs.resolve(self.blocks.inode().raw(), i)->Some_0->Some_0;
                        assert(bytes@ =~= fs.block_bytes(blk));
                    }
                    self.buffer = Some(bytes);
                    self.offset = 0;
                },
            }
        }
        // the buffer's length bounds the new offset
        let (parsed, _block_len) = match &self.buffer {
            Some(b) => (parse_entry(b.as_slice(), self.offset), b.len()),
            None => {
                return None;
            },
        };
        match parsed {
            Ok(None) => None,
            Ok(Some((entry, rec_len))) => {
                self.last = Ghost(self.offset as int);
                self.count = Ghost(self.count@ + 1);
                self.offset = self.offset + rec_len;
                proof {
                    let bs = self.block_size as int;
                    let m = self.blocks.inode().fs().max_blocks();
                    let i = self.blocks.spec_index() as int;
                    if need_block {
                        assert((m - i) * (bs + 1) + bs < (m - i + 1) * (bs + 1)) by (nonlinear_arith)
                            requires bs >= 0;
                    }
                    assert((m - i) * (bs + 1) >= 0) by (nonlinear_arith)
                        requires m - i >= 0, bs >= 0;
                }
                Some(Ok(entry))
            },
            Err(e) => Some(Err(e)),
        }
    }
}

} // verus!
