//! Sector sizes as type-level witnesses, and addresses expressed in sectors.
use vstd::prelude::*;
use vstd::arithmetic::power2::{pow2, lemma2_to64};
use vstd::bits::lemma_u64_shl_is_mul;
use core::marker::PhantomData;

verus! {

/// Number of sectors an address can name: sector numbers are 32-bit.
pub open spec fn sector_count() -> int {
    0x1_0000_0000
}

/// A witness for a sector size of `2^LOG_SIZE` bytes.
pub trait SectorSize: Copy + Sized {
    /// Base-2 logarithm of the sector size.
    spec fn spec_log_size() -> nat;

    proof fn lemma_log_size()
        ensures
            9 <= Self::spec_log_size() <= 12,
    ;

    /// Base-2 logarithm of the sector size.
    fn log_size() -> (r: u32)
        ensures
            r as nat == Self::spec_log_size(),
    ;
}

/// Sector size in bytes.
pub open spec fn spec_size<S: SectorSize>() -> nat {
    pow2(S::spec_log_size())
}

/// The facts about a sector size that arithmetic on addresses needs.
pub proof fn lemma_sector_size<S: SectorSize>()
    ensures
        9 <= S::spec_log_size() <= 12,
        512 <= spec_size::<S>() <= 4096,
        spec_size::<S>() == pow2(S::spec_log_size()),
{
    S::lemma_log_size();
    lemma2_to64();
    let l = S::spec_log_size();
    if l == 9 {
    } else if l == 10 {
    } else if l == 11 {
    } else {
    }
}

/// Sectors of 512 bytes.
#[derive(Debug, Clone, Copy, PartialEq, Eq, Hash, Default)]
pub struct Size512;

impl SectorSize for Size512 {
    open spec fn spec_log_size() -> nat {
        9
    }

    proof fn lemma_log_size() {
    }

    fn log_size() -> (r: u32) {
        9
    }
}

/// Sectors of 1024 bytes.
#[derive(Debug, Clone, Copy, PartialEq, Eq, Hash, Default)]
pub struct Size1024;

impl SectorSize for Size1024 {
    open spec fn spec_log_size() -> nat {
        10
    }

    proof fn lemma_log_size() {
    }

    fn log_size() -> (r: u32) {
        10
    }
}

/// Sectors of 2048 bytes.
#[derive(Debug, Clone, Copy, PartialEq, Eq, Hash, Default)]
pub struct Size2048;

impl SectorSize for Size2048 {
    open spec fn spec_log_size() -> nat {
        11
    }

    proof fn lemma_log_size() {
    }

    fn log_size() -> (r: u32) {
        11
    }
}

/// Sectors of 4096 bytes.
#[derive(Debug, Clone, Copy, PartialEq, Eq, Hash, Default)]
pub struct Size4096;

impl SectorSize for Size4096 {
    open spec fn spec_log_size() -> nat {
        12
    }

    proof fn lemma_log_size() {
    }

    fn log_size() -> (r: u32) {
        12
    }
}

/// A byte position on a volume, as a sector number and an offset inside that
/// sector.
#[derive(Debug, Copy)]
pub struct Address<S: SectorSize> {
    sector: u32,
    offset: u32,
    _phantom: PhantomData<S>,
}

impl<S: SectorSize> Clone for Address<S> {
    fn clone(&self) -> (r: Self)
        ensures
            r == *self,
    {
        *self
    }
}

/// Whether a linear byte index can be named by an address.
pub open spec fn addressable<S: SectorSize>(idx: int) -> bool {
    0 <= idx < sector_count() * spec_size::<S>()
}

impl<S: SectorSize> Address<S> {
    #[verifier::type_invariant]
    spec fn inv(self) -> bool {
        self.offset < spec_size::<S>()
    }

    pub closed spec fn spec_sector(self) -> u32 {
        self.sector
    }

    pub closed spec fn spec_offset(self) -> u32 {
        self.offset
    }

    /// The offset lies inside its sector (always true of an address that
    /// exists at run time).
    pub open spec fn wf(self) -> bool {
        self.spec_offset() < spec_size::<S>()
    }

    /// The linear byte index the address names.
    pub open spec fn index(self) -> int {
        self.spec_sector() as int * spec_size::<S>() + self.spec_offset() as int
    }

    /// The address of a linear byte index.
    pub closed spec fn at_index(idx: int) -> Address<S> {
        Address {
            sector: (idx / spec_size::<S>() as int) as u32,
            offset: (idx % spec_size::<S>() as int) as u32,
            _phantom: PhantomData,
        }
    }

    /// An address is determined by the index it names, and every address
    /// names an addressable index.
    pub proof fn lemma_index(self)
        requires
            self.wf(),
        ensures
            addressable::<S>(self.index()),
            Self::at_index(self.index()) == self,
    {
        lemma_sector_size::<S>();
        let z = spec_size::<S>() as int;
        let s = self.sector as int;
        let o = self.offset as int;
        vstd::arithmetic::div_mod::lemma_fundamental_div_mod_converse(s * z + o, z, s, o);
        assert(s * z + o < sector_count() * z) by (nonlinear_arith)
            requires s < sector_count(), o < z, z > 0;
    }

    /// Every addressable index is named by its address.
    pub proof fn lemma_at_index(idx: int)
        requires
            addressable::<S>(idx),
        ensures
            Self::at_index(idx).index() == idx,
            Self::at_index(idx).wf(),
    {
        lemma_sector_size::<S>();
        let z = spec_size::<S>() as int;
        vstd::arithmetic::div_mod::lemma_fundamental_div_mod(idx, z);
        vstd::arithmetic::div_mod::lemma_div_pos_is_pos(idx, z);
        vstd::arithmetic::div_mod::lemma_div_is_ordered(idx, sector_count() * z, z);
        vstd::arithmetic::div_mod::lemma_div_multiples_vanish(sector_count(), z);
        vstd::arithmetic::div_mod::lemma_div_is_ordered(idx, sector_count() * z - 1, z);
        assert((sector_count() * z - 1) / z == sector_count() - 1) by {
            vstd::arithmetic::div_mod::lemma_fundamental_div_mod_converse(
                sector_count() * z - 1, z, sector_count() - 1, z - 1);
        }
        let q = idx / z;
        let r = idx % z;
        assert(0 <= q < sector_count());
        assert(0 <= r < z);
        assert(Self::at_index(idx).spec_sector() as int == q);
        assert(Self::at_index(idx).spec_offset() as int == r);
        assert(q * z + r == idx) by (nonlinear_arith)
            requires idx == z * q + r;
    }

    /// Builds the address of a linear byte index, which must be addressable.
    fn from_linear(idx: u64) -> (r: Address<S>)
        requires
            addressable::<S>(idx as int),
        ensures
            r == Self::at_index(idx as int),
            r.index() == idx,
            r.wf(),
    {
        proof {
            lemma_sector_size::<S>();
            Self::lemma_at_index(idx as int);
        }
        let size: u64 = 1u64 << S::log_size();
        proof {
            lemma_u64_shl_is_mul(1, S::spec_log_size() as u64);
        }
        let sector = (idx / size) as u32;
        let offset = (idx % size) as u32;
        Address { sector, offset, _phantom: PhantomData }
    }

    /// The address `sector * SIZE + offset`: a negative or oversized offset
    /// carries into the sector number.
    pub fn new(sector: u32, offset: i32) -> (r: Address<S>)
        requires
            addressable::<S>(sector as int * spec_size::<S>() + offset as int),
        ensures
            r.index() == sector as int * spec_size::<S>() + offset as int,
            r.wf(),
    {
        proof {
            lemma_sector_size::<S>();
            assert(sector as int * spec_size::<S>() <= 0xffff_ffff * 4096) by (nonlinear_arith)
                requires sector <= 0xffff_ffff, spec_size::<S>() <= 4096;
        }
        let size: u64 = 1u64 << S::log_size();
        proof {
            lemma_u64_shl_is_mul(1, S::spec_log_size() as u64);
        }
        let base: i64 = (sector as u64 * size) as i64;
        let idx: i64 = base + offset as i64;
        Self::from_linear(idx as u64)
    }

    /// The address of byte `offset` of filesystem block `block`, for blocks
    /// of `2^log_block_size` bytes. The offset may lie outside the block: it
    /// carries into the block number.
    pub fn with_block_size(block: u32, offset: i32, log_block_size: u32) -> (r: Address<S>)
        requires
            S::spec_log_size() <= log_block_size < 32,
            addressable::<S>(block as int * pow2(log_block_size as nat) + offset as int),
        ensures
            r.index() == block as int * pow2(log_block_size as nat) + offset as int,
            r.wf(),
    {
        proof {
            lemma2_to64();
            if log_block_size < 31 {
                vstd::arithmetic::power2::lemma_pow2_strictly_increases(log_block_size as nat, 31);
            }
            assert(block as int * pow2(log_block_size as nat) <= 0xffff_ffff * 0x8000_0000)
                by (nonlinear_arith)
                requires block <= 0xffff_ffff, pow2(log_block_size as nat) <= 0x8000_0000;
        }
        let block_size: u64 = 1u64 << log_block_size as u64;
        proof {
            lemma_u64_shl_is_mul(1, log_block_size as u64);
        }
        let base: i64 = (block as u64 * block_size) as i64;
        let idx: i64 = base + offset as i64;
        Self::from_linear(idx as u64)
    }

    /// The linear byte index `sector << LOG_SIZE | offset`.
    pub fn into_index(&self) -> (r: u64)
        ensures
            r == self.index(),
    {
        proof {
            use_type_invariant(self);
            lemma_sector_size::<S>();
            assert(self.sector as int * spec_size::<S>() <= 0xffff_ffff * 4096) by (nonlinear_arith)
                requires self.sector <= 0xffff_ffff, spec_size::<S>() <= 4096;
        }
        let size: u64 = 1u64 << S::log_size();
        proof {
            lemma_u64_shl_is_mul(1, S::spec_log_size() as u64);
        }
        self.sector as u64 * size + self.offset as u64
    }

    /// Number of whole sectors from `start` to `end`, when `end` is not
    /// before `start`.
    pub fn steps_between(start: &Address<S>, end: &Address<S>) -> (r: Option<usize>)
        ensures
            r == (if end.spec_sector() >= start.spec_sector() {
                Some((end.spec_sector() - start.spec_sector()) as usize)
            } else {
                None
            }),
    {
        if end.sector >= start.sector {
            Some((end.sector - start.sector) as usize)
        } else {
            None
        }
    }

    /// The start of the next sector.
    pub fn add_one(&self) -> (r: Address<S>)
        requires
            self.spec_sector() < u32::MAX,
        ensures
            r.spec_sector() == self.spec_sector() + 1,
            r.spec_offset() == 0,
    {
        proof {
            lemma_sector_size::<S>();
        }
        Address { sector: self.sector + 1, offset: 0, _phantom: PhantomData }
    }

    /// The start of the previous sector.
    pub fn sub_one(&self) -> (r: Address<S>)
        requires
            self.spec_sector() > 0,
        ensures
            r.spec_sector() == self.spec_sector() - 1,
            r.spec_offset() == 0,
    {
        proof {
            lemma_sector_size::<S>();
        }
        Address { sector: self.sector - 1, offset: 0, _phantom: PhantomData }
    }

    /// The start of the sector `n` sectors on; `None` past the last sector.
    pub fn add_usize(&self, n: usize) -> (r: Option<Address<S>>)
        ensures
            self.spec_sector() + n <= u32::MAX <==> r is Some,
            r matches Some(a) ==> a.spec_sector() == self.spec_sector() + n && a.spec_offset() == 0,
    {
        proof {
            lemma_sector_size::<S>();
        }
        if n as u64 > (u32::MAX - self.sector) as u64 {
            None
        } else {
            Some(Address { sector: self.sector + n as u32, offset: 0, _phantom: PhantomData })
        }
    }

    pub fn sector_size(&self) -> (r: usize)
        ensures
            r == spec_size::<S>(),
    {
        proof {
            lemma_sector_size::<S>();
            lemma_u64_shl_is_mul(1, S::spec_log_size() as u64);
        }
        (1u64 << S::log_size()) as usize
    }

    pub fn log_sector_size(&self) -> (r: u32)
        ensures
            r == S::spec_log_size(),
    {
        S::log_size()
    }

    pub fn sector(&self) -> (r: u32)
        ensures
            r == self.spec_sector(),
    {
        self.sector
    }

    pub fn offset(&self) -> (r: u32)
        ensures
            r == self.spec_offset(),
            r < spec_size::<S>(),
    {
        proof {
            use_type_invariant(self);
        }
        self.offset
    }
}

impl<S: SectorSize> PartialEq for Address<S> {
    fn eq(&self, other: &Address<S>) -> (r: bool) {
        proof {
            use_type_invariant(self);
            use_type_invariant(other);
            self.lemma_index();
            other.lemma_index();
        }
        self.sector == other.sector && self.offset == other.offset
    }
}

impl<S: SectorSize> vstd::std_specs::cmp::PartialEqSpecImpl for Address<S> {
    open spec fn obeys_eq_spec() -> bool {
        true
    }

    open spec fn eq_spec(&self, other: &Address<S>) -> bool {
        self.index() == other.index()
    }
}

impl<S: SectorSize> Eq for Address<S> {
}

impl<S: SectorSize> core::ops::Add for Address<S> {
    type Output = Address<S>;

    fn add(self, rhs: Address<S>) -> (r: Address<S>) {
        proof {
            use_type_invariant(self);
            use_type_invariant(rhs);
            lemma_sector_size::<S>();
        }
        let sum: u64 = self.into_index() + rhs.into_index();
        Self::from_linear(sum)
    }
}

impl<S: SectorSize> vstd::std_specs::ops::AddSpecImpl for Address<S> {
    open spec fn obeys_add_spec() -> bool {
        true
    }

    /// The sum must stay addressable.
    open spec fn add_req(self, rhs: Address<S>) -> bool {
        addressable::<S>(self.index() + rhs.index())
    }

    open spec fn add_spec(self, rhs: Address<S>) -> Address<S> {
        Self::at_index(self.index() + rhs.index())
    }
}

impl<S: SectorSize> core::ops::Sub for Address<S> {
    type Output = Address<S>;

    fn sub(self, rhs: Address<S>) -> (r: Address<S>) {
        proof {
            use_type_invariant(self);
            use_type_invariant(rhs);
            self.lemma_index();
        }
        let diff: u64 = self.into_index() - rhs.into_index();
        Self::from_linear(diff)
    }
}

impl<S: SectorSize> vstd::std_specs::ops::SubSpecImpl for Address<S> {
    open spec fn obeys_sub_spec() -> bool {
        true
    }

    /// The difference must not be negative.
    open spec fn sub_req(self, rhs: Address<S>) -> bool {
        rhs.index() <= self.index()
    }

    open spec fn sub_spec(self, rhs: Address<S>) -> Address<S> {
        Self::at_index(self.index() - rhs.index())
    }
}

/// The address of a linear byte index; sector numbers past 32 bits wrap.
pub open spec fn address_of_u64<S: SectorSize>(idx: u64) -> Address<S> {
    Address::<S>::at_index(idx as int % (sector_count() * spec_size::<S>()))
}

impl<S: SectorSize> From<u64> for Address<S> {
    fn from(idx: u64) -> (r: Address<S>) {
        proof {
            lemma_sector_size::<S>();
            assert(sector_count() * spec_size::<S>() > 0) by (nonlinear_arith)
                requires spec_size::<S>() > 0;
        }
        let span: u64 = 0x1_0000_0000u64 << S::log_size();
        proof {
            lemma_u64_shl_is_mul(0x1_0000_0000u64, S::spec_log_size() as u64);
            assert(0x1_0000_0000u64 * spec_size::<S>() <= u64::MAX) by (nonlinear_arith)
                requires spec_size::<S>() <= 4096;
        }
        Self::from_linear(idx % span)
    }
}

impl<S: SectorSize> vstd::std_specs::convert::FromSpecImpl<u64> for Address<S> {
    open spec fn obeys_from_spec() -> bool {
        true
    }

    open spec fn from_spec(idx: u64) -> Address<S> {
        address_of_u64::<S>(idx)
    }
}

} // verus!
