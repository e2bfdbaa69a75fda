//! Storage that the filesystem reads from: a byte store addressed by
//! `Address<S>`, with views over ranges of it and write-back of changed views.
use vstd::prelude::*;
use core::ops::Range;
use crate::error::Error;
use crate::sector::{Address, SectorSize, spec_size, addressable, address_of_u64, lemma_sector_size};

verus! {

/// A copy of `s[start..end]`.
pub(crate) fn copy_range(s: &[u8], start: usize, end: usize) -> (r: Vec<u8>)
    requires
        start <= end <= s@.len(),
    ensures
        r@ == s@.subrange(start as int, end as int),
{
    let mut bytes: Vec<u8> = Vec::with_capacity(end - start);
    let mut i: usize = start;
    while i < end
        invariant
            start <= i <= end <= s@.len(),
            bytes@ == s@.subrange(start as int, i as int),
        decreases end - i,
    {
        bytes.push(s[i]);
        i = i + 1;
    }
    bytes
}

/// How far a volume extends.
#[derive(Debug)]
pub enum Size<S: SectorSize> {
    Unbounded,
    Bounded(Address<S>),
}

impl<S: SectorSize> Clone for Size<S> {
    fn clone(&self) -> (r: Self)
        ensures
            r == *self,
    {
        match self {
            Size::Unbounded => Size::Unbounded,
            Size::Bounded(n) => Size::Bounded(*n),
        }
    }
}

impl<S: SectorSize> Copy for Size<S> {
}

impl<S: SectorSize> Size<S> {
    /// Whether a range ending at byte index `end` lies inside the volume.
    pub open spec fn covers(self, end: int) -> bool {
        match self {
            Size::Unbounded => true,
            Size::Bounded(n) => end <= n.index(),
        }
    }

    pub fn try_len(&self) -> (r: Option<Address<S>>)
        ensures
            r == (match *self {
                Size::Unbounded => None,
                Size::Bounded(n) => Some(n),
            }),
    {
        match self {
            Size::Unbounded => None,
            Size::Bounded(n) => Some(*n),
        }
    }

    /// The length of a bounded volume.
    pub fn len(&self) -> (r: Address<S>)
        requires
            self is Bounded,
        ensures
            Size::Bounded(r) == *self,
    {
        match self {
            Size::Bounded(n) => *n,
            Size::Unbounded => {
                proof {
                    assert(false);
                }
                Address::new(0, 0)
            },
        }
    }

    pub fn is_bounded(&self) -> (r: bool)
        ensures
            r == (*self is Bounded),
    {
        match self {
            Size::Unbounded => false,
            Size::Bounded(_) => true,
        }
    }

    /// Whether a range ending at `end` lies inside the volume: an unbounded
    /// volume covers every address.
    pub fn covers_end(&self, end: &Address<S>) -> (r: bool)
        ensures
            r == self.covers(end.index()),
    {
        match self {
            Size::Unbounded => true,
            Size::Bounded(n) => end.into_index() <= n.into_index(),
        }
    }
}

/// How two volume sizes compare: an unbounded volume is larger than any
/// bounded one, two bounded ones compare by their lengths, and two unbounded
/// ones do not compare.
pub open spec fn size_cmp<S: SectorSize>(a: Size<S>, b: Size<S>) -> Option<core::cmp::Ordering> {
    match (a, b) {
        (Size::Unbounded, Size::Unbounded) => None,
        (Size::Unbounded, _) => Some(core::cmp::Ordering::Greater),
        (_, Size::Unbounded) => Some(core::cmp::Ordering::Less),
        (Size::Bounded(x), Size::Bounded(y)) => if x.index() < y.index() {
            Some(core::cmp::Ordering::Less)
        } else if x.index() == y.index() {
            Some(core::cmp::Ordering::Equal)
        } else {
            Some(core::cmp::Ordering::Greater)
        },
    }
}

impl<S: SectorSize> PartialEq for Size<S> {
    fn eq(&self, other: &Size<S>) -> (r: bool) {
        match (self, other) {
            (Size::Bounded(x), Size::Bounded(y)) => x.into_index() == y.into_index(),
            _ => false,
        }
    }
}

impl<S: SectorSize> vstd::std_specs::cmp::PartialEqSpecImpl for Size<S> {
    open spec fn obeys_eq_spec() -> bool {
        true
    }

    /// Two bounded sizes of the same length are equal; an unbounded size
    /// equals nothing.
    open spec fn eq_spec(&self, other: &Size<S>) -> bool {
        size_cmp(*self, *other) == Some(core::cmp::Ordering::Equal)
    }
}

impl<S: SectorSize> PartialOrd for Size<S> {
    fn partial_cmp(&self, other: &Size<S>) -> (r: Option<core::cmp::Ordering>) {
        match (self, other) {
            (Size::Unbounded, Size::Unbounded) => None,
            (Size::Unbounded, _) => Some(core::cmp::Ordering::Greater),
            (_, Size::Unbounded) => Some(core::cmp::Ordering::Less),
            (Size::Bounded(x), Size::Bounded(y)) => {
                let a = x.into_index();
                let b = y.into_index();
                if a < b {
                    Some(core::cmp::Ordering::Less)
                } else if a == b {
                    Some(core::cmp::Ordering::Equal)
                } else {
                    Some(core::cmp::Ordering::Greater)
                }
            },
        }
    }
}

impl<S: SectorSize> vstd::std_specs::cmp::PartialOrdSpecImpl for Size<S> {
    open spec fn obeys_partial_cmp_spec() -> bool {
        true
    }

    open spec fn partial_cmp_spec(&self, other: &Size<S>) -> Option<core::cmp::Ordering> {
        size_cmp(*self, *other)
    }
}

/// The contents of `s` with `data` written at byte index `at`.
pub open spec fn splice(s: Seq<u8>, at: int, data: Seq<u8>) -> Seq<u8> {
    s.subrange(0, at) + data + s.subrange(at + data.len(), s.len() as int)
}

/// Whether an error is one that storage reports.
pub open spec fn is_storage_error(e: Error) -> bool {
    e is Other || e is OutOfBounds || e is AddressOutOfBounds
}

/// Whether the bytes up to index `end` can be read from `v`: they lie inside
/// its size and its contents.
pub open spec fn readable<S: SectorSize, V: Volume<S>>(v: &V, end: int) -> bool {
    v.spec_size().covers(end) && end <= v.contents().len()
}

/// A byte store addressed in sectors of size `S`.
pub trait Volume<S: SectorSize>: Sized {
    /// The bytes the volume holds, from index 0.
    spec fn contents(&self) -> Seq<u8>;

    spec fn spec_size(&self) -> Size<S>;

    /// Reads inside the volume always succeed (as they do in memory).
    spec fn reliable(&self) -> bool;

    fn size(&self) -> (r: Size<S>)
        ensures
            r == self.spec_size(),
    ;

    /// Writes a changed view back; `None` writes nothing.
    fn commit(&mut self, slice: Option<VolumeCommit<S>>) -> (r: Result<(), Error>)
        ensures
            slice is None ==> r is Ok && final(self).contents() == old(self).contents(),
            r matches Err(e) ==> is_storage_error(e),
            old(self).reliable() && slice is Some && slice->0.spec_address().index() + slice->0@.len()
                <= old(self).contents().len() ==> r is Ok,
            (r is Ok && slice is Some && slice->0.spec_address().index() + slice->0@.len()
                <= old(self).contents().len()) ==> final(self).contents() == splice(
                old(self).contents(),
                slice->0.spec_address().index(),
                slice->0@,
            ),
    ;

    /// A view of the bytes in `range`. A range that ends past the volume's
    /// size is refused with `AddressOutOfBounds`, naming the end.
    fn slice(&self, range: Range<Address<S>>) -> (r: Result<VolumeSlice<S>, Error>)
        requires
            range.start.index() <= range.end.index(),
        ensures
            match r {
                Ok(s) => {
                    &&& range.end.index() <= self.contents().len()
                    &&& s@ == self.contents().subrange(range.start.index(), range.end.index())
                    &&& s.spec_address() == range.start
                    &&& !s.spec_mutated()
                },
                Err(e) => {
                    &&& is_storage_error(e)
                    &&& !self.spec_size().covers(range.end.index()) ==> e == (
                    Error::AddressOutOfBounds {
                        sector: range.end.spec_sector(),
                        offset: range.end.spec_offset(),
                        size: spec_size::<S>() as usize,
                    })
                },
            },
            !self.spec_size().covers(range.end.index()) ==> r is Err,
            self.reliable() && self.spec_size().covers(range.end.index()) && range.end.index()
                <= self.contents().len() ==> r is Ok,
    ;
}

/// A copy of a range of a volume, with the address it starts at. Changing it
/// marks it as mutated; only a mutated view has anything to commit.
#[derive(Debug)]
pub struct VolumeSlice<S: SectorSize> {
    inner: Vec<u8>,
    index: Address<S>,
    mutated: bool,
}

impl<S: SectorSize> View for VolumeSlice<S> {
    type V = Seq<u8>;

    closed spec fn view(&self) -> Seq<u8> {
        self.inner@
    }
}

impl<S: SectorSize> VolumeSlice<S> {
    pub closed spec fn spec_address(&self) -> Address<S> {
        self.index
    }

    pub closed spec fn spec_mutated(&self) -> bool {
        self.mutated
    }

    /// A view of `inner` at address 0.
    pub fn with_static(inner: &[u8]) -> (r: VolumeSlice<S>)
        ensures
            r@ == inner@,
            r.spec_address().index() == 0,
            !r.spec_mutated(),
    {
        proof {
            lemma_sector_size::<S>();
        }
        VolumeSlice { inner: copy_range(inner, 0, inner.len()), index: Address::new(0, 0), mutated: false }
    }

    /// A view that owns bytes of its own, which counts as mutated.
    pub fn new_owned(inner: Vec<u8>, index: Address<S>) -> (r: VolumeSlice<S>)
        ensures
            r@ == inner@,
            r.spec_address() == index,
            r.spec_mutated(),
    {
        VolumeSlice { inner, index, mutated: true }
    }

    /// An unchanged copy of `inner`, starting at `index`.
    pub fn new(inner: &[u8], index: Address<S>) -> (r: VolumeSlice<S>)
        ensures
            r@ == inner@,
            r.spec_address() == index,
            !r.spec_mutated(),
    {
        VolumeSlice { inner: copy_range(inner, 0, inner.len()), index, mutated: false }
    }

    pub fn is_mutated(&self) -> (r: bool)
        ensures
            r == self.spec_mutated(),
    {
        self.mutated
    }

    pub fn address(&self) -> (r: Address<S>)
        ensures
            r == self.spec_address(),
    {
        self.index
    }

    pub fn as_slice(&self) -> (r: &[u8])
        ensures
            r@ == self@,
    {
        self.inner.as_slice()
    }

    pub fn len(&self) -> (r: usize)
        ensures
            r == self@.len(),
    {
        self.inner.len()
    }

    /// Sets byte `i` of the view to `value`, which marks it as mutated.
    pub fn set(&mut self, i: usize, value: u8)
        requires
            i < old(self)@.len(),
        ensures
            final(self)@ == old(self)@.update(i as int, value),
            final(self).spec_address() == old(self).spec_address(),
            final(self).spec_mutated(),
    {
        self.inner.set(i, value);
        self.mutated = true;
    }

    /// What writing the view back takes: its bytes and address if it was
    /// mutated, nothing otherwise.
    pub fn commit(self) -> (r: Option<VolumeCommit<S>>)
        ensures
            self.spec_mutated() <==> r is Some,
            r matches Some(c) ==> c@ == self@ && c.spec_address() == self.spec_address(),
    {
        if self.mutated {
            Some(VolumeCommit::new(self.inner, self.index))
        } else {
            None
        }
    }
}

/// Bytes to write back to a volume at an address.
#[derive(Debug)]
pub struct VolumeCommit<S: SectorSize> {
    inner: Vec<u8>,
    index: Address<S>,
}

impl<S: SectorSize> View for VolumeCommit<S> {
    type V = Seq<u8>;

    closed spec fn view(&self) -> Seq<u8> {
        self.inner@
    }
}

impl<S: SectorSize> VolumeCommit<S> {
    pub closed spec fn spec_address(&self) -> Address<S> {
        self.index
    }

    /// Bytes to write at address 0.
    pub fn with_vec(inner: Vec<u8>) -> (r: VolumeCommit<S>)
        ensures
            r@ == inner@,
            r.spec_address().index() == 0,
    {
        proof {
            lemma_sector_size::<S>();
        }
        VolumeCommit { inner, index: Address::new(0, 0) }
    }

    pub fn new(inner: Vec<u8>, index: Address<S>) -> (r: VolumeCommit<S>)
        ensures
            r@ == inner@,
            r.spec_address() == index,
    {
        VolumeCommit { inner, index }
    }

    pub fn into_inner(self) -> (r: Vec<u8>)
        ensures
            r@ == self@,
    {
        self.inner
    }

    pub fn address(&self) -> (r: Address<S>)
        ensures
            r == self.spec_address(),
    {
        self.index
    }

    pub fn as_slice(&self) -> (r: &[u8])
        ensures
            r@ == self@,
    {
        self.inner.as_slice()
    }
}

/// An in-memory volume: views are copies of the vector's bytes, commits copy
/// back into it.
impl<S: SectorSize> Volume<S> for Vec<u8> {
    open spec fn contents(&self) -> Seq<u8> {
        self@
    }

    open spec fn spec_size(&self) -> Size<S> {
        Size::Bounded(address_of_u64::<S>(self@.len() as u64))
    }

    open spec fn reliable(&self) -> bool {
        true
    }

    fn size(&self) -> (r: Size<S>) {
        Size::Bounded(Address::from(self.len() as u64))
    }

    fn commit(&mut self, slice: Option<VolumeCommit<S>>) -> (r: Result<(), Error>) {
        match slice {
            None => Ok(()),
            Some(c) => {
                let start = c.address().into_index();
                let data = c.as_slice();
                if start > self.len() as u64 || data.len() > self.len() - start as usize {
                    return Err(Error::OutOfBounds { index: self.len() });
                }
                let start = start as usize;
                let ghost before = self@;
                let n: usize = self.len();
                let mut i: usize = 0;
                while i < data.len()
                    invariant
                        start + data@.len() <= self@.len(),
                        self@.len() == before.len(),
                        n == before.len(),
                        0 <= i <= data@.len(),
                        forall|j: int| 0 <= j < start ==> self@[j] == before[j],
                        forall|j: int| start + data@.len() <= j < self@.len() ==> self@[j] == before[j],
                        forall|j: int| 0 <= j < i ==> self@[start + j] == data@[j],
                    decreases data@.len() - i,
                {
                    self.set(start + i, data[i]);
                    i = i + 1;
                }
                assert(self@ =~= splice(before, start as int, data@));
                Ok(())
            },
        }
    }

    fn slice(&self, range: Range<Address<S>>) -> (r: Result<VolumeSlice<S>, Error>) {
        let size: Size<S> = self.size();
        let end = range.end.into_index();
        if !size.covers_end(&range.end) || end > self.len() as u64 {
            return Err(Error::AddressOutOfBounds {
                sector: range.end.sector(),
                offset: range.end.offset(),
                size: range.end.sector_size(),
            });
        }
        let start = range.start.into_index() as usize;
        let bytes = copy_range(self.as_slice(), start, end as usize);
        Ok(VolumeSlice { inner: bytes, index: range.start, mutated: false })
    }
}

/// Reads `len` bytes at `start`. The end must be addressable
/// (`OutOfBounds` names it otherwise) and inside the volume
/// (`AddressOutOfBounds` otherwise).
pub fn slice_at<S: SectorSize, V: Volume<S>>(volume: &V, start: Address<S>, len: u64) -> (r: Result<VolumeSlice<S>, Error>)
    requires
        start.wf(),
        len <= 0x1_0000_0000_0000,
    ensures
        r matches Ok(s) ==> {
            &&& addressable::<S>(start.index() + len)
            &&& readable(volume, start.index() + len)
            &&& s@ == volume.contents().subrange(start.index(), start.index() + len)
        },
        r matches Err(e) ==> is_storage_error(e),
        !addressable::<S>(start.index() + len) ==> r matches Err(Error::OutOfBounds { .. }),
        addressable::<S>(start.index() + len) && !volume.spec_size().covers(start.index() + len)
            ==> r matches Err(Error::AddressOutOfBounds { .. }),
        volume.reliable() && addressable::<S>(start.index() + len) && readable(volume, start.index() + len) ==> r is Ok,
{
    proof {
        lemma_sector_size::<S>();
        start.lemma_index();
    }
    let end_index: u64 = start.into_index() + len;
    let span: u64 = 0x1_0000_0000u64 * start.sector_size() as u64;
    if end_index >= span {
        return Err(Error::OutOfBounds { index: #[verifier::truncate] (end_index as usize) });
    }
    let end: Address<S> = Address::from(end_index);
    proof {
        vstd::arithmetic::div_mod::lemma_small_mod(end_index as nat, span as nat);
        Address::<S>::lemma_at_index(end_index as int);
    }
    volume.slice(start..end)
}

} // verus!
