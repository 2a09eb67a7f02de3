use crate::codec::{decode_le, encode_le, le_bytes, le_value, lemma_le_bytes_len, lemma_le_round_trip, pow256};
use crate::error::GuestError;
use crate::memory::{access_outcome, overwrite, table_outcome, GuestMemory};
use crate::region::{region_end, Region};
use vstd::prelude::*;

verus! {

/// Width of a fixed-size integer in guest memory; each is aligned to its width.
#[derive(Debug, Clone, Copy, PartialEq, Eq, Structural)]
pub enum IntRepr {
    U8,
    U16,
    U32,
    U64,
}

impl IntRepr {
    pub open spec fn spec_size(self) -> nat {
        match self {
            IntRepr::U8 => 1,
            IntRepr::U16 => 2,
            IntRepr::U32 => 4,
            IntRepr::U64 => 8,
        }
    }

    /// Size in bytes, which is also the alignment.
    pub fn size(&self) -> (r: u32)
        ensures
            r == self.spec_size(),
    {
        match self {
            IntRepr::U8 => 1,
            IntRepr::U16 => 2,
            IntRepr::U32 => 4,
            IntRepr::U64 => 8,
        }
    }
}

/// A fixed-layout type that a guest pointer may point at.
#[derive(Debug, Clone, Copy, PartialEq, Eq)]
pub enum GuestType {
    /// An integer of the given width.
    Int(IntRepr),
    /// An enumeration stored as a tag below the variant count.
    Enum { repr: IntRepr, variants: u64, name: &'static str },
    /// A set of flags stored as bits, each within the declared mask.
    Flags { repr: IntRepr, mask: u64, name: &'static str },
}

impl GuestType {
    pub open spec fn repr(self) -> IntRepr {
        match self {
            GuestType::Int(r) => r,
            GuestType::Enum { repr, .. } => repr,
            GuestType::Flags { repr, .. } => repr,
        }
    }

    pub open spec fn spec_size(self) -> nat {
        self.repr().spec_size()
    }

    pub fn size(&self) -> (r: u32)
        ensures
            r == self.spec_size(),
    {
        match self {
            GuestType::Int(r) => r.size(),
            GuestType::Enum { repr, .. } => repr.size(),
            GuestType::Flags { repr, .. } => repr.size(),
        }
    }
}

/// The value that the bytes `b` stand for as a `ty`, or why they stand for none.
pub open spec fn decode_value(ty: GuestType, b: Seq<u8>) -> Result<u64, GuestError> {
    let v = le_value(b);
    match ty {
        GuestType::Int(_) => Ok(v as u64),
        GuestType::Enum { variants, name, .. } => if v < variants {
            Ok(v as u64)
        } else {
            Err(GuestError::InvalidEnumValue(name))
        },
        GuestType::Flags { mask, name, .. } => if (v as u64) & !mask == 0 {
            Ok(v as u64)
        } else {
            Err(GuestError::InvalidFlagValue(name))
        },
    }
}

/// `v` is a value of `ty`: it fits the width and, for enums and flags, is declared.
pub open spec fn valid_value(ty: GuestType, v: u64) -> bool {
    &&& (v as nat) < pow256(ty.spec_size())
    &&& match ty {
        GuestType::Int(_) => true,
        GuestType::Enum { variants, .. } => v < variants,
        GuestType::Flags { mask, .. } => v & !mask == 0,
    }
}

/// The bytes that encode `v` as a `ty`.
pub open spec fn encode_value(ty: GuestType, v: u64) -> Seq<u8> {
    le_bytes(v as nat, ty.spec_size())
}

/// A typed address in guest memory.
#[derive(Debug, Clone, Copy, PartialEq, Eq)]
pub struct GuestPtr {
    pub offset: u32,
    pub ty: GuestType,
}

/// The region that `p` covers.
pub open spec fn ptr_region(p: GuestPtr) -> Region {
    Region { start: p.offset, len: p.ty.spec_size() as u32 }
}

pub open spec fn ptr_overflows(p: GuestPtr) -> bool {
    p.offset as int + p.ty.spec_size() > u32::MAX
}

/// What reading through `p` yields on `mem`.
pub open spec fn spec_read(mem: GuestMemory, p: GuestPtr) -> Result<u64, GuestError> {
    if ptr_overflows(p) {
        Err(GuestError::PtrOverflow)
    } else {
        match access_outcome(mem, ptr_region(p), p.ty.spec_size() as u32, false) {
            Err(e) => Err(e),
            Ok(_) => decode_value(
                p.ty,
                mem.bytes().subrange(p.offset as int, region_end(ptr_region(p))),
            ),
        }
    }
}

/// Whether writing through `p` on `mem` gets its exclusive borrow, or why not.
pub open spec fn spec_write_outcome(mem: GuestMemory, p: GuestPtr) -> Result<(), GuestError> {
    if ptr_overflows(p) {
        Err(GuestError::PtrOverflow)
    } else {
        access_outcome(mem, ptr_region(p), p.ty.spec_size() as u32, true)
    }
}

/// After a scoped access the borrow table holds what it held before; one
/// handle was used up if the borrow was `granted`.
pub open spec fn scoped(before: GuestMemory, after: GuestMemory, granted: bool) -> bool {
    &&& after.wf()
    &&& after.live() == before.live()
    &&& after.cap() == before.cap()
    &&& after.next_handle() == before.next_handle() + if granted {
        1nat
    } else {
        0nat
    }
}

/// An access through `p` gets its borrow on `mem`.
pub open spec fn ptr_granted(mem: GuestMemory, p: GuestPtr, exclusive: bool) -> bool {
    !ptr_overflows(p) && access_outcome(mem, ptr_region(p), p.ty.spec_size() as u32, exclusive) is Ok
}

/// Decoding the encoding of a value of `ty` gives the value back.
pub proof fn lemma_decode_encode(ty: GuestType, v: u64)
    requires
        valid_value(ty, v),
    ensures
        decode_value(ty, encode_value(ty, v)) == Ok::<u64, GuestError>(v),
{
    lemma_le_round_trip(v as nat, ty.spec_size());
}

/// Reading at an offset that is not a multiple of the type's alignment fails
/// with the alignment error whatever the bytes hold, once the region is valid.
pub proof fn lemma_misaligned_read_fails(mem: GuestMemory, p: GuestPtr)
    requires
        !ptr_overflows(p),
        region_end(ptr_region(p)) <= mem.bytes().len(),
        p.offset % (p.ty.spec_size() as u32) != 0,
    ensures
        spec_read(mem, p) == Err::<u64, GuestError>(
            GuestError::PtrNotAligned(ptr_region(p), p.ty.spec_size() as u32),
        ),
{
}

/// A successful write of a valid value, with the borrow table as it was
/// and a fresh handle still to hand out, reads back as that value.
pub proof fn lemma_write_then_read(before: GuestMemory, after: GuestMemory, p: GuestPtr, v: u64)
    requires
        before.wf(),
        valid_value(p.ty, v),
        spec_write_outcome(before, p) is Ok,
        after.bytes() == overwrite(before.bytes(), p.offset as int, encode_value(p.ty, v)),
        after.live() == before.live(),
        after.cap() == before.cap(),
        after.next_handle() < u64::MAX,
    ensures
        spec_read(after, p) == Ok::<u64, GuestError>(v),
{
    let r = ptr_region(p);
    let s = before.live();
    let n = p.ty.spec_size();
    if exists|i: int| crate::borrow::first_conflict(s, i, r, false) {
        let i = choose|i: int| crate::borrow::first_conflict(s, i, r, false);
        if !exists|j: int| crate::borrow::first_conflict(s, j, r, true) {
            assert(!crate::borrow::no_conflict_before(s, s.len() as int, r, true)) by {
                assert(crate::borrow::conflicts(s[i], r, true));
            }
            lemma_some_first_conflict(s, r, true, s.len() as int);
        }
    }
    assert(table_outcome(s, after.cap(), after.next_handle(), r, false) is Ok);
    lemma_le_bytes_len(v as nat, n);
    assert(after.bytes().subrange(p.offset as int, region_end(r)) =~= encode_value(p.ty, v));
    lemma_decode_encode(p.ty, v);
}

/// Where some of the first `k` entries conflict, one of them is the first conflict.
pub proof fn lemma_some_first_conflict(s: Seq<crate::borrow::Entry>, r: Region, exclusive: bool, k: int)
    requires
        0 <= k <= s.len(),
        !crate::borrow::no_conflict_before(s, k, r, exclusive),
    ensures
        exists|i: int| crate::borrow::first_conflict(s, i, r, exclusive),
    decreases k,
{
    if crate::borrow::no_conflict_before(s, k - 1, r, exclusive) {
        assert(crate::borrow::first_conflict(s, k - 1, r, exclusive));
    } else {
        lemma_some_first_conflict(s, r, exclusive, k - 1);
    }
}

impl GuestPtr {
    pub fn new(offset: u32, ty: GuestType) -> (r: GuestPtr)
        ensures
            r.offset == offset,
            r.ty == ty,
    {
        GuestPtr { offset, ty }
    }

    /// Decodes the value at this pointer under a shared borrow that is
    /// released before returning.
    pub fn read(&self, mem: &mut GuestMemory) -> (r: Result<u64, GuestError>)
        requires
            old(mem).wf(),
        ensures
            scoped(*old(mem), *final(mem), ptr_granted(*old(mem), *self, false)),
            final(mem).bytes() == old(mem).bytes(),
            r == spec_read(*old(mem), *self),
    {
        let size = self.ty.size();
        let region = match Region::checked_new(self.offset, size) {
            Some(g) => g,
            None => { return Err(GuestError::PtrOverflow); },
        };
        let bytes = match scoped_read(mem, region, size) {
            Ok(b) => b,
            Err(e) => { return Err(e); },
        };
        let v = decode_le(&bytes, 0, size as usize);
        proof {
            assert(bytes@.subrange(0, size as int) =~= bytes@);
        }
        match self.ty {
            GuestType::Int(_) => Ok(v),
            GuestType::Enum { variants, name, .. } => if v < variants {
                Ok(v)
            } else {
                Err(GuestError::InvalidEnumValue(name))
            },
            GuestType::Flags { mask, name, .. } => if v & !mask == 0 {
                Ok(v)
            } else {
                Err(GuestError::InvalidFlagValue(name))
            },
        }
    }

    /// Encodes `v` at this pointer under an exclusive borrow that is released
    /// before returning.
    pub fn write(&self, mem: &mut GuestMemory, v: u64) -> (r: Result<(), GuestError>)
        requires
            old(mem).wf(),
            valid_value(self.ty, v),
        ensures
            scoped(*old(mem), *final(mem), ptr_granted(*old(mem), *self, true)),
            r == spec_write_outcome(*old(mem), *self),
            r is Ok ==> final(mem).bytes() == overwrite(
                old(mem).bytes(),
                self.offset as int,
                encode_value(self.ty, v),
            ),
            r is Err ==> final(mem).bytes() == old(mem).bytes(),
    {
        let size = self.ty.size();
        let region = match Region::checked_new(self.offset, size) {
            Some(g) => g,
            None => { return Err(GuestError::PtrOverflow); },
        };
        let data = encode_le(v, size as usize);
        proof {
            lemma_le_bytes_len(v as nat, size as nat);
            assert(region == ptr_region(*self));
        }
        let r = scoped_write(mem, region, size, &data);
        match r {
            Ok(()) => Ok(()),
            Err(e) => Err(e),
        }
    }
}

/// Copies the bytes of `region` under a shared borrow aligned to `align`,
/// released before returning.
pub fn scoped_read(mem: &mut GuestMemory, region: Region, align: u32) -> (r: Result<Vec<u8>, GuestError>)
    requires
        old(mem).wf(),
        align > 0,
    ensures
        scoped(*old(mem), *final(mem), access_outcome(*old(mem), region, align, false) is Ok),
        final(mem).bytes() == old(mem).bytes(),
        match access_outcome(*old(mem), region, align, false) {
            Err(e) => r == Err::<Vec<u8>, GuestError>(e),
            Ok(_) => r matches Ok(b) && b@ == old(mem).bytes().subrange(
                region.start as int,
                region_end(region),
            ),
        },
{
    let ghost s = mem.live();
    let h = match mem.borrow(region, align, false) {
        Ok(h) => h,
        Err(e) => { return Err(e); },
    };
    proof {
        assert(mem.live()[s.len() as int].handle == h.0);
    }
    let got = mem.read(h);
    proof {
        if got is Ok {
            let t = mem.live();
            let i = choose|i: int|
                0 <= i < t.len() && #[trigger] t[i].handle == h.0 && got->Ok_0@ == mem.bytes().subrange(
                    t[i].region.start as int,
                    region_end(t[i].region),
                );
            if i != s.len() {
                assert(t[i].handle != t[s.len() as int].handle);
            }
        }
    }
    let rel = mem.release(h);
    proof {
        let t = s.push(crate::borrow::Entry { handle: h.0, region, exclusive: false });
        let i = choose|i: int| 0 <= i < t.len() && #[trigger] t[i].handle == h.0 && mem.live() == t.remove(i);
        if i != s.len() {
            assert(t[i].handle != t[s.len() as int].handle);
        }
        assert(t.remove(s.len() as int) =~= s);
    }
    match (got, rel) {
        (Ok(b), Ok(())) => Ok(b),
        _ => Err(GuestError::PtrOverflow),
    }
}

/// Writes `data` over `region` under an exclusive borrow aligned to `align`,
/// released before returning.
pub fn scoped_write(mem: &mut GuestMemory, region: Region, align: u32, data: &Vec<u8>) -> (r: Result<(), GuestError>)
    requires
        old(mem).wf(),
        align > 0,
        data@.len() == region.len,
    ensures
        scoped(*old(mem), *final(mem), access_outcome(*old(mem), region, align, true) is Ok),
        match access_outcome(*old(mem), region, align, true) {
            Err(e) => r == Err::<(), GuestError>(e) && final(mem).bytes() == old(mem).bytes(),
            Ok(_) => r is Ok && final(mem).bytes() == overwrite(old(mem).bytes(), region.start as int, data@),
        },
{
    let ghost s = mem.live();
    let ghost b0 = mem.bytes();
    let h = match mem.borrow(region, align, true) {
        Ok(h) => h,
        Err(e) => { return Err(e); },
    };
    proof {
        assert(mem.live()[s.len() as int].handle == h.0);
        let t = mem.live();
        assert forall|i: int| 0 <= i < t.len() && #[trigger] t[i].handle == h.0 implies i == s.len() by {
            if i != s.len() {
                assert(t[i].handle != t[s.len() as int].handle);
            }
        }
    }
    let wrote = mem.write(h, data);
    let rel = mem.release(h);
    proof {
        let t = s.push(crate::borrow::Entry { handle: h.0, region, exclusive: true });
        let i = choose|i: int| 0 <= i < t.len() && #[trigger] t[i].handle == h.0 && mem.live() == t.remove(i);
        if i != s.len() {
            assert(t[i].handle != t[s.len() as int].handle);
        }
        assert(t.remove(s.len() as int) =~= s);
    }
    match (wrote, rel) {
        (Ok(()), Ok(())) => Ok(()),
        _ => Err(GuestError::PtrOverflow),
    }
}

} // verus!
