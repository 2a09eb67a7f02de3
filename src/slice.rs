use crate::borrow::{BorrowHandle, Entry};
use crate::codec::{decode_le, le_value};
use crate::error::GuestError;
use crate::memory::{access_outcome, GuestMemory};
use crate::ptr::{scoped, scoped_read, IntRepr};
use crate::region::{region_end, Region};
use crate::text::{text_from_utf8, utf8_decoding};
use vstd::prelude::*;

verus! {

/// What reading the `len` bytes at `offset` as text yields on `mem`.
pub open spec fn spec_read_str(mem: GuestMemory, offset: u32, len: u32) -> Result<Seq<char>, GuestError> {
    let region = Region { start: offset, len };
    if offset as int + len as int > u32::MAX {
        Err(GuestError::PtrOverflow)
    } else {
        match access_outcome(mem, region, 1, false) {
            Err(e) => Err(e),
            Ok(_) => match utf8_decoding(mem.bytes().subrange(offset as int, region_end(region))) {
                None => Err(GuestError::InvalidUtf8),
                Some(t) => Ok(t),
            },
        }
    }
}

/// The region that `count` elements of `repr` at `offset` cover, unless its
/// size or its end does not fit the address space.
pub open spec fn array_region(offset: u32, count: u32, repr: IntRepr) -> Option<Region> {
    let n = count as int * repr.spec_size();
    if n > u32::MAX || offset as int + n > u32::MAX {
        None
    } else {
        Some(Region { start: offset, len: n as u32 })
    }
}

/// Element `i` of the array of `repr` that starts at `start` of `bytes`.
pub open spec fn array_element(bytes: Seq<u8>, start: int, repr: IntRepr, i: int) -> nat {
    let w = repr.spec_size() as int;
    le_value(bytes.subrange(start + i * w, start + (i + 1) * w))
}

/// Text that is not well-formed UTF-8 is refused with the UTF-8 error once
/// the region is valid and can be borrowed; nothing of it is returned.
pub proof fn lemma_malformed_text_refused(mem: GuestMemory, offset: u32, len: u32)
    requires
        offset as int + len as int <= u32::MAX,
        access_outcome(mem, Region { start: offset, len }, 1, false) is Ok,
        utf8_decoding(mem.bytes().subrange(offset as int, offset + len)) is None,
    ensures
        spec_read_str(mem, offset, len) == Err::<Seq<char>, GuestError>(GuestError::InvalidUtf8),
{
}

fn array_region_exec(offset: u32, count: u32, repr: IntRepr) -> (r: Option<Region>)
    ensures
        r == array_region(offset, count, repr),
{
    let n: u64 = count as u64 * repr.size() as u64;
    if n > u32::MAX as u64 || offset as u64 + n > u32::MAX as u64 {
        None
    } else {
        Some(Region { start: offset, len: n as u32 })
    }
}

/// Decodes `len` bytes at `offset` as UTF-8 text under a shared borrow that
/// is released before returning; ill-formed text is rejected, never repaired.
pub fn read_str(mem: &mut GuestMemory, offset: u32, len: u32) -> (r: Result<String, GuestError>)
    requires
        old(mem).wf(),
    ensures
        scoped(
            *old(mem),
            *final(mem),
            offset as int + len as int <= u32::MAX && access_outcome(*old(mem), Region { start: offset, len }, 1, false) is Ok,
        ),
        final(mem).bytes() == old(mem).bytes(),
        match spec_read_str(*old(mem), offset, len) {
            Ok(t) => r matches Ok(s) && s@ == t,
            Err(e) => r == Err::<String, GuestError>(e),
        },
{
    let region = match Region::checked_new(offset, len) {
        Some(g) => g,
        None => { return Err(GuestError::PtrOverflow); },
    };
    let bytes = match scoped_read(mem, region, 1) {
        Ok(b) => b,
        Err(e) => { return Err(e); },
    };
    match text_from_utf8(bytes) {
        Some(s) => Ok(s),
        None => Err(GuestError::InvalidUtf8),
    }
}

/// Decodes `count` integers of `repr` at `offset` under a shared borrow that
/// is released before returning. The count comes from the guest; its byte
/// size must not overflow.
pub fn read_array(mem: &mut GuestMemory, offset: u32, count: u32, repr: IntRepr) -> (r: Result<Vec<u64>, GuestError>)
    requires
        old(mem).wf(),
    ensures
        scoped(
            *old(mem),
            *final(mem),
            array_region(offset, count, repr) matches Some(g) && access_outcome(*old(mem), g, repr.spec_size() as u32, false) is Ok,
        ),
        final(mem).bytes() == old(mem).bytes(),
        match array_region(offset, count, repr) {
            None => r == Err::<Vec<u64>, GuestError>(GuestError::PtrOverflow),
            Some(region) => match access_outcome(*old(mem), region, repr.spec_size() as u32, false) {
                Err(e) => r == Err::<Vec<u64>, GuestError>(e),
                Ok(_) => r matches Ok(v) && v@.len() == count && forall|i: int|
                    0 <= i < count ==> #[trigger] v@[i] == array_element(
                        old(mem).bytes(),
                        offset as int,
                        repr,
                        i,
                    ),
            },
        },
{
    let region = match array_region_exec(offset, count, repr) {
        Some(g) => g,
        None => { return Err(GuestError::PtrOverflow); },
    };
    let w = repr.size();
    let bytes = match scoped_read(mem, region, w) {
        Ok(b) => b,
        Err(e) => { return Err(e); },
    };
    let ghost m = mem.bytes();
    let mut out: Vec<u64> = Vec::new();
    let mut i: u32 = 0;
    while i < count
        invariant
            i <= count,
            1 <= w <= 8,
            w == repr.spec_size(),
            region.len == count as int * w,
            region.start == offset,
            region_end(region) <= m.len(),
            bytes@ == m.subrange(offset as int, region_end(region)),
            out@.len() == i,
            forall|k: int| 0 <= k < i ==> #[trigger] out@[k] == array_element(m, offset as int, repr, k),
        decreases count - i,
    {
        proof {
            assert((i as int + 1) * w <= count as int * w) by (nonlinear_arith)
                requires
                    i < count,
                    w >= 1,
            ;
            assert((i as int + 1) * w == i as int * w + w) by (nonlinear_arith);
        }
        let start: usize = i as usize * w as usize;
        let v = decode_le(&bytes, start, w as usize);
        proof {
            assert(bytes@.subrange(start as int, start + w) =~= m.subrange(
                offset + i * w,
                offset + (i + 1) * w,
            ));
        }
        out.push(v);
        i = i + 1;
    }
    Ok(out)
}

/// Takes an exclusive borrow of `count` integers of `repr` at `offset` that
/// stays live until the caller releases it, for a mutable view that spans a
/// whole host call.
pub fn borrow_array_mut(mem: &mut GuestMemory, offset: u32, count: u32, repr: IntRepr) -> (r: Result<BorrowHandle, GuestError>)
    requires
        old(mem).wf(),
    ensures
        final(mem).wf(),
        final(mem).bytes() == old(mem).bytes(),
        final(mem).cap() == old(mem).cap(),
        match array_region(offset, count, repr) {
            None => r == Err::<BorrowHandle, GuestError>(GuestError::PtrOverflow) && *final(mem) == *old(mem),
            Some(region) => match access_outcome(*old(mem), region, repr.spec_size() as u32, true) {
                Err(e) => r == Err::<BorrowHandle, GuestError>(e) && *final(mem) == *old(mem),
                Ok(_) => r matches Ok(h) && h.0 == old(mem).next_handle() && final(mem).live()
                    == old(mem).live().push((Entry { handle: h.0, region, exclusive: true }))
                    && final(mem).next_handle() == old(mem).next_handle() + 1,
            },
        },
{
    let region = match array_region_exec(offset, count, repr) {
        Some(g) => g,
        None => { return Err(GuestError::PtrOverflow); },
    };
    mem.borrow(region, repr.size(), true)
}

} // verus!
