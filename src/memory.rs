use crate::borrow::{conflicts, first_conflict, no_conflict_before, BorrowChecker, BorrowHandle, Entry};
use crate::error::{Fault, GuestError};
use crate::region::{region_end, spec_in_bounds, spec_overlaps, Region};
use vstd::prelude::*;

verus! {

/// What a borrow request yields on a table with live entries `s`, at most
/// `cap` of them, handing out `next` as its next handle: the first
/// conflicting entry's region, else exhaustion, else success.
pub open spec fn table_outcome(s: Seq<Entry>, cap: nat, next: nat, region: Region, exclusive: bool) -> Result<(), GuestError> {
    if exists|i: int| first_conflict(s, i, region, exclusive) {
        Err(GuestError::PtrBorrowed(s[choose|i: int| first_conflict(s, i, region, exclusive)].region))
    } else if s.len() >= cap || next == u64::MAX {
        Err(GuestError::BorrowCheckerOutOfHandles)
    } else {
        Ok(())
    }
}

/// What a borrow request of `region`, aligned to `align`, yields on `mem`:
/// bounds are checked first, then alignment, then the borrow table.
pub open spec fn access_outcome(mem: GuestMemory, region: Region, align: u32, exclusive: bool) -> Result<(), GuestError> {
    access_outcome_in(mem.bytes().len(), mem.live(), mem.cap(), mem.next_handle(), region, align, exclusive)
}

/// The same on a memory of `mem_len` bytes whose table holds `s`, at most
/// `cap` entries, and hands out `next` next.
pub open spec fn access_outcome_in(
    mem_len: nat,
    s: Seq<Entry>,
    cap: nat,
    next: nat,
    region: Region,
    align: u32,
    exclusive: bool,
) -> Result<(), GuestError> {
    if !spec_in_bounds(region, mem_len) {
        Err(GuestError::PtrOutOfBounds(region))
    } else if region.start % align != 0 {
        Err(GuestError::PtrNotAligned(region, align))
    } else {
        table_outcome(s, cap, next, region, exclusive)
    }
}

/// The bytes `m` with those from `start` on replaced by `data`.
pub open spec fn overwrite(m: Seq<u8>, start: int, data: Seq<u8>) -> Seq<u8> {
    Seq::new(m.len(), |i: int| if start <= i < start + data.len() { data[i - start] } else { m[i] })
}

/// At most one entry is the first conflict.
pub proof fn lemma_first_conflict_unique(s: Seq<Entry>, i: int, j: int, region: Region, exclusive: bool)
    requires
        first_conflict(s, i, region, exclusive),
        first_conflict(s, j, region, exclusive),
    ensures
        i == j,
{
    if i < j {
        assert(!crate::borrow::conflicts(s[i], region, exclusive));
    } else if j < i {
        assert(!crate::borrow::conflicts(s[j], region, exclusive));
    }
}

/// Two borrows of regions that do not overlap are both granted, whatever
/// their mutability, on a table with no live entries and room for two; and
/// when the regions overlap and either borrow is exclusive, the second is
/// refused with the first one's region.
pub proof fn lemma_pair_of_borrows(cap: nat, next: nat, a: Region, ea: bool, b: Region, eb: bool)
    requires
        cap >= 2,
        next + 1 < u64::MAX,
    ensures
        table_outcome(Seq::empty(), cap, next, a, ea) is Ok,
        !spec_overlaps(a, b) ==> table_outcome(
            seq![Entry { handle: next as u64, region: a, exclusive: ea }],
            cap,
            next + 1,
            b,
            eb,
        ) is Ok,
        spec_overlaps(a, b) && (ea || eb) ==> table_outcome(
            seq![Entry { handle: next as u64, region: a, exclusive: ea }],
            cap,
            next + 1,
            b,
            eb,
        ) == Err::<(), GuestError>(GuestError::PtrBorrowed(a)),
{
    let s = seq![Entry { handle: next as u64, region: a, exclusive: ea }];
    if spec_overlaps(a, b) && (ea || eb) {
        assert(first_conflict(s, 0, b, eb));
        let i = choose|i: int| first_conflict(s, i, b, eb);
        lemma_first_conflict_unique(s, i, 0, b, eb);
    }
    if !spec_overlaps(a, b) {
        if exists|i: int| first_conflict(s, i, b, eb) {
            let i = choose|i: int| first_conflict(s, i, b, eb);
            assert(i == 0);
        }
    }
}

/// A request that conflicts with nothing is refused with the exhaustion
/// error on a full table, and granted once one entry has been released.
pub proof fn lemma_exhaustion_recovers(s: Seq<Entry>, cap: nat, next: nat, i: int, region: Region, exclusive: bool)
    requires
        s.len() == cap,
        0 <= i < s.len(),
        next < u64::MAX,
        no_conflict_before(s, s.len() as int, region, exclusive),
    ensures
        table_outcome(s, cap, next, region, exclusive) == Err::<(), GuestError>(GuestError::BorrowCheckerOutOfHandles),
        table_outcome(s.remove(i), cap, next, region, exclusive) is Ok,
{
    if exists|j: int| first_conflict(s, j, region, exclusive) {
        let j = choose|j: int| first_conflict(s, j, region, exclusive);
        assert(!conflicts(s[j], region, exclusive));
    }
    let t = s.remove(i);
    if exists|j: int| first_conflict(t, j, region, exclusive) {
        let j = choose|j: int| first_conflict(t, j, region, exclusive);
        if j < i {
            assert(t[j] == s[j]);
        } else {
            assert(t[j] == s[j + 1]);
        }
    }
}

/// A region that ends past the end of memory is refused as out of bounds,
/// before alignment or the table are looked at.
pub proof fn lemma_past_end_refused(mem: GuestMemory, region: Region, align: u32, exclusive: bool)
    requires
        region_end(region) > mem.bytes().len(),
    ensures
        access_outcome(mem, region, align, exclusive) == Err::<(), GuestError>(GuestError::PtrOutOfBounds(region)),
{
}

/// A handle that is not live stays so when later borrows are granted: each
/// new borrow takes the next, never-issued handle.
pub proof fn lemma_stale_handle_not_reissued(before: GuestMemory, after: GuestMemory, h: u64, e: Entry)
    requires
        before.wf(),
        !before.is_live(h),
        h < before.next_handle(),
        e.handle == before.next_handle(),
        after.live() == before.live().push(e),
    ensures
        !after.is_live(h),
{
    if after.is_live(h) {
        let i = choose|i: int| 0 <= i < after.live().len() && #[trigger] after.live()[i].handle == h;
        if i < before.live().len() {
            assert(after.live()[i] == before.live()[i]);
        }
    }
}

/// A guest's linear memory together with the table of its live borrows.
pub struct GuestMemory {
    bytes: Vec<u8>,
    borrows: BorrowChecker,
}

impl GuestMemory {
    pub closed spec fn bytes(&self) -> Seq<u8> {
        self.bytes@
    }

    pub closed spec fn checker(&self) -> BorrowChecker {
        self.borrows
    }

    pub open spec fn live(&self) -> Seq<Entry> {
        self.checker().live()
    }

    pub open spec fn cap(&self) -> nat {
        self.checker().cap()
    }

    pub open spec fn next_handle(&self) -> nat {
        self.checker().next_handle()
    }

    pub open spec fn is_live(&self, h: u64) -> bool {
        self.checker().is_live(h)
    }

    /// The checker is well formed and every live borrow lies within memory.
    pub open spec fn wf(&self) -> bool {
        &&& self.checker().wf()
        &&& forall|i: int|
            0 <= i < self.live().len() ==> spec_in_bounds(
                #[trigger] self.live()[i].region,
                self.bytes().len(),
            )
    }

    /// A memory holding `bytes`, with no borrows and room for `capacity` of them.
    pub fn new(bytes: Vec<u8>, capacity: usize) -> (r: GuestMemory)
        ensures
            r.wf(),
            r.bytes() == bytes@,
            r.live() == Seq::<Entry>::empty(),
            r.cap() == capacity,
            r.next_handle() == 0,
    {
        GuestMemory { bytes, borrows: BorrowChecker::new(capacity) }
    }

    pub fn len(&self) -> (r: usize)
        ensures
            r == self.bytes().len(),
    {
        self.bytes.len()
    }

    pub fn contents(&self) -> (r: &Vec<u8>)
        ensures
            r@ == self.bytes(),
    {
        &self.bytes
    }

    /// The number of borrows now live.
    pub fn outstanding(&self) -> (r: usize)
        ensures
            r == self.live().len(),
    {
        self.borrows.outstanding()
    }

    /// Replaces the contents, which may change length, between host calls.
    /// Refused, leaving memory as it was, while any borrow is live.
    pub fn replace_contents(&mut self, bytes: Vec<u8>) -> (r: bool)
        requires
            old(self).wf(),
        ensures
            final(self).wf(),
            final(self).checker() == old(self).checker(),
            r == (old(self).live().len() == 0),
            r ==> final(self).bytes() == bytes@,
            !r ==> final(self).bytes() == old(self).bytes(),
    {
        if self.borrows.outstanding() == 0 {
            self.bytes = bytes;
            true
        } else {
            false
        }
    }

    /// Bounds-checked copy of the bytes of `region`, with no borrow.
    pub fn read_region(&self, region: Region) -> (r: Result<Vec<u8>, GuestError>)
        ensures
            r is Ok <==> spec_in_bounds(region, self.bytes().len()),
            r matches Ok(b) ==> b@ == self.bytes().subrange(region.start as int, region_end(region)),
            r matches Err(e) ==> e == GuestError::PtrOutOfBounds(region),
    {
        if !region.in_bounds(self.bytes.len()) {
            return Err(GuestError::PtrOutOfBounds(region));
        }
        let start = region.start as usize;
        let end = start + region.len as usize;
        let mut out: Vec<u8> = Vec::new();
        let mut i: usize = start;
        while i < end
            invariant
                start <= i <= end <= self.bytes@.len(),
                out@ == self.bytes@.subrange(start as int, i as int),
            decreases end - i,
        {
            out.push(self.bytes[i]);
            i = i + 1;
            proof {
                assert(out@ =~= self.bytes@.subrange(start as int, i as int));
            }
        }
        Ok(out)
    }

    /// Borrows `region`, shared or exclusive, after checking that it lies in
    /// memory and starts at a multiple of `align`.
    pub fn borrow(&mut self, region: Region, align: u32, exclusive: bool) -> (r: Result<BorrowHandle, GuestError>)
        requires
            old(self).wf(),
            align > 0,
        ensures
            final(self).wf(),
            final(self).bytes() == old(self).bytes(),
            final(self).cap() == old(self).cap(),
            r is Ok <==> access_outcome(*old(self), region, align, exclusive) is Ok,
            match r {
                Ok(h) => {
                    &&& h.0 == old(self).next_handle()
                    &&& !old(self).is_live(h.0)
                    &&& final(self).live() == old(self).live().push(
                        (Entry { handle: h.0, region, exclusive }),
                    )
                    &&& final(self).next_handle() == old(self).next_handle() + 1
                },
                Err(e) => {
                    &&& Err::<(), GuestError>(e) == access_outcome(*old(self), region, align, exclusive)
                    &&& *final(self) == *old(self)
                },
            },
    {
        if !region.in_bounds(self.bytes.len()) {
            return Err(GuestError::PtrOutOfBounds(region));
        }
        if region.start % align != 0 {
            return Err(GuestError::PtrNotAligned(region, align));
        }
        let ghost s = self.live();
        let r = self.borrows.borrow(region, exclusive);
        proof {
            match r {
                Ok(_) => {
                    if exists|i: int| first_conflict(s, i, region, exclusive) {
                        let i = choose|i: int| first_conflict(s, i, region, exclusive);
                        assert(!crate::borrow::conflicts(s[i], region, exclusive));
                    }
                    let t = self.live();
                    assert forall|i: int| 0 <= i < t.len() implies spec_in_bounds(
                        #[trigger] t[i].region,
                        self.bytes().len(),
                    ) by {
                        if i < s.len() {
                            assert(t[i] == s[i]);
                        }
                    }
                },
                Err(GuestError::PtrBorrowed(c)) => {
                    let i = choose|i: int| first_conflict(s, i, region, exclusive) && #[trigger] s[i].region == c;
                    let j = choose|j: int| first_conflict(s, j, region, exclusive);
                    lemma_first_conflict_unique(s, i, j, region, exclusive);
                },
                Err(_) => {
                    if exists|i: int| first_conflict(s, i, region, exclusive) {
                        let i = choose|i: int| first_conflict(s, i, region, exclusive);
                        assert(!crate::borrow::conflicts(s[i], region, exclusive));
                    }
                },
            }
        }
        r
    }

    /// Ends a borrow; a handle that is not live is a misuse fault.
    pub fn release(&mut self, h: BorrowHandle) -> (r: Result<(), Fault>)
        requires
            old(self).wf(),
        ensures
            final(self).wf(),
            final(self).bytes() == old(self).bytes(),
            final(self).cap() == old(self).cap(),
            final(self).next_handle() == old(self).next_handle(),
            r is Ok <==> old(self).is_live(h.0),
            r matches Err(f) ==> f == Fault::StaleHandle(h.0) && *final(self) == *old(self),
            r is Ok ==> !final(self).is_live(h.0) && exists|i: int|
                0 <= i < old(self).live().len() && #[trigger] old(self).live()[i].handle == h.0
                    && final(self).live() == old(self).live().remove(i),
    {
        let ghost s = self.live();
        match self.borrows.unborrow(h) {
            Ok(_) => {
                proof {
                    let t = self.live();
                    let i = choose|i: int| 0 <= i < s.len() && #[trigger] s[i] == s[i] && t == s.remove(i) && s[i].handle == h.0;
                    assert forall|a: int| 0 <= a < t.len() implies spec_in_bounds(
                        #[trigger] t[a].region,
                        self.bytes().len(),
                    ) by {
                        if a < i {
                            assert(t[a] == s[a]);
                        } else {
                            assert(t[a] == s[a + 1]);
                        }
                    }
                }
                Ok(())
            },
            Err(c) => Err(Fault::StaleHandle(c)),
        }
    }

    /// The bytes under a live borrow; a handle that is not live is a misuse fault.
    pub fn read(&self, h: BorrowHandle) -> (r: Result<Vec<u8>, Fault>)
        requires
            self.wf(),
        ensures
            r is Ok <==> self.is_live(h.0),
            r matches Err(f) ==> f == Fault::StaleHandle(h.0),
            r matches Ok(b) ==> exists|i: int|
                0 <= i < self.live().len() && #[trigger] self.live()[i].handle == h.0
                    && b@ == self.bytes().subrange(
                    self.live()[i].region.start as int,
                    region_end(self.live()[i].region),
                ),
    {
        match self.borrows.entry(h) {
            None => Err(Fault::StaleHandle(h.0)),
            Some(e) => {
                let ghost i = self.live().index_of(e);
                proof {
                    assert(self.live()[i] == e);
                }
                match self.read_region(e.region) {
                    Ok(b) => Ok(b),
                    Err(_) => Err(Fault::StaleHandle(h.0)),
                }
            },
        }
    }

    /// Writes `data` over the bytes under a live exclusive borrow. Fails with a
    /// misuse fault on a handle that is not live or holds a shared borrow, and
    /// with a length mismatch when `data` does not cover the region exactly.
    pub fn write(&mut self, h: BorrowHandle, data: &Vec<u8>) -> (r: Result<(), Fault>)
        requires
            old(self).wf(),
        ensures
            final(self).wf(),
            final(self).checker() == old(self).checker(),
            !old(self).is_live(h.0) ==> r == Err::<(), Fault>(Fault::StaleHandle(h.0)),
            forall|i: int|
                0 <= i < old(self).live().len() && #[trigger] old(self).live()[i].handle == h.0 ==> {
                    let e = old(self).live()[i];
                    if !e.exclusive {
                        r == Err::<(), Fault>(Fault::SharedWrite(h.0))
                    } else if data@.len() != e.region.len {
                        r == Err::<(), Fault>(Fault::Guest(GuestError::SliceLengthsDiffer))
                    } else {
                        r is Ok && final(self).bytes() == overwrite(old(self).bytes(), e.region.start as int, data@)
                    }
                },
            r is Err ==> final(self).bytes() == old(self).bytes(),
    {
        let e = match self.borrows.entry(h) {
            None => { return Err(Fault::StaleHandle(h.0)); },
            Some(e) => e,
        };
        proof {
            let i = self.live().index_of(e);
            assert(self.live()[i] == e);
            assert forall|j: int| 0 <= j < self.live().len() && #[trigger] self.live()[j].handle == h.0 implies self.live()[j] == e by {
                if j != i {
                    assert(self.live()[j].handle != self.live()[i].handle);
                }
            }
            assert(spec_in_bounds(e.region, self.bytes().len()));
        }
        if !e.exclusive {
            return Err(Fault::SharedWrite(h.0));
        }
        if data.len() != e.region.len as usize {
            return Err(Fault::Guest(GuestError::SliceLengthsDiffer));
        }
        let start = e.region.start as usize;
        let ghost old_bytes = self.bytes@;
        let ghost old_borrows = self.borrows;
        let n = self.bytes.len();
        let mut k: usize = 0;
        while k < data.len()
            invariant
                k <= data.len(),
                self.borrows == old_borrows,
                old_borrows.wf(),
                forall|i: int|
                    0 <= i < old_borrows.live().len() ==> spec_in_bounds(
                        #[trigger] old_borrows.live()[i].region,
                        old_bytes.len(),
                    ),
                start + data.len() <= old_bytes.len(),
                n == old_bytes.len(),
                self.bytes@.len() == old_bytes.len(),
                forall|i: int| 0 <= i < old_bytes.len() ==> #[trigger] self.bytes@[i] == if start <= i < start + k {
                    data@[i - start]
                } else {
                    old_bytes[i]
                },
            decreases data.len() - k,
        {
            self.bytes.set(start + k, data[k]);
            k = k + 1;
        }
        proof {
            assert(self.bytes@ =~= overwrite(old_bytes, start as int, data@));
        }
        Ok(())
    }
}

} // verus!
