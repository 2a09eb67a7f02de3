use crate::error::GuestError;
use crate::region::{spec_overlaps, Region};
use vstd::prelude::*;

verus! {

/// Opaque identifier of one live borrow.
#[derive(Debug, Clone, Copy, PartialEq, Eq, Structural)]
pub struct BorrowHandle(pub u64);

/// A live borrow: its handle, the region it covers and whether it is exclusive.
#[derive(Debug, Clone, Copy, PartialEq, Eq, Structural)]
pub struct Entry {
    pub handle: u64,
    pub region: Region,
    pub exclusive: bool,
}

/// A live entry stands in the way of a request when the regions overlap and either side is exclusive.
pub open spec fn conflicts(e: Entry, region: Region, exclusive: bool) -> bool {
    spec_overlaps(e.region, region) && (e.exclusive || exclusive)
}

/// None of the first `n` entries conflicts with the request.
pub open spec fn no_conflict_before(s: Seq<Entry>, n: int, region: Region, exclusive: bool) -> bool {
    forall|i: int| 0 <= i < n ==> !#[trigger] conflicts(s[i], region, exclusive)
}

/// Entry `i` is the first entry that conflicts with the request.
pub open spec fn first_conflict(s: Seq<Entry>, i: int, region: Region, exclusive: bool) -> bool {
    &&& 0 <= i < s.len()
    &&& conflicts(s[i], region, exclusive)
    &&& no_conflict_before(s, i, region, exclusive)
}

/// The live entries are pairwise free of conflict, and their handles distinct.
pub open spec fn table_ok(s: Seq<Entry>, next: nat) -> bool {
    &&& forall|i: int| 0 <= i < s.len() ==> #[trigger] s[i].handle < next
    &&& forall|i: int, j: int|
        0 <= i < s.len() && 0 <= j < s.len() && i != j ==> #[trigger] s[i].handle != #[trigger] s[j].handle
    &&& forall|i: int, j: int|
        0 <= i < s.len() && 0 <= j < s.len() && i != j ==> !conflicts(
            #[trigger] s[i],
            #[trigger] s[j].region,
            s[j].exclusive,
        )
}

/// Registry of the live borrows of one guest memory, with a bounded number of entries.
///
/// Requests never wait and are never queued: each is granted or refused at
/// once against the entries live at that moment, so a pending exclusive
/// request cannot hold back later shared ones. Conflicts are checked by a
/// linear scan, oldest entry first.
pub struct BorrowChecker {
    entries: Vec<Entry>,
    next: u64,
    capacity: usize,
}

impl BorrowChecker {
    /// The live entries, oldest first.
    pub closed spec fn live(&self) -> Seq<Entry> {
        self.entries@
    }

    /// The handle the next successful borrow hands out.
    pub closed spec fn next_handle(&self) -> nat {
        self.next as nat
    }

    /// The most entries that may be live at once.
    pub closed spec fn cap(&self) -> nat {
        self.capacity as nat
    }

    pub open spec fn wf(&self) -> bool {
        &&& self.live().len() <= self.cap()
        &&& self.next_handle() <= u64::MAX
        &&& table_ok(self.live(), self.next_handle())
    }

    pub open spec fn is_live(&self, h: u64) -> bool {
        exists|i: int| 0 <= i < self.live().len() && #[trigger] self.live()[i].handle == h
    }

    /// An empty checker that admits at most `capacity` live borrows.
    pub fn new(capacity: usize) -> (r: BorrowChecker)
        ensures
            r.wf(),
            r.live() == Seq::<Entry>::empty(),
            r.cap() == capacity,
            r.next_handle() == 0,
    {
        BorrowChecker { entries: Vec::new(), next: 0, capacity }
    }

    pub fn outstanding(&self) -> (r: usize)
        ensures
            r == self.live().len(),
    {
        self.entries.len()
    }

    pub fn capacity(&self) -> (r: usize)
        ensures
            r == self.cap(),
    {
        self.capacity
    }

    /// Index of the first live entry that conflicts with the request, if any.
    fn find_conflict(&self, region: Region, exclusive: bool) -> (r: Option<usize>)
        ensures
            r matches Some(i) ==> first_conflict(self.live(), i as int, region, exclusive),
            r is None ==> no_conflict_before(self.live(), self.live().len() as int, region, exclusive),
    {
        let mut i: usize = 0;
        while i < self.entries.len()
            invariant
                i <= self.entries.len(),
                no_conflict_before(self.live(), i as int, region, exclusive),
            decreases self.entries.len() - i,
        {
            let e = self.entries[i];
            if e.region.overlaps(&region) && (e.exclusive || exclusive) {
                return Some(i);
            }
            i = i + 1;
        }
        None
    }

    /// Index of the live entry with handle `h`, if any.
    fn find_handle(&self, h: u64) -> (r: Option<usize>)
        ensures
            r matches Some(i) ==> i < self.live().len() && self.live()[i as int].handle == h,
            r is None ==> !self.is_live(h),
    {
        let mut i: usize = 0;
        while i < self.entries.len()
            invariant
                i <= self.entries.len(),
                forall|k: int| 0 <= k < i ==> #[trigger] self.live()[k].handle != h,
            decreases self.entries.len() - i,
        {
            if self.entries[i].handle == h {
                return Some(i);
            }
            i = i + 1;
        }
        None
    }

    /// The region and mutability recorded for a live handle.
    pub fn entry(&self, h: BorrowHandle) -> (r: Option<Entry>)
        requires
            self.wf(),
        ensures
            r is Some <==> self.is_live(h.0),
            r matches Some(e) ==> e.handle == h.0 && self.live().contains(e),
    {
        match self.find_handle(h.0) {
            Some(i) => Some(self.entries[i]),
            None => None,
        }
    }

    /// Records a borrow of `region`, shared or exclusive.
    ///
    /// Fails, leaving the table as it was, when a live entry conflicts with the
    /// request (naming the first such entry's region), or when no entry is free.
    pub fn borrow(&mut self, region: Region, exclusive: bool) -> (r: Result<BorrowHandle, GuestError>)
        requires
            old(self).wf(),
        ensures
            final(self).wf(),
            final(self).cap() == old(self).cap(),
            match r {
                Ok(h) => {
                    &&& no_conflict_before(old(self).live(), old(self).live().len() as int, region, exclusive)
                    &&& old(self).live().len() < old(self).cap()
                    &&& h.0 == old(self).next_handle()
                    &&& !old(self).is_live(h.0)
                    &&& final(self).live() == old(self).live().push(
                        (Entry { handle: h.0, region, exclusive }),
                    )
                    &&& final(self).next_handle() == old(self).next_handle() + 1
                },
                Err(GuestError::PtrBorrowed(c)) => {
                    &&& exists|i: int|
                        first_conflict(old(self).live(), i, region, exclusive) && #[trigger] old(
                            self,
                        ).live()[i].region == c
                    &&& *final(self) == *old(self)
                },
                Err(GuestError::BorrowCheckerOutOfHandles) => {
                    &&& no_conflict_before(old(self).live(), old(self).live().len() as int, region, exclusive)
                    &&& (old(self).live().len() >= old(self).cap() || old(self).next_handle() == u64::MAX)
                    &&& *final(self) == *old(self)
                },
                Err(_) => false,
            },
    {
        match self.find_conflict(region, exclusive) {
            Some(i) => {
                let c = self.entries[i].region;
                return Err(GuestError::PtrBorrowed(c));
            },
            None => {},
        }
        if self.entries.len() >= self.capacity || self.next == u64::MAX {
            return Err(GuestError::BorrowCheckerOutOfHandles);
        }
        let h = self.next;
        let ghost s = self.live();
        self.entries.push(Entry { handle: h, region, exclusive });
        self.next = h + 1;
        proof {
            let t = self.live();
            assert(t.len() == s.len() + 1);
            assert forall|i: int, j: int|
                0 <= i < t.len() && 0 <= j < t.len() && i != j implies !conflicts(
                #[trigger] t[i],
                #[trigger] t[j].region,
                t[j].exclusive,
            ) by {
                if i == s.len() {
                    assert(!conflicts(s[j], region, exclusive));
                    crate::region::lemma_overlaps_symmetric(s[j].region, region);
                } else if j == s.len() {
                    assert(!conflicts(s[i], region, exclusive));
                } else {
                    assert(t[i] == s[i] && t[j] == s[j]);
                }
            }
            assert forall|i: int, j: int|
                0 <= i < t.len() && 0 <= j < t.len() && i != j implies #[trigger] t[i].handle
                != #[trigger] t[j].handle by {
                if i != s.len() {
                    assert(t[i] == s[i]);
                }
                if j != s.len() {
                    assert(t[j] == s[j]);
                }
            }
            assert forall|i: int| 0 <= i < t.len() implies #[trigger] t[i].handle < self.next by {
                if i != s.len() {
                    assert(t[i] == s[i]);
                }
            }
        }
        Ok(BorrowHandle(h))
    }

    /// Releases a live borrow and returns its entry; releasing a handle that is
    /// not live is a misuse, reported with the table left as it was.
    pub fn unborrow(&mut self, h: BorrowHandle) -> (r: Result<Entry, u64>)
        requires
            old(self).wf(),
        ensures
            final(self).wf(),
            final(self).cap() == old(self).cap(),
            final(self).next_handle() == old(self).next_handle(),
            r is Ok <==> old(self).is_live(h.0),
            match r {
                Ok(e) => {
                    &&& e.handle == h.0
                    &&& exists|i: int|
                        0 <= i < old(self).live().len() && #[trigger] old(self).live()[i] == e
                            && final(self).live() == old(self).live().remove(i)
                    &&& !final(self).is_live(h.0)
                },
                Err(c) => c == h.0 && *final(self) == *old(self),
            },
    {
        match self.find_handle(h.0) {
            None => Err(h.0),
            Some(i) => {
                let ghost s = self.live();
                let e = self.entries.remove(i);
                proof {
                    let t = self.live();
                    assert(t == s.remove(i as int));
                    assert forall|a: int| 0 <= a < t.len() implies #[trigger] t[a] == s[if a < i {
                        a
                    } else {
                        a + 1
                    }] by {}
                    assert forall|a: int, b: int|
                        0 <= a < t.len() && 0 <= b < t.len() && a != b implies !conflicts(
                        #[trigger] t[a],
                        #[trigger] t[b].region,
                        t[b].exclusive,
                    ) by {
                        let a1 = if a < i { a } else { a + 1 };
                        let b1 = if b < i { b } else { b + 1 };
                        assert(t[a] == s[a1] && t[b] == s[b1]);
                    }
                    assert forall|a: int, b: int|
                        0 <= a < t.len() && 0 <= b < t.len() && a != b implies #[trigger] t[a].handle
                        != #[trigger] t[b].handle by {
                        let a1 = if a < i { a } else { a + 1 };
                        let b1 = if b < i { b } else { b + 1 };
                        assert(t[a] == s[a1] && t[b] == s[b1]);
                    }
                    assert forall|a: int| 0 <= a < t.len() implies #[trigger] t[a].handle
                        < self.next by {
                        let a1 = if a < i { a } else { a + 1 };
                        assert(t[a] == s[a1]);
                    }
                    assert forall|a: int| 0 <= a < t.len() implies #[trigger] t[a].handle != h.0 by {
                        let a1 = if a < i { a } else { a + 1 };
                        assert(t[a] == s[a1]);
                        assert(s[i as int].handle == h.0);
                    }
                }
                Ok(e)
            },
        }
    }
}

} // verus!
