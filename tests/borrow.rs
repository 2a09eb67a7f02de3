use wiggle::borrow::{BorrowChecker, BorrowHandle};
use wiggle::error::GuestError;
use wiggle::region::Region;

#[test]
fn disjoint_borrows_coexist_in_every_combination() {
    for ea in [false, true] {
        for eb in [false, true] {
            let mut bc = BorrowChecker::new(4);
            let a = bc.borrow(Region::new(0, 8), ea).unwrap();
            let b = bc.borrow(Region::new(8, 8), eb).unwrap();
            assert_ne!(a, b);
            assert_eq!(bc.outstanding(), 2);
        }
    }
}

#[test]
fn overlapping_borrow_with_exclusive_side_names_first_region() {
    for (ea, eb) in [(true, false), (false, true), (true, true)] {
        let mut bc = BorrowChecker::new(4);
        bc.borrow(Region::new(0, 8), ea).unwrap();
        let r = bc.borrow(Region::new(4, 8), eb);
        assert_eq!(r, Err(GuestError::PtrBorrowed(Region::new(0, 8))));
        assert_eq!(bc.outstanding(), 1);
    }
}

#[test]
fn shared_borrows_may_overlap() {
    let mut bc = BorrowChecker::new(4);
    bc.borrow(Region::new(0, 8), false).unwrap();
    bc.borrow(Region::new(4, 8), false).unwrap();
    assert_eq!(bc.outstanding(), 2);
}

#[test]
fn empty_region_conflicts_with_nothing() {
    let mut bc = BorrowChecker::new(4);
    bc.borrow(Region::new(0, 8), true).unwrap();
    bc.borrow(Region::new(4, 0), true).unwrap();
    assert!(!Region::new(4, 0).overlaps(&Region::new(0, 8)));
}

#[test]
fn exhaustion_is_recoverable() {
    let mut bc = BorrowChecker::new(2);
    let h0 = bc.borrow(Region::new(0, 1), true).unwrap();
    bc.borrow(Region::new(1, 1), true).unwrap();
    assert_eq!(bc.borrow(Region::new(2, 1), true), Err(GuestError::BorrowCheckerOutOfHandles));
    bc.unborrow(h0).unwrap();
    assert!(bc.borrow(Region::new(2, 1), true).is_ok());
}

#[test]
fn stale_handle_release_is_refused() {
    let mut bc = BorrowChecker::new(2);
    let h = bc.borrow(Region::new(0, 4), false).unwrap();
    let e = bc.unborrow(h).unwrap();
    assert_eq!(e.region, Region::new(0, 4));
    assert_eq!(bc.unborrow(h), Err(h.0));
    assert_eq!(bc.unborrow(BorrowHandle(99)), Err(99));
    let h2 = bc.borrow(Region::new(0, 4), false).unwrap();
    assert_ne!(h, h2);
    assert!(bc.entry(h).is_none());
    assert!(bc.entry(h2).is_some());
}

#[test]
fn region_arithmetic() {
    assert_eq!(Region::checked_new(u32::MAX - 3, 4), None);
    assert_eq!(Region::checked_new(u32::MAX - 4, 4), Some(Region::new(u32::MAX - 4, 4)));
    assert!(Region::new(0, 10).in_bounds(10));
    assert!(!Region::new(0, 11).in_bounds(10));
    assert!(!Region::new(10, 1).in_bounds(10));
    assert!(Region::new(10, 0).in_bounds(10));
    assert!(Region::new(0, 5).overlaps(&Region::new(4, 5)));
    assert!(!Region::new(0, 4).overlaps(&Region::new(4, 5)));
    assert!(Region::new(3, 0).is_empty());
}
