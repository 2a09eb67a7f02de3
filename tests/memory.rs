use wiggle::borrow::BorrowHandle;
use wiggle::codec::{decode_le, encode_le};
use wiggle::error::{Fault, GuestError};
use wiggle::memory::GuestMemory;
use wiggle::ptr::{GuestPtr, GuestType, IntRepr};
use wiggle::region::Region;
use wiggle::slice::{borrow_array_mut, read_array, read_str};

fn int_ty(r: IntRepr) -> GuestType {
    GuestType::Int(r)
}

#[test]
fn round_trip_every_width_at_zero_and_max() {
    let cases = [
        (IntRepr::U8, u8::MAX as u64),
        (IntRepr::U16, u16::MAX as u64),
        (IntRepr::U32, u32::MAX as u64),
        (IntRepr::U64, u64::MAX),
    ];
    for (repr, max) in cases {
        for v in [0, 1, max] {
            let mut mem = GuestMemory::new(vec![0xAAu8; 32], 4);
            let p = GuestPtr::new(8, int_ty(repr));
            p.write(&mut mem, v).unwrap();
            assert_eq!(p.read(&mut mem), Ok(v));
            assert_eq!(mem.outstanding(), 0);
        }
    }
}

#[test]
fn encoding_is_little_endian() {
    let mut mem = GuestMemory::new(vec![0u8; 8], 4);
    GuestPtr::new(4, int_ty(IntRepr::U32)).write(&mut mem, 0x0403_0201).unwrap();
    assert_eq!(mem.contents(), &vec![0, 0, 0, 0, 1, 2, 3, 4]);
    assert_eq!(encode_le(0x0102, 2), vec![2, 1]);
    assert_eq!(decode_le(&vec![9, 0x34, 0x12], 1, 2), 0x1234);
}

#[test]
fn enum_and_flags_round_trip_and_validate() {
    let e = GuestType::Enum { repr: IntRepr::U8, variants: 3, name: "errno" };
    let mut mem = GuestMemory::new(vec![0u8, 1, 2, 3], 4);
    for v in [0u64, 2] {
        GuestPtr::new(0, e).write(&mut mem, v).unwrap();
        assert_eq!(GuestPtr::new(0, e).read(&mut mem), Ok(v));
    }
    assert_eq!(GuestPtr::new(3, e).read(&mut mem), Err(GuestError::InvalidEnumValue("errno")));
    let f = GuestType::Flags { repr: IntRepr::U8, mask: 0b101, name: "fl" };
    assert_eq!(GuestPtr::new(1, f).read(&mut mem), Ok(1));
    assert_eq!(GuestPtr::new(2, f).read(&mut mem), Err(GuestError::InvalidFlagValue("fl")));
}

#[test]
fn bounds_are_half_open() {
    let mut mem = GuestMemory::new(vec![7u8; 8], 4);
    assert_eq!(GuestPtr::new(4, int_ty(IntRepr::U32)).read(&mut mem), Ok(0x0707_0707));
    assert_eq!(
        GuestPtr::new(8, int_ty(IntRepr::U32)).read(&mut mem),
        Err(GuestError::PtrOutOfBounds(Region::new(8, 4)))
    );
    assert_eq!(mem.read_region(Region::new(0, 8)).map(|b| b.len()), Ok(8));
    assert_eq!(mem.read_region(Region::new(1, 8)), Err(GuestError::PtrOutOfBounds(Region::new(1, 8))));
}

#[test]
fn pointer_overflow_is_reported() {
    let mut mem = GuestMemory::new(vec![0u8; 8], 4);
    assert_eq!(
        GuestPtr::new(u32::MAX - 1, int_ty(IntRepr::U32)).read(&mut mem),
        Err(GuestError::PtrOverflow)
    );
}

#[test]
fn misaligned_read_fails_whatever_the_bytes() {
    for fill in [0u8, 0xff] {
        let mut mem = GuestMemory::new(vec![fill; 16], 4);
        assert_eq!(
            GuestPtr::new(2, int_ty(IntRepr::U32)).read(&mut mem),
            Err(GuestError::PtrNotAligned(Region::new(2, 4), 4))
        );
    }
}

#[test]
fn stale_handle_cannot_read_or_write() {
    let mut mem = GuestMemory::new(vec![1u8; 8], 4);
    let h = mem.borrow(Region::new(0, 4), 1, true).unwrap();
    assert_eq!(mem.read(h), Ok(vec![1, 1, 1, 1]));
    mem.write(h, &vec![2, 3, 4, 5]).unwrap();
    mem.release(h).unwrap();
    assert_eq!(mem.read(h), Err(Fault::StaleHandle(h.0)));
    assert_eq!(mem.write(h, &vec![0, 0, 0, 0]), Err(Fault::StaleHandle(h.0)));
    assert_eq!(mem.release(h), Err(Fault::StaleHandle(h.0)));
    assert_eq!(mem.read(BorrowHandle(42)), Err(Fault::StaleHandle(42)));
    assert_eq!(mem.contents(), &vec![2, 3, 4, 5, 1, 1, 1, 1]);
}

#[test]
fn shared_handle_cannot_write_and_lengths_must_match() {
    let mut mem = GuestMemory::new(vec![0u8; 8], 4);
    let s = mem.borrow(Region::new(0, 4), 1, false).unwrap();
    assert_eq!(mem.write(s, &vec![1, 2, 3, 4]), Err(Fault::SharedWrite(s.0)));
    let x = mem.borrow(Region::new(4, 4), 1, true).unwrap();
    assert_eq!(mem.write(x, &vec![1, 2]), Err(Fault::Guest(GuestError::SliceLengthsDiffer)));
    assert_eq!(mem.contents(), &vec![0u8; 8]);
}

#[test]
fn memory_may_change_only_without_borrows() {
    let mut mem = GuestMemory::new(vec![0u8; 4], 4);
    let h = mem.borrow(Region::new(0, 4), 1, false).unwrap();
    assert!(!mem.replace_contents(vec![0u8; 16]));
    assert_eq!(mem.len(), 4);
    mem.release(h).unwrap();
    assert!(mem.replace_contents(vec![0u8; 16]));
    assert_eq!(mem.len(), 16);
}

#[test]
fn strings_decode_or_fail_exactly() {
    let mut bytes = b"hello".to_vec();
    bytes.extend_from_slice(&[0xff, 0xfe]);
    let mut mem = GuestMemory::new(bytes, 4);
    assert_eq!(read_str(&mut mem, 0, 5), Ok("hello".to_string()));
    assert_eq!(read_str(&mut mem, 1, 3), Ok("ell".to_string()));
    assert_eq!(read_str(&mut mem, 3, 3), Err(GuestError::InvalidUtf8));
    assert_eq!(read_str(&mut mem, 5, 3), Err(GuestError::PtrOutOfBounds(Region::new(5, 3))));
    assert_eq!(read_str(&mut mem, u32::MAX, 2), Err(GuestError::PtrOverflow));
    assert_eq!(mem.outstanding(), 0);
}

#[test]
fn arrays_decode_each_element() {
    let mut mem = GuestMemory::new(vec![1, 0, 2, 0, 3, 0, 0, 0], 4);
    assert_eq!(read_array(&mut mem, 0, 3, IntRepr::U16), Ok(vec![1, 2, 3]));
    assert_eq!(read_array(&mut mem, 0, 0, IntRepr::U64), Ok(vec![]));
    assert_eq!(read_array(&mut mem, 0, u32::MAX, IntRepr::U32), Err(GuestError::PtrOverflow));
    assert_eq!(
        read_array(&mut mem, 1, 2, IntRepr::U16),
        Err(GuestError::PtrNotAligned(Region::new(1, 4), 2))
    );
}

#[test]
fn overlapping_mutable_views_rejected_at_second() {
    let mut mem = GuestMemory::new(vec![0u8; 16], 4);
    let h = borrow_array_mut(&mut mem, 0, 2, IntRepr::U32).unwrap();
    assert_eq!(
        borrow_array_mut(&mut mem, 4, 2, IntRepr::U32),
        Err(GuestError::PtrBorrowed(Region::new(0, 8)))
    );
    assert_eq!(read_array(&mut mem, 4, 1, IntRepr::U32), Err(GuestError::PtrBorrowed(Region::new(0, 8))));
    mem.release(h).unwrap();
    assert!(borrow_array_mut(&mut mem, 4, 2, IntRepr::U32).is_ok());
}
