use wiggle::error::GuestError;
use wiggle::memory::GuestMemory;
use wiggle::ptr::IntRepr;
use wiggle::record::{read_record, record_layout, write_record};
use wiggle::region::Region;

#[test]
fn layout_aligns_each_field_and_pads_the_end() {
    let fields = vec![IntRepr::U8, IntRepr::U32, IntRepr::U16];
    let (offsets, size, align) = record_layout(&fields);
    assert_eq!(offsets, vec![0, 4, 8]);
    assert_eq!(size, 12);
    assert_eq!(align, 4);
    let (o, s, a) = record_layout(&vec![]);
    assert!(o.is_empty());
    assert_eq!((s, a), (0, 1));
}

#[test]
fn record_round_trip_at_zero_and_max() {
    let fields = vec![IntRepr::U8, IntRepr::U64, IntRepr::U16, IntRepr::U32];
    for values in [vec![0, 0, 0, 0], vec![u8::MAX as u64, u64::MAX, u16::MAX as u64, u32::MAX as u64]] {
        let mut mem = GuestMemory::new(vec![0xEEu8; 64], 4);
        write_record(&mut mem, 8, &fields, &values).unwrap();
        assert_eq!(read_record(&mut mem, 8, &fields), Ok(values));
        assert_eq!(mem.outstanding(), 0);
    }
}

#[test]
fn record_padding_is_zeroed() {
    let fields = vec![IntRepr::U8, IntRepr::U16];
    let mut mem = GuestMemory::new(vec![0xEEu8; 6], 4);
    write_record(&mut mem, 0, &fields, &vec![7, 0x0102]).unwrap();
    assert_eq!(mem.contents(), &vec![7, 0, 2, 1, 0xEE, 0xEE]);
}

#[test]
fn record_checks_alignment_bounds_and_overflow() {
    let fields = vec![IntRepr::U32, IntRepr::U8];
    let mut mem = GuestMemory::new(vec![0u8; 16], 4);
    assert_eq!(
        read_record(&mut mem, 2, &fields),
        Err(GuestError::PtrNotAligned(Region::new(2, 8), 4))
    );
    assert_eq!(read_record(&mut mem, 12, &fields), Err(GuestError::PtrOutOfBounds(Region::new(12, 8))));
    assert_eq!(read_record(&mut mem, u32::MAX - 3, &fields), Err(GuestError::PtrOverflow));
    assert_eq!(write_record(&mut mem, 2, &fields, &vec![1, 2]), Err(GuestError::PtrNotAligned(Region::new(2, 8), 4)));
    assert_eq!(mem.contents(), &vec![0u8; 16]);
}
