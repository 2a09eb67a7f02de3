use wiggle::error::{Error, Fault, GuestError};
use wiggle::marshal::{abort_code, decode_args, decode_one, finish, value_fits, Arg, ErrorEnum, FuncSig, ParamKind, SigError};
use wiggle::memory::GuestMemory;
use wiggle::ptr::{GuestType, IntRepr};
use wiggle::region::Region;

fn errno() -> Option<ErrorEnum> {
    Some(ErrorEnum { variants: 4, out_of_handles: Some(3) })
}

fn sig(params: Vec<ParamKind>, result: Option<GuestType>) -> FuncSig {
    FuncSig { params, result, error: errno(), diverges: false }
}

#[test]
fn malformed_text_never_reaches_host() {
    let s = sig(vec![ParamKind::Value(IntRepr::U32), ParamKind::Str], None);
    let mut bytes = b"ok".to_vec();
    bytes.extend_from_slice(&[0xc3, 0x28]);
    let mut mem = GuestMemory::new(bytes, 4);
    let good = decode_args(&s, &mut mem, &vec![7, 0, 2]).unwrap();
    assert!(matches!(good.args[0], Arg::Int(7)));
    assert!(matches!(&good.args[1], Arg::Text(t) if t == "ok"));
    let bad = decode_args(&s, &mut mem, &vec![7, 1, 3]);
    assert!(matches!(bad, Err(GuestError::InvalidUtf8)));
    assert_eq!(mem.outstanding(), 0);
}

#[test]
fn result_is_written_to_output_pointer() {
    let s = sig(vec![ParamKind::Pointer(GuestType::Int(IntRepr::U16))], Some(GuestType::Int(IntRepr::U32)));
    assert_eq!(s.validate(), Ok(()));
    assert_eq!(s.abi_len(), 2);
    let mut mem = GuestMemory::new(vec![0x34, 0x12, 0, 0, 0, 0, 0, 0], 4);
    let ws = vec![0u64, 4];
    let d = decode_args(&s, &mut mem, &ws).unwrap();
    let v = match d.args[0] {
        Arg::Int(v) => v,
        _ => panic!("expected an integer"),
    };
    assert_eq!(v, 0x1234);
    let r = finish(&s, &mut mem, &ws, &d.held, Ok(Some(v * 2)));
    assert_eq!(r, Ok(0));
    assert_eq!(mem.contents(), &vec![0x34, 0x12, 0, 0, 0x68, 0x24, 0, 0]);
    assert_eq!(mem.outstanding(), 0);
}

#[test]
fn domain_error_leaves_output_untouched() {
    let s = sig(vec![], Some(GuestType::Int(IntRepr::U32)));
    let mut mem = GuestMemory::new(vec![0u8; 8], 4);
    let ws = vec![4u64];
    let d = decode_args(&s, &mut mem, &ws).unwrap();
    assert_eq!(finish(&s, &mut mem, &ws, &d.held, Err(Error::new(2))), Ok(2));
    assert_eq!(mem.contents(), &vec![0u8; 8]);
}

#[test]
fn mutable_array_held_for_whole_call() {
    let s = sig(
        vec![ParamKind::ArrayMut(IntRepr::U8), ParamKind::ArrayMut(IntRepr::U8)],
        None,
    );
    let mut mem = GuestMemory::new(vec![0u8; 16], 4);
    let r = decode_args(&s, &mut mem, &vec![0, 4, 2, 4]);
    assert!(matches!(r, Err(GuestError::PtrBorrowed(reg)) if reg == Region::new(0, 4)));
    assert_eq!(mem.outstanding(), 0);
    let ws = vec![0u64, 4, 4, 4];
    let d = decode_args(&s, &mut mem, &ws).unwrap();
    assert_eq!(d.held.len(), 2);
    assert_eq!(mem.outstanding(), 2);
    mem.write(d.held[0], &vec![9, 9, 9, 9]).unwrap();
    assert_eq!(finish(&s, &mut mem, &ws, &d.held, Ok(None)), Ok(0));
    assert_eq!(mem.outstanding(), 0);
    assert_eq!(mem.contents()[0..4], [9, 9, 9, 9]);
}

#[test]
fn exhaustion_maps_to_declared_variant() {
    let s = sig(vec![ParamKind::ArrayMut(IntRepr::U8), ParamKind::Array(IntRepr::U8)], None);
    let mut mem = GuestMemory::new(vec![0u8; 16], 1);
    let r = decode_args(&s, &mut mem, &vec![0, 4, 8, 4]);
    let e = match r {
        Err(e) => e,
        Ok(_) => panic!("expected exhaustion"),
    };
    assert_eq!(e, GuestError::BorrowCheckerOutOfHandles);
    assert_eq!(abort_code(&s, e), Ok(3));
    assert_eq!(abort_code(&s, GuestError::PtrOverflow), Err(Fault::Guest(GuestError::PtrOverflow)));
    assert_eq!(mem.outstanding(), 0);
}

#[test]
fn diverging_function_must_not_return() {
    let s = FuncSig { params: vec![ParamKind::Value(IntRepr::U32)], result: None, error: None, diverges: true };
    assert_eq!(s.validate(), Ok(()));
    let mut mem = GuestMemory::new(vec![], 1);
    let ws = vec![1u64];
    let d = decode_args(&s, &mut mem, &ws).unwrap();
    assert_eq!(finish(&s, &mut mem, &ws, &d.held, Ok(None)), Err(Fault::DivergedReturned));
    let t = finish(&s, &mut mem, &ws, &d.held, Err(Error::trap("exit".to_string())));
    assert_eq!(t, Err(Fault::Host("exit".to_string(), vec![])));
}

#[test]
fn signatures_are_validated() {
    let d = FuncSig { params: vec![], result: Some(GuestType::Int(IntRepr::U8)), error: None, diverges: true };
    assert_eq!(d.validate(), Err(SigError::DivergesWithResult));
    let m = FuncSig {
        params: vec![ParamKind::Str],
        result: None,
        error: Some(ErrorEnum { variants: 3, out_of_handles: None }),
        diverges: false,
    };
    assert_eq!(m.validate(), Err(SigError::ExhaustionUnrepresentable));
    let b = FuncSig {
        params: vec![],
        result: None,
        error: Some(ErrorEnum { variants: 3, out_of_handles: Some(3) }),
        diverges: false,
    };
    assert_eq!(b.validate(), Err(SigError::BadExhaustionVariant));
    assert_eq!(sig(vec![ParamKind::Str, ParamKind::Array(IntRepr::U32)], None).abi_len(), 4);
}

#[test]
fn result_of_wrong_type_is_a_fault() {
    let s = sig(vec![], Some(GuestType::Int(IntRepr::U8)));
    let mut mem = GuestMemory::new(vec![0u8; 4], 4);
    let ws = vec![0u64];
    assert_eq!(finish(&s, &mut mem, &ws, &vec![], Ok(Some(256))), Err(Fault::TypeMismatch));
    assert_eq!(finish(&s, &mut mem, &ws, &vec![], Ok(None)), Err(Fault::TypeMismatch));
    assert!(value_fits(GuestType::Int(IntRepr::U8), 255));
    assert!(!value_fits(GuestType::Int(IntRepr::U8), 256));
}

#[test]
fn decode_one_checks_value_width_and_address() {
    let mut mem = GuestMemory::new(vec![0u8; 4], 4);
    assert!(matches!(decode_one(&mut mem, ParamKind::Value(IntRepr::U8), &vec![300], 0), Err(GuestError::TryFromIntError)));
    assert!(matches!(
        decode_one(&mut mem, ParamKind::Pointer(GuestType::Int(IntRepr::U8)), &vec![1u64 << 40], 0),
        Err(GuestError::TryFromIntError)
    ));
    assert!(matches!(decode_one(&mut mem, ParamKind::Array(IntRepr::U8), &vec![0, 2], 0), Ok(Arg::Array(v)) if v == vec![0, 0]));
}
