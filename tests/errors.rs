use wiggle::error::Error;
use wiggle::marshal::{decode_args, finish, ErrorEnum, FuncSig, ParamKind, Arg};
use wiggle::memory::GuestMemory;
use wiggle::error::Fault;
use wiggle::ptr::IntRepr;

#[derive(Debug, Clone, Copy, PartialEq, Eq)]
enum Errno {
    Success,
    InvalidArg,
    PicketLine,
}

fn foo_sig() -> FuncSig {
    FuncSig {
        params: vec![ParamKind::Value(IntRepr::U32)],
        result: None,
        error: Some(ErrorEnum { variants: 3, out_of_handles: None }),
        diverges: false,
    }
}

fn foo_host(strike: u64) -> Result<Option<u64>, Error<u32>> {
    match strike {
        0 => Ok(None),
        1 => Err(Error::new(Errno::PicketLine as u32)),
        _ => Err(Error::new(Errno::InvalidArg as u32)),
    }
}

fn call_foo(mem: &mut GuestMemory, strike: u64) -> Result<i32, Fault> {
    let sig = foo_sig();
    assert!(sig.validate().is_ok());
    let words = vec![strike];
    let decoded = decode_args(&sig, mem, &words).map_err(Fault::Guest)?;
    let strike = match decoded.args[0] {
        Arg::Int(v) => v,
        _ => panic!("unexpected argument"),
    };
    finish(&sig, mem, &words, &decoded.held, foo_host(strike))
}

#[test]
fn one_error_conversion_test() {
    let mut mem = GuestMemory::new(vec![0u8; 64], 8);

    let r0 = call_foo(&mut mem, 0).unwrap();
    assert_eq!(r0, Errno::Success as i32, "Expected return value for strike=0");

    let r1 = call_foo(&mut mem, 1).unwrap();
    assert_eq!(r1, Errno::PicketLine as i32, "Expected return value for strike=1");

    let r2 = call_foo(&mut mem, 2).unwrap();
    assert_eq!(r2, Errno::InvalidArg as i32, "Expected return value for strike=2");
}

#[test]
fn foo_leaves_no_outstanding_borrows() {
    let mut mem = GuestMemory::new(vec![0u8; 64], 8);
    for strike in [0u64, 1, 2, 7, u32::MAX as u64] {
        let r = call_foo(&mut mem, strike).unwrap();
        let expected = match strike {
            0 => 0,
            1 => 2,
            _ => 1,
        };
        assert_eq!(r, expected);
        assert_eq!(mem.outstanding(), 0);
    }
}

#[test]
fn foo_rejects_strike_wider_than_u32() {
    let mut mem = GuestMemory::new(vec![0u8; 64], 8);
    let r = call_foo(&mut mem, 1u64 << 32);
    assert_eq!(r, Err(Fault::Guest(wiggle::error::GuestError::TryFromIntError)));
    assert_eq!(mem.outstanding(), 0);
}

#[test]
fn error_context_and_downcast() {
    let e: Error<u32> = Error::new(2);
    let e = e.context("first".to_string()).context("second".to_string());
    assert_eq!(e.context_chain(), &vec!["first".to_string(), "second".to_string()]);
    assert_eq!(e.downcast_ref(), Some(&2));
    assert!(!e.is_trap());
    assert_eq!(e.downcast().ok(), Some(2));

    let mut m: Error<u32> = Error::new(5);
    if let Some(v) = m.downcast_mut() {
        *v = 6;
    }
    assert_eq!(m.downcast_ref(), Some(&6));

    let t: Error<u32> = Error::trap("boom".to_string());
    assert!(t.is_trap());
    assert_eq!(t.downcast_ref(), None);
    assert!(t.downcast().is_err());
}

#[test]
fn trap_from_host_keeps_message_and_context() {
    let sig = foo_sig();
    let mut mem = GuestMemory::new(vec![0u8; 16], 4);
    let words = vec![3u64];
    let d = decode_args(&sig, &mut mem, &words).unwrap();
    let outcome: Result<Option<u64>, Error<u32>> =
        Err(Error::trap("host failed".to_string()).context("while striking".to_string()));
    let r = finish(&sig, &mut mem, &words, &d.held, outcome);
    assert_eq!(
        r,
        Err(Fault::Host("host failed".to_string(), vec!["while striking".to_string()]))
    );
}

#[test]
fn undeclared_domain_code_is_a_type_mismatch() {
    let sig = foo_sig();
    let mut mem = GuestMemory::new(vec![0u8; 16], 4);
    let words = vec![0u64];
    let d = decode_args(&sig, &mut mem, &words).unwrap();
    let r = finish(&sig, &mut mem, &words, &d.held, Err(Error::new(3)));
    assert_eq!(r, Err(Fault::TypeMismatch));
}
