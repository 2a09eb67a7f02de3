use wiggle::errno::{Error, I32Exit, IoKind};

#[test]
fn constructors_give_their_variants() {
    assert_eq!(Error::not_found(), Error::Noent);
    assert_eq!(Error::too_big(), Error::TooBig);
    assert_eq!(Error::badf(), Error::Badf);
    assert_eq!(Error::exist(), Error::Exist);
    assert_eq!(Error::illegal_byte_sequence(), Error::Ilseq);
    assert_eq!(Error::invalid_argument(), Error::Inval);
    assert_eq!(Error::io(), Error::Io);
    assert_eq!(Error::name_too_long(), Error::Nametoolong);
    assert_eq!(Error::not_dir(), Error::Notdir);
    assert_eq!(Error::not_supported(), Error::Notsup);
    assert_eq!(Error::overflow(), Error::Overflow);
    assert_eq!(Error::range(), Error::Range);
    assert_eq!(Error::seek_pipe(), Error::Spipe);
    assert_eq!(Error::perm(), Error::Perm);
    assert_eq!(Error::trap("x".to_string()), Error::Trap("x".to_string(), None));
}

#[test]
fn platform_errors_follow_precedence() {
    assert_eq!(Error::from_platform(Some(Error::Pipe), IoKind::NotFound, "d".to_string()), Error::Pipe);
    assert_eq!(Error::from_platform(None, IoKind::NotFound, "d".to_string()), Error::Noent);
    assert_eq!(Error::from_platform(None, IoKind::PermissionDenied, "d".to_string()), Error::Perm);
    assert_eq!(Error::from_platform(None, IoKind::AlreadyExists, "d".to_string()), Error::Exist);
    assert_eq!(Error::from_platform(None, IoKind::InvalidInput, "d".to_string()), Error::Inval);
    let t = Error::from_platform(None, IoKind::Other, "timed out".to_string());
    assert_eq!(t, Error::Trap("Unknown OS error".to_string(), Some("timed out".to_string())));
    assert_eq!(t.message(), "Trap: Unknown OS error");
}

#[test]
fn exit_status_is_kept() {
    let e = I32Exit(3);
    assert_eq!(e.0, 3);
    assert_eq!(e.message(), "Exited with i32 exit status 3");
    assert_eq!(I32Exit(0).message(), "Exited with i32 exit status 0");
    assert_eq!(I32Exit(-120).message(), "Exited with i32 exit status -120");
    assert_eq!(I32Exit(i32::MIN).message(), "Exited with i32 exit status -2147483648");
    assert_eq!(I32Exit(i32::MAX).message(), "Exited with i32 exit status 2147483647");
}

#[test]
fn messages_name_the_outcome() {
    assert_eq!(Error::not_found().message(), "Noent: Not found");
    assert_eq!(Error::too_big().message(), "TooBig: Argument list too long");
    assert_eq!(Error::badf().message(), "Badf: Bad file descriptor");
    assert_eq!(Error::exist().message(), "Exist: File exists");
    assert_eq!(Error::illegal_byte_sequence().message(), "Ilseq: Illegal byte sequence");
    assert_eq!(Error::invalid_argument().message(), "Inval: Invalid argument");
    assert_eq!(Error::io().message(), "Io: I/O error");
    assert_eq!(Error::name_too_long().message(), "Nametoolong: Filename too long");
    assert_eq!(
        Error::not_dir().message(),
        "Notdir: Not a directory or a symbolic link to a directory"
    );
    assert_eq!(
        Error::not_supported().message(),
        "Notsup: Not supported, or operation not supported on socket"
    );
    assert_eq!(Error::overflow().message(), "Overflow: Value too large to be stored in data type");
    assert_eq!(Error::range().message(), "Range: Result too large");
    assert_eq!(Error::seek_pipe().message(), "Spipe: Invalid seek");
    assert_eq!(Error::perm().message(), "Perm: Permission denied");
    assert_eq!(Error::trap("boom".to_string()).message(), "Trap: boom");
    assert_eq!(Error::Timedout.message(), "Timedout: Connection timed out");
}

#[test]
fn failed_integer_conversion_is_overflow() {
    let err = u8::try_from(300u32).unwrap_err();
    assert_eq!(Error::from(err), Error::Overflow);
}
