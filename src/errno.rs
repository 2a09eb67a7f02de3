use vstd::prelude::*;
use vstd::string::StringExecFns;

verus! {

/// The canonical, platform-independent outcomes that every failure of a
/// host operation is normalised into before it crosses to the guest.
#[derive(Debug, PartialEq, Eq)]
#[non_exhaustive]
pub enum Error {
    /// Trap execution: its message, and the diagnostic of the failure it
    /// stands for, if any
    Trap(String, Option<String>),
    /// Argument list too long
    TooBig,
    /// Resource temporarily unavailable
    Again,
    /// Permission denied
    Acces,
    /// Address in use
    Addrinuse,
    /// Address family not supported
    Afnosupport,
    /// Address not available
    Addrnotavail,
    /// Connection already in progress
    Already,
    /// Bad file descriptor
    Badf,
    /// Device or resource busy
    Busy,
    /// Operation canceled
    Canceled,
    /// Connection aborted
    Connaborted,
    /// Connection refused
    Connrefused,
    /// Connection reset
    Connreset,
    /// Destination address required
    Destaddrreq,
    /// Reserved
    Dquot,
    /// File exists
    Exist,
    /// Bad address
    Fault,
    /// File too large
    Fbig,
    /// Host is unreachable
    Hostunreach,
    /// Illegal byte sequence
    Ilseq,
    /// Operation in progress
    Inprogress,
    /// Interrupted function
    Intr,
    /// Invalid argument
    Inval,
    /// I/O error
    Io,
    /// Socket is connected
    Isconn,
    /// Is a directory
    Isdir,
    /// Too many levels of symbolic links
    Loop,
    /// File descriptor value too large
    Mfile,
    /// Too many links
    Mlink,
    /// Message too large
    Msgsize,
    /// Filename too long
    Nametoolong,
    /// Network down
    Netdown,
    /// Connection aborted by network
    Netreset,
    /// Network unreachable
    Netunreach,
    /// Too many files open in system
    Nfile,
    /// No buffer space available
    Nobufs,
    /// Not found
    Noent,
    /// Not enough space
    Nomem,
    /// Protocol not available
    Noprotoopt,
    /// No space left on device
    Nospc,
    /// The socket is not connected
    Notconn,
    /// Not a directory or a symbolic link to a directory.
    Notdir,
    /// Directory not empty
    Notempty,
    /// Not a socket
    Notsock,
    /// Not supported, or operation not supported on socket.
    Notsup,
    /// Value too large to be stored in data type.
    Overflow,
    /// Permission denied
    Perm,
    /// Broken pipe
    Pipe,
    /// Protocol not supported
    Protonosupport,
    /// Protocol wrong type for socket
    Prototype,
    /// Result too large
    Range,
    /// Invalid seek
    Spipe,
    /// Reserved
    Stale,
    /// Connection timed out
    Timedout,
}

impl Error {
    /// A trap with message `e`.
    pub fn trap(e: String) -> (r: Self)
        ensures
            r == Error::Trap(e, None),
    {
        Error::Trap(e, None)
    }

    pub fn not_found() -> (r: Self)
        ensures
            r == Error::Noent,
    {
        Error::Noent
    }

    pub fn too_big() -> (r: Self)
        ensures
            r == Error::TooBig,
    {
        Error::TooBig
    }

    pub fn badf() -> (r: Self)
        ensures
            r == Error::Badf,
    {
        Error::Badf
    }

    pub fn exist() -> (r: Self)
        ensures
            r == Error::Exist,
    {
        Error::Exist
    }

    pub fn illegal_byte_sequence() -> (r: Self)
        ensures
            r == Error::Ilseq,
    {
        Error::Ilseq
    }

    pub fn invalid_argument() -> (r: Self)
        ensures
            r == Error::Inval,
    {
        Error::Inval
    }

    pub fn io() -> (r: Self)
        ensures
            r == Error::Io,
    {
        Error::Io
    }

    pub fn name_too_long() -> (r: Self)
        ensures
            r == Error::Nametoolong,
    {
        Error::Nametoolong
    }

    pub fn not_dir() -> (r: Self)
        ensures
            r == Error::Notdir,
    {
        Error::Notdir
    }

    pub fn not_supported() -> (r: Self)
        ensures
            r == Error::Notsup,
    {
        Error::Notsup
    }

    pub fn overflow() -> (r: Self)
        ensures
            r == Error::Overflow,
    {
        Error::Overflow
    }

    pub fn range() -> (r: Self)
        ensures
            r == Error::Range,
    {
        Error::Range
    }

    pub fn seek_pipe() -> (r: Self)
        ensures
            r == Error::Spipe,
    {
        Error::Spipe
    }

    pub fn perm() -> (r: Self)
        ensures
            r == Error::Perm,
    {
        Error::Perm
    }

}

/// The human-readable text of an outcome: its name, then what it means.
pub open spec fn message_of(e: Error) -> Seq<char> {
    match e {
        Error::Trap(m, _) => "Trap: "@ + m@,
        Error::TooBig => "TooBig: Argument list too long"@,
        Error::Again => "Again: Resource temporarily unavailable"@,
        Error::Acces => "Acces: Permission denied"@,
        Error::Addrinuse => "Addrinuse: Address in use"@,
        Error::Afnosupport => "Afnosupport: Address family not supported"@,
        Error::Addrnotavail => "Addrnotavail: Address not available"@,
        Error::Already => "Already: Connection already in progress"@,
        Error::Badf => "Badf: Bad file descriptor"@,
        Error::Busy => "Busy: Device or resource busy"@,
        Error::Canceled => "Canceled: Operation canceled"@,
        Error::Connaborted => "Connaborted: Connection aborted"@,
        Error::Connrefused => "Connrefused: Connection refused"@,
        Error::Connreset => "Connreset: Connection reset"@,
        Error::Destaddrreq => "Destaddrreq: Destination address required"@,
        Error::Dquot => "Dquot: Reserved"@,
        Error::Exist => "Exist: File exists"@,
        Error::Fault => "Fault: Bad address"@,
        Error::Fbig => "Fbig: File too large"@,
        Error::Hostunreach => "Hostunreach: Host is unreachable"@,
        Error::Ilseq => "Ilseq: Illegal byte sequence"@,
        Error::Inprogress => "Inprogress: Operation in progress"@,
        Error::Intr => "Intr: Interrrupted function"@,
        Error::Inval => "Inval: Invalid argument"@,
        Error::Io => "Io: I/O error"@,
        Error::Isconn => "Isconn: Socket is connected"@,
        Error::Isdir => "Isdir: Is a directory"@,
        Error::Loop => "Loop: Too many levels of symbolic links"@,
        Error::Mfile => "Mfile: File descriptor value too large"@,
        Error::Mlink => "Mlink: Too many links"@,
        Error::Msgsize => "Msgsize: Message too large"@,
        Error::Nametoolong => "Nametoolong: Filename too long"@,
        Error::Netdown => "Netdown: Network down"@,
        Error::Netreset => "Netreset: Connection aborted by network"@,
        Error::Netunreach => "Netunreach: Network unreachable"@,
        Error::Nfile => "Nfile: Too many files open in system"@,
        Error::Nobufs => "Nobufs: No buffer space available"@,
        Error::Noent => "Noent: Not found"@,
        Error::Nomem => "Nomem: Not enough space"@,
        Error::Noprotoopt => "Noprotoopt: Protocol not available"@,
        Error::Nospc => "Nospc: No space left on device"@,
        Error::Notconn => "Notconn: The socket is not connected"@,
        Error::Notdir => "Notdir: Not a directory or a symbolic link to a directory"@,
        Error::Notempty => "Notempty: Directory not empty"@,
        Error::Notsock => "Notsock: Not a socket"@,
        Error::Notsup => "Notsup: Not supported, or operation not supported on socket"@,
        Error::Overflow => "Overflow: Value too large to be stored in data type"@,
        Error::Perm => "Perm: Permission denied"@,
        Error::Pipe => "Pipe: Broken pipe"@,
        Error::Protonosupport => "Protonosupport: Protocol not supported"@,
        Error::Prototype => "Prototype: Protocol wrong type for socket"@,
        Error::Range => "Range: Result too large"@,
        Error::Spipe => "Spipe: Invalid seek"@,
        Error::Stale => "Stale: Reserved"@,
        Error::Timedout => "Timedout: Connection timed out"@,
    }
}

impl Error {
    /// The human-readable text of this outcome.
    pub fn message(&self) -> (r: String)
        ensures
            r@ == message_of(*self),
    {
        match self {
            Error::Trap(m, _) => String::from_str("Trap: ").concat(m.as_str()),
            Error::TooBig => String::from_str("TooBig: Argument list too long"),
            Error::Again => String::from_str("Again: Resource temporarily unavailable"),
            Error::Acces => String::from_str("Acces: Permission denied"),
            Error::Addrinuse => String::from_str("Addrinuse: Address in use"),
            Error::Afnosupport => String::from_str("Afnosupport: Address family not supported"),
            Error::Addrnotavail => String::from_str("Addrnotavail: Address not available"),
            Error::Already => String::from_str("Already: Connection already in progress"),
            Error::Badf => String::from_str("Badf: Bad file descriptor"),
            Error::Busy => String::from_str("Busy: Device or resource busy"),
            Error::Canceled => String::from_str("Canceled: Operation canceled"),
            Error::Connaborted => String::from_str("Connaborted: Connection aborted"),
            Error::Connrefused => String::from_str("Connrefused: Connection refused"),
            Error::Connreset => String::from_str("Connreset: Connection reset"),
            Error::Destaddrreq => String::from_str("Destaddrreq: Destination address required"),
            Error::Dquot => String::from_str("Dquot: Reserved"),
            Error::Exist => String::from_str("Exist: File exists"),
            Error::Fault => String::from_str("Fault: Bad address"),
            Error::Fbig => String::from_str("Fbig: File too large"),
            Error::Hostunreach => String::from_str("Hostunreach: Host is unreachable"),
            Error::Ilseq => String::from_str("Ilseq: Illegal byte sequence"),
            Error::Inprogress => String::from_str("Inprogress: Operation in progress"),
            Error::Intr => String::from_str("Intr: Interrrupted function"),
            Error::Inval => String::from_str("Inval: Invalid argument"),
            Error::Io => String::from_str("Io: I/O error"),
            Error::Isconn => String::from_str("Isconn: Socket is connected"),
            Error::Isdir => String::from_str("Isdir: Is a directory"),
            Error::Loop => String::from_str("Loop: Too many levels of symbolic links"),
            Error::Mfile => String::from_str("Mfile: File descriptor value too large"),
            Error::Mlink => String::from_str("Mlink: Too many links"),
            Error::Msgsize => String::from_str("Msgsize: Message too large"),
            Error::Nametoolong => String::from_str("Nametoolong: Filename too long"),
            Error::Netdown => String::from_str("Netdown: Network down"),
            Error::Netreset => String::from_str("Netreset: Connection aborted by network"),
            Error::Netunreach => String::from_str("Netunreach: Network unreachable"),
            Error::Nfile => String::from_str("Nfile: Too many files open in system"),
            Error::Nobufs => String::from_str("Nobufs: No buffer space available"),
            Error::Noent => String::from_str("Noent: Not found"),
            Error::Nomem => String::from_str("Nomem: Not enough space"),
            Error::Noprotoopt => String::from_str("Noprotoopt: Protocol not available"),
            Error::Nospc => String::from_str("Nospc: No space left on device"),
            Error::Notconn => String::from_str("Notconn: The socket is not connected"),
            Error::Notdir => String::from_str("Notdir: Not a directory or a symbolic link to a directory"),
            Error::Notempty => String::from_str("Notempty: Directory not empty"),
            Error::Notsock => String::from_str("Notsock: Not a socket"),
            Error::Notsup => String::from_str("Notsup: Not supported, or operation not supported on socket"),
            Error::Overflow => String::from_str("Overflow: Value too large to be stored in data type"),
            Error::Perm => String::from_str("Perm: Permission denied"),
            Error::Pipe => String::from_str("Pipe: Broken pipe"),
            Error::Protonosupport => String::from_str("Protonosupport: Protocol not supported"),
            Error::Prototype => String::from_str("Prototype: Protocol wrong type for socket"),
            Error::Range => String::from_str("Range: Result too large"),
            Error::Spipe => String::from_str("Spipe: Invalid seek"),
            Error::Stale => String::from_str("Stale: Reserved"),
            Error::Timedout => String::from_str("Timedout: Connection timed out"),
        }
    }
}

/// An integer conversion that does not fit is an overflow.
impl From<std::num::TryFromIntError> for Error {
    fn from(err: std::num::TryFromIntError) -> (r: Error)
        ensures
            r == Error::Overflow,
    {
        Error::Overflow
    }
}

impl vstd::std_specs::convert::FromSpecImpl<std::num::TryFromIntError> for Error {
    open spec fn obeys_from_spec() -> bool {
        true
    }

    open spec fn from_spec(v: std::num::TryFromIntError) -> Error {
        Error::Overflow
    }
}

/// The coarse, platform-independent classification of an I/O failure.
#[derive(Debug, Clone, Copy, PartialEq, Eq, Structural)]
pub enum IoKind {
    NotFound,
    PermissionDenied,
    AlreadyExists,
    InvalidInput,
    Other,
}

/// The canonical outcome for a coarse classification alone, if it has one.
pub open spec fn coarse_outcome(kind: IoKind) -> Option<Error> {
    match kind {
        IoKind::NotFound => Some(Error::Noent),
        IoKind::PermissionDenied => Some(Error::Perm),
        IoKind::AlreadyExists => Some(Error::Exist),
        IoKind::InvalidInput => Some(Error::Inval),
        IoKind::Other => None,
    }
}

impl Error {
    /// Normalises a platform failure: the entry for its native code if the
    /// platform table has one; else the outcome of its coarse kind; else a
    /// trap with the message "Unknown OS error" that keeps the diagnostic.
    pub fn from_platform(native: Option<Error>, kind: IoKind, diagnostic: String) -> (r: Error)
        ensures
            native matches Some(e) ==> r == e,
            native is None ==> match coarse_outcome(kind) {
                Some(e) => r == e,
                None => r matches Error::Trap(m, Some(d)) && m@ == "Unknown OS error"@ && d == diagnostic,
            },
    {
        match native {
            Some(e) => e,
            None => match kind {
                IoKind::NotFound => Error::Noent,
                IoKind::PermissionDenied => Error::Perm,
                IoKind::AlreadyExists => Error::Exist,
                IoKind::InvalidInput => Error::Inval,
                IoKind::Other => Error::Trap(String::from_str("Unknown OS error"), Some(diagnostic)),
            },
        }
    }
}

/// The status with which a guest asked to exit; embedders may treat it as a
/// non-fatal trap.
#[derive(Debug, Clone, Copy, PartialEq, Eq, Structural)]
pub struct I32Exit(pub i32);

/// The character of decimal digit `d`.
pub open spec fn digit_char(d: nat) -> char {
    if d == 0 { '0' } else if d == 1 { '1' } else if d == 2 { '2' } else if d == 3 { '3' } else if d == 4 {
        '4'
    } else if d == 5 { '5' } else if d == 6 { '6' } else if d == 7 { '7' } else if d == 8 { '8' } else { '9' }
}

/// The decimal digits of `n`, most significant first, without leading zeros.
pub open spec fn decimal(n: nat) -> Seq<char>
    decreases n,
{
    if n < 10 {
        seq![digit_char(n)]
    } else {
        decimal(n / 10) + seq![digit_char(n % 10)]
    }
}

/// `v` in decimal, with a leading minus sign when negative.
pub open spec fn signed_decimal(v: int) -> Seq<char> {
    if v < 0 {
        seq!['-'] + decimal((-v) as nat)
    } else {
        decimal(v as nat)
    }
}

fn digit_str(d: u64) -> (r: &'static str)
    requires
        d < 10,
    ensures
        r@ == seq![digit_char(d as nat)],
{
    proof {
        reveal_strlit("0");
        reveal_strlit("1");
        reveal_strlit("2");
        reveal_strlit("3");
        reveal_strlit("4");
        reveal_strlit("5");
        reveal_strlit("6");
        reveal_strlit("7");
        reveal_strlit("8");
        reveal_strlit("9");
    }
    match d {
        0 => "0",
        1 => "1",
        2 => "2",
        3 => "3",
        4 => "4",
        5 => "5",
        6 => "6",
        7 => "7",
        8 => "8",
        _ => "9",
    }
}

fn push_decimal(out: &mut String, n: u64)
    ensures
        final(out)@ == old(out)@ + decimal(n as nat),
    decreases n,
{
    if n >= 10 {
        push_decimal(out, n / 10);
    }
    out.append(digit_str(n % 10));
    proof {
        if n < 10 {
            assert(n % 10 == n);
        } else {
            assert(old(out)@ + decimal(n as nat) =~= old(out)@ + decimal((n / 10) as nat) + seq![
                digit_char((n % 10) as nat),
            ]);
        }
    }
}

impl I32Exit {
    /// The text that reports this exit status.
    pub fn message(&self) -> (r: String)
        ensures
            r@ == "Exited with i32 exit status "@ + signed_decimal(self.0 as int),
    {
        let mut out = String::from_str("Exited with i32 exit status ");
        let magnitude: u64 = if self.0 < 0 {
            out.append("-");
            proof {
                reveal_strlit("-");
            }
            (-(self.0 as i64)) as u64
        } else {
            self.0 as u64
        };
        push_decimal(&mut out, magnitude);
        proof {
            assert(out@ =~= "Exited with i32 exit status "@ + signed_decimal(self.0 as int));
        }
        out
    }
}

} // verus!
