use crate::region::Region;
use vstd::prelude::*;

verus! {

/// A calling-convention violation by the guest: a pointer, length or value
/// handed across the boundary that cannot be honoured.
#[derive(Debug, PartialEq, Eq)]
pub enum GuestError {
    InvalidFlagValue(&'static str),
    InvalidEnumValue(&'static str),
    PtrOverflow,
    PtrOutOfBounds(Region),
    PtrNotAligned(Region, u32),
    PtrBorrowed(Region),
    BorrowCheckerOutOfHandles,
    SliceLengthsDiffer,
    InvalidUtf8,
    TryFromIntError,
}

/// A fault that aborts the current host call instead of returning a value to the guest.
#[derive(Debug, PartialEq, Eq)]
pub enum Fault {
    /// The guest broke the calling convention.
    Guest(GuestError),
    /// A handle that is not live was used or released: a misuse by the host.
    StaleHandle(u64),
    /// A write was attempted through a handle that holds only a shared borrow.
    SharedWrite(u64),
    /// The value handed for encoding does not have the declared type.
    TypeMismatch,
    /// A function declared never to return came back normally.
    DivergedReturned,
    /// A trap raised by host logic, with its message and the context added to it.
    Host(String, Vec<String>),
}

/// What an [`Error`] holds: a value of the function's declared error type, or a trap.
#[derive(Debug)]
pub enum ErrorPayload<T> {
    Domain(T),
    Trap(String),
}

/// The error of a host function: a declared domain error `T`, or a trap that
/// aborts the call, with a chain of human-readable context.
#[derive(Debug)]
pub struct Error<T> {
    payload: ErrorPayload<T>,
    context: Vec<String>,
}

impl<T> Error<T> {
    pub closed spec fn payload(&self) -> ErrorPayload<T> {
        self.payload
    }

    /// The context added so far, oldest first.
    pub closed spec fn contexts(&self) -> Seq<String> {
        self.context@
    }

    /// A domain error carrying `err`, with no context.
    pub fn new(err: T) -> (r: Error<T>)
        ensures
            r.payload() == ErrorPayload::Domain(err),
            r.contexts() == Seq::<String>::empty(),
    {
        Error { payload: ErrorPayload::Domain(err), context: Vec::new() }
    }

    /// A trap with message `msg`, with no context.
    pub fn trap(msg: String) -> (r: Error<T>)
        ensures
            r.payload() == ErrorPayload::<T>::Trap(msg),
            r.contexts() == Seq::<String>::empty(),
    {
        Error { payload: ErrorPayload::Trap(msg), context: Vec::new() }
    }

    /// The domain error, or the error itself unchanged when it is a trap.
    pub fn downcast(self) -> (r: Result<T, Error<T>>)
        ensures
            match self.payload() {
                ErrorPayload::Domain(t) => r == Ok::<T, Error<T>>(t),
                ErrorPayload::Trap(_) => r == Err::<T, Error<T>>(self),
            },
    {
        match self.payload {
            ErrorPayload::Domain(t) => Ok(t),
            ErrorPayload::Trap(m) => Err(Error { payload: ErrorPayload::Trap(m), context: self.context }),
        }
    }

    pub fn downcast_ref(&self) -> (r: Option<&T>)
        ensures
            match self.payload() {
                ErrorPayload::Domain(t) => r == Some(&t),
                ErrorPayload::Trap(_) => r is None,
            },
    {
        match &self.payload {
            ErrorPayload::Domain(t) => Some(t),
            ErrorPayload::Trap(_) => None,
        }
    }

    pub fn downcast_mut(&mut self) -> (r: Option<&mut T>)
        ensures
            final(self).contexts() == old(self).contexts(),
            match old(self).payload() {
                ErrorPayload::Domain(t) => r matches Some(m) && *m == t && final(self).payload()
                    == ErrorPayload::Domain(*final(m)),
                ErrorPayload::Trap(_) => r is None && final(self).payload() == old(self).payload(),
            },
    {
        match &mut self.payload {
            ErrorPayload::Domain(t) => Some(t),
            ErrorPayload::Trap(_) => None,
        }
    }

    pub fn is_trap(&self) -> (r: bool)
        ensures
            r == self.payload() is Trap,
    {
        match &self.payload {
            ErrorPayload::Domain(_) => false,
            ErrorPayload::Trap(_) => true,
        }
    }

    /// The payload, dropping the context.
    pub fn into_inner(self) -> (r: ErrorPayload<T>)
        ensures
            r == self.payload(),
    {
        self.payload
    }

    /// The payload and the context chain, oldest first.
    pub fn into_parts(self) -> (r: (ErrorPayload<T>, Vec<String>))
        ensures
            r.0 == self.payload(),
            r.1@ == self.contexts(),
    {
        (self.payload, self.context)
    }

    /// The context chain, oldest first.
    pub fn context_chain(&self) -> (r: &Vec<String>)
        ensures
            r@ == self.contexts(),
    {
        &self.context
    }

    /// Adds one line of context; the payload is kept.
    pub fn context(self, context: String) -> (r: Error<T>)
        ensures
            r.payload() == self.payload(),
            r.contexts() == self.contexts().push(context),
    {
        let mut c = self.context;
        c.push(context);
        Error { payload: self.payload, context: c }
    }
}

} // verus!
