use crate::borrow::{BorrowHandle, Entry};
use crate::codec::{le_value, pow256};
use crate::error::{Error, ErrorPayload, Fault, GuestError};
use crate::memory::{access_outcome, access_outcome_in, overwrite, GuestMemory};
use crate::ptr::{
    decode_value, encode_value, ptr_region, spec_read, spec_write_outcome, valid_value, GuestPtr,
    GuestType, IntRepr,
};
use crate::region::{region_end, Region};
use crate::slice::{array_element, array_region, borrow_array_mut, read_array, read_str, spec_read_str};
use crate::text::utf8_decoding;
use vstd::prelude::*;

verus! {

/// How one declared parameter crosses the boundary.
#[derive(Debug, Clone, Copy, PartialEq, Eq)]
pub enum ParamKind {
    /// An integer passed by value in one word.
    Value(IntRepr),
    /// The address of one value of the type, in one word.
    Pointer(GuestType),
    /// The address and byte length of UTF-8 text, in two words.
    Str,
    /// The address and element count of an array read by the host, in two words.
    Array(IntRepr),
    /// The address and element count of an array the host may write during
    /// the call, in two words; it stays exclusively borrowed until the call ends.
    ArrayMut(IntRepr),
}

/// The declared error enumeration of a function.
#[derive(Debug, Clone, Copy, PartialEq, Eq, Structural)]
pub struct ErrorEnum {
    /// The number of variants; a variant's ABI code is its index.
    pub variants: u16,
    /// The variant that stands for running out of borrow handles, if any.
    pub out_of_handles: Option<u16>,
}

/// One declared function: its parameters in order, the type it returns
/// through an output pointer, its error enumeration, and whether it never returns.
#[derive(Debug, PartialEq, Eq)]
pub struct FuncSig {
    pub params: Vec<ParamKind>,
    pub result: Option<GuestType>,
    pub error: Option<ErrorEnum>,
    pub diverges: bool,
}

/// Why a signature is refused.
#[derive(Debug, Clone, Copy, PartialEq, Eq, Structural)]
pub enum SigError {
    /// A function that never returns declares a result or an error type.
    DivergesWithResult,
    /// A function that touches memory has no error variant for running out of handles.
    ExhaustionUnrepresentable,
    /// The exhaustion variant is not a variant of the enumeration.
    BadExhaustionVariant,
}

/// A decoded argument handed to host logic.
#[derive(Debug)]
pub enum Arg {
    Int(u64),
    Text(String),
    Array(Vec<u64>),
    ArrayMut(BorrowHandle),
}

pub open spec fn param_words(p: ParamKind) -> nat {
    match p {
        ParamKind::Value(_) | ParamKind::Pointer(_) => 1,
        _ => 2,
    }
}

/// The number of ABI words that the first `i` parameters take.
pub open spec fn words_before(params: Seq<ParamKind>, i: int) -> nat
    decreases i,
{
    if i <= 0 {
        0
    } else {
        words_before(params, i - 1) + param_words(params[i - 1])
    }
}

/// The number of ABI words a call of `sig` takes: its parameters, then the
/// output pointer if it returns a value.
pub open spec fn abi_words(sig: FuncSig) -> nat {
    words_before(sig.params@, sig.params@.len() as int) + if sig.result is Some {
        1nat
    } else {
        0nat
    }
}

pub open spec fn touches_memory(sig: FuncSig) -> bool {
    sig.result is Some || exists|i: int| 0 <= i < sig.params@.len() && !(#[trigger] sig.params@[i] is Value)
}

pub open spec fn sig_error(sig: FuncSig) -> Option<SigError> {
    if sig.diverges && (sig.result is Some || sig.error is Some) {
        Some(SigError::DivergesWithResult)
    } else if touches_memory(sig) && !(sig.error matches Some(e) && e.out_of_handles is Some) {
        Some(SigError::ExhaustionUnrepresentable)
    } else if sig.error matches Some(e) && e.out_of_handles matches Some(c) && c >= e.variants {
        Some(SigError::BadExhaustionVariant)
    } else {
        None
    }
}

impl FuncSig {
    /// Accepts a signature, or names why glue cannot be made for it.
    pub fn validate(&self) -> (r: Result<(), SigError>)
        ensures
            match sig_error(*self) {
                Some(e) => r == Err::<(), SigError>(e),
                None => r is Ok,
            },
    {
        if self.diverges && (self.result.is_some() || self.error.is_some()) {
            return Err(SigError::DivergesWithResult);
        }
        let mut touches = self.result.is_some();
        let mut i: usize = 0;
        while i < self.params.len()
            invariant
                i <= self.params@.len(),
                touches == (self.result is Some || exists|k: int| 0 <= k < i && !(#[trigger] self.params@[k] is Value)),
            decreases self.params@.len() - i,
        {
            match self.params[i] {
                ParamKind::Value(_) => {},
                _ => { touches = true; },
            }
            i = i + 1;
        }
        match self.error {
            Some(e) => match e.out_of_handles {
                Some(c) => if c >= e.variants {
                    Err(SigError::BadExhaustionVariant)
                } else {
                    Ok(())
                },
                None => if touches {
                    Err(SigError::ExhaustionUnrepresentable)
                } else {
                    Ok(())
                },
            },
            None => if touches {
                Err(SigError::ExhaustionUnrepresentable)
            } else {
                Ok(())
            },
        }
    }

    /// The number of ABI words a call takes.
    pub fn abi_len(&self) -> (r: usize)
        requires
            abi_words(*self) <= usize::MAX,
        ensures
            r == abi_words(*self),
    {
        let mut n: usize = 0;
        let mut i: usize = 0;
        while i < self.params.len()
            invariant
                i <= self.params@.len(),
                n == words_before(self.params@, i as int),
                abi_words(*self) <= usize::MAX,
            decreases self.params@.len() - i,
        {
            proof {
                lemma_words_before_mono(self.params@, i as int + 1, self.params@.len() as int);
            }
            n = n + if matches!(self.params[i], ParamKind::Value(_) | ParamKind::Pointer(_)) { 1 } else { 2 };
            i = i + 1;
        }
        if self.result.is_some() {
            n + 1
        } else {
            n
        }
    }
}

pub proof fn lemma_words_before_mono(params: Seq<ParamKind>, i: int, j: int)
    requires
        0 <= i <= j,
    ensures
        words_before(params, i) <= words_before(params, j),
    decreases j - i,
{
    if i < j {
        lemma_words_before_mono(params, i, j - 1);
    }
}

/// The address in word `w`, if it is a 32-bit address.
pub open spec fn addr_of(w: u64) -> Option<u32> {
    if w <= u32::MAX {
        Some(w as u32)
    } else {
        None
    }
}

fn to_addr(w: u64) -> (r: Result<u32, GuestError>)
    ensures
        match addr_of(w) {
            Some(a) => r == Ok::<u32, GuestError>(a),
            None => r == Err::<u32, GuestError>(GuestError::TryFromIntError),
        },
{
    if w <= u32::MAX as u64 {
        Ok(w as u32)
    } else {
        Err(GuestError::TryFromIntError)
    }
}

/// Argument `a` is what parameter `p`, whose words start at `at` of `ws`,
/// decodes to on memory bytes `m`.
pub open spec fn arg_decodes(p: ParamKind, ws: Seq<u64>, at: int, m: Seq<u8>, a: Arg) -> bool {
    match p {
        ParamKind::Value(repr) => a == Arg::Int(ws[at]) && (ws[at] as nat) < pow256(repr.spec_size()),
        ParamKind::Pointer(ty) => addr_of(ws[at]) matches Some(o) && a matches Arg::Int(v)
            && o as int + ty.spec_size() <= m.len()
            && decode_value(ty, m.subrange(o as int, o + ty.spec_size())) == Ok::<u64, GuestError>(v),
        ParamKind::Str => addr_of(ws[at]) matches Some(o) && addr_of(ws[at + 1]) matches Some(n)
            && a matches Arg::Text(s) && o as int + n as int <= m.len()
            && utf8_decoding(m.subrange(o as int, o + n)) == Some(s@),
        ParamKind::Array(repr) => addr_of(ws[at]) matches Some(o) && addr_of(ws[at + 1]) matches Some(n)
            && a matches Arg::Array(v) && v@.len() == n && array_region(o, n, repr) is Some
            && forall|k: int| 0 <= k < n ==> #[trigger] v@[k] == array_element(m, o as int, repr, k),
        ParamKind::ArrayMut(repr) => addr_of(ws[at]) matches Some(o) && addr_of(ws[at + 1]) matches Some(n)
            && a matches Arg::ArrayMut(_) && array_region(o, n, repr) is Some,
    }
}

/// The borrow table as decoding goes: the live entries and the next handle.
pub type TableState = (Seq<Entry>, nat);

/// What decoding parameter `p`, whose words start at `at` of `ws`, does on
/// memory bytes `m` with at most `cap` entries and table `st`: the table
/// after it, or the error it fails with.
pub open spec fn decode_step(p: ParamKind, ws: Seq<u64>, at: int, m: Seq<u8>, cap: nat, st: TableState) -> Result<TableState, GuestError> {
    let (s, next) = st;
    match p {
        ParamKind::Value(repr) => if (ws[at] as nat) < pow256(repr.spec_size()) {
            Ok(st)
        } else {
            Err(GuestError::TryFromIntError)
        },
        ParamKind::Pointer(ty) => match addr_of(ws[at]) {
            None => Err(GuestError::TryFromIntError),
            Some(o) => {
                let g = ptr_region(GuestPtr { offset: o, ty });
                if o as int + ty.spec_size() > u32::MAX {
                    Err(GuestError::PtrOverflow)
                } else {
                    match access_outcome_in(m.len(), s, cap, next, g, ty.spec_size() as u32, false) {
                        Err(e) => Err(e),
                        Ok(_) => match decode_value(ty, m.subrange(o as int, region_end(g))) {
                            Err(e) => Err(e),
                            Ok(_) => Ok((s, next + 1)),
                        },
                    }
                }
            },
        },
        ParamKind::Str => match (addr_of(ws[at]), addr_of(ws[at + 1])) {
            (Some(o), Some(n)) => {
                let g = Region { start: o, len: n };
                if o as int + n as int > u32::MAX {
                    Err(GuestError::PtrOverflow)
                } else {
                    match access_outcome_in(m.len(), s, cap, next, g, 1, false) {
                        Err(e) => Err(e),
                        Ok(_) => match utf8_decoding(m.subrange(o as int, region_end(g))) {
                            None => Err(GuestError::InvalidUtf8),
                            Some(_) => Ok((s, next + 1)),
                        },
                    }
                }
            },
            _ => Err(GuestError::TryFromIntError),
        },
        ParamKind::Array(repr) => match (addr_of(ws[at]), addr_of(ws[at + 1])) {
            (Some(o), Some(n)) => match array_region(o, n, repr) {
                None => Err(GuestError::PtrOverflow),
                Some(g) => match access_outcome_in(m.len(), s, cap, next, g, repr.spec_size() as u32, false) {
                    Err(e) => Err(e),
                    Ok(_) => Ok((s, next + 1)),
                },
            },
            _ => Err(GuestError::TryFromIntError),
        },
        ParamKind::ArrayMut(repr) => match (addr_of(ws[at]), addr_of(ws[at + 1])) {
            (Some(o), Some(n)) => match array_region(o, n, repr) {
                None => Err(GuestError::PtrOverflow),
                Some(g) => match access_outcome_in(m.len(), s, cap, next, g, repr.spec_size() as u32, true) {
                    Err(e) => Err(e),
                    Ok(_) => Ok((s.push(Entry { handle: next as u64, region: g, exclusive: true }), next + 1)),
                },
            },
            _ => Err(GuestError::TryFromIntError),
        },
    }
}

/// Decoding the first `i` parameters in order from table `st0`: the table
/// after them, or the error of the first one that fails.
pub open spec fn decode_run(params: Seq<ParamKind>, ws: Seq<u64>, m: Seq<u8>, cap: nat, st0: TableState, i: int) -> Result<TableState, GuestError>
    decreases i,
{
    if i <= 0 {
        Ok(st0)
    } else {
        match decode_run(params, ws, m, cap, st0, i - 1) {
            Err(e) => Err(e),
            Ok(st) => decode_step(params[i - 1], ws, words_before(params, i - 1) as int, m, cap, st),
        }
    }
}

/// Once a parameter fails, the run ends with its error.
pub proof fn lemma_run_error_persists(params: Seq<ParamKind>, ws: Seq<u64>, m: Seq<u8>, cap: nat, st0: TableState, i: int, j: int)
    requires
        0 <= i <= j,
        decode_run(params, ws, m, cap, st0, i) is Err,
    ensures
        decode_run(params, ws, m, cap, st0, j) == decode_run(params, ws, m, cap, st0, i),
    decreases j - i,
{
    if i < j {
        lemma_run_error_persists(params, ws, m, cap, st0, i, j - 1);
    }
}

/// Two mutable arrays of one call, each in bounds and aligned, with no
/// other live borrow and room for two: when their regions do not overlap,
/// decoding grants both; when they overlap, it fails naming the first one.
pub proof fn lemma_two_mutable_arrays(
    r1: IntRepr,
    r2: IntRepr,
    ws: Seq<u64>,
    m: Seq<u8>,
    cap: nat,
    next: nat,
    g1: Region,
    g2: Region,
)
    requires
        ws.len() == 4,
        addr_of(ws[0]) is Some && addr_of(ws[1]) is Some && addr_of(ws[2]) is Some && addr_of(ws[3]) is Some,
        array_region(addr_of(ws[0])->Some_0, addr_of(ws[1])->Some_0, r1) == Some(g1),
        array_region(addr_of(ws[2])->Some_0, addr_of(ws[3])->Some_0, r2) == Some(g2),
        region_end(g1) <= m.len() && region_end(g2) <= m.len(),
        g1.start % (r1.spec_size() as u32) == 0,
        g2.start % (r2.spec_size() as u32) == 0,
        cap >= 2,
        next + 1 < u64::MAX,
    ensures
        !crate::region::spec_overlaps(g1, g2) ==> decode_run(
            seq![ParamKind::ArrayMut(r1), ParamKind::ArrayMut(r2)],
            ws,
            m,
            cap,
            (Seq::empty(), next),
            2,
        ) is Ok,
        crate::region::spec_overlaps(g1, g2) ==> decode_run(
            seq![ParamKind::ArrayMut(r1), ParamKind::ArrayMut(r2)],
            ws,
            m,
            cap,
            (Seq::empty(), next),
            2,
        ) == Err::<TableState, GuestError>(GuestError::PtrBorrowed(g1)),
{
    let params = seq![ParamKind::ArrayMut(r1), ParamKind::ArrayMut(r2)];
    reveal_with_fuel(words_before, 3);
    reveal_with_fuel(decode_run, 3);
    assert(words_before(params, 1) == 2);
    crate::memory::lemma_pair_of_borrows(cap, next, g1, true, g2, true);
    let e1 = Entry { handle: next as u64, region: g1, exclusive: true };
    assert(crate::memory::table_outcome(Seq::empty(), cap, next, g1, true) is Ok);
    assert(decode_run(params, ws, m, cap, (Seq::empty(), next), 1) == Ok::<TableState, GuestError>(
        (Seq::<Entry>::empty().push(e1), next + 1),
    ));
    assert(Seq::<Entry>::empty().push(e1) =~= seq![e1]);
}

/// Decodes parameter `p`, whose words start at `at`. A mutable array keeps
/// its exclusive borrow; every other access is released before returning.
pub fn decode_one(mem: &mut GuestMemory, p: ParamKind, ws: &Vec<u64>, at: usize) -> (r: Result<Arg, GuestError>)
    requires
        old(mem).wf(),
        at + param_words(p) <= ws@.len(),
    ensures
        final(mem).wf(),
        final(mem).bytes() == old(mem).bytes(),
        final(mem).cap() == old(mem).cap(),
        final(mem).next_handle() >= old(mem).next_handle(),
        r matches Ok(a) ==> arg_decodes(p, ws@, at as int, old(mem).bytes(), a),
        match decode_step(p, ws@, at as int, old(mem).bytes(), old(mem).cap(), (old(mem).live(), old(mem).next_handle())) {
            Ok(st) => r is Ok && final(mem).live() == st.0 && final(mem).next_handle() == st.1,
            Err(e) => r == Err::<Arg, GuestError>(e),
        },
        match r {
            Ok(Arg::ArrayMut(h)) => {
                &&& addr_of(ws@[at as int]) matches Some(o)
                &&& addr_of(ws@[at + 1]) matches Some(n)
                &&& p matches ParamKind::ArrayMut(repr)
                &&& array_region(o, n, repr) matches Some(g)
                &&& final(mem).live() == old(mem).live().push(
                    (Entry { handle: h.0, region: g, exclusive: true }),
                )
            },
            _ => final(mem).live() == old(mem).live(),
        },
        match p {
            ParamKind::Value(repr) => r is Err <==> (ws@[at as int] as nat) >= pow256(repr.spec_size()),
            ParamKind::Pointer(ty) => match addr_of(ws@[at as int]) {
                None => r == Err::<Arg, GuestError>(GuestError::TryFromIntError),
                Some(o) => match spec_read(*old(mem), GuestPtr { offset: o, ty }) {
                    Ok(v) => r matches Ok(Arg::Int(x)) && x == v,
                    Err(e) => r == Err::<Arg, GuestError>(e),
                },
            },
            ParamKind::Str => match (addr_of(ws@[at as int]), addr_of(ws@[at + 1])) {
                (Some(o), Some(n)) => match spec_read_str(*old(mem), o, n) {
                    Ok(t) => r matches Ok(Arg::Text(x)) && x@ == t,
                    Err(e) => r == Err::<Arg, GuestError>(e),
                },
                _ => r == Err::<Arg, GuestError>(GuestError::TryFromIntError),
            },
            ParamKind::Array(repr) => match (addr_of(ws@[at as int]), addr_of(ws@[at + 1])) {
                (Some(o), Some(n)) => match array_region(o, n, repr) {
                    None => r == Err::<Arg, GuestError>(GuestError::PtrOverflow),
                    Some(g) => match access_outcome(*old(mem), g, repr.spec_size() as u32, false) {
                        Ok(_) => r is Ok,
                        Err(e) => r == Err::<Arg, GuestError>(e),
                    },
                },
                _ => r == Err::<Arg, GuestError>(GuestError::TryFromIntError),
            },
            ParamKind::ArrayMut(repr) => match (addr_of(ws@[at as int]), addr_of(ws@[at + 1])) {
                (Some(o), Some(n)) => match array_region(o, n, repr) {
                    None => r == Err::<Arg, GuestError>(GuestError::PtrOverflow),
                    Some(g) => match access_outcome(*old(mem), g, repr.spec_size() as u32, true) {
                        Ok(_) => r is Ok,
                        Err(e) => r == Err::<Arg, GuestError>(e),
                    },
                },
                _ => r == Err::<Arg, GuestError>(GuestError::TryFromIntError),
            },
        },
{
    let word_count = ws.len();
    proof {
        assert(at + param_words(p) <= word_count);
    }
    match p {
        ParamKind::Value(repr) => {
            let w = ws[at];
            let ok = match repr {
                IntRepr::U8 => w <= 0xff,
                IntRepr::U16 => w <= 0xffff,
                IntRepr::U32 => w <= 0xffff_ffff,
                IntRepr::U64 => true,
            };
            proof {
                reveal_with_fuel(pow256, 9);
            }
            if ok {
                Ok(Arg::Int(w))
            } else {
                Err(GuestError::TryFromIntError)
            }
        },
        ParamKind::Pointer(ty) => {
            let o = match to_addr(ws[at]) {
                Ok(o) => o,
                Err(e) => { return Err(e); },
            };
            match (GuestPtr { offset: o, ty }).read(mem) {
                Ok(v) => Ok(Arg::Int(v)),
                Err(e) => Err(e),
            }
        },
        ParamKind::Str => {
            let o = match to_addr(ws[at]) {
                Ok(o) => o,
                Err(e) => { return Err(e); },
            };
            let n = match to_addr(ws[at + 1]) {
                Ok(n) => n,
                Err(e) => { return Err(e); },
            };
            match read_str(mem, o, n) {
                Ok(s) => Ok(Arg::Text(s)),
                Err(e) => Err(e),
            }
        },
        ParamKind::Array(repr) => {
            let o = match to_addr(ws[at]) {
                Ok(o) => o,
                Err(e) => { return Err(e); },
            };
            let n = match to_addr(ws[at + 1]) {
                Ok(n) => n,
                Err(e) => { return Err(e); },
            };
            match read_array(mem, o, n, repr) {
                Ok(v) => Ok(Arg::Array(v)),
                Err(e) => Err(e),
            }
        },
        ParamKind::ArrayMut(repr) => {
            let o = match to_addr(ws[at]) {
                Ok(o) => o,
                Err(e) => { return Err(e); },
            };
            let n = match to_addr(ws[at + 1]) {
                Ok(n) => n,
                Err(e) => { return Err(e); },
            };
            match borrow_array_mut(mem, o, n, repr) {
                Ok(h) => Ok(Arg::ArrayMut(h)),
                Err(e) => Err(e),
            }
        },
    }
}

/// The arguments of one call, and the handles of the exclusive borrows that
/// its mutable arrays hold until the call ends, oldest first.
#[derive(Debug)]
pub struct Decoded {
    pub args: Vec<Arg>,
    pub held: Vec<BorrowHandle>,
}

/// The live entries `t` are the entries `s` followed by exclusive ones
/// with the handles `held`, in order.
pub open spec fn holds_after(t: Seq<Entry>, s: Seq<Entry>, held: Seq<BorrowHandle>) -> bool {
    &&& t.len() == s.len() + held.len()
    &&& t.subrange(0, s.len() as int) == s
    &&& forall|j: int| 0 <= j < held.len() ==> (#[trigger] t[s.len() + j]).handle == held[j].0
        && t[s.len() + j].exclusive
}

/// Releases the borrows `held`, which are the newest live entries, newest first.
fn release_held(mem: &mut GuestMemory, held: &Vec<BorrowHandle>)
    requires
        old(mem).wf(),
        old(mem).live().len() >= held@.len(),
        forall|j: int| 0 <= j < held@.len() ==> (#[trigger] old(mem).live()[old(mem).live().len() - held@.len() + j]).handle == held@[j].0,
    ensures
        final(mem).wf(),
        final(mem).bytes() == old(mem).bytes(),
        final(mem).cap() == old(mem).cap(),
        final(mem).next_handle() == old(mem).next_handle(),
        final(mem).live() == old(mem).live().subrange(0, old(mem).live().len() - held@.len()),
{
    let ghost s = mem.live();
    let ghost base = s.len() - held@.len();
    let mut k: usize = held.len();
    proof {
        assert(s.subrange(0, base + k) =~= s);
    }
    while k > 0
        invariant
            k <= held@.len(),
            0 <= base,
            base + held@.len() == s.len(),
            mem.wf(),
            mem.bytes() == old(mem).bytes(),
            mem.cap() == old(mem).cap(),
            mem.next_handle() == old(mem).next_handle(),
            mem.live() == s.subrange(0, base + k),
            forall|j: int| 0 <= j < held@.len() ==> (#[trigger] s[base + j]).handle == held@[j].0,
        decreases k,
    {
        let h = held[k - 1];
        let ghost t = mem.live();
        proof {
            assert(t[base + k - 1] == s[base + k - 1]);
            assert(s[base + (k - 1)].handle == held@[k - 1].0);
            assert(t[base + k - 1].handle == h.0);
        }
        let r = mem.release(h);
        proof {
            if r is Ok {
                let i = choose|i: int| 0 <= i < t.len() && #[trigger] t[i].handle == h.0 && mem.live() == t.remove(i);
                if i != base + k - 1 {
                    assert(t[i].handle != t[base + k - 1].handle);
                }
                assert(t.remove(i) =~= s.subrange(0, base + k - 1));
            }
        }
        match r {
            Ok(()) => {},
            Err(_) => {
                proof {
                    assert(false);
                }
            },
        }
        k = k - 1;
    }
}

/// Decodes every parameter of `sig` from the ABI words `ws`, in order. On
/// failure, nothing decoded reaches the caller and every borrow taken so far
/// is released.
pub fn decode_args(sig: &FuncSig, mem: &mut GuestMemory, ws: &Vec<u64>) -> (r: Result<Decoded, GuestError>)
    requires
        old(mem).wf(),
        ws@.len() == abi_words(*sig),
    ensures
        final(mem).wf(),
        final(mem).bytes() == old(mem).bytes(),
        final(mem).cap() == old(mem).cap(),
        r is Err ==> final(mem).live() == old(mem).live(),
        match decode_run(
            sig.params@,
            ws@,
            old(mem).bytes(),
            old(mem).cap(),
            (old(mem).live(), old(mem).next_handle()),
            sig.params@.len() as int,
        ) {
            Ok(st) => r is Ok && final(mem).live() == st.0,
            Err(e) => r == Err::<Decoded, GuestError>(e),
        },
        r matches Ok(d) ==> {
            &&& d.args@.len() == sig.params@.len()
            &&& forall|i: int|
                0 <= i < sig.params@.len() ==> arg_decodes(
                    #[trigger] sig.params@[i],
                    ws@,
                    words_before(sig.params@, i) as int,
                    old(mem).bytes(),
                    d.args@[i],
                )
            &&& holds_after(final(mem).live(), old(mem).live(), d.held@)
        },
{
    let ghost s0 = mem.live();
    let mut args: Vec<Arg> = Vec::new();
    let mut held: Vec<BorrowHandle> = Vec::new();
    let n_words = ws.len();
    let mut at: usize = 0;
    let mut i: usize = 0;
    proof {
        assert(mem.live().subrange(0, s0.len() as int) =~= s0);
    }
    while i < sig.params.len()
        invariant
            i <= sig.params@.len(),
            ws@.len() == abi_words(*sig),
            n_words == ws@.len(),
            at == words_before(sig.params@, i as int),
            mem.wf(),
            mem.bytes() == old(mem).bytes(),
            mem.cap() == old(mem).cap(),
            s0 == old(mem).live(),
            args@.len() == i,
            forall|k: int|
                0 <= k < i ==> arg_decodes(
                    #[trigger] sig.params@[k],
                    ws@,
                    words_before(sig.params@, k) as int,
                    old(mem).bytes(),
                    args@[k],
                ),
            holds_after(mem.live(), s0, held@),
            decode_run(sig.params@, ws@, old(mem).bytes(), old(mem).cap(), (s0, old(mem).next_handle()), i as int)
                == Ok::<TableState, GuestError>((mem.live(), mem.next_handle())),
        decreases sig.params@.len() - i,
    {
        let p = sig.params[i];
        proof {
            lemma_words_before_mono(sig.params@, i as int + 1, sig.params@.len() as int);
        }
        let ghost t = mem.live();
        let got = decode_one(mem, p, ws, at);
        match got {
            Ok(a) => {
                match a {
                    Arg::ArrayMut(h) => {
                        held.push(h);
                    },
                    _ => {},
                }
                proof {
                    assert(mem.live().subrange(0, s0.len() as int) =~= t.subrange(0, s0.len() as int));
                    assert forall|j: int| 0 <= j < held@.len() implies (#[trigger] mem.live()[s0.len() + j]).handle == held@[j].0
                        && mem.live()[s0.len() + j].exclusive by {
                        if j < held@.len() - 1 || !(a is ArrayMut) {
                            assert(mem.live()[s0.len() + j] == t[s0.len() + j]);
                        }
                    }
                }
                args.push(a);
                at = at + if matches!(p, ParamKind::Value(_) | ParamKind::Pointer(_)) { 1 } else { 2 };
                i = i + 1;
            },
            Err(e) => {
                proof {
                    lemma_run_error_persists(
                        sig.params@,
                        ws@,
                        old(mem).bytes(),
                        old(mem).cap(),
                        (s0, old(mem).next_handle()),
                        i as int + 1,
                        sig.params@.len() as int,
                    );
                    assert forall|j: int| 0 <= j < held@.len() implies (#[trigger] mem.live()[mem.live().len() - held@.len() + j]).handle == held@[j].0 by {
                        assert(mem.live()[s0.len() + j].handle == held@[j].0);
                    }
                }
                release_held(mem, &held);
                proof {
                    assert(mem.live() =~= s0);
                }
                return Err(e);
            },
        }
    }
    Ok(Decoded { args, held })
}

/// The code a failed decode or encode ends the call with: exhaustion of
/// borrow handles becomes the declared variant standing for it; any other
/// guest error aborts the call.
pub open spec fn spec_abort_code(sig: FuncSig, e: GuestError) -> Result<i32, Fault> {
    match (e, sig.error) {
        (GuestError::BorrowCheckerOutOfHandles, Some(en)) => match en.out_of_handles {
            Some(c) => Ok(c as i32),
            None => Err(Fault::Guest(e)),
        },
        _ => Err(Fault::Guest(e)),
    }
}

pub fn abort_code(sig: &FuncSig, e: GuestError) -> (r: Result<i32, Fault>)
    ensures
        r == spec_abort_code(*sig, e),
{
    match e {
        GuestError::BorrowCheckerOutOfHandles => match sig.error {
            Some(en) => match en.out_of_handles {
                Some(c) => Ok(c as i32),
                None => Err(Fault::Guest(e)),
            },
            None => Err(Fault::Guest(e)),
        },
        _ => Err(Fault::Guest(e)),
    }
}

/// Host logic came back with a trap.
pub open spec fn is_host_trap(outcome: Result<Option<u64>, Error<u32>>) -> bool {
    outcome matches Err(e) && e.payload() is Trap
}

/// What a call of `sig` ends with once host logic came back with `outcome`,
/// which is not a trap, on memory `mem`: 0 on success, the index of a
/// declared error variant, or a fault.
pub open spec fn spec_call_result(
    sig: FuncSig,
    mem: GuestMemory,
    ws: Seq<u64>,
    outcome: Result<Option<u64>, Error<u32>>,
) -> Result<i32, Fault> {
    if sig.diverges {
        Err(Fault::DivergedReturned)
    } else {
        match outcome {
            Ok(None) => if sig.result is None {
                Ok(0)
            } else {
                Err(Fault::TypeMismatch)
            },
            Ok(Some(v)) => match sig.result {
                None => Err(Fault::TypeMismatch),
                Some(ty) => if !valid_value(ty, v) {
                    Err(Fault::TypeMismatch)
                } else {
                    match addr_of(ws[ws.len() - 1]) {
                        None => Err(Fault::Guest(GuestError::TryFromIntError)),
                        Some(o) => match spec_write_outcome(mem, GuestPtr { offset: o, ty }) {
                            Ok(_) => Ok(0),
                            Err(e) => spec_abort_code(sig, e),
                        },
                    }
                },
            },
            Err(e) => match e.payload() {
                ErrorPayload::Domain(c) => match sig.error {
                    Some(en) => if c < en.variants as u32 {
                        Ok(c as i32)
                    } else {
                        Err(Fault::TypeMismatch)
                    },
                    None => Err(Fault::TypeMismatch),
                },
                ErrorPayload::Trap(_) => Err(Fault::TypeMismatch),
            },
        }
    }
}

/// Where a call writes its result, and the bytes it writes: only when host
/// logic returned a valid value for a function that returns one and the
/// output location can be borrowed.
pub open spec fn result_write(sig: FuncSig, mem: GuestMemory, ws: Seq<u64>, outcome: Result<Option<u64>, Error<u32>>) -> Option<(int, Seq<u8>)> {
    if sig.diverges {
        None
    } else {
        match (sig.result, outcome) {
            (Some(ty), Ok(Some(v))) => match addr_of(ws[ws.len() - 1]) {
                Some(o) => if valid_value(ty, v) && spec_write_outcome(mem, GuestPtr { offset: o, ty }) is Ok {
                    Some((o as int, encode_value(ty, v)))
                } else {
                    None
                },
                None => None,
            },
            _ => None,
        }
    }
}

/// Ends a call: encodes the value host logic returned through the output
/// pointer, or maps its declared error to the ABI code, then releases the
/// borrows `held` that decoding left live.
pub fn finish(
    sig: &FuncSig,
    mem: &mut GuestMemory,
    ws: &Vec<u64>,
    held: &Vec<BorrowHandle>,
    outcome: Result<Option<u64>, Error<u32>>,
) -> (r: Result<i32, Fault>)
    requires
        old(mem).wf(),
        ws@.len() == abi_words(*sig),
        old(mem).live().len() >= held@.len(),
        forall|j: int| 0 <= j < held@.len() ==> (#[trigger] old(mem).live()[old(mem).live().len() - held@.len() + j]).handle == held@[j].0,
    ensures
        final(mem).wf(),
        final(mem).cap() == old(mem).cap(),
        final(mem).live() == old(mem).live().subrange(0, old(mem).live().len() - held@.len()),
        match outcome {
            Err(e) if e.payload() is Trap => r matches Err(Fault::Host(m, c)) && e.payload()
                == ErrorPayload::<u32>::Trap(m) && c@ == e.contexts(),
            _ => true,
        },
        !is_host_trap(outcome) ==> r == spec_call_result(*sig, *old(mem), ws@, outcome),
        match result_write(*sig, *old(mem), ws@, outcome) {
            Some((at, data)) => final(mem).bytes() == overwrite(old(mem).bytes(), at, data),
            None => final(mem).bytes() == old(mem).bytes(),
        },
{
    let ghost m0 = *mem;
    let r: Result<i32, Fault> = if sig.diverges {
        match outcome {
            Err(e) => {
                let (payload, ctx) = e.into_parts();
                match payload {
                    ErrorPayload::Trap(m) => Err(Fault::Host(m, ctx)),
                    ErrorPayload::Domain(_) => Err(Fault::DivergedReturned),
                }
            },
            Ok(_) => Err(Fault::DivergedReturned),
        }
    } else {
        match outcome {
            Ok(None) => if sig.result.is_none() {
                Ok(0)
            } else {
                Err(Fault::TypeMismatch)
            },
            Ok(Some(v)) => match sig.result {
                None => Err(Fault::TypeMismatch),
                Some(ty) => if !value_fits(ty, v) {
                    Err(Fault::TypeMismatch)
                } else {
                    proof {
                        assert(abi_words(*sig) >= 1);
                    }
                    match to_addr(ws[ws.len() - 1]) {
                        Err(e) => Err(Fault::Guest(e)),
                        Ok(o) => match (GuestPtr { offset: o, ty }).write(mem, v) {
                            Ok(()) => Ok(0),
                            Err(e) => abort_code(sig, e),
                        },
                    }
                },
            },
            Err(e) => {
                let (payload, ctx) = e.into_parts();
                match payload {
                    ErrorPayload::Domain(c) => match sig.error {
                        Some(en) => if c < en.variants as u32 {
                            Ok(c as i32)
                        } else {
                            Err(Fault::TypeMismatch)
                        },
                        None => Err(Fault::TypeMismatch),
                    },
                    ErrorPayload::Trap(m) => Err(Fault::Host(m, ctx)),
                }
            },
        }
    };
    proof {
        assert forall|j: int| 0 <= j < held@.len() implies (#[trigger] mem.live()[mem.live().len() - held@.len() + j]).handle == held@[j].0 by {
            assert(mem.live()[mem.live().len() - held@.len() + j] == m0.live()[m0.live().len() - held@.len() + j]);
        }
    }
    release_held(mem, held);
    r
}

/// Whether `v` is a value of `ty`.
pub fn value_fits(ty: GuestType, v: u64) -> (r: bool)
    ensures
        r == valid_value(ty, v),
{
    proof {
        reveal_with_fuel(pow256, 9);
    }
    let fits = match ty.size() {
        1 => v <= 0xff,
        2 => v <= 0xffff,
        4 => v <= 0xffff_ffff,
        _ => true,
    };
    if !fits {
        return false;
    }
    match ty {
        GuestType::Int(_) => true,
        GuestType::Enum { variants, .. } => v < variants,
        GuestType::Flags { mask, .. } => v & !mask == 0,
    }
}

} // verus!
