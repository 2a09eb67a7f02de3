use crate::codec::{decode_le, encode_le, le_bytes, le_value, lemma_le_bytes_len, lemma_le_round_trip, pow256};
use crate::error::GuestError;
use crate::memory::{access_outcome, overwrite, GuestMemory};
use crate::ptr::{scoped, scoped_read, scoped_write, IntRepr};
use crate::region::{region_end, Region};
use vstd::prelude::*;

verus! {

/// `x` rounded up to a multiple of `a`.
pub open spec fn align_up(x: nat, a: nat) -> nat {
    if a == 0 || x % a == 0 {
        x
    } else {
        (x + (a - x % a)) as nat
    }
}

/// Where the bytes of the first `i` fields end, each field placed at the
/// next multiple of its own size.
pub open spec fn fields_end(fields: Seq<IntRepr>, i: int) -> nat
    decreases i, 0nat,
{
    if i <= 0 {
        0
    } else {
        field_offset(fields, i - 1) + fields[i - 1].spec_size()
    }
}

/// The offset of field `i` within the record.
pub open spec fn field_offset(fields: Seq<IntRepr>, i: int) -> nat
    decreases i, 1nat,
{
    align_up(fields_end(fields, i), fields[i].spec_size())
}

/// The record's alignment: the largest size of its fields, at least 1.
pub open spec fn record_align(fields: Seq<IntRepr>) -> nat
    decreases fields.len(),
{
    if fields.len() == 0 {
        1
    } else {
        let rest = record_align(fields.drop_last());
        let s = fields.last().spec_size();
        if s > rest {
            s
        } else {
            rest
        }
    }
}

/// The record's size: the end of its last field, padded to its alignment.
pub open spec fn record_size(fields: Seq<IntRepr>) -> nat {
    align_up(fields_end(fields, fields.len() as int), record_align(fields))
}

/// The value of field `i` in the record bytes `b`.
pub open spec fn field_value(fields: Seq<IntRepr>, b: Seq<u8>, i: int) -> nat {
    le_value(b.subrange(field_offset(fields, i) as int, field_offset(fields, i) + fields[i].spec_size() as int))
}

/// `b` holds the values `vs` in the fields, and zero in the padding.
pub open spec fn encodes_record(fields: Seq<IntRepr>, vs: Seq<u64>, b: Seq<u8>) -> bool {
    &&& b.len() == record_size(fields)
    &&& forall|i: int|
        0 <= i < fields.len() ==> #[trigger] b.subrange(
            field_offset(fields, i) as int,
            field_offset(fields, i) + fields[i].spec_size() as int,
        ) == le_bytes(vs[i] as nat, fields[i].spec_size())
    &&& forall|k: int| 0 <= k < b.len() && !in_field(fields, k) ==> #[trigger] b[k] == 0
}

/// Byte `k` of the record belongs to some field.
pub open spec fn in_field(fields: Seq<IntRepr>, k: int) -> bool {
    in_field_before(fields, k, fields.len() as int)
}

/// Byte `k` of the record belongs to one of the first `n` fields.
pub open spec fn in_field_before(fields: Seq<IntRepr>, k: int, n: int) -> bool {
    exists|i: int|
        0 <= i < n && #[trigger] field_offset(fields, i) <= k < field_offset(fields, i)
            + fields[i].spec_size()
}

/// The region a record of `fields` at `offset` covers, unless its size or
/// its end does not fit the address space.
pub open spec fn record_region(offset: u32, fields: Seq<IntRepr>) -> Option<Region> {
    let n = record_size(fields);
    if n > u32::MAX || offset as int + n > u32::MAX {
        None
    } else {
        Some(Region { start: offset, len: n as u32 })
    }
}

/// Every value fits its field.
pub open spec fn values_fit(fields: Seq<IntRepr>, vs: Seq<u64>) -> bool {
    &&& vs.len() == fields.len()
    &&& forall|i: int| 0 <= i < fields.len() ==> (#[trigger] vs[i] as nat) < pow256(fields[i].spec_size())
}

pub proof fn lemma_align_up(x: nat, a: nat)
    requires
        a > 0,
    ensures
        x <= align_up(x, a) < x + a,
        align_up(x, a) % a == 0,
{
    if x % a != 0 {
        let xi = x as int;
        let ai = a as int;
        vstd::arithmetic::div_mod::lemma_fundamental_div_mod(xi, ai);
        let q = xi / ai;
        assert(xi + (ai - xi % ai) == (q + 1) * ai) by (nonlinear_arith)
            requires
                xi == ai * q + xi % ai,
        ;
        vstd::arithmetic::div_mod::lemma_mod_multiples_basic(q + 1, ai);
    }
}

/// Field ends grow with the field count, by at most 15 bytes a field.
pub proof fn lemma_fields_end_mono(fields: Seq<IntRepr>, i: int, j: int)
    requires
        0 <= i <= j <= fields.len(),
    ensures
        fields_end(fields, i) <= fields_end(fields, j),
        fields_end(fields, j) <= fields_end(fields, i) + 15 * (j - i),
    decreases j - i,
{
    if i < j {
        lemma_fields_end_mono(fields, i, j - 1);
        lemma_align_up(fields_end(fields, j - 1), fields[j - 1].spec_size());
    }
}

/// A field's bytes end before any later field starts, and within the record.
pub proof fn lemma_fields_disjoint(fields: Seq<IntRepr>, i: int, j: int)
    requires
        0 <= i < j < fields.len(),
    ensures
        field_offset(fields, i) + fields[i].spec_size() <= field_offset(fields, j),
{
    lemma_fields_end_mono(fields, i + 1, j);
    lemma_align_up(fields_end(fields, j), fields[j].spec_size());
}

pub proof fn lemma_field_in_record(fields: Seq<IntRepr>, i: int)
    requires
        0 <= i < fields.len(),
    ensures
        field_offset(fields, i) + fields[i].spec_size() <= record_size(fields),
{
    lemma_fields_end_mono(fields, i + 1, fields.len() as int);
    lemma_record_align_pos(fields);
    lemma_align_up(fields_end(fields, fields.len() as int), record_align(fields));
}

pub proof fn lemma_record_align_pos(fields: Seq<IntRepr>)
    ensures
        1 <= record_align(fields) <= 8,
    decreases fields.len(),
{
    if fields.len() > 0 {
        lemma_record_align_pos(fields.drop_last());
    }
}

/// Encoding values that fit and decoding each field gives the values back.
pub proof fn lemma_record_round_trip(fields: Seq<IntRepr>, vs: Seq<u64>, b: Seq<u8>, i: int)
    requires
        values_fit(fields, vs),
        encodes_record(fields, vs, b),
        0 <= i < fields.len(),
    ensures
        field_value(fields, b, i) == vs[i] as nat,
{
    assert(b.subrange(field_offset(fields, i) as int, field_offset(fields, i) + fields[i].spec_size() as int)
        == le_bytes(vs[i] as nat, fields[i].spec_size()));
    lemma_le_round_trip(vs[i] as nat, fields[i].spec_size());
}

/// A record of values that fit, once written with the borrow table as it
/// was and a fresh handle still to hand out, reads back field by field.
pub proof fn lemma_record_write_then_read(
    before: GuestMemory,
    after: GuestMemory,
    offset: u32,
    fields: Seq<IntRepr>,
    vs: Seq<u64>,
    b: Seq<u8>,
)
    requires
        before.wf(),
        values_fit(fields, vs),
        record_region(offset, fields) is Some,
        access_outcome(before, record_region(offset, fields)->Some_0, record_align(fields) as u32, true) is Ok,
        encodes_record(fields, vs, b),
        after.bytes() == overwrite(before.bytes(), offset as int, b),
        after.live() == before.live(),
        after.cap() == before.cap(),
        after.next_handle() < u64::MAX,
    ensures
        access_outcome(after, record_region(offset, fields)->Some_0, record_align(fields) as u32, false) is Ok,
        forall|i: int|
            0 <= i < fields.len() ==> field_value(
                fields,
                #[trigger] after.bytes().subrange(offset as int, region_end(record_region(offset, fields)->Some_0)),
                i,
            ) == vs[i] as nat,
{
    let g = record_region(offset, fields)->Some_0;
    let s = before.live();
    if exists|i: int| crate::borrow::first_conflict(s, i, g, false) {
        let i = choose|i: int| crate::borrow::first_conflict(s, i, g, false);
        if !exists|j: int| crate::borrow::first_conflict(s, j, g, true) {
            assert(!crate::borrow::no_conflict_before(s, s.len() as int, g, true)) by {
                assert(crate::borrow::conflicts(s[i], g, true));
            }
            crate::ptr::lemma_some_first_conflict(s, g, true, s.len() as int);
        }
    }
    assert(after.bytes().subrange(offset as int, region_end(g)) =~= b);
    assert forall|i: int| 0 <= i < fields.len() implies field_value(
        fields,
        #[trigger] after.bytes().subrange(offset as int, region_end(g)),
        i,
    ) == vs[i] as nat by {
        lemma_record_round_trip(fields, vs, b, i);
    }
}

fn align_up_exec(x: u64, a: u64) -> (r: u64)
    requires
        a > 0,
        x + a <= u64::MAX,
    ensures
        r == align_up(x as nat, a as nat),
{
    if x % a == 0 {
        x
    } else {
        x + (a - x % a)
    }
}

/// The offset of each field, the record's size and its alignment.
pub fn record_layout(fields: &Vec<IntRepr>) -> (r: (Vec<u64>, u64, u64))
    requires
        fields@.len() <= u32::MAX,
    ensures
        r.0@.len() == fields@.len(),
        forall|i: int| 0 <= i < fields@.len() ==> #[trigger] r.0@[i] == field_offset(fields@, i),
        r.1 == record_size(fields@),
        r.2 == record_align(fields@),
{
    let ghost fs = fields@;
    let mut offsets: Vec<u64> = Vec::new();
    let mut end: u64 = 0;
    let mut align: u64 = 1;
    let mut i: usize = 0;
    proof {
        assert(fs.subrange(0, 0) =~= Seq::<IntRepr>::empty());
    }
    while i < fields.len()
        invariant
            i <= fs.len() <= u32::MAX,
            fs == fields@,
            end == fields_end(fs, i as int),
            end <= 15 * i,
            align == record_align(fs.subrange(0, i as int)),
            offsets@.len() == i,
            forall|j: int| 0 <= j < i ==> #[trigger] offsets@[j] == field_offset(fs, j),
        decreases fs.len() - i,
    {
        let w = fields[i].size() as u64;
        let off = align_up_exec(end, w);
        proof {
            lemma_align_up(end as nat, w as nat);
            assert(fs.subrange(0, i + 1).drop_last() =~= fs.subrange(0, i as int));
            assert(fs.subrange(0, i + 1).last() == fs[i as int]);
        }
        offsets.push(off);
        end = off + w;
        if w > align {
            align = w;
        }
        i = i + 1;
    }
    proof {
        assert(fs.subrange(0, fs.len() as int) =~= fs);
        lemma_record_align_pos(fs);
    }
    let size = align_up_exec(end, align);
    (offsets, size, align)
}

/// Decodes a record of `fields` at `offset`, under a shared borrow aligned
/// to the record's alignment and released before returning.
pub fn read_record(mem: &mut GuestMemory, offset: u32, fields: &Vec<IntRepr>) -> (r: Result<Vec<u64>, GuestError>)
    requires
        old(mem).wf(),
        fields@.len() <= u32::MAX,
    ensures
        final(mem).bytes() == old(mem).bytes(),
        scoped(
            *old(mem),
            *final(mem),
            record_region(offset, fields@) matches Some(g) && access_outcome(*old(mem), g, record_align(fields@) as u32, false) is Ok,
        ),
        match record_region(offset, fields@) {
            None => r == Err::<Vec<u64>, GuestError>(GuestError::PtrOverflow),
            Some(g) => match access_outcome(*old(mem), g, record_align(fields@) as u32, false) {
                Err(e) => r == Err::<Vec<u64>, GuestError>(e),
                Ok(_) => r matches Ok(v) && v@.len() == fields@.len() && forall|i: int|
                    0 <= i < fields@.len() ==> #[trigger] v@[i] == field_value(
                        fields@,
                        old(mem).bytes().subrange(offset as int, region_end(g)),
                        i,
                    ),
            },
        },
{
    let (offsets, size, align) = record_layout(fields);
    proof {
        lemma_record_align_pos(fields@);
    }
    if size > u32::MAX as u64 || offset as u64 + size > u32::MAX as u64 {
        return Err(GuestError::PtrOverflow);
    }
    let region = Region { start: offset, len: size as u32 };
    let bytes = match scoped_read(mem, region, align as u32) {
        Ok(b) => b,
        Err(e) => { return Err(e); },
    };
    let mut out: Vec<u64> = Vec::new();
    let mut i: usize = 0;
    while i < fields.len()
        invariant
            i <= fields@.len(),
            offsets@.len() == fields@.len(),
            forall|j: int| 0 <= j < fields@.len() ==> #[trigger] offsets@[j] == field_offset(fields@, j),
            bytes@.len() == record_size(fields@),
            out@.len() == i,
            forall|j: int| 0 <= j < i ==> #[trigger] out@[j] == field_value(fields@, bytes@, j),
        decreases fields@.len() - i,
    {
        proof {
            lemma_field_in_record(fields@, i as int);
        }
        let v = decode_le(&bytes, offsets[i] as usize, fields[i].size() as usize);
        out.push(v);
        i = i + 1;
    }
    Ok(out)
}

/// The bytes of a record of `fields` holding `values`, padding zeroed.
fn encode_record(fields: &Vec<IntRepr>, values: &Vec<u64>, offsets: &Vec<u64>, size: u64) -> (r: Vec<u8>)
    requires
        values_fit(fields@, values@),
        offsets@.len() == fields@.len(),
        forall|j: int| 0 <= j < fields@.len() ==> #[trigger] offsets@[j] == field_offset(fields@, j),
        size == record_size(fields@),
        size <= u32::MAX,
    ensures
        encodes_record(fields@, values@, r@),
{
    let ghost fs = fields@;
    let mut buf: Vec<u8> = Vec::new();
    let mut k: u64 = 0;
    while k < size
        invariant
            k <= size,
            buf@.len() == k,
            forall|m: int| 0 <= m < k ==> #[trigger] buf@[m] == 0,
        decreases size - k,
    {
        buf.push(0);
        k = k + 1;
    }
    let mut i: usize = 0;
    while i < fields.len()
        invariant
            i <= fs.len(),
            fs == fields@,
            values_fit(fs, values@),
            offsets@.len() == fs.len(),
            forall|j: int| 0 <= j < fs.len() ==> #[trigger] offsets@[j] == field_offset(fs, j),
            size == record_size(fs),
            size <= u32::MAX,
            buf@.len() == size,
            forall|j: int|
                0 <= j < i ==> #[trigger] buf@.subrange(
                    field_offset(fs, j) as int,
                    field_offset(fs, j) + fs[j].spec_size() as int,
                ) == le_bytes(values@[j] as nat, fs[j].spec_size()),
            forall|m: int| 0 <= m < buf@.len() && !in_field_before(fs, m, i as int) ==> #[trigger] buf@[m] == 0,
        decreases fs.len() - i,
    {
        proof {
            lemma_field_in_record(fs, i as int);
        }
        let w = fields[i].size() as usize;
        let off = offsets[i] as usize;
        let e = encode_le(values[i], w);
        proof {
            lemma_le_bytes_len(values@[i as int] as nat, w as nat);
        }
        let ghost before = buf@;
        let mut k: usize = 0;
        while k < w
            invariant
                k <= w,
                i < fs.len(),
                w == fs[i as int].spec_size(),
                off == field_offset(fs, i as int),
                off + w <= size,
                size <= u32::MAX,
                e@.len() == w,
                buf@.len() == before.len(),
                before.len() == size,
                forall|m: int| 0 <= m < before.len() ==> #[trigger] buf@[m] == if off <= m < off + k {
                    e@[m - off]
                } else {
                    before[m]
                },
            decreases w - k,
        {
            buf.set(off + k, e[k]);
            k = k + 1;
        }
        proof {
            assert(buf@.subrange(off as int, off + w) =~= e@);
            assert forall|j: int| 0 <= j < i + 1 implies #[trigger] buf@.subrange(
                field_offset(fs, j) as int,
                field_offset(fs, j) + fs[j].spec_size() as int,
            ) == le_bytes(values@[j] as nat, fs[j].spec_size()) by {
                if j < i {
                    lemma_fields_disjoint(fs, j, i as int);
                    lemma_field_in_record(fs, j);
                    assert(buf@.subrange(field_offset(fs, j) as int, field_offset(fs, j) + fs[j].spec_size() as int)
                        =~= before.subrange(field_offset(fs, j) as int, field_offset(fs, j) + fs[j].spec_size() as int));
                }
            }
            assert forall|m: int| 0 <= m < buf@.len() && !in_field_before(fs, m, i + 1) implies #[trigger] buf@[m] == 0 by {
                if off <= m < off + w {
                    assert(field_offset(fs, i as int) <= m < field_offset(fs, i as int) + fs[i as int].spec_size());
                }
                if in_field_before(fs, m, i as int) {
                    let j = choose|j: int| 0 <= j < i && #[trigger] field_offset(fs, j) <= m < field_offset(fs, j)
                        + fs[j].spec_size();
                    assert(field_offset(fs, j) <= m < field_offset(fs, j) + fs[j].spec_size());
                }
            }
        }
        i = i + 1;
    }
    buf
}

/// Encodes `values` as a record of `fields` at `offset`, padding zeroed,
/// under an exclusive borrow aligned to the record's alignment and released
/// before returning.
pub fn write_record(mem: &mut GuestMemory, offset: u32, fields: &Vec<IntRepr>, values: &Vec<u64>) -> (r: Result<(), GuestError>)
    requires
        old(mem).wf(),
        fields@.len() <= u32::MAX,
        values_fit(fields@, values@),
    ensures
        scoped(
            *old(mem),
            *final(mem),
            record_region(offset, fields@) matches Some(g) && access_outcome(*old(mem), g, record_align(fields@) as u32, true) is Ok,
        ),
        match record_region(offset, fields@) {
            None => r == Err::<(), GuestError>(GuestError::PtrOverflow) && final(mem).bytes() == old(mem).bytes(),
            Some(g) => match access_outcome(*old(mem), g, record_align(fields@) as u32, true) {
                Err(e) => r == Err::<(), GuestError>(e) && final(mem).bytes() == old(mem).bytes(),
                Ok(_) => r is Ok && exists|b: Seq<u8>|
                    encodes_record(fields@, values@, b) && final(mem).bytes() == overwrite(
                        old(mem).bytes(),
                        offset as int,
                        b,
                    ),
            },
        },
{
    let (offsets, size, align) = record_layout(fields);
    proof {
        lemma_record_align_pos(fields@);
    }
    if size > u32::MAX as u64 || offset as u64 + size > u32::MAX as u64 {
        return Err(GuestError::PtrOverflow);
    }
    let region = Region { start: offset, len: size as u32 };
    let buf = encode_record(fields, values, &offsets, size);
    scoped_write(mem, region, align as u32, &buf)
}

} // verus!
