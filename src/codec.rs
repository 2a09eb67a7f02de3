use vstd::prelude::*;

verus! {

/// 256 to the power `n`.
pub open spec fn pow256(n: nat) -> nat
    decreases n,
{
    if n == 0 {
        1
    } else {
        256 * pow256((n - 1) as nat)
    }
}

/// The number that the bytes `s` encode, least significant byte first.
pub open spec fn le_value(s: Seq<u8>) -> nat
    decreases s.len(),
{
    if s.len() == 0 {
        0
    } else {
        s[0] as nat + 256 * le_value(s.drop_first())
    }
}

/// The `n` bytes that encode `v`, least significant byte first.
pub open spec fn le_bytes(v: nat, n: nat) -> Seq<u8>
    decreases n,
{
    if n == 0 {
        Seq::empty()
    } else {
        seq![(v % 256) as u8] + le_bytes(v / 256, (n - 1) as nat)
    }
}

pub proof fn lemma_le_bytes_len(v: nat, n: nat)
    ensures
        le_bytes(v, n).len() == n,
    decreases n,
{
    if n > 0 {
        lemma_le_bytes_len(v / 256, (n - 1) as nat);
    }
}

pub proof fn lemma_pow256_pos(n: nat)
    ensures
        pow256(n) >= 1,
    decreases n,
{
    if n > 0 {
        lemma_pow256_pos((n - 1) as nat);
    }
}

pub proof fn lemma_pow256_8()
    ensures
        pow256(8) == 0x1_0000_0000_0000_0000,
{
    reveal_with_fuel(pow256, 9);
}

pub proof fn lemma_pow256_mono(a: nat, b: nat)
    requires
        a <= b,
    ensures
        pow256(a) <= pow256(b),
    decreases b,
{
    if a < b {
        lemma_pow256_mono(a, (b - 1) as nat);
        lemma_pow256_pos((b - 1) as nat);
    }
}

/// `n` bytes encode a number below `256^n`.
pub proof fn lemma_le_value_bound(s: Seq<u8>)
    ensures
        le_value(s) < pow256(s.len()),
    decreases s.len(),
{
    if s.len() > 0 {
        lemma_le_value_bound(s.drop_first());
        let r = le_value(s.drop_first());
        let p = pow256((s.len() - 1) as nat);
        assert(s[0] as nat + 256 * r < 256 * p) by (nonlinear_arith)
            requires
                r < p,
                s[0] < 256,
        ;
    }
}

/// Encoding a number that fits in `n` bytes and decoding the bytes gives the number back.
pub proof fn lemma_le_round_trip(v: nat, n: nat)
    requires
        v < pow256(n),
    ensures
        le_value(le_bytes(v, n)) == v,
    decreases n,
{
    if n > 0 {
        let p = pow256((n - 1) as nat);
        assert(v / 256 < p) by (nonlinear_arith)
            requires
                v < 256 * p,
        ;
        lemma_le_round_trip(v / 256, (n - 1) as nat);
        let s = le_bytes(v, n);
        assert(s.drop_first() =~= le_bytes(v / 256, (n - 1) as nat));
        assert(v == v % 256 + 256 * (v / 256)) by (nonlinear_arith);
    }
}

/// Decoding bytes and encoding the number in as many bytes gives the bytes back.
pub proof fn lemma_le_bytes_of_value(s: Seq<u8>)
    ensures
        le_bytes(le_value(s), s.len()) == s,
    decreases s.len(),
{
    if s.len() > 0 {
        let r = le_value(s.drop_first());
        lemma_le_bytes_of_value(s.drop_first());
        let v = le_value(s);
        assert(v % 256 == s[0] as nat && v / 256 == r) by (nonlinear_arith)
            requires
                v == s[0] as nat + 256 * r,
                s[0] < 256,
        ;
        assert(le_bytes(v, s.len()) =~= s);
    }
}

/// Reads the `n`-byte little-endian number at `start` of `bytes`.
pub fn decode_le(bytes: &Vec<u8>, start: usize, n: usize) -> (r: u64)
    requires
        n <= 8,
        start + n <= bytes.len(),
    ensures
        r == le_value(bytes@.subrange(start as int, start + n)),
{
    let ghost s = bytes@.subrange(start as int, start + n);
    let mut acc: u64 = 0;
    let mut k: usize = n;
    proof {
        assert(s.subrange(n as int, n as int) =~= Seq::<u8>::empty());
        lemma_pow256_8();
    }
    while k > 0
        invariant
            k <= n <= 8,
            start + n <= bytes.len(),
            s == bytes@.subrange(start as int, start + n),
            acc == le_value(s.subrange(k as int, n as int)),
            pow256(8) == 0x1_0000_0000_0000_0000,
        decreases k,
    {
        let ghost prev = s.subrange(k as int, n as int);
        k = k - 1;
        let b = bytes[start + k];
        let ghost cur = s.subrange(k as int, n as int);
        proof {
            assert(cur.drop_first() =~= prev);
            assert(cur[0] == b);
            lemma_le_value_bound(prev);
            lemma_pow256_mono(prev.len(), 7);
            lemma_pow256_8();
            reveal_with_fuel(pow256, 9);
            assert(b as nat + 256 * (acc as nat) < 0x1_0000_0000_0000_0000) by (nonlinear_arith)
                requires
                    acc < pow256(7),
                    pow256(7) == 0x100_0000_0000_0000,
                    b < 256,
            ;
        }
        acc = b as u64 + 256 * acc;
    }
    proof {
        assert(s.subrange(0, n as int) =~= s);
    }
    acc
}

/// The `n` bytes that encode `v`, least significant byte first.
pub fn encode_le(v: u64, n: usize) -> (r: Vec<u8>)
    ensures
        r@ == le_bytes(v as nat, n as nat),
{
    let mut out: Vec<u8> = Vec::new();
    let mut x: u64 = v;
    let mut k: usize = 0;
    proof {
        assert(out@ + le_bytes(x as nat, (n - k) as nat) =~= le_bytes(v as nat, n as nat));
    }
    while k < n
        invariant
            k <= n,
            out@ + le_bytes(x as nat, (n - k) as nat) == le_bytes(v as nat, n as nat),
        decreases n - k,
    {
        let ghost before = le_bytes(x as nat, (n - k) as nat);
        let b: u8 = (x % 256) as u8;
        proof {
            assert(before == seq![b] + le_bytes((x / 256) as nat, (n - k - 1) as nat));
        }
        out.push(b);
        x = x / 256;
        k = k + 1;
        proof {
            assert(out@ + le_bytes(x as nat, (n - k) as nat) =~= le_bytes(v as nat, n as nat));
        }
    }
    proof {
        assert(out@ + le_bytes(x as nat, 0) =~= out@);
    }
    out
}

} // verus!
