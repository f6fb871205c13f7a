//! Little-endian integer encoding helpers shared by the page layouts.

use vstd::prelude::*;

verus! {

/// The unsigned number whose little-endian bytes are `s`.
pub open spec fn le_value(s: Seq<u8>) -> nat
    decreases s.len(),
{
    if s.len() == 0 {
        0
    } else {
        s[0] as nat + 256 * le_value(s.drop_first())
    }
}

/// The `n` little-endian bytes of `v` (the value taken modulo `256^n`).
pub open spec fn le_bytes(v: nat, n: nat) -> Seq<u8>
    decreases n,
{
    if n == 0 {
        Seq::empty()
    } else {
        seq![(v % 256) as u8] + le_bytes(v / 256, (n - 1) as nat)
    }
}

/// Upper bound of the value of `n` bytes.
pub open spec fn pow256(n: nat) -> nat
    decreases n,
{
    if n == 0 {
        1
    } else {
        256 * pow256((n - 1) as nat)
    }
}

pub proof fn lemma_le_bytes_len(v: nat, n: nat)
    ensures
        le_bytes(v, n).len() == n,
    decreases n,
{
    if n > 0 {
        lemma_le_bytes_len(v / 256, (n - 1) as nat);
    }
}

pub proof fn lemma_le_value_bound(s: Seq<u8>)
    ensures
        le_value(s) < pow256(s.len()),
    decreases s.len(),
{
    if s.len() > 0 {
        lemma_le_value_bound(s.drop_first());
        let r = le_value(s.drop_first());
        let p = pow256((s.len() - 1) as nat);
        assert(r + 1 <= p);
        assert(256 * (r + 1) <= 256 * p) by (nonlinear_arith)
            requires r + 1 <= p;
    }
}

/// Reading back `n` written bytes gives the value, when it fits.
pub proof fn lemma_le_roundtrip(v: nat, n: nat)
    requires
        v < pow256(n),
    ensures
        le_value(le_bytes(v, n)) == v,
    decreases n,
{
    if n > 0 {
        let p = pow256((n - 1) as nat);
        assert(v / 256 < p) by (nonlinear_arith)
            requires v < 256 * p;
        lemma_le_roundtrip(v / 256, (n - 1) as nat);
        let s = le_bytes(v, n);
        assert(s.drop_first() =~= le_bytes(v / 256, (n - 1) as nat));
    }
}

/// Bytes that are all zero have value zero.
pub proof fn lemma_le_value_zero(s: Seq<u8>)
    requires
        forall|i: int| 0 <= i < s.len() ==> s[i] == 0,
    ensures
        le_value(s) == 0,
    decreases s.len(),
{
    if s.len() > 0 {
        lemma_le_value_zero(s.drop_first());
    }
}

/// Reads the little-endian `u64` at `data[off..off + 8]`.
pub fn get_u64(data: &[u8], off: usize) -> (r: u64)
    requires
        off + 8 <= data@.len(),
    ensures
        r == le_value(data@.subrange(off as int, off + 8)),
{
    let mut r: u64 = 0;
    let mut i: usize = 8;
    let len = data.len();
    while i > 0
        invariant
            i <= 8,
            off + 8 <= data@.len(),
            len == data@.len(),
            r as nat == le_value(data@.subrange(off + i, off + 8)),
        decreases i,
    {
        i -= 1;
        let b = data[off + i];
        proof {
            let s = data@.subrange(off + i, off + 8);
            assert(s.drop_first() =~= data@.subrange(off + i + 1, off + 8));
            lemma_le_value_bound(s);
            assert(pow256(s.len()) <= pow256(8)) by {
                lemma_pow256_mono(s.len(), 8);
            }
            lemma_pow256_8();
        }
        r = r * 256 + b as u64;
    }
    r
}

/// Appends the `n` little-endian bytes of `v`.
pub fn push_le(out: &mut Vec<u8>, v: u64, n: usize)
    requires
        n <= 8,
    ensures
        final(out)@ == old(out)@ + le_bytes(v as nat, n as nat),
{
    let mut x = v;
    let mut i: usize = 0;
    while i < n
        invariant
            i <= n <= 8,
            out@ + le_bytes(x as nat, (n - i) as nat) == old(out)@ + le_bytes(v as nat, n as nat),
        decreases n - i,
    {
        let ghost x0 = x;
        let ghost before = out@;
        out.push((x % 256) as u8);
        x = x / 256;
        i += 1;
        proof {
            assert(le_bytes(x0 as nat, (n - i + 1) as nat) == seq![(x0 % 256) as u8] + le_bytes(
                x as nat,
                (n - i) as nat,
            ));
            assert(out@ + le_bytes(x as nat, (n - i) as nat) =~= before + le_bytes(
                x0 as nat,
                (n - i + 1) as nat,
            ));
        }
    }
    assert(out@ =~= out@ + le_bytes(x as nat, 0));
}

/// Reads the little-endian value of `data[off..off + n]`.
pub fn get_le(data: &[u8], off: usize, n: usize) -> (r: u64)
    requires
        n <= 8,
        off + n <= data@.len(),
    ensures
        r == le_value(data@.subrange(off as int, off + n)),
{
    let mut r: u64 = 0;
    let mut i: usize = n;
    let len = data.len();
    while i > 0
        invariant
            i <= n <= 8,
            off + n <= data@.len(),
            len == data@.len(),
            r as nat == le_value(data@.subrange(off + i, off + n)),
        decreases i,
    {
        i -= 1;
        let b = data[off + i];
        proof {
            let s = data@.subrange(off + i, off + n);
            assert(s.drop_first() =~= data@.subrange(off + i + 1, off + n));
            lemma_le_value_bound(s);
            assert(pow256(s.len()) <= pow256(8)) by {
                lemma_pow256_mono(s.len(), 8);
            }
            lemma_pow256_8();
        }
        r = r * 256 + b as u64;
    }
    r
}

pub proof fn lemma_pow256_8()
    ensures
        pow256(8) == 0x1_0000_0000_0000_0000nat,
{
    reveal_with_fuel(pow256, 9);
}

pub proof fn lemma_pow256_mono(a: nat, b: nat)
    requires
        a <= b,
    ensures
        pow256(a) <= pow256(b),
    decreases b,
{
    if a < b {
        lemma_pow256_mono(a, (b - 1) as nat);
    }
}

} // verus!
