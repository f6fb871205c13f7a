//! Variable length encoding of unsigned integers: 7 bits per byte, low bits
//! first, top bit set on every byte but the last.

use vstd::arithmetic::power::pow;
use vstd::prelude::*;

verus! {

/// The encoding of `v`.
pub open spec fn varint(v: nat) -> Seq<u8>
    decreases v,
{
    if v < 128 {
        seq![v as u8]
    } else {
        seq![(v % 128 + 128) as u8] + varint(v / 128)
    }
}

/// Decodes the varint at `pos`: its value and the position after it.
pub open spec fn dec_varint(buf: Seq<u8>, pos: int) -> Option<(nat, int)>
    decreases buf.len() - pos,
{
    if pos < 0 || pos >= buf.len() {
        None
    } else if buf[pos] < 128 {
        Some((buf[pos] as nat, pos + 1))
    } else {
        match dec_varint(buf, pos + 1) {
            Some((v, p)) => Some(((buf[pos] - 128) as nat + 128 * v, p)),
            None => None,
        }
    }
}

/// The varint at `pos` decodes, and its last byte's payload is shifted by
/// less than the width of `usize`.
pub open spec fn usize_decodable(buf: Seq<u8>, pos: int) -> bool {
    match dec_varint(buf, pos) {
        Some((v, p)) => pow(128, (p - pos - 1) as nat) <= usize::MAX,
        None => false,
    }
}

/// Value of the varint at `pos` as a `usize` (bits beyond the width of
/// `usize` are lost).
pub open spec fn dec_usize(buf: Seq<u8>, pos: int) -> (usize, int) {
    let (v, p) = dec_varint(buf, pos).unwrap();
    ((v % (usize::MAX as nat + 1)) as usize, p)
}

/// Length of the encoding of `v`.
pub proof fn lemma_varint_len(v: nat)
    ensures
        varint(v).len() >= 1,
        varint(v).len() > 1 ==> v >= pow(128, (varint(v).len() - 1) as nat),
        v < pow(128, varint(v).len() as nat),
    decreases v,
{
    reveal(pow);
    if v >= 128 {
        lemma_varint_len(v / 128);
        let k = varint(v / 128).len();
        if k == 1 {
            assert(pow(128, 0) == 1);
        }
        assert(varint(v).len() == k + 1);
        let p = pow(128, (k - 1) as nat);
        let q = pow(128, k as nat);
        assert(q == 128 * p) by {
            vstd::arithmetic::power::lemma_pow_adds(128, (k - 1) as nat, 1);
            vstd::arithmetic::power::lemma_pow1(128);
        }
        assert(pow(128, (k + 1) as nat) == 128 * q) by {
            vstd::arithmetic::power::lemma_pow_adds(128, k as nat, 1);
            vstd::arithmetic::power::lemma_pow1(128);
        }
        let w = v / 128;
        assert(v >= 128 * p) by (nonlinear_arith)
            requires
                w >= p,
                w == v / 128,
        ;
        assert(v < 128 * q) by (nonlinear_arith)
            requires
                w < q,
                w == v / 128,
        ;
    } else {
        assert(pow(128, 0) == 1);
        assert(pow(128, 1) == 128) by {
            vstd::arithmetic::power::lemma_pow1(128);
        }
    }
}

/// A decoded varint occupies at least one byte.
pub proof fn lemma_dec_varint_advances(buf: Seq<u8>, pos: int)
    requires
        dec_varint(buf, pos) is Some,
    ensures
        dec_varint(buf, pos).unwrap().1 > pos,
        dec_varint(buf, pos).unwrap().1 <= buf.len(),
    decreases buf.len() - pos,
{
    if buf[pos] >= 128 {
        lemma_dec_varint_advances(buf, pos + 1);
    }
}

/// Encodings of values that fit in 64 bits take at most 10 bytes.
pub proof fn lemma_varint_len_max(v: nat)
    requires
        v <= u64::MAX,
    ensures
        varint(v).len() <= 10,
{
    lemma_varint_len(v);
    if varint(v).len() > 10 {
        vstd::arithmetic::power::lemma_pow_increases(128, 10, (varint(v).len() - 1) as nat);
        assert(pow(128, 10) == 0x40_0000_0000_0000_0000) by {
            reveal_with_fuel(pow, 11);
        }
    }
}

/// Decoding an encoding gives back the value and its length.
pub proof fn lemma_varint_roundtrip(buf: Seq<u8>, pos: int, v: nat)
    requires
        0 <= pos,
        pos + varint(v).len() <= buf.len(),
        buf.subrange(pos, pos + varint(v).len()) == varint(v),
    ensures
        dec_varint(buf, pos) == Some((v, pos + varint(v).len())),
        usize_decodable(buf, pos) <== v <= usize::MAX,
    decreases v,
{
    assert(buf[pos] == buf.subrange(pos, pos + varint(v).len())[0]);
    if v >= 128 {
        let t = varint(v / 128);
        assert(varint(v).drop_first() =~= t);
        assert(buf.subrange(pos + 1, pos + 1 + t.len()) =~= buf.subrange(
            pos,
            pos + varint(v).len(),
        ).drop_first());
        lemma_varint_roundtrip(buf, pos + 1, v / 128);
    }
    lemma_varint_len(v);
    vstd::arithmetic::power::lemma_pow0(128);
}

} // verus!
