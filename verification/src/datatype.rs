//! [DataType] describes, encodes and decodes [Value]s.

use crate::bytes::{le_bytes, le_value, lemma_le_bytes_len, lemma_le_roundtrip, lemma_le_value_bound, pow256};
use crate::value::{Value, Val, F64};
use crate::varint::{
    dec_usize, dec_varint, lemma_dec_varint_advances, lemma_varint_len, lemma_varint_len_max,
    usize_decodable, varint,
};
use vstd::arithmetic::power::pow;
use vstd::prelude::*;

verus! {

/// Describes type of [Value].
#[derive(Debug)]
pub enum DataType {
    Empty,
    Bool,
    /// e.g. `int`
    Int,
    /// e.g. `float`
    Float,
    /// e.g. `( string, string, int )`
    Tuple(Vec<DataType>),
    /// e.g. `struct{ name: string, email: string }`
    Struct(Vec<(Vec<u8>, DataType)>),
    /// e.g. `enum{ leaf: int, node: [int] }`
    Enum(Vec<(Vec<u8>, DataType)>),
    /// String(n), if string length is > n, value is stored indirectly.
    String(usize),
    /// Binary(n), if binary length is > n, value is stored indirectly.
    Binary(usize),
    /// List(n) of values, if encoded length is > n, value is stored indirectly.
    List(Box<DataType>, usize),
    /// List(n) of 64-bit integers. if encoded length > n, value is stored indirectly.
    IList(usize),
}

/// The unsigned 64-bit pattern of `i` (two's complement).
pub open spec fn u64_of(i: i64) -> nat {
    if i >= 0 {
        i as nat
    } else {
        (i + 0x1_0000_0000_0000_0000) as nat
    }
}

/// The signed value of a 64-bit pattern.
pub open spec fn i64_of(u: nat) -> i64 {
    if u < 0x8000_0000_0000_0000 {
        u as i64
    } else {
        (u - 0x1_0000_0000_0000_0000) as i64
    }
}

/// The 8 little-endian bytes of an integer.
pub open spec fn int_bytes(i: i64) -> Seq<u8> {
    le_bytes(u64_of(i), 8)
}

/// The 8-byte integer at `pos`.
pub open spec fn int_at(buf: Seq<u8>, pos: int) -> i64 {
    i64_of(le_value(buf.subrange(pos, pos + 8)))
}


/// A value of type `dt` can be encoded directly (what encoding needs of it:
/// the variant that `dt` names, enough list items, an enum tag in range,
/// lengths below the largest `usize`).
pub open spec fn encodable(dt: DataType, v: Val) -> bool
    decreases dt, 0nat,
{
    match dt {
        DataType::Empty => true,
        DataType::Bool => v is Bool,
        DataType::Int => v is Int,
        DataType::Float => v is Float,
        DataType::Tuple(ts) => v is List && v->List_0.len() >= ts@.len() && encodable_types(
            ts@,
            v->List_0,
        ),
        DataType::Struct(fs) => v is List && v->List_0.len() >= fs@.len() && encodable_fields(
            fs@,
            v->List_0,
        ),
        DataType::Enum(vs) => v is Enum && v->Enum_0 < vs@.len() && v->Enum_0 < usize::MAX
            && encodable(vs@[v->Enum_0 as int].1, *v->Enum_1),
        DataType::String(_) => v is Str && v->Str_0.len() < usize::MAX,
        DataType::Binary(_) => v is Bin && v->Bin_0.len() < usize::MAX,
        DataType::List(t, _) => v is List && v->List_0.len() < usize::MAX && encodable_list(
            *t,
            v->List_0,
        ),
        DataType::IList(_) => v is IList && v->IList_0.len() < usize::MAX,
    }
}

/// Items encodable by the types `ts` (one item per type).
pub open spec fn encodable_types(ts: Seq<DataType>, items: Seq<Val>) -> bool
    decreases ts, 0nat,
{
    forall|i: int| 0 <= i < ts.len() ==> encodable(#[trigger] ts[i], items[i])
}

/// Items encodable by the types of the fields `fs`.
pub open spec fn encodable_fields(fs: Seq<(Vec<u8>, DataType)>, items: Seq<Val>) -> bool
    decreases fs, 0nat,
{
    forall|i: int| 0 <= i < fs.len() ==> encodable(#[trigger] fs[i].1, items[i])
}

/// Items all encodable by type `t`.
pub open spec fn encodable_list(t: DataType, items: Seq<Val>) -> bool
    decreases t, 1nat,
{
    forall|i: int| 0 <= i < items.len() ==> encodable(t, #[trigger] items[i])
}

/// The direct encoding of value `v` of type `dt`.
pub open spec fn enc0(dt: DataType, v: Val) -> Seq<u8>
    decreases dt, 0nat,
{
    match dt {
        DataType::Empty => Seq::empty(),
        DataType::Bool => seq![
            if v->Bool_0 {
                1u8
            } else {
                0u8
            },
        ],
        DataType::Int => int_bytes(v->Int_0),
        DataType::Float => le_bytes(v->Float_0 as nat, 8),
        DataType::Tuple(ts) => enc_types(ts@, v->List_0),
        DataType::Struct(fs) => enc_fields(fs@, v->List_0),
        DataType::Enum(vs) => if v->Enum_0 < vs@.len() {
            varint(v->Enum_0) + enc0(vs@[v->Enum_0 as int].1, *v->Enum_1)
        } else {
            varint(v->Enum_0)
        },
        DataType::String(_) => varint(1 + v->Str_0.len()) + v->Str_0,
        DataType::Binary(_) => varint(1 + v->Bin_0.len()) + v->Bin_0,
        DataType::List(t, _) => varint(1 + v->List_0.len()) + enc_list(*t, v->List_0),
        DataType::IList(_) => varint(1 + v->IList_0.len()) + enc_ints(v->IList_0),
    }
}

/// Encodings of `items[i]` by `ts[i]`, in order.
pub open spec fn enc_types(ts: Seq<DataType>, items: Seq<Val>) -> Seq<u8>
    decreases ts, 0nat,
{
    if ts.len() == 0 {
        Seq::empty()
    } else {
        enc_types(ts.subrange(0, ts.len() - 1), items) + enc0(ts[ts.len() - 1], items[ts.len() - 1])
    }
}

/// Encodings of `items[i]` by the type of field `fs[i]`, in order.
pub open spec fn enc_fields(fs: Seq<(Vec<u8>, DataType)>, items: Seq<Val>) -> Seq<u8>
    decreases fs, 0nat,
{
    if fs.len() == 0 {
        Seq::empty()
    } else {
        enc_fields(fs.subrange(0, fs.len() - 1), items) + enc0(
            fs[fs.len() - 1].1,
            items[fs.len() - 1],
        )
    }
}

/// Encodings of all items by type `t`, in order.
pub open spec fn enc_list(t: DataType, items: Seq<Val>) -> Seq<u8>
    decreases t, items.len(),
{
    if items.len() == 0 {
        Seq::empty()
    } else {
        enc_list(t, items.subrange(0, items.len() - 1)) + enc0(t, items[items.len() - 1])
    }
}

/// The 8-byte encodings of the integers, in order.
pub open spec fn enc_ints(items: Seq<i64>) -> Seq<u8>
    decreases items.len(),
{
    if items.len() == 0 {
        Seq::empty()
    } else {
        enc_ints(items.subrange(0, items.len() - 1)) + int_bytes(items[items.len() - 1])
    }
}

/// The length prefix at `pos` of a string, binary or list: the number it
/// holds less one, and the position after it. Fails on a prefix 0 (which
/// marks a value stored indirectly).
pub open spec fn dec_len(buf: Seq<u8>, pos: int) -> Option<(nat, int)> {
    if usize_decodable(buf, pos) && dec_usize(buf, pos).0 >= 1 {
        Some(((dec_usize(buf, pos).0 - 1) as nat, dec_usize(buf, pos).1))
    } else {
        None
    }
}

/// Decodes a directly encoded value of type `dt` at `pos`: the value and the
/// position after it; `None` where decoding would fail.
pub open spec fn dec0(dt: DataType, buf: Seq<u8>, pos: int) -> Option<(Val, int)>
    decreases dt, 0nat,
{
    if pos < 0 || pos > buf.len() {
        None
    } else {
        match dt {
            DataType::Empty => Some((Val::Empty, pos)),
            DataType::Bool => if pos < buf.len() {
                Some((Val::Bool(buf[pos] != 0), pos + 1))
            } else {
                None
            },
            DataType::Int => if pos + 8 <= buf.len() {
                Some((Val::Int(int_at(buf, pos)), pos + 8))
            } else {
                None
            },
            DataType::Float => if pos + 8 <= buf.len() {
                Some((Val::Float(le_value(buf.subrange(pos, pos + 8)) as u64), pos + 8))
            } else {
                None
            },
            DataType::Tuple(ts) => match dec_types(ts@, buf, pos) {
                Some((items, p)) => Some((Val::List(items), p)),
                None => None,
            },
            DataType::Struct(fs) => match dec_fields(fs@, buf, pos) {
                Some((items, p)) => Some((Val::List(items), p)),
                None => None,
            },
            DataType::Enum(vs) => if usize_decodable(buf, pos) && dec_usize(buf, pos).0 < vs@.len() {
                let (tag, p) = dec_usize(buf, pos);
                match dec0(vs@[tag as int].1, buf, p) {
                    Some((v, q)) => Some((Val::Enum(tag as nat, Box::new(v)), q)),
                    None => None,
                }
            } else {
                None
            },
            DataType::String(_) => match dec_len(buf, pos) {
                Some((n, p)) => if p + n <= buf.len() && vstd::utf8::valid_utf8(
                    buf.subrange(p, p + n),
                ) {
                    Some((Val::Str(buf.subrange(p, p + n)), p + n))
                } else {
                    None
                },
                None => None,
            },
            DataType::Binary(_) => match dec_len(buf, pos) {
                Some((n, p)) => if p + n <= buf.len() {
                    Some((Val::Bin(buf.subrange(p, p + n)), p + n))
                } else {
                    None
                },
                None => None,
            },
            DataType::List(t, _) => match dec_len(buf, pos) {
                Some((n, p)) => match dec_list(*t, buf, p, n) {
                    Some((items, q)) => Some((Val::List(items), q)),
                    None => None,
                },
                None => None,
            },
            DataType::IList(_) => match dec_len(buf, pos) {
                Some((n, p)) => if p + 8 * n <= buf.len() {
                    Some((Val::IList(Seq::new(n, |i: int| int_at(buf, p + 8 * i))), p + 8 * n))
                } else {
                    None
                },
                None => None,
            },
        }
    }
}

/// Decodes one value of each type of `ts`, in order, from `pos`.
pub open spec fn dec_types(ts: Seq<DataType>, buf: Seq<u8>, pos: int) -> Option<(Seq<Val>, int)>
    decreases ts, 0nat,
{
    if ts.len() == 0 {
        Some((Seq::empty(), pos))
    } else {
        match dec_types(ts.subrange(0, ts.len() - 1), buf, pos) {
            Some((items, p)) => match dec0(ts[ts.len() - 1], buf, p) {
                Some((v, q)) => Some((items.push(v), q)),
                None => None,
            },
            None => None,
        }
    }
}

/// Decodes one value of each field type of `fs`, in order, from `pos`.
pub open spec fn dec_fields(fs: Seq<(Vec<u8>, DataType)>, buf: Seq<u8>, pos: int) -> Option<
    (Seq<Val>, int),
>
    decreases fs, 0nat,
{
    if fs.len() == 0 {
        Some((Seq::empty(), pos))
    } else {
        match dec_fields(fs.subrange(0, fs.len() - 1), buf, pos) {
            Some((items, p)) => match dec0(fs[fs.len() - 1].1, buf, p) {
                Some((v, q)) => Some((items.push(v), q)),
                None => None,
            },
            None => None,
        }
    }
}

/// Decodes `n` values of type `t`, in order, from `pos`.
pub open spec fn dec_list(t: DataType, buf: Seq<u8>, pos: int, n: nat) -> Option<(Seq<Val>, int)>
    decreases t, n,
{
    if n == 0 {
        Some((Seq::empty(), pos))
    } else {
        match dec_list(t, buf, pos, (n - 1) as nat) {
            Some((items, p)) => match dec0(t, buf, p) {
                Some((v, q)) => Some((items.push(v), q)),
                None => None,
            },
            None => None,
        }
    }
}

/// The models of a sequence of values.
pub open spec fn models(s: Seq<Value>) -> Seq<Val> {
    Seq::new(s.len(), |i: int| s[i].model())
}

/// Decoding a prefix of the types succeeds when decoding all of them does.
pub proof fn lemma_dec_types_prefix(ts: Seq<DataType>, buf: Seq<u8>, pos: int, k: int)
    requires
        dec_types(ts, buf, pos) is Some,
        0 <= k <= ts.len(),
    ensures
        dec_types(ts.subrange(0, k), buf, pos) is Some,
    decreases ts.len(),
{
    if k == ts.len() {
        assert(ts.subrange(0, k) =~= ts);
    } else {
        let ts1 = ts.subrange(0, ts.len() - 1);
        lemma_dec_types_prefix(ts1, buf, pos, k);
        assert(ts1.subrange(0, k) =~= ts.subrange(0, k));
    }
}

/// Decoding a prefix of the fields succeeds when decoding all of them does.
pub proof fn lemma_dec_fields_prefix(fs: Seq<(Vec<u8>, DataType)>, buf: Seq<u8>, pos: int, k: int)
    requires
        dec_fields(fs, buf, pos) is Some,
        0 <= k <= fs.len(),
    ensures
        dec_fields(fs.subrange(0, k), buf, pos) is Some,
    decreases fs.len(),
{
    if k == fs.len() {
        assert(fs.subrange(0, k) =~= fs);
    } else {
        let fs1 = fs.subrange(0, fs.len() - 1);
        lemma_dec_fields_prefix(fs1, buf, pos, k);
        assert(fs1.subrange(0, k) =~= fs.subrange(0, k));
    }
}

/// Decoding the first `k` of `n` list items succeeds when decoding all does.
pub proof fn lemma_dec_list_prefix(t: DataType, buf: Seq<u8>, pos: int, n: nat, k: nat)
    requires
        dec_list(t, buf, pos, n) is Some,
        k <= n,
    ensures
        dec_list(t, buf, pos, k) is Some,
    decreases n,
{
    if k < n {
        lemma_dec_list_prefix(t, buf, pos, (n - 1) as nat, k);
    }
}

/// Value `v` is a value of type `dt`: the variant that `dt` names, one item
/// per tuple or struct field, enum tags in range, strings valid UTF-8 and
/// lengths below the largest `usize`.
pub open spec fn fits(dt: DataType, v: Val) -> bool
    decreases dt, 0nat,
{
    match dt {
        DataType::Empty => v == Val::Empty,
        DataType::Bool => v is Bool,
        DataType::Int => v is Int,
        DataType::Float => v is Float,
        DataType::Tuple(ts) => v is List && v->List_0.len() == ts@.len() && forall|i: int|
            0 <= i < ts@.len() ==> fits(#[trigger] ts@[i], v->List_0[i]),
        DataType::Struct(fs) => v is List && v->List_0.len() == fs@.len() && forall|i: int|
            0 <= i < fs@.len() ==> fits(#[trigger] fs@[i].1, v->List_0[i]),
        DataType::Enum(vs) => v is Enum && v->Enum_0 < vs@.len() && v->Enum_0 <= usize::MAX && fits(
            vs@[v->Enum_0 as int].1,
            *v->Enum_1,
        ),
        DataType::String(_) => v is Str && v->Str_0.len() < usize::MAX && vstd::utf8::valid_utf8(
            v->Str_0,
        ),
        DataType::Binary(_) => v is Bin && v->Bin_0.len() < usize::MAX,
        DataType::List(t, _) => v is List && v->List_0.len() < usize::MAX && forall|i: int|
            0 <= i < v->List_0.len() ==> fits(*t, #[trigger] v->List_0[i]),
        DataType::IList(_) => v is IList && v->IList_0.len() < usize::MAX,
    }
}

/// `buf` holds `s` at `pos`.
pub open spec fn holds_at(buf: Seq<u8>, pos: int, s: Seq<u8>) -> bool {
    &&& 0 <= pos
    &&& pos + s.len() <= buf.len()
    &&& buf.subrange(pos, pos + s.len()) == s
}

/// Holding a concatenation means holding both parts.
pub proof fn lemma_holds_split(buf: Seq<u8>, pos: int, a: Seq<u8>, b: Seq<u8>)
    requires
        holds_at(buf, pos, a + b),
    ensures
        holds_at(buf, pos, a),
        holds_at(buf, pos + a.len(), b),
{
    let w = buf.subrange(pos, pos + (a + b).len());
    assert(w == a + b);
    assert(buf.subrange(pos, pos + a.len()) =~= w.subrange(0, a.len() as int));
    assert(w.subrange(0, a.len() as int) =~= a);
    assert(buf.subrange(pos + a.len(), pos + a.len() + b.len()) =~= w.subrange(
        a.len() as int,
        w.len() as int,
    ));
    assert(w.subrange(a.len() as int, w.len() as int) =~= b);
}

/// An integer reads back from its 8 bytes.
pub proof fn lemma_int_roundtrip(buf: Seq<u8>, pos: int, i: i64)
    requires
        holds_at(buf, pos, int_bytes(i)),
    ensures
        int_at(buf, pos) == i,
        int_bytes(i).len() == 8,
{
    crate::bytes::lemma_pow256_8();
    lemma_le_bytes_len(u64_of(i), 8);
    lemma_le_roundtrip(u64_of(i), 8);
}

/// The 8-byte encodings of the integers, one after another.
pub proof fn lemma_enc_ints(items: Seq<i64>)
    ensures
        enc_ints(items).len() == 8 * items.len(),
        forall|j: int|
            0 <= j < items.len() ==> #[trigger] enc_ints(items).subrange(8 * j, 8 * j + 8)
                == int_bytes(items[j]),
    decreases items.len(),
{
    if items.len() > 0 {
        let pre = items.subrange(0, items.len() - 1);
        lemma_enc_ints(pre);
        lemma_le_bytes_len(u64_of(items[items.len() - 1]), 8);
        assert forall|j: int|
            0 <= j < items.len() implies #[trigger] enc_ints(items).subrange(8 * j, 8 * j + 8)
            == int_bytes(items[j]) by {
            let e = enc_ints(items);
            if j < items.len() - 1 {
                assert(e.subrange(8 * j, 8 * j + 8) =~= enc_ints(pre).subrange(8 * j, 8 * j + 8));
                assert(pre[j] == items[j]);
            } else {
                assert(e.subrange(8 * j, 8 * j + 8) =~= int_bytes(items[j]));
            }
        }
    }
}

/// Decoding the direct encoding of a value gives back the value and the
/// position after the encoding.
pub proof fn lemma_roundtrip0(dt: DataType, v: Val, buf: Seq<u8>, pos: int)
    requires
        fits(dt, v),
        holds_at(buf, pos, enc0(dt, v)),
    ensures
        dec0(dt, buf, pos) == Some((v, pos + enc0(dt, v).len())),
    decreases dt, 0nat,
{
    match dt {
        DataType::Empty => {},
        DataType::Bool => {
            assert(buf[pos] == enc0(dt, v)[0]);
        },
        DataType::Int => {
            lemma_int_roundtrip(buf, pos, v->Int_0);
        },
        DataType::Float => {
            crate::bytes::lemma_pow256_8();
            lemma_le_bytes_len(v->Float_0 as nat, 8);
            lemma_le_roundtrip(v->Float_0 as nat, 8);
        },
        DataType::Tuple(ts) => {
            lemma_roundtrip_types(ts@, v->List_0, buf, pos);
            assert(v->List_0.subrange(0, ts@.len() as int) =~= v->List_0);
        },
        DataType::Struct(fs) => {
            lemma_roundtrip_fields(fs@, v->List_0, buf, pos);
            assert(v->List_0.subrange(0, fs@.len() as int) =~= v->List_0);
        },
        DataType::Enum(vs) => {
            let tag = v->Enum_0;
            lemma_holds_split(buf, pos, varint(tag), enc0(vs@[tag as int].1, *v->Enum_1));
            crate::varint::lemma_varint_roundtrip(buf, pos, tag);
            vstd::arithmetic::div_mod::lemma_small_mod(tag, usize::MAX as nat + 1);
            lemma_roundtrip0(vs@[tag as int].1, *v->Enum_1, buf, pos + varint(tag).len());
        },
        DataType::String(_) => {
            let s = v->Str_0;
            lemma_holds_split(buf, pos, varint(1 + s.len()), s);
            crate::varint::lemma_varint_roundtrip(buf, pos, 1 + s.len());
            vstd::arithmetic::div_mod::lemma_small_mod(1 + s.len(), usize::MAX as nat + 1);
        },
        DataType::Binary(_) => {
            let s = v->Bin_0;
            lemma_holds_split(buf, pos, varint(1 + s.len()), s);
            crate::varint::lemma_varint_roundtrip(buf, pos, 1 + s.len());
            vstd::arithmetic::div_mod::lemma_small_mod(1 + s.len(), usize::MAX as nat + 1);
        },
        DataType::List(t, _) => {
            let items = v->List_0;
            lemma_holds_split(buf, pos, varint(1 + items.len()), enc_list(*t, items));
            crate::varint::lemma_varint_roundtrip(buf, pos, 1 + items.len());
            vstd::arithmetic::div_mod::lemma_small_mod(1 + items.len(), usize::MAX as nat + 1);
            lemma_roundtrip_list(*t, items, buf, pos + varint(1 + items.len()).len());
        },
        DataType::IList(_) => {
            let items = v->IList_0;
            lemma_holds_split(buf, pos, varint(1 + items.len()), enc_ints(items));
            crate::varint::lemma_varint_roundtrip(buf, pos, 1 + items.len());
            vstd::arithmetic::div_mod::lemma_small_mod(1 + items.len(), usize::MAX as nat + 1);
            lemma_enc_ints(items);
            let p = pos + varint(1 + items.len()).len();
            assert forall|j: int| 0 <= j < items.len() implies int_at(buf, p + 8 * j) == items[j] by {
                let e = enc_ints(items);
                assert(buf.subrange(p + 8 * j, p + 8 * j + 8) =~= e.subrange(8 * j, 8 * j + 8));
                lemma_int_roundtrip(buf, p + 8 * j, items[j]);
            }
            assert(Seq::new(items.len(), |i: int| int_at(buf, p + 8 * i)) =~= items);
        },
    }
}

/// Decoding the encodings of items by their types gives back the items.
pub proof fn lemma_roundtrip_types(ts: Seq<DataType>, items: Seq<Val>, buf: Seq<u8>, pos: int)
    requires
        items.len() >= ts.len(),
        forall|i: int| 0 <= i < ts.len() ==> fits(#[trigger] ts[i], items[i]),
        holds_at(buf, pos, enc_types(ts, items)),
    ensures
        dec_types(ts, buf, pos) == Some(
            (items.subrange(0, ts.len() as int), pos + enc_types(ts, items).len()),
        ),
    decreases ts, 0nat,
{
    if ts.len() > 0 {
        let n = ts.len() - 1;
        let pre = ts.subrange(0, n);
        lemma_holds_split(buf, pos, enc_types(pre, items), enc0(ts[n], items[n]));
        assert forall|i: int| 0 <= i < pre.len() implies fits(#[trigger] pre[i], items[i]) by {
            assert(pre[i] == ts[i]);
        }
        lemma_roundtrip_types(pre, items, buf, pos);
        lemma_roundtrip0(ts[n], items[n], buf, pos + enc_types(pre, items).len());
        assert(items.subrange(0, n).push(items[n]) =~= items.subrange(0, ts.len() as int));
    }
}

/// Decoding the encodings of items by their field types gives back the items.
pub proof fn lemma_roundtrip_fields(
    fs: Seq<(Vec<u8>, DataType)>,
    items: Seq<Val>,
    buf: Seq<u8>,
    pos: int,
)
    requires
        items.len() >= fs.len(),
        forall|i: int| 0 <= i < fs.len() ==> fits(#[trigger] fs[i].1, items[i]),
        holds_at(buf, pos, enc_fields(fs, items)),
    ensures
        dec_fields(fs, buf, pos) == Some(
            (items.subrange(0, fs.len() as int), pos + enc_fields(fs, items).len()),
        ),
    decreases fs, 0nat,
{
    if fs.len() > 0 {
        let n = fs.len() - 1;
        let pre = fs.subrange(0, n);
        lemma_holds_split(buf, pos, enc_fields(pre, items), enc0(fs[n].1, items[n]));
        assert forall|i: int| 0 <= i < pre.len() implies fits(#[trigger] pre[i].1, items[i]) by {
            assert(pre[i] == fs[i]);
        }
        lemma_roundtrip_fields(pre, items, buf, pos);
        lemma_roundtrip0(fs[n].1, items[n], buf, pos + enc_fields(pre, items).len());
        assert(items.subrange(0, n).push(items[n]) =~= items.subrange(0, fs.len() as int));
    }
}

/// Decoding the encodings of list items gives back the items.
pub proof fn lemma_roundtrip_list(t: DataType, items: Seq<Val>, buf: Seq<u8>, pos: int)
    requires
        forall|i: int| 0 <= i < items.len() ==> fits(t, #[trigger] items[i]),
        holds_at(buf, pos, enc_list(t, items)),
    ensures
        dec_list(t, buf, pos, items.len()) == Some((items, pos + enc_list(t, items).len())),
    decreases t, items.len(),
{
    if items.len() > 0 {
        let n = items.len() - 1;
        let pre = items.subrange(0, n);
        lemma_holds_split(buf, pos, enc_list(t, pre), enc0(t, items[n]));
        assert forall|i: int| 0 <= i < pre.len() implies fits(t, #[trigger] pre[i]) by {
            assert(pre[i] == items[i]);
        }
        lemma_roundtrip_list(t, pre, buf, pos);
        lemma_roundtrip0(t, items[n], buf, pos + enc_list(t, pre).len());
        assert(pre.push(items[n]) =~= items);
    }
}

/// The default value of type `dt`.
pub open spec fn default_val(dt: DataType) -> Val
    decreases dt,
{
    match dt {
        DataType::Empty => Val::Empty,
        DataType::Bool => Val::Bool(false),
        DataType::Int => Val::Int(0),
        DataType::Float => Val::Float(0),
        DataType::Tuple(ts) => Val::List(
            Seq::new(
                ts@.len(),
                |i: int|
                    if 0 <= i < ts@.len() {
                        default_val(ts@[i])
                    } else {
                        Val::Empty
                    },
            ),
        ),
        DataType::Struct(fs) => Val::List(
            Seq::new(
                fs@.len(),
                |i: int|
                    if 0 <= i < fs@.len() {
                        default_val(fs@[i].1)
                    } else {
                        Val::Empty
                    },
            ),
        ),
        DataType::Enum(vs) => if vs@.len() > 0 {
            Val::Enum(0, Box::new(default_val(vs@[0].1)))
        } else {
            Val::Empty
        },
        DataType::String(_) => Val::Str(Seq::empty()),
        DataType::Binary(_) => Val::Bin(Seq::empty()),
        DataType::List(_, _) => Val::List(Seq::empty()),
        DataType::IList(_) => Val::IList(Seq::empty()),
    }
}

/// Type `dt` has a default value: every enum in it has a variant.
pub open spec fn has_default(dt: DataType) -> bool
    decreases dt,
{
    match dt {
        DataType::Tuple(ts) => forall|i: int| 0 <= i < ts@.len() ==> has_default(#[trigger] ts@[i]),
        DataType::Struct(fs) => forall|i: int|
            0 <= i < fs@.len() ==> has_default(#[trigger] fs@[i].1),
        DataType::Enum(vs) => vs@.len() > 0 && has_default(vs@[0].1),
        _ => true,
    }
}

/// Types that operators and assignments treat as compatible.
pub open spec fn similar_types(a: DataType, b: DataType) -> bool {
    ||| (a is Int && b is Int)
    ||| (a is String && b is String)
}

/// Position of the first field named `name`.
pub open spec fn first_field(fs: Seq<(Vec<u8>, DataType)>, name: Seq<u8>) -> Option<nat>
    decreases fs.len(),
{
    if fs.len() == 0 {
        None
    } else if fs[0].0@ == name {
        Some(0)
    } else {
        match first_field(fs.drop_first(), name) {
            Some(i) => Some(i + 1),
            None => None,
        }
    }
}

/// Values of type `dt` can be skipped: it is not a tuple, struct or enum,
/// nor a list of them.
pub open spec fn skippable(dt: DataType) -> bool
    decreases dt,
{
    match dt {
        DataType::Tuple(_) | DataType::Struct(_) | DataType::Enum(_) => false,
        DataType::List(t, _) => skippable(*t),
        _ => true,
    }
}

/// Skipping a value lands where decoding it ends: wherever a value of a
/// type that can be skipped decodes at `pos`, ending at `q`, skipping it
/// from `pos` gives `q`.
pub proof fn lemma_skip_is_decode_end(dt: DataType, buf: Seq<u8>, pos: int)
    requires
        skippable(dt),
        dec0(dt, buf, pos) is Some,
    ensures
        skip(dt, buf, pos) == Some(dec0(dt, buf, pos).unwrap().1),
    decreases dt, 0nat,
{
    match dt {
        DataType::List(t, _) => {
            let (n, p) = dec_len(buf, pos).unwrap();
            lemma_skip_list_is_decode_end(*t, buf, p, n);
        },
        _ => {},
    }
}

/// Skipping `n` list items lands where decoding them ends.
pub proof fn lemma_skip_list_is_decode_end(t: DataType, buf: Seq<u8>, pos: int, n: nat)
    requires
        skippable(t),
        dec_list(t, buf, pos, n) is Some,
    ensures
        skip_list(t, buf, pos, n) == Some(dec_list(t, buf, pos, n).unwrap().1),
    decreases t, n,
{
    if n > 0 {
        lemma_skip_list_is_decode_end(t, buf, pos, (n - 1) as nat);
        let p = dec_list(t, buf, pos, (n - 1) as nat).unwrap().1;
        lemma_skip_is_decode_end(t, buf, p);
    }
}

/// Skipping the first `k` items (of types that can be skipped) lands where
/// decoding them ends.
pub proof fn lemma_skip_types_is_decode_end(ts: Seq<DataType>, buf: Seq<u8>, pos: int, k: int)
    requires
        0 <= k <= ts.len(),
        forall|i: int| 0 <= i < k ==> skippable(#[trigger] ts[i]),
        dec_types(ts.subrange(0, k), buf, pos) is Some,
    ensures
        skip_types(ts, buf, pos, k as nat) == Some(dec_types(ts.subrange(0, k), buf, pos).unwrap().1),
    decreases k,
{
    let s = ts.subrange(0, k);
    if k == 0 {
        assert(s =~= Seq::<DataType>::empty());
    } else {
        assert(s.subrange(0, k - 1) =~= ts.subrange(0, k - 1));
        assert(s[k - 1] == ts[k - 1]);
        lemma_skip_types_is_decode_end(ts, buf, pos, k - 1);
        let p = dec_types(ts.subrange(0, k - 1), buf, pos).unwrap().1;
        assert(skippable(ts[k - 1]));
        lemma_skip_is_decode_end(ts[k - 1], buf, p);
    }
}

/// Decoding a prefix of the types gives the prefix of the items that
/// decoding all of them gives (one item per type).
pub proof fn lemma_dec_types_items(ts: Seq<DataType>, buf: Seq<u8>, pos: int, k: int)
    requires
        dec_types(ts, buf, pos) is Some,
        0 <= k <= ts.len(),
    ensures
        dec_types(ts, buf, pos).unwrap().0.len() == ts.len(),
        dec_types(ts.subrange(0, k), buf, pos) is Some,
        dec_types(ts.subrange(0, k), buf, pos).unwrap().0 == dec_types(ts, buf, pos).unwrap().0.subrange(0, k),
    decreases ts.len(),
{
    if ts.len() == 0 {
        assert(ts.subrange(0, k) =~= ts);
        assert(dec_types(ts, buf, pos).unwrap().0 =~= Seq::<Val>::empty());
    } else {
        let ts1 = ts.subrange(0, ts.len() - 1);
        let items = dec_types(ts, buf, pos).unwrap().0;
        if k == ts.len() {
            lemma_dec_types_items(ts1, buf, pos, ts1.len() as int);
            assert(ts.subrange(0, k) =~= ts);
            assert(items.subrange(0, k) =~= items);
        } else {
            lemma_dec_types_items(ts1, buf, pos, k);
            assert(ts1.subrange(0, k) =~= ts.subrange(0, k));
            let items1 = dec_types(ts1, buf, pos).unwrap().0;
            assert(items.subrange(0, k) =~= items1.subrange(0, k));
        }
    }
}

/// A struct decodes as the types of its fields do.
pub proof fn lemma_dec_fields_types(fs: Seq<(Vec<u8>, DataType)>, buf: Seq<u8>, pos: int)
    ensures
        dec_fields(fs, buf, pos) == dec_types(fs.map_values(|f: (Vec<u8>, DataType)| f.1), buf, pos),
    decreases fs.len(),
{
    let ts = fs.map_values(|f: (Vec<u8>, DataType)| f.1);
    if fs.len() > 0 {
        let fs1 = fs.subrange(0, fs.len() - 1);
        lemma_dec_fields_types(fs1, buf, pos);
        assert(fs1.map_values(|f: (Vec<u8>, DataType)| f.1) =~= ts.subrange(0, ts.len() - 1));
    }
}

/// The items of a row can be read one by one: where a tuple or struct
/// decodes at `pos` to items `items`, item `k` (after items of types that
/// can be skipped) decodes, at the position that skipping the items before
/// it gives, to `items[k]`.
pub proof fn lemma_item_at_skip(dt: DataType, buf: Seq<u8>, pos: int, k: int)
    requires
        dt is Tuple || dt is Struct,
        dec0(dt, buf, pos) is Some,
        0 <= k < item_types(dt).len(),
        forall|i: int| 0 <= i < k ==> skippable(#[trigger] item_types(dt)[i]),
    ensures
        skip_types(item_types(dt), buf, pos, k as nat) matches Some(p) && dec0(item_types(dt)[k], buf, p)
            matches Some((v, _)) && v == dec0(dt, buf, pos).unwrap().0->List_0[k],
{
    let ts = item_types(dt);
    if dt is Struct {
        lemma_dec_fields_types(dt->Struct_0@, buf, pos);
    }
    assert(dec_types(ts, buf, pos) is Some);
    assert(dec0(dt, buf, pos).unwrap().0->List_0 == dec_types(ts, buf, pos).unwrap().0);
    lemma_dec_types_items(ts, buf, pos, k + 1);
    lemma_dec_types_items(ts, buf, pos, k);
    lemma_skip_types_is_decode_end(ts, buf, pos, k);
    let s = ts.subrange(0, k + 1);
    assert(s.subrange(0, k) =~= ts.subrange(0, k));
    assert(s[k] == ts[k]);
    let items = dec_types(ts, buf, pos).unwrap().0;
    let p = dec_types(ts.subrange(0, k), buf, pos).unwrap().1;
    let pre = dec_types(ts.subrange(0, k), buf, pos).unwrap().0;
    assert(s.len() == k + 1);
    assert(dec_types(s, buf, pos) == match dec0(ts[k], buf, p) {
        Some((v, q)) => Some((pre.push(v), q)),
        None => None,
    });
    let v = dec0(ts[k], buf, p).unwrap().0;
    assert(dec_types(s, buf, pos).unwrap().0 == pre.push(v));
    assert(items.subrange(0, k + 1)[k] == items[k]);
    assert(skip_types(ts, buf, pos, k as nat) == Some(p));
}

/// Position after skipping a value of type `dt` at `pos` (without decoding
/// it), for values stored directly or indirectly; `None` where skipping is
/// not possible (tuples, structs and enums are not skipped).
pub open spec fn skip(dt: DataType, buf: Seq<u8>, pos: int) -> Option<int>
    decreases dt, 0nat,
{
    match dt {
        DataType::Empty => Some(pos),
        DataType::Bool => Some(pos + 1),
        DataType::Int => Some(pos + 8),
        DataType::Float => Some(pos + 8),
        DataType::String(_) | DataType::Binary(_) | DataType::IList(_) => if usize_decodable(
            buf,
            pos,
        ) {
            let (n, p) = dec_usize(buf, pos);
            if n == 0 {
                advance_pos(buf, p)
            } else if dt is IList {
                Some(p + (n - 1) * 8)
            } else {
                Some(p + n - 1)
            }
        } else {
            None
        },
        DataType::List(t, _) => if usize_decodable(buf, pos) {
            let (n, p) = dec_usize(buf, pos);
            if n == 0 {
                advance_pos(buf, p)
            } else {
                skip_list(*t, buf, p, (n - 1) as nat)
            }
        } else {
            None
        },
        _ => None,
    }
}

/// Position after skipping `n` values of type `t`.
pub open spec fn skip_list(t: DataType, buf: Seq<u8>, pos: int, n: nat) -> Option<int>
    decreases t, n,
{
    if n == 0 {
        Some(pos)
    } else {
        match skip_list(t, buf, pos, (n - 1) as nat) {
            Some(p) => skip(t, buf, p),
            None => None,
        }
    }
}

/// Position after an indirect reference (its length and 8-byte id) at `pos`.
pub open spec fn advance_pos(buf: Seq<u8>, pos: int) -> Option<int> {
    if usize_decodable(buf, pos) {
        Some(dec_usize(buf, pos).1 + 8)
    } else {
        None
    }
}

/// Skipping never moves backwards.
pub proof fn lemma_skip_mono(dt: DataType, buf: Seq<u8>, pos: int)
    requires
        skip(dt, buf, pos) is Some,
    ensures
        skip(dt, buf, pos).unwrap() >= pos,
    decreases dt, 0nat,
{
    match dt {
        DataType::String(_) | DataType::Binary(_) | DataType::IList(_) => {
            crate::varint::lemma_dec_varint_advances(buf, pos);
            let (n, p) = dec_usize(buf, pos);
            if n == 0 {
                crate::varint::lemma_dec_varint_advances(buf, p);
            }
        },
        DataType::List(t, _) => {
            crate::varint::lemma_dec_varint_advances(buf, pos);
            let (n, p) = dec_usize(buf, pos);
            if n == 0 {
                crate::varint::lemma_dec_varint_advances(buf, p);
            } else {
                lemma_skip_list_mono(*t, buf, p, (n - 1) as nat, (n - 1) as nat);
            }
        },
        _ => {},
    }
}

/// Skipping list items: every prefix can be skipped, and positions grow.
pub proof fn lemma_skip_list_mono(t: DataType, buf: Seq<u8>, pos: int, n: nat, k: nat)
    requires
        skip_list(t, buf, pos, n) is Some,
        k <= n,
    ensures
        skip_list(t, buf, pos, k) is Some,
        pos <= skip_list(t, buf, pos, k).unwrap() <= skip_list(t, buf, pos, n).unwrap(),
    decreases t, n,
{
    if n > 0 {
        let p = skip_list(t, buf, pos, (n - 1) as nat).unwrap();
        lemma_skip_mono(t, buf, p);
        if k < n {
            lemma_skip_list_mono(t, buf, pos, (n - 1) as nat, k);
        } else {
            lemma_skip_list_mono(t, buf, pos, (n - 1) as nat, (n - 1) as nat);
        }
    }
}

/// The field that [first_field] finds has the name.
pub proof fn lemma_first_field(fs: Seq<(Vec<u8>, DataType)>, name: Seq<u8>)
    ensures
        first_field(fs, name) matches Some(i) ==> i < fs.len() && fs[i as int].0@ == name,
    decreases fs.len(),
{
    if fs.len() > 0 && fs[0].0@ != name {
        lemma_first_field(fs.drop_first(), name);
    }
}

/// The types of the items of a tuple or struct type.
pub open spec fn item_types(dt: DataType) -> Seq<DataType> {
    match dt {
        DataType::Tuple(ts) => ts@,
        DataType::Struct(fs) => fs@.map_values(|f: (Vec<u8>, DataType)| f.1),
        _ => Seq::empty(),
    }
}

/// Position after skipping the first `k` items of types `ts` from `pos`.
pub open spec fn skip_types(ts: Seq<DataType>, buf: Seq<u8>, pos: int, k: nat) -> Option<int>
    decreases k,
{
    if k == 0 {
        Some(pos)
    } else {
        match skip_types(ts, buf, pos, (k - 1) as nat) {
            Some(p) => skip(ts[k - 1], buf, p),
            None => None,
        }
    }
}

/// Skipping items of a row: prefixes can be skipped and positions grow.
pub proof fn lemma_skip_types_mono(ts: Seq<DataType>, buf: Seq<u8>, pos: int, n: nat, k: nat)
    requires
        skip_types(ts, buf, pos, n) is Some,
        k <= n,
    ensures
        skip_types(ts, buf, pos, k) is Some,
        pos <= skip_types(ts, buf, pos, k).unwrap() <= skip_types(ts, buf, pos, n).unwrap(),
    decreases n,
{
    if n > 0 {
        let p = skip_types(ts, buf, pos, (n - 1) as nat).unwrap();
        lemma_skip_mono(ts[n - 1], buf, p);
        if k < n {
            lemma_skip_types_mono(ts, buf, pos, (n - 1) as nat, k);
        } else {
            lemma_skip_types_mono(ts, buf, pos, (n - 1) as nat, (n - 1) as nat);
        }
    }
}

/// Encoded size of value `v` of type `dt` where strings, binaries and lists
/// longer than their limit are stored indirectly (a 0 marker, the length and
/// an 8-byte id).
pub open spec fn size_of(dt: DataType, v: Val) -> nat
    decreases dt, 0nat,
{
    match dt {
        DataType::Empty => 0,
        DataType::Bool => 1,
        DataType::Int => 8,
        DataType::Float => 8,
        DataType::Tuple(ts) => size_types(ts@, v->List_0),
        DataType::Struct(fs) => size_fields(fs@, v->List_0),
        DataType::Enum(vs) => varint(v->Enum_0).len() + if v->Enum_0 < vs@.len() {
            size_of(vs@[v->Enum_0 as int].1, *v->Enum_1)
        } else {
            0
        },
        DataType::String(lim) => if v->Str_0.len() > lim {
            varint(v->Str_0.len()).len() + 9
        } else {
            varint(1 + v->Str_0.len()).len() + v->Str_0.len()
        },
        DataType::Binary(lim) => if v->Bin_0.len() > lim {
            varint(v->Bin_0.len()).len() + 9
        } else {
            varint(1 + v->Bin_0.len()).len() + v->Bin_0.len()
        },
        DataType::List(t, lim) => {
            let sz = varint(1 + v->List_0.len()).len() + size_list(*t, v->List_0);
            if varint(v->List_0.len()).len() + size_list(*t, v->List_0) > lim {
                varint(sz).len() + 9
            } else {
                sz
            }
        },
        DataType::IList(lim) => {
            let sz = varint(1 + v->IList_0.len()).len() + v->IList_0.len() * 8;
            if sz > lim {
                varint(sz).len() + 9
            } else {
                sz
            }
        },
    }
}

/// Sum of the sizes of `items[i]` by `ts[i]`.
pub open spec fn size_types(ts: Seq<DataType>, items: Seq<Val>) -> nat
    decreases ts, 0nat,
{
    if ts.len() == 0 {
        0
    } else {
        size_types(ts.subrange(0, ts.len() - 1), items) + size_of(ts[ts.len() - 1], items[ts.len() - 1])
    }
}

/// Sum of the sizes of `items[i]` by the type of field `fs[i]`.
pub open spec fn size_fields(fs: Seq<(Vec<u8>, DataType)>, items: Seq<Val>) -> nat
    decreases fs, 0nat,
{
    if fs.len() == 0 {
        0
    } else {
        size_fields(fs.subrange(0, fs.len() - 1), items) + size_of(
            fs[fs.len() - 1].1,
            items[fs.len() - 1],
        )
    }
}

/// Sum of the sizes of all items by type `t`.
pub open spec fn size_list(t: DataType, items: Seq<Val>) -> nat
    decreases t, items.len(),
{
    if items.len() == 0 {
        0
    } else {
        size_list(t, items.subrange(0, items.len() - 1)) + size_of(t, items[items.len() - 1])
    }
}

/// A bound on [size_of] and on the partial sums that computing it forms.
pub open spec fn size_bound(dt: DataType, v: Val) -> nat
    decreases dt, 0nat,
{
    match dt {
        DataType::Tuple(ts) => bound_types(ts@, v->List_0),
        DataType::Struct(fs) => bound_fields(fs@, v->List_0),
        DataType::Enum(vs) => varint(v->Enum_0).len() + if v->Enum_0 < vs@.len() {
            size_bound(vs@[v->Enum_0 as int].1, *v->Enum_1)
        } else {
            0
        },
        DataType::String(_) => varint(1 + v->Str_0.len()).len() + v->Str_0.len() + 9,
        DataType::Binary(_) => varint(1 + v->Bin_0.len()).len() + v->Bin_0.len() + 9,
        DataType::List(t, _) => varint(1 + v->List_0.len()).len() + bound_list(*t, v->List_0) + 9,
        DataType::IList(_) => varint(1 + v->IList_0.len()).len() + v->IList_0.len() * 8 + 9,
        _ => size_of(dt, v),
    }
}

/// Sum of the bounds of `items[i]` by `ts[i]`.
pub open spec fn bound_types(ts: Seq<DataType>, items: Seq<Val>) -> nat
    decreases ts, 0nat,
{
    if ts.len() == 0 {
        0
    } else {
        bound_types(ts.subrange(0, ts.len() - 1), items) + size_bound(
            ts[ts.len() - 1],
            items[ts.len() - 1],
        )
    }
}

/// Sum of the bounds of `items[i]` by the type of field `fs[i]`.
pub open spec fn bound_fields(fs: Seq<(Vec<u8>, DataType)>, items: Seq<Val>) -> nat
    decreases fs, 0nat,
{
    if fs.len() == 0 {
        0
    } else {
        bound_fields(fs.subrange(0, fs.len() - 1), items) + size_bound(
            fs[fs.len() - 1].1,
            items[fs.len() - 1],
        )
    }
}

/// Sum of the bounds of all items by type `t`.
pub open spec fn bound_list(t: DataType, items: Seq<Val>) -> nat
    decreases t, items.len(),
{
    if items.len() == 0 {
        0
    } else {
        bound_list(t, items.subrange(0, items.len() - 1)) + size_bound(t, items[items.len() - 1])
    }
}

/// Longer values have longer (or equal) encodings, and an encoding is never
/// longer than a positive value.
pub proof fn lemma_varint_len_mono(a: nat, b: nat)
    ensures
        a <= b ==> varint(a).len() <= varint(b).len(),
        a >= 1 ==> varint(a).len() <= a,
    decreases a + b,
{
    if a >= 128 && b >= 128 {
        lemma_varint_len_mono(a / 128, b / 128);
    }
    if a >= 128 {
        lemma_varint_len_mono(a / 128, 0);
    }
}

/// The size of a value is within its bound.
pub proof fn lemma_size_bound(dt: DataType, v: Val)
    ensures
        size_of(dt, v) <= size_bound(dt, v),
    decreases dt, 0nat,
{
    match dt {
        DataType::Tuple(ts) => lemma_size_bound_types(ts@, v->List_0),
        DataType::Struct(fs) => lemma_size_bound_fields(fs@, v->List_0),
        DataType::Enum(vs) => {
            if v->Enum_0 < vs@.len() {
                lemma_size_bound(vs@[v->Enum_0 as int].1, *v->Enum_1);
            }
        },
        DataType::String(_) => {
            lemma_varint_len_mono(v->Str_0.len(), 1 + v->Str_0.len());
        },
        DataType::Binary(_) => {
            lemma_varint_len_mono(v->Bin_0.len(), 1 + v->Bin_0.len());
        },
        DataType::List(t, _) => {
            lemma_size_bound_list(*t, v->List_0);
            let sz = varint(1 + v->List_0.len()).len() + size_list(*t, v->List_0);
            lemma_varint_len_mono(sz, sz);
            crate::varint::lemma_varint_len(1 + v->List_0.len());
        },
        DataType::IList(_) => {
            let sz = varint(1 + v->IList_0.len()).len() + v->IList_0.len() * 8;
            lemma_varint_len_mono(sz, sz);
            crate::varint::lemma_varint_len(1 + v->IList_0.len());
        },
        _ => {},
    }
}

/// Sums of sizes are within sums of bounds.
pub proof fn lemma_size_bound_types(ts: Seq<DataType>, items: Seq<Val>)
    ensures
        size_types(ts, items) <= bound_types(ts, items),
    decreases ts, 0nat,
{
    if ts.len() > 0 {
        lemma_size_bound_types(ts.subrange(0, ts.len() - 1), items);
        lemma_size_bound(ts[ts.len() - 1], items[ts.len() - 1]);
    }
}

/// Sums of sizes are within sums of bounds.
pub proof fn lemma_size_bound_fields(fs: Seq<(Vec<u8>, DataType)>, items: Seq<Val>)
    ensures
        size_fields(fs, items) <= bound_fields(fs, items),
    decreases fs, 0nat,
{
    if fs.len() > 0 {
        lemma_size_bound_fields(fs.subrange(0, fs.len() - 1), items);
        lemma_size_bound(fs[fs.len() - 1].1, items[fs.len() - 1]);
    }
}

/// Sums of sizes are within sums of bounds.
pub proof fn lemma_size_bound_list(t: DataType, items: Seq<Val>)
    ensures
        size_list(t, items) <= bound_list(t, items),
    decreases t, items.len(),
{
    if items.len() > 0 {
        lemma_size_bound_list(t, items.subrange(0, items.len() - 1));
        lemma_size_bound(t, items[items.len() - 1]);
    }
}

/// Bounds of prefixes of the types are within the bound of all of them.
pub proof fn lemma_bound_types_prefix(ts: Seq<DataType>, items: Seq<Val>, k: int)
    requires
        0 <= k <= ts.len(),
    ensures
        bound_types(ts.subrange(0, k), items) <= bound_types(ts, items),
    decreases ts.len(),
{
    if k == ts.len() {
        assert(ts.subrange(0, k) =~= ts);
    } else {
        let pre = ts.subrange(0, ts.len() - 1);
        lemma_bound_types_prefix(pre, items, k);
        assert(pre.subrange(0, k) =~= ts.subrange(0, k));
    }
}

/// Bounds of prefixes of the fields are within the bound of all of them.
pub proof fn lemma_bound_fields_prefix(fs: Seq<(Vec<u8>, DataType)>, items: Seq<Val>, k: int)
    requires
        0 <= k <= fs.len(),
    ensures
        bound_fields(fs.subrange(0, k), items) <= bound_fields(fs, items),
    decreases fs.len(),
{
    if k == fs.len() {
        assert(fs.subrange(0, k) =~= fs);
    } else {
        let pre = fs.subrange(0, fs.len() - 1);
        lemma_bound_fields_prefix(pre, items, k);
        assert(pre.subrange(0, k) =~= fs.subrange(0, k));
    }
}

/// Bounds of prefixes of the items are within the bound of all of them.
pub proof fn lemma_bound_list_prefix(t: DataType, items: Seq<Val>, k: int)
    requires
        0 <= k <= items.len(),
    ensures
        bound_list(t, items.subrange(0, k)) <= bound_list(t, items),
    decreases items.len(),
{
    if k == items.len() {
        assert(items.subrange(0, k) =~= items);
    } else {
        let pre = items.subrange(0, items.len() - 1);
        lemma_bound_list_prefix(t, pre, k);
        assert(pre.subrange(0, k) =~= items.subrange(0, k));
    }
}

/// Initially offset of serialised data, changes to value when accessed.
pub enum LazyItem {
    /// Offset of serialised data.
    Offset(usize),
    /// Value of serialised data.
    Value(Value),
}

/// Are the two byte strings equal?
pub fn bytes_eq(a: &[u8], b: &[u8]) -> (r: bool)
    ensures
        r == (a@ == b@),
{
    if a.len() != b.len() {
        return false;
    }
    let mut i: usize = 0;
    while i < a.len()
        invariant
            a@.len() == b@.len(),
            i <= a@.len(),
            forall|j: int| 0 <= j < i ==> a@[j] == b@[j],
        decreases a@.len() - i,
    {
        if a[i] != b[i] {
            return false;
        }
        i += 1;
    }
    proof {
        assert(a@ =~= b@);
    }
    true
}

impl DataType {
    /// Appends the varint encoding of `val`.
    pub(crate) fn write_usize(&self, val: usize, w: &mut Vec<u8>)
        ensures
            final(w)@ == old(w)@ + varint(val as nat),
    {
        let mut val = val;
        let ghost v0 = val;
        loop
            invariant_except_break
                old(w)@ + varint(v0 as nat) == w@ + varint(val as nat),
            ensures
                final(w)@ == old(w)@ + varint(v0 as nat),
            decreases val,
        {
            let b = (val % 128) as u8;
            let ghost before = w@;
            let ghost v = val;
            val = val / 128;
            if val == 0 {
                w.push(b);
                proof {
                    assert(w@ =~= before + varint(v as nat));
                }
                break;
            } else {
                w.push(b + 128);
                proof {
                    assert(before + varint(v as nat) =~= w@ + varint(val as nat));
                }
            }
        }
    }

    /// Length of the varint encoding of `val`.
    pub(crate) fn len_usize(val: usize) -> (r: usize)
        ensures
            r == varint(val as nat).len(),
    {
        let mut val = val;
        let mut ix: usize = 0;
        let ghost v0 = val;
        proof {
            lemma_varint_len_max(v0 as nat);
        }
        loop
            invariant_except_break
                ix + varint(val as nat).len() == varint(v0 as nat).len(),
                varint(v0 as nat).len() <= 10,
            ensures
                ix == varint(v0 as nat).len(),
            decreases val,
        {
            proof {
                lemma_varint_len(val as nat);
            }
            val = val / 128;
            if val == 0 {
                ix += 1;
                break;
            } else {
                ix += 1;
            }
        }
        ix
    }

    /// Returns decoded size and count of bytes that were read.
    pub fn decode_usize(buf: &[u8]) -> (r: (usize, usize))
        requires
            usize_decodable(buf@, 0),
        ensures
            (r.0, r.1 as int) == dec_usize(buf@, 0),
    {
        Self::decode_usize_at(buf, 0)
    }

    /// Decodes the varint at `pos`: its value and the position after it.
    pub(crate) fn decode_usize_at(buf: &[u8], pos: usize) -> (r: (usize, usize))
        requires
            usize_decodable(buf@, pos as int),
        ensures
            (r.0, r.1 as int) == dec_usize(buf@, pos as int),
        decreases buf@.len() - pos,
    {
        let b = buf[pos];
        if b < 128 {
            proof {
                vstd::arithmetic::div_mod::lemma_small_mod(b as nat, usize::MAX as nat + 1);
            }
            (b as usize, pos + 1)
        } else {
            let ghost (v, p) = dec_varint(buf@, pos as int).unwrap();
            proof {
                assert(dec_varint(buf@, pos + 1) is Some);
                let p1 = dec_varint(buf@, pos + 1).unwrap().1;
                assert(p1 == p);
                assert(p1 >= pos + 2) by {
                    if p1 < pos + 2 {
                        lemma_dec_varint_advances(buf@, pos + 1);
                    }
                }
                vstd::arithmetic::power::lemma_pow_increases(
                    128,
                    (p - pos - 2) as nat,
                    (p - pos - 1) as nat,
                );
            }
            let (t, p2) = Self::decode_usize_at(buf, pos + 1);
            let ghost vt = dec_varint(buf@, pos + 1).unwrap().0;
            let m = t.wrapping_mul(128);
            let r = ((b - 128) as usize).wrapping_add(m);
            proof {
                let mm = usize::MAX as nat + 1;
                vstd::arithmetic::div_mod::lemma_mul_mod_noop_right(128, vt as int, mm as int);
                vstd::arithmetic::div_mod::lemma_add_mod_noop_right((b - 128) as int, 128 * vt as int, mm as int);
                vstd::arithmetic::div_mod::lemma_small_mod((b - 128) as nat, mm);
                assert(m as int == (128 * vt as int) % (mm as int));
            }
            (r, p2)
        }
    }

    /// Reads the varint at `*ix`, advancing `*ix` past it.
    /// The weight of the last byte of the varint at `pos` (128 to the power
    /// of the number of bytes before it), where it decodes to a `usize`.
    fn varint_scale(buf: &[u8], pos: usize) -> (r: Option<usize>)
        ensures
            r is Some <==> usize_decodable(buf@, pos as int),
            r is Some ==> r->0 == pow(
                128,
                (dec_varint(buf@, pos as int).unwrap().1 - pos - 1) as nat,
            ),
        decreases buf@.len() - pos,
    {
        if pos >= buf.len() {
            None
        } else if buf[pos] < 128 {
            proof {
                vstd::arithmetic::power::lemma_pow0(128);
            }
            Some(1)
        } else {
            let r = Self::varint_scale(buf, pos + 1);
            proof {
                if dec_varint(buf@, pos + 1) is Some {
                    let k = (dec_varint(buf@, pos + 1).unwrap().1 - pos - 2) as nat;
                    lemma_dec_varint_advances(buf@, pos + 1);
                    vstd::arithmetic::power::lemma_pow_adds(128, k, 1);
                    vstd::arithmetic::power::lemma_pow1(128);
                    assert(pow(128, k + 1) == pow(128, k) * 128);
                    vstd::arithmetic::power::lemma_pow_positive(128, k);
                }
            }
            match r {
                None => None,
                Some(s) => {
                    if s > usize::MAX / 128 {
                        proof {
                            assert(s * 128 > usize::MAX) by (nonlinear_arith)
                                requires
                                    s > usize::MAX / 128,
                            ;
                        }
                        None
                    } else {
                        proof {
                            assert(s * 128 <= usize::MAX) by (nonlinear_arith)
                                requires
                                    s <= usize::MAX / 128,
                            ;
                        }
                        Some(s * 128)
                    }
                },
            }
        }
    }

    /// Reads the varint at `*ix` where it decodes to a `usize` (moving past
    /// it); `None`, with `*ix` unchanged, where it does not.
    pub(crate) fn try_read_usize(&self, buf: &[u8], ix: &mut usize) -> (r: Option<usize>)
        ensures
            r is Some <==> usize_decodable(buf@, *old(ix) as int),
            r is Some ==> (r->0, *final(ix) as int) == dec_usize(buf@, *old(ix) as int),
            r is Some ==> *final(ix) <= buf@.len(),
            r is None ==> *final(ix) == *old(ix),
    {
        match Self::varint_scale(buf, *ix) {
            None => None,
            Some(_) => {
                proof {
                    lemma_dec_varint_advances(buf@, *ix as int);
                }
                Some(self.read_usize(buf, ix))
            },
        }
    }

    pub(crate) fn read_usize(&self, buf: &[u8], ix: &mut usize) -> (r: usize)
        requires
            usize_decodable(buf@, *old(ix) as int),
        ensures
            (r, *final(ix) as int) == dec_usize(buf@, *old(ix) as int),
    {
        let (x, p) = Self::decode_usize_at(buf, *ix);
        *ix = p;
        x
    }

    /// Appends the 8 little-endian bytes of `val`.
    pub(crate) fn write_int(&self, val: i64, w: &mut Vec<u8>)
        ensures
            final(w)@ == old(w)@ + int_bytes(val),
    {
        let u: u64 = if val >= 0 {
            val as u64
        } else {
            let t = (val + i64::MAX) + 1;
            (t as u64) + 0x8000_0000_0000_0000
        };
        Self::write_u64(u, w);
    }

    /// Appends the 8 little-endian bytes of `u`.
    pub(crate) fn write_u64(u: u64, w: &mut Vec<u8>)
        ensures
            final(w)@ == old(w)@ + le_bytes(u as nat, 8),
    {
        let mut x = u;
        let mut i: usize = 0;
        while i < 8
            invariant
                i <= 8,
                w@ + le_bytes(x as nat, (8 - i) as nat) == old(w)@ + le_bytes(u as nat, 8),
            decreases 8 - i,
        {
            let ghost before = w@;
            let ghost x0 = x;
            w.push((x % 256) as u8);
            x = x / 256;
            i += 1;
            proof {
                assert(le_bytes(x0 as nat, (8 - i + 1) as nat) == seq![(x0 % 256) as u8] + le_bytes(
                    x as nat,
                    (8 - i) as nat,
                ));
                assert(before + le_bytes(x0 as nat, (8 - i + 1) as nat) =~= w@ + le_bytes(
                    x as nat,
                    (8 - i) as nat,
                ));
            }
        }
        proof {
            assert(w@ =~= w@ + le_bytes(x as nat, 0));
        }
    }

    /// Reads the 8-byte integer at `*ix`, advancing `*ix` past it.
    pub(crate) fn read_int(&self, buf: &[u8], ix: &mut usize) -> (r: i64)
        requires
            *old(ix) + 8 <= buf@.len(),
        ensures
            r == int_at(buf@, *old(ix) as int),
            *final(ix) == *old(ix) + 8,
    {
        let _len = buf.len();
        let u = crate::bytes::get_u64(buf, *ix);
        *ix += 8;
        if u < 0x8000_0000_0000_0000 {
            u as i64
        } else {
            let t = (u - 0x8000_0000_0000_0000) as i64;
            t - i64::MAX - 1
        }
    }

    /// Reads the 8 bytes of a float at `*ix`, advancing `*ix` past it.
    pub(crate) fn read_float(&self, buf: &[u8], ix: &mut usize) -> (r: F64)
        requires
            *old(ix) + 8 <= buf@.len(),
        ensures
            r.0 == le_value(buf@.subrange(*old(ix) as int, *old(ix) + 8)),
            *final(ix) == *old(ix) + 8,
    {
        let _len = buf.len();
        let u = crate::bytes::get_u64(buf, *ix);
        *ix += 8;
        F64(u)
    }

    /// Appends a byte 1 for true, 0 for false.
    pub(crate) fn write_bool(&self, val: bool, w: &mut Vec<u8>)
        ensures
            final(w)@ == old(w)@.push(if val {
                1u8
            } else {
                0u8
            }),
    {
        let b: u8 = if val {
            1
        } else {
            0
        };
        w.push(b);
    }

    /// Reads a bool byte (any non-zero byte is true), advancing `*ix`.
    pub(crate) fn read_bool(&self, buf: &[u8], ix: &mut usize) -> (r: bool)
        requires
            *old(ix) < buf@.len(),
        ensures
            r == (buf@[*old(ix) as int] != 0),
            *final(ix) == *old(ix) + 1,
    {
        let x = buf[*ix];
        *ix += 1;
        x != 0
    }

    /// Encode value (which must match DataType) as bytes. DataType will later be used to decode the bytes.
    pub fn value_to_bytes0(&self, val: &Value) -> (r: Vec<u8>)
        requires
            encodable(*self, val.model()),
        ensures
            r@ == enc0(*self, val.model()),
    {
        let mut w = Vec::new();
        self.value_to_writer0(val, &mut w);
        proof {
            assert(w@ =~= Seq::<u8>::empty() + enc0(*self, val.model()));
        }
        w
    }

    /// Appends the bytes of `b`.
    pub(crate) fn write_bytes(b: &[u8], w: &mut Vec<u8>)
        ensures
            final(w)@ == old(w)@ + b@,
    {
        let mut i: usize = 0;
        while i < b.len()
            invariant
                i <= b@.len(),
                w@ == old(w)@ + b@.subrange(0, i as int),
            decreases b@.len() - i,
        {
            w.push(b[i]);
            i += 1;
            proof {
                assert(w@ =~= old(w)@ + b@.subrange(0, i as int));
            }
        }
        proof {
            assert(b@.subrange(0, b@.len() as int) =~= b@);
        }
    }

    /// Encode value (which must match DataType) as bytes, appended to `w`.
    pub(crate) fn value_to_writer0(&self, val: &Value, w: &mut Vec<u8>)
        requires
            encodable(*self, val.model()),
        ensures
            final(w)@ == old(w)@ + enc0(*self, val.model()),
        decreases self,
    {
        let ghost m = val.model();
        match self {
            DataType::Empty => {
                proof {
                    assert(w@ =~= w@ + Seq::<u8>::empty());
                }
            },
            DataType::Bool => {
                self.write_bool(val.bool(), w);
                proof {
                    assert(w@ =~= old(w)@ + enc0(*self, m));
                }
            },
            DataType::Int => {
                self.write_int(val.int_val(), w);
            },
            DataType::Float => {
                Self::write_u64(val.float(), w);
            },
            DataType::Tuple(types) => {
                let list = val.list();
                let ghost items = m->List_0;
                let mut i: usize = 0;
                while i < types.len()
                    invariant
                        *self == DataType::Tuple(*types),
                        m == val.model(),
                        items == m->List_0,
                        val is List,
                        *list == val->List_0,
                        encodable(*self, m),
                        i <= types@.len(),
                        w@ == old(w)@ + enc_types(types@.subrange(0, i as int), items),
                    decreases types@.len() - i,
                {
                    proof {
                        assert(items[i as int] == list@[i as int].model());
                        assert(encodable_types(types@, items));
                        assert(encodable(types@[i as int], items[i as int]));
                    }
                    types[i].value_to_writer0(&list[i], w);
                    i += 1;
                    proof {
                        assert(types@.subrange(0, i as int).subrange(0, i - 1) =~= types@.subrange(
                            0,
                            i - 1,
                        ));
                    }
                }
                proof {
                    assert(types@.subrange(0, types@.len() as int) =~= types@);
                }
            },
            DataType::Struct(fields) => {
                let list = val.list();
                let ghost items = m->List_0;
                let mut i: usize = 0;
                while i < fields.len()
                    invariant
                        *self == DataType::Struct(*fields),
                        m == val.model(),
                        items == m->List_0,
                        val is List,
                        *list == val->List_0,
                        encodable(*self, m),
                        i <= fields@.len(),
                        w@ == old(w)@ + enc_fields(fields@.subrange(0, i as int), items),
                    decreases fields@.len() - i,
                {
                    proof {
                        assert(items[i as int] == list@[i as int].model());
                        assert(encodable_fields(fields@, items));
                        assert(encodable(fields@[i as int].1, items[i as int]));
                    }
                    fields[i].1.value_to_writer0(&list[i], w);
                    i += 1;
                    proof {
                        assert(fields@.subrange(0, i as int).subrange(0, i - 1) =~= fields@.subrange(
                            0,
                            i - 1,
                        ));
                    }
                }
                proof {
                    assert(fields@.subrange(0, fields@.len() as int) =~= fields@);
                }
            },
            DataType::Enum(variants) => {
                let (tag, v) = val.en();
                self.write_usize(*tag, w);
                variants[*tag].1.value_to_writer0(v, w);
                proof {
                    assert(w@ =~= old(w)@ + enc0(*self, m));
                }
            },
            DataType::String(_lim) => {
                let s = val.string();
                self.write_usize(1 + s.len(), w);
                Self::write_bytes(s.as_slice(), w);
                proof {
                    assert(w@ =~= old(w)@ + enc0(*self, m));
                }
            },
            DataType::Binary(_lim) => {
                let b = val.binary();
                self.write_usize(1 + b.len(), w);
                Self::write_bytes(b.as_slice(), w);
                proof {
                    assert(w@ =~= old(w)@ + enc0(*self, m));
                }
            },
            DataType::List(t, _lim) => {
                let list = val.list();
                self.write_usize(1 + list.len(), w);
                let ghost items = m->List_0;
                let ghost w0 = w@;
                let mut i: usize = 0;
                while i < list.len()
                    invariant
                        *self == DataType::List(*t, *_lim),
                        m == val.model(),
                        items == m->List_0,
                        val is List,
                        *list == val->List_0,
                        encodable(*self, m),
                        i <= list@.len(),
                        w@ == w0 + enc_list(**t, items.subrange(0, i as int)),
                    decreases list@.len() - i,
                {
                    proof {
                        assert(items[i as int] == list@[i as int].model());
                        assert(encodable_list(**t, items));
                        assert(encodable(**t, items[i as int]));
                    }
                    t.value_to_writer0(&list[i], w);
                    i += 1;
                    proof {
                        assert(items.subrange(0, i as int).subrange(0, i - 1) =~= items.subrange(
                            0,
                            i - 1,
                        ));
                    }
                }
                proof {
                    assert(items.subrange(0, items.len() as int) =~= items);
                    assert(w@ =~= old(w)@ + enc0(*self, m));
                }
            },
            DataType::IList(_lim) => {
                let list = val.ilist();
                self.write_usize(1 + list.len(), w);
                let ghost items = list@;
                let ghost w0 = w@;
                let mut i: usize = 0;
                while i < list.len()
                    invariant
                        items == list@,
                        i <= list@.len(),
                        w@ == w0 + enc_ints(items.subrange(0, i as int)),
                    decreases list@.len() - i,
                {
                    self.write_int(list[i], w);
                    i += 1;
                    proof {
                        assert(items.subrange(0, i as int).subrange(0, i - 1) =~= items.subrange(
                            0,
                            i - 1,
                        ));
                    }
                }
                proof {
                    assert(items.subrange(0, items.len() as int) =~= items);
                    assert(w@ =~= old(w)@ + enc0(*self, m));
                }
            },
        }
    }

    /// Decode bytes of this DataType. Returns decoded Value.
    pub fn bytes_to_value0(&self, buf: &[u8]) -> (r: Value)
        requires
            dec0(*self, buf@, 0) is Some,
        ensures
            r.model() == dec0(*self, buf@, 0).unwrap().0,
    {
        let mut ix: usize = 0;
        self.to_value0(buf, &mut ix)
    }

    /// Decode bytes of this DataType. ix is advanced according to the bytes read from buf. Returns decoded Value.
    pub(crate) fn to_value0(&self, buf: &[u8], ix: &mut usize) -> (r: Value)
        requires
            dec0(*self, buf@, *old(ix) as int) is Some,
        ensures
            r.model() == dec0(*self, buf@, *old(ix) as int).unwrap().0,
            *final(ix) == dec0(*self, buf@, *old(ix) as int).unwrap().1,
        decreases self,
    {
        let ghost pos = *ix as int;
        let ghost res = dec0(*self, buf@, pos).unwrap();
        let _blen = buf.len();
        match self {
            DataType::Empty => Value::Empty,
            DataType::Bool => Value::Bool(self.read_bool(buf, ix)),
            DataType::Int => Value::Int(self.read_int(buf, ix)),
            DataType::Float => {
                let f = self.read_float(buf, ix);
                Value::Float(f)
            },
            DataType::Tuple(types) => {
                assert forall|j: int| 0 <= j < types@.len() implies decreases_to!(*self => types@[j]) by {
                    assert(decreases_to!(*self => types@[j]));
                }
                let mut list: Vec<Value> = Vec::new();
                let mut i: usize = 0;
                while i < types.len()
                    invariant
                        *self == DataType::Tuple(*types),
                        forall|j: int| 0 <= j < types@.len() ==> decreases_to!(*self => types@[j]),
                        dec_types(types@, buf@, pos) is Some,
                        i <= types@.len(),
                        list@.len() == i,
                        dec_types(types@.subrange(0, i as int), buf@, pos) == Some(
                            (models(list@), *ix as int),
                        ),
                    decreases types@.len() - i,
                {
                    proof {
                        lemma_dec_types_prefix(types@, buf@, pos, i + 1);
                        assert(types@.subrange(0, i + 1).subrange(0, i as int) =~= types@.subrange(
                            0,
                            i as int,
                        ));
                    }
                    proof {
                        assert(decreases_to!(*self => types@[i as int]));
                    }
                    let v = types[i].to_value0(buf, ix);
                    let ghost before = list@;
                    list.push(v);
                    i += 1;
                    proof {
                        assert(models(list@) =~= models(before).push(v.model()));
                    }
                }
                proof {
                    assert(types@.subrange(0, types@.len() as int) =~= types@);
                }
                let r = Value::List(list);
                proof {
                    assert(r.model()->List_0 =~= models(list@));
                }
                r
            },
            DataType::Struct(fields) => {
                assert forall|j: int| 0 <= j < fields@.len() implies decreases_to!(*self => fields@[j].1) by {
                    assert(decreases_to!(*self => fields@[j].1));
                }
                let mut list: Vec<Value> = Vec::new();
                let mut i: usize = 0;
                while i < fields.len()
                    invariant
                        *self == DataType::Struct(*fields),
                        forall|j: int|
                            0 <= j < fields@.len() ==> decreases_to!(*self => fields@[j].1),
                        dec_fields(fields@, buf@, pos) is Some,
                        i <= fields@.len(),
                        list@.len() == i,
                        dec_fields(fields@.subrange(0, i as int), buf@, pos) == Some(
                            (models(list@), *ix as int),
                        ),
                    decreases fields@.len() - i,
                {
                    proof {
                        lemma_dec_fields_prefix(fields@, buf@, pos, i + 1);
                        assert(fields@.subrange(0, i + 1).subrange(0, i as int) =~= fields@.subrange(
                            0,
                            i as int,
                        ));
                    }
                    proof {
                        assert(decreases_to!(*self => fields@[i as int].1));
                    }
                    let v = fields[i].1.to_value0(buf, ix);
                    let ghost before = list@;
                    list.push(v);
                    i += 1;
                    proof {
                        assert(models(list@) =~= models(before).push(v.model()));
                    }
                }
                proof {
                    assert(fields@.subrange(0, fields@.len() as int) =~= fields@);
                }
                let r = Value::List(list);
                proof {
                    assert(r.model()->List_0 =~= models(list@));
                }
                r
            },
            DataType::Enum(variants) => {
                let tag = self.read_usize(buf, ix);
                let val = variants[tag].1.to_value0(buf, ix);
                Value::Enum(tag, Box::new(val))
            },
            DataType::String(_) => {
                let len = self.read_usize(buf, ix) - 1;
                let s = vstd::slice::slice_to_vec(&buf[*ix..*ix + len]);
                *ix += len;
                Value::String(s)
            },
            DataType::Binary(_) => {
                let len = self.read_usize(buf, ix) - 1;
                let b = vstd::slice::slice_to_vec(&buf[*ix..*ix + len]);
                *ix += len;
                Value::Binary(b)
            },
            DataType::List(t, _) => {
                let len = self.read_usize(buf, ix) - 1;
                let ghost p0 = *ix as int;
                assert(decreases_to!(*self => **t));
                let mut list: Vec<Value> = Vec::new();
                let mut i: usize = 0;
                while i < len
                    invariant
                        *self == DataType::List(*t, self->List_1),
                        decreases_to!(*self => **t),
                        dec_list(**t, buf@, p0, len as nat) is Some,
                        i <= len,
                        list@.len() == i,
                        dec_list(**t, buf@, p0, i as nat) == Some((models(list@), *ix as int)),
                    decreases len - i,
                {
                    proof {
                        lemma_dec_list_prefix(**t, buf@, p0, len as nat, (i + 1) as nat);
                    }
                    proof {
                        assert(decreases_to!(*self => **t));
                    }
                    let v = t.to_value0(buf, ix);
                    let ghost before = list@;
                    list.push(v);
                    i += 1;
                    proof {
                        assert(models(list@) =~= models(before).push(v.model()));
                    }
                }
                let r = Value::List(list);
                proof {
                    assert(r.model()->List_0 =~= models(list@));
                }
                r
            },
            DataType::IList(_) => {
                let len = self.read_usize(buf, ix) - 1;
                let ghost p0 = *ix as int;
                let mut list: Vec<i64> = Vec::new();
                let mut i: usize = 0;
                while i < len
                    invariant
                        p0 + 8 * len <= buf@.len(),
                        i <= len,
                        list@.len() == i,
                        *ix == p0 + 8 * i,
                        forall|j: int| 0 <= j < i ==> list@[j] == int_at(buf@, p0 + 8 * j),
                    decreases len - i,
                {
                    let x = self.read_int(buf, ix);
                    list.push(x);
                    i += 1;
                }
                let r = Value::IList(list);
                proof {
                    assert(r.model()->IList_0 =~= Seq::new(len as nat, |j: int| int_at(buf@, p0 + 8 * j)));
                }
                r
            },
        }
    }

    /// Are the two types compatible (both Int, or both String)?
    pub fn similar(&self, other: &DataType) -> (r: bool)
        ensures
            r == similar_types(*self, *other),
    {
        match (self, other) {
            (DataType::Int, DataType::Int) => true,
            (DataType::String(_), DataType::String(_)) => true,
            _ => false,
        }
    }

    /// Index of the first column named `name` (DataType must be Struct).
    pub fn lookup_col(&self, name: &[u8]) -> (r: Option<usize>)
        requires
            self is Struct,
        ensures
            match r {
                Some(j) => first_field(self->Struct_0@, name@) == Some(j as nat),
                None => first_field(self->Struct_0@, name@) is None,
            },
    {
        match self {
            DataType::Struct(fields) => {
                let mut i: usize = 0;
                proof {
                    assert(fields@.subrange(0, fields@.len() as int) =~= fields@);
                }
                while i < fields.len()
                    invariant
                        i <= fields@.len(),
                        *self == DataType::Struct(*fields),
                        first_field(fields@, name@) == match first_field(
                            fields@.subrange(i as int, fields@.len() as int),
                            name@,
                        ) {
                            Some(j) => Some((j + i) as nat),
                            None => None::<nat>,
                        },
                    decreases fields@.len() - i,
                {
                    let ghost rest = fields@.subrange(i as int, fields@.len() as int);
                    if bytes_eq(fields[i].0.as_slice(), name) {
                        proof {
                            assert(rest[0] == fields@[i as int]);
                        }
                        return Some(i);
                    }
                    i += 1;
                    proof {
                        assert(rest.drop_first() =~= fields@.subrange(i as int, fields@.len() as int));
                    }
                }
                None
            },
            _ => vstd::pervasive::unreached(),
        }
    }

    /// Find column with specified name (DataType must be Struct): its index and type.
    pub fn name_to_col(&self, name: &[u8]) -> (r: Option<(usize, &DataType)>)
        requires
            self is Struct,
        ensures
            match r {
                Some((j, d)) => first_field(self->Struct_0@, name@) == Some(j as nat) && *d
                    == self->Struct_0@[j as int].1,
                None => first_field(self->Struct_0@, name@) is None,
            },
    {
        proof {
            lemma_first_field(self->Struct_0@, name@);
        }
        match self.lookup_col(name) {
            Some(i) => {
                proof {
                    assert(item_types(*self)[i as int] == self->Struct_0@[i as int].1);
                }
                Some((i, self.dt_struct(i)))
            },
            None => None,
        }
    }

    /// Get datatype of item specified by ix. DataType must be Struct or Tuple.
    pub fn dt_struct(&self, ix: usize) -> (r: &DataType)
        requires
            self is Tuple || self is Struct,
            ix < item_types(*self).len(),
        ensures
            *r == item_types(*self)[ix as int],
    {
        match self {
            DataType::Tuple(types) => &types[ix],
            DataType::Struct(fields) => &fields[ix].1,
            _ => vstd::pervasive::unreached(),
        }
    }

    /// Returns a default value for the DataType.
    pub fn default_value(&self) -> (r: Value)
        requires
            has_default(*self),
        ensures
            r.model() == default_val(*self),
        decreases self,
    {
        match self {
            DataType::Empty => Value::Empty,
            DataType::Bool => Value::Bool(false),
            DataType::Int => Value::Int(0),
            DataType::Float => Value::Float(F64(0)),
            DataType::Tuple(types) => {
                assert forall|j: int| 0 <= j < types@.len() implies decreases_to!(*self => types@[j]) by {
                    assert(decreases_to!(*self => types@[j]));
                }
                let mut list: Vec<Value> = Vec::new();
                let mut i: usize = 0;
                while i < types.len()
                    invariant
                        *self == DataType::Tuple(*types),
                        forall|j: int| 0 <= j < types@.len() ==> has_default(#[trigger] types@[j]),
                        forall|j: int| 0 <= j < types@.len() ==> decreases_to!(*self => types@[j]),
                        i <= types@.len(),
                        list@.len() == i,
                        forall|j: int| 0 <= j < i ==> list@[j].model() == default_val(types@[j]),
                    decreases types@.len() - i,
                {

                    let v = types[i].default_value();
                    list.push(v);
                    i += 1;
                }
                let r = Value::List(list);
                proof {
                    assert(r.model()->List_0 =~= default_val(*self)->List_0);
                }
                r
            },
            DataType::Struct(fields) => {
                assert forall|j: int| 0 <= j < fields@.len() implies decreases_to!(*self => fields@[j].1) by {
                    assert(decreases_to!(*self => fields@[j].1));
                }
                let mut list: Vec<Value> = Vec::new();
                let mut i: usize = 0;
                while i < fields.len()
                    invariant
                        *self == DataType::Struct(*fields),
                        forall|j: int| 0 <= j < fields@.len() ==> has_default(#[trigger] fields@[j].1),
                        forall|j: int|
                            0 <= j < fields@.len() ==> decreases_to!(*self => fields@[j].1),
                        i <= fields@.len(),
                        list@.len() == i,
                        forall|j: int| 0 <= j < i ==> list@[j].model() == default_val(fields@[j].1),
                    decreases fields@.len() - i,
                {

                    let v = fields[i].1.default_value();
                    list.push(v);
                    i += 1;
                }
                let r = Value::List(list);
                proof {
                    assert(r.model()->List_0 =~= default_val(*self)->List_0);
                }
                r
            },
            DataType::Enum(variants) => {
                let tag: usize = 0;
                let val = variants[tag].1.default_value();
                Value::Enum(tag, Box::new(val))
            },
            DataType::String(_) => {
                let r = Value::String(Vec::new());
                proof {
                    assert(r.model() =~= default_val(*self));
                }
                r
            },
            DataType::Binary(_) => {
                let r = Value::Binary(Vec::new());
                proof {
                    assert(r.model() =~= default_val(*self));
                }
                r
            },
            DataType::List(_, _) => {
                let r = Value::List(Vec::new());
                proof {
                    assert(r.model()->List_0 =~= Seq::<Val>::empty());
                }
                r
            },
            DataType::IList(_) => {
                let r = Value::IList(Vec::new());
                proof {
                    assert(r.model() =~= default_val(*self));
                }
                r
            },
        }
    }

    /// Get byte slice for a value with a length prefix. Returns None if value is indirectly encoded.
    pub fn bytes(buf: &[u8]) -> (r: Option<&[u8]>)
        requires
            usize_decodable(buf@, 0),
            dec_usize(buf@, 0).0 == 0 || dec_usize(buf@, 0).1 + dec_usize(buf@, 0).0 - 1
                <= buf@.len(),
        ensures
            ({
                let (n, p) = dec_usize(buf@, 0);
                &&& n == 0 ==> r is None
                &&& n != 0 ==> r is Some && r->0@ == buf@.subrange(p, p + n - 1)
            }),
    {
        let _len = buf.len();
        let (n, sz) = DataType::decode_usize(buf);
        if n == 0 {
            None
        } else {
            Some(&buf[sz..sz + (n - 1)])
        }
    }

    /// Skips over a value of this type at `*ix` (stored directly or indirectly).
    pub(crate) fn skip_value(&self, buf: &[u8], ix: &mut usize)
        requires
            skip(*self, buf@, *old(ix) as int) is Some,
            skip(*self, buf@, *old(ix) as int).unwrap() <= usize::MAX,
        ensures
            *final(ix) == skip(*self, buf@, *old(ix) as int).unwrap(),
        decreases self,
    {
        let ghost pos = *ix as int;
        match self {
            DataType::Empty => {},
            DataType::Bool => *ix += 1,
            DataType::Int => *ix += 8,
            DataType::Float => *ix += 8,
            DataType::String(_) | DataType::Binary(_) => {
                let len = self.read_usize(buf, ix);
                if len == 0 {
                    self.advance(buf, ix);
                } else {
                    let len = len - 1;
                    *ix += len;
                }
            },
            DataType::List(t, _) => {
                let len = self.read_usize(buf, ix);
                if len == 0 {
                    self.advance(buf, ix);
                } else {
                    let len = len - 1;
                    let ghost p0 = *ix as int;
                    let ghost fin = skip(*self, buf@, pos).unwrap();
                    assert(decreases_to!(*self => **t));
                    let mut i: usize = 0;
                    while i < len
                        invariant
                            *self == DataType::List(*t, self->List_1),
                            decreases_to!(*self => **t),
                            i <= len,
                            skip_list(**t, buf@, p0, len as nat) is Some,
                            skip_list(**t, buf@, p0, len as nat).unwrap() == fin,
                            fin <= usize::MAX,
                            skip_list(**t, buf@, p0, i as nat) == Some(*ix as int),
                        decreases len - i,
                    {
                        proof {
                            lemma_skip_list_mono(**t, buf@, p0, len as nat, (i + 1) as nat);
                        }
                        t.skip_value(buf, ix);
                        i += 1;
                    }
                }
            },
            DataType::IList(_) => {
                let len = self.read_usize(buf, ix);
                if len == 0 {
                    self.advance(buf, ix);
                } else {
                    let len = len - 1;
                    *ix += len * 8;
                }
            },
            _ => vstd::pervasive::unreached(),
        }
    }

    /// Skips over an indirect reference where its length decodes and the
    /// position after it fits a `usize`.
    fn try_advance(&self, buf: &[u8], ix: &mut usize) -> (r: bool)
        ensures
            r == (advance_pos(buf@, *old(ix) as int) is Some && advance_pos(
                buf@,
                *old(ix) as int,
            ).unwrap() <= usize::MAX),
            r ==> *final(ix) == advance_pos(buf@, *old(ix) as int).unwrap(),
    {
        match self.try_read_usize(buf, ix) {
            Some(_) => match ix.checked_add(8) {
                Some(p) => {
                    *ix = p;
                    true
                },
                None => false,
            },
            None => false,
        }
    }

    /// Skips over a value of this type at `*ix` where [skip] can, and the
    /// position after it fits a `usize`; `false` where not.
    pub(crate) fn try_skip(&self, buf: &[u8], ix: &mut usize) -> (r: bool)
        ensures
            r == (skip(*self, buf@, *old(ix) as int) is Some && skip(
                *self,
                buf@,
                *old(ix) as int,
            ).unwrap() <= usize::MAX),
            r ==> *final(ix) == skip(*self, buf@, *old(ix) as int).unwrap(),
        decreases self,
    {
        let ghost pos = *ix as int;
        match self {
            DataType::Empty => true,
            DataType::Bool => match ix.checked_add(1) {
                Some(p) => {
                    *ix = p;
                    true
                },
                None => false,
            },
            DataType::Int | DataType::Float => match ix.checked_add(8) {
                Some(p) => {
                    *ix = p;
                    true
                },
                None => false,
            },
            DataType::String(_) | DataType::Binary(_) => {
                let n = match self.try_read_usize(buf, ix) {
                    Some(n) => n,
                    None => {
                        return false;
                    },
                };
                if n == 0 {
                    self.try_advance(buf, ix)
                } else {
                    match ix.checked_add(n - 1) {
                        Some(p) => {
                            *ix = p;
                            true
                        },
                        None => false,
                    }
                }
            },
            DataType::IList(_) => {
                let n = match self.try_read_usize(buf, ix) {
                    Some(n) => n,
                    None => {
                        return false;
                    },
                };
                if n == 0 {
                    self.try_advance(buf, ix)
                } else {
                    match (n - 1).checked_mul(8) {
                        Some(step) => match ix.checked_add(step) {
                            Some(p) => {
                                *ix = p;
                                true
                            },
                            None => false,
                        },
                        None => false,
                    }
                }
            },
            DataType::List(t, _) => {
                let n = match self.try_read_usize(buf, ix) {
                    Some(n) => n,
                    None => {
                        return false;
                    },
                };
                if n == 0 {
                    self.try_advance(buf, ix)
                } else {
                    let len = n - 1;
                    let ghost p0 = *ix as int;
                    assert(decreases_to!(*self => **t));
                    let mut i: usize = 0;
                    while i < len
                        invariant
                            *self == DataType::List(*t, self->List_1),
                            decreases_to!(*self => **t),
                            pos == *old(ix) as int,
                            p0 == dec_usize(buf@, pos).1,
                            len == dec_usize(buf@, pos).0 - 1,
                            usize_decodable(buf@, pos),
                            i <= len,
                            skip_list(**t, buf@, p0, i as nat) == Some(*ix as int),
                        decreases len - i,
                    {
                        let ghost q = *ix as int;
                        proof {
                            if skip_list(**t, buf@, p0, len as nat) is Some {
                                lemma_skip_list_mono(**t, buf@, p0, len as nat, (i + 1) as nat);
                            }
                        }
                        if !t.try_skip(buf, ix) {
                            proof {
                                if skip_list(**t, buf@, p0, len as nat) is Some {
                                    assert(skip_list(**t, buf@, p0, (i + 1) as nat) == skip(**t, buf@, q));
                                }
                            }
                            return false;
                        }
                        i += 1;
                    }
                    true
                }
            },
            _ => false,
        }
    }

    /// Can every item of a row of this (tuple or struct) type be skipped, the
    /// row starting at `pos`?
    pub fn row_skippable(&self, buf: &[u8], pos: usize) -> (r: bool)
        requires
            self is Tuple || self is Struct,
        ensures
            r == (skip_types(item_types(*self), buf@, pos as int, item_types(*self).len()) is Some
                && skip_types(item_types(*self), buf@, pos as int, item_types(*self).len()).unwrap()
                <= usize::MAX),
    {
        let ghost ts = item_types(*self);
        let n = match self {
            DataType::Tuple(types) => types.len(),
            DataType::Struct(fields) => fields.len(),
            _ => vstd::pervasive::unreached(),
        };
        let mut ix = pos;
        let mut i: usize = 0;
        while i < n
            invariant
                ts == item_types(*self),
                self is Tuple || self is Struct,
                n == ts.len(),
                i <= n,
                skip_types(ts, buf@, pos as int, i as nat) == Some(ix as int),
            decreases n - i,
        {
            let ghost q = ix as int;
            proof {
                if skip_types(ts, buf@, pos as int, n as nat) is Some {
                    lemma_skip_types_mono(ts, buf@, pos as int, n as nat, (i + 1) as nat);
                }
            }
            let t = self.dt_struct(i);
            if !t.try_skip(buf, &mut ix) {
                proof {
                    assert(skip_types(ts, buf@, pos as int, (i + 1) as nat) == skip(ts[i as int], buf@, q));
                }
                return false;
            }
            i += 1;
        }
        true
    }

    /// Skips over an indirect reference (length and 8-byte id).
    pub(crate) fn advance(&self, buf: &[u8], ix: &mut usize)
        requires
            advance_pos(buf@, *old(ix) as int) is Some,
            advance_pos(buf@, *old(ix) as int).unwrap() <= usize::MAX,
        ensures
            *final(ix) == advance_pos(buf@, *old(ix) as int).unwrap(),
    {
        let _len = self.read_usize(buf, ix);
        *ix += 8;
    }

    /// Get LVec of LazyItem ( column offsets ): the offset of each item of the
    /// row at `*ix`, which moves past the row. DataType must be Tuple or Struct.
    pub fn lazy_row_items(&self, buf: &[u8], ix: &mut usize) -> (r: Vec<LazyItem>)
        requires
            self is Tuple || self is Struct,
            skip_types(item_types(*self), buf@, *old(ix) as int, item_types(*self).len()) is Some,
            skip_types(item_types(*self), buf@, *old(ix) as int, item_types(*self).len()).unwrap()
                <= usize::MAX,
        ensures
            r@.len() == item_types(*self).len(),
            forall|i: int|
                0 <= i < r@.len() ==> #[trigger] r@[i] == LazyItem::Offset(
                    skip_types(item_types(*self), buf@, *old(ix) as int, i as nat).unwrap() as usize,
                ),
            *final(ix) == skip_types(
                item_types(*self),
                buf@,
                *old(ix) as int,
                item_types(*self).len(),
            ).unwrap(),
    {
        let ghost ts = item_types(*self);
        let ghost pos = *ix as int;
        let n = match self {
            DataType::Tuple(types) => types.len(),
            DataType::Struct(fields) => fields.len(),
            _ => vstd::pervasive::unreached(),
        };
        let mut result: Vec<LazyItem> = Vec::new();
        let mut i: usize = 0;
        while i < n
            invariant
                ts == item_types(*self),
                self is Tuple || self is Struct,
                n == ts.len(),
                i <= n,
                skip_types(ts, buf@, pos, n as nat) is Some,
                skip_types(ts, buf@, pos, n as nat).unwrap() <= usize::MAX,
                skip_types(ts, buf@, pos, i as nat) == Some(*ix as int),
                result@.len() == i,
                forall|j: int|
                    0 <= j < i ==> #[trigger] result@[j] == LazyItem::Offset(
                        skip_types(ts, buf@, pos, j as nat).unwrap() as usize,
                    ),
            decreases n - i,
        {
            proof {
                lemma_skip_types_mono(ts, buf@, pos, n as nat, (i + 1) as nat);
            }
            result.push(LazyItem::Offset(*ix));
            let t = self.dt_struct(i);
            t.skip_value(buf, ix);
            i += 1;
        }
        result
    }

    /// Compute encoded size of value (strings, binaries and lists over their
    /// limit counted as stored indirectly), added to `*size`.
    pub fn compute_size(&self, val: &Value, size: &mut usize)
        requires
            encodable(*self, val.model()),
            *old(size) + size_bound(*self, val.model()) <= usize::MAX,
        ensures
            *final(size) == *old(size) + size_of(*self, val.model()),
        decreases self,
    {
        let ghost m = val.model();
        proof {
            lemma_size_bound(*self, m);
        }
        match self {
            DataType::Empty => {},
            DataType::Bool => *size += 1,
            DataType::Int => *size += 8,
            DataType::Float => *size += 8,
            DataType::Tuple(types) => {
                let list = val.list();
                let ghost items = m->List_0;
                assert forall|j: int| 0 <= j < types@.len() implies decreases_to!(*self => types@[j]) by {
                    assert(decreases_to!(*self => types@[j]));
                }
                let mut i: usize = 0;
                while i < types.len()
                    invariant
                        *self == DataType::Tuple(*types),
                        forall|j: int| 0 <= j < types@.len() ==> decreases_to!(*self => types@[j]),
                        m == val.model(),
                        items == m->List_0,
                        val is List,
                        *list == val->List_0,
                        encodable(*self, m),
                        i <= types@.len(),
                        *old(size) + bound_types(types@, items) <= usize::MAX,
                        *size == *old(size) + size_types(types@.subrange(0, i as int), items),
                    decreases types@.len() - i,
                {
                    proof {
                        assert(items[i as int] == list@[i as int].model());
                        assert(encodable_types(types@, items));
                        let pre = types@.subrange(0, i + 1);
                        assert(pre.subrange(0, i as int) =~= types@.subrange(0, i as int));
                        lemma_bound_types_prefix(types@, items, i + 1);
                        lemma_size_bound_types(types@.subrange(0, i as int), items);
                    }
                    types[i].compute_size(&list[i], size);
                    i += 1;
                }
                proof {
                    assert(types@.subrange(0, types@.len() as int) =~= types@);
                }
            },
            DataType::Struct(fields) => {
                let list = val.list();
                let ghost items = m->List_0;
                assert forall|j: int| 0 <= j < fields@.len() implies decreases_to!(*self => fields@[j].1) by {
                    assert(decreases_to!(*self => fields@[j].1));
                }
                let mut i: usize = 0;
                while i < fields.len()
                    invariant
                        *self == DataType::Struct(*fields),
                        forall|j: int|
                            0 <= j < fields@.len() ==> decreases_to!(*self => fields@[j].1),
                        m == val.model(),
                        items == m->List_0,
                        val is List,
                        *list == val->List_0,
                        encodable(*self, m),
                        i <= fields@.len(),
                        *old(size) + bound_fields(fields@, items) <= usize::MAX,
                        *size == *old(size) + size_fields(fields@.subrange(0, i as int), items),
                    decreases fields@.len() - i,
                {
                    proof {
                        assert(items[i as int] == list@[i as int].model());
                        assert(encodable_fields(fields@, items));
                        let pre = fields@.subrange(0, i + 1);
                        assert(pre.subrange(0, i as int) =~= fields@.subrange(0, i as int));
                        lemma_bound_fields_prefix(fields@, items, i + 1);
                        lemma_size_bound_fields(fields@.subrange(0, i as int), items);
                    }
                    fields[i].1.compute_size(&list[i], size);
                    i += 1;
                }
                proof {
                    assert(fields@.subrange(0, fields@.len() as int) =~= fields@);
                }
            },
            DataType::Enum(variants) => {
                let (tag, v) = val.en();
                *size += Self::len_usize(*tag);
                variants[*tag].1.compute_size(v, size);
            },
            DataType::String(lim) => {
                let s = val.string();
                if s.len() > *lim {
                    *size += Self::len_usize(s.len()) + 9;
                } else {
                    *size += Self::len_usize(1 + s.len()) + s.len();
                }
            },
            DataType::Binary(lim) => {
                let b = val.binary();
                if b.len() > *lim {
                    *size += Self::len_usize(b.len()) + 9;
                } else {
                    *size += Self::len_usize(1 + b.len()) + b.len();
                }
            },
            DataType::List(t, lim) => {
                let list = val.list();
                let ghost items = m->List_0;
                let mut sz = Self::len_usize(1 + list.len());
                let ghost sz0 = sz;
                assert(decreases_to!(*self => **t));
                let mut i: usize = 0;
                while i < list.len()
                    invariant
                        *self == DataType::List(*t, *lim),
                        decreases_to!(*self => **t),
                        m == val.model(),
                        items == m->List_0,
                        val is List,
                        *list == val->List_0,
                        encodable(*self, m),
                        i <= list@.len(),
                        sz0 + bound_list(**t, items) <= usize::MAX,
                        sz == sz0 + size_list(**t, items.subrange(0, i as int)),
                    decreases list@.len() - i,
                {
                    proof {
                        assert(items[i as int] == list@[i as int].model());
                        assert(encodable_list(**t, items));
                        let pre = items.subrange(0, i + 1);
                        assert(pre.subrange(0, i as int) =~= items.subrange(0, i as int));
                        lemma_bound_list_prefix(**t, items, i + 1);
                        lemma_size_bound_list(**t, items.subrange(0, i as int));
                    }
                    t.compute_size(&list[i], &mut sz);
                    i += 1;
                }
                proof {
                    assert(items.subrange(0, items.len() as int) =~= items);
                    lemma_varint_len_mono(sz as nat, sz as nat);
                    crate::varint::lemma_varint_len(1 + items.len());
                    lemma_varint_len_mono(items.len(), 1 + items.len());
                }
                // The encoder keeps the list apart when its items and count
                // exceed the limit.
                let szn = sz - Self::len_usize(1 + list.len()) + Self::len_usize(list.len());
                if szn > *lim {
                    *size += Self::len_usize(sz) + 9;
                } else {
                    *size += sz;
                }
            },
            DataType::IList(lim) => {
                let list = val.ilist();
                let sz = Self::len_usize(1 + list.len()) + list.len() * 8;
                proof {
                    lemma_varint_len_mono(sz as nat, sz as nat);
                    crate::varint::lemma_varint_len(1 + list@.len());
                }
                if sz > *lim {
                    *size += Self::len_usize(sz) + 9;
                } else {
                    *size += sz;
                }
            },
        }
    }
}

/// `a` and `b` describe the same type (field and variant names compared by
/// their bytes).
pub open spec fn same_type(a: DataType, b: DataType) -> bool
    decreases a, 0nat,
{
    match a {
        DataType::Tuple(ts) => b is Tuple && same_types(ts@, b->Tuple_0@),
        DataType::Struct(fs) => b is Struct && same_fields(fs@, b->Struct_0@),
        DataType::Enum(fs) => b is Enum && same_fields(fs@, b->Enum_0@),
        DataType::List(t, n) => b is List && same_type(*t, *b->List_0) && n == b->List_1,
        _ => a == b,
    }
}

/// The types are pairwise the same.
pub open spec fn same_types(ts: Seq<DataType>, us: Seq<DataType>) -> bool
    decreases ts, 0nat,
{
    ts.len() == us.len() && forall|i: int| 0 <= i < ts.len() ==> same_type(#[trigger] ts[i], us[i])
}

/// The fields are pairwise the same: names and types.
pub open spec fn same_fields(fs: Seq<(Vec<u8>, DataType)>, gs: Seq<(Vec<u8>, DataType)>) -> bool
    decreases fs, 0nat,
{
    fs.len() == gs.len() && forall|i: int|
        0 <= i < fs.len() ==> fs[i].0@ == gs[i].0@ && same_type(#[trigger] fs[i].1, gs[i].1)
}

/// Model of a [DataType]: sequences in place of vectors, names by their
/// bytes.
pub enum TypeM {
    Empty,
    Bool,
    Int,
    Float,
    Tuple(Seq<TypeM>),
    Struct(Seq<(Seq<u8>, TypeM)>),
    Enum(Seq<(Seq<u8>, TypeM)>),
    String(usize),
    Binary(usize),
    List(Box<TypeM>, usize),
    IList(usize),
}

impl DataType {
    /// The model of this type.
    pub open spec fn model(self) -> TypeM
        decreases self,
    {
        match self {
            DataType::Empty => TypeM::Empty,
            DataType::Bool => TypeM::Bool,
            DataType::Int => TypeM::Int,
            DataType::Float => TypeM::Float,
            DataType::Tuple(ts) => TypeM::Tuple(
                Seq::new(
                    ts@.len(),
                    |i: int|
                        if 0 <= i < ts@.len() {
                            ts@[i].model()
                        } else {
                            TypeM::Empty
                        },
                ),
            ),
            DataType::Struct(fs) => TypeM::Struct(
                Seq::new(
                    fs@.len(),
                    |i: int|
                        if 0 <= i < fs@.len() {
                            (fs@[i].0@, fs@[i].1.model())
                        } else {
                            (Seq::empty(), TypeM::Empty)
                        },
                ),
            ),
            DataType::Enum(fs) => TypeM::Enum(
                Seq::new(
                    fs@.len(),
                    |i: int|
                        if 0 <= i < fs@.len() {
                            (fs@[i].0@, fs@[i].1.model())
                        } else {
                            (Seq::empty(), TypeM::Empty)
                        },
                ),
            ),
            DataType::String(n) => TypeM::String(n),
            DataType::Binary(n) => TypeM::Binary(n),
            DataType::List(t, n) => TypeM::List(Box::new((*t).model()), n),
            DataType::IList(n) => TypeM::IList(n),
        }
    }
}

/// Types that are the same have the same model.
pub proof fn lemma_same_type_model(a: DataType, b: DataType)
    requires
        same_type(a, b),
    ensures
        a.model() == b.model(),
    decreases a,
{
    match a {
        DataType::Tuple(ts) => {
            let us = b->Tuple_0;
            assert(same_types(ts@, us@));
            assert forall|i: int| 0 <= i < ts@.len() implies #[trigger] a.model()->Tuple_0[i]
                == b.model()->Tuple_0[i] by {
                assert(same_type(ts@[i], us@[i]));
                assert(decreases_to!(a => ts));
                assert(decreases_to!(ts => ts@));
                assert(decreases_to!(ts@ => ts@[i]));
                lemma_same_type_model(ts@[i], us@[i]);
            }
            assert(a.model()->Tuple_0 =~= b.model()->Tuple_0);
        },
        DataType::Struct(fs) => {
            let gs = b->Struct_0;
            assert(same_fields(fs@, gs@));
            assert forall|i: int| 0 <= i < fs@.len() implies #[trigger] a.model()->Struct_0[i]
                == b.model()->Struct_0[i] by {
                assert(same_type(fs@[i].1, gs@[i].1) && fs@[i].0@ == gs@[i].0@);
                assert(decreases_to!(a => fs));
                assert(decreases_to!(fs => fs@));
                assert(decreases_to!(fs@ => fs@[i]));
                assert(decreases_to!(fs@[i] => fs@[i].1));
                lemma_same_type_model(fs@[i].1, gs@[i].1);
            }
            assert(a.model()->Struct_0 =~= b.model()->Struct_0);
        },
        DataType::Enum(fs) => {
            let gs = b->Enum_0;
            assert(same_fields(fs@, gs@));
            assert forall|i: int| 0 <= i < fs@.len() implies #[trigger] a.model()->Enum_0[i]
                == b.model()->Enum_0[i] by {
                assert(same_type(fs@[i].1, gs@[i].1) && fs@[i].0@ == gs@[i].0@);
                assert(decreases_to!(a => fs));
                assert(decreases_to!(fs => fs@));
                assert(decreases_to!(fs@ => fs@[i]));
                assert(decreases_to!(fs@[i] => fs@[i].1));
                lemma_same_type_model(fs@[i].1, gs@[i].1);
            }
            assert(a.model()->Enum_0 =~= b.model()->Enum_0);
        },
        DataType::List(t, n) => {
            lemma_same_type_model(*t, *b->List_0);
        },
        _ => {},
    }
}

impl DataType {
    /// A copy of this type.
    pub fn copy(&self) -> (r: DataType)
        ensures
            same_type(*self, r),
        decreases self,
    {
        match self {
            DataType::Empty => DataType::Empty,
            DataType::Bool => DataType::Bool,
            DataType::Int => DataType::Int,
            DataType::Float => DataType::Float,
            DataType::Tuple(types) => {
                assert forall|j: int| 0 <= j < types@.len() implies decreases_to!(*self => types@[j]) by {
                    assert(decreases_to!(*self => types@[j]));
                }
                let mut r: Vec<DataType> = Vec::new();
                let mut i: usize = 0;
                while i < types.len()
                    invariant
                        forall|j: int| 0 <= j < types@.len() ==> decreases_to!(*self => types@[j]),
                        i <= types@.len(),
                        r@.len() == i,
                        forall|j: int| 0 <= j < i ==> same_type(#[trigger] types@[j], r@[j]),
                    decreases types@.len() - i,
                {
                    let t = types[i].copy();
                    r.push(t);
                    i += 1;
                }
                let res = DataType::Tuple(r);
                assert(same_types(types@, r@));
                res
            },
            DataType::Struct(fields) => {
                assert forall|j: int| 0 <= j < fields@.len() implies decreases_to!(*self => fields@[j].1) by {
                    assert(decreases_to!(*self => fields@[j].1));
                }
                let r = Self::copy_fields(fields, Ghost(*self));
                let res = DataType::Struct(r);
                assert(same_type(*self, res));
                res
            },
            DataType::Enum(fields) => {
                assert forall|j: int| 0 <= j < fields@.len() implies decreases_to!(*self => fields@[j].1) by {
                    assert(decreases_to!(*self => fields@[j].1));
                }
                let r = Self::copy_fields(fields, Ghost(*self));
                DataType::Enum(r)
            },
            DataType::String(n) => DataType::String(*n),
            DataType::Binary(n) => DataType::Binary(*n),
            DataType::List(t, n) => DataType::List(Box::new((**t).copy()), *n),
            DataType::IList(n) => DataType::IList(*n),
        }
    }

    /// Copies of the fields of type `outer`.
    fn copy_fields(fields: &Vec<(Vec<u8>, DataType)>, outer: Ghost<DataType>) -> (r: Vec<
        (Vec<u8>, DataType),
    >)
        requires
            forall|j: int| 0 <= j < fields@.len() ==> decreases_to!(outer@ => fields@[j].1),
        ensures
            same_fields(fields@, r@),
        decreases outer@, 1nat,
    {
        let mut r: Vec<(Vec<u8>, DataType)> = Vec::new();
        let mut i: usize = 0;
        while i < fields.len()
            invariant
                forall|j: int| 0 <= j < fields@.len() ==> decreases_to!(outer@ => fields@[j].1),
                i <= fields@.len(),
                r@.len() == i,
                forall|j: int|
                    0 <= j < i ==> #[trigger] r@[j].0@ == fields@[j].0@ && same_type(
                        fields@[j].1,
                        r@[j].1,
                    ),
            decreases fields@.len() - i,
        {
            let name = vstd::slice::slice_to_vec(fields[i].0.as_slice());
            let t = fields[i].1.copy();
            r.push((name, t));
            i += 1;
        }
        r
    }
}

} // verus!
