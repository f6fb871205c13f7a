//! Encoding and decoding of values whose large parts are kept in a [Store]:
//! a string, binary or list longer than the limit of its type is stored by
//! [Store::store], and the encoding holds a reference to it in its place.

use crate::bytes::le_bytes;
use crate::datatype::{
    bound_fields, bound_list, bound_types, dec0, dec_fields, dec_list, dec_types, enc0, encodable,
    encodable_fields, encodable_list, encodable_types, int_at, lemma_bound_fields_prefix,
    lemma_bound_list_prefix, lemma_bound_types_prefix, lemma_dec_fields_prefix,
    lemma_dec_list_prefix, lemma_dec_types_prefix, lemma_size_bound, lemma_size_bound_list,
    lemma_varint_len_mono, models, size_bound, size_list, DataType,
};
use crate::datatype::{fits, item_types, LazyItem, lemma_roundtrip0, lemma_skip_types_mono, skip_types};
use crate::datatype::{lemma_skip_is_decode_end, skip, skip_list, skippable};
use crate::pageset::PageSet;
use crate::store::{chunk_map, chunks_cached, chunks_from, id_after, SData, Store};
use crate::varint::{dec_usize, usize_decodable};
use crate::vbuckmap::VBuckMap;
use crate::value::{Val, Value};
use crate::varint::varint;
use vstd::prelude::*;

verus! {

/// The reference written in place of `len` bytes stored from chunk id `id`:
/// a length prefix 0, the length, and the 8-byte id.
pub open spec fn reference(len: nat, id: nat) -> Seq<u8> {
    varint(0) + varint(len) + le_bytes(id, 8)
}

/// The reference read at `pos` (after its leading 0): the length and id of
/// the bytes stored apart, and the position after it; `None` where the
/// length does not decode or the id does not fit.
pub open spec fn ref_at(buf: Seq<u8>, pos: int) -> Option<(usize, u64, int)> {
    if crate::varint::usize_decodable(buf, pos) && crate::varint::dec_usize(buf, pos).1 + 8
        <= buf.len() {
        let p = crate::varint::dec_usize(buf, pos).1;
        Some((crate::varint::dec_usize(buf, pos).0, crate::bytes::le_value(buf.subrange(p, p + 8)) as u64, p + 8))
    } else {
        None
    }
}

/// The cache of pages of a [PageSet].
pub type Cache = Map<u64, (Seq<u8>, bool)>;

/// The bytes that the reference at `pos` refers to, read from the chunks of
/// map `m` in cache `c`, and the position after the reference; `None` where
/// there is no reference or one of the chunks read is not cached.
pub open spec fn fetched_at(buf: Seq<u8>, pos: int, c: Cache, m: VBuckMap) -> Option<(Seq<u8>, int)> {
    match ref_at(buf, pos) {
        Some((n, id, q)) => if chunks_cached(c, m, id, n as nat) {
            Some((chunks_from(c, m, id, n as nat), q))
        } else {
            None
        },
        None => None,
    }
}

/// The bytes of a string or binary value at `pos`: kept directly (a length
/// one more than their number, then the bytes) or kept apart (a length 0,
/// then a reference, see [fetched_at]); and the position after them.
pub open spec fn stored_bytes(buf: Seq<u8>, pos: int, c: Cache, m: VBuckMap) -> Option<(Seq<u8>, int)> {
    if usize_decodable(buf, pos) {
        let l = dec_usize(buf, pos).0;
        let p = dec_usize(buf, pos).1;
        if l == 0 {
            fetched_at(buf, p, c, m)
        } else if p + (l - 1) <= buf.len() {
            Some((buf.subrange(p, p + l - 1), p + l - 1))
        } else {
            None
        }
    } else {
        None
    }
}

/// Decodes a value of type `dt` at `pos`, reading the parts kept apart from
/// the chunks of map `m` in cache `c`: the value and the position after it;
/// `None` where decoding fails or a chunk read is not cached. (Strings are
/// taken as the bytes they are.)
pub open spec fn dec_ind(dt: DataType, buf: Seq<u8>, pos: int, c: Cache, m: VBuckMap) -> Option<(Val, int)>
    decreases dt, 0nat,
{
    if pos < 0 || pos > buf.len() {
        None
    } else {
        match dt {
            DataType::Tuple(ts) => match dec_ind_types(ts@, buf, pos, c, m) {
                Some((items, p)) => Some((Val::List(items), p)),
                None => None,
            },
            DataType::Struct(fs) => match dec_ind_fields(fs@, buf, pos, c, m) {
                Some((items, p)) => Some((Val::List(items), p)),
                None => None,
            },
            DataType::Enum(vs) => if usize_decodable(buf, pos) && dec_usize(buf, pos).0 < vs@.len() {
                let tag = dec_usize(buf, pos).0;
                let p = dec_usize(buf, pos).1;
                match dec_ind(vs@[tag as int].1, buf, p, c, m) {
                    Some((v, q)) => Some((Val::Enum(tag as nat, Box::new(v)), q)),
                    None => None,
                }
            } else {
                None
            },
            DataType::String(_) => match stored_bytes(buf, pos, c, m) {
                Some((b, q)) => Some((Val::Str(b), q)),
                None => None,
            },
            DataType::Binary(_) => match stored_bytes(buf, pos, c, m) {
                Some((b, q)) => Some((Val::Bin(b), q)),
                None => None,
            },
            DataType::List(t, _) => if usize_decodable(buf, pos) {
                let l = dec_usize(buf, pos).0;
                let p = dec_usize(buf, pos).1;
                if l == 0 {
                    match fetched_at(buf, p, c, m) {
                        Some((b, q)) => match crate::datatype::dec_len(b, 0) {
                            Some((n, p2)) => match dec_list_ind(*t, b, p2, n, c, m) {
                                Some((items, _)) => Some((Val::List(items), q)),
                                None => None,
                            },
                            None => None,
                        },
                        None => None,
                    }
                } else {
                    match dec_list_ind(*t, buf, p, (l - 1) as nat, c, m) {
                        Some((items, q)) => Some((Val::List(items), q)),
                        None => None,
                    }
                }
            } else {
                None
            },
            DataType::IList(_) => if usize_decodable(buf, pos) {
                let l = dec_usize(buf, pos).0;
                let p = dec_usize(buf, pos).1;
                if l == 0 {
                    match fetched_at(buf, p, c, m) {
                        Some((b, q)) => match crate::datatype::dec_len(b, 0) {
                            Some((n, p2)) => if p2 + 8 * n <= b.len() {
                                Some((Val::IList(Seq::new(n, |i: int| int_at(b, p2 + 8 * i))), q))
                            } else {
                                None
                            },
                            None => None,
                        },
                        None => None,
                    }
                } else {
                    dec0(dt, buf, pos)
                }
            } else {
                None
            },
            _ => dec0(dt, buf, pos),
        }
    }
}

/// Skipping a value lands where reading it ends, whether its parts are kept
/// directly or apart: wherever a value of a type that can be skipped is
/// read at `pos` (see [dec_ind]), ending at `q`, skipping it gives `q`.
pub proof fn lemma_skip_is_read_end(dt: DataType, buf: Seq<u8>, pos: int, c: Cache, m: VBuckMap)
    requires
        skippable(dt),
        dec_ind(dt, buf, pos, c, m) is Some,
    ensures
        skip(dt, buf, pos) == Some(dec_ind(dt, buf, pos, c, m).unwrap().1),
    decreases dt, 0nat,
{
    match dt {
        DataType::String(_) | DataType::Binary(_) | DataType::IList(_) => {
            if dec_usize(buf, pos).0 != 0 && dt is IList {
                lemma_skip_is_decode_end(dt, buf, pos);
            }
        },
        DataType::List(t, _) => {
            let l = dec_usize(buf, pos).0;
            let p = dec_usize(buf, pos).1;
            if l != 0 {
                lemma_skip_list_is_read_end(*t, buf, p, (l - 1) as nat, c, m);
            }
        },
        _ => {
            lemma_skip_is_decode_end(dt, buf, pos);
        },
    }
}

/// Skipping `n` list items lands where reading them ends.
pub proof fn lemma_skip_list_is_read_end(t: DataType, buf: Seq<u8>, pos: int, n: nat, c: Cache, m: VBuckMap)
    requires
        skippable(t),
        dec_list_ind(t, buf, pos, n, c, m) is Some,
    ensures
        skip_list(t, buf, pos, n) == Some(dec_list_ind(t, buf, pos, n, c, m).unwrap().1),
    decreases t, n,
{
    if n > 0 {
        lemma_skip_list_is_read_end(t, buf, pos, (n - 1) as nat, c, m);
        let p = dec_list_ind(t, buf, pos, (n - 1) as nat, c, m).unwrap().1;
        lemma_skip_is_read_end(t, buf, p, c, m);
    }
}

/// [dec_ind] of one value of each type of `ts`, in order, from `pos`.
pub open spec fn dec_ind_types(ts: Seq<DataType>, buf: Seq<u8>, pos: int, c: Cache, m: VBuckMap) -> Option<
    (Seq<Val>, int),
>
    decreases ts, 0nat,
{
    if ts.len() == 0 {
        Some((Seq::empty(), pos))
    } else {
        match dec_ind_types(ts.subrange(0, ts.len() - 1), buf, pos, c, m) {
            Some((items, p)) => match dec_ind(ts[ts.len() - 1], buf, p, c, m) {
                Some((v, q)) => Some((items.push(v), q)),
                None => None,
            },
            None => None,
        }
    }
}

/// [dec_ind] of one value of each field type of `fs`, in order, from `pos`.
pub open spec fn dec_ind_fields(
    fs: Seq<(Vec<u8>, DataType)>,
    buf: Seq<u8>,
    pos: int,
    c: Cache,
    m: VBuckMap,
) -> Option<(Seq<Val>, int)>
    decreases fs, 0nat,
{
    if fs.len() == 0 {
        Some((Seq::empty(), pos))
    } else {
        match dec_ind_fields(fs.subrange(0, fs.len() - 1), buf, pos, c, m) {
            Some((items, p)) => match dec_ind(fs[fs.len() - 1].1, buf, p, c, m) {
                Some((v, q)) => Some((items.push(v), q)),
                None => None,
            },
            None => None,
        }
    }
}

/// [dec_ind] of `n` values of type `t`, in order, from `pos`.
pub open spec fn dec_list_ind(t: DataType, buf: Seq<u8>, pos: int, n: nat, c: Cache, m: VBuckMap) -> Option<
    (Seq<Val>, int),
>
    decreases t, n,
{
    if n == 0 {
        Some((Seq::empty(), pos))
    } else {
        match dec_list_ind(t, buf, pos, (n - 1) as nat, c, m) {
            Some((items, p)) => match dec_ind(t, buf, p, c, m) {
                Some((v, q)) => Some((items.push(v), q)),
                None => None,
            },
            None => None,
        }
    }
}

/// Decoding a prefix of the types succeeds when decoding all of them does.
pub proof fn lemma_dec_ind_types_prefix(ts: Seq<DataType>, buf: Seq<u8>, pos: int, c: Cache, m: VBuckMap, k: int)
    requires
        dec_ind_types(ts, buf, pos, c, m) is Some,
        0 <= k <= ts.len(),
    ensures
        dec_ind_types(ts.subrange(0, k), buf, pos, c, m) is Some,
    decreases ts.len(),
{
    if k == ts.len() {
        assert(ts.subrange(0, k) =~= ts);
    } else {
        let ts1 = ts.subrange(0, ts.len() - 1);
        lemma_dec_ind_types_prefix(ts1, buf, pos, c, m, k);
        assert(ts1.subrange(0, k) =~= ts.subrange(0, k));
    }
}

/// Decoding a prefix of the fields succeeds when decoding all of them does.
pub proof fn lemma_dec_ind_fields_prefix(
    fs: Seq<(Vec<u8>, DataType)>,
    buf: Seq<u8>,
    pos: int,
    c: Cache,
    m: VBuckMap,
    k: int,
)
    requires
        dec_ind_fields(fs, buf, pos, c, m) is Some,
        0 <= k <= fs.len(),
    ensures
        dec_ind_fields(fs.subrange(0, k), buf, pos, c, m) is Some,
    decreases fs.len(),
{
    if k == fs.len() {
        assert(fs.subrange(0, k) =~= fs);
    } else {
        let fs1 = fs.subrange(0, fs.len() - 1);
        lemma_dec_ind_fields_prefix(fs1, buf, pos, c, m, k);
        assert(fs1.subrange(0, k) =~= fs.subrange(0, k));
    }
}

/// Decoding the first `k` of `n` list items succeeds when decoding all does.
pub proof fn lemma_dec_list_ind_prefix(t: DataType, buf: Seq<u8>, pos: int, n: nat, c: Cache, m: VBuckMap, k: nat)
    requires
        dec_list_ind(t, buf, pos, n, c, m) is Some,
        k <= n,
    ensures
        dec_list_ind(t, buf, pos, k, c, m) is Some,
    decreases n,
{
    if k < n {
        lemma_dec_list_ind_prefix(t, buf, pos, (n - 1) as nat, c, m, k);
    }
}

/// The encoding of value `v` of type `dt` when the next chunk id of the store
/// is `id`: the bytes written, the next chunk id afterwards, and the number
/// of values stored indirectly. Parts are encoded in order; a list stores
/// its items (and their own indirect parts) before the list itself.
pub open spec fn enc(dt: DataType, v: Val, id: nat) -> (Seq<u8>, nat, nat)
    decreases dt, 0nat,
{
    match dt {
        DataType::Tuple(ts) => enc_types_i(ts@, v->List_0, id),
        DataType::Struct(fs) => enc_fields_i(fs@, v->List_0, id),
        DataType::Enum(vs) => if v->Enum_0 < vs@.len() {
            let r = enc(vs@[v->Enum_0 as int].1, *v->Enum_1, id);
            (varint(v->Enum_0) + r.0, r.1, r.2)
        } else {
            (varint(v->Enum_0), id, 0)
        },
        DataType::String(lim) => if v->Str_0.len() > lim {
            (reference(v->Str_0.len(), id), id_after(id, v->Str_0.len()), 1)
        } else {
            (enc0(dt, v), id, 0)
        },
        DataType::Binary(lim) => if v->Bin_0.len() > lim {
            (reference(v->Bin_0.len(), id), id_after(id, v->Bin_0.len()), 1)
        } else {
            (enc0(dt, v), id, 0)
        },
        DataType::List(t, lim) => {
            let items = v->List_0;
            let r = enc_list_i(*t, items, id);
            let body = varint(1 + items.len()) + r.0;
            if varint(items.len()).len() + size_list(*t, items) > lim {
                (reference(body.len(), r.1), id_after(r.1, body.len()), r.2 + 1)
            } else {
                (body, r.1, r.2)
            }
        },
        DataType::IList(lim) => {
            let n = v->IList_0.len();
            if varint(1 + n).len() + n * 8 > lim {
                (reference(enc0(dt, v).len(), id), id_after(id, enc0(dt, v).len()), 1)
            } else {
                (enc0(dt, v), id, 0)
            }
        },
        _ => (enc0(dt, v), id, 0),
    }
}

/// Encodings of `items[i]` by `ts[i]`, in order, from chunk id `id`.
pub open spec fn enc_types_i(ts: Seq<DataType>, items: Seq<Val>, id: nat) -> (Seq<u8>, nat, nat)
    decreases ts, 0nat,
{
    if ts.len() == 0 {
        (Seq::empty(), id, 0)
    } else {
        let a = enc_types_i(ts.subrange(0, ts.len() - 1), items, id);
        let b = enc(ts[ts.len() - 1], items[ts.len() - 1], a.1);
        (a.0 + b.0, b.1, a.2 + b.2)
    }
}

/// Encodings of `items[i]` by the type of field `fs[i]`, in order, from
/// chunk id `id`.
pub open spec fn enc_fields_i(fs: Seq<(Vec<u8>, DataType)>, items: Seq<Val>, id: nat) -> (
    Seq<u8>,
    nat,
    nat,
)
    decreases fs, 0nat,
{
    if fs.len() == 0 {
        (Seq::empty(), id, 0)
    } else {
        let a = enc_fields_i(fs.subrange(0, fs.len() - 1), items, id);
        let b = enc(fs[fs.len() - 1].1, items[fs.len() - 1], a.1);
        (a.0 + b.0, b.1, a.2 + b.2)
    }
}

/// Encodings of all items by type `t`, in order, from chunk id `id`.
pub open spec fn enc_list_i(t: DataType, items: Seq<Val>, id: nat) -> (Seq<u8>, nat, nat)
    decreases t, items.len(),
{
    if items.len() == 0 {
        (Seq::empty(), id, 0)
    } else {
        let a = enc_list_i(t, items.subrange(0, items.len() - 1), id);
        let b = enc(t, items[items.len() - 1], a.1);
        (a.0 + b.0, b.1, a.2 + b.2)
    }
}

/// A prefix of the types stores no more values than all of them.
proof fn lemma_count_types_prefix(ts: Seq<DataType>, items: Seq<Val>, id: nat, k: int)
    requires
        0 <= k <= ts.len(),
    ensures
        enc_types_i(ts.subrange(0, k), items, id).2 <= enc_types_i(ts, items, id).2,
    decreases ts.len(),
{
    if k == ts.len() {
        assert(ts.subrange(0, k) =~= ts);
    } else {
        let pre = ts.subrange(0, ts.len() - 1);
        lemma_count_types_prefix(pre, items, id, k);
        assert(pre.subrange(0, k) =~= ts.subrange(0, k));
    }
}

/// A prefix of the fields stores no more values than all of them.
proof fn lemma_count_fields_prefix(fs: Seq<(Vec<u8>, DataType)>, items: Seq<Val>, id: nat, k: int)
    requires
        0 <= k <= fs.len(),
    ensures
        enc_fields_i(fs.subrange(0, k), items, id).2 <= enc_fields_i(fs, items, id).2,
    decreases fs.len(),
{
    if k == fs.len() {
        assert(fs.subrange(0, k) =~= fs);
    } else {
        let pre = fs.subrange(0, fs.len() - 1);
        lemma_count_fields_prefix(pre, items, id, k);
        assert(pre.subrange(0, k) =~= fs.subrange(0, k));
    }
}

/// A prefix of the items stores no more values than all of them.
proof fn lemma_count_list_prefix(t: DataType, items: Seq<Val>, id: nat, k: int)
    requires
        0 <= k <= items.len(),
    ensures
        enc_list_i(t, items.subrange(0, k), id).2 <= enc_list_i(t, items, id).2,
    decreases items.len(),
{
    if k == items.len() {
        assert(items.subrange(0, k) =~= items);
    } else {
        let pre = items.subrange(0, items.len() - 1);
        lemma_count_list_prefix(t, pre, id, k);
        assert(pre.subrange(0, k) =~= items.subrange(0, k));
    }
}

/// An encoding that stores nothing indirectly is the direct encoding, and
/// leaves the next chunk id as it was.
pub proof fn lemma_enc_direct(dt: DataType, v: Val, id: nat)
    requires
        enc(dt, v, id).2 == 0,
    ensures
        enc(dt, v, id).0 == enc0(dt, v),
        enc(dt, v, id).1 == id,
    decreases dt, 0nat,
{
    match dt {
        DataType::Tuple(ts) => lemma_enc_direct_types(ts@, v->List_0, id),
        DataType::Struct(fs) => lemma_enc_direct_fields(fs@, v->List_0, id),
        DataType::Enum(vs) => {
            if v->Enum_0 < vs@.len() {
                lemma_enc_direct(vs@[v->Enum_0 as int].1, *v->Enum_1, id);
            }
        },
        DataType::List(t, _) => lemma_enc_direct_list(*t, v->List_0, id),
        _ => {},
    }
}

/// [lemma_enc_direct] for the items of a tuple.
pub proof fn lemma_enc_direct_types(ts: Seq<DataType>, items: Seq<Val>, id: nat)
    requires
        enc_types_i(ts, items, id).2 == 0,
    ensures
        enc_types_i(ts, items, id).0 == crate::datatype::enc_types(ts, items),
        enc_types_i(ts, items, id).1 == id,
    decreases ts, 0nat,
{
    if ts.len() > 0 {
        let pre = ts.subrange(0, ts.len() - 1);
        lemma_enc_direct_types(pre, items, id);
        lemma_enc_direct(ts[ts.len() - 1], items[ts.len() - 1], id);
    }
}

/// [lemma_enc_direct] for the fields of a struct.
pub proof fn lemma_enc_direct_fields(fs: Seq<(Vec<u8>, DataType)>, items: Seq<Val>, id: nat)
    requires
        enc_fields_i(fs, items, id).2 == 0,
    ensures
        enc_fields_i(fs, items, id).0 == crate::datatype::enc_fields(fs, items),
        enc_fields_i(fs, items, id).1 == id,
    decreases fs, 0nat,
{
    if fs.len() > 0 {
        let pre = fs.subrange(0, fs.len() - 1);
        lemma_enc_direct_fields(pre, items, id);
        lemma_enc_direct(fs[fs.len() - 1].1, items[fs.len() - 1], id);
    }
}

/// [lemma_enc_direct] for the items of a list.
pub proof fn lemma_enc_direct_list(t: DataType, items: Seq<Val>, id: nat)
    requires
        enc_list_i(t, items, id).2 == 0,
    ensures
        enc_list_i(t, items, id).0 == crate::datatype::enc_list(t, items),
        enc_list_i(t, items, id).1 == id,
    decreases t, items.len(),
{
    if items.len() > 0 {
        let pre = items.subrange(0, items.len() - 1);
        lemma_enc_direct_list(t, pre, id);
        lemma_enc_direct(t, items[items.len() - 1], id);
    }
}

/// A value of its type that [DataType::value_to_bytes] stores nothing of
/// indirectly decodes back to itself: [DataType::bytes_to_value] of its
/// bytes is the value.
pub proof fn lemma_roundtrip(dt: DataType, v: Val, id: nat)
    requires
        fits(dt, v),
        enc(dt, v, id).2 == 0,
    ensures
        dec0(dt, enc(dt, v, id).0, 0) == Some((v, enc(dt, v, id).0.len() as int)),
{
    lemma_enc_direct(dt, v, id);
    let b = enc(dt, v, id).0;
    assert(b.subrange(0, b.len() as int) =~= b);
    lemma_roundtrip0(dt, v, b, 0);
}

/// The size that [DataType::compute_size] computes is the length of the
/// encoding that [DataType::value_to_bytes] writes.
pub proof fn lemma_size_is_length(dt: DataType, v: Val, id: nat)
    requires
        encodable(dt, v),
    ensures
        enc(dt, v, id).0.len() == crate::datatype::size_of(dt, v),
    decreases dt, 0nat,
{
    match dt {
        DataType::Tuple(ts) => {
            assert(encodable_types(ts@, v->List_0));
            lemma_size_length_types(ts@, v->List_0, id);
        },
        DataType::Struct(fs) => {
            assert(encodable_fields(fs@, v->List_0));
            lemma_size_length_fields(fs@, v->List_0, id);
        },
        DataType::Enum(vs) => {
            if v->Enum_0 < vs@.len() {
                lemma_size_is_length(vs@[v->Enum_0 as int].1, *v->Enum_1, id);
            }
        },
        DataType::List(t, lim) => {
            assert(encodable_list(*t, v->List_0));
            lemma_size_length_list(*t, v->List_0, id);
            crate::bytes::lemma_le_bytes_len(enc_list_i(*t, v->List_0, id).1, 8);
            lemma_varint_len_mono(v->List_0.len(), 1 + v->List_0.len());
        },
        DataType::IList(lim) => {
            crate::datatype::lemma_enc_ints(v->IList_0);
            crate::bytes::lemma_le_bytes_len(id, 8);
        },
        DataType::String(_) | DataType::Binary(_) => {
            crate::bytes::lemma_le_bytes_len(id, 8);
        },
        DataType::Int => {
            crate::bytes::lemma_le_bytes_len(crate::datatype::u64_of(v->Int_0), 8);
        },
        DataType::Float => {
            crate::bytes::lemma_le_bytes_len(v->Float_0 as nat, 8);
        },
        _ => {},
    }
}

/// [lemma_size_is_length] for the items of a tuple.
pub proof fn lemma_size_length_types(ts: Seq<DataType>, items: Seq<Val>, id: nat)
    requires
        forall|i: int| 0 <= i < ts.len() ==> encodable(#[trigger] ts[i], items[i]),
    ensures
        enc_types_i(ts, items, id).0.len() == crate::datatype::size_types(ts, items),
    decreases ts, 0nat,
{
    if ts.len() > 0 {
        let pre = ts.subrange(0, ts.len() - 1);
        lemma_size_length_types(pre, items, id);
        let a = enc_types_i(pre, items, id);
        lemma_size_is_length(ts[ts.len() - 1], items[ts.len() - 1], a.1);
    }
}

/// [lemma_size_is_length] for the fields of a struct.
pub proof fn lemma_size_length_fields(fs: Seq<(Vec<u8>, DataType)>, items: Seq<Val>, id: nat)
    requires
        forall|i: int| 0 <= i < fs.len() ==> encodable(#[trigger] fs[i].1, items[i]),
    ensures
        enc_fields_i(fs, items, id).0.len() == crate::datatype::size_fields(fs, items),
    decreases fs, 0nat,
{
    if fs.len() > 0 {
        let pre = fs.subrange(0, fs.len() - 1);
        lemma_size_length_fields(pre, items, id);
        let a = enc_fields_i(pre, items, id);
        lemma_size_is_length(fs[fs.len() - 1].1, items[fs.len() - 1], a.1);
    }
}

/// [lemma_size_is_length] for the items of a list.
pub proof fn lemma_size_length_list(t: DataType, items: Seq<Val>, id: nat)
    requires
        forall|i: int| 0 <= i < items.len() ==> encodable(t, #[trigger] items[i]),
    ensures
        enc_list_i(t, items, id).0.len() == size_list(t, items),
    decreases t, items.len(),
{
    if items.len() > 0 {
        let pre = items.subrange(0, items.len() - 1);
        lemma_size_length_list(t, pre, id);
        let a = enc_list_i(t, pre, id);
        lemma_size_is_length(t, items[items.len() - 1], a.1);
    }
}

/// What a store keeps while values are stored in it: its main map and
/// counts, and that its maps are made.
pub open spec fn keeps_main(a: Store, b: Store) -> bool {
    &&& b.made()
    &&& b.main.vbm == a.main.vbm
    &&& b.main.record_count == a.main.record_count
    &&& b.main.remove_balance == a.main.remove_balance
}

impl DataType {
    /// Stores `b` in the store and writes a reference to it.
    fn encode(&self, b: &[u8], w: &mut Vec<u8>, store: &mut Store, ps: &mut PageSet)
        requires
            old(store).made(),
            old(ps).writes(),
            old(store).extra.record_count < u64::MAX,
        ensures
            final(w)@ == old(w)@ + reference(b@.len(), old(store).extra.next_id as nat),
            final(store).extra.next_id == id_after(old(store).extra.next_id as nat, b@.len()),
            final(store).extra.record_count == old(store).extra.record_count + 1,
            keeps_main(*old(store), *final(store)),
            final(store).main.changed,
            final(ps).writes(),
    {
        self.write_usize(0, w);
        self.write_usize(b.len(), w);
        let id = store.store(b, ps);
        Self::write_u64(id, w);
        proof {
            assert(w@ =~= old(w)@ + reference(b@.len(), old(store).extra.next_id as nat));
        }
    }

    /// Writes the items of a tuple value.
    fn items_to_writer(&self, val: &Value, w: &mut Vec<u8>, store: &mut Store, ps: &mut PageSet)
        requires
            self is Tuple,
            encodable(*self, val.model()),
            size_bound(*self, val.model()) <= usize::MAX,
            old(store).made(),
            old(ps).writes(),
            old(store).extra.record_count + enc(
                *self,
                val.model(),
                old(store).extra.next_id as nat,
            ).2 <= u64::MAX,
        ensures
            ({
                let e = enc(*self, val.model(), old(store).extra.next_id as nat);
                &&& final(w)@ == old(w)@ + e.0
                &&& final(store).extra.next_id == e.1
                &&& final(store).extra.record_count == old(store).extra.record_count + e.2
                &&& final(store).main.changed == (old(store).main.changed || e.2 > 0)
            }),
            keeps_main(*old(store), *final(store)),
            final(ps).writes(),
        decreases self, 0nat,
    {
        proof {
            lemma_size_bound(*self, val.model());
        }
        let ghost m = val.model();
        let ghost id0 = store.extra.next_id as nat;
        match self {
            DataType::Tuple(types) => {
        let list = val.list();
        let ghost items = m->List_0;
        assert forall|j: int| 0 <= j < types@.len() implies decreases_to!(*self => types@[j]) by {
            assert(decreases_to!(*self => types@[j]));
        }
        let mut i: usize = 0;
        while i < types.len()
            invariant
                *self == DataType::Tuple(*types),
                forall|j: int| 0 <= j < types@.len() ==> decreases_to!(*self => types@[j]),
                m == val.model(),
                items == m->List_0,
                val is List,
                *list == val->List_0,
                encodable(*self, m),
                bound_types(types@, items) <= usize::MAX,
                i <= types@.len(),
                id0 == old(store).extra.next_id,
                old(store).extra.record_count + enc_types_i(types@, items, id0).2
                    <= u64::MAX,
                ({
                    let e = enc_types_i(types@.subrange(0, i as int), items, id0);
                    &&& w@ == old(w)@ + e.0
                    &&& store.extra.next_id == e.1
                    &&& store.extra.record_count == old(store).extra.record_count + e.2
                    &&& store.main.changed == (old(store).main.changed || e.2 > 0)
                }),
                keeps_main(*old(store), *store),
                ps.writes(),
            decreases types@.len() - i,
        {
            proof {
                assert(items[i as int] == list@[i as int].model());
                assert(encodable_types(types@, items));
                assert(encodable(types@[i as int], items[i as int]));
                let pre = types@.subrange(0, i + 1);
                assert(pre.subrange(0, i as int) =~= types@.subrange(0, i as int));
                lemma_bound_types_prefix(types@, items, i + 1);
                lemma_count_types_prefix(types@, items, id0, i + 1);
            }
            types[i].value_to_writer(&list[i], w, store, ps);
            i += 1;
            proof {
                assert(types@.subrange(0, i as int).subrange(0, i - 1) =~= types@.subrange(
                    0,
                    i - 1,
                ));
            }
        }
        proof {
            assert(types@.subrange(0, types@.len() as int) =~= types@);
        }
            },
            _ => vstd::pervasive::unreached(),
        }
    }

    /// Writes the fields of a struct value.
    fn fields_to_writer(&self, val: &Value, w: &mut Vec<u8>, store: &mut Store, ps: &mut PageSet)
        requires
            self is Struct,
            encodable(*self, val.model()),
            size_bound(*self, val.model()) <= usize::MAX,
            old(store).made(),
            old(ps).writes(),
            old(store).extra.record_count + enc(
                *self,
                val.model(),
                old(store).extra.next_id as nat,
            ).2 <= u64::MAX,
        ensures
            ({
                let e = enc(*self, val.model(), old(store).extra.next_id as nat);
                &&& final(w)@ == old(w)@ + e.0
                &&& final(store).extra.next_id == e.1
                &&& final(store).extra.record_count == old(store).extra.record_count + e.2
                &&& final(store).main.changed == (old(store).main.changed || e.2 > 0)
            }),
            keeps_main(*old(store), *final(store)),
            final(ps).writes(),
        decreases self, 0nat,
    {
        proof {
            lemma_size_bound(*self, val.model());
        }
        let ghost m = val.model();
        let ghost id0 = store.extra.next_id as nat;
        match self {
            DataType::Struct(fields) => {
        let list = val.list();
        let ghost items = m->List_0;
        assert forall|j: int| 0 <= j < fields@.len() implies decreases_to!(*self => fields@[j].1) by {
            assert(decreases_to!(*self => fields@[j].1));
        }
        let mut i: usize = 0;
        while i < fields.len()
            invariant
                *self == DataType::Struct(*fields),
                forall|j: int|
                    0 <= j < fields@.len() ==> decreases_to!(*self => fields@[j].1),
                m == val.model(),
                items == m->List_0,
                val is List,
                *list == val->List_0,
                encodable(*self, m),
                bound_fields(fields@, items) <= usize::MAX,
                i <= fields@.len(),
                id0 == old(store).extra.next_id,
                old(store).extra.record_count + enc_fields_i(fields@, items, id0).2
                    <= u64::MAX,
                ({
                    let e = enc_fields_i(fields@.subrange(0, i as int), items, id0);
                    &&& w@ == old(w)@ + e.0
                    &&& store.extra.next_id == e.1
                    &&& store.extra.record_count == old(store).extra.record_count + e.2
                    &&& store.main.changed == (old(store).main.changed || e.2 > 0)
                }),
                keeps_main(*old(store), *store),
                ps.writes(),
            decreases fields@.len() - i,
        {
            proof {
                assert(items[i as int] == list@[i as int].model());
                assert(encodable_fields(fields@, items));
                assert(encodable(fields@[i as int].1, items[i as int]));
                let pre = fields@.subrange(0, i + 1);
                assert(pre.subrange(0, i as int) =~= fields@.subrange(0, i as int));
                lemma_bound_fields_prefix(fields@, items, i + 1);
                lemma_count_fields_prefix(fields@, items, id0, i + 1);
            }
            fields[i].1.value_to_writer(&list[i], w, store, ps);
            i += 1;
            proof {
                assert(fields@.subrange(0, i as int).subrange(0, i - 1) =~= fields@.subrange(
                    0,
                    i - 1,
                ));
            }
        }
        proof {
            assert(fields@.subrange(0, fields@.len() as int) =~= fields@);
        }
            },
            _ => vstd::pervasive::unreached(),
        }
    }

    /// Writes a list value, storing it when it is over the limit.
    fn list_to_writer(&self, val: &Value, w: &mut Vec<u8>, store: &mut Store, ps: &mut PageSet)
        requires
            self is List,
            encodable(*self, val.model()),
            size_bound(*self, val.model()) <= usize::MAX,
            old(store).made(),
            old(ps).writes(),
            old(store).extra.record_count + enc(
                *self,
                val.model(),
                old(store).extra.next_id as nat,
            ).2 <= u64::MAX,
        ensures
            ({
                let e = enc(*self, val.model(), old(store).extra.next_id as nat);
                &&& final(w)@ == old(w)@ + e.0
                &&& final(store).extra.next_id == e.1
                &&& final(store).extra.record_count == old(store).extra.record_count + e.2
                &&& final(store).main.changed == (old(store).main.changed || e.2 > 0)
            }),
            keeps_main(*old(store), *final(store)),
            final(ps).writes(),
        decreases self, 0nat,
    {
        proof {
            lemma_size_bound(*self, val.model());
        }
        let ghost m = val.model();
        let ghost id0 = store.extra.next_id as nat;
        match self {
            DataType::List(t, lim) => {
        let list = val.list();
        let ghost items = m->List_0;
        assert(decreases_to!(*self => **t));
        proof {
            lemma_varint_len_mono(items.len(), 1 + items.len());
        }
        // Size of the list if stored directly (as the limit counts it).
        let mut sz = Self::len_usize(list.len());
        let ghost sz0 = sz;
        let mut i: usize = 0;
        while i < list.len()
            invariant
                m == val.model(),
                items == m->List_0,
                val is List,
                *list == val->List_0,
                encodable(*self, m),
                *self == DataType::List(*t, *lim),
                i <= list@.len(),
                sz0 + bound_list(**t, items) <= usize::MAX,
                sz == sz0 + size_list(**t, items.subrange(0, i as int)),
            decreases list@.len() - i,
        {
            proof {
                assert(items[i as int] == list@[i as int].model());
                assert(crate::datatype::encodable_list(**t, items));
                let pre = items.subrange(0, i + 1);
                assert(pre.subrange(0, i as int) =~= items.subrange(0, i as int));
                lemma_bound_list_prefix(**t, items, i + 1);
                lemma_size_bound_list(**t, items.subrange(0, i as int));
            }
            t.compute_size(&list[i], &mut sz);
            i += 1;
        }
        proof {
            assert(items.subrange(0, items.len() as int) =~= items);
        }
        let mut b: Vec<u8> = Vec::new();
        self.write_usize(1 + list.len(), &mut b);
        let ghost b0 = b@;
        let mut i: usize = 0;
        while i < list.len()
            invariant
                m == val.model(),
                items == m->List_0,
                val is List,
                *list == val->List_0,
                encodable(*self, m),
                *self == DataType::List(*t, *lim),
                decreases_to!(*self => **t),
                i <= list@.len(),
                bound_list(**t, items) <= usize::MAX,
                id0 == old(store).extra.next_id,
                sz == varint(items.len()).len() + size_list(**t, items),
                old(store).extra.record_count + enc_list_i(**t, items, id0).2 + (if sz > *lim {
                    1int
                } else {
                    0int
                }) <= u64::MAX,
                ({
                    let e = enc_list_i(**t, items.subrange(0, i as int), id0);
                    &&& b@ == b0 + e.0
                    &&& store.extra.next_id == e.1
                    &&& store.extra.record_count == old(store).extra.record_count + e.2
                    &&& store.main.changed == (old(store).main.changed || e.2 > 0)
                }),
                keeps_main(*old(store), *store),
                ps.writes(),
            decreases list@.len() - i,
        {
            proof {
                assert(items[i as int] == list@[i as int].model());
                assert(crate::datatype::encodable_list(**t, items));
                assert(encodable(**t, items[i as int]));
                let pre = items.subrange(0, i + 1);
                assert(pre.subrange(0, i as int) =~= items.subrange(0, i as int));
                lemma_bound_list_prefix(**t, items, i + 1);
                lemma_count_list_prefix(**t, items, id0, i + 1);
            }
            t.value_to_writer(&list[i], &mut b, store, ps);
            i += 1;
        }
        proof {
            assert(items.subrange(0, items.len() as int) =~= items);
        }
        if sz > *lim {
            self.encode(b.as_slice(), w, store, ps);
        } else {
            Self::write_bytes(b.as_slice(), w);
        }
            },
            _ => vstd::pervasive::unreached(),
        }
    }

    /// Encode value (which must match DataType) as bytes, appended to `w`;
    /// strings, binaries and lists over the limit of their type are stored
    /// in `store`, and a reference to them is written in their place.
    fn value_to_writer(&self, val: &Value, w: &mut Vec<u8>, store: &mut Store, ps: &mut PageSet)
        requires
            encodable(*self, val.model()),
            size_bound(*self, val.model()) <= usize::MAX,
            old(store).made(),
            old(ps).writes(),
            old(store).extra.record_count + enc(
                *self,
                val.model(),
                old(store).extra.next_id as nat,
            ).2 <= u64::MAX,
        ensures
            ({
                let e = enc(*self, val.model(), old(store).extra.next_id as nat);
                &&& final(w)@ == old(w)@ + e.0
                &&& final(store).extra.next_id == e.1
                &&& final(store).extra.record_count == old(store).extra.record_count + e.2
                &&& final(store).main.changed == (old(store).main.changed || e.2 > 0)
            }),
            keeps_main(*old(store), *final(store)),
            final(ps).writes(),
        decreases self, 1nat,
    {
        let ghost m = val.model();
        let ghost id0 = store.extra.next_id as nat;
        proof {
            lemma_size_bound(*self, m);
        }
        match self {
            DataType::Tuple(_) => self.items_to_writer(val, w, store, ps),
            DataType::Struct(_) => self.fields_to_writer(val, w, store, ps),
            DataType::Enum(variants) => {
                let (tag, v) = val.en();
                self.write_usize(*tag, w);
                variants[*tag].1.value_to_writer(v, w, store, ps);
                proof {
                    assert(w@ =~= old(w)@ + enc(*self, m, id0).0);
                }
            },
            DataType::String(lim) => {
                let s = val.string();
                if s.len() > *lim {
                    self.encode(s.as_slice(), w, store, ps);
                } else {
                    self.value_to_writer0(val, w);
                }
            },
            DataType::Binary(lim) => {
                let b = val.binary();
                if b.len() > *lim {
                    self.encode(b.as_slice(), w, store, ps);
                } else {
                    self.value_to_writer0(val, w);
                }
            },
            DataType::List(_, _) => self.list_to_writer(val, w, store, ps),
            DataType::IList(lim) => {
                let list = val.ilist();
                proof {
                    crate::varint::lemma_varint_len(1 + list@.len());
                }
                let sz = Self::len_usize(1 + list.len()) + list.len() * 8;
                if sz > *lim {
                    let b = self.value_to_bytes0(val);
                    self.encode(b.as_slice(), w, store, ps);
                } else {
                    self.value_to_writer0(val, w);
                }
            },
            _ => {
                self.value_to_writer0(val, w);
            },
        }
    }

    /// Encode value (which must match DataType) as bytes. DataType will later
    /// be used to decode the bytes. Strings, binaries and lists over the
    /// limit of their type are stored in `store` and referenced.
    pub fn value_to_bytes(&self, val: &Value, store: &mut Store, ps: &mut PageSet) -> (r: Vec<u8>)
        requires
            encodable(*self, val.model()),
            size_bound(*self, val.model()) <= usize::MAX,
            old(store).made(),
            old(ps).writes(),
            old(store).extra.record_count + enc(
                *self,
                val.model(),
                old(store).extra.next_id as nat,
            ).2 <= u64::MAX,
        ensures
            ({
                let e = enc(*self, val.model(), old(store).extra.next_id as nat);
                &&& r@ == e.0
                &&& final(store).extra.next_id == e.1
                &&& final(store).extra.record_count == old(store).extra.record_count + e.2
                &&& final(store).main.changed == (old(store).main.changed || e.2 > 0)
            }),
            keeps_main(*old(store), *final(store)),
            final(ps).writes(),
    {
        let mut w: Vec<u8> = Vec::new();
        self.value_to_writer(val, &mut w, store, ps);
        proof {
            assert(w@ =~= enc(*self, val.model(), old(store).extra.next_id as nat).0);
        }
        w
    }
}

impl DataType {
    /// Reads a reference (length and 8-byte id) at `*ix`, moving past it.
    fn read_ref(&self, buf: &[u8], ix: &mut usize) -> (r: Option<(usize, u64)>)
        requires
            *old(ix) <= buf@.len(),
        ensures
            *final(ix) <= buf@.len(),
            match ref_at(buf@, *old(ix) as int) {
                Some((n, id, q)) => r == Some((n, id)) && *final(ix) == q,
                None => r is None,
            },
    {
        match self.try_read_usize(buf, ix) {
            None => None,
            Some(len) => {
                if *ix <= buf.len() && buf.len() - *ix >= 8 {
                    let id = crate::bytes::get_u64(buf, *ix);
                    *ix += 8;
                    Some((len, id))
                } else {
                    None
                }
            },
        }
    }

    /// Fetches the bytes referenced at `*ix` (moving past the reference).
    fn decode(&self, buf: &[u8], ix: &mut usize, store: &Store, ps: &mut PageSet) -> (r: Option<
        Vec<u8>,
    >)
        requires
            *old(ix) <= buf@.len(),
            store.made(),
        ensures
            *final(ix) <= buf@.len(),
            final(ps).writes() == old(ps).writes(),
            match ref_at(buf@, *old(ix) as int) {
                Some((n, id, q)) => r is Some && *final(ix) == q && (crate::store::chunks_cached(
                    old(ps).cache(),
                    crate::store::chunk_map(store.extra),
                    id,
                    n as nat,
                ) ==> final(ps).cache() == old(ps).cache() && r->0@ == crate::store::chunks_from(
                    old(ps).cache(),
                    crate::store::chunk_map(store.extra),
                    id,
                    n as nat,
                )),
                None => r is None,
            },
    {
        match self.read_ref(buf, ix) {
            None => None,
            Some((len, id)) => Some(store.fetch(id, len, ps)),
        }
    }

    /// Fetches the bytes referenced at `*ix` (moving past the reference), and
    /// deletes them from the store.
    fn decode_del(&self, buf: &[u8], ix: &mut usize, store: &mut Store, ps: &mut PageSet) -> (r:
        Option<Vec<u8>>)
        requires
            *old(ix) <= buf@.len(),
            old(store).made(),
            old(ps).writes(),
        ensures
            *final(ix) <= buf@.len(),
            keeps_main(*old(store), *final(store)),
            final(store).extra.next_id == old(store).extra.next_id,
            final(store).extra.record_count <= old(store).extra.record_count,
            final(ps).writes(),
            match ref_at(buf@, *old(ix) as int) {
                Some((n, id, q)) => r is Some && *final(ix) == q && (crate::store::chunks_cached(
                    old(ps).cache(),
                    crate::store::chunk_map(old(store).extra),
                    id,
                    n as nat,
                ) ==> r->0@ == crate::store::chunks_from(
                    old(ps).cache(),
                    crate::store::chunk_map(old(store).extra),
                    id,
                    n as nat,
                )),
                None => r is None && *final(store) == *old(store),
            },
    {
        match self.read_ref(buf, ix) {
            None => None,
            Some((len, id)) => {
                let result = store.fetch(id, len, ps);
                store.delete(id, len, ps);
                Some(result)
            },
        }
    }

    /// Reads `n` 8-byte integers at `*ix` (moving past them), where they fit.
    fn ints_at(&self, buf: &[u8], ix: &mut usize, n: usize) -> (r: Option<Vec<i64>>)
        requires
            *old(ix) <= buf@.len(),
        ensures
            *final(ix) <= buf@.len(),
            *old(ix) + 8 * n <= buf@.len() ==> r is Some && r->0@ == Seq::new(
                n as nat,
                |j: int| int_at(buf@, *old(ix) + 8 * j),
            ) && *final(ix) == *old(ix) + 8 * n,
    {
        if n > (buf.len() - *ix) / 8 {
            return None;
        }
        let ghost p0 = *ix as int;
        let mut list: Vec<i64> = Vec::new();
        let mut i: usize = 0;
        while i < n
            invariant
                p0 + 8 * n <= buf@.len(),
                i <= n,
                list@.len() == i,
                *ix == p0 + 8 * i,
                forall|j: int| 0 <= j < i ==> list@[j] == int_at(buf@, p0 + 8 * j),
            decreases n - i,
        {
            let x = self.read_int(buf, ix);
            list.push(x);
            i += 1;
        }
        proof {
            assert(list@ =~= Seq::new(n as nat, |j: int| int_at(buf@, p0 + 8 * j)));
        }
        Some(list)
    }

    /// Copies `n` bytes at `*ix` (moving past them), where they fit.
    fn bytes_at(buf: &[u8], ix: &mut usize, n: usize) -> (r: Option<Vec<u8>>)
        requires
            *old(ix) <= buf@.len(),
        ensures
            *final(ix) <= buf@.len(),
            *old(ix) + n <= buf@.len() ==> r is Some && r->0@ == buf@.subrange(
                *old(ix) as int,
                *old(ix) + n,
            ) && *final(ix) == *old(ix) + n,
    {
        if n > buf.len() - *ix {
            return None;
        }
        let b = vstd::slice::slice_to_vec(&buf[*ix..*ix + n]);
        *ix += n;
        Some(b)
    }
}

impl DataType {
    /// Decodes `n` values of type `t` at `*ix` (moving past them); values
    /// stored indirectly are fetched from `store`.
    fn list_items(t: &DataType, buf: &[u8], ix: &mut usize, n: usize, store: &Store, ps: &mut PageSet) -> (r:
        Option<Vec<Value>>)
        requires
            *old(ix) <= buf@.len(),
            store.made(),
        ensures
            *final(ix) <= buf@.len(),
            dec_list(*t, buf@, *old(ix) as int, n as nat) is Some ==> r is Some && (
            models(r->0@),
            *final(ix) as int,
            ) == dec_list(*t, buf@, *old(ix) as int, n as nat).unwrap(),
            final(ps).writes() == old(ps).writes(),
            dec_list_ind(*t, buf@, *old(ix) as int, n as nat, old(ps).cache(), chunk_map(store.extra))
                matches Some((items, q)) ==> r is Some && models(r->0@) == items && *final(ix) == q
                && final(ps).cache() == old(ps).cache(),
        decreases *t, 2nat,
    {
        let ghost p0 = *ix as int;
        let ghost c0 = ps.cache();
        let ghost m = chunk_map(store.extra);
        let mut list: Vec<Value> = Vec::new();
        let mut i: usize = 0;
        while i < n
            invariant
                p0 == *old(ix) as int,
                i <= n,
                list@.len() == i,
                *ix <= buf@.len(),
                store.made(),
                ps.writes() == old(ps).writes(),
                dec_list(*t, buf@, p0, n as nat) is Some ==> dec_list(*t, buf@, p0, i as nat) == Some(
                    (models(list@), *ix as int),
                ),
                c0 == old(ps).cache(),
                m == chunk_map(store.extra),
                dec_list_ind(*t, buf@, p0, n as nat, c0, m) is Some ==> ps.cache() == c0
                    && dec_list_ind(*t, buf@, p0, i as nat, c0, m) == Some((models(list@), *ix as int)),
            decreases n - i,
        {
            let ghost ix0 = *ix as int;
            proof {
                if dec_list(*t, buf@, p0, n as nat) is Some {
                    lemma_dec_list_prefix(*t, buf@, p0, n as nat, (i + 1) as nat);
                    assert(dec0(*t, buf@, ix0) is Some);
                }
                if dec_list_ind(*t, buf@, p0, n as nat, c0, m) is Some {
                    lemma_dec_list_ind_prefix(*t, buf@, p0, n as nat, c0, m, (i + 1) as nat);
                    assert(dec_ind(*t, buf@, ix0, c0, m) is Some);
                }
                assert(dec_list(*t, buf@, p0, n as nat) is Some ==> dec0(*t, buf@, ix0) is Some);
            }
            let v = match t.to_value(buf, ix, store, ps) {
                Some(v) => v,
                None => {
                    return None;
                },
            };
            let ghost before = list@;
            list.push(v);
            i += 1;
            proof {
                assert(models(list@) =~= models(before).push(v.model()));
            }
        }
        Some(list)
    }

    /// Decodes the items of a list whose bytes are `b` (its length prefix,
    /// then its items).
    fn list_from(t: &DataType, b: &[u8], store: &Store, ps: &mut PageSet) -> (r: Option<Value>)
        requires
            store.made(),
        ensures
            final(ps).writes() == old(ps).writes(),
            match crate::datatype::dec_len(b@, 0) {
                Some((n, p)) => dec_list(*t, b@, p, n) is Some ==> r is Some && r->0.model()
                    == Val::List(dec_list(*t, b@, p, n).unwrap().0),
                None => r is None,
            },
            match crate::datatype::dec_len(b@, 0) {
                Some((n, p)) => dec_list_ind(*t, b@, p, n, old(ps).cache(), chunk_map(store.extra))
                    matches Some((items, _)) ==> r is Some && r->0.model() == Val::List(items)
                    && final(ps).cache() == old(ps).cache(),
                None => true,
            },
        decreases *t, 3nat,
    {
        let mut bix: usize = 0;
        match t.try_read_usize(b, &mut bix) {
            Some(n) => {
                if n >= 1 {
                    match Self::list_items(t, b, &mut bix, n - 1, store, ps) {
                        Some(items) => {
                            let r = Value::List(items);
                            proof {
                                assert(r.model()->List_0 =~= models(items@));
                            }
                            Some(r)
                        },
                        None => None,
                    }
                } else {
                    None
                }
            },
            None => None,
        }
    }

    /// Decode bytes of this DataType at `*ix` (moving past them); values
    /// stored indirectly are fetched from `store`. `None` where the bytes do
    /// not decode.
    #[verifier::rlimit(60)]
    fn to_value(&self, buf: &[u8], ix: &mut usize, store: &Store, ps: &mut PageSet) -> (r: Option<Value>)
        requires
            *old(ix) <= buf@.len(),
            store.made(),
        ensures
            *final(ix) <= buf@.len(),
            dec0(*self, buf@, *old(ix) as int) is Some ==> r is Some && r->0.model() == dec0(
                *self,
                buf@,
                *old(ix) as int,
            ).unwrap().0 && *final(ix) == dec0(*self, buf@, *old(ix) as int).unwrap().1,
            final(ps).writes() == old(ps).writes(),
            dec_ind(*self, buf@, *old(ix) as int, old(ps).cache(), chunk_map(store.extra)) matches Some(
                (v, q),
            ) ==> r is Some && r->0.model() == v && *final(ix) == q && final(ps).cache() == old(
                ps,
            ).cache(),
        decreases *self, 1nat,
    {
        let ghost pos = *ix as int;
        let ghost c0 = ps.cache();
        let ghost m = chunk_map(store.extra);
        match self {
            DataType::Tuple(types) => {
                assert forall|j: int| 0 <= j < types@.len() implies decreases_to!(*self => types@[j]) by {
                    assert(decreases_to!(*self => types@[j]));
                }
                let mut list: Vec<Value> = Vec::new();
                let mut i: usize = 0;
                while i < types.len()
                    invariant
                        *self == DataType::Tuple(*types),
                        forall|j: int| 0 <= j < types@.len() ==> decreases_to!(*self => types@[j]),
                        i <= types@.len(),
                        list@.len() == i,
                        pos == *old(ix) as int,
                        *ix <= buf@.len(),
                        store.made(),
                        ps.writes() == old(ps).writes(),
                        dec_types(types@, buf@, pos) is Some ==> dec_types(
                            types@.subrange(0, i as int),
                            buf@,
                            pos,
                        ) == Some((models(list@), *ix as int)),
                        c0 == old(ps).cache(),
                        m == chunk_map(store.extra),
                        dec_ind_types(types@, buf@, pos, c0, m) is Some ==> ps.cache() == c0
                            && dec_ind_types(types@.subrange(0, i as int), buf@, pos, c0, m) == Some(
                            (models(list@), *ix as int),
                        ),
                    decreases types@.len() - i,
                {
                    proof {
                        if dec_types(types@, buf@, pos) is Some {
                            lemma_dec_types_prefix(types@, buf@, pos, i + 1);
                        }
                        assert(types@.subrange(0, i + 1).subrange(0, i as int) =~= types@.subrange(
                            0,
                            i as int,
                        ));
                        assert(decreases_to!(*self => types@[i as int]));
                        if dec_ind_types(types@, buf@, pos, c0, m) is Some {
                            lemma_dec_ind_types_prefix(types@, buf@, pos, c0, m, i + 1);
                            assert(dec_ind(types@[i as int], buf@, *ix as int, c0, m) is Some);
                        }
                        if dec_types(types@, buf@, pos) is Some {
                            assert(dec0(types@[i as int], buf@, *ix as int) is Some);
                        }
                        assert(dec_types(types@, buf@, pos) is Some ==> dec0(types@[i as int], buf@, *ix as int) is Some);
                    }
                    let v = match types[i].to_value(buf, ix, store, ps) {
                        Some(v) => v,
                        None => {
                            return None;
                        },
                    };
                    let ghost before = list@;
                    list.push(v);
                    i += 1;
                    proof {
                        assert(models(list@) =~= models(before).push(v.model()));
                    }
                }
                proof {
                    assert(types@.subrange(0, types@.len() as int) =~= types@);
                }
                let r = Value::List(list);
                proof {
                    assert(r.model()->List_0 =~= models(list@));
                }
                Some(r)
            },
            DataType::Struct(fields) => {
                assert forall|j: int| 0 <= j < fields@.len() implies decreases_to!(*self => fields@[j].1) by {
                    assert(decreases_to!(*self => fields@[j].1));
                }
                let mut list: Vec<Value> = Vec::new();
                let mut i: usize = 0;
                while i < fields.len()
                    invariant
                        *self == DataType::Struct(*fields),
                        forall|j: int|
                            0 <= j < fields@.len() ==> decreases_to!(*self => fields@[j].1),
                        i <= fields@.len(),
                        list@.len() == i,
                        pos == *old(ix) as int,
                        *ix <= buf@.len(),
                        store.made(),
                        ps.writes() == old(ps).writes(),
                        dec_fields(fields@, buf@, pos) is Some ==> dec_fields(
                            fields@.subrange(0, i as int),
                            buf@,
                            pos,
                        ) == Some((models(list@), *ix as int)),
                        c0 == old(ps).cache(),
                        m == chunk_map(store.extra),
                        dec_ind_fields(fields@, buf@, pos, c0, m) is Some ==> ps.cache() == c0
                            && dec_ind_fields(fields@.subrange(0, i as int), buf@, pos, c0, m) == Some(
                            (models(list@), *ix as int),
                        ),
                    decreases fields@.len() - i,
                {
                    proof {
                        if dec_fields(fields@, buf@, pos) is Some {
                            lemma_dec_fields_prefix(fields@, buf@, pos, i + 1);
                        }
                        assert(fields@.subrange(0, i + 1).subrange(0, i as int) =~= fields@.subrange(
                            0,
                            i as int,
                        ));
                        assert(decreases_to!(*self => fields@[i as int].1));
                        if dec_ind_fields(fields@, buf@, pos, c0, m) is Some {
                            lemma_dec_ind_fields_prefix(fields@, buf@, pos, c0, m, i + 1);
                            assert(dec_ind(fields@[i as int].1, buf@, *ix as int, c0, m) is Some);
                        }
                        if dec_fields(fields@, buf@, pos) is Some {
                            assert(dec0(fields@[i as int].1, buf@, *ix as int) is Some);
                        }
                        assert(dec_fields(fields@, buf@, pos) is Some ==> dec0(fields@[i as int].1, buf@, *ix as int) is Some);
                    }
                    let v = match fields[i].1.to_value(buf, ix, store, ps) {
                        Some(v) => v,
                        None => {
                            return None;
                        },
                    };
                    let ghost before = list@;
                    list.push(v);
                    i += 1;
                    proof {
                        assert(models(list@) =~= models(before).push(v.model()));
                    }
                }
                proof {
                    assert(fields@.subrange(0, fields@.len() as int) =~= fields@);
                }
                let r = Value::List(list);
                proof {
                    assert(r.model()->List_0 =~= models(list@));
                }
                Some(r)
            },
            DataType::Enum(variants) => {
                let tag = match self.try_read_usize(buf, ix) {
                    Some(tag) => tag,
                    None => {
                        return None;
                    },
                };
                if tag >= variants.len() {
                    return None;
                }
                match variants[tag].1.to_value(buf, ix, store, ps) {
                    Some(v) => Some(Value::Enum(tag, Box::new(v))),
                    None => None,
                }
            },
            DataType::String(_) => {
                let len = match self.try_read_usize(buf, ix) {
                    Some(len) => len,
                    None => {
                        return None;
                    },
                };
                let b = if len == 0 {
                    self.decode(buf, ix, store, ps)
                } else {
                    Self::bytes_at(buf, ix, len - 1)
                };
                match b {
                    Some(b) => Some(Value::String(b)),
                    None => None,
                }
            },
            DataType::Binary(_) => {
                let len = match self.try_read_usize(buf, ix) {
                    Some(len) => len,
                    None => {
                        return None;
                    },
                };
                let b = if len == 0 {
                    self.decode(buf, ix, store, ps)
                } else {
                    Self::bytes_at(buf, ix, len - 1)
                };
                match b {
                    Some(b) => Some(Value::Binary(b)),
                    None => None,
                }
            },
            DataType::List(t, _) => {
                let len = match self.try_read_usize(buf, ix) {
                    Some(len) => len,
                    None => {
                        return None;
                    },
                };
                assert(decreases_to!(*self => **t));
                if len == 0 {
                    match self.decode(buf, ix, store, ps) {
                        Some(b) => Self::list_from(t, b.as_slice(), store, ps),
                        None => None,
                    }
                } else {
                    let ghost p = *ix as int;
                    match Self::list_items(t, buf, ix, len - 1, store, ps) {
                        Some(items) => {
                            let r = Value::List(items);
                            proof {
                                assert(r.model()->List_0 =~= models(items@));
                            }
                            Some(r)
                        },
                        None => None,
                    }
                }
            },
            DataType::IList(_) => {
                let len = match self.try_read_usize(buf, ix) {
                    Some(len) => len,
                    None => {
                        return None;
                    },
                };
                if len == 0 {
                    match self.decode(buf, ix, store, ps) {
                        Some(b) => {
                            let mut bix: usize = 0;
                            match self.try_read_usize(b.as_slice(), &mut bix) {
                                Some(n) => {
                                    if n >= 1 {
                                        match self.ints_at(b.as_slice(), &mut bix, n - 1) {
                                            Some(list) => Some(Value::IList(list)),
                                            None => None,
                                        }
                                    } else {
                                        None
                                    }
                                },
                                None => None,
                            }
                        },
                        None => None,
                    }
                } else {
                    match self.ints_at(buf, ix, len - 1) {
                        Some(list) => Some(Value::IList(list)),
                        None => None,
                    }
                }
            },
            DataType::Empty => Some(Value::Empty),
            DataType::Bool => {
                if *ix < buf.len() {
                    Some(Value::Bool(self.read_bool(buf, ix)))
                } else {
                    None
                }
            },
            DataType::Int => {
                if buf.len() - *ix >= 8 {
                    Some(Value::Int(self.read_int(buf, ix)))
                } else {
                    None
                }
            },
            DataType::Float => {
                if buf.len() - *ix >= 8 {
                    let f = self.read_float(buf, ix);
                    Some(Value::Float(f))
                } else {
                    None
                }
            },
        }
    }
}

impl DataType {
    /// Decodes `n` values of type `t` at `*ix` (moving past them); values
    /// stored indirectly are fetched from `store` and deleted from it.
    fn list_items_del(t: &DataType, buf: &[u8], ix: &mut usize, n: usize, store: &mut Store, ps: &mut PageSet) -> (r:
        Option<Vec<Value>>)
        requires
            *old(ix) <= buf@.len(),
            old(store).made(),
            old(ps).writes(),
        ensures
            *final(ix) <= buf@.len(),
            dec_list(*t, buf@, *old(ix) as int, n as nat) is Some ==> r is Some && (
            models(r->0@),
            *final(ix) as int,
            ) == dec_list(*t, buf@, *old(ix) as int, n as nat).unwrap(),
            dec_list(*t, buf@, *old(ix) as int, n as nat) is Some ==> *final(store) == *old(store)
                && final(ps).cache() == old(ps).cache(),
            keeps_main(*old(store), *final(store)),
            final(store).extra.next_id == old(store).extra.next_id,
            final(store).extra.record_count <= old(store).extra.record_count,
            final(ps).writes(),
        decreases *t, 2nat,
    {
        let ghost p0 = *ix as int;
        let mut list: Vec<Value> = Vec::new();
        let mut i: usize = 0;
        while i < n
            invariant
                p0 == *old(ix) as int,
                i <= n,
                list@.len() == i,
                *ix <= buf@.len(),
                keeps_main(*old(store), *store),
                store.extra.next_id == old(store).extra.next_id,
                store.extra.record_count <= old(store).extra.record_count,
                ps.writes(),
                dec_list(*t, buf@, p0, n as nat) is Some ==> dec_list(*t, buf@, p0, i as nat) == Some(
                    (models(list@), *ix as int),
                ),
                dec_list(*t, buf@, p0, n as nat) is Some ==> *store == *old(store) && ps.cache()
                    == old(ps).cache(),
            decreases n - i,
        {
            let ghost ix0 = *ix as int;
            proof {
                if dec_list(*t, buf@, p0, n as nat) is Some {
                    lemma_dec_list_prefix(*t, buf@, p0, n as nat, (i + 1) as nat);
                    assert(dec0(*t, buf@, ix0) is Some);
                }
                assert(dec_list(*t, buf@, p0, n as nat) is Some ==> dec0(*t, buf@, ix0) is Some);
            }
            let v = match t.to_value_del(buf, ix, store, ps) {
                Some(v) => v,
                None => {
                    return None;
                },
            };
            let ghost before = list@;
            list.push(v);
            i += 1;
            proof {
                assert(models(list@) =~= models(before).push(v.model()));
            }
        }
        Some(list)
    }

    /// Decodes the items of a list whose bytes are `b` (its length prefix,
    /// then its items), deleting what they reference.
    fn list_from_del(t: &DataType, b: &[u8], store: &mut Store, ps: &mut PageSet) -> (r: Option<Value>)
        requires
            old(store).made(),
            old(ps).writes(),
        ensures
            keeps_main(*old(store), *final(store)),
            final(store).extra.next_id == old(store).extra.next_id,
            final(store).extra.record_count <= old(store).extra.record_count,
            final(ps).writes(),
            match crate::datatype::dec_len(b@, 0) {
                Some((n, p)) => dec_list(*t, b@, p, n) is Some ==> r is Some && r->0.model()
                    == Val::List(dec_list(*t, b@, p, n).unwrap().0) && *final(store) == *old(store),
                None => r is None && *final(store) == *old(store),
            },
        decreases *t, 3nat,
    {
        let mut bix: usize = 0;
        match t.try_read_usize(b, &mut bix) {
            Some(n) => {
                if n >= 1 {
                    match Self::list_items_del(t, b, &mut bix, n - 1, store, ps) {
                        Some(items) => {
                            let r = Value::List(items);
                            proof {
                                assert(r.model()->List_0 =~= models(items@));
                            }
                            Some(r)
                        },
                        None => None,
                    }
                } else {
                    None
                }
            },
            None => None,
        }
    }

    /// Decode bytes of this DataType at `*ix` (moving past them); values
    /// stored indirectly are fetched from `store` and deleted from it. `None` where the bytes do
    /// not decode.
    fn to_value_del(&self, buf: &[u8], ix: &mut usize, store: &mut Store, ps: &mut PageSet) -> (r: Option<Value>)
        requires
            *old(ix) <= buf@.len(),
            old(store).made(),
            old(ps).writes(),
        ensures
            *final(ix) <= buf@.len(),
            dec0(*self, buf@, *old(ix) as int) is Some ==> r is Some && r->0.model() == dec0(
                *self,
                buf@,
                *old(ix) as int,
            ).unwrap().0 && *final(ix) == dec0(*self, buf@, *old(ix) as int).unwrap().1,
            dec0(*self, buf@, *old(ix) as int) is Some ==> *final(store) == *old(store)
                && final(ps).cache() == old(ps).cache(),
            keeps_main(*old(store), *final(store)),
            final(store).extra.next_id == old(store).extra.next_id,
            final(store).extra.record_count <= old(store).extra.record_count,
            final(ps).writes(),
        decreases *self, 1nat,
    {
        let ghost pos = *ix as int;
        match self {
            DataType::Tuple(types) => {
                assert forall|j: int| 0 <= j < types@.len() implies decreases_to!(*self => types@[j]) by {
                    assert(decreases_to!(*self => types@[j]));
                }
                let mut list: Vec<Value> = Vec::new();
                let mut i: usize = 0;
                while i < types.len()
                    invariant
                        *self == DataType::Tuple(*types),
                        forall|j: int| 0 <= j < types@.len() ==> decreases_to!(*self => types@[j]),
                        i <= types@.len(),
                        list@.len() == i,
                        pos == *old(ix) as int,
                        *ix <= buf@.len(),
                        keeps_main(*old(store), *store),
                        store.extra.next_id == old(store).extra.next_id,
                        store.extra.record_count <= old(store).extra.record_count,
                        ps.writes(),
                        dec_types(types@, buf@, pos) is Some ==> dec_types(
                            types@.subrange(0, i as int),
                            buf@,
                            pos,
                        ) == Some((models(list@), *ix as int)),
                        dec_types(types@, buf@, pos) is Some ==> *store == *old(store) && ps.cache()
                            == old(ps).cache(),
                    decreases types@.len() - i,
                {
                    proof {
                        if dec_types(types@, buf@, pos) is Some {
                            lemma_dec_types_prefix(types@, buf@, pos, i + 1);
                        }
                        assert(types@.subrange(0, i + 1).subrange(0, i as int) =~= types@.subrange(
                            0,
                            i as int,
                        ));
                        assert(decreases_to!(*self => types@[i as int]));
                        if dec_types(types@, buf@, pos) is Some {
                            assert(dec0(types@[i as int], buf@, *ix as int) is Some);
                        }
                        assert(dec_types(types@, buf@, pos) is Some ==> dec0(types@[i as int], buf@, *ix as int) is Some);
                    }
                    let v = match types[i].to_value_del(buf, ix, store, ps) {
                        Some(v) => v,
                        None => {
                            return None;
                        },
                    };
                    let ghost before = list@;
                    list.push(v);
                    i += 1;
                    proof {
                        assert(models(list@) =~= models(before).push(v.model()));
                    }
                }
                proof {
                    assert(types@.subrange(0, types@.len() as int) =~= types@);
                }
                let r = Value::List(list);
                proof {
                    assert(r.model()->List_0 =~= models(list@));
                }
                Some(r)
            },
            DataType::Struct(fields) => {
                assert forall|j: int| 0 <= j < fields@.len() implies decreases_to!(*self => fields@[j].1) by {
                    assert(decreases_to!(*self => fields@[j].1));
                }
                let mut list: Vec<Value> = Vec::new();
                let mut i: usize = 0;
                while i < fields.len()
                    invariant
                        *self == DataType::Struct(*fields),
                        forall|j: int|
                            0 <= j < fields@.len() ==> decreases_to!(*self => fields@[j].1),
                        i <= fields@.len(),
                        list@.len() == i,
                        pos == *old(ix) as int,
                        *ix <= buf@.len(),
                        keeps_main(*old(store), *store),
                        store.extra.next_id == old(store).extra.next_id,
                        store.extra.record_count <= old(store).extra.record_count,
                        ps.writes(),
                        dec_fields(fields@, buf@, pos) is Some ==> dec_fields(
                            fields@.subrange(0, i as int),
                            buf@,
                            pos,
                        ) == Some((models(list@), *ix as int)),
                        dec_fields(fields@, buf@, pos) is Some ==> *store == *old(store) && ps.cache()
                            == old(ps).cache(),
                    decreases fields@.len() - i,
                {
                    proof {
                        if dec_fields(fields@, buf@, pos) is Some {
                            lemma_dec_fields_prefix(fields@, buf@, pos, i + 1);
                        }
                        assert(fields@.subrange(0, i + 1).subrange(0, i as int) =~= fields@.subrange(
                            0,
                            i as int,
                        ));
                        assert(decreases_to!(*self => fields@[i as int].1));
                        if dec_fields(fields@, buf@, pos) is Some {
                            assert(dec0(fields@[i as int].1, buf@, *ix as int) is Some);
                        }
                        assert(dec_fields(fields@, buf@, pos) is Some ==> dec0(fields@[i as int].1, buf@, *ix as int) is Some);
                    }
                    let v = match fields[i].1.to_value_del(buf, ix, store, ps) {
                        Some(v) => v,
                        None => {
                            return None;
                        },
                    };
                    let ghost before = list@;
                    list.push(v);
                    i += 1;
                    proof {
                        assert(models(list@) =~= models(before).push(v.model()));
                    }
                }
                proof {
                    assert(fields@.subrange(0, fields@.len() as int) =~= fields@);
                }
                let r = Value::List(list);
                proof {
                    assert(r.model()->List_0 =~= models(list@));
                }
                Some(r)
            },
            DataType::Enum(variants) => {
                let tag = match self.try_read_usize(buf, ix) {
                    Some(tag) => tag,
                    None => {
                        return None;
                    },
                };
                if tag >= variants.len() {
                    return None;
                }
                match variants[tag].1.to_value_del(buf, ix, store, ps) {
                    Some(v) => Some(Value::Enum(tag, Box::new(v))),
                    None => None,
                }
            },
            DataType::String(_) => {
                let len = match self.try_read_usize(buf, ix) {
                    Some(len) => len,
                    None => {
                        return None;
                    },
                };
                let b = if len == 0 {
                    self.decode_del(buf, ix, store, ps)
                } else {
                    Self::bytes_at(buf, ix, len - 1)
                };
                match b {
                    Some(b) => Some(Value::String(b)),
                    None => None,
                }
            },
            DataType::Binary(_) => {
                let len = match self.try_read_usize(buf, ix) {
                    Some(len) => len,
                    None => {
                        return None;
                    },
                };
                let b = if len == 0 {
                    self.decode_del(buf, ix, store, ps)
                } else {
                    Self::bytes_at(buf, ix, len - 1)
                };
                match b {
                    Some(b) => Some(Value::Binary(b)),
                    None => None,
                }
            },
            DataType::List(t, _) => {
                let len = match self.try_read_usize(buf, ix) {
                    Some(len) => len,
                    None => {
                        return None;
                    },
                };
                assert(decreases_to!(*self => **t));
                if len == 0 {
                    match self.decode_del(buf, ix, store, ps) {
                        Some(b) => Self::list_from_del(t, b.as_slice(), store, ps),
                        None => None,
                    }
                } else {
                    let ghost p = *ix as int;
                    match Self::list_items_del(t, buf, ix, len - 1, store, ps) {
                        Some(items) => {
                            let r = Value::List(items);
                            proof {
                                assert(r.model()->List_0 =~= models(items@));
                            }
                            Some(r)
                        },
                        None => None,
                    }
                }
            },
            DataType::IList(_) => {
                let len = match self.try_read_usize(buf, ix) {
                    Some(len) => len,
                    None => {
                        return None;
                    },
                };
                if len == 0 {
                    match self.decode_del(buf, ix, store, ps) {
                        Some(b) => {
                            let mut bix: usize = 0;
                            match self.try_read_usize(b.as_slice(), &mut bix) {
                                Some(n) => {
                                    if n >= 1 {
                                        match self.ints_at(b.as_slice(), &mut bix, n - 1) {
                                            Some(list) => Some(Value::IList(list)),
                                            None => None,
                                        }
                                    } else {
                                        None
                                    }
                                },
                                None => None,
                            }
                        },
                        None => None,
                    }
                } else {
                    match self.ints_at(buf, ix, len - 1) {
                        Some(list) => Some(Value::IList(list)),
                        None => None,
                    }
                }
            },
            DataType::Empty => Some(Value::Empty),
            DataType::Bool => {
                if *ix < buf.len() {
                    Some(Value::Bool(self.read_bool(buf, ix)))
                } else {
                    None
                }
            },
            DataType::Int => {
                if buf.len() - *ix >= 8 {
                    Some(Value::Int(self.read_int(buf, ix)))
                } else {
                    None
                }
            },
            DataType::Float => {
                if buf.len() - *ix >= 8 {
                    let f = self.read_float(buf, ix);
                    Some(Value::Float(f))
                } else {
                    None
                }
            },
        }
    }
}


impl DataType {
    /// Decode bytes of this DataType. Returns decoded Value; values stored
    /// indirectly are fetched from `store`. Bytes that do not decode give
    /// `Value::Empty`.
    pub fn bytes_to_value(&self, buf: &[u8], store: &Store, ps: &mut PageSet) -> (r: Value)
        requires
            store.made(),
        ensures
            dec0(*self, buf@, 0) is Some ==> r.model() == dec0(*self, buf@, 0).unwrap().0,
            final(ps).writes() == old(ps).writes(),
            dec_ind(*self, buf@, 0, old(ps).cache(), chunk_map(store.extra)) matches Some((v, _))
                ==> r.model() == v && final(ps).cache() == old(ps).cache(),
    {
        let mut ix: usize = 0;
        match self.to_value(buf, &mut ix, store, ps) {
            Some(v) => v,
            None => Value::Empty,
        }
    }

    /// Similar to bytes_to_value but indirect values are deleted from the
    /// store.
    pub fn bytes_to_value_del(&self, buf: &[u8], store: &mut Store, ps: &mut PageSet) -> (r: Value)
        requires
            old(store).made(),
            old(ps).writes(),
        ensures
            dec0(*self, buf@, 0) is Some ==> r.model() == dec0(*self, buf@, 0).unwrap().0,
            dec0(*self, buf@, 0) is Some ==> *final(store) == *old(store)
                && final(ps).cache() == old(ps).cache(),
            keeps_main(*old(store), *final(store)),
            final(store).extra.next_id == old(store).extra.next_id,
            final(store).extra.record_count <= old(store).extra.record_count,
            final(ps).writes(),
    {
        let mut ix: usize = 0;
        match self.to_value_del(buf, &mut ix, store, ps) {
            Some(v) => v,
            None => Value::Empty,
        }
    }
}


impl DataType {
    /// Decode only the specified item of a struct row from buf (the items
    /// before it are skipped).
    pub fn select_value(&self, item: usize, buf: &[u8], store: &Store, ps: &mut PageSet) -> (r: Value)
        requires
            self is Struct,
            item < item_types(*self).len(),
            skip_types(item_types(*self), buf@, 0, item as nat) is Some,
            skip_types(item_types(*self), buf@, 0, item as nat).unwrap() <= usize::MAX,
            store.made(),
        ensures
            ({
                let p = skip_types(item_types(*self), buf@, 0, item as nat).unwrap();
                dec0(item_types(*self)[item as int], buf@, p) is Some ==> r.model() == dec0(
                    item_types(*self)[item as int],
                    buf@,
                    p,
                ).unwrap().0
            }),
            (forall|i: int| 0 <= i < item ==> skippable(#[trigger] item_types(*self)[i])) && dec0(
                *self,
                buf@,
                0,
            ) is Some ==> r.model() == dec0(*self, buf@, 0).unwrap().0->List_0[item as int],
            final(ps).writes() == old(ps).writes(),
    {
        proof {
            if (forall|i: int| 0 <= i < item ==> skippable(#[trigger] item_types(*self)[i])) && dec0(
                *self,
                buf@,
                0,
            ) is Some {
                crate::datatype::lemma_item_at_skip(*self, buf@, 0, item as int);
            }
        }
        let mut ix: usize = 0;
        self.select_value_inner(item, buf, &mut ix, store, ps)
    }

    /// Decode only the specified item of a struct row at `*ix`.
    fn select_value_inner(&self, item: usize, buf: &[u8], ix: &mut usize, store: &Store, ps: &mut PageSet) -> (r:
        Value)
        requires
            self is Struct,
            item < item_types(*self).len(),
            skip_types(item_types(*self), buf@, *old(ix) as int, item as nat) is Some,
            skip_types(item_types(*self), buf@, *old(ix) as int, item as nat).unwrap() <= usize::MAX,
            store.made(),
        ensures
            ({
                let p = skip_types(item_types(*self), buf@, *old(ix) as int, item as nat).unwrap();
                dec0(item_types(*self)[item as int], buf@, p) is Some ==> r.model() == dec0(
                    item_types(*self)[item as int],
                    buf@,
                    p,
                ).unwrap().0
            }),
            final(ps).writes() == old(ps).writes(),
    {
        let ghost ts = item_types(*self);
        let ghost pos = *ix as int;
        let mut i: usize = 0;
        while i < item
            invariant
                ts == item_types(*self),
                self is Struct,
                item < ts.len(),
                i <= item,
                skip_types(ts, buf@, pos, item as nat) is Some,
                skip_types(ts, buf@, pos, item as nat).unwrap() <= usize::MAX,
                skip_types(ts, buf@, pos, i as nat) == Some(*ix as int),
            decreases item - i,
        {
            proof {
                lemma_skip_types_mono(ts, buf@, pos, item as nat, (i + 1) as nat);
            }
            let t = self.dt_struct(i);
            t.skip_value(buf, ix);
            i += 1;
        }
        if *ix > buf.len() {
            return Value::Empty;
        }
        let t = self.dt_struct(item);
        match t.to_value(buf, ix, store, ps) {
            Some(v) => v,
            None => Value::Empty,
        }
    }
}


impl SData {
    /// The bytes from offset `at` of the data on: to the end of the page for
    /// a section of a page.
    pub open spec fn tail(self, at: int) -> Seq<u8> {
        match self {
            SData::Small(page, off, _) => page@.subrange(off + at, page@.len() as int),
            SData::Large(v) => v@.subrange(at, v@.len() as int),
        }
    }

    /// The bytes from offset `at` on.
    pub(crate) fn tail_bytes(&self, at: usize) -> (r: &[u8])
        requires
            self.wf(),
            at <= self.data().len(),
        ensures
            r@ == self.tail(at as int),
    {
        match self {
            SData::Small(page, off, _len) => {
                let n = page.len();
                &page.as_slice()[*off + at..n]
            },
            SData::Large(v) => {
                let n = v.len();
                &v.as_slice()[at..n]
            },
        }
    }

    /// Number of bytes of the data.
    pub fn data_len(&self) -> (r: usize)
        requires
            self.wf(),
        ensures
            r == self.data().len(),
    {
        match self {
            SData::Small(_, _, len) => *len,
            SData::Large(v) => v.len(),
        }
    }

    /// Decode data to Value (the data is stored directly).
    pub fn decode0(&self, dt: &DataType) -> (r: Value)
        requires
            self.wf(),
            dec0(*dt, self.tail(0), 0) is Some,
        ensures
            r.model() == dec0(*dt, self.tail(0), 0).unwrap().0,
    {
        self.decode_at0(dt, 0)
    }

    /// Decode data to Value; values stored indirectly are fetched from
    /// `store`.
    pub fn decode(&self, dt: &DataType, store: &Store, ps: &mut PageSet) -> (r: Value)
        requires
            self.wf(),
            store.made(),
        ensures
            dec0(*dt, self.tail(0), 0) is Some ==> r.model() == dec0(*dt, self.tail(0), 0).unwrap().0,
            final(ps).writes() == old(ps).writes(),
            dec_ind(*dt, self.tail(0), 0, old(ps).cache(), chunk_map(store.extra)) matches Some(
                (v, _),
            ) ==> r.model() == v && final(ps).cache() == old(ps).cache(),
    {
        self.decode_at(dt, 0, store, ps)
    }

    /// Decode data at offset to Value (the data is stored directly).
    pub fn decode_at0(&self, dt: &DataType, at: usize) -> (r: Value)
        requires
            self.wf(),
            at <= self.data().len(),
            dec0(*dt, self.tail(at as int), 0) is Some,
        ensures
            r.model() == dec0(*dt, self.tail(at as int), 0).unwrap().0,
    {
        dt.bytes_to_value0(self.tail_bytes(at))
    }

    /// Decode data at offset to Value; values stored indirectly are fetched
    /// from `store`.
    pub fn decode_at(&self, dt: &DataType, at: usize, store: &Store, ps: &mut PageSet) -> (r: Value)
        requires
            self.wf(),
            at <= self.data().len(),
            store.made(),
        ensures
            dec0(*dt, self.tail(at as int), 0) is Some ==> r.model() == dec0(
                *dt,
                self.tail(at as int),
                0,
            ).unwrap().0,
            final(ps).writes() == old(ps).writes(),
            dec_ind(*dt, self.tail(at as int), 0, old(ps).cache(), chunk_map(store.extra)) matches Some(
                (v, _),
            ) ==> r.model() == v && final(ps).cache() == old(ps).cache(),
    {
        dt.bytes_to_value(self.tail_bytes(at), store, ps)
    }

    /// Decode data, deleting any indirectly stored values.
    pub fn decode_del(&self, dt: &DataType, store: &mut Store, ps: &mut PageSet) -> (r: Value)
        requires
            self.wf(),
            old(store).made(),
            old(ps).writes(),
        ensures
            dec0(*dt, self.tail(0), 0) is Some ==> r.model() == dec0(*dt, self.tail(0), 0).unwrap().0,
            dec0(*dt, self.tail(0), 0) is Some ==> *final(store) == *old(store) && final(ps).cache()
                == old(ps).cache(),
            keeps_main(*old(store), *final(store)),
            final(store).extra.next_id == old(store).extra.next_id,
            final(store).extra.record_count <= old(store).extra.record_count,
            final(ps).writes(),
    {
        dt.bytes_to_value_del(self.tail_bytes(0), store, ps)
    }

    /// Get lazy row items: the offset of each item of the row.
    pub fn lazy_row_items(&self, dt: &DataType) -> (r: Vec<LazyItem>)
        requires
            self.wf(),
            *dt is Tuple || *dt is Struct,
            skip_types(item_types(*dt), self.tail(0), 0, item_types(*dt).len()) is Some,
            skip_types(item_types(*dt), self.tail(0), 0, item_types(*dt).len()).unwrap()
                <= usize::MAX,
        ensures
            r@.len() == item_types(*dt).len(),
            forall|i: int|
                0 <= i < r@.len() ==> #[trigger] r@[i] == LazyItem::Offset(
                    skip_types(item_types(*dt), self.tail(0), 0, i as nat).unwrap() as usize,
                ),
    {
        let data = self.tail_bytes(0);
        let mut ix: usize = 0;
        dt.lazy_row_items(data, &mut ix)
    }
}

} // verus!
