//! Store of keyed records of any length.
//!
//! A record shorter than 255 bytes is kept whole in its entry of the main
//! map, after a byte 1. A longer record is kept in chunks in the extra map:
//! its entry holds a code byte (2, 4 or 8: how many bytes hold the length),
//! the id of its first chunk (8 bytes), its length, and possibly the first
//! bytes of the record (those a key needs to check a match).

use crate::bytes::{
    get_le, le_bytes, le_value, lemma_le_bytes_len, lemma_le_roundtrip, pow256, push_le,
};
use crate::pageset::PageSet;
use crate::vbuckmap::{
    bucket_of, fx_hash, lemma_get_after_insert, page_get, stored_at, IdVKey, VBuckMap,
    VBuckMapInfo, VBuckMapIter, VKey,
};
use vstd::prelude::*;

verus! {

/// Stores keyed records: the main map of entries and its counts.
pub struct Main {
    pub vbm: VBuckMapInfo,
    /// Number of records.
    pub record_count: u64,
    /// Records number of removals, but subsequent insertions reduce this.
    pub remove_balance: u64,
    /// Changed
    pub changed: bool,
}

/// Stores records keyed by `next_id`: the chunks of large records.
pub struct Extra {
    pub next_id: u64,
    pub vbm: VBuckMapInfo,
    pub record_count: u64,
}

/// Store is similar to a VBuckMap, but allows records of any length.
pub struct Store {
    /// Stores keyed records.
    pub main: Main,
    /// Stores records keyed by extra.next_id.
    pub extra: Extra,
}

/// Number of bytes that hold the length `len` of a large record.
pub open spec fn len_code(len: nat) -> u8 {
    if len <= 0xFFFF {
        2
    } else if len <= 0xFFFF_FFFF {
        4
    } else {
        8
    }
}

/// The entry of a record `ud` in the main map, with the number of its bytes
/// kept in the entry: a small record is kept whole; a large one has the
/// code, first chunk id and length, then its first `k` bytes when a key
/// needs `k` bytes and they fit in an entry shorter than 256 bytes.
pub open spec fn entry_spec(next_id: u64, key_len: Option<usize>, ud: Seq<u8>) -> (Seq<u8>, nat) {
    let len = ud.len();
    if len < 255 {
        (seq![1u8] + ud, len)
    } else {
        let code = len_code(len);
        let head = seq![code] + le_bytes(next_id as nat, 8) + le_bytes(len, code as nat);
        match key_len {
            Some(k) => if 1 + 8 + code + k < 256 {
                (head + ud.subrange(0, k as int), k as nat)
            } else {
                (head, 0)
            },
            None => (head, 0),
        }
    }
}

/// The main map of store `s`.
pub open spec fn main_map(s: Store) -> VBuckMap {
    VBuckMap { buckets: s.main.vbm.buckets, root: s.main.vbm.root }
}

/// The main map of store `s` has the path to the bucket for `hash`, and the
/// bucket's page, in cache `c`.
pub open spec fn main_cached(s: Store, c: Map<u64, (Seq<u8>, bool)>, hash: u64) -> bool {
    let m = VBuckMap { buckets: s.main.vbm.buckets, root: s.main.vbm.root };
    &&& crate::pagetree::path_cached(
        c,
        m.root,
        crate::pagetree::spec_levels(m.buckets as nat),
        (hash % m.buckets) as nat,
    )
    &&& bucket_of(c, m, hash) != 0
    &&& c.contains_key(bucket_of(c, m, hash))
}

/// The page of the main map of store `s` for `hash` in cache `c`.
pub open spec fn main_page(s: Store, c: Map<u64, (Seq<u8>, bool)>, hash: u64) -> Seq<u8> {
    let m = VBuckMap { buckets: s.main.vbm.buckets, root: s.main.vbm.root };
    crate::pagetree::cache_page(c, bucket_of(c, m, hash))
}

/// What the entry `x` of a large record says: the id of its first chunk, its
/// length and the number of its bytes kept in the entry.
pub open spec fn parse_spec(x: Seq<u8>) -> (u64, usize, usize) {
    let code = x[0] as int;
    (
        le_value(x.subrange(1, 9)) as u64,
        le_value(x.subrange(9, 9 + code)) as usize,
        (x.len() - (9 + code)) as usize,
    )
}

/// `x` is the entry of a large record: a code of 2, 4 or 8 and room for the
/// id and the length.
pub open spec fn large_entry(x: Seq<u8>) -> bool {
    &&& x.len() >= 1
    &&& (x[0] == 2 || x[0] == 4 || x[0] == 8)
    &&& x.len() >= 9 + x[0]
}

/// The map of the chunks of large records.
pub open spec fn chunk_map(e: Extra) -> VBuckMap {
    VBuckMap { buckets: e.vbm.buckets, root: e.vbm.root }
}

/// The way to the bucket page of chunk `id` in map `m`, and that page, are
/// in cache `c` (so a lookup reads only the cache).
pub open spec fn chunk_cached(c: Map<u64, (Seq<u8>, bool)>, m: VBuckMap, id: u64) -> bool {
    let h = (IdVKey { id }).spec_hash();
    &&& crate::pagetree::path_cached(
        c,
        m.root,
        crate::pagetree::spec_levels(m.buckets as nat),
        (h % m.buckets) as nat,
    )
    &&& bucket_of(c, m, h) != 0
    &&& c.contains_key(bucket_of(c, m, h))
}

/// The data of chunk `id` in cache `c`: the bytes after the id of the record
/// that a lookup of the id finds in its bucket page, when that record is
/// longer than the id.
pub open spec fn chunk_data(c: Map<u64, (Seq<u8>, bool)>, m: VBuckMap, id: u64) -> Option<Seq<u8>> {
    let key = IdVKey { id };
    let p = bucket_of(c, m, key.spec_hash());
    let d = crate::pagetree::cache_page(c, p);
    if p == 0 || d.len() == 0 || !crate::vbucket::chains_ok(d) {
        None
    } else {
        match page_get(d, &key, key.spec_hash()) {
            Some((off, amt)) => if amt <= 8 {
                None
            } else {
                Some(d.subrange(off + 8, off + amt))
            },
            None => None,
        }
    }
}

/// The bytes that fetching `len` bytes from chunk `id` on gives: the data of
/// chunk `id`, then (while less than `len` bytes came and ids are left) those
/// of the chunks after it, stopping at the first chunk that is missing.
pub open spec fn chunks_from(c: Map<u64, (Seq<u8>, bool)>, m: VBuckMap, id: u64, len: nat) -> Seq<u8>
    decreases len,
{
    if len == 0 {
        Seq::empty()
    } else {
        match chunk_data(c, m, id) {
            Some(x) => if x.len() == 0 || x.len() >= len || id == u64::MAX {
                x
            } else {
                x + chunks_from(c, m, (id + 1) as u64, (len - x.len()) as nat)
            },
            None => Seq::empty(),
        }
    }
}

/// Every chunk that fetching `len` bytes from chunk `id` on looks up is
/// cached (see [chunk_cached]).
pub open spec fn chunks_cached(c: Map<u64, (Seq<u8>, bool)>, m: VBuckMap, id: u64, len: nat) -> bool
    decreases len,
{
    len == 0 || (chunk_cached(c, m, id) && match chunk_data(c, m, id) {
        Some(x) => x.len() == 0 || x.len() >= len || id == u64::MAX || chunks_cached(
            c,
            m,
            (id + 1) as u64,
            (len - x.len()) as nat,
        ),
        None => true,
    })
}

/// The first `len` bytes (or more) of the large record whose entry is `x`:
/// the bytes kept in the entry, then, when they are fewer than `len`, what
/// fetching the rest from its first chunk on gives.
pub open spec fn large_data(c: Map<u64, (Seq<u8>, bool)>, m: VBuckMap, x: Seq<u8>, len: nat) -> Seq<u8> {
    let head = x.subrange(9 + x[0], x.len() as int);
    if head.len() < len {
        head + chunks_from(c, m, parse_spec(x).0, (len - head.len()) as nat)
    } else {
        head
    }
}

/// Every chunk that [large_data] looks up is cached.
pub open spec fn large_cached(c: Map<u64, (Seq<u8>, bool)>, m: VBuckMap, x: Seq<u8>, len: nat) -> bool {
    let head_len = x.len() - (9 + x[0]);
    head_len >= len || chunks_cached(c, m, parse_spec(x).0, (len - head_len) as nat)
}

/// Fetching from a chunk that is missing (or holds no data) gives nothing.
proof fn lemma_chunks_none(c: Map<u64, (Seq<u8>, bool)>, m: VBuckMap, id: u64, len: nat)
    requires
        len > 0,
        chunk_cached(c, m, id),
        ({
            let key = IdVKey { id };
            let p = bucket_of(c, m, key.spec_hash());
            let d = crate::pagetree::cache_page(c, p);
            p == 0 || d.len() == 0 || !crate::vbucket::chains_ok(d) || match page_get(d, &key, key.spec_hash()) {
                Some((off, amt)) => amt <= 8,
                None => true,
            }
        }),
    ensures
        chunk_data(c, m, id) is None,
        chunks_from(c, m, id, len) == Seq::<u8>::empty(),
{
}

/// Fetching from a chunk whose data is `x`: `x`, then (unless `x` covers
/// what is left or no id is left) what fetching from the next chunk gives.
proof fn lemma_chunks_step(c: Map<u64, (Seq<u8>, bool)>, m: VBuckMap, id: u64, len: nat, x: Seq<u8>)
    requires
        len > 0,
        ({
            let key = IdVKey { id };
            let p = bucket_of(c, m, key.spec_hash());
            let d = crate::pagetree::cache_page(c, p);
            &&& p != 0
            &&& d.len() > 0
            &&& crate::vbucket::chains_ok(d)
            &&& page_get(d, &key, key.spec_hash()) matches Some((off, amt)) && amt > 8 && off
                + amt <= d.len() && x == d.subrange(off + 8, off + amt)
        }),
    ensures
        chunk_data(c, m, id) == Some(x),
        x.len() > 0,
        x.len() >= len || id == u64::MAX ==> chunks_from(c, m, id, len) == x,
        !(x.len() >= len || id == u64::MAX) ==> chunks_from(c, m, id, len) == x + chunks_from(
            c,
            m,
            (id + 1) as u64,
            (len - x.len()) as nat,
        ) && (chunks_cached(c, m, id, len) ==> chunks_cached(
            c,
            m,
            (id + 1) as u64,
            (len - x.len()) as nat,
        )),
{
}

impl Extra {
    /// Returns chunk start id, length of user data and non-chunk length.
    pub fn parse_x(&self, x: &[u8]) -> (r: (u64, usize, usize))
        requires
            large_entry(x@),
        ensures
            r == parse_spec(x@),
    {
        let code = x[0];
        let id = get_le(x, 1, 8);
        let len = get_le(x, 9, code as usize) as usize;
        let over = 1 + 8 + code as usize;  // Number of non user-data bytes stored in x.
        let local = x.len() - over;  // Number of user_data bytes stored in x.
        (id, len, local)
    }
}

impl Default for Store {
    /// An empty store whose maps are not made yet.
    fn default() -> (r: Self)
        ensures
            r.main.record_count == 0,
            r.main.remove_balance == 0,
            !r.main.changed,
            r.main.vbm == (VBuckMapInfo { root: 0, buckets: 0 }),
            r.extra.next_id == 0,
            r.extra.record_count == 0,
            r.extra.vbm == (VBuckMapInfo { root: 0, buckets: 0 }),
    {
        Store {
            main: Main {
                vbm: VBuckMapInfo { root: 0, buckets: 0 },
                record_count: 0,
                remove_balance: 0,
                changed: false,
            },
            extra: Extra { next_id: 0, vbm: VBuckMapInfo { root: 0, buckets: 0 }, record_count: 0 },
        }
    }
}

impl Store {
    /// Number of records.
    pub fn record_count(&self) -> (r: u64)
        ensures
            r == self.main.record_count,
    {
        self.main.record_count
    }

    /// Whether the store has changed since it was last saved, clearing the
    /// mark: a store is saved (as bytes) only when this gives true.
    pub fn take_changed(&mut self) -> (r: bool)
        ensures
            r == old(self).main.changed,
            !final(self).main.changed,
            final(self).main.vbm == old(self).main.vbm,
            final(self).main.record_count == old(self).main.record_count,
            final(self).main.remove_balance == old(self).main.remove_balance,
            final(self).extra == old(self).extra,
    {
        let r = self.main.changed;
        self.main.changed = false;
        r
    }

    /// Has store changed?
    pub fn changed(&self) -> (r: bool)
        ensures
            r == self.main.changed,
    {
        self.main.changed
    }

    /// The entry that records `user_data` in the main map, and the number of
    /// its bytes kept in the entry (the rest goes to chunks, from the next
    /// chunk id). `key_len` is the number of bytes a key needs, if known.
    pub fn entry_bytes(&self, key_len: Option<usize>, user_data: &[u8]) -> (r: (Vec<u8>, usize))
        requires
            user_data@.len() >= 255 && key_len is Some ==> key_len.unwrap() <= user_data@.len(),
        ensures
            r.0@ == entry_spec(self.extra.next_id, key_len, user_data@).0,
            r.1 == entry_spec(self.extra.next_id, key_len, user_data@).1,
    {
        let len = user_data.len();
        let mut x: Vec<u8> = Vec::new();
        if len < 255 {
            x.push(1);  // Small record.
            x.extend_from_slice(user_data);
            proof {
                assert(x@ =~= seq![1u8] + user_data@);
            }
            return (x, len);
        }
        // Code is number of bytes required to store length of user_data (2, 4 or 8 ).

        let code: u8 = if len as u64 <= 0xFFFF {
            2
        } else if len as u64 <= 0xFFFF_FFFF {
            4
        } else {
            8
        };
        x.push(code);
        push_le(&mut x, self.extra.next_id, 8);
        push_le(&mut x, len as u64, code as usize);
        let ghost head = x@;
        proof {
            assert(head =~= seq![code] + le_bytes(self.extra.next_id as nat, 8) + le_bytes(
                len as nat,
                code as nat,
            ));
        }
        let mut done: usize = 0;
        if let Some(klen) = key_len {
            if klen < 256 - 9 - code as usize {
                // Store key bytes in x, makes rehash and ok more efficient.
                let mut i: usize = 0;
                while i < klen
                    invariant
                        klen <= user_data@.len(),
                        i <= klen,
                        x@ == head + user_data@.subrange(0, i as int),
                    decreases klen - i,
                {
                    x.push(user_data[i]);
                    i += 1;
                    proof {
                        assert(x@ =~= head + user_data@.subrange(0, i as int));
                    }
                }
                done = klen;
            }
        }
        (x, done)
    }
}

/// An entry is shorter than 256 bytes.
pub proof fn lemma_entry_len(next_id: u64, key_len: Option<usize>, ud: Seq<u8>)
    requires
        ud.len() >= 255 && key_len is Some ==> key_len.unwrap() <= ud.len(),
    ensures
        entry_spec(next_id, key_len, ud).0.len() < 256,
        entry_spec(next_id, key_len, ud).1 <= ud.len(),
{
    if ud.len() >= 255 {
        let len = ud.len();
        let code = len_code(len);
        lemma_le_bytes_len(next_id as nat, 8);
        lemma_le_bytes_len(len, code as nat);
    }
}

/// Reading back the entry of a large record gives the next chunk id, the
/// record's length and the number of its bytes kept in the entry.
pub proof fn lemma_entry_parse(next_id: u64, key_len: Option<usize>, ud: Seq<u8>)
    requires
        ud.len() >= 255,
        ud.len() <= usize::MAX,
        key_len is Some ==> key_len.unwrap() <= ud.len(),
    ensures
        large_entry(entry_spec(next_id, key_len, ud).0),
        parse_spec(entry_spec(next_id, key_len, ud).0) == (
            next_id,
            ud.len() as usize,
            entry_spec(next_id, key_len, ud).1 as usize,
        ),
{
    let len = ud.len();
    let code = len_code(len);
    let x = entry_spec(next_id, key_len, ud).0;
    lemma_le_bytes_len(next_id as nat, 8);
    lemma_le_bytes_len(len, code as nat);
    assert(x.subrange(1, 9) =~= le_bytes(next_id as nat, 8));
    assert(x.subrange(9, 9 + code) =~= le_bytes(len, code as nat));
    assert(pow256(2) == 0x1_0000) by {
        reveal_with_fuel(pow256, 3);
    }
    assert(pow256(4) == 0x1_0000_0000) by {
        reveal_with_fuel(pow256, 5);
    }
    crate::bytes::lemma_pow256_8();
    lemma_le_roundtrip(next_id as nat, 8);
    lemma_le_roundtrip(len, code as nat);
}

/// The bytes of an entry that a key is matched against: those after the 1
/// of a small record; the record bytes kept in a large record's entry, when
/// they are at least as many as the key needs.
pub open spec fn key_bytes<K: VKey>(key: &K, x: Seq<u8>) -> Option<Seq<u8>> {
    if x.len() >= 1 && x[0] == 1 {
        Some(x.subrange(1, x.len() as int))
    } else if large_entry(x) && key.spec_len() is Some && x.len() - (9 + x[0]) >= key.spec_len().unwrap() {
        Some(x.subrange(9 + x[0], x.len() as int))
    } else {
        None
    }
}

/// The bytes of entry `x` that `key` is matched against (see [key_bytes]).
fn entry_key_bytes<'b, K: VKey>(key: &K, x: &'b [u8]) -> (r: Option<&'b [u8]>)
    ensures
        match r {
            Some(b) => key_bytes(key, x@) == Some(b@),
            None => key_bytes(key, x@) is None,
        },
{
    let n = x.len();
    if n >= 1 && x[0] == 1 {
        return Some(&x[1..n]);
    }
    if n >= 1 && (x[0] == 2 || x[0] == 4 || x[0] == 8) && n >= 9 + x[0] as usize {
        let over = 9 + x[0] as usize;
        if let Some(k) = key.len() {
            if n - over >= k {
                return Some(&x[over..n]);
            }
        }
    }
    None
}

/// Key of the main map of a [Store]: the user's key, matched against what an
/// entry holds of the record. A large record matches only when its entry
/// keeps as many of its bytes as the key needs (the store keeps them for
/// keys that say how many they need).
pub struct StoreKey<'a, K: VKey> {
    pub key: &'a K,
}

impl<'a, K: VKey> VKey for StoreKey<'a, K> {
    open spec fn matches(&self, bytes: Seq<u8>) -> bool {
        match key_bytes(self.key, bytes) {
            Some(b) => self.key.matches(b),
            None => false,
        }
    }

    open spec fn spec_hash(&self) -> u64 {
        self.key.spec_hash()
    }

    fn ok(&self, bytes: &[u8]) -> (r: bool) {
        match entry_key_bytes(self.key, bytes) {
            Some(b) => self.key.ok(b),
            None => false,
        }
    }

    fn hash(&self) -> (r: u64) {
        self.key.hash()
    }

    open spec fn rehash_ok(&self, bytes: Seq<u8>) -> bool {
        match key_bytes(self.key, bytes) {
            Some(b) => self.key.rehash_ok(b),
            None => false,
        }
    }

    open spec fn spec_rehash(&self, bytes: Seq<u8>) -> u64 {
        self.key.spec_rehash(key_bytes(self.key, bytes).unwrap())
    }

    fn can_rehash(&self, bytes: &[u8]) -> (r: bool) {
        match entry_key_bytes(self.key, bytes) {
            Some(b) => self.key.can_rehash(b),
            None => false,
        }
    }

    fn rehash(&self, bytes: &[u8]) -> (r: u64) {
        match entry_key_bytes(self.key, bytes) {
            Some(b) => self.key.rehash(b),
            None => vstd::pervasive::unreached(),
        }
    }

    open spec fn spec_len(&self) -> Option<usize> {
        None
    }

    fn len(&self) -> (r: Option<usize>) {
        None
    }
}

/// Store Data, returned by [Store::get].
pub enum SData {
    /// Data is a section of a page: the page's bytes, offset and length.
    Small(Vec<u8>, usize, usize),
    /// Data put together from Extra.
    Large(Vec<u8>),
}

impl SData {
    /// The bytes of the data.
    pub open spec fn data(self) -> Seq<u8> {
        match self {
            SData::Small(page, off, len) => page@.subrange(off as int, off + len),
            SData::Large(v) => v@,
        }
    }

    /// The data is well formed: a small section lies within its page.
    pub open spec fn wf(self) -> bool {
        match self {
            SData::Small(page, off, len) => off + len <= page@.len(),
            SData::Large(_) => true,
        }
    }

    /// Get SData bytes.
    pub fn bytes(&self) -> (r: Vec<u8>)
        requires
            self.wf(),
        ensures
            r@ == self.data(),
    {
        match self {
            SData::Small(page, off, len) => {
                let mut r: Vec<u8> = Vec::new();
                let _n = page.len();
                let end = *off + *len;
                let mut i: usize = *off;
                while i < end
                    invariant
                        end == *off + *len,
                        end <= page@.len(),
                        *off <= i <= end,
                        r@ == page@.subrange(*off as int, i as int),
                    decreases end - i,
                {
                    r.push(page[i]);
                    i += 1;
                    proof {
                        assert(r@ =~= page@.subrange(*off as int, i as int));
                    }
                }
                r
            },
            SData::Large(v) => {
                let mut r: Vec<u8> = Vec::new();
                r.extend_from_slice(v.as_slice());
                r
            },
        }
    }
}

/// Largest amount of user data in one chunk (a chunk record also holds its
/// 8-byte id).
pub const CHUNK: usize = 247;

/// Number of chunks that hold `len` bytes of data.
pub open spec fn chunk_count(len: nat) -> nat {
    (len + 246) / 247
}

/// The id of the last chunk of `len` bytes (`len > 0`) stored from chunk id
/// `id`.
pub open spec fn last_chunk_id(id: nat, len: nat) -> nat {
    (id + chunk_count(len) - 1) as nat
}

/// The offset in the data of the bytes of its last chunk (`len > 0`).
pub open spec fn last_chunk_start(len: nat) -> nat {
    ((chunk_count(len) - 1) * 247) as nat
}

/// The next chunk id after storing `len` bytes from chunk id `id` (ids stop
/// growing at the largest `u64`).
pub open spec fn id_after(id: nat, len: nat) -> nat {
    if id + chunk_count(len) <= u64::MAX {
        id + chunk_count(len)
    } else {
        u64::MAX as nat
    }
}

/// The ids of [Store::store] from store `s0` to store `s1`: data of `len`
/// bytes gets the next chunk id, `r`, and the next id moves past its chunks.
pub open spec fn store_ids(s0: Store, s1: Store, r: u64, len: nat) -> bool {
    &&& r == s0.extra.next_id
    &&& s1.extra.next_id == id_after(s0.extra.next_id as nat, len)
}

/// Data stored one after another get ids apart: the second gets the id
/// right after the chunks of the first, so no chunk id is handed out twice
/// (while ids stay within `u64`); data that is not empty takes at least one
/// id.
pub proof fn lemma_store_ids_apart(s0: Store, s1: Store, s2: Store, a: u64, b: u64, n1: nat, n2: nat)
    requires
        store_ids(s0, s1, a, n1),
        store_ids(s1, s2, b, n2),
        a + chunk_count(n1) <= u64::MAX,
    ensures
        b == a + chunk_count(n1),
        n1 > 0 ==> a < b,
{
}

impl Extra {
    /// Append to `to` the bytes of `len` bytes of chunks from chunk `id` on
    /// (the chunks found: reading stops at a missing or empty chunk).
    fn do_fetch_chunks(&self, id: u64, len: usize, to: &mut Vec<u8>, ps: &mut PageSet)
        requires
            self.vbm.buckets > 0,
        ensures
            final(to)@.len() >= old(to)@.len(),
            final(to)@.subrange(0, old(to)@.len() as int) == old(to)@,
            final(ps).writes() == old(ps).writes(),
            chunks_cached(old(ps).cache(), chunk_map(*self), id, len as nat) ==> final(ps).cache()
                == old(ps).cache() && final(to)@ == old(to)@ + chunks_from(
                old(ps).cache(),
                chunk_map(*self),
                id,
                len as nat,
            ),
    {
        let em = VBuckMap::restore(self.vbm);
        let mut done: usize = 0;
        let mut id = id;
        let ghost start = to@;
        let ghost c0 = ps.cache();
        let ghost m = chunk_map(*self);
        let ghost id0 = id;
        let ghost ok = chunks_cached(c0, m, id0, len as nat);
        proof {
            assert(to@ + chunks_from(c0, m, id0, len as nat) == start + chunks_from(c0, m, id0, len as nat));
        }
        while done < len
            invariant_except_break
                ok ==> ps.cache() == c0 && chunks_cached(c0, m, id, (len - done) as nat) && to@
                    + chunks_from(c0, m, id, (len - done) as nat) == start + chunks_from(
                    c0,
                    m,
                    id0,
                    len as nat,
                ),
            invariant
                em.buckets > 0,
                em == m,
                done <= len,
                to@.len() >= start.len(),
                to@.subrange(0, start.len() as int) == start,
                ps.writes() == old(ps).writes(),
                ok == chunks_cached(c0, m, id0, len as nat),
            ensures
                ok ==> ps.cache() == c0 && to@ == start + chunks_from(c0, m, id0, len as nat),
            decreases len - done,
        {
            let key = IdVKey { id };
            let ghost rem = (len - done) as nat;
            let ghost before = to@;
            match em.get(&key, ps) {
                Some((rdata, off, amt)) => {
                    // The chunk record holds its id, then the data.
                    if amt <= 8 {
                        proof {
                            if ok {
                                lemma_chunks_none(c0, m, id, rem);
                            }
                        }
                        break;
                    }
                    let mut i = off + 8;
                    let end = off + amt;
                    while i < end
                        invariant
                            end <= rdata@.len(),
                            off + 8 <= i <= end,
                            to@ == before + rdata@.subrange(off + 8, i as int),
                        decreases end - i,
                    {
                        to.push(rdata[i]);
                        i += 1;
                        proof {
                            assert(to@ =~= before + rdata@.subrange(off + 8, i as int));
                        }
                    }
                    let ghost x = rdata@.subrange(off + 8, off + amt);
                    proof {
                        assert(to@.subrange(0, start.len() as int) =~= before.subrange(0, start.len() as int));
                        if ok {
                            lemma_chunks_step(c0, m, id, rem, x);
                        }
                    }
                    if amt - 8 >= len - done || id == u64::MAX {
                        break;
                    }
                    done += amt - 8;
                    id += 1;
                    proof {
                        if ok {
                            assert(to@ + chunks_from(c0, m, id, (len - done) as nat) =~= before + (x
                                + chunks_from(c0, m, id, (len - done) as nat)));
                        }
                    }
                },
                None => {
                    proof {
                        if ok {
                            lemma_chunks_none(c0, m, id, rem);
                        }
                    }
                    break;
                },
            }
        }
    }

    /// Fetch len bytes of chunk data ( including any data stored in x ):
    /// the bytes kept in the entry `x`, then those of its chunks.
    fn chunks(&self, x: &[u8], len: usize, ps: &mut PageSet) -> (r: Vec<u8>)
        requires
            self.vbm.buckets > 0,
            large_entry(x@),
        ensures
            r@.len() >= x@.len() - (9 + x@[0]),
            r@.subrange(0, x@.len() - (9 + x@[0])) == x@.subrange(9 + x@[0], x@.len() as int),
            final(ps).writes() == old(ps).writes(),
            large_cached(old(ps).cache(), chunk_map(*self), x@, len as nat) ==> final(ps).cache()
                == old(ps).cache() && r@ == large_data(old(ps).cache(), chunk_map(*self), x@, len as nat),
    {
        let mut result: Vec<u8> = Vec::new();
        let code = x[0];
        let over = 1 + 8 + code as usize;  // Number of non user-data bytes stored in x.
        let local = x.len() - over;  // Number of user_data bytes stored in x.
        let mut i = over;
        while i < x.len()
            invariant
                over <= i <= x@.len(),
                result@ == x@.subrange(over as int, i as int),
            decreases x@.len() - i,
        {
            result.push(x[i]);
            i += 1;
            proof {
                assert(result@ =~= x@.subrange(over as int, i as int));
            }
        }
        proof {
            assert(x@.subrange(over as int, x@.len() as int) =~= x@.subrange(over as int, i as int));
        }
        if local < len {
            let id = get_le(x, 1, 8);
            self.do_fetch_chunks(id, len - local, &mut result, ps);
        }
        result
    }

    /// Fetch all chunk data.
    fn fetch_chunks(&self, x: &[u8], ps: &mut PageSet) -> (r: Vec<u8>)
        requires
            self.vbm.buckets > 0,
            large_entry(x@),
        ensures
            r@.len() >= x@.len() - (9 + x@[0]),
            r@.subrange(0, x@.len() - (9 + x@[0])) == x@.subrange(9 + x@[0], x@.len() as int),
            final(ps).writes() == old(ps).writes(),
            large_cached(old(ps).cache(), chunk_map(*self), x@, parse_spec(x@).1 as nat) ==> final(ps).cache()
                == old(ps).cache() && r@ == large_data(
                old(ps).cache(),
                chunk_map(*self),
                x@,
                parse_spec(x@).1 as nat,
            ),
    {
        let (_, len, _) = self.parse_x(x);
        self.chunks(x, len, ps)
    }

    /// Store arbitrary size data in chunks, returns the id of the first.
    fn store(&mut self, user_data: &[u8], ps: &mut PageSet) -> (r: u64)
        requires
            old(self).vbm.buckets > 0,
            old(ps).writes(),
            old(self).record_count < u64::MAX,
        ensures
            r == old(self).next_id,
            final(self).next_id == id_after(old(self).next_id as nat, user_data@.len()),
            final(self).record_count == old(self).record_count + 1,
            final(self).vbm.buckets > 0,
            final(ps).writes(),
            0 < user_data@.len() <= CHUNK ==> final(self).vbm.buckets > crate::vbuckmap::max_expand()
                || exists|p: u64|
                #[trigger] stored_at(
                    final(ps).cache(),
                    chunk_map(*final(self)),
                    p,
                    fx_hash(r),
                    le_bytes(r as nat, 8) + user_data@,
                ),
            0 < user_data@.len() && old(self).next_id + chunk_count(user_data@.len()) <= u64::MAX
                ==> final(self).vbm.buckets > crate::vbuckmap::max_expand() || exists|p: u64|
                #[trigger] stored_at(
                    final(ps).cache(),
                    chunk_map(*final(self)),
                    p,
                    fx_hash(last_chunk_id(r as nat, user_data@.len()) as u64),
                    le_bytes(last_chunk_id(r as nat, user_data@.len()), 8) + user_data@.subrange(
                        last_chunk_start(user_data@.len()) as int,
                        user_data@.len() as int,
                    ),
                ),
    {
        let result = self.next_id;
        let mut id = result;
        let mut em = VBuckMap::restore(self.vbm);
        let mut done: usize = 0;
        let mut todo = user_data.len();
        let ghost mut stored = false;
        let ghost mut last_id: u64 = 0;
        let ghost mut last_start: int = 0;
        let ghost mut last_end: int = 0;
        while todo > 0
            invariant_except_break
                done + todo == user_data@.len(),
                todo > 0 ==> done % 247 == 0,
                id - result == (done + 246) / 247,
                stored <==> done > 0,
                stored ==> last_end == done && last_id + 1 == id && last_start % 247 == 0
                    && last_start < done <= last_start + 247 && last_id == result + last_start / 247,
            invariant
                user_data@.len() <= usize::MAX,
                em.buckets > 0,
                ps.writes(),
                id >= result,
                stored ==> 0 <= last_start <= last_end <= user_data@.len(),
                stored ==> em.buckets > crate::vbuckmap::max_expand() || exists|p: u64|
                    #[trigger] stored_at(
                        ps.cache(),
                        em,
                        p,
                        fx_hash(last_id),
                        le_bytes(last_id as nat, 8) + user_data@.subrange(last_start, last_end),
                    ),
                stored && user_data@.len() <= CHUNK ==> em.buckets > crate::vbuckmap::max_expand()
                    || exists|p: u64|
                    #[trigger] stored_at(
                        ps.cache(),
                        em,
                        p,
                        fx_hash(result),
                        le_bytes(result as nat, 8) + user_data@,
                    ),
            ensures
                id == id_after(result as nat, user_data@.len()),
                user_data@.len() > 0 ==> stored,
                user_data@.len() > 0 && result + chunk_count(user_data@.len()) <= u64::MAX ==> last_end
                    == user_data@.len() && last_id == last_chunk_id(result as nat, user_data@.len())
                    && last_start == last_chunk_start(user_data@.len()),
            decreases todo,
        {
            let mut amount = CHUNK;  // Chunk size, considering id takes 8 bytes.
            if amount > todo {
                amount = todo;
            }
            let mut t: Vec<u8> = Vec::new();
            push_le(&mut t, id, 8);
            t.extend_from_slice(&user_data[done..done + amount]);
            proof {
                crate::bytes::lemma_le_bytes_len(id as nat, 8);
            }
            let key = IdVKey { id };
            em.insert(&key, t.as_slice(), ps);
            proof {
                if !stored {
                    assert(done == 0 && id == result);
                    if user_data@.len() <= CHUNK {
                        assert(amount == user_data@.len());
                        assert(user_data@.subrange(0, amount as int) =~= user_data@);
                        assert(t@ == le_bytes(result as nat, 8) + user_data@);
                        assert(key.spec_hash() == fx_hash(result));
                    }
                } else {
                    assert(user_data@.len() > CHUNK) by {
                        assert(done > 0 && done % 247 == 0);
                    }
                }
                assert(t@ == le_bytes(id as nat, 8) + user_data@.subrange(done as int, done + amount));
                stored = true;
                last_id = id;
                last_start = done as int;
                last_end = done + amount;
                assert((done + amount + 246) / 247 == (done + 246) / 247 + 1);
                assert(chunk_count(user_data@.len()) >= (done + amount + 246) / 247) by (nonlinear_arith)
                    requires
                        done + amount <= user_data@.len(),
                ;
            }
            if id == u64::MAX {
                break;
            }
            id += 1;
            todo -= amount;
            done += amount;
        }
        self.next_id = id;
        self.vbm = em.save();
        self.record_count += 1;
        proof {
            assert(chunk_map(*self) == em);
            let len = user_data@.len();
            if 0 < len && result + chunk_count(len) <= u64::MAX {
                assert(last_chunk_id(result as nat, len) as u64 == last_id);
                if em.buckets <= crate::vbuckmap::max_expand() {
                    let p = choose|p: u64|
                        #[trigger] stored_at(
                            ps.cache(),
                            em,
                            p,
                            fx_hash(last_id),
                            le_bytes(last_id as nat, 8) + user_data@.subrange(last_start, last_end),
                        );
                    assert(stored_at(
                        ps.cache(),
                        chunk_map(*self),
                        p,
                        fx_hash(last_chunk_id(result as nat, len) as u64),
                        le_bytes(last_chunk_id(result as nat, len), 8) + user_data@.subrange(
                            last_chunk_start(len) as int,
                            len as int,
                        ),
                    ));
                }
            }
        }
        result
    }
}

impl Store {
    /// Start a new store.
    pub fn new(ps: &mut PageSet) -> (r: Self)
        requires
            old(ps).writes(),
        ensures
            r.main.record_count == 0,
            r.main.remove_balance == 0,
            !r.main.changed,
            r.main.vbm.buckets == 1,
            r.extra.vbm.buckets == 1,
            r.extra.next_id == 1,
            r.extra.record_count == 0,
            final(ps).writes(),
    {
        let vbm1 = VBuckMap::new(1, ps).save();
        let vbm2 = VBuckMap::new(1, ps).save();
        Self {
            main: Main { vbm: vbm1, record_count: 0, remove_balance: 0, changed: false },
            extra: Extra { vbm: vbm2, next_id: 1, record_count: 0 },
        }
    }

    /// The maps of the store have buckets (they are made).
    pub open spec fn made(&self) -> bool {
        self.main.vbm.buckets > 0 && self.extra.vbm.buckets > 0
    }

    /// Insert user_data, must not be a duplicate key ( but this is not
    /// checked ). A key that says how many bytes it needs must need no more
    /// than the record has.
    pub fn insert<K: VKey>(&mut self, key: &K, user_data: &[u8], ps: &mut PageSet)
        requires
            old(self).made(),
            old(ps).writes(),
            old(self).main.record_count < u64::MAX,
            old(self).extra.record_count < u64::MAX,
            user_data@.len() >= 255 && key.spec_len() is Some ==> key.spec_len().unwrap()
                <= user_data@.len(),
        ensures
            final(self).made(),
            final(ps).writes(),
            final(self).main.record_count == old(self).main.record_count + 1,
            final(self).main.changed,
            final(self).main.remove_balance == if old(self).main.remove_balance > 0 {
                (old(self).main.remove_balance - 1) as u64
            } else {
                0
            },
            final(self).main.vbm.buckets > crate::vbuckmap::max_expand() || exists|p: u64|
                #[trigger] stored_at(
                    final(ps).cache(),
                    (VBuckMap { buckets: final(self).main.vbm.buckets, root: final(self).main.vbm.root }),
                    p,
                    key.spec_hash(),
                    entry_spec(old(self).extra.next_id, key.spec_len(), user_data@).0,
                ),
    {
        let klen = key.len();
        let (x, done) = self.entry_bytes(klen, user_data);
        proof {
            lemma_entry_len(self.extra.next_id, klen, user_data@);
        }
        if user_data.len() >= 255 {
            // Store user_data as chunks.
            self.store(&user_data[done..user_data.len()], ps);
        }
        let mut m = VBuckMap::restore(self.main.vbm);
        let skey = StoreKey { key };
        m.insert(&skey, x.as_slice(), ps);
        self.main.vbm = m.save();
        self.main.record_count += 1;
        self.main.changed = true;
        if self.main.remove_balance > 0 {
            self.main.remove_balance -= 1;
        }
    }

    /// Store arbitrary size data, returns id. Use fetch to get it back.
    pub fn store(&mut self, user_data: &[u8], ps: &mut PageSet) -> (r: u64)
        requires
            old(self).made(),
            old(ps).writes(),
            old(self).extra.record_count < u64::MAX,
        ensures
            store_ids(*old(self), *final(self), r, user_data@.len()),
            final(self).made(),
            final(self).main.vbm == old(self).main.vbm,
            final(self).main.record_count == old(self).main.record_count,
            final(self).main.remove_balance == old(self).main.remove_balance,
            final(self).main.changed,
            final(self).extra.record_count == old(self).extra.record_count + 1,
            final(ps).writes(),
            0 < user_data@.len() <= CHUNK ==> final(self).extra.vbm.buckets > crate::vbuckmap::max_expand()
                || exists|p: u64|
                #[trigger] stored_at(
                    final(ps).cache(),
                    chunk_map(final(self).extra),
                    p,
                    fx_hash(r),
                    le_bytes(r as nat, 8) + user_data@,
                ),
            0 < user_data@.len() && old(self).extra.next_id + chunk_count(user_data@.len())
                <= u64::MAX ==> final(self).extra.vbm.buckets > crate::vbuckmap::max_expand()
                || exists|p: u64|
                #[trigger] stored_at(
                    final(ps).cache(),
                    chunk_map(final(self).extra),
                    p,
                    fx_hash(last_chunk_id(r as nat, user_data@.len()) as u64),
                    le_bytes(last_chunk_id(r as nat, user_data@.len()), 8) + user_data@.subrange(
                        last_chunk_start(user_data@.len()) as int,
                        user_data@.len() as int,
                    ),
                ),
    {
        let result = self.extra.store(user_data, ps);
        self.main.changed = true;
        result
    }

    /// Fetch stored data, len must not exceed len of stored user_data.
    pub fn fetch(&self, id: u64, len: usize, ps: &mut PageSet) -> (r: Vec<u8>)
        requires
            self.made(),
        ensures
            final(ps).writes() == old(ps).writes(),
            chunks_cached(old(ps).cache(), chunk_map(self.extra), id, len as nat) ==> final(ps).cache()
                == old(ps).cache() && r@ == chunks_from(old(ps).cache(), chunk_map(self.extra), id, len as nat),
    {
        let mut result: Vec<u8> = Vec::new();
        self.extra.do_fetch_chunks(id, len, &mut result, ps);
        proof {
            assert(Seq::<u8>::empty() + chunks_from(old(ps).cache(), chunk_map(self.extra), id, len as nat)
                =~= chunks_from(old(ps).cache(), chunk_map(self.extra), id, len as nat));
        }
        result
    }

    /// Delete stored data, len must be equal to original len of stored
    /// user_data (deleting stops at a missing chunk).
    pub fn delete(&mut self, id: u64, len: usize, ps: &mut PageSet)
        requires
            old(self).made(),
            old(ps).writes(),
        ensures
            final(self).made(),
            final(self).main.vbm == old(self).main.vbm,
            final(self).main.record_count == old(self).main.record_count,
            final(self).main.remove_balance == old(self).main.remove_balance,
            final(self).main.changed,
            final(self).extra.next_id == old(self).extra.next_id,
            final(self).extra.record_count == if old(self).extra.record_count > 0 {
                (old(self).extra.record_count - 1) as u64
            } else {
                0
            },
            final(ps).writes(),
    {
        let mut em = VBuckMap::restore(self.extra.vbm);
        let mut done: usize = 0;
        let mut id = id;
        while done < len
            invariant
                em.buckets > 0,
                em.buckets == self.extra.vbm.buckets,
                ps.writes(),
            decreases len - done,
        {
            let key = IdVKey { id };
            let amt = em.remove(&key, ps);
            if amt == 0 || amt >= len - done || id == u64::MAX {
                break;
            }
            done += amt;
            id += 1;
        }
        self.extra.vbm = em.save();  // Not necessary currently.
        if self.extra.record_count > 0 {
            self.extra.record_count -= 1;
        }
        self.main.changed = true;
    }

    /// Get data for specified key, returns SData, or None if key not found.
    pub fn get<K: VKey>(&self, key: &K, ps: &mut PageSet) -> (r: Option<SData>)
        requires
            self.made(),
        ensures
            final(ps).writes() == old(ps).writes(),
            match r {
                Some(sd) => sd.wf(),
                None => true,
            },
            main_cached(*self, old(ps).cache(), key.spec_hash()) ==> ({
                let d = main_page(*self, old(ps).cache(), key.spec_hash());
                let skey = StoreKey { key };
                match r {
                    Some(SData::Small(page, off, len)) => page@ == d && off >= 1 && page_get(
                        d,
                        &skey,
                        key.spec_hash(),
                    ) == Some(((off - 1) as usize, (len + 1) as usize)) && d[off - 1] == 1,
                    Some(SData::Large(v)) => crate::vbucket::chains_ok(d) && (page_get(
                        d,
                        &skey,
                        key.spec_hash(),
                    ) matches Some((o, l)) && o < d.len() && d[o as int] != 1 && (large_cached(
                        old(ps).cache(),
                        chunk_map(self.extra),
                        d.subrange(o as int, o + l),
                        parse_spec(d.subrange(o as int, o + l)).1 as nat,
                    ) ==> v@ == large_data(
                        old(ps).cache(),
                        chunk_map(self.extra),
                        d.subrange(o as int, o + l),
                        parse_spec(d.subrange(o as int, o + l)).1 as nat,
                    ))),
                    None => d.len() == 0 || !crate::vbucket::chains_ok(d) || page_get(
                        d,
                        &skey,
                        key.spec_hash(),
                    ) is None,
                }
            }),
            ({
                let m = (VBuckMap { buckets: self.main.vbm.buckets, root: self.main.vbm.root });
                let c = old(ps).cache();
                let level = crate::pagetree::spec_levels(m.buckets as nat);
                let ix = (key.spec_hash() % m.buckets) as nat;
                crate::pagetree::path_cached(c, m.root, level, ix) && bucket_of(c, m, key.spec_hash()) != 0
                    && c.contains_key(bucket_of(c, m, key.spec_hash())) && (r matches Some(
                    SData::Small(_, _, _),
                ) || r is None) ==> final(ps).cache() == c
            }),
            ({
                let m = (VBuckMap { buckets: self.main.vbm.buckets, root: self.main.vbm.root });
                let c = final(ps).cache();
                let p = bucket_of(c, m, key.spec_hash());
                let d = crate::pagetree::cache_page(c, p);
                match r {
                    Some(SData::Small(page, off, len)) => page@ == d && off >= 1 && page_get(
                        d,
                        &StoreKey { key },
                        key.spec_hash(),
                    ) == Some(((off - 1) as usize, (len + 1) as usize)) && d[off - 1] == 1,
                    Some(SData::Large(_)) => true,
                    None => p == 0 || d.len() == 0 || !crate::vbucket::chains_ok(d) || page_get(
                        d,
                        &StoreKey { key },
                        key.spec_hash(),
                    ) is None,
                }
            }),
    {
        let m = VBuckMap::restore(self.main.vbm);
        let skey = StoreKey { key };
        let got = m.get(&skey, ps);
        let ghost c1 = ps.cache();
        match got {
            Some((page, off, len)) => {
                if page[off] == 1 {
                    Some(SData::Small(page, off + 1, len - 1))
                } else {
                    let v = self.extra.fetch_chunks(&page[off..off + len], ps);
                    Some(SData::Large(v))
                }
            },
            None => None,
        }
    }
}

impl Store {
    /// Same as insert, but removes any existing record before inserting.
    pub fn replace<K: VKey>(&mut self, key: &K, user_data: &[u8], ps: &mut PageSet)
        requires
            old(self).made(),
            old(ps).writes(),
            old(self).main.record_count < u64::MAX,
            old(self).extra.record_count < u64::MAX,
            old(self).main.remove_balance < u64::MAX,
            user_data@.len() >= 255 && key.spec_len() is Some ==> key.spec_len().unwrap()
                <= user_data@.len(),
        ensures
            final(self).made(),
            final(ps).writes(),
            final(self).main.changed,
            final(self).main.record_count == old(self).main.record_count + 1 || (old(
                self,
            ).main.record_count > 0 && final(self).main.record_count
                == old(self).main.record_count),
            final(self).main.vbm.buckets > crate::vbuckmap::max_expand() || exists|p: u64|
                #[trigger] stored_at(
                    final(ps).cache(),
                    (VBuckMap { buckets: final(self).main.vbm.buckets, root: final(self).main.vbm.root }),
                    p,
                    key.spec_hash(),
                    entry_spec(old(self).extra.next_id, key.spec_len(), user_data@).0,
                ),
    {
        self.remove(key, ps);
        self.insert(key, user_data, ps);
    }

    /// Remove specified key: its entry leaves the main map, and the chunks
    /// of a large record are deleted. Returns whether the key was found.
    pub fn remove<K: VKey>(&mut self, key: &K, ps: &mut PageSet) -> (r: bool)
        requires
            old(self).made(),
            old(ps).writes(),
            old(self).main.remove_balance < u64::MAX,
        ensures
            final(self).made(),
            final(ps).writes(),
            final(self).extra.next_id == old(self).extra.next_id,
            r ==> final(self).main.changed && final(self).main.remove_balance == old(
                self,
            ).main.remove_balance + 1 && final(self).main.record_count == if old(
                self,
            ).main.record_count > 0 {
                (old(self).main.record_count - 1) as u64
            } else {
                0
            },
            !r ==> *final(self) == *old(self),
            final(self).extra.record_count <= old(self).extra.record_count,
            final(self).main.record_count <= old(self).main.record_count,
            final(self).main.vbm == old(self).main.vbm,
            ({
                let h = key.spec_hash();
                let d = main_page(*old(self), old(ps).cache(), h);
                main_cached(*old(self), old(ps).cache(), h) && crate::vbucket::chains_ok(d) && (page_get(
                    d,
                    &StoreKey { key },
                    h,
                ) matches Some((o, l)) && o < d.len() && d[o as int] == 1) ==> r && exists|p: u64, n: usize|
                    #[trigger] crate::vbuckmap::removed(
                        final(ps).cache(),
                        old(ps).cache(),
                        p,
                        d,
                        &StoreKey { key },
                        n,
                    ) && crate::vbuckmap::removed_at(final(ps).cache(), main_map(*old(self)), p, h)
            }),
    {
        let mut m = VBuckMap::restore(self.main.vbm);
        let skey = StoreKey { key };
        let ghost c0 = ps.cache();
        let got = m.get(&skey, ps);
        let ghost c1 = ps.cache();
        match got {
            Some((page, off, len)) => {
                let remove = if page[off] != 1 {
                    let (id, len, local) = self.extra.parse_x(&page[off..off + len]);
                    if local <= len {
                        Some((id, len - local))
                    } else {
                        None
                    }
                } else {
                    None
                };
                let ghost small = page@[off as int] == 1;
                let _amount = m.remove(&skey, ps);
                proof {
                    let h = key.spec_hash();
                    let d = main_page(*old(self), c0, h);
                    if main_cached(*old(self), c0, h) && crate::vbucket::chains_ok(d) && small {
                        assert(c1 == c0);
                        assert(page@ == d);
                        crate::vbuckmap::lemma_page_get(d, &skey, h);
                        assert(_amount == len && len > 0);
                        let (p, d2) = choose|p: u64, d2: Seq<u8>|
                            #[trigger] crate::vbuckmap::removed(ps.cache(), c1, p, d2, &skey, _amount)
                                && crate::vbuckmap::removed_at(ps.cache(), m, p, h) && (
                            crate::pagetree::path_cached(
                                c1,
                                m.root,
                                crate::pagetree::spec_levels(m.buckets as nat),
                                (h % m.buckets) as nat,
                            ) && bucket_of(c1, m, h) != 0 ==> p == bucket_of(c1, m, h));
                        assert(d2 == d);
                        assert(m == main_map(*old(self)));
                    }
                }
                self.main.vbm = m.save();  // Not necessary yet, but maybe one day remove might change root/buckets.
                // Delay removal of chunks to here as above remove can access them!
                if let Some((id, len)) = remove {
                    self.delete(id, len, ps);
                }
                if self.main.record_count > 0 {
                    self.main.record_count -= 1;
                }
                self.main.remove_balance += 1;
                self.main.changed = true;
                true
            },
            None => false,
        }
    }

    /// Get iterator that returns all records (rows).
    pub fn iter(&self, ps: &mut PageSet) -> (r: StoreIter)
        requires
            self.made(),
        ensures
            r.wf(),
            final(ps).writes() == old(ps).writes(),
    {
        let inner = VBuckMap::restore(self.main.vbm).iter(ps);
        StoreIter { inner, v: Vec::new() }
    }

    /// Delete everything, Store is no longer usable.
    pub fn delete_all(&mut self, ps: &mut PageSet)
        requires
            old(ps).writes(),
        ensures
            final(ps).writes(),
            *final(self) == *old(self),
            old(self).extra.vbm.root != 0 ==> !final(ps).cache().contains_key(old(self).extra.vbm.root),
    {
        VBuckMap::restore(self.main.vbm).delete_all(ps);
        VBuckMap::restore(self.extra.vbm).delete_all(ps);
    }
}

/// Value Iterator - result of [Store::iter] returns all records (rows).
/// `v` is a row that a record of the main map's page `d` gives: the bytes
/// after its leading 1 when it is kept whole (the chunks of a larger one are
/// not read from the page).
pub open spec fn row_of(d: Seq<u8>, v: Seq<u8>) -> bool {
    exists|rec: Seq<u8>|
        #[trigger] crate::vbuckmap::is_record(d, rec) && (rec.len() >= 1 && rec[0] == 1 ==> v
            == rec.subrange(1, rec.len() as int))
}

pub struct StoreIter {
    pub inner: VBuckMapIter,
    pub v: Vec<u8>,
}

impl StoreIter {
    /// The iterator can go on.
    pub open spec fn wf(&self) -> bool {
        self.inner.wf() && self.inner.pix < self.inner.map.buckets
    }

    /// Every record has been visited: the last bucket is being read and no
    /// record of it is left.
    pub open spec fn done(&self) -> bool {
        &&& self.inner.pix + 1 == self.inner.map.buckets
        &&& (self.inner.page().len() == 0 || self.inner.rest().len() == 0)
    }

    /// Get next row: a small record's bytes, or a large record's bytes put
    /// together from its chunks (an entry that is neither gives no bytes).
    pub fn next(&mut self, store: &Store, ps: &mut PageSet) -> (r: Option<Vec<u8>>)
        requires
            old(self).wf(),
            store.made(),
        ensures
            final(self).wf(),
            final(ps).writes() == old(ps).writes(),
            r is None ==> final(self).done(),
            r matches Some(v) ==> row_of(final(self).inner.page(), v@),
    {
        match self.inner.next(ps) {
            Some(data) => {
                let n = data.len();
                if n >= 1 && data[0] == 1 {
                    let mut r: Vec<u8> = Vec::new();
                    r.extend_from_slice(&data[1..n]);
                    proof {
                        assert(r@ =~= data@.subrange(1, data@.len() as int));
                    }
                    Some(r)
                } else if n >= 1 && (data[0] == 2 || data[0] == 4 || data[0] == 8) && n >= 9 + data[0] as usize {
                    self.v = store.extra.fetch_chunks(data.as_slice(), ps);
                    let mut r: Vec<u8> = Vec::new();
                    r.extend_from_slice(self.v.as_slice());
                    Some(r)
                } else {
                    Some(Vec::new())
                }
            },
            None => None,
        }
    }
}

/// Read after write of stored data: right after `store` has put data of one
/// chunk (at most [CHUNK] bytes, and some) in the page that the chunk map's
/// tree gives for its id, fetching that many bytes from the id reads only
/// cached pages and gives the data back.
pub proof fn lemma_fetch_after_store(
    c: Map<u64, (Seq<u8>, bool)>,
    m: VBuckMap,
    p: u64,
    id: u64,
    data: Seq<u8>,
)
    requires
        0 < data.len() <= CHUNK,
        stored_at(c, m, p, fx_hash(id), le_bytes(id as nat, 8) + data),
        bucket_of(c, m, fx_hash(id)) == p,
        crate::pagetree::path_cached(c, m.root, crate::pagetree::spec_levels(m.buckets as nat), (fx_hash(id) % m.buckets) as nat),
    ensures
        chunks_cached(c, m, id, data.len()),
        chunks_from(c, m, id, data.len()) == data,
{
    let key = IdVKey { id };
    let rec = le_bytes(id as nat, 8) + data;
    lemma_le_bytes_len(id as nat, 8);
    crate::bytes::lemma_pow256_8();
    lemma_le_roundtrip(id as nat, 8);
    assert(rec.subrange(0, 8) =~= le_bytes(id as nat, 8));
    assert(key.matches(rec));
    lemma_get_after_insert(c, m, p, &key, rec);
    let d = crate::pagetree::cache_page(c, p);
    match page_get(d, &key, key.spec_hash()) {
        Some((off, len)) => {
            assert(d.subrange(off as int, off + len) == rec);
            assert(len == rec.len());
            assert(d.subrange(off + 8, off + len) =~= rec.subrange(8, rec.len() as int));
            assert(rec.subrange(8, rec.len() as int) =~= data);
            assert(chunk_data(c, m, id) == Some(data));
        },
        None => {},
    }
}

/// Read after remove of the store: right after a remove has unlinked a
/// key's small record from the well-formed page that the main map's tree
/// gives for the key's hash (see [Store::remove]), the key's way is cached
/// and a lookup of the key in that page finds nothing, when the key accepted
/// no other entry of its chain; so a [Store::get] of the key returns `None`.
pub proof fn lemma_store_get_after_remove<K: VKey>(
    c: Map<u64, (Seq<u8>, bool)>,
    c0: Map<u64, (Seq<u8>, bool)>,
    s: Store,
    p: u64,
    d: Seq<u8>,
    key: &K,
    n: usize,
)
    requires
        crate::vbuckmap::removed(c, c0, p, d, &StoreKey { key }, n),
        crate::vbuckmap::removed_at(c, main_map(s), p, key.spec_hash()),
        !crate::pagetree::path_has(
            c,
            s.main.vbm.root,
            crate::pagetree::spec_levels(s.main.vbm.buckets as nat),
            (key.spec_hash() % s.main.vbm.buckets) as nat,
            p,
        ),
        crate::vpage::wf(d),
        ({
            let skey = StoreKey { key };
            let slot = (key.spec_hash() % (crate::vbucket::SLOTS as u64)) as int;
            let es = crate::vbucket::chain_entries(d, d[crate::vbucket::SLOT + slot]);
            let k = crate::vbucket::first_match_index(d, es, &skey);
            forall|j: int| 0 <= j < es.len() && j != k ==> !skey.matches(
                crate::vbucket::record(d, #[trigger] es[j] as int),
            )
        }),
    ensures
        main_cached(s, c, key.spec_hash()),
        crate::vbucket::chains_ok(main_page(s, c, key.spec_hash())),
        page_get(main_page(s, c, key.spec_hash()), &StoreKey { key }, key.spec_hash()) is None,
{
    let skey = StoreKey { key };
    assert(skey.spec_hash() == key.spec_hash());
    crate::vbuckmap::lemma_get_after_remove(c, c0, main_map(s), p, d, &skey, n);
}

/// Read after write of the store: right after an insert of a small record
/// (shorter than 255 bytes) has put its entry in the page that the main
/// map's tree gives for the key's hash, a lookup of a key that accepts the
/// record finds the entry, and the bytes after its leading 1 are the record.
pub proof fn lemma_store_get_after_insert<K: VKey>(
    c: Map<u64, (Seq<u8>, bool)>,
    m: VBuckMap,
    p: u64,
    key: &K,
    next_id: u64,
    ud: Seq<u8>,
)
    requires
        ud.len() < 255,
        stored_at(c, m, p, key.spec_hash(), entry_spec(next_id, key.spec_len(), ud).0),
        bucket_of(c, m, key.spec_hash()) == p,
        crate::pagetree::path_cached(c, m.root, crate::pagetree::spec_levels(m.buckets as nat), (key.spec_hash() % m.buckets) as nat),
        key.matches(ud),
    ensures
        crate::pagetree::cache_page(c, p).len() > 0,
        crate::vbucket::chains_ok(crate::pagetree::cache_page(c, p)),
        ({
            let d = crate::pagetree::cache_page(c, p);
            match page_get(d, &StoreKey { key }, key.spec_hash()) {
                Some((off, len)) => off + len <= d.len() && len >= 1 && d[off as int] == 1
                    && d.subrange(off + 1, off + len) == ud,
                None => false,
            }
        }),
{
    let x = entry_spec(next_id, key.spec_len(), ud).0;
    let skey = StoreKey { key };
    assert(x == seq![1u8] + ud);
    assert(key_bytes(key, x) == Some(x.subrange(1, x.len() as int)));
    assert(x.subrange(1, x.len() as int) =~= ud);
    assert(skey.matches(x));
    assert(skey.spec_hash() == key.spec_hash());
    lemma_get_after_insert(c, m, p, &skey, x);
    let d = crate::pagetree::cache_page(c, p);
    match page_get(d, &skey, key.spec_hash()) {
        Some((off, len)) => {
            assert(d.subrange(off as int, off + len) == x);
            assert(d[off as int] == d.subrange(off as int, off + len)[0]);
            assert(d.subrange(off + 1, off + len) =~= x.subrange(1, x.len() as int));
        },
        None => {},
    }
}

} // verus!
