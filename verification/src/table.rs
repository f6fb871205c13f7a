//! Tables: a store of rows of one data type, keyed by a 64-bit id.

use crate::datatype::{
    dec0, enc0, encodable, fits, holds_at, item_types, lemma_roundtrip0, size_bound, skip_types,
    DataType, LazyItem,
};
use crate::indirect::{dec_ind, enc, keeps_main};
use crate::pageset::PageSet;
use crate::store::{
    chunk_map, entry_spec, lemma_store_get_after_insert, main_cached, main_map, main_page, row_of,
    SData, Store, StoreIter, StoreKey,
};
use crate::value::Value;
use crate::vbuckmap::{bucket_of, fx_hash, max_expand, page_get, stored_at, IdVKey, VBuckMap, VKey};
use std::sync::Arc;
use vstd::prelude::*;

verus! {

/// This is data that needs to be saved.
pub struct TableInner {
    /// Next id to be allocated.
    pub next_id: u64,
    /// Store
    pub store: Store,
}

/// A Table stores Values which have a specific [DataType].
///
/// The first field (column) of the stored value must be a 64-bit id.
pub struct Table {
    /// Part that needs to be serialised.
    pub inner: TableInner,
    /// DataType
    pub datatype: Arc<DataType>,
    /// Changed
    pub changed: bool,
}

/// Read after write of a table: right after a row of its type has been
/// stored under `id` (by [Table::insert] or [Table::update]), encoded
/// directly in fewer than 255 bytes that begin with the id, in the page that
/// the main map's tree gives for the id, a [Table::fetch] of `id` returns the
/// row.
pub proof fn lemma_fetch_after_insert(
    t: Table,
    dt: DataType,
    c: Map<u64, (Seq<u8>, bool)>,
    p: u64,
    id: i64,
    v: crate::value::Val,
    next_id: u64,
)
    requires
        *t.datatype == dt,
        fits(*t.datatype, v),
        enc0(*t.datatype, v).len() < 255,
        (IdVKey { id: id as u64 }).matches(enc0(*t.datatype, v)),
        stored_at(
            c,
            (VBuckMap { buckets: t.inner.store.main.vbm.buckets, root: t.inner.store.main.vbm.root }),
            p,
            fx_hash(id as u64),
            entry_spec(next_id, Some(8), enc0(*t.datatype, v)).0,
        ),
        bucket_of(
            c,
            (VBuckMap { buckets: t.inner.store.main.vbm.buckets, root: t.inner.store.main.vbm.root }),
            fx_hash(id as u64),
        ) == p,
        crate::pagetree::path_cached(
            c,
            t.inner.store.main.vbm.root,
            crate::pagetree::spec_levels(t.inner.store.main.vbm.buckets as nat),
            (fx_hash(id as u64) % t.inner.store.main.vbm.buckets) as nat,
        ),
    ensures
        forall|r: Option<Value>| fetched(t, c, id, r) ==> r is Some && r->0.model() == v,
{
    let key = IdVKey { id: id as u64 };
    let m = VBuckMap { buckets: t.inner.store.main.vbm.buckets, root: t.inner.store.main.vbm.root };
    let x = enc0(dt, v);
    lemma_store_get_after_insert(c, m, p, &key, next_id, x);
    let h = fx_hash(id as u64);
    let d = main_page(t.inner.store, c, h);
    assert(main_cached(t.inner.store, c, h));
    let skey = StoreKey { key: &key };
    match page_get(d, &skey, h) {
        Some((o, l)) => {
            assert(d.subrange(o + 1, o + l) == x);
            let buf = d.subrange(o + 1, d.len() as int);
            assert(buf.subrange(0, x.len() as int) =~= d.subrange(o + 1, o + l));
            lemma_roundtrip0(dt, v, buf, 0);
        },
        None => {},
    }
}


/// Read after remove of a table: right after [Table::remove] of row `id`
/// has unlinked the row's entry from the well-formed page that the main
/// map's tree gives for the id (as it does for a row kept directly, see
/// [direct_row_at]), a [Table::fetch] of `id` returns `None`, when no other
/// entry of the chain answers to the id.
pub proof fn lemma_fetch_after_remove(
    t: Table,
    c: Map<u64, (Seq<u8>, bool)>,
    c0: Map<u64, (Seq<u8>, bool)>,
    p: u64,
    d: Seq<u8>,
    id: i64,
    n: usize,
)
    requires
        crate::vbuckmap::removed(c, c0, p, d, &StoreKey { key: &IdVKey { id: id as u64 } }, n),
        crate::vbuckmap::removed_at(c, main_map(t.inner.store), p, fx_hash(id as u64)),
        !crate::pagetree::path_has(
            c,
            t.inner.store.main.vbm.root,
            crate::pagetree::spec_levels(t.inner.store.main.vbm.buckets as nat),
            (fx_hash(id as u64) % t.inner.store.main.vbm.buckets) as nat,
            p,
        ),
        crate::vpage::wf(d),
        ({
            let skey = StoreKey { key: &IdVKey { id: id as u64 } };
            let slot = (fx_hash(id as u64) % (crate::vbucket::SLOTS as u64)) as int;
            let es = crate::vbucket::chain_entries(d, d[crate::vbucket::SLOT + slot]);
            let k = crate::vbucket::first_match_index(d, es, &skey);
            forall|j: int| 0 <= j < es.len() && j != k ==> !skey.matches(
                crate::vbucket::record(d, #[trigger] es[j] as int),
            )
        }),
    ensures
        forall|r: Option<Value>| fetched(t, c, id, r) ==> r is None,
{
    let key = IdVKey { id: id as u64 };
    crate::store::lemma_store_get_after_remove(c, c0, t.inner.store, p, d, &key, n);
}

/// `t1` is table `t0` after [Table::new_id] handed out `r`: the table's
/// next id, which moves on by one.
pub open spec fn new_id_step(t0: Table, t1: Table, r: i64) -> bool {
    &&& r == t0.inner.next_id as i64
    &&& t1.inner.next_id == t0.inner.next_id + 1
    &&& t1.changed
    &&& t1.inner.store == t0.inner.store
    &&& t1.datatype == t0.datatype
}

/// `t1` is table `t0` after [Table::reserve_id] of `id`: where `id` is not
/// below the next id, the next id moves past it; otherwise nothing changes.
pub open spec fn reserve_step(t0: Table, t1: Table, id: i64) -> bool {
    &&& id as u64 >= t0.inner.next_id ==> t1.inner.next_id == (id + 1) as u64 && t1.changed
    &&& (id as u64) < t0.inner.next_id ==> t1.inner.next_id == t0.inner.next_id && t1.changed
        == t0.changed
    &&& t1.inner.store == t0.inner.store
    &&& t1.datatype == t0.datatype
}

/// Ids are handed out in order: two ids that [Table::new_id] hands out one
/// after the other follow each other, and after [Table::reserve_id] of a
/// non-negative `id` the next id handed out is greater than `id` (while ids
/// stay within `i64`).
pub proof fn lemma_ids_in_order(t0: Table, t1: Table, t2: Table, a: i64, b: i64, id: i64)
    requires
        t1.inner.next_id < i64::MAX,
    ensures
        new_id_step(t0, t1, a) && new_id_step(t1, t2, b) ==> b == a + 1,
        id >= 0 && reserve_step(t0, t1, id) && new_id_step(t1, t2, b) ==> b > id,
{
}

/// After the system store went from `s0` to `s1`, with cache `c`, by the
/// replacing of the record of table `id` with `bytes`: the record count
/// grew by one, or stayed where a record was there before, and the main map
/// holds the entry of `bytes` under the table's id (while the map has not
/// outgrown the pages its tree can address).
pub open spec fn saved_record(s0: Store, s1: Store, c: Map<u64, (Seq<u8>, bool)>, id: i64, bytes: Seq<u8>) -> bool {
    &&& s1.main.record_count == s0.main.record_count + 1 || (s0.main.record_count > 0
        && s1.main.record_count == s0.main.record_count)
    &&& s1.main.vbm.buckets > max_expand() || exists|p: u64|
        #[trigger] stored_at(
            c,
            (VBuckMap { buckets: s1.main.vbm.buckets, root: s1.main.vbm.root }),
            p,
            fx_hash(id as u64),
            entry_spec(s0.extra.next_id, Some(8), bytes).0,
        )
}

impl Table {
    /// Start a new table of rows of `datatype`, in a new store; ids start at
    /// 1.
    pub fn new(datatype: Arc<DataType>, ps: &mut PageSet) -> (r: Self)
        requires
            old(ps).writes(),
        ensures
            r.inner.next_id == 1,
            r.inner.store.made(),
            r.inner.store.main.record_count == 0,
            r.inner.store.extra.record_count == 0,
            r.inner.store.extra.next_id == 1,
            r.datatype == datatype,
            r.changed,
            final(ps).writes(),
    {
        let store = Store::new(ps);
        Self { inner: TableInner { next_id: 1, store }, datatype, changed: true }
    }

    /// Restore a table of `datatype` from the data saved for it (`found`,
    /// as read from the system store), or start a new table where nothing
    /// was saved. A restored table is not marked changed; a new one is (and
    /// is to be recorded in the system store).
    pub fn restore_from(found: Option<TableInner>, datatype: Arc<DataType>, ps: &mut PageSet) -> (r: Self)
        requires
            found is None ==> old(ps).writes(),
        ensures
            r.datatype == datatype,
            match found {
                Some(inner) => r.inner == inner && !r.changed && *final(ps) == *old(ps),
                None => r.inner.next_id == 1 && r.inner.store.made()
                    && r.inner.store.main.record_count == 0 && r.inner.store.extra.record_count
                    == 0 && r.inner.store.extra.next_id == 1 && r.changed && final(ps).writes(),
            },
    {
        match found {
            Some(inner) => Table { inner, datatype, changed: false },
            None => Table::new(datatype, ps),
        }
    }

    /// Get the next record id.
    pub fn new_id(&mut self) -> (r: i64)
        requires
            old(self).inner.next_id < u64::MAX,
        ensures
            new_id_step(*old(self), *final(self), r),
    {
        let result = self.inner.next_id;
        self.inner.next_id += 1;
        self.changed = true;
        result as i64
    }

    /// Reserve up to id ( due to Id being in INSERT col names ).
    pub fn reserve_id(&mut self, id: i64)
        requires
            !(id == i64::MAX && id as u64 >= old(self).inner.next_id),
        ensures
            reserve_step(*old(self), *final(self), id),
    {
        if id as u64 >= self.inner.next_id {
            self.inner.next_id = (id + 1) as u64;
            self.changed = true;
        }
    }

    /// Number of records in table.
    pub fn record_count(&self) -> (r: u64)
        ensures
            r == self.inner.store.main.record_count,
    {
        self.inner.store.record_count()
    }
}

/// What a lookup of row `id` in table `t` gives, when the main map's path to
/// the row's bucket is in cache `c`: nothing where the page has no entry for
/// the id, and the row where its entry holds it directly (a leading 1) and
/// it decodes, with each part kept apart read from the extra map's chunks
/// in `c`.
pub open spec fn fetched(t: Table, c: Map<u64, (Seq<u8>, bool)>, id: i64, r: Option<Value>) -> bool {
    let h = fx_hash(id as u64);
    let d = main_page(t.inner.store, c, h);
    let key = IdVKey { id: id as u64 };
    main_cached(t.inner.store, c, h) ==> match page_get(d, &StoreKey { key: &key }, h) {
        Some((o, l)) => {
            &&& crate::vbucket::chains_ok(d) && o < d.len() && d[o as int] == 1 && dec0(
                *t.datatype,
                d.subrange(o + 1, d.len() as int),
                0,
            ) is Some ==> r is Some && r->0.model() == dec0(
                *t.datatype,
                d.subrange(o + 1, d.len() as int),
                0,
            ).unwrap().0
            &&& crate::vbucket::chains_ok(d) && o < d.len() && d[o as int] == 1 ==> (dec_ind(
                *t.datatype,
                d.subrange(o + 1, d.len() as int),
                0,
                c,
                chunk_map(t.inner.store.extra),
            ) matches Some((v, _)) ==> r is Some && r->0.model() == v)
        },
        None => r is None,
    }
}

/// What [Table::remove] gives for row `id` when the main map's path to the
/// row's bucket is in cache `c`: nothing where the page has no entry for the
/// id, and the row where its entry holds it directly and it decodes.
pub open spec fn fetched_direct(t: Table, c: Map<u64, (Seq<u8>, bool)>, id: i64, r: Option<Value>) -> bool {
    let h = fx_hash(id as u64);
    let d = main_page(t.inner.store, c, h);
    let key = IdVKey { id: id as u64 };
    main_cached(t.inner.store, c, h) ==> match page_get(d, &StoreKey { key: &key }, h) {
        Some((o, l)) => crate::vbucket::chains_ok(d) && o < d.len() && d[o as int] == 1 && dec0(
            *t.datatype,
            d.subrange(o + 1, d.len() as int),
            0,
        ) is Some ==> r is Some && r->0.model() == dec0(
            *t.datatype,
            d.subrange(o + 1, d.len() as int),
            0,
        ).unwrap().0,
        None => r is None,
    }
}


/// The main map of store `s` has the way to row `id` cached in `c`, and the
/// row's entry there holds it directly (a leading 1) in bytes that decode
/// as a value of type `dt` with no part kept apart.
pub open spec fn direct_row_at(s: Store, c: Map<u64, (Seq<u8>, bool)>, dt: DataType, id: i64) -> bool {
    let h = fx_hash(id as u64);
    let d = main_page(s, c, h);
    let key = IdVKey { id: id as u64 };
    &&& main_cached(s, c, h)
    &&& crate::vbucket::chains_ok(d)
    &&& page_get(d, &StoreKey { key: &key }, h) matches Some((o, l))
    &&& o < d.len()
    &&& d[o as int] == 1
    &&& dec0(dt, d.subrange(o + 1, d.len() as int), 0) is Some
}

impl Table {
    /// Encodes `v` and stores it under `id`.
    fn put(&mut self, id: i64, v: &Value, ps: &mut PageSet)
        requires
            encodable(*old(self).datatype, v.model()),
            size_bound(*old(self).datatype, v.model()) <= usize::MAX,
            old(self).inner.store.made(),
            old(ps).writes(),
            old(self).inner.store.main.record_count < u64::MAX,
            old(self).inner.store.extra.record_count + enc(
                *old(self).datatype,
                v.model(),
                old(self).inner.store.extra.next_id as nat,
            ).2 < u64::MAX,
        ensures
            final(self).inner.store.made(),
            final(self).inner.store.main.record_count == old(self).inner.store.main.record_count
                + 1,
            final(self).inner.store.main.changed,
            ({
                let e = enc(*old(self).datatype, v.model(), old(self).inner.store.extra.next_id as nat);
                let s = final(self).inner.store;
                s.main.vbm.buckets > max_expand() || exists|p: u64|
                    #[trigger] stored_at(
                        final(ps).cache(),
                        (VBuckMap { buckets: s.main.vbm.buckets, root: s.main.vbm.root }),
                        p,
                        fx_hash(id as u64),
                        entry_spec(e.1 as u64, Some(8), e.0).0,
                    )
            }),
            final(self).datatype == old(self).datatype,
            final(self).inner.next_id == old(self).inner.next_id,
            final(self).changed == old(self).changed,
            final(ps).writes(),
    {
        let x = self.datatype.value_to_bytes(v, &mut self.inner.store, ps);
        let key = IdVKey { id: id as u64 };
        let ghost nid = self.inner.store.extra.next_id;
        self.inner.store.insert(&key, x.as_slice(), ps);
        proof {
            let s = self.inner.store;
            let m = VBuckMap { buckets: s.main.vbm.buckets, root: s.main.vbm.root };
            let h = fx_hash(id as u64);
            // The entry that the store's insert speaks of is the one stated.
            assert(s.main.vbm.buckets > max_expand() || exists|p: u64|
                #[trigger] stored_at(ps.cache(), m, p, h, entry_spec(nid, Some(8), x@).0));
            assert(entry_spec(nid, Some(8), x@) == entry_spec(
                enc(*old(self).datatype, v.model(), old(self).inner.store.extra.next_id as nat).1
                    as u64,
                Some(8),
                enc(*old(self).datatype, v.model(), old(self).inner.store.extra.next_id as nat).0,
            ));
        }
    }

    /// Insert Value ( row, record ) into the table, keyed by its first column
    /// (the id). Returns the id.
    pub fn insert(&mut self, v: &Value, ps: &mut PageSet) -> (r: i64)
        requires
            v is List,
            v->List_0.len() >= 1,
            v->List_0[0] is Int,
            encodable(*old(self).datatype, v.model()),
            size_bound(*old(self).datatype, v.model()) <= usize::MAX,
            old(self).inner.store.made(),
            old(ps).writes(),
            old(self).inner.store.main.record_count < u64::MAX,
            old(self).inner.store.extra.record_count + enc(
                *old(self).datatype,
                v.model(),
                old(self).inner.store.extra.next_id as nat,
            ).2 < u64::MAX,
        ensures
            r == v->List_0[0]->Int_0,
            final(self).inner.store.made(),
            final(self).inner.store.main.record_count == old(self).inner.store.main.record_count
                + 1,
            final(self).inner.store.main.changed,
            ({
                let e = enc(*old(self).datatype, v.model(), old(self).inner.store.extra.next_id as nat);
                let s = final(self).inner.store;
                s.main.vbm.buckets > max_expand() || exists|p: u64|
                    #[trigger] stored_at(
                        final(ps).cache(),
                        (VBuckMap { buckets: s.main.vbm.buckets, root: s.main.vbm.root }),
                        p,
                        fx_hash(r as u64),
                        entry_spec(e.1 as u64, Some(8), e.0).0,
                    )
            }),
            final(self).datatype == old(self).datatype,
            final(self).inner.next_id == old(self).inner.next_id,
            final(self).changed == old(self).changed,
            final(ps).writes(),
    {
        let id = v.list()[0].int_val();
        self.put(id, v, ps);
        id
    }

    /// Fetch the value associated with the specified id.
    #[verifier::rlimit(100)]
    #[verifier::spinoff_prover]
    pub fn fetch(&self, id: i64, ps: &mut PageSet) -> (r: Option<Value>)
        requires
            self.inner.store.made(),
        ensures
            fetched(*self, old(ps).cache(), id, r),
            final(ps).writes() == old(ps).writes(),
    {
        let key = IdVKey { id: id as u64 };
        let m = &self.inner.store;
        let ghost c0 = ps.cache();
        let ghost h = fx_hash(id as u64);
        let ghost d = main_page(self.inner.store, c0, h);
        match m.get(&key, ps) {
            Some(sd) => {
                let ghost c1 = ps.cache();
                let result = sd.decode(&self.datatype, m, ps);
                proof {
                    if main_cached(self.inner.store, c0, h) {
                        match page_get(d, &StoreKey { key: &key }, h) {
                            Some((o, l)) => {
                                if sd is Small {
                                    assert(c1 == c0);
                                    assert(sd.tail(0) =~= d.subrange(o + 1, d.len() as int));
                                }
                            },
                            None => {},
                        }
                    }
                }
                Some(result)
            },
            None => None,
        }
    }

    /// Remove the value (row, record) specified by id from the table: its
    /// indirectly stored parts are deleted, and the row is returned.
    pub fn remove(&mut self, id: i64, ps: &mut PageSet) -> (r: Option<Value>)
        requires
            old(self).inner.store.made(),
            old(ps).writes(),
            old(self).inner.store.main.remove_balance < u64::MAX,
        ensures
            fetched_direct(*old(self), old(ps).cache(), id, r),
            r is None ==> final(self).inner.store == old(self).inner.store,
            final(self).inner.store.made(),
            final(self).inner.store.extra.next_id == old(self).inner.store.extra.next_id,
            final(self).inner.store.extra.record_count <= old(self).inner.store.extra.record_count,
            final(self).inner.store.main.record_count <= old(self).inner.store.main.record_count,
            direct_row_at(old(self).inner.store, old(ps).cache(), *old(self).datatype, id)
                ==> final(self).inner.store.main.changed,
            direct_row_at(old(self).inner.store, old(ps).cache(), *old(self).datatype, id)
                ==> final(self).inner.store.main.record_count == if old(
                self,
            ).inner.store.main.record_count > 0 {
                (old(self).inner.store.main.record_count - 1) as u64
            } else {
                0
            },
            final(self).datatype == old(self).datatype,
            final(self).inner.next_id == old(self).inner.next_id,
            final(self).changed == old(self).changed,
            final(ps).writes(),
            final(self).inner.store.main.vbm == old(self).inner.store.main.vbm,
            ({
                let h = fx_hash(id as u64);
                let s = old(self).inner.store;
                let d = main_page(s, old(ps).cache(), h);
                let key = IdVKey { id: id as u64 };
                direct_row_at(s, old(ps).cache(), *old(self).datatype, id) ==> exists|p: u64, n: usize|
                    #[trigger] crate::vbuckmap::removed(
                        final(ps).cache(),
                        old(ps).cache(),
                        p,
                        d,
                        &StoreKey { key: &key },
                        n,
                    ) && crate::vbuckmap::removed_at(final(ps).cache(), main_map(s), p, h)
            }),
    {
        let key = IdVKey { id: id as u64 };
        let ghost c0 = ps.cache();
        let ghost s0 = self.inner.store;
        match self.inner.store.get(&key, ps) {
            Some(sd) => {
                let ghost c1 = ps.cache();
                let result = sd.decode_del(&self.datatype, &mut self.inner.store, ps);
                proof {
                    assert(direct_row_at(s0, c0, *self.datatype, id) ==> c1 == c0 && sd is Small && dec0(
                        *self.datatype,
                        sd.tail(0),
                        0,
                    ) is Some);
                    assert(direct_row_at(s0, c0, *self.datatype, id) ==> ps.cache() == c0
                        && self.inner.store == s0);
                }
                self.inner.store.remove(&key, ps);
                Some(result)
            },
            None => None,
        }
    }

    /// Update the value associated with the specified id: the old row is
    /// removed, and `v` is inserted under `id`.
    pub fn update(&mut self, id: i64, v: &Value, ps: &mut PageSet)
        requires
            encodable(*old(self).datatype, v.model()),
            size_bound(*old(self).datatype, v.model()) <= usize::MAX,
            old(self).inner.store.made(),
            old(ps).writes(),
            old(self).inner.store.main.record_count < u64::MAX,
            old(self).inner.store.main.remove_balance < u64::MAX,
            old(self).inner.store.extra.record_count + enc(
                *old(self).datatype,
                v.model(),
                old(self).inner.store.extra.next_id as nat,
            ).2 < u64::MAX,
        ensures
            final(self).inner.store.made(),
            final(self).inner.store.main.vbm.buckets > max_expand() || exists|p: u64|
                #[trigger] stored_at(
                    final(ps).cache(),
                    (VBuckMap {
                        buckets: final(self).inner.store.main.vbm.buckets,
                        root: final(self).inner.store.main.vbm.root,
                    }),
                    p,
                    fx_hash(id as u64),
                    entry_spec(
                        enc(
                            *old(self).datatype,
                            v.model(),
                            old(self).inner.store.extra.next_id as nat,
                        ).1 as u64,
                        Some(8),
                        enc(
                            *old(self).datatype,
                            v.model(),
                            old(self).inner.store.extra.next_id as nat,
                        ).0,
                    ).0,
                ),
            final(self).datatype == old(self).datatype,
            final(self).inner.next_id == old(self).inner.next_id,
            final(self).changed == old(self).changed,
            final(ps).writes(),
    {
        let _ = self.remove(id, ps);
        self.put(id, v, ps);
    }
}

impl Table {
    /// Get iterator that returns all records (rows).
    pub fn iter(&self, ps: &mut PageSet) -> (r: TableIter<'_>)
        requires
            self.inner.store.made(),
        ensures
            r.wf(),
            r.table == self,
            final(ps).writes() == old(ps).writes(),
    {
        let inner = self.inner.store.iter(ps);
        TableIter { inner, table: self }
    }

    /// Delete everything, table is no longer useable.
    pub fn delete_all(&mut self, ps: &mut PageSet)
        requires
            old(ps).writes(),
        ensures
            final(ps).writes(),
            final(self).datatype == old(self).datatype,
            *final(self) == *old(self),
            old(self).inner.store.extra.vbm.root != 0 ==> !final(ps).cache().contains_key(
                old(self).inner.store.extra.vbm.root,
            ),
    {
        self.inner.store.delete_all(ps);
    }

    /// Decode the specified item from a row's bytes (as returned by
    /// [TableIter::next_ref]).
    pub fn select_value(&self, item: usize, buf: &[u8], ps: &mut PageSet) -> (r: Value)
        requires
            *self.datatype is Struct,
            item < item_types(*self.datatype).len(),
            skip_types(item_types(*self.datatype), buf@, 0, item as nat) is Some,
            skip_types(item_types(*self.datatype), buf@, 0, item as nat).unwrap() <= usize::MAX,
            self.inner.store.made(),
        ensures
            ({
                let p = skip_types(item_types(*self.datatype), buf@, 0, item as nat).unwrap();
                dec0(item_types(*self.datatype)[item as int], buf@, p) is Some ==> r.model() == dec0(
                    item_types(*self.datatype)[item as int],
                    buf@,
                    p,
                ).unwrap().0
            }),
            (forall|i: int| 0 <= i < item ==> crate::datatype::skippable(
                #[trigger] item_types(*self.datatype)[i],
            )) && dec0(*self.datatype, buf@, 0) is Some ==> r.model() == dec0(
                *self.datatype,
                buf@,
                0,
            ).unwrap().0->List_0[item as int],
            final(ps).writes() == old(ps).writes(),
    {
        self.datatype.select_value(item, buf, &self.inner.store, ps)
    }

    /// Computes offsets of columns from a row's bytes (as returned by
    /// [TableIter::next_ref]). [LazyRow::item] is then used to get values.
    pub fn lazy_row<'a>(&'a self, buf: &'a [u8]) -> (r: LazyRow<'a>)
        requires
            *self.datatype is Tuple || *self.datatype is Struct,
            skip_types(item_types(*self.datatype), buf@, 0, item_types(*self.datatype).len()) is Some,
            skip_types(item_types(*self.datatype), buf@, 0, item_types(*self.datatype).len()).unwrap()
                <= usize::MAX,
        ensures
            r.table == self,
            r.buf@ == buf@,
            r.items@.len() == item_types(*self.datatype).len(),
            forall|i: int|
                0 <= i < r.items@.len() ==> #[trigger] r.items@[i] == LazyItem::Offset(
                    skip_types(item_types(*self.datatype), buf@, 0, i as nat).unwrap() as usize,
                ),
    {
        let mut ix: usize = 0;
        let items = self.datatype.lazy_row_items(buf, &mut ix);
        LazyRow { table: self, buf, items }
    }

    /// Fetch the row with the specified id, to access its columns with
    /// [OwnedLazyRow::item]. `None` where there is no such row, or where its
    /// columns cannot be skipped over.
    pub fn lazy_fetch<'a>(&'a self, id: i64, ps: &mut PageSet) -> (r: Option<OwnedLazyRow<'a>>)
        requires
            self.inner.store.made(),
            *self.datatype is Tuple || *self.datatype is Struct,
        ensures
            r matches Some(row) ==> row.table == self && row.sdata.wf() && row.items@.len()
                == item_types(*self.datatype).len(),
            r matches Some(row) ==> forall|i: int|
                0 <= i < row.items@.len() ==> #[trigger] row.items@[i] == LazyItem::Offset(
                    skip_types(item_types(*self.datatype), row.sdata.tail(0), 0, i as nat).unwrap()
                        as usize,
                ),
            final(ps).writes() == old(ps).writes(),
            ({
                let h = fx_hash(id as u64);
                let d = main_page(self.inner.store, old(ps).cache(), h);
                let key = IdVKey { id: id as u64 };
                let n = item_types(*self.datatype).len();
                main_cached(self.inner.store, old(ps).cache(), h) ==> match page_get(
                    d,
                    &StoreKey { key: &key },
                    h,
                ) {
                    Some((o, l)) => crate::vbucket::chains_ok(d) && o < d.len() && d[o as int] == 1
                        ==> (r is Some <==> (skip_types(
                        item_types(*self.datatype),
                        d.subrange(o + 1, d.len() as int),
                        0,
                        n,
                    ) is Some && skip_types(
                        item_types(*self.datatype),
                        d.subrange(o + 1, d.len() as int),
                        0,
                        n,
                    ).unwrap() <= usize::MAX)) && (r matches Some(row) ==> row.sdata.tail(0)
                        == d.subrange(o + 1, d.len() as int)),
                    None => r is None,
                }
            }),
    {
        let key = IdVKey { id: id as u64 };
        match self.inner.store.get(&key, ps) {
            Some(sdata) => {
                let ok = self.datatype.row_skippable(sdata.tail_bytes(0), 0);
                if ok {
                    let items = sdata.lazy_row_items(&self.datatype);
                    Some(OwnedLazyRow { table: self, sdata, items })
                } else {
                    None
                }
            },
            None => None,
        }
    }

    /// Save the table to the system store of `ps` under `id`, if it has
    /// changed: `bytes`, the table's saved form, replace the record kept
    /// under `id`, and the table is no longer marked changed (its store
    /// keeps its own mark).
    pub fn save(&mut self, id: i64, bytes: &[u8], ps: &mut PageSet)
        requires
            old(ps).sys().made(),
            old(ps).writes(),
            old(ps).sys().main.record_count < u64::MAX,
            old(ps).sys().extra.record_count < u64::MAX,
            old(ps).sys().main.remove_balance < u64::MAX,
        ensures
            old(self).changed || old(self).inner.store.main.changed ==> !final(self).changed
                && final(ps).sys().made() && final(ps).sys().main.changed,
            old(self).changed || old(self).inner.store.main.changed ==> saved_record(
                old(ps).sys(),
                final(ps).sys(),
                final(ps).cache(),
                id,
                bytes@,
            ),
            !(old(self).changed || old(self).inner.store.main.changed) ==> final(self).changed
                == old(self).changed && *final(ps) == *old(ps),
            final(self).inner == old(self).inner,
            final(self).datatype == old(self).datatype,
            final(ps).writes(),
    {
        if self.changed() {
            let id = id as u64;
            self.changed = false;
            let key = IdVKey { id };
            let mut sys_store = ps.take_sys_store();
            sys_store.replace(&key, bytes, ps);
            ps.put_sys_store(sys_store);
        }
    }

    /// Has table changed.
    pub fn changed(&self) -> (r: bool)
        ensures
            r == (self.changed || self.inner.store.main.changed),
    {
        self.changed || self.inner.store.changed()
    }
}

/// Result of [Table::lazy_fetch].
pub struct OwnedLazyRow<'a> {
    pub table: &'a Table,
    pub sdata: SData,
    pub items: Vec<LazyItem>,
}

/// LazyRow allows a subset of columns to be fetched, see [Table::lazy_row].
pub struct LazyRow<'a> {
    pub table: &'a Table,
    pub buf: &'a [u8],
    pub items: Vec<LazyItem>,
}

/// Result of [Table::iter].
pub struct TableIter<'a> {
    pub inner: StoreIter,
    pub table: &'a Table,
}

impl<'a> TableIter<'a> {
    /// The iterator can go on.
    pub open spec fn wf(&self) -> bool {
        self.inner.wf() && self.table.inner.store.made()
    }

    /// Get next value (row, record): the decoding of the next row's bytes.
    pub fn next_value(&mut self, ps: &mut PageSet) -> (r: Option<Value>)
        requires
            old(self).wf(),
        ensures
            final(self).wf(),
            final(self).table == old(self).table,
            final(ps).writes() == old(ps).writes(),
            r is None ==> final(self).inner.done(),
            r matches Some(v) ==> exists|b: Seq<u8>|
                #[trigger] row_of(final(self).inner.inner.page(), b) && (dec0(
                    *old(self).table.datatype,
                    b,
                    0,
                ) is Some ==> v.model() == dec0(*old(self).table.datatype, b, 0).unwrap().0),
    {
        match self.inner.next(&self.table.inner.store, ps) {
            Some(data) => {
                let result = self.table.datatype.bytes_to_value(data.as_slice(), &self.table.inner.store, ps);
                Some(result)
            },
            None => None,
        }
    }

    /// Get the bytes of the next record ( row ) from the table.
    ///
    /// This can be more efficient than decoding the whole row.
    /// Use [Table::select_value] or [Table::lazy_row] to select individual values using the ref.
    pub fn next_ref(&mut self, ps: &mut PageSet) -> (r: Option<Vec<u8>>)
        requires
            old(self).wf(),
        ensures
            final(self).wf(),
            final(self).table == old(self).table,
            final(ps).writes() == old(ps).writes(),
            r is None ==> final(self).inner.done(),
            r matches Some(v) ==> row_of(final(self).inner.inner.page(), v@),
    {
        self.inner.next(&self.table.inner.store, ps)
    }
}

impl<'a> LazyRow<'a> {
    /// Get specified item from row. A copy is kept, which is copied if the
    /// same item is fetched again.
    pub fn item(&mut self, item: usize, ps: &mut PageSet) -> (r: Value)
        requires
            item < old(self).items@.len(),
            *old(self).table.datatype is Tuple || *old(self).table.datatype is Struct,
            item < item_types(*old(self).table.datatype).len(),
            old(self).table.inner.store.made(),
        ensures
            final(self).table == old(self).table,
            final(self).buf == old(self).buf,
            final(self).items@.len() == old(self).items@.len(),
            forall|j: int|
                0 <= j < old(self).items@.len() && j != item ==> #[trigger] final(self).items@[j]
                    == old(self).items@[j],
            final(self).items@[item as int] matches LazyItem::Value(w) && w.model() == r.model(),
            match old(self).items@[item as int] {
                LazyItem::Value(v) => r.model() == v.model(),
                LazyItem::Offset(off) => off <= old(self).buf@.len() && dec0(
                    item_types(*old(self).table.datatype)[item as int],
                    old(self).buf@.subrange(off as int, old(self).buf@.len() as int),
                    0,
                ) is Some ==> r.model() == dec0(
                    item_types(*old(self).table.datatype)[item as int],
                    old(self).buf@.subrange(off as int, old(self).buf@.len() as int),
                    0,
                ).unwrap().0,
            },
            final(ps).writes() == old(ps).writes(),
    {
        let off = match &self.items[item] {
            LazyItem::Value(v) => {
                let r = v.copy();
                let keep = v.copy();
                self.items.set(item, LazyItem::Value(keep));
                return r;
            },
            LazyItem::Offset(off) => *off,
        };
        let n = self.buf.len();
        let v = if off <= n {
            let b = &self.buf[off..n];
            let dt = self.table.datatype.dt_struct(item);
            dt.bytes_to_value(b, &self.table.inner.store, ps)
        } else {
            Value::Empty
        };
        self.items.set(item, LazyItem::Value(v.copy()));
        v
    }

    /// Get the bytes from the offset of an item ( which must not have been
    /// fetched by item ) on.
    pub fn item_ref(&self, item: usize) -> (r: &[u8])
        requires
            item < self.items@.len(),
            self.items@[item as int] matches LazyItem::Offset(off) && off <= self.buf@.len(),
        ensures
            self.items@[item as int] matches LazyItem::Offset(off) && r@ == self.buf@.subrange(
                off as int,
                self.buf@.len() as int,
            ),
    {
        let n = self.buf.len();
        match &self.items[item] {
            LazyItem::Offset(off) => &self.buf[*off..n],
            LazyItem::Value(_) => vstd::pervasive::unreached(),
        }
    }

    /// Get byte slice for item with length ( e.g. string or binary ). Returns
    /// None if value is stored indirectly.
    pub fn item_bytes(&self, item: usize) -> (r: Option<&[u8]>)
        requires
            item < self.items@.len(),
            *self.table.datatype is Tuple || *self.table.datatype is Struct,
            item < item_types(*self.table.datatype).len(),
            item_types(*self.table.datatype)[item as int] is String || item_types(
                *self.table.datatype,
            )[item as int] is Binary,
            self.items@[item as int] matches LazyItem::Offset(off) && off <= self.buf@.len() && ({
                let b = self.buf@.subrange(off as int, self.buf@.len() as int);
                crate::varint::usize_decodable(b, 0) && (crate::varint::dec_usize(b, 0).0 == 0
                    || crate::varint::dec_usize(b, 0).1 + crate::varint::dec_usize(b, 0).0 - 1
                    <= b.len())
            }),
        ensures
            self.items@[item as int] matches LazyItem::Offset(off) && ({
                let b = self.buf@.subrange(off as int, self.buf@.len() as int);
                let (n, p) = crate::varint::dec_usize(b, 0);
                &&& n == 0 ==> r is None
                &&& n != 0 ==> r is Some && r->0@ == b.subrange(p, p + n - 1)
            }),
    {
        let b = self.item_ref(item);
        DataType::bytes(b)
    }
}

impl<'a> OwnedLazyRow<'a> {
    /// Get specified item from row. A copy is kept, which is copied if the
    /// same item is fetched again.
    pub fn item(&mut self, item: usize, ps: &mut PageSet) -> (r: Value)
        requires
            item < old(self).items@.len(),
            *old(self).table.datatype is Tuple || *old(self).table.datatype is Struct,
            item < item_types(*old(self).table.datatype).len(),
            old(self).table.inner.store.made(),
            old(self).sdata.wf(),
        ensures
            final(self).table == old(self).table,
            final(self).sdata == old(self).sdata,
            final(self).items@.len() == old(self).items@.len(),
            forall|j: int|
                0 <= j < old(self).items@.len() && j != item ==> #[trigger] final(self).items@[j]
                    == old(self).items@[j],
            final(self).items@[item as int] matches LazyItem::Value(w) && w.model() == r.model(),
            match old(self).items@[item as int] {
                LazyItem::Value(v) => r.model() == v.model(),
                LazyItem::Offset(off) => off <= old(self).sdata.data().len() && dec0(
                    item_types(*old(self).table.datatype)[item as int],
                    old(self).sdata.tail(off as int),
                    0,
                ) is Some ==> r.model() == dec0(
                    item_types(*old(self).table.datatype)[item as int],
                    old(self).sdata.tail(off as int),
                    0,
                ).unwrap().0,
            },
            final(ps).writes() == old(ps).writes(),
    {
        let off = match &self.items[item] {
            LazyItem::Value(v) => {
                let r = v.copy();
                let keep = v.copy();
                self.items.set(item, LazyItem::Value(keep));
                return r;
            },
            LazyItem::Offset(off) => *off,
        };
        let v = if off <= self.sdata.data_len() {
            let dt = self.table.datatype.dt_struct(item);
            self.sdata.decode_at(dt, off, &self.table.inner.store, ps)
        } else {
            Value::Empty
        };
        self.items.set(item, LazyItem::Value(v.copy()));
        v
    }
}

} // verus!
