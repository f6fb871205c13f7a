//! Hash map of small variable size records, kept in bucket pages below a
//! tree of pages, and the keys that find its records.

use crate::bytes::{get_u64, le_value};
use crate::pageset::PageSet;
use crate::pagetree::{
    cache_page, keeps_pages, lemma_lookup_frame, lemma_lookup_other, lemma_path_other, path_has,
    reads_pages, lookup, path_cached, spec_levels, PageTree,
};
use crate::vbucket::{
    chain_entries, chains_ok, check_chains, first_match, first_match_index, pos_ok, remaining,
    unlinked, voff_of, Pos, Reader, Writer, DATA, FREE, SLOT, SLOTS,
};
use crate::vpage::{check_page, lemma_wf_can_insert, lemma_zero_page_wf, slot_records, wf};
use vstd::prelude::*;

verus! {

/// Key for records of a bucket: decides whether a record belongs to it.
pub trait VKey {
    /// The records that the key accepts.
    spec fn matches(&self, bytes: Seq<u8>) -> bool;

    /// The hash of the key.
    spec fn spec_hash(&self) -> u64;

    /// Does key match specified bytes?
    fn ok(&self, bytes: &[u8]) -> (r: bool)
        ensures
            r == self.matches(bytes@),
    ;

    /// The hash of the key (it picks the bucket and the slot of the key's
    /// records).
    fn hash(&self) -> (r: u64)
        ensures
            r == self.spec_hash(),
    ;

    /// The records whose hash the key can compute.
    spec fn rehash_ok(&self, bytes: Seq<u8>) -> bool;

    /// The hash computed from a record's bytes.
    spec fn spec_rehash(&self, bytes: Seq<u8>) -> u64;

    /// Can the key compute the hash of this record?
    fn can_rehash(&self, bytes: &[u8]) -> (r: bool)
        ensures
            r == self.rehash_ok(bytes@),
    ;

    /// Compute hash from record bytes ( used when number of buckets is
    /// increased ).
    fn rehash(&self, bytes: &[u8]) -> (r: u64)
        requires
            self.rehash_ok(bytes@),
        ensures
            r == self.spec_rehash(bytes@),
    ;

    /// Number of bytes of user data needed for ok or rehash, if known.
    spec fn spec_len(&self) -> Option<usize>;

    /// Number of bytes of user data needed for ok or rehash, if known.
    fn len(&self) -> (r: Option<usize>)
        ensures
            r == self.spec_len(),
    ;
}

/// The hash that `fxhash::hash64` gives for a 64-bit value: the value times
/// the Fx seed, wrapping.
pub open spec fn fx_hash(x: u64) -> u64 {
    ((x as nat * 0x517c_c1b7_2722_0a95nat) % 0x1_0000_0000_0000_0000nat) as u64
}

/// Calls `fxhash::hash64` on a 64-bit value: starting from a zero state, the
/// value is combined with the seed (rotating zero leaves it zero), which
/// leaves the value times the seed.
#[verifier::external_body]
pub(crate) fn fx_hash_u64(x: u64) -> (r: u64)
    ensures
        r == fx_hash(x),
{
    fxhash::hash64(&x)
}

/// Key for records where key is 64 bits, the first 8 bytes of the record.
pub struct IdVKey {
    pub id: u64,
}

impl IdVKey {
    /// Key for id.
    pub fn new(id: u64) -> (r: Self)
        ensures
            r.id == id,
    {
        Self { id }
    }
}

impl VKey for IdVKey {
    /// A record matches when its first 8 bytes hold the id (records shorter
    /// than 8 bytes match no id).
    open spec fn matches(&self, bytes: Seq<u8>) -> bool {
        bytes.len() >= 8 && le_value(bytes.subrange(0, 8)) == self.id
    }

    /// The hash of the id.
    open spec fn spec_hash(&self) -> u64 {
        fx_hash(self.id)
    }

    fn ok(&self, bytes: &[u8]) -> (r: bool) {
        if bytes.len() < 8 {
            return false;
        }
        let id = get_u64(bytes, 0);
        self.id == id
    }

    fn hash(&self) -> (r: u64) {
        fx_hash_u64(self.id)
    }

    /// A record holds an id in its first 8 bytes.
    open spec fn rehash_ok(&self, bytes: Seq<u8>) -> bool {
        bytes.len() >= 8
    }

    /// The hash of the id in the record's first 8 bytes.
    open spec fn spec_rehash(&self, bytes: Seq<u8>) -> u64 {
        fx_hash(le_value(bytes.subrange(0, 8)) as u64)
    }

    fn can_rehash(&self, bytes: &[u8]) -> (r: bool) {
        bytes.len() >= 8
    }

    fn rehash(&self, bytes: &[u8]) -> (r: u64) {
        let id = get_u64(bytes, 0);
        fx_hash_u64(id)
    }

    /// The id takes 8 bytes.
    open spec fn spec_len(&self) -> Option<usize> {
        Some(8)
    }

    fn len(&self) -> (r: Option<usize>) {
        Some(8)
    }
}

impl IdVKey {
}

/// VBuckMap root and buckets, returned when a map is saved.
#[derive(Copy, Clone, Debug, Default, PartialEq, Eq, Structural, Hash)]
pub struct VBuckMapInfo {
    pub root: u64,
    pub buckets: u64,
}

/// Iterator over the records of a map: the bucket page being read, its
/// index, and the position in it.
pub struct VBuckMapIter {
    pub pix: u64,
    pub data: Vec<u8>,
    pub map: VBuckMapInfo,
    pub pos: Pos,
}

impl VBuckMapIter {
    /// The bytes of the bucket page being read.
    pub open spec fn page(&self) -> Seq<u8> {
        self.data@
    }

    /// The records still to visit in the current page, as entries.
    pub open spec fn rest(&self) -> Seq<u8> {
        remaining(self.data@, self.pos.slot as int, self.pos.entry)
    }

    /// The page is empty or its chains end, and the position is usable.
    pub open spec fn wf(&self) -> bool {
        self.data@.len() == 0 || (chains_ok(self.data@) && pos_ok(self.data@, self.pos))
    }

    /// Iterator at the start of bucket page `data`, the first page of `map`.
    pub fn new(data: Vec<u8>, map: VBuckMapInfo) -> (r: Self)
        requires
            data@.len() == 0 || chains_ok(data@),
        ensures
            r.wf(),
            r.page() == data@,
            r.pix == 0,
            r.map == map,
            r.rest() == remaining(data@, 0, 0),
    {
        let r = Self { pix: 0, data, map, pos: Pos::start() };
        proof {
            assert(crate::vbucket::chain(data@, 0, crate::vbucket::max_chain()) is Some);
        }
        r
    }

    /// Look in current page for offset and length of next record.
    pub fn look(&mut self) -> (r: Option<(usize, usize)>)
        requires
            old(self).wf(),
        ensures
            final(self).wf(),
            final(self).page() == old(self).page(),
            final(self).pix == old(self).pix,
            final(self).map == old(self).map,
            old(self).page().len() == 0 ==> r is None,
            old(self).page().len() > 0 && old(self).rest().len() == 0 ==> r is None
                && final(self).rest().len() == 0,
            old(self).page().len() > 0 && old(self).rest().len() > 0 ==> {
                let d = old(self).page();
                let e = old(self).rest()[0] as int;
                &&& r == Some(((voff_of(d, e) + 1) as usize, d[voff_of(d, e)] as usize))
                &&& crate::vbucket::entry_valid(d, e)
                &&& final(self).rest() == old(self).rest().drop_first()
            },
    {
        let r = Reader::new(self.data.as_slice()).iter_next(&mut self.pos);
        r
    }
}

/// `v` is the bytes of a record of page `d`: they follow a length byte
/// that holds their number.
pub open spec fn is_record(d: Seq<u8>, v: Seq<u8>) -> bool {
    exists|off: int|
        1 <= off && off + v.len() <= d.len() && d[off - 1] == v.len() && #[trigger] d.subrange(
            off,
            off + v.len(),
        ) == v
}

/// The bucket page of the map for `hash`, in the cache `c`: the page number
/// that the map's tree gives for bucket `hash % buckets`.
pub open spec fn bucket_of(c: Map<u64, (Seq<u8>, bool)>, m: VBuckMap, hash: u64) -> u64 {
    lookup(c, m.root, spec_levels(m.buckets as nat), (hash % m.buckets) as nat)
}

/// What a lookup of `key` finds in the bucket page `d`: the offset and
/// length of the first record of the key's slot chain that the key accepts.
pub open spec fn page_get<K: VKey>(d: Seq<u8>, key: &K, hash: u64) -> Option<(usize, usize)> {
    match first_match(d, chain_entries(d, d[SLOT + (hash % (SLOTS as u64)) as int]), key) {
        Some(e) => Some(((voff_of(d, e as int) + 1) as usize, d[voff_of(d, e as int)] as usize)),
        None => None,
    }
}

/// Page `p` held the bucket bytes `d` (its cached bytes, when it was cached
/// before), and now holds them with the key's record, `r` bytes long,
/// unlinked from its slot chain; the page is marked changed.
pub open spec fn removed<K: VKey>(
    c: Map<u64, (Seq<u8>, bool)>,
    c0: Map<u64, (Seq<u8>, bool)>,
    p: u64,
    d: Seq<u8>,
    key: &K,
    r: usize,
) -> bool {
    let slot = (key.spec_hash() % (SLOTS as u64)) as int;
    let es = chain_entries(d, d[SLOT + slot]);
    let k = first_match_index(d, es, key);
    &&& p != 0
    &&& c.contains_key(p)
    &&& c[p].1
    &&& chains_ok(d)
    &&& (c0.contains_key(p) ==> c0[p].0 == d || c0[p].0.len() == 0)
    &&& k >= 0
    &&& r == d[voff_of(d, es[k] as int)]
    &&& c[p].0 == unlinked(d, slot, es, k)
}

/// The page `p` that a remove changed is the one that the map's tree gives
/// for `hash`, unless `p` is also one of the tree's pages above it.
pub open spec fn removed_at(c: Map<u64, (Seq<u8>, bool)>, m: VBuckMap, p: u64, hash: u64) -> bool {
    let level = spec_levels(m.buckets as nat);
    let ix = (hash % m.buckets) as nat;
    (bucket_of(c, m, hash) == p && path_cached(c, m.root, level, ix)) || path_has(
        c,
        m.root,
        level,
        ix,
        p,
    )
}

/// Read after remove of the map: right after a remove has unlinked the
/// key's record from the well-formed page that the map's tree gives for the
/// key's hash, a lookup of the key there finds nothing, when the key
/// accepted no other record of its chain (the way being cached, a get
/// reads that very cache, so it returns `None`).
pub proof fn lemma_get_after_remove<K: VKey>(
    c: Map<u64, (Seq<u8>, bool)>,
    c0: Map<u64, (Seq<u8>, bool)>,
    m: VBuckMap,
    p: u64,
    d: Seq<u8>,
    key: &K,
    r: usize,
)
    requires
        removed(c, c0, p, d, key, r),
        removed_at(c, m, p, key.spec_hash()),
        !path_has(c, m.root, spec_levels(m.buckets as nat), (key.spec_hash() % m.buckets) as nat, p),
        wf(d),
        ({
            let slot = (key.spec_hash() % (SLOTS as u64)) as int;
            let es = chain_entries(d, d[SLOT + slot]);
            let k = first_match_index(d, es, key);
            forall|j: int| 0 <= j < es.len() && j != k ==> !key.matches(
                crate::vbucket::record(d, #[trigger] es[j] as int),
            )
        }),
    ensures
        bucket_of(c, m, key.spec_hash()) == p,
        path_cached(c, m.root, spec_levels(m.buckets as nat), (key.spec_hash() % m.buckets) as nat),
        c.contains_key(p),
        wf(cache_page(c, p)),
        page_get(cache_page(c, p), key, key.spec_hash()) is None,
{
    lemma_remove_keeps_page(c, c0, p, d, key, r);
}

/// What a remove leaves in a well-formed bucket page: the page stays
/// well-formed, the other hash slots keep their records, and when the key
/// accepted no other record of its chain a lookup of the key in the page
/// finds nothing.
pub proof fn lemma_remove_keeps_page<K: VKey>(
    c: Map<u64, (Seq<u8>, bool)>,
    c0: Map<u64, (Seq<u8>, bool)>,
    p: u64,
    d: Seq<u8>,
    key: &K,
    r: usize,
)
    requires
        removed(c, c0, p, d, key, r),
        wf(d),
    ensures
        wf(c[p].0),
        forall|s: int|
            0 <= s < SLOTS && s != (key.spec_hash() % (SLOTS as u64)) as int ==> #[trigger] slot_records(
                c[p].0,
                s,
            ) == slot_records(d, s),
        ({
            let slot = (key.spec_hash() % (SLOTS as u64)) as int;
            let es = chain_entries(d, d[SLOT + slot]);
            let k = first_match_index(d, es, key);
            (forall|j: int| 0 <= j < es.len() && j != k ==> !key.matches(
                crate::vbucket::record(d, #[trigger] es[j] as int),
            )) ==> page_get(c[p].0, key, key.spec_hash()) is None
        }),
{
    let slot = (key.spec_hash() % (SLOTS as u64)) as int;
    let es = chain_entries(d, d[SLOT + slot]);
    let k = first_match_index(d, es, key);
    crate::vpage::lemma_first_match_index_range(d, es, key);
    crate::vpage::lemma_unlink_wf(d, slot, k);
    if forall|j: int| 0 <= j < es.len() && j != k ==> !key.matches(
        crate::vbucket::record(d, #[trigger] es[j] as int),
    ) {
        crate::vpage::lemma_page_get_after_remove(d, key, key.spec_hash());
    }
}

/// Page `p` is a well-formed bucket page, marked changed, whose chain for
/// `hash` starts with the record `ud`.
pub open spec fn holds_record(c: Map<u64, (Seq<u8>, bool)>, p: u64, hash: u64, ud: Seq<u8>) -> bool {
    let slot = (hash % (SLOTS as u64)) as int;
    &&& p != 0
    &&& c.contains_key(p)
    &&& c[p].1
    &&& wf(c[p].0)
    &&& slot_records(c[p].0, slot).len() > 0
    &&& slot_records(c[p].0, slot)[0] == ud
}

/// The record `ud` heads its chain in page `p`, which the map's tree gives
/// for `hash` unless `p` is also one of the tree's pages above it.
pub open spec fn stored_at(c: Map<u64, (Seq<u8>, bool)>, m: VBuckMap, p: u64, hash: u64, ud: Seq<u8>) -> bool {
    let level = spec_levels(m.buckets as nat);
    let ix = (hash % m.buckets) as nat;
    &&& holds_record(c, p, hash, ud)
    &&& ((bucket_of(c, m, hash) == p && path_cached(c, m.root, level, ix)) || path_has(
        c,
        m.root,
        level,
        ix,
        p,
    ))
}

/// Largest number of buckets a map can double from.
pub open spec fn max_expand() -> u64 {
    0x3FFF_FFFF_FFFF_FFFF
}

/// What a lookup finds in a page whose chains end lies in the page, and the
/// key accepts it.
pub proof fn lemma_page_get<K: VKey>(d: Seq<u8>, key: &K, hash: u64)
    requires
        chains_ok(d),
    ensures
        match page_get(d, key, hash) {
            Some((off, len)) => off + len <= d.len() && key.matches(d.subrange(off as int, off + len)),
            None => true,
        },
{
    let slot = (hash % (SLOTS as u64)) as int;
    let es = chain_entries(d, d[SLOT + slot]);
    crate::vbucket::lemma_first_match_index(d, es, key);
    let k = first_match_index(d, es, key);
    if k >= 0 {
        assert(crate::vbucket::slot_chain(d, slot) is Some);
        crate::vbucket::lemma_chain_valid(d, d[SLOT + slot], crate::vbucket::max_chain(), k);
    }
}

/// Hash Map implemented as list of buckets, stores small variable size rows.
pub struct VBuckMap {
    /// Number of buckets.
    pub buckets: u64,
    /// Root page.
    pub root: u64,
}

impl VBuckMap {
    /// Start a new map with specified number of buckets ( which must be > 0 ).
    pub fn new(buckets: u64, ps: &mut PageSet) -> (r: Self)
        requires
            buckets > 0,
            old(ps).writes(),
        ensures
            r.buckets == buckets,
            final(ps).writes(),
    {
        let root = ps.new_page();
        let mut pt = PageTree::new(root, 1);
        pt.resize(ps, buckets);
        Self { buckets, root: pt.root }
    }

    /// Get the root and number of buckets. These can change on any insert.
    pub fn save(&self) -> (r: VBuckMapInfo)
        ensures
            r.root == self.root,
            r.buckets == self.buckets,
    {
        VBuckMapInfo { root: self.root, buckets: self.buckets }
    }

    /// Restore from saved root and buckets.
    pub fn restore(info: VBuckMapInfo) -> (r: Self)
        ensures
            r.root == info.root,
            r.buckets == info.buckets,
    {
        Self { root: info.root, buckets: info.buckets }
    }

    /// Get page number for specified index (pix), without making pages.
    fn get_page_num_from_pix(&self, pix: u64, ps: &mut PageSet) -> (r: u64)
        requires
            pix < self.buckets,
        ensures
            r == lookup(final(ps).cache(), self.root, spec_levels(self.buckets as nat), pix as nat),
            path_cached(final(ps).cache(), self.root, spec_levels(self.buckets as nat), pix as nat),
            keeps_pages(old(ps).cache(), final(ps).cache()),
            reads_pages(old(ps).cache(), final(ps).cache()),
            final(ps).writes() == old(ps).writes(),
            path_cached(old(ps).cache(), self.root, spec_levels(self.buckets as nat), pix as nat) && lookup(
                old(ps).cache(),
                self.root,
                spec_levels(self.buckets as nat),
                pix as nat,
            ) != 0 ==> final(ps).cache() == old(ps).cache(),
    {
        let mut pt = PageTree::new(self.root, self.buckets);
        pt.get(ps, pix, false)
    }

    /// Get data for specified key: the bytes of the key's bucket page, and
    /// the offset and length of the key's record in them; `None` if key not
    /// found. A bucket page whose chains do not end is read as empty.
    pub fn get<K: VKey>(&self, key: &K, ps: &mut PageSet) -> (r: Option<(Vec<u8>, usize, usize)>)
        requires
            self.buckets > 0,
        ensures
            ({
                let p = bucket_of(final(ps).cache(), *self, key.spec_hash());
                let d = cache_page(final(ps).cache(), p);
                match r {
                    Some((data, off, len)) => p != 0 && data@ == d && chains_ok(d) && page_get(
                        d,
                        key,
                        key.spec_hash(),
                    ) == Some((off, len)) && off + len <= d.len() && key.matches(
                        d.subrange(off as int, off + len),
                    ),
                    None => p == 0 || d.len() == 0 || !chains_ok(d) || page_get(d, key, key.spec_hash())
                        is None,
                }
            }),
            final(ps).writes() == old(ps).writes(),
            ({
                let level = spec_levels(self.buckets as nat);
                let ix = (key.spec_hash() % self.buckets) as nat;
                let c = old(ps).cache();
                path_cached(c, self.root, level, ix) && bucket_of(c, *self, key.spec_hash()) != 0
                    && c.contains_key(bucket_of(c, *self, key.spec_hash())) ==> final(ps).cache() == c
            }),
    {
        let hash = key.hash();
        let pnum = self.get_page_num_from_pix(hash % self.buckets, ps);
        if pnum == 0 {
            return None;
        }
        let ghost c1 = ps.cache();
        let data = ps.load(pnum);
        proof {
            lemma_lookup_frame(c1, ps.cache(), self.root, spec_levels(self.buckets as nat), (hash
                % self.buckets) as nat);
        }
        if data.len() == 0 || !check_chains(data.as_slice()) {
            return None;
        }
        proof {
            lemma_page_get(data@, key, hash);
        }
        match Reader::new(data.as_slice()).get(key, hash) {
            Some((off, len)) => Some((data, off, len)),
            None => None,
        }
    }

    /// Remove a key. Returns the amount of user data deleted.
    pub fn remove<K: VKey>(&mut self, key: &K, ps: &mut PageSet) -> (r: usize)
        requires
            old(self).buckets > 0,
        ensures
            *final(self) == *old(self),
            final(ps).writes() == old(ps).writes(),
            r > 0 ==> exists|p: u64, d: Seq<u8>|
                #[trigger] removed(final(ps).cache(), old(ps).cache(), p, d, key, r) && removed_at(
                    final(ps).cache(),
                    *old(self),
                    p,
                    key.spec_hash(),
                ) && (path_cached(
                    old(ps).cache(),
                    old(self).root,
                    spec_levels(old(self).buckets as nat),
                    (key.spec_hash() % old(self).buckets) as nat,
                ) && bucket_of(old(ps).cache(), *old(self), key.spec_hash()) != 0 ==> p == bucket_of(
                    old(ps).cache(),
                    *old(self),
                    key.spec_hash(),
                )),
            ({
                let h = key.spec_hash();
                let c = old(ps).cache();
                let p = bucket_of(c, *old(self), h);
                let d = cache_page(c, p);
                path_cached(c, old(self).root, spec_levels(old(self).buckets as nat), (h
                    % old(self).buckets) as nat) && p != 0 && c.contains_key(p) && chains_ok(d) ==> match
                page_get(d, key, h) {
                    Some((o, l)) => l > 0 ==> r == l,
                    None => true,
                }
            }),
    {
        let hash = key.hash();
        let ghost c0 = ps.cache();
        let pnum = self.get_page_num_from_pix(hash % self.buckets, ps);
        if pnum != 0 {
            let ghost c1 = ps.cache();
            let _ = ps.load(pnum);
            let mut data = ps.take_data(pnum);
            let ghost fresh = data.len() == 0;
            if data.len() == 0 {
                let size = ps.compute_size(1000);  // Start page size
                data = vec![0u8; size];
                proof {
                    assert forall|i: int| 0 <= i < data@.len() implies data@[i] == 0 by {
                        assert(vstd::pervasive::cloned::<u8>(0u8, data@[i]));
                    }
                }
            }
            if data.len() <= FREE || !check_chains(data.as_slice()) {
                ps.set_data(pnum, data);
                return 0;
            }
            let ghost d = data@;
            let mut w = Writer::new(data);
            proof {
                let slot = (hash % (SLOTS as u64)) as int;
                crate::vbucket::lemma_first_match_index(d, chain_entries(d, d[SLOT + slot]), key);
            }
            let result = w.remove(key, hash);
            ps.set_data(pnum, w.into_data());
            if result > 0 {
                ps.set_changed(pnum);
                proof {
                    if fresh {
                        let slot = (hash % (SLOTS as u64)) as int;
                        assert(d[SLOT + slot] == 0);
                        assert(chain_entries(d, 0) =~= Seq::<u8>::empty());
                    }
                    assert(removed(ps.cache(), old(ps).cache(), pnum, d, key, result));
                    let c = ps.cache();
                    let pix = hash % self.buckets;
                    assert forall|q: u64| q != pnum implies cache_page(c, q) == #[trigger] cache_page(c1, q) by {}
                    lemma_lookup_other(c1, c, pnum, self.root, spec_levels(self.buckets as nat), pix as nat);
                    if !path_has(c1, self.root, spec_levels(self.buckets as nat), pix as nat, pnum) {
                        lemma_path_other(c1, c, pnum, self.root, spec_levels(self.buckets as nat), pix as nat);
                    }
                    assert(removed_at(c, *self, pnum, hash));
                }
            }
            return result;
        }
        0
    }

    /// Get iterator that returns all records (rows).
    pub fn iter(&self, ps: &mut PageSet) -> (r: VBuckMapIter)
        requires
            self.buckets > 0,
        ensures
            r.wf(),
            r.pix == 0,
            r.map == (VBuckMapInfo { root: self.root, buckets: self.buckets }),
            final(ps).writes() == old(ps).writes(),
    {
        let pnum = self.get_page_num_from_pix(0, ps);
        let mut data = ps.load(pnum);
        if !check_chains(data.as_slice()) {
            data = Vec::new();
        }
        VBuckMapIter::new(data, self.save())
    }

    /// Insert user data, must not be a duplicate key ( but this is not
    /// checked ). Length of user data must be less than 256.
    pub fn insert<K: VKey>(&mut self, key: &K, user_data: &[u8], ps: &mut PageSet)
        requires
            old(self).buckets > 0,
            old(ps).writes(),
            user_data@.len() < 256,
        ensures
            final(ps).writes(),
            final(self).buckets >= old(self).buckets,
            final(self).buckets > max_expand() || exists|p: u64|
                #[trigger] stored_at(final(ps).cache(), *final(self), p, key.spec_hash(), user_data@),
    {
        let hash = key.hash();
        self.do_insert(user_data, hash, key, ps);
    }

    /// Insert user_data, making more buckets while its bucket is full.
    fn do_insert<K: VKey>(&mut self, user_data: &[u8], hash: u64, key: &K, ps: &mut PageSet)
        requires
            old(self).buckets > 0,
            old(ps).writes(),
            user_data@.len() < 256,
        ensures
            final(ps).writes(),
            final(self).buckets >= old(self).buckets,
            final(self).buckets > max_expand() || exists|p: u64|
                #[trigger] stored_at(final(ps).cache(), *final(self), p, hash, user_data@),
        decreases u64::MAX - old(self).buckets, 1nat,
    {
        loop
            invariant
                ps.writes(),
                self.buckets >= old(self).buckets,
                self.buckets > 0,
                user_data@.len() < 256,
            decreases u64::MAX - self.buckets,
        {
            if self.try_insert(user_data, hash, ps).is_ok() {
                return;
            }
            if self.buckets > 0x3FFF_FFFF_FFFF_FFFF {
                // No more buckets can be made.
                return;
            }
            self.expand(key, ps);
        }
    }

    /// Attempt to insert user_data. If this fails due to page size limit
    /// being reached returns Err.
    fn try_insert(&mut self, user_data: &[u8], hash: u64, ps: &mut PageSet) -> (r: Result<(), ()>)
        requires
            old(self).buckets > 0,
            old(ps).writes(),
            user_data@.len() < 256,
        ensures
            *final(self) == *old(self),
            final(ps).writes(),
            r is Ok ==> exists|p: u64| #[trigger] stored_at(final(ps).cache(), *old(self), p, hash, user_data@),
            ({
                let c = old(ps).cache();
                let p = bucket_of(c, *old(self), hash);
                let d = cache_page(c, p);
                path_cached(c, old(self).root, spec_levels(old(self).buckets as nat), (hash
                    % old(self).buckets) as nat) && p != 0 && c.contains_key(p) && wf(d) && !(
                d[FREE as int] == 0 && d[crate::vbucket::EALL as int] == 255) && crate::vbucket::space_needed(
                    d,
                    user_data@.len() as int,
                ) == 0 ==> r is Ok
            }),
    {
        let pix = hash % self.buckets;
        let mut pt = PageTree::new(self.root, self.buckets);
        let pnum = pt.get(ps, pix, true);
        if pnum == 0 {
            return Err(());
        }
        let ghost c1 = ps.cache();
        let _ = ps.load(pnum);
        let original = ps.take_data(pnum);
        let mut data: Vec<u8> = original.clone();
        proof {
            assert(data@ =~= original@);
        }
        if data.len() == 0 || !check_page(data.as_slice()) {
            // A new page, or bytes that are not a bucket page.
            let size = ps.compute_size(1000);  // Start page size
            if size < 1000 || size >= 65536 {
                ps.set_data(pnum, original);
                return Err(());
            }
            data = vec![0u8; size];
            proof {
                assert forall|i: int| 0 <= i < data@.len() implies data@[i] == 0 by {
                    assert(vstd::pervasive::cloned::<u8>(0u8, data@[i]));
                }
                lemma_zero_page_wf(data@);
            }
        }
        let n = user_data.len();
        let mut w = Writer::new(data);
        if w.entry_full() {
            ps.set_data(pnum, original);
            return Err(());
        }
        let space = w.space(n);
        if space > 0 {
            let mut base = w.into_data();
            let need = Reader::new(base.as_slice()).records_size();
            let mut more = space;
            if need <= base.len() {
                // Simple compact.
                let compact = Reader::new(base.as_slice()).rebuild(base.len());
                let w2 = Writer::new(compact);
                more = w2.space(n);
                base = w2.into_data();
            }
            if more > 0 {
                // Simple compact didn't work, need a bigger page size.
                let need2 = Reader::new(base.as_slice()).records_size();
                let new_size = ps.compute_size(base.len() + more);
                if new_size == 0 || new_size < need2 || new_size >= 65536 {
                    ps.set_data(pnum, original);
                    return Err(());  // Page size limit reached, expand number of buckets.
                }
                base = Reader::new(base.as_slice()).rebuild(new_size);
            }
            w = Writer::new(base);
            if w.entry_full() || w.space(n) > 0 {
                ps.set_data(pnum, original);
                return Err(());
            }
        }
        proof {
            lemma_wf_can_insert(w@, (hash % (SLOTS as u64)) as int, n as int);
        }
        w.insert(user_data, hash);
        ps.set_data(pnum, w.into_data());
        ps.set_changed(pnum);
        proof {
            let c = ps.cache();
            assert forall|q: u64| q != pnum implies cache_page(c, q) == #[trigger] cache_page(c1, q) by {}
            lemma_lookup_other(c1, c, pnum, self.root, spec_levels(self.buckets as nat), pix as nat);
            if !path_has(c1, self.root, spec_levels(self.buckets as nat), pix as nat, pnum) {
                lemma_path_other(c1, c, pnum, self.root, spec_levels(self.buckets as nat), pix as nat);
            }
            assert(stored_at(c, *self, pnum, hash, user_data@));
        }
        Ok(())
    }

    /// Increase the number of buckets, due to page size limit being reached
    /// for some bucket: the records go to a new map with more buckets.
    /// Records whose hash the key cannot compute are left out.
    fn expand<K: VKey>(&mut self, key: &K, ps: &mut PageSet)
        requires
            old(self).buckets > 0,
            old(self).buckets <= max_expand(),
            old(ps).writes(),
        ensures
            final(ps).writes(),
            final(self).buckets > old(self).buckets,
        decreases u64::MAX - old(self).buckets, 0nat,
    {
        let buckets = 1 + self.buckets * 2;
        let mut new = VBuckMap::new(buckets, ps).save();
        let mut iter = VBuckMap::restore(self.save()).iter(ps);
        loop
            invariant
                ps.writes(),
                iter.wf(),
                iter.pix < iter.map.buckets,
                new.buckets >= buckets,
                buckets == 1 + old(self).buckets * 2,
                self.buckets == old(self).buckets,
            decreases iter.map.buckets - iter.pix, iter.rest().len(),
        {
            match iter.next(ps) {
                None => {
                    break;
                },
                Some(r) => {
                    if key.can_rehash(r.as_slice()) {
                        let h = key.rehash(r.as_slice());
                        let mut m = VBuckMap::restore(new);
                        m.do_insert(r.as_slice(), h, key, ps);
                        new = m.save();
                    }
                },
            }
        }
        self.delete_all(ps);  // Delete the old pages, use pages from new map.
        self.root = new.root;
        self.buckets = new.buckets;
    }

    /// Delete everything. Map is no longer usable.
    pub fn delete_all(&mut self, ps: &mut PageSet)
        requires
            old(ps).writes(),
        ensures
            final(self).root == 0,
            final(self).buckets == old(self).buckets,
            final(ps).writes(),
            old(self).root != 0 ==> !final(ps).cache().contains_key(old(self).root),
    {
        let mut pt = PageTree::new(self.root, self.buckets);
        pt.drop_pages(ps);
        self.root = 0;
    }
}

impl VBuckMapIter {
    /// Get next record (a copy of its bytes).
    pub fn next(&mut self, ps: &mut PageSet) -> (r: Option<Vec<u8>>)
        requires
            old(self).wf(),
            old(self).pix < old(self).map.buckets,
        ensures
            final(self).wf(),
            final(self).pix < final(self).map.buckets,
            final(self).map == old(self).map,
            final(ps).writes() == old(ps).writes(),
            keeps_pages(old(ps).cache(), final(ps).cache()),
            r is Some ==> r.unwrap()@.len() < 256,
            r is Some ==> final(self).pix > old(self).pix || (final(self).pix == old(self).pix
                && final(self).rest().len() < old(self).rest().len()),
            r matches Some(v) ==> is_record(final(self).page(), v@),
            r is None ==> final(self).pix + 1 == final(self).map.buckets && (final(self).page().len()
                == 0 || final(self).rest().len() == 0),
    {
        match self.off_and_len(ps) {
            Some((off, len)) => {
                let mut v: Vec<u8> = Vec::new();
                let n = self.data.len();
                let end = off + len;
                let mut i: usize = off;
                while i < end
                    invariant
                        end <= self.data@.len(),
                        off <= i <= end,
                        len < 256,
                        end == off + len,
                        v@ == self.data@.subrange(off as int, i as int),
                    decreases end - i,
                {
                    v.push(self.data[i]);
                    i += 1;
                    proof {
                        assert(v@ =~= self.data@.subrange(off as int, i as int));
                    }
                }
                proof {
                    assert(v@ == self.page().subrange(off as int, off + v@.len()));
                }
                Some(v)
            },
            None => None,
        }
    }

    /// Get offset and length of next record.
    fn off_and_len(&mut self, ps: &mut PageSet) -> (r: Option<(usize, usize)>)
        requires
            old(self).wf(),
            old(self).pix < old(self).map.buckets,
        ensures
            final(self).wf(),
            final(self).pix < final(self).map.buckets,
            final(self).map == old(self).map,
            final(ps).writes() == old(ps).writes(),
            keeps_pages(old(ps).cache(), final(ps).cache()),
            match r {
                Some((off, len)) => off >= 1 && off + len <= final(self).data@.len()
                    && final(self).data@[off - 1] == len && len < 256 && (final(self).pix
                    > old(self).pix || (final(self).pix == old(self).pix && final(self).rest().len()
                    < old(self).rest().len())),
                None => final(self).pix + 1 == final(self).map.buckets && (final(self).page().len()
                    == 0 || final(self).rest().len() == 0),
            },
    {
        loop
            invariant
                self.wf(),
                self.pix < self.map.buckets,
                self.map == old(self).map,
                ps.writes() == old(ps).writes(),
                keeps_pages(old(ps).cache(), ps.cache()),
                self.pix > old(self).pix || (self.pix == old(self).pix && self.rest() == old(self).rest()),
            decreases self.map.buckets - self.pix,
        {
            let ghost d = self.data@;
            if let Some(x) = self.look() {
                return Some(x);
            } else if self.pix + 1 == self.map.buckets {
                return None;
            } else {
                self.pix += 1;
                let m = VBuckMap::restore(self.map);
                let pnum = m.get_page_num_from_pix(self.pix, ps);
                let mut data = ps.load(pnum);
                if !check_chains(data.as_slice()) {
                    data = Vec::new();
                }
                self.data = data;
                self.pos = Pos::start();
                proof {
                    assert(crate::vbucket::chain(self.data@, 0, crate::vbucket::max_chain()) is Some);
                }
            }
        }
    }
}

/// Read after write of the map: right after an insert has put `ud` in the
/// page that the map's tree gives for the key's hash, a lookup of a key that
/// accepts `ud` finds it there (and, the way being cached, a get reads that
/// very cache).
pub proof fn lemma_get_after_insert<K: VKey>(
    c: Map<u64, (Seq<u8>, bool)>,
    m: VBuckMap,
    p: u64,
    key: &K,
    ud: Seq<u8>,
)
    requires
        stored_at(c, m, p, key.spec_hash(), ud),
        bucket_of(c, m, key.spec_hash()) == p,
        path_cached(c, m.root, spec_levels(m.buckets as nat), (key.spec_hash() % m.buckets) as nat),
        key.matches(ud),
    ensures
        cache_page(c, p).len() > 0,
        chains_ok(cache_page(c, p)),
        match page_get(cache_page(c, p), key, key.spec_hash()) {
            Some((off, len)) => off + len <= cache_page(c, p).len() && cache_page(c, p).subrange(
                off as int,
                off + len,
            ) == ud,
            None => false,
        },
{
    let hash = key.spec_hash();
    let d = c[p].0;
    let slot = (hash % (SLOTS as u64)) as int;
    let es = crate::vpage::slot_entries(d, slot);
    assert(slot_records(d, slot)[0] == crate::vbucket::record(d, es[0] as int));
    assert(crate::vbucket::slot_chain(d, slot) is Some);
    crate::vbucket::lemma_chain_step(d, d[SLOT + slot]);
    assert(es[0] == d[SLOT + slot]);
}

} // verus!
