//! Values and keys of the hash map of fixed size values, and its saved state.

use crate::bucket::{
    chain, chains_ok, check_chains, entry_ok, find, hash_of, size, slot_entries, slot_pairs, spec_ents,
    spec_eoff, spec_esize, value_bytes, Reader, Writer, ENTA, FREE, SLOT, SLOTS, USED,
};
use crate::bytes::{get_u64, le_bytes, le_value};
use crate::pageset::PageSet;
use crate::pagetree::{
    cache_page, keeps_pages, lemma_lookup_other, lemma_path_other, lookup, path_cached, path_has,
    reads_pages, spec_levels, PageTree,
};
use crate::value::Val;
use crate::value::Value;
use core::marker::PhantomData;
use vstd::prelude::*;

verus! {

/// Value for Hash Map lookup: a fixed number of bytes.
pub trait SmallFixed: Sized {
    /// Number of bytes of a value.
    spec fn spec_size() -> nat;

    /// The value that `bytes` hold.
    spec fn spec_load(bytes: Seq<u8>) -> Self;

    /// The bytes of a value.
    spec fn spec_bytes(v: Self) -> Seq<u8>;

    /// Number of bytes of a value (small enough for a page to hold some).
    fn size() -> (r: usize)
        ensures
            r == Self::spec_size(),
            1 <= r <= 3600,
    ;

    /// The value that `bytes` hold.
    fn load(bytes: &[u8]) -> (r: Self)
        requires
            bytes@.len() == Self::spec_size(),
        ensures
            r == Self::spec_load(bytes@),
    ;

    /// Writes the bytes of the value.
    fn save(&self, bytes: &mut [u8])
        requires
            old(bytes)@.len() == Self::spec_size(),
        ensures
            final(bytes)@ == Self::spec_bytes(*self),
            Self::spec_bytes(*self).len() == Self::spec_size(),
    ;
}

impl SmallFixed for i64 {
    open spec fn spec_size() -> nat {
        8
    }

    open spec fn spec_load(bytes: Seq<u8>) -> i64 {
        crate::datatype::i64_of(le_value(bytes))
    }

    open spec fn spec_bytes(v: i64) -> Seq<u8> {
        crate::datatype::int_bytes(v)
    }

    fn size() -> (r: usize) {
        8
    }

    fn load(bytes: &[u8]) -> (r: i64) {
        let u = get_u64(bytes, 0);
        proof {
            assert(bytes@.subrange(0, 8) =~= bytes@);
        }
        if u < 0x8000_0000_0000_0000 {
            u as i64
        } else {
            let t = (u - 0x8000_0000_0000_0000) as i64;
            t - i64::MAX - 1
        }
    }

    fn save(&self, bytes: &mut [u8]) {
        let v = *self;
        proof {
            crate::bytes::lemma_le_bytes_len(crate::datatype::u64_of(v), 8);
        }
        let mut x: u64 = if v >= 0 {
            v as u64
        } else {
            let t = (v + i64::MAX) + 1;
            (t as u64) + 0x8000_0000_0000_0000
        };
        let ghost u = x;
        let mut i: usize = 0;
        while i < 8
            invariant
                i <= 8,
                bytes@.len() == 8,
                u == crate::datatype::u64_of(v),
                bytes@.subrange(0, i as int) + le_bytes(x as nat, (8 - i) as nat) == le_bytes(
                    u as nat,
                    8,
                ),
            decreases 8 - i,
        {
            let ghost x0 = x;
            let ghost before = bytes@;
            bytes[i] = (x % 256) as u8;
            x = x / 256;
            i += 1;
            proof {
                assert(le_bytes(x0 as nat, (8 - i + 1) as nat) == seq![(x0 % 256) as u8] + le_bytes(
                    x as nat,
                    (8 - i) as nat,
                ));
                assert(bytes@.subrange(0, i as int) =~= before.subrange(0, i - 1).push(
                    (x0 % 256) as u8,
                ));
                assert(bytes@.subrange(0, i as int) + le_bytes(x as nat, (8 - i) as nat)
                    =~= before.subrange(0, i - 1) + le_bytes(x0 as nat, (8 - i + 1) as nat));
            }
        }
        proof {
            assert(bytes@ =~= bytes@.subrange(0, 8) + le_bytes(x as nat, 0));
        }
    }
}

/// Key for Hash Map lookup: decides whether a value found by hash belongs to it.
pub trait Key<T: SmallFixed> {
    /// What the key makes of a value found by hash (`None` when it is not the key's).
    spec fn spec_ok(&self, addr: T) -> Option<(T, Val)>;

    /// The hash of the key.
    spec fn spec_hash(&self) -> u64;

    /// The hash of the key (the map finds the key's bucket by it).
    fn hash(&self) -> (r: u64)
        ensures
            r == self.spec_hash(),
    ;

    /// Check that hash lookup has found correct value.
    fn ok(&self, addr: T) -> (r: Option<(T, Value)>)
        ensures
            match r {
                Some((a, v)) => self.spec_ok(addr) == Some((a, v.model())),
                None => self.spec_ok(addr) is None,
            },
    ;
}

/// Key for maps whose values are ids: a value belongs to the key when it is
/// the key's id, and the key makes of it the id and its Int value.
pub struct IdKey {
    pub id: i64,
}

impl Key<i64> for IdKey {
    open spec fn spec_ok(&self, addr: i64) -> Option<(i64, Val)> {
        if addr == self.id {
            Some((addr, Val::Int(addr)))
        } else {
            None
        }
    }

    open spec fn spec_hash(&self) -> u64 {
        crate::vbuckmap::fx_hash(self.id as u64)
    }

    fn hash(&self) -> (r: u64) {
        crate::vbuckmap::fx_hash_u64(self.id as u64)
    }

    fn ok(&self, addr: i64) -> (r: Option<(i64, Value)>) {
        if addr == self.id {
            Some((addr, Value::Int(addr)))
        } else {
            None
        }
    }
}

/// BuckMap root and buckets, returned when a map is saved.
#[derive(Copy, Clone, Debug, Default, PartialEq, Eq, Structural, Hash)]
pub struct BuckMapInfo {
    pub root: u64,
    pub buckets: u64,
}

/// The page that map (`root`, `buckets`) gives for `hash` in cache `c`.
pub open spec fn bpage(c: Map<u64, (Seq<u8>, bool)>, root: u64, buckets: u64, hash: u64) -> u64 {
    lookup(c, root, spec_levels(buckets as nat), (hash % buckets) as nat)
}

/// Page `p` is cached, marked changed, and the head of the slot chain of
/// `hash` in it holds `hash` and the bytes of `v`.
pub open spec fn bholds<T: SmallFixed>(c: Map<u64, (Seq<u8>, bool)>, p: u64, hash: u64, v: T) -> bool {
    let es = spec_esize(T::spec_size());
    let d = c[p].0;
    let e = d[SLOT + (hash % (SLOTS as u64)) as int];
    &&& p != 0
    &&& c.contains_key(p)
    &&& c[p].1
    &&& d.len() >= ENTA
    &&& e != 0
    &&& entry_ok(d, e as int, es)
    &&& hash_of(d, e as int, es) == hash
    &&& value_bytes(d, e as int, es) == T::spec_bytes(v)
}

/// `v` heads its slot chain in page `p`, which the map's tree gives for
/// `hash` unless `p` is also one of the tree's pages above it.
pub open spec fn bstored_at<T: SmallFixed>(
    c: Map<u64, (Seq<u8>, bool)>,
    root: u64,
    buckets: u64,
    p: u64,
    hash: u64,
    v: T,
) -> bool {
    let level = spec_levels(buckets as nat);
    let ix = (hash % buckets) as nat;
    &&& bholds(c, p, hash, v)
    &&& ((bpage(c, root, buckets, hash) == p && path_cached(c, root, level, ix)) || path_has(
        c,
        root,
        level,
        ix,
        p,
    ))
}

/// Page `p` held the bucket bytes `d`, and now holds them with the entry
/// that the key found (`(a, v)` is what it makes of it) unlinked from its
/// slot chain; the page is marked changed.
pub open spec fn bremoved<T: SmallFixed, K: Key<T>>(
    c: Map<u64, (Seq<u8>, bool)>,
    p: u64,
    d: Seq<u8>,
    key: &K,
    a: T,
    v: Val,
) -> bool {
    let es = spec_esize(T::spec_size());
    let slot = (key.spec_hash() % (SLOTS as u64)) as int;
    let all = slot_entries(d, slot, es);
    &&& p != 0
    &&& c.contains_key(p)
    &&& c[p].1
    &&& chains_ok(d, es)
    &&& find::<T, K>(d, all, es, key.spec_hash(), key) == Some((a, v))
    &&& c[p].0 == crate::bucket::unlinked(
        d,
        slot,
        all,
        crate::bucket::find_index::<T, K>(d, all, es, key.spec_hash(), key),
        es,
    )
}

/// Every bucket from `pix` on of the map (`root`, `buckets`) has its way
/// and its page cached in `c`, and no bucket page is missing (so reading
/// the buckets reads only the cache).
pub open spec fn all_cached(c: Map<u64, (Seq<u8>, bool)>, root: u64, buckets: u64, pix: nat) -> bool {
    forall|i: nat|
        pix <= i < buckets ==> #[trigger] path_cached(c, root, spec_levels(buckets as nat), i) && lookup(
            c,
            root,
            spec_levels(buckets as nat),
            i,
        ) != 0 && c.contains_key(lookup(c, root, spec_levels(buckets as nat), i))
}

/// The (value, hash) pairs of bucket `pix` in cache `c`, slot by slot (none
/// where its chains do not end).
pub open spec fn bucket_pairs<T: SmallFixed>(
    c: Map<u64, (Seq<u8>, bool)>,
    root: u64,
    buckets: u64,
    pix: nat,
) -> Seq<(T, u64)> {
    let d = cache_page(c, lookup(c, root, spec_levels(buckets as nat), pix));
    let es = spec_esize(T::spec_size());
    if chains_ok(d, es) {
        slot_pairs::<T>(d, es, SLOTS as nat)
    } else {
        Seq::empty()
    }
}

/// The (value, hash) pairs of the buckets from `pix` on, bucket by bucket.
pub open spec fn pairs_from<T: SmallFixed>(
    c: Map<u64, (Seq<u8>, bool)>,
    root: u64,
    buckets: u64,
    pix: nat,
) -> Seq<(T, u64)>
    decreases buckets - pix,
{
    if pix >= buckets {
        Seq::empty()
    } else {
        bucket_pairs::<T>(c, root, buckets, pix) + pairs_from::<T>(c, root, buckets, pix + 1)
    }
}

/// The values of `s`, in order.
pub open spec fn addrs<T: SmallFixed>(s: Seq<(T, u64)>) -> Seq<T> {
    s.map_values(|x: (T, u64)| x.0)
}

/// Largest number of buckets a map can grow from.
pub open spec fn max_grow() -> u64 {
    0x0FFF_FFFF_FFFF_FFFF
}

/// Read after write of a map of fixed size values: where `v` heads the slot
/// chain of its hash in the page that the map's tree gives for the hash (as
/// [BuckMap::insert] leaves it), and the page's chains end, a lookup of a
/// key with that hash that accepts `v` finds `v` first: [BuckMap::get] gives
/// what the key makes of it.
pub proof fn lemma_get_after_insert<T: SmallFixed, K: Key<T>>(
    c: Map<u64, (Seq<u8>, bool)>,
    root: u64,
    buckets: u64,
    p: u64,
    key: &K,
    v: T,
)
    requires
        bstored_at(c, root, buckets, p, key.spec_hash(), v),
        bpage(c, root, buckets, key.spec_hash()) == p,
        chains_ok(c[p].0, spec_esize(T::spec_size())),
        key.spec_ok(T::spec_load(T::spec_bytes(v))) is Some,
    ensures
        ({
            let d = cache_page(c, p);
            let es = spec_esize(T::spec_size());
            find::<T, K>(
                d,
                slot_entries(d, (key.spec_hash() % (SLOTS as u64)) as int, es),
                es,
                key.spec_hash(),
                key,
            ) == key.spec_ok(T::spec_load(T::spec_bytes(v)))
        }),
{
    let d = c[p].0;
    let es = spec_esize(T::spec_size());
    let slot = (key.spec_hash() % (SLOTS as u64)) as int;
    let e = d[SLOT + slot];
    assert(chain(d, e, es, 256) is Some);
    crate::bucket::lemma_chain_step(d, e, es);
}

/// Hash Map implemented as list of buckets, holding fixed size values.
pub struct BuckMap<T: SmallFixed> {
    /// Number of buckets.
    pub buckets: u64,
    /// Root page.
    pub root: u64,
    /// Has root changed?
    pub new_root: bool,
    pub pd: PhantomData<T>,
}

/// Byte `i` of `d`, or 0 past its end (what padding with zeros reads).
pub open spec fn byte_or_zero(d: Seq<u8>, i: int) -> u8 {
    if 0 <= i < d.len() {
        d[i]
    } else {
        0
    }
}

/// `d` cut or padded with zeros to `n` bytes.
pub open spec fn resized(d: Seq<u8>, n: nat) -> Seq<u8> {
    Seq::new(n, |i: int| byte_or_zero(d, i))
}

/// `data` resized to `n` bytes: cut, or padded with zeros.
fn resize_zero(data: &mut Vec<u8>, n: usize)
    ensures
        final(data)@.len() == n,
        forall|i: int| 0 <= i < n ==> #[trigger] final(data)@[i] == if i < old(data)@.len() {
            old(data)@[i]
        } else {
            0u8
        },
{
    if data.len() > n {
        data.truncate(n);
    } else {
        while data.len() < n
            invariant
                old(data)@.len() <= data@.len() <= n,
                forall|i: int| 0 <= i < data@.len() ==> #[trigger] data@[i] == if i < old(
                    data,
                )@.len() {
                    old(data)@[i]
                } else {
                    0u8
                },
            decreases n - data@.len(),
        {
            data.push(0);
        }
    }
}

impl<T: SmallFixed> BuckMap<T> {
    /// Start a new map with specified number of buckets ( which must be > 0 ).
    pub fn new(buckets: u64, ps: &mut PageSet) -> (r: Self)
        requires
            buckets > 0,
            old(ps).writes(),
        ensures
            r.buckets == buckets,
            r.new_root,
            final(ps).writes(),
    {
        let root = ps.new_page();
        let mut pt = PageTree::new(root, 1);
        pt.resize(ps, buckets);
        Self { buckets, root: pt.root, new_root: true, pd: PhantomData }
    }

    /// Has root and buckets changed ( so needs to be saved )?
    pub fn root_changed(&self) -> (r: bool)
        ensures
            r == self.new_root,
    {
        self.new_root
    }

    /// Get the root and number of buckets. These can change on any insert.
    pub fn save(&self) -> (r: BuckMapInfo)
        ensures
            r.root == self.root,
            r.buckets == self.buckets,
    {
        BuckMapInfo { root: self.root, buckets: self.buckets }
    }

    /// Restore from saved root and buckets.
    pub fn restore(info: BuckMapInfo) -> (r: Self)
        ensures
            r.root == info.root,
            r.buckets == info.buckets,
            !r.new_root,
    {
        Self { root: info.root, buckets: info.buckets, new_root: false, pd: PhantomData }
    }

    /// Page number of the bucket for `hash` (made when `create`).
    fn get_page_num(&self, hash: u64, create: bool, ps: &mut PageSet) -> (r: u64)
        requires
            self.buckets > 0,
            create ==> old(ps).writes(),
        ensures
            r == bpage(final(ps).cache(), self.root, self.buckets, hash),
            path_cached(
                final(ps).cache(),
                self.root,
                spec_levels(self.buckets as nat),
                (hash % self.buckets) as nat,
            ),
            keeps_pages(old(ps).cache(), final(ps).cache()),
            final(ps).writes() == old(ps).writes(),
            !create && path_cached(
                old(ps).cache(),
                self.root,
                spec_levels(self.buckets as nat),
                (hash % self.buckets) as nat,
            ) && bpage(old(ps).cache(), self.root, self.buckets, hash) != 0 ==> final(ps).cache()
                == old(ps).cache(),
    {
        let pix = hash % self.buckets;
        PageTree::new(self.root, self.buckets).get(ps, pix, create)
    }

    /// Get addr and value from specified key, returns None if key not found.
    /// A bucket page whose chains do not end is read as empty.
    pub fn get<K: Key<T>>(&self, key: &K, ps: &mut PageSet) -> (r: Option<(T, Value)>)
        requires
            self.buckets > 0,
        ensures
            ({
                let p = bpage(final(ps).cache(), self.root, self.buckets, key.spec_hash());
                let d = cache_page(final(ps).cache(), p);
                let es = spec_esize(T::spec_size());
                let f = find::<T, K>(
                    d,
                    slot_entries(d, (key.spec_hash() % (SLOTS as u64)) as int, es),
                    es,
                    key.spec_hash(),
                    key,
                );
                match r {
                    Some((a, v)) => p != 0 && chains_ok(d, es) && f == Some((a, v.model())),
                    None => p == 0 || !chains_ok(d, es) || f is None,
                }
            }),
            final(ps).writes() == old(ps).writes(),
            ({
                let c = old(ps).cache();
                let p = bpage(c, self.root, self.buckets, key.spec_hash());
                path_cached(
                    c,
                    self.root,
                    spec_levels(self.buckets as nat),
                    (key.spec_hash() % self.buckets) as nat,
                ) && p != 0 && c.contains_key(p) ==> final(ps).cache() == c
            }),
    {
        let hash = key.hash();
        let pnum = self.get_page_num(hash, false, ps);
        if pnum == 0 {
            return None;
        }
        let ghost c1 = ps.cache();
        let data = ps.load(pnum);
        proof {
            crate::pagetree::lemma_lookup_frame(
                c1,
                ps.cache(),
                self.root,
                spec_levels(self.buckets as nat),
                (hash % self.buckets) as nat,
            );
        }
        if !check_chains::<T>(data.as_slice()) {
            return None;
        }
        Reader::new(data.as_slice()).get(key, hash)
    }

    /// Remove a key, returns associated addr and value or None if key not
    /// found. A bucket page whose chains do not end is read as empty.
    pub fn remove<K: Key<T>>(&mut self, key: &K, ps: &mut PageSet) -> (r: Option<(T, Value)>)
        requires
            old(self).buckets > 0,
        ensures
            *final(self) == *old(self),
            final(ps).writes() == old(ps).writes(),
            r matches Some((a, v)) ==> exists|p: u64, d: Seq<u8>|
                #[trigger] bremoved(final(ps).cache(), p, d, key, a, v.model()),
            ({
                let c = old(ps).cache();
                let h = key.spec_hash();
                let p = bpage(c, old(self).root, old(self).buckets, h);
                let es = spec_esize(T::spec_size());
                let d = resized(cache_page(c, p), (ENTA + spec_ents(T::spec_size()) * es) as nat);
                let f = find::<T, K>(d, slot_entries(d, (h % (SLOTS as u64)) as int, es), es, h, key);
                path_cached(c, old(self).root, spec_levels(old(self).buckets as nat), (h
                    % old(self).buckets) as nat) && p != 0 && c.contains_key(p) && chains_ok(d, es)
                    ==> match r {
                    Some((a, v)) => f == Some((a, v.model())),
                    None => f is None,
                }
            }),
    {
        let hash = key.hash();
        let ghost c0 = ps.cache();
        let pnum = self.get_page_num(hash, false, ps);
        if pnum == 0 {
            return None;
        }
        let _ = ps.load(pnum);
        let mut data = ps.take_data(pnum);
        let ghost d0 = data@;
        resize_zero(&mut data, size::<T>());
        proof {
            assert(data@ =~= resized(d0, (ENTA + spec_ents(T::spec_size()) * spec_esize(T::spec_size())) as nat));
        }
        if !check_chains::<T>(data.as_slice()) {
            ps.set_data(pnum, data);
            return None;
        }
        let ghost d = data@;
        let mut w: Writer<T> = Writer::new(data);
        let result = w.remove(key, hash);
        ps.set_data(pnum, w.into_data());
        if result.is_some() {
            ps.set_changed(pnum);
            proof {
                let (a, v) = result.unwrap();
                assert(bremoved(ps.cache(), pnum, d, key, a, v.model()));
            }
        }
        result
    }

    /// Get Vec of all addr/hash pairs (of bucket pages whose chains end).
    pub fn all(&self, ps: &mut PageSet) -> (r: Vec<(T, u64)>)
        ensures
            final(ps).writes() == old(ps).writes(),
            all_cached(old(ps).cache(), self.root, self.buckets, 0) ==> final(ps).cache()
                == old(ps).cache() && r@ == pairs_from::<T>(old(ps).cache(), self.root, self.buckets, 0),
    {
        let mut pt = PageTree::new(self.root, self.buckets);
        let mut result: Vec<(T, u64)> = Vec::new();
        let mut pix: u64 = 0;
        let ghost c0 = ps.cache();
        let ghost ok = all_cached(c0, self.root, self.buckets, 0);
        proof {
            assert(result@ + pairs_from::<T>(c0, self.root, self.buckets, 0) =~= pairs_from::<T>(
                c0,
                self.root,
                self.buckets,
                0,
            ));
        }
        while pix < self.buckets
            invariant
                pt.root == self.root,
                pt.count == self.buckets,
                ps.writes() == old(ps).writes(),
                ok == all_cached(c0, self.root, self.buckets, 0),
                pix <= self.buckets,
                ok ==> ps.cache() == c0 && result@ + pairs_from::<T>(c0, self.root, self.buckets, pix as nat)
                    == pairs_from::<T>(c0, self.root, self.buckets, 0),
            decreases self.buckets - pix,
        {
            let ghost before = result@;
            proof {
                if ok {
                    assert(path_cached(c0, self.root, spec_levels(self.buckets as nat), pix as nat));
                }
            }
            let pnum = pt.get(ps, pix, false);
            if pnum != 0 {
                let data = ps.load(pnum);
                if check_chains::<T>(data.as_slice()) {
                    let mut items = Reader::new(data.as_slice()).iter();
                    result.append(&mut items);
                }
            }
            proof {
                if ok {
                    assert(result@ == before + bucket_pairs::<T>(c0, self.root, self.buckets, pix as nat));
                    assert(pairs_from::<T>(c0, self.root, self.buckets, pix as nat) == bucket_pairs::<T>(
                        c0,
                        self.root,
                        self.buckets,
                        pix as nat,
                    ) + pairs_from::<T>(c0, self.root, self.buckets, (pix + 1) as nat));
                    assert(result@ + pairs_from::<T>(c0, self.root, self.buckets, (pix + 1) as nat)
                        =~= before + pairs_from::<T>(c0, self.root, self.buckets, pix as nat));
                }
            }
            pix += 1;
        }
        proof {
            if ok {
                assert(result@ =~= result@ + pairs_from::<T>(c0, self.root, self.buckets, pix as nat));
            }
        }
        result
    }

    /// Get Vec of all addresses (of bucket pages whose chains end).
    pub fn all_addr(&self, ps: &mut PageSet) -> (r: Vec<T>)
        ensures
            final(ps).writes() == old(ps).writes(),
            all_cached(old(ps).cache(), self.root, self.buckets, 0) ==> final(ps).cache()
                == old(ps).cache() && r@ == addrs::<T>(
                pairs_from::<T>(old(ps).cache(), self.root, self.buckets, 0),
            ),
    {
        let mut pt = PageTree::new(self.root, self.buckets);
        let mut result: Vec<T> = Vec::new();
        let mut pix: u64 = 0;
        let ghost c0 = ps.cache();
        let ghost ok = all_cached(c0, self.root, self.buckets, 0);
        let ghost all = pairs_from::<T>(c0, self.root, self.buckets, 0);
        proof {
            assert(result@ + addrs::<T>(all) =~= addrs::<T>(all));
        }
        while pix < self.buckets
            invariant
                pt.root == self.root,
                pt.count == self.buckets,
                ps.writes() == old(ps).writes(),
                ok == all_cached(c0, self.root, self.buckets, 0),
                all == pairs_from::<T>(c0, self.root, self.buckets, 0),
                pix <= self.buckets,
                ok ==> ps.cache() == c0 && result@ + addrs::<T>(
                    pairs_from::<T>(c0, self.root, self.buckets, pix as nat),
                ) == addrs::<T>(all),
            decreases self.buckets - pix,
        {
            let ghost before = result@;
            proof {
                if ok {
                    assert(path_cached(c0, self.root, spec_levels(self.buckets as nat), pix as nat));
                }
            }
            let pnum = pt.get(ps, pix, false);
            let ghost mut got: Seq<(T, u64)> = Seq::empty();
            if pnum != 0 {
                let data = ps.load(pnum);
                if check_chains::<T>(data.as_slice()) {
                    let mut items = Reader::new(data.as_slice()).iter();
                    let ghost orig = items@;
                    proof {
                        got = orig;
                    }
                    // Taken from the back, then put back in order.
                    let mut back: Vec<T> = Vec::new();
                    while items.len() > 0
                        invariant
                            items@.len() <= orig.len(),
                            items@ == orig.subrange(0, items@.len() as int),
                            back@.len() == orig.len() - items@.len(),
                            forall|j: int| 0 <= j < back@.len() ==> #[trigger] back@[j] == orig[orig.len() - 1 - j].0,
                        decreases items@.len(),
                    {
                        match items.pop() {
                            Some((a, _)) => back.push(a),
                            None => {},
                        }
                    }
                    while back.len() > 0
                        invariant
                            back@.len() <= orig.len(),
                            forall|j: int| 0 <= j < back@.len() ==> #[trigger] back@[j] == orig[orig.len() - 1 - j].0,
                            result@ == before + addrs::<T>(orig.subrange(0, orig.len() - back@.len())),
                        decreases back@.len(),
                    {
                        let ghost m = orig.len() - back@.len();
                        match back.pop() {
                            Some(a) => {
                                result.push(a);
                                proof {
                                    assert(a == orig[m].0);
                                    assert(addrs::<T>(orig.subrange(0, m + 1)) =~= addrs::<T>(
                                        orig.subrange(0, m),
                                    ).push(orig[m].0));
                                }
                            },
                            None => {},
                        }
                    }
                    proof {
                        assert(orig.subrange(0, orig.len() as int) =~= orig);
                    }
                }
            }
            proof {
                if ok {
                    assert(got == bucket_pairs::<T>(c0, self.root, self.buckets, pix as nat));
                    assert(result@ == before + addrs::<T>(got)) by {
                        if got.len() == 0 {
                            assert(addrs::<T>(got) =~= Seq::<T>::empty());
                            assert(before + Seq::<T>::empty() =~= before);
                        }
                    }
                    let rest = pairs_from::<T>(c0, self.root, self.buckets, (pix + 1) as nat);
                    assert(pairs_from::<T>(c0, self.root, self.buckets, pix as nat) == got + rest);
                    assert(addrs::<T>(got + rest) =~= addrs::<T>(got) + addrs::<T>(rest));
                    assert(result@ + addrs::<T>(rest) =~= before + addrs::<T>(got + rest));
                }
            }
            pix += 1;
        }
        proof {
            if ok {
                assert(addrs::<T>(pairs_from::<T>(c0, self.root, self.buckets, pix as nat)) =~= Seq::<T>::empty());
                assert(result@ =~= result@ + Seq::<T>::empty());
            }
        }
        result
    }

    /// Delete everything. Map is no longer usable.
    pub fn delete(&mut self, ps: &mut PageSet)
        requires
            old(ps).writes(),
        ensures
            final(self).root == 0,
            final(self).buckets == old(self).buckets,
            final(self).new_root == old(self).new_root,
            final(ps).writes(),
    {
        let mut pt = PageTree::new(self.root, self.buckets);
        pt.drop_pages(ps);
        self.root = 0;
    }
}

impl<T: SmallFixed> BuckMap<T> {
    /// Insert addr of value, must not be a duplicate key ( but this is not
    /// checked ).
    pub fn insert<K: Key<T>>(&mut self, key: &K, addr: T, ps: &mut PageSet)
        requires
            old(self).buckets > 0,
            old(ps).writes(),
        ensures
            final(ps).writes(),
            final(self).buckets >= old(self).buckets,
            final(self).buckets > max_grow() || exists|p: u64|
                #[trigger] bstored_at(
                    final(ps).cache(),
                    final(self).root,
                    final(self).buckets,
                    p,
                    key.spec_hash(),
                    addr,
                ),
    {
        let hash = key.hash();
        self.do_insert(addr, hash, ps);
    }

    /// Insert addr, making more buckets while its bucket is full.
    fn do_insert(&mut self, addr: T, hash: u64, ps: &mut PageSet)
        requires
            old(self).buckets > 0,
            old(ps).writes(),
        ensures
            final(ps).writes(),
            final(self).buckets >= old(self).buckets,
            final(self).buckets > max_grow() || exists|p: u64|
                #[trigger] bstored_at(
                    final(ps).cache(),
                    final(self).root,
                    final(self).buckets,
                    p,
                    hash,
                    addr,
                ),
        decreases u64::MAX - old(self).buckets, 1nat,
    {
        let ghost a0 = addr;
        let mut cur = addr;
        loop
            invariant
                ps.writes(),
                self.buckets >= old(self).buckets,
                self.buckets > 0,
                cur == a0,
                a0 == addr,
            decreases u64::MAX - self.buckets,
        {
            match self.try_insert(cur, hash, ps) {
                None => {
                    return;
                },
                Some(a) => {
                    cur = a;
                },
            }
            if self.buckets > 0x0FFF_FFFF_FFFF_FFFF {
                // No more buckets can be made.
                return;
            }
            self.expand(ps);
        }
    }

    /// Attempt to insert addr; gives it back when its bucket is full (or
    /// its page does not hold a bucket that can take it).
    fn try_insert(&mut self, addr: T, hash: u64, ps: &mut PageSet) -> (r: Option<T>)
        requires
            old(self).buckets > 0,
            old(ps).writes(),
        ensures
            *final(self) == *old(self),
            final(ps).writes(),
            r matches Some(a) ==> a == addr,
            r is None ==> exists|p: u64|
                #[trigger] bstored_at(final(ps).cache(), old(self).root, old(self).buckets, p, hash, addr),
            ({
                let c = old(ps).cache();
                let p = bpage(c, old(self).root, old(self).buckets, hash);
                let d = cache_page(c, p);
                let k = spec_ents(T::spec_size());
                let used = byte_or_zero(d, USED as int);
                let free = byte_or_zero(d, FREE as int);
                path_cached(c, old(self).root, spec_levels(old(self).buckets as nat), (hash
                    % old(self).buckets) as nat) && p != 0 && c.contains_key(p) && used <= k && (free
                    != 0 ==> 1 <= free <= used) && !(free == 0 && used == k) ==> r is None
            }),
    {
        let pix = hash % self.buckets;
        let mut pt = PageTree::new(self.root, self.buckets);
        let pnum = pt.get(ps, pix, true);
        if pnum == 0 {
            return Some(addr);
        }
        let ghost c1 = ps.cache();
        let _ = ps.load(pnum);
        let original = ps.take_data(pnum);
        let mut data: Vec<u8> = original.clone();
        proof {
            assert(data@ =~= original@);
        }
        resize_zero(&mut data, size::<T>());
        let n = crate::bucket::ents::<T>();
        if data[USED] > n || (data[FREE] != 0 && (data[FREE] < 1 || data[FREE] > data[USED])) {
            // Not a bucket that can take it.
            ps.set_data(pnum, original);
            return Some(addr);
        }
        let mut w: Writer<T> = Writer::new(data);
        if w.full() {
            ps.set_data(pnum, original);
            return Some(addr);
        }
        let ghost d = w@;
        w.insert(addr, hash);
        let ghost nd = w@;
        ps.set_data(pnum, w.into_data());
        ps.set_changed(pnum);
        proof {
            let es = spec_esize(T::spec_size());
            let k = spec_ents(T::spec_size());
            let slot = (hash % (SLOTS as u64)) as int;
            let e = nd[SLOT + slot] as int;
            assert(1 <= e <= k);
            assert(spec_eoff(e, es) + es <= ENTA + k * es) by (nonlinear_arith)
                requires 1 <= e <= k, es > 0;
            crate::bytes::lemma_pow256_8();
            crate::bytes::lemma_le_roundtrip(hash as nat, 8);
            assert(hash_of(nd, e, es) == hash);
            let c = ps.cache();
            assert forall|q: u64| q != pnum implies cache_page(c, q) == #[trigger] cache_page(c1, q) by {}
            lemma_lookup_other(c1, c, pnum, self.root, spec_levels(self.buckets as nat), pix as nat);
            if !path_has(c1, self.root, spec_levels(self.buckets as nat), pix as nat, pnum) {
                lemma_path_other(c1, c, pnum, self.root, spec_levels(self.buckets as nat), pix as nat);
            }
            assert(bstored_at(c, self.root, self.buckets, pnum, hash, addr));
        }
        None
    }

    /// Increase the number of buckets ( by about an eighth ), due to a full
    /// bucket: the values go to a new map with more buckets.
    fn expand(&mut self, ps: &mut PageSet)
        requires
            old(self).buckets > 0,
            old(self).buckets <= max_grow(),
            old(ps).writes(),
        ensures
            final(ps).writes(),
            final(self).buckets > old(self).buckets,
        decreases u64::MAX - old(self).buckets, 0nat,
    {
        let buckets = 1 + self.buckets * 9 / 8;
        let mut list = self.all(ps);
        self.delete(ps);
        let mut m: BuckMap<T> = BuckMap::new(buckets, ps);
        // Taken from the back, then inserted in order.
        let mut back: Vec<(T, u64)> = Vec::new();
        while list.len() > 0
            invariant
                true,
            decreases list@.len(),
        {
            match list.pop() {
                Some(x) => back.push(x),
                None => {},
            }
        }
        while back.len() > 0
            invariant
                ps.writes(),
                m.buckets >= buckets,
                buckets == 1 + old(self).buckets * 9 / 8,
                buckets > old(self).buckets,
            decreases back@.len(),
        {
            match back.pop() {
                Some((r, h)) => m.do_insert(r, h, ps),
                None => {},
            }
        }
        self.root = m.root;
        self.buckets = m.buckets;
        self.new_root = true;
    }
}

} // verus!
