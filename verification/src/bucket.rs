//! Hash map bucket page holding fixed size values with their 64-bit hashes.
//!
//! Layout of a bucket page `d`: byte `USED` is the number of allocated
//! entries, byte `FREE` the first free entry, bytes `SLOT..SLOT+SLOTS` the
//! first entry of each hash slot, then the entry array: entry `e` (numbered
//! from 1) occupies `ENTA + (e-1)*es .. ENTA + e*es` where `es = 9 + size of
//! the value`, and holds the next entry of its chain, the 8-byte hash and
//! the value.

use crate::buckmap::{Key, SmallFixed};
use crate::bytes::{get_u64, le_bytes, le_value, pow256};
use crate::value::Val;
use crate::value::Value;
use core::marker::PhantomData;
use vstd::prelude::*;

verus! {

/// Standard page size.
pub const PAGE_SIZE: u64 = 3952;

/// Number of slots.
pub const SLOTS: usize = 253;

/// Offset of USED byte, which stores the number of allocated entries.
pub const USED: usize = 0;

/// Offset of FREE byte, first free entry.
pub const FREE: usize = USED + 1;

/// Offset of slot array.
pub const SLOT: usize = FREE + 1;

/// Offset of entry array.
pub const ENTA: usize = SLOT + SLOTS;

/// Size of an entry for values of `size` bytes.
pub open spec fn spec_esize(size: nat) -> int {
    9 + size as int
}

/// Bucket capacity (number of entries) for values of `size` bytes.
pub open spec fn spec_ents(size: nat) -> int {
    let r = (PAGE_SIZE - ENTA) / spec_esize(size);
    if r > 255 {
        255
    } else {
        r
    }
}

/// Offset of entry `e`.
pub open spec fn spec_eoff(e: int, es: int) -> int {
    ENTA + (e - 1) * es
}

/// Entry `e` lies within the page.
pub open spec fn entry_ok(d: Seq<u8>, e: int, es: int) -> bool {
    1 <= e <= 255 && spec_eoff(e, es) + es <= d.len()
}

/// Next entry after `e`.
pub open spec fn next_of(d: Seq<u8>, e: int, es: int) -> u8 {
    d[spec_eoff(e, es)]
}

/// Hash stored in entry `e`.
pub open spec fn hash_of(d: Seq<u8>, e: int, es: int) -> nat {
    le_value(d.subrange(spec_eoff(e, es) + 1, spec_eoff(e, es) + 9))
}

/// Value bytes stored in entry `e`.
pub open spec fn value_bytes(d: Seq<u8>, e: int, es: int) -> Seq<u8> {
    d.subrange(spec_eoff(e, es) + 9, spec_eoff(e, es) + es)
}

/// The chain of entries starting at `e`, when it ends within `fuel` steps and
/// every entry on it lies within the page.
pub open spec fn chain(d: Seq<u8>, e: u8, es: int, fuel: nat) -> Option<Seq<u8>>
    decreases fuel,
{
    if e == 0 {
        Some(Seq::empty())
    } else if fuel == 0 || !entry_ok(d, e as int, es) {
        None
    } else {
        match chain(d, next_of(d, e as int, es), es, (fuel - 1) as nat) {
            Some(s) => Some(seq![e] + s),
            None => None,
        }
    }
}

/// The entries of the chain of slot `slot` (empty when it does not end).
pub open spec fn slot_entries(d: Seq<u8>, slot: int, es: int) -> Seq<u8> {
    match chain(d, d[SLOT + slot], es, 256) {
        Some(s) => s,
        None => Seq::empty(),
    }
}

/// Every slot chain ends within the page.
pub open spec fn chains_ok(d: Seq<u8>, es: int) -> bool {
    &&& d.len() >= ENTA
    &&& forall|s: int| 0 <= s < SLOTS ==> (#[trigger] chain(d, d[SLOT + s], es, 256)) is Some
}

/// What the key makes of the first entry of `es_` with hash `hash` that the
/// key accepts.
pub open spec fn find<T: SmallFixed, K: Key<T>>(
    d: Seq<u8>,
    entries: Seq<u8>,
    es: int,
    hash: u64,
    key: &K,
) -> Option<(T, Val)>
    decreases entries.len(),
{
    if entries.len() == 0 {
        None
    } else {
        let e = entries[0] as int;
        if hash_of(d, e, es) == hash && key.spec_ok(T::spec_load(value_bytes(d, e, es))) is Some {
            key.spec_ok(T::spec_load(value_bytes(d, e, es)))
        } else {
            find::<T, K>(d, entries.drop_first(), es, hash, key)
        }
    }
}

/// Position in `entries` of the entry that [find] uses (-1 if none).
pub open spec fn find_index<T: SmallFixed, K: Key<T>>(
    d: Seq<u8>,
    entries: Seq<u8>,
    es: int,
    hash: u64,
    key: &K,
) -> int
    decreases entries.len(),
{
    if entries.len() == 0 {
        -1
    } else {
        let e = entries[0] as int;
        if hash_of(d, e, es) == hash && key.spec_ok(T::spec_load(value_bytes(d, e, es))) is Some {
            0
        } else {
            let r = find_index::<T, K>(d, entries.drop_first(), es, hash, key);
            if r < 0 {
                -1
            } else {
                r + 1
            }
        }
    }
}

/// One step along a chain that ends.
pub proof fn lemma_chain_step(d: Seq<u8>, e: u8, es: int)
    requires
        e != 0,
        chain(d, e, es, 256) is Some,
    ensures
        entry_ok(d, e as int, es),
        chain(d, next_of(d, e as int, es), es, 256) is Some,
        chain(d, e, es, 256).unwrap() == seq![e] + chain(
            d,
            next_of(d, e as int, es),
            es,
            256,
        ).unwrap(),
{
    let n = next_of(d, e as int, es);
    lemma_chain_fuel(d, n, es, 255, 256);
}

/// Chain fuel can only help.
pub proof fn lemma_chain_fuel(d: Seq<u8>, e: u8, es: int, f1: nat, f2: nat)
    requires
        f1 <= f2,
        chain(d, e, es, f1) is Some,
    ensures
        chain(d, e, es, f2) == chain(d, e, es, f1),
    decreases f1,
{
    if e != 0 {
        lemma_chain_fuel(d, next_of(d, e as int, es), es, (f1 - 1) as nat, (f2 - 1) as nat);
    }
}

/// `d` with the `k`-th entry of the slot chain `es_` unlinked and put at the
/// front of the free list.
pub open spec fn unlinked(d: Seq<u8>, slot: int, entries: Seq<u8>, k: int, es: int) -> Seq<u8> {
    let e = entries[k] as int;
    let nx = next_of(d, e, es);
    let d1 = if k == 0 {
        d.update(SLOT + slot, nx)
    } else {
        d.update(spec_eoff(entries[k - 1] as int, es), nx)
    };
    d1.update(spec_eoff(e, es), d[FREE as int]).update(FREE as int, entries[k])
}

/// The page `d` is full: no entry is free and every entry has been used.
pub open spec fn is_full(d: Seq<u8>, size: nat) -> bool {
    d[FREE as int] == 0 && d[USED as int] == spec_ents(size)
}

/// The counts of page `n` are those of page `d` after an insert: the head
/// of the free list is taken where there is one (the next free entry
/// becomes the head), else the next unused entry.
pub open spec fn insert_counts(d: Seq<u8>, n: Seq<u8>, es: int) -> bool {
    &&& n[USED as int] == (if d[FREE as int] != 0 {
        d[USED as int] as int
    } else {
        d[USED as int] + 1
    })
    &&& n[FREE as int] == (if d[FREE as int] != 0 {
        next_of(d, d[FREE as int] as int, es)
    } else {
        0
    })
}

/// A page fills up one entry per insert: from a page of no entries (a
/// zero-filled one), the pages after each of a run of inserts have used
/// one entry more each, and the page is full exactly after as many inserts
/// as it has entries.
pub proof fn lemma_fill(pages: Seq<Seq<u8>>, size: nat)
    requires
        pages.len() >= 1,
        pages[0][USED as int] == 0,
        pages[0][FREE as int] == 0,
        forall|i: int| 0 <= i < pages.len() - 1 ==> insert_counts(#[trigger] pages[i], pages[i + 1], spec_esize(size)),
    ensures
        forall|i: int| 0 <= i < pages.len() ==> #[trigger] pages[i][USED as int] == i && pages[i][FREE as int] == 0,
        forall|i: int| 0 <= i < pages.len() ==> (is_full(#[trigger] pages[i], size) <==> i == spec_ents(size)),
    decreases pages.len(),
{
    if pages.len() > 1 {
        let first = pages.drop_last();
        assert forall|i: int| 0 <= i < first.len() - 1 implies insert_counts(#[trigger] first[i], first[i + 1], spec_esize(size)) by {
            assert(first[i] == pages[i] && first[i + 1] == pages[i + 1]);
        }
        lemma_fill(first, size);
        let k = pages.len() - 1;
        assert(first[k - 1] == pages[k - 1]);
        assert(insert_counts(pages[k - 1], pages[k], spec_esize(size)));
        assert forall|i: int| 0 <= i < pages.len() implies #[trigger] pages[i][USED as int] == i && pages[i][FREE as int] == 0 by {
            if i < k {
                assert(first[i] == pages[i]);
            }
        }
    }
}

/// Every entry of a chain that ends lies within the page.
pub proof fn lemma_chain_entry_ok(d: Seq<u8>, e: u8, es: int, k: int)
    requires
        chain(d, e, es, 256) is Some,
        0 <= k < chain(d, e, es, 256).unwrap().len(),
    ensures
        entry_ok(d, chain(d, e, es, 256).unwrap()[k] as int, es),
{
    lemma_chain_ok_fuel(d, e, es, 256, k);
}

/// Every entry of a chain that ends lies within the page.
pub proof fn lemma_chain_ok_fuel(d: Seq<u8>, e: u8, es: int, fuel: nat, k: int)
    requires
        chain(d, e, es, fuel) is Some,
        0 <= k < chain(d, e, es, fuel).unwrap().len(),
    ensures
        entry_ok(d, chain(d, e, es, fuel).unwrap()[k] as int, es),
    decreases fuel,
{
    if k > 0 {
        lemma_chain_ok_fuel(d, next_of(d, e as int, es), es, (fuel - 1) as nat, k - 1);
    }
}

/// Size of entry.
fn esize<T: SmallFixed>() -> (r: usize)
    ensures
        r == spec_esize(T::spec_size()),
        10 <= r <= 3609,
{
    // One byte for next link, 8 bytes for hash, T::size() for value.
    1 + 8 + T::size()
}

/// Bucket capacity ( number of entries )
pub(crate) fn ents<T: SmallFixed>() -> (r: u8)
    ensures
        r == spec_ents(T::spec_size()),
        1 <= r,
{
    let es = esize::<T>();
    proof {
        assert((3952 - 255) / (es as int) >= 1) by (nonlinear_arith)
            requires es <= 3609, es >= 10;
    }
    let mut result = (PAGE_SIZE as usize - ENTA) / es;
    if result > 255 {
        result = 255;
    }
    result as u8
}

/// Bucket size.
pub fn size<T: SmallFixed>() -> (r: usize)
    ensures
        r == ENTA + spec_ents(T::spec_size()) * spec_esize(T::spec_size()),
{
    let n = ents::<T>() as usize;
    let es = esize::<T>();
    proof {
        assert(n * es <= 255 * 3609) by (nonlinear_arith)
            requires n <= 255, es <= 3609;
    }
    ENTA + n * es
}

/// Offset of entry in data.
fn eoff<T: SmallFixed>(entry: u8) -> (r: usize)
    requires
        entry >= 1,
    ensures
        r == spec_eoff(entry as int, spec_esize(T::spec_size())),
        r <= 255 + 254 * 3609,
{
    let es = esize::<T>();
    proof {
        assert((entry - 1) * es <= 254 * 3609) by (nonlinear_arith)
            requires entry - 1 <= 254, es <= 3609, entry >= 1;
    }
    ENTA + (entry as usize - 1) * es
}

/// Does the chain from `e` end within the page (within 256 steps)?
fn chain_ends<T: SmallFixed>(d: &[u8], e: u8) -> (r: bool)
    ensures
        r == (chain(d@, e, spec_esize(T::spec_size()), 256) is Some),
{
    let ghost es = spec_esize(T::spec_size());
    let es_ = esize::<T>();
    let mut cur = e;
    let mut fuel: usize = 256;
    while cur != 0
        invariant
            es == es_,
            es == spec_esize(T::spec_size()),
            10 <= es_ <= 3609,
            fuel <= 256,
            (chain(d@, e, es, 256) is Some) == (chain(d@, cur, es, fuel as nat) is Some),
        decreases fuel,
    {
        if fuel == 0 {
            return false;
        }
        let off = eoff::<T>(cur);
        if d.len() < es_ || off > d.len() - es_ {
            return false;
        }
        cur = d[off];
        fuel -= 1;
    }
    true
}

/// Do all the slot chains of the bucket page `d` end within the page?
pub fn check_chains<T: SmallFixed>(d: &[u8]) -> (r: bool)
    ensures
        r == chains_ok(d@, spec_esize(T::spec_size())),
{
    let ghost es = spec_esize(T::spec_size());
    if d.len() < ENTA {
        return false;
    }
    let mut s: usize = 0;
    while s < SLOTS
        invariant
            d@.len() >= ENTA,
            es == spec_esize(T::spec_size()),
            s <= SLOTS,
            forall|i: int| 0 <= i < s ==> (#[trigger] chain(d@, d@[SLOT + i], es, 256)) is Some,
        decreases SLOTS - s,
    {
        if !chain_ends::<T>(d, d[SLOT + s]) {
            return false;
        }
        s += 1;
    }
    true
}

/// The (value, hash) pairs of the entries of chain `entries`, in order.
pub open spec fn pairs<T: SmallFixed>(d: Seq<u8>, entries: Seq<u8>, es: int) -> Seq<(T, u64)> {
    entries.map_values(|e: u8| (T::spec_load(value_bytes(d, e as int, es)), hash_of(d, e as int, es) as u64))
}

/// The (value, hash) pairs of the entries of the first `n` slots, slot by
/// slot.
pub open spec fn slot_pairs<T: SmallFixed>(d: Seq<u8>, es: int, n: nat) -> Seq<(T, u64)>
    decreases n,
{
    if n == 0 {
        Seq::empty()
    } else {
        slot_pairs::<T>(d, es, (n - 1) as nat) + pairs::<T>(d, slot_entries(d, n - 1, es), es)
    }
}

/// For reading Hash Map Bucket.
pub struct Reader<'a, T> where T: SmallFixed {
    pub data: &'a [u8],
    pub pd: PhantomData<T>,
}

impl<'a, T: SmallFixed> Reader<'a, T> {
    /// Reader of the page bytes `data`.
    pub fn new(data: &'a [u8]) -> (r: Self)
        ensures
            r.data@ == data@,
    {
        Self { data, pd: PhantomData }
    }

    /// Get (T,Value) associated with key: what the key makes of the first
    /// entry of the hash's slot chain that has the hash and that the key accepts.
    pub fn get<K: Key<T>>(&self, key: &K, hash: u64) -> (r: Option<(T, Value)>)
        requires
            self.data@.len() == 0 || chains_ok(self.data@, spec_esize(T::spec_size())),
        ensures
            ({
                let d = self.data@;
                let es = spec_esize(T::spec_size());
                let f = if d.len() == 0 {
                    None
                } else {
                    find::<T, K>(d, slot_entries(d, (hash % (SLOTS as u64)) as int, es), es, hash, key)
                };
                match r {
                    Some((a, v)) => f == Some((a, v.model())),
                    None => f is None,
                }
            }),
    {
        if self.data.len() == 0 {
            return None;
        }
        let ghost d = self.data@;
        let ghost es = spec_esize(T::spec_size());
        let slot = (hash % (SLOTS as u64)) as usize;
        let mut entry = self.data[SLOT + slot];
        let ghost all = slot_entries(d, slot as int, es);
        proof {
            assert(chain(d, d[SLOT + slot], es, 256) is Some);
        }
        while entry != 0
            invariant
                d == self.data@,
                d.len() > 0,
                es == spec_esize(T::spec_size()),
                all == slot_entries(d, (hash % (SLOTS as u64)) as int, es),
                chain(d, entry, es, 256) is Some,
                find::<T, K>(d, all, es, hash, key) == find::<T, K>(
                    d,
                    chain(d, entry, es, 256).unwrap(),
                    es,
                    hash,
                    key,
                ),
            decreases chain(d, entry, es, 256).unwrap().len(),
        {
            proof {
                lemma_chain_step(d, entry, es);
            }
            let (v, h) = self.get_vh(entry);
            if h == hash {
                if let Some(result) = key.ok(v) {
                    return Some(result);
                }
            }
            let ghost old_entry = entry;
            entry = self.next(entry);
            proof {
                assert(chain(d, old_entry, es, 256).unwrap().drop_first() =~= chain(
                    d,
                    entry,
                    es,
                    256,
                ).unwrap());
            }
        }
        None
    }

    /// The (value, hash) pairs of all entries, slot by slot, each slot's
    /// chain in order.
    pub fn iter(&self) -> (r: Vec<(T, u64)>)
        requires
            chains_ok(self.data@, spec_esize(T::spec_size())),
        ensures
            r@ == slot_pairs::<T>(self.data@, spec_esize(T::spec_size()), SLOTS as nat),
    {
        let ghost d = self.data@;
        let ghost es = spec_esize(T::spec_size());
        let mut result: Vec<(T, u64)> = Vec::new();
        let mut slot: usize = 0;
        while slot < SLOTS
            invariant
                d == self.data@,
                es == spec_esize(T::spec_size()),
                chains_ok(d, es),
                slot <= SLOTS,
                result@ == slot_pairs::<T>(d, es, slot as nat),
            decreases SLOTS - slot,
        {
            let mut entry = self.data[SLOT + slot];
            let ghost all = slot_entries(d, slot as int, es);
            let ghost start = result@;
            proof {
                assert(chain(d, d[SLOT + slot as int], es, 256) is Some);
            }
            while entry != 0
                invariant
                    d == self.data@,
                    es == spec_esize(T::spec_size()),
                    chain(d, entry, es, 256) is Some,
                    all.len() >= chain(d, entry, es, 256).unwrap().len(),
                    all.subrange(all.len() - chain(d, entry, es, 256).unwrap().len(), all.len() as int)
                        == chain(d, entry, es, 256).unwrap(),
                    result@ == start + pairs::<T>(
                        d,
                        all.subrange(0, all.len() - chain(d, entry, es, 256).unwrap().len()),
                        es,
                    ),
                decreases chain(d, entry, es, 256).unwrap().len(),
            {
                proof {
                    lemma_chain_step(d, entry, es);
                }
                let ghost rest = chain(d, entry, es, 256).unwrap();
                let ghost k = all.len() - rest.len();
                let (v, h) = self.get_vh(entry);
                result.push((v, h));
                entry = self.next(entry);
                proof {
                    let rest2 = chain(d, entry, es, 256).unwrap();
                    assert(rest2 =~= rest.drop_first());
                    assert(all[k] == rest[0]);
                    assert(all.subrange(all.len() - rest2.len(), all.len() as int) =~= rest2);
                    assert(all.subrange(0, k + 1) =~= all.subrange(0, k).push(rest[0]));
                    assert(pairs::<T>(d, all.subrange(0, k + 1), es) =~= pairs::<T>(
                        d,
                        all.subrange(0, k),
                        es,
                    ).push((v, h)));
                }
            }
            proof {
                assert(all.subrange(0, all.len() as int) =~= all);
            }
            slot += 1;
        }
        result
    }

    fn next(&self, entry: u8) -> (r: u8)
        requires
            entry_ok(self.data@, entry as int, spec_esize(T::spec_size())),
        ensures
            r == next_of(self.data@, entry as int, spec_esize(T::spec_size())),
    {
        self.data[eoff::<T>(entry)]
    }

    /// Get value and hash from entry array.
    fn get_vh(&self, entry: u8) -> (r: (T, u64))
        requires
            entry_ok(self.data@, entry as int, spec_esize(T::spec_size())),
        ensures
            r.0 == T::spec_load(value_bytes(self.data@, entry as int, spec_esize(T::spec_size()))),
            r.1 == hash_of(self.data@, entry as int, spec_esize(T::spec_size())),
    {
        let _len = self.data.len();
        let off = eoff::<T>(entry) + 1;
        let h = get_u64(self.data, off);
        let loc = &self.data[off + 8..off + 8 + T::size()];
        let v = T::load(loc);
        (v, h)
    }
}

/// For writing Hash Map Bucket.
pub struct Writer<T> where T: SmallFixed {
    data: Vec<u8>,
    pd: PhantomData<T>,
}

impl<T: SmallFixed> View for Writer<T> {
    type V = Seq<u8>;

    closed spec fn view(&self) -> Seq<u8> {
        self.data@
    }
}

impl<T: SmallFixed> Writer<T> {
    /// Writer of the page bytes `data`.
    pub fn new(data: Vec<u8>) -> (r: Self)
        ensures
            r@ == data@,
    {
        Self { data, pd: PhantomData }
    }

    /// The page bytes.
    pub fn into_data(self) -> (r: Vec<u8>)
        ensures
            r@ == self@,
    {
        self.data
    }

    /// Insert into Hash Map Page: the new entry (the head of the free list,
    /// else the next unused one) holds the hash and value and goes to the
    /// front of the hash's slot chain.
    ///
    /// Pre-condition : page must not be full. No duplicates!
    pub fn insert(&mut self, v: T, hash: u64)
        requires
            old(self)@.len() == ENTA + spec_ents(T::spec_size()) * spec_esize(T::spec_size()),
            !(old(self)@[FREE as int] == 0 && old(self)@[USED as int] == spec_ents(T::spec_size())),
            old(self)@[USED as int] <= spec_ents(T::spec_size()),
            old(self)@[FREE as int] != 0 ==> 1 <= old(self)@[FREE as int] <= old(self)@[USED as int],
        ensures
            ({
                let d = old(self)@;
                let es = spec_esize(T::spec_size());
                let slot = (hash % (SLOTS as u64)) as int;
                let e = if d[FREE as int] != 0 {
                    d[FREE as int] as int
                } else {
                    d[USED as int] + 1
                };
                let n = final(self)@;
                &&& n.len() == d.len()
                &&& insert_counts(d, n, es)
                &&& n[SLOT + slot] == e
                &&& next_of(n, e, es) == d[SLOT + slot]
                &&& n.subrange(spec_eoff(e, es) + 1, spec_eoff(e, es) + 9) == le_bytes(hash as nat, 8)
                &&& value_bytes(n, e, es) == T::spec_bytes(v)
                &&& forall|i: int|
                    0 <= i < d.len() && i != USED && i != FREE && i != SLOT + slot && !(
                    spec_eoff(e, es) <= i < spec_eoff(e, es) + es) ==> #[trigger] n[i] == d[i]
            }),
    {
        let ghost es = spec_esize(T::spec_size());
        let _len = self.data.len();
        let slot = (hash % (SLOTS as u64)) as usize;
        proof {
            let k = spec_ents(T::spec_size());
            assert(k * es <= 3952 - ENTA) by (nonlinear_arith)
                requires k == (if (PAGE_SIZE - ENTA) / es > 255 { 255 } else { (PAGE_SIZE - ENTA) / es }), es > 0;
        }
        let new_entry = self.alloc_entry();
        proof {
            let k = spec_ents(T::spec_size());
            assert(spec_eoff(new_entry as int, es) + es <= ENTA + k * es) by (nonlinear_arith)
                requires 1 <= new_entry <= k, es > 0;
        }
        self.set_vh(new_entry, v, hash);
        let old_entry = self.data[SLOT + slot];
        self.set_next(new_entry, old_entry);
        self.data[SLOT + slot] = new_entry;
    }

    /// Is the page full? This must be checked before attempting to insert.
    pub fn full(&self) -> (r: bool)
        requires
            self@.len() > FREE,
        ensures
            r == is_full(self@, T::spec_size()),
    {
        self.data[FREE] == 0 && self.data[USED] == ents::<T>()
    }

    /// Remove the first entry of the hash's slot chain that has the hash and
    /// that the key accepts, returning what the key makes of it: the entry is
    /// unlinked from its chain and put at the front of the free list.
    pub fn remove<K: Key<T>>(&mut self, key: &K, hash: u64) -> (r: Option<(T, Value)>)
        requires
            chains_ok(old(self)@, spec_esize(T::spec_size())),
        ensures
            ({
                let d = old(self)@;
                let es = spec_esize(T::spec_size());
                let slot = (hash % (SLOTS as u64)) as int;
                let f = find::<T, K>(d, slot_entries(d, slot, es), es, hash, key);
                let k = find_index::<T, K>(d, slot_entries(d, slot, es), es, hash, key);
                &&& r is Some ==> !is_full(final(self)@, T::spec_size())
                &&& match r {
                    Some((a, v)) => f == Some((a, v.model())) && final(self)@ == unlinked(
                        d,
                        slot,
                        slot_entries(d, slot, es),
                        k,
                        es,
                    ),
                    None => f is None && final(self)@ == d,
                }
            }),
    {
        let ghost d = self@;
        let ghost es = spec_esize(T::spec_size());
        let slot = (hash % (SLOTS as u64)) as usize;
        let mut entry = self.data[SLOT + slot];
        let mut prev: Option<u8> = None;
        let ghost all = slot_entries(d, slot as int, es);
        let ghost mut i: int = 0;
        proof {
            assert(chain(d, d[SLOT + slot], es, 256) is Some);
            assert(all.subrange(0, all.len() as int) =~= all);
        }
        while entry != 0
            invariant
                d == self@,
                d == old(self)@,
                d.len() >= ENTA,
                es == spec_esize(T::spec_size()),
                slot < SLOTS,
                slot as int == (hash % (SLOTS as u64)) as int,
                all == slot_entries(d, slot as int, es),
                chain(d, entry, es, 256) is Some,
                0 <= i <= all.len(),
                chain(d, entry, es, 256).unwrap() =~= all.subrange(i, all.len() as int),
                i > 0 ==> prev == Some(all[i - 1]),
                i == 0 ==> prev is None,
                find::<T, K>(d, all, es, hash, key) == find::<T, K>(
                    d,
                    chain(d, entry, es, 256).unwrap(),
                    es,
                    hash,
                    key,
                ),
                find_index::<T, K>(d, all, es, hash, key) == (if find_index::<T, K>(
                    d,
                    chain(d, entry, es, 256).unwrap(),
                    es,
                    hash,
                    key,
                ) < 0 {
                    -1
                } else {
                    find_index::<T, K>(d, chain(d, entry, es, 256).unwrap(), es, hash, key) + i
                }),
            decreases all.len() - i,
        {
            proof {
                lemma_chain_step(d, entry, es);
                let ce = chain(d, entry, es, 256).unwrap();
                assert(ce[0] == entry);
                assert(ce[0] == all[i]);
            }
            let (v, h) = self.get_vh(entry);
            let next = self.next(entry);
            if h == hash {
                if let Some(result) = key.ok(v) {
                    if let Some(p) = prev {
                        proof {
                            lemma_chain_entry_ok(d, d[SLOT + slot], es, i - 1);
                        }
                        self.set_next(p, next);
                    } else {
                        self.data[SLOT + slot] = next;
                    }
                    let free = self.data[FREE];
                    self.set_next(entry, free);
                    self.data[FREE] = entry;
                    proof {
                        assert(self@ == unlinked(d, slot as int, all, i, es));
                    }
                    return Some(result);
                }
            }
            proof {
                assert(chain(d, next, es, 256).unwrap() =~= chain(d, entry, es, 256).unwrap().drop_first());
                i = i + 1;
            }
            prev = Some(entry);
            entry = next;
        }
        None
    }

    fn alloc_entry(&mut self) -> (r: u8)
        requires
            old(self)@.len() == ENTA + spec_ents(T::spec_size()) * spec_esize(T::spec_size()),
            !(old(self)@[FREE as int] == 0 && old(self)@[USED as int] == spec_ents(T::spec_size())),
            old(self)@[USED as int] <= spec_ents(T::spec_size()),
            old(self)@[FREE as int] != 0 ==> 1 <= old(self)@[FREE as int] <= old(self)@[USED as int],
        ensures
            r == (if old(self)@[FREE as int] != 0 {
                old(self)@[FREE as int] as int
            } else {
                old(self)@[USED as int] + 1
            }),
            1 <= r <= spec_ents(T::spec_size()),
            final(self)@ == (if old(self)@[FREE as int] != 0 {
                old(self)@.update(
                    FREE as int,
                    next_of(old(self)@, old(self)@[FREE as int] as int, spec_esize(T::spec_size())),
                )
            } else {
                old(self)@.update(USED as int, (old(self)@[USED as int] + 1) as u8)
            }),
    {
        let ghost es = spec_esize(T::spec_size());
        proof {
            let k = spec_ents(T::spec_size());
            assert(k <= 255);
            assert(ENTA + k * es >= ENTA + 1) by (nonlinear_arith)
                requires k >= 1, es >= 1;
        }
        let result = self.data[FREE];
        if result != 0 {
            proof {
                let k = spec_ents(T::spec_size());
                assert(spec_eoff(result as int, es) + es <= ENTA + k * es) by (nonlinear_arith)
                    requires 1 <= result <= k, es > 0;
            }
            let nx = self.next(result);
            self.data[FREE] = nx;
            return result;
        }
        let result = self.data[USED];
        self.data[USED] = result + 1;
        result + 1
    }

    fn next(&self, entry: u8) -> (r: u8)
        requires
            entry_ok(self@, entry as int, spec_esize(T::spec_size())),
        ensures
            r == next_of(self@, entry as int, spec_esize(T::spec_size())),
    {
        self.data[eoff::<T>(entry)]
    }

    fn set_next(&mut self, entry: u8, val: u8)
        requires
            entry_ok(old(self)@, entry as int, spec_esize(T::spec_size())),
        ensures
            final(self)@ == old(self)@.update(spec_eoff(entry as int, spec_esize(T::spec_size())), val),
    {
        let off = eoff::<T>(entry);
        self.data[off] = val;
    }

    /// Get value and hash from entry array.
    fn get_vh(&self, entry: u8) -> (r: (T, u64))
        requires
            entry_ok(self@, entry as int, spec_esize(T::spec_size())),
        ensures
            r.0 == T::spec_load(value_bytes(self@, entry as int, spec_esize(T::spec_size()))),
            r.1 == hash_of(self@, entry as int, spec_esize(T::spec_size())),
    {
        let _len = self.data.len();
        let off = eoff::<T>(entry) + 1;
        let h = get_u64(self.data.as_slice(), off);
        let loc = &self.data.as_slice()[off + 8..off + 8 + T::size()];
        let v = T::load(loc);
        (v, h)
    }

    fn set_vh(&mut self, entry: u8, v: T, hash: u64)
        requires
            entry_ok(old(self)@, entry as int, spec_esize(T::spec_size())),
        ensures
            ({
                let es = spec_esize(T::spec_size());
                let o = spec_eoff(entry as int, es);
                &&& final(self)@.len() == old(self)@.len()
                &&& final(self)@.subrange(o + 1, o + 9) == le_bytes(hash as nat, 8)
                &&& value_bytes(final(self)@, entry as int, es) == T::spec_bytes(v)
                &&& forall|i: int|
                    0 <= i < old(self)@.len() && !(o + 1 <= i < o + es) ==> #[trigger] final(self)@[i]
                        == old(self)@[i]
            }),
    {
        let ghost es = spec_esize(T::spec_size());
        let _len = self.data.len();
        let off = eoff::<T>(entry) + 1;
        let ghost d0 = self@;
        let mut x = hash;
        let mut i: usize = 0;
        while i < 8
            invariant
                i <= 8,
                self@.len() == d0.len(),
                off + es - 1 <= d0.len(),
                d0.len() <= usize::MAX,
                es == spec_esize(T::spec_size()),
                self@.subrange(off as int, off + i) + le_bytes(x as nat, (8 - i) as nat) == le_bytes(
                    hash as nat,
                    8,
                ),
                forall|j: int| 0 <= j < d0.len() && !(off <= j < off + i) ==> #[trigger] self@[j] == d0[j],
            decreases 8 - i,
        {
            let ghost x0 = x;
            let ghost before = self@;
            self.data[off + i] = (x % 256) as u8;
            x = x / 256;
            i += 1;
            proof {
                assert(le_bytes(x0 as nat, (8 - i + 1) as nat) == seq![(x0 % 256) as u8] + le_bytes(
                    x as nat,
                    (8 - i) as nat,
                ));
                assert(self@.subrange(off as int, off + i) =~= before.subrange(off as int, off + i - 1).push(
                    (x0 % 256) as u8,
                ));
                assert(self@.subrange(off as int, off + i) + le_bytes(x as nat, (8 - i) as nat)
                    =~= before.subrange(off as int, off + i - 1) + le_bytes(
                    x0 as nat,
                    (8 - i + 1) as nat,
                ));
            }
        }
        proof {
            assert(self@.subrange(off as int, off + 8) =~= self@.subrange(off as int, off + 8) + le_bytes(x as nat, 0));
        }
        let ghost d1 = self@;
        let n = T::size();
        let mut buf: Vec<u8> = vec![0u8; n];
        v.save(buf.as_mut_slice());
        let mut j: usize = 0;
        while j < n
            invariant
                j <= n,
                n == T::spec_size(),
                buf@ == T::spec_bytes(v),
                buf@.len() == n,
                self@.len() == d1.len(),
                d1.len() <= usize::MAX,
                off + 8 + n <= d1.len(),
                forall|k: int| 0 <= k < j ==> self@[off + 8 + k] == buf@[k],
                forall|k: int| 0 <= k < d1.len() && !(off + 8 <= k < off + 8 + j) ==> #[trigger] self@[k] == d1[k],
            decreases n - j,
        {
            self.data[off + 8 + j] = buf[j];
            j += 1;
        }
        proof {
            assert(value_bytes(self@, entry as int, es) =~= buf@);
            assert(self@.subrange(off as int, off + 8) =~= d1.subrange(off as int, off + 8));
        }
    }
}

} // verus!
