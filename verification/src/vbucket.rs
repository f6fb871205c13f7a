//! Bucket page that stores small variable size records (up to 255 bytes).
//!
//! Layout of a bucket page `d` of length `n`:
//! byte `EALL` is the size of the entry array, byte `FREE` the first free
//! entry, bytes `DALL..DALL+2` the amount of data allocated, bytes
//! `SLOT..SLOT+SLOTS` the first entry of each hash slot, then the data area
//! (each record is a length byte followed by the record bytes).
//! The entry array grows backwards from the end of the page: entry `e`
//! (numbered from 1) occupies `n - 3e .. n - 3e + 3` and holds the next entry
//! of its chain and the 2-byte offset of its record.

use crate::vbuckmap::VKey;
use crate::vpage::{
    cost, lemma_insert_wf, lemma_rebuild_post, lemma_rebuild_pre, lemma_rebuild_start,
    lemma_rebuilt_all, rebuilding, slot_records, wf,
};
use vstd::prelude::*;

verus! {

/// Number of hash slots.
pub const SLOTS: usize = 103;

/// Size of an entry in the entry array.
pub const ESIZE: usize = 3;

/// Offset of the size of the entry array (1 byte).
pub const EALL: usize = 0;

/// Offset of the first free entry (1 byte).
pub const FREE: usize = 1;

/// Offset of the amount of data allocated (2 bytes).
pub const DALL: usize = 2;

/// Offset of the slot array.
pub const SLOT: usize = 4;

/// Offset of the data area.
pub const DATA: usize = 107;

/// Two-byte little-endian value at `off`.
pub open spec fn get2(d: Seq<u8>, off: int) -> int {
    d[off] as int + 256 * (d[off + 1] as int)
}

/// Offset of entry `e` in the entry array.
pub open spec fn eoff(d: Seq<u8>, e: int) -> int {
    d.len() - e * 3
}

/// Next entry in the chain after entry `e`.
pub open spec fn next_of(d: Seq<u8>, e: int) -> u8 {
    d[eoff(d, e)]
}

/// Offset of the record (its length byte) of entry `e`.
pub open spec fn voff_of(d: Seq<u8>, e: int) -> int {
    get2(d, eoff(d, e) + 1)
}

/// Entry `e` lies in the entry array after the data area start.
pub open spec fn entry_in_page(d: Seq<u8>, e: int) -> bool {
    1 <= e && e * 3 + DATA <= d.len()
}

/// Entry `e` lies in the page and its record lies within the page.
pub open spec fn entry_valid(d: Seq<u8>, e: int) -> bool {
    &&& entry_in_page(d, e)
    &&& voff_of(d, e) < d.len()
    &&& voff_of(d, e) + 1 + d[voff_of(d, e)] <= d.len()
}

/// The record bytes of entry `e`.
pub open spec fn record(d: Seq<u8>, e: int) -> Seq<u8> {
    let v = voff_of(d, e);
    d.subrange(v + 1, v + 1 + d[v])
}

/// The chain of entries starting at `e`, when it ends within `fuel` steps
/// and every entry on it is valid.
pub open spec fn chain(d: Seq<u8>, e: u8, fuel: nat) -> Option<Seq<u8>>
    decreases fuel,
{
    if e == 0 {
        Some(Seq::empty())
    } else if fuel == 0 || !entry_valid(d, e as int) {
        None
    } else {
        match chain(d, next_of(d, e as int), (fuel - 1) as nat) {
            Some(s) => Some(seq![e] + s),
            None => None,
        }
    }
}

/// Enough fuel for any chain of a page (there are at most 255 entries).
pub open spec fn max_chain() -> nat {
    256
}

/// The chain of hash slot `slot`.
pub open spec fn slot_chain(d: Seq<u8>, slot: int) -> Option<Seq<u8>> {
    chain(d, d[SLOT + slot], max_chain())
}

/// Every slot chain of the page ends and holds valid entries.
pub open spec fn chains_ok(d: Seq<u8>) -> bool {
    &&& d.len() >= DATA
    &&& forall|s: int| 0 <= s < SLOTS ==> (#[trigger] slot_chain(d, s)) is Some
}

/// The entries of the chain starting at `e` (empty when it does not end).
pub open spec fn chain_entries(d: Seq<u8>, e: u8) -> Seq<u8> {
    match chain(d, e, max_chain()) {
        Some(s) => s,
        None => Seq::empty(),
    }
}

/// Entries of the slots `slot..SLOTS`, in iteration order.
pub open spec fn slots_from(d: Seq<u8>, slot: int) -> Seq<u8>
    decreases SLOTS - slot,
{
    if slot >= SLOTS || slot < 0 {
        Seq::empty()
    } else {
        chain_entries(d, d[SLOT + slot]) + slots_from(d, slot + 1)
    }
}

/// Entries that iteration from position (`slot`, `entry`) visits.
pub open spec fn remaining(d: Seq<u8>, slot: int, entry: u8) -> Seq<u8> {
    chain_entries(d, entry) + slots_from(d, slot)
}

/// First entry of `es` whose record the key accepts.
pub open spec fn first_match<K: VKey>(d: Seq<u8>, es: Seq<u8>, key: &K) -> Option<u8>
    decreases es.len(),
{
    if es.len() == 0 {
        None
    } else if key.matches(record(d, es[0] as int)) {
        Some(es[0])
    } else {
        first_match(d, es.drop_first(), key)
    }
}

/// Position of the first entry of `es` whose record the key accepts.
pub open spec fn first_match_index<K: VKey>(d: Seq<u8>, es: Seq<u8>, key: &K) -> int
    decreases es.len(),
{
    if es.len() == 0 {
        -1
    } else if key.matches(record(d, es[0] as int)) {
        0
    } else {
        let r = first_match_index(d, es.drop_first(), key);
        if r < 0 {
            -1
        } else {
            r + 1
        }
    }
}

/// Chain fuel can only help.
pub proof fn lemma_chain_fuel(d: Seq<u8>, e: u8, f1: nat, f2: nat)
    requires
        f1 <= f2,
        chain(d, e, f1) is Some,
    ensures
        chain(d, e, f2) == chain(d, e, f1),
    decreases f1,
{
    if e != 0 {
        lemma_chain_fuel(d, next_of(d, e as int), (f1 - 1) as nat, (f2 - 1) as nat);
    }
}

/// One step along a chain that ends.
pub proof fn lemma_chain_step(d: Seq<u8>, e: u8)
    requires
        e != 0,
        chain(d, e, max_chain()) is Some,
    ensures
        entry_valid(d, e as int),
        chain(d, next_of(d, e as int), max_chain()) is Some,
        chain_entries(d, e) == seq![e] + chain_entries(d, next_of(d, e as int)),
{
    let n = next_of(d, e as int);
    lemma_chain_fuel(d, n, (max_chain() - 1) as nat, max_chain());
    assert(chain_entries(d, e) =~= seq![e] + chain_entries(d, n));
}

/// Every entry of a chain that ends lies in the page.
pub proof fn lemma_chain_entry_in_page(d: Seq<u8>, es: Seq<u8>, k: int)
    requires
        exists|e: u8| chain(d, e, max_chain()) == Some(es),
        0 <= k < es.len(),
    ensures
        entry_valid(d, es[k] as int),
{
    let e = choose|e: u8| chain(d, e, max_chain()) == Some(es);
    lemma_chain_valid(d, e, max_chain(), k);
}

/// Every entry of a chain that ends is valid.
pub proof fn lemma_chain_valid(d: Seq<u8>, e: u8, fuel: nat, k: int)
    requires
        chain(d, e, fuel) is Some,
        0 <= k < chain(d, e, fuel).unwrap().len(),
    ensures
        entry_valid(d, chain(d, e, fuel).unwrap()[k] as int),
    decreases fuel,
{
    if k > 0 {
        lemma_chain_valid(d, next_of(d, e as int), (fuel - 1) as nat, k - 1);
    }
}

/// Record position helper used by the iteration.
pub proof fn lemma_first_match_index<K: VKey>(d: Seq<u8>, es: Seq<u8>, key: &K)
    ensures
        -1 <= first_match_index(d, es, key) < es.len(),
        first_match_index(d, es, key) == -1 <==> first_match(d, es, key) is None,
        first_match_index(d, es, key) >= 0 ==> first_match(d, es, key) == Some(
            es[first_match_index(d, es, key)],
        ),
        first_match_index(d, es, key) >= 0 ==> key.matches(
            record(d, es[first_match_index(d, es, key)] as int),
        ),
        forall|j: int|
            0 <= j < first_match_index(d, es, key) || (first_match_index(d, es, key) == -1 && 0
                <= j < es.len()) ==> !key.matches(#[trigger] record(d, es[j] as int)),
    decreases es.len(),
{
    if es.len() > 0 && !key.matches(record(d, es[0] as int)) {
        lemma_first_match_index(d, es.drop_first(), key);
        assert forall|j: int|
            0 <= j < first_match_index(d, es, key) || (first_match_index(d, es, key) == -1 && 0
                <= j < es.len()) implies !key.matches(#[trigger] record(d, es[j] as int)) by {
            if j > 0 {
                assert(es[j] == es.drop_first()[j - 1]);
            }
        }
    }
}

/// Is entry `e` (not 0) valid: in the page, with its record in the page?
fn valid_entry(d: &[u8], e: u8) -> (r: bool)
    requires
        e != 0,
    ensures
        r == entry_valid(d@, e as int),
{
    let n = d.len();
    if (e as usize) * ESIZE + DATA > n {
        return false;
    }
    let off = n - (e as usize) * ESIZE + 1;
    let voff = d[off] as usize + (d[off + 1] as usize) * 256;
    if voff >= n {
        return false;
    }
    voff + 1 + (d[voff] as usize) <= n
}

/// Does the chain starting at `head` end within the fuel, with valid
/// entries?
fn chain_ends(d: &[u8], head: u8) -> (r: bool)
    ensures
        r == chain(d@, head, max_chain()) is Some,
{
    let mut e = head;
    let mut fuel: u32 = 256;
    while e != 0
        invariant
            fuel <= 256,
            (chain(d@, head, max_chain()) is Some) == (chain(d@, e, fuel as nat) is Some),
        decreases fuel,
    {
        if fuel == 0 {
            return false;
        }
        if !valid_entry(d, e) {
            return false;
        }
        let n = d.len();
        let next = d[n - (e as usize) * ESIZE];
        e = next;
        fuel -= 1;
    }
    true
}

/// Does every slot chain of the page end, with valid entries (what reading
/// the page needs)? Bytes read from storage are checked with this before
/// they are read as a bucket page.
pub fn check_chains(d: &[u8]) -> (r: bool)
    ensures
        r == chains_ok(d@),
{
    if d.len() < DATA {
        return false;
    }
    let mut s: usize = 0;
    while s < SLOTS
        invariant
            s <= SLOTS,
            d@.len() >= DATA,
            forall|t: int| 0 <= t < s ==> (#[trigger] slot_chain(d@, t)) is Some,
        decreases SLOTS - s,
    {
        if !chain_ends(d, d[SLOT + s]) {
            proof {
                assert(!(slot_chain(d@, s as int) is Some));
            }
            return false;
        }
        s += 1;
    }
    true
}

/// Iteration position for [Reader::iter_next].
pub struct Pos {
    /// Next slot to visit.
    pub slot: usize,
    /// Next entry to visit in the current chain (0 if none).
    pub entry: u8,
}

impl Pos {
    /// Get start position.
    pub fn start() -> (r: Self)
        ensures
            r.slot == 0,
            r.entry == 0,
    {
        Self { slot: 0, entry: 0 }
    }
}

/// A position is usable on page `d`.
pub open spec fn pos_ok(d: Seq<u8>, p: Pos) -> bool {
    &&& p.slot <= SLOTS
    &&& chain(d, p.entry, max_chain()) is Some
    &&& p.entry != 0 ==> p.slot >= 1 && chain_entries(d, p.entry).is_suffix_of(
        chain_entries(d, d[SLOT + p.slot - 1]),
    )
}

/// For reading Bucket.
pub struct Reader<'a> {
    data: &'a [u8],
}

impl<'a> View for Reader<'a> {
    type V = Seq<u8>;

    closed spec fn view(&self) -> Seq<u8> {
        self.data@
    }
}

impl<'a> Reader<'a> {
    /// Reader of the page bytes `data`.
    pub fn new(data: &'a [u8]) -> (r: Self)
        ensures
            r@ == data@,
    {
        Self { data }
    }

    /// Get offset and length of the record associated with key: the first
    /// record of the key's hash slot chain that the key accepts.
    pub fn get<K: VKey>(&self, key: &K, hash: u64) -> (r: Option<(usize, usize)>)
        requires
            self@.len() == 0 || chains_ok(self@),
        ensures
            self@.len() == 0 ==> r is None,
            self@.len() > 0 ==> r == match first_match(
                self@,
                chain_entries(self@, self@[SLOT + (hash % (SLOTS as u64)) as int]),
                key,
            ) {
                Some(e) => Some(
                    ((voff_of(self@, e as int) + 1) as usize, self@[voff_of(self@, e as int)] as usize),
                ),
                None => None,
            },
    {
        if self.data.len() == 0 {
            return None;
        }
        let slot = (hash % (SLOTS as u64)) as usize;
        let ghost d = self@;
        let mut entry = self.data[SLOT + slot];
        proof {
            assert(slot_chain(d, slot as int) is Some);
        }
        let ghost es = chain_entries(d, entry);
        assert(es == chain_entries(self@, self@[SLOT + (hash % (SLOTS as u64)) as int]));
        while entry != 0
            invariant
                d == self@,
                d.len() > 0,
                es == chain_entries(self@, self@[SLOT + (hash % (SLOTS as u64)) as int]),
                chain(d, entry, max_chain()) is Some,
                first_match(d, es, key) == first_match(d, chain_entries(d, entry), key),
            decreases chain_entries(d, entry).len(),
        {
            proof {
                lemma_chain_step(d, entry);
            }
            let voff = self.get_voff(entry);
            let len = self.data[voff] as usize;
            let v = &self.data[voff + 1..voff + 1 + len];
            if key.ok(v) {
                proof {
                    let ce = chain_entries(d, entry);
                    assert(ce[0] == entry);
                    assert(v@ == record(d, entry as int));
                    assert(first_match(d, ce, key) == Some(entry));
                }
                return Some((voff + 1, len));
            }
            let ghost old_entry = entry;
            entry = self.next(entry);
            proof {
                assert(chain_entries(d, old_entry).drop_first() =~= chain_entries(d, entry));
            }
        }
        None
    }

    /// Get next (offset, length) pair, pos moves to next record.
    pub fn iter_next(&self, pos: &mut Pos) -> (r: Option<(usize, usize)>)
        requires
            self@.len() == 0 || (chains_ok(self@) && pos_ok(self@, *old(pos))),
        ensures
            self@.len() == 0 ==> r is None && *final(pos) == *old(pos),
            self@.len() > 0 ==> {
                let rem = remaining(self@, old(pos).slot as int, old(pos).entry);
                &&& pos_ok(self@, *final(pos))
                &&& rem.len() == 0 ==> r is None && remaining(
                    self@,
                    final(pos).slot as int,
                    final(pos).entry,
                ).len() == 0
                &&& rem.len() > 0 ==> {
                    &&& r == Some(
                        (
                            (voff_of(self@, rem[0] as int) + 1) as usize,
                            self@[voff_of(self@, rem[0] as int)] as usize,
                        ),
                    )
                    &&& remaining(self@, final(pos).slot as int, final(pos).entry) == rem.drop_first()
                    &&& entry_valid(self@, rem[0] as int)
                    &&& final(pos).slot >= 1
                    &&& chain_entries(self@, self@[SLOT + final(pos).slot - 1]).contains(rem[0])
                }
            },
    {
        if self.data.len() == 0 {
            return None;
        }
        let ghost d = self@;
        while pos.entry == 0
            invariant
                d == self@,
                chains_ok(d),
                pos_ok(d, *pos),
                remaining(d, pos.slot as int, pos.entry) == remaining(
                    d,
                    old(pos).slot as int,
                    old(pos).entry,
                ),
            decreases SLOTS - pos.slot,
        {
            if pos.slot == SLOTS {
                proof {
                    assert(remaining(d, pos.slot as int, pos.entry) =~= Seq::<u8>::empty());
                }
                return None;
            }
            proof {
                assert(slot_chain(d, pos.slot as int) is Some);
                assert(slots_from(d, pos.slot as int) == chain_entries(d, d[SLOT + pos.slot])
                    + slots_from(d, pos.slot + 1));
                assert(chain_entries(d, 0) =~= Seq::<u8>::empty());
            }
            pos.entry = self.data[SLOT + pos.slot];
            pos.slot += 1;
            proof {
                assert(chain_entries(d, pos.entry).is_suffix_of(
                    chain_entries(d, d[SLOT + pos.slot - 1]),
                ));
            }
        }
        proof {
            lemma_chain_step(d, pos.entry);
        }
        let e = pos.entry;
        let voff = self.get_voff(e);
        pos.entry = self.next(e);
        let len = self.data[voff] as usize;
        proof {
            let whole = chain_entries(d, d[SLOT + pos.slot - 1]);
            let ce = chain_entries(d, e);
            assert(ce[0] == e);
            assert(whole[whole.len() - ce.len()] == ce[0]);
            assert(whole.contains(e));
            let cn = chain_entries(d, pos.entry);
            assert(cn =~= ce.drop_first());
            assert(cn =~= whole.subrange(whole.len() - cn.len(), whole.len() as int));
            assert(remaining(d, old(pos).slot as int, old(pos).entry)[0] == e);
            assert(remaining(d, pos.slot as int, pos.entry) =~= remaining(
                d,
                old(pos).slot as int,
                old(pos).entry,
            ).drop_first());
        }
        Some((voff + 1, len))
    }

    /// The size a page needs to take the records of this page: header and
    /// slots, and for each record its length byte, its bytes and its entry.
    pub fn records_size(&self) -> (r: usize)
        requires
            wf(self@),
        ensures
            r == DATA + cost(self@, slots_from(self@, 0)),
    {
        let ghost d = self@;
        let ghost a = slots_from(d, 0);
        let ghost n = a.len() as int;
        proof {
            crate::vpage::lemma_wf_count(d);
            assert(a.subrange(0, 0) =~= Seq::<u8>::empty());
            assert(a.subrange(0, n) =~= a);
            assert(remaining(d, 0, 0) =~= slots_from(d, 0)) by {
                assert(chain_entries(d, 0) =~= Seq::<u8>::empty());
            }
        }
        let mut total: usize = DATA;
        let mut pos = Pos::start();
        let ghost mut k: int = 0;
        loop
            invariant_except_break
                pos_ok(d, pos),
                remaining(d, pos.slot as int, pos.entry) == a.subrange(k, n),
            invariant
                d == self@,
                a == slots_from(d, 0),
                n == a.len(),
                n <= 255,
                wf(d),
                0 <= k <= n,
                total == DATA + cost(d, a.subrange(0, k)),
                cost(d, a.subrange(0, k)) <= k * 259,
            ensures
                k == n,
            decreases n - k,
        {
            let r = self.iter_next(&mut pos);
            match r {
                None => {
                    break;
                },
                Some((_off, len)) => {
                    proof {
                        let x = a[k];
                        assert(a.subrange(k, n)[0] == x);
                        crate::vpage::lemma_cost_step(d, a, k);
                        assert(a.subrange(k, n).drop_first() =~= a.subrange(k + 1, n));
                        assert(a.subrange(0, k + 1).subrange(0, k) =~= a.subrange(0, k));
                        assert(a.subrange(0, k + 1).drop_last() =~= a.subrange(0, k));
                        k = k + 1;
                    }
                    total = total + 4 + len;
                },
            }
        }
        total
    }

    /// Returns a new page of `size` bytes with the same records, compacted:
    /// each slot holds the records it held, in reverse order; no entry is
    /// free, there is one entry per record, and the data area holds just the
    /// records (their length bytes and bytes). Size must be sufficient to
    /// hold the records.
    pub fn rebuild(&self, size: usize) -> (r: Vec<u8>)
        requires
            wf(self@),
            DATA + cost(self@, slots_from(self@, 0)) <= size < 65536,
        ensures
            r@.len() == size,
            wf(r@),
            forall|t: int| 0 <= t < SLOTS ==> #[trigger] slot_records(r@, t) == slot_records(self@, t).reverse(),
            r@[FREE as int] == 0,
            r@[EALL as int] == slots_from(self@, 0).len(),
            get2(r@, DALL as int) == cost(self@, slots_from(self@, 0)) - 3 * slots_from(self@, 0).len(),
    {
        let ghost d = self@;
        let ghost a = slots_from(d, 0);
        let ghost n = a.len() as int;
        let zero: Vec<u8> = vec![0u8; size];
        proof {
            assert forall|i: int| 0 <= i < zero@.len() implies zero@[i] == 0 by {
                assert(vstd::pervasive::cloned::<u8>(0u8, zero@[i]));
            }
            lemma_rebuild_start(d, zero@);
            assert(a.subrange(0, n) =~= a);
            assert(remaining(d, 0, 0) =~= slots_from(d, 0)) by {
                assert(chain_entries(d, 0) =~= Seq::<u8>::empty());
            }
        }
        let mut w = Writer::new(zero);
        let mut pos = Pos::start();
        let ghost mut k: int = 0;
        loop
            invariant_except_break
                pos_ok(d, pos),
                remaining(d, pos.slot as int, pos.entry) == a.subrange(k, n),
            invariant
                d == self@,
                a == slots_from(d, 0),
                n == a.len(),
                w@.len() == size,
                rebuilding(d, w@, k),
            ensures
                k == n,
            decreases n - k,
        {
            let ghost before = w@;
            let r = self.iter_next(&mut pos);
            match r {
                None => {
                    break;
                },
                Some((off, len)) => {
                    let ghost x = a[k];
                    let ghost c = pos.slot - 1;
                    proof {
                        assert(a.subrange(k, n)[0] == x);
                        lemma_rebuild_pre(d, before, k, c);
                        assert(a.subrange(k, n).drop_first() =~= a.subrange(k + 1, n));
                    }
                    let ud = &self.data[off..off + len];
                    proof {
                        assert(ud@ =~= record(d, x as int));
                    }
                    w.insert_at(pos.slot - 1, ud);
                    proof {
                        lemma_rebuild_post(d, before, w@, k, c);
                        k = k + 1;
                    }
                },
            }
        }
        proof {
            assert forall|t: int| 0 <= t < SLOTS implies #[trigger] slot_records(w@, t)
                == slot_records(self@, t).reverse() by {
                lemma_rebuilt_all(d, t);
            }
        }
        w.into_data()
    }

    /// Get next entry from entry array.
    fn next(&self, entry: u8) -> (r: u8)
        requires
            entry_in_page(self@, entry as int),
        ensures
            r == next_of(self@, entry as int),
    {
        self.data[self.data.len() - (entry as usize) * ESIZE]
    }

    /// Get value offset from entry array.
    fn get_voff(&self, entry: u8) -> (r: usize)
        requires
            entry_in_page(self@, entry as int),
        ensures
            r == voff_of(self@, entry as int),
    {
        let off = self.data.len() - (entry as usize) * ESIZE + 1;
        let _len = self.data.len();
        self.data[off] as usize + (self.data[off + 1] as usize) * 256
    }
}


/// The entry that an insert allocates: the head of the free list, else a new one.
pub open spec fn new_entry(d: Seq<u8>) -> int {
    if d[FREE as int] != 0 {
        d[FREE as int] as int
    } else {
        d[EALL as int] + 1
    }
}

/// Bytes in use: header and slots, allocated data and entry array.
pub open spec fn used(d: Seq<u8>) -> int {
    DATA + get2(d, DALL as int) + (d[EALL as int] as int) * 3
}

/// Extra space needed to add a record of `rsize` bytes.
pub open spec fn space_needed(d: Seq<u8>, rsize: int) -> int {
    let reqd = used(d) + 1 + rsize + (if d[FREE as int] == 0 {
        ESIZE as int
    } else {
        0
    });
    if reqd > d.len() {
        reqd - d.len()
    } else {
        0
    }
}

/// The page can take the record `n` bytes long in slot `slot` (what
/// [Writer::insert_at] needs).
pub open spec fn can_insert(d: Seq<u8>, slot: int, n: int) -> bool {
    &&& d.len() >= DATA
    &&& 0 <= slot < SLOTS
    &&& n < 256
    &&& space_needed(d, n) == 0
    &&& !(d[FREE as int] == 0 && d[EALL as int] == 255)
    &&& d[FREE as int] != 0 ==> entry_in_page(d, d[FREE as int] as int) && d[FREE as int]
        <= d[EALL as int]
}

/// `new` is `old` with the record `ud` added at the front of slot `slot`.
pub open spec fn inserted(old: Seq<u8>, new: Seq<u8>, slot: int, ud: Seq<u8>) -> bool {
    let e = new_entry(old);
    let v = DATA + get2(old, DALL as int);
    let n = ud.len() as int;
    &&& new.len() == old.len()
    &&& new[EALL as int] == (if old[FREE as int] != 0 {
        old[EALL as int] as int
    } else {
        old[EALL as int] + 1
    })
    &&& new[FREE as int] == (if old[FREE as int] != 0 {
        next_of(old, old[FREE as int] as int)
    } else {
        0
    })
    &&& get2(new, DALL as int) == (get2(old, DALL as int) + 1 + n) % 65536
    &&& new[v] == n
    &&& new.subrange(v + 1, v + 1 + n) == ud
    &&& next_of(new, e) == old[SLOT + slot]
    &&& voff_of(new, e) == v % 65536
    &&& new[SLOT + slot] == e
    &&& forall|i: int|
        0 <= i < old.len() && i != EALL && i != FREE && i != DALL && i != DALL + 1 && i != SLOT
            + slot && !(v <= i < v + 1 + n) && !(eoff(old, e) <= i < eoff(old, e) + 3)
            ==> #[trigger] new[i] == old[i]
}

/// `new` is `old` with the record of the `k`-th entry of the slot chain `es`
/// unlinked and its entry put on the free list.
pub open spec fn unlinked(old: Seq<u8>, slot: int, es: Seq<u8>, k: int) -> Seq<u8> {
    let e = es[k] as int;
    let nx = next_of(old, e);
    let d1 = if k == 0 {
        old.update(SLOT + slot, nx)
    } else {
        old.update(eoff(old, es[k - 1] as int), nx)
    };
    d1.update(eoff(old, e), old[FREE as int]).update(FREE as int, es[k])
}

/// For writing Bucket.
pub struct Writer {
    data: Vec<u8>,
}

impl View for Writer {
    type V = Seq<u8>;

    closed spec fn view(&self) -> Seq<u8> {
        self.data@
    }
}

impl Writer {
    /// Writer of the page bytes `data`.
    pub fn new(data: Vec<u8>) -> (r: Self)
        ensures
            r@ == data@,
    {
        Self { data }
    }

    /// The page bytes.
    pub fn into_data(self) -> (r: Vec<u8>)
        ensures
            r@ == self@,
    {
        self.data
    }

    /// Add record (user_data) to bucket, in the slot of its hash.
    ///
    /// Pre-condition : bucket must have sufficient space. No duplicates!
    pub fn insert(&mut self, user_data: &[u8], hash: u64)
        requires
            can_insert(old(self)@, (hash % (SLOTS as u64)) as int, user_data@.len() as int),
        ensures
            inserted(old(self)@, final(self)@, (hash % (SLOTS as u64)) as int, user_data@),
            wf(old(self)@) ==> wf(final(self)@) && slot_records(
                final(self)@,
                (hash % (SLOTS as u64)) as int,
            ) == seq![user_data@] + slot_records(old(self)@, (hash % (SLOTS as u64)) as int),
    {
        let slot = (hash % (SLOTS as u64)) as usize;
        self.insert_at(slot, user_data);
        proof {
            if wf(old(self)@) {
                lemma_insert_wf(old(self)@, self@, slot as int, user_data@);
            }
        }
    }

    /// Extra space needed to add a new record (row) of specified size (without rebuild).
    pub fn space(&self, rsize: usize) -> (r: usize)
        requires
            self@.len() >= DATA,
            used(self@) + 1 + rsize + ESIZE <= usize::MAX,
        ensures
            r == space_needed(self@, rsize as int),
    {
        let used = DATA + self.get2(DALL) + (self.data[EALL] as usize) * 3;
        let reqd = used + 1 + rsize + (if self.data[FREE] == 0 {
            ESIZE
        } else {
            0
        });
        if reqd > self.data.len() {
            reqd - self.data.len()
        } else {
            0
        }
    }

    /// Entry limit reached - bucket cannot take any more records.
    pub fn entry_full(&self) -> (r: bool)
        requires
            self@.len() >= DATA,
        ensures
            r == (self@[FREE as int] == 0 && self@[EALL as int] == 255),
    {
        self.data[FREE] == 0 && self.data[EALL] == 255
    }

    /// Insert at specified slot.
    fn insert_at(&mut self, slot: usize, user_data: &[u8])
        requires
            can_insert(old(self)@, slot as int, user_data@.len() as int),
        ensures
            inserted(old(self)@, final(self)@, slot as int, user_data@),
    {
        let ghost old_d = self@;
        let n = user_data.len();
        let _len = self.data.len();
        let new_entry = self.alloc_entry();
        let voff = self.alloc_data(1 + n);
        let ghost d2 = self@;
        self.data[voff] = n as u8;
        let mut i: usize = 0;
        while i < n
            invariant
                i <= n,
                n == user_data@.len(),
                voff + 1 + n <= self@.len(),
                self@.len() == d2.len(),
                self@.len() <= usize::MAX,
                self@[voff as int] == n,
                forall|j: int| 0 <= j < i ==> self@[voff + 1 + j] == user_data@[j],
                forall|j: int|
                    0 <= j < self@.len() && j != voff && !(voff + 1 <= j < voff + 1 + n)
                        ==> #[trigger] self@[j] == d2[j],
            decreases n - i,
        {
            self.data[voff + 1 + i] = user_data[i];
            i += 1;
        }
        proof {
            assert(self@.subrange(voff + 1, voff + 1 + n) =~= user_data@);
        }
        self.set_voff(new_entry, voff);
        let old_entry = self.data[SLOT + slot];
        self.set_next(new_entry, old_entry);
        self.data[SLOT + slot] = new_entry;
        proof {
            let d = self@;
            assert(get2(d, DALL as int) == get2(d2, DALL as int));
            assert(d.subrange(voff + 1, voff + 1 + n) =~= user_data@);
        }
    }

    /// Remove the first record of the key's hash slot chain that the key
    /// accepts. Returns length of deleted record (0 if none).
    pub fn remove<K: VKey>(&mut self, key: &K, hash: u64) -> (r: usize)
        requires
            chains_ok(old(self)@),
            old(self)@.len() > FREE,
        ensures
            ({
                let slot = (hash % (SLOTS as u64)) as int;
                let es = chain_entries(old(self)@, old(self)@[SLOT + slot]);
                let k = first_match_index(old(self)@, es, key);
                &&& k == -1 ==> r == 0 && final(self)@ == old(self)@
                &&& k >= 0 ==> r == old(self)@[voff_of(old(self)@, es[k] as int)] && final(self)@
                    == unlinked(old(self)@, slot, es, k)
            }),
    {
        let ghost d = self@;
        let slot = (hash % (SLOTS as u64)) as usize;
        let mut entry = self.data[SLOT + slot];
        let mut prev: Option<u8> = None;
        let ghost es = chain_entries(d, entry);
        let ghost mut i: int = 0;
        proof {
            assert(slot_chain(d, slot as int) is Some);
            lemma_first_match_index(d, es, key);
        }
        while entry != 0
            invariant
                d == self@,
                d == old(self)@,
                d.len() > FREE,
                slot < SLOTS,
                slot as int == (hash % (SLOTS as u64)) as int,
                es == chain_entries(d, d[SLOT + slot]),
                chain(d, entry, max_chain()) is Some,
                0 <= i <= es.len(),
                chain_entries(d, entry) =~= es.subrange(i, es.len() as int),
                i > 0 ==> prev == Some(es[i - 1]),
                i == 0 ==> prev is None,
                first_match_index(d, es, key) == -1 || first_match_index(d, es, key) >= i,
                -1 <= first_match_index(d, es, key) < es.len(),
                forall|j: int|
                    0 <= j < first_match_index(d, es, key) || (first_match_index(d, es, key)
                        == -1 && 0 <= j < es.len()) ==> !key.matches(
                        #[trigger] record(d, es[j] as int),
                    ),
                first_match_index(d, es, key) >= 0 ==> key.matches(
                    record(d, es[first_match_index(d, es, key)] as int),
                ),
            decreases es.len() - i,
        {
            proof {
                lemma_chain_step(d, entry);
                let ce = chain_entries(d, entry);
                assert(ce[0] == entry);
                assert(ce.len() == es.len() - i);
                assert(ce[0] == es[i]);
            }
            let voff = self.get_voff(entry);
            let len = self.data[voff] as usize;
            let v = &self.data[voff + 1..voff + 1 + len];
            let next = self.next(entry);
            if key.ok(v) {
                proof {
                    assert(v@ == record(d, entry as int));
                    assert(first_match_index(d, es, key) == i);
                }
                if let Some(p) = prev {
                    proof {
                        lemma_chain_entry_in_page(d, es, i - 1);
                    }
                    self.set_next(p, next);
                } else {
                    self.data[SLOT + slot] = next;
                }
                let ghost d1 = self@;
                proof {
                    assert(d1.len() == d.len());
                    assert(d1[FREE as int] == d[FREE as int]);
                }
                let free = self.data[FREE];
                self.set_next(entry, free);
                self.data[FREE] = entry;
                proof {
                    assert(self@ == unlinked(d, slot as int, es, i));
                }
                return len;
            }
            proof {
                assert(v@ == record(d, entry as int));
                assert(chain_entries(d, next) =~= chain_entries(d, entry).drop_first());
                assert(chain_entries(d, next) =~= es.subrange(i + 1, es.len() as int));
                i = i + 1;
            }
            prev = Some(entry);
            entry = next;
        }
        proof {
            assert(first_match_index(d, es, key) == -1);
        }
        0
    }

    /// Get new entry.
    fn alloc_entry(&mut self) -> (r: u8)
        requires
            old(self)@.len() >= DATA,
            !(old(self)@[FREE as int] == 0 && old(self)@[EALL as int] == 255),
            old(self)@[FREE as int] != 0 ==> entry_in_page(
                old(self)@,
                old(self)@[FREE as int] as int,
            ),
        ensures
            r == new_entry(old(self)@),
            final(self)@ == (if old(self)@[FREE as int] != 0 {
                old(self)@.update(FREE as int, next_of(old(self)@, old(self)@[FREE as int] as int))
            } else {
                old(self)@.update(EALL as int, (old(self)@[EALL as int] + 1) as u8)
            }),
    {
        let result = self.data[FREE];
        if result != 0 {
            let nx = self.next(result);
            self.data[FREE] = nx;  // Unlink from free list.
            return result;
        }
        let result = self.data[EALL];  // Extend entry array.
        self.data[EALL] = result + 1;
        result + 1
    }

    /// Get next entry from entry array.
    fn next(&self, entry: u8) -> (r: u8)
        requires
            entry_in_page(self@, entry as int),
        ensures
            r == next_of(self@, entry as int),
    {
        self.data[self.data.len() - (entry as usize) * ESIZE]
    }

    /// Set next for specified entry.
    fn set_next(&mut self, entry: u8, val: u8)
        requires
            entry_in_page(old(self)@, entry as int),
        ensures
            final(self)@ == old(self)@.update(eoff(old(self)@, entry as int), val),
    {
        let off = self.data.len() - (entry as usize) * ESIZE;
        self.data[off] = val;
    }

    /// Get value offset from entry array.
    fn get_voff(&self, entry: u8) -> (r: usize)
        requires
            entry_in_page(self@, entry as int),
        ensures
            r == voff_of(self@, entry as int),
    {
        let off = self.data.len() - (entry as usize) * ESIZE + 1;
        self.get2(off)
    }

    /// Set value offset in entry array.
    fn set_voff(&mut self, entry: u8, voff: usize)
        requires
            entry_in_page(old(self)@, entry as int),
        ensures
            final(self)@ == old(self)@.update(eoff(old(self)@, entry as int) + 1, (voff % 256) as u8).update(
                eoff(old(self)@, entry as int) + 2,
                ((voff / 256) % 256) as u8,
            ),
            voff_of(final(self)@, entry as int) == voff % 65536,
    {
        let off = self.data.len() - (entry as usize) * ESIZE + 1;
        self.set2(off, voff);
    }

    /// Allocate offset for DATA array.
    fn alloc_data(&mut self, size: usize) -> (r: usize)
        requires
            old(self)@.len() >= DATA,
            DATA + get2(old(self)@, DALL as int) + size <= usize::MAX,
        ensures
            r == DATA + get2(old(self)@, DALL as int),
            final(self)@ == old(self)@.update(
                DALL as int,
                ((get2(old(self)@, DALL as int) + size) % 256) as u8,
            ).update(DALL + 1, (((get2(old(self)@, DALL as int) + size) / 256) % 256) as u8),
            get2(final(self)@, DALL as int) == (get2(old(self)@, DALL as int) + size) % 65536,
    {
        let result = self.get2(DALL);
        self.set2(DALL, result + size);
        DATA + result
    }

    /// Get 2 byte value from specified offset.
    fn get2(&self, off: usize) -> (r: usize)
        requires
            off + 1 < self@.len(),
        ensures
            r == get2(self@, off as int),
    {
        let _len = self.data.len();
        self.data[off] as usize + (self.data[off + 1] as usize) * 256
    }

    /// Set 2 byte value at specified offset.
    fn set2(&mut self, off: usize, to: usize)
        requires
            off + 1 < old(self)@.len(),
        ensures
            final(self)@ == old(self)@.update(off as int, (to % 256) as u8).update(
                off + 1,
                ((to / 256) % 256) as u8,
            ),
            get2(final(self)@, off as int) == to % 65536,
    {
        let _len = self.data.len();
        self.data[off] = (to % 256) as u8;
        self.data[off + 1] = ((to / 256) % 256) as u8;
    }
}

} // verus!
