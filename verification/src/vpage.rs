//! Well-formed bucket pages of small variable size records, and what an
//! insert into such a page does to the records that lookups find.

use crate::vbucket::{
    chain, chain_entries, entry_in_page, entry_valid, eoff, first_match, get2, inserted, max_chain,
    new_entry, next_of, record, slot_chain, slots_from, space_needed, used, voff_of, DALL, DATA,
    EALL, FREE, SLOT, SLOTS,
};
use crate::vbuckmap::VKey;
use vstd::prelude::*;

verus! {

/// Entries of the chain of hash slot `s`.
pub open spec fn slot_entries(d: Seq<u8>, s: int) -> Seq<u8> {
    chain_entries(d, d[SLOT + s])
}

/// Entry `e` is allocated: it lies in the entry array and its record lies in
/// the allocated data area.
pub open spec fn entry_alloc(d: Seq<u8>, e: int) -> bool {
    &&& 1 <= e <= d[EALL as int]
    &&& DATA <= voff_of(d, e)
    &&& voff_of(d, e) + 1 + d[voff_of(d, e)] <= DATA + get2(d, DALL as int)
}

/// The free list starting at `e`, when it ends within `fuel` steps inside the
/// entry array.
pub open spec fn free_chain(d: Seq<u8>, e: u8, fuel: nat) -> Option<Seq<u8>>
    decreases fuel,
{
    if e == 0 {
        Some(Seq::empty())
    } else if fuel == 0 || !(1 <= e <= d[EALL as int]) {
        None
    } else {
        match free_chain(d, next_of(d, e as int), (fuel - 1) as nat) {
            Some(s) => Some(seq![e] + s),
            None => None,
        }
    }
}

/// The free list of the page.
pub open spec fn free_list(d: Seq<u8>) -> Option<Seq<u8>> {
    free_chain(d, d[FREE as int], max_chain())
}

/// A well-formed bucket page: the allocated areas fit in the page, every slot
/// chain ends and holds allocated entries, no entry is on two chains or twice
/// on one, and the free list ends, has no repeated entry and shares no entry
/// with a slot chain.
pub open spec fn wf(d: Seq<u8>) -> bool {
    &&& DATA <= d.len() < 65536
    &&& used(d) <= d.len()
    &&& forall|s: int| 0 <= s < SLOTS ==> (#[trigger] slot_chain(d, s)) is Some
    &&& forall|s: int, k: int|
        0 <= s < SLOTS && 0 <= k < slot_entries(d, s).len() ==> entry_alloc(
            d,
            #[trigger] slot_entries(d, s)[k] as int,
        )
    &&& slots_from(d, 0).no_duplicates()
    &&& free_list(d) is Some
    &&& free_list(d).unwrap().no_duplicates()
    &&& forall|s: int, k: int, j: int|
        0 <= s < SLOTS && 0 <= k < slot_entries(d, s).len() && 0 <= j < free_list(d).unwrap().len()
            ==> #[trigger] slot_entries(d, s)[k] != #[trigger] free_list(d).unwrap()[j]
}

/// The records of the chain of slot `s`, in chain order.
pub open spec fn slot_records(d: Seq<u8>, s: int) -> Seq<Seq<u8>> {
    slot_entries(d, s).map_values(|e: u8| record(d, e as int))
}

/// Entry `x` and its record have the same bytes in `d2` as in `d`.
pub open spec fn same_entry(d: Seq<u8>, d2: Seq<u8>, x: int) -> bool {
    &&& d2.len() == d.len()
    &&& d2[eoff(d, x)] == d[eoff(d, x)]
    &&& d2[eoff(d, x) + 1] == d[eoff(d, x) + 1]
    &&& d2[eoff(d, x) + 2] == d[eoff(d, x) + 2]
    &&& d2[voff_of(d, x)] == d[voff_of(d, x)]
    &&& d2.subrange(voff_of(d, x) + 1, voff_of(d, x) + 1 + d[voff_of(d, x)]) == d.subrange(
        voff_of(d, x) + 1,
        voff_of(d, x) + 1 + d[voff_of(d, x)],
    )
}

/// A chain whose entries keep their bytes is the same chain.
pub proof fn lemma_chain_frame(d: Seq<u8>, d2: Seq<u8>, e: u8, fuel: nat)
    requires
        chain(d, e, fuel) is Some,
        d2.len() == d.len(),
        forall|k: int|
            0 <= k < chain(d, e, fuel).unwrap().len() ==> same_entry(
                d,
                d2,
                #[trigger] chain(d, e, fuel).unwrap()[k] as int,
            ),
    ensures
        chain(d2, e, fuel) == chain(d, e, fuel),
    decreases fuel,
{
    if e != 0 {
        let c = chain(d, e, fuel).unwrap();
        assert(c[0] == e);
        assert(same_entry(d, d2, c[0] as int));
        let n = next_of(d, e as int);
        let tail = chain(d, n, (fuel - 1) as nat).unwrap();
        assert forall|k: int| 0 <= k < tail.len() implies same_entry(
            d,
            d2,
            #[trigger] tail[k] as int,
        ) by {
            assert(tail[k] == c[k + 1]);
        }
        lemma_chain_frame(d, d2, n, (fuel - 1) as nat);
    }
}

/// A free list whose entries keep their next bytes, in an entry array that
/// does not shrink, is the same list.
pub proof fn lemma_free_chain_frame(d: Seq<u8>, d2: Seq<u8>, e: u8, fuel: nat)
    requires
        free_chain(d, e, fuel) is Some,
        d2.len() == d.len(),
        d2[EALL as int] >= d[EALL as int],
        forall|k: int|
            0 <= k < free_chain(d, e, fuel).unwrap().len() ==> d2[eoff(
                d,
                #[trigger] free_chain(d, e, fuel).unwrap()[k] as int,
            )] == d[eoff(d, free_chain(d, e, fuel).unwrap()[k] as int)],
    ensures
        free_chain(d2, e, fuel) == free_chain(d, e, fuel),
    decreases fuel,
{
    if e != 0 {
        let c = free_chain(d, e, fuel).unwrap();
        assert(c[0] == e);
        let n = next_of(d, e as int);
        let tail = free_chain(d, n, (fuel - 1) as nat).unwrap();
        assert forall|k: int| 0 <= k < tail.len() implies d2[eoff(d, #[trigger] tail[k] as int)]
            == d[eoff(d, tail[k] as int)] by {
            assert(tail[k] == c[k + 1]);
        }
        lemma_free_chain_frame(d, d2, n, (fuel - 1) as nat);
    }
}

/// The entries of a free list lie in the entry array.
pub proof fn lemma_free_chain_range(d: Seq<u8>, e: u8, fuel: nat)
    requires
        free_chain(d, e, fuel) is Some,
    ensures
        forall|k: int|
            0 <= k < free_chain(d, e, fuel).unwrap().len() ==> 1 <= #[trigger] free_chain(
                d,
                e,
                fuel,
            ).unwrap()[k] <= d[EALL as int],
    decreases fuel,
{
    if e != 0 {
        let n = next_of(d, e as int);
        lemma_free_chain_range(d, n, (fuel - 1) as nat);
        let c = free_chain(d, e, fuel).unwrap();
        let t = free_chain(d, n, (fuel - 1) as nat).unwrap();
        assert forall|k: int| 0 <= k < c.len() implies 1 <= #[trigger] c[k] <= d[EALL as int] by {
            if k > 0 {
                assert(c[k] == t[k - 1]);
            }
        }
    }
}

/// Free list fuel can only help.
pub proof fn lemma_free_chain_fuel(d: Seq<u8>, e: u8, f1: nat, f2: nat)
    requires
        f1 <= f2,
        free_chain(d, e, f1) is Some,
    ensures
        free_chain(d, e, f2) == free_chain(d, e, f1),
    decreases f1,
{
    if e != 0 {
        lemma_free_chain_fuel(d, next_of(d, e as int), (f1 - 1) as nat, (f2 - 1) as nat);
    }
}

/// Chain fuel can only help (the chains of [chain]).
proof fn lemma_chain_fuel_up(d: Seq<u8>, e: u8, f1: nat, f2: nat)
    requires
        f1 <= f2,
        chain(d, e, f1) is Some,
    ensures
        chain(d, e, f2) == chain(d, e, f1),
    decreases f1,
{
    if e != 0 {
        lemma_chain_fuel_up(d, next_of(d, e as int), (f1 - 1) as nat, (f2 - 1) as nat);
    }
}

/// A page of zero bytes, at least as long as the header and slots and
/// shorter than 65536 bytes, is a well-formed empty page.
pub proof fn lemma_zero_page_wf(d: Seq<u8>)
    requires
        DATA <= d.len() < 65536,
        forall|i: int| 0 <= i < d.len() ==> d[i] == 0,
    ensures
        wf(d),
        forall|s: int| 0 <= s < SLOTS ==> #[trigger] slot_records(d, s) == Seq::<Seq<u8>>::empty(),
{
    assert(free_list(d) == Some(Seq::<u8>::empty()));
    assert forall|s: int| 0 <= s < SLOTS implies (#[trigger] slot_chain(d, s)) is Some
        && slot_entries(d, s) == Seq::<u8>::empty() by {
        assert(d[SLOT + s] == 0);
    }
    assert forall|s: int| 0 <= s < SLOTS implies #[trigger] slot_records(d, s)
        == Seq::<Seq<u8>>::empty() by {
        assert(d[SLOT + s] == 0);
        assert(slot_records(d, s) =~= Seq::<Seq<u8>>::empty());
    }
    lemma_zero_slots_from(d, 0);
}

/// The slots of a page of zero bytes have no entries.
proof fn lemma_zero_slots_from(d: Seq<u8>, t: int)
    requires
        DATA <= d.len(),
        forall|i: int| 0 <= i < d.len() ==> d[i] == 0,
        0 <= t <= SLOTS,
    ensures
        slots_from(d, t) == Seq::<u8>::empty(),
    decreases SLOTS - t,
{
    if t < SLOTS {
        lemma_zero_slots_from(d, t + 1);
        assert(d[SLOT + t] == 0);
        assert(chain_entries(d, 0) =~= Seq::<u8>::empty());
        assert(slots_from(d, t) =~= Seq::<u8>::empty());
    }
}

/// Every entry of the slots from `t` on is on the chain of one of them.
pub proof fn lemma_slots_from_member(d: Seq<u8>, t: int, i: int)
    requires
        0 <= t <= SLOTS,
        0 <= i < slots_from(d, t).len(),
    ensures
        exists|s: int, k: int|
            t <= s < SLOTS && 0 <= k < slot_entries(d, s).len() && #[trigger] slot_entries(d, s)[k]
                == slots_from(d, t)[i],
    decreases SLOTS - t,
{
    let se = slot_entries(d, t);
    assert(slots_from(d, t) == se + slots_from(d, t + 1));
    if i < se.len() {
        assert(slot_entries(d, t)[i] == slots_from(d, t)[i]);
    } else {
        lemma_slots_from_member(d, t + 1, i - se.len());
        let (s, k) = choose|s: int, k: int|
            t + 1 <= s < SLOTS && 0 <= k < slot_entries(d, s).len() && #[trigger] slot_entries(d, s)[k]
                == slots_from(d, t + 1)[i - se.len()];
        assert(slot_entries(d, s)[k] == slots_from(d, t)[i]);
    }
}

/// Start of the entries of slot `t` among the entries of all slots.
pub open spec fn seg(d: Seq<u8>, t: int) -> int {
    slots_from(d, 0).len() - slots_from(d, t).len()
}

/// The entries of all slots are those of slot 0, then slot 1, and so on.
pub proof fn lemma_seg(d: Seq<u8>, t: int)
    requires
        0 <= t <= SLOTS,
    ensures
        0 <= seg(d, t) <= slots_from(d, 0).len(),
        slots_from(d, 0).subrange(seg(d, t), slots_from(d, 0).len() as int) == slots_from(d, t),
        t < SLOTS ==> seg(d, t + 1) == seg(d, t) + slot_entries(d, t).len(),
        t < SLOTS ==> slots_from(d, 0).subrange(seg(d, t), seg(d, t + 1)) == slot_entries(d, t),
        t == SLOTS ==> seg(d, t) == slots_from(d, 0).len(),
    decreases t,
{
    let a = slots_from(d, 0);
    if t == 0 {
        assert(a.subrange(0, a.len() as int) =~= a);
    } else {
        lemma_seg(d, t - 1);
        let prev = slots_from(d, t - 1);
        let pe = slot_entries(d, t - 1);
        assert(prev == pe + slots_from(d, t));
        let tail = a.subrange(seg(d, t - 1), a.len() as int);
        assert(a.subrange(seg(d, t), a.len() as int) =~= slots_from(d, t)) by {
            assert forall|i: int| 0 <= i < slots_from(d, t).len() implies a.subrange(
                seg(d, t),
                a.len() as int,
            )[i] == slots_from(d, t)[i] by {
                assert(tail[pe.len() + i] == prev[pe.len() + i]);
            }
        }
    }
    if t < SLOTS {
        let sf = slots_from(d, t);
        assert(sf == slot_entries(d, t) + slots_from(d, t + 1));
        let tail = a.subrange(seg(d, t), a.len() as int);
        assert(a.subrange(seg(d, t), seg(d, t + 1)) =~= slot_entries(d, t)) by {
            assert forall|i: int| 0 <= i < slot_entries(d, t).len() implies a.subrange(
                seg(d, t),
                seg(d, t + 1),
            )[i] == slot_entries(d, t)[i] by {
                assert(tail[i] == sf[i]);
            }
        }
    } else {
        assert(slots_from(d, t) =~= Seq::<u8>::empty());
    }
}

/// What an insert does to the entries of the slots from `t` on: the new
/// entry goes in front of the old entries of its slot.
proof fn lemma_insert_slots_from(old: Seq<u8>, new: Seq<u8>, slot: int, e: u8, t: int)
    requires
        0 <= slot < SLOTS,
        0 <= t <= SLOTS,
        slot_entries(new, slot) == seq![e] + slot_entries(old, slot),
        forall|s: int|
            0 <= s < SLOTS && s != slot ==> #[trigger] slot_entries(new, s) == slot_entries(old, s),
    ensures
        t > slot ==> slots_from(new, t) == slots_from(old, t),
        t <= slot ==> slots_from(new, t) == slots_from(old, t).subrange(
            0,
            slots_from(old, t).len() - slots_from(old, slot).len(),
        ) + seq![e] + slots_from(old, t).subrange(
            slots_from(old, t).len() - slots_from(old, slot).len(),
            slots_from(old, t).len() as int,
        ),
        slots_from(old, t).len() >= slots_from(old, slot).len() || t > slot,
    decreases SLOTS - t,
{
    if t == SLOTS {
        assert(slots_from(new, t) =~= slots_from(old, t));
    } else {
        lemma_insert_slots_from(old, new, slot, e, t + 1);
        let so = slots_from(old, t);
        let so1 = slots_from(old, t + 1);
        assert(so == slot_entries(old, t) + so1);
        assert(slots_from(new, t) == slot_entries(new, t) + slots_from(new, t + 1));
        if t > slot {
            assert(slot_entries(new, t) == slot_entries(old, t));
        } else if t == slot {
            assert(so.subrange(0, 0) =~= Seq::<u8>::empty());
            assert(so.subrange(0, so.len() as int) =~= so);
            assert(slots_from(new, t) =~= seq![e] + so);
        } else {
            assert(slot_entries(new, t) == slot_entries(old, t));
            let p1 = so1.len() - slots_from(old, slot).len();
            let p = so.len() - slots_from(old, slot).len();
            let se = slot_entries(old, t);
            assert(p == se.len() + p1);
            assert(slots_from(new, t) =~= so.subrange(0, p) + seq![e] + so.subrange(p, so.len() as int)) by {
                assert(so.subrange(0, p) =~= se + so1.subrange(0, p1));
                assert(so.subrange(p, so.len() as int) =~= so1.subrange(p1, so1.len() as int));
            }
        }
    }
}

/// A well-formed page has at most 255 entries on its slot chains.
pub proof fn lemma_wf_count(d: Seq<u8>)
    requires
        wf(d),
    ensures
        slots_from(d, 0).len() <= 255,
{
    let a = slots_from(d, 0);
    assert forall|i: int| 0 <= i < a.len() implies #[trigger] a[i] != 0 by {
        lemma_slots_from_member(d, 0, i);
        let (s, k) = choose|s: int, k: int|
            0 <= s < SLOTS && 0 <= k < slot_entries(d, s).len() && #[trigger] slot_entries(d, s)[k]
                == slots_from(d, 0)[i];
        assert(entry_alloc(d, slot_entries(d, s)[k] as int));
    }
    lemma_distinct_bytes_bound(a);
}

/// An allocated entry of a page whose allocated areas fit lies in the page
/// and its record too.
pub proof fn lemma_alloc_valid(d: Seq<u8>, e: int)
    requires
        DATA <= d.len(),
        used(d) <= d.len(),
        entry_alloc(d, e),
    ensures
        entry_valid(d, e),
        eoff(d, e) >= DATA + get2(d, DALL as int),
{
}

/// On a well-formed page with room for a record `n` bytes long and a free
/// entry, an insert is possible in any slot.
pub proof fn lemma_wf_can_insert(d: Seq<u8>, slot: int, n: int)
    requires
        wf(d),
        0 <= slot < SLOTS,
        0 <= n < 256,
        space_needed(d, n) == 0,
        !(d[FREE as int] == 0 && d[EALL as int] == 255),
    ensures
        crate::vbucket::can_insert(d, slot, n),
{
    if d[FREE as int] != 0 {
        let fl = free_list(d).unwrap();
        assert(fl[0] == d[FREE as int]);
    }
}

/// The bytes that an insert into a well-formed page leaves alone: those of
/// every allocated entry other than the new one, and of its record.
proof fn lemma_insert_frame(old: Seq<u8>, new: Seq<u8>, slot: int, ud: Seq<u8>)
    requires
        wf(old),
        crate::vbucket::can_insert(old, slot, ud.len() as int),
        inserted(old, new, slot, ud),
    ensures
        get2(new, DALL as int) == get2(old, DALL as int) + 1 + ud.len(),
        voff_of(new, new_entry(old)) == DATA + get2(old, DALL as int),
        1 <= new_entry(old) <= new[EALL as int],
        new[EALL as int] >= old[EALL as int],
        used(new) <= new.len(),
        old[FREE as int] != 0 ==> new_entry(old) == free_list(old).unwrap()[0],
        old[FREE as int] == 0 ==> new_entry(old) == old[EALL as int] + 1,
        forall|x: int| #[trigger]
            entry_alloc(old, x) && x != new_entry(old) ==> same_entry(old, new, x),
        forall|x: int|
            1 <= x <= old[EALL as int] && x != new_entry(old) ==> new[eoff(old, x)] == old[eoff(
                old,
                x,
            )],
{
    let e = new_entry(old);
    let v = DATA + get2(old, DALL as int);
    let n = ud.len() as int;
    let fresh = old[FREE as int] == 0;
    let len = old.len() as int;
    let ea = old[EALL as int] as int;
    let da = get2(old, DALL as int);
    assert(DATA + da + ea * 3 + 1 + n + (if fresh { 3int } else { 0int }) <= len);
    if !fresh {
        let fl = free_list(old).unwrap();
        assert(fl[0] == old[FREE as int]);
    }
    assert forall|x: int| 1 <= x <= ea && x != e implies new[eoff(old, x)] == old[eoff(old, x)] by {
        assert(eoff(old, x) >= v + 1 + n);
        assert(eoff(old, e) + 3 <= eoff(old, x) || eoff(old, x) + 3 <= eoff(old, e));
    }
    assert forall|x: int| #[trigger] entry_alloc(old, x) && x != e implies same_entry(old, new, x) by {
        lemma_alloc_valid(old, x);
        let vo = voff_of(old, x);
        assert(eoff(old, x) >= v + 1 + n);
        assert(eoff(old, e) + 3 <= eoff(old, x) || eoff(old, x) + 3 <= eoff(old, e));
        assert(new[eoff(old, x)] == old[eoff(old, x)]);
        assert(new[eoff(old, x) + 1] == old[eoff(old, x) + 1]);
        assert(new[eoff(old, x) + 2] == old[eoff(old, x) + 2]);
        assert(eoff(old, e) >= v + 1 + n);
        assert(new[vo] == old[vo]);
        assert(new.subrange(vo + 1, vo + 1 + old[vo]) =~= old.subrange(vo + 1, vo + 1 + old[vo]));
    }
}

/// The slot chains after an insert into a well-formed page.
proof fn lemma_insert_chains(old: Seq<u8>, new: Seq<u8>, slot: int, ud: Seq<u8>)
    requires
        wf(old),
        crate::vbucket::can_insert(old, slot, ud.len() as int),
        inserted(old, new, slot, ud),
    ensures
        forall|s: int| 0 <= s < SLOTS ==> (#[trigger] slot_chain(new, s)) is Some,
        slot_entries(new, slot) == seq![new_entry(old) as u8] + slot_entries(old, slot),
        forall|s: int|
            0 <= s < SLOTS && s != slot ==> #[trigger] slot_entries(new, s) == slot_entries(old, s),
        forall|s: int, k: int|
            0 <= s < SLOTS && 0 <= k < slot_entries(old, s).len() ==> same_entry(
                old,
                new,
                #[trigger] slot_entries(old, s)[k] as int,
            ) && entry_alloc(old, slot_entries(old, s)[k] as int) && slot_entries(old, s)[k]
                != new_entry(old),
        record(new, new_entry(old)) == ud,
        entry_valid(new, new_entry(old)),
{
    lemma_insert_frame(old, new, slot, ud);
    let e = new_entry(old);
    let fresh = old[FREE as int] == 0;
    assert forall|s: int, k: int|
        0 <= s < SLOTS && 0 <= k < slot_entries(old, s).len() implies same_entry(
        old,
        new,
        #[trigger] slot_entries(old, s)[k] as int,
    ) && entry_alloc(old, slot_entries(old, s)[k] as int) && slot_entries(old, s)[k] != e by {
        if !fresh {
            let fl = free_list(old).unwrap();
            assert(slot_entries(old, s)[k] != fl[0]);
        }
        assert(entry_alloc(old, slot_entries(old, s)[k] as int));
    }
    assert forall|s: int| 0 <= s < SLOTS implies chain(new, old[SLOT + s], max_chain())
        == #[trigger] slot_chain(old, s) by {
        assert(slot_chain(old, s) is Some);
        let c = chain(old, old[SLOT + s], max_chain()).unwrap();
        assert forall|k: int| 0 <= k < c.len() implies same_entry(old, new, #[trigger] c[k] as int) by {
            assert(c[k] == slot_entries(old, s)[k]);
        }
        lemma_chain_frame(old, new, old[SLOT + s], max_chain());
    }
    assert forall|s: int| 0 <= s < SLOTS && s != slot implies #[trigger] slot_entries(new, s)
        == slot_entries(old, s) && slot_chain(new, s) is Some by {
        assert(new[SLOT + s] == old[SLOT + s]);
        assert(slot_chain(old, s) is Some);
    }
    // The chain of the slot gets the new entry at its head.
    let h = old[SLOT + slot];
    let oc = slot_entries(old, slot);
    assert(new[SLOT + slot] == e);
    assert(next_of(new, e) == h);
    assert(entry_valid(new, e));
    assert(record(new, e) =~= ud);
    assert(slot_chain(old, slot) is Some);
    lemma_chain_short(old, h);
    let c = chain(old, h, (max_chain() - 1) as nat).unwrap();
    assert(c == oc);
    assert forall|k: int| 0 <= k < c.len() implies same_entry(old, new, #[trigger] c[k] as int) by {
        assert(c[k] == slot_entries(old, slot)[k]);
    }
    lemma_chain_frame(old, new, h, (max_chain() - 1) as nat);
    assert(chain(new, e as u8, max_chain()) == Some(seq![e as u8] + oc));
    assert forall|s: int| 0 <= s < SLOTS implies (#[trigger] slot_chain(new, s)) is Some by {
        if s == slot {
            assert(slot_chain(new, s) == chain(new, e as u8, max_chain()));
        } else {
            assert(slot_entries(new, s) == slot_entries(old, s));
        }
    }
}

/// What an insert does to a well-formed page: the page stays well-formed,
/// the new record heads the chain of its slot, and every other slot keeps
/// its records.
pub proof fn lemma_insert_wf(old: Seq<u8>, new: Seq<u8>, slot: int, ud: Seq<u8>)
    requires
        wf(old),
        crate::vbucket::can_insert(old, slot, ud.len() as int),
        inserted(old, new, slot, ud),
    ensures
        wf(new),
        slot_entries(new, slot) == seq![new_entry(old) as u8] + slot_entries(old, slot),
        record(new, new_entry(old)) == ud,
        slot_records(new, slot) == seq![ud] + slot_records(old, slot),
        forall|s: int|
            0 <= s < SLOTS && s != slot ==> #[trigger] slot_records(new, s) == slot_records(old, s),
        forall|s: int|
            0 <= s < SLOTS && s != slot ==> #[trigger] slot_entries(new, s) == slot_entries(old, s),
        forall|s: int, k: int|
            0 <= s < SLOTS && 0 <= k < slot_entries(old, s).len() ==> record(
                new,
                #[trigger] slot_entries(old, s)[k] as int,
            ) == record(old, slot_entries(old, s)[k] as int),
{
    lemma_insert_frame(old, new, slot, ud);
    lemma_insert_chains(old, new, slot, ud);
    let e = new_entry(old);
    let oc = slot_entries(old, slot);
    assert forall|s: int, k: int|
        0 <= s < SLOTS && 0 <= k < slot_entries(old, s).len() implies record(
        new,
        #[trigger] slot_entries(old, s)[k] as int,
    ) == record(old, slot_entries(old, s)[k] as int) by {
        assert(same_entry(old, new, slot_entries(old, s)[k] as int));
    }
    assert(slot_records(new, slot) =~= seq![ud] + slot_records(old, slot)) by {
        let ne = slot_entries(new, slot);
        assert forall|k: int| 0 <= k < ne.len() implies #[trigger] slot_records(new, slot)[k] == (
        seq![ud] + slot_records(old, slot))[k] by {
            if k > 0 {
                assert(ne[k] == oc[k - 1]);
                assert(same_entry(old, new, slot_entries(old, slot)[k - 1] as int));
            }
        }
    }
    assert forall|s: int| 0 <= s < SLOTS && s != slot implies #[trigger] slot_records(new, s)
        == slot_records(old, s) by {
        assert(slot_entries(new, s) == slot_entries(old, s));
        let es = slot_entries(old, s);
        assert forall|k: int| 0 <= k < es.len() implies #[trigger] slot_records(new, s)[k]
            == slot_records(old, s)[k] by {
            assert(same_entry(old, new, slot_entries(old, s)[k] as int));
        }
        assert(slot_records(new, s) =~= slot_records(old, s));
    }
    lemma_insert_alloc(old, new, slot, ud);
    lemma_insert_free(old, new, slot, ud);
    lemma_insert_distinct(old, new, slot, ud);
}

/// After an insert into a well-formed page, no entry is on two chains or
/// twice on one.
proof fn lemma_insert_distinct(old: Seq<u8>, new: Seq<u8>, slot: int, ud: Seq<u8>)
    requires
        wf(old),
        crate::vbucket::can_insert(old, slot, ud.len() as int),
        inserted(old, new, slot, ud),
    ensures
        slots_from(new, 0).no_duplicates(),
{
    lemma_insert_chains(old, new, slot, ud);
    let e = new_entry(old) as u8;
    lemma_insert_slots_from(old, new, slot, e, 0);
    let a = slots_from(old, 0);
    let p = a.len() - slots_from(old, slot).len();
    assert forall|i: int| 0 <= i < a.len() implies #[trigger] a[i] != e by {
        lemma_slots_from_member(old, 0, i);
        let (s, k) = choose|s: int, k: int|
            0 <= s < SLOTS && 0 <= k < slot_entries(old, s).len() && #[trigger] slot_entries(old, s)[k]
                == slots_from(old, 0)[i];
        assert(slot_entries(old, s)[k] != new_entry(old));
    }
    let n = slots_from(new, 0);
    assert(n == a.subrange(0, p) + seq![e] + a.subrange(p, a.len() as int));
    assert forall|i: int, j: int| 0 <= i < j < n.len() implies n[i] != n[j] by {
        let ai = if i < p { i } else if i == p { -1 } else { i - 1 };
        let aj = if j < p { j } else if j == p { -1 } else { j - 1 };
        if ai >= 0 {
            assert(n[i] == a[ai]);
        } else {
            assert(n[i] == e);
        }
        if aj >= 0 {
            assert(n[j] == a[aj]);
        } else {
            assert(n[j] == e);
        }
    }
}

/// After an insert into a well-formed page, slot chains hold allocated
/// entries.
proof fn lemma_insert_alloc(old: Seq<u8>, new: Seq<u8>, slot: int, ud: Seq<u8>)
    requires
        wf(old),
        crate::vbucket::can_insert(old, slot, ud.len() as int),
        inserted(old, new, slot, ud),
    ensures
        forall|s: int, k: int|
            0 <= s < SLOTS && 0 <= k < slot_entries(new, s).len() ==> entry_alloc(
                new,
                #[trigger] slot_entries(new, s)[k] as int,
            ),
{
    lemma_insert_frame(old, new, slot, ud);
    lemma_insert_chains(old, new, slot, ud);
    let e = new_entry(old);
    let oc = slot_entries(old, slot);
    assert forall|s: int, k: int|
        0 <= s < SLOTS && 0 <= k < slot_entries(new, s).len() implies entry_alloc(
        new,
        #[trigger] slot_entries(new, s)[k] as int,
    ) by {
        let x = slot_entries(new, s)[k] as int;
        if s == slot {
            if k > 0 {
                assert(x == oc[k - 1]);
                assert(same_entry(old, new, slot_entries(old, slot)[k - 1] as int));
            }
        } else {
            assert(slot_entries(new, s) == slot_entries(old, s));
            assert(same_entry(old, new, slot_entries(old, s)[k] as int));
        }
    }
}

/// After an insert into a well-formed page, the free list is the old one
/// without its head (when the insert took it), and stays apart from the
/// slot chains.
proof fn lemma_insert_free(old: Seq<u8>, new: Seq<u8>, slot: int, ud: Seq<u8>)
    requires
        wf(old),
        crate::vbucket::can_insert(old, slot, ud.len() as int),
        inserted(old, new, slot, ud),
    ensures
        free_list(new) is Some,
        free_list(new).unwrap().no_duplicates(),
        forall|s: int, k: int, j: int|
            0 <= s < SLOTS && 0 <= k < slot_entries(new, s).len() && 0 <= j < free_list(
                new,
            ).unwrap().len() ==> #[trigger] slot_entries(new, s)[k] != #[trigger] free_list(
                new,
            ).unwrap()[j],
{
    lemma_insert_frame(old, new, slot, ud);
    lemma_insert_chains(old, new, slot, ud);
    let e = new_entry(old);
    let oc = slot_entries(old, slot);
    let fl = free_list(old).unwrap();
    if old[FREE as int] == 0 {
        assert(new[FREE as int] == 0);
        assert(free_list(new) == Some(Seq::<u8>::empty()));
    } else {
        let head = fl[0];
        let tail = fl.drop_first();
        assert(new[FREE as int] == next_of(old, head as int));
        assert(free_chain(old, next_of(old, head as int), (max_chain() - 1) as nat) == Some(tail));
        lemma_free_chain_range(old, old[FREE as int], max_chain());
        assert forall|k: int| 0 <= k < tail.len() implies new[eoff(old, #[trigger] tail[k] as int)]
            == old[eoff(old, tail[k] as int)] by {
            assert(tail[k] == fl[k + 1]);
            assert(fl[k + 1] != fl[0]);
            assert(1 <= fl[k + 1] <= old[EALL as int]);
        }
        lemma_free_chain_frame(old, new, next_of(old, head as int), (max_chain() - 1) as nat);
        lemma_free_chain_fuel(new, next_of(old, head as int), (max_chain() - 1) as nat, max_chain());
        assert(free_list(new) == Some(tail));
        assert forall|a: int, b: int| 0 <= a < b < tail.len() implies tail[a] != tail[b] by {
            assert(tail[a] == fl[a + 1]);
            assert(tail[b] == fl[b + 1]);
        }
        assert forall|s: int, k: int, j: int|
            0 <= s < SLOTS && 0 <= k < slot_entries(new, s).len() && 0 <= j < tail.len() implies #[trigger] slot_entries(
            new,
            s,
        )[k] != #[trigger] tail[j] by {
            assert(tail[j] == fl[j + 1]);
            assert(fl[j + 1] != fl[0]);
            if s == slot {
                if k > 0 {
                    assert(slot_entries(new, s)[k] == oc[k - 1]);
                    assert(slot_entries(old, slot)[k - 1] != fl[j + 1]);
                }
            } else {
                assert(slot_entries(new, s) == slot_entries(old, s));
                assert(slot_entries(old, s)[k] != fl[j + 1]);
            }
        }
    }
}

/// A chain that ends within the fuel has at most 255 entries, so it also ends
/// within one step less.
proof fn lemma_chain_short(d: Seq<u8>, e: u8)
    requires
        chain(d, e, max_chain()) is Some,
    ensures
        chain(d, e, (max_chain() - 1) as nat) == chain(d, e, max_chain()),
{
    lemma_chain_distinct(d, e, max_chain());
    let c = chain(d, e, max_chain()).unwrap();
    lemma_distinct_bytes_bound(c);
    lemma_chain_fuel_len(d, e, max_chain());
}

/// A chain that ends within `fuel` steps visits no entry twice and no zero.
proof fn lemma_chain_distinct(d: Seq<u8>, e: u8, fuel: nat)
    requires
        chain(d, e, fuel) is Some,
    ensures
        chain(d, e, fuel).unwrap().no_duplicates(),
        forall|k: int|
            0 <= k < chain(d, e, fuel).unwrap().len() ==> #[trigger] chain(d, e, fuel).unwrap()[k]
                != 0,
        forall|k: int|
            0 <= k < chain(d, e, fuel).unwrap().len() ==> chain(
                d,
                #[trigger] chain(d, e, fuel).unwrap()[k],
                fuel,
            ) is Some,
    decreases fuel,
{
    if e != 0 {
        let n = next_of(d, e as int);
        let c = chain(d, e, fuel).unwrap();
        let t = chain(d, n, (fuel - 1) as nat).unwrap();
        lemma_chain_distinct(d, n, (fuel - 1) as nat);
        assert forall|k: int| 0 <= k < t.len() implies chain(d, #[trigger] t[k], fuel) is Some by {
            lemma_chain_fuel_up(d, t[k], (fuel - 1) as nat, fuel);
        }
        // `e` does not occur in its own tail: otherwise the chain from `e`
        // would be a suffix of itself that is shorter.
        assert forall|k: int| 0 <= k < t.len() implies #[trigger] t[k] != e by {
            if t[k] == e {
                lemma_chain_suffix(d, n, (fuel - 1) as nat, k);
                lemma_chain_fuel_up(d, e, (fuel - 1 - k) as nat, fuel);
                lemma_chain_len_fuel(d, e, (fuel - 1 - k) as nat);
            }
        }
        assert forall|a: int, b: int| 0 <= a < b < c.len() implies c[a] != c[b] by {
            if a > 0 {
                assert(c[a] == t[a - 1]);
            }
            assert(c[b] == t[b - 1]);
        }
        assert forall|k: int| 0 <= k < c.len() implies chain(d, #[trigger] c[k], fuel) is Some by {
            if k > 0 {
                assert(c[k] == t[k - 1]);
            }
        }
    }
}

/// The chain from the `k`-th entry of a chain is its suffix, with less fuel.
proof fn lemma_chain_suffix(d: Seq<u8>, e: u8, fuel: nat, k: int)
    requires
        chain(d, e, fuel) is Some,
        0 <= k < chain(d, e, fuel).unwrap().len(),
    ensures
        k <= fuel,
        chain(d, chain(d, e, fuel).unwrap()[k], (fuel - k) as nat) == Some(
            chain(d, e, fuel).unwrap().subrange(k, chain(d, e, fuel).unwrap().len() as int),
        ),
    decreases k,
{
    let c = chain(d, e, fuel).unwrap();
    if k == 0 {
        assert(c.subrange(0, c.len() as int) =~= c);
    } else {
        let n = next_of(d, e as int);
        let t = chain(d, n, (fuel - 1) as nat).unwrap();
        lemma_chain_suffix(d, n, (fuel - 1) as nat, k - 1);
        assert(t[k - 1] == c[k]);
        assert(t.subrange(k - 1, t.len() as int) =~= c.subrange(k, c.len() as int));
    }
}

/// A chain that ends within `fuel` steps has fewer entries than the fuel
/// plus one, and at most `fuel` entries.
proof fn lemma_chain_len_fuel(d: Seq<u8>, e: u8, fuel: nat)
    requires
        chain(d, e, fuel) is Some,
    ensures
        chain(d, e, fuel).unwrap().len() <= fuel,
    decreases fuel,
{
    if e != 0 {
        lemma_chain_len_fuel(d, next_of(d, e as int), (fuel - 1) as nat);
    }
}

/// A chain with fewer entries than the fuel also ends with one step less.
proof fn lemma_chain_fuel_len(d: Seq<u8>, e: u8, fuel: nat)
    requires
        chain(d, e, fuel) is Some,
        chain(d, e, fuel).unwrap().len() < fuel,
    ensures
        chain(d, e, (fuel - 1) as nat) == chain(d, e, fuel),
    decreases fuel,
{
    if e != 0 {
        lemma_chain_fuel_len(d, next_of(d, e as int), (fuel - 1) as nat);
    }
}

/// A sequence of distinct non-zero bytes has at most 255 elements.
proof fn lemma_distinct_bytes_bound(c: Seq<u8>)
    requires
        c.no_duplicates(),
        forall|k: int| 0 <= k < c.len() ==> #[trigger] c[k] != 0,
    ensures
        c.len() <= 255,
{
    let s = c.to_set();
    c.unique_seq_to_set();
    let full = Set::<u8>::new(|b: u8| 1 <= b <= 255);
    lemma_byte_set_len();
    assert(s.subset_of(full)) by {
        assert forall|b: u8| s.contains(b) implies full.contains(b) by {
            let k = choose|k: int| 0 <= k < c.len() && c[k] == b;
            assert(c[k] != 0);
        }
    }
    vstd::set_lib::lemma_len_subset(s, full);
}

/// There are at most 255 non-zero bytes.
proof fn lemma_byte_set_len()
    ensures
        Set::<u8>::new(|b: u8| 1 <= b <= 255).finite(),
        Set::<u8>::new(|b: u8| 1 <= b <= 255).len() <= 255,
{
    let full = Set::<u8>::new(|b: u8| 1 <= b <= 255);
    let r = vstd::set_lib::set_int_range(1, 256);
    vstd::set_lib::lemma_int_range(1, 256);
    let f = |i: int| i as u8;
    assert(r.map(f) =~= full) by {
        assert forall|b: u8| full.contains(b) implies r.map(f).contains(b) by {
            assert(r.contains(b as int));
            assert(f(b as int) == b);
        }
        assert forall|b: u8| r.map(f).contains(b) implies full.contains(b) by {
            let i = choose|i: int| r.contains(i) && f(i) == b;
            assert(1 <= i < 256);
            assert(i as u8 == i);
        }
    }
    vstd::set_lib::lemma_map_size_bound(r, full, f);
}

/// The record that a lookup finds after an insert: the new record when the
/// key accepts it, else what the lookup found before (with the same record).
pub proof fn lemma_get_after_insert<K: VKey>(
    old: Seq<u8>,
    new: Seq<u8>,
    slot: int,
    ud: Seq<u8>,
    key: &K,
)
    requires
        wf(old),
        crate::vbucket::can_insert(old, slot, ud.len() as int),
        inserted(old, new, slot, ud),
    ensures
        key.matches(ud) ==> first_match(new, slot_entries(new, slot), key) == Some(
            new_entry(old) as u8,
        ),
        !key.matches(ud) ==> first_match(new, slot_entries(new, slot), key) == first_match(
            old,
            slot_entries(old, slot),
            key,
        ),
        record(new, new_entry(old)) == ud,
        forall|e: u8|
            first_match(old, slot_entries(old, slot), key) == Some(e) ==> record(new, e as int)
                == record(old, e as int),
{
    lemma_insert_wf(old, new, slot, ud);
    let es = slot_entries(old, slot);
    let ne = slot_entries(new, slot);
    assert(ne.drop_first() =~= es);
    if !key.matches(ud) {
        lemma_first_match_frame(old, new, es, key);
    }
    lemma_first_match_in(old, es, key);
    assert forall|e: u8| first_match(old, slot_entries(old, slot), key) == Some(e) implies record(
        new,
        e as int,
    ) == record(old, e as int) by {
        assert(es.contains(e));
        let k = choose|k: int| 0 <= k < es.len() && es[k] == e;
        assert(record(new, slot_entries(old, slot)[k] as int) == record(
            old,
            slot_entries(old, slot)[k] as int,
        ));
    }
}

/// The chain of a slot in the page after unlinking its `k`-th entry, from
/// the `j`-th entry on: the old entries `j..k`, then those after `k`.
proof fn lemma_unlink_prefix(d: Seq<u8>, n: Seq<u8>, es: Seq<u8>, k: int, j: int)
    requires
        0 <= j < k < es.len(),
        chain(d, es[0], max_chain()) == Some(es),
        forall|i: int|
            0 <= i < es.len() && i != k && i != k - 1 ==> same_entry(d, n, #[trigger] es[i] as int),
        entry_valid(n, es[k - 1] as int),
        next_of(n, es[k - 1] as int) == next_of(d, es[k] as int),
        chain(n, next_of(d, es[k] as int), (max_chain() - k) as nat) == Some(
            es.subrange(k + 1, es.len() as int),
        ),
    ensures
        chain(n, es[j], (max_chain() - j) as nat) == Some(
            es.subrange(j, k) + es.subrange(k + 1, es.len() as int),
        ),
    decreases k - j,
{
    let tail = es.subrange(k + 1, es.len() as int);
    lemma_chain_suffix(d, es[0], max_chain(), j);
    lemma_chain_distinct(d, es[0], max_chain());
    assert(es[j] != 0);
    if j == k - 1 {
        assert(es.subrange(j, k) =~= seq![es[j]]);
    } else {
        lemma_unlink_prefix(d, n, es, k, j + 1);
        let c = es.subrange(j, es.len() as int);
        assert(chain(d, es[j], (max_chain() - j) as nat) == Some(c));
        assert(entry_valid(d, es[j] as int));
        assert(chain(d, next_of(d, es[j] as int), (max_chain() - j - 1) as nat) == Some(
            c.drop_first(),
        ));
        lemma_chain_suffix(d, es[0], max_chain(), j + 1);
        assert(c.drop_first()[0] == es[j + 1]);
        lemma_chain_distinct(d, next_of(d, es[j] as int), (max_chain() - j - 1) as nat);
        assert(next_of(d, es[j] as int) == es[j + 1]) by {
            if next_of(d, es[j] as int) == 0 {
                assert(c.drop_first().len() == 0);
            }
        }
        assert(same_entry(d, n, es[j] as int));
        assert(es.subrange(j, k) + tail =~= seq![es[j]] + (es.subrange(j + 1, k) + tail));
    }
}

/// Unlinking the `k`-th entry of a slot chain of a well-formed page leaves
/// the chain without it, and the records of its other entries as they were.
pub proof fn lemma_unlink_chain(d: Seq<u8>, slot: int, k: int)
    requires
        wf(d),
        0 <= slot < SLOTS,
        0 <= k < slot_entries(d, slot).len(),
    ensures
        ({
            let es = slot_entries(d, slot);
            let n = crate::vbucket::unlinked(d, slot, es, k);
            &&& slot_chain(n, slot) is Some
            &&& slot_entries(n, slot) == es.remove(k)
            &&& forall|j: int|
                0 <= j < es.len() && j != k ==> record(n, #[trigger] es[j] as int) == record(
                    d,
                    es[j] as int,
                )
        }),
{
    let es = slot_entries(d, slot);
    let h = d[SLOT + slot];
    let e = es[k];
    let nx = next_of(d, e as int);
    let n = crate::vbucket::unlinked(d, slot, es, k);
    assert(slot_chain(d, slot) is Some);
    assert(chain(d, h, max_chain()) == Some(es));
    lemma_chain_distinct(d, h, max_chain());
    assert forall|i: int| 0 <= i < es.len() implies #[trigger] entry_alloc(d, es[i] as int) by {
        assert(entry_alloc(d, slot_entries(d, slot)[i] as int));
    }
    assert forall|i: int| 0 <= i < es.len() implies entry_valid(d, #[trigger] es[i] as int) && eoff(
        d,
        es[i] as int,
    ) >= DATA + get2(d, DALL as int) by {
        assert(entry_alloc(d, es[i] as int));
        lemma_alloc_valid(d, es[i] as int);
    }
    // The bytes that change: the link to the entry, its own link, and FREE.
    let p1 = if k == 0 {
        SLOT + slot
    } else {
        eoff(d, es[k - 1] as int)
    };
    let d1 = d.update(p1, nx);
    let d2 = d1.update(eoff(d, e as int), d[FREE as int]);
    assert(n == d2.update(FREE as int, e));
    assert forall|i: int| 0 <= i < es.len() && i != k implies record(n, #[trigger] es[i] as int)
        == record(d, es[i] as int) && n[eoff(d, es[i] as int) + 1] == d[eoff(d, es[i] as int) + 1]
        && n[eoff(d, es[i] as int) + 2] == d[eoff(d, es[i] as int) + 2] && (i != k - 1
        ==> n[eoff(d, es[i] as int)] == d[eoff(d, es[i] as int)]) by {
        let x = es[i] as int;
        assert(es[i] != es[k]);
        if k > 0 && i != k - 1 {
            assert(es[i] != es[k - 1]);
        }
        let v = voff_of(d, x);
        assert(n[eoff(d, x) + 1] == d[eoff(d, x) + 1]);
        assert(n[eoff(d, x) + 2] == d[eoff(d, x) + 2]);
        assert(voff_of(n, x) == v);
        assert(n[v] == d[v]);
        assert(n.subrange(v + 1, v + 1 + d[v]) =~= d.subrange(v + 1, v + 1 + d[v]));
    }
    assert forall|i: int| 0 <= i < es.len() && i != k && i != k - 1 implies same_entry(
        d,
        n,
        #[trigger] es[i] as int,
    ) by {
        let x = es[i] as int;
        assert(record(n, x) == record(d, x));
        let v = voff_of(d, x);
        assert(n.subrange(v + 1, v + 1 + d[v]) =~= d.subrange(v + 1, v + 1 + d[v]));
    }
    // The chain after the unlinked entry.
    lemma_chain_suffix(d, h, max_chain(), k);
    let tail = es.subrange(k + 1, es.len() as int);
    assert(chain(d, e, (max_chain() - k) as nat) == Some(es.subrange(k, es.len() as int)));
    assert(chain(d, nx, (max_chain() - k - 1) as nat) == Some(tail)) by {
        assert(es.subrange(k, es.len() as int).drop_first() =~= tail);
    }
    assert forall|i: int| 0 <= i < tail.len() implies same_entry(d, n, #[trigger] tail[i] as int) by {
        assert(tail[i] == es[k + 1 + i]);
    }
    lemma_chain_frame(d, n, nx, (max_chain() - k - 1) as nat);
    lemma_chain_fuel_up(n, nx, (max_chain() - k - 1) as nat, (max_chain() - k) as nat);
    if k == 0 {
        assert(n[SLOT + slot] == nx);
        lemma_chain_fuel_up(n, nx, (max_chain() - 1) as nat, max_chain());
        assert(es.remove(0) =~= tail);
    } else {
        let y = es[k - 1] as int;
        assert(n[SLOT + slot] == h);
        assert(h == es[0]);
        assert(record(n, y) == record(d, y));
        assert(entry_valid(n, y));
        assert(next_of(n, y) == nx);
        lemma_unlink_prefix(d, n, es, k, 0);
        assert(es.subrange(0, k) + tail =~= es.remove(k));
    }
}


/// `first_match` finds nothing among entries whose records the key does not
/// accept.
proof fn lemma_first_match_none<K: VKey>(d: Seq<u8>, es: Seq<u8>, key: &K)
    requires
        forall|j: int| 0 <= j < es.len() ==> !key.matches(record(d, #[trigger] es[j] as int)),
    ensures
        first_match(d, es, key) is None,
    decreases es.len(),
{
    if es.len() > 0 {
        let t = es.drop_first();
        assert(!key.matches(record(d, es[0] as int)));
        assert forall|j: int| 0 <= j < t.len() implies !key.matches(record(d, #[trigger] t[j] as int)) by {
            assert(t[j] == es[j + 1]);
        }
        lemma_first_match_none(d, t, key);
    }
}

/// Read after remove in a bucket page: once the first record of a slot chain
/// that a key accepts is unlinked from a well-formed page, a lookup of the
/// key finds nothing, when the key accepts no other record of the chain (it
/// is not a duplicate).
pub proof fn lemma_page_get_after_remove<K: VKey>(d: Seq<u8>, key: &K, hash: u64)
    requires
        wf(d),
        ({
            let slot = (hash % (SLOTS as u64)) as int;
            let es = slot_entries(d, slot);
            let k = crate::vbucket::first_match_index(d, es, key);
            &&& k >= 0
            &&& forall|j: int|
                0 <= j < es.len() && j != k ==> !key.matches(record(d, #[trigger] es[j] as int))
        }),
    ensures
        ({
            let slot = (hash % (SLOTS as u64)) as int;
            let es = slot_entries(d, slot);
            let k = crate::vbucket::first_match_index(d, es, key);
            crate::vbuckmap::page_get(crate::vbucket::unlinked(d, slot, es, k), key, hash) is None
        }),
{
    let slot = (hash % (SLOTS as u64)) as int;
    let es = slot_entries(d, slot);
    let k = crate::vbucket::first_match_index(d, es, key);
    lemma_first_match_index_range(d, es, key);
    lemma_unlink_chain(d, slot, k);
    let n = crate::vbucket::unlinked(d, slot, es, k);
    let rest = es.remove(k);
    assert forall|j: int| 0 <= j < rest.len() implies record(n, #[trigger] rest[j] as int) == record(
        d,
        rest[j] as int,
    ) by {
        if j < k {
            assert(rest[j] == es[j]);
        } else {
            assert(rest[j] == es[j + 1]);
        }
    }
    lemma_first_match_frame(d, n, rest, key);
    assert forall|j: int| 0 <= j < rest.len() implies !key.matches(record(d, #[trigger] rest[j] as int)) by {
        if j < k {
            assert(rest[j] == es[j]);
        } else {
            assert(rest[j] == es[j + 1]);
        }
    }
    lemma_first_match_none(d, rest, key);
}

/// Entries at two different places of the slot chains of a well-formed page
/// are different entries.
proof fn lemma_slot_entries_distinct(d: Seq<u8>, s1: int, k1: int, s2: int, k2: int)
    requires
        wf(d),
        0 <= s1 < SLOTS,
        0 <= s2 < SLOTS,
        0 <= k1 < slot_entries(d, s1).len(),
        0 <= k2 < slot_entries(d, s2).len(),
        s1 != s2 || k1 != k2,
    ensures
        slot_entries(d, s1)[k1] != slot_entries(d, s2)[k2],
{
    let a = slots_from(d, 0);
    lemma_seg(d, s1);
    lemma_seg(d, s2);
    assert(a.subrange(seg(d, s1), seg(d, s1 + 1))[k1] == a[seg(d, s1) + k1]);
    assert(a.subrange(seg(d, s2), seg(d, s2 + 1))[k2] == a[seg(d, s2) + k2]);
    if s1 < s2 {
        lemma_seg_mono(d, s1 + 1, s2);
    } else if s2 < s1 {
        lemma_seg_mono(d, s2 + 1, s1);
    }
}

/// The bytes that unlinking the `k`-th entry of a slot chain of a
/// well-formed page leaves alone: the header counts, and every allocated
/// entry other than the unlinked one with its record (its next byte too,
/// unless it is the entry before the unlinked one).
proof fn lemma_unlink_frame(d: Seq<u8>, slot: int, k: int)
    requires
        wf(d),
        0 <= slot < SLOTS,
        0 <= k < slot_entries(d, slot).len(),
    ensures
        ({
            let es = slot_entries(d, slot);
            let e = es[k] as int;
            let n = crate::vbucket::unlinked(d, slot, es, k);
            &&& n.len() == d.len()
            &&& n[EALL as int] == d[EALL as int]
            &&& get2(n, DALL as int) == get2(d, DALL as int)
            &&& n[FREE as int] == es[k]
            &&& next_of(n, e) == d[FREE as int]
            &&& entry_alloc(d, e)
            &&& forall|x: int|
                #![trigger entry_alloc(d, x)]
                entry_alloc(d, x) && x != e ==> entry_alloc(n, x) && record(n, x) == record(d, x)
            &&& forall|x: int|
                #![trigger entry_alloc(d, x)]
                entry_alloc(d, x) && x != e && (k == 0 || x != es[k - 1]) ==> same_entry(d, n, x)
            &&& forall|x: int|
                1 <= x <= d[EALL as int] && x != e && (k == 0 || x != es[k - 1]) ==> n[eoff(
                    d,
                    x,
                )] == d[eoff(d, x)]
        }),
{
    let es = slot_entries(d, slot);
    let e = es[k] as int;
    let n = crate::vbucket::unlinked(d, slot, es, k);
    let nx = next_of(d, e);
    assert(entry_alloc(d, slot_entries(d, slot)[k] as int));
    if k > 0 {
        assert(entry_alloc(d, slot_entries(d, slot)[k - 1] as int));
    }
    let p1 = if k == 0 {
        SLOT + slot
    } else {
        eoff(d, es[k - 1] as int)
    };
    let d1 = d.update(p1, nx);
    let d2 = d1.update(eoff(d, e), d[FREE as int]);
    assert(n == d2.update(FREE as int, es[k]));
    let lo = DATA + get2(d, DALL as int);
    assert(eoff(d, e) >= lo);
    assert(k > 0 ==> eoff(d, es[k - 1] as int) >= lo);
    assert forall|x: int| 1 <= x <= d[EALL as int] && x != e && (k == 0 || x != es[k - 1]) implies n[eoff(
        d,
        x,
    )] == d[eoff(d, x)] by {
        assert(eoff(d, x) >= lo);
    }
    assert forall|x: int| #![trigger entry_alloc(d, x)] entry_alloc(d, x) && x != e implies entry_alloc(
        n,
        x,
    ) && record(n, x) == record(d, x) && n[eoff(d, x) + 1] == d[eoff(d, x) + 1] && n[eoff(d, x)
        + 2] == d[eoff(d, x) + 2] by {
        lemma_alloc_valid(d, x);
        let v = voff_of(d, x);
        assert(n[eoff(d, x) + 1] == d[eoff(d, x) + 1]);
        assert(n[eoff(d, x) + 2] == d[eoff(d, x) + 2]);
        assert(voff_of(n, x) == v);
        assert(n[v] == d[v]);
        assert(n.subrange(v + 1, v + 1 + d[v]) =~= d.subrange(v + 1, v + 1 + d[v]));
    }
    assert forall|x: int| #![trigger entry_alloc(d, x)] entry_alloc(d, x) && x != e && (k == 0 || x
        != es[k - 1]) implies same_entry(d, n, x) by {
        lemma_alloc_valid(d, x);
        let v = voff_of(d, x);
        assert(n.subrange(v + 1, v + 1 + d[v]) =~= d.subrange(v + 1, v + 1 + d[v]));
    }
}

/// What `unlinked` does to the entries of the slots from `t` on: the
/// unlinked entry leaves its place among them.
proof fn lemma_unlink_slots_from(old: Seq<u8>, new: Seq<u8>, slot: int, k: int, t: int)
    requires
        0 <= slot < SLOTS,
        0 <= t <= SLOTS,
        0 <= k < slot_entries(old, slot).len(),
        slot_entries(new, slot) == slot_entries(old, slot).remove(k),
        forall|s: int|
            0 <= s < SLOTS && s != slot ==> #[trigger] slot_entries(new, s) == slot_entries(old, s),
    ensures
        t > slot ==> slots_from(new, t) == slots_from(old, t),
        t <= slot ==> slots_from(old, t).len() >= slots_from(old, slot).len(),
        t <= slot ==> slots_from(old, t).len() - slots_from(old, slot).len() + k < slots_from(
            old,
            t,
        ).len(),
        t <= slot ==> slots_from(new, t) == slots_from(old, t).remove(
            slots_from(old, t).len() - slots_from(old, slot).len() + k,
        ),
    decreases SLOTS - t,
{
    if t == SLOTS {
        assert(slots_from(new, t) =~= slots_from(old, t));
    } else {
        lemma_unlink_slots_from(old, new, slot, k, t + 1);
        let so = slots_from(old, t);
        let so1 = slots_from(old, t + 1);
        let se = slot_entries(old, t);
        assert(so == se + so1);
        assert(slots_from(new, t) == slot_entries(new, t) + slots_from(new, t + 1));
        if t > slot {
            assert(slot_entries(new, t) == slot_entries(old, t));
        } else if t == slot {
            assert(slots_from(new, t) =~= so.remove(k));
        } else {
            assert(slot_entries(new, t) == slot_entries(old, t));
            let p1 = so1.len() - slots_from(old, slot).len() + k;
            assert(slots_from(new, t) =~= so.remove(se.len() + p1));
        }
    }
}

/// The free list of a page after unlinking an entry of a slot chain of a
/// well-formed page: the unlinked entry, then the old free list.
proof fn lemma_unlink_free(d: Seq<u8>, slot: int, k: int)
    requires
        wf(d),
        0 <= slot < SLOTS,
        0 <= k < slot_entries(d, slot).len(),
    ensures
        free_list(crate::vbucket::unlinked(d, slot, slot_entries(d, slot), k)) == Some(
            seq![slot_entries(d, slot)[k]] + free_list(d).unwrap(),
        ),
{
    let es = slot_entries(d, slot);
    let e = es[k];
    let n = crate::vbucket::unlinked(d, slot, es, k);
    let fl = free_list(d).unwrap();
    lemma_unlink_frame(d, slot, k);
    lemma_free_chain_range(d, d[FREE as int], max_chain());
    assert forall|j: int| 0 <= j < fl.len() implies n[eoff(d, #[trigger] fl[j] as int)] == d[eoff(
        d,
        fl[j] as int,
    )] by {
        assert(slot_entries(d, slot)[k] != fl[j]);
        if k > 0 {
            assert(slot_entries(d, slot)[k - 1] != fl[j]);
        }
    }
    lemma_free_chain_frame(d, n, d[FREE as int], max_chain());
    // The old free list and the unlinked entry are distinct non-zero bytes.
    let c = seq![e] + fl;
    assert forall|i: int| 0 <= i < c.len() implies #[trigger] c[i] != 0 by {
        if i > 0 {
            assert(c[i] == fl[i - 1]);
        }
    }
    assert(c.no_duplicates()) by {
        assert forall|a: int, b: int| 0 <= a < b < c.len() implies c[a] != c[b] by {
            assert(c[b] == fl[b - 1]);
            if a > 0 {
                assert(c[a] == fl[a - 1]);
            } else {
                assert(slot_entries(d, slot)[k] != fl[b - 1]);
            }
        }
    }
    lemma_distinct_bytes_bound(c);
    lemma_free_chain_fuel_len(n, d[FREE as int], max_chain());
    assert(free_chain(n, e, max_chain()) == Some(c));
}

/// A free list with fewer entries than the fuel also ends with one step
/// less.
proof fn lemma_free_chain_fuel_len(d: Seq<u8>, e: u8, fuel: nat)
    requires
        free_chain(d, e, fuel) is Some,
        free_chain(d, e, fuel).unwrap().len() < fuel,
    ensures
        free_chain(d, e, (fuel - 1) as nat) == free_chain(d, e, fuel),
    decreases fuel,
{
    if e != 0 {
        lemma_free_chain_fuel_len(d, next_of(d, e as int), (fuel - 1) as nat);
    }
}

/// Removing a record from a well-formed page (unlinking its entry from its
/// slot chain and putting the entry at the front of the free list) leaves
/// the page well-formed; the other slots keep their entries and records.
pub proof fn lemma_unlink_wf(d: Seq<u8>, slot: int, k: int)
    requires
        wf(d),
        0 <= slot < SLOTS,
        0 <= k < slot_entries(d, slot).len(),
    ensures
        ({
            let n = crate::vbucket::unlinked(d, slot, slot_entries(d, slot), k);
            &&& wf(n)
            &&& free_list(n) == Some(seq![slot_entries(d, slot)[k]] + free_list(d).unwrap())
            &&& forall|s: int|
                0 <= s < SLOTS && s != slot ==> #[trigger] slot_records(n, s) == slot_records(d, s)
        }),
{
    let es = slot_entries(d, slot);
    let e = es[k];
    let n = crate::vbucket::unlinked(d, slot, es, k);
    let fl = free_list(d).unwrap();
    lemma_unlink_frame(d, slot, k);
    lemma_unlink_chain(d, slot, k);
    lemma_unlink_free(d, slot, k);
    // Other slots keep their chains.
    assert forall|s: int| 0 <= s < SLOTS && s != slot implies #[trigger] slot_entries(n, s)
        == slot_entries(d, s) && slot_chain(n, s) is Some && slot_records(n, s) == slot_records(
        d,
        s,
    ) by {
        assert(n[SLOT + s] == d[SLOT + s]);
        assert(slot_chain(d, s) is Some);
        let c = chain(d, d[SLOT + s], max_chain()).unwrap();
        assert forall|j: int| 0 <= j < c.len() implies same_entry(d, n, #[trigger] c[j] as int) by {
            assert(c[j] == slot_entries(d, s)[j]);
            assert(entry_alloc(d, slot_entries(d, s)[j] as int));
            lemma_slot_entries_distinct(d, s, j, slot, k);
            if k > 0 {
                lemma_slot_entries_distinct(d, s, j, slot, k - 1);
            }
        }
        lemma_chain_frame(d, n, d[SLOT + s], max_chain());
        assert forall|j: int| 0 <= j < c.len() implies #[trigger] slot_records(n, s)[j]
            == slot_records(d, s)[j] by {
            assert(same_entry(d, n, slot_entries(d, s)[j] as int));
        }
        assert(slot_records(n, s) =~= slot_records(d, s));
    }
    assert forall|s: int| 0 <= s < SLOTS implies (#[trigger] slot_chain(n, s)) is Some by {
        if s != slot {
            assert(slot_entries(n, s) == slot_entries(d, s));
        }
    }
    // Each entry of a new chain is an old chain entry other than `e`.
    assert forall|s: int, j: int| #![trigger slot_entries(n, s)[j]] 0 <= s < SLOTS && 0 <= j < slot_entries(n, s).len() implies exists|
        jj: int,
    |
        0 <= jj < slot_entries(d, s).len() && (s != slot || jj != k) && slot_entries(n, s)[j]
            == #[trigger] slot_entries(d, s)[jj] by {
        if s == slot {
            if j < k {
                assert(slot_entries(n, s)[j] == slot_entries(d, s)[j]);
            } else {
                assert(slot_entries(n, s)[j] == slot_entries(d, s)[j + 1]);
            }
        } else {
            assert(slot_entries(n, s) == slot_entries(d, s));
            assert(slot_entries(n, s)[j] == slot_entries(d, s)[j]);
        }
    }
    assert forall|s: int, j: int| 0 <= s < SLOTS && 0 <= j < slot_entries(n, s).len() implies entry_alloc(
        n,
        #[trigger] slot_entries(n, s)[j] as int,
    ) && slot_entries(n, s)[j] != e && forall|f: int|
        0 <= f < fl.len() ==> slot_entries(n, s)[j] != #[trigger] fl[f] by {
        let jj = choose|jj: int|
            0 <= jj < slot_entries(d, s).len() && (s != slot || jj != k) && slot_entries(n, s)[j]
                == #[trigger] slot_entries(d, s)[jj];
        assert(entry_alloc(d, slot_entries(d, s)[jj] as int));
        lemma_slot_entries_distinct(d, s, jj, slot, k);
        assert forall|f: int| 0 <= f < fl.len() implies slot_entries(n, s)[j] != #[trigger] fl[f] by {
            assert(slot_entries(d, s)[jj] != fl[f]);
        }
    }
    // No entry on two chains or twice on one.
    lemma_unlink_slots_from(d, n, slot, k, 0);
    let a = slots_from(d, 0);
    let p = a.len() - slots_from(d, slot).len() + k;
    assert(slots_from(n, 0) == a.remove(p));
    assert(slots_from(n, 0).no_duplicates()) by {
        let r = a.remove(p);
        assert forall|i: int, j: int| 0 <= i < j < r.len() implies r[i] != r[j] by {
            let ai = if i < p { i } else { i + 1 };
            let aj = if j < p { j } else { j + 1 };
            assert(r[i] == a[ai]);
            assert(r[j] == a[aj]);
        }
    }
    // The new free list is apart from the new chains and has no repeats.
    let nf = seq![e] + fl;
    assert forall|s: int, j: int, f: int|
        0 <= s < SLOTS && 0 <= j < slot_entries(n, s).len() && 0 <= f < nf.len() implies #[trigger] slot_entries(
        n,
        s,
    )[j] != #[trigger] nf[f] by {
        assert(entry_alloc(n, slot_entries(n, s)[j] as int));
        if f > 0 {
            assert(nf[f] == fl[f - 1]);
        }
    }
    assert(nf.no_duplicates()) by {
        assert forall|a: int, b: int| 0 <= a < b < nf.len() implies nf[a] != nf[b] by {
            assert(nf[b] == fl[b - 1]);
            if a > 0 {
                assert(nf[a] == fl[a - 1]);
            } else {
                assert(slot_entries(d, slot)[k] != fl[b - 1]);
            }
        }
    }
}

/// The index that `first_match_index` finds lies within the entries.
pub proof fn lemma_first_match_index_range<K: VKey>(d: Seq<u8>, es: Seq<u8>, key: &K)
    ensures
        crate::vbucket::first_match_index(d, es, key) < es.len(),
    decreases es.len(),
{
    if es.len() > 0 {
        lemma_first_match_index_range(d, es.drop_first(), key);
    }
}


/// `first_match` on entries whose records are unchanged is unchanged.
proof fn lemma_first_match_frame<K: VKey>(d: Seq<u8>, d2: Seq<u8>, es: Seq<u8>, key: &K)
    requires
        forall|k: int| 0 <= k < es.len() ==> record(d2, #[trigger] es[k] as int) == record(d, es[k] as int),
    ensures
        first_match(d2, es, key) == first_match(d, es, key),
    decreases es.len(),
{
    if es.len() > 0 {
        assert(record(d2, es[0] as int) == record(d, es[0] as int));
        let t = es.drop_first();
        assert forall|k: int| 0 <= k < t.len() implies record(d2, #[trigger] t[k] as int) == record(
            d,
            t[k] as int,
        ) by {
            assert(t[k] == es[k + 1]);
        }
        lemma_first_match_frame(d, d2, t, key);
    }
}

/// The entry that `first_match` finds is one of the entries.
proof fn lemma_first_match_in<K: VKey>(d: Seq<u8>, es: Seq<u8>, key: &K)
    ensures
        forall|e: u8| first_match(d, es, key) == Some(e) ==> es.contains(e),
    decreases es.len(),
{
    if es.len() > 0 {
        lemma_first_match_in(d, es.drop_first(), key);
        assert forall|e: u8| first_match(d, es, key) == Some(e) implies es.contains(e) by {
            if e != es[0] {
                let t = es.drop_first();
                assert(t.contains(e));
                let k = choose|k: int| 0 <= k < t.len() && t[k] == e;
                assert(es[k + 1] == e);
            }
        }
    }
}

/// Room that the records of the entries `es` take in a page: for each, its
/// length byte, its bytes and its entry.
pub open spec fn cost(d: Seq<u8>, es: Seq<u8>) -> int
    decreases es.len(),
{
    if es.len() == 0 {
        0
    } else {
        cost(d, es.drop_last()) + 4 + d[voff_of(d, es.last() as int)]
    }
}

/// The room of a prefix grows by the room of the next record.
pub proof fn lemma_cost_step(d: Seq<u8>, es: Seq<u8>, k: int)
    requires
        0 <= k < es.len(),
    ensures
        cost(d, es.subrange(0, k + 1)) == cost(d, es.subrange(0, k)) + 4 + d[voff_of(d, es[k] as int)],
{
    assert(es.subrange(0, k + 1).drop_last() =~= es.subrange(0, k));
}

/// A prefix takes no more room than the whole.
pub proof fn lemma_cost_prefix(d: Seq<u8>, es: Seq<u8>, k: int)
    requires
        0 <= k <= es.len(),
    ensures
        0 <= cost(d, es.subrange(0, k)) <= cost(d, es),
    decreases es.len() - k,
{
    if k == es.len() {
        assert(es.subrange(0, k) =~= es);
        lemma_cost_nonneg(d, es);
    } else {
        lemma_cost_prefix(d, es, k + 1);
        lemma_cost_step(d, es, k);
        lemma_cost_nonneg(d, es.subrange(0, k));
    }
}

/// Room is never negative.
proof fn lemma_cost_nonneg(d: Seq<u8>, es: Seq<u8>)
    ensures
        cost(d, es) >= 0,
    decreases es.len(),
{
    if es.len() > 0 {
        lemma_cost_nonneg(d, es.drop_last());
    }
}

/// Later slots start later.
pub proof fn lemma_seg_mono(d: Seq<u8>, t1: int, t2: int)
    requires
        0 <= t1 <= t2 <= SLOTS,
    ensures
        seg(d, t1) <= seg(d, t2),
    decreases t2 - t1,
{
    if t1 < t2 {
        lemma_seg_mono(d, t1, t2 - 1);
        lemma_seg(d, t2 - 1);
    }
}

/// The records of slot `t` among the first `k` entries of all slots of `d`,
/// the last one first (what a rebuild has put in slot `t` after `k` records).
pub open spec fn rebuilt_records(d: Seq<u8>, t: int, k: int) -> Seq<Seq<u8>> {
    let lo = seg(d, t);
    let hi = seg(d, t + 1);
    let top = if k < lo {
        lo
    } else if k > hi {
        hi
    } else {
        k
    };
    slots_from(d, 0).subrange(lo, top).map_values(|e: u8| record(d, e as int)).reverse()
}

/// The entry at position `k` of all slots is on the chain of the slot whose
/// segment holds `k`; on a page with no repeated entry that slot is the only
/// one whose chain holds it.
pub proof fn lemma_entry_slot(d: Seq<u8>, k: int, c: int)
    requires
        slots_from(d, 0).no_duplicates(),
        0 <= c < SLOTS,
        0 <= k < slots_from(d, 0).len(),
        slot_entries(d, c).contains(slots_from(d, 0)[k]),
    ensures
        seg(d, c) <= k < seg(d, c + 1),
{
    lemma_seg(d, c);
    let a = slots_from(d, 0);
    let se = slot_entries(d, c);
    let i = choose|i: int| 0 <= i < se.len() && se[i] == a[k];
    assert(a.subrange(seg(d, c), seg(d, c + 1))[i] == a[seg(d, c) + i]);
}

/// One more record put in its slot by a rebuild: the slot's records gain it
/// at the front and the other slots keep theirs.
pub proof fn lemma_rebuilt_step(d: Seq<u8>, k: int, c: int)
    requires
        0 <= c < SLOTS,
        seg(d, c) <= k < seg(d, c + 1),
    ensures
        rebuilt_records(d, c, k + 1) == seq![record(d, slots_from(d, 0)[k] as int)] + rebuilt_records(
            d,
            c,
            k,
        ),
        forall|t: int|
            0 <= t < SLOTS && t != c ==> #[trigger] rebuilt_records(d, t, k + 1) == rebuilt_records(
                d,
                t,
                k,
            ),
{
    let a = slots_from(d, 0);
    lemma_seg(d, c);
    lemma_seg(d, SLOTS as int);
    let lo = seg(d, c);
    let f = |e: u8| record(d, e as int);
    let p1 = a.subrange(lo, k + 1).map_values(f);
    let p0 = a.subrange(lo, k).map_values(f);
    assert(p1 =~= p0.push(record(d, a[k] as int)));
    assert(p1.reverse() =~= seq![record(d, a[k] as int)] + p0.reverse());
    assert forall|t: int| 0 <= t < SLOTS && t != c implies #[trigger] rebuilt_records(d, t, k + 1)
        == rebuilt_records(d, t, k) by {
        if t < c {
            lemma_seg_mono(d, t + 1, c);
        } else {
            lemma_seg_mono(d, c + 1, t);
        }
    }
}

/// After all records a rebuild has put each slot's records in reverse order.
pub proof fn lemma_rebuilt_all(d: Seq<u8>, t: int)
    requires
        0 <= t < SLOTS,
    ensures
        rebuilt_records(d, t, slots_from(d, 0).len() as int) == slot_records(d, t).reverse(),
{
    lemma_seg(d, t);
    lemma_seg_mono(d, t + 1, SLOTS as int);
    lemma_seg(d, SLOTS as int);
    assert(slots_from(d, 0).subrange(seg(d, t), seg(d, t + 1)).map_values(|e: u8| record(d, e as int))
        =~= slot_records(d, t));
}

/// Before any record, a rebuild has put nothing in any slot.
pub proof fn lemma_rebuilt_none(d: Seq<u8>, t: int)
    requires
        0 <= t < SLOTS,
    ensures
        rebuilt_records(d, t, 0) == Seq::<Seq<u8>>::empty(),
{
    lemma_seg(d, t);
    assert(rebuilt_records(d, t, 0) =~= Seq::<Seq<u8>>::empty());
}

/// State of a rebuild of page `d` into page `w` after its first `k`
/// records: `w` is well-formed, has taken exactly those records, in fresh
/// entries, each slot holding its own, the last one first.
pub open spec fn rebuilding(d: Seq<u8>, w: Seq<u8>, k: int) -> bool {
    let a = slots_from(d, 0);
    &&& wf(d)
    &&& a.len() <= 255
    &&& DATA + cost(d, a) <= w.len() < 65536
    &&& 0 <= k <= a.len()
    &&& wf(w)
    &&& w[FREE as int] == 0
    &&& w[EALL as int] == k
    &&& get2(w, DALL as int) == cost(d, a.subrange(0, k)) - 3 * k
    &&& forall|t: int| 0 <= t < SLOTS ==> #[trigger] slot_records(w, t) == rebuilt_records(d, t, k)
}

/// A rebuild starts from a page of zero bytes.
pub proof fn lemma_rebuild_start(d: Seq<u8>, w: Seq<u8>)
    requires
        wf(d),
        DATA + cost(d, slots_from(d, 0)) <= w.len() < 65536,
        forall|i: int| 0 <= i < w.len() ==> w[i] == 0,
    ensures
        rebuilding(d, w, 0),
{
    let a = slots_from(d, 0);
    lemma_cost_prefix(d, a, 0);
    lemma_zero_page_wf(w);
    lemma_wf_count(d);
    assert forall|t: int| 0 <= t < SLOTS implies #[trigger] slot_records(w, t) == rebuilt_records(
        d,
        t,
        0,
    ) by {
        lemma_rebuilt_none(d, t);
    }
    assert(a.subrange(0, 0) =~= Seq::<u8>::empty());
}

/// The next record of a rebuild, on the chain of slot `c`, can go in slot
/// `c` of the new page, and lies within the old page.
pub proof fn lemma_rebuild_pre(d: Seq<u8>, w: Seq<u8>, k: int, c: int)
    requires
        rebuilding(d, w, k),
        k < slots_from(d, 0).len(),
        0 <= c < SLOTS,
        slot_entries(d, c).contains(slots_from(d, 0)[k]),
    ensures
        seg(d, c) <= k < seg(d, c + 1),
        entry_valid(d, slots_from(d, 0)[k] as int),
        crate::vbucket::can_insert(w, c, d[voff_of(d, slots_from(d, 0)[k] as int)] as int),
{
    let a = slots_from(d, 0);
    let x = a[k];
    lemma_entry_slot(d, k, c);
    lemma_seg(d, c);
    assert(slot_entries(d, c)[k - seg(d, c)] == x);
    lemma_alloc_valid(d, x as int);
    lemma_cost_step(d, a, k);
    lemma_cost_prefix(d, a, k + 1);
    lemma_wf_can_insert(w, c, d[voff_of(d, x as int)] as int);
}

/// Putting the next record of a rebuild in its slot advances the rebuild.
pub proof fn lemma_rebuild_post(d: Seq<u8>, w: Seq<u8>, w2: Seq<u8>, k: int, c: int)
    requires
        rebuilding(d, w, k),
        k < slots_from(d, 0).len(),
        0 <= c < SLOTS,
        seg(d, c) <= k < seg(d, c + 1),
        entry_valid(d, slots_from(d, 0)[k] as int),
        crate::vbucket::can_insert(w, c, record(d, slots_from(d, 0)[k] as int).len() as int),
        inserted(w, w2, c, record(d, slots_from(d, 0)[k] as int)),
    ensures
        rebuilding(d, w2, k + 1),
        w2.len() == w.len(),
{
    let a = slots_from(d, 0);
    let x = a[k];
    let ud = record(d, x as int);
    lemma_insert_wf(w, w2, c, ud);
    lemma_insert_frame(w, w2, c, ud);
    lemma_cost_step(d, a, k);
    assert(a.subrange(0, k + 1).drop_last() =~= a.subrange(0, k));
    lemma_rebuilt_step(d, k, c);
    assert forall|t: int| 0 <= t < SLOTS implies #[trigger] slot_records(w2, t) == rebuilt_records(
        d,
        t,
        k + 1,
    ) by {
        if t != c {
            assert(slot_records(w2, t) == slot_records(w, t));
        }
    }
    assert(ud.len() == d[voff_of(d, x as int)]);
    assert(w2[EALL as int] == k + 1);
    assert(w2[FREE as int] == 0);
    assert(get2(w2, DALL as int) == cost(d, a.subrange(0, k + 1)) - 3 * (k + 1));
}

/// Is entry `e` allocated on page `d` (which has room for its allocated
/// areas)?
fn alloc_entry_ok(d: &[u8], e: u8) -> (r: bool)
    requires
        DATA <= d@.len() < 65536,
        used(d@) <= d@.len(),
        e != 0,
    ensures
        r == entry_alloc(d@, e as int),
{
    let n = d.len();
    let ea = d[EALL];
    if e > ea {
        return false;
    }
    let da = d[DALL] as usize + (d[DALL + 1] as usize) * 256;
    let off = n - (e as usize) * 3 + 1;
    let voff = d[off] as usize + (d[off + 1] as usize) * 256;
    if voff < DATA || voff >= n {
        return false;
    }
    voff + 1 + (d[voff] as usize) <= DATA + da
}

/// Is the page well-formed? Bytes read from storage are checked with this
/// before a page is changed.
pub fn check_page(d: &[u8]) -> (r: bool)
    ensures
        r == wf(d@),
{
    let n = d.len();
    if n < DATA || n >= 65536 {
        return false;
    }
    let ea = d[EALL] as usize;
    let da = d[DALL] as usize + (d[DALL + 1] as usize) * 256;
    if DATA + da + ea * 3 > n {
        return false;
    }
    if !crate::vbucket::check_chains(d) {
        proof {
            assert(!crate::vbucket::chains_ok(d@));
        }
        return false;
    }
    let ghost a = slots_from(d@, 0);
    let mut seen: Vec<bool> = vec![false; 256];
    let mut s: usize = 0;
    proof {
        lemma_seg(d@, 0);
    }
    while s < SLOTS
        invariant
            n == d@.len(),
            DATA <= n < 65536,
            used(d@) <= n,
            crate::vbucket::chains_ok(d@),
            a == slots_from(d@, 0),
            s <= SLOTS,
            seen@.len() == 256,
            a.subrange(0, seg(d@, s as int)).no_duplicates(),
            forall|x: int| 0 <= x < 256 ==> seen@[x] == a.subrange(0, seg(d@, s as int)).contains(x as u8),
            forall|t: int, k: int|
                0 <= t < s && 0 <= k < slot_entries(d@, t).len() ==> entry_alloc(
                    d@,
                    #[trigger] slot_entries(d@, t)[k] as int,
                ),
        decreases SLOTS - s,
    {
        proof {
            lemma_seg(d@, s as int);
            assert(crate::vbucket::slot_chain(d@, s as int) is Some);
        }
        let ghost es = slot_entries(d@, s as int);
        let ghost base = seg(d@, s as int);
        let mut e = d[SLOT + s];
        let ghost mut k: int = 0;
        while e != 0
            invariant
                n == d@.len(),
                DATA <= n < 65536,
                used(d@) <= n,
                crate::vbucket::chains_ok(d@),
                a == slots_from(d@, 0),
                s < SLOTS,
                es == slot_entries(d@, s as int),
                base == seg(d@, s as int),
                seg(d@, s as int + 1) == base + es.len(),
                a.subrange(base, base + es.len()) == es,
                0 <= base <= a.len(),
                0 <= k <= es.len(),
                chain(d@, e, max_chain()) is Some,
                chain_entries(d@, e) == es.subrange(k, es.len() as int),
                seen@.len() == 256,
                a.subrange(0, base + k).no_duplicates(),
                forall|x: int| 0 <= x < 256 ==> seen@[x] == a.subrange(0, base + k).contains(x as u8),
                forall|t: int, j: int|
                    0 <= t < s && 0 <= j < slot_entries(d@, t).len() ==> entry_alloc(
                        d@,
                        #[trigger] slot_entries(d@, t)[j] as int,
                    ),
                forall|j: int| 0 <= j < k ==> entry_alloc(d@, #[trigger] es[j] as int),
            decreases es.len() - k,
        {
            proof {
                crate::vbucket::lemma_chain_step(d@, e);
                assert(chain_entries(d@, e)[0] == e);
                assert(chain_entries(d@, e).len() >= 1);
                assert(k < es.len());
                assert(es.subrange(k, es.len() as int)[0] == es[k]);
                assert(es[k] == e);
                assert(a.subrange(base, base + es.len())[k] == a[base + k]);
                assert(a[base + k] == e);
            }
            if !alloc_entry_ok(d, e) {
                proof {
                    assert(slot_entries(d@, s as int)[k] == e);
                }
                return false;
            }
            if seen[e as usize] {
                proof {
                    let pre = a.subrange(0, base + k);
                    assert(pre.contains(e));
                    let i = choose|i: int| 0 <= i < pre.len() && pre[i] == e;
                    assert(a[i] == a[base + k]);
                    assert(!a.no_duplicates());
                }
                return false;
            }
            seen.set(e as usize, true);
            let ghost old_e = e;
            e = d[n - (e as usize) * 3];
            proof {
                assert(chain_entries(d@, old_e).drop_first() =~= chain_entries(d@, e));
                let pre = a.subrange(0, base + k);
                let pre2 = a.subrange(0, base + k + 1);
                assert(pre2 =~= pre.push(old_e));
                assert forall|x: int| 0 <= x < 256 implies seen@[x] == pre2.contains(x as u8) by {
                    if x == old_e as int {
                        assert(pre2[pre.len() as int] == old_e);
                    } else {
                        if pre2.contains(x as u8) {
                            let i = choose|i: int| 0 <= i < pre2.len() && pre2[i] == x as u8;
                            assert(i < pre.len());
                            assert(pre[i] == x as u8);
                        }
                        if pre.contains(x as u8) {
                            let i = choose|i: int| 0 <= i < pre.len() && pre[i] == x as u8;
                            assert(pre2[i] == x as u8);
                        }
                    }
                }
                assert forall|i: int, j: int| 0 <= i < j < pre2.len() implies pre2[i] != pre2[j] by {
                    if j == pre.len() {
                        assert(pre.contains(pre2[i]));
                    }
                }
                k = k + 1;
            }
        }
        proof {
            assert(chain_entries(d@, 0) =~= Seq::<u8>::empty());
            assert(k == es.len());
        }
        s += 1;
    }
    proof {
        lemma_seg(d@, SLOTS as int);
        assert(a.subrange(0, a.len() as int) =~= a);
    }
    // The free list.
    let mut free_seen: Vec<bool> = vec![false; 256];
    let mut e = d[FREE];
    let mut fuel: u32 = 256;
    let ghost mut fv: Seq<u8> = Seq::empty();
    while e != 0
        invariant
            n == d@.len(),
            DATA <= n < 65536,
            used(d@) <= n,
            ea == d@[EALL as int],
            a == slots_from(d@, 0),
            a.no_duplicates(),
            forall|x: int| 0 <= x < 256 ==> seen@[x] == a.contains(x as u8),
            seen@.len() == 256,
            free_seen@.len() == 256,
            fuel <= 256,
            (free_list(d@) is Some) == (free_chain(d@, e, fuel as nat) is Some),
            free_chain(d@, e, fuel as nat) is Some ==> free_list(d@).unwrap() == fv + free_chain(
                d@,
                e,
                fuel as nat,
            ).unwrap(),
            fv.no_duplicates(),
            forall|x: int| 0 <= x < 256 ==> free_seen@[x] == fv.contains(x as u8),
            forall|i: int| 0 <= i < fv.len() ==> !a.contains(#[trigger] fv[i]),
        decreases fuel,
    {
        if fuel == 0 || e as usize > ea {
            return false;
        }
        if seen[e as usize] {
            proof {
                if free_list(d@) is Some {
                    let fl = free_list(d@).unwrap();
                    assert(fl[fv.len() as int] == e);
                    assert(a.contains(e));
                    let i = choose|i: int| 0 <= i < a.len() && a[i] == e;
                    lemma_slots_from_member(d@, 0, i);
                    let (t, j) = choose|t: int, j: int|
                        0 <= t < SLOTS && 0 <= j < slot_entries(d@, t).len() && #[trigger] slot_entries(d@, t)[j]
                            == slots_from(d@, 0)[i];
                    assert(slot_entries(d@, t)[j] == fl[fv.len() as int]);
                }
            }
            return false;
        }
        if free_seen[e as usize] {
            proof {
                if free_list(d@) is Some {
                    let fl = free_list(d@).unwrap();
                    assert(fl[fv.len() as int] == e);
                    let i = choose|i: int| 0 <= i < fv.len() && fv[i] == e;
                    assert(fl[i] == e);
                }
            }
            return false;
        }
        free_seen.set(e as usize, true);
        let ghost old_e = e;
        e = d[n - (e as usize) * 3];
        fuel -= 1;
        proof {
            let fv2 = fv.push(old_e);
            if free_chain(d@, e, fuel as nat) is Some {
                assert(free_chain(d@, old_e, (fuel + 1) as nat).unwrap() =~= seq![old_e] + free_chain(
                    d@,
                    e,
                    fuel as nat,
                ).unwrap());
                assert(fv + free_chain(d@, old_e, (fuel + 1) as nat).unwrap() =~= fv2 + free_chain(
                    d@,
                    e,
                    fuel as nat,
                ).unwrap());
            }
            assert forall|x: int| 0 <= x < 256 implies free_seen@[x] == fv2.contains(x as u8) by {
                if x == old_e as int {
                    assert(fv2[fv.len() as int] == old_e);
                } else {
                    if fv2.contains(x as u8) {
                        let i = choose|i: int| 0 <= i < fv2.len() && fv2[i] == x as u8;
                        assert(fv[i] == x as u8);
                    }
                    if fv.contains(x as u8) {
                        let i = choose|i: int| 0 <= i < fv.len() && fv[i] == x as u8;
                        assert(fv2[i] == x as u8);
                    }
                }
            }
            assert forall|i: int, j: int| 0 <= i < j < fv2.len() implies fv2[i] != fv2[j] by {
                if j == fv.len() {
                    assert(fv.contains(fv2[i]));
                }
            }
            assert forall|i: int| 0 <= i < fv2.len() implies !a.contains(#[trigger] fv2[i]) by {
                if i == fv.len() {
                    assert(!seen@[old_e as int]);
                }
            }
            fv = fv2;
        }
    }
    proof {
        assert(free_chain(d@, 0, fuel as nat) == Some(Seq::<u8>::empty()));
        assert(free_list(d@).unwrap() =~= fv);
        assert forall|t: int, k: int, j: int|
            0 <= t < SLOTS && 0 <= k < slot_entries(d@, t).len() && 0 <= j < free_list(d@).unwrap().len()
                implies #[trigger] slot_entries(d@, t)[k] != #[trigger] free_list(d@).unwrap()[j] by {
            lemma_seg(d@, t);
            assert(a[seg(d@, t) + k] == slot_entries(d@, t)[k]);
            assert(a.contains(slot_entries(d@, t)[k]));
        }
    }
    true
}

} // verus!
