//! Set of working pages: the pages a writer has loaded or made, cached over
//! the shared page store until they are saved.
//!
//! Page number 0 is the null page; page number `p > 0` is logical page
//! `p - 1` of the page store.

use crate::store::Store;
use page_store::{AccessPagedData, SaveOp, SharedPagedData};
use pstd::collections::HashMap;
use std::sync::Arc;
use vstd::prelude::*;

verus! {

/// Access to the pages of a page store.
#[verifier::external_type_specification]
#[verifier::external_body]
pub struct ExAccessPagedData(AccessPagedData);

/// `w` gives write access.
pub uninterp spec fn is_writer(w: AccessPagedData) -> bool;

/// The largest page size of the page store that `w` reaches (the store's
/// size information is fixed when the store is made).
pub uninterp spec fn max_page_size(w: AccessPagedData) -> usize;

/// The size index that the page store that `w` reaches gives a page of
/// `size` bytes.
pub uninterp spec fn size_index_of(w: AccessPagedData, size: usize) -> usize;

/// The page size of size index `ix` of the page store that `w` reaches.
pub uninterp spec fn index_page_size(w: AccessPagedData, ix: usize) -> usize;

/// `a` and `b` reach page stores with the same page sizes.
pub open spec fn same_sizes(a: AccessPagedData, b: AccessPagedData) -> bool {
    &&& max_page_size(a) == max_page_size(b)
    &&& forall|n: usize| #[trigger] size_index_of(a, n) == size_index_of(b, n)
    &&& forall|ix: usize| #[trigger] index_page_size(a, ix) == index_page_size(b, ix)
}

/// Largest logical page number whose entry in the page store's page-number
/// file has an offset that fits a `u64`.
pub const MAX_LPNUM: u64 = 0x0FFF_FFFF_FFFF_FFFF;

/// Calls `SharedPagedData::new_writer`: write access to the pages.
#[verifier::external_body]
pub fn new_writer(spd: &Arc<SharedPagedData>) -> (r: AccessPagedData)
    ensures
        is_writer(r),
{
    spd.new_writer()
}

/// Calls `AccessPagedData::get_data`: the bytes of logical page `lpnum`.
/// The pages are shared by every access to the store, so what they hold is
/// not stated.
#[verifier::external_body]
fn read_page(w: &AccessPagedData, lpnum: u64) -> (r: Vec<u8>)
    requires
        lpnum <= MAX_LPNUM,
{
    w.get_data(lpnum).to_vec()
}

/// Calls `AccessPagedData::set_data`: sets the bytes of logical page
/// `lpnum` (empty bytes free the page). What the shared pages then hold is
/// not stated.
#[verifier::external_body]
fn write_page(w: &mut AccessPagedData, lpnum: u64, data: Vec<u8>)
    requires
        is_writer(*old(w)),
        lpnum <= MAX_LPNUM,
        data@.len() <= max_page_size(*old(w)),
    ensures
        is_writer(*final(w)),
        same_sizes(*old(w), *final(w)),
{
    w.set_data(lpnum, Arc::new(data))
}

/// Calls `AccessPagedData::alloc_page`: a logical page number that is not in
/// use.
#[verifier::external_body]
fn alloc_page(w: &mut AccessPagedData) -> (r: u64)
    requires
        is_writer(*old(w)),
    ensures
        is_writer(*final(w)),
        same_sizes(*old(w), *final(w)),
{
    w.alloc_page()
}

/// Calls `AccessPagedData::free_page`: frees logical page `lpnum`.
#[verifier::external_body]
fn free_lpage(w: &mut AccessPagedData, lpnum: u64)
    requires
        is_writer(*old(w)),
        lpnum <= MAX_LPNUM,
    ensures
        is_writer(*final(w)),
        same_sizes(*old(w), *final(w)),
{
    w.free_page(lpnum)
}

/// Calls `AccessPagedData::save` with `SaveOp::Save`: commits the pages set.
#[verifier::external_body]
fn commit(w: &mut AccessPagedData)
    requires
        is_writer(*old(w)),
    ensures
        is_writer(*final(w)),
        same_sizes(*old(w), *final(w)),
{
    w.save(SaveOp::Save);
}

/// Calls `PageStorageInfo::max_size_page` of the store's page sizes.
#[verifier::external_body]
fn max_size_page(w: &AccessPagedData) -> (r: usize)
    ensures
        r == max_page_size(*w),
{
    w.spd.psi.max_size_page()
}

/// Calls `PageStorageInfo::index` of the store's page sizes: the size
/// index for a page of `size` bytes (a size of at most the largest page
/// size). The index is at least 1 and its page size holds `size` bytes.
#[verifier::external_body]
fn size_index(w: &AccessPagedData, size: usize) -> (r: usize)
    requires
        size <= max_page_size(*w),
    ensures
        r == size_index_of(*w, size),
        r >= 1,
        index_page_size(*w, r) >= size,
{
    w.spd.psi.index(size)
}

/// Calls `PageStorageInfo::size` of the store's page sizes: the page size
/// of index `ix` (an index given for a size of at most the largest page
/// size).
#[verifier::external_body]
fn index_size(w: &AccessPagedData, ix: usize) -> (r: usize)
    requires
        exists|n: usize| n <= max_page_size(*w) && ix == #[trigger] size_index_of(*w, n),
    ensures
        r == index_page_size(*w, ix),
{
    w.spd.psi.size(ix)
}

/// The cached pages of a [PageSet]: page number to bytes and whether they
/// changed since they were loaded.
#[verifier::external_body]
pub struct PageCache {
    map: HashMap<u64, (Vec<u8>, bool)>,
}

/// A cache holding no page.
pub open spec fn no_pages() -> Map<u64, (Seq<u8>, bool)> {
    Map::empty()
}

/// The contents of a page cache.
pub uninterp spec fn cached(c: PageCache) -> Map<u64, (Seq<u8>, bool)>;

/// Calls `HashMap::default`: an empty cache.
#[verifier::external_body]
fn cache_new() -> (r: PageCache)
    ensures
        cached(r) == no_pages(),
{
    PageCache { map: HashMap::default() }
}

/// Calls `HashMap::get`: a copy of the bytes of cached page `p`.
#[verifier::external_body]
fn cache_get(c: &PageCache, p: u64) -> (r: Option<Vec<u8>>)
    ensures
        match r {
            Some(d) => cached(*c).contains_key(p) && d@ == cached(*c)[p].0,
            None => !cached(*c).contains_key(p),
        },
{
    c.map.get(&p).map(|e| e.0.clone())
}

/// Calls `HashMap::insert`: page `p` gets `data` and the changed flag.
#[verifier::external_body]
fn cache_insert(c: &mut PageCache, p: u64, data: Vec<u8>, changed: bool)
    ensures
        cached(*final(c)) == cached(*old(c)).insert(p, (data@, changed)),
{
    c.map.insert(p, (data, changed));
}

/// Calls `HashMap::remove`: page `p` leaves the cache.
#[verifier::external_body]
fn cache_remove(c: &mut PageCache, p: u64)
    ensures
        cached(*final(c)) == cached(*old(c)).remove(p),
{
    c.map.remove(&p);
}

/// Calls `HashMap::get_mut`: takes the bytes of cached page `p`, leaving it
/// empty (its changed flag stays).
#[verifier::external_body]
fn cache_take(c: &mut PageCache, p: u64) -> (r: Vec<u8>)
    requires
        cached(*old(c)).contains_key(p),
    ensures
        r@ == cached(*old(c))[p].0,
        cached(*final(c)) == cached(*old(c)).insert(p, (Seq::<u8>::empty(), cached(*old(c))[p].1)),
{
    std::mem::take(&mut c.map.get_mut(&p).unwrap().0)
}

/// Calls `HashMap::get_mut`: cached page `p` gets `data` (its changed flag
/// stays).
#[verifier::external_body]
fn cache_set_data(c: &mut PageCache, p: u64, data: Vec<u8>)
    requires
        cached(*old(c)).contains_key(p),
    ensures
        cached(*final(c)) == cached(*old(c)).insert(p, (data@, cached(*old(c))[p].1)),
{
    c.map.get_mut(&p).unwrap().0 = data;
}

/// Calls `HashMap::get_mut`: cached page `p` is marked changed.
#[verifier::external_body]
fn cache_set_changed(c: &mut PageCache, p: u64)
    requires
        cached(*old(c)).contains_key(p),
    ensures
        cached(*final(c)) == cached(*old(c)).insert(p, (cached(*old(c))[p].0, true)),
{
    c.map.get_mut(&p).unwrap().1 = true;
}

/// Calls `HashMap::drain`: all cached pages, in the map's order (which is
/// not stated), leaving the cache empty.
#[verifier::external_body]
fn cache_drain(c: &mut PageCache) -> (r: Vec<(u64, Vec<u8>, bool)>)
    ensures
        cached(*final(c)) == no_pages(),
        forall|p: u64|
            cached(*old(c)).contains_key(p) ==> exists|i: int| 0 <= i < r@.len() && #[trigger] r@[i].0 == p,
        forall|i: int|
            0 <= i < r@.len() ==> cached(*old(c)).contains_key(#[trigger] r@[i].0) && cached(
                *old(c),
            )[r@[i].0] == (r@[i].1@, r@[i].2),
        forall|i: int, j: int| 0 <= i < j < r@.len() ==> r@[i].0 != r@[j].0,
{
    c.map.drain().map(|(p, (d, ch))| (p, d, ch)).collect()
}

/// Set of working pages.
pub struct PageSet {
    wapd: AccessPagedData,
    pages: PageCache,
    /// The system store.
    pub sys_store: Store,
    /// The bytes this set has handed to the page store, by logical page.
    handed: Ghost<Map<u64, Seq<u8>>>,
}

impl PageSet {
    /// The cached pages.
    pub closed spec fn cache(&self) -> Map<u64, (Seq<u8>, bool)> {
        cached(self.pages)
    }

    /// The set can write pages.
    pub closed spec fn writes(&self) -> bool {
        is_writer(self.wapd)
    }

    /// The bytes that saving has handed to the page store, by logical page
    /// number (the last bytes handed for each page).
    pub closed spec fn handed(&self) -> Map<u64, Seq<u8>> {
        self.handed@
    }

    /// The largest page size of the page store.
    pub closed spec fn max_page(&self) -> usize {
        max_page_size(self.wapd)
    }

    /// The page size that [PageSet::compute_size] gives for `size` bytes.
    pub closed spec fn size_for(&self, size: usize) -> usize {
        index_page_size(self.wapd, size_index_of(self.wapd, size))
    }

    /// The system store.
    pub closed spec fn sys(&self) -> Store {
        self.sys_store
    }

    /// Take the system store out of the set, leaving an empty one in its
    /// place.
    pub fn take_sys_store(&mut self) -> (r: Store)
        ensures
            r == old(self).sys(),
            final(self).cache() == old(self).cache(),
            final(self).writes() == old(self).writes(),
            final(self).handed() == old(self).handed(),
            final(self).max_page() == old(self).max_page(),
    {
        let mut s = Store::default();
        std::mem::swap(&mut s, &mut self.sys_store);
        s
    }

    /// Put `s` in the set as its system store.
    pub fn put_sys_store(&mut self, s: Store)
        ensures
            final(self).sys() == s,
            final(self).cache() == old(self).cache(),
            final(self).writes() == old(self).writes(),
            final(self).handed() == old(self).handed(),
            final(self).max_page() == old(self).max_page(),
    {
        self.sys_store = s;
    }

    /// Start a new PageSet.
    pub fn new(wapd: AccessPagedData) -> (r: Self)
        ensures
            r.cache() == no_pages(),
            r.handed() == Map::<u64, Seq<u8>>::empty(),
            r.writes() == is_writer(wapd),
            r.max_page() == max_page_size(wapd),
    {
        Self { wapd, pages: cache_new(), sys_store: Store::default(), handed: Ghost(Map::empty()) }
    }

    /// Compute rounded up size of page. Returns 0 if size exceeds page limit.
    pub fn compute_size(&self, size: usize) -> (r: usize)
        ensures
            size > self.max_page() ==> r == 0,
            size <= self.max_page() ==> r == self.size_for(size) && r >= size,
    {
        if size > max_size_page(&self.wapd) {
            return 0;
        }
        let ix = size_index(&self.wapd, size);
        index_size(&self.wapd, ix)
    }

    /// Allocate new page number (never the null page 0 when the store's
    /// number is below `u64::MAX`).
    pub fn new_page(&mut self) -> (r: u64)
        requires
            old(self).writes(),
        ensures
            final(self).writes(),
            final(self).cache() == old(self).cache(),
            final(self).handed() == old(self).handed(),
            final(self).max_page() == old(self).max_page(),
    {
        let lp = alloc_page(&mut self.wapd);
        lp.wrapping_add(1)  // Add 1 so that zero can be used as null page.
    }

    /// Associate new page data with specified page number (pnum); the page
    /// counts as changed.
    pub fn new_pdata(&mut self, pnum: u64, data: Vec<u8>)
        ensures
            final(self).cache() == old(self).cache().insert(pnum, (data@, true)),
            final(self).handed() == old(self).handed(),
            final(self).writes() == old(self).writes(),
            final(self).max_page() == old(self).max_page(),
    {
        cache_insert(&mut self.pages, pnum, data, true);
    }

    /// Free page number. A page number whose entry in the page store would
    /// lie past the largest offset is only dropped from the cache.
    pub fn free_page(&mut self, pnum: u64)
        requires
            old(self).writes(),
            pnum > 0,
        ensures
            final(self).writes(),
            final(self).cache() == old(self).cache().remove(pnum),
            final(self).handed() == old(self).handed(),
            final(self).max_page() == old(self).max_page(),
    {
        cache_remove(&mut self.pages, pnum);
        if pnum - 1 <= MAX_LPNUM {
            free_lpage(&mut self.wapd, pnum - 1);
        }
    }

    /// Loads page data: the null page is empty, a cached page keeps its
    /// bytes, another page is read from the store and cached unchanged (a
    /// page number whose entry in the page store would lie past the largest
    /// offset reads as empty).
    pub fn load(&mut self, pnum: u64) -> (r: Vec<u8>)
        ensures
            final(self).writes() == old(self).writes(),
            final(self).handed() == old(self).handed(),
            final(self).max_page() == old(self).max_page(),
            pnum == 0 ==> r@ == Seq::<u8>::empty() && final(self).cache() == old(self).cache(),
            pnum - 1 > MAX_LPNUM && !old(self).cache().contains_key(pnum) ==> r@ == Seq::<u8>::empty(),
            pnum != 0 && old(self).cache().contains_key(pnum) ==> r@ == old(self).cache()[pnum].0
                && final(self).cache() == old(self).cache(),
            pnum != 0 && !old(self).cache().contains_key(pnum) ==> final(self).cache() == old(
                self,
            ).cache().insert(pnum, (r@, false)),
            pnum != 0 ==> final(self).cache().contains_key(pnum) && final(self).cache()[pnum].0
                == r@,
    {
        if pnum == 0 {
            return Vec::new();  // Convenient for some read operations that read unitialised pages.
        }
        match cache_get(&self.pages, pnum) {
            Some(data) => data,
            None => {
                let data = if pnum - 1 > MAX_LPNUM {
                    Vec::new()
                } else {
                    read_page(&self.wapd, pnum - 1)
                };
                let copy = data.clone();
                cache_insert(&mut self.pages, pnum, copy, false);
                data
            },
        }
    }

    /// Take the data of a cached page, leaving it empty.
    pub fn take_data(&mut self, pnum: u64) -> (r: Vec<u8>)
        requires
            old(self).cache().contains_key(pnum),
        ensures
            r@ == old(self).cache()[pnum].0,
            final(self).cache() == old(self).cache().insert(
                pnum,
                (Seq::<u8>::empty(), old(self).cache()[pnum].1),
            ),
            final(self).handed() == old(self).handed(),
            final(self).writes() == old(self).writes(),
            final(self).max_page() == old(self).max_page(),
    {
        cache_take(&mut self.pages, pnum)
    }

    /// Set the data of a cached page.
    pub fn set_data(&mut self, pnum: u64, data: Vec<u8>)
        requires
            old(self).cache().contains_key(pnum),
        ensures
            final(self).cache() == old(self).cache().insert(pnum, (data@, old(self).cache()[pnum].1)),
            final(self).handed() == old(self).handed(),
            final(self).writes() == old(self).writes(),
            final(self).max_page() == old(self).max_page(),
    {
        cache_set_data(&mut self.pages, pnum, data);
    }

    /// Mark a cached page as changed.
    pub fn set_changed(&mut self, pnum: u64)
        requires
            old(self).cache().contains_key(pnum),
        ensures
            final(self).cache() == old(self).cache().insert(pnum, (old(self).cache()[pnum].0, true)),
            final(self).handed() == old(self).handed(),
            final(self).writes() == old(self).writes(),
            final(self).max_page() == old(self).max_page(),
    {
        cache_set_changed(&mut self.pages, pnum);
    }

    /// Save all the changed pages: each changed page is handed to the page
    /// store (empty bytes free it), the pages are committed, and the cache is
    /// emptied. The changed pages must fit the store's largest page.
    pub fn save(&mut self)
        requires
            old(self).writes(),
            forall|p: u64| #[trigger] old(self).cache().contains_key(p) ==> p > 0,
            forall|p: u64|
                #[trigger] old(self).cache().contains_key(p) && old(self).cache()[p].1 ==> p - 1
                    <= MAX_LPNUM && old(self).cache()[p].0.len() <= old(self).max_page(),
        ensures
            final(self).writes(),
            final(self).cache() == no_pages(),
            final(self).max_page() == old(self).max_page(),
            forall|p: u64|
                #[trigger] old(self).cache().contains_key(p) && old(self).cache()[p].1
                    ==> final(self).handed().contains_key((p - 1) as u64) && final(self).handed()[(p
                    - 1) as u64] == old(self).cache()[p].0,
            forall|lp: u64|
                #![trigger old(self).handed().contains_key(lp)]
                lp < u64::MAX && !(old(self).cache().contains_key((lp + 1) as u64) && old(
                    self,
                ).cache()[(lp + 1) as u64].1) && old(self).handed().contains_key(lp)
                    ==> final(self).handed().contains_key(lp) && final(self).handed()[lp] == old(
                    self,
                ).handed()[lp],
    {
        let ghost c0 = self.cache();
        let ghost s0 = self.handed@;
        let ghost m0 = max_page_size(self.wapd);
        let drained = cache_drain(&mut self.pages);
        let mut i: usize = 0;
        while i < drained.len()
            invariant
                0 <= i <= drained@.len(),
                is_writer(self.wapd),
                max_page_size(self.wapd) == m0,
                forall|p: u64| #[trigger] c0.contains_key(p) ==> p > 0,
                forall|p: u64|
                    #[trigger] c0.contains_key(p) && c0[p].1 ==> p - 1 <= MAX_LPNUM && c0[p].0.len()
                        <= m0,
                forall|k: int|
                    0 <= k < drained@.len() ==> c0.contains_key(#[trigger] drained@[k].0)
                        && c0[drained@[k].0] == (drained@[k].1@, drained@[k].2),
                forall|a: int, b: int| 0 <= a < b < drained@.len() ==> drained@[a].0 != drained@[b].0,
                cached(self.pages) == no_pages(),
                forall|k: int|
                    0 <= k < i && drained@[k].2 ==> self.handed@.contains_key(
                        (drained@[k].0 - 1) as u64,
                    ) && self.handed@[(drained@[k].0 - 1) as u64] == drained@[k].1@,
                forall|lp: u64|
                    #![trigger s0.contains_key(lp)]
                    (forall|k: int| 0 <= k < i ==> !(drained@[k].2 && drained@[k].0 == lp + 1)) && lp
                        < u64::MAX && s0.contains_key(lp) ==> self.handed@.contains_key(lp)
                        && self.handed@[lp] == s0[lp],
            decreases drained@.len() - i,
        {
            let pnum = drained[i].0;
            let changed = drained[i].2;
            proof {
                assert(c0.contains_key(drained@[i as int].0));
            }
            let ghost before = self.handed@;
            if changed {
                let data = drained[i].1.clone();
                proof {
                    assert(data@ =~= drained@[i as int].1@);
                    self.handed@ = self.handed@.insert((pnum - 1) as u64, data@);
                }
                write_page(&mut self.wapd, pnum - 1, data);
            }
            proof {
                let after = self.handed@;
                let lpi = (pnum - 1) as u64;
                assert forall|k: int|
                    0 <= k < i + 1 && drained@[k].2 implies after.contains_key(
                    (drained@[k].0 - 1) as u64,
                ) && after[(drained@[k].0 - 1) as u64] == drained@[k].1@ by {
                    if k < i {
                        assert(c0.contains_key(drained@[k].0));
                        assert(drained@[k].0 != drained@[i as int].0);
                    }
                }
                assert forall|lp: u64|
                    #![trigger s0.contains_key(lp)]
                    (forall|k: int| 0 <= k < i + 1 ==> !(drained@[k].2 && drained@[k].0 == lp + 1)) && lp
                        < u64::MAX && s0.contains_key(lp) implies after.contains_key(lp) && after[lp]
                    == s0[lp] by {
                    assert(!(drained@[i as int].2 && drained@[i as int].0 == lp + 1));
                    assert forall|k: int| 0 <= k < i implies !(drained@[k].2 && drained@[k].0 == lp + 1) by {
                    }
                }
            }
            i += 1;
        }
        commit(&mut self.wapd);
        proof {
            assert forall|p: u64|
                #[trigger] c0.contains_key(p) && c0[p].1 implies self.handed@.contains_key(
                (p - 1) as u64,
            ) && self.handed@[(p - 1) as u64] == c0[p].0 by {
                let k = choose|k: int| 0 <= k < drained@.len() && #[trigger] drained@[k].0 == p;
                assert(c0[drained@[k].0] == (drained@[k].1@, drained@[k].2));
            }
            assert forall|lp: u64|
                #![trigger s0.contains_key(lp)]
                lp < u64::MAX && !(c0.contains_key((lp + 1) as u64) && c0[(lp + 1) as u64].1)
                    && s0.contains_key(lp) implies self.handed@.contains_key(lp)
                && self.handed@[lp] == s0[lp] by {
                assert forall|k: int| 0 <= k < drained@.len() implies !(drained@[k].2 && drained@[k].0
                    == lp + 1) by {
                    if drained@[k].0 == lp + 1 {
                        assert(c0[drained@[k].0] == (drained@[k].1@, drained@[k].2));
                    }
                }
            }
        }
    }
}

} // verus!
