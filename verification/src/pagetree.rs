//! Tree of pages: parent pages hold lists of page numbers.

use crate::bytes::{
    le_bytes, le_value, lemma_le_bytes_len, lemma_le_roundtrip, lemma_le_value_zero, lemma_pow256_8,
};
use crate::pageset::PageSet;
use vstd::prelude::*;

verus! {

/// Standard page size ( for pagetree ).
pub const PAGE_SIZE: u64 = 3952;

/// Number of child pages per parent page.
pub const BASE: u64 = 494;

/// The page number at index `ix` of a parent page (0 beyond its end).
pub open spec fn fetch_spec(d: Seq<u8>, ix: int) -> u64 {
    if ix * 8 + 8 > d.len() {
        0
    } else {
        le_value(d.subrange(ix * 8, ix * 8 + 8)) as u64
    }
}

/// Parent page is list of page numbers.
pub struct ParentPage {
    data: Vec<u8>,
}

impl View for ParentPage {
    type V = Seq<u8>;

    closed spec fn view(&self) -> Seq<u8> {
        self.data@
    }
}

impl ParentPage {
    /// Empty parent page.
    pub fn new() -> (r: Self)
        ensures
            r@ == Seq::<u8>::empty(),
    {
        Self { data: Vec::new() }
    }

    /// Parent page with the bytes `data`.
    pub fn from(data: Vec<u8>) -> (r: Self)
        ensures
            r@ == data@,
    {
        Self { data }
    }

    /// The bytes of the parent page.
    pub fn take(self) -> (r: Vec<u8>)
        ensures
            r@ == self@,
    {
        self.data
    }

    /// Assign page number: index `ix` of the list gets `pnum` (the page grows,
    /// zero filled, when needed); other indexes keep their page numbers.
    pub fn assign(&mut self, ix: usize, pnum: u64)
        requires
            ix * 8 + 8 <= usize::MAX,
        ensures
            final(self)@.len() == if ix * 8 + 8 > old(self)@.len() {
                ix * 8 + 8
            } else {
                old(self)@.len() as int
            },
            fetch_spec(final(self)@, ix as int) == pnum,
            forall|j: int|
                0 <= j && j != ix && (j * 8 + 8 <= old(self)@.len() || j * 8 >= old(self)@.len())
                    ==> #[trigger] fetch_spec(final(self)@, j) == fetch_spec(old(self)@, j),
            final(self)@.subrange(ix * 8, ix * 8 + 8) == le_bytes(pnum as nat, 8),
            forall|i: int|
                0 <= i < old(self)@.len() && !(ix * 8 <= i < ix * 8 + 8) ==> #[trigger] final(self)@[i]
                    == old(self)@[i],
            forall|i: int|
                old(self)@.len() <= i < final(self)@.len() && !(ix * 8 <= i < ix * 8 + 8)
                    ==> #[trigger] final(self)@[i] == 0,
    {
        let off = ix * 8;
        let end = off + 8;
        let ghost d0 = self@;
        if end > self.data.len() {
            self.data.resize(end, 0);
        }
        let ghost d1 = self@;
        proof {
            assert forall|i: int| d0.len() <= i < d1.len() implies d1[i] == 0 by {
                assert(vstd::pervasive::cloned::<u8>(0, d1[i]));
            }
        }
        let mut x = pnum;
        let mut i: usize = 0;
        while i < 8
            invariant
                i <= 8,
                end == off + 8,
                off == ix * 8,
                self@.len() == d1.len(),
                end <= d1.len(),
                self@.subrange(off as int, off + i) + le_bytes(x as nat, (8 - i) as nat) == le_bytes(
                    pnum as nat,
                    8,
                ),
                forall|j: int| 0 <= j < d1.len() && !(off <= j < off + i) ==> #[trigger] self@[j] == d1[j],
            decreases 8 - i,
        {
            let ghost x0 = x;
            let ghost before = self@;
            self.data.set(off + i, (x % 256) as u8);
            x = x / 256;
            i += 1;
            proof {
                assert(le_bytes(x0 as nat, (8 - i + 1) as nat) == seq![(x0 % 256) as u8] + le_bytes(
                    x as nat,
                    (8 - i) as nat,
                ));
                assert(self@.subrange(off as int, off + i) =~= before.subrange(off as int, off + i - 1).push(
                    (x0 % 256) as u8,
                ));
                assert(self@.subrange(off as int, off + i) + le_bytes(x as nat, (8 - i) as nat)
                    =~= before.subrange(off as int, off + i - 1) + le_bytes(
                    x0 as nat,
                    (8 - i + 1) as nat,
                ));
            }
        }
        proof {
            let d = self@;
            assert(d.subrange(off as int, off + 8) =~= d.subrange(off as int, off + 8) + le_bytes(x as nat, 0));
            lemma_pow256_8();
            lemma_le_bytes_len(pnum as nat, 8);
            lemma_le_roundtrip(pnum as nat, 8);
            assert forall|j: int|
                0 <= j && j != ix && (j * 8 + 8 <= d0.len() || j * 8 >= d0.len()) implies #[trigger] fetch_spec(d, j)
                == fetch_spec(d0, j) by {
                if j * 8 + 8 <= d0.len() {
                    assert(d.subrange(j * 8, j * 8 + 8) =~= d0.subrange(j * 8, j * 8 + 8));
                } else if j * 8 + 8 <= d.len() {
                    assert(d.subrange(j * 8, j * 8 + 8) =~= d1.subrange(j * 8, j * 8 + 8));
                    lemma_le_value_zero(d.subrange(j * 8, j * 8 + 8));
                }
            }
        }
    }

    /// Fetch page number at index `ix` (0 beyond the end of the list).
    pub fn fetch(&self, ix: usize) -> (r: u64)
        requires
            ix * 8 + 8 <= usize::MAX,
        ensures
            r == fetch_spec(self@, ix as int),
    {
        let off = ix * 8;
        let end = off + 8;
        if end > self.data.len() {
            return 0;
        }
        crate::bytes::get_u64(self.data.as_slice(), off)
    }
}

/// `c` divided by `BASE`, rounded up.
pub open spec fn up(c: nat) -> nat {
    ((c + 493) / 494) as nat
}

/// Number of tree levels needed above `count` pages, for `count > 1`.
pub open spec fn spec_levels_above(count: nat) -> nat
    decreases count,
{
    if count <= 494 {
        1
    } else {
        1 + spec_levels_above(up(count))
    }
}

/// Number of extra levels needed for a PageTree of `count` pages.
pub open spec fn spec_levels(count: nat) -> nat {
    if count <= 1 {
        0
    } else {
        spec_levels_above(count)
    }
}

/// Calculate number of extra levels needed for PageTree of specified count.
pub fn levels(count: u64) -> (r: u8)
    ensures
        r == spec_levels(count as nat),
{
    let mut count = count;
    let base = PAGE_SIZE / 8;  // Number of child pages per page.
    if count <= 1 {
        return 0;
    }
    let ghost c0 = count;
    let mut result: u8 = 1;
    assert(((count - 1) as nat) * pow_base(0) < c0) by {
        assert(pow_base(0) == 1);
    }
    while count > base
        invariant
            base == 494,
            count > 1,
            1 <= result <= 8,
            ((count - 1) as nat) * pow_base((result - 1) as nat) < c0,
            result + spec_levels_above(count as nat) == 1 + spec_levels_above(c0 as nat),
        decreases count,
    {
        let ghost old_count = count;
        count = count / base + if count % base != 0 {
            1
        } else {
            0
        };
        proof {
            let oc = old_count as int;
            assert(count as int == (oc + 493) / 494) by (nonlinear_arith)
                requires
                    count as int == oc / 494 + if oc % 494 != 0 { 1int } else { 0int },
            ;
            lemma_pow_base_step((result - 1) as nat, old_count as nat, c0 as nat);
        }
        result += 1;
    }
    result
}

/// 494 to the power `n`.
pub open spec fn pow_base(n: nat) -> nat
    decreases n,
{
    if n == 0 {
        1
    } else {
        494 * pow_base((n - 1) as nat)
    }
}

/// Dividing a count of more than 494 by 494 (rounding up) keeps the scaled
/// count below `c0`; since `c0` fits in 64 bits, at most 7 divisions happen.
pub proof fn lemma_pow_base_step(k: nat, c: nat, c0: nat)
    requires
        c > 494,
        ((c - 1) as nat) * pow_base(k) < c0,
        c0 <= 0xFFFF_FFFF_FFFF_FFFFnat,
    ensures
        ((up(c) - 1) as nat) * pow_base(k + 1) < c0,
        k + 1 <= 7,
        up(c) < c,
{
    lemma_pow_base_pos(k);
    let p = pow_base(k);
    assert(pow_base(k + 1) == 494 * p);
    let u = up(c);
    assert(((u - 1) as nat) * (494 * p) <= ((c - 1) as nat) * p) by (nonlinear_arith)
        requires
            c > 494,
            p >= 1,
            u == (c + 493) / 494,
    ;
    if k + 1 > 7 {
        lemma_pow_base_mono(7, k);
        assert(pow_base(7) == 494 * 494 * 494 * 494 * 494 * 494 * 494) by {
            reveal_with_fuel(pow_base, 8);
        }
        assert(((c - 1) as nat) * p > 0xFFFF_FFFF_FFFF_FFFFnat) by (nonlinear_arith)
            requires
                c > 494,
                p >= 494 * 494 * 494 * 494 * 494 * 494 * 494,
        ;
    }
}

/// Powers of 494 are positive.
pub proof fn lemma_pow_base_pos(k: nat)
    ensures
        pow_base(k) >= 1,
    decreases k,
{
    if k > 0 {
        lemma_pow_base_pos((k - 1) as nat);
    }
}

/// Powers of 494 grow.
pub proof fn lemma_pow_base_mono(a: nat, b: nat)
    requires
        a <= b,
    ensures
        pow_base(a) <= pow_base(b),
    decreases b,
{
    if a < b {
        lemma_pow_base_mono(a, (b - 1) as nat);
        lemma_pow_base_pos((b - 1) as nat);
    }
}

/// Bytes of page `p` in the cache `c` (the null page 0, and a page not
/// cached, read as empty).
pub open spec fn cache_page(c: Map<u64, (Seq<u8>, bool)>, p: u64) -> Seq<u8> {
    if p != 0 && c.contains_key(p) {
        c[p].0
    } else {
        Seq::empty()
    }
}

/// The page number that a tree rooted at `root` gives at `level` for index
/// `ix`, reading parent pages from the cache `c` (0 for a missing page).
pub open spec fn lookup(c: Map<u64, (Seq<u8>, bool)>, root: u64, level: nat, ix: nat) -> u64
    decreases level,
{
    if level == 0 {
        root
    } else {
        fetch_spec(cache_page(c, lookup(c, root, (level - 1) as nat, ix / 494)), (ix % 494) as int)
    }
}

/// Once a lookup meets a missing page it stays missing.
pub proof fn lemma_lookup_zero(c: Map<u64, (Seq<u8>, bool)>, root: u64, level: nat, ix: nat)
    requires
        level > 0,
        lookup(c, root, (level - 1) as nat, ix / 494) == 0,
    ensures
        lookup(c, root, level, ix) == 0,
{
    assert(fetch_spec(Seq::<u8>::empty(), (ix % 494) as int) == 0);
}

/// Emptying one cached page leaves every lookup as it was, or makes it 0.
pub proof fn lemma_lookup_emptied(
    c: Map<u64, (Seq<u8>, bool)>,
    c2: Map<u64, (Seq<u8>, bool)>,
    p: u64,
    root: u64,
    level: nat,
    ix: nat,
)
    requires
        forall|q: u64| q != p ==> cache_page(c2, q) == #[trigger] cache_page(c, q),
        cache_page(c2, p).len() == 0,
    ensures
        lookup(c2, root, level, ix) == lookup(c, root, level, ix) || lookup(c2, root, level, ix)
            == 0,
    decreases level,
{
    if level > 0 {
        lemma_lookup_emptied(c, c2, p, root, (level - 1) as nat, ix / 494);
        let prev = lookup(c, root, (level - 1) as nat, ix / 494);
        assert(cache_page(c2, prev) == cache_page(c, prev) || prev == p);
        assert(fetch_spec(Seq::<u8>::empty(), (ix % 494) as int) == 0);
    }
}

/// Setting a child of one cached page in a slot that held 0 leaves every
/// lookup that does not give 0 as it was.
pub proof fn lemma_lookup_assigned(
    c: Map<u64, (Seq<u8>, bool)>,
    c2: Map<u64, (Seq<u8>, bool)>,
    p: u64,
    cix: int,
    root: u64,
    level: nat,
    ix: nat,
)
    requires
        forall|q: u64| q != p ==> cache_page(c2, q) == #[trigger] cache_page(c, q),
        fetch_spec(cache_page(c, p), cix) == 0,
        forall|j: int|
            0 <= j && j != cix && (j * 8 + 8 <= cache_page(c, p).len() || j * 8 >= cache_page(
                c,
                p,
            ).len()) ==> #[trigger] fetch_spec(cache_page(c2, p), j) == fetch_spec(cache_page(c, p), j),
        lookup(c, root, level, ix) != 0,
    ensures
        lookup(c2, root, level, ix) == lookup(c, root, level, ix),
    decreases level,
{
    if level > 0 {
        let prev = lookup(c, root, (level - 1) as nat, ix / 494);
        if prev == 0 {
            assert(fetch_spec(Seq::<u8>::empty(), (ix % 494) as int) == 0);
        }
        lemma_lookup_assigned(c, c2, p, cix, root, (level - 1) as nat, ix / 494);
        let j = (ix % 494) as int;
        if prev == p {
            let d = cache_page(c, p);
            assert(fetch_spec(d, j) != 0);
            assert(j * 8 + 8 <= d.len());
        }
    }
}

/// Every page on the way to `level` for index `ix` (above `level`) is
/// cached, or is the null page.
pub open spec fn path_cached(c: Map<u64, (Seq<u8>, bool)>, root: u64, level: nat, ix: nat) -> bool
    decreases level,
{
    if level == 0 {
        true
    } else {
        let prev = lookup(c, root, (level - 1) as nat, ix / 494);
        &&& path_cached(c, root, (level - 1) as nat, ix / 494)
        &&& (prev == 0 || c.contains_key(prev))
    }
}

/// A cache that keeps the bytes of every cached page gives the same lookups
/// along a cached path.
pub proof fn lemma_lookup_frame(
    c: Map<u64, (Seq<u8>, bool)>,
    c2: Map<u64, (Seq<u8>, bool)>,
    root: u64,
    level: nat,
    ix: nat,
)
    requires
        forall|q: u64| #[trigger] c.contains_key(q) ==> c2.contains_key(q) && c2[q].0 == c[q].0,
        path_cached(c, root, level, ix),
    ensures
        lookup(c2, root, level, ix) == lookup(c, root, level, ix),
        path_cached(c2, root, level, ix),
    decreases level,
{
    if level > 0 {
        lemma_lookup_frame(c, c2, root, (level - 1) as nat, ix / 494);
        let prev = lookup(c, root, (level - 1) as nat, ix / 494);
        assert(cache_page(c2, prev) == cache_page(c, prev));
    }
}

/// Emptying one cached page keeps the pages on a cached path cached.
pub proof fn lemma_path_emptied(
    c: Map<u64, (Seq<u8>, bool)>,
    c2: Map<u64, (Seq<u8>, bool)>,
    p: u64,
    root: u64,
    level: nat,
    ix: nat,
)
    requires
        forall|q: u64| q != p ==> cache_page(c2, q) == #[trigger] cache_page(c, q),
        cache_page(c2, p).len() == 0,
        forall|q: u64| #[trigger] c.contains_key(q) ==> c2.contains_key(q),
        path_cached(c, root, level, ix),
    ensures
        path_cached(c2, root, level, ix),
    decreases level,
{
    if level > 0 {
        lemma_path_emptied(c, c2, p, root, (level - 1) as nat, ix / 494);
        lemma_lookup_emptied(c, c2, p, root, (level - 1) as nat, ix / 494);
    }
}

/// Setting a child of one cached page in a slot that held 0 keeps the pages
/// of a cached path that does not give 0 cached.
pub proof fn lemma_path_assigned(
    c: Map<u64, (Seq<u8>, bool)>,
    c2: Map<u64, (Seq<u8>, bool)>,
    p: u64,
    cix: int,
    root: u64,
    level: nat,
    ix: nat,
)
    requires
        forall|q: u64| q != p ==> cache_page(c2, q) == #[trigger] cache_page(c, q),
        forall|q: u64| #[trigger] c.contains_key(q) ==> c2.contains_key(q),
        fetch_spec(cache_page(c, p), cix) == 0,
        forall|j: int|
            0 <= j && j != cix && (j * 8 + 8 <= cache_page(c, p).len() || j * 8 >= cache_page(
                c,
                p,
            ).len()) ==> #[trigger] fetch_spec(cache_page(c2, p), j) == fetch_spec(cache_page(c, p), j),
        lookup(c, root, level, ix) != 0,
        path_cached(c, root, level, ix),
    ensures
        path_cached(c2, root, level, ix),
    decreases level,
{
    if level > 0 {
        let prev = lookup(c, root, (level - 1) as nat, ix / 494);
        if prev == 0 {
            assert(fetch_spec(Seq::<u8>::empty(), (ix % 494) as int) == 0);
        }
        lemma_path_assigned(c, c2, p, cix, root, (level - 1) as nat, ix / 494);
        lemma_lookup_assigned(c, c2, p, cix, root, (level - 1) as nat, ix / 494);
    }
}

/// Page `p` is one of the pages above `level` on the way to index `ix`.
pub open spec fn path_has(c: Map<u64, (Seq<u8>, bool)>, root: u64, level: nat, ix: nat, p: u64) -> bool
    decreases level,
{
    if level == 0 {
        false
    } else {
        lookup(c, root, (level - 1) as nat, ix / 494) == p || path_has(
            c,
            root,
            (level - 1) as nat,
            ix / 494,
            p,
        )
    }
}

/// Changing the bytes of page `p` changes no lookup whose way does not pass
/// through `p`, and a way that passed through `p` still does.
pub proof fn lemma_lookup_other(
    c: Map<u64, (Seq<u8>, bool)>,
    c2: Map<u64, (Seq<u8>, bool)>,
    p: u64,
    root: u64,
    level: nat,
    ix: nat,
)
    requires
        forall|q: u64| q != p ==> cache_page(c2, q) == #[trigger] cache_page(c, q),
    ensures
        !path_has(c, root, level, ix, p) ==> lookup(c2, root, level, ix) == lookup(c, root, level, ix)
            && !path_has(c2, root, level, ix, p),
        path_has(c, root, level, ix, p) ==> path_has(c2, root, level, ix, p),
    decreases level,
{
    if level > 0 {
        lemma_lookup_other(c, c2, p, root, (level - 1) as nat, ix / 494);
        let prev = lookup(c, root, (level - 1) as nat, ix / 494);
        if !path_has(c, root, level, ix, p) {
            assert(prev != p);
            assert(cache_page(c2, prev) == cache_page(c, prev));
        }
    }
}

/// Changing the bytes of a cached page `p` that is not on the way keeps the
/// pages on the way cached.
pub proof fn lemma_path_other(
    c: Map<u64, (Seq<u8>, bool)>,
    c2: Map<u64, (Seq<u8>, bool)>,
    p: u64,
    root: u64,
    level: nat,
    ix: nat,
)
    requires
        forall|q: u64| q != p ==> cache_page(c2, q) == #[trigger] cache_page(c, q),
        forall|q: u64| #[trigger] c.contains_key(q) ==> c2.contains_key(q),
        !path_has(c, root, level, ix, p),
        path_cached(c, root, level, ix),
    ensures
        path_cached(c2, root, level, ix),
    decreases level,
{
    if level > 0 {
        lemma_path_other(c, c2, p, root, (level - 1) as nat, ix / 494);
        lemma_lookup_other(c, c2, p, root, (level - 1) as nat, ix / 494);
    }
}

/// Cache `c2` keeps every page of cache `c`, with its changed flag, and its
/// bytes or none (what reading the tree does).
pub open spec fn reads_pages(c: Map<u64, (Seq<u8>, bool)>, c2: Map<u64, (Seq<u8>, bool)>) -> bool {
    forall|q: u64| #[trigger]
        c.contains_key(q) ==> c2.contains_key(q) && c2[q].1 == c[q].1 && (c2[q].0 == c[q].0
            || c2[q].0.len() == 0)
}

/// Cache `c2` keeps every page of cache `c`, with its changed flag.
pub open spec fn keeps_pages(c: Map<u64, (Seq<u8>, bool)>, c2: Map<u64, (Seq<u8>, bool)>) -> bool {
    forall|q: u64| #[trigger] c.contains_key(q) ==> c2.contains_key(q) && (c2[q].1 == c[q].1 || c2[q].1)
}

/// Tree of pages: a root page and `count` leaf page numbers below it.
pub struct PageTree {
    pub root: u64,
    pub count: u64,
    pub writing: bool,
    /// Root and/or count changed.
    pub new_root: bool,
}

impl PageTree {
    /// Create or restore a PageTree.
    pub fn new(root: u64, count: u64) -> (r: Self)
        ensures
            r.root == root,
            r.count == count,
            !r.new_root,
    {
        Self { root, count, writing: false, new_root: false }
    }

    /// Increase page count to specified value ( which must be >= current count ).
    pub fn resize(&mut self, ps: &mut PageSet, count: u64)
        requires
            count >= old(self).count,
            old(ps).writes(),
        ensures
            final(self).count == count,
            final(ps).writes(),
            keeps_pages(old(ps).cache(), final(ps).cache()),
    {
        self.adjust_count(ps, count);
    }

    /// Get a page number: the leaf page at index `pix`, making the missing
    /// pages on its way when `create`.
    pub fn get(&mut self, ps: &mut PageSet, pix: u64, create: bool) -> (r: u64)
        requires
            pix < old(self).count,
            create ==> old(ps).writes(),
        ensures
            r == lookup(final(ps).cache(), old(self).root, spec_levels(old(self).count as nat), pix as nat),
            path_cached(final(ps).cache(), old(self).root, spec_levels(old(self).count as nat), pix as nat),
            final(self).root == old(self).root,
            final(self).count == old(self).count,
            final(self).new_root == old(self).new_root,
            final(ps).writes() == old(ps).writes(),
            keeps_pages(old(ps).cache(), final(ps).cache()),
            !create ==> reads_pages(old(ps).cache(), final(ps).cache()),
            path_cached(old(ps).cache(), old(self).root, spec_levels(old(self).count as nat), pix as nat)
                && lookup(old(ps).cache(), old(self).root, spec_levels(old(self).count as nat), pix as nat) != 0
                ==> final(ps).cache() == old(ps).cache(),
    {
        self.writing = create;
        let levels = levels(self.count);
        let result = self.page(ps, levels, pix);
        self.writing = false;
        result
    }

    /// Free all the pages. PageTree is no longer useable.
    pub fn drop_pages(&mut self, ps: &mut PageSet)
        requires
            old(ps).writes(),
        ensures
            final(self).root == 0,
            final(self).count == 0,
            final(ps).writes(),
            old(self).root != 0 ==> !final(ps).cache().contains_key(old(self).root),
    {
        let mut count = self.count;
        let mut level = levels(self.count);
        self.writing = false;
        while level > 0
            invariant
                ps.writes(),
                !self.writing,
                self.root == old(self).root,
            decreases level,
        {
            let base = PAGE_SIZE / 8;  // Number of child pages per page.
            let mut ix: u64 = 0;
            while ix < count
                invariant
                    ps.writes(),
                    !self.writing,
                    level > 0,
                    self.root == old(self).root,
                decreases count - ix,
            {
                let pnum = self.page(ps, level, ix);
                if pnum != 0 {
                    ps.free_page(pnum);
                }
                ix += 1;
            }
            level -= 1;
            count = count / base + if count % base != 0 {
                1
            } else {
                0
            };
        }
        if self.root != 0 {
            ps.free_page(self.root);
        }
        self.root = 0;
        self.count = 0;
    }

    /// Get a page number at specified level.
    fn page(&mut self, ps: &mut PageSet, level: u8, ix: u64) -> (r: u64)
        requires
            old(self).writing ==> old(ps).writes(),
        ensures
            r == lookup(final(ps).cache(), old(self).root, level as nat, ix as nat),
            path_cached(final(ps).cache(), old(self).root, level as nat, ix as nat),
            *final(self) == *old(self),
            final(ps).writes() == old(ps).writes(),
            keeps_pages(old(ps).cache(), final(ps).cache()),
            !old(self).writing ==> reads_pages(old(ps).cache(), final(ps).cache()),
            path_cached(old(ps).cache(), old(self).root, level as nat, ix as nat)
                && lookup(old(ps).cache(), old(self).root, level as nat, ix as nat) != 0
                ==> final(ps).cache() == old(ps).cache(),
        decreases level,
    {
        if level > 0 {
            let base = PAGE_SIZE / 8;
            let pix = ix / base;
            let cix = ix % base;
            let ghost c0 = ps.cache();
            proof {
                assert(pix as nat == ix as nat / 494);
                if lookup(c0, self.root, (level - 1) as nat, pix as nat) == 0 {
                    lemma_lookup_zero(c0, self.root, level as nat, ix as nat);
                }
            }
            let parent_pnum = self.page(ps, level - 1, pix);
            self.get_child_page(ps, parent_pnum, cix as usize, Ghost(level as nat), Ghost(ix as nat))
        } else {
            self.root
        }
    }

    /// Get a child page at specified index.
    fn get_child_page(
        &mut self,
        ps: &mut PageSet,
        parent_pnum: u64,
        ix: usize,
        Ghost(level): Ghost<nat>,
        Ghost(full): Ghost<nat>,
    ) -> (r: u64)
        requires
            old(self).writing ==> old(ps).writes(),
            ix < 494,
            level > 0,
            ix == full % 494,
            parent_pnum == lookup(old(ps).cache(), old(self).root, (level - 1) as nat, full / 494),
            path_cached(old(ps).cache(), old(self).root, (level - 1) as nat, full / 494),
        ensures
            r == lookup(final(ps).cache(), old(self).root, level, full),
            path_cached(final(ps).cache(), old(self).root, level, full),
            *final(self) == *old(self),
            final(ps).writes() == old(ps).writes(),
            keeps_pages(old(ps).cache(), final(ps).cache()),
            !old(self).writing ==> reads_pages(old(ps).cache(), final(ps).cache()),
            (parent_pnum == 0 || old(ps).cache().contains_key(parent_pnum))
                && lookup(old(ps).cache(), old(self).root, level, full) != 0
                ==> final(ps).cache() == old(ps).cache(),
    {
        let ghost c0 = ps.cache();
        let ghost root = self.root;
        let ghost pix = full / 494;
        if parent_pnum == 0 {
            // The null page has no children (a tree whose root is the null
            // page is no longer usable).
            proof {
                lemma_lookup_zero(c0, root, level, full);
            }
            return 0;
        }
        let _ = ps.load(parent_pnum);
        let ghost c1 = ps.cache();
        proof {
            lemma_lookup_frame(c0, c1, root, (level - 1) as nat, pix);
        }
        let mut pp = ParentPage::from(ps.take_data(parent_pnum));
        let ghost c2 = ps.cache();
        let mut result = pp.fetch(ix);
        if result == 0 {
            if !self.writing {
                proof {
                    assert forall|q: u64| q != parent_pnum implies cache_page(c2, q) == #[trigger] cache_page(
                        c1,
                        q,
                    ) by {}
                    lemma_lookup_emptied(c1, c2, parent_pnum, root, (level - 1) as nat, pix);
                    lemma_path_emptied(c1, c2, parent_pnum, root, (level - 1) as nat, pix);
                    assert(fetch_spec(Seq::<u8>::empty(), ix as int) == 0);
                }
                return 0;
            }
            let ghost before = pp@;
            let child = ps.new_page();
            if child == 0 {
                // The page store has no page number left.
                ps.set_data(parent_pnum, pp.take());
                proof {
                    assert(ps.cache() =~= c1);
                }
                return 0;
            }
            result = child;
            pp.assign(ix, result);
            ps.set_changed(parent_pnum);
            ps.set_data(parent_pnum, pp.take());
            proof {
                let c3 = ps.cache();
                assert forall|q: u64| q != parent_pnum implies cache_page(c3, q) == #[trigger] cache_page(
                    c1,
                    q,
                ) by {}
                assert(cache_page(c1, parent_pnum) == before);
                assert(cache_page(c3, parent_pnum) == pp@);
                lemma_lookup_assigned(c1, c3, parent_pnum, ix as int, root, (level - 1) as nat, pix);
                lemma_path_assigned(c1, c3, parent_pnum, ix as int, root, (level - 1) as nat, pix);
            }
            return result;
        }
        ps.set_data(parent_pnum, pp.take());
        proof {
            let c3 = ps.cache();
            assert(c3 =~= c1);
        }
        result
    }

    /// Increase the count as specified, returns the number of levels.
    fn adjust_count(&mut self, ps: &mut PageSet, count: u64) -> (r: u8)
        requires
            old(ps).writes(),
        ensures
            count > old(self).count ==> final(self).count == count && final(self).new_root,
            count <= old(self).count ==> *final(self) == *old(self),
            final(ps).writes(),
            keeps_pages(old(ps).cache(), final(ps).cache()),
    {
        let mut level = levels(self.count);
        if count > self.count {
            let new_level = levels(count);
            while level < new_level
                invariant
                    ps.writes(),
                    keeps_pages(old(ps).cache(), ps.cache()),
                    self.count == old(self).count,
                decreases new_level - level,
            {
                self.inc_level(ps);
                level += 1;
            }
            self.count = count;
            self.new_root = true;
        }
        level
    }

    /// Increase the TreeVec level by creating a new root. The old root is stored in the new root at position 0.
    fn inc_level(&mut self, ps: &mut PageSet)
        requires
            old(ps).writes(),
        ensures
            final(self).count == old(self).count,
            final(self).new_root,
            final(ps).writes(),
            fetch_spec(final(ps).cache()[final(self).root].0, 0) == old(self).root,
            final(ps).cache() == old(ps).cache().insert(
                final(self).root,
                (final(ps).cache()[final(self).root].0, true),
            ),
    {
        let new_root = ps.new_page();
        let mut pp = ParentPage::new();
        pp.assign(0, self.root);
        ps.new_pdata(new_root, pp.take());
        self.root = new_root;
        self.new_root = true;
    }
}

} // verus!
