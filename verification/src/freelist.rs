//! Free space of a snapshot file: holes left by freed data, kept by location,
//! and the unbounded region from `end` on. Allocation is first fit; freeing
//! merges a region with the holes (or the unbounded region) it borders.
use vstd::prelude::*;
use crate::keyed::{
    keys_sorted, sorted_insert, lower_bound, index_of_key, last_below, find_key,
    find_last_below, insert_sorted, lemma_sorted_insert_split, lemma_lower_bound_range,
    lemma_index_of_key_range, lemma_last_below_range, lemma_sorted_insert_sorted,
    lemma_remove_sorted,
};

verus! {

/// A region of the snapshot file.
#[derive(Clone, Copy, Debug, PartialEq, Eq)]
pub struct Block {
    pub location: u64,
    pub size: u64,
}

impl Block {
    /// The region's end can be computed.
    pub open spec fn fits(self) -> bool {
        self.location + self.size <= u64::MAX
    }
}

/// Holes as `(location, size)` by increasing location, and the start of the
/// unbounded free region.
pub struct FreeList {
    pub holes: Vec<(u64, u64)>,
    pub end: u64,
}

pub struct FreeView {
    pub holes: Seq<(u64, u64)>,
    pub end: u64,
}

impl View for FreeList {
    type V = FreeView;

    open spec fn view(&self) -> FreeView {
        FreeView { holes: self.holes@, end: self.end }
    }
}

/// Locations strictly increase and every hole's end can be computed.
pub open spec fn free_wf(f: FreeView) -> bool {
    &&& keys_sorted(f.holes)
    &&& forall|i: int| 0 <= i < f.holes.len() ==> f.holes[i].0 + f.holes[i].1 <= u64::MAX
}

/// Besides `free_wf`: holes do not overlap and lie below the unbounded region.
pub open spec fn free_disjoint(f: FreeView) -> bool {
    &&& free_wf(f)
    &&& forall|i: int, j: int|
        0 <= i < j < f.holes.len() ==> f.holes[i].0 + f.holes[i].1 <= f.holes[j].0
    &&& forall|i: int| 0 <= i < f.holes.len() ==> f.holes[i].0 + f.holes[i].1 <= f.end
}

/// The byte positions that are free.
pub open spec fn free_set(f: FreeView) -> Set<int> {
    Set::new(
        |x: int|
            f.end <= x || exists|i: int| #![trigger f.holes[i]]
                0 <= i < f.holes.len() && f.holes[i].0 <= x < f.holes[i].0 + f.holes[i].1,
    )
}

/// The byte positions a block covers.
pub open spec fn block_set(b: Block) -> Set<int> {
    Set::new(|x: int| b.location <= x < b.location + b.size)
}

/// Index of the first hole with room for `size` bytes, or the number of holes.
pub open spec fn first_fit(h: Seq<(u64, u64)>, size: u64) -> int
    decreases h.len(),
{
    if h.len() == 0 {
        0
    } else if h[0].1 >= size {
        0
    } else {
        1 + first_fit(h.drop_first(), size)
    }
}

/// First fit: the first hole with room gives its front, and what is left of
/// it stays a hole; with no such hole the unbounded region gives its front.
pub open spec fn spec_allocate(f: FreeView, size: u64) -> (FreeView, Block) {
    let i = first_fit(f.holes, size);
    if i < f.holes.len() {
        let loc = f.holes[i].0;
        let hs = f.holes[i].1;
        let rest = f.holes.remove(i);
        (
            FreeView {
                holes: if hs > size {
                    sorted_insert(rest, (loc + size) as u64, (hs - size) as u64)
                } else {
                    rest
                },
                end: f.end,
            },
            Block { location: loc, size },
        )
    } else {
        (FreeView { holes: f.holes, end: (f.end + size) as u64 }, Block { location: f.end, size })
    }
}

/// Freeing: a block in the unbounded region is already free. Otherwise it is
/// joined with a hole that ends where it starts, then either joins the
/// unbounded region (when it reaches it) or is joined with a hole that starts
/// where it ends and becomes a hole.
pub open spec fn spec_deallocate(f: FreeView, b: Block) -> FreeView {
    if b.location >= f.end {
        f
    } else {
        let p = last_below(f.holes, b.location);
        let m = p >= 0 && f.holes[p].0 + f.holes[p].1 == b.location;
        let h1 = if m {
            f.holes.remove(p)
        } else {
            f.holes
        };
        let off: u64 = if m {
            f.holes[p].0
        } else {
            b.location
        };
        let size: int = if m {
            f.holes[p].1 + b.size
        } else {
            b.size as int
        };
        if off + size >= f.end {
            FreeView { holes: h1, end: off }
        } else {
            let n = index_of_key(h1, (off + size) as u64);
            if n < h1.len() {
                FreeView {
                    holes: sorted_insert(h1.remove(n), off, (size + h1[n].1) as u64),
                    end: f.end,
                }
            } else {
                FreeView { holes: sorted_insert(h1, off, size as u64), end: f.end }
            }
        }
    }
}

proof fn lemma_first_fit_range(h: Seq<(u64, u64)>, size: u64)
    ensures
        0 <= first_fit(h, size) <= h.len(),
        forall|j: int| 0 <= j < first_fit(h, size) ==> h[j].1 < size,
        first_fit(h, size) < h.len() ==> h[first_fit(h, size)].1 >= size,
    decreases h.len(),
{
    if h.len() > 0 && h[0].1 < size {
        let t = h.drop_first();
        lemma_first_fit_range(t, size);
        assert forall|j: int| 0 <= j < first_fit(h, size) implies h[j].1 < size by {
            if j > 0 {
                assert(h[j] == t[j - 1]);
            }
        }
        if first_fit(h, size) < h.len() {
            assert(h[first_fit(h, size)] == t[first_fit(t, size)]);
        }
    }
}

proof fn lemma_first_fit_at(h: Seq<(u64, u64)>, size: u64, i: int)
    requires
        0 <= i <= h.len(),
        forall|j: int| 0 <= j < i ==> h[j].1 < size,
        i == h.len() || h[i].1 >= size,
    ensures
        first_fit(h, size) == i,
    decreases i,
{
    if i > 0 {
        let t = h.drop_first();
        assert forall|j: int| 0 <= j < i - 1 implies t[j].1 < size by {
            assert(t[j] == h[j + 1]);
        }
        if i < h.len() {
            assert(t[i - 1] == h[i]);
        }
        lemma_first_fit_at(t, size, i - 1);
    }
}

pub proof fn lemma_first_fit_at_pub(h: Seq<(u64, u64)>, size: u64, i: int)
    requires
        0 <= i <= h.len(),
        forall|j: int| 0 <= j < i ==> h[j].1 < size,
        i == h.len() || h[i].1 >= size,
    ensures
        first_fit(h, size) == i,
{
    lemma_first_fit_at(h, size, i);
}

/// The block first fit hands out has the size asked for, and its end can be
/// computed.
pub(crate) proof fn lemma_allocate_fits(f: FreeView, size: u64)
    requires
        free_wf(f),
        first_fit(f.holes, size) == f.holes.len() ==> f.end + size <= u64::MAX,
    ensures
        spec_allocate(f, size).1.fits(),
        spec_allocate(f, size).1.size == size,
{
    lemma_first_fit_range(f.holes, size);
}

proof fn lemma_remove_keeps_fits(h: Seq<(u64, u64)>, i: int)
    requires
        0 <= i < h.len(),
        forall|j: int| 0 <= j < h.len() ==> h[j].0 + h[j].1 <= u64::MAX,
    ensures
        forall|j: int| 0 <= j < h.remove(i).len() ==> h.remove(i)[j].0 + h.remove(i)[j].1 <= u64::MAX,
{
    let r = h.remove(i);
    assert forall|j: int| 0 <= j < r.len() implies r[j].0 + r[j].1 <= u64::MAX by {
        if j < i {
            assert(r[j] == h[j]);
        } else {
            assert(r[j] == h[j + 1]);
        }
    }
}

proof fn lemma_insert_keeps_fits(h: Seq<(u64, u64)>, k: u64, v: u64)
    requires
        forall|j: int| 0 <= j < h.len() ==> h[j].0 + h[j].1 <= u64::MAX,
        k + v <= u64::MAX,
    ensures
        forall|j: int|
            0 <= j < sorted_insert(h, k, v).len() ==> sorted_insert(h, k, v)[j].0
                + sorted_insert(h, k, v)[j].1 <= u64::MAX,
{
    lemma_sorted_insert_split(h, k, v);
    lemma_lower_bound_range(h, k);
    let r = sorted_insert(h, k, v);
    let lb = lower_bound(h, k);
    assert forall|j: int| 0 <= j < r.len() implies r[j].0 + r[j].1 <= u64::MAX by {
        if j < lb {
            assert(r[j] == h[j]);
        } else if j == lb {
            assert(r[j] == (k, v));
        } else if lb < h.len() && h[lb].0 == k {
            assert(r[j] == h[j]);
        } else {
            assert(r[j] == h[j - 1]);
        }
    }
}

impl FreeList {
    /// Free space of a file whose first `start` bytes are in use and whose
    /// remainder is free.
    pub fn new(start: u64) -> (r: FreeList)
        ensures
            r@.holes.len() == 0,
            r@.end == start,
            free_disjoint(r@),
    {
        FreeList { holes: Vec::new(), end: start }
    }

    /// Takes `size` bytes by first fit.
    pub fn allocate(&mut self, size: u64) -> (b: Block)
        requires
            free_wf(old(self)@),
            first_fit(old(self)@.holes, size) == old(self)@.holes.len() ==> old(self)@.end + size
                <= u64::MAX,
        ensures
            (final(self)@, b) == spec_allocate(old(self)@, size),
            free_wf(final(self)@),
            b.fits(),
    {
        proof {
            lemma_first_fit_range(self.holes@, size);
        }
        let mut i: usize = 0;
        while i < self.holes.len() && self.holes[i].1 < size
            invariant
                0 <= i <= self.holes@.len(),
                forall|j: int| 0 <= j < i ==> self.holes@[j].1 < size,
            decreases self.holes@.len() - i,
        {
            i += 1;
        }
        proof {
            lemma_first_fit_at(self.holes@, size, i as int);
        }
        if i < self.holes.len() {
            let (loc, hs) = self.holes[i];
            proof {
                lemma_remove_sorted(self.holes@, i as int);
                lemma_remove_keeps_fits(self.holes@, i as int);
            }
            self.holes.remove(i);
            if hs > size {
                proof {
                    lemma_sorted_insert_sorted(self.holes@, (loc + size) as u64, (hs - size) as u64);
                    lemma_insert_keeps_fits(self.holes@, (loc + size) as u64, (hs - size) as u64);
                }
                insert_sorted(&mut self.holes, loc + size, hs - size);
            }
            Block { location: loc, size }
        } else {
            let location = self.end;
            self.end = self.end + size;
            Block { location, size }
        }
    }

    /// Gives a block back.
    pub fn deallocate(&mut self, b: Block)
        requires
            free_wf(old(self)@),
            b.fits(),
        ensures
            final(self)@ == spec_deallocate(old(self)@, b),
            free_wf(final(self)@),
    {
        if b.location >= self.end {
            return ;
        }
        let ghost f = self@;
        let mut off = b.location;
        let mut size = b.size;
        let p = find_last_below(&self.holes, off);
        proof {
            lemma_last_below_range(f.holes, off);
        }
        match p {
            Some(pi) => {
                let (ploc, psize) = self.holes[pi];
                if ploc + psize == off {
                    proof {
                        lemma_remove_sorted(self.holes@, pi as int);
                        lemma_remove_keeps_fits(self.holes@, pi as int);
                    }
                    self.holes.remove(pi);
                    off = ploc;
                    size = psize + size;
                }
            },
            None => {},
        }
        let ghost h1 = self.holes@;
        if off as u128 + size as u128 >= self.end as u128 {
            self.end = off;
            return ;
        }
        let n = find_key(&self.holes, off + size);
        proof {
            lemma_index_of_key_range(h1, (off + size) as u64);
        }
        if n < self.holes.len() {
            let nsize = self.holes[n].1;
            proof {
                lemma_remove_sorted(self.holes@, n as int);
                lemma_remove_keeps_fits(self.holes@, n as int);
            }
            self.holes.remove(n);
            proof {
                lemma_sorted_insert_sorted(self.holes@, off, (size + nsize) as u64);
                lemma_insert_keeps_fits(self.holes@, off, (size + nsize) as u64);
            }
            insert_sorted(&mut self.holes, off, size + nsize);
        } else {
            proof {
                lemma_sorted_insert_sorted(self.holes@, off, size);
                lemma_insert_keeps_fits(self.holes@, off, size);
            }
            insert_sorted(&mut self.holes, off, size);
        }
    }
}

/// `x` lies in hole `i` of `h`.
pub open spec fn in_hole(h: Seq<(u64, u64)>, i: int, x: int) -> bool {
    0 <= i < h.len() && h[i].0 <= x < h[i].0 + h[i].1
}

proof fn lemma_free_witness(f: FreeView, x: int) -> (i: int)
    requires
        free_set(f).contains(x),
        x < f.end,
    ensures
        in_hole(f.holes, i, x),
{
    choose|i: int| #![trigger f.holes[i]] 0 <= i < f.holes.len() && f.holes[i].0 <= x < f.holes[i].0 + f.holes[i].1
}

proof fn lemma_free_from_hole(f: FreeView, i: int, x: int)
    requires
        in_hole(f.holes, i, x),
    ensures
        free_set(f).contains(x),
{
    assert(f.holes[i].0 <= x < f.holes[i].0 + f.holes[i].1);
}

/// Allocation takes free space: the block was free, and exactly the block
/// stops being free; holes stay disjoint and below the unbounded region.
#[verifier::rlimit(40)]
#[verifier::spinoff_prover]
pub proof fn lemma_allocate_takes_free(f: FreeView, size: u64)
    requires
        free_disjoint(f),
        first_fit(f.holes, size) == f.holes.len() ==> f.end + size <= u64::MAX,
    ensures
        ({
            let (g, b) = spec_allocate(f, size);
            &&& free_disjoint(g)
            &&& block_set(b).subset_of(free_set(f))
            &&& free_set(g) == free_set(f).difference(block_set(b))
        }),
{
    let (g, b) = spec_allocate(f, size);
    let h = f.holes;
    lemma_first_fit_range(h, size);
    let i = first_fit(h, size);
    if i < h.len() {
        let loc = h[i].0;
        let hs = h[i].1;
        let rest = h.remove(i);
        let k = (loc + size) as u64;
        let v = (hs - size) as u64;
        if hs > size {
            // the rest of the hole stays where it was in the order
            assert forall|j: int| 0 <= j < i implies rest[j].0 < k by {
                assert(rest[j] == h[j]);
            }
            if i < rest.len() {
                assert(rest[i] == h[i + 1]);
            }
            crate::keyed::lemma_lower_bound_at(rest, k, i);
            crate::keyed::lemma_sorted_insert_split(rest, k, v);
            assert(g.holes =~= h.update(i, (k, v)));
        } else {
            assert(g.holes =~= h.remove(i));
        }
        let gh = g.holes;
        // disjointness
        assert forall|a: int, c: int| 0 <= a < c < gh.len() implies gh[a].0 + gh[a].1 <= gh[c].0 by {
            if hs > size {
                if a == i {
                    assert(h[i].0 + h[i].1 <= h[c].0);
                } else if c == i {
                    assert(h[a].0 + h[a].1 <= h[i].0);
                } else {
                    assert(gh[a] == h[a] && gh[c] == h[c]);
                }
            } else {
                let a2 = if a < i { a } else { a + 1 };
                let c2 = if c < i { c } else { c + 1 };
                assert(gh[a] == h[a2] && gh[c] == h[c2]);
            }
        }
        assert forall|a: int| 0 <= a < gh.len() implies gh[a].0 + gh[a].1 <= g.end && gh[a].0 + gh[a].1 <= u64::MAX by {
            if hs > size {
                if a != i {
                    assert(gh[a] == h[a]);
                }
            } else {
                let a2 = if a < i { a } else { a + 1 };
                assert(gh[a] == h[a2]);
            }
        }
        assert(keys_sorted(gh)) by {
            assert forall|a: int, c: int| 0 <= a < c < gh.len() implies gh[a].0 < gh[c].0 by {
                if hs > size {
                    if a == i {
                        assert(h[i].0 + h[i].1 <= h[c].0);
                    } else if c == i {
                        assert(h[a].0 < h[i].0);
                    } else {
                        assert(gh[a] == h[a] && gh[c] == h[c]);
                    }
                } else {
                    let a2 = if a < i { a } else { a + 1 };
                    let c2 = if c < i { c } else { c + 1 };
                    assert(gh[a] == h[a2] && gh[c] == h[c2]);
                }
            }
        }
        // the block was free
        assert forall|x: int| block_set(b).contains(x) implies free_set(f).contains(x) by {
            lemma_free_from_hole(f, i, x);
        }
        // exactly the block stops being free
        assert forall|x: int| free_set(g).contains(x) <==> free_set(f).difference(block_set(b)).contains(x) by {
            if free_set(g).contains(x) {
                if x >= f.end {
                    assert(!block_set(b).contains(x));
                } else {
                    let j = lemma_free_witness(g, x);
                    if hs > size {
                        if j == i {
                            lemma_free_from_hole(f, i, x);
                        } else {
                            assert(gh[j] == h[j]);
                            lemma_free_from_hole(f, j, x);
                            if j < i {
                                assert(h[j].0 + h[j].1 <= h[i].0);
                            } else {
                                assert(h[i].0 + h[i].1 <= h[j].0);
                            }
                        }
                    } else {
                        let j2 = if j < i { j } else { j + 1 };
                        assert(gh[j] == h[j2]);
                        lemma_free_from_hole(f, j2, x);
                        if j2 < i {
                            assert(h[j2].0 + h[j2].1 <= h[i].0);
                        } else {
                            assert(h[i].0 + h[i].1 <= h[j2].0);
                        }
                    }
                }
            }
            if free_set(f).difference(block_set(b)).contains(x) {
                if x < f.end {
                    let j = lemma_free_witness(f, x);
                    if hs > size {
                        if j == i {
                            lemma_free_from_hole(g, i, x);
                        } else {
                            assert(gh[j] == h[j]);
                            lemma_free_from_hole(g, j, x);
                        }
                    } else {
                        if j == i {
                            assert(false);
                        } else {
                            let j2 = if j < i { j } else { j - 1 };
                            assert(gh[j2] == h[j]);
                            lemma_free_from_hole(g, j2, x);
                        }
                    }
                }
            }
        }
        assert(free_set(g) =~= free_set(f).difference(block_set(b)));
    } else {
        assert forall|x: int| block_set(b).contains(x) implies free_set(f).contains(x) by {}
        assert forall|x: int| free_set(g).contains(x) <==> free_set(f).difference(block_set(b)).contains(x) by {
            if free_set(g).contains(x) && x < g.end {
                let j = lemma_free_witness(g, x);
                lemma_free_from_hole(f, j, x);
            }
            if free_set(f).difference(block_set(b)).contains(x) && x < f.end {
                let j = lemma_free_witness(f, x);
                lemma_free_from_hole(g, j, x);
            }
        }
        assert(free_set(g) =~= free_set(f).difference(block_set(b)));
    }
}

/// The byte positions of a hole.
pub open spec fn span(h: (u64, u64)) -> Set<int> {
    Set::new(|x: int| h.0 <= x < h.0 + h.1)
}

/// The byte positions of the holes `h[lo..hi]`.
pub open spec fn holes_between(h: Seq<(u64, u64)>, lo: int, hi: int) -> Set<int> {
    Set::new(|x: int| exists|i: int| #![trigger h[i]] lo <= i < hi && h[i].0 <= x < h[i].0 + h[i].1)
}

/// Besides `free_disjoint`: no hole is empty.
pub open spec fn free_exact(f: FreeView) -> bool {
    &&& free_disjoint(f)
    &&& forall|i: int| 0 <= i < f.holes.len() ==> f.holes[i].1 > 0
}

/// Replacing the holes `h[lo..hi]` with one hole `new` that covers them and
/// the block, and nothing else, frees exactly the block.
proof fn lemma_splice(f: FreeView, b: Block, lo: int, hi: int, new: (u64, u64))
    requires
        free_exact(f),
        block_set(b).disjoint(free_set(f)),
        0 <= lo <= hi <= f.holes.len(),
        span(new) == block_set(b).union(holes_between(f.holes, lo, hi)),
        lo > 0 ==> f.holes[lo - 1].0 + f.holes[lo - 1].1 <= new.0,
        hi < f.holes.len() ==> new.0 + new.1 <= f.holes[hi].0,
        lo > 0 ==> f.holes[lo - 1].0 < new.0,
        new.0 + new.1 <= f.end,
        new.1 > 0,
    ensures
        ({
            let g = FreeView {
                holes: f.holes.subrange(0, lo) + seq![new] + f.holes.subrange(hi, f.holes.len() as int),
                end: f.end,
            };
            &&& free_exact(g)
            &&& free_set(g) == free_set(f).union(block_set(b))
        }),
{
    let h = f.holes;
    let gh = h.subrange(0, lo) + seq![new] + h.subrange(hi, h.len() as int);
    let g = FreeView { holes: gh, end: f.end };
    assert(gh.len() == lo + 1 + h.len() - hi);
    assert forall|j: int| 0 <= j < lo implies gh[j] == h[j] by {}
    assert(gh[lo] == new);
    assert forall|j: int| lo < j < gh.len() implies gh[j] == h[j - lo - 1 + hi] by {}
    // order and disjointness
    assert forall|a: int, c: int| 0 <= a < c < gh.len() implies gh[a].0 + gh[a].1 <= gh[c].0 && gh[a].0 < gh[c].0 by {
        if c < lo {
        } else if c == lo {
            assert(h[a].0 + h[a].1 <= h[lo - 1].0 + h[lo - 1].1 || a == lo - 1) by {
                if a < lo - 1 {
                    assert(h[a].0 + h[a].1 <= h[lo - 1].0);
                }
            }
        } else if a < lo {
            let c2 = c - lo - 1 + hi;
            assert(h[a].0 + h[a].1 <= h[c2].0);
        } else if a == lo {
            let c2 = c - lo - 1 + hi;
            if c2 > hi {
                assert(h[hi].0 + h[hi].1 <= h[c2].0);
            }
        } else {
            let a2 = a - lo - 1 + hi;
            let c2 = c - lo - 1 + hi;
            assert(h[a2].0 + h[a2].1 <= h[c2].0);
        }
    }
    assert forall|a: int| 0 <= a < gh.len() implies gh[a].0 + gh[a].1 <= g.end && gh[a].0 + gh[a].1 <= u64::MAX && gh[a].1 > 0 by {
        if a < lo {
        } else if a > lo {
            assert(gh[a] == h[a - lo - 1 + hi]);
        }
    }
    assert(keys_sorted(gh));
    // free space
    assert forall|x: int| free_set(g).contains(x) <==> free_set(f).union(block_set(b)).contains(x) by {
        if free_set(g).contains(x) && x < g.end {
            let j = lemma_free_witness(g, x);
            if j < lo {
                lemma_free_from_hole(f, j, x);
            } else if j == lo {
                assert(span(new).contains(x));
                if !(b.location <= x < b.location + b.size) {
                    assert(holes_between(h, lo, hi).contains(x));
                    let i = choose|i: int| #![trigger h[i]] lo <= i < hi && h[i].0 <= x < h[i].0 + h[i].1;
                    lemma_free_from_hole(f, i, x);
                }
            } else {
                lemma_free_from_hole(f, j - lo - 1 + hi, x);
            }
        }
        if free_set(f).union(block_set(b)).contains(x) {
            if block_set(b).contains(x) {
                assert(span(new).contains(x));
                lemma_free_from_hole(g, lo, x);
            } else if x < f.end {
                let i = lemma_free_witness(f, x);
                if i < lo {
                    lemma_free_from_hole(g, i, x);
                } else if i < hi {
                    assert(lo <= i < hi && h[i].0 <= x < h[i].0 + h[i].1);
                    assert(holes_between(h, lo, hi).contains(x));
                    assert(span(new).contains(x));
                    lemma_free_from_hole(g, lo, x);
                } else {
                    assert(gh[i - hi + lo + 1] == h[i]);
                    lemma_free_from_hole(g, i - hi + lo + 1, x);
                }
            }
        }
    }
    assert(free_set(g) =~= free_set(f).union(block_set(b)));
}

/// Where a block that is not free lies among the holes.
proof fn lemma_dealloc_facts(f: FreeView, b: Block)
    requires
        free_exact(f),
        b.fits(),
        b.size > 0,
        block_set(b).disjoint(free_set(f)),
    ensures
        b.location < f.end,
        b.location + b.size <= f.end,
        -1 <= last_below(f.holes, b.location) < f.holes.len(),
        forall|i: int|
            0 <= i <= last_below(f.holes, b.location) ==> f.holes[i].0 < b.location && f.holes[i].0
                + f.holes[i].1 <= b.location,
        forall|i: int|
            last_below(f.holes, b.location) < i < f.holes.len() ==> f.holes[i].0 >= b.location
                + b.size,
{
    let h = f.holes;
    let loc = b.location;
    let bs = b.size;
    let e = f.end;
    if loc >= e {
        assert(free_set(f).contains(loc as int));
        assert(block_set(b).contains(loc as int));
        assert(false);
    }
    if loc + bs > e {
        assert(free_set(f).contains(e as int));
        assert(block_set(b).contains(e as int));
        assert(false);
    }
    lemma_last_below_range(h, loc);
    let p = last_below(h, loc);
    if p >= 0 && h[p].0 + h[p].1 > loc {
        lemma_free_from_hole(f, p, loc as int);
        assert(block_set(b).contains(loc as int));
        assert(false);
    }
    assert forall|i: int| p < i < h.len() implies h[i].0 >= loc + bs by {
        if h[i].0 < loc + bs {
            lemma_free_from_hole(f, i, h[i].0 as int);
            assert(block_set(b).contains(h[i].0 as int));
        }
    }
    assert forall|i: int| 0 <= i <= p implies h[i].0 < loc && h[i].0 + h[i].1 <= loc by {
        if i < p {
            assert(h[i].0 + h[i].1 <= h[p].0);
        }
    }
}

/// Freeing a block that reaches the unbounded region.
#[verifier::rlimit(40)]
#[verifier::spinoff_prover]
proof fn lemma_dealloc_tail(f: FreeView, b: Block)
    requires
        free_exact(f),
        b.fits(),
        b.size > 0,
        block_set(b).disjoint(free_set(f)),
        b.location + b.size == f.end,
        -1 <= last_below(f.holes, b.location) < f.holes.len(),
        forall|i: int|
            0 <= i <= last_below(f.holes, b.location) ==> f.holes[i].0 < b.location && f.holes[i].0
                + f.holes[i].1 <= b.location,
        forall|i: int|
            last_below(f.holes, b.location) < i < f.holes.len() ==> f.holes[i].0 >= b.location
                + b.size,
    ensures
        free_exact(spec_deallocate(f, b)),
        free_set(spec_deallocate(f, b)) == free_set(f).union(block_set(b)),
{
    let h = f.holes;
    let loc = b.location;
    let p = last_below(h, loc);
    let m = p >= 0 && h[p].0 + h[p].1 == loc;
    let h1 = if m {
        h.remove(p)
    } else {
        h
    };
    let off: u64 = if m {
        h[p].0
    } else {
        loc
    };
    let g = spec_deallocate(f, b);
    if p + 1 < h.len() {
        assert(h[p + 1].0 >= loc + b.size);
        assert(h[p + 1].1 > 0);
        assert(false);
    }
    assert(g == FreeView { holes: h1, end: off });
    assert forall|j: int| 0 <= j < h1.len() implies h1[j] == h[j] by {}
    assert forall|a: int, c: int| 0 <= a < c < h1.len() implies h1[a].0 + h1[a].1 <= h1[c].0 && h1[a].0 < h1[c].0 by {}
    assert forall|a: int| 0 <= a < h1.len() implies h1[a].0 + h1[a].1 <= off && h1[a].0 + h1[a].1 <= u64::MAX && h1[a].1 > 0 by {
        if m {
            assert(h[a].0 + h[a].1 <= h[p].0);
        }
    }
    assert forall|x: int| free_set(g).contains(x) <==> free_set(f).union(block_set(b)).contains(x) by {
        if free_set(g).contains(x) {
            if x < off {
                let j = lemma_free_witness(g, x);
                lemma_free_from_hole(f, j, x);
            } else if x < loc {
                lemma_free_from_hole(f, p, x);
            }
        }
        if free_set(f).union(block_set(b)).contains(x) && x < off {
            assert(!block_set(b).contains(x));
            let i = lemma_free_witness(f, x);
            assert(i != p || !m);
            lemma_free_from_hole(g, i, x);
        }
    }
    assert(free_set(g) =~= free_set(f).union(block_set(b)));
}

/// For a block below the unbounded region: the holes `h[lo..hi]` it joins
/// and the hole they make together.
pub open spec fn dealloc_parts(f: FreeView, b: Block) -> (int, int, (u64, u64)) {
    let h = f.holes;
    let loc = b.location;
    let p = last_below(h, loc);
    let m = p >= 0 && h[p].0 + h[p].1 == loc;
    let q = p + 1;
    let next = q < h.len() && h[q].0 == loc + b.size;
    let lo = if m {
        p
    } else {
        p + 1
    };
    let hi = if next {
        q + 1
    } else {
        q
    };
    let off = if m {
        h[p].0
    } else {
        loc
    };
    let total = (if m {
        h[p].1 as int
    } else {
        0
    }) + b.size + (if next {
        h[q].1 as int
    } else {
        0
    });
    (lo, hi, (off, total as u64))
}

proof fn lemma_next_index(h1: Seq<(u64, u64)>, q1: int, k: u64)
    requires
        keys_sorted(h1),
        0 <= q1 <= h1.len(),
        forall|j: int| 0 <= j < q1 ==> h1[j].0 < k,
        q1 < h1.len() ==> h1[q1].0 >= k,
    ensures
        index_of_key(h1, k) == (if q1 < h1.len() && h1[q1].0 == k {
            q1
        } else {
            h1.len() as int
        }),
{
    if q1 < h1.len() && h1[q1].0 == k {
        crate::keyed::lemma_index_of_key_at(h1, k, q1);
    } else {
        assert forall|j: int| 0 <= j < h1.len() implies h1[j].0 != k by {
            if j > q1 {
                assert(h1[q1].0 < h1[j].0);
            }
        }
        crate::keyed::lemma_index_of_key_at(h1, k, h1.len() as int);
    }
}

proof fn lemma_insert_at(h2: Seq<(u64, u64)>, q1: int, off: u64, v: u64)
    requires
        0 <= q1 <= h2.len(),
        forall|j: int| 0 <= j < q1 ==> h2[j].0 < off,
        q1 < h2.len() ==> h2[q1].0 > off,
    ensures
        sorted_insert(h2, off, v) == h2.subrange(0, q1) + seq![(off, v)] + h2.subrange(q1, h2.len() as int),
{
    crate::keyed::lemma_lower_bound_at(h2, off, q1);
    crate::keyed::lemma_sorted_insert_split(h2, off, v);
}

#[verifier::rlimit(100)]
#[verifier::spinoff_prover]
proof fn lemma_dealloc_shape(f: FreeView, b: Block)
    requires
        free_exact(f),
        b.fits(),
        b.size > 0,
        b.location + b.size < f.end,
        -1 <= last_below(f.holes, b.location) < f.holes.len(),
        forall|i: int|
            0 <= i <= last_below(f.holes, b.location) ==> f.holes[i].0 < b.location && f.holes[i].0
                + f.holes[i].1 <= b.location,
        forall|i: int|
            last_below(f.holes, b.location) < i < f.holes.len() ==> f.holes[i].0 >= b.location
                + b.size,
    ensures
        ({
            let (lo, hi, new) = dealloc_parts(f, b);
            &&& 0 <= lo <= hi <= f.holes.len()
            &&& spec_deallocate(f, b).holes == f.holes.subrange(0, lo) + seq![new] + f.holes.subrange(hi, f.holes.len() as int)
            &&& spec_deallocate(f, b).end == f.end
        }),
{
    let h = f.holes;
    let loc = b.location;
    let bs = b.size;
    let p = last_below(h, loc);
    let m = p >= 0 && h[p].0 + h[p].1 == loc;
    let h1 = if m {
        h.remove(p)
    } else {
        h
    };
    let off: u64 = if m {
        h[p].0
    } else {
        loc
    };
    let q1 = if m {
        p
    } else {
        p + 1
    };
    let (lo, hi, new) = dealloc_parts(f, b);
    let q = p + 1;
    let k = (loc + bs) as u64;
    let next = q < h.len() && h[q].0 == k;
    assert(h1 =~= h.subrange(0, q1) + h.subrange(q, h.len() as int));
    assert(keys_sorted(h1)) by {
        if m {
            crate::keyed::lemma_remove_sorted(h, p);
        }
    }
    if q < h.len() {
        assert(h1[q1] == h[q]);
    }
    lemma_next_index(h1, q1, k);
    let h2 = if next {
        h1.remove(q1)
    } else {
        h1
    };
    assert(h2 =~= h.subrange(0, q1) + h.subrange(hi, h.len() as int));
    if q1 < h2.len() {
        assert(h2[q1] == h[hi]);
        assert(h[hi].0 >= k);
        if next {
            assert(h[q].0 + h[q].1 <= h[hi].0);
        }
    }
    assert forall|j: int| 0 <= j < q1 implies h2[j].0 < off by {
        assert(h2[j] == h[j]);
        if m {
            assert(h[j].0 < h[p].0);
        }
    }
    lemma_insert_at(h2, q1, off, new.1);
    assert(spec_deallocate(f, b).holes == sorted_insert(h2, off, new.1));
    assert(spec_deallocate(f, b).holes =~= h.subrange(0, lo) + seq![new] + h.subrange(hi, h.len() as int));
}

#[verifier::rlimit(40)]
#[verifier::spinoff_prover]
proof fn lemma_dealloc_span(f: FreeView, b: Block)
    requires
        free_exact(f),
        b.fits(),
        b.size > 0,
        b.location + b.size < f.end,
        -1 <= last_below(f.holes, b.location) < f.holes.len(),
        forall|i: int|
            0 <= i <= last_below(f.holes, b.location) ==> f.holes[i].0 < b.location && f.holes[i].0
                + f.holes[i].1 <= b.location,
        forall|i: int|
            last_below(f.holes, b.location) < i < f.holes.len() ==> f.holes[i].0 >= b.location
                + b.size,
    ensures
        ({
            let (lo, hi, new) = dealloc_parts(f, b);
            &&& span(new) == block_set(b).union(holes_between(f.holes, lo, hi))
            &&& lo > 0 ==> f.holes[lo - 1].0 + f.holes[lo - 1].1 <= new.0
            &&& hi < f.holes.len() ==> new.0 + new.1 <= f.holes[hi].0
            &&& lo > 0 ==> f.holes[lo - 1].0 < new.0
            &&& new.0 + new.1 <= f.end
            &&& new.1 > 0
        }),
{
    let h = f.holes;
    let loc = b.location;
    let p = last_below(h, loc);
    let m = p >= 0 && h[p].0 + h[p].1 == loc;
    let q = p + 1;
    let next = q < h.len() && h[q].0 == loc + b.size;
    let (lo, hi, new) = dealloc_parts(f, b);
    assert forall|x: int| span(new).contains(x) <==> block_set(b).union(holes_between(h, lo, hi)).contains(x) by {
        if span(new).contains(x) && !block_set(b).contains(x) {
            if x < loc {
                assert(m);
                assert(lo <= p < hi && h[p].0 <= x < h[p].0 + h[p].1);
            } else {
                assert(next);
                assert(lo <= q < hi && h[q].0 <= x < h[q].0 + h[q].1);
            }
        }
        if holes_between(h, lo, hi).contains(x) {
            let i = choose|i: int| #![trigger h[i]] lo <= i < hi && h[i].0 <= x < h[i].0 + h[i].1;
            assert(i == p || i == q);
        }
    }
    assert(span(new) =~= block_set(b).union(holes_between(h, lo, hi)));
    if lo > 0 {
        if m {
            assert(h[lo - 1].0 + h[lo - 1].1 <= h[p].0);
        }
    }
    if hi < h.len() {
        if next {
            assert(h[q].0 + h[q].1 <= h[hi].0);
        }
    }
    if next {
        assert(h[q].0 + h[q].1 <= f.end);
    }
}

/// Freeing gives space back: when the block is not free, exactly the block
/// becomes free, and holes stay disjoint, non-empty and below the unbounded
/// region.
pub proof fn lemma_deallocate_frees(f: FreeView, b: Block)
    requires
        free_exact(f),
        b.fits(),
        b.size > 0,
        block_set(b).disjoint(free_set(f)),
    ensures
        free_exact(spec_deallocate(f, b)),
        free_set(spec_deallocate(f, b)) == free_set(f).union(block_set(b)),
{
    lemma_dealloc_facts(f, b);
    if b.location + b.size == f.end {
        lemma_dealloc_tail(f, b);
    } else {
        lemma_dealloc_shape(f, b);
        lemma_dealloc_span(f, b);
        let (lo, hi, new) = dealloc_parts(f, b);
        lemma_splice(f, b, lo, hi, new);
    }
}

/// Allocation keeps every hole non-empty.
pub proof fn lemma_allocate_exact(f: FreeView, size: u64)
    requires
        free_exact(f),
        first_fit(f.holes, size) == f.holes.len() ==> f.end + size <= u64::MAX,
    ensures
        free_exact(spec_allocate(f, size).0),
{
    lemma_allocate_takes_free(f, size);
    let h = f.holes;
    let g = spec_allocate(f, size).0;
    lemma_first_fit_range(h, size);
    let i = first_fit(h, size);
    if i < h.len() {
        let rest = h.remove(i);
        let k = (h[i].0 + size) as u64;
        let v = (h[i].1 - size) as u64;
        assert forall|j: int| 0 <= j < rest.len() implies rest[j].1 > 0 by {
            if j < i {
                assert(rest[j] == h[j]);
            } else {
                assert(rest[j] == h[j + 1]);
            }
        }
        if h[i].1 > size {
            crate::keyed::lemma_sorted_insert_split(rest, k, v);
            lemma_lower_bound_range(rest, k);
            let lb = lower_bound(rest, k);
            assert forall|j: int| 0 <= j < g.holes.len() implies g.holes[j].1 > 0 by {
                if j < lb {
                    assert(g.holes[j] == rest[j]);
                } else if j == lb {
                } else if lb < rest.len() && rest[lb].0 == k {
                    assert(g.holes[j] == rest[j]);
                } else {
                    assert(g.holes[j] == rest[j - 1]);
                }
            }
        }
    }
}

/// Besides `free_exact`: no two holes touch, and no hole touches the
/// unbounded region, so that each run of free space is one entry.
pub open spec fn free_apart(f: FreeView) -> bool {
    &&& free_exact(f)
    &&& forall|i: int, j: int|
        0 <= i < j < f.holes.len() ==> f.holes[i].0 + f.holes[i].1 < f.holes[j].0
    &&& forall|i: int| 0 <= i < f.holes.len() ==> f.holes[i].0 + f.holes[i].1 < f.end
}

/// A block that ends at the unbounded region joins it, with the hole before
/// it when that hole touches it.
#[verifier::rlimit(60)]
#[verifier::spinoff_prover]
proof fn lemma_dealloc_apart_tail(f: FreeView, b: Block)
    requires
        free_apart(f),
        b.fits(),
        b.size > 0,
        block_set(b).disjoint(free_set(f)),
        b.location < f.end,
        b.location + b.size <= f.end,
        -1 <= last_below(f.holes, b.location) < f.holes.len(),
        forall|i: int|
            0 <= i <= last_below(f.holes, b.location) ==> f.holes[i].0 < b.location && f.holes[i].0
                + f.holes[i].1 <= b.location,
        forall|i: int|
            last_below(f.holes, b.location) < i < f.holes.len() ==> f.holes[i].0 >= b.location
                + b.size,
        b.location + b.size == f.end,
    ensures
        free_apart(spec_deallocate(f, b)),
{
    lemma_deallocate_frees(f, b);
    let h = f.holes;
    let g = spec_deallocate(f, b);
    let loc = b.location;
    let p = last_below(h, loc);
    let m = p >= 0 && h[p].0 + h[p].1 == loc;
    // The block joins the unbounded region; no hole lies above it.
    assert(p == h.len() - 1) by {
        if p < h.len() - 1 {
            let k = h.len() - 1;
            assert(h[k].0 >= loc + b.size);
            assert(h[k].0 + h[k].1 <= f.end);
        }
    }
    let off: u64 = if m {
        h[p].0
    } else {
        loc
    };
    assert(g.end == off);
    if m {
        assert(g.holes == h.remove(p));
        assert forall|i: int| 0 <= i < g.holes.len() implies g.holes[i].0 + g.holes[i].1 < g.end by {
            assert(g.holes[i] == h[i]);
        }
        assert forall|i: int, j: int| 0 <= i < j < g.holes.len() implies g.holes[i].0
            + g.holes[i].1 < g.holes[j].0 by {
            assert(g.holes[i] == h[i]);
            assert(g.holes[j] == h[j]);
        }
    } else {
        assert(g.holes == h);
        assert forall|i: int| 0 <= i < g.holes.len() implies g.holes[i].0 + g.holes[i].1 < g.end by {
            if i < p {
                assert(h[i].0 + h[i].1 < h[p].0);
            }
        }
    }
}

/// A block below the unbounded region becomes one hole with the holes that
/// touch it.
#[verifier::rlimit(60)]
#[verifier::spinoff_prover]
proof fn lemma_dealloc_apart_join(f: FreeView, b: Block)
    requires
        free_apart(f),
        b.fits(),
        b.size > 0,
        block_set(b).disjoint(free_set(f)),
        b.location < f.end,
        b.location + b.size <= f.end,
        -1 <= last_below(f.holes, b.location) < f.holes.len(),
        forall|i: int|
            0 <= i <= last_below(f.holes, b.location) ==> f.holes[i].0 < b.location && f.holes[i].0
                + f.holes[i].1 <= b.location,
        forall|i: int|
            last_below(f.holes, b.location) < i < f.holes.len() ==> f.holes[i].0 >= b.location
                + b.size,
        b.location + b.size < f.end,
    ensures
        free_apart(spec_deallocate(f, b)),
{
    lemma_deallocate_frees(f, b);
    let h = f.holes;
    let g = spec_deallocate(f, b);
    let loc = b.location;
    let p = last_below(h, loc);
    let m = p >= 0 && h[p].0 + h[p].1 == loc;
    lemma_dealloc_shape(f, b);
    lemma_dealloc_span(f, b);
    let (lo, hi, new) = dealloc_parts(f, b);
    let q = p + 1;
    let next = q < h.len() && h[q].0 == loc + b.size;
    let gh = g.holes;
    assert(gh == h.subrange(0, lo) + seq![new] + h.subrange(hi, h.len() as int));
    assert forall|j: int| 0 <= j < lo implies gh[j] == h[j] by {}
    assert(gh[lo] == new);
    assert forall|j: int| lo < j < gh.len() implies gh[j] == h[j - lo - 1 + hi] by {}
    // The new hole is apart from its neighbours.
    assert(lo > 0 ==> h[lo - 1].0 + h[lo - 1].1 < new.0) by {
        if lo > 0 {
            if m {
                assert(h[p - 1].0 + h[p - 1].1 < h[p].0);
            }
        }
    }
    assert(new.0 + new.1 < f.end) by {
        if next {
            assert(new.0 + new.1 == h[q].0 + h[q].1);
        }
    }
    assert(hi < h.len() ==> new.0 + new.1 < h[hi].0) by {
        if hi < h.len() {
            if next {
                assert(new.0 + new.1 == h[q].0 + h[q].1);
                assert(h[q].0 + h[q].1 < h[q + 1].0);
            } else {
                assert(h[q].0 >= loc + b.size);
            }
        }
    }
    assert forall|i: int| 0 <= i < gh.len() implies gh[i].0 + gh[i].1 < g.end by {
        if i > lo {
            assert(gh[i] == h[i - lo - 1 + hi]);
        }
    }
    assert forall|a: int, c: int| 0 <= a < c < gh.len() implies gh[a].0 + gh[a].1 < gh[c].0 by {
        if c < lo {
        } else if c == lo {
            if a < lo - 1 {
                assert(h[a].0 + h[a].1 < h[lo - 1].0);
            }
        } else if a < lo {
            let c2 = c - lo - 1 + hi;
            assert(h[a].0 + h[a].1 < h[c2].0);
        } else if a == lo {
            let c2 = c - lo - 1 + hi;
            if c2 > hi {
                assert(h[hi].0 + h[hi].1 < h[c2].0);
            }
        } else {
            let a2 = a - lo - 1 + hi;
            let c2 = c - lo - 1 + hi;
            assert(h[a2].0 + h[a2].1 < h[c2].0);
        }
    }
}

/// Freeing keeps free space coalesced: when the block is not free, the free
/// space afterwards is the free space before together with the block, and
/// it is still held as holes of which no two touch, none touching the
/// unbounded region.
pub proof fn lemma_deallocate_coalesces(f: FreeView, b: Block)
    requires
        free_apart(f),
        b.fits(),
        b.size > 0,
        block_set(b).disjoint(free_set(f)),
    ensures
        free_apart(spec_deallocate(f, b)),
        free_set(spec_deallocate(f, b)) == free_set(f).union(block_set(b)),
{
    lemma_deallocate_frees(f, b);
    lemma_dealloc_facts(f, b);
    if b.location + b.size == f.end {
        lemma_dealloc_apart_tail(f, b);
    } else {
        lemma_dealloc_apart_join(f, b);
    }
}

/// Allocating keeps free space coalesced: what is left free is still held as
/// holes of which no two touch, none touching the unbounded region.
#[verifier::rlimit(60)]
pub proof fn lemma_allocate_keeps_apart(f: FreeView, size: u64)
    requires
        free_apart(f),
        first_fit(f.holes, size) == f.holes.len() ==> f.end + size <= u64::MAX,
    ensures
        free_apart(spec_allocate(f, size).0),
{
    lemma_allocate_exact(f, size);
    let h = f.holes;
    let g = spec_allocate(f, size).0;
    lemma_first_fit_range(h, size);
    let i = first_fit(h, size);
    if i < h.len() {
        let rest = h.remove(i);
        let k = (h[i].0 + size) as u64;
        let v = (h[i].1 - size) as u64;
        assert forall|j: int| 0 <= j < rest.len() implies rest[j] == if j < i {
            h[j]
        } else {
            h[j + 1]
        } by {}
        if h[i].1 > size {
            lemma_insert_at(rest, i, k, v);
            assert(g.holes == rest.subrange(0, i) + seq![(k, v)] + rest.subrange(i, rest.len() as int));
            assert forall|j: int| 0 <= j < g.holes.len() implies g.holes[j] == if j < i {
                h[j]
            } else if j == i {
                (k, v)
            } else {
                h[j]
            } by {}
            assert forall|a: int, c: int| 0 <= a < c < g.holes.len() implies g.holes[a].0
                + g.holes[a].1 < g.holes[c].0 by {
                if a == i {
                    assert(k + v == h[i].0 + h[i].1);
                } else if c == i {
                    assert(h[a].0 + h[a].1 < h[i].0);
                }
            }
            assert forall|a: int| 0 <= a < g.holes.len() implies g.holes[a].0 + g.holes[a].1
                < g.end by {
                if a == i {
                    assert(k + v == h[i].0 + h[i].1);
                }
            }
        } else {
            assert(g.holes == rest);
            assert forall|a: int, c: int| 0 <= a < c < g.holes.len() implies g.holes[a].0
                + g.holes[a].1 < g.holes[c].0 by {
                let a2 = if a < i {
                    a
                } else {
                    a + 1
                };
                let c2 = if c < i {
                    c
                } else {
                    c + 1
                };
                assert(h[a2].0 + h[a2].1 < h[c2].0);
            }
        }
    }
}

/// A byte that no hole holds, below the unbounded region, is not free.
proof fn lemma_not_free(f: FreeView, x: int)
    requires
        x < f.end,
        forall|i: int| 0 <= i < f.holes.len() ==> !in_hole(f.holes, i, x),
    ensures
        !free_set(f).contains(x),
{
    if free_set(f).contains(x) {
        let i = lemma_free_witness(f, x);
    }
}

/// With the same free bytes and the same holes before index `i`, two
/// coalesced free lists have the same hole at `i`.
#[verifier::rlimit(40)]
proof fn lemma_hole_matches(f: FreeView, g: FreeView, i: int)
    requires
        free_apart(f),
        free_apart(g),
        free_set(f) == free_set(g),
        f.end == g.end,
        0 <= i < f.holes.len(),
        i <= g.holes.len(),
        forall|k: int| 0 <= k < i ==> f.holes[k] == g.holes[k],
    ensures
        i < g.holes.len(),
        g.holes[i] == f.holes[i],
{
    let fh = f.holes;
    let gh = g.holes;
    let a = fh[i].0 as int;
    let l = fh[i].1 as int;
    lemma_free_from_hole(f, i, a);
    let m = lemma_free_witness(g, a);
    // The holes before `i` lie below `a`.
    assert(m >= i) by {
        if m < i {
            assert(fh[m] == gh[m]);
            assert(fh[m].0 + fh[m].1 < fh[i].0);
        }
    }
    // The hole at `i` of `g` starts where that of `f` does.
    assert(i < gh.len());
    let b = gh[i].0 as int;
    assert(b <= a) by {
        if m > i {
            assert(gh[i].0 < gh[m].0);
        }
    }
    if b < a {
        lemma_free_from_hole(g, i, b);
        let q = lemma_free_witness(f, b);
        if q < i {
            assert(fh[q] == gh[q]);
            assert(gh[q].0 + gh[q].1 < gh[i].0);
        } else if q > i {
            assert(fh[i].0 < fh[q].0);
        }
        assert(false);
    }
    assert(m == i) by {
        if m > i {
            assert(gh[i].0 + gh[i].1 < gh[m].0);
        }
    }
    let l2 = gh[i].1 as int;
    if l2 < l {
        let y = a + l2;
        lemma_free_from_hole(f, i, y);
        assert(y < g.end);
        assert forall|k: int| 0 <= k < gh.len() implies !in_hole(gh, k, y) by {
            if k < i {
                assert(gh[k].0 + gh[k].1 < gh[i].0);
            } else if k > i {
                assert(gh[i].0 + gh[i].1 < gh[k].0);
            }
        }
        lemma_not_free(g, y);
        assert(false);
    } else if l2 > l {
        let y = a + l;
        lemma_free_from_hole(g, i, y);
        assert(y < f.end);
        assert forall|k: int| 0 <= k < fh.len() implies !in_hole(fh, k, y) by {
            if k < i {
                assert(fh[k].0 + fh[k].1 < fh[i].0);
            } else if k > i {
                assert(fh[i].0 + fh[i].1 < fh[k].0);
            }
        }
        lemma_not_free(f, y);
        assert(false);
    }
}

/// The holes of two such lists agree up to index `n`.
proof fn lemma_holes_match_up_to(f: FreeView, g: FreeView, i: int, n: int)
    requires
        free_apart(f),
        free_apart(g),
        free_set(f) == free_set(g),
        f.end == g.end,
        0 <= i <= n,
        n <= f.holes.len(),
        n <= g.holes.len(),
        forall|k: int| 0 <= k < i ==> f.holes[k] == g.holes[k],
    ensures
        forall|k: int| 0 <= k < n ==> f.holes[k] == g.holes[k],
    decreases n - i,
{
    if i < n {
        lemma_hole_matches(f, g, i);
        lemma_holes_match_up_to(f, g, i + 1, n);
    }
}

/// A coalesced free list is determined by its free bytes: two that free the
/// same bytes are the same list.
pub proof fn lemma_free_apart_unique(f: FreeView, g: FreeView)
    requires
        free_apart(f),
        free_apart(g),
        free_set(f) == free_set(g),
    ensures
        f == g,
{
    // The unbounded region starts at the same place.
    assert(f.end == g.end) by {
        if f.end < g.end {
            let y = g.end - 1;
            assert(free_set(f).contains(y));
            let m = lemma_free_witness(g, y);
        } else if g.end < f.end {
            let y = f.end - 1;
            assert(free_set(g).contains(y));
            let m = lemma_free_witness(f, y);
        }
    }
    // The holes match one by one.
    let n = if f.holes.len() < g.holes.len() {
        f.holes.len() as int
    } else {
        g.holes.len() as int
    };
    lemma_holes_match_up_to(f, g, 0, n);
    if f.holes.len() < g.holes.len() {
        assert forall|k: int| 0 <= k < n implies g.holes[k] == f.holes[k] by {}
        lemma_hole_matches(g, f, n);
    } else if g.holes.len() < f.holes.len() {
        lemma_hole_matches(f, g, n);
    }
    assert(f.holes =~= g.holes);
}

} // verus!
