//! Free-space index: the maximal free regions of a disk image, kept in
//! ascending position order, answering first-fit queries.

use vstd::prelude::*;

verus! {

/// A free region: `size` contiguous free blocks starting at position `pos`.
#[derive(Debug, Clone, Copy, PartialEq, Eq, Structural)]
pub struct SpaceMapEntry {
    pub size: u32,
    pub pos: u32,
}

/// Regions are non-empty, in ascending position order, and separated by at
/// least one occupied block (so each is a maximal free run).
pub open spec fn entries_wf(v: Seq<SpaceMapEntry>) -> bool {
    &&& forall|i: int|
        0 <= i < v.len() ==> 1 <= (#[trigger] v[i]).size && v[i].pos + v[i].size <= u32::MAX
    &&& forall|i: int| 0 <= i < v.len() - 1 ==> (#[trigger] v[i]).pos + v[i].size < v[i + 1].pos
}

/// Whether position `p` lies inside one of the listed free regions.
pub open spec fn entries_cover(v: Seq<SpaceMapEntry>, p: int) -> bool {
    exists|i: int| 0 <= i < v.len() && (#[trigger] v[i]).pos <= p < v[i].pos + v[i].size
}

/// The free regions of a disk image, in ascending position order, coalesced:
/// two listed regions never touch.
pub struct FreeSpaceMap {
    pub regions: Vec<SpaceMapEntry>,
}

impl FreeSpaceMap {
    pub open spec fn wf(self) -> bool {
        entries_wf(self.regions@)
    }

    pub open spec fn covers(self, p: int) -> bool {
        entries_cover(self.regions@, p)
    }

    /// The index describes exactly the free blocks of the image `s`.
    pub open spec fn models(self, s: Seq<Option<u32>>) -> bool {
        &&& self.wf()
        &&& forall|p: int| 0 <= p < s.len() ==> (self.covers(p) <==> s[p] is None)
        &&& forall|i: int|
            0 <= i < self.regions@.len() ==> (#[trigger] self.regions@[i]).pos
                + self.regions@[i].size <= s.len()
    }
}

/// In a well-formed index, an earlier region ends strictly before a later
/// region begins.
pub proof fn lemma_entries_ordered(v: Seq<SpaceMapEntry>, i: int, j: int)
    requires
        entries_wf(v),
        0 <= i < j < v.len(),
    ensures
        v[i].pos + v[i].size < v[j].pos,
    decreases j - i,
{
    if j > i + 1 {
        lemma_entries_ordered(v, i, j - 1);
    }
}

/// In a well-formed index, two distinct regions never cover the same
/// position.
pub proof fn lemma_entries_disjoint(v: Seq<SpaceMapEntry>, p: int, j: int, k: int)
    requires
        entries_wf(v),
        0 <= j < k < v.len(),
        v[j].pos <= p < v[j].pos + v[j].size,
    ensures
        !(v[k].pos <= p < v[k].pos + v[k].size),
{
    lemma_entries_ordered(v, j, k);
}

/// A region whose blocks are all uncovered neither overlaps the region left
/// of the insertion point nor the one right of it.
proof fn lemma_insert_neighbor_bounds(v: Seq<SpaceMapEntry>, region: SpaceMapEntry, idx: int)
    requires
        entries_wf(v),
        1 <= region.size,
        forall|p: int| region.pos <= p < region.pos + region.size ==> !entries_cover(v, p),
        0 <= idx <= v.len(),
        forall|j: int| 0 <= j < idx ==> (#[trigger] v[j]).pos < region.pos,
        idx < v.len() ==> v[idx].pos >= region.pos,
    ensures
        idx > 0 ==> v[idx - 1].pos + v[idx - 1].size <= region.pos,
        idx < v.len() ==> v[idx].pos >= region.pos + region.size,
{
    let rp = region.pos as int;
    if idx > 0 && v[idx - 1].pos + v[idx - 1].size > region.pos {
        assert(0 <= idx - 1 < v.len() && v[idx - 1].pos <= rp < v[idx - 1].pos + v[idx - 1].size);
        assert(entries_cover(v, rp));
        assert(false);
    }
    if idx < v.len() && v[idx].pos < region.pos + region.size {
        let q = v[idx].pos as int;
        assert(0 <= idx < v.len() && v[idx].pos <= q < v[idx].pos + v[idx].size);
        assert(entries_cover(v, q));
        assert(region.pos <= q < region.pos + region.size);
        assert(false);
    }
}

/// Inserting a freed region that touches its neighbors on both sides merges
/// all three into one region covering their union.
proof fn lemma_insert_merge_both(
    v: Seq<SpaceMapEntry>,
    region: SpaceMapEntry,
    idx: int,
    w: Seq<SpaceMapEntry>,
)
    requires
        entries_wf(v),
        1 <= region.size,
        0 < idx < v.len(),
        v[idx - 1].pos + v[idx - 1].size == region.pos,
        region.pos + region.size == v[idx].pos,
        w == v.update(
            idx - 1,
            SpaceMapEntry {
                size: (v[idx - 1].size + region.size + v[idx].size) as u32,
                pos: v[idx - 1].pos,
            },
        ).remove(idx),
    ensures
        entries_wf(w),
        forall|p: int|
            entries_cover(w, p) <==> (entries_cover(v, p) || region.pos <= p < region.pos
                + region.size),
{
    let im = idx - 1;
    let left = v[im];
    let right = v[idx];
    let rend = region.pos + region.size;
    let merged = w[im];
    assert(forall|k: int| 0 <= k < im ==> w[k] == v[k]);
    assert(forall|k: int| im < k < w.len() ==> w[k] == v[k + 1]);
    assert(merged.pos == left.pos && merged.pos + merged.size == right.pos + right.size);
    assert(entries_wf(w)) by {
        if im < w.len() - 1 {
            lemma_entries_ordered(v, idx, idx + 1);
            assert(w[im + 1] == v[idx + 1]);
        }
    }
    assert forall|p: int|
        entries_cover(w, p) <==> (entries_cover(v, p) || region.pos <= p < rend) by {
        if entries_cover(w, p) {
            let k = choose|k: int|
                0 <= k < w.len() && (#[trigger] w[k]).pos <= p < w[k].pos + w[k].size;
            if k < im {
                assert(v[k].pos <= p < v[k].pos + v[k].size);
                assert(entries_cover(v, p));
            } else if k == im {
                if p < left.pos + left.size {
                    assert(v[im].pos <= p < v[im].pos + v[im].size);
                    assert(entries_cover(v, p));
                } else if p >= rend {
                    assert(v[idx].pos <= p < v[idx].pos + v[idx].size);
                    assert(entries_cover(v, p));
                }
            } else {
                assert(v[k + 1].pos <= p < v[k + 1].pos + v[k + 1].size);
                assert(entries_cover(v, p));
            }
        }
        if entries_cover(v, p) {
            let k = choose|k: int|
                0 <= k < v.len() && (#[trigger] v[k]).pos <= p < v[k].pos + v[k].size;
            if k < im {
                assert(w[k].pos <= p < w[k].pos + w[k].size);
                assert(entries_cover(w, p));
            } else if k == im || k == idx {
                assert(w[im].pos <= p < w[im].pos + w[im].size);
                assert(entries_cover(w, p));
            } else {
                assert(w[k - 1].pos <= p < w[k - 1].pos + w[k - 1].size);
                assert(entries_cover(w, p));
            }
        }
        if region.pos <= p < rend {
            assert(w[im].pos <= p < w[im].pos + w[im].size);
            assert(entries_cover(w, p));
        }
    }
}

/// Inserting a freed region that touches only its left neighbor extends that
/// neighbor to cover both.
proof fn lemma_insert_merge_left(
    v: Seq<SpaceMapEntry>,
    region: SpaceMapEntry,
    idx: int,
    w: Seq<SpaceMapEntry>,
)
    requires
        entries_wf(v),
        1 <= region.size,
        region.pos + region.size <= u32::MAX,
        0 < idx <= v.len(),
        v[idx - 1].pos + v[idx - 1].size == region.pos,
        idx < v.len() ==> v[idx].pos > region.pos + region.size,
        w == v.update(
            idx - 1,
            SpaceMapEntry { size: (v[idx - 1].size + region.size) as u32, pos: v[idx - 1].pos },
        ),
    ensures
        entries_wf(w),
        forall|p: int|
            entries_cover(w, p) <==> (entries_cover(v, p) || region.pos <= p < region.pos
                + region.size),
{
    let im = idx - 1;
    let left = v[im];
    let rend = region.pos + region.size;
    assert(w[im].pos == left.pos && w[im].pos + w[im].size == rend);
    assert(entries_wf(w)) by {
        if im > 0 {
            assert(w[im - 1] == v[im - 1]);
        }
        if im < w.len() - 1 {
            assert(w[im + 1] == v[im + 1]);
        }
    }
    assert forall|p: int|
        entries_cover(w, p) <==> (entries_cover(v, p) || region.pos <= p < rend) by {
        if entries_cover(w, p) {
            let k = choose|k: int|
                0 <= k < w.len() && (#[trigger] w[k]).pos <= p < w[k].pos + w[k].size;
            if k != im {
                assert(v[k].pos <= p < v[k].pos + v[k].size);
                assert(entries_cover(v, p));
            } else if p < left.pos + left.size {
                assert(v[im].pos <= p < v[im].pos + v[im].size);
                assert(entries_cover(v, p));
            }
        }
        if entries_cover(v, p) {
            let k = choose|k: int|
                0 <= k < v.len() && (#[trigger] v[k]).pos <= p < v[k].pos + v[k].size;
            if k != im {
                assert(w[k].pos <= p < w[k].pos + w[k].size);
            } else {
                assert(w[im].pos <= p < w[im].pos + w[im].size);
            }
            assert(entries_cover(w, p));
        }
        if region.pos <= p < rend {
            assert(w[im].pos <= p < w[im].pos + w[im].size);
            assert(entries_cover(w, p));
        }
    }
}

/// Inserting a freed region that touches only its right neighbor extends
/// that neighbor backwards to cover both.
proof fn lemma_insert_merge_right(
    v: Seq<SpaceMapEntry>,
    region: SpaceMapEntry,
    idx: int,
    w: Seq<SpaceMapEntry>,
)
    requires
        entries_wf(v),
        1 <= region.size,
        0 <= idx < v.len(),
        idx > 0 ==> v[idx - 1].pos + v[idx - 1].size < region.pos,
        region.pos + region.size == v[idx].pos,
        w == v.update(
            idx,
            SpaceMapEntry { size: (region.size + v[idx].size) as u32, pos: region.pos },
        ),
    ensures
        entries_wf(w),
        forall|p: int|
            entries_cover(w, p) <==> (entries_cover(v, p) || region.pos <= p < region.pos
                + region.size),
{
    let im = idx;
    let right = v[im];
    let rend = region.pos + region.size;
    assert(w[im].pos == region.pos && w[im].pos + w[im].size == right.pos + right.size);
    assert(entries_wf(w)) by {
        if im > 0 {
            assert(w[im - 1] == v[im - 1]);
        }
        if im < w.len() - 1 {
            assert(w[im + 1] == v[im + 1]);
        }
    }
    assert forall|p: int|
        entries_cover(w, p) <==> (entries_cover(v, p) || region.pos <= p < rend) by {
        if entries_cover(w, p) {
            let k = choose|k: int|
                0 <= k < w.len() && (#[trigger] w[k]).pos <= p < w[k].pos + w[k].size;
            if k != im {
                assert(v[k].pos <= p < v[k].pos + v[k].size);
                assert(entries_cover(v, p));
            } else if p >= rend {
                assert(v[im].pos <= p < v[im].pos + v[im].size);
                assert(entries_cover(v, p));
            }
        }
        if entries_cover(v, p) {
            let k = choose|k: int|
                0 <= k < v.len() && (#[trigger] v[k]).pos <= p < v[k].pos + v[k].size;
            if k != im {
                assert(w[k].pos <= p < w[k].pos + w[k].size);
            } else {
                assert(w[im].pos <= p < w[im].pos + w[im].size);
            }
            assert(entries_cover(w, p));
        }
        if region.pos <= p < rend {
            assert(w[im].pos <= p < w[im].pos + w[im].size);
            assert(entries_cover(w, p));
        }
    }
}

/// Inserting a freed region that touches no neighbor adds it as a region of
/// its own.
proof fn lemma_insert_plain(
    v: Seq<SpaceMapEntry>,
    region: SpaceMapEntry,
    idx: int,
    w: Seq<SpaceMapEntry>,
)
    requires
        entries_wf(v),
        1 <= region.size,
        region.pos + region.size <= u32::MAX,
        0 <= idx <= v.len(),
        idx > 0 ==> v[idx - 1].pos + v[idx - 1].size < region.pos,
        idx < v.len() ==> v[idx].pos > region.pos + region.size,
        w == v.insert(idx, region),
    ensures
        entries_wf(w),
        forall|p: int|
            entries_cover(w, p) <==> (entries_cover(v, p) || region.pos <= p < region.pos
                + region.size),
{
    let rend = region.pos + region.size;
    assert(forall|k: int| 0 <= k < idx ==> w[k] == v[k]);
    assert(w[idx] == region);
    assert(forall|k: int| idx < k < w.len() ==> w[k] == v[k - 1]);
    assert(entries_wf(w)) by {
        assert forall|k: int| 0 <= k < w.len() - 1 implies (#[trigger] w[k]).pos + w[k].size
            < w[k + 1].pos by {
            if k < idx - 1 {
                assert(w[k] == v[k] && w[k + 1] == v[k + 1]);
            } else if k == idx - 1 {
                assert(w[k] == v[k] && w[k + 1] == region);
            } else if k == idx {
                assert(w[k + 1] == v[k]);
            } else {
                assert(w[k] == v[k - 1] && w[k + 1] == v[k]);
            }
        }
    }
    assert forall|p: int|
        entries_cover(w, p) <==> (entries_cover(v, p) || region.pos <= p < rend) by {
        if entries_cover(w, p) {
            let k = choose|k: int|
                0 <= k < w.len() && (#[trigger] w[k]).pos <= p < w[k].pos + w[k].size;
            if k < idx {
                assert(v[k].pos <= p < v[k].pos + v[k].size);
                assert(entries_cover(v, p));
            } else if k > idx {
                assert(v[k - 1].pos <= p < v[k - 1].pos + v[k - 1].size);
                assert(entries_cover(v, p));
            }
        }
        if entries_cover(v, p) {
            let k = choose|k: int|
                0 <= k < v.len() && (#[trigger] v[k]).pos <= p < v[k].pos + v[k].size;
            if k < idx {
                assert(w[k].pos <= p < w[k].pos + w[k].size);
            } else {
                assert(w[k + 1].pos <= p < w[k + 1].pos + w[k + 1].size);
            }
            assert(entries_cover(w, p));
        }
        if region.pos <= p < rend {
            assert(w[idx].pos <= p < w[idx].pos + w[idx].size);
            assert(entries_cover(w, p));
        }
    }
}

impl FreeSpaceMap {
    /// First-fit query: the free region with the smallest start position
    /// whose length is at least `min_size` and whose start is strictly below
    /// `before`.  The tie-break is by position alone, never by size.
    pub fn first_fit(&self, min_size: u32, before: u32) -> (r: Option<SpaceMapEntry>)
        requires
            self.wf(),
        ensures
            match r {
                Some(e) => {
                    &&& self.regions@.contains(e)
                    &&& e.size >= min_size
                    &&& e.pos < before
                    &&& forall|k: int|
                        0 <= k < self.regions@.len() && (#[trigger] self.regions@[k]).size
                            >= min_size && self.regions@[k].pos < before ==> e.pos
                            <= self.regions@[k].pos
                },
                None => forall|k: int|
                    0 <= k < self.regions@.len() ==> !((#[trigger] self.regions@[k]).size
                        >= min_size && self.regions@[k].pos < before),
            },
    {
        let n = self.regions.len();
        let mut k: usize = 0;
        while k < n
            invariant
                k <= n,
                n == self.regions@.len(),
                self.wf(),
                forall|j: int|
                    0 <= j < k ==> !((#[trigger] self.regions@[j]).size >= min_size
                        && self.regions@[j].pos < before),
            decreases n - k,
        {
            let e = self.regions[k];
            if e.size >= min_size && e.pos < before {
                proof {
                    assert(self.regions@[k as int] == e);
                    assert forall|j: int|
                        0 <= j < self.regions@.len() && (#[trigger] self.regions@[j]).size
                            >= min_size && self.regions@[j].pos < before implies e.pos
                        <= self.regions@[j].pos by {
                        if j > k {
                            lemma_entries_ordered(self.regions@, k as int, j);
                        }
                    }
                }
                return Some(e);
            }
            k = k + 1;
        }
        None
    }

    /// Adds a newly freed region to the index, merging it with the adjacent
    /// region on either side when they touch, so regions stay maximal.
    pub fn insert(&mut self, region: SpaceMapEntry)
        requires
            old(self).wf(),
            1 <= region.size,
            region.pos + region.size <= u32::MAX,
            forall|p: int| region.pos <= p < region.pos + region.size ==> !old(self).covers(p),
        ensures
            final(self).wf(),
            forall|p: int|
                final(self).covers(p) <==> (old(self).covers(p) || region.pos <= p < region.pos
                    + region.size),
    {
        let ghost v = self.regions@;
        let rend = region.pos + region.size;
        let n = self.regions.len();
        let mut idx: usize = 0;
        while idx < n && self.regions[idx].pos < region.pos
            invariant
                idx <= n,
                n == self.regions@.len(),
                self == old(self),
                forall|j: int| 0 <= j < idx ==> (#[trigger] self.regions@[j]).pos < region.pos,
            decreases n - idx,
        {
            idx = idx + 1;
        }
        proof {
            assert forall|p: int|
                region.pos <= p < region.pos + region.size implies !entries_cover(v, p) by {
                assert(!old(self).covers(p));
            }
            lemma_insert_neighbor_bounds(v, region, idx as int);
        }
        let merge_left = idx > 0 && {
            let e = self.regions[idx - 1];
            e.pos + e.size == region.pos
        };
        let merge_right = idx < n && rend == self.regions[idx].pos;
        if merge_left && merge_right {
            let left = self.regions[idx - 1];
            let right = self.regions[idx];
            proof {
                lemma_entries_ordered(v, idx - 1, idx as int);
            }
            let merged = SpaceMapEntry {
                size: left.size + region.size + right.size,
                pos: left.pos,
            };
            self.regions.set(idx - 1, merged);
            self.regions.remove(idx);
            proof {
                lemma_insert_merge_both(v, region, idx as int, self.regions@);
            }
        } else if merge_left {
            let left = self.regions[idx - 1];
            let merged = SpaceMapEntry { size: left.size + region.size, pos: left.pos };
            self.regions.set(idx - 1, merged);
            proof {
                lemma_insert_merge_left(v, region, idx as int, self.regions@);
            }
        } else if merge_right {
            let right = self.regions[idx];
            proof {
                assert(right.pos + right.size <= u32::MAX);
            }
            let merged = SpaceMapEntry { size: region.size + right.size, pos: region.pos };
            self.regions.set(idx, merged);
            proof {
                lemma_insert_merge_right(v, region, idx as int, self.regions@);
            }
        } else {
            self.regions.insert(idx, region);
            proof {
                lemma_insert_plain(v, region, idx as int, self.regions@);
            }
        }
    }


    /// After a file of length `amount` is placed at the start of `region`,
    /// drops the first `amount` blocks of that region from the index,
    /// removing the region entirely when nothing remains.
    pub fn shrink(&mut self, region: SpaceMapEntry, amount: u32)
        requires
            old(self).wf(),
            old(self).regions@.contains(region),
            1 <= amount <= region.size,
        ensures
            final(self).wf(),
            forall|p: int|
                final(self).covers(p) <==> (old(self).covers(p) && !(region.pos <= p < region.pos
                    + amount)),
    {
        let ghost v = self.regions@;
        let n = self.regions.len();
        let mut idx: usize = 0;
        while idx < n && !(self.regions[idx].pos == region.pos
            && self.regions[idx].size == region.size)
            invariant
                idx <= n,
                n == self.regions@.len(),
                self == old(self),
                forall|j: int| 0 <= j < idx ==> self.regions@[j] != region,
            decreases n - idx,
        {
            idx = idx + 1;
        }
        proof {
            let j = choose|j: int| 0 <= j < v.len() && v[j] == region;
            assert(idx < n);
            assert(v[idx as int] == region);
        }
        let ghost im = idx as int;
        if amount == region.size {
            self.regions.remove(idx);
            proof {
                let w = self.regions@;
                assert(forall|k: int| 0 <= k < im ==> w[k] == v[k]);
                assert(forall|k: int| im <= k < w.len() ==> w[k] == v[k + 1]);
                assert(entries_wf(w)) by {
                    if 0 < im < v.len() - 1 {
                        lemma_entries_ordered(v, im - 1, im + 1);
                    }
                }
                assert forall|p: int| entries_cover(w, p) <==> (entries_cover(v, p) && !(
                region.pos <= p < region.pos + amount)) by {
                    if entries_cover(w, p) {
                        let k = choose|k: int|
                            0 <= k < w.len() && (#[trigger] w[k]).pos <= p < w[k].pos + w[k].size;
                        if k < im {
                            assert(v[k].pos <= p < v[k].pos + v[k].size);
                            assert(entries_cover(v, p));
                            if region.pos <= p < region.pos + amount {
                                lemma_entries_disjoint(v, p, k, im);
                                assert(false);
                            }
                        } else {
                            assert(v[k + 1].pos <= p < v[k + 1].pos + v[k + 1].size);
                            assert(entries_cover(v, p));
                            if region.pos <= p < region.pos + amount {
                                lemma_entries_disjoint(v, p, im, k + 1);
                                assert(false);
                            }
                        }
                    }
                    if entries_cover(v, p) && !(region.pos <= p < region.pos + amount) {
                        let k = choose|k: int|
                            0 <= k < v.len() && (#[trigger] v[k]).pos <= p < v[k].pos + v[k].size;
                        if k < im {
                            assert(w[k].pos <= p < w[k].pos + w[k].size);
                            assert(entries_cover(w, p));
                        } else if k == im {
                            assert(false);
                        } else {
                            assert(w[k - 1].pos <= p < w[k - 1].pos + w[k - 1].size);
                            assert(entries_cover(w, p));
                        }
                    }
                }
            }
        } else {
            let rest = SpaceMapEntry { size: region.size - amount, pos: region.pos + amount };
            self.regions.set(idx, rest);
            proof {
                let w = self.regions@;
                assert(w == v.update(im, rest));
                assert(entries_wf(w)) by {
                    if im > 0 {
                        assert(w[im - 1] == v[im - 1]);
                    }
                    if im < w.len() - 1 {
                        assert(w[im + 1] == v[im + 1]);
                    }
                }
                assert forall|p: int| entries_cover(w, p) <==> (entries_cover(v, p) && !(
                region.pos <= p < region.pos + amount)) by {
                    if entries_cover(w, p) {
                        let k = choose|k: int|
                            0 <= k < w.len() && (#[trigger] w[k]).pos <= p < w[k].pos + w[k].size;
                        if k == im {
                            assert(v[im].pos <= p < v[im].pos + v[im].size);
                            assert(entries_cover(v, p));
                        } else {
                            assert(v[k].pos <= p < v[k].pos + v[k].size);
                            assert(entries_cover(v, p));
                            if region.pos <= p < region.pos + amount {
                                if k < im {
                                    lemma_entries_disjoint(v, p, k, im);
                                } else {
                                    lemma_entries_disjoint(v, p, im, k);
                                }
                                assert(false);
                            }
                        }
                    }
                    if entries_cover(v, p) && !(region.pos <= p < region.pos + amount) {
                        let k = choose|k: int|
                            0 <= k < v.len() && (#[trigger] v[k]).pos <= p < v[k].pos + v[k].size;
                        if k == im {
                            assert(w[im].pos <= p < w[im].pos + w[im].size);
                        } else {
                            assert(w[k].pos <= p < w[k].pos + w[k].size);
                        }
                        assert(entries_cover(w, p));
                    }
                }
            }
        }
    }
}

/// Builds the free-space index of a disk image: one entry per maximal run of
/// free blocks, in ascending position order.
pub fn free_space_map(disk_map: &[Option<u32>]) -> (r: FreeSpaceMap)
    requires
        disk_map@.len() <= u32::MAX,
    ensures
        r.models(disk_map@),
{
    let n = disk_map.len();
    let mut regions: Vec<SpaceMapEntry> = Vec::new();
    let mut i: usize = 0;
    while i < n
        invariant
            i <= n,
            n == disk_map@.len(),
            n <= u32::MAX,
            entries_wf(regions@),
            forall|k: int|
                0 <= k < regions@.len() ==> (#[trigger] regions@[k]).pos + regions@[k].size <= i,
            regions@.len() > 0 ==> (regions@.last().pos + regions@.last().size < i || i == n
                || disk_map@[i as int] is Some),
            forall|p: int|
                0 <= p < i ==> (entries_cover(regions@, p) <==> disk_map@[p] is None),
        decreases n - i,
    {
        if disk_map[i].is_none() {
            let start = i;
            let ghost before = regions@;
            proof {
                if before.len() > 0 {
                    assert(before.last().pos + before.last().size < start);
                }
            }
            i = i + 1;
            while i < n && disk_map[i].is_none()
                invariant
                    start < i <= n,
                    n == disk_map@.len(),
                    regions@ == before,
                    forall|p: int| start <= p < i ==> disk_map@[p] is None,
                decreases n - i,
            {
                i = i + 1;
            }
            let entry = SpaceMapEntry { size: (i - start) as u32, pos: start as u32 };
            regions.push(entry);
            proof {
                let v = regions@;
                let len = v.len() as int;
                assert(v[len - 1] == entry);
                assert(forall|k: int| 0 <= k < len - 1 ==> v[k] == before[k]);
                assert(entries_wf(v)) by {
                    if len >= 2 {
                        assert(v[len - 2].pos + v[len - 2].size < entry.pos);
                    }
                }
                assert forall|p: int| 0 <= p < i implies (entries_cover(v, p)
                    <==> disk_map@[p] is None) by {
                    if p < start {
                        if entries_cover(v, p) {
                            let k = choose|k: int|
                                0 <= k < len && (#[trigger] v[k]).pos <= p < v[k].pos + v[k].size;
                            assert(k < len - 1);
                            assert(before[k] == v[k]);
                            assert(entries_cover(before, p));
                        }
                        if entries_cover(before, p) {
                            let k = choose|k: int|
                                0 <= k < before.len() && (#[trigger] before[k]).pos <= p
                                    < before[k].pos + before[k].size;
                            assert(v[k] == before[k]);
                            assert(entries_cover(v, p));
                        }
                    } else {
                        assert(v[len - 1].pos <= p < v[len - 1].pos + v[len - 1].size);
                        assert(entries_cover(v, p));
                        assert(disk_map@[p] is None);
                    }
                }
            }
        } else {
            proof {
                let pi = i as int;
                assert(!entries_cover(regions@, pi)) by {
                    if entries_cover(regions@, pi) {
                        let k = choose|k: int|
                            0 <= k < regions@.len() && (#[trigger] regions@[k]).pos <= pi
                                < regions@[k].pos + regions@[k].size;
                        assert(regions@[k].pos + regions@[k].size <= i);
                    }
                }
            }
            i = i + 1;
        }
    }
    FreeSpaceMap { regions }
}

} // verus!
