//! Whole-file compaction: files move as atomic units into the leftmost free
//! region large enough to hold them, processed in descending id order, and
//! never move to the right of their original position.

use vstd::prelude::*;
use crate::free_space::{FreeSpaceMap, SpaceMapEntry, free_space_map};

verus! {

/// Whether some block of file `id` is present in the image.
pub open spec fn has_id(s: Seq<Option<u32>>, id: u32) -> bool {
    exists|i: int| 0 <= i < s.len() && s[i] == Some(id)
}

/// The first index at or after `i` holding a block of file `id`; the length
/// of the image when there is none.
pub open spec fn first_index_from(s: Seq<Option<u32>>, id: u32, i: int) -> int
    decreases s.len() - i
        when i >= 0
{
    if i < 0 || i >= s.len() {
        s.len() as int
    } else if s[i] == Some(id) {
        i
    } else {
        first_index_from(s, id, i + 1)
    }
}

/// The start position of file `id`: the first index holding one of its
/// blocks (the length of the image when the file is absent).
pub open spec fn file_start(s: Seq<Option<u32>>, id: u32) -> int {
    first_index_from(s, id, 0)
}

/// The first index at or after `i` not holding a block of file `id`.
pub open spec fn run_end_from(s: Seq<Option<u32>>, id: u32, i: int) -> int
    decreases s.len() - i
        when i >= 0
{
    if i < 0 || i >= s.len() {
        s.len() as int
    } else if s[i] != Some(id) {
        i
    } else {
        run_end_from(s, id, i + 1)
    }
}

/// One past the last block of the run of file `id` that begins at its start
/// position.
pub open spec fn file_end(s: Seq<Option<u32>>, id: u32) -> int {
    run_end_from(s, id, file_start(s, id))
}

/// All blocks of file `id` form one contiguous run.
pub open spec fn contiguous_id(s: Seq<Option<u32>>, id: u32) -> bool {
    forall|i: int, j: int, k: int|
        #![trigger s[i], s[j], s[k]]
        0 <= i <= j <= k < s.len() && s[i] == Some(id) && s[k] == Some(id) ==> s[j] == Some(id)
}

/// A well-formed image: every file is one contiguous run of blocks.
pub open spec fn wf_image(s: Seq<Option<u32>>) -> bool {
    forall|id: u32| #[trigger] contiguous_id(s, id)
}

/// `need` free blocks fit at position `p`.
pub open spec fn fits(s: Seq<Option<u32>>, p: int, need: int) -> bool {
    &&& 0 <= p
    &&& p + need <= s.len()
    &&& forall|k: int| p <= k < p + need ==> s[k] is None
}

/// The smallest position at or after `p` and strictly before `before` where
/// `need` free blocks fit.
pub open spec fn first_fit_scan(s: Seq<Option<u32>>, need: int, before: int, p: int) -> Option<
    int,
>
    decreases before - p
        when p <= before
{
    if p >= before {
        None
    } else if fits(s, p, need) {
        Some(p)
    } else {
        first_fit_scan(s, need, before, p + 1)
    }
}

/// The smallest position strictly before `before` where `need` free blocks
/// fit; `None` when there is no such position.
pub open spec fn first_fit_pos(s: Seq<Option<u32>>, need: int, before: int) -> Option<int> {
    if before >= 0 {
        first_fit_scan(s, need, before, 0)
    } else {
        None
    }
}

/// The image with blocks `[start, start + len)` marked free.
pub open spec fn clear_run(s: Seq<Option<u32>>, start: int, len: int) -> Seq<Option<u32>> {
    Seq::new(s.len(), |i: int| if start <= i < start + len { None } else { s[i] })
}

/// The image with blocks `[start, start + len)` stamped with file `id`.
pub open spec fn write_run(s: Seq<Option<u32>>, start: int, len: int, id: u32) -> Seq<
    Option<u32>,
> {
    Seq::new(s.len(), |i: int| if start <= i < start + len { Some(id) } else { s[i] })
}

/// One step of whole-file compaction: file `id` moves, as one unit, into the
/// leftmost free region that can hold it and starts strictly left of the
/// file; when no such region exists (or the file is absent) nothing changes.
pub open spec fn move_file(s: Seq<Option<u32>>, id: u32) -> Seq<Option<u32>> {
    if !has_id(s, id) {
        s
    } else {
        let start = file_start(s, id);
        let len = file_end(s, id) - start;
        match first_fit_pos(s, len, start) {
            None => s,
            Some(p) => write_run(clear_run(s, start, len), p, len, id),
        }
    }
}

/// Whole-file compaction of every file with id at most `id`, visited in
/// descending id order, each exactly once.
pub open spec fn compact_ids(s: Seq<Option<u32>>, id: int) -> Seq<Option<u32>>
    decreases id + 1,
{
    if id < 0 {
        s
    } else {
        compact_ids(move_file(s, id as u32), id - 1)
    }
}

/// The highest file id present in the image.
pub open spec fn max_id(s: Seq<Option<u32>>) -> Option<u32>
    decreases s.len(),
{
    if s.len() == 0 {
        None
    } else {
        match (max_id(s.drop_last()), s.last()) {
            (None, b) => b,
            (Some(m), None) => Some(m),
            (Some(m), Some(x)) => Some(if x > m { x } else { m }),
        }
    }
}

/// The result of whole-file compaction: every file, from the highest id down
/// to 0, is moved once by `move_file`.
pub open spec fn whole_file_compact(s: Seq<Option<u32>>) -> Seq<Option<u32>> {
    match max_id(s) {
        None => s,
        Some(m) => compact_ids(s, m as int),
    }
}

/// What the first-index scan returns: the first occurrence at or after `i`,
/// or the length when there is none.
proof fn lemma_first_index_from(s: Seq<Option<u32>>, id: u32, i: int)
    requires
        0 <= i <= s.len(),
    ensures
        i <= first_index_from(s, id, i) <= s.len(),
        first_index_from(s, id, i) < s.len() ==> s[first_index_from(s, id, i)] == Some(id),
        forall|j: int| i <= j < first_index_from(s, id, i) ==> s[j] != Some(id),
    decreases s.len() - i,
{
    if i < s.len() && s[i] != Some(id) {
        lemma_first_index_from(s, id, i + 1);
    }
}

/// What the run-end scan returns: the first position at or after `i` outside
/// the run, with everything in between part of the run.
proof fn lemma_run_end_from(s: Seq<Option<u32>>, id: u32, i: int)
    requires
        0 <= i <= s.len(),
    ensures
        i <= run_end_from(s, id, i) <= s.len(),
        run_end_from(s, id, i) < s.len() ==> s[run_end_from(s, id, i)] != Some(id),
        forall|j: int| i <= j < run_end_from(s, id, i) ==> s[j] == Some(id),
    decreases s.len() - i,
{
    if i < s.len() && s[i] == Some(id) {
        lemma_run_end_from(s, id, i + 1);
    }
}

/// What the first-fit scan returns: the smallest fitting position in
/// `[p, before)`, or `None` when none fits.
proof fn lemma_first_fit_scan(s: Seq<Option<u32>>, need: int, before: int, p: int)
    requires
        0 <= p <= before,
    ensures
        match first_fit_scan(s, need, before, p) {
            Some(q) => p <= q < before && fits(s, q, need) && forall|t: int|
                p <= t < q ==> !fits(s, t, need),
            None => forall|t: int| p <= t < before ==> !fits(s, t, need),
        },
    decreases before - p,
{
    if p < before && !fits(s, p, need) {
        lemma_first_fit_scan(s, need, before, p + 1);
    }
}

/// Updating one position replaces exactly one element of the multiset.
proof fn lemma_to_multiset_update(s: Seq<Option<u32>>, i: int, v: Option<u32>)
    requires
        0 <= i < s.len(),
    ensures
        s.update(i, v).to_multiset() == s.to_multiset().remove(s[i]).insert(v),
{
    assert(s.update(i, v) =~= s.remove(i).insert(i, v));
    vstd::seq_lib::to_multiset_remove(s, i);
    vstd::seq_lib::to_multiset_insert(s.remove(i), i, v);
}

/// The image after the first `k` blocks of a file run at `start` have moved
/// into a free window at `p`.
spec fn moved_partial(s: Seq<Option<u32>>, start: int, p: int, id: u32, k: int) -> Seq<
    Option<u32>,
> {
    Seq::new(
        s.len(),
        |i: int|
            if p <= i < p + k {
                Some(id)
            } else if start <= i < start + k {
                None
            } else {
                s[i]
            },
    )
}

/// Moving a run of file blocks into a disjoint free window block by block
/// conserves the multiset of blocks.
proof fn lemma_moved_partial_multiset(
    s: Seq<Option<u32>>,
    start: int,
    p: int,
    id: u32,
    len: int,
    k: int,
)
    requires
        0 <= k <= len,
        0 <= p,
        p + len <= start,
        start + len <= s.len(),
        forall|i: int| start <= i < start + len ==> s[i] == Some(id),
        forall|i: int| p <= i < p + len ==> s[i] is None,
    ensures
        moved_partial(s, start, p, id, k).to_multiset() == s.to_multiset(),
    decreases k,
{
    broadcast use vstd::multiset::group_multiset_axioms;

    if k == 0 {
        assert(moved_partial(s, start, p, id, 0) =~= s);
    } else {
        lemma_moved_partial_multiset(s, start, p, id, len, k - 1);
        let prev = moved_partial(s, start, p, id, k - 1);
        let cur = moved_partial(s, start, p, id, k);
        assert(prev[p + k - 1] == s[p + k - 1]);
        assert(prev[p + k - 1] is None);
        let mid = prev.update(p + k - 1, Some(id));
        assert(mid[start + k - 1] == s[start + k - 1]);
        assert(mid[start + k - 1] == Some(id));
        assert(cur =~= mid.update(start + k - 1, Option::<u32>::None));
        lemma_to_multiset_update(prev, p + k - 1, Some(id));
        lemma_to_multiset_update(mid, start + k - 1, None);
        vstd::seq_lib::to_multiset_contains(prev, Option::<u32>::None);
        assert(prev.contains(Option::<u32>::None)) by {
            assert(prev[p + k - 1] is None);
        }
        vstd::seq_lib::to_multiset_contains(mid, Some(id));
        assert(mid.contains(Some(id))) by {
            assert(mid[p + k - 1] == Some(id));
        }
        assert(cur.to_multiset() =~= prev.to_multiset());
    }
}

/// In a well-formed image, the blocks of a present file are exactly the
/// interval from its start to its end.
proof fn lemma_file_occurrences(s: Seq<Option<u32>>, id: u32)
    requires
        contiguous_id(s, id),
        has_id(s, id),
    ensures
        0 <= file_start(s, id) < file_end(s, id) <= s.len(),
        forall|j: int|
            0 <= j < s.len() ==> (s[j] == Some(id) <==> file_start(s, id) <= j < file_end(s, id)),
{
    let fs = file_start(s, id);
    lemma_first_index_from(s, id, 0);
    assert(fs < s.len()) by {
        if fs == s.len() {
            let i = choose|i: int| 0 <= i < s.len() && s[i] == Some(id);
            assert(s[i] != Some(id));
        }
    }
    let fe = file_end(s, id);
    lemma_run_end_from(s, id, fs);
    assert(fe > fs) by {
        assert(s[fs] == Some(id));
    }
    assert forall|j: int| 0 <= j < s.len() implies (s[j] == Some(id) <==> fs <= j < fe) by {
        if fs <= j < fe {
            assert(s[j] == Some(id));
        }
        if s[j] == Some(id) {
            if j < fs {
                assert(false);
            }
            if j >= fe {
                assert(fe < s.len());
                assert(s[fs] == Some(id) && s[j] == Some(id) && fs <= fe <= j);
                assert(s[fe] == Some(id));
                assert(false);
            }
        }
    }
}

/// When `move_file` actually moves a file, the chosen window sits strictly
/// left of the file's run and is disjoint from it.
proof fn lemma_move_geometry(s: Seq<Option<u32>>, id: u32)
    requires
        contiguous_id(s, id),
        has_id(s, id),
        first_fit_pos(s, file_end(s, id) - file_start(s, id), file_start(s, id)) is Some,
    ensures
        ({
            let start = file_start(s, id);
            let len = file_end(s, id) - start;
            let p = first_fit_pos(s, len, start)->0;
            &&& 0 <= p
            &&& p + len <= start
            &&& start + len <= s.len()
            &&& fits(s, p, len)
            &&& forall|t: int| 0 <= t < p ==> !fits(s, t, len)
            &&& forall|i: int| start <= i < start + len ==> s[i] == Some(id)
            &&& forall|i: int| p <= i < p + len ==> s[i] is None
            &&& move_file(s, id) == write_run(clear_run(s, start, len), p, len, id)
        }),
{
    let start = file_start(s, id);
    let fe = file_end(s, id);
    let len = fe - start;
    lemma_file_occurrences(s, id);
    lemma_first_fit_scan(s, len, start, 0);
    let p = first_fit_pos(s, len, start)->0;
    assert(p + len <= start) by {
        if p + len > start {
            assert(p <= start < p + len);
            assert(s[start] is None);
            assert(s[start] == Some(id));
        }
    }
}

/// Moving one file conserves the multiset of blocks.
pub proof fn lemma_move_file_conserves(s: Seq<Option<u32>>, id: u32)
    requires
        contiguous_id(s, id),
    ensures
        move_file(s, id).to_multiset() == s.to_multiset(),
        move_file(s, id).len() == s.len(),
{
    if has_id(s, id) {
        let start = file_start(s, id);
        let len = file_end(s, id) - start;
        lemma_file_occurrences(s, id);
        if first_fit_pos(s, len, start) is Some {
            let p = first_fit_pos(s, len, start)->0;
            lemma_move_geometry(s, id);
            lemma_moved_partial_multiset(s, start, p, id, len, len);
            assert(move_file(s, id) =~= moved_partial(s, start, p, id, len));
        }
    }
}

/// Where the blocks of file `id` sit after `move_file(s, id)` ran: either
/// nothing changed, or they are exactly the chosen window.
proof fn lemma_move_file_points(s: Seq<Option<u32>>, id: u32, id2: u32)
    requires
        contiguous_id(s, id),
    ensures
        move_file(s, id).len() == s.len(),
        ({
            let t = move_file(s, id);
            if !has_id(s, id) || first_fit_pos(
                s,
                file_end(s, id) - file_start(s, id),
                file_start(s, id),
            ) is None {
                t == s
            } else {
                let p = first_fit_pos(s, file_end(s, id) - file_start(s, id), file_start(s, id))->0;
                let len = file_end(s, id) - file_start(s, id);
                &&& (id2 == id ==> forall|j: int|
                    0 <= j < s.len() ==> (t[j] == Some(id2) <==> p <= j < p + len))
                &&& (id2 != id ==> forall|j: int|
                    0 <= j < s.len() ==> (t[j] == Some(id2) <==> s[j] == Some(id2)))
            }
        }),
{
    let t = move_file(s, id);
    if has_id(s, id) {
        let start = file_start(s, id);
        let len = file_end(s, id) - start;
        lemma_file_occurrences(s, id);
        if first_fit_pos(s, len, start) is Some {
            let p = first_fit_pos(s, len, start)->0;
            lemma_move_geometry(s, id);
            if id2 == id {
                assert forall|j: int| 0 <= j < s.len() implies (t[j] == Some(id2) <==> p <= j < p
                    + len) by {
                    if !(p <= j < p + len) && !(start <= j < start + len) {
                        if t[j] == Some(id) {
                            assert(s[j] == Some(id));
                            assert(start <= j < start + len);
                        }
                    }
                }
            } else {
                assert forall|j: int| 0 <= j < s.len() implies (t[j] == Some(id2) <==> s[j]
                    == Some(id2)) by {
                    if p <= j < p + len {
                        assert(t[j] == Some(id));
                        assert(s[j] is None);
                    } else if start <= j < start + len {
                        assert(t[j] is None);
                        assert(s[j] == Some(id));
                    }
                }
            }
        }
    }
}

/// Moving one file keeps every file contiguous.
proof fn lemma_move_file_preserves_wf(s: Seq<Option<u32>>, id: u32)
    requires
        wf_image(s),
    ensures
        wf_image(move_file(s, id)),
{
    let t = move_file(s, id);
    assert forall|id2: u32| #[trigger] contiguous_id(t, id2) by {
        assert(contiguous_id(s, id2));
        lemma_move_file_points(s, id, id2);
        if !has_id(s, id) || first_fit_pos(
            s,
            file_end(s, id) - file_start(s, id),
            file_start(s, id),
        ) is None {
        } else {
            let p = first_fit_pos(s, file_end(s, id) - file_start(s, id), file_start(s, id))->0;
            let len = file_end(s, id) - file_start(s, id);
            assert forall|i: int, j: int, k: int|
                #![trigger t[i], t[j], t[k]]
                0 <= i <= j <= k < t.len() && t[i] == Some(id2) && t[k] == Some(id2) implies t[j]
                == Some(id2) by {
                if id2 == id {
                    assert(p <= i < p + len && p <= k < p + len);
                } else {
                    assert(s[i] == Some(id2) && s[k] == Some(id2));
                    assert(s[j] == Some(id2));
                }
            }
        }
    }
}

/// The first occurrence is determined by pointwise occurrence of the id.
proof fn lemma_first_index_congruent(s: Seq<Option<u32>>, t: Seq<Option<u32>>, id: u32, i: int)
    requires
        s.len() == t.len(),
        forall|j: int| 0 <= j < s.len() ==> (s[j] == Some(id) <==> t[j] == Some(id)),
        0 <= i <= s.len(),
    ensures
        first_index_from(s, id, i) == first_index_from(t, id, i),
    decreases s.len() - i,
{
    if i < s.len() && s[i] != Some(id) {
        lemma_first_index_congruent(s, t, id, i + 1);
    }
}

/// A position holding the id with no earlier occurrence is the file's start.
proof fn lemma_first_index_is(s: Seq<Option<u32>>, id: u32, r: int)
    requires
        0 <= r < s.len(),
        s[r] == Some(id),
        forall|j: int| 0 <= j < r ==> s[j] != Some(id),
    ensures
        file_start(s, id) == r,
{
    lemma_first_index_from(s, id, 0);
    let fi = first_index_from(s, id, 0);
    if fi < r {
        assert(s[fi] != Some(id));
        assert(false);
    }
    if fi > r {
        assert(s[r] != Some(id));
        assert(false);
    }
}

/// Moving any file never moves another file, and moves the file itself only
/// to the left.
proof fn lemma_move_file_start(s: Seq<Option<u32>>, id: u32, id2: u32)
    requires
        wf_image(s),
        has_id(s, id2),
    ensures
        has_id(move_file(s, id), id2),
        file_start(move_file(s, id), id2) <= file_start(s, id2),
{
    let t = move_file(s, id);
    lemma_move_file_points(s, id, id2);
    if !has_id(s, id) || first_fit_pos(
        s,
        file_end(s, id) - file_start(s, id),
        file_start(s, id),
    ) is None {
    } else {
        let start = file_start(s, id);
        let len = file_end(s, id) - start;
        let p = first_fit_pos(s, len, start)->0;
        lemma_move_geometry(s, id);
        if id2 == id {
            lemma_file_occurrences(s, id);
            assert(len >= 1 && 0 <= p < s.len());
            assert(t[p] == Some(id2));
            assert(has_id(t, id2));
            lemma_first_index_is(t, id2, p);
            assert(file_start(t, id2) == p <= start);
        } else {
            let w = choose|i: int| 0 <= i < s.len() && s[i] == Some(id2);
            assert(t[w] == Some(id2));
            assert(has_id(t, id2));
            lemma_first_index_congruent(s, t, id2, 0);
        }
    }
}

/// Compacting ids `id` down to 0 conserves the multiset of blocks and keeps
/// the image well formed.
proof fn lemma_compact_ids_conserves(s: Seq<Option<u32>>, id: int)
    requires
        wf_image(s),
    ensures
        compact_ids(s, id).to_multiset() == s.to_multiset(),
        compact_ids(s, id).len() == s.len(),
        wf_image(compact_ids(s, id)),
    decreases id + 1,
{
    if id >= 0 {
        assert(contiguous_id(s, id as u32));
        lemma_move_file_conserves(s, id as u32);
        lemma_move_file_preserves_wf(s, id as u32);
        lemma_compact_ids_conserves(move_file(s, id as u32), id - 1);
    }
}

/// Compacting ids `id` down to 0 keeps every present file present, at or
/// left of its old position.
proof fn lemma_compact_ids_start(s: Seq<Option<u32>>, id: int, id2: u32)
    requires
        wf_image(s),
        has_id(s, id2),
    ensures
        has_id(compact_ids(s, id), id2),
        file_start(compact_ids(s, id), id2) <= file_start(s, id2),
    decreases id + 1,
{
    if id >= 0 {
        lemma_move_file_start(s, id as u32, id2);
        lemma_move_file_preserves_wf(s, id as u32);
        lemma_compact_ids_start(move_file(s, id as u32), id - 1, id2);
    }
}

/// Conservation law: whole-file compaction only relocates blocks, so the
/// multiset of blocks (each occupied id with its multiplicity, and the
/// number of free blocks) is exactly conserved.
pub proof fn lemma_whole_file_compact_conserves(s: Seq<Option<u32>>)
    requires
        wf_image(s),
    ensures
        whole_file_compact(s).to_multiset() == s.to_multiset(),
        whole_file_compact(s).len() == s.len(),
{
    if max_id(s) is Some {
        lemma_compact_ids_conserves(s, max_id(s)->0 as int);
    }
}

/// No-rightward-move law: whole-file compaction leaves every file at or to
/// the left of its original start position.
pub proof fn lemma_whole_file_no_rightward(s: Seq<Option<u32>>, id: u32)
    requires
        wf_image(s),
        has_id(s, id),
    ensures
        has_id(whole_file_compact(s), id),
        file_start(whole_file_compact(s), id) <= file_start(s, id),
{
    if max_id(s) is Some {
        lemma_compact_ids_start(s, max_id(s)->0 as int, id);
    }
}

/// Any position covered by an index whose regions end within `bound` lies
/// below `bound`.
proof fn lemma_cover_bound(m: FreeSpaceMap, bound: int, p: int)
    requires
        forall|k: int|
            0 <= k < m.regions@.len() ==> (#[trigger] m.regions@[k]).pos + m.regions@[k].size
                <= bound,
        m.covers(p),
    ensures
        0 <= p < bound,
{
    let k = choose|k: int|
        0 <= k < m.regions@.len() && (#[trigger] m.regions@[k]).pos <= p < m.regions@[k].pos
            + m.regions@[k].size;
}

/// An index whose covered positions all lie within the image, and which
/// matches the image's free blocks, models the image.
proof fn lemma_models_from_parts(m: FreeSpaceMap, s: Seq<Option<u32>>)
    requires
        m.wf(),
        forall|p: int| 0 <= p < s.len() ==> (m.covers(p) <==> s[p] is None),
        forall|p: int| m.covers(p) ==> 0 <= p < s.len(),
    ensures
        m.models(s),
{
    assert forall|k: int|
        0 <= k < m.regions@.len() implies (#[trigger] m.regions@[k]).pos + m.regions@[k].size
        <= s.len() by {
        let e = m.regions@[k];
        let q = e.pos + e.size - 1;
        assert(e.pos <= q < e.pos + e.size);
        assert(m.covers(q));
    }
}

/// With an index that models the image, the index's first-fit answer agrees
/// with the leftmost fitting window in the image.
proof fn lemma_models_first_fit(m: FreeSpaceMap, s: Seq<Option<u32>>, need: int, before: int)
    requires
        m.models(s),
        1 <= need,
        0 <= before <= s.len(),
    ensures
        forall|k: int|
            0 <= k < m.regions@.len() && (#[trigger] m.regions@[k]).size >= need
                && m.regions@[k].pos < before ==> first_fit_pos(s, need, before) is Some,
        first_fit_pos(s, need, before) is Some ==> exists|k: int|
            0 <= k < m.regions@.len() && (#[trigger] m.regions@[k]).pos == first_fit_pos(
                s,
                need,
                before,
            )->0 && m.regions@[k].size >= need && m.regions@[k].pos < before,
        first_fit_pos(s, need, before) is Some ==> forall|k: int|
            0 <= k < m.regions@.len() && (#[trigger] m.regions@[k]).size >= need
                && m.regions@[k].pos < before ==> first_fit_pos(s, need, before)->0
                <= m.regions@[k].pos,
{
    let v = m.regions@;
    lemma_first_fit_scan(s, need, before, 0);
    assert forall|k: int|
        0 <= k < v.len() && (#[trigger] v[k]).size >= need && v[k].pos
            < before implies first_fit_pos(s, need, before) is Some by {
        let e = v[k];
        assert(fits(s, e.pos as int, need)) by {
            assert forall|x: int| e.pos <= x < e.pos + need implies s[x] is None by {
                assert(v[k].pos <= x < v[k].pos + v[k].size);
                assert(m.covers(x));
            }
        }
        if first_fit_pos(s, need, before) is None {
            assert(!fits(s, e.pos as int, need));
        }
    }
    if first_fit_pos(s, need, before) is Some {
        let p = first_fit_pos(s, need, before)->0;
        assert(fits(s, p, need));
        assert(s[p] is None);
        assert(m.covers(p));
        let k0 = choose|k: int|
            0 <= k < v.len() && (#[trigger] v[k]).pos <= p < v[k].pos + v[k].size;
        let e = v[k0];
        assert(e.pos == p) by {
            if e.pos < p {
                assert(fits(s, p - 1, need)) by {
                    assert(e.pos <= p - 1 < e.pos + e.size);
                    assert(m.covers(p - 1));
                    assert(s[p - 1] is None);
                    assert forall|x: int| p - 1 <= x < p - 1 + need implies s[x] is None by {
                        if x >= p {
                            assert(p <= x < p + need);
                        }
                    }
                }
                assert(!fits(s, p - 1, need));
            }
        }
        assert(e.size >= need) by {
            if e.pos + e.size < p + need {
                let x = e.pos + e.size;
                assert(p <= x < p + need);
                assert(s[x] is None);
                assert(m.covers(x));
                let k1 = choose|k: int|
                    0 <= k < v.len() && (#[trigger] v[k]).pos <= x < v[k].pos + v[k].size;
                assert(k1 != k0);
                if k1 < k0 {
                    crate::free_space::lemma_entries_ordered(v, k1, k0);
                } else {
                    crate::free_space::lemma_entries_ordered(v, k0, k1);
                }
                assert(false);
            }
        }
        assert(0 <= k0 < v.len() && v[k0].pos == p && v[k0].size >= need && v[k0].pos < before);
        assert forall|k: int|
            0 <= k < v.len() && (#[trigger] v[k]).size >= need && v[k].pos < before implies p
            <= v[k].pos by {
            let e2 = v[k];
            if e2.pos < p {
                assert(fits(s, e2.pos as int, need)) by {
                    assert forall|x: int| e2.pos <= x < e2.pos + need implies s[x] is None by {
                        assert(v[k].pos <= x < v[k].pos + v[k].size);
                        assert(m.covers(x));
                    }
                }
                assert(!fits(s, e2.pos as int, need));
                assert(false);
            }
        }
    }
}

/// Whether block `b` belongs to file `id`.
fn block_is(b: &Option<u32>, id: u32) -> (r: bool)
    ensures
        r == (*b == Some(id)),
{
    match b {
        Some(x) => *x == id,
        None => false,
    }
}

/// The highest file id present in the image, by a single scan.
fn find_max_id(disk_map: &Vec<Option<u32>>) -> (r: Option<u32>)
    ensures
        r == max_id(disk_map@),
{
    let mut r: Option<u32> = None;
    let mut i: usize = 0;
    let n = disk_map.len();
    while i < n
        invariant
            i <= n,
            n == disk_map@.len(),
            r == max_id(disk_map@.subrange(0, i as int)),
        decreases n - i,
    {
        proof {
            let cur = disk_map@.subrange(0, i + 1 as int);
            assert(cur.drop_last() =~= disk_map@.subrange(0, i as int));
            assert(cur.last() == disk_map@[i as int]);
        }
        match (r, disk_map[i]) {
            (None, b) => {
                r = b;
            },
            (Some(_), None) => {},
            (Some(m), Some(x)) => {
                if x > m {
                    r = Some(x);
                }
            },
        }
        i = i + 1;
    }
    proof {
        assert(disk_map@.subrange(0, n as int) =~= disk_map@);
    }
    r
}

/// The start position and length of file `id`'s run, or `None` when the file
/// is absent.
fn find_file_span(disk_map: &Vec<Option<u32>>, id: u32) -> (r: Option<(usize, usize)>)
    ensures
        match r {
            Some(span) => has_id(disk_map@, id) && span.0 == file_start(disk_map@, id) && span.0
                + span.1 == file_end(disk_map@, id) && span.1 >= 1 && span.0 + span.1
                <= disk_map@.len(),
            None => !has_id(disk_map@, id),
        },
{
    let ghost s = disk_map@;
    let n = disk_map.len();
    let mut i: usize = 0;
    while i < n && !block_is(&disk_map[i], id)
        invariant
            i <= n,
            n == s.len(),
            s == disk_map@,
            file_start(s, id) == first_index_from(s, id, i as int),
            forall|j: int| 0 <= j < i ==> s[j] != Some(id),
        decreases n - i,
    {
        i = i + 1;
    }
    if i == n {
        proof {
            assert(first_index_from(s, id, n as int) == n);
            if has_id(s, id) {
                let w = choose|w: int| 0 <= w < s.len() && s[w] == Some(id);
                assert(s[w] != Some(id));
            }
        }
        return None;
    }
    let start = i;
    proof {
        assert(s[start as int] == Some(id));
        assert(first_index_from(s, id, start as int) == start);
        assert(has_id(s, id));
    }
    let mut j: usize = i;
    while j < n && block_is(&disk_map[j], id)
        invariant
            start <= j <= n,
            n == s.len(),
            s == disk_map@,
            file_end(s, id) == run_end_from(s, id, j as int),
        decreases n - j,
    {
        j = j + 1;
    }
    proof {
        assert(run_end_from(s, id, j as int) == j);
    }
    Some((start, j - start))
}

/// Whole-file compaction: processes files in descending id order, each
/// visited once; a file moves, as an atomic unit, into the leftmost free
/// region that can hold it and begins strictly left of the file, or stays
/// where it is.  A free-space index of the image is queried for each file
/// and maintained across moves.
pub fn defrag_whole_files(disk_map: &mut Vec<Option<u32>>)
    requires
        wf_image(old(disk_map)@),
        old(disk_map)@.len() <= u32::MAX,
    ensures
        final(disk_map)@ == whole_file_compact(old(disk_map)@),
{
    let n = disk_map.len();
    let top: u32 = match find_max_id(disk_map) {
        None => {
            return ;
        },
        Some(m) => m,
    };
    let mut fsm = free_space_map(disk_map.as_slice());
    let mut idp: u64 = top as u64 + 1;
    while idp > 0
        invariant
            idp <= top as u64 + 1,
            n == disk_map@.len(),
            n <= u32::MAX,
            wf_image(disk_map@),
            fsm.models(disk_map@),
            compact_ids(old(disk_map)@, top as int) == compact_ids(disk_map@, idp as int - 1),
        decreases idp,
    {
        idp = idp - 1;
        let id = idp as u32;
        let ghost s0 = disk_map@;
        proof {
            assert(compact_ids(s0, id as int) == compact_ids(move_file(s0, id), id as int - 1));
        }
        match find_file_span(disk_map, id) {
            None => {
                proof {
                    assert(move_file(s0, id) == s0);
                }
            },
            Some((start, flen)) => {
                proof {
                    assert(flen <= n && start < n);
                    lemma_models_first_fit(fsm, s0, flen as int, start as int);
                }
                match fsm.first_fit(flen as u32, start as u32) {
                    None => {
                        proof {
                            if first_fit_pos(s0, flen as int, start as int) is Some {
                                let k = choose|k: int|
                                    0 <= k < fsm.regions@.len() && (#[trigger] fsm.regions@[k]).pos
                                        == first_fit_pos(s0, flen as int, start as int)->0
                                        && fsm.regions@[k].size >= flen as int
                                        && fsm.regions@[k].pos < start as int;
                                assert(false);
                            }
                            assert(move_file(s0, id) == s0);
                        }
                    },
                    Some(entry) => {
                        proof {
                            let ki = choose|ki: int|
                                0 <= ki < fsm.regions@.len() && fsm.regions@[ki] == entry;
                            assert(fsm.regions@[ki].size >= flen as int && fsm.regions@[ki].pos
                                < start as int);
                            assert(first_fit_pos(s0, flen as int, start as int) is Some);
                            let q = first_fit_pos(s0, flen as int, start as int)->0;
                            let k = choose|k: int|
                                0 <= k < fsm.regions@.len() && (#[trigger] fsm.regions@[k]).pos
                                    == q && fsm.regions@[k].size >= flen as int
                                    && fsm.regions@[k].pos < start as int;
                            assert(entry.pos <= fsm.regions@[k].pos);
                            assert(q <= entry.pos as int);
                            assert(entry.pos as int == q);
                            assert(contiguous_id(s0, id));
                            lemma_move_geometry(s0, id);
                        }
                        let p = entry.pos as usize;
                        let ghost fsm0 = fsm;
                        fsm.shrink(entry, flen as u32);
                        let ghost fsm1 = fsm;
                        let mut k: usize = 0;
                        while k < flen
                            invariant
                                k <= flen,
                                p + flen <= n,
                                n == disk_map@.len(),
                                forall|j: int|
                                    0 <= j < n && !(p <= j < p + k) ==> disk_map@[j] == s0[j],
                                forall|j: int| p <= j < p + k ==> disk_map@[j] == Some(id),
                            decreases flen - k,
                        {
                            disk_map.set(p + k, Some(id));
                            k = k + 1;
                        }
                        let ghost d1 = disk_map@;
                        proof {
                            assert(d1 =~= write_run(s0, p as int, flen as int, id));
                        }
                        let mut k: usize = 0;
                        while k < flen
                            invariant
                                k <= flen,
                                start + flen <= n,
                                n == disk_map@.len(),
                                forall|j: int|
                                    0 <= j < n && !(start <= j < start + k) ==> disk_map@[j]
                                        == d1[j],
                                forall|j: int| start <= j < start + k ==> disk_map@[j] is None,
                            decreases flen - k,
                        {
                            disk_map.set(start + k, None);
                            k = k + 1;
                        }
                        let ghost d2 = disk_map@;
                        proof {
                            assert(d2 =~= clear_run(d1, start as int, flen as int));
                            assert(d2 =~= move_file(s0, id));
                            // the freed run is not covered after the shrink
                            assert forall|x: int|
                                start <= x < start + flen implies !fsm1.covers(x) by {
                                if fsm1.covers(x) {
                                    assert(fsm0.covers(x));
                                    assert(s0[x] is None);
                                    assert(s0[x] == Some(id));
                                }
                            }
                        }
                        fsm.insert(
                            SpaceMapEntry { size: flen as u32, pos: start as u32 },
                        );
                        proof {
                            // the index again models the image
                            assert forall|x: int|
                                0 <= x < n implies (fsm.covers(x) <==> d2[x] is None) by {
                                assert(fsm.covers(x) <==> (fsm1.covers(x) || start <= x < start
                                    + flen));
                                assert(fsm1.covers(x) <==> (fsm0.covers(x) && !(entry.pos <= x
                                    < entry.pos + flen)));
                                assert(fsm0.covers(x) <==> s0[x] is None);
                            }
                            assert forall|x: int| fsm.covers(x) implies 0 <= x < n by {
                                if fsm1.covers(x) {
                                    assert(fsm0.covers(x));
                                    lemma_cover_bound(fsm0, n as int, x);
                                }
                            }
                            lemma_models_from_parts(fsm, d2);
                            lemma_move_file_preserves_wf(s0, id);
                        }
                    },
                }
            },
        }
    }
    proof {
        assert(compact_ids(disk_map@, -1) == disk_map@);
        assert(max_id(old(disk_map)@) == Some(top));
    }
}

} // verus!
