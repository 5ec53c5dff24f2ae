//! A block-addressable disk image: a sequence of blocks, each either free or
//! occupied by one block of a file (identified by a numeric id).
//!
//! The image is decoded from a run-length encoding (one digit per run,
//! alternating file runs and free runs, starting with a file run), compacted
//! by one of two policies, and validated with a positional checksum.

use vstd::prelude::*;

verus! {

/// A decimal digit character.
pub open spec fn is_digit(c: char) -> bool {
    ('0' as u32) <= (c as u32) && (c as u32) <= ('9' as u32)
}

/// Numeric value of a decimal digit character.
pub open spec fn digit_val(c: char) -> nat {
    ((c as u32) - ('0' as u32)) as nat
}

/// The blocks contributed by the runs of `chars[i..]`, when the run at `i`
/// is a file run iff `is_file` and the next file id is `id`.  Decoding stops
/// at the end of the string or at the first non-digit character.
pub open spec fn decode_from(chars: Seq<char>, i: int, id: nat, is_file: bool) -> Seq<Option<u32>>
    decreases chars.len() - i,
{
    if i < 0 || i >= chars.len() || !is_digit(chars[i]) {
        Seq::empty()
    } else {
        let run = Seq::new(digit_val(chars[i]), |k: int| if is_file {
            Some(id as u32)
        } else {
            None
        });
        run + decode_from(chars, i + 1, if is_file { id + 1 } else { id }, !is_file)
    }
}

/// The disk image described by a run-length encoding: runs alternate between
/// file runs and free runs, starting with a file run stamped with id 0.
pub open spec fn decode_spec(chars: Seq<char>) -> Seq<Option<u32>> {
    decode_from(chars, 0, 0, true)
}

/// Expands a run-length encoding into an explicit block sequence.  Even runs
/// (0-based) are file runs, stamped with sequential ids; odd runs are free.
/// Decoding stops silently at the first non-digit character.
pub fn decode_disk_map(input: &str) -> (r: Vec<Option<u32>>)
    requires
        input@.len() <= u32::MAX,
    ensures
        r@ == decode_spec(input@),
{
    let n = input.unicode_len();
    let mut r: Vec<Option<u32>> = Vec::new();
    let mut i: usize = 0;
    let mut id: u32 = 0;
    let mut is_file: bool = true;
    while i < n
        invariant
            input@.len() == n,
            n <= u32::MAX,
            i <= n,
            id <= i,
            decode_spec(input@) == r@ + decode_from(input@, i as int, id as nat, is_file),
        decreases n - i,
    {
        let c = input.get_char(i);
        let cv = c as u32;
        if cv < 48 || cv > 57 {
            assert(!is_digit(input@[i as int]));
            assert(decode_from(input@, i as int, id as nat, is_file) =~= Seq::empty());
            assert(decode_spec(input@) =~= r@);
            return r;
        }
        let d = cv - 48;
        let ghost run = Seq::new(digit_val(c), |k: int| if is_file {
            Some(id)
        } else {
            None
        });
        let ghost r_before = r@;
        let mut k: u32 = 0;
        while k < d
            invariant
                k <= d,
                d == digit_val(input@[i as int]),
                run == Seq::new(digit_val(input@[i as int]), |k: int| if is_file {
                    Some(id)
                } else {
                    None
                }),
                r@ == r_before + run.subrange(0, k as int),
            decreases d - k,
        {
            if is_file {
                r.push(Some(id));
            } else {
                r.push(None);
            }
            assert(run.subrange(0, k + 1 as int) =~= run.subrange(0, k as int).push(run[k as int]));
            k = k + 1;
        }
        assert(run.subrange(0, d as int) =~= run);
        proof {
            assert(decode_from(input@, i as int, id as nat, is_file) == run + decode_from(
                input@,
                i as int + 1,
                if is_file { id as nat + 1 } else { id as nat },
                !is_file,
            ));
        }
        if is_file {
            id = id + 1;
        }
        is_file = !is_file;
        i = i + 1;
    }
    assert(decode_from(input@, i as int, id as nat, is_file) =~= Seq::empty());
    assert(decode_spec(input@) =~= r@);
    r
}

/// The unique arrangement that block-level compaction produces: while a free
/// block precedes an occupied block, the occupant of the rightmost occupied
/// block moves into the leftmost free block.
pub open spec fn block_compact(s: Seq<Option<u32>>) -> Seq<Option<u32>>
    decreases s.len(),
{
    if s.len() == 0 {
        s
    } else if s[0] is Some {
        seq![s[0]] + block_compact(s.subrange(1, s.len() as int))
    } else if s.last() is None {
        block_compact(s.subrange(0, s.len() - 1)) + seq![Option::<u32>::None]
    } else {
        seq![s.last()] + block_compact(s.subrange(1, s.len() - 1)) + seq![Option::<u32>::None]
    }
}

/// Block-level compaction never changes the length of the image.
pub proof fn lemma_block_compact_len(s: Seq<Option<u32>>)
    ensures
        block_compact(s).len() == s.len(),
    decreases s.len(),
{
    if s.len() == 0 {
    } else if s[0] is Some {
        lemma_block_compact_len(s.subrange(1, s.len() as int));
    } else if s.last() is None {
        lemma_block_compact_len(s.subrange(0, s.len() - 1));
    } else {
        lemma_block_compact_len(s.subrange(1, s.len() - 1));
    }
}

/// Conservation law: block-level compaction only reassigns occupants between
/// block slots, so the multiset of blocks (each occupied id with its
/// multiplicity, and the number of free blocks) is exactly conserved.
pub proof fn lemma_block_compact_conserves(s: Seq<Option<u32>>)
    ensures
        block_compact(s).to_multiset() == s.to_multiset(),
    decreases s.len(),
{
    broadcast use vstd::seq_lib::lemma_multiset_commutative;

    if s.len() == 0 {
    } else if s[0] is Some {
        let rest = s.subrange(1, s.len() as int);
        lemma_block_compact_conserves(rest);
        assert(s =~= seq![s[0]] + rest);
        assert((seq![s[0]] + rest).to_multiset() == seq![s[0]].to_multiset().add(
            rest.to_multiset(),
        ));
        assert((seq![s[0]] + block_compact(rest)).to_multiset() == seq![s[0]].to_multiset().add(
            block_compact(rest).to_multiset(),
        ));
    } else if s.last() is None {
        let front = s.subrange(0, s.len() - 1);
        lemma_block_compact_conserves(front);
        assert(s =~= front + seq![s.last()]);
        assert(seq![s.last()] =~= seq![Option::<u32>::None]);
        assert((front + seq![s.last()]).to_multiset() == front.to_multiset().add(
            seq![s.last()].to_multiset(),
        ));
        assert((block_compact(front) + seq![Option::<u32>::None]).to_multiset()
            == block_compact(front).to_multiset().add(seq![Option::<u32>::None].to_multiset()));
    } else {
        let mid = s.subrange(1, s.len() - 1);
        lemma_block_compact_conserves(mid);
        assert(s =~= seq![s[0]] + mid + seq![s.last()]);
        assert(seq![s[0]] =~= seq![Option::<u32>::None]);
        assert((seq![s[0]] + mid + seq![s.last()]).to_multiset() == seq![s[0]].to_multiset().add(
            mid.to_multiset(),
        ).add(seq![s.last()].to_multiset()));
        assert((seq![s.last()] + block_compact(mid) + seq![Option::<u32>::None]).to_multiset()
            == seq![s.last()].to_multiset().add(block_compact(mid).to_multiset()).add(
            seq![Option::<u32>::None].to_multiset(),
        ));
        assert(block_compact(s).to_multiset() =~= s.to_multiset());
    }
}

/// A disk image whose free blocks all sit after its occupied blocks.
pub open spec fn free_blocks_trailing(s: Seq<Option<u32>>) -> bool {
    forall|i: int, j: int| 0 <= i < j < s.len() && s[i] is None ==> s[j] is None
}

/// Suffix law: after block-level compaction every free block's position is
/// at or after every occupied block's position.
pub proof fn lemma_block_compact_free_suffix(s: Seq<Option<u32>>)
    ensures
        free_blocks_trailing(block_compact(s)),
    decreases s.len(),
{
    lemma_block_compact_len(s);
    if s.len() == 0 {
    } else if s[0] is Some {
        let rest = s.subrange(1, s.len() as int);
        lemma_block_compact_free_suffix(rest);
        lemma_block_compact_len(rest);
        let c = seq![s[0]] + block_compact(rest);
        assert forall|i: int, j: int| 0 <= i < j < c.len() && c[i] is None implies c[j] is None by {
            assert(i >= 1);
            assert(c[i] == block_compact(rest)[i - 1]);
            assert(c[j] == block_compact(rest)[j - 1]);
        }
    } else if s.last() is None {
        let front = s.subrange(0, s.len() - 1);
        lemma_block_compact_free_suffix(front);
        lemma_block_compact_len(front);
        let c = block_compact(front) + seq![Option::<u32>::None];
        assert forall|i: int, j: int| 0 <= i < j < c.len() && c[i] is None implies c[j] is None by {
            if j < c.len() - 1 {
                assert(c[i] == block_compact(front)[i]);
                assert(c[j] == block_compact(front)[j]);
            }
        }
    } else {
        let mid = s.subrange(1, s.len() - 1);
        lemma_block_compact_free_suffix(mid);
        lemma_block_compact_len(mid);
        let c = seq![s.last()] + block_compact(mid) + seq![Option::<u32>::None];
        assert forall|i: int, j: int| 0 <= i < j < c.len() && c[i] is None implies c[j] is None by {
            if j < c.len() - 1 {
                assert(i >= 1);
                assert(c[i] == block_compact(mid)[i - 1]);
                assert(c[j] == block_compact(mid)[j - 1]);
            }
        }
    }
}

/// An image whose free blocks already trail its occupied blocks is a fixed
/// point of block-level compaction.
pub proof fn lemma_block_compact_fixed(s: Seq<Option<u32>>)
    requires
        free_blocks_trailing(s),
    ensures
        block_compact(s) == s,
    decreases s.len(),
{
    if s.len() == 0 {
    } else if s[0] is Some {
        let rest = s.subrange(1, s.len() as int);
        assert(free_blocks_trailing(rest)) by {
            assert forall|i: int, j: int|
                0 <= i < j < rest.len() && rest[i] is None implies rest[j] is None by {
                assert(rest[i] == s[i + 1]);
                assert(rest[j] == s[j + 1]);
            }
        }
        lemma_block_compact_fixed(rest);
        assert(seq![s[0]] + rest =~= s);
    } else {
        assert(s.last() is None) by {
            if s.len() > 1 {
                assert(s[0] is None);
            }
        }
        let front = s.subrange(0, s.len() - 1);
        assert(free_blocks_trailing(front));
        lemma_block_compact_fixed(front);
        assert(block_compact(front) + seq![Option::<u32>::None] =~= s);
    }
}

/// Idempotence law: re-running block-level compaction on its own output
/// yields the same output.
pub proof fn lemma_block_compact_idempotent(s: Seq<Option<u32>>)
    ensures
        block_compact(block_compact(s)) == block_compact(s),
{
    lemma_block_compact_free_suffix(s);
    lemma_block_compact_fixed(block_compact(s));
}

/// Block-level compaction: swaps the occupant of the rightmost occupied block
/// into the leftmost free block until no free block precedes an occupied one.
pub fn defrag(disk_map: &mut Vec<Option<u32>>)
    ensures
        final(disk_map)@ == block_compact(old(disk_map)@),
{
    let n = disk_map.len();
    let mut left: usize = 0;
    let mut right: usize = n;
    proof {
        assert(disk_map@.subrange(0, n as int) =~= disk_map@);
        assert(disk_map@.subrange(0, 0) + block_compact(disk_map@.subrange(0, n as int))
            + disk_map@.subrange(n as int, n as int) =~= block_compact(disk_map@));
    }
    while left < right
        invariant
            left <= right <= n,
            n == disk_map@.len(),
            block_compact(old(disk_map)@) == disk_map@.subrange(0, left as int) + block_compact(
                disk_map@.subrange(left as int, right as int),
            ) + disk_map@.subrange(right as int, n as int),
        decreases right - left,
    {
        let ghost d = disk_map@;
        let ghost l = left as int;
        let ghost r = right as int;
        let ghost w = d.subrange(l, r);
        if disk_map[left].is_some() {
            proof {
                assert(w[0] == d[l]);
                assert(w.subrange(1, r - l) =~= d.subrange(l + 1, r));
                assert(d.subrange(0, l) + block_compact(w) + d.subrange(r, n as int)
                    =~= d.subrange(0, l + 1) + block_compact(d.subrange(l + 1, r)) + d.subrange(
                    r,
                    n as int,
                ));
            }
            left = left + 1;
        } else if disk_map[right - 1].is_none() {
            proof {
                assert(w.last() == d[r - 1]);
                assert(w[0] == d[l]);
                assert(w.subrange(0, r - 1 - l) =~= d.subrange(l, r - 1));
                assert(d.subrange(r - 1, n as int) =~= seq![d[r - 1]] + d.subrange(r, n as int));
                assert(d.subrange(0, l) + block_compact(w) + d.subrange(r, n as int)
                    =~= d.subrange(0, l) + block_compact(d.subrange(l, r - 1)) + d.subrange(
                    r - 1,
                    n as int,
                ));
            }
            right = right - 1;
        } else {
            let moved = disk_map[right - 1];
            disk_map.set(left, moved);
            disk_map.set(right - 1, None);
            proof {
                let d2 = disk_map@;
                assert(w.last() == d[r - 1]);
                assert(w[0] == d[l]);
                assert(w.subrange(1, r - 1 - l) =~= d2.subrange(l + 1, r - 1));
                assert(d2.subrange(0, l + 1) =~= d.subrange(0, l) + seq![d[r - 1]]);
                assert(d2.subrange(r - 1, n as int) =~= seq![Option::<u32>::None] + d.subrange(
                    r,
                    n as int,
                ));
                assert(block_compact(w) == seq![w.last()] + block_compact(w.subrange(1, r - 1 - l))
                    + seq![Option::<u32>::None]);
                assert(d.subrange(0, l) + block_compact(w) + d.subrange(r, n as int)
                    =~= d2.subrange(0, l + 1) + block_compact(d2.subrange(l + 1, r - 1))
                    + d2.subrange(r - 1, n as int));
            }
            left = left + 1;
            right = right - 1;
        }
    }
    proof {
        assert(disk_map@.subrange(left as int, right as int) =~= Seq::empty());
        assert(block_compact(Seq::<Option<u32>>::empty()) =~= Seq::empty());
        assert(disk_map@.subrange(0, left as int) + Seq::<Option<u32>>::empty() + disk_map@.subrange(
            right as int,
            n as int,
        ) =~= disk_map@);
    }
}

/// The contribution of one block to the checksum: its file id, or 0 if free.
pub open spec fn block_value(b: Option<u32>) -> int {
    match b {
        Some(id) => id as int,
        None => 0,
    }
}

/// Sum of `position * id` over the occupied blocks of `s`.
pub open spec fn checksum_spec(s: Seq<Option<u32>>) -> int
    decreases s.len(),
{
    if s.len() == 0 {
        0
    } else {
        checksum_spec(s.drop_last()) + (s.len() - 1) * block_value(s.last())
    }
}

proof fn lemma_checksum_nonneg(s: Seq<Option<u32>>)
    ensures
        checksum_spec(s) >= 0,
    decreases s.len(),
{
    if s.len() > 0 {
        lemma_checksum_nonneg(s.drop_last());
        vstd::arithmetic::mul::lemma_mul_nonnegative(s.len() - 1, block_value(s.last()));
    }
}

/// Every prefix of `s` contributes at most the checksum of the whole of `s`.
proof fn lemma_checksum_prefix_bound(s: Seq<Option<u32>>, k: int)
    requires
        0 <= k <= s.len(),
    ensures
        checksum_spec(s.subrange(0, k)) <= checksum_spec(s),
    decreases s.len() - k,
{
    if k == s.len() {
        assert(s.subrange(0, k) =~= s);
    } else {
        let p = s.subrange(0, k + 1);
        assert(p.drop_last() =~= s.subrange(0, k));
        assert(p.last() == s[k]);
        vstd::arithmetic::mul::lemma_mul_nonnegative(k, block_value(s[k]));
        lemma_checksum_prefix_bound(s, k + 1);
    }
}

/// Positional checksum of a disk image: accumulates `position * id` over all
/// occupied blocks; free blocks contribute nothing.
pub fn checksum(disk_map: &[Option<u32>]) -> (r: usize)
    requires
        checksum_spec(disk_map@) <= usize::MAX,
    ensures
        r == checksum_spec(disk_map@),
{
    let mut sum: usize = 0;
    let mut i: usize = 0;
    let n = disk_map.len();
    while i < n
        invariant
            i <= n,
            n == disk_map@.len(),
            checksum_spec(disk_map@) <= usize::MAX,
            sum == checksum_spec(disk_map@.subrange(0, i as int)),
        decreases n - i,
    {
        let ghost p = disk_map@.subrange(0, i + 1 as int);
        proof {
            assert(p.drop_last() =~= disk_map@.subrange(0, i as int));
            assert(p.last() == disk_map@[i as int]);
            lemma_checksum_nonneg(p.drop_last());
            vstd::arithmetic::mul::lemma_mul_nonnegative(i as int, block_value(disk_map@[i as int]));
            lemma_checksum_prefix_bound(disk_map@, i + 1);
            assert(checksum_spec(p) == sum + (i as int) * block_value(disk_map@[i as int]));
        }
        match disk_map[i] {
            Some(fid) => {
                assert((i as int) * block_value(disk_map@[i as int]) == (i as int) * (fid as int));
                assert(sum + (i as int) * (fid as int) <= usize::MAX);
                assert((fid as usize) * i == (i as int) * (fid as int)) by (nonlinear_arith);
                sum = sum + (fid as usize) * i;
            },
            None => {},
        }
        i = i + 1;
    }
    assert(disk_map@.subrange(0, n as int) =~= disk_map@);
    sum
}

} // verus!
