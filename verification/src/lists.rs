//! Location-list comparison: pairs of numbers read line by line, compared by
//! total distance after sorting, or by a similarity score.

use vstd::prelude::*;
use crate::parse::{
    sep_end_from,
    token_end_from,
    is_digit_token,
    digits_val_from,
    lemma_sep_end_from,
    lemma_token_end_from,
    skip_separators,
    scan_token_end,
    parse_u32_token,
};
use vstd::relations::{sorted_by, total_ordering};
use vstd::seq_lib::lemma_sorted_unique;

verus! {

/// Numeric order on `u32`.
pub open spec fn u32_le() -> spec_fn(u32, u32) -> bool {
    |x: u32, y: u32| x <= y
}

/// The first two whitespace-separated decimal numbers on the line, or `None`
/// when the line does not start with two such numbers that fit in `u32`.
pub open spec fn parse_line_spec(s: Seq<char>) -> Option<(u32, u32)> {
    let t1 = sep_end_from(s, 0);
    let e1 = token_end_from(s, t1);
    let t2 = sep_end_from(s, e1);
    let e2 = token_end_from(s, t2);
    if is_digit_token(s, t1, e1) && digits_val_from(s, t1, e1) <= u32::MAX && is_digit_token(
        s,
        t2,
        e2,
    ) && digits_val_from(s, t2, e2) <= u32::MAX {
        Some((digits_val_from(s, t1, e1) as u32, digits_val_from(s, t2, e2) as u32))
    } else {
        None
    }
}

/// Reads the first two whitespace-separated decimal numbers of a line.
pub fn parse_line(line: &str) -> (r: Option<(u32, u32)>)
    ensures
        r == parse_line_spec(line@),
{
    let n = line.unicode_len();
    proof {
        lemma_sep_end_from(line@, 0);
    }
    let t1 = skip_separators(line, 0, n);
    proof {
        lemma_token_end_from(line@, t1 as int);
    }
    let e1 = scan_token_end(line, t1, n);
    let v1 = match parse_u32_token(line, t1, e1) {
        Some(v) => v,
        None => {
            return None;
        },
    };
    proof {
        lemma_sep_end_from(line@, e1 as int);
    }
    let t2 = skip_separators(line, e1, n);
    proof {
        lemma_token_end_from(line@, t2 as int);
    }
    let e2 = scan_token_end(line, t2, n);
    let v2 = match parse_u32_token(line, t2, e2) {
        Some(v) => v,
        None => {
            return None;
        },
    };
    Some((v1, v2))
}

/// Replacing one element replaces exactly one element of the multiset.
proof fn lemma_multiset_update<A>(s: Seq<A>, i: int, v: A)
    requires
        0 <= i < s.len(),
    ensures
        s.update(i, v).to_multiset() == s.to_multiset().remove(s[i]).insert(v),
{
    assert(s.update(i, v) =~= s.remove(i).insert(i, v));
    vstd::seq_lib::to_multiset_remove(s, i);
    vstd::seq_lib::to_multiset_insert(s.remove(i), i, v);
}

/// Swapping two elements leaves the multiset unchanged.
proof fn lemma_multiset_swap<A>(s: Seq<A>, i: int, j: int)
    requires
        0 <= i < s.len(),
        0 <= j < s.len(),
        i != j,
    ensures
        s.update(i, s[j]).update(j, s[i]).to_multiset() == s.to_multiset(),
{
    broadcast use vstd::multiset::group_multiset_axioms;

    let s1 = s.update(i, s[j]);
    lemma_multiset_update(s, i, s[j]);
    lemma_multiset_update(s1, j, s[i]);
    vstd::seq_lib::to_multiset_contains(s, s[i]);
    vstd::seq_lib::to_multiset_contains(s1, s[j]);
    assert(s.contains(s[i]));
    assert(s1[j] == s[j]);
    assert(s1.contains(s[j]));
    assert(s1.update(j, s[i]).to_multiset() =~= s.to_multiset());
}

/// Sorts the numbers in place into ascending order.
fn sort_u32s(v: &mut Vec<u32>)
    ensures
        final(v)@ == old(v)@.sort_by(u32_le()),
{
    let ghost orig = v@;
    let n = v.len();
    let mut i: usize = 1;
    while i < n
        invariant
            n == v@.len(),
            1 <= i <= n || (n == 0 && i == 1),
            v@.to_multiset() == orig.to_multiset(),
            forall|a: int, b: int| 0 <= a < b < i ==> v@[a] <= v@[b],
        decreases n - i,
    {
        let x = v[i];
        let mut j: usize = i;
        while j > 0 && v[j - 1] > x
            invariant
                0 <= j <= i < n,
                n == v@.len(),
                v@[j as int] == x,
                v@.to_multiset() == orig.to_multiset(),
                forall|a: int, b: int| 0 <= a < b <= i && b != j ==> v@[a] <= v@[b],
                forall|a: int| j < a <= i ==> x < v@[a],
            decreases j,
        {
            let ghost before = v@;
            let y = v[j - 1];
            v.set(j - 1, x);
            v.set(j, y);
            proof {
                assert(v@ =~= before.update(j - 1, before[j as int]).update(
                    j as int,
                    before[j - 1],
                ));
                lemma_multiset_swap(before, j - 1, j as int);
            }
            j = j - 1;
        }
        i = i + 1;
    }
    proof {
        let le = u32_le();
        assert(total_ordering(le));
        assert(sorted_by(v@, le));
        orig.lemma_sort_by_ensures(le);
        assert(sorted_by(orig.sort_by(le), le));
        lemma_sorted_unique(v@, orig.sort_by(le), le);
        assert(v@ =~= orig.sort_by(le));
    }
}

/// The absolute difference of two numbers.
pub open spec fn abs_diff_of(a: u32, b: u32) -> int {
    if a >= b {
        a - b
    } else {
        b - a
    }
}

/// Sum of pairwise absolute differences, pairing elements by position and
/// stopping at the shorter list.
pub open spec fn dist_sum(x: Seq<u32>, y: Seq<u32>) -> int
    decreases x.len(),
{
    if x.len() == 0 || y.len() == 0 {
        0
    } else {
        dist_sum(x.drop_last(), y.drop_last()) + if x.len() == y.len() {
            abs_diff_of(x.last(), y.last())
        } else if x.len() < y.len() {
            abs_diff_of(x.last(), y[x.len() - 1])
        } else {
            abs_diff_of(x[y.len() - 1], y.last())
        }
    }
}

proof fn lemma_dist_sum_prefix(x: Seq<u32>, y: Seq<u32>, k: int)
    requires
        0 <= k <= x.len(),
        x.len() == y.len(),
    ensures
        dist_sum(x.subrange(0, k), y.subrange(0, k)) <= dist_sum(x, y),
    decreases x.len() - k,
{
    if k == x.len() {
        assert(x.subrange(0, k) =~= x);
        assert(y.subrange(0, k) =~= y);
    } else {
        let px = x.subrange(0, k + 1);
        let py = y.subrange(0, k + 1);
        assert(px.drop_last() =~= x.subrange(0, k));
        assert(py.drop_last() =~= y.subrange(0, k));
        lemma_dist_sum_prefix(x, y, k + 1);
    }
}

/// Total distance between two lists: both are sorted ascending, then the
/// absolute differences of the pairs at equal ranks are summed.
pub fn total_distance(a: Vec<u32>, b: Vec<u32>) -> (r: u32)
    requires
        a@.len() == b@.len(),
        dist_sum(a@.sort_by(u32_le()), b@.sort_by(u32_le())) <= u32::MAX,
    ensures
        r == dist_sum(a@.sort_by(u32_le()), b@.sort_by(u32_le())),
{
    let mut a = a;
    let mut b = b;
    let ghost orig_a = a@;
    let ghost orig_b = b@;
    sort_u32s(&mut a);
    sort_u32s(&mut b);
    proof {
        orig_a.lemma_sort_by_ensures(u32_le());
        orig_b.lemma_sort_by_ensures(u32_le());
        vstd::seq_lib::to_multiset_len(orig_a);
        vstd::seq_lib::to_multiset_len(orig_b);
        vstd::seq_lib::to_multiset_len(a@);
        vstd::seq_lib::to_multiset_len(b@);
    }
    let ghost sa = a@;
    let ghost sb = b@;
    let n = a.len();
    let mut sum: u32 = 0;
    let mut i: usize = 0;
    while i < n
        invariant
            i <= n,
            n == sa.len() == sb.len(),
            sa == a@,
            sb == b@,
            dist_sum(sa, sb) <= u32::MAX,
            sum == dist_sum(sa.subrange(0, i as int), sb.subrange(0, i as int)),
        decreases n - i,
    {
        proof {
            let px = sa.subrange(0, i + 1 as int);
            let py = sb.subrange(0, i + 1 as int);
            assert(px.drop_last() =~= sa.subrange(0, i as int));
            assert(py.drop_last() =~= sb.subrange(0, i as int));
            assert(px.last() == sa[i as int] && py.last() == sb[i as int]);
            lemma_dist_sum_prefix(sa, sb, i + 1);
        }
        let x = a[i];
        let y = b[i];
        let d = if x >= y {
            x - y
        } else {
            y - x
        };
        sum = sum + d;
        i = i + 1;
    }
    proof {
        assert(sa.subrange(0, n as int) =~= sa);
        assert(sb.subrange(0, n as int) =~= sb);
    }
    sum
}

/// How many times `x` occurs in `s`.
pub open spec fn count_occ(s: Seq<u32>, x: u32) -> nat
    decreases s.len(),
{
    if s.len() == 0 {
        0
    } else {
        count_occ(s.drop_last(), x) + if s.last() == x {
            1nat
        } else {
            0nat
        }
    }
}

/// The similarity score: each left number contributes itself times the
/// number of its occurrences on the right.
pub open spec fn similarity_sum(a: Seq<u32>, b: Seq<u32>) -> int
    decreases a.len(),
{
    if a.len() == 0 {
        0
    } else {
        similarity_sum(a.drop_last(), b) + a.last() * count_occ(b, a.last())
    }
}

proof fn lemma_similarity_prefix(a: Seq<u32>, b: Seq<u32>, k: int)
    requires
        0 <= k <= a.len(),
    ensures
        similarity_sum(a.subrange(0, k), b) <= similarity_sum(a, b),
    decreases a.len() - k,
{
    if k == a.len() {
        assert(a.subrange(0, k) =~= a);
    } else {
        let p = a.subrange(0, k + 1);
        assert(p.drop_last() =~= a.subrange(0, k));
        assert(p.last() == a[k]);
        lemma_similarity_prefix(a, b, k + 1);
        vstd::arithmetic::mul::lemma_mul_nonnegative(a[k] as int, count_occ(b, a[k]) as int);
    }
}

/// Counts the occurrences of `x` in `b`.
fn count_occurrences(b: &Vec<u32>, x: u32) -> (r: usize)
    ensures
        r == count_occ(b@, x),
{
    let n = b.len();
    let mut cnt: usize = 0;
    let mut i: usize = 0;
    while i < n
        invariant
            i <= n,
            n == b@.len(),
            cnt == count_occ(b@.subrange(0, i as int), x),
            cnt <= i,
        decreases n - i,
    {
        proof {
            let p = b@.subrange(0, i + 1 as int);
            assert(p.drop_last() =~= b@.subrange(0, i as int));
            assert(p.last() == b@[i as int]);
        }
        if b[i] == x {
            cnt = cnt + 1;
        }
        i = i + 1;
    }
    proof {
        assert(b@.subrange(0, n as int) =~= b@);
    }
    cnt
}

/// The similarity score of two lists: the sum, over the left list, of each
/// number times how often it appears in the right list.
pub fn similarity_score(a: Vec<u32>, b: Vec<u32>) -> (r: u32)
    requires
        similarity_sum(a@, b@) <= u32::MAX,
    ensures
        r == similarity_sum(a@, b@),
{
    let n = a.len();
    let mut sum: u32 = 0;
    let mut i: usize = 0;
    while i < n
        invariant
            i <= n,
            n == a@.len(),
            similarity_sum(a@, b@) <= u32::MAX,
            sum == similarity_sum(a@.subrange(0, i as int), b@),
        decreases n - i,
    {
        proof {
            let p = a@.subrange(0, i + 1 as int);
            assert(p.drop_last() =~= a@.subrange(0, i as int));
            assert(p.last() == a@[i as int]);
            lemma_similarity_prefix(a@, b@, i + 1);
            vstd::arithmetic::mul::lemma_mul_nonnegative(
                a@[i as int] as int,
                count_occ(b@, a@[i as int]) as int,
            );
            assert(a@[i as int] * count_occ(b@, a@[i as int]) <= u32::MAX);
        }
        let cnt = count_occurrences(&b, a[i]);
        let x = a[i];
        assert(x * cnt == a@[i as int] * count_occ(b@, a@[i as int])) by (nonlinear_arith)
            requires
                x == a@[i as int],
                cnt == count_occ(b@, a@[i as int]),
        ;
        let term = (x as u64) * (cnt as u64);
        assert(term <= u32::MAX);
        sum = sum + (term as u32);
        i = i + 1;
    }
    proof {
        assert(a@.subrange(0, n as int) =~= a@);
    }
    sum
}

} // verus!
