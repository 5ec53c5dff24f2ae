//! Antenna antinode computation: pairs of same-frequency antennas project
//! antinode points along their line, and the distinct in-bounds antinodes
//! are counted.

use vstd::prelude::*;
use tinyvec::ArrayVec;

verus! {

/// The antennas of a grid, grouped by frequency, with the grid size.
pub struct Input {
    pub antennas: Vec<(char, Vec<(usize, usize)>)>,
    pub size: (usize, usize),
}

/// Declares tinyvec's ArrayVec so its values can pass through signatures;
/// its contents are visible only through `buf_points`.
#[verifier::external_type_specification]
#[verifier::external_body]
#[verifier::reject_recursive_types(A)]
pub struct ExArrayVec<A>(ArrayVec<A>);

/// The points held by an antinode buffer, in insertion order.
pub uninterp spec fn buf_points(v: ArrayVec<[(usize, usize); 2]>) -> Seq<(usize, usize)>;

/// Relies on tinyvec's ArrayVec::new (via Default): a new vector holds no
/// elements.
#[verifier::external_body]
fn buf_new() -> (r: ArrayVec<[(usize, usize); 2]>)
    ensures
        buf_points(r) == Seq::<(usize, usize)>::empty(),
{
    ArrayVec::new()
}

/// Relies on tinyvec's ArrayVec::push: appends one element at the end; a
/// `[T; 2]`-backed vector holds up to 2 elements, so pushing below that
/// length cannot fail.
#[verifier::external_body]
fn buf_push(v: &mut ArrayVec<[(usize, usize); 2]>, p: (usize, usize))
    requires
        buf_points(*old(v)).len() < 2,
    ensures
        buf_points(*final(v)) == buf_points(*old(v)).push(p),
{
    v.push(p)
}

/// The signed difference `n1 - n2`.
pub fn signed_overflowing_sub(n1: usize, n2: usize) -> (r: isize)
    requires
        isize::MIN <= n1 - n2 <= isize::MAX,
    ensures
        r == n1 - n2,
{
    if n1 >= n2 {
        (n1 - n2) as isize
    } else {
        let m = n2 - n1;
        if m == (isize::MAX as usize) + 1 {
            isize::MIN
        } else {
            -((m) as isize)
        }
    }
}

/// The antinodes of an ordered pair of distinct antennas: each antenna
/// doubled away from the other, kept when it lands inside the grid.
pub open spec fn antinode_candidates(
    p1: (usize, usize),
    p2: (usize, usize),
    size: (usize, usize),
) -> Seq<(usize, usize)> {
    if p1 == p2 {
        Seq::empty()
    } else {
        let c1i = 2 * (p1.0 as int) - (p2.0 as int);
        let c1j = 2 * (p1.1 as int) - (p2.1 as int);
        let c2i = 2 * (p2.0 as int) - (p1.0 as int);
        let c2j = 2 * (p2.1 as int) - (p1.1 as int);
        (if 0 <= c1i < size.0 && 0 <= c1j < size.1 {
            seq![(c1i as usize, c1j as usize)]
        } else {
            Seq::<(usize, usize)>::empty()
        }) + (if 0 <= c2i < size.0 && 0 <= c2j < size.1 {
            seq![(c2i as usize, c2j as usize)]
        } else {
            Seq::<(usize, usize)>::empty()
        })
    }
}

/// Whether `2 * a - b` lands in `[0, bound)`, and its value.
fn doubled_away(a: usize, b: usize, bound: usize) -> (r: Option<usize>)
    ensures
        r == if 0 <= 2 * (a as int) - (b as int) < bound {
            Some((2 * (a as int) - (b as int)) as usize)
        } else {
            None::<usize>
        },
{
    let da = 2 * (a as u128);
    if da >= (b as u128) && da - (b as u128) < (bound as u128) {
        Some((da - (b as u128)) as usize)
    } else {
        None
    }
}

/// The up to two antinodes of a pair of antennas: each antenna mirrored
/// through the other, kept when it lands inside the grid.  A pair of equal
/// positions has none.
pub fn antinodes(pair: [(usize, usize); 2], size: (usize, usize)) -> (r: ArrayVec<
    [(usize, usize); 2],
>)
    ensures
        buf_points(r) == antinode_candidates(pair[0], pair[1], size),
{
    let mut result = buf_new();
    let (i1, j1) = pair[0];
    let (i2, j2) = pair[1];
    if !(i1 == i2 && j1 == j2) {
        let c1 = match (doubled_away(i1, i2, size.0), doubled_away(j1, j2, size.1)) {
            (Some(ci), Some(cj)) => Some((ci, cj)),
            _ => None,
        };
        let c2 = match (doubled_away(i2, i1, size.0), doubled_away(j2, j1, size.1)) {
            (Some(ci), Some(cj)) => Some((ci, cj)),
            _ => None,
        };
        if let Some(p) = c1 {
            buf_push(&mut result, p);
        }
        if let Some(p) = c2 {
            buf_push(&mut result, p);
        }
        proof {
            assert(buf_points(result) =~= antinode_candidates(pair[0], pair[1], size));
        }
    } else {
        proof {
            assert(pair[0] == pair[1]);
            assert(buf_points(result) =~= antinode_candidates(pair[0], pair[1], size));
        }
    }
    result
}

/// The signed value `abs` with sign `neg`.
pub open spec fn signed_delta(neg: bool, abs: usize) -> int {
    if neg {
        -(abs as int)
    } else {
        abs as int
    }
}

/// The points reached from `cur` by repeatedly stepping `(di, dj)`, as long
/// as each step stays inside the grid.
pub open spec fn ray_from(cur: (usize, usize), di: int, dj: int, size: (usize, usize)) -> Seq<
    (usize, usize),
>
    decreases (
        if di > 0 {
            size.0 - cur.0
        } else if di < 0 {
            cur.0 + 1
        } else if dj > 0 {
            size.1 - cur.1
        } else {
            cur.1 + 1
        }
    )
        when !(di == 0 && dj == 0)
{
    let ni = cur.0 + di;
    let nj = cur.1 + dj;
    if 0 <= ni < size.0 && 0 <= nj < size.1 {
        seq![(ni as usize, nj as usize)] + ray_from((ni as usize, nj as usize), di, dj, size)
    } else {
        Seq::empty()
    }
}

/// Appends the ray of points stepping `(di, dj)` from `start` while inside
/// the grid; the deltas are given as sign and magnitude.
fn ray_extend(
    out: &mut Vec<(usize, usize)>,
    start: (usize, usize),
    di_neg: bool,
    di_abs: usize,
    dj_neg: bool,
    dj_abs: usize,
    size: (usize, usize),
)
    requires
        !(di_abs == 0 && dj_abs == 0),
    ensures
        final(out)@ == old(out)@ + ray_from(
            start,
            signed_delta(di_neg, di_abs),
            signed_delta(dj_neg, dj_abs),
            size,
        ),
{
    let ghost di = signed_delta(di_neg, di_abs);
    let ghost dj = signed_delta(dj_neg, dj_abs);
    let mut cur = start;
    loop
        invariant
            !(di_abs == 0 && dj_abs == 0),
            di == signed_delta(di_neg, di_abs),
            dj == signed_delta(dj_neg, dj_abs),
            out@ + ray_from(cur, di, dj, size) == old(out)@ + ray_from(start, di, dj, size),
        ensures
            out@ == old(out)@ + ray_from(start, di, dj, size),
        decreases (
            if di > 0 {
                size.0 - cur.0
            } else if di < 0 {
                cur.0 + 1
            } else if dj > 0 {
                size.1 - cur.1
            } else {
                cur.1 + 1
            }
        ),
    {
        let ni: usize = if di_neg {
            if cur.0 >= di_abs && cur.0 - di_abs < size.0 {
                cur.0 - di_abs
            } else {
                proof {
                    assert(ray_from(cur, di, dj, size) =~= Seq::<(usize, usize)>::empty());
                    assert(out@ + Seq::<(usize, usize)>::empty() =~= out@);
                }
                break ;
            }
        } else {
            if di_abs < size.0 && cur.0 < size.0 - di_abs {
                cur.0 + di_abs
            } else {
                proof {
                    assert(!(0 <= cur.0 + di < size.0));
                    assert(ray_from(cur, di, dj, size) =~= Seq::<(usize, usize)>::empty());
                    assert(out@ + Seq::<(usize, usize)>::empty() =~= out@);
                }
                break ;
            }
        };
        let nj: usize = if dj_neg {
            if cur.1 >= dj_abs && cur.1 - dj_abs < size.1 {
                cur.1 - dj_abs
            } else {
                proof {
                    assert(ray_from(cur, di, dj, size) =~= Seq::<(usize, usize)>::empty());
                    assert(out@ + Seq::<(usize, usize)>::empty() =~= out@);
                }
                break ;
            }
        } else {
            if dj_abs < size.1 && cur.1 < size.1 - dj_abs {
                cur.1 + dj_abs
            } else {
                proof {
                    assert(!(0 <= cur.1 + dj < size.1));
                    assert(ray_from(cur, di, dj, size) =~= Seq::<(usize, usize)>::empty());
                    assert(out@ + Seq::<(usize, usize)>::empty() =~= out@);
                }
                break ;
            }
        };
        proof {
            assert(ray_from(cur, di, dj, size) == seq![(ni, nj)] + ray_from((ni, nj), di, dj, size));
        }
        out.push((ni, nj));
        proof {
            assert(out@.drop_last() + (seq![(ni, nj)] + ray_from((ni, nj), di, dj, size)) =~= out@
                + ray_from((ni, nj), di, dj, size));
        }
        cur = (ni, nj);
    }
}

/// The resonant antinodes of an ordered pair of distinct antennas: both
/// antennas themselves, and every point on the grid reached by repeating
/// their offset outward from either one.
pub open spec fn resonant_candidates(
    p1: (usize, usize),
    p2: (usize, usize),
    size: (usize, usize),
) -> Seq<(usize, usize)> {
    let di = p1.0 - p2.0;
    let dj = p1.1 - p2.1;
    seq![p1, p2] + ray_from(p1, di, dj, size) + ray_from(p2, -di, -dj, size)
}

/// The resonant antinodes of a pair of distinct antennas: the pair itself
/// and every grid point at a whole multiple of their offset beyond either
/// end.
pub fn antinodes_resonant(pair: [(usize, usize); 2], size: (usize, usize)) -> (r: Vec<
    (usize, usize)
>)
    requires
        pair[0] != pair[1],
    ensures
        r@ == resonant_candidates(pair[0], pair[1], size),
{
    let (i1, j1) = pair[0];
    let (i2, j2) = pair[1];
    proof {
        assert(!(i1 == i2 && j1 == j2));
    }
    let di_neg = i1 < i2;
    let di_abs = if i1 >= i2 {
        i1 - i2
    } else {
        i2 - i1
    };
    let dj_neg = j1 < j2;
    let dj_abs = if j1 >= j2 {
        j1 - j2
    } else {
        j2 - j1
    };
    let mut result: Vec<(usize, usize)> = Vec::new();
    result.push((i1, j1));
    result.push((i2, j2));
    proof {
        assert(result@ =~= seq![pair[0], pair[1]]);
        assert(signed_delta(di_neg, di_abs) == pair[0].0 - pair[1].0);
        assert(signed_delta(dj_neg, dj_abs) == pair[0].1 - pair[1].1);
        assert(signed_delta(!di_neg || di_abs == 0, di_abs) == -(pair[0].0 - pair[1].0));
        assert(signed_delta(!dj_neg || dj_abs == 0, dj_abs) == -(pair[0].1 - pair[1].1));
    }
    ray_extend(&mut result, (i1, j1), di_neg, di_abs, dj_neg, dj_abs, size);
    ray_extend(
        &mut result,
        (i2, j2),
        !di_neg || di_abs == 0,
        di_abs,
        !dj_neg || dj_abs == 0,
        dj_abs,
        size,
    );
    result
}

/// The ordered pairs `(g[a], g[b])` with `b` running from `b0` and `b != a`.
pub open spec fn row_pairs(g: Seq<(usize, usize)>, a: int, b0: int) -> Seq<[(usize, usize); 2]>
    decreases g.len() - b0
        when b0 >= 0
{
    if b0 < 0 || b0 >= g.len() {
        Seq::empty()
    } else {
        (if b0 != a {
            seq![[g[a], g[b0]]]
        } else {
            Seq::<[(usize, usize); 2]>::empty()
        }) + row_pairs(g, a, b0 + 1)
    }
}

/// The ordered pairs of distinct positions of one group, first element
/// running from `a0`.
pub open spec fn group_pairs(g: Seq<(usize, usize)>, a0: int) -> Seq<[(usize, usize); 2]>
    decreases g.len() - a0
        when a0 >= 0
{
    if a0 < 0 || a0 >= g.len() {
        Seq::empty()
    } else {
        row_pairs(g, a0, 0) + group_pairs(g, a0 + 1)
    }
}

/// Every ordered pair of two different antennas of the same frequency,
/// groups taken in order from `g0`.
pub open spec fn all_pairs(groups: Seq<(char, Vec<(usize, usize)>)>, g0: int) -> Seq<
    [(usize, usize); 2],
>
    decreases groups.len() - g0
        when g0 >= 0
{
    if g0 < 0 || g0 >= groups.len() {
        Seq::empty()
    } else {
        group_pairs(groups[g0].1@, 0) + all_pairs(groups, g0 + 1)
    }
}

/// Lists every ordered pair of two different same-frequency antennas.
fn build_pairs(groups: &Vec<(char, Vec<(usize, usize)>)>) -> (r: Vec<[(usize, usize); 2]>)
    ensures
        r@ == all_pairs(groups@, 0),
{
    let mut r: Vec<[(usize, usize); 2]> = Vec::new();
    let ng = groups.len();
    let mut gi: usize = 0;
    while gi < ng
        invariant
            gi <= ng,
            ng == groups@.len(),
            all_pairs(groups@, 0) == r@ + all_pairs(groups@, gi as int),
        decreases ng - gi,
    {
        let g = &groups[gi].1;
        let ghost gs = g@;
        let na = g.len();
        let mut a: usize = 0;
        proof {
            assert(all_pairs(groups@, gi as int) == group_pairs(gs, 0) + all_pairs(
                groups@,
                gi + 1,
            ));
        }
        let ghost r_at_group = r@;
        while a < na
            invariant
                a <= na,
                na == gs.len(),
                gs == groups@[gi as int].1@,
                g@ == gs,
                gi < ng,
                ng == groups@.len(),
                r@ + group_pairs(gs, a as int) == r_at_group + group_pairs(gs, 0),
            decreases na - a,
        {
            proof {
                assert(group_pairs(gs, a as int) == row_pairs(gs, a as int, 0) + group_pairs(
                    gs,
                    a + 1,
                ));
            }
            let mut b: usize = 0;
            let ghost r_at_row = r@;
            while b < na
                invariant
                    b <= na,
                    a < na,
                    na == gs.len(),
                    gs == groups@[gi as int].1@,
                    g@ == gs,
                    r@ + row_pairs(gs, a as int, b as int) == r_at_row + row_pairs(
                        gs,
                        a as int,
                        0,
                    ),
                decreases na - b,
            {
                if b != a {
                    r.push([g[a], g[b]]);
                    proof {
                        assert(row_pairs(gs, a as int, b as int) == seq![
                            [gs[a as int], gs[b as int]],
                        ] + row_pairs(gs, a as int, b + 1));
                        assert(r@.drop_last() + (seq![[gs[a as int], gs[b as int]]] + row_pairs(
                            gs,
                            a as int,
                            b + 1,
                        )) =~= r@ + row_pairs(gs, a as int, b + 1));
                    }
                } else {
                    proof {
                        assert(row_pairs(gs, a as int, b as int) =~= row_pairs(gs, a as int, b + 1));
                    }
                }
                b = b + 1;
            }
            proof {
                assert(row_pairs(gs, a as int, na as int) =~= Seq::<[(usize, usize); 2]>::empty());
                assert(r@ + Seq::<[(usize, usize); 2]>::empty() =~= r@);
            }
            a = a + 1;
        }
        proof {
            assert(group_pairs(gs, na as int) =~= Seq::<[(usize, usize); 2]>::empty());
            assert(r@ + Seq::<[(usize, usize); 2]>::empty() =~= r@);
        }
        gi = gi + 1;
    }
    proof {
        assert(all_pairs(groups@, ng as int) =~= Seq::<[(usize, usize); 2]>::empty());
        assert(r@ + Seq::<[(usize, usize); 2]>::empty() =~= r@);
    }
    r
}

/// Appends `p` unless it is already present, so the list stays free of
/// duplicates.
fn push_unique(acc: &mut Vec<(usize, usize)>, p: (usize, usize))
    requires
        old(acc)@.no_duplicates(),
    ensures
        final(acc)@.no_duplicates(),
        final(acc)@.to_set() == old(acc)@.to_set().insert(p),
{
    broadcast use vstd::set::group_set_axioms;

    let n = acc.len();
    let mut i: usize = 0;
    while i < n
        invariant
            i <= n,
            n == acc@.len(),
            acc@ == old(acc)@,
            old(acc)@.no_duplicates(),
            forall|k: int| 0 <= k < i ==> acc@[k] != p,
        decreases n - i,
    {
        if acc[i].0 == p.0 && acc[i].1 == p.1 {
            proof {
                assert(acc@[i as int] == p);
                assert(acc@.to_set().contains(p));
                assert(acc@.to_set() =~= acc@.to_set().insert(p));
            }
            return ;
        }
        i = i + 1;
    }
    acc.push(p);
    proof {
        let prev = acc@.drop_last();
        assert(prev =~= old(acc)@);
        assert(!prev.contains(p)) by {
            if prev.contains(p) {
                let t = choose|t: int| 0 <= t < prev.len() && prev[t] == p;
                assert(acc@[t] == p);
            }
        }
        assert forall|x: (usize, usize)| acc@.contains(x) <==> (prev.contains(x) || x == p) by {
            if acc@.contains(x) {
                let t = choose|t: int| 0 <= t < acc@.len() && acc@[t] == x;
                if t < acc@.len() - 1 {
                    assert(prev[t] == x);
                }
            }
            if prev.contains(x) {
                let t = choose|t: int| 0 <= t < prev.len() && prev[t] == x;
                assert(acc@[t] == x);
            }
            if x == p {
                assert(acc@[acc@.len() - 1] == x);
            }
        }
        assert(acc@.to_set() =~= prev.to_set().insert(p));
    }
}

/// Whether calling the antinode function on this pair can yield a result
/// containing `p`.
pub open spec fn pair_emits<F: Fn([(usize, usize); 2], (usize, usize)) -> Vec<(usize, usize)>>(
    f: F,
    pr: [(usize, usize); 2],
    size: (usize, usize),
    p: (usize, usize),
) -> bool {
    exists|ret: Vec<(usize, usize)>| #[trigger]
    call_ensures(f, (pr, size), ret) && ret@.contains(p)
}

/// The distinct points emitted by the antinode function over the ordered
/// pairs of distinct same-frequency antennas.
pub open spec fn antinode_set<F: Fn([(usize, usize); 2], (usize, usize)) -> Vec<(usize, usize)>>(
    f: F,
    pairs: Seq<[(usize, usize); 2]>,
    size: (usize, usize),
) -> Set<(usize, usize)> {
    Set::new(
        |p: (usize, usize)|
            exists|j: int| 0 <= j < pairs.len() && pair_emits(f, #[trigger] pairs[j], size, p),
    )
}

/// Counts the distinct antinode points produced by `antinodes` over every
/// ordered pair of two different antennas of the same frequency.
pub fn antinodes_count<F: Fn([(usize, usize); 2], (usize, usize)) -> Vec<(usize, usize)>>(
    input: &Input,
    antinodes: F,
) -> (r: usize)
    requires
        forall|pr: [(usize, usize); 2], size: (usize, usize)| #[trigger]
            call_requires(antinodes, (pr, size)),
        forall|args: ([(usize, usize); 2], (usize, usize)), r1: Vec<(usize, usize)>, r2: Vec<
            (usize, usize),
        >|
            #[trigger] call_ensures(antinodes, args, r1) && #[trigger] call_ensures(
                antinodes,
                args,
                r2,
            ) ==> r1@ == r2@,
    ensures
        r == antinode_set(antinodes, all_pairs(input.antennas@, 0), input.size).len(),
{
    broadcast use vstd::set::group_set_axioms;

    let pairs = build_pairs(&input.antennas);
    let ghost ps = pairs@;
    let np = pairs.len();
    let mut acc: Vec<(usize, usize)> = Vec::new();
    let mut j: usize = 0;
    while j < np
        invariant
            j <= np,
            np == ps.len(),
            ps == pairs@,
            forall|pr: [(usize, usize); 2], size: (usize, usize)| #[trigger]
                call_requires(antinodes, (pr, size)),
            forall|args: ([(usize, usize); 2], (usize, usize)), r1: Vec<(usize, usize)>, r2: Vec<
                (usize, usize),
            >|
                #[trigger] call_ensures(antinodes, args, r1) && #[trigger] call_ensures(
                    antinodes,
                    args,
                    r2,
                ) ==> r1@ == r2@,
            acc@.no_duplicates(),
            acc@.to_set() == Set::new(
                |p: (usize, usize)|
                    exists|jj: int| 0 <= jj < j && pair_emits(antinodes, #[trigger] ps[jj], input.size, p),
            ),
        decreases np - j,
    {
        let ret = antinodes(pairs[j], input.size);
        let ghost before = acc@.to_set();
        let m = ret.len();
        let mut k: usize = 0;
        while k < m
            invariant
                k <= m,
                m == ret@.len(),
                acc@.no_duplicates(),
                acc@.to_set() == before.union(ret@.subrange(0, k as int).to_set()),
            decreases m - k,
        {
            proof {
                let sub = ret@.subrange(0, k + 1 as int);
                let pre = ret@.subrange(0, k as int);
                assert forall|x: (usize, usize)| sub.contains(x) <==> (pre.contains(x) || x
                    == ret@[k as int]) by {
                    if sub.contains(x) {
                        let t = choose|t: int| 0 <= t < sub.len() && sub[t] == x;
                        if t < k {
                            assert(pre[t] == x);
                        }
                    }
                    if pre.contains(x) {
                        let t = choose|t: int| 0 <= t < pre.len() && pre[t] == x;
                        assert(sub[t] == x);
                    }
                    if x == ret@[k as int] {
                        assert(sub[k as int] == x);
                    }
                }
                assert(sub.to_set() =~= pre.to_set().insert(ret@[k as int]));
            }
            push_unique(&mut acc, ret[k]);
            proof {
                assert(acc@.to_set() =~= before.union(ret@.subrange(0, k + 1 as int).to_set()));
            }
            k = k + 1;
        }
        proof {
            assert(ret@.subrange(0, m as int) =~= ret@);
            assert(acc@.to_set() =~= before.union(ret@.to_set()));
            let size = input.size;
            assert forall|p: (usize, usize)|
                acc@.to_set().contains(p) <==> (exists|jj: int|
                    0 <= jj < j + 1 && pair_emits(antinodes, #[trigger] ps[jj], size, p)) by {
                if acc@.to_set().contains(p) {
                    if before.contains(p) {
                        let jj = choose|jj: int|
                            0 <= jj < j && pair_emits(antinodes, #[trigger] ps[jj], size, p);
                        assert(pair_emits(antinodes, ps[jj], size, p));
                    } else {
                        assert(ret@.contains(p));
                        assert(call_ensures(antinodes, (ps[j as int], size), ret));
                        assert(pair_emits(antinodes, ps[j as int], size, p));
                    }
                }
                if exists|jj: int|
                    0 <= jj < j + 1 && pair_emits(antinodes, #[trigger] ps[jj], size, p) {
                    let jj = choose|jj: int|
                        0 <= jj < j + 1 && pair_emits(antinodes, #[trigger] ps[jj], size, p);
                    if jj < j {
                        assert(before.contains(p));
                    } else {
                        let ret2 = choose|ret2: Vec<(usize, usize)>| #[trigger]
                            call_ensures(antinodes, (ps[j as int], size), ret2) && ret2@.contains(
                                p,
                            );
                        assert(ret2@ == ret@);
                        assert(ret@.contains(p));
                        assert(ret@.to_set().contains(p));
                    }
                }
            }
            assert(acc@.to_set() =~= Set::new(
                |p: (usize, usize)|
                    exists|jj: int|
                        0 <= jj < j + 1 && pair_emits(antinodes, #[trigger] ps[jj], input.size, p),
            ));
        }
        j = j + 1;
    }
    proof {
        assert(acc@.to_set() =~= antinode_set(antinodes, all_pairs(input.antennas@, 0), input.size));
        acc@.unique_seq_to_set();
    }
    acc.len()
}

} // verus!
