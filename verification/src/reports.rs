//! Report safety checks: a report (a line of levels) is safe when its levels
//! are strictly monotonic with steps of one to three, possibly after
//! removing one level.

use vstd::prelude::*;
use crate::parse::{
    sep_end_from,
    token_end_from,
    is_digit_token,
    digits_val_from,
    lemma_sep_end_from,
    lemma_token_end_from,
    skip_separators,
    scan_token_end,
    parse_u32_token,
};

verus! {

/// A step up by one to three.
pub open spec fn increasing_ok(a: u32, b: u32) -> bool {
    a < b && 1 <= b - a <= 3
}

/// Whether `b` is one to three more than `a`.
pub fn increasing_in_limits(a: u32, b: u32) -> (r: bool)
    ensures
        r == increasing_ok(a, b),
{
    a < b && b - a <= 3
}

/// Whether `b` is one to three less than `a`.
pub fn decreasing_in_limits(a: u32, b: u32) -> (r: bool)
    ensures
        r == increasing_ok(b, a),
{
    increasing_in_limits(b, a)
}

/// Every adjacent pair of `s` steps up (when `up`) or down by one to three.
pub open spec fn all_steps_ok(s: Seq<u32>, up: bool) -> bool {
    forall|i: int|
        0 <= i < s.len() - 1 ==> if up {
            increasing_ok(#[trigger] s[i], s[i + 1])
        } else {
            increasing_ok(s[i + 1], #[trigger] s[i])
        }
}

/// The monotonic direction a report was classified under, carrying the
/// levels after the first.
#[derive(Debug, Eq, PartialEq, Copy, Clone)]
pub enum Direction<'a> {
    Increasing(&'a [u32]),
    Decreasing(&'a [u32]),
}

impl<'a> Direction<'a> {
    /// Whether every adjacent pair of the carried levels steps the way this
    /// direction demands.
    pub fn check_direction(&'a self) -> (r: bool)
        ensures
            r == match *self {
                Direction::Increasing(t) => all_steps_ok(t@, true),
                Direction::Decreasing(t) => all_steps_ok(t@, false),
            },
    {
        let (slice, up) = match self {
            Direction::Increasing(t) => (*t, true),
            Direction::Decreasing(t) => (*t, false),
        };
        let n = slice.len();
        if n == 0 {
            return true;
        }
        let mut i: usize = 0;
        while i + 1 < n
            invariant
                i < n,
                n == slice@.len(),
                (match *self {
                    Direction::Increasing(t) => up == true && slice@ == t@,
                    Direction::Decreasing(t) => up == false && slice@ == t@,
                }),
                forall|k: int|
                    0 <= k < i ==> if up {
                        increasing_ok(#[trigger] slice@[k], slice@[k + 1])
                    } else {
                        increasing_ok(slice@[k + 1], #[trigger] slice@[k])
                    },
            decreases n - i,
        {
            let ok = if up {
                increasing_in_limits(slice[i], slice[i + 1])
            } else {
                decreasing_in_limits(slice[i], slice[i + 1])
            };
            if !ok {
                proof {
                    if up {
                        assert(!increasing_ok(slice@[i as int], slice@[i as int + 1]));
                    } else {
                        assert(!increasing_ok(slice@[i as int + 1], slice@[i as int]));
                    }
                }
                return false;
            }
            i = i + 1;
        }
        true
    }

    /// Classifies a report by its first two levels: increasing, decreasing,
    /// or unclassifiable; the carried slice drops the first level.
    pub fn try_from(row: &'a [u32]) -> (r: Option<Direction<'a>>)
        ensures
            match r {
                Some(Direction::Increasing(t)) => row@.len() >= 2 && increasing_ok(
                    row@[0],
                    row@[1],
                ) && t@ == row@.subrange(1, row@.len() as int),
                Some(Direction::Decreasing(t)) => row@.len() >= 2 && increasing_ok(
                    row@[1],
                    row@[0],
                ) && t@ == row@.subrange(1, row@.len() as int),
                None => row@.len() < 2 || (!increasing_ok(row@[0], row@[1]) && !increasing_ok(
                    row@[1],
                    row@[0],
                )),
            },
    {
        if row.len() < 2 {
            return None;
        }
        let tail = slice_tail(row);
        if increasing_in_limits(row[0], row[1]) {
            Some(Direction::Increasing(tail))
        } else if decreasing_in_limits(row[0], row[1]) {
            Some(Direction::Decreasing(tail))
        } else {
            None
        }
    }
}

/// The slice without its first element.
fn slice_tail(row: &[u32]) -> (r: &[u32])
    requires
        row@.len() >= 1,
    ensures
        r@ == row@.subrange(1, row@.len() as int),
{
    let (_, tail) = row.split_at(1);
    tail
}

/// A safe report: at least two levels, all steps strictly up by one to
/// three, or all strictly down by one to three.
pub open spec fn safe_report(s: Seq<u32>) -> bool {
    s.len() >= 2 && (all_steps_ok(s, true) || all_steps_ok(s, false))
}

/// Whether a report is safe: its levels all step up by one to three, or all
/// step down by one to three.
pub fn is_safe_report(row: &[u32]) -> (r: bool)
    ensures
        r == safe_report(row@),
{
    let n = row.len();
    match Direction::try_from(row) {
        Some(dir) => {
            let ok = dir.check_direction();
            proof {
                let t = row@.subrange(1, n as int);
                if ok {
                    match dir {
                        Direction::Increasing(_) => {
                            assert forall|i: int|
                                0 <= i < row@.len() - 1 implies increasing_ok(
                                #[trigger] row@[i],
                                row@[i + 1],
                            ) by {
                                if i > 0 {
                                    assert(t[i - 1] == row@[i] && t[i] == row@[i + 1]);
                                    assert(increasing_ok(t[i - 1], t[i]));
                                }
                            }
                        },
                        Direction::Decreasing(_) => {
                            assert forall|i: int|
                                0 <= i < row@.len() - 1 implies increasing_ok(
                                row@[i + 1],
                                #[trigger] row@[i],
                            ) by {
                                if i > 0 {
                                    assert(t[i - 1] == row@[i] && t[i] == row@[i + 1]);
                                    assert(increasing_ok(t[i], t[i - 1]));
                                }
                            }
                        },
                    }
                } else {
                    match dir {
                        Direction::Increasing(_) => {
                            let i = choose|i: int|
                                0 <= i < t.len() - 1 && !increasing_ok(#[trigger] t[i], t[i + 1]);
                            assert(t[i] == row@[i + 1] && t[i + 1] == row@[i + 2]);
                            assert(!increasing_ok(row@[i + 1], row@[i + 2]));
                            assert(!all_steps_ok(row@, true));
                            assert(!increasing_ok(row@[1], row@[0]));
                            assert(!all_steps_ok(row@, false));
                        },
                        Direction::Decreasing(_) => {
                            let i = choose|i: int|
                                0 <= i < t.len() - 1 && !increasing_ok(t[i + 1], #[trigger] t[i]);
                            assert(t[i] == row@[i + 1] && t[i + 1] == row@[i + 2]);
                            assert(!increasing_ok(row@[i + 2], row@[i + 1]));
                            assert(!all_steps_ok(row@, false));
                            assert(!increasing_ok(row@[0], row@[1]));
                            assert(!all_steps_ok(row@, true));
                        },
                    }
                }
            }
            ok
        },
        None => {
            proof {
                if row@.len() >= 2 {
                    assert(!increasing_ok(row@[0], row@[1]));
                    assert(!increasing_ok(row@[1], row@[0]));
                }
            }
            false
        },
    }
}

/// The levels on a report line: the leading whitespace-separated decimal
/// numbers, up to the first token that is not one.
pub open spec fn parse_levels_from(s: Seq<char>, i: int) -> Seq<u32>
    decreases s.len() - i
        when 0 <= i via parse_levels_from_decreases
{
    let t = sep_end_from(s, i);
    let e = token_end_from(s, t);
    if t >= s.len() || !is_digit_token(s, t, e) || digits_val_from(s, t, e) > u32::MAX {
        Seq::empty()
    } else {
        seq![digits_val_from(s, t, e) as u32] + parse_levels_from(s, e)
    }
}

#[via_fn]
proof fn parse_levels_from_decreases(s: Seq<char>, i: int) {
    if i <= s.len() {
        lemma_sep_end_from(s, i);
        lemma_token_end_from(s, sep_end_from(s, i));
    }
}

/// Reads the levels of a report line: its leading decimal tokens.
pub fn parse_line(line: &str) -> (r: Vec<u32>)
    ensures
        r@ == parse_levels_from(line@, 0),
{
    let n = line.unicode_len();
    let mut r: Vec<u32> = Vec::new();
    let mut i: usize = 0;
    while i < n
        invariant
            i <= n,
            n == line@.len(),
            parse_levels_from(line@, 0) == r@ + parse_levels_from(line@, i as int),
        decreases n - i,
    {
        proof {
            lemma_sep_end_from(line@, i as int);
        }
        let t = skip_separators(line, i, n);
        proof {
            lemma_token_end_from(line@, t as int);
        }
        let e = scan_token_end(line, t, n);
        if t == n {
            proof {
                assert(parse_levels_from(line@, i as int) =~= Seq::<u32>::empty());
                assert(parse_levels_from(line@, 0) =~= r@);
            }
            return r;
        }
        match parse_u32_token(line, t, e) {
            Some(v) => {
                r.push(v);
                proof {
                    assert(parse_levels_from(line@, i as int) == seq![v] + parse_levels_from(
                        line@,
                        e as int,
                    ));
                    assert(r@.drop_last() + (seq![v] + parse_levels_from(line@, e as int)) =~= r@
                        + parse_levels_from(line@, e as int));
                }
                i = e;
            },
            None => {
                proof {
                    assert(parse_levels_from(line@, i as int) =~= Seq::<u32>::empty());
                    assert(parse_levels_from(line@, 0) =~= r@);
                }
                return r;
            },
        }
    }
    proof {
        assert(parse_levels_from(line@, i as int) =~= Seq::<u32>::empty());
        assert(parse_levels_from(line@, 0) =~= r@);
    }
    r
}

/// How many of the reports are safe.
pub open spec fn safe_count(rows: Seq<Vec<u32>>) -> int
    decreases rows.len(),
{
    if rows.len() == 0 {
        0
    } else {
        safe_count(rows.drop_last()) + if safe_report(rows.last()@) {
            1int
        } else {
            0int
        }
    }
}

/// Counts the safe reports.
pub fn count_safe_reports(rows: &[Vec<u32>]) -> (r: usize)
    ensures
        r == safe_count(rows@),
{
    let n = rows.len();
    let mut count: usize = 0;
    let mut i: usize = 0;
    while i < n
        invariant
            i <= n,
            n == rows@.len(),
            count <= i,
            count == safe_count(rows@.subrange(0, i as int)),
        decreases n - i,
    {
        proof {
            let p = rows@.subrange(0, i + 1 as int);
            assert(p.drop_last() =~= rows@.subrange(0, i as int));
            assert(p.last() == rows@[i as int]);
        }
        if is_safe_report(rows[i].as_slice()) {
            count = count + 1;
        }
        i = i + 1;
    }
    proof {
        assert(rows@.subrange(0, n as int) =~= rows@);
    }
    count
}

/// A report that is safe once at most one level is removed.
pub open spec fn safe_with_dampener(s: Seq<u32>) -> bool {
    safe_report(s) || exists|i: int| 0 <= i < s.len() && safe_report(#[trigger] s.remove(i))
}

/// How many reports are safe after removing at most one level each.
pub open spec fn dampened_safe_count(rows: Seq<Vec<u32>>) -> int
    decreases rows.len(),
{
    if rows.len() == 0 {
        0
    } else {
        dampened_safe_count(rows.drop_last()) + if safe_with_dampener(rows.last()@) {
            1int
        } else {
            0int
        }
    }
}

/// The report without its level at `skip`.
fn row_without(row: &[u32], skip: usize) -> (r: Vec<u32>)
    requires
        skip < row@.len(),
    ensures
        r@ == row@.remove(skip as int),
{
    let n = row.len();
    let mut r: Vec<u32> = Vec::new();
    let mut i: usize = 0;
    while i < n
        invariant
            i <= n,
            n == row@.len(),
            skip < n,
            r@ == if i <= skip {
                row@.subrange(0, i as int)
            } else {
                row@.subrange(0, skip as int) + row@.subrange(skip + 1, i as int)
            },
        decreases n - i,
    {
        if i != skip {
            r.push(row[i]);
        }
        proof {
            if i + 1 <= skip {
                assert(row@.subrange(0, i + 1 as int) =~= row@.subrange(0, i as int).push(
                    row@[i as int],
                ));
            } else if i == skip {
                assert(row@.subrange(0, skip as int) + row@.subrange(skip + 1, i + 1 as int)
                    =~= row@.subrange(0, i as int));
            } else {
                assert(row@.subrange(0, skip as int) + row@.subrange(skip + 1, i + 1 as int)
                    =~= (row@.subrange(0, skip as int) + row@.subrange(skip + 1, i as int)).push(
                    row@[i as int],
                ));
            }
        }
        i = i + 1;
    }
    proof {
        assert(row@.remove(skip as int) =~= row@.subrange(0, skip as int) + row@.subrange(
            skip + 1,
            n as int,
        ));
    }
    r
}

/// Counts the reports that are safe after removing at most one level each.
pub fn count_safe_reports_dampened(rows: &[Vec<u32>]) -> (r: usize)
    ensures
        r == dampened_safe_count(rows@),
{
    let n = rows.len();
    let mut count: usize = 0;
    let mut i: usize = 0;
    while i < n
        invariant
            i <= n,
            n == rows@.len(),
            count <= i,
            count == dampened_safe_count(rows@.subrange(0, i as int)),
        decreases n - i,
    {
        proof {
            let p = rows@.subrange(0, i + 1 as int);
            assert(p.drop_last() =~= rows@.subrange(0, i as int));
            assert(p.last() == rows@[i as int]);
        }
        let row = rows[i].as_slice();
        let mut safe = is_safe_report(row);
        if !safe {
            let m = row.len();
            let mut k: usize = 0;
            while k < m && !safe
                invariant
                    k <= m,
                    m == row@.len(),
                    safe ==> safe_with_dampener(row@),
                    !safe ==> forall|t: int| 0 <= t < k ==> !safe_report(#[trigger] row@.remove(t)),
                    !safe ==> !safe_report(row@),
                decreases m - k,
            {
                let candidate = row_without(row, k);
                if is_safe_report(candidate.as_slice()) {
                    safe = true;
                }
                k = k + 1;
            }
        }
        proof {
            if !safe {
                assert(!safe_with_dampener(rows@[i as int]@));
            }
        }
        if safe {
            count = count + 1;
        }
        i = i + 1;
    }
    proof {
        assert(rows@.subrange(0, n as int) =~= rows@);
    }
    count
}

} // verus!
