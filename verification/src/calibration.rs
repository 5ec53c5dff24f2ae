//! Calibration equations: whether a target value can be produced from a list
//! of arguments by inserting operators, evaluated left to right.

use vstd::prelude::*;

verus! {

/// An operator over a running value and the next argument.  Implementations
/// state what their operator computes in `eval_spec` and prove that `eval`
/// returns exactly that.
pub trait Eval: Sized {
    /// The value this operator produces, or `None` when it cannot be
    /// represented.
    spec fn eval_spec(&self, left: u64, right: u32) -> Option<u64>;

    /// Applies the operator.
    fn eval(&self, left: u64, right: u32) -> (r: Option<u64>)
        ensures
            r == self.eval_spec(left, right),
    ;
}

/// The smallest power of ten strictly above `num`, scanning upward from `p`;
/// `None` when no such power fits in `u64`.
pub open spec fn next_round_from(num: u64, p: int) -> Option<u64>
    decreases u64::MAX - p
        when 1 <= p <= u64::MAX
{
    if p > num {
        Some(p as u64)
    } else if p > u64::MAX as int / 10 {
        None
    } else {
        next_round_from(num, p * 10)
    }
}

/// The smallest power of ten strictly above `num` (at least ten), or `None`
/// when it does not fit in `u64`.
pub open spec fn next_round_spec(num: u64) -> Option<u64> {
    next_round_from(num, 10)
}

/// The smallest power of ten strictly above `num`, or `None` when it would
/// not fit in `u64`.
pub fn next_round(num: u64) -> (r: Option<u64>)
    ensures
        r == next_round_spec(num),
{
    let mut p: u64 = 10;
    while p <= num
        invariant
            1 <= p <= u64::MAX,
            next_round_spec(num) == next_round_from(num, p as int),
        decreases (if p <= num { num - p + 1 } else { 0int }),
    {
        if p > u64::MAX / 10 {
            return None;
        }
        p = p * 10;
    }
    Some(p)
}

/// An arithmetic operator for combining a running value with an argument.
#[derive(Debug, Eq, PartialEq, Copy, Clone, Structural)]
pub enum Op {
    Add,
    Multiply,
    Concat,
}

impl Eval for Op {
    /// Addition and multiplication are exact and fail on overflow;
    /// concatenation appends the decimal digits of the argument.
    open spec fn eval_spec(&self, left: u64, right: u32) -> Option<u64> {
        match *self {
            Op::Add => if left + right <= u64::MAX {
                Some((left + right) as u64)
            } else {
                None
            },
            Op::Multiply => if left * right <= u64::MAX {
                Some((left * right) as u64)
            } else {
                None
            },
            Op::Concat => match next_round_spec(right as u64) {
                None => None,
                Some(n) => if left * n <= u64::MAX && left * n + right <= u64::MAX {
                    Some((left * n + right) as u64)
                } else {
                    None
                },
            },
        }
    }

    fn eval(&self, left: u64, right: u32) -> (r: Option<u64>)
        ensures
            r == self.eval_spec(left, right),
    {
        let rr = right as u64;
        match self {
            Op::Add => {
                if left <= u64::MAX - rr {
                    Some(left + rr)
                } else {
                    None
                }
            },
            Op::Multiply => mul_checked(left, rr),
            Op::Concat => {
                match next_round(rr) {
                    None => None,
                    Some(n) => {
                        match mul_checked(left, n) {
                            None => None,
                            Some(shifted) => {
                                if shifted <= u64::MAX - rr {
                                    Some(shifted + rr)
                                } else {
                                    None
                                }
                            },
                        }
                    },
                }
            },
        }
    }
}

/// The product of two numbers, or `None` when it overflows.
fn mul_checked(a: u64, b: u64) -> (r: Option<u64>)
    ensures
        r == if a * b <= u64::MAX {
            Some((a * b) as u64)
        } else {
            None::<u64>
        },
{
    if b == 0 {
        return Some(0);
    }
    if a <= u64::MAX / b {
        assert(a * b <= u64::MAX) by (nonlinear_arith)
            requires
                b >= 1,
                a as int <= u64::MAX as int / (b as int),
        ;
        Some(a * b)
    } else {
        assert(a * b > u64::MAX) by (nonlinear_arith)
            requires
                b >= 1,
                a as int > u64::MAX as int / (b as int),
        ;
        None
    }
}

/// Whether the target can be reached from the running value `val` by
/// combining it with each remaining argument, in order, under some choice of
/// operators.
pub open spec fn reachable<T: Eval>(end: u64, val: u64, rest: Seq<u32>, ops: Seq<T>) -> bool
    decreases rest.len(),
{
    if rest.len() == 0 {
        val == end
    } else {
        exists|oi: int|
            0 <= oi < ops.len() && {
                let ev = (#[trigger] ops[oi]).eval_spec(val, rest[0]);
                ev is Some && reachable(end, ev->0, rest.drop_first(), ops)
            }
    }
}

/// Whether some operator choice over the arguments, evaluated left to right,
/// yields the target.
pub open spec fn dfs_spec<T: Eval>(end: u64, args: Seq<u32>, ops: Seq<T>) -> bool {
    args.len() > 0 && reachable(end, args[0] as u64, args.drop_first(), ops)
}

fn dfs_rec<T: Eval>(end: u64, val: u64, args: &[u32], idx: usize, ops: &[T]) -> (r: bool)
    requires
        idx <= args@.len(),
    ensures
        r == reachable(end, val, args@.subrange(idx as int, args@.len() as int), ops@),
    decreases args@.len() - idx,
{
    let n = args.len();
    let ghost rest = args@.subrange(idx as int, n as int);
    if idx == n {
        proof {
            assert(rest.len() == 0);
        }
        return val == end;
    }
    proof {
        assert(rest[0] == args@[idx as int]);
        assert(rest.drop_first() =~= args@.subrange(idx + 1, n as int));
    }
    let m = ops.len();
    let mut k: usize = 0;
    while k < m
        invariant
            k <= m,
            m == ops@.len(),
            idx < n,
            n == args@.len(),
            rest == args@.subrange(idx as int, n as int),
            rest.len() > 0,
            rest[0] == args@[idx as int],
            rest.drop_first() == args@.subrange(idx + 1, n as int),
            forall|oi: int|
                0 <= oi < k ==> !({
                    let ev = (#[trigger] ops@[oi]).eval_spec(val, rest[0]);
                    ev is Some && reachable(end, ev->0, rest.drop_first(), ops@)
                }),
        decreases m - k,
    {
        if let Some(next_val) = ops[k].eval(val, args[idx]) {
            if dfs_rec(end, next_val, args, idx + 1, ops) {
                proof {
                    let ev = ops@[k as int].eval_spec(val, rest[0]);
                    assert(ev is Some && reachable(end, ev->0, rest.drop_first(), ops@));
                }
                return true;
            }
        }
        k = k + 1;
    }
    false
}

/// Whether the target can be produced from the arguments, combined left to
/// right under some choice of the given operators.
pub fn dfs<T: Eval>(end: u64, args: &[u32], ops: &[T]) -> (r: bool)
    ensures
        r == dfs_spec(end, args@, ops@),
{
    if args.len() == 0 {
        return false;
    }
    proof {
        assert(args@.subrange(1, args@.len() as int) =~= args@.drop_first());
    }
    dfs_rec(end, args[0] as u64, args, 1, ops)
}

/// Sum of the targets of the equations that some operator choice satisfies.
pub open spec fn solvable_sum<T: Eval>(input: Seq<(u64, Vec<u32>)>, ops: Seq<T>) -> int
    decreases input.len(),
{
    if input.len() == 0 {
        0
    } else {
        solvable_sum(input.drop_last(), ops) + if dfs_spec(
            input.last().0,
            input.last().1@,
            ops,
        ) {
            input.last().0 as int
        } else {
            0
        }
    }
}

proof fn lemma_solvable_sum_prefix<T: Eval>(input: Seq<(u64, Vec<u32>)>, ops: Seq<T>, k: int)
    requires
        0 <= k <= input.len(),
    ensures
        solvable_sum(input.subrange(0, k), ops) <= solvable_sum(input, ops),
    decreases input.len() - k,
{
    if k == input.len() {
        assert(input.subrange(0, k) =~= input);
    } else {
        let p = input.subrange(0, k + 1);
        assert(p.drop_last() =~= input.subrange(0, k));
        assert(p.last() == input[k]);
        lemma_solvable_sum_prefix(input, ops, k + 1);
    }
}

/// Sums the targets of the equations that some choice of the given operators
/// satisfies.
pub fn total_sum<T: Eval>(input: &[(u64, Vec<u32>)], ops: &[T]) -> (r: u64)
    requires
        solvable_sum(input@, ops@) <= u64::MAX,
    ensures
        r == solvable_sum(input@, ops@),
{
    let n = input.len();
    let mut sum: u64 = 0;
    let mut i: usize = 0;
    while i < n
        invariant
            i <= n,
            n == input@.len(),
            solvable_sum(input@, ops@) <= u64::MAX,
            sum == solvable_sum(input@.subrange(0, i as int), ops@),
        decreases n - i,
    {
        proof {
            let p = input@.subrange(0, i + 1 as int);
            assert(p.drop_last() =~= input@.subrange(0, i as int));
            assert(p.last() == input@[i as int]);
            lemma_solvable_sum_prefix(input@, ops@, i + 1);
        }
        let (end, args) = &input[i];
        if dfs(*end, args.as_slice(), ops) {
            sum = sum + *end;
        }
        i = i + 1;
    }
    proof {
        assert(input@.subrange(0, n as int) =~= input@);
    }
    sum
}

/// The whitespace-separated decimal arguments from `i` to the end of the
/// line; `None` when any token is not a number fitting in `u32`.
pub open spec fn parse_args_spec(s: Seq<char>, i: int) -> Option<Seq<u32>>
    decreases s.len() - i
        when 0 <= i via parse_args_spec_decreases
{
    let t = crate::parse::sep_end_from(s, i);
    if t >= s.len() {
        Some(Seq::empty())
    } else {
        let e = crate::parse::token_end_from(s, t);
        if crate::parse::is_digit_token(s, t, e) && crate::parse::digits_val_from(s, t, e)
            <= u32::MAX {
            match parse_args_spec(s, e) {
                None => None,
                Some(rest) => Some(seq![crate::parse::digits_val_from(s, t, e) as u32] + rest),
            }
        } else {
            None
        }
    }
}

#[via_fn]
proof fn parse_args_spec_decreases(s: Seq<char>, i: int) {
    if i <= s.len() {
        crate::parse::lemma_sep_end_from(s, i);
        crate::parse::lemma_token_end_from(s, crate::parse::sep_end_from(s, i));
    }
}

/// A calibration equation `target: a b c ...`, or `None` when the line has
/// any other shape.
pub open spec fn parse_equation_spec(s: Seq<char>) -> Option<(u64, Seq<u32>)> {
    let e0 = crate::parse::digits_end_from(s, 0);
    if crate::parse::is_digit_token(s, 0, e0) && crate::parse::digits_val_from(s, 0, e0)
        <= u64::MAX && e0 < s.len() && s[e0] == ':' {
        match parse_args_spec(s, e0 + 1) {
            None => None,
            Some(args) => Some((crate::parse::digits_val_from(s, 0, e0) as u64, args)),
        }
    } else {
        None
    }
}

/// Reads a calibration equation line: the target value, a colon, and the
/// whitespace-separated arguments.
pub fn parse_equation_line(line: &str) -> (r: Option<(u64, Vec<u32>)>)
    ensures
        match r {
            Some(eq) => parse_equation_spec(line@) == Some((eq.0, eq.1@)),
            None => parse_equation_spec(line@) is None,
        },
{
    let n = line.unicode_len();
    proof {
        crate::parse::lemma_digits_end_from(line@, 0);
    }
    let e0 = crate::parse::scan_digits_end(line, 0, n);
    let target = match crate::parse::parse_u64_token(line, 0, e0) {
        Some(v) => v,
        None => {
            return None;
        },
    };
    if !(e0 < n && line.get_char(e0) == ':') {
        return None;
    }
    let mut args: Vec<u32> = Vec::new();
    let mut i: usize = e0 + 1;
    loop
        invariant_except_break
            i <= n,
            n == line@.len(),
            e0 < n,
            crate::parse::is_digit_token(line@, 0, e0 as int),
            crate::parse::digits_val_from(line@, 0, e0 as int) <= u64::MAX,
            target == crate::parse::digits_val_from(line@, 0, e0 as int),
            line@[e0 as int] == ':',
            match parse_args_spec(line@, e0 + 1) {
                Some(all) => parse_args_spec(line@, i as int) matches Some(rest) && all == args@
                    + rest,
                None => parse_args_spec(line@, i as int) is None,
            },
        ensures
            parse_args_spec(line@, e0 + 1) == Some(args@),
        decreases n - i,
    {
        proof {
            crate::parse::lemma_sep_end_from(line@, i as int);
        }
        let t = crate::parse::skip_separators(line, i, n);
        if t == n {
            proof {
                assert(parse_args_spec(line@, i as int) == Some(Seq::<u32>::empty()));
                assert(args@ + Seq::<u32>::empty() =~= args@);
            }
            break ;
        }
        proof {
            crate::parse::lemma_token_end_from(line@, t as int);
        }
        let e = crate::parse::scan_token_end(line, t, n);
        let v = match crate::parse::parse_u32_token(line, t, e) {
            Some(v) => v,
            None => {
                proof {
                    assert(parse_args_spec(line@, i as int) is None);
                    assert(parse_equation_spec(line@) is None);
                }
                return None;
            },
        };
        args.push(v);
        proof {
            if parse_args_spec(line@, e as int) is Some {
                assert(args@.drop_last() + (seq![v] + parse_args_spec(line@, e as int)->0)
                    =~= args@ + parse_args_spec(line@, e as int)->0);
            }
        }
        i = e;
    }
    Some((target, args))
}

} // verus!
