//! Corrupted-memory instruction scanning: extracts `mul(a,b)`, `do()` and
//! `don't()` instructions from a character stream and evaluates them.

use vstd::prelude::*;
use crate::parse::{digits_end_from, digits_val_from, lemma_digits_end_from, scan_digits_end};

verus! {

/// One recognized instruction.
#[derive(Debug, Eq, PartialEq, Copy, Clone, Structural)]
pub enum Instruction {
    Mul(u32, u32),
    Do,
    Dont,
}

/// What evaluating an instruction yields, and the enabled state it leaves:
/// an enabled multiplication yields its product; `do()` and `don't()` yield
/// nothing and switch multiplications on or off.
pub open spec fn eval_spec(i: Instruction, enabled: bool) -> (Option<u32>, bool) {
    match i {
        Instruction::Mul(a, b) => (
            if enabled {
                Some((a * b) as u32)
            } else {
                None
            },
            enabled,
        ),
        Instruction::Do => (None, true),
        Instruction::Dont => (None, false),
    }
}

impl Instruction {
    /// Evaluates the instruction under the current enabled state, returning
    /// the produced value (if any) and the next enabled state.
    pub fn eval(&self, enabled: bool) -> (r: (Option<u32>, bool))
        requires
            *self matches Instruction::Mul(a, b) ==> (enabled ==> a * b <= u32::MAX),
        ensures
            r == eval_spec(*self, enabled),
    {
        match self {
            Instruction::Mul(n1, n2) => (
                if enabled {
                    Some(*n1 * *n2)
                } else {
                    None
                },
                enabled,
            ),
            Instruction::Do => (None, true),
            Instruction::Dont => (None, false),
        }
    }
}

/// The enabled state after processing all instructions, starting enabled.
pub open spec fn enabled_after(instrs: Seq<Instruction>) -> bool
    decreases instrs.len(),
{
    if instrs.len() == 0 {
        true
    } else {
        match instrs.last() {
            Instruction::Do => true,
            Instruction::Dont => false,
            Instruction::Mul(_, _) => enabled_after(instrs.drop_last()),
        }
    }
}

/// Sum of the products of the multiplications that run while enabled.
pub open spec fn calc_sum_spec(instrs: Seq<Instruction>) -> int
    decreases instrs.len(),
{
    if instrs.len() == 0 {
        0
    } else {
        calc_sum_spec(instrs.drop_last()) + match instrs.last() {
            Instruction::Mul(a, b) => if enabled_after(instrs.drop_last()) {
                a * b
            } else {
                0
            },
            _ => 0,
        }
    }
}

proof fn lemma_calc_sum_prefix(instrs: Seq<Instruction>, k: int)
    requires
        0 <= k <= instrs.len(),
    ensures
        calc_sum_spec(instrs.subrange(0, k)) <= calc_sum_spec(instrs),
    decreases instrs.len() - k,
{
    if k == instrs.len() {
        assert(instrs.subrange(0, k) =~= instrs);
    } else {
        let p = instrs.subrange(0, k + 1);
        assert(p.drop_last() =~= instrs.subrange(0, k));
        assert(p.last() == instrs[k]);
        match instrs[k] {
            Instruction::Mul(a, b) => {
                vstd::arithmetic::mul::lemma_mul_nonnegative(a as int, b as int);
            },
            _ => {},
        }
        lemma_calc_sum_prefix(instrs, k + 1);
    }
}

/// Runs the instructions in order, starting enabled, and sums the products
/// of the multiplications that run while enabled.
pub fn calc_sum(instructions: &[Instruction]) -> (r: u32)
    requires
        calc_sum_spec(instructions@) <= u32::MAX,
    ensures
        r == calc_sum_spec(instructions@),
{
    let n = instructions.len();
    let mut sum: u32 = 0;
    let mut enabled = true;
    let mut i: usize = 0;
    while i < n
        invariant
            i <= n,
            n == instructions@.len(),
            calc_sum_spec(instructions@) <= u32::MAX,
            enabled == enabled_after(instructions@.subrange(0, i as int)),
            sum == calc_sum_spec(instructions@.subrange(0, i as int)),
        decreases n - i,
    {
        proof {
            let p = instructions@.subrange(0, i + 1 as int);
            assert(p.drop_last() =~= instructions@.subrange(0, i as int));
            assert(p.last() == instructions@[i as int]);
            lemma_calc_sum_prefix(instructions@, i + 1);
        }
        match instructions[i] {
            Instruction::Mul(a, b) => {
                if enabled {
                    proof {
                        vstd::arithmetic::mul::lemma_mul_nonnegative(a as int, b as int);
                    }
                    assert(a * b <= u32::MAX);
                    let prod = (a as u64) * (b as u64);
                    sum = sum + (prod as u32);
                }
            },
            Instruction::Do => {
                enabled = true;
            },
            Instruction::Dont => {
                enabled = false;
            },
        }
        i = i + 1;
    }
    proof {
        assert(instructions@.subrange(0, n as int) =~= instructions@);
    }
    sum
}

/// Whether `don't()` stands at position `i`.
pub open spec fn matches_dont(s: Seq<char>, i: int) -> bool {
    &&& 0 <= i
    &&& i + 7 <= s.len()
    &&& s[i] == 'd'
    &&& s[i + 1] == 'o'
    &&& s[i + 2] == 'n'
    &&& s[i + 3] == '\''
    &&& s[i + 4] == 't'
    &&& s[i + 5] == '('
    &&& s[i + 6] == ')'
}

/// Whether `do()` stands at position `i`.
pub open spec fn matches_do(s: Seq<char>, i: int) -> bool {
    &&& 0 <= i
    &&& i + 4 <= s.len()
    &&& s[i] == 'd'
    &&& s[i + 1] == 'o'
    &&& s[i + 2] == '('
    &&& s[i + 3] == ')'
}

/// The multiplication instruction matched at position `i`, with the position
/// just past its closing parenthesis: `mul(` then one to three digits, a
/// comma, one to three digits, and `)`.
pub open spec fn mul_match(s: Seq<char>, i: int) -> Option<(u32, u32, int)> {
    if 0 <= i && i + 4 <= s.len() && s[i] == 'm' && s[i + 1] == 'u' && s[i + 2] == 'l' && s[i + 3]
        == '(' {
        let a0 = i + 4;
        let a1 = digits_end_from(s, a0);
        if 1 <= a1 - a0 <= 3 && a1 < s.len() && s[a1] == ',' {
            let b0 = a1 + 1;
            let b1 = digits_end_from(s, b0);
            if 1 <= b1 - b0 <= 3 && b1 < s.len() && s[b1] == ')' {
                Some(
                    (
                        digits_val_from(s, a0, a1) as u32,
                        digits_val_from(s, b0, b1) as u32,
                        b1 + 1,
                    ),
                )
            } else {
                None
            }
        } else {
            None
        }
    } else {
        None
    }
}

/// The instructions recognized scanning left to right from `i`: `don't()`
/// and `do()` (only when toggles are read), and `mul(a,b)`; everything else
/// is skipped one character at a time.
pub open spec fn scan_instructions(s: Seq<char>, i: int, toggles: bool) -> Seq<Instruction>
    decreases s.len() - i
        when i >= 0 via scan_instructions_decreases
{
    if i >= s.len() {
        Seq::empty()
    } else if toggles && matches_dont(s, i) {
        seq![Instruction::Dont] + scan_instructions(s, i + 7, toggles)
    } else if toggles && matches_do(s, i) {
        seq![Instruction::Do] + scan_instructions(s, i + 4, toggles)
    } else {
        match mul_match(s, i) {
            Some(m) => seq![Instruction::Mul(m.0, m.1)] + scan_instructions(s, m.2, toggles),
            None => scan_instructions(s, i + 1, toggles),
        }
    }
}

#[via_fn]
proof fn scan_instructions_decreases(s: Seq<char>, i: int, toggles: bool) {
    if 0 <= i && i + 4 <= s.len() {
        lemma_digits_end_from(s, i + 4);
        let a1 = digits_end_from(s, i + 4);
        if a1 + 1 <= s.len() {
            lemma_digits_end_from(s, a1 + 1);
        }
    }
}

/// Digit values are at most 999 for runs of at most three digits.
proof fn lemma_small_digit_run(s: Seq<char>, i: int, j: int)
    requires
        0 <= i <= j <= s.len(),
        j - i <= 3,
        forall|k: int| i <= k < j ==> crate::disk::is_digit(#[trigger] s[k]),
    ensures
        0 <= digits_val_from(s, i, j),
        j - i == 0 ==> digits_val_from(s, i, j) == 0,
        j - i == 1 ==> digits_val_from(s, i, j) <= 9,
        j - i == 2 ==> digits_val_from(s, i, j) <= 99,
        j - i == 3 ==> digits_val_from(s, i, j) <= 999,
    decreases j - i,
{
    if i < j {
        lemma_small_digit_run(s, i, j - 1);
        assert(crate::disk::is_digit(s[j - 1]));
        assert(crate::disk::digit_val(s[j - 1]) <= 9);
    }
}

/// Reads the multiplication instruction at position `i`, if any, returning
/// its two numbers and the position just past it.
fn try_mul(s: &str, i: usize, n: usize) -> (r: Option<(u32, u32, usize)>)
    requires
        i < n,
        n == s@.len(),
    ensures
        match r {
            Some(m) => mul_match(s@, i as int) == Some((m.0, m.1, m.2 as int)) && i < m.2 <= n,
            None => mul_match(s@, i as int) is None,
        },
{
    if !(n - i >= 4 && s.get_char(i) == 'm' && s.get_char(i + 1) == 'u' && s.get_char(i + 2)
        == 'l' && s.get_char(i + 3) == '(') {
        return None;
    }
    let a0 = i + 4;
    proof {
        lemma_digits_end_from(s@, a0 as int);
    }
    let a1 = scan_digits_end(s, a0, n);
    if !(1 <= a1 - a0 && a1 - a0 <= 3 && a1 < n && s.get_char(a1) == ',') {
        return None;
    }
    let b0 = a1 + 1;
    proof {
        lemma_digits_end_from(s@, b0 as int);
    }
    let b1 = scan_digits_end(s, b0, n);
    if !(1 <= b1 - b0 && b1 - b0 <= 3 && b1 < n && s.get_char(b1) == ')') {
        return None;
    }
    proof {
        lemma_small_digit_run(s@, a0 as int, a1 as int);
        lemma_small_digit_run(s@, b0 as int, b1 as int);
    }
    let va = match crate::parse::parse_u32_token(s, a0, a1) {
        Some(v) => v,
        None => {
            proof {
                assert(false);
            }
            0
        },
    };
    let vb = match crate::parse::parse_u32_token(s, b0, b1) {
        Some(v) => v,
        None => {
            proof {
                assert(false);
            }
            0
        },
    };
    Some((va, vb, b1 + 1))
}

/// Whether the character at `i` is `c`.
fn char_at_is(s: &str, i: usize, c: char) -> (r: bool)
    requires
        i < s@.len(),
    ensures
        r == (s@[i as int] == c),
{
    s.get_char(i) == c
}

/// Scans the input for instructions: multiplications only, or also the
/// `do()` / `don't()` toggles.
fn parse_instructions(input: &str, toggles: bool) -> (r: Vec<Instruction>)
    ensures
        r@ == scan_instructions(input@, 0, toggles),
{
    let n = input.unicode_len();
    let mut r: Vec<Instruction> = Vec::new();
    let mut i: usize = 0;
    while i < n
        invariant
            i <= n,
            n == input@.len(),
            scan_instructions(input@, 0, toggles) == r@ + scan_instructions(
                input@,
                i as int,
                toggles,
            ),
        decreases n - i,
    {
        let is_dont = toggles && n - i >= 7 && char_at_is(input, i, 'd') && char_at_is(
            input,
            i + 1,
            'o',
        ) && char_at_is(input, i + 2, 'n') && char_at_is(input, i + 3, '\'') && char_at_is(
            input,
            i + 4,
            't',
        ) && char_at_is(input, i + 5, '(') && char_at_is(input, i + 6, ')');
        if is_dont {
            r.push(Instruction::Dont);
            proof {
                assert(matches_dont(input@, i as int));
                assert(r@.drop_last() + (seq![Instruction::Dont] + scan_instructions(
                    input@,
                    i + 7,
                    toggles,
                )) =~= r@ + scan_instructions(input@, i + 7, toggles));
            }
            i = i + 7;
            continue ;
        }
        let is_do = toggles && n - i >= 4 && char_at_is(input, i, 'd') && char_at_is(
            input,
            i + 1,
            'o',
        ) && char_at_is(input, i + 2, '(') && char_at_is(input, i + 3, ')');
        if is_do {
            proof {
                assert(!matches_dont(input@, i as int));
                assert(matches_do(input@, i as int));
            }
            r.push(Instruction::Do);
            proof {
                assert(r@.drop_last() + (seq![Instruction::Do] + scan_instructions(
                    input@,
                    i + 4,
                    toggles,
                )) =~= r@ + scan_instructions(input@, i + 4, toggles));
            }
            i = i + 4;
            continue ;
        }
        proof {
            if toggles {
                assert(!matches_dont(input@, i as int));
                assert(!matches_do(input@, i as int));
            }
        }
        match try_mul(input, i, n) {
            Some((a, b, end)) => {
                r.push(Instruction::Mul(a, b));
                proof {
                    assert(r@.drop_last() + (seq![Instruction::Mul(a, b)] + scan_instructions(
                        input@,
                        end as int,
                        toggles,
                    )) =~= r@ + scan_instructions(input@, end as int, toggles));
                }
                i = end;
            },
            None => {
                i = i + 1;
            },
        }
    }
    proof {
        assert(scan_instructions(input@, i as int, toggles) =~= Seq::<Instruction>::empty());
        assert(r@ + Seq::<Instruction>::empty() =~= r@);
    }
    r
}

/// Extracts the `mul(a,b)` instructions from the input, ignoring everything
/// else.
pub fn parse_input(input: &str) -> (r: Vec<Instruction>)
    ensures
        r@ == scan_instructions(input@, 0, false),
{
    parse_instructions(input, false)
}

/// Extracts the `mul(a,b)`, `do()` and `don't()` instructions from the
/// input, ignoring everything else.
pub fn parse_input_with_toggles(input: &str) -> (r: Vec<Instruction>)
    ensures
        r@ == scan_instructions(input@, 0, true),
{
    parse_instructions(input, true)
}

} // verus!
