//! Text scanning helpers: whitespace-separated tokens of decimal digits and
//! their numeric values.

use vstd::prelude::*;
use crate::disk::{is_digit, digit_val};

verus! {

/// An ASCII whitespace separator.
pub open spec fn is_sep(c: char) -> bool {
    c == ' ' || c == '\t' || c == '\r' || c == '\n'
}

/// The first index at or after `i` that does not hold a separator.
pub open spec fn sep_end_from(s: Seq<char>, i: int) -> int
    decreases s.len() - i
        when i >= 0
{
    if i < 0 || i >= s.len() {
        s.len() as int
    } else if is_sep(s[i]) {
        sep_end_from(s, i + 1)
    } else {
        i
    }
}

/// The first index at or after `i` that holds a separator.
pub open spec fn token_end_from(s: Seq<char>, i: int) -> int
    decreases s.len() - i
        when i >= 0
{
    if i < 0 || i >= s.len() {
        s.len() as int
    } else if is_sep(s[i]) {
        i
    } else {
        token_end_from(s, i + 1)
    }
}

/// The first index at or after `i` that does not hold a decimal digit.
pub open spec fn digits_end_from(s: Seq<char>, i: int) -> int
    decreases s.len() - i
        when i >= 0
{
    if i < 0 || i >= s.len() {
        s.len() as int
    } else if !is_digit(s[i]) {
        i
    } else {
        digits_end_from(s, i + 1)
    }
}

/// What the digit scan returns.
pub proof fn lemma_digits_end_from(s: Seq<char>, i: int)
    requires
        0 <= i <= s.len(),
    ensures
        i <= digits_end_from(s, i) <= s.len(),
        digits_end_from(s, i) < s.len() ==> !is_digit(s[digits_end_from(s, i)]),
        forall|k: int| i <= k < digits_end_from(s, i) ==> is_digit(#[trigger] s[k]),
    decreases s.len() - i,
{
    if i < s.len() && is_digit(s[i]) {
        lemma_digits_end_from(s, i + 1);
    }
}

/// Scans to the end of the digit run starting at `from`.
pub fn scan_digits_end(s: &str, from: usize, n: usize) -> (r: usize)
    requires
        from <= n,
        n == s@.len(),
    ensures
        r == digits_end_from(s@, from as int),
{
    let mut i = from;
    while i < n && digit_at(s, i)
        invariant
            from <= i <= n,
            n == s@.len(),
            digits_end_from(s@, i as int) == digits_end_from(s@, from as int),
        decreases n - i,
    {
        i = i + 1;
    }
    i
}

/// Whether the character at `i` is a decimal digit.
pub fn digit_at(s: &str, i: usize) -> (r: bool)
    requires
        i < s@.len(),
    ensures
        r == is_digit(s@[i as int]),
{
    let c = s.get_char(i);
    let cv = c as u32;
    48 <= cv && cv <= 57
}

/// The value of the decimal digits `s[i..j)`.
pub open spec fn digits_val_from(s: Seq<char>, i: int, j: int) -> int
    decreases j - i,
{
    if i >= j {
        0
    } else {
        digits_val_from(s, i, j - 1) * 10 + digit_val(s[j - 1])
    }
}

/// The characters `s[i..j)` form a valid decimal token: non-empty, all
/// digits.
pub open spec fn is_digit_token(s: Seq<char>, i: int, j: int) -> bool {
    &&& 0 <= i < j <= s.len()
    &&& forall|k: int| i <= k < j ==> is_digit(#[trigger] s[k])
}

/// What the separator scan returns.
pub proof fn lemma_sep_end_from(s: Seq<char>, i: int)
    requires
        0 <= i <= s.len(),
    ensures
        i <= sep_end_from(s, i) <= s.len(),
        sep_end_from(s, i) < s.len() ==> !is_sep(s[sep_end_from(s, i)]),
        forall|k: int| i <= k < sep_end_from(s, i) ==> is_sep(#[trigger] s[k]),
    decreases s.len() - i,
{
    if i < s.len() && is_sep(s[i]) {
        lemma_sep_end_from(s, i + 1);
    }
}

/// What the token scan returns.
pub proof fn lemma_token_end_from(s: Seq<char>, i: int)
    requires
        0 <= i <= s.len(),
    ensures
        i <= token_end_from(s, i) <= s.len(),
        token_end_from(s, i) < s.len() ==> is_sep(s[token_end_from(s, i)]),
        forall|k: int| i <= k < token_end_from(s, i) ==> !is_sep(#[trigger] s[k]),
    decreases s.len() - i,
{
    if i < s.len() && !is_sep(s[i]) {
        lemma_token_end_from(s, i + 1);
    }
}

/// A digit-run value is never negative.
proof fn lemma_digits_val_nonneg(s: Seq<char>, i: int, j: int)
    ensures
        digits_val_from(s, i, j) >= 0,
    decreases j - i,
{
    if i < j {
        lemma_digits_val_nonneg(s, i, j - 1);
        vstd::arithmetic::mul::lemma_mul_nonnegative(digits_val_from(s, i, j - 1), 10);
    }
}

/// Whether the character at `i` is a separator.
fn sep_at(s: &str, i: usize) -> (r: bool)
    requires
        i < s@.len(),
    ensures
        r == is_sep(s@[i as int]),
{
    let c = s.get_char(i);
    c == ' ' || c == '\t' || c == '\r' || c == '\n'
}

/// Skips separators: returns the first position at or after `i` holding a
/// non-separator character.
pub fn skip_separators(s: &str, from: usize, n: usize) -> (r: usize)
    requires
        from <= n,
        n == s@.len(),
    ensures
        r == sep_end_from(s@, from as int),
{
    let mut i = from;
    while i < n && sep_at(s, i)
        invariant
            from <= i <= n,
            n == s@.len(),
            sep_end_from(s@, i as int) == sep_end_from(s@, from as int),
        decreases n - i,
    {
        i = i + 1;
    }
    i
}

/// Returns the end of the token starting at `i`: the first position at or
/// after `i` holding a separator.
pub fn scan_token_end(s: &str, from: usize, n: usize) -> (r: usize)
    requires
        from <= n,
        n == s@.len(),
    ensures
        r == token_end_from(s@, from as int),
{
    let mut i = from;
    while i < n && !sep_at(s, i)
        invariant
            from <= i <= n,
            n == s@.len(),
            token_end_from(s@, i as int) == token_end_from(s@, from as int),
        decreases n - i,
    {
        i = i + 1;
    }
    i
}

/// Reads the decimal token `s[i..j)` as a `u32`; `None` when some character
/// is not a digit, the token is empty, or the value does not fit.
pub fn parse_u32_token(s: &str, i: usize, j: usize) -> (r: Option<u32>)
    requires
        i <= j <= s@.len(),
    ensures
        match r {
            Some(v) => is_digit_token(s@, i as int, j as int) && v == digits_val_from(
                s@,
                i as int,
                j as int,
            ),
            None => !is_digit_token(s@, i as int, j as int) || digits_val_from(
                s@,
                i as int,
                j as int,
            ) > u32::MAX,
        },
{
    if i == j {
        return None;
    }
    let mut acc: u32 = 0;
    let mut k = i;
    while k < j
        invariant
            i <= k <= j <= s@.len(),
            forall|t: int| i <= t < k ==> is_digit(#[trigger] s@[t]),
            acc == digits_val_from(s@, i as int, k as int),
        decreases j - k,
    {
        let c = s.get_char(k);
        let cv = c as u32;
        if cv < 48 || cv > 57 {
            assert(!is_digit(s@[k as int]));
            return None;
        }
        let d = cv - 48;
        proof {
            lemma_digits_val_nonneg(s@, i as int, k as int);
        }
        if acc > (u32::MAX - d) / 10 {
            proof {
                lemma_digits_val_monotone(s@, i as int, k + 1, j as int);
            }
            return None;
        }
        acc = acc * 10 + d;
        k = k + 1;
    }
    Some(acc)
}

/// Reads the decimal token `s[i..j)` as a `u64`; `None` when some character
/// is not a digit, the token is empty, or the value does not fit.
pub fn parse_u64_token(s: &str, i: usize, j: usize) -> (r: Option<u64>)
    requires
        i <= j <= s@.len(),
    ensures
        match r {
            Some(v) => is_digit_token(s@, i as int, j as int) && v == digits_val_from(
                s@,
                i as int,
                j as int,
            ),
            None => !is_digit_token(s@, i as int, j as int) || digits_val_from(
                s@,
                i as int,
                j as int,
            ) > u64::MAX,
        },
{
    if i == j {
        return None;
    }
    let mut acc: u64 = 0;
    let mut k = i;
    while k < j
        invariant
            i <= k <= j <= s@.len(),
            forall|t: int| i <= t < k ==> is_digit(#[trigger] s@[t]),
            acc == digits_val_from(s@, i as int, k as int),
        decreases j - k,
    {
        let c = s.get_char(k);
        let cv = c as u32;
        if cv < 48 || cv > 57 {
            assert(!is_digit(s@[k as int]));
            return None;
        }
        let d = (cv - 48) as u64;
        proof {
            lemma_digits_val_nonneg(s@, i as int, k as int);
        }
        if acc > (u64::MAX - d) / 10 {
            proof {
                lemma_digits_val_monotone(s@, i as int, k + 1, j as int);
            }
            return None;
        }
        acc = acc * 10 + d;
        k = k + 1;
    }
    Some(acc)
}

/// A longer digit run never has a smaller value.
proof fn lemma_digits_val_monotone(s: Seq<char>, i: int, j: int, j2: int)
    requires
        j <= j2,
    ensures
        digits_val_from(s, i, j2) >= digits_val_from(s, i, j),
    decreases j2 - j,
{
    if j < j2 {
        lemma_digits_val_monotone(s, i, j, j2 - 1);
        lemma_digits_val_nonneg(s, i, j2 - 1);
        if i < j2 {
            assert(digits_val_from(s, i, j2) == digits_val_from(s, i, j2 - 1) * 10 + digit_val(
                s[j2 - 1],
            ));
        }
    }
}

} // verus!
