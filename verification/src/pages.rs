//! Page-ordering checks: validating page sequences against "must come
//! before" rules, reordering sequences that violate them, and summing the
//! middle pages.

use vstd::prelude::*;
use std::collections::{HashMap, HashSet};

verus! {

/// The rules and the page sequences they govern.
pub struct Input {
    pub ordering_rules: HashMap<u32, HashSet<u32>>,
    pub pages: Vec<Vec<u32>>,
}

/// Rule `a` before `b`: the rules list `b` among the pages that may follow
/// `a`.
pub open spec fn rule_allows(rules: Map<u32, HashSet<u32>>, a: u32, b: u32) -> bool {
    rules.contains_key(a) && rules[a]@.contains(b)
}

/// A page sequence is rightly ordered when every page is allowed to precede
/// every page after it.
pub open spec fn right_order_spec(pages: Seq<u32>, rules: Map<u32, HashSet<u32>>) -> bool {
    forall|i: int, j: int|
        0 <= i < j < pages.len() ==> #[trigger] rule_allows(rules, pages[i], pages[j])
}

/// Whether a page sequence satisfies every ordering rule: each page must be
/// allowed to precede all pages after it.
pub fn is_right_order(pages: &[u32], ordering_rules: &HashMap<u32, HashSet<u32>>) -> (r: bool)
    ensures
        r == right_order_spec(pages@, ordering_rules@),
{
    broadcast use vstd::std_specs::hash::group_hash_axioms;

    let n = pages.len();
    let mut i: usize = 0;
    while i < n
        invariant
            i <= n,
            n == pages@.len(),
            forall|a: int, b: int|
                0 <= a < b < n && a < i ==> #[trigger] rule_allows(
                    ordering_rules@,
                    pages@[a],
                    pages@[b],
                ),
        decreases n - i,
    {
        match ordering_rules.get(&pages[i]) {
            Some(later_pages) => {
                let mut j: usize = i + 1;
                while j < n
                    invariant
                        i < j <= n,
                        n == pages@.len(),
                        ordering_rules@.contains_key(pages@[i as int]),
                        later_pages@ == ordering_rules@[pages@[i as int]]@,
                        forall|b: int|
                            i < b < j ==> #[trigger] rule_allows(
                                ordering_rules@,
                                pages@[i as int],
                                pages@[b],
                            ),
                    decreases n - j,
                {
                    if !later_pages.contains(&pages[j]) {
                        assert(!rule_allows(ordering_rules@, pages@[i as int], pages@[j as int]));
                        return false;
                    }
                    j = j + 1;
                }
            },
            None => {
                if i + 1 < n {
                    assert(!rule_allows(ordering_rules@, pages@[i as int], pages@[i + 1]));
                    return false;
                }
            },
        }
        i = i + 1;
    }
    true
}

/// The middle element of a non-empty sequence of pages.
pub fn middle(pages: &[u32]) -> (r: u32)
    requires
        pages@.len() > 0,
    ensures
        r == pages@[pages@.len() as int / 2],
{
    pages[pages.len() / 2]
}

/// Page `a` must come strictly before page `b`.
pub open spec fn rule_less(rules: Map<u32, HashSet<u32>>, a: u32, b: u32) -> bool {
    a != b && rule_allows(rules, a, b)
}

/// Inserts `x` into `s` from the right, slipping past every page that `x`
/// must precede.
pub open spec fn insert_by_rules(rules: Map<u32, HashSet<u32>>, x: u32, s: Seq<u32>) -> Seq<u32>
    decreases s.len(),
{
    if s.len() == 0 {
        seq![x]
    } else if rule_less(rules, x, s.last()) {
        insert_by_rules(rules, x, s.drop_last()).push(s.last())
    } else {
        s.push(x)
    }
}

/// Insertion sort under the ordering rules, processing pages left to right.
pub open spec fn sort_by_rules(rules: Map<u32, HashSet<u32>>, s: Seq<u32>) -> Seq<u32>
    decreases s.len(),
{
    if s.len() == 0 {
        s
    } else {
        insert_by_rules(rules, s.last(), sort_by_rules(rules, s.drop_last()))
    }
}

proof fn lemma_insert_by_rules_len(rules: Map<u32, HashSet<u32>>, x: u32, s: Seq<u32>)
    ensures
        insert_by_rules(rules, x, s).len() == s.len() + 1,
    decreases s.len(),
{
    if s.len() > 0 && rule_less(rules, x, s.last()) {
        lemma_insert_by_rules_len(rules, x, s.drop_last());
    }
}

/// Sorting never changes the number of pages.
pub proof fn lemma_sort_by_rules_len(rules: Map<u32, HashSet<u32>>, s: Seq<u32>)
    ensures
        sort_by_rules(rules, s).len() == s.len(),
    decreases s.len(),
{
    if s.len() > 0 {
        lemma_sort_by_rules_len(rules, s.drop_last());
        lemma_insert_by_rules_len(rules, s.last(), sort_by_rules(rules, s.drop_last()));
    }
}

proof fn lemma_insert_by_rules_multiset(rules: Map<u32, HashSet<u32>>, x: u32, s: Seq<u32>)
    ensures
        insert_by_rules(rules, x, s).to_multiset() == s.to_multiset().insert(x),
    decreases s.len(),
{
    broadcast use vstd::multiset::group_multiset_axioms;
    broadcast use vstd::seq_lib::to_multiset_build;

    if s.len() == 0 {
        assert(insert_by_rules(rules, x, s) =~= s.push(x));
    } else if rule_less(rules, x, s.last()) {
        lemma_insert_by_rules_multiset(rules, x, s.drop_last());
        assert(s =~= s.drop_last().push(s.last()));
        assert(insert_by_rules(rules, x, s).to_multiset() =~= s.to_multiset().insert(x));
    } else {
        assert(insert_by_rules(rules, x, s) == s.push(x));
    }
}

/// Reordering conserves the multiset of pages: the sorted sequence is a
/// permutation of the input.
pub proof fn lemma_sort_by_rules_multiset(rules: Map<u32, HashSet<u32>>, s: Seq<u32>)
    ensures
        sort_by_rules(rules, s).to_multiset() == s.to_multiset(),
    decreases s.len(),
{
    broadcast use vstd::seq_lib::to_multiset_build;

    if s.len() > 0 {
        lemma_sort_by_rules_multiset(rules, s.drop_last());
        lemma_insert_by_rules_multiset(rules, s.last(), sort_by_rules(rules, s.drop_last()));
        assert(s =~= s.drop_last().push(s.last()));
        assert(sort_by_rules(rules, s).to_multiset() =~= s.to_multiset());
    }
}

/// Whether page `a` must come strictly before page `b`.
fn rule_less_exec(rules: &HashMap<u32, HashSet<u32>>, a: u32, b: u32) -> (r: bool)
    ensures
        r == rule_less(rules@, a, b),
{
    broadcast use vstd::std_specs::hash::group_hash_axioms;

    a != b && match rules.get(&a) {
        Some(later) => later.contains(&b),
        None => false,
    }
}

/// The middle element of a non-empty page sequence.
pub open spec fn middle_of(s: Seq<u32>) -> u32 {
    s[s.len() as int / 2]
}

/// Sum of the middle pages over the rightly ordered page sequences.
pub open spec fn right_middles_sum(lists: Seq<Vec<u32>>, rules: Map<u32, HashSet<u32>>) -> int
    decreases lists.len(),
{
    if lists.len() == 0 {
        0
    } else {
        right_middles_sum(lists.drop_last(), rules) + if right_order_spec(lists.last()@, rules) {
            middle_of(lists.last()@) as int
        } else {
            0
        }
    }
}

/// Sum of the middle pages, after reordering, over the page sequences that
/// were not rightly ordered.
pub open spec fn fixed_middles_sum(lists: Seq<Vec<u32>>, rules: Map<u32, HashSet<u32>>) -> int
    decreases lists.len(),
{
    if lists.len() == 0 {
        0
    } else {
        fixed_middles_sum(lists.drop_last(), rules) + if !right_order_spec(lists.last()@, rules) {
            middle_of(sort_by_rules(rules, lists.last()@)) as int
        } else {
            0
        }
    }
}

proof fn lemma_right_middles_sum_bound(lists: Seq<Vec<u32>>, rules: Map<u32, HashSet<u32>>, k: int)
    requires
        0 <= k <= lists.len(),
    ensures
        right_middles_sum(lists.subrange(0, k), rules) <= right_middles_sum(lists, rules),
    decreases lists.len() - k,
{
    if k == lists.len() {
        assert(lists.subrange(0, k) =~= lists);
    } else {
        let p = lists.subrange(0, k + 1);
        assert(p.drop_last() =~= lists.subrange(0, k));
        lemma_right_middles_sum_bound(lists, rules, k + 1);
    }
}

proof fn lemma_fixed_middles_sum_bound(lists: Seq<Vec<u32>>, rules: Map<u32, HashSet<u32>>, k: int)
    requires
        0 <= k <= lists.len(),
    ensures
        fixed_middles_sum(lists.subrange(0, k), rules) <= fixed_middles_sum(lists, rules),
    decreases lists.len() - k,
{
    if k == lists.len() {
        assert(lists.subrange(0, k) =~= lists);
    } else {
        let p = lists.subrange(0, k + 1);
        assert(p.drop_last() =~= lists.subrange(0, k));
        lemma_fixed_middles_sum_bound(lists, rules, k + 1);
    }
}

/// Sum of the middle pages of the rightly ordered page sequences.
pub fn sum_right_order_middles(input: Input) -> (r: u32)
    requires
        forall|i: int| 0 <= i < input.pages@.len() ==> (#[trigger] input.pages@[i])@.len() > 0,
        right_middles_sum(input.pages@, input.ordering_rules@) <= u32::MAX,
    ensures
        r == right_middles_sum(input.pages@, input.ordering_rules@),
{
    let ghost lists = input.pages@;
    let ghost rules = input.ordering_rules@;
    let n = input.pages.len();
    let mut sum: u32 = 0;
    let mut i: usize = 0;
    while i < n
        invariant
            i <= n,
            n == lists.len(),
            lists == input.pages@,
            rules == input.ordering_rules@,
            forall|k: int| 0 <= k < n ==> (#[trigger] lists[k])@.len() > 0,
            right_middles_sum(lists, rules) <= u32::MAX,
            sum == right_middles_sum(lists.subrange(0, i as int), rules),
        decreases n - i,
    {
        proof {
            let p = lists.subrange(0, i + 1 as int);
            assert(p.drop_last() =~= lists.subrange(0, i as int));
            assert(p.last() == lists[i as int]);
            lemma_right_middles_sum_bound(lists, rules, i + 1);
            lemma_right_middles_sum_bound(lists, rules, i as int);
        }
        let row = &input.pages[i];
        if is_right_order(row.as_slice(), &input.ordering_rules) {
            sum = sum + middle(row.as_slice());
        }
        i = i + 1;
    }
    proof {
        assert(lists.subrange(0, n as int) =~= lists);
    }
    sum
}

/// Sum of the middle pages, after reordering, of the page sequences that
/// were not rightly ordered.
pub fn sum_fix_order_middles(input: Input) -> (r: u32)
    requires
        forall|i: int| 0 <= i < input.pages@.len() ==> (#[trigger] input.pages@[i])@.len() > 0,
        fixed_middles_sum(input.pages@, input.ordering_rules@) <= u32::MAX,
    ensures
        r == fixed_middles_sum(input.pages@, input.ordering_rules@),
{
    let ghost lists = input.pages@;
    let ghost rules = input.ordering_rules@;
    let n = input.pages.len();
    let mut sum: u32 = 0;
    let mut i: usize = 0;
    while i < n
        invariant
            i <= n,
            n == lists.len(),
            lists == input.pages@,
            rules == input.ordering_rules@,
            forall|k: int| 0 <= k < n ==> (#[trigger] lists[k])@.len() > 0,
            fixed_middles_sum(lists, rules) <= u32::MAX,
            sum == fixed_middles_sum(lists.subrange(0, i as int), rules),
        decreases n - i,
    {
        proof {
            let p = lists.subrange(0, i + 1 as int);
            assert(p.drop_last() =~= lists.subrange(0, i as int));
            assert(p.last() == lists[i as int]);
            lemma_fixed_middles_sum_bound(lists, rules, i + 1);
            lemma_fixed_middles_sum_bound(lists, rules, i as int);
        }
        let row = &input.pages[i];
        if !is_right_order(row.as_slice(), &input.ordering_rules) {
            let mut fixed = vstd::slice::slice_to_vec(row.as_slice());
            fix_order(&mut fixed, &input.ordering_rules);
            proof {
                lemma_sort_by_rules_len(rules, lists[i as int]@);
            }
            sum = sum + middle(fixed.as_slice());
        }
        i = i + 1;
    }
    proof {
        assert(lists.subrange(0, n as int) =~= lists);
    }
    sum
}

/// Reorders the pages by insertion sort under the ordering rules: each page
/// slips left past every page it must precede.
pub fn fix_order(pages: &mut Vec<u32>, ordering_rules: &HashMap<u32, HashSet<u32>>)
    ensures
        final(pages)@ == sort_by_rules(ordering_rules@, old(pages)@),
{
    let ghost rules = ordering_rules@;
    let ghost s = pages@;
    let n = pages.len();
    let mut i: usize = 1;
    if n == 0 {
        assert(sort_by_rules(rules, s) =~= s);
        return ;
    }
    proof {
        assert(s.subrange(0, 1).drop_last() =~= Seq::<u32>::empty());
        assert(sort_by_rules(rules, Seq::<u32>::empty()) =~= Seq::<u32>::empty());
        assert(insert_by_rules(rules, s[0], Seq::<u32>::empty()) =~= seq![s[0]]);
        assert(s.subrange(0, 1).last() == s[0]);
        assert(pages@.subrange(0, 1) =~= sort_by_rules(rules, s.subrange(0, 1)));
    }
    while i < n
        invariant
            1 <= i <= n,
            n == pages@.len(),
            s.len() == n,
            rules == ordering_rules@,
            pages@.subrange(i as int, n as int) == s.subrange(i as int, n as int),
            pages@.subrange(0, i as int) == sort_by_rules(rules, s.subrange(0, i as int)),
        decreases n - i,
    {
        let ghost sorted_prefix = pages@.subrange(0, i as int);
        let x = pages[i];
        proof {
            assert(pages@.subrange(i as int, n as int)[0] == s.subrange(i as int, n as int)[0]);
            assert(x == s[i as int]);
            assert(pages@.subrange(i + 1, n as int) =~= pages@.subrange(i as int, n as int)
                .subrange(1, n - i));
            assert(s.subrange(i + 1, n as int) =~= s.subrange(i as int, n as int).subrange(
                1,
                n - i,
            ));
            assert(s.subrange(0, i + 1 as int).drop_last() =~= s.subrange(0, i as int));
            assert(sorted_prefix.subrange(0, i as int) =~= sorted_prefix);
            assert(insert_by_rules(rules, x, sorted_prefix) =~= insert_by_rules(
                rules,
                x,
                sorted_prefix.subrange(0, i as int),
            ) + sorted_prefix.subrange(i as int, i as int));
            assert(sort_by_rules(rules, s.subrange(0, i + 1 as int)) == insert_by_rules(
                rules,
                x,
                sorted_prefix,
            ));
        }
        let mut j: usize = i;
        while j > 0 && rule_less_exec(ordering_rules, pages[j], pages[j - 1])
            invariant
                0 <= j <= i < n,
                n == pages@.len(),
                s.len() == n,
                rules == ordering_rules@,
                sorted_prefix.len() == i,
                pages@[j as int] == x,
                pages@.subrange(i + 1, n as int) == s.subrange(i + 1, n as int),
                forall|a: int| 0 <= a < j ==> pages@[a] == sorted_prefix[a],
                forall|a: int| j < a <= i ==> pages@[a] == sorted_prefix[a - 1],
                insert_by_rules(rules, x, sorted_prefix) == insert_by_rules(
                    rules,
                    x,
                    sorted_prefix.subrange(0, j as int),
                ) + sorted_prefix.subrange(j as int, i as int),
            decreases j,
        {
            let tmp = pages[j - 1];
            pages.set(j - 1, x);
            pages.set(j, tmp);
            proof {
                let pre = sorted_prefix.subrange(0, j as int);
                assert(pre.last() == sorted_prefix[j - 1]);
                assert(pre.drop_last() =~= sorted_prefix.subrange(0, j - 1));
                assert(rule_less(rules, x, sorted_prefix[j - 1]));
                assert(insert_by_rules(rules, x, pre) == insert_by_rules(
                    rules,
                    x,
                    sorted_prefix.subrange(0, j - 1),
                ).push(sorted_prefix[j - 1]));
                assert(insert_by_rules(rules, x, sorted_prefix.subrange(0, j - 1))
                    + sorted_prefix.subrange(j - 1, i as int) =~= insert_by_rules(rules, x, pre)
                    + sorted_prefix.subrange(j as int, i as int)) by {
                    lemma_insert_by_rules_len(rules, x, sorted_prefix.subrange(0, j - 1));
                    assert(sorted_prefix.subrange(j - 1, i as int) =~= seq![
                        sorted_prefix[j - 1],
                    ] + sorted_prefix.subrange(j as int, i as int));
                }
            }
            j = j - 1;
        }
        proof {
            let pre = sorted_prefix.subrange(0, j as int);
            if j > 0 {
                assert(pages@[j - 1] == sorted_prefix[j - 1]);
                assert(!rule_less(rules, x, pre.last()));
                assert(insert_by_rules(rules, x, pre) == pre.push(x));
            } else {
                assert(pre =~= Seq::<u32>::empty());
                assert(insert_by_rules(rules, x, pre) =~= seq![x]);
            }
            assert(pages@.subrange(0, i + 1 as int) =~= pre.push(x) + sorted_prefix.subrange(
                j as int,
                i as int,
            ));
            assert(pages@.subrange(0, i + 1 as int) == sort_by_rules(
                rules,
                s.subrange(0, i + 1 as int),
            ));
            assert(pages@.subrange(i + 1, n as int) == s.subrange(i + 1, n as int));
        }
        i = i + 1;
    }
    proof {
        assert(s.subrange(0, n as int) =~= s);
        assert(pages@.subrange(0, n as int) =~= pages@);
    }
}

/// An ordering rule `a|b`, read from a line of two decimal numbers split by
/// a bar; `None` when the line has any other shape.
pub open spec fn parse_rule_spec(s: Seq<char>) -> Option<(u32, u32)> {
    let a1 = crate::parse::digits_end_from(s, 0);
    let b0 = a1 + 1;
    let b1 = crate::parse::digits_end_from(s, b0);
    if crate::parse::is_digit_token(s, 0, a1) && crate::parse::digits_val_from(s, 0, a1)
        <= u32::MAX && a1 < s.len() && s[a1] == '|' && crate::parse::is_digit_token(s, b0, b1)
        && crate::parse::digits_val_from(s, b0, b1) <= u32::MAX && crate::parse::sep_end_from(
        s,
        b1,
    ) == s.len() {
        Some(
            (
                crate::parse::digits_val_from(s, 0, a1) as u32,
                crate::parse::digits_val_from(s, b0, b1) as u32,
            ),
        )
    } else {
        None
    }
}

/// Reads an ordering rule line `a|b`: a page number, a bar, and the page it
/// must precede, with nothing but whitespace after.
pub fn parse_rule_line(line: &str) -> (r: Option<(u32, u32)>)
    ensures
        r == parse_rule_spec(line@),
{
    let n = line.unicode_len();
    proof {
        crate::parse::lemma_digits_end_from(line@, 0);
    }
    let a1 = crate::parse::scan_digits_end(line, 0, n);
    let v1 = match crate::parse::parse_u32_token(line, 0, a1) {
        Some(v) => v,
        None => {
            return None;
        },
    };
    if !(a1 < n && crate::parse::digit_at(line, a1) == false && line.get_char(a1) == '|') {
        return None;
    }
    let b0 = a1 + 1;
    proof {
        crate::parse::lemma_digits_end_from(line@, b0 as int);
    }
    let b1 = crate::parse::scan_digits_end(line, b0, n);
    let v2 = match crate::parse::parse_u32_token(line, b0, b1) {
        Some(v) => v,
        None => {
            return None;
        },
    };
    proof {
        crate::parse::lemma_sep_end_from(line@, b1 as int);
    }
    let rest = crate::parse::skip_separators(line, b1, n);
    if rest != n {
        return None;
    }
    Some((v1, v2))
}

/// The comma-separated page numbers starting at `i`; `None` when anything
/// but digits, commas, and trailing whitespace appears.
pub open spec fn parse_pages_spec(s: Seq<char>, i: int) -> Option<Seq<u32>>
    decreases s.len() - i
        when 0 <= i via parse_pages_spec_decreases
{
    let e = crate::parse::digits_end_from(s, i);
    if !crate::parse::is_digit_token(s, i, e) || crate::parse::digits_val_from(s, i, e)
        > u32::MAX {
        None
    } else if crate::parse::sep_end_from(s, e) == s.len() {
        Some(seq![crate::parse::digits_val_from(s, i, e) as u32])
    } else if e < s.len() && s[e] == ',' {
        match parse_pages_spec(s, e + 1) {
            None => None,
            Some(rest) => Some(seq![crate::parse::digits_val_from(s, i, e) as u32] + rest),
        }
    } else {
        None
    }
}

#[via_fn]
proof fn parse_pages_spec_decreases(s: Seq<char>, i: int) {
    if i <= s.len() {
        crate::parse::lemma_digits_end_from(s, i);
    }
}

/// Reads a line of comma-separated page numbers, allowing trailing
/// whitespace; `None` when the line has any other shape.
pub fn parse_page_line(line: &str) -> (r: Option<Vec<u32>>)
    ensures
        match r {
            Some(v) => parse_pages_spec(line@, 0) == Some(v@),
            None => parse_pages_spec(line@, 0) is None,
        },
{
    let n = line.unicode_len();
    let mut out: Vec<u32> = Vec::new();
    let mut i: usize = 0;
    loop
        invariant_except_break
            i <= n,
            n == line@.len(),
            match parse_pages_spec(line@, 0) {
                Some(all) => parse_pages_spec(line@, i as int) matches Some(rest) && all == out@
                    + rest,
                None => parse_pages_spec(line@, i as int) is None,
            },
        ensures
            match parse_pages_spec(line@, 0) {
                Some(all) => all == out@,
                None => false,
            },
        decreases n - i,
    {
        proof {
            crate::parse::lemma_digits_end_from(line@, i as int);
        }
        let e = crate::parse::scan_digits_end(line, i, n);
        let v = match crate::parse::parse_u32_token(line, i, e) {
            Some(v) => v,
            None => {
                proof {
                    assert(parse_pages_spec(line@, i as int) is None);
                }
                return None;
            },
        };
        proof {
            crate::parse::lemma_sep_end_from(line@, e as int);
        }
        let rest = crate::parse::skip_separators(line, e, n);
        if rest == n {
            out.push(v);
            proof {
                assert(parse_pages_spec(line@, i as int) == Some(seq![v]));
                assert(out@.drop_last() + seq![v] =~= out@);
            }
            break ;
        }
        if e < n && line.get_char(e) == ',' {
            out.push(v);
            proof {
                if parse_pages_spec(line@, e + 1) is Some {
                    assert(out@.drop_last() + (seq![v] + parse_pages_spec(line@, e + 1)->0)
                        =~= out@ + parse_pages_spec(line@, e + 1)->0);
                }
            }
            i = e + 1;
        } else {
            proof {
                assert(parse_pages_spec(line@, i as int) is None);
            }
            return None;
        }
    }
    Some(out)
}

} // verus!
