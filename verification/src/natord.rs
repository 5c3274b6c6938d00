use std::cmp::Ordering;
use vstd::prelude::*;

use crate::text::{chars_of, decimal, digit_chars, lemma_decimal_digits, to_lowercase, lowercase};

verus! {

/// An ASCII decimal digit.
pub open spec fn is_digit(c: char) -> bool {
    '0' <= c && c <= '9'
}

/// The value of a single ASCII decimal digit.
pub open spec fn digit_value(c: char) -> nat {
    (c as int - '0' as int) as nat
}

/// The number that a sequence of decimal digits denotes (most significant first).
pub open spec fn digits_value(s: Seq<char>) -> nat
    decreases s.len(),
{
    if s.len() == 0 {
        0
    } else {
        digits_value(s.drop_last()) * 10 + digit_value(s.last())
    }
}

/// The value a run of digits is compared by: its number when that fits in a `u64`,
/// and 0 when it does not (a run that does not parse as a `u64` counts as 0).
pub open spec fn run_value(s: Seq<char>) -> nat {
    if digits_value(s) <= u64::MAX {
        digits_value(s)
    } else {
        0
    }
}

/// The first position at or after `i` that does not hold a digit.
pub open spec fn digit_run_end(s: Seq<char>, i: int) -> int
    decreases s.len() - i,
{
    if 0 <= i < s.len() && is_digit(s[i]) {
        digit_run_end(s, i + 1)
    } else {
        i
    }
}

pub proof fn lemma_digit_run_end_bounds(s: Seq<char>, i: int)
    requires
        0 <= i <= s.len(),
    ensures
        i <= digit_run_end(s, i) <= s.len(),
        i < s.len() && is_digit(s[i]) ==> i < digit_run_end(s, i),
        forall|k: int| i <= k < digit_run_end(s, i) ==> is_digit(#[trigger] s[k]),
    decreases s.len() - i,
{
    if i < s.len() && is_digit(s[i]) {
        lemma_digit_run_end_bounds(s, i + 1);
    }
}

/// Natural order of `a` and `b`, comparing from positions `ai` and `bi`: runs of digits are
/// compared by value, other characters one by one; when one side runs out, the total lengths decide.
pub open spec fn natural_order_from(a: Seq<char>, b: Seq<char>, ai: int, bi: int) -> Ordering
    decreases (a.len() - ai) + (b.len() - bi),
{
    if 0 <= ai < a.len() && 0 <= bi < b.len() {
        if is_digit(a[ai]) && is_digit(b[bi]) {
            let ae = digit_run_end(a, ai);
            let be = digit_run_end(b, bi);
            let av = run_value(a.subrange(ai, ae));
            let bv = run_value(b.subrange(bi, be));
            if av == bv {
                proof {
                    lemma_digit_run_end_bounds(a, ai);
                    lemma_digit_run_end_bounds(b, bi);
                }
                natural_order_from(a, b, ae, be)
            } else if av < bv {
                Ordering::Less
            } else {
                Ordering::Greater
            }
        } else if a[ai] == b[bi] {
            natural_order_from(a, b, ai + 1, bi + 1)
        } else if a[ai] < b[bi] {
            Ordering::Less
        } else {
            Ordering::Greater
        }
    } else if a.len() < b.len() {
        Ordering::Less
    } else if a.len() == b.len() {
        Ordering::Equal
    } else {
        Ordering::Greater
    }
}

/// Natural order of two character sequences.
#[verifier::opaque]
pub open spec fn natural_order(a: Seq<char>, b: Seq<char>) -> Ordering {
    natural_order_from(a, b, 0, 0)
}

/// Natural order of the lower-case forms of two strings.
pub open spec fn natural_order_ignore_case(a: Seq<char>, b: Seq<char>) -> Ordering {
    natural_order(lowercase(a), lowercase(b))
}

} // verus!

verus! {

/// A `usize` position seen as a mathematical integer.
pub open spec fn pos(i: usize) -> int {
    i as int
}

/// Scans the run of digits of `v` that starts at `start`; returns where it ends and its value,
/// or `None` for the value when it does not fit in a `u64`.
pub fn scan_digit_run(v: &Vec<char>, start: usize) -> (r: (usize, Option<u64>))
    requires
        start <= v.len(),
    ensures
        r.0 as int == digit_run_end(v@, start as int),
        r.1 is Some <==> digits_value(v@.subrange(start as int, r.0 as int)) <= u64::MAX,
        r.1 matches Some(n) ==> n as nat == digits_value(v@.subrange(start as int, r.0 as int)),
{
    let mut i: usize = start;
    let mut acc: u64 = 0;
    let mut overflow = false;
    proof {
        lemma_digit_run_end_bounds(v@, start as int);
    }
    while i < v.len() && '0' <= v[i] && v[i] <= '9'
        invariant
            start <= i <= v.len(),
            digit_run_end(v@, i as int) == digit_run_end(v@, start as int),
            !overflow ==> acc as nat == digits_value(v@.subrange(start as int, i as int)),
            overflow ==> digits_value(v@.subrange(start as int, i as int)) > u64::MAX,
        decreases v.len() - i,
    {
        let d = (v[i] as u32 - '0' as u32) as u64;
        let ghost prev = v@.subrange(start as int, i as int);
        assert(v@.subrange(start as int, i + 1).drop_last() == prev);
        assert(v@.subrange(start as int, i + 1).last() == v@[i as int]);
        if !overflow {
            match acc.checked_mul(10) {
                Some(m) => match m.checked_add(d) {
                    Some(n) => {
                        acc = n;
                    },
                    None => {
                        overflow = true;
                    },
                },
                None => {
                    overflow = true;
                },
            }
        }
        i += 1;
    }
    if overflow {
        (i, None)
    } else {
        (i, Some(acc))
    }
}

/// The value a run of digits is compared by (0 when it does not fit in a `u64`).
fn digit_run_value(v: &Vec<char>, start: usize) -> (r: (usize, u64))
    requires
        start <= v.len(),
    ensures
        r.0 as int == digit_run_end(v@, start as int),
        r.1 as nat == run_value(v@.subrange(start as int, r.0 as int)),
{
    let (end, value) = scan_digit_run(v, start);
    match value {
        Some(n) => (end, n),
        None => (end, 0),
    }
}

/// Natural comparison of two strings: runs of ASCII digits compare by their numeric value,
/// other characters by code point; when one side is used up, the longer string is greater.
pub fn compare(a: &str, b: &str) -> (r: Ordering)
    ensures
        r == natural_order(a@, b@),
{
    proof {
        reveal(natural_order);
    }
    let av = chars_of(a);
    let bv = chars_of(b);
    let mut ai: usize = 0;
    let mut bi: usize = 0;
    while ai < av.len() && bi < bv.len()
        invariant
            ai <= av.len(),
            bi <= bv.len(),
            natural_order_from(av@, bv@, pos(ai), pos(bi)) == natural_order(a@, b@),
            av@ == a@,
            bv@ == b@,
        decreases (av.len() - ai) + (bv.len() - bi),
    {
        let x = av[ai];
        let y = bv[bi];
        if '0' <= x && x <= '9' && '0' <= y && y <= '9' {
            let (ae, an) = digit_run_value(&av, ai);
            let (be, bn) = digit_run_value(&bv, bi);
            if an == bn {
                proof {
                    lemma_digit_run_end_bounds(av@, pos(ai));
                    lemma_digit_run_end_bounds(bv@, pos(bi));
                }
                ai = ae;
                bi = be;
            } else if an < bn {
                return Ordering::Less;
            } else {
                return Ordering::Greater;
            }
        } else if x == y {
            ai += 1;
            bi += 1;
        } else if x < y {
            return Ordering::Less;
        } else {
            return Ordering::Greater;
        }
    }
    if av.len() < bv.len() {
        Ordering::Less
    } else if av.len() == bv.len() {
        Ordering::Equal
    } else {
        Ordering::Greater
    }
}

/// Natural comparison of the lower-case forms of `a` and `b`.
pub fn compare_ignore_case(a: &str, b: &str) -> (r: Ordering)
    ensures
        r == natural_order_ignore_case(a@, b@),
{
    let a_lower = to_lowercase(a);
    let b_lower = to_lowercase(b);
    compare(a_lower.as_str(), b_lower.as_str())
}

} // verus!

verus! {

/// The ordering seen from the other side.
pub open spec fn flipped(o: Ordering) -> Ordering {
    match o {
        Ordering::Less => Ordering::Greater,
        Ordering::Equal => Ordering::Equal,
        Ordering::Greater => Ordering::Less,
    }
}

proof fn lemma_order_from_flips(a: Seq<char>, b: Seq<char>, ai: int, bi: int)
    ensures
        natural_order_from(a, b, ai, bi) == flipped(natural_order_from(b, a, bi, ai)),
    decreases (a.len() - ai) + (b.len() - bi),
{
    if 0 <= ai < a.len() && 0 <= bi < b.len() {
        if is_digit(a[ai]) && is_digit(b[bi]) {
            lemma_digit_run_end_bounds(a, ai);
            lemma_digit_run_end_bounds(b, bi);
            lemma_order_from_flips(a, b, digit_run_end(a, ai), digit_run_end(b, bi));
        } else if a[ai] == b[bi] {
            lemma_order_from_flips(a, b, ai + 1, bi + 1);
        }
    }
}

proof fn lemma_order_from_same(a: Seq<char>, i: int)
    requires
        0 <= i,
    ensures
        natural_order_from(a, a, i, i) == Ordering::Equal,
    decreases a.len() - i,
{
    if i < a.len() {
        if is_digit(a[i]) {
            lemma_digit_run_end_bounds(a, i);
            lemma_order_from_same(a, digit_run_end(a, i));
        } else {
            lemma_order_from_same(a, i + 1);
        }
    }
}

/// Swapping the two arguments of the natural order flips its answer.
pub proof fn law_natural_order_antisymmetric(a: Seq<char>, b: Seq<char>)
    ensures
        natural_order(a, b) == flipped(natural_order(b, a)),
        natural_order_ignore_case(a, b) == flipped(natural_order_ignore_case(b, a)),
{
    reveal(natural_order);
    lemma_order_from_flips(a, b, 0, 0);
    lemma_order_from_flips(lowercase(a), lowercase(b), 0, 0);
}

/// Every string is equal to itself in the natural order.
pub proof fn law_natural_order_reflexive(a: Seq<char>)
    ensures
        natural_order(a, a) == Ordering::Equal,
        natural_order_ignore_case(a, a) == Ordering::Equal,
{
    reveal(natural_order);
    lemma_order_from_same(a, 0);
    lemma_order_from_same(lowercase(a), 0);
}


/// No character of `s` is an ASCII digit.
pub open spec fn has_no_digit(s: Seq<char>) -> bool {
    forall|k: int| 0 <= k < s.len() ==> !is_digit(#[trigger] s[k])
}

/// The order of two characters by code point.
pub open spec fn char_order(x: char, y: char) -> Ordering {
    if x == y {
        Ordering::Equal
    } else if x < y {
        Ordering::Less
    } else {
        Ordering::Greater
    }
}

/// The order of two numbers.
pub open spec fn number_order(n: u64, m: u64) -> Ordering {
    if n == m {
        Ordering::Equal
    } else if n < m {
        Ordering::Less
    } else {
        Ordering::Greater
    }
}

/// The order of two sequences by their lengths alone.
pub open spec fn length_order(a: Seq<char>, b: Seq<char>) -> Ordering {
    if a.len() == b.len() {
        Ordering::Equal
    } else if a.len() < b.len() {
        Ordering::Less
    } else {
        Ordering::Greater
    }
}

/// The decimal notation of a `u64`.
pub open spec fn decimal_of(n: u64) -> Seq<char> {
    decimal(n as nat)
}

proof fn lemma_no_digit_difference(a: Seq<char>, b: Seq<char>, i: int, j: int)
    requires
        has_no_digit(a),
        has_no_digit(b),
        0 <= i <= j,
        j < a.len(),
        j < b.len(),
        forall|k: int| i <= k < j ==> a[k] == b[k],
        a[j] != b[j],
    ensures
        natural_order_from(a, b, i, i) == char_order(a[j], b[j]),
    decreases j - i,
{
    assert(!is_digit(a[i]));
    if i < j {
        assert(a[i] == b[i]);
        lemma_no_digit_difference(a, b, i + 1, j);
    }
}

proof fn lemma_no_digit_prefix(a: Seq<char>, b: Seq<char>, i: int)
    requires
        has_no_digit(a),
        has_no_digit(b),
        0 <= i,
        forall|k: int| i <= k < a.len() && k < b.len() ==> a[k] == b[k],
    ensures
        natural_order_from(a, b, i, i) == length_order(a, b),
    decreases a.len() - i,
{
    if i < a.len() && i < b.len() {
        assert(!is_digit(a[i]));
        assert(a[i] == b[i]);
        lemma_no_digit_prefix(a, b, i + 1);
    }
}

proof fn lemma_no_digit_equal(a: Seq<char>, b: Seq<char>, i: int)
    requires
        has_no_digit(a),
        has_no_digit(b),
        0 <= i,
        natural_order_from(a, b, i, i) == Ordering::Equal,
    ensures
        a.len() == b.len(),
        forall|k: int| i <= k < a.len() ==> a[k] == b[k],
    decreases a.len() - i,
{
    if i < a.len() && i < b.len() {
        assert(!is_digit(a[i]));
        assert(a[i] == b[i]);
        lemma_no_digit_equal(a, b, i + 1);
    }
}

/// Between strings without digits the natural order is the plain order of characters:
/// the first position where they differ decides by code point, a proper prefix comes first,
/// and they are equal only when they are the same.
pub proof fn law_natural_order_without_digits(a: Seq<char>, b: Seq<char>, j: int)
    requires
        has_no_digit(a),
        has_no_digit(b),
    ensures
        natural_order(a, b) == Ordering::Equal <==> a == b,
        0 <= j < a.len() && j < b.len() && a.take(j) == b.take(j) && a[j] != b[j]
            ==> natural_order(a, b) == char_order(a[j], b[j]),
        a.len() < b.len() && a.is_prefix_of(b) ==> natural_order(a, b) == Ordering::Less,
{
    reveal(natural_order);
    if natural_order(a, b) == Ordering::Equal {
        lemma_no_digit_equal(a, b, 0);
        assert(a =~= b);
    }
    if a == b {
        law_natural_order_reflexive(a);
    }
    if 0 <= j < a.len() && j < b.len() && a.take(j) == b.take(j) && a[j] != b[j] {
        assert forall|k: int| 0 <= k < j implies a[k] == b[k] by {
            assert(a.take(j)[k] == b.take(j)[k]);
        }
        lemma_no_digit_difference(a, b, 0, j);
    }
    if a.len() < b.len() && a.is_prefix_of(b) {
        assert forall|k: int| 0 <= k < a.len() && k < b.len() implies a[k] == b[k] by {
            assert(a[k] == b.subrange(0, k + 1)[k]);
        }
        lemma_no_digit_prefix(a, b, 0);
    }
}

proof fn lemma_run_to_end(s: Seq<char>, i: int)
    requires
        0 <= i <= s.len(),
        forall|k: int| i <= k < s.len() ==> is_digit(#[trigger] s[k]),
    ensures
        digit_run_end(s, i) == s.len(),
    decreases s.len() - i,
{
    if i < s.len() {
        lemma_run_to_end(s, i + 1);
    }
}

proof fn lemma_digit_char_value(k: int)
    requires
        0 <= k < 10,
    ensures
        digit_value(digit_chars()[k]) == k,
{
    let d = digit_chars();
    if k == 0 {
        assert(d[0] == '0');
    } else if k == 1 {
        assert(d[1] == '1');
    } else if k == 2 {
        assert(d[2] == '2');
    } else if k == 3 {
        assert(d[3] == '3');
    } else if k == 4 {
        assert(d[4] == '4');
    } else if k == 5 {
        assert(d[5] == '5');
    } else if k == 6 {
        assert(d[6] == '6');
    } else if k == 7 {
        assert(d[7] == '7');
    } else if k == 8 {
        assert(d[8] == '8');
    } else {
        assert(d[9] == '9');
    }
}

proof fn lemma_decimal_value(n: nat)
    ensures
        digits_value(decimal(n)) == n,
    decreases n,
{
    let d = digit_chars();
    if n < 10 {
        lemma_digit_char_value(n as int);
        let s = decimal(n);
        assert(s == seq![d[n as int]]);
        assert(s.len() == 1);
        assert(s.drop_last() =~= Seq::<char>::empty());
        assert(digits_value(s.drop_last()) == 0);
        assert(s.last() == d[n as int]);
        assert(digits_value(s) == digits_value(s.drop_last()) * 10 + digit_value(s.last()));
    } else {
        lemma_decimal_value(n / 10);
        lemma_digit_char_value((n % 10) as int);
        let s = decimal(n);
        assert(s.drop_last() =~= decimal(n / 10));
        assert(s.last() == d[(n % 10) as int]);
        assert(digits_value(s) == digits_value(s.drop_last()) * 10 + digit_value(s.last()));
        assert((n / 10) * 10 + n % 10 == n);
    }
}

proof fn lemma_decimal_run(n: u64)
    ensures
        decimal_of(n).len() >= 1,
        is_digit(decimal_of(n)[0]),
        digit_run_end(decimal_of(n), 0) == decimal_of(n).len(),
        decimal_of(n).subrange(0, digit_run_end(decimal_of(n), 0)) == decimal_of(n),
        run_value(decimal_of(n)) == n,
{
    let a = decimal_of(n);
    lemma_decimal_digits(n as nat);
    lemma_decimal_value(n as nat);
    lemma_run_to_end(a, 0);
    assert(a.subrange(0, a.len() as int) == a);
}

/// Numbers written out in decimal compare in the natural order as the numbers do.
pub proof fn law_natural_order_of_numbers(n: u64, m: u64)
    ensures
        natural_order(decimal_of(n), decimal_of(m)) == number_order(n, m),
{
    reveal(natural_order);
    reveal_with_fuel(natural_order_from, 2);
    lemma_decimal_run(n);
    lemma_decimal_run(m);
    let a = decimal_of(n);
    let b = decimal_of(m);
    assert(0 < a.len() && 0 < b.len());
    assert(is_digit(a[0]) && is_digit(b[0]));
    if n == m {
        assert(a == b);
        assert(natural_order_from(a, b, digit_run_end(a, 0), digit_run_end(b, 0)) == Ordering::Equal);
    }
}


/// The length of a character sequence as an integer position.
pub open spec fn end_of(s: Seq<char>) -> int {
    s.len() as int
}

/// `s` is empty or does not start with an ASCII digit.
pub open spec fn starts_without_digit(s: Seq<char>) -> bool {
    s.len() == 0 || !is_digit(s[0])
}

proof fn lemma_run_end_shift(p: Seq<char>, x: Seq<char>, i: int)
    requires
        0 <= i <= x.len(),
    ensures
        digit_run_end(p + x, end_of(p) + i) == end_of(p) + digit_run_end(x, i),
    decreases x.len() - i,
{
    let a = p + x;
    if i < x.len() {
        assert(a[end_of(p) + i] == x[i]);
        if is_digit(x[i]) {
            lemma_run_end_shift(p, x, i + 1);
        }
    }
}

proof fn lemma_order_shift(p: Seq<char>, x: Seq<char>, y: Seq<char>, i: int, j: int)
    requires
        0 <= i <= x.len(),
        0 <= j <= y.len(),
    ensures
        natural_order_from(p + x, p + y, end_of(p) + i, end_of(p) + j) == natural_order_from(x, y, i, j),
    decreases (x.len() - i) + (y.len() - j),
{
    let a = p + x;
    let b = p + y;
    let n = end_of(p);
    if i < x.len() && j < y.len() {
        assert(a[n + i] == x[i]);
        assert(b[n + j] == y[j]);
        if is_digit(x[i]) && is_digit(y[j]) {
            lemma_digit_run_end_bounds(x, i);
            lemma_digit_run_end_bounds(y, j);
            lemma_run_end_shift(p, x, i);
            lemma_run_end_shift(p, y, j);
            let xe = digit_run_end(x, i);
            let ye = digit_run_end(y, j);
            assert(a.subrange(n + i, n + xe) =~= x.subrange(i, xe));
            assert(b.subrange(n + j, n + ye) =~= y.subrange(j, ye));
            lemma_order_shift(p, x, y, xe, ye);
        } else if x[i] == y[j] {
            lemma_order_shift(p, x, y, i + 1, j + 1);
        }
    }
}

proof fn lemma_run_end_in_prefix(p: Seq<char>, x: Seq<char>, i: int)
    requires
        0 <= i <= p.len(),
        starts_without_digit(x),
    ensures
        digit_run_end(p + x, i) == digit_run_end(p, i),
        digit_run_end(p, i) <= p.len(),
    decreases p.len() - i,
{
    let a = p + x;
    lemma_digit_run_end_bounds(p, i);
    if i < p.len() {
        assert(a[i] == p[i]);
        if is_digit(p[i]) {
            lemma_run_end_in_prefix(p, x, i + 1);
        }
    } else if x.len() > 0 {
        assert(a[i] == x[0]);
    }
}

proof fn lemma_order_through_prefix(p: Seq<char>, x: Seq<char>, y: Seq<char>, i: int)
    requires
        0 <= i <= p.len(),
        starts_without_digit(x),
        starts_without_digit(y),
    ensures
        natural_order_from(p + x, p + y, i, i) == natural_order_from(p + x, p + y, end_of(p), end_of(p)),
    decreases p.len() - i,
{
    let a = p + x;
    let b = p + y;
    if i < p.len() {
        assert(a[i] == p[i] && b[i] == p[i]);
        if is_digit(p[i]) {
            lemma_run_end_in_prefix(p, x, i);
            lemma_run_end_in_prefix(p, y, i);
            lemma_digit_run_end_bounds(p, i);
            let e = digit_run_end(p, i);
            assert(a.subrange(i, e) =~= p.subrange(i, e));
            assert(b.subrange(i, e) =~= p.subrange(i, e));
            lemma_order_through_prefix(p, x, y, e);
        } else {
            lemma_order_through_prefix(p, x, y, i + 1);
        }
    }
}

/// A common beginning does not decide the natural order, digit runs in it included: when
/// what follows it does not start with a digit (so that no run reaches past it), the order of
/// the two strings is the order of what follows.
pub proof fn law_natural_order_common_prefix(p: Seq<char>, x: Seq<char>, y: Seq<char>)
    requires
        starts_without_digit(x),
        starts_without_digit(y),
    ensures
        natural_order(p + x, p + y) == natural_order(x, y),
{
    reveal(natural_order);
    lemma_order_through_prefix(p, x, y, 0);
    lemma_order_shift(p, x, y, 0, 0);
}

} // verus!
