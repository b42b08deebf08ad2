//! The order of package versions: runs of digits count as numbers, every other
//! character by its code point.

use vstd::prelude::*;
use crate::text::chars_of;

verus! {

/// How one value stands to another.
#[derive(Clone, Copy, Debug, PartialEq, Eq, Structural)]
pub enum Comparison {
    Less,
    Equal,
    Greater,
}

pub open spec fn is_digit(c: char) -> bool {
    48 <= (c as int) <= 57
}

pub open spec fn digit_of(c: char) -> int {
    (c as int) - 48
}

pub open spec fn all_digits(s: Seq<char>) -> bool {
    forall|k: int| 0 <= k < s.len() ==> is_digit(#[trigger] s[k])
}

/// The length of the run of digits that `s` starts with.
pub open spec fn digits_len(s: Seq<char>) -> int
    decreases s.len(),
{
    if s.len() > 0 && is_digit(s[0]) {
        1 + digits_len(s.skip(1))
    } else {
        0
    }
}

/// The number that a string of decimal digits writes; leading zeros do not count.
pub open spec fn digits_value(s: Seq<char>) -> int
    decreases s.len(),
{
    if s.len() == 0 {
        0
    } else {
        digits_value(s.drop_last()) * 10 + digit_of(s.last())
    }
}

/// The number written by the run of digits that `s` starts with.
pub open spec fn leading_number(s: Seq<char>) -> int {
    digits_value(s.take(digits_len(s)))
}

/// Compares two versions from the left. Where both are at a digit, the two runs of digits
/// are compared as numbers, of any size; elsewhere the characters are compared by code
/// point. A version that ends first comes first. So `1.9` comes before `1.10`, and `1.0`
/// before `1.0.1`; `1.01` and `1.1` are equal.
pub open spec fn compare_versions(a: Seq<char>, b: Seq<char>) -> Comparison
    decreases a.len() + b.len(),
{
    if a.len() == 0 && b.len() == 0 {
        Comparison::Equal
    } else if a.len() == 0 {
        Comparison::Less
    } else if b.len() == 0 {
        Comparison::Greater
    } else if is_digit(a[0]) && is_digit(b[0]) {
        if leading_number(a) < leading_number(b) {
            Comparison::Less
        } else if leading_number(a) > leading_number(b) {
            Comparison::Greater
        } else {
            proof {
                lemma_digits_len_bounds(a);
                lemma_digits_len_bounds(b);
            }
            compare_versions(a.skip(digits_len(a)), b.skip(digits_len(b)))
        }
    } else if a[0] != b[0] {
        if (a[0] as int) < (b[0] as int) {
            Comparison::Less
        } else {
            Comparison::Greater
        }
    } else {
        compare_versions(a.skip(1), b.skip(1))
    }
}

/// Whether version `a` is at least version `b`.
pub open spec fn version_at_least(a: Seq<char>, b: Seq<char>) -> bool {
    compare_versions(a, b) != Comparison::Less
}

pub proof fn lemma_digits_len_bounds(s: Seq<char>)
    ensures
        0 <= digits_len(s) <= s.len(),
        s.len() > 0 && is_digit(s[0]) ==> digits_len(s) >= 1,
        forall|k: int| 0 <= k < digits_len(s) ==> is_digit(#[trigger] s[k]),
        digits_len(s) < s.len() ==> !is_digit(s[digits_len(s)]),
    decreases s.len(),
{
    if s.len() > 0 && is_digit(s[0]) {
        let t = s.skip(1);
        lemma_digits_len_bounds(t);
        assert forall|k: int| 0 <= k < digits_len(s) implies is_digit(#[trigger] s[k]) by {
            if k > 0 {
                assert(s[k] == t[k - 1]);
            }
        }
        if digits_len(s) < s.len() {
            assert(s[digits_len(s)] == t[digits_len(t)]);
        }
    }
}

/// A run of digits that stops at `e` is the whole leading run.
pub proof fn lemma_digits_len_is(s: Seq<char>, e: int)
    requires
        0 <= e <= s.len(),
        forall|k: int| 0 <= k < e ==> is_digit(#[trigger] s[k]),
        e < s.len() ==> !is_digit(s[e]),
    ensures
        digits_len(s) == e,
    decreases e,
{
    if e > 0 {
        let t = s.skip(1);
        assert forall|k: int| 0 <= k < e - 1 implies is_digit(#[trigger] t[k]) by {
            assert(t[k] == s[k + 1]);
        }
        lemma_digits_len_is(t, e - 1);
    }
}

/// A zero in front does not change the number.
pub proof fn lemma_leading_zero(s: Seq<char>)
    requires
        s.len() > 0,
        digit_of(s[0]) == 0,
    ensures
        digits_value(s) == digits_value(s.skip(1)),
    decreases s.len(),
{
    if s.len() == 1 {
        assert(s.drop_last().len() == 0);
        assert(s.skip(1).len() == 0);
        assert(s.last() == s[0]);
        assert(digits_value(s.drop_last()) == 0);
    } else {
        assert(s.drop_last()[0] == s[0]);
        lemma_leading_zero(s.drop_last());
        assert(s.drop_last().skip(1) =~= s.skip(1).drop_last());
        assert(s.skip(1).last() == s.last());
    }
}

proof fn lemma_all_digits_drop_last(s: Seq<char>)
    requires
        all_digits(s),
        s.len() > 0,
    ensures
        all_digits(s.drop_last()),
{
    let t = s.drop_last();
    assert forall|k: int| 0 <= k < t.len() implies is_digit(#[trigger] t[k]) by {
        assert(t[k] == s[k]);
    }
}

/// Of two numbers written without a zero in front, the one with fewer digits is smaller.
pub proof fn lemma_fewer_digits_is_less(s: Seq<char>, t: Seq<char>)
    requires
        all_digits(s),
        all_digits(t),
        s.len() < t.len(),
        digit_of(t[0]) != 0,
    ensures
        digits_value(s) < digits_value(t),
    decreases t.len(),
{
    let t1 = t.drop_last();
    assert(is_digit(t.last()));
    assert(is_digit(t[0]));
    if t.len() == 1 {
        assert(t1.len() == 0);
        assert(t.last() == t[0]);
        assert(digits_value(t1) == 0);
        assert(digits_value(s) == 0);
    } else {
        assert(t1[0] == t[0]);
        lemma_all_digits_drop_last(t);
        if s.len() == 0 {
            lemma_fewer_digits_is_less(s, t1);
        } else {
            assert(is_digit(s.last()));
            lemma_all_digits_drop_last(s);
            lemma_fewer_digits_is_less(s.drop_last(), t1);
        }
    }
}

/// Of two numbers with as many digits, the one with the smaller digit at the first
/// difference is smaller.
pub proof fn lemma_first_difference_decides(s: Seq<char>, t: Seq<char>, k: int)
    requires
        all_digits(s),
        all_digits(t),
        s.len() == t.len(),
        0 <= k < s.len(),
        forall|m: int| 0 <= m < k ==> s[m] == t[m],
        digit_of(s[k]) < digit_of(t[k]),
    ensures
        digits_value(s) < digits_value(t),
    decreases s.len(),
{
    let s1 = s.drop_last();
    let t1 = t.drop_last();
    assert(is_digit(s.last()) && is_digit(t.last()));
    lemma_all_digits_drop_last(s);
    lemma_all_digits_drop_last(t);
    if k == s.len() - 1 {
        assert(s1 =~= t1);
    } else {
        assert(s1[k] == s[k] && t1[k] == t[k]);
        assert forall|m: int| 0 <= m < k implies s1[m] == t1[m] by {
            assert(s1[m] == s[m] && t1[m] == t[m]);
        }
        lemma_first_difference_decides(s1, t1, k);
    }
}

/// The result of the comparison the other way round.
pub open spec fn reversed(c: Comparison) -> Comparison {
    match c {
        Comparison::Less => Comparison::Greater,
        Comparison::Equal => Comparison::Equal,
        Comparison::Greater => Comparison::Less,
    }
}

/// Every version equals itself.
pub proof fn lemma_compare_same(a: Seq<char>)
    ensures
        compare_versions(a, a) == Comparison::Equal,
    decreases a.len(),
{
    if a.len() > 0 {
        if is_digit(a[0]) {
            lemma_digits_len_bounds(a);
            lemma_compare_same(a.skip(digits_len(a)));
        } else {
            lemma_compare_same(a.skip(1));
        }
    }
}

/// Comparing the other way round gives the reversed result.
pub proof fn lemma_compare_reversed(a: Seq<char>, b: Seq<char>)
    ensures
        compare_versions(b, a) == reversed(compare_versions(a, b)),
    decreases a.len() + b.len(),
{
    if a.len() > 0 && b.len() > 0 {
        if is_digit(a[0]) && is_digit(b[0]) {
            if leading_number(a) == leading_number(b) {
                lemma_digits_len_bounds(a);
                lemma_digits_len_bounds(b);
                lemma_compare_reversed(a.skip(digits_len(a)), b.skip(digits_len(b)));
            }
        } else if a[0] == b[0] {
            lemma_compare_reversed(a.skip(1), b.skip(1));
        } else {
            assert(a[0] as int != b[0] as int);
        }
    }
}

/// The order of versions is transitive: what is not above a second version that is not
/// above a third is not above the third, and is below it where one of the two steps is
/// a step down.
pub proof fn lemma_compare_transitive(a: Seq<char>, b: Seq<char>, c: Seq<char>)
    requires
        compare_versions(a, b) != Comparison::Greater,
        compare_versions(b, c) != Comparison::Greater,
    ensures
        compare_versions(a, c) != Comparison::Greater,
        compare_versions(a, b) == Comparison::Less || compare_versions(b, c) == Comparison::Less
            ==> compare_versions(a, c) == Comparison::Less,
    decreases a.len() + b.len() + c.len(),
{
    if a.len() > 0 && b.len() > 0 && c.len() > 0 {
        if is_digit(a[0]) && is_digit(b[0]) && is_digit(c[0]) {
            if leading_number(a) == leading_number(b) && leading_number(b) == leading_number(c) {
                lemma_digits_len_bounds(a);
                lemma_digits_len_bounds(b);
                lemma_digits_len_bounds(c);
                lemma_compare_transitive(
                    a.skip(digits_len(a)),
                    b.skip(digits_len(b)),
                    c.skip(digits_len(c)),
                );
            }
        } else if a[0] == b[0] && b[0] == c[0] {
            lemma_compare_transitive(a.skip(1), b.skip(1), c.skip(1));
        } else {
            assert(a[0] != b[0] ==> a[0] as int != b[0] as int);
            assert(b[0] != c[0] ==> b[0] as int != c[0] as int);
            assert(a[0] != c[0] ==> a[0] as int != c[0] as int);
        }
    }
}

/// A version that is at least a second version that is at least a third is at least the
/// third.
pub proof fn lemma_at_least_transitive(a: Seq<char>, b: Seq<char>, c: Seq<char>)
    requires
        version_at_least(a, b),
        version_at_least(b, c),
    ensures
        version_at_least(a, c),
{
    lemma_compare_reversed(a, b);
    lemma_compare_reversed(b, c);
    lemma_compare_reversed(a, c);
    lemma_compare_transitive(c, b, a);
}

fn is_digit_char(c: char) -> (r: bool)
    ensures
        r == is_digit(c),
{
    '0' <= c && c <= '9'
}

/// Where the run of digits that starts at `i` stops.
fn run_end(s: &Vec<char>, i: usize) -> (e: usize)
    requires
        i <= s.len(),
    ensures
        i <= e <= s.len(),
        e - i == digits_len(s@.skip(i as int)),
        all_digits(s@.subrange(i as int, e as int)),
{
    let mut e: usize = i;
    while e < s.len() && is_digit_char(s[e])
        invariant
            i <= e <= s.len(),
            forall|k: int| i <= k < e ==> is_digit(#[trigger] s@[k]),
        decreases s.len() - e,
    {
        e += 1;
    }
    proof {
        let t = s@.skip(i as int);
        assert forall|k: int| 0 <= k < e - i implies is_digit(#[trigger] t[k]) by {
            assert(t[k] == s@[i + k]);
        }
        if e - i < t.len() {
            assert(t[e - i] == s@[e as int]);
        }
        lemma_digits_len_is(t, e - i);
    }
    e
}

/// Steps over the zeros in front of the run of digits from `i` to `e`.
fn skip_zeros(s: &Vec<char>, i: usize, e: usize) -> (z: usize)
    requires
        i <= e <= s.len(),
        all_digits(s@.subrange(i as int, e as int)),
    ensures
        i <= z <= e,
        digits_value(s@.subrange(z as int, e as int)) == digits_value(
            s@.subrange(i as int, e as int),
        ),
        z < e ==> digit_of(s@[z as int]) != 0,
{
    let mut z: usize = i;
    while z < e && s[z] == '0'
        invariant
            i <= z <= e <= s.len(),
            digits_value(s@.subrange(z as int, e as int)) == digits_value(
                s@.subrange(i as int, e as int),
            ),
        decreases e - z,
    {
        proof {
            let t = s@.subrange(z as int, e as int);
            assert(t[0] == s@[z as int]);
            lemma_leading_zero(t);
            assert(t.skip(1) =~= s@.subrange(z + 1, e as int));
        }
        z += 1;
    }
    z
}

/// Compares, as numbers, the runs of digits `a[ia..ea]` and `b[ib..eb]`.
fn compare_runs(a: &Vec<char>, ia: usize, ea: usize, b: &Vec<char>, ib: usize, eb: usize) -> (r:
    Comparison)
    requires
        ia <= ea <= a.len(),
        ib <= eb <= b.len(),
        all_digits(a@.subrange(ia as int, ea as int)),
        all_digits(b@.subrange(ib as int, eb as int)),
    ensures
        r == Comparison::Less <==> digits_value(a@.subrange(ia as int, ea as int)) < digits_value(
            b@.subrange(ib as int, eb as int),
        ),
        r == Comparison::Greater <==> digits_value(a@.subrange(ia as int, ea as int))
            > digits_value(b@.subrange(ib as int, eb as int)),
{
    let za: usize = skip_zeros(a, ia, ea);
    let zb: usize = skip_zeros(b, ib, eb);
    let ghost s = a@.subrange(za as int, ea as int);
    let ghost t = b@.subrange(zb as int, eb as int);
    proof {
        assert forall|k: int| 0 <= k < s.len() implies is_digit(#[trigger] s[k]) by {
            assert(s[k] == a@.subrange(ia as int, ea as int)[k + za - ia]);
        }
        assert forall|k: int| 0 <= k < t.len() implies is_digit(#[trigger] t[k]) by {
            assert(t[k] == b@.subrange(ib as int, eb as int)[k + zb - ib]);
        }
    }
    if ea - za < eb - zb {
        proof {
            assert(t[0] == b@[zb as int]);
            lemma_fewer_digits_is_less(s, t);
        }
        return Comparison::Less;
    }
    if ea - za > eb - zb {
        proof {
            assert(s[0] == a@[za as int]);
            lemma_fewer_digits_is_less(t, s);
        }
        return Comparison::Greater;
    }
    let n: usize = ea - za;
    let mut k: usize = 0;
    while k < n
        invariant
            n == ea - za,
            n == eb - zb,
            ea <= a.len(),
            eb <= b.len(),
            k <= n,
            s == a@.subrange(za as int, ea as int),
            t == b@.subrange(zb as int, eb as int),
            all_digits(s),
            all_digits(t),
            ia <= ea,
            ib <= eb,
            digits_value(s) == digits_value(a@.subrange(ia as int, ea as int)),
            digits_value(t) == digits_value(b@.subrange(ib as int, eb as int)),
            forall|m: int| 0 <= m < k ==> s[m] == t[m],
        decreases n - k,
    {
        let x: char = a[za + k];
        let y: char = b[zb + k];
        assert(s[k as int] == x && t[k as int] == y);
        if x != y {
            if x < y {
                proof {
                    lemma_first_difference_decides(s, t, k as int);
                }
                return Comparison::Less;
            } else {
                proof {
                    lemma_first_difference_decides(t, s, k as int);
                }
                return Comparison::Greater;
            }
        }
        k += 1;
    }
    assert(s =~= t);
    Comparison::Equal
}

/// Compares two versions given by their characters.
pub fn compare_version_chars(a: &Vec<char>, b: &Vec<char>) -> (r: Comparison)
    ensures
        r == compare_versions(a@, b@),
{
    let mut i: usize = 0;
    let mut j: usize = 0;
    assert(a@.skip(0) =~= a@ && b@.skip(0) =~= b@);
    loop
        invariant
            i <= a.len(),
            j <= b.len(),
            compare_versions(a@, b@) == compare_versions(a@.skip(i as int), b@.skip(j as int)),
        decreases (a.len() - i) + (b.len() - j),
    {
        let ghost s = a@.skip(i as int);
        let ghost t = b@.skip(j as int);
        if i == a.len() && j == b.len() {
            return Comparison::Equal;
        }
        if i == a.len() {
            return Comparison::Less;
        }
        if j == b.len() {
            return Comparison::Greater;
        }
        let x: char = a[i];
        let y: char = b[j];
        assert(s[0] == x && t[0] == y);
        if is_digit_char(x) && is_digit_char(y) {
            let ea: usize = run_end(a, i);
            let eb: usize = run_end(b, j);
            proof {
                lemma_digits_len_bounds(s);
                lemma_digits_len_bounds(t);
                assert(s.take(digits_len(s)) =~= a@.subrange(i as int, ea as int));
                assert(t.take(digits_len(t)) =~= b@.subrange(j as int, eb as int));
                assert(s.skip(digits_len(s)) =~= a@.skip(ea as int));
                assert(t.skip(digits_len(t)) =~= b@.skip(eb as int));
            }
            match compare_runs(a, i, ea, b, j, eb) {
                Comparison::Less => {
                    return Comparison::Less;
                },
                Comparison::Greater => {
                    return Comparison::Greater;
                },
                Comparison::Equal => {
                    i = ea;
                    j = eb;
                },
            }
        } else if x != y {
            if x < y {
                return Comparison::Less;
            } else {
                return Comparison::Greater;
            }
        } else {
            proof {
                assert(s.skip(1) =~= a@.skip(i + 1));
                assert(t.skip(1) =~= b@.skip(j + 1));
            }
            i += 1;
            j += 1;
        }
    }
}

/// Compares two versions given as strings.
pub fn compare_version_text(a: &str, b: &str) -> (r: Comparison)
    ensures
        r == compare_versions(a@, b@),
{
    let x = chars_of(a);
    let y = chars_of(b);
    compare_version_chars(&x, &y)
}

} // verus!
