//! The extractor: finds the first IPv4-shaped token on a line.
//!
//! A token is four dot-separated runs of one to three ASCII digits. Octet
//! values are not range-checked, so `999.999.999.999` is a token, and a
//! token embedded in a longer dotted sequence is taken as it stands. The
//! match is the leftmost one, and at the leftmost start the final octet
//! takes as many digits as it may (greedy), as the shape's scan demands.

use vstd::prelude::*;

verus! {

/// An ASCII decimal digit.
pub open spec fn is_digit(b: u8) -> bool {
    48 <= b && b <= 57
}

/// Number of consecutive digits of `s` starting at `i`.
pub open spec fn digit_run(s: Seq<u8>, i: int) -> int
    decreases s.len() - i,
{
    if 0 <= i && i < s.len() && is_digit(s[i]) {
        1 + digit_run(s, i + 1)
    } else {
        0
    }
}

/// The digit run is the maximal all-digit stretch from `i`.
pub proof fn lemma_digit_run(s: Seq<u8>, i: int)
    requires
        0 <= i <= s.len(),
    ensures
        0 <= digit_run(s, i),
        i + digit_run(s, i) <= s.len(),
        forall|t: int| i <= t < i + digit_run(s, i) ==> is_digit(s[t]),
        i + digit_run(s, i) == s.len() || !is_digit(s[i + digit_run(s, i)]),
    decreases s.len() - i,
{
    if i < s.len() && is_digit(s[i]) {
        lemma_digit_run(s, i + 1);
    }
}

/// Any all-digit stretch from `i` that ends at the string's end or at a
/// non-digit is exactly the digit run.
pub proof fn lemma_digit_run_exact(s: Seq<u8>, i: int, c: int)
    requires
        0 <= i,
        0 <= c,
        i + c <= s.len(),
        forall|t: int| i <= t < i + c ==> is_digit(s[t]),
        i + c == s.len() || !is_digit(s[i + c]),
    ensures
        digit_run(s, i) == c,
    decreases c,
{
    if c > 0 {
        assert(is_digit(s[i]));
        lemma_digit_run_exact(s, i + 1, c - 1);
    }
}

/// One `digits '.'` group starts at `i`: one to three digits, then a dot.
pub open spec fn group_ok(s: Seq<u8>, i: int) -> bool {
    let d = digit_run(s, i);
    1 <= d <= 3 && 0 <= i && i + d < s.len() && s[i + d] == 46
}

/// Position just past the dot of the group starting at `i`.
pub open spec fn group_next(s: Seq<u8>, i: int) -> int {
    i + digit_run(s, i) + 1
}

/// End (exclusive) of the greedy IPv4-shaped match starting at `i`, if the
/// scan from `i` succeeds: three `digits '.'` groups, then one to three
/// final digits, the final octet as long as the digits allow.
pub open spec fn match_end_at(s: Seq<u8>, i: int) -> Option<int> {
    if group_ok(s, i) && group_ok(s, group_next(s, i)) && group_ok(
        s,
        group_next(s, group_next(s, i)),
    ) {
        let i3 = group_next(s, group_next(s, group_next(s, i)));
        let d = digit_run(s, i3);
        if d >= 1 {
            Some(i3 + if d <= 3 {
                d
            } else {
                3
            })
        } else {
            None
        }
    } else {
        None
    }
}

/// First position at or after `i` where a match starts.
pub open spec fn first_match_start(s: Seq<u8>, i: int) -> Option<int>
    decreases s.len() - i,
{
    if i >= s.len() {
        None
    } else if match_end_at(s, i) is Some {
        Some(i)
    } else {
        first_match_start(s, i + 1)
    }
}

/// What `extract` returns: the leftmost greedy match, or nothing.
pub open spec fn extract_spec(s: Seq<u8>) -> Option<Seq<u8>> {
    match first_match_start(s, 0) {
        Some(st) => match match_end_at(s, st) {
            Some(en) => Some(s.subrange(st, en)),
            None => None,
        },
        None => None,
    }
}

/// Every position of `t` holds a digit.
pub open spec fn all_digits(t: Seq<u8>) -> bool {
    forall|j: int| 0 <= j < t.len() ==> is_digit(t[j])
}

/// One to three digits.
pub open spec fn is_octet(t: Seq<u8>) -> bool {
    1 <= t.len() <= 3 && all_digits(t)
}

/// `s[i..j)` has the IPv4 shape: four octets separated by three dots.
pub open spec fn ip_shape_at(s: Seq<u8>, i: int, j: int) -> bool {
    exists|p1: int, p2: int, p3: int|
        #![trigger s[p1], s[p2], s[p3]]
        0 <= i < p1 < p2 < p3 < j <= s.len() && s[p1] == 46 && s[p2] == 46 && s[p3] == 46
            && is_octet(s.subrange(i, p1)) && is_octet(s.subrange(p1 + 1, p2)) && is_octet(
            s.subrange(p2 + 1, p3),
        ) && is_octet(s.subrange(p3 + 1, j))
}

/// `t` as a whole has the IPv4 shape.
pub open spec fn is_ip_token(t: Seq<u8>) -> bool {
    ip_shape_at(t, 0, t.len() as int)
}

/// The shape of a slice and the shape of the slice copied out agree.
pub proof fn lemma_shape_subrange(s: Seq<u8>, i: int, j: int)
    requires
        0 <= i <= j <= s.len(),
    ensures
        ip_shape_at(s, i, j) <==> is_ip_token(s.subrange(i, j)),
{
    let t = s.subrange(i, j);
    if ip_shape_at(s, i, j) {
        let (p1, p2, p3) = choose|p1: int, p2: int, p3: int|
            #![trigger s[p1], s[p2], s[p3]]
            0 <= i < p1 < p2 < p3 < j <= s.len() && s[p1] == 46 && s[p2] == 46 && s[p3] == 46
                && is_octet(s.subrange(i, p1)) && is_octet(s.subrange(p1 + 1, p2)) && is_octet(
                s.subrange(p2 + 1, p3),
            ) && is_octet(s.subrange(p3 + 1, j));
        assert(t.subrange(0, p1 - i) =~= s.subrange(i, p1));
        assert(t.subrange(p1 - i + 1, p2 - i) =~= s.subrange(p1 + 1, p2));
        assert(t.subrange(p2 - i + 1, p3 - i) =~= s.subrange(p2 + 1, p3));
        assert(t.subrange(p3 - i + 1, t.len() as int) =~= s.subrange(p3 + 1, j));
        assert(t[p1 - i] == 46 && t[p2 - i] == 46 && t[p3 - i] == 46);
        assert(is_ip_token(t));
    }
    if is_ip_token(t) {
        let (q1, q2, q3) = choose|q1: int, q2: int, q3: int|
            #![trigger t[q1], t[q2], t[q3]]
            0 <= 0 < q1 < q2 < q3 < t.len() as int <= t.len() && t[q1] == 46 && t[q2] == 46
                && t[q3] == 46 && is_octet(t.subrange(0, q1)) && is_octet(
                t.subrange(q1 + 1, q2),
            ) && is_octet(t.subrange(q2 + 1, q3)) && is_octet(
                t.subrange(q3 + 1, t.len() as int),
            );
        assert(s.subrange(i, i + q1) =~= t.subrange(0, q1));
        assert(s.subrange(i + q1 + 1, i + q2) =~= t.subrange(q1 + 1, q2));
        assert(s.subrange(i + q2 + 1, i + q3) =~= t.subrange(q2 + 1, q3));
        assert(s.subrange(i + q3 + 1, j) =~= t.subrange(q3 + 1, t.len() as int));
        assert(s[i + q1] == 46 && s[i + q2] == 46 && s[i + q3] == 46);
        assert(ip_shape_at(s, i, j));
    }
}

/// An IPv4 shape over `s[i..j)` forces the scan's view of it: the three
/// leading groups are exactly the shape's octets and the final digit run
/// covers the shape's last octet.
proof fn lemma_shape_forces(s: Seq<u8>, i: int, j: int)
    requires
        0 <= i < j <= s.len(),
        ip_shape_at(s, i, j),
    ensures
        group_ok(s, i),
        group_ok(s, group_next(s, i)),
        group_ok(s, group_next(s, group_next(s, i))),
        ({
            let i3 = group_next(s, group_next(s, group_next(s, i)));
            i3 < j && 1 <= j - i3 <= 3 && digit_run(s, i3) >= j - i3
        }),
{
    let (p1, p2, p3) = choose|p1: int, p2: int, p3: int|
        #![trigger s[p1], s[p2], s[p3]]
        0 <= i < p1 < p2 < p3 < j <= s.len() && s[p1] == 46 && s[p2] == 46 && s[p3] == 46
            && is_octet(s.subrange(i, p1)) && is_octet(s.subrange(p1 + 1, p2)) && is_octet(
            s.subrange(p2 + 1, p3),
        ) && is_octet(s.subrange(p3 + 1, j));
    assert forall|t: int| i <= t < p1 implies is_digit(s[t]) by {
        assert(s.subrange(i, p1)[t - i] == s[t]);
    }
    assert(!is_digit(s[p1]));
    lemma_digit_run_exact(s, i, p1 - i);
    assert(group_ok(s, i));
    assert(group_next(s, i) == p1 + 1);
    assert forall|t: int| p1 + 1 <= t < p2 implies is_digit(s[t]) by {
        assert(s.subrange(p1 + 1, p2)[t - (p1 + 1)] == s[t]);
    }
    assert(!is_digit(s[p2]));
    lemma_digit_run_exact(s, p1 + 1, p2 - (p1 + 1));
    assert(group_ok(s, p1 + 1));
    assert(group_next(s, p1 + 1) == p2 + 1);
    assert forall|t: int| p2 + 1 <= t < p3 implies is_digit(s[t]) by {
        assert(s.subrange(p2 + 1, p3)[t - (p2 + 1)] == s[t]);
    }
    assert(!is_digit(s[p3]));
    lemma_digit_run_exact(s, p2 + 1, p3 - (p2 + 1));
    assert(group_ok(s, p2 + 1));
    assert(group_next(s, p2 + 1) == p3 + 1);
    assert forall|t: int| p3 + 1 <= t < j implies is_digit(s[t]) by {
        assert(s.subrange(p3 + 1, j)[t - (p3 + 1)] == s[t]);
    }
    lemma_digit_run(s, p3 + 1);
    assert(digit_run(s, p3 + 1) >= j - (p3 + 1)) by {
        if digit_run(s, p3 + 1) < j - (p3 + 1) {
            assert(is_digit(s[p3 + 1 + digit_run(s, p3 + 1)]));
        }
    }
}

/// A successful group scan yields IPv4 shapes: one for each admissible
/// length of the final octet.
proof fn lemma_groups_give_shape(s: Seq<u8>, i: int, t: int)
    requires
        0 <= i <= s.len(),
        group_ok(s, i),
        group_ok(s, group_next(s, i)),
        group_ok(s, group_next(s, group_next(s, i))),
        1 <= t <= 3,
        t <= digit_run(s, group_next(s, group_next(s, group_next(s, i)))),
    ensures
        ({
            let i3 = group_next(s, group_next(s, group_next(s, i)));
            ip_shape_at(s, i, i3 + t)
        }),
{
    let d1 = digit_run(s, i);
    let p1 = i + d1;
    let i1 = p1 + 1;
    let d2 = digit_run(s, i1);
    let p2 = i1 + d2;
    let i2 = p2 + 1;
    let d3 = digit_run(s, i2);
    let p3 = i2 + d3;
    let i3 = p3 + 1;
    lemma_digit_run(s, i);
    lemma_digit_run(s, i1);
    lemma_digit_run(s, i2);
    lemma_digit_run(s, i3);
    let j = i3 + t;
    assert forall|u: int| 0 <= u < s.subrange(i, p1).len() implies is_digit(
        s.subrange(i, p1)[u],
    ) by {
        assert(s.subrange(i, p1)[u] == s[i + u]);
    }
    assert forall|u: int| 0 <= u < s.subrange(i1, p2).len() implies is_digit(
        s.subrange(i1, p2)[u],
    ) by {
        assert(s.subrange(i1, p2)[u] == s[i1 + u]);
    }
    assert forall|u: int| 0 <= u < s.subrange(i2, p3).len() implies is_digit(
        s.subrange(i2, p3)[u],
    ) by {
        assert(s.subrange(i2, p3)[u] == s[i2 + u]);
    }
    assert forall|u: int| 0 <= u < s.subrange(i3, j).len() implies is_digit(
        s.subrange(i3, j)[u],
    ) by {
        assert(s.subrange(i3, j)[u] == s[i3 + u]);
    }
    assert(is_octet(s.subrange(i, p1)));
    assert(is_octet(s.subrange(p1 + 1, p2)));
    assert(is_octet(s.subrange(p2 + 1, p3)));
    assert(is_octet(s.subrange(p3 + 1, j)));
    assert(s[p1] == 46 && s[p2] == 46 && s[p3] == 46);
    assert(ip_shape_at(s, i, j));
}

/// The scan at `i` is sound and complete: a `Some` end is a shape and the
/// longest one starting at `i`; a `None` means no shape starts at `i`.
pub proof fn lemma_match_end_correct(s: Seq<u8>, i: int)
    requires
        0 <= i <= s.len(),
    ensures
        match match_end_at(s, i) {
            Some(e) => i < e <= s.len() && ip_shape_at(s, i, e) && (forall|j: int|
                e < j <= s.len() ==> !ip_shape_at(s, i, j)),
            None => forall|j: int| i <= j <= s.len() ==> !ip_shape_at(s, i, j),
        },
{
    match match_end_at(s, i) {
        Some(e) => {
            let i3 = group_next(s, group_next(s, group_next(s, i)));
            let d = digit_run(s, i3);
            let t = if d <= 3 {
                d
            } else {
                3
            };
            lemma_digit_run(s, i);
            lemma_digit_run(s, group_next(s, i));
            lemma_digit_run(s, group_next(s, group_next(s, i)));
            lemma_digit_run(s, i3);
            assert(e == i3 + t);
            lemma_groups_give_shape(s, i, t);
            assert forall|j: int| e < j <= s.len() implies !ip_shape_at(s, i, j) by {
                if ip_shape_at(s, i, j) {
                    lemma_shape_forces(s, i, j);
                    assert(j - i3 <= 3 && d >= j - i3);
                    assert(j <= i3 + t);
                }
            }
        },
        None => {
            assert forall|j: int| i <= j <= s.len() implies !ip_shape_at(s, i, j) by {
                if ip_shape_at(s, i, j) {
                    assert(i < j);
                    lemma_shape_forces(s, i, j);
                    let i3 = group_next(s, group_next(s, group_next(s, i)));
                    assert(digit_run(s, i3) >= 1);
                    assert(match_end_at(s, i) is Some);
                }
            }
        },
    }
}

/// The first match start is sound and complete for the range it scanned.
pub proof fn lemma_first_match(s: Seq<u8>, i: int)
    requires
        0 <= i <= s.len(),
    ensures
        match first_match_start(s, i) {
            Some(st) => i <= st < s.len() && match_end_at(s, st) is Some && (forall|i2: int|
                i <= i2 < st ==> match_end_at(s, i2) is None),
            None => forall|i2: int| i <= i2 <= s.len() ==> match_end_at(s, i2) is None,
        },
    decreases s.len() - i,
{
    if i >= s.len() {
        assert(i == s.len());
        assert(match_end_at(s, i) is None) by {
            lemma_digit_run(s, i);
        }
    } else if match_end_at(s, i) is Some {
    } else {
        lemma_first_match(s, i + 1);
    }
}

/// Law: `extract_spec` yields exactly the leftmost IPv4-shaped substring,
/// extended greedily at its final octet; it yields nothing if and only if
/// no substring of the line has the IPv4 shape.
pub proof fn lemma_extract_leftmost(s: Seq<u8>)
    ensures
        match extract_spec(s) {
            Some(t) => exists|st: int, en: int|
                #![trigger s.subrange(st, en)]
                0 <= st < en <= s.len() && t == s.subrange(st, en) && is_ip_token(t) && (forall|
                    i: int,
                    j: int,
                |
                    0 <= i < st && i <= j <= s.len() ==> !is_ip_token(s.subrange(i, j))) && (
                forall|j: int| en < j <= s.len() ==> !is_ip_token(s.subrange(st, j))),
            None => forall|i: int, j: int|
                0 <= i <= j <= s.len() ==> !is_ip_token(s.subrange(i, j)),
        },
{
    lemma_first_match(s, 0);
    match first_match_start(s, 0) {
        Some(st) => {
            lemma_match_end_correct(s, st);
            let en = match_end_at(s, st)->Some_0;
            let t = s.subrange(st, en);
            lemma_shape_subrange(s, st, en);
            assert(is_ip_token(t));
            assert forall|i: int, j: int|
                0 <= i < st && i <= j <= s.len() implies !is_ip_token(s.subrange(i, j)) by {
                lemma_match_end_correct(s, i);
                lemma_shape_subrange(s, i, j);
            }
            assert forall|j: int| en < j <= s.len() implies !is_ip_token(s.subrange(st, j)) by {
                lemma_shape_subrange(s, st, j);
            }
            assert(0 <= st < en <= s.len() && t == s.subrange(st, en));
        },
        None => {
            assert forall|i: int, j: int|
                0 <= i <= j <= s.len() implies !is_ip_token(s.subrange(i, j)) by {
                lemma_match_end_correct(s, i);
                lemma_shape_subrange(s, i, j);
            }
        },
    }
}

/// Number of consecutive ASCII digits of `s` starting at `i`.
fn digit_run_exec(s: &Vec<u8>, i: usize) -> (r: usize)
    requires
        i <= s@.len(),
    ensures
        r == digit_run(s@, i as int),
        i + r <= s@.len(),
{
    let n = s.len();
    let mut j: usize = i;
    loop
        invariant_except_break
            i <= j <= n,
            n == s@.len(),
            digit_run(s@, i as int) == j - i + digit_run(s@, j as int),
        ensures
            i <= j <= n,
            digit_run(s@, i as int) == j - i,
        decreases n - j,
    {
        if j == n {
            assert(digit_run(s@, j as int) == 0);
            break ;
        }
        let b = s[j];
        if !(48 <= b && b <= 57) {
            assert(digit_run(s@, j as int) == 0);
            break ;
        }
        assert(digit_run(s@, j as int) == 1 + digit_run(s@, j + 1));
        j += 1;
    }
    j - i
}

/// Runs the shape scan at position `i`, returning the match end.
fn match_end_exec(s: &Vec<u8>, i: usize) -> (r: Option<usize>)
    requires
        i <= s@.len(),
    ensures
        match r {
            Some(e) => match_end_at(s@, i as int) == Some(e as int) && i < e <= s@.len(),
            None => match_end_at(s@, i as int) is None,
        },
{
    let n = s.len();
    let d1 = digit_run_exec(s, i);
    if !(1 <= d1 && d1 <= 3) {
        return None;
    }
    if i + d1 == n || s[i + d1] != 46 {
        return None;
    }
    let i1 = i + d1 + 1;
    assert(i1 == group_next(s@, i as int));
    let d2 = digit_run_exec(s, i1);
    if !(1 <= d2 && d2 <= 3) {
        return None;
    }
    if i1 + d2 == n || s[i1 + d2] != 46 {
        return None;
    }
    let i2 = i1 + d2 + 1;
    assert(i2 == group_next(s@, i1 as int));
    let d3 = digit_run_exec(s, i2);
    if !(1 <= d3 && d3 <= 3) {
        return None;
    }
    if i2 + d3 == n || s[i2 + d3] != 46 {
        return None;
    }
    let i3 = i2 + d3 + 1;
    assert(i3 == group_next(s@, i2 as int));
    let d4 = digit_run_exec(s, i3);
    if d4 == 0 {
        return None;
    }
    let t: usize = if d4 <= 3 {
        d4
    } else {
        3
    };
    Some(i3 + t)
}

/// Copies `v[a..b)` into a fresh byte string.
fn copy_range(v: &Vec<u8>, a: usize, b: usize) -> (r: Vec<u8>)
    requires
        a <= b <= v@.len(),
    ensures
        r@ == v@.subrange(a as int, b as int),
{
    let mut r: Vec<u8> = Vec::new();
    let mut i: usize = a;
    while i < b
        invariant
            a <= i <= b <= v@.len(),
            r@ =~= v@.subrange(a as int, i as int),
        decreases b - i,
    {
        r.push(v[i]);
        assert(r@ =~= v@.subrange(a as int, i + 1));
        i += 1;
    }
    assert(r@ =~= v@.subrange(a as int, b as int));
    r
}

/// Returns the first IPv4-shaped token of `line`, or `None` if the line
/// holds none. Later matches on the same line are ignored.
pub fn extract(line: &Vec<u8>) -> (r: Option<Vec<u8>>)
    ensures
        match r {
            Some(v) => extract_spec(line@) == Some(v@),
            None => extract_spec(line@) is None,
        },
{
    let n = line.len();
    let mut i: usize = 0;
    while i < n
        invariant
            0 <= i <= n,
            n == line@.len(),
            first_match_start(line@, 0) == first_match_start(line@, i as int),
        decreases n - i,
    {
        match match_end_exec(line, i) {
            Some(e) => {
                assert(first_match_start(line@, i as int) == Some(i as int));
                let token = copy_range(line, i, e);
                return Some(token);
            },
            None => {
                assert(first_match_start(line@, i as int) == first_match_start(line@, i + 1));
                i += 1;
            },
        }
    }
    assert(first_match_start(line@, i as int) is None);
    None
}

} // verus!
