//! Character-level utilities for the wire protocol: searching for a
//! delimiter, splitting on it, case-insensitive comparison, and parsing of
//! decimal integers.  Specifications are stated over `Seq` views; the
//! executable functions are proved against them.

use vstd::prelude::*;
use vstd::string::*;

verus! {

// ===== the protocol's line and header terminators =====

pub open spec fn crlf() -> Seq<char> {
    seq!['\r', '\n']
}

pub open spec fn crlf2() -> Seq<char> {
    seq!['\r', '\n', '\r', '\n']
}

/// The string literals spell the terminator sequences.
pub proof fn lemma_crlf_literal()
    ensures
        "\r\n"@ == crlf(),
        "\r\n\r\n"@ == crlf2(),
{
    reveal_strlit("\r\n");
    reveal_strlit("\r\n\r\n");
    assert("\r\n"@ =~= crlf());
    assert("\r\n\r\n"@ =~= crlf2());
}

// ===== occurrence of a pattern inside a sequence =====

/// `pat` occurs in `s` starting at index `i`.
pub open spec fn match_at<T>(s: Seq<T>, pat: Seq<T>, i: int) -> bool {
    0 <= i && i + pat.len() <= s.len() && s.subrange(i, i + pat.len()) == pat
}

/// Index of the leftmost occurrence of `pat` in `s` at or after `i`, if any.
/// An empty pattern is taken to occur nowhere.
pub open spec fn first_match_from<T>(s: Seq<T>, pat: Seq<T>, i: int) -> Option<int>
    decreases s.len() - i,
{
    if pat.len() == 0 || i + pat.len() > s.len() {
        None
    } else if match_at(s, pat, i) {
        Some(i)
    } else {
        first_match_from(s, pat, i + 1)
    }
}

/// What `first_match_from` returns: the first position at or after `i` where
/// `pat` occurs, and nothing earlier.
pub proof fn lemma_first_match_bounds<T>(s: Seq<T>, pat: Seq<T>, i: int)
    requires
        pat.len() >= 1,
    ensures
        (match first_match_from(s, pat, i) {
            Some(j) => i <= j && match_at(s, pat, j) && (forall|k: int|
                i <= k < j ==> !match_at(s, pat, k)),
            None => forall|k: int| i <= k ==> !match_at(s, pat, k),
        }),
    decreases s.len() - i,
{
    if pat.len() == 0 || i + pat.len() > s.len() {
    } else if match_at(s, pat, i) {
    } else {
        lemma_first_match_bounds(s, pat, i + 1);
    }
}

/// The converse direction: a position with the first-occurrence properties
/// is what `first_match_from` returns.
pub proof fn lemma_first_match_is<T>(s: Seq<T>, pat: Seq<T>, j: int)
    requires
        pat.len() >= 1,
        match_at(s, pat, j),
        forall|k: int| 0 <= k < j ==> !match_at(s, pat, k),
    ensures
        first_match_from(s, pat, 0) == Some(j),
{
    lemma_first_match_bounds(s, pat, 0);
}

/// A string that contains the separator splits into at least two parts.
pub proof fn lemma_split_two<T>(s: Seq<T>, sep: Seq<T>)
    requires
        sep.len() >= 1,
        first_match_from(s, sep, 0) is Some,
    ensures
        split_seq(s, sep).len() >= 2,
{
    lemma_first_match_bounds(s, sep, 0);
    match first_match_from(s, sep, 0) {
        Some(i) => {
            lemma_split_len(s.skip(i + sep.len()), sep);
        },
        None => {},
    }
}

/// An occurrence found within `s` is still the first one after `s` grows.
pub proof fn lemma_first_match_append<T>(s: Seq<T>, pat: Seq<T>, ext: Seq<T>, i: int)
    requires
        pat.len() >= 1,
        first_match_from(s, pat, i) is Some,
    ensures
        first_match_from(s + ext, pat, i) == first_match_from(s, pat, i),
    decreases s.len() - i,
{
    assert forall|k: int| match_at(s, pat, k) implies match_at(s + ext, pat, k) by {
        assert((s + ext).subrange(k, k + pat.len()) =~= s.subrange(k, k + pat.len()));
    };
    if pat.len() == 0 || i + pat.len() > s.len() {
        // excluded: first_match_from(s, pat, i) would be None
    } else if match_at(s, pat, i) {
        assert(first_match_from(s + ext, pat, i) == Some(i));
    } else {
        assert(!match_at(s + ext, pat, i)) by {
            if match_at(s + ext, pat, i) {
                assert((s + ext).subrange(i, i + pat.len()) =~= s.subrange(i, i + pat.len()));
            }
        }
        lemma_first_match_append(s, pat, ext, i + 1);
    }
}

// ===== splitting on a separator =====

/// Split `s` on the non-overlapping occurrences of `sep`, scanning from the
/// left.  The result always has at least one element; separators themselves
/// are not part of any element.
pub open spec fn split_seq<T>(s: Seq<T>, sep: Seq<T>) -> Seq<Seq<T>>
    decreases s.len(),
    via split_seq_dec::<T>
{
    if sep.len() == 0 {
        seq![s]
    } else {
        match first_match_from(s, sep, 0) {
            None => seq![s],
            Some(i) => seq![s.take(i)] + split_seq(s.skip(i + sep.len()), sep),
        }
    }
}

#[via_fn]
proof fn split_seq_dec<T>(s: Seq<T>, sep: Seq<T>) {
    if sep.len() > 0 {
        lemma_first_match_bounds(s, sep, 0);
    }
}

pub proof fn lemma_split_len<T>(s: Seq<T>, sep: Seq<T>)
    ensures
        split_seq(s, sep).len() >= 1,
        sep.len() > 0 && first_match_from(s, sep, 0) is None ==> split_seq(s, sep) =~= seq![s],
{
}

/// A string free of the separator is one single part.
pub proof fn lemma_split_none<T>(s: Seq<T>, sep: Seq<T>)
    requires
        sep.len() >= 1,
        forall|k: int| !match_at(s, sep, k),
    ensures
        split_seq(s, sep) == seq![s],
{
    lemma_first_match_bounds(s, sep, 0);
    assert(split_seq(s, sep) =~= seq![s]);
}

/// Splitting at a known leftmost separator: everything before it is the
/// first part, and the rest splits on its own.
pub proof fn lemma_split_concat<T>(s1: Seq<T>, sep: Seq<T>, s2: Seq<T>)
    requires
        sep.len() >= 1,
        forall|k: int| 0 <= k < s1.len() ==> !match_at(s1 + sep + s2, sep, k),
    ensures
        split_seq(s1 + sep + s2, sep) == seq![s1] + split_seq(s2, sep),
{
    let s = s1 + sep + s2;
    assert(match_at(s, sep, s1.len() as int)) by {
        assert(s.subrange(s1.len() as int, s1.len() + sep.len() as int) =~= sep);
    }
    lemma_first_match_is(s, sep, s1.len() as int);
    assert(s.take(s1.len() as int) =~= s1);
    assert(s.skip(s1.len() + sep.len() as int) =~= s2);
    assert(split_seq(s, sep) =~= seq![s1] + split_seq(s2, sep));
}

// ===== case-insensitive comparison =====

/// ASCII upper-case letters folded to lower case; every other character is
/// left as it is.
pub open spec fn lower_code(c: char) -> int {
    if 65 <= c as int && c as int <= 90 {
        c as int + 32
    } else {
        c as int
    }
}

/// `a` and `b` are equal up to ASCII case.
pub open spec fn eq_ci(a: Seq<char>, b: Seq<char>) -> bool {
    a.len() == b.len() && (forall|i: int| 0 <= i < a.len() ==> lower_code(a[i]) == lower_code(b[i]))
}

/// `pat` occurs in `s` at `i`, up to ASCII case.
pub open spec fn ci_match_at(s: Seq<char>, pat: Seq<char>, i: int) -> bool {
    0 <= i && i + pat.len() <= s.len() && eq_ci(s.subrange(i, i + pat.len()), pat)
}

/// `pat` occurs somewhere in `s`, up to ASCII case.
pub open spec fn contains_ci(s: Seq<char>, pat: Seq<char>) -> bool {
    exists|i: int| ci_match_at(s, pat, i)
}

fn lower_code_exec(c: char) -> (r: u32)
    ensures
        r as int == lower_code(c),
{
    let x = c as u32;
    if 65 <= x && x <= 90 {
        x + 32
    } else {
        x
    }
}

/// Case-insensitive equality of two strings.
pub fn eq_ci_exec(a: &str, b: &str) -> (r: bool)
    ensures
        r == eq_ci(a@, b@),
{
    let n = a.unicode_len();
    let m = b.unicode_len();
    if n != m {
        return false;
    }
    let mut i: usize = 0;
    while i < n
        invariant
            0 <= i <= n,
            n == a@.len(),
            n == b@.len(),
            forall|k: int| 0 <= k < i ==> lower_code(a@[k]) == lower_code(b@[k]),
        decreases n - i,
    {
        if lower_code_exec(a.get_char(i)) != lower_code_exec(b.get_char(i)) {
            return false;
        }
        i = i + 1;
    }
    true
}

// ===== searching in a string =====

fn match_at_exec(s: &str, pat: &str, i: usize, n: usize, m: usize) -> (b: bool)
    requires
        n == s@.len(),
        m == pat@.len(),
        i + m <= n,
    ensures
        b == match_at(s@, pat@, i as int),
{
    let mut j: usize = 0;
    while j < m
        invariant
            0 <= j <= m,
            i + m <= n,
            n == s@.len(),
            m == pat@.len(),
            forall|k: int| 0 <= k < j ==> s@[i + k] == pat@[k],
        decreases m - j,
    {
        if s.get_char(i + j) != pat.get_char(j) {
            proof {
                if match_at(s@, pat@, i as int) {
                    assert(s@.subrange(i as int, i + m as int)[j as int] == pat@[j as int]);
                }
            }
            return false;
        }
        j = j + 1;
    }
    proof {
        assert(s@.subrange(i as int, i + m as int) =~= pat@);
    }
    true
}

/// Leftmost occurrence of `pat` in `s` at or after `start`.
pub fn find_from(s: &str, pat: &str, start: usize) -> (r: Option<usize>)
    requires
        pat@.len() >= 1,
    ensures
        (match r {
            Some(j) => first_match_from(s@, pat@, start as int) == Some(j as int),
            None => first_match_from(s@, pat@, start as int) is None,
        }),
{
    let n = s.unicode_len();
    let m = pat.unicode_len();
    if m > n || start > n - m {
        proof {
            lemma_first_match_bounds(s@, pat@, start as int);
        }
        return None;
    }
    let mut i: usize = start;
    loop
        invariant
            start <= i,
            i <= n - m + 1,
            m >= 1,
            m <= n,
            n == s@.len(),
            m == pat@.len(),
            first_match_from(s@, pat@, start as int) == first_match_from(s@, pat@, i as int),
        decreases n - i,
    {
        if i > n - m {
            assert(first_match_from(s@, pat@, i as int) is None);
            return None;
        }
        if match_at_exec(s, pat, i, n, m) {
            assert(first_match_from(s@, pat@, i as int) == Some(i as int));
            return Some(i);
        }
        assert(first_match_from(s@, pat@, i as int) == first_match_from(s@, pat@, i + 1));
        i = i + 1;
    }
}

// ===== whitespace-separated tokens =====

/// ASCII whitespace: space, tab, line feed, carriage return.
pub open spec fn is_ws_char(c: char) -> bool {
    c as int == 32 || c as int == 9 || c as int == 10 || c as int == 13
}

pub open spec fn ws_pred() -> spec_fn(char) -> bool {
    |c: char| is_ws_char(c)
}

pub open spec fn non_ws_pred() -> spec_fn(char) -> bool {
    |c: char| !is_ws_char(c)
}

/// Index of the first element at or after `i` satisfying `p`, if any.
pub open spec fn first_where<T>(s: Seq<T>, p: spec_fn(T) -> bool, i: int) -> Option<int>
    decreases s.len() - i,
{
    if i >= s.len() {
        None
    } else if p(s[i]) {
        Some(i)
    } else {
        first_where(s, p, i + 1)
    }
}

pub proof fn lemma_first_where_bounds<T>(s: Seq<T>, p: spec_fn(T) -> bool, i: int)
    requires
        0 <= i,
    ensures
        (match first_where(s, p, i) {
            Some(j) => i <= j < s.len() && p(s[j]) && (forall|k: int| i <= k < j ==> !p(s[k])),
            None => forall|k: int| i <= k < s.len() ==> !p(s[k]),
        }),
    decreases s.len() - i,
{
    if i >= s.len() {
    } else if p(s[i]) {
    } else {
        lemma_first_where_bounds(s, p, i + 1);
    }
}

/// The converse direction: a position with the first-occurrence properties is
/// what `first_where` returns.
pub proof fn lemma_first_where_is<T>(s: Seq<T>, p: spec_fn(T) -> bool, j: int)
    requires
        0 <= j < s.len(),
        p(s[j]),
        forall|k: int| 0 <= k < j ==> !p(s[k]),
    ensures
        first_where(s, p, 0) == Some(j),
{
    lemma_first_where_bounds(s, p, 0);
}

pub proof fn lemma_first_where_none<T>(s: Seq<T>, p: spec_fn(T) -> bool)
    requires
        forall|k: int| 0 <= k < s.len() ==> !p(s[k]),
    ensures
        first_where(s, p, 0) is None,
{
    lemma_first_where_bounds(s, p, 0);
}

/// The whitespace-separated tokens of `s`: the maximal runs of
/// non-whitespace characters, in order.
pub open spec fn ws_toks(s: Seq<char>) -> Seq<Seq<char>>
    decreases s.len(),
    via ws_toks_dec
{
    if s.len() == 0 {
        Seq::empty()
    } else if is_ws_char(s[0]) {
        ws_toks(s.drop_first())
    } else {
        match first_where(s, ws_pred(), 0) {
            None => seq![s],
            Some(i) => seq![s.take(i)] + ws_toks(s.skip(i)),
        }
    }
}

#[via_fn]
proof fn ws_toks_dec(s: Seq<char>) {
    if s.len() > 0 && !is_ws_char(s[0]) {
        lemma_first_where_bounds(s, ws_pred(), 0);
    }
}

/// Dropping a whitespace prefix does not change the tokens.
pub proof fn lemma_ws_toks_skip(s: Seq<char>, a: int)
    requires
        0 <= a <= s.len(),
        forall|k: int| 0 <= k < a ==> is_ws_char(s[k]),
    ensures
        ws_toks(s) == ws_toks(s.skip(a)),
    decreases a,
{
    if a > 0 {
        assert(s.drop_first() =~= s.skip(1));
        assert(s.skip(1).skip(a - 1) =~= s.skip(a));
        lemma_ws_toks_skip(s.skip(1), a - 1);
    } else {
        assert(s.skip(0) =~= s);
    }
}

fn is_ws_exec(c: char) -> (r: bool)
    ensures
        r == is_ws_char(c),
{
    let x = c as u32;
    x == 32 || x == 9 || x == 10 || x == 13
}

/// First whitespace character at or after `start`.
fn first_ws(s: &str, start: usize) -> (r: Option<usize>)
    ensures
        (match r {
            Some(j) => first_where(s@, ws_pred(), start as int) == Some(j as int),
            None => first_where(s@, ws_pred(), start as int) is None,
        }),
{
    let n = s.unicode_len();
    let mut i: usize = start;
    while i < n
        invariant
            start <= i,
            n == s@.len(),
            first_where(s@, ws_pred(), start as int) == first_where(s@, ws_pred(), i as int),
        decreases n - i,
    {
        if is_ws_exec(s.get_char(i)) {
            assert(first_where(s@, ws_pred(), i as int) == Some(i as int));
            return Some(i);
        }
        assert(first_where(s@, ws_pred(), i as int) == first_where(s@, ws_pred(), i + 1));
        i = i + 1;
    }
    None
}

/// First non-whitespace character at or after `start`.
fn first_non_ws(s: &str, start: usize) -> (r: Option<usize>)
    ensures
        (match r {
            Some(j) => first_where(s@, non_ws_pred(), start as int) == Some(j as int),
            None => first_where(s@, non_ws_pred(), start as int) is None,
        }),
{
    let n = s.unicode_len();
    let mut i: usize = start;
    while i < n
        invariant
            start <= i,
            n == s@.len(),
            first_where(s@, non_ws_pred(), start as int) == first_where(
                s@,
                non_ws_pred(),
                i as int,
            ),
        decreases n - i,
    {
        if !is_ws_exec(s.get_char(i)) {
            assert(first_where(s@, non_ws_pred(), i as int) == Some(i as int));
            return Some(i);
        }
        assert(first_where(s@, non_ws_pred(), i as int) == first_where(
            s@,
            non_ws_pred(),
            i + 1,
        ));
        i = i + 1;
    }
    None
}

/// The first two whitespace-separated tokens of `line`, or `None` when there
/// are fewer than two.
pub fn two_ws_tokens(line: &str) -> (r: Option<(String, String)>)
    ensures
        (match r {
            Some(t) => ws_toks(line@).len() >= 2 && t.0@ == ws_toks(line@)[0] && t.1@ == ws_toks(
                line@,
            )[1],
            None => ws_toks(line@).len() < 2,
        }),
{
    let n = s_len(line);
    let a = match first_non_ws(line, 0) {
        Some(a) => a,
        None => {
            proof {
                lemma_first_where_bounds(line@, non_ws_pred(), 0);
                lemma_ws_toks_skip(line@, n as int);
                assert(line@.skip(n as int) =~= Seq::<char>::empty());
            }
            return None;
        },
    };
    proof {
        lemma_first_where_bounds(line@, non_ws_pred(), 0);
        lemma_ws_toks_skip(line@, a as int);
    }
    let ghost t: Seq<char> = line@.skip(a as int);
    let b = match first_ws(line, a) {
        Some(b) => b,
        None => {
            // one single token reaching to the end of the line
            proof {
                lemma_first_where_bounds(line@, ws_pred(), a as int);
                assert(forall|k: int| 0 <= k < t.len() ==> !ws_pred()(t[k]));
                lemma_first_where_none(t, ws_pred());
                assert(ws_toks(t) =~= seq![t]);
            }
            return None;
        },
    };
    proof {
        lemma_first_where_bounds(line@, ws_pred(), a as int);
        assert(t[b - a] == line@[b as int]);
        assert(forall|k: int| 0 <= k < b - a ==> t[k] == line@[k + a] && !ws_pred()(t[k]));
        lemma_first_where_is(t, ws_pred(), b - a);
        assert(ws_toks(t) == seq![t.take(b - a)] + ws_toks(t.skip(b - a)));
        assert(t.take(b - a) =~= line@.subrange(a as int, b as int));
        assert(t.skip(b - a) =~= line@.skip(b as int));
    }
    let tok0 = String::from_str(line.substring_char(a, b));
    let ghost u: Seq<char> = line@.skip(b as int);
    let c = match first_non_ws(line, b) {
        Some(c) => c,
        None => {
            proof {
                lemma_first_where_bounds(line@, non_ws_pred(), b as int);
                assert(forall|k: int| 0 <= k < u.len() ==> is_ws_char(u[k]));
                lemma_ws_toks_skip(u, u.len() as int);
                assert(u.skip(u.len() as int) =~= Seq::<char>::empty());
                assert(ws_toks(line@).len() == 1);
            }
            return None;
        },
    };
    proof {
        lemma_first_where_bounds(line@, non_ws_pred(), b as int);
        assert(forall|k: int| 0 <= k < c - b ==> u[k] == line@[k + b] && is_ws_char(u[k]));
        lemma_ws_toks_skip(u, c - b);
        assert(u.skip(c - b) =~= line@.skip(c as int));
    }
    let ghost w: Seq<char> = line@.skip(c as int);
    let d = match first_ws(line, c) {
        Some(d) => d,
        None => n,
    };
    proof {
        if d < n {
            lemma_first_where_bounds(line@, ws_pred(), c as int);
            assert(w[d - c] == line@[d as int]);
            assert(forall|k: int| 0 <= k < d - c ==> w[k] == line@[k + c] && !ws_pred()(w[k]));
            lemma_first_where_is(w, ws_pred(), d - c);
            assert(ws_toks(w) == seq![w.take(d - c)] + ws_toks(w.skip(d - c)));
            assert(w.take(d - c) =~= line@.subrange(c as int, d as int));
        } else {
            lemma_first_where_bounds(line@, ws_pred(), c as int);
            assert(forall|k: int| 0 <= k < w.len() ==> !ws_pred()(w[k]));
            lemma_first_where_none(w, ws_pred());
            assert(ws_toks(w) =~= seq![w]);
            assert(w =~= line@.subrange(c as int, n as int));
        }
        assert(ws_toks(line@)[0] == line@.subrange(a as int, b as int));
        assert(ws_toks(line@)[1] == line@.subrange(c as int, d as int));
    }
    let tok1 = String::from_str(line.substring_char(c, d));
    Some((tok0, tok1))
}

/// The number of characters in `s`.
pub fn s_len(s: &str) -> (n: usize)
    ensures
        n == s@.len(),
{
    s.unicode_len()
}

// ===== decimal integers =====

pub open spec fn is_digit(c: char) -> bool {
    48 <= c as int && c as int <= 57
}

pub open spec fn all_digits(s: Seq<char>) -> bool {
    s.len() > 0 && (forall|i: int| 0 <= i < s.len() ==> is_digit(s[i]))
}

/// Numeric value of a digit string, most significant digit first.
pub open spec fn digits_val(s: Seq<char>) -> int
    decreases s.len(),
{
    if s.len() == 0 {
        0
    } else {
        digits_val(s.drop_last()) * 10 + (s.last() as int - 48)
    }
}

/// The number is written with a leading minus sign.
pub open spec fn num_negative(s: Seq<char>) -> bool {
    s.len() > 0 && s[0] == '-'
}

/// The digits of the number: everything after an optional sign.
pub open spec fn num_body(s: Seq<char>) -> Seq<char> {
    if s.len() > 0 && (s[0] == '-' || s[0] == '+') {
        s.drop_first()
    } else {
        s
    }
}

/// The value denoted by `s` under the usual signed decimal syntax: an
/// optional `+` or `-` sign followed by one or more digits, rejected when the
/// value does not fit in an `i64`.
pub open spec fn parse_i64(s: Seq<char>) -> Option<int> {
    if all_digits(num_body(s)) {
        let v = if num_negative(s) {
            -digits_val(num_body(s))
        } else {
            digits_val(num_body(s))
        };
        if i64::MIN <= v <= i64::MAX {
            Some(v)
        } else {
            None
        }
    } else {
        None
    }
}

pub proof fn lemma_digits_val_nonneg(s: Seq<char>)
    requires
        forall|i: int| 0 <= i < s.len() ==> is_digit(s[i]),
    ensures
        digits_val(s) >= 0,
    decreases s.len(),
{
    if s.len() > 0 {
        lemma_digits_val_nonneg(s.drop_last());
    }
}

pub proof fn lemma_digits_val_mono(s: Seq<char>, k: int)
    requires
        0 <= k <= s.len(),
        forall|i: int| 0 <= i < s.len() ==> is_digit(s[i]),
    ensures
        digits_val(s.take(k)) <= digits_val(s),
    decreases s.len() - k,
{
    if k < s.len() {
        assert(s.take(k + 1).drop_last() =~= s.take(k));
        assert(s.take(k + 1).last() == s[k]);
        lemma_digits_val_nonneg(s.take(k));
        lemma_digits_val_mono(s, k + 1);
    } else {
        assert(s.take(k) =~= s);
    }
}

/// Parse a signed decimal integer, matching `parse_i64` on the view.
pub fn parse_i64_str(s: &str) -> (r: Option<i64>)
    ensures
        (match r {
            Some(v) => parse_i64(s@) == Some(v as int),
            None => parse_i64(s@) is None,
        }),
{
    let n = s.unicode_len();
    if n == 0 {
        return None;
    }
    let c0 = s.get_char(0);
    let neg = c0 == '-';
    let start: usize = if c0 == '-' || c0 == '+' {
        1
    } else {
        0
    };
    let ghost body: Seq<char> = num_body(s@);
    proof {
        assert(body =~= s@.subrange(start as int, n as int));
    }
    if start == n {
        return None;
    }
    let mut acc: i128 = 0;
    let mut j: usize = start;
    while j < n
        invariant
            start <= j <= n,
            start <= 1,
            n == s@.len(),
            n > start,
            body == num_body(s@),
            neg == num_negative(s@),
            body =~= s@.subrange(start as int, n as int),
            forall|k: int| start <= k < j ==> is_digit(s@[k]),
            acc == digits_val(s@.subrange(start as int, j as int)),
            0 <= acc <= i64::MAX as i128 + 1,
        decreases n - j,
    {
        let c = s.get_char(j);
        let x = c as u32;
        if !(48 <= x && x <= 57) {
            proof {
                assert(!is_digit(s@[j as int]));
                assert(!all_digits(body)) by {
                    assert(body[j - start] == s@[j as int]);
                }
            }
            return None;
        }
        proof {
            assert(s@.subrange(start as int, j + 1).drop_last() =~= s@.subrange(
                start as int,
                j as int,
            ));
            assert(s@.subrange(start as int, j + 1).last() == s@[j as int]);
        }
        acc = acc * 10 + ((x - 48) as i128);
        if acc > i64::MAX as i128 + 1 {
            proof {
                if all_digits(body) {
                    lemma_digits_val_mono(body, j + 1 - start);
                    assert(body.take(j + 1 - start) =~= s@.subrange(start as int, j + 1));
                }
            }
            return None;
        }
        j = j + 1;
    }
    proof {
        assert(body =~= s@.subrange(start as int, n as int));
        assert(all_digits(body)) by {
            assert(forall|k: int|
                0 <= k < body.len() ==> body[k] == s@[k + start] && is_digit(s@[k + start]));
        }
        assert(acc == digits_val(body));
    }
    if neg {
        Some((-acc) as i64)
    } else {
        if acc > i64::MAX as i128 {
            None
        } else {
            Some(acc as i64)
        }
    }
}

} // verus!
