//! Character-level text utilities: line splitting, trimming, searching,
//! and separator-based splitting, each verified against a direct
//! mathematical statement over sequences of characters.

use vstd::prelude::*;
use crate::is_ws;

verus! {

/// The views of a sequence of strings.
pub open spec fn views_of(v: Seq<String>) -> Seq<Seq<char>> {
    Seq::new(v.len(), |i: int| v[i]@)
}

pub proof fn lemma_views_of_push(v: Seq<String>, x: String)
    ensures
        views_of(v.push(x)) == views_of(v).push(x@),
{
    assert(views_of(v.push(x)) =~= views_of(v).push(x@));
}

/// Length of the first line of `s`, counting its terminating newline
/// when one is present; at least 1 when `s` is non-empty.
pub open spec fn first_line_len(s: Seq<char>) -> nat
    decreases s.len(),
{
    if s.len() == 0 {
        0
    } else if s[0] == '\n' {
        1
    } else {
        1 + first_line_len(s.drop_first())
    }
}

pub proof fn lemma_first_line_len_bounds(s: Seq<char>)
    ensures
        first_line_len(s) <= s.len(),
        s.len() > 0 ==> first_line_len(s) >= 1,
    decreases s.len(),
{
    if s.len() > 0 && s[0] != '\n' {
        lemma_first_line_len_bounds(s.drop_first());
    }
}

/// The lines of `s`, each keeping its terminating newline (the last
/// line has none when `s` does not end with a newline).
pub open spec fn spec_lines(s: Seq<char>) -> Seq<Seq<char>>
    decreases s.len(),
    via spec_lines_decreases
{
    if s.len() == 0 {
        Seq::empty()
    } else {
        seq![s.take(first_line_len(s) as int)] + spec_lines(s.skip(first_line_len(s) as int))
    }
}

#[via_fn]
proof fn spec_lines_decreases(s: Seq<char>) {
    lemma_first_line_len_bounds(s);
}

/// Concatenation of a sequence of pieces of text.
pub open spec fn spec_concat(ls: Seq<Seq<char>>) -> Seq<char>
    decreases ls.len(),
{
    if ls.len() == 0 {
        Seq::empty()
    } else {
        ls[0] + spec_concat(ls.drop_first())
    }
}

pub proof fn lemma_concat_head(x: Seq<char>, rest: Seq<Seq<char>>)
    ensures
        spec_concat(seq![x] + rest) == x + spec_concat(rest),
{
    let ls = seq![x] + rest;
    assert(ls.len() > 0);
    assert(ls[0] == x);
    assert(ls.drop_first() =~= rest);
}

/// Joining the lines of `s` gives back `s`.
pub proof fn lemma_concat_lines(s: Seq<char>)
    ensures
        spec_concat(spec_lines(s)) == s,
    decreases s.len(),
{
    if s.len() == 0 {
        assert(spec_concat(spec_lines(s)) =~= s);
    } else {
        let n = first_line_len(s) as int;
        lemma_first_line_len_bounds(s);
        lemma_concat_lines(s.skip(n));
        lemma_concat_head(s.take(n), spec_lines(s.skip(n)));
        assert(s.take(n) + s.skip(n) =~= s);
    }
}

/// Index one past the end of the line that starts at `i` (so the
/// character at `r - 1` is the newline, unless the text ends first).
pub fn line_end(s: &str, i: usize) -> (r: usize)
    requires
        i <= s@.len(),
    ensures
        i <= r <= s@.len(),
        r - i == first_line_len(s@.skip(i as int)),
    decreases s@.len() - i,
{
    let n = s.unicode_len();
    if i == n {
        assert(s@.skip(i as int) =~= Seq::<char>::empty());
        i
    } else if s.get_char(i) == '\n' {
        assert(s@.skip(i as int)[0] == '\n');
        i + 1
    } else {
        let r = line_end(s, i + 1);
        assert(s@.skip(i as int).drop_first() =~= s@.skip(i + 1));
        r
    }
}

// ---------------------------------------------------------------------
// Whitespace runs and trimming
// ---------------------------------------------------------------------

/// Number of leading whitespace characters of `s`.
pub open spec fn ws_prefix_len(s: Seq<char>) -> nat
    decreases s.len(),
{
    if s.len() == 0 || !is_ws(s[0]) {
        0
    } else {
        1 + ws_prefix_len(s.drop_first())
    }
}

/// Number of leading non-whitespace characters of `s`.
pub open spec fn nonws_prefix_len(s: Seq<char>) -> nat
    decreases s.len(),
{
    if s.len() == 0 || is_ws(s[0]) {
        0
    } else {
        1 + nonws_prefix_len(s.drop_first())
    }
}

/// Number of trailing whitespace characters of `s`.
pub open spec fn ws_suffix_len(s: Seq<char>) -> nat
    decreases s.len(),
{
    if s.len() == 0 || !is_ws(s.last()) {
        0
    } else {
        1 + ws_suffix_len(s.drop_last())
    }
}

pub proof fn lemma_ws_prefix_char(s: Seq<char>, a: int)
    requires
        0 <= a <= s.len(),
        forall|j: int| 0 <= j < a ==> is_ws(s[j]),
        a == s.len() || !is_ws(s[a]),
    ensures
        ws_prefix_len(s) == a,
    decreases s.len(),
{
    if a > 0 {
        let t = s.drop_first();
        assert(forall|j: int| 0 <= j < a - 1 ==> s[j + 1] == t[j] && is_ws(#[trigger] t[j]));
        if a - 1 < t.len() {
            assert(t[a - 1] == s[a]);
        }
        lemma_ws_prefix_char(t, a - 1);
    }
}

pub proof fn lemma_nonws_prefix_char(s: Seq<char>, a: int)
    requires
        0 <= a <= s.len(),
        forall|j: int| 0 <= j < a ==> !is_ws(s[j]),
        a == s.len() || is_ws(s[a]),
    ensures
        nonws_prefix_len(s) == a,
    decreases s.len(),
{
    if a > 0 {
        let t = s.drop_first();
        assert(forall|j: int| 0 <= j < a - 1 ==> s[j + 1] == t[j] && !is_ws(#[trigger] t[j]));
        if a - 1 < t.len() {
            assert(t[a - 1] == s[a]);
        }
        lemma_nonws_prefix_char(t, a - 1);
    }
}

pub proof fn lemma_ws_suffix_char(s: Seq<char>, b: int)
    requires
        0 <= b <= s.len(),
        forall|j: int| b <= j < s.len() ==> is_ws(s[j]),
        b == 0 || !is_ws(s[b - 1]),
    ensures
        ws_suffix_len(s) == s.len() - b,
    decreases s.len(),
{
    if b < s.len() {
        assert(is_ws(s.last()));
        let t = s.drop_last();
        assert(forall|j: int| b <= j < t.len() ==> t[j] == s[j] && is_ws(#[trigger] t[j]));
        if b > 0 {
            assert(t[b - 1] == s[b - 1]);
        }
        lemma_ws_suffix_char(t, b);
    }
}

/// `s` with its leading whitespace removed.
pub open spec fn spec_trim_start(s: Seq<char>) -> Seq<char> {
    s.skip(ws_prefix_len(s) as int)
}

/// `s` with its trailing whitespace removed.
pub open spec fn spec_trim_end(s: Seq<char>) -> Seq<char> {
    s.take(s.len() - ws_suffix_len(s))
}

/// `s` with leading and trailing whitespace removed.
pub open spec fn spec_trim(s: Seq<char>) -> Seq<char> {
    spec_trim_end(spec_trim_start(s))
}

pub proof fn lemma_ws_prefix_le(s: Seq<char>)
    ensures
        ws_prefix_len(s) <= s.len(),
        ws_suffix_len(s) <= s.len(),
    decreases s.len(),
{
    if s.len() > 0 {
        lemma_ws_prefix_le(s.drop_first());
        lemma_ws_suffix_le_help(s);
    }
}

proof fn lemma_ws_suffix_le_help(s: Seq<char>)
    ensures
        ws_suffix_len(s) <= s.len(),
    decreases s.len(),
{
    if s.len() > 0 {
        lemma_ws_suffix_le_help(s.drop_last());
    }
}

/// Characterizes `spec_trim` by the bounds of the non-whitespace core.
pub proof fn lemma_trim_via_bounds(s: Seq<char>, a: int, b: int)
    requires
        0 <= a <= b <= s.len(),
        forall|j: int| 0 <= j < a ==> is_ws(s[j]),
        a == s.len() || !is_ws(s[a]),
        forall|j: int| b <= j < s.len() ==> is_ws(s[j]),
        b == a || !is_ws(s[b - 1]),
    ensures
        spec_trim(s) == s.subrange(a, b),
{
    lemma_ws_prefix_char(s, a);
    let t = s.skip(a);
    assert(forall|j: int| b - a <= j < t.len() ==> t[j] == s[j + a] && is_ws(#[trigger] t[j]));
    if b > a {
        assert(t[b - a - 1] == s[b - 1]);
    }
    lemma_ws_suffix_char(t, b - a);
    assert(t.take(b - a) =~= s.subrange(a, b));
}

/// Trimming is empty exactly when every character is whitespace.
pub proof fn lemma_trim_empty_iff_all_ws(s: Seq<char>)
    ensures
        spec_trim(s).len() == 0 <==> (forall|j: int| 0 <= j < s.len() ==> is_ws(s[j])),
{
    lemma_ws_prefix_le(s);
    if forall|j: int| 0 <= j < s.len() ==> is_ws(s[j]) {
        lemma_trim_via_bounds(s, s.len() as int, s.len() as int);
    } else {
        let a = ws_prefix_len(s) as int;
        lemma_ws_prefix_spec(s);
        let t = s.skip(a);
        lemma_ws_prefix_le(t);
        if a < s.len() {
            assert(t[0] == s[a]);
            assert(ws_suffix_len(t) < t.len()) by {
                if ws_suffix_len(t) == t.len() {
                    lemma_ws_suffix_all(t);
                }
            }
        } else {
            assert(forall|j: int| 0 <= j < s.len() ==> is_ws(s[j]));
        }
    }
}

proof fn lemma_ws_suffix_all(s: Seq<char>)
    requires
        ws_suffix_len(s) == s.len(),
    ensures
        forall|j: int| 0 <= j < s.len() ==> is_ws(s[j]),
    decreases s.len(),
{
    if s.len() > 0 {
        lemma_ws_suffix_le_help(s.drop_last());
        assert(is_ws(s.last()));
        lemma_ws_suffix_all(s.drop_last());
        assert(forall|j: int| 0 <= j < s.len() - 1 ==> s[j] == s.drop_last()[j] && is_ws(
            #[trigger] s[j],
        ));
    }
}

proof fn lemma_ws_prefix_spec(s: Seq<char>)
    ensures
        forall|j: int| 0 <= j < ws_prefix_len(s) ==> is_ws(s[j]),
        ws_prefix_len(s) < s.len() ==> !is_ws(s[ws_prefix_len(s) as int]),
    decreases s.len(),
{
    lemma_ws_prefix_le(s);
    if s.len() > 0 && is_ws(s[0]) {
        let t = s.drop_first();
        lemma_ws_prefix_spec(t);
        lemma_ws_prefix_le(t);
        assert(forall|j: int| 1 <= j < ws_prefix_len(s) ==> t[j - 1] == s[j] && is_ws(
            #[trigger] s[j],
        ));
        if ws_prefix_len(s) < s.len() {
            assert(t[ws_prefix_len(t) as int] == s[ws_prefix_len(s) as int]);
        }
    }
}

/// Whether `c` counts as whitespace.
pub fn is_ws_char(c: char) -> (r: bool)
    ensures
        r == is_ws(c),
{
    c == ' ' || c == '\t' || c == '\r' || c == '\n'
}

/// The slice of `s` with leading and trailing whitespace removed.
pub fn trim_slice<'a>(s: &'a str) -> (r: &'a str)
    ensures
        r@ == spec_trim(s@),
{
    let n = s.unicode_len();
    let mut a: usize = 0;
    while a < n && is_ws_char(s.get_char(a))
        invariant
            0 <= a <= n,
            n == s@.len(),
            forall|j: int| 0 <= j < a ==> is_ws(s@[j]),
        decreases n - a,
    {
        a = a + 1;
    }
    let mut b: usize = n;
    while b > a && is_ws_char(s.get_char(b - 1))
        invariant
            a <= b <= n,
            n == s@.len(),
            forall|j: int| b <= j < n ==> is_ws(s@[j]),
        decreases b,
    {
        b = b - 1;
    }
    proof {
        lemma_trim_via_bounds(s@, a as int, b as int);
    }
    s.substring_char(a, b)
}

/// Whether the strings `a` and `b` hold the same characters.
pub fn str_eq(a: &str, b: &str) -> (r: bool)
    ensures
        r == (a@ == b@),
{
    let na = a.unicode_len();
    let nb = b.unicode_len();
    if na != nb {
        return false;
    }
    let mut i: usize = 0;
    while i < na
        invariant
            0 <= i <= na,
            na == a@.len(),
            na == b@.len(),
            forall|j: int| 0 <= j < i ==> a@[j] == b@[j],
        decreases na - i,
    {
        if a.get_char(i) != b.get_char(i) {
            return false;
        }
        i = i + 1;
    }
    proof {
        assert(a@ =~= b@);
    }
    true
}

// ---------------------------------------------------------------------
// Searching
// ---------------------------------------------------------------------

/// `pat` occurs in `s` starting at index `i`.
pub open spec fn spec_match_at(s: Seq<char>, pat: Seq<char>, i: int) -> bool {
    0 <= i && i + pat.len() <= s.len() && s.subrange(i, i + pat.len()) == pat
}

/// The least index at or after `i` where `pat` occurs in `s`.
pub open spec fn spec_find_from(s: Seq<char>, pat: Seq<char>, i: int) -> Option<int>
    decreases s.len() - i when 0 <= i <= s.len()
{
    if i + pat.len() > s.len() {
        None
    } else if spec_match_at(s, pat, i) {
        Some(i)
    } else if i + 1 <= s.len() {
        spec_find_from(s, pat, i + 1)
    } else {
        None
    }
}

/// The least index where `pat` occurs in `s`.
pub open spec fn spec_find(s: Seq<char>, pat: Seq<char>) -> Option<int> {
    spec_find_from(s, pat, 0)
}

/// `pat` occurs somewhere in `s`.
pub open spec fn spec_contains(s: Seq<char>, pat: Seq<char>) -> bool {
    spec_find(s, pat) is Some
}

/// `s` begins with `pat`.
pub open spec fn spec_starts_with(s: Seq<char>, pat: Seq<char>) -> bool {
    spec_match_at(s, pat, 0)
}

pub proof fn lemma_find_from_bounds(s: Seq<char>, pat: Seq<char>, i: int)
    requires
        0 <= i <= s.len(),
    ensures
        spec_find_from(s, pat, i) matches Some(j) ==> i <= j && j + pat.len() <= s.len()
            && spec_match_at(s, pat, j),
    decreases s.len() - i,
{
    if pat.len() == 0 && i + pat.len() <= s.len() {
        assert(s.subrange(i, i) =~= pat);
    } else if i + pat.len() <= s.len() && !spec_match_at(s, pat, i) {
        lemma_find_from_bounds(s, pat, i + 1);
    }
}

/// A find result of `Some` is exactly the existence of a match.
pub proof fn lemma_find_from_iff(s: Seq<char>, pat: Seq<char>, i: int)
    requires
        0 <= i <= s.len(),
    ensures
        spec_find_from(s, pat, i) is Some <==> exists|j: int|
            i <= j && #[trigger] spec_match_at(s, pat, j),
    decreases s.len() - i,
{
    if i + pat.len() > s.len() {
        assert(forall|j: int| i <= j ==> !spec_match_at(s, pat, j));
    } else if pat.len() == 0 {
        assert(s.subrange(i, i) =~= pat);
        assert(spec_match_at(s, pat, i));
    } else if spec_match_at(s, pat, i) {
    } else {
        lemma_find_from_iff(s, pat, i + 1);
        if exists|j: int| i <= j && #[trigger] spec_match_at(s, pat, j) {
            let j = choose|j: int| i <= j && #[trigger] spec_match_at(s, pat, j);
            assert(i + 1 <= j);
        }
    }
}

/// A pattern that does not occur in `s` does not occur in any part of `s`.
pub proof fn lemma_no_contains_subrange(s: Seq<char>, pat: Seq<char>, a: int, b: int)
    requires
        0 <= a <= b <= s.len(),
        !spec_contains(s, pat),
    ensures
        !spec_contains(s.subrange(a, b), pat),
{
    let sub = s.subrange(a, b);
    lemma_find_from_iff(s, pat, 0);
    lemma_find_from_iff(sub, pat, 0);
    assert forall|j: int| 0 <= j implies !spec_match_at(sub, pat, j) by {
        if spec_match_at(sub, pat, j) {
            assert(sub.subrange(j, j + pat.len()) =~= s.subrange(a + j, a + j + pat.len()));
            assert(spec_match_at(s, pat, a + j));
        }
    }
}

/// Whether `pat` occurs in `s` at position `i`.
pub fn match_at(s: &str, i: usize, pat: &str) -> (r: bool)
    requires
        i <= s@.len(),
    ensures
        r == spec_match_at(s@, pat@, i as int),
{
    let n = s.unicode_len();
    let m = pat.unicode_len();
    if m > n - i {
        return false;
    }
    let mut j: usize = 0;
    while j < m
        invariant
            0 <= j <= m,
            i + m <= n,
            n == s@.len(),
            m == pat@.len(),
            forall|k: int| 0 <= k < j ==> s@[i + k] == pat@[k],
        decreases m - j,
    {
        if s.get_char(i + j) != pat.get_char(j) {
            proof {
                assert(s@.subrange(i as int, i + m) != pat@) by {
                    if s@.subrange(i as int, i + m) == pat@ {
                        assert(s@.subrange(i as int, i + m)[j as int] == s@[i + j]);
                    }
                }
            }
            return false;
        }
        j = j + 1;
    }
    proof {
        assert(s@.subrange(i as int, i + m) =~= pat@);
    }
    true
}

/// The least index at or after `from` where `pat` occurs in `s`.
pub fn find_from(s: &str, pat: &str, from: usize) -> (r: Option<usize>)
    requires
        from <= s@.len(),
    ensures
        match r {
            Some(j) => spec_find_from(s@, pat@, from as int) == Some(j as int),
            None => spec_find_from(s@, pat@, from as int) is None,
        },
    decreases s@.len() - from,
{
    let n = s.unicode_len();
    let m = pat.unicode_len();
    if m > n - from {
        return None;
    }
    if match_at(s, from, pat) {
        return Some(from);
    }
    proof {
        if pat@.len() == 0 {
            assert(s@.subrange(from as int, from as int) =~= pat@);
        }
    }
    find_from(s, pat, from + 1)
}

/// Whether `pat` occurs anywhere in `s`.
pub fn contains_str(s: &str, pat: &str) -> (r: bool)
    ensures
        r == spec_contains(s@, pat@),
{
    match find_from(s, pat, 0) {
        Some(_) => true,
        None => false,
    }
}

/// Whether `s` begins with `pat`.
pub fn starts_with(s: &str, pat: &str) -> (r: bool)
    ensures
        r == spec_starts_with(s@, pat@),
{
    match_at(s, 0, pat)
}

// ---------------------------------------------------------------------
// Splitting
// ---------------------------------------------------------------------

/// The pieces of `s` between occurrences of `sep`, in order; there is
/// always at least one piece, and separators are not part of any piece.
pub open spec fn spec_split(s: Seq<char>, sep: Seq<char>) -> Seq<Seq<char>>
    decreases s.len() when sep.len() >= 1
    via spec_split_decreases
{
    match spec_find_from(s, sep, 0) {
        None => seq![s],
        Some(i) => seq![s.take(i)] + spec_split(s.skip(i + sep.len()), sep),
    }
}

#[via_fn]
proof fn spec_split_decreases(s: Seq<char>, sep: Seq<char>) {
    lemma_find_from_bounds(s, sep, 0);
}

/// The pieces of `s` around the first occurrence of `sep`, when there
/// is one.
pub open spec fn spec_split_first(s: Seq<char>, sep: Seq<char>) -> Option<(Seq<char>, Seq<char>)> {
    match spec_find_from(s, sep, 0) {
        None => None,
        Some(i) => Some((s.take(i), s.skip(i + sep.len()))),
    }
}

/// Splits `s` on every occurrence of `sep`.
pub fn split_str(s: &str, sep: &str) -> (r: Vec<String>)
    requires
        sep@.len() >= 1,
    ensures
        views_of(r@) == spec_split(s@, sep@),
{
    let n = s.unicode_len();
    let mut res: Vec<String> = Vec::new();
    let mut pos: usize = 0;
    proof {
        assert(s@.skip(0) =~= s@);
        assert(views_of(res@) + spec_split(s@.skip(0), sep@) =~= spec_split(s@, sep@));
    }
    loop
        invariant_except_break
            0 <= pos <= n,
            n == s@.len(),
            sep@.len() >= 1,
            spec_split(s@, sep@) == views_of(res@) + spec_split(s@.skip(pos as int), sep@),
        ensures
            views_of(res@) == spec_split(s@, sep@),
        decreases n - pos,
    {
        let rest = s.substring_char(pos, n);
        proof {
            assert(rest@ =~= s@.skip(pos as int));
            lemma_find_from_bounds(rest@, sep@, 0);
        }
        match find_from(rest, sep, 0) {
            None => {
                res.push(rest.to_owned());
                proof {
                    lemma_views_of_push(res@.drop_last(), res@.last());
                    assert(res@.drop_last().push(res@.last()) =~= res@);
                    assert(views_of(res@) =~= spec_split(s@, sep@));
                }
                break;
            },
            Some(i) => {
                let piece = rest.substring_char(0, i);
                res.push(piece.to_owned());
                let sl = sep.unicode_len();
                proof {
                    lemma_views_of_push(res@.drop_last(), res@.last());
                    assert(res@.drop_last().push(res@.last()) =~= res@);
                    assert(rest@.skip(i + sep@.len()) =~= s@.skip(pos + i + sep@.len()));
                    assert(spec_split(s@.skip(pos as int), sep@) == seq![rest@.take(i as int)]
                        + spec_split(s@.skip(pos + i + sl), sep@));
                    assert(views_of(res@) + spec_split(s@.skip(pos + i + sl), sep@) =~= (views_of(
                        res@.drop_last(),
                    ) + seq![piece@]) + spec_split(s@.skip(pos + i + sl), sep@));
                    assert((views_of(res@.drop_last()) + seq![rest@.take(i as int)]) + spec_split(
                        s@.skip(pos + i + sl),
                        sep@,
                    ) =~= views_of(res@.drop_last()) + (seq![rest@.take(i as int)] + spec_split(
                        s@.skip(pos + i + sl),
                        sep@,
                    )));
                }
                pos = pos + i + sl;
            },
        }
    }
    res
}

/// Splits `s` around the first occurrence of `sep`, when there is one.
pub fn split_first_str(s: &str, sep: &str) -> (r: Option<(String, String)>)
    ensures
        match r {
            Some(p) => spec_split_first(s@, sep@) == Some((p.0@, p.1@)),
            None => spec_split_first(s@, sep@) is None,
        },
{
    let n = s.unicode_len();
    proof {
        lemma_find_from_bounds(s@, sep@, 0);
    }
    match find_from(s, sep, 0) {
        None => None,
        Some(i) => {
            let head = s.substring_char(0, i).to_owned();
            let tail = s.substring_char(i + sep.unicode_len(), n).to_owned();
            proof {
                assert(head@ =~= s@.take(i as int));
                assert(tail@ =~= s@.skip(i + sep@.len()));
            }
            Some((head, tail))
        },
    }
}

// ---------------------------------------------------------------------
// Whitespace-separated tokens
// ---------------------------------------------------------------------

/// The maximal whitespace-free tokens of `s`, in order.
pub open spec fn spec_tokens(s: Seq<char>) -> Seq<Seq<char>>
    decreases s.len(),
    via spec_tokens_decreases
{
    if spec_trim_start(s).len() == 0 {
        Seq::empty()
    } else {
        let t = spec_trim_start(s);
        seq![t.take(nonws_prefix_len(t) as int)] + spec_tokens(t.skip(nonws_prefix_len(t) as int))
    }
}

#[via_fn]
proof fn spec_tokens_decreases(s: Seq<char>) {
    lemma_ws_prefix_le(s);
    let t = spec_trim_start(s);
    if t.len() > 0 {
        lemma_ws_prefix_spec(s);
        assert(t[0] == s[ws_prefix_len(s) as int]);
        assert(nonws_prefix_len(t) >= 1);
        lemma_nonws_prefix_le(t);
    }
}

proof fn lemma_nonws_prefix_le(s: Seq<char>)
    ensures
        nonws_prefix_len(s) <= s.len(),
    decreases s.len(),
{
    if s.len() > 0 && !is_ws(s[0]) {
        lemma_nonws_prefix_le(s.drop_first());
    }
}

/// Skipping one leading whitespace character does not change the tokens.
proof fn lemma_tokens_skip_ws(s: Seq<char>)
    requires
        s.len() > 0,
        is_ws(s[0]),
    ensures
        spec_tokens(s) == spec_tokens(s.drop_first()),
{
    let t = s.drop_first();
    assert(ws_prefix_len(s) == 1 + ws_prefix_len(t));
    lemma_ws_prefix_le(t);
    assert(spec_trim_start(s) =~= spec_trim_start(t));
}

/// The whitespace-separated tokens of `s`.
pub fn tokens(s: &str) -> (r: Vec<String>)
    ensures
        views_of(r@) == spec_tokens(s@),
{
    let n = s.unicode_len();
    let mut res: Vec<String> = Vec::new();
    let mut pos: usize = 0;
    proof {
        assert(s@.skip(0) =~= s@);
        assert(views_of(res@) + spec_tokens(s@.skip(0)) =~= spec_tokens(s@));
    }
    loop
        invariant_except_break
            0 <= pos <= n,
            n == s@.len(),
            spec_tokens(s@) == views_of(res@) + spec_tokens(s@.skip(pos as int)),
        ensures
            views_of(res@) == spec_tokens(s@),
        decreases n - pos,
    {
        let ghost pos0: int = pos as int;
        while pos < n && is_ws_char(s.get_char(pos))
            invariant
                pos0 <= pos <= n,
                0 <= pos0,
                n == s@.len(),
                spec_tokens(s@) == views_of(res@) + spec_tokens(s@.skip(pos as int)),
            decreases n - pos,
        {
            proof {
                let t = s@.skip(pos as int);
                assert(t[0] == s@[pos as int]);
                lemma_tokens_skip_ws(t);
                assert(t.drop_first() =~= s@.skip(pos + 1));
            }
            pos = pos + 1;
        }
        if pos == n {
            proof {
                assert(s@.skip(pos as int) =~= Seq::<char>::empty());
                lemma_ws_prefix_le(s@.skip(pos as int));
                assert(views_of(res@) =~= spec_tokens(s@));
            }
            break;
        }
        let start = pos;
        pos = pos + 1;
        while pos < n && !is_ws_char(s.get_char(pos))
            invariant
                start < pos <= n,
                n == s@.len(),
                start < n,
                !is_ws(s@[start as int]),
                forall|j: int| start <= j < pos ==> !is_ws(s@[j]),
                spec_tokens(s@) == views_of(res@) + spec_tokens(s@.skip(start as int)),
            decreases n - pos,
        {
            pos = pos + 1;
        }
        let tok = s.substring_char(start, pos).to_owned();
        res.push(tok);
        proof {
            let t = s@.skip(start as int);
            assert(!is_ws(t[0]));
            lemma_ws_prefix_char(t, 0);
            assert(spec_trim_start(t) =~= t);
            assert(forall|j: int| 0 <= j < pos - start ==> t[j] == s@[j + start] && !is_ws(
                #[trigger] t[j],
            ));
            if pos < n {
                assert(t[pos - start] == s@[pos as int]);
            }
            lemma_nonws_prefix_char(t, pos - start);
            assert(t.take(pos - start) =~= s@.subrange(start as int, pos as int));
            assert(t.skip(pos - start) =~= s@.skip(pos as int));
            assert(spec_tokens(s@.skip(start as int)) == seq![s@.subrange(start as int, pos as int)]
                + spec_tokens(s@.skip(pos as int)));
            lemma_views_of_push(res@.drop_last(), res@.last());
            assert(res@.drop_last().push(res@.last()) =~= res@);
            assert(views_of(res@) + spec_tokens(s@.skip(pos as int)) =~= (views_of(res@.drop_last())
                + seq![s@.subrange(start as int, pos as int)]) + spec_tokens(s@.skip(pos as int)));
            assert((views_of(res@.drop_last()) + seq![s@.subrange(start as int, pos as int)])
                + spec_tokens(s@.skip(pos as int)) =~= views_of(res@.drop_last()) + (seq![
                s@.subrange(start as int, pos as int),
            ] + spec_tokens(s@.skip(pos as int))));
        }
    }
    res
}

// ---------------------------------------------------------------------
// Common-indentation stripping
// ---------------------------------------------------------------------

/// A line without its terminating newline.
pub open spec fn line_content(l: Seq<char>) -> Seq<char> {
    if l.len() > 0 && l.last() == '\n' {
        l.drop_last()
    } else {
        l
    }
}

/// A line that holds only whitespace.
pub open spec fn line_is_blank(l: Seq<char>) -> bool {
    spec_trim(line_content(l)).len() == 0
}

/// The leading-whitespace width of a line.
pub open spec fn line_indent(l: Seq<char>) -> nat {
    ws_prefix_len(line_content(l))
}

/// The smaller of two optional widths, where absence loses.
pub open spec fn min_combine(a: Option<nat>, b: Option<nat>) -> Option<nat> {
    match a {
        None => b,
        Some(x) => match b {
            None => Some(x),
            Some(y) => Some(if x < y {
                x
            } else {
                y
            }),
        },
    }
}

/// The indent a blank line contributes (none) or a non-blank line has.
pub open spec fn line_indent_opt(l: Seq<char>) -> Option<nat> {
    if line_is_blank(l) {
        None
    } else {
        Some(line_indent(l))
    }
}

/// The least indentation of the non-blank lines, if there is one.
pub open spec fn min_indent(ls: Seq<Seq<char>>) -> Option<nat>
    decreases ls.len(),
{
    if ls.len() == 0 {
        None
    } else {
        min_combine(line_indent_opt(ls[0]), min_indent(ls.drop_first()))
    }
}

/// Number of leading space characters of `s`.
pub open spec fn space_prefix_len(s: Seq<char>) -> nat
    decreases s.len(),
{
    if s.len() == 0 || s[0] != ' ' {
        0
    } else {
        1 + space_prefix_len(s.drop_first())
    }
}

pub proof fn lemma_space_prefix_char(s: Seq<char>, a: int)
    requires
        0 <= a <= s.len(),
        forall|j: int| 0 <= j < a ==> s[j] == ' ',
        a == s.len() || s[a] != ' ',
    ensures
        space_prefix_len(s) == a,
    decreases s.len(),
{
    if a > 0 {
        let t = s.drop_first();
        assert(forall|j: int| 0 <= j < a - 1 ==> s[j + 1] == t[j] && #[trigger] t[j] == ' ');
        if a - 1 < t.len() {
            assert(t[a - 1] == s[a]);
        }
        lemma_space_prefix_char(t, a - 1);
    }
}

/// One line with the common indentation removed: a line shorter than
/// the common width loses all its leading spaces instead.
pub open spec fn dedent_line(l: Seq<char>, ind: nat) -> Seq<char> {
    if l.len() <= ind {
        l.skip(space_prefix_len(l) as int)
    } else {
        l.skip(ind as int)
    }
}

/// Every line with the common indentation removed.
pub open spec fn dedent_all(ls: Seq<Seq<char>>, ind: nat) -> Seq<Seq<char>> {
    ls.map(|i: int, l: Seq<char>| dedent_line(l, ind))
}

/// `s` with one leading newline dropped and the least common
/// indentation of its non-blank lines removed from every line.
pub open spec fn spec_trim_indent(s: Seq<char>) -> Seq<char> {
    let t = if s.len() > 0 && s[0] == '\n' {
        s.drop_first()
    } else {
        s
    };
    let ind = match min_indent(spec_lines(t)) {
        None => 0,
        Some(m) => m,
    };
    spec_concat(dedent_all(spec_lines(t), ind))
}

/// Strips a leading newline and the common indentation from `s`.
pub fn trim_indent(s: &str) -> (r: String)
    ensures
        r@ == spec_trim_indent(s@),
{
    let n0 = s.unicode_len();
    let t: &str = if n0 > 0 && s.get_char(0) == '\n' {
        let u = s.substring_char(1, n0);
        proof {
            assert(u@ =~= s@.drop_first());
        }
        u
    } else {
        s
    };
    let ghost tv: Seq<char> = t@;
    let n = t.unicode_len();

    // First pass: least indentation over the non-blank lines.
    let mut pos: usize = 0;
    let mut have: bool = false;
    let mut ind: usize = 0;
    proof {
        assert(tv.skip(0) =~= tv);
    }
    while pos < n
        invariant
            0 <= pos <= n,
            n == tv.len(),
            tv == t@,
            min_combine(
                if have {
                    Some(ind as nat)
                } else {
                    None
                },
                min_indent(spec_lines(tv.skip(pos as int))),
            ) == min_indent(spec_lines(tv)),
            have ==> ind <= n,
        decreases n - pos,
    {
        let ghost prev: int = pos as int;
        let e = line_end(t, pos);
        proof {
            lemma_first_line_len_bounds(tv.skip(pos as int));
            assert(tv.skip(pos as int).take(e - pos) =~= tv.subrange(pos as int, e as int));
            assert(tv.skip(pos as int).skip(e - pos) =~= tv.skip(e as int));
        }
        let ghost line: Seq<char> = tv.subrange(pos as int, e as int);
        let ce: usize = if e > pos && t.get_char(e - 1) == '\n' {
            e - 1
        } else {
            e
        };
        proof {
            assert(line.last() == tv[e - 1]);
            assert(line_content(line) =~= tv.subrange(pos as int, ce as int));
        }
        let ghost content: Seq<char> = tv.subrange(pos as int, ce as int);
        let mut q: usize = pos;
        while q < ce && is_ws_char(t.get_char(q))
            invariant
                pos <= q <= ce <= n,
                n == tv.len(),
                tv == t@,
                forall|j: int| pos <= j < q ==> is_ws(tv[j]),
            decreases ce - q,
        {
            q = q + 1;
        }
        proof {
            assert(forall|j: int| 0 <= j < q - pos ==> content[j] == tv[j + pos] && is_ws(
                #[trigger] content[j],
            ));
            if q < ce {
                assert(content[q - pos] == tv[q as int]);
            }
            lemma_trim_empty_iff_all_ws(content);
            lemma_ws_prefix_char(content, q - pos);
        }
        if q < ce {
            // Non-blank line: its indent is q - pos.
            let li = q - pos;
            proof {
                assert(!line_is_blank(line)) by {
                    assert(content[q - pos] == tv[q as int]);
                    assert(!is_ws(content[q - pos]));
                }
                assert(line_indent(line) == q - pos);
            }
            if !have || li < ind {
                have = true;
                ind = li;
            }
        } else {
            proof {
                assert(line_is_blank(line));
            }
        }
        pos = e;
        proof {
            let rest = spec_lines(tv.skip(e as int));
            assert(spec_lines(tv.skip(prev)) == seq![line] + rest);
            assert((seq![line] + rest)[0] == line);
            assert((seq![line] + rest).drop_first() =~= rest);
            assert(min_indent(seq![line] + rest) == min_combine(
                line_indent_opt(line),
                min_indent(rest),
            ));
        }
    }
    let indent: usize = if have {
        ind
    } else {
        0
    };
    proof {
        assert(tv.skip(n as int) =~= Seq::<char>::empty());
        assert(min_indent(spec_lines(tv.skip(n as int))) is None);
        assert((indent as nat) == match min_indent(spec_lines(tv)) {
            None => 0nat,
            Some(m) => m,
        });
    }

    // Second pass: emit each line with the indentation removed.
    let mut buf = String::new();
    let mut pos2: usize = 0;
    proof {
        assert(tv.skip(0) =~= tv);
        assert(buf@ + spec_concat(dedent_all(spec_lines(tv.skip(0)), indent as nat)) =~= spec_concat(
            dedent_all(spec_lines(tv), indent as nat),
        ));
    }
    while pos2 < n
        invariant
            0 <= pos2 <= n,
            n == tv.len(),
            tv == t@,
            buf@ + spec_concat(dedent_all(spec_lines(tv.skip(pos2 as int)), indent as nat))
                == spec_concat(dedent_all(spec_lines(tv), indent as nat)),
        decreases n - pos2,
    {
        let ghost prev: int = pos2 as int;
        let e = line_end(t, pos2);
        proof {
            lemma_first_line_len_bounds(tv.skip(pos2 as int));
            assert(tv.skip(pos2 as int).take(e - pos2) =~= tv.subrange(pos2 as int, e as int));
            assert(tv.skip(pos2 as int).skip(e - pos2) =~= tv.skip(e as int));
        }
        let ghost line: Seq<char> = tv.subrange(pos2 as int, e as int);
        let piece: &str = if e - pos2 <= indent {
            let mut q: usize = pos2;
            while q < e && t.get_char(q) == ' '
                invariant
                    pos2 <= q <= e <= n,
                    n == tv.len(),
                    tv == t@,
                    forall|j: int| pos2 <= j < q ==> tv[j] == ' ',
                decreases e - q,
            {
                q = q + 1;
            }
            proof {
                assert(forall|j: int| 0 <= j < q - pos2 ==> line[j] == tv[j + pos2]
                    && #[trigger] line[j] == ' ');
                if q < e {
                    assert(line[q - pos2] == tv[q as int]);
                }
                lemma_space_prefix_char(line, q - pos2);
                assert(line.skip(q - pos2) =~= tv.subrange(q as int, e as int));
            }
            t.substring_char(q, e)
        } else {
            proof {
                assert(line.skip(indent as int) =~= tv.subrange(pos2 + indent, e as int));
            }
            t.substring_char(pos2 + indent, e)
        };
        proof {
            assert(piece@ == dedent_line(line, indent as nat));
        }
        let ghost buf0: Seq<char> = buf@;
        buf.append(piece);
        pos2 = e;
        proof {
            let rest = spec_lines(tv.skip(e as int));
            assert(spec_lines(tv.skip(prev)) == seq![line] + rest);
            let d = dedent_line(line, indent as nat);
            assert(dedent_all(seq![line] + rest, indent as nat) =~= seq![d] + dedent_all(
                rest,
                indent as nat,
            ));
            lemma_concat_head(d, dedent_all(rest, indent as nat));
            assert(buf0 + (d + spec_concat(dedent_all(rest, indent as nat))) =~= (buf0 + d)
                + spec_concat(dedent_all(rest, indent as nat)));
        }
    }
    proof {
        assert(tv.skip(n as int) =~= Seq::<char>::empty());
        assert(dedent_all(spec_lines(tv.skip(n as int)), indent as nat) =~= Seq::<
            Seq<char>,
        >::empty());
        assert(buf@ =~= spec_trim_indent(s@));
    }
    buf
}

/// Whether some member of `v` holds the characters of `s`.
pub fn vec_contains_str(v: &Vec<String>, s: &str) -> (r: bool)
    ensures
        r == views_of(v@).contains(s@),
{
    let mut i: usize = 0;
    while i < v.len()
        invariant
            0 <= i <= v@.len(),
            forall|j: int| 0 <= j < i ==> v@[j]@ != s@,
        decreases v@.len() - i,
    {
        if str_eq(v[i].as_str(), s) {
            proof {
                assert(views_of(v@)[i as int] == s@);
            }
            return true;
        }
        i = i + 1;
    }
    proof {
        assert forall|j: int| 0 <= j < views_of(v@).len() implies views_of(v@)[j] != s@ by {
            assert(views_of(v@)[j] == v@[j]@);
        }
    }
    false
}

} // verus!
