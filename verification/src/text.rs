//! Character-level text utilities shared by the lexer, the parser and the
//! printable forms: conversion between `String` and `Vec<char>`, the
//! whitespace set the language recognises, and trimming.

use vstd::prelude::*;
use vstd::string::*;

verus! {

/// The token separators: ASCII whitespace and the full-width space.
pub open spec fn is_space(c: char) -> bool {
    c == ' ' || c == '\u{3000}' || c == '\n' || c == '\t' || c == '\r'
}

/// Builds a `String` from a vector of characters.
///
/// Relies on `String`'s `FromIterator<char>` implementation: collecting
/// characters yields the string of exactly those characters in order.
#[verifier::external_body]
pub fn string_from_chars(v: &Vec<char>) -> (r: String)
    ensures
        r@ == v@,
{
    v.iter().collect()
}

/// Collects the characters of a string slice into a vector.
pub fn chars_of_str(s: &str) -> (r: Vec<char>)
    ensures
        r@ == s@,
{
    let n = s.unicode_len();
    let mut out: Vec<char> = Vec::new();
    let mut i: usize = 0;
    while i < n
        invariant
            i <= n,
            n == s@.len(),
            out@ == s@.subrange(0, i as int),
        decreases n - i,
    {
        out.push(s.get_char(i));
        i = i + 1;
        proof {
            assert(out@ =~= s@.subrange(0, i as int));
        }
    }
    proof {
        assert(out@ =~= s@);
    }
    out
}

pub open spec fn count_leading_spaces(s: Seq<char>) -> int
    decreases s.len(),
{
    if s.len() == 0 || !is_space(s[0]) {
        0
    } else {
        1 + count_leading_spaces(s.skip(1))
    }
}

pub open spec fn count_trailing_spaces(s: Seq<char>) -> int
    decreases s.len(),
{
    if s.len() == 0 || !is_space(s.last()) {
        0
    } else {
        1 + count_trailing_spaces(s.drop_last())
    }
}

/// The string with leading and trailing separators removed.
pub open spec fn spec_trim(s: Seq<char>) -> Seq<char> {
    let a = count_leading_spaces(s);
    let b = count_trailing_spaces(s);
    if a + b >= s.len() {
        Seq::empty()
    } else {
        s.subrange(a, s.len() - b)
    }
}

pub proof fn lemma_count_leading_spaces_bounds(s: Seq<char>)
    ensures
        0 <= count_leading_spaces(s) <= s.len(),
        forall|i: int| 0 <= i < count_leading_spaces(s) ==> is_space(#[trigger] s[i]),
        count_leading_spaces(s) < s.len() ==> !is_space(s[count_leading_spaces(s)]),
    decreases s.len(),
{
    if s.len() > 0 && is_space(s[0]) {
        lemma_count_leading_spaces_bounds(s.skip(1));
        assert forall|i: int| 0 <= i < count_leading_spaces(s) implies is_space(
            #[trigger] s[i],
        ) by {
            if i > 0 {
                assert(s.skip(1)[i - 1] == s[i]);
            }
        }
        if count_leading_spaces(s) < s.len() {
            assert(s.skip(1)[count_leading_spaces(s) - 1] == s[count_leading_spaces(s)]);
        }
    }
}

pub proof fn lemma_count_trailing_spaces_bounds(s: Seq<char>)
    ensures
        0 <= count_trailing_spaces(s) <= s.len(),
        forall|i: int|
            s.len() - count_trailing_spaces(s) <= i < s.len() ==> is_space(#[trigger] s[i]),
        count_trailing_spaces(s) < s.len() ==> !is_space(
            s[s.len() - count_trailing_spaces(s) - 1],
        ),
    decreases s.len(),
{
    if s.len() > 0 && is_space(s.last()) {
        lemma_count_trailing_spaces_bounds(s.drop_last());
        assert forall|i: int|
            s.len() - count_trailing_spaces(s) <= i < s.len() implies is_space(
            #[trigger] s[i],
        ) by {
            if i < s.len() - 1 {
                assert(s.drop_last()[i] == s[i]);
            }
        }
        if count_trailing_spaces(s) < s.len() {
            assert(s.drop_last()[s.len() - count_trailing_spaces(s) - 1] == s[s.len()
                - count_trailing_spaces(s) - 1]);
        }
    }
}

/// Removes leading and trailing separators, as the parser does before
/// classifying a token.
pub fn trim_chars(s: &Vec<char>) -> (r: Vec<char>)
    ensures
        r@ == spec_trim(s@),
{
    let n = s.len();
    let mut a: usize = 0;
    proof {
        assert(s@.skip(0) =~= s@);
    }
    while a < n && is_space_char(s[a])
        invariant
            a <= n,
            n == s@.len(),
            count_leading_spaces(s@.skip(a as int)) == count_leading_spaces(s@) - a,
        decreases n - a,
    {
        proof {
            assert(s@.skip(a as int)[0] == s@[a as int]);
            assert(s@.skip(a as int).skip(1) =~= s@.skip(a as int + 1));
        }
        a = a + 1;
    }
    proof {
        if a < n {
            assert(s@.skip(a as int)[0] == s@[a as int]);
        } else {
            assert(s@.skip(a as int).len() == 0);
        }
        assert(count_leading_spaces(s@) == a);
        assert(s@.take(n as int) =~= s@);
    }
    let mut b: usize = n;
    while b > a && is_space_char(s[b - 1])
        invariant
            a <= b <= n,
            n == s@.len(),
            count_trailing_spaces(s@.take(b as int)) == count_trailing_spaces(s@) - (n - b),
            forall|i: int| b <= i < n ==> is_space(#[trigger] s@[i]),
        decreases b,
    {
        proof {
            assert(s@.take(b as int).last() == s@[b - 1]);
            assert(s@.take(b as int).drop_last() =~= s@.take(b as int - 1));
        }
        b = b - 1;
    }
    proof {
        if b == a {
            lemma_count_trailing_spaces_ge(s@, n - a);
            assert(count_leading_spaces(s@) + count_trailing_spaces(s@) >= n);
        } else {
            assert(s@.take(b as int).last() == s@[b - 1]);
            assert(count_trailing_spaces(s@.take(b as int)) == 0);
            assert(count_trailing_spaces(s@) == n - b);
        }
    }
    let mut out: Vec<char> = Vec::new();
    let mut i: usize = a;
    while i < b
        invariant
            a <= i <= b <= n,
            n == s@.len(),
            out@ == s@.subrange(a as int, i as int),
        decreases b - i,
    {
        out.push(s[i]);
        i = i + 1;
        proof {
            assert(out@ =~= s@.subrange(a as int, i as int));
        }
    }
    proof {
        assert(out@ =~= spec_trim(s@));
    }
    out
}

/// If the last `k` characters are all separators, at least `k` trailing
/// separators are counted.
proof fn lemma_count_trailing_spaces_ge(s: Seq<char>, k: int)
    requires
        0 <= k <= s.len(),
        forall|i: int| s.len() - k <= i < s.len() ==> is_space(#[trigger] s[i]),
    ensures
        count_trailing_spaces(s) >= k,
    decreases k,
{
    lemma_count_trailing_spaces_bounds(s);
    if k > 0 {
        assert(is_space(s[s.len() - 1]));
        assert forall|i: int|
            s.drop_last().len() - (k - 1) <= i < s.drop_last().len() implies is_space(
            #[trigger] s.drop_last()[i],
        ) by {
            assert(s.drop_last()[i] == s[i]);
        }
        lemma_count_trailing_spaces_ge(s.drop_last(), k - 1);
    }
}

pub proof fn lemma_spec_trim_len(s: Seq<char>)
    ensures
        spec_trim(s).len() <= s.len(),
{
    lemma_count_leading_spaces_bounds(s);
    lemma_count_trailing_spaces_bounds(s);
}

/// The index of the first occurrence of `c`, or the length when absent.
pub open spec fn find_char(s: Seq<char>, c: char) -> int
    decreases s.len(),
{
    if s.len() == 0 {
        0
    } else if s[0] == c {
        0
    } else {
        1 + find_char(s.skip(1), c)
    }
}

pub proof fn lemma_find_char_props(s: Seq<char>, c: char)
    ensures
        0 <= find_char(s, c) <= s.len(),
        find_char(s, c) < s.len() ==> s[find_char(s, c)] == c,
        forall|j: int| 0 <= j < find_char(s, c) ==> s[j] != c,
    decreases s.len(),
{
    if s.len() > 0 && s[0] != c {
        lemma_find_char_props(s.skip(1), c);
        let f = find_char(s, c);
        if f < s.len() {
            assert(s.skip(1)[f - 1] == s[f]);
        }
        assert forall|j: int| 0 <= j < f implies s[j] != c by {
            if j > 0 {
                assert(s.skip(1)[j - 1] == s[j]);
            }
        }
    }
}

/// Finds the first occurrence of `c` in `s`.
pub fn find_char_in(s: &Vec<char>, c: char) -> (r: usize)
    ensures
        r as int == find_char(s@, c),
{
    proof {
        lemma_find_char_props(s@, c);
    }
    let n = s.len();
    let mut i: usize = 0;
    while i < n
        invariant
            i <= n,
            n == s@.len(),
            forall|j: int| 0 <= j < i ==> s@[j] != c,
            0 <= find_char(s@, c) <= s@.len(),
            find_char(s@, c) < s@.len() ==> s@[find_char(s@, c)] == c,
            forall|j: int| 0 <= j < find_char(s@, c) ==> s@[j] != c,
        decreases n - i,
    {
        if s[i] == c {
            proof {
                assert(find_char(s@, c) <= i);
                assert(find_char(s@, c) >= i);
            }
            return i;
        }
        i = i + 1;
    }
    proof {
        assert(find_char(s@, c) == n);
    }
    n
}

/// A text that neither starts nor ends with a separator trims to itself.
pub proof fn lemma_trim_noop(s: Seq<char>)
    requires
        s.len() == 0 || (!is_space(s[0]) && !is_space(s.last())),
    ensures
        spec_trim(s) == s,
{
    if s.len() > 0 {
        assert(count_leading_spaces(s) == 0);
        assert(count_trailing_spaces(s) == 0);
        assert(s.subrange(0, s.len() as int) =~= s);
    } else {
        assert(spec_trim(s) =~= s);
    }
}

/// Trimming keeps the first character when it is not a separator.
pub proof fn lemma_trim_head(s: Seq<char>)
    requires
        s.len() >= 1,
        !is_space(s[0]),
    ensures
        spec_trim(s).len() >= 1,
        spec_trim(s)[0] == s[0],
{
    lemma_count_leading_spaces_bounds(s);
    lemma_count_trailing_spaces_bounds(s);
    assert(count_leading_spaces(s) == 0);
    if count_trailing_spaces(s) >= s.len() {
        assert(is_space(s[0]));
    }
}

/// A text without the character is searched to its end.
pub proof fn lemma_find_char_absent(s: Seq<char>, c: char)
    requires
        forall|j: int| 0 <= j < s.len() ==> s[j] != c,
    ensures
        find_char(s, c) == s.len(),
    decreases s.len(),
{
    if s.len() > 0 {
        assert forall|j: int| 0 <= j < s.skip(1).len() implies s.skip(1)[j] != c by {
            assert(s.skip(1)[j] == s[j + 1]);
        }
        lemma_find_char_absent(s.skip(1), c);
    }
}

/// The first occurrence is where the character first stands.
pub proof fn lemma_find_char_at(s: Seq<char>, c: char, k: int)
    requires
        0 <= k < s.len(),
        s[k] == c,
        forall|j: int| 0 <= j < k ==> s[j] != c,
    ensures
        find_char(s, c) == k,
    decreases k,
{
    if k > 0 {
        assert forall|j: int| 0 <= j < k - 1 implies s.skip(1)[j] != c by {
            assert(s.skip(1)[j] == s[j + 1]);
        }
        assert(s.skip(1)[k - 1] == s[k]);
        lemma_find_char_at(s.skip(1), c, k - 1);
    }
}

/// Copies the characters between `start` and `end` into a fresh vector.
pub fn subvec(s: &Vec<char>, start: usize, end: usize) -> (r: Vec<char>)
    requires
        start <= end <= s@.len(),
    ensures
        r@ == s@.subrange(start as int, end as int),
{
    let mut out: Vec<char> = Vec::new();
    let mut i: usize = start;
    while i < end
        invariant
            start <= i <= end <= s@.len(),
            out@ == s@.subrange(start as int, i as int),
        decreases end - i,
    {
        out.push(s[i]);
        i = i + 1;
        proof {
            assert(out@ =~= s@.subrange(start as int, i as int));
        }
    }
    out
}

/// Whether a character is one of the language's token separators.
pub fn is_space_char(c: char) -> (r: bool)
    ensures
        r == is_space(c),
{
    c == ' ' || c == '\u{3000}' || c == '\n' || c == '\t' || c == '\r'
}

} // verus!
