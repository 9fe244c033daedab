//! Substring membership over a list of strings.
use vstd::prelude::*;

verus! {

/// `needle` occurs in `s` starting at position `i`.
pub open spec fn occurs_at(s: Seq<char>, needle: Seq<char>, i: int) -> bool {
    0 <= i && i + needle.len() <= s.len() && s.subrange(i, i + needle.len()) == needle
}

/// `needle` occurs somewhere in `s`; the empty string occurs in every string.
pub open spec fn contains(s: Seq<char>, needle: Seq<char>) -> bool {
    exists|i: int| #[trigger] occurs_at(s, needle, i)
}

/// The characters of `s`, one per entry.
fn chars_of(s: &str) -> (r: Vec<char>)
    ensures
        r@ == s@,
{
    let n = s.unicode_len();
    let mut r: Vec<char> = Vec::new();
    let mut i: usize = 0;
    while i < n
        invariant
            n == s@.len(),
            i <= n,
            r@ == s@.take(i as int),
        decreases n - i,
    {
        r.push(s.get_char(i));
        i = i + 1;
        assert(r@ =~= s@.take(i as int));
    }
    assert(s@.take(n as int) =~= s@);
    r
}

/// Whether `needle` occurs in `s` at position `i`.
fn matches_at(s: &Vec<char>, needle: &Vec<char>, i: usize) -> (r: bool)
    requires
        i + needle@.len() <= s@.len(),
    ensures
        r == occurs_at(s@, needle@, i as int),
{
    let m = needle.len();
    let n = s.len();
    let mut k: usize = 0;
    while k < m
        invariant
            m == needle@.len(),
            n == s@.len(),
            i + m <= s@.len(),
            k <= m,
            forall|t: int| 0 <= t < k ==> s@[i + t] == needle@[t],
        decreases m - k,
    {
        if s[i + k] != needle[k] {
            assert(s@.subrange(i as int, i + m)[k as int] != needle@[k as int]);
            return false;
        }
        k = k + 1;
    }
    assert(s@.subrange(i as int, i + m) =~= needle@);
    true
}

/// Whether `needle` occurs anywhere in `s`.
fn contains_chars(s: &Vec<char>, needle: &Vec<char>) -> (r: bool)
    ensures
        r == contains(s@, needle@),
{
    if needle.len() > s.len() {
        assert(forall|i: int| !#[trigger] occurs_at(s@, needle@, i));
        return false;
    }
    let last = s.len() - needle.len();
    let mut i: usize = 0;
    while i <= last
        invariant
            last == s@.len() - needle@.len(),
            i <= last + 1,
            forall|t: int| 0 <= t < i ==> !#[trigger] occurs_at(s@, needle@, t),
        decreases last + 1 - i,
    {
        if matches_at(s, needle, i) {
            return true;
        }
        if i == last {
            assert(forall|t: int| !#[trigger] occurs_at(s@, needle@, t));
            return false;
        }
        i = i + 1;
    }
    false
}

/// For each string of `haystack`, in order, whether `needle` occurs in it.
pub fn find_contains(haystack: &[&str], needle: &str) -> (r: Vec<bool>)
    ensures
        r@.len() == haystack@.len(),
        forall|i: int| 0 <= i < haystack@.len() ==> r@[i] == contains(haystack@[i]@, needle@),
{
    let pattern = chars_of(needle);
    let mut found: Vec<bool> = Vec::with_capacity(haystack.len());
    let mut i: usize = 0;
    while i < haystack.len()
        invariant
            pattern@ == needle@,
            i <= haystack@.len(),
            found@.len() == i,
            forall|t: int| 0 <= t < i ==> found@[t] == contains(haystack@[t]@, needle@),
        decreases haystack@.len() - i,
    {
        let s = chars_of(haystack[i]);
        found.push(contains_chars(&s, &pattern));
        i = i + 1;
    }
    found
}

} // verus!
