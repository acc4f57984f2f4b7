//! Character-level helpers over `&str`: searching for a character, equality,
//! and slicing a token at the first occurrence of a marker character.

use vstd::prelude::*;
use vstd::string::StrSliceExecFns;

verus! {

/// Index of the first occurrence of `c` in `s` at or after `k`, or `s.len()`
/// if there is none.
pub open spec fn spec_find_char(s: Seq<char>, c: char, k: int) -> int
    decreases s.len() - k,
{
    if k < 0 || k >= s.len() {
        s.len() as int
    } else if s[k] == c {
        k
    } else {
        spec_find_char(s, c, k + 1)
    }
}

/// `spec_find_char` returns a position between `k` and the length; every
/// character before it (from `k` on) differs from `c`, and the character at
/// it, when inside the string, is `c`.
pub proof fn lemma_find_char(s: Seq<char>, c: char, k: int)
    requires
        0 <= k <= s.len(),
    ensures
        k <= spec_find_char(s, c, k) <= s.len(),
        forall|j: int| k <= j < spec_find_char(s, c, k) ==> s[j] != c,
        spec_find_char(s, c, k) < s.len() ==> s[spec_find_char(s, c, k)] == c,
    decreases s.len() - k,
{
    if k < s.len() && s[k] != c {
        lemma_find_char(s, c, k + 1);
    }
}

/// The prefix of `s` strictly before the first occurrence of `c`
/// (all of `s` if `c` does not occur).
pub open spec fn spec_before(s: Seq<char>, c: char) -> Seq<char> {
    s.subrange(0, spec_find_char(s, c, 0))
}

/// Whether `c` occurs in `s`.
pub open spec fn spec_has_char(s: Seq<char>, c: char) -> bool {
    spec_find_char(s, c, 0) < s.len()
}

fn find_char_from(s: &str, c: char, k: usize, n: usize) -> (r: usize)
    requires
        n == s@.len(),
        k <= n,
    ensures
        r as int == spec_find_char(s@, c, k as int),
    decreases n - k,
{
    if k >= n {
        n
    } else if s.get_char(k) == c {
        k
    } else {
        find_char_from(s, c, k + 1, n)
    }
}

/// Index of the first occurrence of `c` in `s`, or the character length of
/// `s` if there is none.
pub fn find_char(s: &str, c: char) -> (r: usize)
    ensures
        r as int == spec_find_char(s@, c, 0),
        r <= s@.len(),
{
    let n = s.unicode_len();
    proof {
        lemma_find_char(s@, c, 0);
    }
    find_char_from(s, c, 0, n)
}

/// Whether `c` occurs in `s`.
pub fn has_char(s: &str, c: char) -> (r: bool)
    ensures
        r == spec_has_char(s@, c),
{
    let n = s.unicode_len();
    find_char(s, c) < n
}

/// The prefix of `s` strictly before the first occurrence of `c`.
pub fn before_char<'a>(s: &'a str, c: char) -> (r: &'a str)
    ensures
        r@ == spec_before(s@, c),
{
    let k = find_char(s, c);
    s.substring_char(0, k)
}

/// The suffix of `s` strictly after the first occurrence of `c`.
pub fn after_char<'a>(s: &'a str, c: char) -> (r: &'a str)
    requires
        spec_has_char(s@, c),
    ensures
        r@ == s@.subrange(spec_find_char(s@, c, 0) + 1, s@.len() as int),
{
    let n = s.unicode_len();
    let k = find_char(s, c);
    s.substring_char(k + 1, n)
}

fn str_eq_from(a: &str, b: &str, k: usize, n: usize) -> (r: bool)
    requires
        n == a@.len(),
        n == b@.len(),
        k <= n,
    ensures
        r == forall|j: int| k <= j < n ==> a@[j] == b@[j],
    decreases n - k,
{
    if k >= n {
        true
    } else if a.get_char(k) == b.get_char(k) {
        str_eq_from(a, b, k + 1, n)
    } else {
        false
    }
}

/// Character-for-character equality of two string slices.
pub fn str_eq(a: &str, b: &str) -> (r: bool)
    ensures
        r == (a@ == b@),
{
    let n = a.unicode_len();
    let m = b.unicode_len();
    if n != m {
        return false;
    }
    let r = str_eq_from(a, b, 0, n);
    proof {
        if r {
            assert(a@ =~= b@);
        }
    }
    r
}

} // verus!
