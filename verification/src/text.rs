//! Small verified text helpers.

use vstd::prelude::*;
use crate::net::find_char;

verus! {

/// First occurrence of `c` in `s` at or after `from`, by scan.
pub fn find_char_in(s: &str, c: char, from: usize, n: usize) -> (r: Option<usize>)
    requires
        from <= n,
        n == s@.len(),
    ensures
        match r {
            Some(u) => find_char(s@, c, from as int) == Some(u as int) && from <= u < n,
            None => find_char(s@, c, from as int) is None,
        },
{
    let mut j = from;
    while j < n
        invariant
            from <= j <= n,
            n == s@.len(),
            find_char(s@, c, from as int) == find_char(s@, c, j as int),
        decreases n - j,
    {
        if s.get_char(j) == c {
            return Some(j);
        }
        j = j + 1;
    }
    None
}

/// Character-for-character equality of two string slices.
pub fn str_eq(a: &str, b: &str) -> (r: bool)
    ensures
        r == (a@ == b@),
{
    let n = a.unicode_len();
    let m = b.unicode_len();
    if n != m {
        assert(a@ != b@) by {
            assert(a@.len() != b@.len());
        }
        return false;
    }
    let mut i: usize = 0;
    while i < n
        invariant
            0 <= i <= n,
            n == a@.len(),
            n == b@.len(),
            forall|j: int| 0 <= j < i ==> a@[j] == b@[j],
        decreases n - i,
    {
        if a.get_char(i) != b.get_char(i) {
            return false;
        }
        i = i + 1;
    }
    proof {
        assert(a@ =~= b@);
    }
    true
}

} // verus!
