use vstd::prelude::*;

use crate::charset::to_chars;

verus! {

/// `t` is its first `p` characters written out a whole number of times.
pub open spec fn is_repetition(t: Seq<char>, p: int) -> bool {
    &&& 1 <= p
    &&& (t.len() as int) % p == 0
    &&& forall|i: int| 0 <= i < t.len() ==> #[trigger] t[i] == t[i % p]
}

/// The suffix of `s` from `start` on is at least two copies of a block of length `p`.
pub open spec fn repeats_from(s: Seq<char>, start: int, p: int) -> bool {
    &&& 0 <= start < s.len()
    &&& 1 <= p
    &&& 2 * p <= s.len() - start
    &&& is_repetition(s.subrange(start, s.len() as int), p)
}

/// Some suffix of `s` is a block repeated two or more times.
pub open spec fn has_repeat(s: Seq<char>) -> bool {
    exists|start: int, p: int| repeats_from(s, start, p)
}

fn suffix_repeats(s: &Vec<char>, start: usize, p: usize) -> (r: bool)
    requires
        start < s@.len(),
        1 <= p,
        2 * p <= s@.len() - start,
    ensures
        r == repeats_from(s@, start as int, p as int),
{
    let n = s.len();
    let m = n - start;
    let ghost t = s@.subrange(start as int, n as int);
    if m % p != 0 {
        return false;
    }
    let mut i: usize = 0;
    while i < m
        invariant
            n == s@.len(),
            start < n,
            m == n - start,
            1 <= p,
            2 * p <= m,
            m % p == 0,
            t == s@.subrange(start as int, n as int),
            i <= m,
            forall|j: int| 0 <= j < i ==> #[trigger] t[j] == t[j % p as int],
        decreases m - i,
    {
        assert(i % p < p) by (nonlinear_arith)
            requires
                1 <= p,
        ;
        if s[start + i] != s[start + i % p] {
            assert(t[i as int] != t[i as int % p as int]);
            return false;
        }
        i = i + 1;
    }
    true
}

/// Whether some suffix of `s` is a block of characters repeated two or more times.
pub fn repeated_pattern_in(s: &Vec<char>) -> (r: bool)
    ensures
        r == has_repeat(s@),
{
    let n = s.len();
    let mut start: usize = 0;
    while start < n
        invariant
            n == s@.len(),
            start <= n,
            forall|a: int, p: int| 0 <= a < start ==> !#[trigger] repeats_from(s@, a, p),
        decreases n - start,
    {
        let half = (n - start) / 2;
        let mut p: usize = 1;
        while p <= half
            invariant
                n == s@.len(),
                start < n,
                half == (n - start) / 2,
                1 <= p <= half + 1,
                forall|a: int, q: int| 0 <= a < start ==> !#[trigger] repeats_from(s@, a, q),
                forall|q: int| q < p ==> !#[trigger] repeats_from(s@, start as int, q),
            decreases half + 1 - p,
        {
            if suffix_repeats(s, start, p) {
                return true;
            }
            p = p + 1;
        }
        start = start + 1;
    }
    false
}

/// Whether some suffix of `s` (from any offset) is a block of characters repeated two or
/// more times, as in `"onetwoonetwo"`.
pub fn has_repeated_pattern(s: &str) -> (r: bool)
    ensures
        r == has_repeat(s@),
{
    let chars = to_chars(s);
    repeated_pattern_in(&chars)
}

} // verus!
