//! Counting occurrences of letters in prefixes of words: the arithmetic the
//! frequency index and the feedback reasoning rest on.

use vstd::prelude::*;

verus! {

/// How many of the first `n` letters of `s` equal `c`.
pub open spec fn cnt_ch(s: Seq<char>, c: char, n: int) -> int
    decreases n,
{
    if n <= 0 {
        0
    } else {
        cnt_ch(s, c, n - 1) + if s[n - 1] == c {
            1int
        } else {
            0int
        }
    }
}

/// How many letters of `s` equal `c`.
pub open spec fn count_ch(s: Seq<char>, c: char) -> int {
    cnt_ch(s, c, s.len() as int)
}

pub proof fn lemma_cnt_bounds(s: Seq<char>, c: char, n: int)
    requires
        n >= 0,
    ensures
        0 <= cnt_ch(s, c, n) <= n,
    decreases n,
{
    if n > 0 {
        lemma_cnt_bounds(s, c, n - 1);
    }
}

pub proof fn lemma_cnt_mono(s: Seq<char>, c: char, n1: int, n2: int)
    requires
        0 <= n1 <= n2,
    ensures
        cnt_ch(s, c, n1) <= cnt_ch(s, c, n2),
    decreases n2,
{
    if n1 < n2 {
        lemma_cnt_mono(s, c, n1, n2 - 1);
    }
}

/// No letter among the first `n` equals `c` exactly when the count is zero.
pub proof fn lemma_cnt_zero_iff(s: Seq<char>, c: char, n: int)
    requires
        n >= 0,
    ensures
        cnt_ch(s, c, n) == 0 <==> (forall|j: int| 0 <= j < n ==> s[j] != c),
    decreases n,
{
    if n > 0 {
        lemma_cnt_zero_iff(s, c, n - 1);
        lemma_cnt_bounds(s, c, n - 1);
    }
}

/// A letter at a position makes the count positive.
pub proof fn lemma_cnt_pos(s: Seq<char>, c: char, p: int, n: int)
    requires
        0 <= p < n,
        s[p] == c,
    ensures
        cnt_ch(s, c, n) >= 1,
{
    lemma_cnt_zero_iff(s, c, n);
    lemma_cnt_bounds(s, c, n);
}

/// A positive count names a position.
pub proof fn lemma_cnt_pos_witness(s: Seq<char>, c: char, n: int)
    requires
        n >= 0,
        cnt_ch(s, c, n) >= 1,
    ensures
        exists|p: int| 0 <= p < n && s[p] == c,
{
    lemma_cnt_zero_iff(s, c, n);
    let p = choose|p: int| 0 <= p < n && !(s[p] != c);
    assert(0 <= p < n && s[p] == c);
}

/// Counting ignores letters beyond the prefix, so equal prefixes count alike.
pub proof fn lemma_cnt_congruent(s1: Seq<char>, s2: Seq<char>, c: char, n: int)
    requires
        forall|j: int| 0 <= j < n ==> s1[j] == s2[j],
    ensures
        cnt_ch(s1, c, n) == cnt_ch(s2, c, n),
    decreases n,
{
    if n > 0 {
        lemma_cnt_congruent(s1, s2, c, n - 1);
    }
}

/// Counts the occurrences of a letter in a word.
pub fn count_occurrences(w: &Vec<char>, c: char) -> (n: usize)
    ensures
        n == count_ch(w@, c),
{
    let mut n: usize = 0;
    let mut i: usize = 0;
    while i < w.len()
        invariant
            i <= w@.len(),
            n == cnt_ch(w@, c, i as int),
            n <= i,
        decreases w@.len() - i,
    {
        if w[i] == c {
            n += 1;
        }
        i += 1;
    }
    n
}

} // verus!
