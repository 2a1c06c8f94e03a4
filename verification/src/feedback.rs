//! Honestly computed feedback and the laws the engine satisfies under it:
//! the true secret always survives a filtering pass, a wrong guess never
//! does, re-applying a pass changes nothing, and narrowing is strict.

use crate::counting::cnt_ch;
use crate::counting::count_ch;
use crate::counting::lemma_cnt_bounds;
use crate::counting::lemma_cnt_pos;
use crate::counting::lemma_cnt_pos_witness;
use crate::dictionary::green_bucket;
use crate::dictionary::lemma_contains_push;
use crate::engine::elsewhere;
use crate::engine::pass_keeps;
use crate::engine::phase1_keeps;
use crate::engine::phase2_culls;
use crate::engine::phase2_keep_of;
use crate::engine::phase2_keeps;
use crate::engine::pos_keeps;
use crate::freq::black_seen;
use crate::freq::nb_cnt;
use crate::freq::nb_total;
use crate::freq::spec_high;
use crate::freq::spec_high_raw;
use crate::freq::spec_low;
use crate::hint::Hint;
use vstd::prelude::*;
use vstd::seq_lib::*;
use vstd::set_lib::lemma_len_subset;

verus! {

broadcast use vstd::set::group_set_axioms;

/// The smaller of two integers.
pub open spec fn min2(a: int, b: int) -> int {
    if a <= b {
        a
    } else {
        b
    }
}

/// Among the first `n` positions, how many hold letter `c` of the guess
/// confirmed in place by the secret.
pub open spec fn greens_cnt(g: Seq<char>, s: Seq<char>, c: char, n: int) -> int
    decreases n,
{
    if n <= 0 {
        0
    } else {
        greens_cnt(g, s, c, n - 1) + if g[n - 1] == c && s[n - 1] == g[n - 1] {
            1int
        } else {
            0int
        }
    }
}

/// Among the first `n` positions, how many hold letter `c` of the guess not
/// confirmed in place.
pub open spec fn nongreen_cnt(g: Seq<char>, s: Seq<char>, c: char, n: int) -> int {
    cnt_ch(g, c, n) - greens_cnt(g, s, c, n)
}

/// How many yellow hints letter `c` can earn: its occurrences in the secret
/// not already confirmed in place, capped by its occurrences in the guess.
pub open spec fn yellow_quota(g: Seq<char>, s: Seq<char>, c: char) -> int {
    min2(cnt_ch(g, c, 5), cnt_ch(s, c, 5)) - greens_cnt(g, s, c, 5)
}

/// The feedback symbol position `p` earns when the secret is `s`: green in
/// place, else yellow for the earliest unconfirmed occurrences up to the
/// quota, else black.
pub open spec fn honest_hint(s: Seq<char>, g: Seq<char>, p: int) -> Hint {
    if g[p] == s[p] {
        Hint::Green
    } else if nongreen_cnt(g, s, g[p], p) < yellow_quota(g, s, g[p]) {
        Hint::Yellow
    } else {
        Hint::Black
    }
}

/// The feedback sequence computed correctly against secret `s`.
pub open spec fn honest_feedback(s: Seq<char>, g: Seq<char>) -> Seq<Hint> {
    Seq::new(5, |p: int| honest_hint(s, g, p))
}

proof fn lemma_greens_bounds(g: Seq<char>, s: Seq<char>, c: char, n: int)
    requires
        n >= 0,
    ensures
        0 <= greens_cnt(g, s, c, n) <= cnt_ch(g, c, n),
        greens_cnt(g, s, c, n) <= cnt_ch(s, c, n),
    decreases n,
{
    if n > 0 {
        lemma_greens_bounds(g, s, c, n - 1);
    }
}

proof fn lemma_ng_mono(g: Seq<char>, s: Seq<char>, c: char, n1: int, n2: int)
    requires
        0 <= n1 <= n2,
    ensures
        nongreen_cnt(g, s, c, n1) <= nongreen_cnt(g, s, c, n2),
    decreases n2,
{
    if n1 < n2 {
        lemma_ng_mono(g, s, c, n1, n2 - 1);
    }
}

/// The non-black hints on letter `c` count its confirmed occurrences: the
/// greens plus the yellows granted so far.
proof fn lemma_nb_honest(s: Seq<char>, g: Seq<char>, c: char, n: int)
    requires
        s.len() == 5,
        g.len() == 5,
        0 <= n <= 5,
    ensures
        nb_cnt(g, honest_feedback(s, g), c, n) == greens_cnt(g, s, c, n) + min2(
            nongreen_cnt(g, s, c, n),
            yellow_quota(g, s, c),
        ),
    decreases n,
{
    lemma_greens_bounds(g, s, c, 5);
    if n == 0 {
    } else {
        lemma_nb_honest(s, g, c, n - 1);
        let h = honest_feedback(s, g);
        assert(h[n - 1] == honest_hint(s, g, n - 1));
        lemma_ng_mono(g, s, c, 0, n - 1);
    }
}

/// Over the whole guess, the non-black hints on `c` number exactly the
/// smaller of its guess count and its secret count.
proof fn lemma_nb_honest_total(s: Seq<char>, g: Seq<char>, c: char)
    requires
        s.len() == 5,
        g.len() == 5,
    ensures
        nb_cnt(g, honest_feedback(s, g), c, 5) == min2(cnt_ch(g, c, 5), cnt_ch(s, c, 5)),
{
    lemma_nb_honest(s, g, c, 5);
    lemma_greens_bounds(g, s, c, 5);
}

proof fn lemma_noblack_nb(g: Seq<char>, h: Seq<Hint>, c: char, n: int)
    requires
        n >= 0,
        !black_seen(g, h, c, n),
    ensures
        nb_cnt(g, h, c, n) == cnt_ch(g, c, n),
    decreases n,
{
    if n > 0 {
        lemma_noblack_nb(g, h, c, n - 1);
    }
}

proof fn lemma_black_witness(g: Seq<char>, h: Seq<Hint>, c: char, n: int)
    requires
        n >= 0,
        black_seen(g, h, c, n),
    ensures
        exists|p: int| 0 <= p < n && g[p] == c && #[trigger] h[p] == Hint::Black,
    decreases n,
{
    if n > 0 {
        if black_seen(g, h, c, n - 1) {
            lemma_black_witness(g, h, c, n - 1);
            let p = choose|p: int| 0 <= p < n - 1 && g[p] == c && #[trigger] h[p] == Hint::Black;
            assert(0 <= p < n && g[p] == c && h[p] == Hint::Black);
        } else {
            assert(0 <= n - 1 < n && g[n - 1] == c && h[n - 1] == Hint::Black);
        }
    }
}

proof fn lemma_black_intro(g: Seq<char>, h: Seq<Hint>, c: char, p: int, n: int)
    requires
        0 <= p < n,
        g[p] == c,
        h[p] == Hint::Black,
    ensures
        black_seen(g, h, c, n),
    decreases n,
{
    if p < n - 1 {
        lemma_black_intro(g, h, c, p, n - 1);
    }
}

/// A black hint falls on letter `c` exactly when the guess holds more of it
/// than the secret does.
proof fn lemma_black_honest(s: Seq<char>, g: Seq<char>, c: char)
    requires
        s.len() == 5,
        g.len() == 5,
    ensures
        black_seen(g, honest_feedback(s, g), c, 5) <==> cnt_ch(g, c, 5) > cnt_ch(s, c, 5),
{
    let h = honest_feedback(s, g);
    let cg = cnt_ch(g, c, 5);
    let cs = cnt_ch(s, c, 5);
    lemma_nb_honest_total(s, g, c);
    lemma_greens_bounds(g, s, c, 5);
    if cg > cs && !black_seen(g, h, c, 5) {
        lemma_noblack_nb(g, h, c, 5);
        assert(false);
    }
    if black_seen(g, h, c, 5) {
        lemma_black_witness(g, h, c, 5);
        let p = choose|p: int| 0 <= p < 5 && g[p] == c && #[trigger] h[p] == Hint::Black;
        assert(h[p] == honest_hint(s, g, p));
        assert(s[p] != g[p]);
        assert(nongreen_cnt(g, s, c, p) >= yellow_quota(g, s, c));
        if cg <= cs {
            assert(yellow_quota(g, s, c) == cg - greens_cnt(g, s, c, 5));
            assert(nongreen_cnt(g, s, c, 5) == cg - greens_cnt(g, s, c, 5));
            assert(nongreen_cnt(g, s, c, p + 1) == nongreen_cnt(g, s, c, p) + 1);
            lemma_ng_mono(g, s, c, p + 1, 5);
            assert(false);
        }
    }
}

// ------------------------------------------------------------------
// Sums over the distinct letters of the guess, for the tightening cap.
// ------------------------------------------------------------------

spec fn distinct_chars(g: Seq<char>, n: int) -> Seq<char>
    decreases n,
{
    if n <= 0 {
        Seq::empty()
    } else {
        let r = distinct_chars(g, n - 1);
        if r.contains(g[n - 1]) {
            r
        } else {
            r.push(g[n - 1])
        }
    }
}

proof fn lemma_dc_props(g: Seq<char>, n: int)
    requires
        n >= 0,
    ensures
        distinct_chars(g, n).no_duplicates(),
        forall|x: char| #[trigger]
            distinct_chars(g, n).contains(x) <==> (exists|p: int| 0 <= p < n && g[p] == x),
    decreases n,
{
    if n > 0 {
        lemma_dc_props(g, n - 1);
        let r = distinct_chars(g, n - 1);
        let r2 = distinct_chars(g, n);
        if r.contains(g[n - 1]) {
            assert forall|x: char| #[trigger] r2.contains(x) <==> (exists|p: int|
                0 <= p < n && g[p] == x) by {
                if r2.contains(x) {
                    let p = choose|p: int| 0 <= p < n - 1 && g[p] == x;
                    assert(0 <= p < n && g[p] == x);
                }
                if exists|p: int| 0 <= p < n && g[p] == x {
                    let p = choose|p: int| 0 <= p < n && g[p] == x;
                    if p < n - 1 {
                        assert(r.contains(x));
                    } else {
                        assert(x == g[n - 1]);
                    }
                }
            }
        } else {
            lemma_contains_push(r, g[n - 1]);
            assert forall|k1: int, k2: int|
                0 <= k1 < r2.len() && 0 <= k2 < r2.len() && k1 != k2 implies r2[k1] != r2[k2] by {
                if k1 < r.len() && k2 < r.len() {
                    assert(r2[k1] == r[k1]);
                    assert(r2[k2] == r[k2]);
                } else if k1 < r.len() {
                    assert(r2[k2] == g[n - 1]);
                    if r2[k1] == r2[k2] {
                        assert(r.contains(r[k1]));
                        assert(false);
                    }
                } else {
                    assert(r2[k1] == g[n - 1]);
                    if r2[k1] == r2[k2] {
                        assert(r.contains(r[k2]));
                        assert(false);
                    }
                }
            }
            assert forall|x: char| #[trigger] r2.contains(x) <==> (exists|p: int|
                0 <= p < n && g[p] == x) by {
                if r2.contains(x) {
                    if r.contains(x) {
                        let p = choose|p: int| 0 <= p < n - 1 && g[p] == x;
                        assert(0 <= p < n && g[p] == x);
                    } else {
                        assert(x == g[n - 1]);
                        assert(0 <= n - 1 < n && g[n - 1] == x);
                    }
                }
                if exists|p: int| 0 <= p < n && g[p] == x {
                    let p = choose|p: int| 0 <= p < n && g[p] == x;
                    if p < n - 1 {
                        assert(r.contains(x));
                    } else {
                        assert(x == g[n - 1]);
                    }
                }
            }
        }
    }
}

/// A sequence without duplicates counts any letter at most once, exactly
/// once when it holds it.
proof fn lemma_cnt_nodup(ks: Seq<char>, x: char, m: int)
    requires
        ks.no_duplicates(),
        0 <= m <= ks.len(),
    ensures
        cnt_ch(ks, x, m) <= 1,
        cnt_ch(ks, x, m) == 1 <==> (exists|i: int| 0 <= i < m && ks[i] == x),
    decreases m,
{
    if m > 0 {
        lemma_cnt_nodup(ks, x, m - 1);
        lemma_cnt_bounds(ks, x, m - 1);
        if ks[m - 1] == x {
            if exists|i: int| 0 <= i < m - 1 && ks[i] == x {
                let i = choose|i: int| 0 <= i < m - 1 && ks[i] == x;
                assert(ks[i] == ks[m - 1]);
                assert(false);
            }
            assert(0 <= m - 1 < m && ks[m - 1] == x);
        } else {
            if exists|i: int| 0 <= i < m && ks[i] == x {
                let i = choose|i: int| 0 <= i < m && ks[i] == x;
                assert(0 <= i < m - 1 && ks[i] == x);
            }
        }
    }
}

spec fn sum_cs(ks: Seq<char>, s: Seq<char>, n: int, m: int) -> int
    decreases m,
{
    if m <= 0 {
        0
    } else {
        sum_cs(ks, s, n, m - 1) + cnt_ch(s, ks[m - 1], n)
    }
}

proof fn lemma_sum_cs_step(ks: Seq<char>, s: Seq<char>, n: int, m: int)
    requires
        n >= 0,
        m >= 0,
    ensures
        sum_cs(ks, s, n + 1, m) == sum_cs(ks, s, n, m) + cnt_ch(ks, s[n], m),
    decreases m,
{
    if m > 0 {
        lemma_sum_cs_step(ks, s, n, m - 1);
    }
}

proof fn lemma_sum_cs_zero(ks: Seq<char>, s: Seq<char>, m: int)
    ensures
        sum_cs(ks, s, 0, m) == 0,
    decreases m,
{
    if m > 0 {
        lemma_sum_cs_zero(ks, s, m - 1);
    }
}

proof fn lemma_sum_cs_bound(ks: Seq<char>, s: Seq<char>, n: int, m: int)
    requires
        ks.no_duplicates(),
        0 <= m <= ks.len(),
        n >= 0,
    ensures
        sum_cs(ks, s, n, m) <= n,
    decreases n,
{
    if n == 0 {
        lemma_sum_cs_zero(ks, s, m);
    } else {
        lemma_sum_cs_bound(ks, s, n - 1, m);
        lemma_sum_cs_step(ks, s, n - 1, m);
        lemma_cnt_nodup(ks, s[n - 1], m);
    }
}

spec fn sum_nb(ks: Seq<char>, g: Seq<char>, h: Seq<Hint>, n: int, m: int) -> int
    decreases m,
{
    if m <= 0 {
        0
    } else {
        sum_nb(ks, g, h, n, m - 1) + nb_cnt(g, h, ks[m - 1], n)
    }
}

proof fn lemma_sum_nb_step(ks: Seq<char>, g: Seq<char>, h: Seq<Hint>, n: int, m: int)
    requires
        n >= 0,
        m >= 0,
    ensures
        sum_nb(ks, g, h, n + 1, m) == sum_nb(ks, g, h, n, m) + (if h[n] != Hint::Black {
            cnt_ch(ks, g[n], m)
        } else {
            0int
        }),
    decreases m,
{
    if m > 0 {
        lemma_sum_nb_step(ks, g, h, n, m - 1);
    }
}

proof fn lemma_sum_nb_zero(ks: Seq<char>, g: Seq<char>, h: Seq<Hint>, m: int)
    ensures
        sum_nb(ks, g, h, 0, m) == 0,
    decreases m,
{
    if m > 0 {
        lemma_sum_nb_zero(ks, g, h, m - 1);
    }
}

/// Summed over all distinct letters of the guess, the non-black counts give
/// the total number of non-black hints.
proof fn lemma_sum_nb_total(ks: Seq<char>, g: Seq<char>, h: Seq<Hint>, n: int)
    requires
        ks.no_duplicates(),
        0 <= n,
        forall|p: int| 0 <= p < n ==> #[trigger] ks.contains(g[p]),
    ensures
        sum_nb(ks, g, h, n, ks.len() as int) == nb_total(h, n),
    decreases n,
{
    if n == 0 {
        lemma_sum_nb_zero(ks, g, h, ks.len() as int);
    } else {
        lemma_sum_nb_total(ks, g, h, n - 1);
        lemma_sum_nb_step(ks, g, h, n - 1, ks.len() as int);
        assert(ks.contains(g[n - 1]));
        let i = choose|i: int| 0 <= i < ks.len() && ks[i] == g[n - 1];
        lemma_cnt_nodup(ks, g[n - 1], ks.len() as int);
        assert(cnt_ch(ks, g[n - 1], ks.len() as int) == 1);
    }
}

spec fn sum_nb_x(ks: Seq<char>, g: Seq<char>, h: Seq<Hint>, c: char, m: int) -> int
    decreases m,
{
    if m <= 0 {
        0
    } else {
        sum_nb_x(ks, g, h, c, m - 1) + if ks[m - 1] == c {
            0int
        } else {
            nb_cnt(g, h, ks[m - 1], 5)
        }
    }
}

spec fn sum_cs_x(ks: Seq<char>, s: Seq<char>, c: char, m: int) -> int
    decreases m,
{
    if m <= 0 {
        0
    } else {
        sum_cs_x(ks, s, c, m - 1) + if ks[m - 1] == c {
            0int
        } else {
            cnt_ch(s, ks[m - 1], 5)
        }
    }
}

proof fn lemma_split_nb(ks: Seq<char>, g: Seq<char>, h: Seq<Hint>, c: char, m: int)
    requires
        ks.no_duplicates(),
        0 <= m <= ks.len(),
    ensures
        sum_nb(ks, g, h, 5, m) == sum_nb_x(ks, g, h, c, m) + (if exists|i: int|
            0 <= i < m && ks[i] == c {
            nb_cnt(g, h, c, 5)
        } else {
            0int
        }),
    decreases m,
{
    if m > 0 {
        lemma_split_nb(ks, g, h, c, m - 1);
        if ks[m - 1] == c {
            if exists|i: int| 0 <= i < m - 1 && ks[i] == c {
                let i = choose|i: int| 0 <= i < m - 1 && ks[i] == c;
                assert(ks[i] == ks[m - 1]);
                assert(false);
            }
            assert(0 <= m - 1 < m && ks[m - 1] == c);
        } else {
            if exists|i: int| 0 <= i < m && ks[i] == c {
                let i = choose|i: int| 0 <= i < m && ks[i] == c;
                assert(0 <= i < m - 1 && ks[i] == c);
            }
        }
    }
}

proof fn lemma_split_cs(ks: Seq<char>, s: Seq<char>, c: char, m: int)
    requires
        ks.no_duplicates(),
        0 <= m <= ks.len(),
    ensures
        sum_cs(ks, s, 5, m) == sum_cs_x(ks, s, c, m) + (if exists|i: int| 0 <= i < m && ks[i] == c {
            cnt_ch(s, c, 5)
        } else {
            0int
        }),
    decreases m,
{
    if m > 0 {
        lemma_split_cs(ks, s, c, m - 1);
        if ks[m - 1] == c {
            if exists|i: int| 0 <= i < m - 1 && ks[i] == c {
                let i = choose|i: int| 0 <= i < m - 1 && ks[i] == c;
                assert(ks[i] == ks[m - 1]);
                assert(false);
            }
            assert(0 <= m - 1 < m && ks[m - 1] == c);
        } else {
            if exists|i: int| 0 <= i < m && ks[i] == c {
                let i = choose|i: int| 0 <= i < m && ks[i] == c;
                assert(0 <= i < m - 1 && ks[i] == c);
            }
        }
    }
}

proof fn lemma_sum_x_le(ks: Seq<char>, s: Seq<char>, g: Seq<char>, c: char, m: int)
    requires
        s.len() == 5,
        g.len() == 5,
        0 <= m,
    ensures
        sum_nb_x(ks, g, honest_feedback(s, g), c, m) <= sum_cs_x(ks, s, c, m),
    decreases m,
{
    if m > 0 {
        lemma_sum_x_le(ks, s, g, c, m - 1);
        lemma_nb_honest_total(s, g, ks[m - 1]);
    }
}

/// The tightening cap never cuts below the secret's true count: the secret's
/// other letters cannot outnumber the five positions.
proof fn lemma_cap_honest(s: Seq<char>, g: Seq<char>, c: char)
    requires
        s.len() == 5,
        g.len() == 5,
        cnt_ch(g, c, 5) >= 1,
    ensures
        cnt_ch(s, c, 5) <= 5 - (nb_total(honest_feedback(s, g), 5) - nb_cnt(
            g,
            honest_feedback(s, g),
            c,
            5,
        )),
{
    let h = honest_feedback(s, g);
    let ks = distinct_chars(g, 5);
    lemma_dc_props(g, 5);
    lemma_cnt_pos_witness(g, c, 5);
    assert(ks.contains(c));
    let i0 = choose|i: int| 0 <= i < ks.len() && ks[i] == c;
    assert forall|p: int| 0 <= p < 5 implies #[trigger] ks.contains(g[p]) by {
        assert(0 <= p < 5 && g[p] == g[p]);
    }
    lemma_sum_nb_total(ks, g, h, 5);
    lemma_split_nb(ks, g, h, c, ks.len() as int);
    lemma_sum_x_le(ks, s, g, c, ks.len() as int);
    lemma_split_cs(ks, s, c, ks.len() as int);
    lemma_sum_cs_bound(ks, s, 5, ks.len() as int);
}

/// Under honest feedback the secret's true count of every guess letter lies
/// inside that letter's inferred bound.
proof fn lemma_bounds_honest(s: Seq<char>, g: Seq<char>, c: char)
    requires
        s.len() == 5,
        g.len() == 5,
        cnt_ch(g, c, 5) >= 1,
    ensures
        spec_low(g, honest_feedback(s, g), c) <= cnt_ch(s, c, 5),
        cnt_ch(s, c, 5) <= spec_high(g, honest_feedback(s, g), c),
{
    let h = honest_feedback(s, g);
    lemma_nb_honest_total(s, g, c);
    lemma_black_honest(s, g, c);
    lemma_cnt_bounds(s, c, 5);
    lemma_cap_honest(s, g, c);
}

/// The true secret survives one whole filtering pass: with feedback computed
/// correctly against it, neither the positional phase nor the frequency
/// phase can eliminate it.
pub proof fn lemma_secret_survives(
    gsrc: Seq<Seq<char>>,
    fsrc: Seq<Seq<char>>,
    s: Seq<char>,
    g: Seq<char>,
    h: Seq<Hint>,
)
    requires
        s.len() == 5,
        g.len() == 5,
        gsrc.contains(s),
        fsrc.contains(s),
        h == honest_feedback(s, g),
    ensures
        pass_keeps(gsrc, fsrc, g, h, s),
{
    assert forall|p: int| 0 <= p < 5 implies #[trigger] pos_keeps(gsrc, g, h, p, s) by {
        assert(h[p] == honest_hint(s, g, p));
        let c = g[p];
        match h[p] {
            Hint::Green => {
                assert(s[p] == g[p]);
                assert(green_bucket(gsrc, p as usize, c, s));
            },
            Hint::Yellow => {
                assert(s[p] != g[p]);
                lemma_greens_bounds(g, s, c, 5);
                lemma_greens_bounds(g, s, c, p);
                assert(cnt_ch(s, c, 5) >= 1);
                lemma_cnt_pos_witness(s, c, 5);
                let q = choose|q: int| 0 <= q < 5 && s[q] == c;
                assert(q != p);
                assert(0 <= q < 5 && q != p && s[q] == c);
                assert(elsewhere(gsrc, p, c, s));
                assert(!green_bucket(gsrc, p as usize, c, s));
            },
            Hint::Black => {},
        }
    }
    assert(phase1_keeps(gsrc, g, h, s));
    if phase2_culls(fsrc, g, h, s) {
        let c = choose|c: char|
            (#[trigger] cnt_ch(g, c, 5)) >= 1 && fsrc.contains(s) && 1 <= count_ch(s, c) <= 5 && (
            count_ch(s, c) < spec_low(g, h, c) || count_ch(s, c) > spec_high(g, h, c));
        lemma_bounds_honest(s, g, c);
        assert(false);
    }
    if exists|w2: Seq<char>| #[trigger] phase2_keep_of(fsrc, g, h, w2) {
        let w2 = choose|w2: Seq<char>| #[trigger] phase2_keep_of(fsrc, g, h, w2);
        let c = choose|c: char|
            (#[trigger] cnt_ch(g, c, 5)) >= 1 && fsrc.contains(w2) && 1 <= count_ch(w2, c) <= 5
                && spec_low(g, h, c) <= count_ch(w2, c) <= spec_high(g, h, c);
        lemma_nb_honest_total(s, g, c);
        lemma_black_honest(s, g, c);
        if cnt_ch(s, c, 5) == 0 {
            assert(black_seen(g, h, c, 5));
            assert(spec_high_raw(g, h, c) == 0);
            assert(spec_high(g, h, c) <= 0);
            assert(count_ch(w2, c) >= 1);
            assert(false);
        }
        lemma_bounds_honest(s, g, c);
        lemma_cnt_bounds(s, c, 5);
        assert(1 <= count_ch(s, c) <= 5);
        assert(phase2_keep_of(fsrc, g, h, s));
    }
    assert(phase2_keeps(fsrc, g, h, s));
}

/// A wrong guess never survives its own filtering pass: some position
/// differs from the secret, and its yellow or black hint removes the guess
/// in the positional or the frequency phase.
pub proof fn lemma_guess_eliminated(
    gsrc: Seq<Seq<char>>,
    fsrc: Seq<Seq<char>>,
    s: Seq<char>,
    g: Seq<char>,
    h: Seq<Hint>,
)
    requires
        s.len() == 5,
        g.len() == 5,
        gsrc.contains(g),
        fsrc.contains(g),
        g != s,
        h == honest_feedback(s, g),
    ensures
        !pass_keeps(gsrc, fsrc, g, h, g),
{
    if forall|p: int| 0 <= p < 5 ==> g[p] == #[trigger] s[p] {
        assert(g =~= s);
        assert(false);
    }
    let p = choose|p: int| 0 <= p < 5 && g[p] != #[trigger] s[p];
    assert(h[p] == honest_hint(s, g, p));
    let c = g[p];
    match h[p] {
        Hint::Green => {
            assert(false);
        },
        Hint::Yellow => {
            assert(green_bucket(gsrc, p as usize, c, g));
            assert(!pos_keeps(gsrc, g, h, p, g));
            assert(!phase1_keeps(gsrc, g, h, g));
        },
        Hint::Black => {
            lemma_black_intro(g, h, c, p, 5);
            lemma_black_honest(s, g, c);
            lemma_nb_honest_total(s, g, c);
            lemma_cnt_pos(g, c, p, 5);
            lemma_cnt_bounds(g, c, 5);
            assert(spec_high_raw(g, h, c) == cnt_ch(s, c, 5));
            assert(spec_high(g, h, c) <= cnt_ch(s, c, 5));
            assert(count_ch(g, c) == cnt_ch(g, c, 5));
            assert(count_ch(g, c) > spec_high(g, h, c));
            assert(phase2_culls(fsrc, g, h, g));
            assert(!phase2_keeps(fsrc, g, h, g));
        },
    }
}

/// Re-applying the same guess and feedback to an already-filtered vocabulary
/// yields an identical set: a pass keeps a word by a test that does not
/// depend on the vocabulary itself.
pub proof fn lemma_pass_idempotent(
    before: Seq<Seq<char>>,
    once: Seq<Seq<char>>,
    twice: Seq<Seq<char>>,
    gsrc: Seq<Seq<char>>,
    fsrc: Seq<Seq<char>>,
    g: Seq<char>,
    h: Seq<Hint>,
)
    requires
        forall|w: Seq<char>| #[trigger]
            once.contains(w) <==> (before.contains(w) && pass_keeps(gsrc, fsrc, g, h, w)),
        forall|w: Seq<char>| #[trigger]
            twice.contains(w) <==> (once.contains(w) && pass_keeps(gsrc, fsrc, g, h, w)),
    ensures
        twice.to_set() == once.to_set(),
{
    assert(twice.to_set() =~= once.to_set()) by {
        assert forall|w: Seq<char>| #[trigger] twice.contains(w) <==> once.contains(w) by {}
    }
}

/// A filtering pass that loses one word and gains none strictly shrinks a
/// duplicate-free vocabulary.
pub proof fn lemma_strict_narrowing(before: Seq<Seq<char>>, after: Seq<Seq<char>>, x: Seq<char>)
    requires
        before.no_duplicates(),
        after.no_duplicates(),
        forall|w: Seq<char>| #[trigger] after.contains(w) ==> before.contains(w),
        before.contains(x),
        !after.contains(x),
    ensures
        after.len() < before.len(),
{
    after.unique_seq_to_set();
    before.unique_seq_to_set();
    let b2 = before.to_set().remove(x);
    assert(after.to_set().subset_of(b2));
    lemma_len_subset(after.to_set(), b2);
    assert(before.to_set().contains(x));
    assert(b2.len() == before.to_set().len() - 1);
}

} // verus!
