//! Per-letter occurrence bounds inferred from one round of feedback: the
//! mutable bound pair, the per-letter table, and the fold that builds the
//! table from a guess and its hints.

use crate::counting::cnt_ch;
use crate::counting::lemma_cnt_bounds;
use crate::counting::lemma_cnt_pos;
use crate::dictionary::str_to_word;
use crate::hint::Hint;
use vstd::prelude::*;

verus! {

/// Among the first `n` positions, how many hold letter `c` of the guess with
/// a non-black hint.
pub open spec fn nb_cnt(g: Seq<char>, h: Seq<Hint>, c: char, n: int) -> int
    decreases n,
{
    if n <= 0 {
        0
    } else {
        nb_cnt(g, h, c, n - 1) + if g[n - 1] == c && h[n - 1] != Hint::Black {
            1int
        } else {
            0int
        }
    }
}

/// Whether some position among the first `n` holds letter `c` of the guess
/// with a black hint.
pub open spec fn black_seen(g: Seq<char>, h: Seq<Hint>, c: char, n: int) -> bool
    decreases n,
{
    if n <= 0 {
        false
    } else {
        black_seen(g, h, c, n - 1) || (g[n - 1] == c && h[n - 1] == Hint::Black)
    }
}

/// Among the first `n` positions, how many hold a non-black hint.
pub open spec fn nb_total(h: Seq<Hint>, n: int) -> int
    decreases n,
{
    if n <= 0 {
        0
    } else {
        nb_total(h, n - 1) + if h[n - 1] == Hint::Black {
            0int
        } else {
            1int
        }
    }
}

/// The inferred lower bound of a letter's occurrence count in the secret.
pub open spec fn spec_low(g: Seq<char>, h: Seq<Hint>, c: char) -> int {
    nb_cnt(g, h, c, 5)
}

/// The upper bound before the global tightening pass.
pub open spec fn spec_high_raw(g: Seq<char>, h: Seq<Hint>, c: char) -> int {
    if black_seen(g, h, c, 5) {
        nb_cnt(g, h, c, 5)
    } else {
        5
    }
}

/// The upper bound after the global tightening pass: the total letters in
/// the secret cannot exceed five, so confirmed occurrences of the other
/// letters cap this letter's maximum.
pub open spec fn spec_high(g: Seq<char>, h: Seq<Hint>, c: char) -> int {
    let cap = 5 - (nb_total(h, 5) - nb_cnt(g, h, c, 5));
    if spec_high_raw(g, h, c) <= cap {
        spec_high_raw(g, h, c)
    } else {
        cap
    }
}

pub proof fn lemma_nb_le_cnt(g: Seq<char>, h: Seq<Hint>, c: char, n: int)
    requires
        n >= 0,
    ensures
        0 <= nb_cnt(g, h, c, n) <= cnt_ch(g, c, n),
    decreases n,
{
    if n > 0 {
        lemma_nb_le_cnt(g, h, c, n - 1);
    }
}

pub proof fn lemma_black_seen_cnt(g: Seq<char>, h: Seq<Hint>, c: char, n: int)
    requires
        n >= 0,
        black_seen(g, h, c, n),
    ensures
        cnt_ch(g, c, n) >= 1,
    decreases n,
{
    if n > 0 {
        lemma_cnt_bounds(g, c, n - 1);
        if black_seen(g, h, c, n - 1) {
            lemma_black_seen_cnt(g, h, c, n - 1);
        }
    }
}

pub proof fn lemma_nb_total_bounds(h: Seq<Hint>, n: int)
    requires
        n >= 0,
    ensures
        0 <= nb_total(h, n) <= n,
    decreases n,
{
    if n > 0 {
        lemma_nb_total_bounds(h, n - 1);
    }
}

/// Holds character frequency information: the inclusive range of how many
/// of the character could be in the word, based on the hints seen so far.
/// The first hint is fed to `new` and the rest to `update`.
#[derive(Clone, Copy, Debug, PartialEq, Eq, Structural)]
pub struct FreqInfo(pub usize, pub usize);

impl FreqInfo {
    /// Creates a new bound from an initial hint: black means none, any other
    /// hint means at least one and at most the word length.
    pub fn new(hint: &Hint) -> (r: FreqInfo)
        ensures
            *hint == Hint::Black ==> r == (FreqInfo(0, 0)),
            *hint != Hint::Black ==> r == (FreqInfo(1, 5)),
    {
        if *hint == Hint::Black {
            FreqInfo(0, 0)
        } else {
            FreqInfo(1, 5)
        }
    }

    /// Folds one more hint for the same letter into the bound: black caps
    /// the maximum at what is already confirmed, any other hint confirms one
    /// more occurrence.
    pub fn update(&mut self, hint: &Hint)
        requires
            old(self).0 < usize::MAX,
        ensures
            *hint == Hint::Black ==> final(self).0 == old(self).0 && final(self).1 == old(self).0,
            *hint != Hint::Black ==> final(self).0 == old(self).0 + 1 && final(self).1 == (if old(
                self,
            ).0 + 1 >= old(self).1 {
                old(self).0 + 1
            } else {
                old(self).1 as int
            }),
    {
        match hint {
            Hint::Black => self.1 = self.0,
            Hint::Yellow | Hint::Green => {
                self.0 = self.0 + 1;
                if self.0 > self.1 {
                    self.1 = self.0;
                }
            },
        }
    }
}

/// Whether the table holds an entry for `c`.
pub open spec fn ft_has(entries: Seq<(char, FreqInfo)>, c: char) -> bool {
    exists|k: int| 0 <= k < entries.len() && (#[trigger] entries[k]).0 == c
}

pub open spec fn ft_index(entries: Seq<(char, FreqInfo)>, c: char) -> int {
    choose|k: int| 0 <= k < entries.len() && (#[trigger] entries[k]).0 == c
}

/// The bound filed for `c`.
pub open spec fn ft_at(entries: Seq<(char, FreqInfo)>, c: char) -> FreqInfo {
    entries[ft_index(entries, c)].1
}

/// No letter occurs twice.
pub open spec fn ft_unique(entries: Seq<(char, FreqInfo)>) -> bool {
    forall|k1: int, k2: int|
        0 <= k1 < entries.len() && 0 <= k2 < entries.len() && k1 != k2 ==> (
        #[trigger] entries[k1]).0 != (#[trigger] entries[k2]).0
}

proof fn lemma_ft_at(entries: Seq<(char, FreqInfo)>, k: int)
    requires
        ft_unique(entries),
        0 <= k < entries.len(),
    ensures
        ft_has(entries, entries[k].0),
        ft_at(entries, entries[k].0) == entries[k].1,
{
    let c = entries[k].0;
    assert(ft_has(entries, c));
    let k2 = ft_index(entries, c);
    assert(0 <= k2 < entries.len() && entries[k2].0 == c);
    if k2 != k {
        assert(false);
    }
}

/// A per-letter table of inferred occurrence bounds, rebuilt from each
/// round's guess and feedback.
#[derive(Debug)]
pub struct FreqTable {
    entries: Vec<(char, FreqInfo)>,
}

impl FreqTable {
    /// Whether the table holds an entry for `c`.
    pub closed spec fn has_char(&self, c: char) -> bool {
        ft_has(self.entries@, c)
    }

    /// The bound filed for `c`.
    pub closed spec fn at(&self, c: char) -> FreqInfo {
        ft_at(self.entries@, c)
    }

    /// No letter occurs twice.
    pub closed spec fn wf(&self) -> bool {
        ft_unique(self.entries@)
    }

    /// The (letter, bound) pairs the table files, in file order.
    pub closed spec fn pairs(&self) -> Seq<(char, FreqInfo)> {
        self.entries@
    }

    /// How many letters are filed.
    pub fn count(&self) -> (n: usize)
        ensures
            n == self.pairs().len(),
    {
        self.entries.len()
    }

    /// The pair filed at one position.
    pub fn entry_at(&self, k: usize) -> (e: (char, FreqInfo))
        requires
            k < self.pairs().len(),
        ensures
            e == self.pairs()[k as int],
    {
        (self.entries[k].0, self.entries[k].1)
    }

    /// Each filed pair is what the table answers for its letter.
    pub proof fn lemma_pairs_entry(&self, k: int)
        requires
            self.wf(),
            0 <= k < self.pairs().len(),
        ensures
            self.has_char(self.pairs()[k].0),
            self.at(self.pairs()[k].0) == self.pairs()[k].1,
    {
        lemma_ft_at(self.entries@, k);
    }

    /// Each filed letter appears among the pairs.
    pub proof fn lemma_pairs_complete(&self, c: char)
        requires
            self.has_char(c),
        ensures
            exists|k: int| 0 <= k < self.pairs().len() && (#[trigger] self.pairs()[k]).0 == c,
    {
        let k = choose|k: int| 0 <= k < self.entries@.len() && (#[trigger] self.entries@[k]).0 == c;
        assert(0 <= k < self.pairs().len() && self.pairs()[k].0 == c);
    }

    /// An empty table.
    pub fn new() -> (t: FreqTable)
        ensures
            t.wf(),
            forall|c: char| !(#[trigger] t.has_char(c)),
    {
        FreqTable { entries: Vec::new() }
    }

    /// Files `info` under `c`, replacing any earlier entry.
    pub fn insert(&mut self, c: char, info: FreqInfo)
        requires
            old(self).wf(),
        ensures
            final(self).wf(),
            forall|c2: char| #[trigger]
                final(self).has_char(c2) <==> (old(self).has_char(c2) || c2 == c),
            final(self).at(c) == info,
            forall|c2: char|
                c2 != c && old(self).has_char(c2) ==> #[trigger] final(self).at(c2) == old(
                    self,
                ).at(c2),
    {
        let ghost orig = self.entries@;
        let mut k: usize = 0;
        while k < self.entries.len()
            invariant
                self.entries@ == orig,
                orig == old(self).entries@,
                ft_unique(orig),
                k <= orig.len(),
                forall|j: int| 0 <= j < k ==> (#[trigger] orig[j]).0 != c,
            decreases orig.len() - k,
        {
            if self.entries[k].0 == c {
                self.entries[k] = (c, info);
                proof {
                    let fin = self.entries@;
                    assert(fin == orig.update(k as int, (c, info)));
                    assert forall|k1: int, k2: int|
                        0 <= k1 < fin.len() && 0 <= k2 < fin.len() && k1 != k2 implies (
                    #[trigger] fin[k1]).0 != (#[trigger] fin[k2]).0 by {
                        assert(fin[k1].0 == orig[k1].0);
                        assert(fin[k2].0 == orig[k2].0);
                    }
                    lemma_ft_at(fin, k as int);
                    assert forall|c2: char| #[trigger]
                        ft_has(fin, c2) <==> (ft_has(orig, c2) || c2 == c) by {
                        if ft_has(fin, c2) {
                            let j = choose|j: int|
                                0 <= j < fin.len() && (#[trigger] fin[j]).0 == c2;
                            assert(orig[j].0 == c2);
                        }
                        if ft_has(orig, c2) {
                            let j = choose|j: int|
                                0 <= j < orig.len() && (#[trigger] orig[j]).0 == c2;
                            assert(fin[j].0 == c2);
                        }
                        if c2 == c {
                            assert(fin[k as int].0 == c2);
                        }
                    }
                    assert forall|c2: char| c2 != c && ft_has(orig, c2) implies #[trigger] ft_at(
                        fin,
                        c2,
                    ) == ft_at(orig, c2) by {
                        let j = choose|j: int| 0 <= j < orig.len() && (#[trigger] orig[j]).0 == c2;
                        assert(j != k);
                        assert(fin[j] == orig[j]);
                        lemma_ft_at(orig, j);
                        lemma_ft_at(fin, j);
                    }
                }
                return ;
            }
            k += 1;
        }
        self.entries.push((c, info));
        proof {
            let fin = self.entries@;
            assert(!ft_has(orig, c));
            assert forall|k1: int, k2: int|
                0 <= k1 < fin.len() && 0 <= k2 < fin.len() && k1 != k2 implies (
            #[trigger] fin[k1]).0 != (#[trigger] fin[k2]).0 by {
                if k1 < orig.len() && k2 < orig.len() {
                    assert(fin[k1] == orig[k1]);
                    assert(fin[k2] == orig[k2]);
                } else if k1 < orig.len() {
                    assert(fin[k1] == orig[k1]);
                    if fin[k1].0 == c {
                        assert(ft_has(orig, c));
                    }
                } else {
                    assert(fin[k2] == orig[k2]);
                    if fin[k2].0 == c {
                        assert(ft_has(orig, c));
                    }
                }
            }
            lemma_ft_at(fin, orig.len() as int);
            assert forall|c2: char| #[trigger]
                ft_has(fin, c2) <==> (ft_has(orig, c2) || c2 == c) by {
                if ft_has(fin, c2) {
                    let j = choose|j: int| 0 <= j < fin.len() && (#[trigger] fin[j]).0 == c2;
                    if j < orig.len() {
                        assert(orig[j].0 == c2);
                    }
                }
                if ft_has(orig, c2) {
                    let j = choose|j: int| 0 <= j < orig.len() && (#[trigger] orig[j]).0 == c2;
                    assert(fin[j].0 == c2);
                }
            }
            assert forall|c2: char| c2 != c && ft_has(orig, c2) implies #[trigger] ft_at(fin, c2)
                == ft_at(orig, c2) by {
                let j = choose|j: int| 0 <= j < orig.len() && (#[trigger] orig[j]).0 == c2;
                assert(fin[j] == orig[j]);
                lemma_ft_at(orig, j);
                lemma_ft_at(fin, j);
            }
        }
    }

    /// The entry for `c`, or `None` where the letter has no entry.
    pub fn get(&self, c: char) -> (r: Option<&FreqInfo>)
        requires
            self.wf(),
        ensures
            match r {
                Some(info) => self.has_char(c) && *info == self.at(c),
                None => !self.has_char(c),
            },
    {
        let mut k: usize = 0;
        while k < self.entries.len()
            invariant
                self.wf(),
                k <= self.entries@.len(),
                forall|j: int| 0 <= j < k ==> (#[trigger] self.entries@[j]).0 != c,
            decreases self.entries@.len() - k,
        {
            if self.entries[k].0 == c {
                proof {
                    lemma_ft_at(self.entries@, k as int);
                }
                return Some(&self.entries[k].1);
            }
            k += 1;
        }
        None
    }
}

impl PartialEq for FreqTable {
    /// Two tables are equal when they file the same (letter, bound) pairs.
    fn eq(&self, other: &FreqTable) -> (r: bool) {
        let mut i: usize = 0;
        while i < self.entries.len()
            invariant
                i <= self.entries@.len(),
                forall|j: int|
                    0 <= j < i ==> pairs_has(other.pairs(), #[trigger] self.entries@[j]),
            decreases self.entries@.len() - i,
        {
            if !pairs_contain(&other.entries, self.entries[i].0, &self.entries[i].1) {
                proof {
                    assert(!pairs_has(other.pairs(), self.entries@[i as int]));
                    assert(pairs_has(self.pairs(), self.entries@[i as int]));
                }
                return false;
            }
            i += 1;
        }
        let mut k: usize = 0;
        while k < other.entries.len()
            invariant
                k <= other.entries@.len(),
                forall|j: int|
                    0 <= j < self.entries@.len() ==> pairs_has(
                        other.pairs(),
                        #[trigger] self.entries@[j],
                    ),
                forall|j: int|
                    0 <= j < k ==> pairs_has(self.pairs(), #[trigger] other.entries@[j]),
            decreases other.entries@.len() - k,
        {
            if !pairs_contain(&self.entries, other.entries[k].0, &other.entries[k].1) {
                proof {
                    assert(!pairs_has(self.pairs(), other.entries@[k as int]));
                    assert(pairs_has(other.pairs(), other.entries@[k as int]));
                }
                return false;
            }
            k += 1;
        }
        proof {
            assert forall|e: (char, FreqInfo)| #[trigger]
                pairs_has(self.pairs(), e) implies pairs_has(other.pairs(), e) by {
                let j = choose|j: int| 0 <= j < self.pairs().len() && self.pairs()[j] == e;
                assert(pairs_has(other.pairs(), self.entries@[j]));
            }
            assert forall|e: (char, FreqInfo)| #[trigger]
                pairs_has(other.pairs(), e) implies pairs_has(self.pairs(), e) by {
                let j = choose|j: int| 0 <= j < other.pairs().len() && other.pairs()[j] == e;
                assert(pairs_has(self.pairs(), other.entries@[j]));
            }
        }
        true
    }
}

impl vstd::std_specs::cmp::PartialEqSpecImpl for FreqTable {
    open spec fn obeys_eq_spec() -> bool {
        true
    }

    open spec fn eq_spec(&self, other: &FreqTable) -> bool {
        forall|e: (char, FreqInfo)| #[trigger]
            pairs_has(self.pairs(), e) <==> pairs_has(other.pairs(), e)
    }
}

spec fn sum_lows(entries: Seq<(char, FreqInfo)>, m: int) -> int
    decreases m,
{
    if m <= 0 {
        0
    } else {
        sum_lows(entries, m - 1) + entries[m - 1].1.0
    }
}

spec fn sum_nb(entries: Seq<(char, FreqInfo)>, g: Seq<char>, h: Seq<Hint>, n: int, m: int) -> int
    decreases m,
{
    if m <= 0 {
        0
    } else {
        sum_nb(entries, g, h, n, m - 1) + nb_cnt(g, h, entries[m - 1].0, n)
    }
}

proof fn lemma_sum_lows_mono(entries: Seq<(char, FreqInfo)>, m1: int, m2: int)
    requires
        0 <= m1 <= m2,
    ensures
        sum_lows(entries, m1) <= sum_lows(entries, m2),
    decreases m2,
{
    if m1 < m2 {
        lemma_sum_lows_mono(entries, m1, m2 - 1);
    }
}

proof fn lemma_sum_eq(entries: Seq<(char, FreqInfo)>, g: Seq<char>, h: Seq<Hint>, m: int)
    requires
        0 <= m <= entries.len(),
        forall|k: int|
            0 <= k < entries.len() ==> (#[trigger] entries[k]).1.0 == nb_cnt(
                g,
                h,
                entries[k].0,
                5,
            ),
    ensures
        sum_lows(entries, m) == sum_nb(entries, g, h, 5, m),
    decreases m,
{
    if m > 0 {
        lemma_sum_eq(entries, g, h, m - 1);
    }
}

proof fn lemma_sum_nb_step(
    entries: Seq<(char, FreqInfo)>,
    g: Seq<char>,
    h: Seq<Hint>,
    n: int,
    m: int,
)
    requires
        0 <= m <= entries.len(),
        ft_unique(entries),
        0 <= n,
    ensures
        sum_nb(entries, g, h, n + 1, m) == sum_nb(entries, g, h, n, m) + (if h[n] != Hint::Black
            && (exists|k: int| 0 <= k < m && (#[trigger] entries[k]).0 == g[n]) {
            1int
        } else {
            0int
        }),
    decreases m,
{
    if m > 0 {
        lemma_sum_nb_step(entries, g, h, n, m - 1);
        if entries[m - 1].0 == g[n] {
            if exists|k: int| 0 <= k < m - 1 && (#[trigger] entries[k]).0 == g[n] {
                let k = choose|k: int| 0 <= k < m - 1 && (#[trigger] entries[k]).0 == g[n];
                assert(entries[k].0 == entries[m - 1].0);
                assert(false);
            }
            assert(0 <= m - 1 < m && entries[m - 1].0 == g[n]);
        } else {
            if exists|k: int| 0 <= k < m && (#[trigger] entries[k]).0 == g[n] {
                let k = choose|k: int| 0 <= k < m && (#[trigger] entries[k]).0 == g[n];
                assert(k < m - 1);
                assert(exists|k2: int| 0 <= k2 < m - 1 && (#[trigger] entries[k2]).0 == g[n]);
            }
        }
    }
}

proof fn lemma_sum_nb_zero(entries: Seq<(char, FreqInfo)>, g: Seq<char>, h: Seq<Hint>, m: int)
    ensures
        sum_nb(entries, g, h, 0, m) == 0,
    decreases m,
{
    if m > 0 {
        lemma_sum_nb_zero(entries, g, h, m - 1);
    }
}

proof fn lemma_sum_nb_total(entries: Seq<(char, FreqInfo)>, g: Seq<char>, h: Seq<Hint>, n: int)
    requires
        ft_unique(entries),
        0 <= n,
        forall|p: int| 0 <= p < n ==> #[trigger] ft_has(entries, g[p]),
    ensures
        sum_nb(entries, g, h, n, entries.len() as int) == nb_total(h, n),
    decreases n,
{
    if n == 0 {
        lemma_sum_nb_zero(entries, g, h, entries.len() as int);
    }
    if n > 0 {
        lemma_sum_nb_total(entries, g, h, n - 1);
        lemma_sum_nb_step(entries, g, h, n - 1, entries.len() as int);
        assert(ft_has(entries, g[n - 1]));
        let m = entries.len() as int;
        let k0 = choose|k: int| 0 <= k < entries.len() && (#[trigger] entries[k]).0 == g[n - 1];
        assert(0 <= k0 < m && entries[k0].0 == g[n - 1]);
        assert(exists|k: int| 0 <= k < m && (#[trigger] entries[k]).0 == g[n - 1]);
        assert(sum_nb(entries, g, h, n, m) == sum_nb(entries, g, h, n - 1, m) + (if h[n - 1]
            != Hint::Black && (exists|k: int| 0 <= k < m && (#[trigger] entries[k]).0 == g[n - 1]) {
            1int
        } else {
            0int
        }));
        assert(sum_nb(entries, g, h, n - 1, m) == nb_total(h, n - 1));
        assert(nb_total(h, n) == nb_total(h, n - 1) + if h[n - 1] == Hint::Black {
            0int
        } else {
            1int
        });
    }
}

/// Builds the per-letter bound table from one round's guess and hints: each
/// letter's hints are folded in guess order, then the global tightening pass
/// caps every maximum by the confirmed occurrences of the other letters.
pub fn bld_freq_info_table(hints: &[Hint], guess: &str) -> (t: FreqTable)
    requires
        hints@.len() == 5,
        guess@.len() == 5,
    ensures
        t.wf(),
        forall|c: char| #[trigger] t.has_char(c) <==> cnt_ch(guess@, c, 5) >= 1,
        forall|c: char| #[trigger]
            t.has_char(c) ==> t.at(c).0 == spec_low(guess@, hints@, c) && t.at(c).1 == spec_high(
                guess@,
                hints@,
                c,
            ),
{
    let g = str_to_word(guess);
    let mut t = FreqTable::new();
    let mut p: usize = 0;
    while p < 5
        invariant
            g@ == guess@,
            g@.len() == 5,
            hints@.len() == 5,
            p <= 5,
            t.wf(),
            forall|c: char| #[trigger] t.has_char(c) <==> cnt_ch(g@, c, p as int) >= 1,
            forall|c: char| #[trigger]
                t.has_char(c) ==> t.at(c).0 == nb_cnt(g@, hints@, c, p as int) && t.at(c).1 == (
                if black_seen(g@, hints@, c, p as int) {
                    nb_cnt(g@, hints@, c, p as int)
                } else {
                    5int
                }),
        decreases 5 - p,
    {
        let c = g[p];
        proof {
            lemma_cnt_bounds(g@, c, p as int);
            lemma_nb_le_cnt(g@, hints@, c, p as int);
        }
        let ghost t0 = t;
        let cur = t.get(c);
        match cur {
            Some(info) => {
                let mut fi = *info;
                fi.update(&hints[p]);
                t.insert(c, fi);
            },
            None => {
                proof {
                    if black_seen(g@, hints@, c, p as int) {
                        lemma_black_seen_cnt(g@, hints@, c, p as int);
                        assert(false);
                    }
                }
                let fi = FreqInfo::new(&hints[p]);
                t.insert(c, fi);
            },
        }
        proof {
            assert forall|c2: char| #[trigger] t.has_char(c2) <==> cnt_ch(g@, c2, p + 1) >= 1 by {
                lemma_cnt_bounds(g@, c2, p as int);
            }
            assert forall|c2: char| #[trigger] t.has_char(c2) implies t.at(c2).0 == nb_cnt(
                g@,
                hints@,
                c2,
                p + 1,
            ) && t.at(c2).1 == (if black_seen(g@, hints@, c2, p + 1) {
                nb_cnt(g@, hints@, c2, p + 1)
            } else {
                5int
            }) by {
                if c2 != c {
                    assert(t.at(c2) == t0.at(c2));
                    assert(nb_cnt(g@, hints@, c2, p + 1) == nb_cnt(g@, hints@, c2, p as int));
                    assert(black_seen(g@, hints@, c2, p + 1) == black_seen(
                        g@,
                        hints@,
                        c2,
                        p as int,
                    ));
                }
            }
        }
        p += 1;
    }
    let ghost gs = g@;
    let ghost hs = hints@;
    proof {
        assert forall|j: int| 0 <= j < t.entries@.len() implies (#[trigger] t.entries@[j]).1.0
            == nb_cnt(gs, hs, t.entries@[j].0, 5) by {
            lemma_ft_at(t.entries@, j);
            assert(t.has_char(t.entries@[j].0));
        }
        assert forall|j: int| 0 <= j < t.entries@.len() implies (#[trigger] t.entries@[j]).1.1
            == spec_high_raw(gs, hs, t.entries@[j].0) by {
            lemma_ft_at(t.entries@, j);
            assert(t.has_char(t.entries@[j].0));
        }
        assert forall|q: int| 0 <= q < 5 implies #[trigger] ft_has(t.entries@, gs[q]) by {
            lemma_cnt_pos(gs, gs[q], q, 5);
            assert(t.has_char(gs[q]));
        }
        assert forall|c: char| #[trigger] ft_has(t.entries@, c) <==> cnt_ch(gs, c, 5) >= 1 by {
            assert(t.has_char(c) <==> cnt_ch(gs, c, 5) >= 1);
        }
        lemma_sum_nb_total(t.entries@, gs, hs, 5);
        lemma_sum_eq(t.entries@, gs, hs, t.entries@.len() as int);
        lemma_nb_total_bounds(hs, 5);
    }
    let mut suml: usize = 0;
    let mut k: usize = 0;
    while k < t.entries.len()
        invariant
            t.wf(),
            g@ == gs,
            gs == guess@,
            hs == hints@,
            gs.len() == 5,
            hs.len() == 5,
            k <= t.entries@.len(),
            suml == sum_lows(t.entries@, k as int),
            sum_lows(t.entries@, t.entries@.len() as int) == nb_total(hs, 5),
            nb_total(hs, 5) <= 5,
            forall|j: int| 0 <= j < t.entries@.len() ==> (#[trigger] t.entries@[j]).1.0 == nb_cnt(
                gs,
                hs,
                t.entries@[j].0,
                5,
            ),
            forall|j: int| 0 <= j < t.entries@.len() ==> (#[trigger] t.entries@[j]).1.1
                == spec_high_raw(gs, hs, t.entries@[j].0),
            forall|c: char| #[trigger] ft_has(t.entries@, c) <==> cnt_ch(gs, c, 5) >= 1,
        decreases t.entries@.len() - k,
    {
        proof {
            lemma_sum_lows_mono(t.entries@, k + 1, t.entries@.len() as int);
        }
        let l = t.entries[k].1.0;
        suml = suml + l;
        k += 1;
    }
    proof {
        assert(suml == nb_total(hs, 5));
    }
    let ghost mid = t.entries@;
    let mut k2: usize = 0;
    while k2 < t.entries.len()
        invariant
            g@ == gs,
            hints@.len() == 5,
            hs == hints@,
            gs.len() == 5,
            ft_unique(mid),
            k2 <= mid.len(),
            t.entries@.len() == mid.len(),
            suml == nb_total(hs, 5),
            nb_total(hs, 5) <= 5,
            forall|j: int| 0 <= j < mid.len() ==> (#[trigger] mid[j]).1.0 == nb_cnt(
                gs,
                hs,
                mid[j].0,
                5,
            ),
            forall|j: int| 0 <= j < mid.len() ==> (#[trigger] mid[j]).1.1 == spec_high_raw(
                gs,
                hs,
                mid[j].0,
            ),
            forall|c: char| #[trigger] ft_has(mid, c) <==> cnt_ch(gs, c, 5) >= 1,
            forall|j: int| 0 <= j < mid.len() ==> (#[trigger] t.entries@[j]).0 == mid[j].0,
            forall|j: int|
                k2 <= j < mid.len() ==> (#[trigger] t.entries@[j]).1 == mid[j].1,
            forall|j: int|
                0 <= j < k2 ==> (#[trigger] t.entries@[j]).1.0 == mid[j].1.0 && t.entries@[j].1.1
                    == spec_high(gs, hs, mid[j].0),
        decreases mid.len() - k2,
    {
        let l = t.entries[k2].1.0;
        let hgh = t.entries[k2].1.1;
        let ch = t.entries[k2].0;
        proof {
            lemma_nb_le_cnt(gs, hs, ch, 5);
            lemma_cnt_bounds(gs, ch, 5);
        }
        let bound = 5 + l - suml;
        let nh = if hgh <= bound {
            hgh
        } else {
            bound
        };
        t.entries[k2] = (ch, FreqInfo(l, nh));
        proof {
            assert(t.entries@[k2 as int].1.1 == spec_high(gs, hs, ch));
        }
        k2 += 1;
    }
    proof {
        assert(ft_unique(t.entries@)) by {
            assert forall|j1: int, j2: int|
                0 <= j1 < t.entries@.len() && 0 <= j2 < t.entries@.len() && j1 != j2 implies (
            #[trigger] t.entries@[j1]).0 != (#[trigger] t.entries@[j2]).0 by {
                assert(t.entries@[j1].0 == mid[j1].0);
                assert(t.entries@[j2].0 == mid[j2].0);
            }
        }
        assert forall|c: char| #[trigger] t.has_char(c) <==> cnt_ch(guess@, c, 5) >= 1 by {
            if ft_has(t.entries@, c) {
                let j = choose|j: int|
                    0 <= j < t.entries@.len() && (#[trigger] t.entries@[j]).0 == c;
                assert(mid[j].0 == c);
                assert(ft_has(mid, c));
            }
            if ft_has(mid, c) {
                let j = choose|j: int| 0 <= j < mid.len() && (#[trigger] mid[j]).0 == c;
                assert(t.entries@[j].0 == c);
                assert(ft_has(t.entries@, c));
            }
        }
        assert forall|c: char| #[trigger] t.has_char(c) implies t.at(c).0 == spec_low(
            guess@,
            hints@,
            c,
        ) && t.at(c).1 == spec_high(guess@, hints@, c) by {
            let j = choose|j: int| 0 <= j < t.entries@.len() && (#[trigger] t.entries@[j]).0 == c;
            lemma_ft_at(t.entries@, j);
            assert(mid[j].0 == c);
        }
    }
    t
}

/// Whether a sequence of (letter, bound) pairs holds `e`.
pub open spec fn pairs_has(s: Seq<(char, FreqInfo)>, e: (char, FreqInfo)) -> bool {
    exists|k: int| 0 <= k < s.len() && s[k] == e
}

fn pairs_contain(entries: &Vec<(char, FreqInfo)>, c: char, info: &FreqInfo) -> (r: bool)
    ensures
        r == pairs_has(entries@, (c, *info)),
{
    let mut k: usize = 0;
    while k < entries.len()
        invariant
            k <= entries@.len(),
            forall|j: int| 0 <= j < k ==> (#[trigger] entries@[j]) != (c, *info),
        decreases entries@.len() - k,
    {
        if entries[k].0 == c && entries[k].1 == *info {
            proof {
                assert(entries@[k as int] == (c, *info));
            }
            return true;
        }
        k += 1;
    }
    false
}

} // verus!
