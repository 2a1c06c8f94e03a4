//! Words and the candidate vocabulary set, plus the two immutable lookup
//! tables built once from the full word list.

use crate::counting::count_ch;
use crate::counting::count_occurrences;
use crate::counting::lemma_cnt_bounds;
use crate::counting::lemma_cnt_pos;
use crate::counting::lemma_cnt_zero_iff;
use vstd::prelude::*;
use vstd::seq_lib::*;
use vstd::string::StrSliceExecFns;

verus! {

broadcast use vstd::set::group_set_axioms;

/// A word: a fixed-length ordered sequence of letters.
pub type Word = Vec<char>;

/// Whether a sequence of stored words holds `w`.
pub open spec fn words_has(s: Seq<Word>, w: Seq<char>) -> bool {
    exists|k: int| 0 <= k < s.len() && (#[trigger] s[k])@ == w
}

/// The letter sequences of a sequence of stored words.
pub open spec fn word_views(items: Seq<Word>) -> Seq<Seq<char>> {
    items.map_values(|v: Word| v@)
}

proof fn lemma_words_view(items: Seq<Word>)
    ensures
        forall|w: Seq<char>|
            #![trigger word_views(items).contains(w)]
            #![trigger words_has(items, w)]
            word_views(items).contains(w) <==> words_has(items, w),
{
    let mapped = word_views(items);
    assert forall|w: Seq<char>| #![auto] mapped.contains(w) <==> words_has(items, w) by {
        if mapped.contains(w) {
            let k = choose|k: int| 0 <= k < mapped.len() && mapped[k] == w;
            assert(items[k]@ == w);
        }
        if words_has(items, w) {
            let k = choose|k: int| 0 <= k < items.len() && (#[trigger] items[k])@ == w;
            assert(mapped[k] == w);
        }
    }
}

proof fn lemma_words_has_grow(s0: Seq<Word>, s1: Seq<Word>)
    requires
        s1.len() == s0.len() + 1,
        forall|k: int| 0 <= k < s0.len() ==> s1[k] == s0[k],
    ensures
        forall|x: Seq<char>|
            #![trigger words_has(s1, x)]
            #![trigger words_has(s0, x)]
            words_has(s1, x) <==> (words_has(s0, x) || x == s1[s0.len() as int]@),
{
    assert forall|x: Seq<char>| #![auto] words_has(s1, x) <==> (words_has(s0, x) || x == s1[
        s0.len() as int
    ]@) by {
        if words_has(s1, x) {
            let k = choose|k: int| 0 <= k < s1.len() && (#[trigger] s1[k])@ == x;
            if k < s0.len() {
                assert(s0[k]@ == x);
            }
        }
        if words_has(s0, x) {
            let k = choose|k: int| 0 <= k < s0.len() && (#[trigger] s0[k])@ == x;
            assert(s1[k]@ == x);
        }
        if x == s1[s0.len() as int]@ {
            assert(0 <= s0.len() < s1.len() && s1[s0.len() as int]@ == x);
        }
    }
}

/// Converts a string of letters into a word.
pub fn str_to_word(s: &str) -> (w: Word)
    ensures
        w@ == s@,
{
    let n = s.unicode_len();
    let mut w: Word = Vec::new();
    let mut i: usize = 0;
    while i < n
        invariant
            n == s@.len(),
            i <= n,
            w@.len() == i,
            forall|j: int| 0 <= j < i ==> w@[j] == s@[j],
        decreases n - i,
    {
        let c = s.get_char(i);
        w.push(c);
        i += 1;
    }
    proof {
        assert(w@ =~= s@);
    }
    w
}

/// Compares two words letter by letter.
pub fn word_eq(a: &Word, b: &Word) -> (r: bool)
    ensures
        r == (a@ == b@),
{
    if a.len() != b.len() {
        return false;
    }
    let mut i: usize = 0;
    while i < a.len()
        invariant
            i <= a@.len(),
            a@.len() == b@.len(),
            forall|j: int| 0 <= j < i ==> a@[j] == b@[j],
        decreases a@.len() - i,
    {
        if a[i] != b[i] {
            return false;
        }
        i += 1;
    }
    proof {
        assert(a@ =~= b@);
    }
    true
}

fn clone_word(w: &Word) -> (r: Word)
    ensures
        r@ == w@,
{
    let r = w.clone();
    proof {
        assert forall|k: int| 0 <= k < r@.len() implies r@[k] == w@[k] by {
            assert(cloned::<char>(w@[k], r@[k]));
        }
        assert(r@ =~= w@);
    }
    r
}

fn vec_words_contains(items: &Vec<Word>, w: &Word) -> (r: bool)
    ensures
        r == words_has(items@, w@),
{
    let mut i: usize = 0;
    while i < items.len()
        invariant
            i <= items@.len(),
            forall|j: int| 0 <= j < i ==> (#[trigger] items@[j])@ != w@,
        decreases items@.len() - i,
    {
        if word_eq(&items[i], w) {
            return true;
        }
        i += 1;
    }
    false
}

/// Keeps exactly the stored words whose membership in `other` equals
/// `keep_in`, in their original order.
fn filter_by(items: &Vec<Word>, other: &Words, keep_in: bool) -> (kept: Vec<Word>)
    requires
        forall|k1: int, k2: int|
            0 <= k1 < k2 < items@.len() ==> (#[trigger] items@[k1])@ != (#[trigger] items@[k2])@,
    ensures
        kept@.len() <= items@.len(),
        forall|k1: int, k2: int|
            0 <= k1 < k2 < kept@.len() ==> (#[trigger] kept@[k1])@ != (#[trigger] kept@[k2])@,
        forall|x: Seq<char>|
            #![trigger words_has(kept@, x)]
            #![trigger words_has(items@, x)]
            words_has(kept@, x) <==> (words_has(items@, x) && other@.contains(x) == keep_in),
{
    let mut kept: Vec<Word> = Vec::new();
    let mut i: usize = 0;
    while i < items.len()
        invariant
            forall|k1: int, k2: int|
                0 <= k1 < k2 < items@.len() ==> (#[trigger] items@[k1])@ != (
                #[trigger] items@[k2])@,
            i <= items@.len(),
            kept@.len() <= i,
            forall|k1: int, k2: int|
                0 <= k1 < k2 < kept@.len() ==> (#[trigger] kept@[k1])@ != (#[trigger] kept@[k2])@,
            forall|x: Seq<char>|
                #![trigger words_has(kept@, x)]
                words_has(kept@, x) <==> (exists|j: int|
                    0 <= j < i && (#[trigger] items@[j])@ == x && other@.contains(x) == keep_in),
        decreases items@.len() - i,
    {
        let ghost kept0 = kept@;
        let keep_it = other.contains(&items[i]) == keep_in;
        if keep_it {
            let w = clone_word(&items[i]);
            proof {
                if words_has(kept0, w@) {
                    let j = choose|j: int|
                        0 <= j < i && (#[trigger] items@[j])@ == w@ && other@.contains(w@)
                            == keep_in;
                    assert(items@[j]@ == items@[i as int]@);
                    assert(false);
                }
            }
            kept.push(w);
            proof {
                lemma_words_has_grow(kept0, kept@);
            }
        }
        proof {
            assert forall|x: Seq<char>| #![auto] words_has(kept@, x) <==> (exists|j: int|
                0 <= j < i + 1 && (#[trigger] items@[j])@ == x && other@.contains(x)
                    == keep_in) by {
                if words_has(kept@, x) {
                    if words_has(kept0, x) {
                        let j = choose|j: int|
                            0 <= j < i && (#[trigger] items@[j])@ == x && other@.contains(x)
                                == keep_in;
                        assert(0 <= j < i + 1 && items@[j]@ == x && other@.contains(x) == keep_in);
                    } else {
                        assert(keep_it);
                        assert(x == items@[i as int]@);
                        assert(0 <= i < i + 1 && items@[i as int]@ == x && other@.contains(x)
                            == keep_in);
                    }
                }
                if exists|j: int|
                    0 <= j < i + 1 && (#[trigger] items@[j])@ == x && other@.contains(x)
                        == keep_in {
                    let j = choose|j: int|
                        0 <= j < i + 1 && (#[trigger] items@[j])@ == x && other@.contains(x)
                            == keep_in;
                    if j < i {
                        assert(words_has(kept0, x));
                        let k = choose|k: int| 0 <= k < kept0.len() && (#[trigger] kept0[k])@ == x;
                        assert(kept@[k]@ == x);
                    } else {
                        assert(x == items@[i as int]@);
                        assert(keep_it);
                        assert(kept@[kept0.len() as int]@ == x);
                    }
                }
            }
        }
        i += 1;
    }
    kept
}

/// A mutable set of words: the candidates still possible. It only ever
/// shrinks under the filtering operations; unions serve scratch accumulators
/// alone.
#[derive(Debug)]
pub struct Words {
    items: Vec<Word>,
}

impl View for Words {
    type V = Seq<Seq<char>>;

    closed spec fn view(&self) -> Seq<Seq<char>> {
        word_views(self.items@)
    }
}

impl Words {
    /// No word is held twice.
    pub open spec fn wf(&self) -> bool {
        self@.no_duplicates()
    }

    spec fn items_distinct(items: Seq<Word>) -> bool {
        forall|k1: int, k2: int|
            0 <= k1 < k2 < items.len() ==> (#[trigger] items[k1])@ != (#[trigger] items[k2])@
    }

    proof fn lemma_wf_from_distinct(&self)
        requires
            Words::items_distinct(self.items@),
        ensures
            self.wf(),
    {
        assert forall|k1: int, k2: int|
            0 <= k1 < self@.len() && 0 <= k2 < self@.len() && k1 != k2 implies self@[k1]
            != self@[k2] by {
            assert(self@[k1] == self.items@[k1]@);
            assert(self@[k2] == self.items@[k2]@);
            if k1 < k2 {
                assert(self.items@[k1]@ != self.items@[k2]@);
            } else {
                assert(self.items@[k2]@ != self.items@[k1]@);
            }
        }
    }

    proof fn lemma_distinct_from_wf(&self)
        requires
            self.wf(),
        ensures
            Words::items_distinct(self.items@),
    {
        assert forall|k1: int, k2: int|
            0 <= k1 < k2 < self.items@.len() implies (#[trigger] self.items@[k1])@ != (
        #[trigger] self.items@[k2])@ by {
            assert(self@[k1] == self.items@[k1]@);
            assert(self@[k2] == self.items@[k2]@);
        }
    }

    /// Initializes from a sequence of words, dropping duplicates.
    pub fn new(words: &[&str]) -> (r: Words)
        ensures
            r.wf(),
            forall|w: Seq<char>| #![trigger r@.contains(w)] r@.contains(w) <==> (exists|i: int|
                0 <= i < words@.len() && (#[trigger] words@[i])@ == w),
            r@.len() <= words@.len(),
    {
        let mut items: Vec<Word> = Vec::new();
        let mut i: usize = 0;
        while i < words.len()
            invariant
                i <= words@.len(),
                items@.len() <= i,
                Words::items_distinct(items@),
                forall|w: Seq<char>| #![trigger words_has(items@, w)] words_has(items@, w) <==> (
                exists|j: int| 0 <= j < i && (#[trigger] words@[j])@ == w),
            decreases words@.len() - i,
        {
            let ghost items0 = items@;
            let w = str_to_word(words[i]);
            let already = vec_words_contains(&items, &w);
            if !already {
                items.push(w);
                proof {
                    lemma_words_has_grow(items0, items@);
                }
            }
            proof {
                assert forall|x: Seq<char>| #![auto] words_has(items@, x) <==> (exists|j: int|
                    0 <= j < i + 1 && (#[trigger] words@[j])@ == x) by {
                    if words_has(items@, x) {
                        if words_has(items0, x) {
                            let j = choose|j: int| 0 <= j < i && (#[trigger] words@[j])@ == x;
                            assert(0 <= j < i + 1 && words@[j]@ == x);
                        } else {
                            assert(!already);
                            assert(x == words@[i as int]@);
                            assert(0 <= i < i + 1 && words@[i as int]@ == x);
                        }
                    }
                    if exists|j: int| 0 <= j < i + 1 && (#[trigger] words@[j])@ == x {
                        let j = choose|j: int| 0 <= j < i + 1 && (#[trigger] words@[j])@ == x;
                        if j < i {
                            assert(words_has(items0, x));
                            let k = choose|k: int|
                                0 <= k < items0.len() && (#[trigger] items0[k])@ == x;
                            assert(items@[k]@ == x);
                        } else {
                            if already {
                                assert(words_has(items0, x));
                                let k = choose|k: int|
                                    0 <= k < items0.len() && (#[trigger] items0[k])@ == x;
                                assert(items@[k]@ == x);
                            } else {
                                assert(items@[items0.len() as int]@ == x);
                            }
                        }
                    }
                }
                if !already {
                    assert forall|k1: int, k2: int|
                        0 <= k1 < k2 < items@.len() implies (#[trigger] items@[k1])@ != (
                    #[trigger] items@[k2])@ by {
                        if k2 == items0.len() {
                            assert(!words_has(items0, items@[k2]@));
                            assert(items@[k1] == items0[k1]);
                        } else {
                            assert(items@[k1] == items0[k1]);
                            assert(items@[k2] == items0[k2]);
                        }
                    }
                }
            }
            i += 1;
        }
        let r = Words { items };
        proof {
            lemma_words_view(r.items@);
            r.lemma_wf_from_distinct();
        }
        r
    }

    /// How many candidates are left.
    pub fn total(&self) -> (n: usize)
        ensures
            n == self@.len(),
    {
        self.items.len()
    }

    /// Whether a word is among the candidates.
    pub fn contains(&self, w: &Word) -> (r: bool)
        ensures
            r == self@.contains(w@),
    {
        let r = vec_words_contains(&self.items, w);
        proof {
            lemma_words_view(self.items@);
        }
        r
    }

    /// Picks one candidate, deterministically for a given seed; `None` only
    /// on an empty set.
    pub fn pick_word(&self, seed: usize) -> (r: Option<&Word>)
        ensures
            r is Some <==> self@.len() > 0,
            r matches Some(w) ==> self@.contains(w@) && w@ == self@[seed as int % self@.len() as int],
    {
        if self.items.len() == 0 {
            None
        } else {
            let k = seed % self.items.len();
            let w = &self.items[k];
            proof {
                assert(self@[k as int] == self.items@[k as int]@);
            }
            Some(w)
        }
    }

    /// Replaces self with its intersection with `other`: keeps exactly the
    /// words `other` also holds. Never grows.
    pub fn preserve(&mut self, other: &Words)
        requires
            old(self).wf(),
        ensures
            final(self).wf(),
            forall|w: Seq<char>|
                #![trigger final(self)@.contains(w)]
                #![trigger old(self)@.contains(w)]
                final(self)@.contains(w) <==> (old(self)@.contains(w) && other@.contains(w)),
            final(self)@.len() <= old(self)@.len(),
    {
        proof {
            self.lemma_distinct_from_wf();
            lemma_words_view(self.items@);
        }
        let kept = filter_by(&self.items, other, true);
        self.items = kept;
        proof {
            lemma_words_view(self.items@);
            self.lemma_wf_from_distinct();
        }
    }

    /// Replaces self with its set difference with `other`: drops exactly the
    /// words `other` holds.
    pub fn remove(&mut self, other: &Words)
        requires
            old(self).wf(),
        ensures
            final(self).wf(),
            forall|w: Seq<char>|
                #![trigger final(self)@.contains(w)]
                #![trigger old(self)@.contains(w)]
                final(self)@.contains(w) <==> (old(self)@.contains(w) && !other@.contains(w)),
            final(self)@.len() <= old(self)@.len(),
    {
        proof {
            self.lemma_distinct_from_wf();
            lemma_words_view(self.items@);
        }
        let kept = filter_by(&self.items, other, false);
        self.items = kept;
        proof {
            lemma_words_view(self.items@);
            self.lemma_wf_from_distinct();
        }
    }

    /// Adds the words of `other` into self. Used only to build scratch
    /// accumulator sets.
    pub fn union(&mut self, other: &Words)
        requires
            old(self).wf(),
        ensures
            final(self).wf(),
            forall|w: Seq<char>|
                #![trigger final(self)@.contains(w)]
                #![trigger old(self)@.contains(w)]
                final(self)@.contains(w) <==> (old(self)@.contains(w) || other@.contains(w)),
            final(self)@.len() <= old(self)@.len() + other@.len(),
    {
        proof {
            self.lemma_distinct_from_wf();
        }
        let ghost orig: Seq<Word> = self.items@;
        let mut i: usize = 0;
        while i < other.items.len()
            invariant
                self.items@.len() <= orig.len() + i,
                i <= other.items@.len(),
                Words::items_distinct(self.items@),
                forall|w: Seq<char>|
                    #![trigger words_has(self.items@, w)]
                    words_has(self.items@, w) <==> (words_has(orig, w) || (exists|j: int|
                        0 <= j < i && (#[trigger] other.items@[j])@ == w)),
            decreases other.items@.len() - i,
        {
            let ghost pre = self.items@;
            let already = vec_words_contains(&self.items, &other.items[i]);
            if !already {
                let w = clone_word(&other.items[i]);
                self.items.push(w);
                proof {
                    lemma_words_has_grow(pre, self.items@);
                    assert forall|k1: int, k2: int|
                        0 <= k1 < k2 < self.items@.len() implies (#[trigger] self.items@[k1])@
                        != (#[trigger] self.items@[k2])@ by {
                        if k2 == pre.len() {
                            assert(!words_has(pre, self.items@[k2]@));
                            assert(self.items@[k1] == pre[k1]);
                        } else {
                            assert(self.items@[k1] == pre[k1]);
                            assert(self.items@[k2] == pre[k2]);
                        }
                    }
                }
            }
            proof {
                assert forall|x: Seq<char>| #![auto] words_has(self.items@, x) <==> (words_has(
                    orig,
                    x,
                ) || (exists|j: int| 0 <= j < i + 1 && (#[trigger] other.items@[j])@ == x)) by {
                    if words_has(self.items@, x) {
                        if words_has(pre, x) {
                        } else {
                            assert(!already);
                            assert(x == other.items@[i as int]@);
                            assert(0 <= i < i + 1 && other.items@[i as int]@ == x);
                        }
                    }
                    if exists|j: int| 0 <= j < i + 1 && (#[trigger] other.items@[j])@ == x {
                        let j = choose|j: int|
                            0 <= j < i + 1 && (#[trigger] other.items@[j])@ == x;
                        if j < i {
                            assert(words_has(pre, x));
                            let k = choose|k: int| 0 <= k < pre.len() && (#[trigger] pre[k])@ == x;
                            assert(self.items@[k]@ == x);
                        } else {
                            if already {
                                assert(words_has(pre, x));
                                let k = choose|k: int|
                                    0 <= k < pre.len() && (#[trigger] pre[k])@ == x;
                                assert(self.items@[k]@ == x);
                            } else {
                                assert(self.items@[pre.len() as int]@ == x);
                            }
                        }
                    }
                }
            }
            i += 1;
        }
        proof {
            lemma_words_view(self.items@);
            lemma_words_view(orig);
            lemma_words_view(other.items@);
            self.lemma_wf_from_distinct();
        }
    }
}

impl Words {
    /// Adds one word known to be absent.
    fn push_word(&mut self, w: Word)
        requires
            old(self).wf(),
            !old(self)@.contains(w@),
        ensures
            final(self).wf(),
            final(self)@ == old(self)@.push(w@),
    {
        proof {
            self.lemma_distinct_from_wf();
            lemma_words_view(self.items@);
        }
        let ghost pre = self.items@;
        self.items.push(w);
        proof {
            assert(word_views(self.items@) =~= word_views(pre).push(self.items@[pre.len() as int]@));
            assert forall|k1: int, k2: int|
                0 <= k1 < self@.len() && 0 <= k2 < self@.len() && k1 != k2 implies self@[k1]
                != self@[k2] by {
                let lo = if k1 < k2 {
                    k1
                } else {
                    k2
                };
                let hi = if k1 < k2 {
                    k2
                } else {
                    k1
                };
                if hi == pre.len() {
                    if self@[lo] == self@[hi] {
                        assert(words_has(pre, self@[hi]));
                        assert(word_views(pre).contains(self@[hi]));
                        assert(false);
                    }
                } else {
                    assert(self@[k1] == word_views(pre)[k1]);
                    assert(self@[k2] == word_views(pre)[k2]);
                }
            }
        }
    }
}

/// Whether the first `n` words of `s` include `x`.
pub open spec fn prefix_has(s: Seq<Seq<char>>, n: int, x: Seq<char>) -> bool {
    exists|j: int| 0 <= j < n && s[j] == x
}

/// Every word of the list has exactly five letters.
pub open spec fn all_len5(src: Seq<Seq<char>>) -> bool {
    forall|w: Seq<char>| #[trigger] src.contains(w) ==> w.len() == 5
}

/// Membership in a sequence grown by one element.
pub proof fn lemma_contains_push<A>(s: Seq<A>, x: A)
    ensures
        forall|y: A| #[trigger] s.push(x).contains(y) <==> (s.contains(y) || y == x),
{
    assert forall|y: A| #[trigger] s.push(x).contains(y) <==> (s.contains(y) || y == x) by {
        if s.push(x).contains(y) {
            let k = choose|k: int| 0 <= k < s.push(x).len() && s.push(x)[k] == y;
            if k < s.len() {
                assert(s[k] == y);
            }
        }
        if s.contains(y) {
            let k = choose|k: int| 0 <= k < s.len() && s[k] == y;
            assert(s.push(x)[k] == y);
        }
        if y == x {
            assert(s.push(x)[s.len() as int] == y);
        }
    }
}

/// One indexed bucket: a key of two parts and the words filed under it.
pub type Bucket = (usize, char, Words);

/// Whether the table holds a bucket under the key `(a, c)`.
pub open spec fn has_key(entries: Seq<Bucket>, a: usize, c: char) -> bool {
    exists|k: int| 0 <= k < entries.len() && (#[trigger] entries[k]).0 == a && entries[k].1 == c
}

pub open spec fn key_index(entries: Seq<Bucket>, a: usize, c: char) -> int {
    choose|k: int| 0 <= k < entries.len() && (#[trigger] entries[k]).0 == a && entries[k].1 == c
}

/// The words filed under the key `(a, c)`.
pub open spec fn bucket_view(entries: Seq<Bucket>, a: usize, c: char) -> Seq<Seq<char>> {
    entries[key_index(entries, a, c)].2@
}

/// No key occurs twice.
pub open spec fn unique_keys(entries: Seq<Bucket>) -> bool {
    forall|k1: int, k2: int|
        0 <= k1 < entries.len() && 0 <= k2 < entries.len() && k1 != k2 ==> !((
        #[trigger] entries[k1]).0 == (#[trigger] entries[k2]).0 && entries[k1].1
            == entries[k2].1)
}

/// Every bucket holds a well-formed word set.
pub open spec fn buckets_wf(entries: Seq<Bucket>) -> bool {
    forall|k: int| 0 <= k < entries.len() ==> (#[trigger] entries[k]).2.wf()
}

proof fn lemma_bucket_at(entries: Seq<Bucket>, k: int)
    requires
        unique_keys(entries),
        0 <= k < entries.len(),
    ensures
        has_key(entries, entries[k].0, entries[k].1),
        bucket_view(entries, entries[k].0, entries[k].1) == entries[k].2@,
{
    let a = entries[k].0;
    let c = entries[k].1;
    assert(has_key(entries, a, c));
    let k2 = key_index(entries, a, c);
    assert(0 <= k2 < entries.len() && entries[k2].0 == a && entries[k2].1 == c);
    if k2 != k {
        assert(false);
    }
}

fn find_bucket(entries: &Vec<Bucket>, a: usize, c: char) -> (r: Option<usize>)
    ensures
        match r {
            Some(k) => k < entries@.len() && entries@[k as int].0 == a && entries@[k as int].1
                == c,
            None => !has_key(entries@, a, c),
        },
{
    let mut k: usize = 0;
    while k < entries.len()
        invariant
            k <= entries@.len(),
            forall|j: int|
                0 <= j < k ==> !((#[trigger] entries@[j]).0 == a && entries@[j].1 == c),
        decreases entries@.len() - k,
    {
        if entries[k].0 == a && entries[k].1 == c {
            return Some(k);
        }
        k += 1;
    }
    None
}

/// Files `w` under the key `(a, c)`, creating the bucket if it is absent.
fn add_to_bucket(entries: &mut Vec<Bucket>, a: usize, c: char, w: Word)
    requires
        unique_keys(old(entries)@),
        buckets_wf(old(entries)@),
        has_key(old(entries)@, a, c) ==> !bucket_view(old(entries)@, a, c).contains(w@),
    ensures
        unique_keys(final(entries)@),
        buckets_wf(final(entries)@),
        forall|a2: usize, c2: char|
            #![trigger has_key(final(entries)@, a2, c2)]
            #![trigger has_key(old(entries)@, a2, c2)]
            has_key(final(entries)@, a2, c2) <==> (has_key(old(entries)@, a2, c2) || (a2 == a
                && c2 == c)),
        forall|a2: usize, c2: char|
            #![trigger bucket_view(final(entries)@, a2, c2)]
            #![trigger bucket_view(old(entries)@, a2, c2)]
            (has_key(old(entries)@, a2, c2) && !(a2 == a && c2 == c)) ==> bucket_view(
                final(entries)@,
                a2,
                c2,
            ) == bucket_view(old(entries)@, a2, c2),
        forall|x: Seq<char>|
            #![trigger bucket_view(final(entries)@, a, c).contains(x)]
            bucket_view(final(entries)@, a, c).contains(x) <==> ((has_key(old(entries)@, a, c)
                && bucket_view(old(entries)@, a, c).contains(x)) || x == w@),
{
    let ghost orig = entries@;
    let ghost n = orig.len() as int;
    let r = find_bucket(entries, a, c);
    match r {
        Some(kf) => {
            let ghost k = kf as int;
            proof {
                lemma_bucket_at(orig, k);
            }
            let mut e = entries.swap_remove(kf);
            e.2.push_word(w);
            entries.push(e);
            proof {
                let fin = entries@;
                assert(fin.len() == n);
                assert(fin[n - 1].0 == a && fin[n - 1].1 == c);
                assert(fin[n - 1].2@ == orig[k].2@.push(w@));
                assert forall|k2: int| 0 <= k2 < n - 1 implies fin[k2] == (if k2 == k {
                    orig[n - 1]
                } else {
                    orig[k2]
                }) by {}
                assert forall|k1: int, k2: int|
                    0 <= k1 < fin.len() && 0 <= k2 < fin.len() && k1 != k2 implies !((
                #[trigger] fin[k1]).0 == (#[trigger] fin[k2]).0 && fin[k1].1 == fin[k2].1) by {
                    let o1 = if k1 == n - 1 {
                        k
                    } else if k1 == k {
                        n - 1
                    } else {
                        k1
                    };
                    let o2 = if k2 == n - 1 {
                        k
                    } else if k2 == k {
                        n - 1
                    } else {
                        k2
                    };
                    assert(fin[k1].0 == orig[o1].0 && fin[k1].1 == orig[o1].1);
                    assert(fin[k2].0 == orig[o2].0 && fin[k2].1 == orig[o2].1);
                    assert(o1 != o2);
                }
                assert forall|k2: int| 0 <= k2 < fin.len() implies (#[trigger] fin[k2]).2.wf() by {
                    if k2 < n - 1 && k2 != k {
                        assert(fin[k2] == orig[k2]);
                    } else if k2 < n - 1 {
                        assert(fin[k2] == orig[n - 1]);
                    }
                }
                assert forall|a2: usize, c2: char|
                    has_key(fin, a2, c2) <==> (has_key(orig, a2, c2) || (a2 == a && c2
                        == c)) by {
                    if has_key(fin, a2, c2) {
                        let k2 = choose|k2: int|
                            0 <= k2 < fin.len() && (#[trigger] fin[k2]).0 == a2 && fin[k2].1 == c2;
                        let o2 = if k2 == n - 1 {
                            k
                        } else if k2 == k {
                            n - 1
                        } else {
                            k2
                        };
                        assert(orig[o2].0 == a2 && orig[o2].1 == c2);
                        assert(has_key(orig, a2, c2));
                    }
                    if has_key(orig, a2, c2) {
                        let o2 = choose|o2: int|
                            0 <= o2 < orig.len() && (#[trigger] orig[o2]).0 == a2 && orig[o2].1
                                == c2;
                        let k2 = if o2 == n - 1 {
                            k
                        } else if o2 == k {
                            n - 1
                        } else {
                            o2
                        };
                        assert(fin[k2].0 == a2 && fin[k2].1 == c2);
                        assert(has_key(fin, a2, c2));
                    }
                    if a2 == a && c2 == c {
                        assert(has_key(orig, a2, c2));
                    }
                }
                assert forall|a2: usize, c2: char|
                    (has_key(orig, a2, c2) && !(a2 == a && c2 == c)) implies bucket_view(
                    fin,
                    a2,
                    c2,
                ) == bucket_view(orig, a2, c2) by {
                    let o2 = choose|o2: int|
                        0 <= o2 < orig.len() && (#[trigger] orig[o2]).0 == a2 && orig[o2].1 == c2;
                    assert(o2 != k);
                    let k2 = if o2 == n - 1 {
                        k
                    } else if o2 == k {
                        n - 1
                    } else {
                        o2
                    };
                    assert(fin[k2] == orig[o2]);
                    lemma_bucket_at(orig, o2);
                    lemma_bucket_at(fin, k2);
                }
                lemma_bucket_at(fin, n - 1);
                lemma_contains_push(orig[k].2@, w@);
                assert forall|x: Seq<char>|
                    bucket_view(fin, a, c).contains(x) <==> ((has_key(orig, a, c) && bucket_view(
                        orig,
                        a,
                        c,
                    ).contains(x)) || x == w@) by {
                    assert(bucket_view(fin, a, c) == orig[k].2@.push(w@));
                    assert(bucket_view(orig, a, c) == orig[k].2@);
                }
            }
        },
        None => {
            let mut items: Vec<Word> = Vec::new();
            items.push(w);
            let ws = Words { items };
            proof {
                assert(ws@.len() == 1);
                assert(ws@[0] == ws.items@[0]@);
                assert(ws.wf());
            }
            entries.push((a, c, ws));
            proof {
                let fin = entries@;
                assert(fin.len() == n + 1);
                assert(fin[n] == (a, c, ws));
                assert forall|k2: int| 0 <= k2 < n implies fin[k2] == orig[k2] by {}
                assert forall|k1: int, k2: int|
                    0 <= k1 < fin.len() && 0 <= k2 < fin.len() && k1 != k2 implies !((
                #[trigger] fin[k1]).0 == (#[trigger] fin[k2]).0 && fin[k1].1 == fin[k2].1) by {
                    if k1 < n && k2 < n {
                        assert(fin[k1] == orig[k1]);
                        assert(fin[k2] == orig[k2]);
                    } else if k1 < n {
                        assert(fin[k1] == orig[k1]);
                        if fin[k1].0 == a && fin[k1].1 == c {
                            assert(has_key(orig, a, c));
                            assert(false);
                        }
                    } else {
                        assert(fin[k2] == orig[k2]);
                        if fin[k2].0 == a && fin[k2].1 == c {
                            assert(has_key(orig, a, c));
                            assert(false);
                        }
                    }
                }
                assert forall|k2: int| 0 <= k2 < fin.len() implies (#[trigger] fin[k2]).2.wf() by {
                    if k2 < n {
                        assert(fin[k2] == orig[k2]);
                    }
                }
                assert forall|a2: usize, c2: char|
                    has_key(fin, a2, c2) <==> (has_key(orig, a2, c2) || (a2 == a && c2
                        == c)) by {
                    if has_key(fin, a2, c2) {
                        let k2 = choose|k2: int|
                            0 <= k2 < fin.len() && (#[trigger] fin[k2]).0 == a2 && fin[k2].1 == c2;
                        if k2 < n {
                            assert(orig[k2].0 == a2 && orig[k2].1 == c2);
                            assert(has_key(orig, a2, c2));
                        }
                    }
                    if has_key(orig, a2, c2) {
                        let o2 = choose|o2: int|
                            0 <= o2 < orig.len() && (#[trigger] orig[o2]).0 == a2 && orig[o2].1
                                == c2;
                        assert(fin[o2].0 == a2 && fin[o2].1 == c2);
                        assert(has_key(fin, a2, c2));
                    }
                    if a2 == a && c2 == c {
                        assert(fin[n].0 == a2 && fin[n].1 == c2);
                        assert(has_key(fin, a2, c2));
                    }
                }
                assert forall|a2: usize, c2: char|
                    (has_key(orig, a2, c2) && !(a2 == a && c2 == c)) implies bucket_view(
                    fin,
                    a2,
                    c2,
                ) == bucket_view(orig, a2, c2) by {
                    let o2 = choose|o2: int|
                        0 <= o2 < orig.len() && (#[trigger] orig[o2]).0 == a2 && orig[o2].1 == c2;
                    assert(fin[o2] == orig[o2]);
                    lemma_bucket_at(orig, o2);
                    lemma_bucket_at(fin, o2);
                }
                lemma_bucket_at(fin, n);
                assert forall|x: Seq<char>|
                    bucket_view(fin, a, c).contains(x) <==> ((has_key(orig, a, c) && bucket_view(
                        orig,
                        a,
                        c,
                    ).contains(x)) || x == w@) by {
                    assert(bucket_view(fin, a, c) == ws@);
                    if bucket_view(fin, a, c).contains(x) {
                        let k2 = choose|k2: int| 0 <= k2 < ws@.len() && ws@[k2] == x;
                        assert(x == ws@[0]);
                    }
                    if x == ws.items@[0]@ {
                        assert(ws@[0] == x);
                        assert(ws@.contains(x));
                    }
                }
            }
        },
    }
}

impl PartialEq for Words {
    /// Two vocabularies are equal when they hold the same words.
    fn eq(&self, other: &Words) -> (r: bool) {
        let mut i: usize = 0;
        while i < self.items.len()
            invariant
                i <= self.items@.len(),
                forall|j: int| 0 <= j < i ==> other@.contains((#[trigger] self.items@[j])@),
            decreases self.items@.len() - i,
        {
            if !other.contains(&self.items[i]) {
                proof {
                    lemma_words_view(self.items@);
                    let w = self.items@[i as int]@;
                    assert(0 <= i < self.items@.len() && (self.items@[i as int])@ == w);
                    assert(words_has(self.items@, w));
                    assert(self@.contains(w));
                    assert(self@.to_set().contains(w));
                    assert(!other@.to_set().contains(w));
                }
                return false;
            }
            i += 1;
        }
        let mut k: usize = 0;
        while k < other.items.len()
            invariant
                k <= other.items@.len(),
                forall|j: int|
                    0 <= j < self.items@.len() ==> other@.contains((#[trigger] self.items@[j])@),
                forall|j: int| 0 <= j < k ==> self@.contains((#[trigger] other.items@[j])@),
            decreases other.items@.len() - k,
        {
            if !self.contains(&other.items[k]) {
                proof {
                    lemma_words_view(other.items@);
                    let w = other.items@[k as int]@;
                    assert(0 <= k < other.items@.len() && (other.items@[k as int])@ == w);
                    assert(words_has(other.items@, w));
                    assert(other@.contains(w));
                    assert(other@.to_set().contains(w));
                    assert(!self@.to_set().contains(w));
                }
                return false;
            }
            k += 1;
        }
        proof {
            assert forall|w: Seq<char>| #![auto] self@.contains(w) <==> other@.contains(w) by {
                if self@.contains(w) {
                    let j = choose|j: int| 0 <= j < self@.len() && self@[j] == w;
                    assert(self.items@[j]@ == w);
                    assert(other@.contains((self.items@[j])@));
                }
                if other@.contains(w) {
                    let j = choose|j: int| 0 <= j < other@.len() && other@[j] == w;
                    assert(other.items@[j]@ == w);
                    assert(self@.contains((other.items@[j])@));
                }
            }
            assert(self@.to_set() =~= other@.to_set());
        }
        true
    }
}

impl vstd::std_specs::cmp::PartialEqSpecImpl for Words {
    open spec fn obeys_eq_spec() -> bool {
        true
    }

    open spec fn eq_spec(&self, other: &Words) -> bool {
        self@.to_set() == other@.to_set()
    }
}

/// Membership in the positional bucket: the words of the list with letter
/// `c` at position `p`.
pub open spec fn green_bucket(src: Seq<Seq<char>>, p: usize, c: char, w: Seq<char>) -> bool {
    src.contains(w) && p < 5 && w[p as int] == c
}

/// An immutable lookup built once from the full word list: for every
/// (position, letter) pair, the subset of words having that letter at that
/// position.
pub struct GreenTable {
    entries: Vec<Bucket>,
    source: Ghost<Seq<Seq<char>>>,
}

impl GreenTable {
    /// The word list the table was built from.
    pub closed spec fn src(&self) -> Seq<Seq<char>> {
        self.source@
    }

    /// Every bucket holds exactly the list's words with that letter at that
    /// position, and every such word is filed.
    pub closed spec fn wf(&self) -> bool {
        &&& unique_keys(self.entries@)
        &&& buckets_wf(self.entries@)
        &&& all_len5(self.source@)
        &&& forall|p: usize, c: char, x: Seq<char>|
            #![trigger bucket_view(self.entries@, p, c).contains(x)]
            #![trigger green_bucket(self.source@, p, c, x)]
            (has_key(self.entries@, p, c) && bucket_view(self.entries@, p, c).contains(x))
                <==> green_bucket(self.source@, p, c, x)
    }

    pub proof fn src_len5(&self)
        requires
            self.wf(),
        ensures
            all_len5(self.src()),
    {
    }

    /// The bucket for `(p, c)`, or `None` where no word of the list has `c`
    /// at `p` (a miss means the empty set).
    pub fn get(&self, p: usize, c: char) -> (r: Option<&Words>)
        requires
            self.wf(),
        ensures
            match r {
                Some(ws) => ws.wf() && (forall|w: Seq<char>|
                    #![trigger ws@.contains(w)]
                    #![trigger green_bucket(self.src(), p, c, w)]
                    ws@.contains(w) <==> green_bucket(self.src(), p, c, w)),
                None => forall|w: Seq<char>| !(#[trigger] green_bucket(self.src(), p, c, w)),
            },
    {
        let r = find_bucket(&self.entries, p, c);
        match r {
            Some(k) => {
                proof {
                    lemma_bucket_at(self.entries@, k as int);
                }
                let ws = &self.entries[k].2;
                proof {
                    assert forall|w: Seq<char>| ws@.contains(w) <==> green_bucket(
                        self.src(),
                        p,
                        c,
                        w,
                    ) by {
                        assert(bucket_view(self.entries@, p, c) == ws@);
                    }
                }
                Some(ws)
            },
            None => {
                proof {
                    assert forall|w: Seq<char>| !green_bucket(self.src(), p, c, w) by {
                        if green_bucket(self.source@, p, c, w) {
                            assert(has_key(self.entries@, p, c));
                        }
                    }
                }
                None
            },
        }
    }
}

/// Builds the positional lookup from a word list; every word must have five
/// letters (the word-list provider's contract).
pub fn mk_green_tbl(words: &[&str]) -> (t: GreenTable)
    requires
        forall|i: int| 0 <= i < words@.len() ==> (#[trigger] words@[i])@.len() == 5,
    ensures
        t.wf(),
        forall|w: Seq<char>| #![trigger t.src().contains(w)] t.src().contains(w) <==> (exists|
        i: int| 0 <= i < words@.len() && (#[trigger] words@[i])@ == w),
{
    let ws = Words::new(words);
    let ghost src = ws@;
    proof {
        assert forall|w: Seq<char>| #[trigger] src.contains(w) implies w.len() == 5 by {
            let i = choose|i: int| 0 <= i < words@.len() && (#[trigger] words@[i])@ == w;
        }
        ws.lemma_distinct_from_wf();
        lemma_words_view(ws.items@);
        assert forall|j: int| 0 <= j < src.len() implies #[trigger] src[j] == ws.items@[j]@ by {}
    }
    let mut entries: Vec<Bucket> = Vec::new();
    let mut i: usize = 0;
    while i < ws.items.len()
        invariant
            src == ws@,
            ws.wf(),
            src.len() == ws.items@.len(),
            forall|j: int| 0 <= j < src.len() ==> #[trigger] src[j] == ws.items@[j]@,
            all_len5(src),
            i <= src.len(),
            unique_keys(entries@),
            buckets_wf(entries@),
            forall|p2: usize, c2: char, x: Seq<char>|
                #![trigger bucket_view(entries@, p2, c2).contains(x)]
                #![trigger has_key(entries@, p2, c2), x[p2 as int]]
                (has_key(entries@, p2, c2) && bucket_view(entries@, p2, c2).contains(x)) <==> (
                prefix_has(src, i as int, x) && p2 < 5 && x[p2 as int] == c2),
        decreases src.len() - i,
    {
        let ghost wv = src[i as int];
        proof {
            assert(src.contains(wv));
        }
        let mut p: usize = 0;
        while p < 5
            invariant
                src == ws@,
                ws.wf(),
                src.len() == ws.items@.len(),
                forall|j: int| 0 <= j < src.len() ==> #[trigger] src[j] == ws.items@[j]@,
                all_len5(src),
                i < src.len(),
                wv == src[i as int],
                wv.len() == 5,
                p <= 5,
                unique_keys(entries@),
                buckets_wf(entries@),
                forall|p2: usize, c2: char, x: Seq<char>|
                    #![trigger bucket_view(entries@, p2, c2).contains(x)]
                    #![trigger has_key(entries@, p2, c2), x[p2 as int]]
                    (has_key(entries@, p2, c2) && bucket_view(entries@, p2, c2).contains(x)) <==> (
                    (prefix_has(src, i as int, x) && p2 < 5 && x[p2 as int] == c2) || (x == wv
                        && p2 < p && wv[p2 as int] == c2)),
            decreases 5 - p,
        {
            let wi = &ws.items[i];
            let c = wi[p];
            proof {
                assert(wi@ == wv);
                if has_key(entries@, p, c) && bucket_view(entries@, p, c).contains(wv) {
                    if prefix_has(src, i as int, wv) {
                        let j = choose|j: int| 0 <= j < i && src[j] == wv;
                        assert(src[j] == src[i as int]);
                        assert(false);
                    }
                    assert(false);
                }
            }
            let wcopy = clone_word(wi);
            let ghost pre_entries = entries@;
            add_to_bucket(&mut entries, p, c, wcopy);
            proof {
                assert forall|p2: usize, c2: char, x: Seq<char>|
                    (has_key(entries@, p2, c2) && bucket_view(entries@, p2, c2).contains(x)) <==> (
                    (prefix_has(src, i as int, x) && p2 < 5 && x[p2 as int] == c2) || (x == wv
                        && p2 < p + 1 && wv[p2 as int] == c2)) by {
                    if p2 == p && c2 == c {
                        assert(has_key(entries@, p2, c2));
                        assert(bucket_view(entries@, p, c).contains(x) <==> ((has_key(
                            pre_entries,
                            p,
                            c,
                        ) && bucket_view(pre_entries, p, c).contains(x)) || x == wv));
                        assert(wv[p as int] == c);
                    } else {
                        assert(has_key(entries@, p2, c2) <==> has_key(pre_entries, p2, c2));
                        if has_key(pre_entries, p2, c2) {
                            assert(bucket_view(entries@, p2, c2) == bucket_view(
                                pre_entries,
                                p2,
                                c2,
                            ));
                        }
                        if p2 == p && x == wv && wv[p2 as int] == c2 {
                            assert(c2 == c);
                            assert(false);
                        }
                    }
                }
            }
            p += 1;
        }
        proof {
            assert forall|p2: usize, c2: char, x: Seq<char>|
                #![trigger bucket_view(entries@, p2, c2).contains(x)]
                #![trigger has_key(entries@, p2, c2), x[p2 as int]]
                (has_key(entries@, p2, c2) && bucket_view(entries@, p2, c2).contains(x)) <==> (
                prefix_has(src, i + 1, x) && p2 < 5 && x[p2 as int] == c2) by {
                if prefix_has(src, i as int, x) {
                    let j = choose|j: int| 0 <= j < i && src[j] == x;
                    assert(0 <= j < i + 1 && src[j] == x);
                    assert(prefix_has(src, i + 1, x));
                }
                if x == wv {
                    assert(0 <= i < i + 1 && src[i as int] == x);
                    assert(prefix_has(src, i + 1, x));
                }
                if prefix_has(src, i + 1, x) {
                    let j = choose|j: int| 0 <= j < i + 1 && src[j] == x;
                    if j < i {
                        assert(prefix_has(src, i as int, x));
                    } else {
                        assert(x == wv);
                    }
                }
            }
        }
        i += 1;
    }
    let t = GreenTable { entries, source: Ghost(src) };
    proof {
        assert forall|p2: usize, c2: char, x: Seq<char>|
            (has_key(t.entries@, p2, c2) && bucket_view(t.entries@, p2, c2).contains(x))
            <==> green_bucket(t.source@, p2, c2, x) by {
            if prefix_has(src, src.len() as int, x) {
                let j = choose|j: int| 0 <= j < src.len() && src[j] == x;
                assert(src.contains(x));
            }
            if src.contains(x) {
                let j = choose|j: int| 0 <= j < src.len() && src[j] == x;
                assert(prefix_has(src, src.len() as int, x));
            }
        }
        assert(t.wf());
    }
    t
}

/// Membership in the frequency bucket: the words of the list in which `c`
/// occurs exactly `n` times, for `n` at least one.
pub open spec fn freq_bucket(src: Seq<Seq<char>>, n: usize, c: char, w: Seq<char>) -> bool {
    src.contains(w) && 1 <= n && count_ch(w, c) == n
}

/// An immutable lookup built once from the full word list: for every
/// (exact occurrence count, letter) pair, the subset of words in which that
/// letter occurs exactly that many times. A count of zero is never a key.
pub struct CharFreqTable {
    entries: Vec<Bucket>,
    source: Ghost<Seq<Seq<char>>>,
}

impl CharFreqTable {
    /// The word list the table was built from.
    pub closed spec fn src(&self) -> Seq<Seq<char>> {
        self.source@
    }

    /// Every bucket holds exactly the list's words with that exact letter
    /// count, and every such word is filed.
    pub closed spec fn wf(&self) -> bool {
        &&& unique_keys(self.entries@)
        &&& buckets_wf(self.entries@)
        &&& all_len5(self.source@)
        &&& forall|n: usize, c: char, x: Seq<char>|
            #![trigger bucket_view(self.entries@, n, c).contains(x)]
            #![trigger freq_bucket(self.source@, n, c, x)]
            (has_key(self.entries@, n, c) && bucket_view(self.entries@, n, c).contains(x))
                <==> freq_bucket(self.source@, n, c, x)
    }

    pub proof fn src_len5(&self)
        requires
            self.wf(),
        ensures
            all_len5(self.src()),
    {
    }

    /// The bucket for `(n, c)`, or `None` where no word of the list has
    /// exactly `n` occurrences of `c` (a miss means the empty set).
    pub fn get(&self, n: usize, c: char) -> (r: Option<&Words>)
        requires
            self.wf(),
        ensures
            match r {
                Some(ws) => ws.wf() && (forall|w: Seq<char>|
                    #![trigger ws@.contains(w)]
                    #![trigger freq_bucket(self.src(), n, c, w)]
                    ws@.contains(w) <==> freq_bucket(self.src(), n, c, w)),
                None => forall|w: Seq<char>| !(#[trigger] freq_bucket(self.src(), n, c, w)),
            },
    {
        let r = find_bucket(&self.entries, n, c);
        match r {
            Some(k) => {
                proof {
                    lemma_bucket_at(self.entries@, k as int);
                }
                let ws = &self.entries[k].2;
                proof {
                    assert forall|w: Seq<char>| ws@.contains(w) <==> freq_bucket(
                        self.src(),
                        n,
                        c,
                        w,
                    ) by {
                        assert(bucket_view(self.entries@, n, c) == ws@);
                    }
                }
                Some(ws)
            },
            None => {
                proof {
                    assert forall|w: Seq<char>| !freq_bucket(self.src(), n, c, w) by {
                        if freq_bucket(self.source@, n, c, w) {
                            assert(has_key(self.entries@, n, c));
                        }
                    }
                }
                None
            },
        }
    }
}

fn char_in_prefix(w: &Word, c: char, p: usize) -> (r: bool)
    requires
        p <= w@.len(),
    ensures
        r == (exists|j: int| 0 <= j < p && w@[j] == c),
{
    let mut j: usize = 0;
    while j < p
        invariant
            j <= p,
            p <= w@.len(),
            forall|j2: int| 0 <= j2 < j ==> w@[j2] != c,
        decreases p - j,
    {
        if w[j] == c {
            return true;
        }
        j += 1;
    }
    false
}

/// Builds the frequency lookup from a word list; every word must have five
/// letters (the word-list provider's contract).
pub fn mk_freq_tbl(words: &[&str]) -> (t: CharFreqTable)
    requires
        forall|i: int| 0 <= i < words@.len() ==> (#[trigger] words@[i])@.len() == 5,
    ensures
        t.wf(),
        forall|w: Seq<char>| #![trigger t.src().contains(w)] t.src().contains(w) <==> (exists|
        i: int| 0 <= i < words@.len() && (#[trigger] words@[i])@ == w),
{
    let ws = Words::new(words);
    let ghost src = ws@;
    proof {
        assert forall|w: Seq<char>| #[trigger] src.contains(w) implies w.len() == 5 by {
            let i = choose|i: int| 0 <= i < words@.len() && (#[trigger] words@[i])@ == w;
        }
        ws.lemma_distinct_from_wf();
        lemma_words_view(ws.items@);
        assert forall|j: int| 0 <= j < src.len() implies #[trigger] src[j] == ws.items@[j]@ by {}
    }
    let mut entries: Vec<Bucket> = Vec::new();
    let mut i: usize = 0;
    while i < ws.items.len()
        invariant
            src == ws@,
            ws.wf(),
            src.len() == ws.items@.len(),
            forall|j: int| 0 <= j < src.len() ==> #[trigger] src[j] == ws.items@[j]@,
            all_len5(src),
            i <= src.len(),
            unique_keys(entries@),
            buckets_wf(entries@),
            forall|n2: usize, c2: char, x: Seq<char>|
                #![trigger bucket_view(entries@, n2, c2).contains(x)]
                #![trigger has_key(entries@, n2, c2), count_ch(x, c2)]
                (has_key(entries@, n2, c2) && bucket_view(entries@, n2, c2).contains(x)) <==> (
                prefix_has(src, i as int, x) && 1 <= n2 && count_ch(x, c2) == n2),
        decreases src.len() - i,
    {
        let ghost wv = src[i as int];
        proof {
            assert(src.contains(wv));
        }
        let mut p: usize = 0;
        while p < 5
            invariant
                src == ws@,
                ws.wf(),
                src.len() == ws.items@.len(),
                forall|j: int| 0 <= j < src.len() ==> #[trigger] src[j] == ws.items@[j]@,
                all_len5(src),
                i < src.len(),
                wv == src[i as int],
                wv.len() == 5,
                p <= 5,
                unique_keys(entries@),
                buckets_wf(entries@),
                forall|n2: usize, c2: char, x: Seq<char>|
                    #![trigger bucket_view(entries@, n2, c2).contains(x)]
                    #![trigger has_key(entries@, n2, c2), count_ch(x, c2)]
                    (has_key(entries@, n2, c2) && bucket_view(entries@, n2, c2).contains(x)) <==> (
                    (prefix_has(src, i as int, x) && 1 <= n2 && count_ch(x, c2) == n2) || (x == wv
                        && 1 <= n2 && count_ch(wv, c2) == n2 && (exists|j: int|
                        0 <= j < p && wv[j] == c2))),
            decreases 5 - p,
        {
            let wi = &ws.items[i];
            let c = wi[p];
            let seen = char_in_prefix(wi, c, p);
            if !seen {
                let nn = count_occurrences(wi, c);
                proof {
                    assert(wi@ == wv);
                    lemma_cnt_pos(wv, c, p as int, wv.len() as int);
                    lemma_cnt_bounds(wv, c, wv.len() as int);
                    assert(1 <= nn <= 5);
                    if has_key(entries@, nn, c) && bucket_view(entries@, nn, c).contains(wv) {
                        if prefix_has(src, i as int, wv) {
                            let j = choose|j: int| 0 <= j < i && src[j] == wv;
                            assert(src[j] == src[i as int]);
                            assert(false);
                        }
                        assert(false);
                    }
                }
                let wcopy = clone_word(wi);
                let ghost pre_entries = entries@;
                add_to_bucket(&mut entries, nn, c, wcopy);
                proof {
                    assert forall|n2: usize, c2: char, x: Seq<char>|
                        (has_key(entries@, n2, c2) && bucket_view(entries@, n2, c2).contains(x))
                        <==> ((prefix_has(src, i as int, x) && 1 <= n2 && count_ch(x, c2) == n2)
                        || (x == wv && 1 <= n2 && count_ch(wv, c2) == n2 && (exists|j: int|
                        0 <= j < p + 1 && wv[j] == c2))) by {
                        if n2 == nn && c2 == c {
                            assert(has_key(entries@, n2, c2));
                            assert(bucket_view(entries@, nn, c).contains(x) <==> ((has_key(
                                pre_entries,
                                nn,
                                c,
                            ) && bucket_view(pre_entries, nn, c).contains(x)) || x == wv));
                            assert(0 <= p < p + 1 && wv[p as int] == c);
                        } else {
                            assert(has_key(entries@, n2, c2) <==> has_key(pre_entries, n2, c2));
                            if has_key(pre_entries, n2, c2) {
                                assert(bucket_view(entries@, n2, c2) == bucket_view(
                                    pre_entries,
                                    n2,
                                    c2,
                                ));
                            }
                            if x == wv && 1 <= n2 && count_ch(wv, c2) == n2 && (exists|j: int|
                                0 <= j < p + 1 && wv[j] == c2) {
                                let j = choose|j: int| 0 <= j < p + 1 && wv[j] == c2;
                                if j == p {
                                    assert(c2 == c);
                                    assert(n2 == nn);
                                    assert(false);
                                } else {
                                    assert(exists|j2: int| 0 <= j2 < p && wv[j2] == c2);
                                }
                            }
                        }
                    }
                }
            } else {
                proof {
                    assert(wi@ == wv);
                    assert forall|n2: usize, c2: char, x: Seq<char>|
                        (has_key(entries@, n2, c2) && bucket_view(entries@, n2, c2).contains(x))
                        <==> ((prefix_has(src, i as int, x) && 1 <= n2 && count_ch(x, c2) == n2)
                        || (x == wv && 1 <= n2 && count_ch(wv, c2) == n2 && (exists|j: int|
                        0 <= j < p + 1 && wv[j] == c2))) by {
                        if x == wv && 1 <= n2 && count_ch(wv, c2) == n2 && (exists|j: int|
                            0 <= j < p + 1 && wv[j] == c2) {
                            let j = choose|j: int| 0 <= j < p + 1 && wv[j] == c2;
                            if j == p {
                                assert(c2 == c);
                                assert(exists|j2: int| 0 <= j2 < p && wv[j2] == c2);
                            } else {
                                assert(exists|j2: int| 0 <= j2 < p && wv[j2] == c2);
                            }
                        }
                    }
                }
            }
            p += 1;
        }
        proof {
            assert forall|n2: usize, c2: char, x: Seq<char>|
                #![trigger bucket_view(entries@, n2, c2).contains(x)]
                #![trigger has_key(entries@, n2, c2), count_ch(x, c2)]
                (has_key(entries@, n2, c2) && bucket_view(entries@, n2, c2).contains(x)) <==> (
                prefix_has(src, i + 1, x) && 1 <= n2 && count_ch(x, c2) == n2) by {
                if prefix_has(src, i as int, x) {
                    let j = choose|j: int| 0 <= j < i && src[j] == x;
                    assert(0 <= j < i + 1 && src[j] == x);
                    assert(prefix_has(src, i + 1, x));
                }
                if x == wv {
                    assert(0 <= i < i + 1 && src[i as int] == x);
                    assert(prefix_has(src, i + 1, x));
                }
                if x == wv && 1 <= n2 && count_ch(wv, c2) == n2 {
                    lemma_cnt_zero_iff(wv, c2, wv.len() as int);
                    assert(exists|j: int| 0 <= j < 5 && wv[j] == c2);
                }
                if prefix_has(src, i + 1, x) {
                    let j = choose|j: int| 0 <= j < i + 1 && src[j] == x;
                    if j < i {
                        assert(prefix_has(src, i as int, x));
                    } else {
                        assert(x == wv);
                    }
                }
            }
        }
        i += 1;
    }
    let t = CharFreqTable { entries, source: Ghost(src) };
    proof {
        assert forall|n2: usize, c2: char, x: Seq<char>|
            (has_key(t.entries@, n2, c2) && bucket_view(t.entries@, n2, c2).contains(x))
            <==> freq_bucket(t.source@, n2, c2, x) by {
            if prefix_has(src, src.len() as int, x) {
                let j = choose|j: int| 0 <= j < src.len() && src[j] == x;
                assert(src.contains(x));
            }
            if src.contains(x) {
                let j = choose|j: int| 0 <= j < src.len() && src[j] == x;
                assert(prefix_has(src, src.len() as int, x));
            }
        }
        assert(t.wf());
    }
    t
}

} // verus!
