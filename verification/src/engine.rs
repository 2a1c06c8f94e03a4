//! The constraint engine: one filtering pass consumes a guess, its
//! per-position feedback, the two indices and the current vocabulary, and
//! returns a narrower vocabulary. Positional constraints run first, then
//! frequency constraints.

use crate::counting::cnt_ch;
use crate::counting::count_ch;
use crate::dictionary::freq_bucket;
use crate::dictionary::green_bucket;
use crate::dictionary::str_to_word;
use crate::dictionary::CharFreqTable;
use crate::dictionary::GreenTable;
use crate::dictionary::Words;
use crate::feedback::honest_feedback;
use crate::feedback::lemma_guess_eliminated;
use crate::feedback::lemma_secret_survives;
use crate::feedback::lemma_strict_narrowing;
use crate::freq::bld_freq_info_table;
use crate::freq::spec_high;
use crate::freq::spec_low;
use crate::freq::FreqInfo;
use crate::hint::Hint;
use vstd::prelude::*;

verus! {

/// Whether `w` is a word of the list with letter `c` somewhere other than
/// position `p`.
pub open spec fn elsewhere(src: Seq<Seq<char>>, p: int, c: char, w: Seq<char>) -> bool {
    src.contains(w) && (exists|p2: int| 0 <= p2 < 5 && p2 != p && #[trigger] w[p2] == c)
}

/// What the positional phase keeps at position `p`: a green hint demands the
/// letter there, a yellow hint demands it elsewhere (when any list word can
/// supply that) and forbids it there, a black hint is left to the frequency
/// phase.
pub open spec fn pos_keeps(src: Seq<Seq<char>>, g: Seq<char>, h: Seq<Hint>, p: int, w: Seq<char>) -> bool {
    match h[p] {
        Hint::Green => green_bucket(src, p as usize, g[p], w),
        Hint::Yellow => ((exists|w2: Seq<char>| #[trigger] elsewhere(src, p, g[p], w2))
            ==> elsewhere(src, p, g[p], w)) && !green_bucket(src, p as usize, g[p], w),
        Hint::Black => true,
    }
}

/// What the positional phase keeps over the first `n` positions.
pub open spec fn phase1_keeps_upto(
    src: Seq<Seq<char>>,
    g: Seq<char>,
    h: Seq<Hint>,
    n: int,
    w: Seq<char>,
) -> bool {
    forall|p: int| 0 <= p < n ==> #[trigger] pos_keeps(src, g, h, p, w)
}

/// What the positional phase keeps.
pub open spec fn phase1_keeps(src: Seq<Seq<char>>, g: Seq<char>, h: Seq<Hint>, w: Seq<char>) -> bool {
    phase1_keeps_upto(src, g, h, 5, w)
}

/// Uses the green and yellow hints to reduce the vocabulary. For a green
/// hint the vocabulary is intersected with the words having the letter at
/// that position; for a yellow hint it is intersected with the words having
/// the letter elsewhere and the words having it at that position are
/// removed.
pub fn process_position_hints(vocab: &mut Words, gt: &GreenTable, guess: &str, hints: &[Hint])
    requires
        old(vocab).wf(),
        gt.wf(),
        guess@.len() == 5,
        hints@.len() == 5,
    ensures
        final(vocab).wf(),
        forall|w: Seq<char>|
            #![trigger final(vocab)@.contains(w)]
            #![trigger old(vocab)@.contains(w)]
            final(vocab)@.contains(w) <==> (old(vocab)@.contains(w) && phase1_keeps(
                gt.src(),
                guess@,
                hints@,
                w,
            )),
        final(vocab)@.len() <= old(vocab)@.len(),
{
    let g = str_to_word(guess);
    let ghost src = gt.src();
    let mut idx: usize = 0;
    while idx < 5
        invariant
            g@ == guess@,
            g@.len() == 5,
            hints@.len() == 5,
            gt.wf(),
            src == gt.src(),
            idx <= 5,
            vocab.wf(),
            vocab@.len() <= old(vocab)@.len(),
            forall|w: Seq<char>|
                #![trigger vocab@.contains(w)]
                #![trigger old(vocab)@.contains(w)]
                vocab@.contains(w) <==> (old(vocab)@.contains(w) && phase1_keeps_upto(
                    src,
                    g@,
                    hints@,
                    idx as int,
                    w,
                )),
        decreases 5 - idx,
    {
        let ch = g[idx];
        let ghost pre = vocab@;
        if !(hints[idx] == Hint::Black) {
            let words = gt.get(idx, ch);
            if hints[idx] == Hint::Green {
                match words {
                    Some(ws) => {
                        vocab.preserve(ws);
                    },
                    None => {
                        let empty = Words::new(&[]);
                        vocab.preserve(&empty);
                    },
                }
                proof {
                    assert forall|w: Seq<char>| #[trigger]
                        vocab@.contains(w) <==> (pre.contains(w) && pos_keeps(
                            src,
                            g@,
                            hints@,
                            idx as int,
                            w,
                        )) by {}
                }
            } else {
                let mut keep_words = Words::new(&[]);
                let mut ii: usize = 0;
                while ii < 5
                    invariant
                        g@.len() == 5,
                        gt.wf(),
                        src == gt.src(),
                        idx < 5,
                        ch == g@[idx as int],
                        ii <= 5,
                        keep_words.wf(),
                        forall|x: Seq<char>|
                            #![trigger keep_words@.contains(x)]
                            keep_words@.contains(x) <==> (exists|p2: int|
                                0 <= p2 < ii && p2 != idx && #[trigger] green_bucket(
                                    src,
                                    p2 as usize,
                                    ch,
                                    x,
                                )),
                    decreases 5 - ii,
                {
                    let ghost kpre = keep_words@;
                    if ii != idx {
                        if let Some(tmp) = gt.get(ii, ch) {
                            keep_words.union(tmp);
                        }
                    }
                    proof {
                        assert forall|x: Seq<char>|
                            #![trigger keep_words@.contains(x)]
                            keep_words@.contains(x) <==> (exists|p2: int|
                                0 <= p2 < ii + 1 && p2 != idx && #[trigger] green_bucket(
                                    src,
                                    p2 as usize,
                                    ch,
                                    x,
                                )) by {
                            if keep_words@.contains(x) {
                                if kpre.contains(x) {
                                    let p2 = choose|p2: int|
                                        0 <= p2 < ii && p2 != idx && #[trigger] green_bucket(
                                            src,
                                            p2 as usize,
                                            ch,
                                            x,
                                        );
                                    assert(0 <= p2 < ii + 1 && p2 != idx && green_bucket(
                                        src,
                                        p2 as usize,
                                        ch,
                                        x,
                                    ));
                                } else {
                                    assert(ii != idx && green_bucket(src, ii as usize, ch, x));
                                    assert(0 <= ii < ii + 1 && ii != idx);
                                }
                            }
                            if exists|p2: int|
                                0 <= p2 < ii + 1 && p2 != idx && #[trigger] green_bucket(
                                    src,
                                    p2 as usize,
                                    ch,
                                    x,
                                ) {
                                let p2 = choose|p2: int|
                                    0 <= p2 < ii + 1 && p2 != idx && #[trigger] green_bucket(
                                        src,
                                        p2 as usize,
                                        ch,
                                        x,
                                    );
                                if p2 < ii {
                                    assert(kpre.contains(x));
                                } else {
                                    assert(ii != idx);
                                }
                            }
                        }
                    }
                    ii += 1;
                }
                proof {
                    assert forall|x: Seq<char>| #[trigger]
                        keep_words@.contains(x) <==> elsewhere(src, idx as int, ch, x) by {
                        if keep_words@.contains(x) {
                            let p2 = choose|p2: int|
                                0 <= p2 < 5 && p2 != idx && #[trigger] green_bucket(
                                    src,
                                    p2 as usize,
                                    ch,
                                    x,
                                );
                            assert(x[p2] == ch);
                        }
                        if elsewhere(src, idx as int, ch, x) {
                            let p2 = choose|p2: int|
                                0 <= p2 < 5 && p2 != idx as int && #[trigger] x[p2] == ch;
                            assert(green_bucket(src, p2 as usize, ch, x));
                            assert(0 <= p2 < 5 && p2 != idx && green_bucket(
                                src,
                                p2 as usize,
                                ch,
                                x,
                            ));
                        }
                    }
                }
                let ghost mid0 = vocab@;
                if keep_words.total() > 0 {
                    proof {
                        let x0 = keep_words@[0];
                        assert(keep_words@.contains(x0));
                        assert(elsewhere(src, idx as int, ch, x0));
                    }
                    vocab.preserve(&keep_words);
                } else {
                    proof {
                        if exists|w2: Seq<char>| #[trigger] elsewhere(src, idx as int, ch, w2) {
                            let w2 = choose|w2: Seq<char>| #[trigger] elsewhere(
                                src,
                                idx as int,
                                ch,
                                w2,
                            );
                            assert(keep_words@.contains(w2));
                            assert(false);
                        }
                    }
                }
                match words {
                    Some(ws) => {
                        vocab.remove(ws);
                    },
                    None => {},
                }
                proof {
                    assert forall|w: Seq<char>| #[trigger]
                        vocab@.contains(w) <==> (pre.contains(w) && pos_keeps(
                            src,
                            g@,
                            hints@,
                            idx as int,
                            w,
                        )) by {}
                }
            }
        } else {
            proof {
                assert forall|w: Seq<char>| #[trigger]
                    vocab@.contains(w) <==> (pre.contains(w) && pos_keeps(
                        src,
                        g@,
                        hints@,
                        idx as int,
                        w,
                    )) by {}
            }
        }
        proof {
            assert forall|w: Seq<char>|
                #![trigger vocab@.contains(w)]
                #![trigger old(vocab)@.contains(w)]
                vocab@.contains(w) <==> (old(vocab)@.contains(w) && phase1_keeps_upto(
                    src,
                    g@,
                    hints@,
                    idx + 1,
                    w,
                )) by {
                assert(vocab@.contains(w) <==> (pre.contains(w) && pos_keeps(
                    src,
                    g@,
                    hints@,
                    idx as int,
                    w,
                )));
                assert(pre.contains(w) <==> (old(vocab)@.contains(w) && phase1_keeps_upto(
                    src,
                    g@,
                    hints@,
                    idx as int,
                    w,
                )));
                if phase1_keeps_upto(src, g@, hints@, idx as int, w) && pos_keeps(
                    src,
                    g@,
                    hints@,
                    idx as int,
                    w,
                ) {
                    assert forall|p: int| 0 <= p < idx + 1 implies #[trigger] pos_keeps(
                        src,
                        g@,
                        hints@,
                        p,
                        w,
                    ) by {
                        if p < idx {
                        }
                    }
                    assert(phase1_keeps_upto(src, g@, hints@, idx + 1, w));
                }
                if phase1_keeps_upto(src, g@, hints@, idx + 1, w) {
                    assert(pos_keeps(src, g@, hints@, idx as int, w));
                    assert(phase1_keeps_upto(src, g@, hints@, idx as int, w));
                }
            }
        }
        idx += 1;
    }
}

/// One bound-table entry culls `w`: the word's exact count of that letter
/// falls outside the entry's range.
pub open spec fn entry_culls(src: Seq<Seq<char>>, e: (char, FreqInfo), w: Seq<char>) -> bool {
    src.contains(w) && 1 <= count_ch(w, e.0) <= 5 && (count_ch(w, e.0) < e.1.0 || count_ch(w, e.0)
        > e.1.1)
}

/// One bound-table entry files `w` in the keep set: the word's exact count
/// of that letter lies inside the entry's range.
pub open spec fn entry_keep(src: Seq<Seq<char>>, e: (char, FreqInfo), w: Seq<char>) -> bool {
    src.contains(w) && 1 <= count_ch(w, e.0) <= 5 && e.1.0 <= count_ch(w, e.0) <= e.1.1
}

spec fn entry_culls_upto(src: Seq<Seq<char>>, e: (char, FreqInfo), ii: int, w: Seq<char>) -> bool {
    src.contains(w) && 1 <= count_ch(w, e.0) < ii && (count_ch(w, e.0) < e.1.0 || count_ch(w, e.0)
        > e.1.1)
}

spec fn entry_keep_upto(src: Seq<Seq<char>>, e: (char, FreqInfo), ii: int, w: Seq<char>) -> bool {
    src.contains(w) && 1 <= count_ch(w, e.0) < ii && e.1.0 <= count_ch(w, e.0) <= e.1.1
}

spec fn tbl_culls_upto(
    src: Seq<Seq<char>>,
    pairs: Seq<(char, FreqInfo)>,
    k: int,
    w: Seq<char>,
) -> bool {
    exists|j: int| 0 <= j < k && entry_culls(src, #[trigger] pairs[j], w)
}

spec fn tbl_keep_upto(
    src: Seq<Seq<char>>,
    pairs: Seq<(char, FreqInfo)>,
    k: int,
    w: Seq<char>,
) -> bool {
    exists|j: int| 0 <= j < k && entry_keep(src, #[trigger] pairs[j], w)
}

/// The frequency phase removes `w`: some guess letter's exact count in `w`
/// falls outside that letter's inferred bound.
pub open spec fn phase2_culls(src: Seq<Seq<char>>, g: Seq<char>, h: Seq<Hint>, w: Seq<char>) -> bool {
    exists|c: char|
        (#[trigger] cnt_ch(g, c, 5)) >= 1 && src.contains(w) && 1 <= count_ch(w, c) <= 5 && (
        count_ch(w, c) < spec_low(g, h, c) || count_ch(w, c) > spec_high(g, h, c))
}

/// The frequency phase files `w` in its keep set: some guess letter's exact
/// count in `w` lies inside that letter's inferred bound.
pub open spec fn phase2_keep_of(src: Seq<Seq<char>>, g: Seq<char>, h: Seq<Hint>, w: Seq<char>) -> bool {
    exists|c: char|
        (#[trigger] cnt_ch(g, c, 5)) >= 1 && src.contains(w) && 1 <= count_ch(w, c) <= 5
            && spec_low(g, h, c) <= count_ch(w, c) <= spec_high(g, h, c)
}

/// What the frequency phase keeps: the word survives every removed bucket,
/// and, where any word at all lands in the keep set, this word does.
pub open spec fn phase2_keeps(src: Seq<Seq<char>>, g: Seq<char>, h: Seq<Hint>, w: Seq<char>) -> bool {
    &&& !phase2_culls(src, g, h, w)
    &&& ((exists|w2: Seq<char>| #[trigger] phase2_keep_of(src, g, h, w2)) ==> phase2_keep_of(
        src,
        g,
        h,
        w,
    ))
}

/// What one whole filtering pass keeps: both phases.
pub open spec fn pass_keeps(
    gsrc: Seq<Seq<char>>,
    fsrc: Seq<Seq<char>>,
    g: Seq<char>,
    h: Seq<Hint>,
    w: Seq<char>,
) -> bool {
    phase1_keeps(gsrc, g, h, w) && phase2_keeps(fsrc, g, h, w)
}

/// Uses the clues to reduce the vocabulary: the positional phase first,
/// then the frequency phase over the per-letter bound table.
pub fn process_hints(
    vocab: Words,
    gt: &GreenTable,
    ft: &CharFreqTable,
    guess: &str,
    hints: &[Hint],
) -> (r: Words)
    requires
        vocab.wf(),
        gt.wf(),
        ft.wf(),
        guess@.len() == 5,
        hints@.len() == 5,
    ensures
        r.wf(),
        forall|w: Seq<char>|
            #![trigger r@.contains(w)]
            #![trigger vocab@.contains(w)]
            r@.contains(w) <==> (vocab@.contains(w) && pass_keeps(
                gt.src(),
                ft.src(),
                guess@,
                hints@,
                w,
            )),
        r@.len() <= vocab@.len(),
        forall|s: Seq<char>|
            #![trigger honest_feedback(s, guess@)]
            (s.len() == 5 && vocab@.contains(s) && gt.src().contains(s) && ft.src().contains(s)
                && hints@ == honest_feedback(s, guess@)) ==> r@.contains(s),
        forall|s: Seq<char>|
            #![trigger honest_feedback(s, guess@)]
            (s.len() == 5 && s != guess@ && gt.src().contains(guess@) && ft.src().contains(guess@)
                && hints@ == honest_feedback(s, guess@)) ==> !r@.contains(guess@),
        forall|s: Seq<char>|
            #![trigger honest_feedback(s, guess@)]
            (s.len() == 5 && s != guess@ && vocab@.contains(s) && vocab@.contains(guess@)
                && gt.src().contains(s) && ft.src().contains(s) && gt.src().contains(guess@)
                && ft.src().contains(guess@) && hints@ == honest_feedback(s, guess@))
                ==> r@.len() < vocab@.len(),
{
    let ghost vocab0 = vocab@;
    let mut vocab = vocab;
    process_position_hints(&mut vocab, gt, guess, hints);
    let ghost p1set = vocab@;
    let ghost fsrc = ft.src();
    let freq = bld_freq_info_table(hints, guess);
    let ghost pairs = freq.pairs();
    let mut keep_words = Words::new(&[]);
    let n_entries = freq.count();
    let mut k: usize = 0;
    while k < n_entries
        invariant
            guess@.len() == 5,
            hints@.len() == 5,
            ft.wf(),
            fsrc == ft.src(),
            freq.wf(),
            pairs == freq.pairs(),
            n_entries == pairs.len(),
            forall|c: char| #[trigger] freq.has_char(c) <==> cnt_ch(guess@, c, 5) >= 1,
            forall|c: char| #[trigger]
                freq.has_char(c) ==> freq.at(c).0 == spec_low(guess@, hints@, c) && freq.at(c).1
                    == spec_high(guess@, hints@, c),
            k <= pairs.len(),
            vocab.wf(),
            keep_words.wf(),
            vocab@.len() <= p1set.len(),
            p1set.len() <= vocab0.len(),
            forall|w: Seq<char>|
                #![trigger p1set.contains(w)]
                p1set.contains(w) <==> (vocab0.contains(w) && phase1_keeps(
                    gt.src(),
                    guess@,
                    hints@,
                    w,
                )),
            forall|w: Seq<char>|
                #![trigger vocab@.contains(w)]
                vocab@.contains(w) <==> (p1set.contains(w) && !tbl_culls_upto(
                    fsrc,
                    pairs,
                    k as int,
                    w,
                )),
            forall|x: Seq<char>|
                #![trigger keep_words@.contains(x)]
                keep_words@.contains(x) <==> tbl_keep_upto(fsrc, pairs, k as int, x),
        decreases pairs.len() - k,
    {
        let e = freq.entry_at(k);
        let (ch, fi) = e;
        let ghost ge = pairs[k as int];
        let mut ii: usize = 1;
        while ii <= 5
            invariant
                guess@.len() == 5,
                hints@.len() == 5,
                ft.wf(),
                fsrc == ft.src(),
                k < pairs.len(),
                ge == pairs[k as int],
                ch == ge.0,
                fi == ge.1,
                1 <= ii <= 6,
                vocab.wf(),
                keep_words.wf(),
                vocab@.len() <= p1set.len(),
                forall|w: Seq<char>|
                    #![trigger vocab@.contains(w)]
                    vocab@.contains(w) <==> (p1set.contains(w) && !tbl_culls_upto(
                        fsrc,
                        pairs,
                        k as int,
                        w,
                    ) && !entry_culls_upto(fsrc, ge, ii as int, w)),
                forall|x: Seq<char>|
                    #![trigger keep_words@.contains(x)]
                    keep_words@.contains(x) <==> (tbl_keep_upto(fsrc, pairs, k as int, x)
                        || entry_keep_upto(fsrc, ge, ii as int, x)),
            decreases 6 - ii,
        {
            let ghost vpre = vocab@;
            let ghost kpre = keep_words@;
            match ft.get(ii, ch) {
                Some(tmp) => {
                    if ii < fi.0 || ii > fi.1 {
                        vocab.remove(tmp);
                        proof {
                            assert forall|w: Seq<char>|
                                #![trigger vocab@.contains(w)]
                                vocab@.contains(w) <==> (p1set.contains(w) && !tbl_culls_upto(
                                    fsrc,
                                    pairs,
                                    k as int,
                                    w,
                                ) && !entry_culls_upto(fsrc, ge, ii + 1, w)) by {
                                assert(vocab@.contains(w) <==> (vpre.contains(w)
                                    && !tmp@.contains(w)));
                                assert(tmp@.contains(w) <==> freq_bucket(
                                    fsrc,
                                    ii,
                                    ch,
                                    w,
                                ));
                            }
                        }
                    } else {
                        keep_words.union(tmp);
                        proof {
                            assert forall|x: Seq<char>|
                                #![trigger keep_words@.contains(x)]
                                keep_words@.contains(x) <==> (tbl_keep_upto(fsrc, pairs, k as int, x)
                                    || entry_keep_upto(fsrc, ge, ii + 1, x)) by {
                                assert(keep_words@.contains(x) <==> (kpre.contains(x)
                                    || tmp@.contains(x)));
                                assert(tmp@.contains(x) <==> freq_bucket(
                                    fsrc,
                                    ii,
                                    ch,
                                    x,
                                ));
                            }
                        }
                    }
                },
                None => {
                    proof {
                        assert forall|w: Seq<char>|
                            #![trigger vocab@.contains(w)]
                            vocab@.contains(w) <==> (p1set.contains(w) && !tbl_culls_upto(
                                fsrc,
                                pairs,
                                k as int,
                                w,
                            ) && !entry_culls_upto(fsrc, ge, ii + 1, w)) by {
                            if entry_culls_upto(fsrc, ge, ii + 1, w) && !entry_culls_upto(
                                fsrc,
                                ge,
                                ii as int,
                                w,
                            ) {
                                assert(count_ch(w, ch) == ii);
                                assert(freq_bucket(fsrc, ii, ch, w));
                                assert(false);
                            }
                        }
                        assert forall|x: Seq<char>|
                            #![trigger keep_words@.contains(x)]
                            keep_words@.contains(x) <==> (tbl_keep_upto(fsrc, pairs, k as int, x)
                                || entry_keep_upto(fsrc, ge, ii + 1, x)) by {
                            if entry_keep_upto(fsrc, ge, ii + 1, x) && !entry_keep_upto(
                                fsrc,
                                ge,
                                ii as int,
                                x,
                            ) {
                                assert(count_ch(x, ch) == ii);
                                assert(freq_bucket(fsrc, ii, ch, x));
                                assert(false);
                            }
                        }
                    }
                },
            }
            ii += 1;
        }
        proof {
            assert forall|w: Seq<char>|
                #![trigger vocab@.contains(w)]
                vocab@.contains(w) <==> (p1set.contains(w) && !tbl_culls_upto(
                    fsrc,
                    pairs,
                    k + 1,
                    w,
                )) by {
                assert(entry_culls_upto(fsrc, ge, 6, w) == entry_culls(fsrc, ge, w));
                if tbl_culls_upto(fsrc, pairs, k as int, w) {
                    let j = choose|j: int| 0 <= j < k && entry_culls(fsrc, #[trigger] pairs[j], w);
                    assert(0 <= j < k + 1 && entry_culls(fsrc, pairs[j], w));
                }
                if entry_culls(fsrc, ge, w) {
                    assert(0 <= k < k + 1 && entry_culls(fsrc, pairs[k as int], w));
                }
                if tbl_culls_upto(fsrc, pairs, k + 1, w) {
                    let j = choose|j: int|
                        0 <= j < k + 1 && entry_culls(fsrc, #[trigger] pairs[j], w);
                    if j < k {
                        assert(tbl_culls_upto(fsrc, pairs, k as int, w));
                    } else {
                        assert(entry_culls(fsrc, ge, w));
                    }
                }
            }
            assert forall|x: Seq<char>|
                #![trigger keep_words@.contains(x)]
                keep_words@.contains(x) <==> tbl_keep_upto(fsrc, pairs, k + 1, x) by {
                assert(entry_keep_upto(fsrc, ge, 6, x) == entry_keep(fsrc, ge, x));
                if tbl_keep_upto(fsrc, pairs, k as int, x) {
                    let j = choose|j: int| 0 <= j < k && entry_keep(fsrc, #[trigger] pairs[j], x);
                    assert(0 <= j < k + 1 && entry_keep(fsrc, pairs[j], x));
                }
                if entry_keep(fsrc, ge, x) {
                    assert(0 <= k < k + 1 && entry_keep(fsrc, pairs[k as int], x));
                }
                if tbl_keep_upto(fsrc, pairs, k + 1, x) {
                    let j = choose|j: int|
                        0 <= j < k + 1 && entry_keep(fsrc, #[trigger] pairs[j], x);
                    if j < k {
                        assert(tbl_keep_upto(fsrc, pairs, k as int, x));
                    } else {
                        assert(entry_keep(fsrc, ge, x));
                    }
                }
            }
        }
        k += 1;
    }
    proof {
        assert forall|w: Seq<char>| #[trigger]
            tbl_culls_upto(fsrc, pairs, pairs.len() as int, w) <==> phase2_culls(
                fsrc,
                guess@,
                hints@,
                w,
            ) by {
            if tbl_culls_upto(fsrc, pairs, pairs.len() as int, w) {
                let j = choose|j: int|
                    0 <= j < pairs.len() && entry_culls(fsrc, #[trigger] pairs[j], w);
                freq.lemma_pairs_entry(j);
                let c = pairs[j].0;
                assert(freq.has_char(c));
                assert(cnt_ch(guess@, c, 5) >= 1);
                assert(freq.at(c) == pairs[j].1);
            }
            if phase2_culls(fsrc, guess@, hints@, w) {
                let c = choose|c: char|
                    (#[trigger] cnt_ch(guess@, c, 5)) >= 1 && fsrc.contains(w) && 1 <= count_ch(
                        w,
                        c,
                    ) <= 5 && (count_ch(w, c) < spec_low(guess@, hints@, c) || count_ch(w, c)
                        > spec_high(guess@, hints@, c));
                assert(freq.has_char(c));
                freq.lemma_pairs_complete(c);
                let j = choose|j: int|
                    0 <= j < freq.pairs().len() && (#[trigger] freq.pairs()[j]).0 == c;
                freq.lemma_pairs_entry(j);
                assert(entry_culls(fsrc, pairs[j], w));
            }
        }
        assert forall|x: Seq<char>| #[trigger]
            tbl_keep_upto(fsrc, pairs, pairs.len() as int, x) <==> phase2_keep_of(
                fsrc,
                guess@,
                hints@,
                x,
            ) by {
            if tbl_keep_upto(fsrc, pairs, pairs.len() as int, x) {
                let j = choose|j: int|
                    0 <= j < pairs.len() && entry_keep(fsrc, #[trigger] pairs[j], x);
                freq.lemma_pairs_entry(j);
                let c = pairs[j].0;
                assert(freq.has_char(c));
                assert(cnt_ch(guess@, c, 5) >= 1);
                assert(freq.at(c) == pairs[j].1);
            }
            if phase2_keep_of(fsrc, guess@, hints@, x) {
                let c = choose|c: char|
                    (#[trigger] cnt_ch(guess@, c, 5)) >= 1 && fsrc.contains(x) && 1 <= count_ch(
                        x,
                        c,
                    ) <= 5 && spec_low(guess@, hints@, c) <= count_ch(x, c) <= spec_high(
                        guess@,
                        hints@,
                        c,
                    );
                assert(freq.has_char(c));
                freq.lemma_pairs_complete(c);
                let j = choose|j: int|
                    0 <= j < freq.pairs().len() && (#[trigger] freq.pairs()[j]).0 == c;
                freq.lemma_pairs_entry(j);
                assert(entry_keep(fsrc, pairs[j], x));
            }
        }
    }
    let ghost vmid = vocab@;
    if keep_words.total() > 0 {
        proof {
            let x0 = keep_words@[0];
            assert(keep_words@.contains(x0));
            assert(phase2_keep_of(fsrc, guess@, hints@, x0));
        }
        vocab.preserve(&keep_words);
    } else {
        proof {
            if exists|w2: Seq<char>| #[trigger] phase2_keep_of(fsrc, guess@, hints@, w2) {
                let w2 = choose|w2: Seq<char>| #[trigger] phase2_keep_of(fsrc, guess@, hints@, w2);
                assert(keep_words@.contains(w2));
                assert(false);
            }
        }
    }
    proof {
        assert forall|w: Seq<char>|
            #![trigger vocab@.contains(w)]
            #![trigger vocab0.contains(w)]
            vocab@.contains(w) <==> (vocab0.contains(w) && pass_keeps(
                gt.src(),
                ft.src(),
                guess@,
                hints@,
                w,
            )) by {
            assert(p1set.contains(w) <==> (vocab0.contains(w) && phase1_keeps(
                gt.src(),
                guess@,
                hints@,
                w,
            )));
        }
        assert forall|s: Seq<char>|
            s.len() == 5 && vocab0.contains(s) && gt.src().contains(s) && ft.src().contains(s)
                && hints@ == #[trigger] honest_feedback(s, guess@) implies vocab@.contains(s) by {
            lemma_secret_survives(gt.src(), ft.src(), s, guess@, hints@);
        }
        assert forall|s: Seq<char>|
            s.len() == 5 && s != guess@ && gt.src().contains(guess@) && ft.src().contains(guess@)
                && hints@ == #[trigger] honest_feedback(s, guess@) implies !vocab@.contains(
            guess@,
        ) by {
            lemma_guess_eliminated(gt.src(), ft.src(), s, guess@, hints@);
        }
        assert forall|s: Seq<char>|
            s.len() == 5 && s != guess@ && vocab0.contains(s) && vocab0.contains(guess@)
                && gt.src().contains(s) && ft.src().contains(s) && gt.src().contains(guess@)
                && ft.src().contains(guess@) && hints@ == #[trigger] honest_feedback(
                s,
                guess@,
            ) implies vocab@.len() < vocab0.len() by {
            lemma_secret_survives(gt.src(), ft.src(), s, guess@, hints@);
            lemma_guess_eliminated(gt.src(), ft.src(), s, guess@, hints@);
            assert(vocab@.contains(s));
            assert(!vocab@.contains(guess@));
            lemma_strict_narrowing(vocab0, vocab@, guess@);
        }
    }
    vocab
}

} // verus!
