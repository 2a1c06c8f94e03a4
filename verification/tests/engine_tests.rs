use webster::dictionary::mk_freq_tbl;
use webster::dictionary::mk_green_tbl;
use webster::dictionary::Words;
use webster::engine::process_hints;
use webster::engine::process_position_hints;
use webster::hint::Hint;

#[test]
fn test_position_hints() {
    {
        let mut vocab = Words::new(&["aaaaa", "bbbba", "cccac"]);
        let gt = mk_green_tbl(&["aaaaa", "bbbba", "cccac"]);
        let expected = Words::new(&["aaaaa", "bbbba"]);

        process_position_hints(
            &mut vocab,
            &gt,
            "aaaaa",
            &vec![
                Hint::Black,
                Hint::Black,
                Hint::Black,
                Hint::Black,
                Hint::Green,
            ],
        );
        assert_eq!(vocab, expected);
    }

    {
        let mut vocab = Words::new(&["aaaaa", "bbbba", "cccac"]);
        let gt = mk_green_tbl(&["aaaaa", "bbbba", "cccac"]);
        let expected = Words::new(&["cccac"]);

        process_position_hints(
            &mut vocab,
            &gt,
            "aaaaa",
            &vec![
                Hint::Black,
                Hint::Black,
                Hint::Black,
                Hint::Black,
                Hint::Yellow,
            ],
        );
        assert_eq!(vocab, expected);
    }

    {
        let mut vocab = Words::new(&["aaaaa", "aacab", "bbbba", "cccac"]);
        let gt = mk_green_tbl(&["aaaaa", "aacab", "bbbba", "cccac"]);
        let expected = Words::new(&["aacab"]);

        process_position_hints(
            &mut vocab,
            &gt,
            "aaaac",
            &vec![
                Hint::Black,
                Hint::Black,
                Hint::Black,
                Hint::Green,
                Hint::Yellow,
            ],
        );
        assert_eq!(vocab, expected);
    }
}

// One whole pass with feedback computed against the secret "bbbba": the
// secret survives, the wrong guess does not, and the vocabulary shrinks.
#[test]
fn test_process_hints_keeps_secret() {
    let list = ["aaaaa", "bbbba", "cccac"];
    let vocab = Words::new(&list);
    let gt = mk_green_tbl(&list);
    let ft = mk_freq_tbl(&list);

    // Guess "aaaaa" against secret "bbbba": the last letter is green, the
    // other four copies of 'a' exceed the secret's single one.
    let result = process_hints(
        vocab,
        &gt,
        &ft,
        "aaaaa",
        &vec![
            Hint::Black,
            Hint::Black,
            Hint::Black,
            Hint::Black,
            Hint::Green,
        ],
    );
    let expected = Words::new(&["bbbba"]);
    assert_eq!(result, expected);
}

// A pass whose feedback is all black for letters the vocabulary never uses
// leaves every candidate in place.
#[test]
fn test_process_hints_no_overlap() {
    let list = ["aaaaa", "bbbbb"];
    let vocab = Words::new(&list);
    let gt = mk_green_tbl(&list);
    let ft = mk_freq_tbl(&list);

    let result = process_hints(
        vocab,
        &gt,
        &ft,
        "zzzzz",
        &vec![
            Hint::Black,
            Hint::Black,
            Hint::Black,
            Hint::Black,
            Hint::Black,
        ],
    );
    let expected = Words::new(&["aaaaa", "bbbbb"]);
    assert_eq!(result, expected);
}

// Re-applying the same guess and feedback to the filtered result changes
// nothing.
#[test]
fn test_process_hints_idempotent() {
    let list = ["aaaaa", "aacab", "bbbba", "cccac"];
    let vocab = Words::new(&list);
    let gt = mk_green_tbl(&list);
    let ft = mk_freq_tbl(&list);
    // Feedback for guess "bbbba" computed against the secret "aacab".
    let hints = vec![
        Hint::Yellow,
        Hint::Black,
        Hint::Black,
        Hint::Black,
        Hint::Yellow,
    ];

    let once = process_hints(vocab, &gt, &ft, "bbbba", &hints);
    let count = once.total();
    let again = process_hints(once, &gt, &ft, "bbbba", &hints);
    assert_eq!(again.total(), count);
    let expected = Words::new(&["aacab"]);
    assert_eq!(again, expected);
}

// Filtering never grows the candidate set.
#[test]
fn test_process_hints_monotonic() {
    let list = ["aaaaa", "aacab", "bbbba", "cccac"];
    let vocab = Words::new(&list);
    let before = vocab.total();
    let gt = mk_green_tbl(&list);
    let ft = mk_freq_tbl(&list);

    let result = process_hints(
        vocab,
        &gt,
        &ft,
        "bbbba",
        &vec![
            Hint::Black,
            Hint::Black,
            Hint::Black,
            Hint::Black,
            Hint::Yellow,
        ],
    );
    assert!(result.total() <= before);
}

// Contradictory feedback empties the vocabulary rather than failing.
#[test]
fn test_process_hints_exhausted() {
    let list = ["aaaaa", "bbbbb"];
    let vocab = Words::new(&list);
    let gt = mk_green_tbl(&list);
    let ft = mk_freq_tbl(&list);

    // 'c' green in the first position matches no word at all.
    let result = process_hints(
        vocab,
        &gt,
        &ft,
        "ccccc",
        &vec![
            Hint::Green,
            Hint::Black,
            Hint::Black,
            Hint::Black,
            Hint::Black,
        ],
    );
    assert_eq!(result.total(), 0);
}
