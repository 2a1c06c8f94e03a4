use webster::freq::bld_freq_info_table;
use webster::freq::FreqInfo;
use webster::freq::FreqTable;
use webster::hint::Hint;

fn apply_state(hints: &Vec<Hint>) -> FreqInfo {
    let mut info = FreqInfo::new(&hints[0]);

    for hint in &hints[1..] {
        info.update(hint)
    }
    info
}

#[test]
fn test_freq_info() {
    assert_eq!(apply_state(&vec![Hint::Black]), FreqInfo(0, 0));
    assert_eq!(apply_state(&vec![Hint::Yellow]), FreqInfo(1, 5));
    assert_eq!(apply_state(&vec![Hint::Green]), FreqInfo(1, 5));

    assert_eq!(apply_state(&vec![Hint::Black, Hint::Black]), FreqInfo(0, 0));
    assert_eq!(apply_state(&vec![Hint::Black, Hint::Yellow]), FreqInfo(1, 1));
    assert_eq!(apply_state(&vec![Hint::Black, Hint::Green]), FreqInfo(1, 1));

    assert_eq!(apply_state(&vec![Hint::Yellow, Hint::Black]), FreqInfo(1, 1));
    assert_eq!(apply_state(&vec![Hint::Yellow, Hint::Yellow]), FreqInfo(2, 5));
    assert_eq!(apply_state(&vec![Hint::Yellow, Hint::Green]), FreqInfo(2, 5));

    assert_eq!(apply_state(&vec![Hint::Green, Hint::Black]), FreqInfo(1, 1));
    assert_eq!(apply_state(&vec![Hint::Green, Hint::Yellow]), FreqInfo(2, 5));
    assert_eq!(apply_state(&vec![Hint::Green, Hint::Green]), FreqInfo(2, 5));

    assert_eq!(
        apply_state(&vec![Hint::Black, Hint::Black, Hint::Black]),
        FreqInfo(0, 0)
    );
    assert_eq!(
        apply_state(&vec![Hint::Black, Hint::Yellow, Hint::Black]),
        FreqInfo(1, 1)
    );
    assert_eq!(
        apply_state(&vec![Hint::Black, Hint::Green, Hint::Black]),
        FreqInfo(1, 1)
    );

    assert_eq!(
        apply_state(&vec![Hint::Green, Hint::Yellow, Hint::Black]),
        FreqInfo(2, 2)
    );
}

#[test]
fn test_freq_info_table() {
    {
        let tbl = bld_freq_info_table(
            &vec![
                Hint::Black,
                Hint::Black,
                Hint::Black,
                Hint::Black,
                Hint::Black,
            ],
            "abcde",
        );
        let mut expected = FreqTable::new();

        expected.insert('a', FreqInfo(0, 0));
        expected.insert('b', FreqInfo(0, 0));
        expected.insert('c', FreqInfo(0, 0));
        expected.insert('d', FreqInfo(0, 0));
        expected.insert('e', FreqInfo(0, 0));

        assert_eq!(tbl, expected);
    }
    {
        let tbl = bld_freq_info_table(
            &vec![
                Hint::Yellow,
                Hint::Black,
                Hint::Black,
                Hint::Black,
                Hint::Black,
            ],
            "abcde",
        );
        let mut expected = FreqTable::new();

        expected.insert('a', FreqInfo(1, 5));
        expected.insert('b', FreqInfo(0, 0));
        expected.insert('c', FreqInfo(0, 0));
        expected.insert('d', FreqInfo(0, 0));
        expected.insert('e', FreqInfo(0, 0));

        assert_eq!(tbl, expected);
    }
    {
        let tbl = bld_freq_info_table(
            &vec![
                Hint::Yellow,
                Hint::Yellow,
                Hint::Black,
                Hint::Black,
                Hint::Black,
            ],
            "aabcd",
        );
        let mut expected = FreqTable::new();

        expected.insert('a', FreqInfo(2, 5));
        expected.insert('b', FreqInfo(0, 0));
        expected.insert('c', FreqInfo(0, 0));
        expected.insert('d', FreqInfo(0, 0));

        assert_eq!(tbl, expected);
    }
    {
        let tbl = bld_freq_info_table(
            &vec![
                Hint::Yellow,
                Hint::Yellow,
                Hint::Black,
                Hint::Black,
                Hint::Black,
            ],
            "aaabc",
        );
        let mut expected = FreqTable::new();

        expected.insert('a', FreqInfo(2, 2));
        expected.insert('b', FreqInfo(0, 0));
        expected.insert('c', FreqInfo(0, 0));

        assert_eq!(tbl, expected);
    }
    {
        let tbl = bld_freq_info_table(
            &vec![
                Hint::Yellow,
                Hint::Yellow,
                Hint::Black,
                Hint::Yellow,
                Hint::Black,
            ],
            "aaabc",
        );
        let mut expected = FreqTable::new();

        expected.insert('a', FreqInfo(2, 2));
        expected.insert('b', FreqInfo(1, 3));
        expected.insert('c', FreqInfo(0, 0));

        assert_eq!(tbl, expected);
    }
    {
        let tbl = bld_freq_info_table(
            &vec![
                Hint::Yellow,
                Hint::Yellow,
                Hint::Black,
                Hint::Yellow,
                Hint::Black,
            ],
            "aacbd",
        );
        let mut expected = FreqTable::new();

        expected.insert('a', FreqInfo(2, 4));
        expected.insert('b', FreqInfo(1, 3));
        expected.insert('c', FreqInfo(0, 0));
        expected.insert('d', FreqInfo(0, 0));

        assert_eq!(tbl, expected);
    }
}

#[test]
fn test_freq_table_lookup() {
    let tbl = bld_freq_info_table(
        &vec![
            Hint::Yellow,
            Hint::Yellow,
            Hint::Black,
            Hint::Yellow,
            Hint::Black,
        ],
        "aacbd",
    );
    let mut expected = FreqTable::new();
    expected.insert('z', FreqInfo(9, 9));
    assert!(tbl != expected);

    let mut same = FreqTable::new();
    same.insert('d', FreqInfo(0, 0));
    same.insert('c', FreqInfo(0, 0));
    same.insert('b', FreqInfo(1, 3));
    same.insert('a', FreqInfo(2, 4));
    assert_eq!(tbl, same);
}
