use webster::dictionary::str_to_word;
use webster::dictionary::word_eq;
use webster::dictionary::Words;

#[test]
fn test_words_new_dedups() {
    let v = Words::new(&["apple", "crane", "apple"]);
    assert_eq!(v.total(), 2);
    assert!(v.contains(&str_to_word("apple")));
    assert!(v.contains(&str_to_word("crane")));
    assert!(!v.contains(&str_to_word("slate")));
}

#[test]
fn test_words_set_equality_ignores_order() {
    let a = Words::new(&["apple", "crane"]);
    let b = Words::new(&["crane", "apple"]);
    assert_eq!(a, b);
    let c = Words::new(&["apple"]);
    assert!(a != c);
}

#[test]
fn test_preserve_intersects() {
    let mut a = Words::new(&["apple", "crane", "slate"]);
    let b = Words::new(&["crane", "slate", "gloat"]);
    a.preserve(&b);
    assert_eq!(a, Words::new(&["crane", "slate"]));
}

#[test]
fn test_remove_differences() {
    let mut a = Words::new(&["apple", "crane", "slate"]);
    let b = Words::new(&["crane"]);
    a.remove(&b);
    assert_eq!(a, Words::new(&["apple", "slate"]));
}

#[test]
fn test_union_accumulates() {
    let mut a = Words::new(&["apple"]);
    let b = Words::new(&["apple", "crane"]);
    a.union(&b);
    assert_eq!(a, Words::new(&["apple", "crane"]));
    assert_eq!(a.total(), 2);
}

#[test]
fn test_empty_set_operations() {
    let mut a = Words::new(&[]);
    assert_eq!(a.total(), 0);
    let b = Words::new(&["apple"]);
    a.preserve(&b);
    assert_eq!(a.total(), 0);
    a.remove(&b);
    assert_eq!(a.total(), 0);
}

#[test]
fn test_pick_word_deterministic() {
    let v = Words::new(&["apple", "crane", "slate"]);
    let first = v.pick_word(0).unwrap().clone();
    let again = v.pick_word(0).unwrap().clone();
    assert!(word_eq(&first, &again));
    let shifted = v.pick_word(3).unwrap().clone();
    assert!(word_eq(&first, &shifted));
    assert!(v.contains(&first));

    let empty = Words::new(&[]);
    assert!(empty.pick_word(7).is_none());
}
