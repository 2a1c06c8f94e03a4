use webster::hint::parse_hints;
use webster::hint::to_lossy_string;
use webster::hint::Hint;
use webster::hint::Theme;

#[test]
fn test_try_from_accepts_hint_letters() {
    assert_eq!(Hint::try_from('G'), Ok(Hint::Green));
    assert_eq!(Hint::try_from('g'), Ok(Hint::Green));
    assert_eq!(Hint::try_from('Y'), Ok(Hint::Yellow));
    assert_eq!(Hint::try_from('y'), Ok(Hint::Yellow));
    assert_eq!(Hint::try_from('B'), Ok(Hint::Black));
    assert_eq!(Hint::try_from('b'), Ok(Hint::Black));
    assert_eq!(Hint::try_from('x'), Err(()));
    assert_eq!(Hint::try_from(' '), Err(()));
}

#[test]
fn test_parse_hints() {
    assert_eq!(
        parse_hints("GYBBG"),
        Some(vec![
            Hint::Green,
            Hint::Yellow,
            Hint::Black,
            Hint::Black,
            Hint::Green
        ])
    );
    assert_eq!(
        parse_hints("gybbg"),
        Some(vec![
            Hint::Green,
            Hint::Yellow,
            Hint::Black,
            Hint::Black,
            Hint::Green
        ])
    );
    // Wrong length is rejected.
    assert_eq!(parse_hints("GYBB"), None);
    assert_eq!(parse_hints("GYBBGG"), None);
    assert_eq!(parse_hints(""), None);
    // A letter outside the hint alphabet is rejected.
    assert_eq!(parse_hints("GYBBX"), None);
}

#[test]
fn test_to_char_themes() {
    assert_eq!(Hint::Black.to_char(&Theme::Normal), '⬛');
    assert_eq!(Hint::Black.to_char(&Theme::HighContrast), '⬛');
    assert_eq!(Hint::Yellow.to_char(&Theme::Normal), '🟨');
    assert_eq!(Hint::Green.to_char(&Theme::Normal), '🟩');
    assert_eq!(Hint::Yellow.to_char(&Theme::HighContrast), '🟦');
    assert_eq!(Hint::Green.to_char(&Theme::HighContrast), '🟧');
}

#[test]
fn test_to_lossy_string() {
    let row = vec![
        Hint::Green,
        Hint::Yellow,
        Hint::Black,
        Hint::Yellow,
        Hint::Green,
    ];
    assert_eq!(to_lossy_string(&row, &Theme::Normal), "🟩🟨⬛🟨🟩");
    assert_eq!(to_lossy_string(&row, &Theme::HighContrast), "🟧🟦⬛🟦🟧");
    assert_eq!(to_lossy_string(&Vec::new(), &Theme::Normal), "");
}
