//! The three-valued feedback alphabet and its boundary parsing/rendering.

use vstd::prelude::*;
use vstd::string::StrSliceExecFns;
use vstd::string::StringExecFns;

verus! {

/// Color scheme for rendering a row of feedback glyphs.
#[derive(Clone, Copy, PartialEq, Eq, Structural, Debug)]
pub enum Theme {
    Normal,
    HighContrast,
}

/// One per-position feedback symbol: `Green` means the guessed letter sits at
/// this exact position in the secret, `Yellow` means it occurs elsewhere in
/// the secret, and `Black` means the secret holds no further unconfirmed
/// occurrences of it.
#[derive(Clone, PartialEq, Eq, Structural, Debug)]
pub enum Hint {
    Black,
    Yellow,
    Green,
}

/// The glyph a hint renders as under a given theme.
pub open spec fn hint_glyph(h: Hint, theme: Theme) -> char {
    match (h, theme) {
        (Hint::Black, _) => '⬛',
        (Hint::Yellow, Theme::Normal) => '🟨',
        (Hint::Green, Theme::Normal) => '🟩',
        (Hint::Yellow, Theme::HighContrast) => '🟦',
        (Hint::Green, Theme::HighContrast) => '🟧',
    }
}

/// The hint a feedback character stands for, if it is one of the six
/// accepted letters.
pub open spec fn spec_hint_of_char(ch: char) -> Result<Hint, ()> {
    match ch {
        'G' | 'g' => Ok(Hint::Green),
        'Y' | 'y' => Ok(Hint::Yellow),
        'B' | 'b' => Ok(Hint::Black),
        _ => Err(()),
    }
}

impl Hint {
    pub fn to_char(&self, theme: &Theme) -> (c: char)
        ensures
            c == hint_glyph(*self, *theme),
    {
        match (self, theme) {
            (Hint::Black, _) => '⬛',
            (Hint::Yellow, Theme::Normal) => '🟨',
            (Hint::Green, Theme::Normal) => '🟩',
            (Hint::Yellow, Theme::HighContrast) => '🟦',
            (Hint::Green, Theme::HighContrast) => '🟧',
        }
    }

    pub fn try_from(ch: char) -> (r: Result<Hint, ()>)
        ensures
            r == spec_hint_of_char(ch),
    {
        match ch {
            'G' | 'g' => Ok(Hint::Green),
            'Y' | 'y' => Ok(Hint::Yellow),
            'B' | 'b' => Ok(Hint::Black),
            _ => Err(()),
        }
    }
}

/// Relies on String::push: appends exactly the one character.
#[verifier::external_body]
fn push_char(s: &mut String, c: char)
    ensures
        final(s)@ == old(s)@.push(c),
{
    s.push(c);
}

/// Renders a row of hints as a string of glyphs, one per hint.
pub fn to_lossy_string(guess: &[Hint], theme: &Theme) -> (r: String)
    ensures
        r@.len() == guess@.len(),
        forall|i: int| 0 <= i < guess@.len() ==> r@[i] == hint_glyph(guess@[i], *theme),
{
    let mut r = String::from_str("");
    proof {
        reveal_strlit("");
    }
    let mut i: usize = 0;
    while i < guess.len()
        invariant
            i <= guess@.len(),
            r@.len() == i,
            forall|j: int| 0 <= j < i ==> r@[j] == hint_glyph(guess@[j], *theme),
        decreases guess@.len() - i,
    {
        let c = guess[i].to_char(theme);
        push_char(&mut r, c);
        i += 1;
    }
    r
}

/// Parses a whole feedback line into hints: accepted exactly when the line
/// has five characters, each one of the six accepted hint letters.
pub fn parse_hints(s: &str) -> (r: Option<Vec<Hint>>)
    ensures
        r is Some <==> (s@.len() == 5 && forall|i: int|
            0 <= i < 5 ==> (#[trigger] spec_hint_of_char(s@[i])) is Ok),
        r matches Some(v) ==> v@.len() == 5 && forall|i: int|
            0 <= i < 5 ==> Ok::<Hint, ()>(v@[i]) == spec_hint_of_char(s@[i]),
{
    let n = s.unicode_len();
    if n != 5 {
        return None;
    }
    let mut v: Vec<Hint> = Vec::new();
    let mut i: usize = 0;
    while i < 5
        invariant
            s@.len() == 5,
            i <= 5,
            v@.len() == i,
            forall|j: int| 0 <= j < i ==> Ok::<Hint, ()>(v@[j]) == spec_hint_of_char(s@[j]),
        decreases 5 - i,
    {
        let ch = s.get_char(i);
        match Hint::try_from(ch) {
            Ok(h) => {
                v.push(h);
            },
            Err(_) => {
                return None;
            },
        }
        i += 1;
    }
    Some(v)
}

} // verus!
