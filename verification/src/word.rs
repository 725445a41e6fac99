use vstd::prelude::*;

verus! {

/// Coarse classification of a character, used to decide whether the
/// context next to a caret is "safe" for auto-inserting a closing pair.
#[derive(Clone, Copy, Debug, PartialEq, Eq, Structural)]
pub enum WordProperty {
    Lf,
    Space,
    Punctuation,
    Other,
}

/// ASCII punctuation, in the sense used to gate auto-closing.
pub open spec fn is_punctuation_spec(c: char) -> bool {
    let u = c as u32;
    (0x21 <= u && u <= 0x2f) || (0x3a <= u && u <= 0x40) || (0x5b <= u && u <= 0x5e) || u == 0x60
        || (0x7b <= u && u <= 0x7e)
}

/// Classification of a character: linebreak, space (any control char or
/// blank), ASCII punctuation, or anything else.
pub open spec fn word_property_spec(c: char) -> WordProperty {
    if c == '\n' {
        WordProperty::Lf
    } else if c as u32 <= 0x20 {
        WordProperty::Space
    } else if is_punctuation_spec(c) {
        WordProperty::Punctuation
    } else {
        WordProperty::Other
    }
}

/// Classifies a character for word purposes.
pub fn get_word_property(c: char) -> (r: WordProperty)
    ensures
        r == word_property_spec(c),
{
    if c == '\n' {
        return WordProperty::Lf;
    }
    let u = c as u32;
    if u <= 0x20 {
        return WordProperty::Space;
    }
    if (0x21 <= u && u <= 0x2f) || (0x3a <= u && u <= 0x40) || (0x5b <= u && u <= 0x5e) || u
        == 0x60 || (0x7b <= u && u <= 0x7e) {
        return WordProperty::Punctuation;
    }
    WordProperty::Other
}

} // verus!
