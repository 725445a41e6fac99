use vstd::prelude::*;

verus! {

/// Handle for the syntax collaborator that performs backward searches for
/// an unmatched opening bracket.  The search itself is a plain
/// depth-counting scan over the text store; when no collaborator is
/// supplied, the search is skipped and callers fall back to plain
/// insertion.
pub struct Syntax {}

impl Syntax {
    pub fn new() -> Syntax {
        Syntax {  }
    }
}

/// Whether a character opens a pair (`Some(true)`), closes one
/// (`Some(false)`), or is not part of the pair table (`None`).
pub open spec fn pair_direction_spec(c: char) -> Option<bool> {
    if c == '{' || c == '(' || c == '[' {
        Some(true)
    } else if c == '}' || c == ')' || c == ']' {
        Some(false)
    } else {
        None
    }
}

/// The other half of a pairing character, if it has one.
pub open spec fn counterpart_spec(c: char) -> Option<char> {
    if c == '{' {
        Some('}')
    } else if c == '}' {
        Some('{')
    } else if c == '(' {
        Some(')')
    } else if c == ')' {
        Some('(')
    } else if c == '[' {
        Some(']')
    } else if c == ']' {
        Some('[')
    } else {
        None
    }
}

/// Looks up the pairing direction of a character.
pub fn matching_pair_direction(c: char) -> (r: Option<bool>)
    ensures
        r == pair_direction_spec(c),
{
    if c == '{' || c == '(' || c == '[' {
        Some(true)
    } else if c == '}' || c == ')' || c == ']' {
        Some(false)
    } else {
        None
    }
}

/// Looks up the matching counterpart of a pairing character.
pub fn matching_char(c: char) -> (r: Option<char>)
    ensures
        r == counterpart_spec(c),
{
    if c == '{' {
        Some('}')
    } else if c == '}' {
        Some('{')
    } else if c == '(' {
        Some(')')
    } else if c == ')' {
        Some('(')
    } else if c == '[' {
        Some(']')
    } else if c == ']' {
        Some('[')
    } else {
        None
    }
}

/// Every character with a pairing direction has a counterpart.
pub proof fn lemma_pair_has_counterpart(c: char)
    ensures
        pair_direction_spec(c) is Some ==> counterpart_spec(c) is Some,
{
}

} // verus!
