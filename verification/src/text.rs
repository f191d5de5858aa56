//! Small operations on strings, each stated over the characters of its view.

use vstd::prelude::*;

verus! {

/// `String::push` appends one character at the end and leaves the rest as it was.
pub assume_specification[ String::push ](text: &mut String, c: char)
    ensures
        final(text)@ == old(text)@.push(c),
;

/// The characters of `text`, in order.
pub fn chars_of(text: &str) -> (chars: Vec<char>)
    ensures
        chars@ == text@,
{
    let mut chars: Vec<char> = Vec::new();
    for c in it: text.chars()
        invariant
            it.seq() == text@,
            chars@ == text@.take(it.index() as int),
    {
        chars.push(c);
    }
    chars
}

/// Whether `text` is the one character `c`.
pub fn is_char(text: &str, c: char) -> (yes: bool)
    ensures
        yes == (text@ == seq![c]),
{
    let yes = text.unicode_len() == 1 && text.get_char(0) == c;
    proof {
        if yes {
            assert(text@ =~= seq![c]);
        }
    }
    yes
}

/// Whether `text` is the two characters `first`, `second`.
pub fn is_pair(text: &str, first: char, second: char) -> (yes: bool)
    ensures
        yes == (text@ == seq![first, second]),
{
    let yes = text.unicode_len() == 2 && text.get_char(0) == first && text.get_char(1) == second;
    proof {
        if yes {
            assert(text@ =~= seq![first, second]);
        }
    }
    yes
}

} // verus!
