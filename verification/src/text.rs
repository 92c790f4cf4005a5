//! What the rest of the crate needs from `str`, `String` and a vector of
//! strings.

use vstd::prelude::*;

verus! {

/// `String::push` appends the character to the end of the string.
pub assume_specification[ std::string::String::push ](s: &mut std::string::String, ch: char)
    ensures
        final(s)@ == old(s)@.push(ch),
;

/// `==` on `str` holds exactly when both hold the same characters.
pub assume_specification[ <str as PartialEq>::eq ](a: &str, b: &str) -> (r: bool)
    ensures
        r == (a@ == b@),
;

/// The characters of `input`, in order.
pub(crate) fn chars_of(input: &str) -> (chars: Vec<char>)
    ensures
        chars@ == input@,
{
    let mut chars: Vec<char> = Vec::new();
    for c in it: input.chars()
        invariant
            chars@ == it.seq().take(it.index()),
            it.seq() == input@,
    {
        chars.push(c);
    }
    chars
}

/// Puts `text` at the end of `texts`.
pub(crate) fn push_text(texts: &mut Vec<String>, text: String)
    ensures
        final(texts).deep_view() == old(texts).deep_view().push(text@),
{
    let ghost before = texts.deep_view();
    texts.push(text);
    assert(texts.deep_view() =~= before.push(text@));
}

/// Takes the last of `texts`, where there is one.
pub(crate) fn pop_text(texts: &mut Vec<String>) -> (last: Option<String>)
    ensures
        match last {
            Some(text) => {
                &&& old(texts).len() > 0
                &&& text@ == old(texts).deep_view().last()
                &&& final(texts).deep_view() == old(texts).deep_view().drop_last()
            },
            None => old(texts).len() == 0 && final(texts).deep_view() == old(texts).deep_view(),
        },
{
    let ghost before = texts.deep_view();
    let last = texts.pop();
    proof {
        if before.len() > 0 {
            assert(texts.deep_view() =~= before.drop_last());
        } else {
            assert(texts.deep_view() =~= before);
        }
    }
    last
}

} // verus!
