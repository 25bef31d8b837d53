use vstd::prelude::*;
use crate::text::{alphabetic, alphanumeric, chars_of, char_is_alphabetic, char_is_alphanumeric};

verus! {

/// A definition name: a letter or `_`, then letters, digits or `_`.
pub open spec fn valid_ident(s: Seq<char>) -> bool {
    &&& s.len() > 0
    &&& (alphabetic(s[0]) || s[0] == '_')
    &&& forall|i: int| 1 <= i < s.len() ==> (alphanumeric(#[trigger] s[i]) || s[i] == '_')
}

/// Check if a string is a valid identifier: starts with letter or '_',
/// followed by alphanumeric or '_'.
pub fn is_valid_ident(s: &str) -> (r: bool)
    ensures
        r == valid_ident(s@),
{
    let cs = chars_of(s);
    if cs.len() == 0 {
        return false;
    }
    let first = cs[0];
    if !(char_is_alphabetic(first) || first == '_') {
        return false;
    }
    let mut i: usize = 1;
    while i < cs.len()
        invariant
            cs@ == s@,
            1 <= i <= cs@.len(),
            alphabetic(s@[0]) || s@[0] == '_',
            forall|k: int| 1 <= k < i ==> (alphanumeric(#[trigger] s@[k]) || s@[k] == '_'),
        decreases cs.len() - i,
    {
        let c = cs[i];
        if !(char_is_alphanumeric(c) || c == '_') {
            return false;
        }
        i = i + 1;
    }
    true
}

} // verus!
