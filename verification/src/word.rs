//! Words as sequences of letters.

use vstd::prelude::*;

verus! {

/// The letters of `s`, one `char` each.
pub fn chars_of(s: &str) -> (letters: Vec<char>)
    ensures
        letters@ == s@,
{
    broadcast use vstd::string::axiom_spec_iter;

    let mut letters: Vec<char> = Vec::new();
    for c in it: s.chars()
        invariant
            it.seq() == s@,
            letters@ == s@.take(it.index()),
    {
        letters.push(c);
    }
    letters
}

} // verus!
