//! A guess that was played, with the answer it got or is supposed to get.

use crate::pattern::{compute_pattern, pattern_of, same_pattern, Correctness};
use crate::word::chars_of;
use vstd::prelude::*;

verus! {

/// Whether `candidate` could be the hidden word, given that `word` was
/// answered with `pattern`: guessing `word` against it gives `pattern` again,
/// symbol for symbol.
pub open spec fn consistent(
    word: Seq<char>,
    pattern: Seq<Correctness>,
    candidate: Seq<char>,
) -> bool {
    candidate.len() == word.len() && pattern_of(candidate, word) == pattern
}

/// Tests one candidate for `consistent`, given the letters of the played
/// word and its answer.
pub fn check_consistent(word: &Vec<char>, pattern: &Vec<Correctness>, candidate: &str) -> (ok:
    bool)
    ensures
        ok == consistent(word@, pattern@, candidate@),
{
    let letters = chars_of(candidate);
    if letters.len() != word.len() {
        return false;
    }
    let answer = compute_pattern(&letters, word);
    same_pattern(&answer, pattern)
}

/// A guessed word paired with an answer.
#[derive(Debug)]
pub struct GuessResult<'a> {
    pub word: &'a str,
    pub correctness: Vec<Correctness>,
}

impl<'a> GuessResult<'a> {
    /// Whether the answer has one symbol for each letter of the word.
    pub open spec fn well_formed(&self) -> bool {
        self.correctness@.len() == self.word@.len()
    }

    /// Pairs the word `w` with the answer `pattern`.
    pub fn init(w: &'a str, pattern: Vec<Correctness>) -> (record: Self)
        ensures
            record.word == w,
            record.correctness == pattern,
    {
        Self { word: w, correctness: pattern }
    }

    /// Plays `guess` against the hidden word `target`.
    pub fn compute(target: &str, guess: &'a str) -> (record: Self)
        requires
            target@.len() == guess@.len(),
        ensures
            record.word == guess,
            record.correctness@ == pattern_of(target@, guess@),
            record.well_formed(),
    {
        let t = chars_of(target);
        let g = chars_of(guess);
        Self { word: guess, correctness: compute_pattern(&t, &g) }
    }

    /// Whether `word` could be the hidden word: guessing `self.word` against
    /// it reproduces the recorded answer exactly. A word of another length
    /// never does.
    pub fn matches(&self, word: &str) -> (ok: bool)
        ensures
            ok == consistent(self.word@, self.correctness@, word@),
    {
        let played = chars_of(self.word);
        check_consistent(&played, &self.correctness, word)
    }
}

/// The answer computed for a guess against a target keeps that target
/// possible.
pub proof fn lemma_target_stays_consistent(target: Seq<char>, guess: Seq<char>)
    requires
        target.len() == guess.len(),
    ensures
        consistent(guess, pattern_of(target, guess), target),
{
}

} // verus!
