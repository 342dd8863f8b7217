//! Narrowing a list of words: first to the words the game can hold, then to
//! the words an answer leaves possible.

use crate::guess::{check_consistent, consistent, GuessResult};
use crate::pattern::Correctness;
use crate::word::chars_of;
use vstd::prelude::*;

verus! {

/// Whether a word has `length` letters and, where a first letter is known,
/// starts with it.
pub open spec fn eligible(word: Seq<char>, length: int, first_letter: Option<char>) -> bool {
    &&& word.len() == length
    &&& first_letter matches Some(c) ==> word.len() > 0 && word[0] == c
}

/// `eligible` as a predicate on words.
pub open spec fn is_eligible<'a>(length: int, first_letter: Option<char>) -> spec_fn(&'a str) -> bool {
    |w: &'a str| eligible(w@, length, first_letter)
}

/// `consistent` with one played word and its answer, as a predicate on words.
pub open spec fn is_consistent<'a>(word: Seq<char>, pattern: Seq<Correctness>) -> spec_fn(
    &'a str,
) -> bool {
    |w: &'a str| consistent(word, pattern, w@)
}

/// Eligible and consistent at once.
pub open spec fn is_eligible_and_consistent<'a>(
    length: int,
    first_letter: Option<char>,
    word: Seq<char>,
    pattern: Seq<Correctness>,
) -> spec_fn(&'a str) -> bool {
    |w: &'a str| eligible(w@, length, first_letter) && consistent(word, pattern, w@)
}

/// Tests one word for `eligible`.
pub fn check_eligible(word: &str, length: usize, first_letter: Option<char>) -> (ok: bool)
    ensures
        ok == eligible(word@, length as int, first_letter),
{
    let letters = chars_of(word);
    if letters.len() != length {
        return false;
    }
    match first_letter {
        Some(c) => letters.len() > 0 && letters[0] == c,
        None => true,
    }
}

/// Keeps the words of `length` letters that start with the first letter,
/// where one is given, in the order of the list.
pub fn filter_words<'a>(
    words_list: Vec<&'a str>,
    word_size: usize,
    first_letter: Option<char>,
) -> (words: Vec<&'a str>)
    ensures
        words@ == words_list@.filter(is_eligible(word_size as int, first_letter)),
{
    let ghost keep = is_eligible(word_size as int, first_letter);
    let mut words: Vec<&'a str> = Vec::new();
    let mut i: usize = 0;
    proof {
        reveal(Seq::filter);
        assert(words_list@.take(0) =~= Seq::<&str>::empty());
    }
    while i < words_list.len()
        invariant
            i <= words_list@.len(),
            keep == is_eligible(word_size as int, first_letter),
            words@ == words_list@.take(i as int).filter(keep),
        decreases words_list@.len() - i,
    {
        let w = words_list[i];
        proof {
            assert(words_list@.take(i + 1) =~= words_list@.take(i as int).push(w));
            words_list@.take(i as int).lemma_filter_push(w, keep);
        }
        if check_eligible(w, word_size, first_letter) {
            words.push(w);
        }
        i += 1;
    }
    assert(words_list@.take(i as int) =~= words_list@);
    words
}

/// Keeps the candidates that the played `word` and its answer leave
/// possible, in their order.
pub fn retain_consistent<'a>(
    candidates: Vec<&'a str>,
    word: &Vec<char>,
    pattern: &Vec<Correctness>,
) -> (kept: Vec<&'a str>)
    ensures
        kept@ == candidates@.filter(is_consistent(word@, pattern@)),
{
    let ghost keep = is_consistent(word@, pattern@);
    let mut kept: Vec<&'a str> = Vec::new();
    let mut i: usize = 0;
    proof {
        reveal(Seq::filter);
        assert(candidates@.take(0) =~= Seq::<&str>::empty());
    }
    while i < candidates.len()
        invariant
            i <= candidates@.len(),
            keep == is_consistent(word@, pattern@),
            kept@ == candidates@.take(i as int).filter(keep),
        decreases candidates@.len() - i,
    {
        let w = candidates[i];
        proof {
            assert(candidates@.take(i + 1) =~= candidates@.take(i as int).push(w));
            candidates@.take(i as int).lemma_filter_push(w, keep);
        }
        if check_consistent(word, pattern, w) {
            kept.push(w);
        }
        i += 1;
    }
    assert(candidates@.take(i as int) =~= candidates@);
    kept
}

/// The words of the list that the game can hold and that `guess` leaves
/// possible, in the order of the list.
pub fn display_match<'a>(
    words_list: Vec<&'a str>,
    word_size: usize,
    first_letter: char,
    guess: GuessResult,
) -> (words: Vec<&'a str>)
    ensures
        words@ == words_list@.filter(
            is_eligible_and_consistent(
                word_size as int,
                Some(first_letter),
                guess.word@,
                guess.correctness@,
            ),
        ),
{
    let ghost keep = is_eligible_and_consistent(
        word_size as int,
        Some(first_letter),
        guess.word@,
        guess.correctness@,
    );
    let played = chars_of(guess.word);
    let mut words: Vec<&'a str> = Vec::new();
    let mut i: usize = 0;
    proof {
        reveal(Seq::filter);
        assert(words_list@.take(0) =~= Seq::<&str>::empty());
    }
    while i < words_list.len()
        invariant
            i <= words_list@.len(),
            played@ == guess.word@,
            keep == is_eligible_and_consistent(
                word_size as int,
                Some(first_letter),
                guess.word@,
                guess.correctness@,
            ),
            words@ == words_list@.take(i as int).filter(keep),
        decreases words_list@.len() - i,
    {
        let w = words_list[i];
        proof {
            assert(words_list@.take(i + 1) =~= words_list@.take(i as int).push(w));
            words_list@.take(i as int).lemma_filter_push(w, keep);
        }
        if check_eligible(w, word_size, Some(first_letter)) && check_consistent(
            &played,
            &guess.correctness,
            w,
        ) {
            words.push(w);
        }
        i += 1;
    }
    assert(words_list@.take(i as int) =~= words_list@);
    words
}

/// Narrowing by an answer only removes words: what is kept was there before,
/// and each kept word reproduces the answer.
pub proof fn lemma_retained_is_subset(words: Seq<&str>, word: Seq<char>, pattern: Seq<Correctness>)
    ensures
        ({
            let kept = words.filter(is_consistent(word, pattern));
            &&& kept.len() <= words.len()
            &&& forall|w: &str| kept.contains(w) ==> words.contains(w)
            &&& forall|i: int| 0 <= i < kept.len() ==> consistent(word, pattern, (#[trigger] kept[i])@)
        }),
{
    let keep = is_consistent(word, pattern);
    let kept = words.filter(keep);
    words.lemma_filter_len(keep);
    assert forall|w: &str| kept.contains(w) implies words.contains(w) by {
        words.lemma_filter_contains_rev(keep, w);
    }
    assert forall|i: int| 0 <= i < kept.len() implies consistent(word, pattern, (#[trigger] kept[i])@) by {
        words.lemma_filter_pred(keep, i);
    }
}

} // verus!
