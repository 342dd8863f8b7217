use word_guess::guess::GuessResult;
use word_guess::pattern::compute_pattern;
use word_guess::pattern::same_pattern;
use word_guess::pattern::Correctness;
use word_guess::pattern::Correctness::{Absent, Correct, Misplaced};

fn answer(target: &str, guess: &str) -> Vec<Correctness> {
    GuessResult::compute(target, guess).correctness
}

#[test]
fn own_guess_is_all_correct() {
    assert_eq!(answer("crane", "crane"), vec![Correct; 5]);
    assert_eq!(answer("aabb", "aabb"), vec![Correct; 4]);
    assert_eq!(answer("z", "z"), vec![Correct]);
}

#[test]
fn empty_words_give_an_empty_answer() {
    assert_eq!(answer("", ""), vec![]);
}

#[test]
fn foreign_guess_is_all_absent() {
    assert_eq!(answer("crane", "hobby"), vec![Absent; 5]);
    assert_eq!(answer("aaaa", "bbbb"), vec![Absent; 4]);
}

#[test]
fn letters_out_of_place_are_misplaced() {
    assert_eq!(answer("abcd", "dabc"), vec![Misplaced; 4]);
    assert_eq!(answer("crane", "nacre"), vec![Misplaced, Misplaced, Misplaced, Misplaced, Correct]);
}

#[test]
fn repeated_letter_is_claimed_once() {
    assert_eq!(answer("allow", "llama"), vec![Misplaced, Correct, Misplaced, Absent, Absent]);
}

#[test]
fn duplicate_letters_table() {
    assert_eq!(answer("AABB", "ABAB"), vec![Correct, Misplaced, Misplaced, Correct]);
    assert_eq!(answer("ABBA", "BAAB"), vec![Misplaced; 4]);
    assert_eq!(answer("ABCDE", "AAAAA"), vec![Correct, Absent, Absent, Absent, Absent]);
    assert_eq!(answer("AABCD", "XAAYZ"), vec![Absent, Correct, Misplaced, Absent, Absent]);
    assert_eq!(answer("SPEED", "ERASE"), vec![Misplaced, Absent, Absent, Misplaced, Misplaced]);
    assert_eq!(answer("ERASE", "SPEED"), vec![Misplaced, Absent, Misplaced, Misplaced, Absent]);
    assert_eq!(answer("ABBEY", "BOBBY"), vec![Misplaced, Absent, Correct, Absent, Correct]);
}

#[test]
fn a_letter_in_place_is_claimed_before_one_out_of_place() {
    // The only `b` of the target is in place under the second `b` of the
    // guess, so the first `b` finds none left.
    assert_eq!(answer("abc", "bbx"), vec![Absent, Correct, Absent]);
    assert_eq!(answer("xbb", "bby"), vec![Misplaced, Correct, Absent]);
}

#[test]
fn scan_stops_at_the_first_unclaimed_letter() {
    // Each `l` of the guess claims one `l` of the target.
    assert_eq!(answer("xllx", "lxxl"), vec![Misplaced, Misplaced, Misplaced, Misplaced]);
    assert_eq!(answer("allx", "lxyl"), vec![Misplaced, Misplaced, Absent, Misplaced]);
}

#[test]
fn letters_beyond_ascii_count_as_one() {
    assert_eq!(answer("été", "tée"), vec![Misplaced, Misplaced, Absent]);
    assert_eq!(answer("été", "eté"), vec![Absent, Correct, Correct]);
}

#[test]
fn compute_keeps_the_guess() {
    let r = GuessResult::compute("allow", "llama");
    assert_eq!(r.word, "llama");
}

#[test]
fn compute_pattern_on_letters() {
    let target: Vec<char> = "allow".chars().collect();
    let guess: Vec<char> = "llama".chars().collect();
    assert_eq!(
        compute_pattern(&target, &guess),
        vec![Misplaced, Correct, Misplaced, Absent, Absent]
    );
}

#[test]
fn same_pattern_compares_symbol_by_symbol() {
    assert!(same_pattern(&vec![Correct, Absent], &vec![Correct, Absent]));
    assert!(!same_pattern(&vec![Correct, Absent], &vec![Correct, Misplaced]));
    assert!(!same_pattern(&vec![Correct], &vec![Correct, Correct]));
    assert!(same_pattern(&vec![], &vec![]));
}

#[test]
fn init_keeps_word_and_answer() {
    let r = GuessResult::init("abc", vec![Correct, Misplaced, Absent]);
    assert_eq!(r.word, "abc");
    assert_eq!(r.correctness, vec![Correct, Misplaced, Absent]);
}

#[test]
fn target_matches_its_own_answer() {
    for (target, guess) in [("allow", "llama"), ("speed", "erase"), ("aabb", "abab"), ("", "")] {
        let r = GuessResult::compute(target, guess);
        assert!(r.matches(target));
    }
}

#[test]
fn a_single_differing_symbol_does_not_match() {
    let r = GuessResult::init("llama", vec![Misplaced, Correct, Misplaced, Absent, Absent]);
    assert!(r.matches("allow"));
    let r = GuessResult::init("llama", vec![Misplaced, Correct, Misplaced, Absent, Misplaced]);
    assert!(!r.matches("allow"));
}

#[test]
fn a_word_of_another_length_does_not_match() {
    let r = GuessResult::init("abc", vec![Correct, Correct, Correct]);
    assert!(r.matches("abc"));
    assert!(!r.matches("abcd"));
    assert!(!r.matches("ab"));
    assert!(!r.matches(""));
}

#[test]
fn an_answer_of_another_length_matches_nothing() {
    let r = GuessResult::init("abc", vec![Correct, Correct]);
    assert!(!r.matches("abc"));
    assert!(!r.matches("ab"));
}

#[test]
fn no_letter_is_credited_more_often_than_the_target_holds_it() {
    for (target, guess) in
        [("allow", "llama"), ("speed", "erase"), ("abbey", "bobby"), ("aabb", "bbaa"), ("abc", "aaa")]
    {
        let answer = answer(target, guess);
        for c in guess.chars() {
            let credited = guess
                .chars()
                .zip(answer.iter())
                .filter(|(g, symbol)| *g == c && **symbol != Absent)
                .count();
            assert!(credited <= target.chars().filter(|t| *t == c).count());
        }
    }
}
