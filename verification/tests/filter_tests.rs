use word_guess::filter::check_eligible;
use word_guess::filter::display_match;
use word_guess::filter::filter_words;
use word_guess::filter::retain_consistent;
use word_guess::guess::check_consistent;
use word_guess::guess::GuessResult;
use word_guess::mask::into_correctness;
use word_guess::pattern::Correctness::{Absent, Correct};

#[test]
fn eligible_words_have_the_length_and_the_first_letter() {
    assert!(check_eligible("abcd", 4, None));
    assert!(check_eligible("abcd", 4, Some('a')));
    assert!(!check_eligible("abcd", 4, Some('b')));
    assert!(!check_eligible("abcd", 3, None));
    assert!(!check_eligible("abc", 4, Some('a')));
    assert!(check_eligible("", 0, None));
    assert!(!check_eligible("", 0, Some('a')));
    assert!(check_eligible("été", 3, Some('é')));
}

#[test]
fn filter_keeps_the_order_of_the_list() {
    let list = vec!["dcba", "abc", "abcd", "", "bcde", "aaaa", "abcde", "abcd"];
    assert_eq!(filter_words(list.clone(), 4, None), vec!["dcba", "abcd", "bcde", "aaaa", "abcd"]);
    assert_eq!(filter_words(list.clone(), 4, Some('a')), vec!["abcd", "aaaa", "abcd"]);
    assert_eq!(filter_words(list.clone(), 0, None), vec![""]);
    assert_eq!(filter_words(list, 7, None), Vec::<&str>::new());
}

#[test]
fn filter_of_an_empty_list_is_empty() {
    assert_eq!(filter_words(vec![], 4, Some('a')), Vec::<&str>::new());
}

#[test]
fn consistent_candidate_reproduces_the_answer() {
    let played: Vec<char> = "ABCE".chars().collect();
    let answer = vec![Correct, Correct, Correct, Absent];
    assert!(check_consistent(&played, &answer, "ABCF"));
    assert!(!check_consistent(&played, &answer, "ABCE"));
    assert!(!check_consistent(&played, &answer, "ABDE"));
    assert!(!check_consistent(&played, &answer, "ABC"));
}

#[test]
fn narrowing_keeps_a_subset_in_order() {
    let before = vec!["ABCE", "ABDE", "ABCF", "ABCG", "XBCG"];
    let played: Vec<char> = "ABCE".chars().collect();
    let answer = vec![Correct, Correct, Correct, Absent];
    let after = retain_consistent(before.clone(), &played, &answer);
    assert_eq!(after, vec!["ABCF", "ABCG"]);
    assert!(after.len() <= before.len());
    for w in after.iter() {
        assert!(before.contains(w));
        assert!(GuessResult::init("ABCE", answer.clone()).matches(w));
    }
}

#[test]
fn display_match_applies_length_letter_and_answer() {
    let list = vec!["ABCE", "ABDE", "ABCF", "XBCF", "ABCFF", "ABCG"];
    let guess = GuessResult::init("ABCE", into_correctness("CCCA").unwrap());
    assert_eq!(display_match(list.clone(), 4, 'A', guess), vec!["ABCF", "ABCG"]);
    let guess = GuessResult::init("ABCE", into_correctness("CCCC").unwrap());
    assert_eq!(display_match(list.clone(), 4, 'A', guess), vec!["ABCE"]);
    let guess = GuessResult::init("ABCE", into_correctness("ACCA").unwrap());
    assert_eq!(display_match(list.clone(), 4, 'X', guess), vec!["XBCF"]);
    let guess = GuessResult::init("ABCE", into_correctness("AAAA").unwrap());
    assert_eq!(display_match(list, 4, 'A', guess), Vec::<&str>::new());
}
