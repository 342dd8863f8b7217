use word_guess::guess::GuessResult;
use word_guess::mask::into_correctness;
use word_guess::mask::DecodeError;
use word_guess::solver::action_for;
use word_guess::solver::settle;
use word_guess::solver::Action;
use word_guess::solver::Event;
use word_guess::solver::Phase;
use word_guess::solver::Solver;

fn dictionary() -> Vec<&'static str> {
    vec!["ABCE", "ABDE", "ABCF"]
}

fn start<'a>(list: Vec<&'a str>, guess: &str, mask: &str) -> Solver<'a> {
    let first = GuessResult::init(guess, into_correctness(mask).unwrap());
    Solver::new(list, 4, Some('A'), &first)
}

#[test]
fn all_correct_feedback_converges() {
    let solver = start(dictionary(), "ABCE", "CCCC");
    assert_eq!(solver.candidates(), &vec!["ABCE"]);
    assert_eq!(solver.phase(), Phase::Converged);
    assert_eq!(solver.action(), Action::Stop);
}

#[test]
fn last_letter_wrong_leaves_the_word_that_differs_there() {
    let solver = start(dictionary(), "ABCE", "CCCA");
    assert_eq!(solver.candidates(), &vec!["ABCF"]);
    assert_eq!(solver.phase(), Phase::Converged);
}

#[test]
fn inconsistent_first_feedback_is_a_contradiction() {
    let solver = start(dictionary(), "ABCE", "AAAA");
    assert_eq!(solver.candidates(), &Vec::<&str>::new());
    assert_eq!(solver.phase(), Phase::Contradiction);
    assert_eq!(solver.action(), Action::Fail);
}

#[test]
fn several_candidates_call_for_suggestions() {
    let solver = start(vec!["ABCE", "ABDE", "ABCF", "ABCG", "ABC", "XBCF"], "ABCE", "CCCA");
    assert_eq!(solver.words(), &vec!["ABCE", "ABDE", "ABCF", "ABCG"]);
    assert_eq!(solver.candidates(), &vec!["ABCF", "ABCG"]);
    assert_eq!(solver.phase(), Phase::Ranking);
    assert_eq!(solver.action(), Action::Suggest);
}

#[test]
fn a_game_runs_to_the_hidden_word() {
    let list = vec!["ABCE", "ABDE", "ABCF", "ABCG", "ABCH"];
    let solver = start(list, "ABCE", "CCCA");
    assert_eq!(solver.candidates(), &vec!["ABCF", "ABCG", "ABCH"]);
    let (solver, action) = solver.step(Event::Suggested);
    assert_eq!(action, Action::ReadFeedback);
    assert_eq!(solver.phase(), Phase::AwaitingFeedback);
    let (solver, action) = solver.step(Event::Feedback { word: "ABCF", mask: "CCCA" });
    assert_eq!(action, Action::Suggest);
    assert_eq!(solver.phase(), Phase::Ranking);
    assert_eq!(solver.candidates(), &vec!["ABCG", "ABCH"]);
    let (solver, action) = solver.step(Event::Suggested);
    assert_eq!(action, Action::ReadFeedback);
    let (solver, action) = solver.step(Event::Feedback { word: "ABCG", mask: "CCCA" });
    assert_eq!(action, Action::Stop);
    assert_eq!(solver.phase(), Phase::Converged);
    assert_eq!(solver.candidates(), &vec!["ABCH"]);
}

#[test]
fn inconsistent_feedback_in_a_later_round_is_a_contradiction() {
    let list = vec!["ABCE", "ABDE", "ABCF", "ABCG"];
    let solver = start(list, "ABCE", "CCCA");
    let (solver, _) = solver.step(Event::Suggested);
    let (solver, action) = solver.step(Event::Feedback { word: "ABCF", mask: "MMMM" });
    assert_eq!(action, Action::Fail);
    assert_eq!(solver.phase(), Phase::Contradiction);
    assert!(solver.candidates().is_empty());
}

#[test]
fn a_played_word_of_another_length_is_a_contradiction() {
    let list = vec!["ABCE", "ABDE", "ABCF", "ABCG"];
    let solver = start(list, "ABCE", "CCCA");
    let (solver, _) = solver.step(Event::Suggested);
    let (solver, action) = solver.step(Event::Feedback { word: "ABCFF", mask: "CCCA" });
    assert_eq!(action, Action::Fail);
    assert_eq!(solver.phase(), Phase::Contradiction);
}

#[test]
fn candidates_never_grow() {
    let list = vec!["ABCE", "ABDE", "ABCF", "ABCG", "ABCH"];
    let solver = start(list, "ABCE", "CCCA");
    let before: Vec<&str> = solver.candidates().clone();
    let (solver, _) = solver.step(Event::Suggested);
    assert_eq!(solver.candidates(), &before);
    let (solver, _) = solver.step(Event::Feedback { word: "ABCH", mask: "CCCA" });
    let after = solver.candidates();
    assert_eq!(after, &vec!["ABCF", "ABCG"]);
    for w in after.iter() {
        assert!(before.contains(w));
    }
}

#[test]
fn a_mask_with_an_unknown_character_is_rejected() {
    let list = vec!["ABCE", "ABDE", "ABCF", "ABCG"];
    let solver = start(list, "ABCE", "CCCA");
    let (solver, _) = solver.step(Event::Suggested);
    let (solver, action) = solver.step(Event::Feedback { word: "ABCF", mask: "CCxA" });
    assert_eq!(action, Action::Reject(DecodeError::UnknownSymbol { position: 2, symbol: 'x' }));
    assert_eq!(solver.phase(), Phase::AwaitingFeedback);
    assert_eq!(solver.candidates(), &vec!["ABCF", "ABCG"]);
}

#[test]
fn a_mask_of_another_length_is_rejected() {
    let list = vec!["ABCE", "ABDE", "ABCF", "ABCG"];
    let solver = start(list, "ABCE", "CCCA");
    let (solver, _) = solver.step(Event::Suggested);
    let (solver, action) = solver.step(Event::Feedback { word: "ABCF", mask: "CCC" });
    assert_eq!(action, Action::Reject(DecodeError::WrongLength { expected: 4, found: 3 }));
    assert_eq!(solver.phase(), Phase::AwaitingFeedback);
    // The game goes on with a mask that can be read.
    let (solver, action) = solver.step(Event::Feedback { word: "ABCF", mask: "CCCC" });
    assert_eq!(action, Action::Stop);
    assert_eq!(solver.candidates(), &vec!["ABCF"]);
}

#[test]
fn an_event_that_is_not_awaited_changes_nothing() {
    let list = vec!["ABCE", "ABDE", "ABCF", "ABCG"];
    let solver = start(list, "ABCE", "CCCA");
    let (solver, action) = solver.step(Event::Feedback { word: "ABCF", mask: "CCCC" });
    assert_eq!(action, Action::Suggest);
    assert_eq!(solver.phase(), Phase::Ranking);
    assert_eq!(solver.candidates(), &vec!["ABCF", "ABCG"]);
    let (solver, _) = solver.step(Event::Suggested);
    let (solver, action) = solver.step(Event::Suggested);
    assert_eq!(action, Action::ReadFeedback);
    assert_eq!(solver.phase(), Phase::AwaitingFeedback);
}

#[test]
fn the_end_of_a_game_is_final() {
    let solver = start(dictionary(), "ABCE", "CCCC");
    let (solver, action) = solver.step(Event::Suggested);
    assert_eq!(action, Action::Stop);
    let (solver, action) = solver.step(Event::Feedback { word: "ABDE", mask: "CCCC" });
    assert_eq!(action, Action::Stop);
    assert_eq!(solver.phase(), Phase::Converged);
    assert_eq!(solver.candidates(), &vec!["ABCE"]);

    let solver = start(dictionary(), "ABCE", "AAAA");
    let (solver, action) = solver.step(Event::Suggested);
    assert_eq!(action, Action::Fail);
    let (solver, action) = solver.step(Event::Feedback { word: "ABCE", mask: "CCCC" });
    assert_eq!(action, Action::Fail);
    assert_eq!(solver.phase(), Phase::Contradiction);
}

#[test]
fn feedback_is_taken_and_then_narrowed_by() {
    let list = vec!["ABCE", "ABDE", "ABCF", "ABCG", "ABCH"];
    let solver = start(list, "ABCE", "CCCA").suggested();
    assert_eq!(solver.phase(), Phase::AwaitingFeedback);
    let (solver, rejected) = solver.accept_feedback("ABCF", "CCCA");
    assert_eq!(rejected, None);
    assert_eq!(solver.phase(), Phase::Filtering);
    assert_eq!(solver.action(), Action::Narrow);
    assert_eq!(solver.candidates(), &vec!["ABCF", "ABCG", "ABCH"]);
    // Nothing else is taken while the candidates wait to be narrowed.
    let (solver, action) = solver.step(Event::Feedback { word: "ABCG", mask: "CCCC" });
    assert_eq!(action, Action::Narrow);
    let solver = solver.suggested();
    assert_eq!(solver.phase(), Phase::Filtering);
    let solver = solver.narrow();
    assert_eq!(solver.phase(), Phase::Ranking);
    assert_eq!(solver.candidates(), &vec!["ABCG", "ABCH"]);
}

#[test]
fn sub_steps_out_of_turn_change_nothing() {
    let list = vec!["ABCE", "ABDE", "ABCF", "ABCG"];
    let solver = start(list, "ABCE", "CCCA");
    let (solver, rejected) = solver.accept_feedback("ABCF", "not a mask");
    assert_eq!(rejected, None);
    assert_eq!(solver.phase(), Phase::Ranking);
    let solver = solver.narrow();
    assert_eq!(solver.phase(), Phase::Ranking);
    assert_eq!(solver.candidates(), &vec!["ABCF", "ABCG"]);
    let (solver, rejected) = solver.suggested().accept_feedback("ABCF", "not a mask");
    assert_eq!(rejected, Some(DecodeError::UnknownSymbol { position: 0, symbol: 'n' }));
    assert_eq!(solver.phase(), Phase::AwaitingFeedback);
}

#[test]
fn the_number_left_decides_the_phase() {
    assert_eq!(settle(0), Phase::Contradiction);
    assert_eq!(settle(1), Phase::Converged);
    assert_eq!(settle(2), Phase::Ranking);
    assert_eq!(settle(1000), Phase::Ranking);
}

#[test]
fn each_phase_has_its_action() {
    assert_eq!(action_for(Phase::Ranking), Action::Suggest);
    assert_eq!(action_for(Phase::AwaitingFeedback), Action::ReadFeedback);
    assert_eq!(action_for(Phase::Filtering), Action::Narrow);
    assert_eq!(action_for(Phase::Converged), Action::Stop);
    assert_eq!(action_for(Phase::Contradiction), Action::Fail);
}

#[test]
fn without_a_first_letter_every_word_of_the_length_is_in() {
    let first = GuessResult::init("ABCE", into_correctness("ACCA").unwrap());
    let solver = Solver::new(vec!["ABCE", "XBCF", "ABCF", "XBC"], 4, None, &first);
    assert_eq!(solver.words(), &vec!["ABCE", "XBCF", "ABCF"]);
    assert_eq!(solver.candidates(), &vec!["XBCF"]);
    assert_eq!(solver.phase(), Phase::Converged);
}

#[test]
fn candidates_are_the_words_that_every_record_leaves() {
    let list = vec!["ABCE", "ABDE", "ABCF", "ABCG", "ABCH", "ABC", "XBCH", "ABHC"];
    let rounds = [("ABCE", "CCCA"), ("ABCF", "CCCA"), ("ABHC", "CCMM")];
    let mut solver = start(list, rounds[0].0, rounds[0].1);
    for played in 1..rounds.len() {
        let (next, _) = solver.step(Event::Suggested);
        let (next, _) = next.step(Event::Feedback { word: rounds[played].0, mask: rounds[played].1 });
        solver = next;
        let expected: Vec<&str> = solver
            .words()
            .iter()
            .copied()
            .filter(|w| {
                rounds[..=played]
                    .iter()
                    .all(|(word, mask)| GuessResult::init(word, into_correctness(mask).unwrap()).matches(w))
            })
            .collect();
        assert_eq!(solver.candidates(), &expected);
    }
    assert_eq!(solver.words(), &vec!["ABCE", "ABDE", "ABCF", "ABCG", "ABCH", "ABHC"]);
    assert_eq!(solver.candidates(), &vec!["ABCH"]);
    assert_eq!(solver.phase(), Phase::Converged);
}
