//! The rounds of a game: suggest, take the answer to the word that was
//! played, narrow the candidates, until one word or none is left.
//!
//! The solver does no input or output. A caller performs the action that the
//! solver names and hands back what came of it as an event.

use crate::filter::{filter_words, is_consistent, is_eligible, retain_consistent};
use crate::guess::{consistent, GuessResult};
use crate::mask::{decode_mask, decoded, rejects, valid_mask, DecodeError};
use crate::pattern::Correctness;
use crate::word::chars_of;
use vstd::prelude::*;

verus! {

/// Where a game stands.
#[derive(Debug, Clone, Copy, PartialEq, Eq, Structural)]
pub enum Phase {
    /// Several candidates are left and suggestions are due.
    Ranking,
    /// Suggestions were made; the word that was played and its answer are
    /// awaited.
    AwaitingFeedback,
    /// A word and its answer were taken and the candidates are about to be
    /// narrowed by them.
    Filtering,
    /// One candidate is left: it is the hidden word.
    Converged,
    /// No candidate is left: an answer contradicts the word list or an
    /// earlier answer.
    Contradiction,
}

/// What a caller reports to the solver.
#[derive(Debug, Clone, Copy)]
pub enum Event<'a> {
    /// The suggestions were computed and shown.
    Suggested,
    /// The player played `word` and the game answered with `mask`.
    Feedback { word: &'a str, mask: &'a str },
}

/// What the solver asks of its caller.
#[derive(Debug, Clone, Copy, PartialEq, Eq, Structural)]
pub enum Action {
    /// Rank the guesses against the candidates and show the best.
    Suggest,
    /// Read the word that was played and the answer it got.
    ReadFeedback,
    /// Let the solver narrow the candidates.
    Narrow,
    /// The game is solved.
    Stop,
    /// The game cannot be solved.
    Fail,
    /// The answer that was handed in is no answer; nothing has changed.
    Reject(DecodeError),
}

/// A played word and its answer.
pub type Record = (Seq<char>, Seq<Correctness>);

/// The state of a game as the contracts see it.
pub struct SolverState<'a> {
    /// The words that can be guessed.
    pub words: Seq<&'a str>,
    /// The candidates: the words that can still be the hidden word.
    pub remaining: Seq<&'a str>,
    /// The number of letters of every word of the game.
    pub word_size: nat,
    pub phase: Phase,
    /// The record by which the candidates are about to be narrowed.
    pub pending: Option<Record>,
    /// The records by which the candidates were narrowed so far.
    pub history: Seq<Record>,
}

/// The predicate that holds of the words that every record of `history`
/// leaves possible.
pub open spec fn fits_all<'a>(history: Seq<Record>) -> spec_fn(&'a str) -> bool {
    |w: &'a str|
        forall|h: int|
            0 <= h < history.len() ==> consistent((#[trigger] history[h]).0, history[h].1, w@)
}

/// The phase that follows a narrowing that left `left` candidates.
pub open spec fn settled(left: nat) -> Phase {
    if left == 1 {
        Phase::Converged
    } else if left == 0 {
        Phase::Contradiction
    } else {
        Phase::Ranking
    }
}

/// The action that a phase calls for.
pub open spec fn due(phase: Phase) -> Action {
    match phase {
        Phase::Ranking => Action::Suggest,
        Phase::AwaitingFeedback => Action::ReadFeedback,
        Phase::Filtering => Action::Narrow,
        Phase::Converged => Action::Stop,
        Phase::Contradiction => Action::Fail,
    }
}

impl<'a> SolverState<'a> {
    /// The state of a game that starts from a word list and a first played
    /// word with its answer.
    pub open spec fn seeded(
        words_list: Seq<&'a str>,
        word_size: nat,
        first_letter: Option<char>,
        first: Record,
    ) -> Self {
        let words = words_list.filter(is_eligible(word_size as int, first_letter));
        let remaining = words.filter(is_consistent(first.0, first.1));
        SolverState {
            words,
            remaining,
            word_size,
            phase: settled(remaining.len()),
            pending: None,
            history: seq![first],
        }
    }

    /// The candidates are exactly the words that every record so far leaves
    /// possible, in the order of the words, and the phase says how many
    /// they are.
    pub open spec fn well_formed(self) -> bool {
        &&& self.remaining == self.words.filter(fits_all(self.history))
        &&& match self.phase {
            Phase::Ranking | Phase::AwaitingFeedback => self.remaining.len() >= 2,
            Phase::Filtering => self.pending is Some,
            Phase::Converged => self.remaining.len() == 1,
            Phase::Contradiction => self.remaining.len() == 0,
        }
        &&& self.phase != Phase::Filtering ==> self.pending is None
    }

    /// Whether feedback can be taken: it is awaited, and the mask spells an
    /// answer of the right length.
    pub open spec fn takes(self, mask: Seq<char>) -> bool {
        &&& self.phase == Phase::AwaitingFeedback
        &&& valid_mask(mask)
        &&& mask.len() == self.word_size
    }

    /// The state after suggestions were made.
    pub open spec fn after_suggestions(self) -> Self {
        if self.phase == Phase::Ranking {
            SolverState { phase: Phase::AwaitingFeedback, ..self }
        } else {
            self
        }
    }

    /// The state after `word` and `mask` were handed in.
    pub open spec fn after_feedback(self, word: Seq<char>, mask: Seq<char>) -> Self {
        if self.takes(mask) {
            SolverState {
                phase: Phase::Filtering,
                pending: Some((word, decoded(mask))),
                ..self
            }
        } else {
            self
        }
    }

    /// The state after the candidates were narrowed by the pending record.
    pub open spec fn after_narrowing(self) -> Self {
        if self.phase == Phase::Filtering && self.pending is Some {
            let record = self.pending.unwrap();
            let remaining = self.remaining.filter(is_consistent(record.0, record.1));
            SolverState {
                remaining,
                phase: settled(remaining.len()),
                pending: None,
                history: self.history.push(record),
                ..self
            }
        } else {
            self
        }
    }

    /// The state after an event. Feedback is taken and the candidates are
    /// narrowed by it at once. An event that the phase does not await
    /// changes nothing.
    pub open spec fn after(self, event: Event) -> Self {
        match event {
            Event::Suggested => self.after_suggestions(),
            Event::Feedback { word, mask } => if self.phase == Phase::AwaitingFeedback {
                self.after_feedback(word@, mask@).after_narrowing()
            } else {
                self
            },
        }
    }

    /// The state after a run of events, the first of them first.
    pub open spec fn after_all(self, events: Seq<Event>) -> Self
        decreases events.len(),
    {
        if events.len() == 0 {
            self
        } else {
            self.after_all(events.drop_last()).after(events.last())
        }
    }

    /// Whether `action` is the answer to `event` in this state: a rejection
    /// with its reason where awaited feedback is no answer, and else the
    /// action that the next phase calls for.
    pub open spec fn answers(self, event: Event, action: Action) -> bool {
        match event {
            Event::Feedback { word, mask } if self.phase == Phase::AwaitingFeedback
                && !self.takes(mask@) => action matches Action::Reject(error) && rejects(
                mask@,
                self.word_size as int,
                error,
            ),
            _ => action == due(self.after(event).phase),
        }
    }
}

/// A game in progress.
pub struct Solver<'a> {
    words: Vec<&'a str>,
    remaining: Vec<&'a str>,
    word_size: usize,
    phase: Phase,
    pending: Option<(Vec<char>, Vec<Correctness>)>,
    history: Ghost<Seq<Record>>,
}

impl<'a> View for Solver<'a> {
    type V = SolverState<'a>;

    closed spec fn view(&self) -> SolverState<'a> {
        SolverState {
            words: self.words@,
            remaining: self.remaining@,
            word_size: self.word_size as nat,
            phase: self.phase,
            pending: match self.pending {
                Some((word, pattern)) => Some((word@, pattern@)),
                None => None,
            },
            history: self.history@,
        }
    }
}

/// Filtering twice is filtering once by both predicates.
proof fn lemma_filter_twice(
    words: Seq<&str>,
    first: spec_fn(&str) -> bool,
    second: spec_fn(&str) -> bool,
    both: spec_fn(&str) -> bool,
)
    requires
        forall|w: &str| #[trigger] both(w) == (first(w) && second(w)),
    ensures
        words.filter(first).filter(second) == words.filter(both),
    decreases words.len(),
{
    reveal(Seq::filter);
    if words.len() > 0 {
        let rest = words.drop_last();
        lemma_filter_twice(rest, first, second, both);
        rest.filter(first).lemma_filter_push(words.last(), second);
    }
}

/// The words that every record leaves are words, and each of them
/// reproduces every recorded answer.
pub proof fn lemma_candidates_fit(s: SolverState)
    requires
        s.well_formed(),
    ensures
        s.remaining.len() <= s.words.len(),
        forall|w: &str| s.remaining.contains(w) ==> s.words.contains(w),
        forall|i: int, h: int|
            0 <= i < s.remaining.len() && 0 <= h < s.history.len() ==> consistent(
                (#[trigger] s.history[h]).0,
                s.history[h].1,
                (#[trigger] s.remaining[i])@,
            ),
{
    let keep = fits_all(s.history);
    s.words.lemma_filter_len(keep);
    assert forall|w: &str| s.remaining.contains(w) implies s.words.contains(w) by {
        s.words.lemma_filter_contains_rev(keep, w);
    }
    assert forall|i: int, h: int|
        0 <= i < s.remaining.len() && 0 <= h < s.history.len() implies consistent(
        (#[trigger] s.history[h]).0,
        s.history[h].1,
        (#[trigger] s.remaining[i])@,
    ) by {
        s.words.lemma_filter_pred(keep, i);
    }
}

/// A game that was just seeded is well formed.
pub proof fn lemma_seeded_is_well_formed(
    words_list: Seq<&str>,
    word_size: nat,
    first_letter: Option<char>,
    first: Record,
)
    ensures
        SolverState::seeded(words_list, word_size, first_letter, first).well_formed(),
{
    let s = SolverState::seeded(words_list, word_size, first_letter, first);
    let once = is_consistent(first.0, first.1);
    let all = fits_all(s.history);
    assert forall|w: &str| #[trigger] all(w) == (once(w) && once(w)) by {
        assert(s.history[0] == first);
    }
    lemma_filter_twice(s.words, once, once, all);
    lemma_filter_twice(s.words, once, once, once);
}

/// Narrowing keeps a game well formed and removes candidates only.
pub proof fn lemma_narrowing(s: SolverState)
    requires
        s.well_formed(),
    ensures
        s.after_narrowing().well_formed(),
        s.after_narrowing().words == s.words,
        s.after_narrowing().remaining.len() <= s.remaining.len(),
        forall|w: &str| s.after_narrowing().remaining.contains(w) ==> s.remaining.contains(w),
{
    if s.phase == Phase::Filtering {
        let record = s.pending.unwrap();
        let keep = is_consistent(record.0, record.1);
        let t = s.after_narrowing();
        let before = fits_all(s.history);
        let after = fits_all(t.history);
        s.remaining.lemma_filter_len(keep);
        assert forall|w: &str| t.remaining.contains(w) implies s.remaining.contains(w) by {
            s.remaining.lemma_filter_contains_rev(keep, w);
        }
        assert forall|w: &str| #[trigger] after(w) == (before(w) && keep(w)) by {
            assert(t.history[s.history.len() as int] == record);
            assert(forall|h: int| 0 <= h < s.history.len() ==> t.history[h] == s.history[h]);
        }
        lemma_filter_twice(s.words, before, keep, after);
    }
}

/// Whatever the event, a well-formed game stays well formed and its
/// candidates only shrink: each candidate left was a candidate before.
pub proof fn lemma_step(s: SolverState, event: Event)
    requires
        s.well_formed(),
    ensures
        s.after(event).well_formed(),
        s.after(event).words == s.words,
        s.after(event).remaining.len() <= s.remaining.len(),
        forall|w: &str| s.after(event).remaining.contains(w) ==> s.remaining.contains(w),
{
    match event {
        Event::Suggested => {},
        Event::Feedback { word, mask } => {
            if s.phase == Phase::AwaitingFeedback {
                lemma_narrowing(s.after_feedback(word@, mask@));
            }
        },
    }
}

/// Whatever the run of events, a well-formed game stays well formed, keeps
/// its words, and ends with candidates that it started with.
pub proof fn lemma_run(s: SolverState, events: Seq<Event>)
    requires
        s.well_formed(),
    ensures
        s.after_all(events).well_formed(),
        s.after_all(events).words == s.words,
        s.after_all(events).remaining.len() <= s.remaining.len(),
        forall|w: &str| s.after_all(events).remaining.contains(w) ==> s.remaining.contains(w),
    decreases events.len(),
{
    if events.len() > 0 {
        lemma_run(s, events.drop_last());
        lemma_step(s.after_all(events.drop_last()), events.last());
    }
}

/// At every point of every game the candidates are exactly the eligible
/// words of the list that every record so far leaves possible.
pub proof fn lemma_game(
    words_list: Seq<&str>,
    word_size: nat,
    first_letter: Option<char>,
    first: Record,
    events: Seq<Event>,
)
    ensures
        ({
            let s = SolverState::seeded(words_list, word_size, first_letter, first).after_all(
                events,
            );
            &&& s.well_formed()
            &&& s.words == words_list.filter(is_eligible(word_size as int, first_letter))
            &&& s.remaining == s.words.filter(fits_all(s.history))
        }),
{
    lemma_seeded_is_well_formed(words_list, word_size, first_letter, first);
    lemma_run(SolverState::seeded(words_list, word_size, first_letter, first), events);
}

/// Awaited feedback that no candidate reproduces ends the game in
/// `Contradiction`; feedback that exactly one reproduces ends it in
/// `Converged`.
pub proof fn lemma_feedback_settles(s: SolverState, word: &str, mask: &str)
    requires
        s.takes(mask@),
    ensures
        s.after(Event::Feedback { word, mask }).remaining == s.remaining.filter(
            is_consistent(word@, decoded(mask@)),
        ),
        s.after(Event::Feedback { word, mask }).phase == settled(
            s.remaining.filter(is_consistent(word@, decoded(mask@))).len(),
        ),
        (forall|i: int|
            0 <= i < s.remaining.len() ==> !consistent(
                word@,
                decoded(mask@),
                (#[trigger] s.remaining[i])@,
            )) ==> s.after(Event::Feedback { word, mask }).phase == Phase::Contradiction,
{
    let keep = is_consistent(word@, decoded(mask@));
    let kept = s.remaining.filter(keep);
    if kept.len() > 0 {
        s.remaining.lemma_filter_pred(keep, 0);
        s.remaining.lemma_filter_contains_rev(keep, kept[0]);
    }
}

impl<'a> Solver<'a> {
    #[verifier::type_invariant]
    spec fn inv(self) -> bool {
        self@.well_formed()
    }

    /// Starts a game: keeps the words of `word_size` letters that start with
    /// the first letter, where one is known, and narrows them by the first
    /// word that was played and its answer.
    pub fn new(
        words_list: Vec<&'a str>,
        word_size: usize,
        first_letter: Option<char>,
        first_guess: &GuessResult,
    ) -> (solver: Self)
        ensures
            solver@ == SolverState::seeded(
                words_list@,
                word_size as nat,
                first_letter,
                (first_guess.word@, first_guess.correctness@),
            ),
            solver@.well_formed(),
    {
        let words = filter_words(words_list, word_size, first_letter);
        let played = chars_of(first_guess.word);
        let remaining = retain_consistent(words.clone(), &played, &first_guess.correctness);
        let phase = settle(remaining.len());
        let ghost first: Record = (first_guess.word@, first_guess.correctness@);
        let ghost history = Seq::<Record>::empty().push(first);
        proof {
            assert(history =~= seq![first]);
            lemma_seeded_is_well_formed(
                words_list@,
                word_size as nat,
                first_letter,
                (first_guess.word@, first_guess.correctness@),
            );
        }
        Solver {
            words,
            remaining,
            word_size,
            phase,
            pending: None,
            history: Ghost(history),
        }
    }

    /// Where the game stands.
    pub fn phase(&self) -> (phase: Phase)
        ensures
            phase == self@.phase,
    {
        self.phase
    }

    /// What the caller is to do next.
    pub fn action(&self) -> (action: Action)
        ensures
            action == due(self@.phase),
    {
        action_for(self.phase)
    }

    /// The words that can be guessed.
    pub fn words(&self) -> (words: &Vec<&'a str>)
        ensures
            words@ == self@.words,
    {
        &self.words
    }

    /// The words that can still be the hidden word.
    pub fn candidates(&self) -> (candidates: &Vec<&'a str>)
        ensures
            candidates@ == self@.remaining,
            self@.well_formed(),
    {
        proof {
            use_type_invariant(self);
        }
        &self.remaining
    }

    /// Records that suggestions were made: from `Ranking` the game goes on
    /// to await feedback.
    pub fn suggested(self) -> (next: Self)
        ensures
            next@ == self@.after_suggestions(),
            next@.well_formed(),
    {
        proof {
            use_type_invariant(&self);
        }
        match self.phase {
            Phase::Ranking => Solver {
                words: self.words,
                remaining: self.remaining,
                word_size: self.word_size,
                phase: Phase::AwaitingFeedback,
                pending: self.pending,
                history: self.history,
            },
            _ => self,
        }
    }

    /// Takes the word that was played and the mask of its answer. Awaited
    /// feedback with a mask that spells an answer of the right length puts
    /// the game in `Filtering`. Any other leaves it as it is, with the
    /// reason where the mask is at fault.
    pub fn accept_feedback(self, word: &str, mask: &str) -> (taken: (Self, Option<DecodeError>))
        ensures
            taken.0@ == self@.after_feedback(word@, mask@),
            taken.0@.well_formed(),
            taken.1 is Some <==> self@.phase == Phase::AwaitingFeedback && !self@.takes(mask@),
            taken.1 matches Some(error) ==> rejects(mask@, self@.word_size as int, error),
    {
        proof {
            use_type_invariant(&self);
        }
        match self.phase {
            Phase::AwaitingFeedback => match decode_mask(mask, self.word_size) {
                Ok(pattern) => {
                    let played = chars_of(word);
                    (
                        Solver {
                            words: self.words,
                            remaining: self.remaining,
                            word_size: self.word_size,
                            phase: Phase::Filtering,
                            pending: Some((played, pattern)),
                            history: self.history,
                        },
                        None,
                    )
                },
                Err(error) => (self, Some(error)),
            },
            _ => (self, None),
        }
    }

    /// Narrows the candidates by the feedback that was taken: the game is
    /// `Converged` with one candidate left, in `Contradiction` with none,
    /// and back in `Ranking` with more.
    pub fn narrow(self) -> (next: Self)
        ensures
            next@ == self@.after_narrowing(),
            next@.well_formed(),
    {
        proof {
            use_type_invariant(&self);
            lemma_narrowing(self@);
        }
        match self.phase {
            Phase::Filtering => match self.pending {
                Some((played, pattern)) => {
                    let remaining = retain_consistent(self.remaining, &played, &pattern);
                    let phase = settle(remaining.len());
                    let ghost history = self.history@.push((played@, pattern@));
                    Solver {
                        words: self.words,
                        remaining,
                        word_size: self.word_size,
                        phase,
                        pending: None,
                        history: Ghost(history),
                    }
                },
                None => self,
            },
            _ => self,
        }
    }

    /// Takes one event and names the next action.
    pub fn step(self, event: Event) -> (next: (Self, Action))
        ensures
            next.0@ == self@.after(event),
            next.0@.well_formed(),
            self@.answers(event, next.1),
    {
        proof {
            use_type_invariant(&self);
        }
        match event {
            Event::Suggested => {
                let solver = self.suggested();
                let action = action_for(solver.phase);
                (solver, action)
            },
            Event::Feedback { word, mask } => match self.phase {
                Phase::AwaitingFeedback => {
                    let (solver, rejected) = self.accept_feedback(word, mask);
                    match rejected {
                        Some(error) => (solver, Action::Reject(error)),
                        None => {
                            let solver = solver.narrow();
                            let action = action_for(solver.phase);
                            (solver, action)
                        },
                    }
                },
                _ => {
                    let action = action_for(self.phase);
                    (self, action)
                },
            },
        }
    }
}

/// The phase after a narrowing that left `left` candidates.
pub fn settle(left: usize) -> (phase: Phase)
    ensures
        phase == settled(left as nat),
{
    if left == 1 {
        Phase::Converged
    } else if left == 0 {
        Phase::Contradiction
    } else {
        Phase::Ranking
    }
}

/// The action that `phase` calls for.
pub fn action_for(phase: Phase) -> (action: Action)
    ensures
        action == due(phase),
{
    match phase {
        Phase::Ranking => Action::Suggest,
        Phase::AwaitingFeedback => Action::ReadFeedback,
        Phase::Filtering => Action::Narrow,
        Phase::Converged => Action::Stop,
        Phase::Contradiction => Action::Fail,
    }
}

} // verus!
