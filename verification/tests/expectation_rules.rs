use shimforge::expectation::{CallCount, Config, Control, Expectation, Ledger, Sequence, State};
use shimforge::Error;
use std::collections::HashMap;

struct Book {
    ledger: Ledger,
    values: HashMap<usize, usize>,
}

impl Book {
    fn new() -> Self {
        Book { ledger: Ledger::new(), values: HashMap::new() }
    }

    fn add(&mut self, state: &State, config: Config, value: usize) -> Expectation {
        let expectation = state.add(&mut self.ledger, config).unwrap();
        self.values.insert(expectation.meta, value);
        expectation
    }

    fn select(&mut self, state: &State, matches: impl Fn(usize) -> bool) -> Result<usize, Error> {
        let rules = self.ledger.mocks[state.index].rules.clone();
        let flags: Vec<bool> = rules.iter().map(|meta| matches(self.values[meta])).collect();
        let chosen = state.select(&mut self.ledger, &flags)?;
        Ok(self.values[&chosen.meta])
    }
}

fn message(result: Result<impl std::fmt::Debug, Error>) -> String {
    result.unwrap_err().message()
}

#[test]
fn counts_accept_exact_and_range_bounds() {
    let cases: [(CallCount, usize, Option<usize>); 8] = [
        (3.into(), 3, Some(3)),
        ((2..5).into(), 2, Some(4)),
        ((2..=5).into(), 2, Some(5)),
        ((2..).into(), 2, None),
        ((..5).into(), 0, Some(4)),
        ((..=5).into(), 0, Some(5)),
        ((..).into(), 0, None),
        (0.into(), 0, Some(0)),
    ];
    for (count, min, max) in cases {
        assert_eq!(count.min, min);
        assert_eq!(count.max, max);
        assert!(count.validate().is_ok());
        assert!(!format!("{count:?}").is_empty());
    }
    let empty_start = 4;
    for count in [
        CallCount::from(0..0),
        (empty_start..2).into(),
        (empty_start..=2).into(),
        (..0).into(),
    ] {
        assert!(count.validate().is_err());
    }
    assert_eq!(CallCount::from(..=usize::MAX).max, Some(usize::MAX));
}

#[test]
fn one_shot_counts_are_checked() {
    let default = Config::default().for_once().unwrap().validate().unwrap();
    assert_eq!((default.min, default.max), (1, Some(1)));
    for count in [CallCount::from(0), 1.into(), (0..=1).into()] {
        assert!(Config::default().times(count).for_once().is_ok());
    }
    for count in [CallCount::from(2), (..).into(), (0..0).into()] {
        assert!(Config::default().times(count).for_once().is_err());
    }
}

#[test]
fn response_chains_skip_exhausted_rules() {
    let mut book = Book::new();
    let state = State::new(&mut book.ledger, "lookup");
    let first = book.add(&state, Config::default().once(), 10);
    let next = book.add(&state, Config::default().times((1..=2).into()), 20);
    let other = book.add(&state, Config::default(), 30);
    assert!(first.verify(&book.ledger).is_err());
    assert!(state.verify(&book.ledger).is_err());
    assert_eq!(book.select(&state, |value| value != 30).unwrap(), 10);
    first.verify(&book.ledger).unwrap();
    assert_eq!(first.clone().calls(&book.ledger), 1);
    for _ in 0..2 {
        assert_eq!(book.select(&state, |value| value != 30).unwrap(), 20);
    }
    assert_eq!(next.calls(&book.ledger), 2);
    assert_eq!(other.calls(&book.ledger), 0);
    state.verify(&book.ledger).unwrap();
    assert!(message(book.select(&state, |value| value != 30)).contains("exhausted"));
    assert!(message(state.verify(&book.ledger)).contains("exhausted"));
    assert!(state.checkpoint(&mut book.ledger).is_err());
}

#[test]
fn missing_and_forbidden_calls_stay_failed() {
    let mut book = Book::new();
    let state = State::new(&mut book.ledger, "write");
    assert!(message(book.select(&state, |_| true)).contains("no expectation"));
    let never = book.add(&state, Config::default().times(0.into()), 1);
    never.verify(&book.ledger).unwrap();
    assert!(message(book.select(&state, |_| true)).contains("forbidden"));
    assert_eq!(never.calls(&book.ledger), 0);
    assert!(message(never.verify(&book.ledger)).contains("forbidden"));
    assert!(message(state.verify(&book.ledger)).contains("no expectation"));
    state.deactivate(&mut book.ledger);
    assert!(state.verify(&book.ledger).is_err());
}

#[test]
fn sequence_tracks_multiple_calls_and_mocks() {
    let mut book = Book::new();
    let sequence = Sequence::new(&mut book.ledger);
    let first = State::new(&mut book.ledger, "open");
    let second = State::new(&mut book.ledger, "close");
    let first_count = book.add(&first, Config::default().times(2.into()).in_sequence(&sequence), 1);
    let second_count = book.add(&second, Config::default().once().in_sequence(&sequence), 2);
    book.select(&first, |_| true).unwrap();
    assert_eq!(book.ledger.sequences[sequence.index].cursor, 0);
    book.select(&first, |_| true).unwrap();
    assert_eq!(book.ledger.sequences[sequence.index].cursor, 1);
    book.select(&second, |_| true).unwrap();
    assert_eq!(book.ledger.sequences[sequence.index].cursor, 2);
    assert_eq!(first_count.calls(&book.ledger), 2);
    assert_eq!(second_count.calls(&book.ledger), 1);
    first.verify(&book.ledger).unwrap();
    second.verify(&book.ledger).unwrap();
}

#[test]
fn out_of_order_calls_stay_failed() {
    let mut book = Book::new();
    let sequence = Sequence::new(&mut book.ledger);
    let state = State::new(&mut book.ledger, "steps");
    book.add(&state, Config::default().once().in_sequence(&sequence), 1);
    let later = book.add(&state, Config::default().once().in_sequence(&sequence), 2);
    assert!(message(book.select(&state, |value| value == 2)).contains("out of order"));
    assert_eq!(later.calls(&book.ledger), 0);
    book.select(&state, |value| value == 1).unwrap();
    book.select(&state, |value| value == 2).unwrap();
    assert!(message(later.verify(&book.ledger)).contains("out of order"));
    assert!(state.verify(&book.ledger).is_err());
}

#[test]
fn invalid_adds_do_not_use_sequence_slots() {
    let mut book = Book::new();
    let state = State::new(&mut book.ledger, "read");
    let sequence = Sequence::new(&mut book.ledger);
    for config in [
        Config::default(),
        Config::default().times(0.into()),
        Config::default().times((1..=2).into()),
        Config::default().times((0..0).into()),
    ] {
        assert!(state.add(&mut book.ledger, config.in_sequence(&sequence)).is_err());
    }
    assert_eq!(book.ledger.sequences[sequence.index].next, 0);
    state.deactivate(&mut book.ledger);
    assert!(state
        .add(&mut book.ledger, Config::default().once().in_sequence(&sequence))
        .is_err());
    assert_eq!(book.ledger.sequences[sequence.index].next, 0);
}

#[test]
fn sequence_overflow_leaves_registration_unchanged() {
    let mut book = Book::new();
    let state = State::new(&mut book.ledger, "overflow");
    let sequence = Sequence::new(&mut book.ledger);
    book.ledger.sequences[sequence.index].next = usize::MAX;
    assert!(state
        .add(&mut book.ledger, Config::default().once().in_sequence(&sequence))
        .is_err());
    assert_eq!(book.ledger.metas.len(), 0);
    assert_eq!(book.ledger.sequences[sequence.index].next, usize::MAX);
    assert!(book.ledger.mocks[state.index].rules.is_empty());
    state.verify(&book.ledger).unwrap();
}

#[test]
fn count_overflow_is_reported_without_wrapping() {
    let mut book = Book::new();
    let state = State::new(&mut book.ledger, "count");
    let expectation = book.add(&state, Config::default(), 1);
    book.ledger.metas[expectation.meta].progress.calls = usize::MAX;
    assert!(message(book.select(&state, |_| true)).contains("overflow"));
    assert_eq!(expectation.calls(&book.ledger), usize::MAX);
    assert!(book.ledger.metas[expectation.meta].verify().is_err());
}

#[test]
fn checkpoint_clears_only_completed_expectations() {
    let mut book = Book::new();
    let state = State::new(&mut book.ledger, "checkpoint");
    let expectation = book.add(&state, Config::default().once(), 1);
    assert!(state.checkpoint(&mut book.ledger).is_err());
    assert_eq!(book.ledger.mocks[state.index].rules.len(), 1);
    book.select(&state, |_| true).unwrap();
    state.checkpoint(&mut book.ledger).unwrap();
    assert!(book.ledger.mocks[state.index].rules.is_empty());
    assert_eq!(expectation.calls(&book.ledger), 1);
    expectation.verify(&book.ledger).unwrap();
    state.checkpoint(&mut book.ledger).unwrap();
    book.add(&state, Config::default(), 2);
    assert_eq!(book.select(&state, |_| true).unwrap(), 2);
    let control: &dyn Control = &state;
    control.verify(&book.ledger).unwrap();
    control.deactivate(&mut book.ledger);
    assert!(state.checkpoint(&mut book.ledger).is_err());
    assert!(message(book.select(&state, |_| true)).contains("no longer active"));
    assert!(control.verify(&book.ledger).is_err());
}

#[test]
fn registration_and_matchers_run_without_the_rule_lock() {
    let mut book = Book::new();
    let state = State::new(&mut book.ledger, "reentry");
    let sequence = Sequence::new(&mut book.ledger);
    state.deactivate(&mut book.ledger);
    assert!(state
        .add(&mut book.ledger, Config::default().once().in_sequence(&sequence))
        .is_err());
    assert_eq!(book.ledger.sequences[sequence.index].next, 0);
    let state = State::new(&mut book.ledger, "matcher");
    book.add(&state, Config::default(), 1);
    let rules = book.ledger.mocks[state.index].rules.clone();
    let flags: Vec<bool> = rules
        .iter()
        .map(|_| {
            state.verify(&book.ledger).unwrap();
            true
        })
        .collect();
    state.select(&mut book.ledger, &flags).unwrap();
}

#[test]
fn panicking_response_drops_leave_the_rule_list_clear() {
    for checkpoint in [true, false] {
        let mut book = Book::new();
        let state = State::new(&mut book.ledger, "drop");
        book.add(&state, Config::default(), 1);
        if checkpoint {
            state.checkpoint(&mut book.ledger).unwrap();
        } else {
            state.deactivate(&mut book.ledger);
        }
        state.verify(&book.ledger).unwrap();
        assert!(book.ledger.mocks[state.index].rules.is_empty());
        state.deactivate(&mut book.ledger);
    }
}
