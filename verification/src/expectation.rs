//! Call expectations: counts, sequences and the rules that answer calls.
//!
//! Every expectation, sequence and mock of a session lives in one [`Ledger`];
//! the handles ([`State`], [`Expectation`], [`Sequence`]) are indices into it.
pub mod laws;

use crate::error::{decimal, push_decimal, Error};
use vstd::prelude::*;
use vstd::std_specs::range::RangeInclusiveView;

verus! {

/// An exact call count or a range of counts.
#[derive(Clone, Copy, Debug, PartialEq, Eq, Structural)]
pub struct CallCount {
    /// The fewest calls.
    pub min: usize,
    /// The most calls, or no limit.
    pub max: Option<usize>,
}

/// `text` is the message of an expectation error.
pub open spec fn says(error: Error, text: Seq<char>) -> bool {
    error matches Error::Expectation(message) && message@ == text
}

impl CallCount {
    /// The range holds at least one count.
    pub open spec fn is_valid(self) -> bool {
        self.max matches Some(max) ==> self.min <= max
    }

    /// Returns the count when its range is not empty.
    pub fn validate(self) -> (result: Result<CallCount, Error>)
        ensures
            match result {
                Ok(count) => self.is_valid() && count == self,
                Err(error) => !self.is_valid() && says(error, "call count range is empty"@),
            },
    {
        match self.max {
            Some(max) => if self.min > max {
                return Err(Error::Expectation(String::from_str("call count range is empty")));
            },
            None => {},
        }
        Ok(self)
    }

    /// The counts of `start..end`; an empty range gives an empty count range.
    pub open spec fn from_range(start: usize, end: usize) -> CallCount {
        if end == 0 {
            CallCount { min: 1, max: Some(0) }
        } else {
            CallCount { min: start, max: Some((end - 1) as usize) }
        }
    }
}

impl From<usize> for CallCount {
    fn from(count: usize) -> (result: CallCount) {
        CallCount { min: count, max: Some(count) }
    }
}

impl vstd::std_specs::convert::FromSpecImpl<usize> for CallCount {
    open spec fn obeys_from_spec() -> bool {
        true
    }

    open spec fn from_spec(count: usize) -> CallCount {
        CallCount { min: count, max: Some(count) }
    }
}

impl From<std::ops::Range<usize>> for CallCount {
    fn from(range: std::ops::Range<usize>) -> (result: CallCount) {
        match range.end.checked_sub(1) {
            Some(max) => CallCount { min: range.start, max: Some(max) },
            None => CallCount { min: 1, max: Some(0) },
        }
    }
}

impl vstd::std_specs::convert::FromSpecImpl<std::ops::Range<usize>> for CallCount {
    open spec fn obeys_from_spec() -> bool {
        true
    }

    open spec fn from_spec(range: std::ops::Range<usize>) -> CallCount {
        CallCount::from_range(range.start, range.end)
    }
}

/// What `RangeInclusive::start` gives for a range in the given state.
pub uninterp spec fn inclusive_start(range: RangeInclusiveView<usize>) -> usize;

/// What `RangeInclusive::end` gives for a range in the given state.
pub uninterp spec fn inclusive_end(range: RangeInclusiveView<usize>) -> usize;

/// Calls `RangeInclusive::start`, which returns the range's lower bound.
/// std leaves that value unspecified once iteration has used the range up, so
/// this contract ties it to the bound only for a range that is not exhausted.
#[verifier::external_body]
fn range_start(range: &std::ops::RangeInclusive<usize>) -> (start: usize)
    ensures
        start == inclusive_start(range@),
        !range@.exhausted ==> start == range@.start,
{
    *range.start()
}

/// Calls `RangeInclusive::end`, which returns the range's upper bound.
/// std leaves that value unspecified once iteration has used the range up, so
/// this contract ties it to the bound only for a range that is not exhausted.
#[verifier::external_body]
fn range_end(range: &std::ops::RangeInclusive<usize>) -> (end: usize)
    ensures
        end == inclusive_end(range@),
        !range@.exhausted ==> end == range@.end,
{
    *range.end()
}

impl From<std::ops::RangeInclusive<usize>> for CallCount {
    fn from(range: std::ops::RangeInclusive<usize>) -> (result: CallCount) {
        let start = range_start(&range);
        let end = range_end(&range);
        CallCount { min: start, max: Some(end) }
    }
}

impl vstd::std_specs::convert::FromSpecImpl<std::ops::RangeInclusive<usize>> for CallCount {
    open spec fn obeys_from_spec() -> bool {
        true
    }

    open spec fn from_spec(range: std::ops::RangeInclusive<usize>) -> CallCount {
        if range@.exhausted {
            CallCount { min: inclusive_start(range@), max: Some(inclusive_end(range@)) }
        } else {
            CallCount { min: range@.start, max: Some(range@.end) }
        }
    }
}

#[verifier::external_type_specification]
#[verifier::reject_recursive_types(Idx)]
pub struct ExRangeFrom<Idx>(std::ops::RangeFrom<Idx>);

#[verifier::external_type_specification]
#[verifier::reject_recursive_types(Idx)]
pub struct ExRangeTo<Idx>(std::ops::RangeTo<Idx>);

#[verifier::external_type_specification]
#[verifier::reject_recursive_types(Idx)]
pub struct ExRangeToInclusive<Idx>(std::ops::RangeToInclusive<Idx>);

#[verifier::external_type_specification]
pub struct ExRangeFull(std::ops::RangeFull);

impl From<std::ops::RangeFrom<usize>> for CallCount {
    fn from(range: std::ops::RangeFrom<usize>) -> (result: CallCount) {
        CallCount { min: range.start, max: None }
    }
}

impl vstd::std_specs::convert::FromSpecImpl<std::ops::RangeFrom<usize>> for CallCount {
    open spec fn obeys_from_spec() -> bool {
        true
    }

    open spec fn from_spec(range: std::ops::RangeFrom<usize>) -> CallCount {
        CallCount { min: range.start, max: None }
    }
}

impl From<std::ops::RangeTo<usize>> for CallCount {
    fn from(range: std::ops::RangeTo<usize>) -> (result: CallCount) {
        CallCount::from(0..range.end)
    }
}

impl vstd::std_specs::convert::FromSpecImpl<std::ops::RangeTo<usize>> for CallCount {
    open spec fn obeys_from_spec() -> bool {
        true
    }

    open spec fn from_spec(range: std::ops::RangeTo<usize>) -> CallCount {
        CallCount::from_range(0, range.end)
    }
}

impl From<std::ops::RangeToInclusive<usize>> for CallCount {
    fn from(range: std::ops::RangeToInclusive<usize>) -> (result: CallCount) {
        CallCount::from(0..=range.end)
    }
}

impl vstd::std_specs::convert::FromSpecImpl<std::ops::RangeToInclusive<usize>> for CallCount {
    open spec fn obeys_from_spec() -> bool {
        true
    }

    open spec fn from_spec(range: std::ops::RangeToInclusive<usize>) -> CallCount {
        CallCount { min: 0, max: Some(range.end) }
    }
}

impl From<std::ops::RangeFull> for CallCount {
    fn from(range: std::ops::RangeFull) -> (result: CallCount) {
        CallCount::from(0..)
    }
}

impl vstd::std_specs::convert::FromSpecImpl<std::ops::RangeFull> for CallCount {
    open spec fn obeys_from_spec() -> bool {
        true
    }

    open spec fn from_spec(range: std::ops::RangeFull) -> CallCount {
        CallCount { min: 0, max: None }
    }
}

/// The progress of one sequence.
#[derive(Clone, Copy, Debug, PartialEq, Eq, Structural)]
pub struct SequenceProgress {
    /// The next position to hand out.
    pub next: usize,
    /// The position whose calls are due now.
    pub cursor: usize,
}

/// A position in a sequence.
#[derive(Clone, Copy, Debug, PartialEq, Eq, Structural)]
pub struct Ticket {
    /// The sequence.
    pub sequence: usize,
    /// The position in it.
    pub index: usize,
}

/// Checks the order of expectations across mocks.
#[derive(Clone, Copy, Debug, PartialEq, Eq, Structural)]
pub struct Sequence {
    /// Index of the sequence in its ledger.
    pub index: usize,
}

/// How an expectation is configured before its response is given.
#[derive(Clone, Copy, Debug, PartialEq, Eq, Structural)]
pub struct Config {
    /// The allowed number of calls; unlimited when absent.
    pub count: Option<CallCount>,
    /// The sequence that orders this expectation.
    pub sequence: Option<Sequence>,
}

impl Default for Config {
    fn default() -> (config: Config)
        ensures
            config == (Config { count: None, sequence: None }),
    {
        Config { count: None, sequence: None }
    }
}

/// The outcome of a call for one expectation.
#[derive(Clone, Copy, Debug, PartialEq, Eq, Structural)]
pub enum Claim {
    /// The expectation answers the call.
    Taken,
    /// The expectation has had all its calls.
    Exhausted,
}

/// The observed calls of one expectation.
#[derive(Debug)]
pub struct Progress {
    /// Calls answered so far.
    pub calls: usize,
    /// Its position in a sequence.
    pub ticket: Option<Ticket>,
    /// The first rejected call.
    pub failure: Option<String>,
}

/// One expectation of a mock.
#[derive(Debug)]
pub struct Meta {
    /// The mocked function.
    pub name: &'static str,
    /// The allowed number of calls.
    pub count: CallCount,
    /// What happened so far.
    pub progress: Progress,
}

/// One expectation as values.
pub struct MetaView {
    /// The mocked function.
    pub name: Seq<char>,
    /// The allowed number of calls.
    pub count: CallCount,
    /// Calls answered so far.
    pub calls: usize,
    /// Its position in a sequence.
    pub ticket: Option<Ticket>,
    /// The first rejected call.
    pub failure: Option<Seq<char>>,
}

/// The text of an optional message.
pub open spec fn text_of(message: Option<String>) -> Option<Seq<char>> {
    match message {
        Some(text) => Some(text@),
        None => None,
    }
}

impl View for Meta {
    type V = MetaView;

    open spec fn view(&self) -> MetaView {
        MetaView {
            name: self.name@,
            count: self.count,
            calls: self.progress.calls,
            ticket: self.progress.ticket,
            failure: text_of(self.progress.failure),
        }
    }
}

/// The mocks of one function: its rules and its first failure.
#[derive(Debug)]
pub struct Mock {
    /// The mocked function.
    pub name: &'static str,
    /// The mock still answers calls.
    pub active: bool,
    /// Expectations that answer calls, in the order they were added.
    pub rules: Vec<usize>,
    /// The first failure.
    pub failure: Option<String>,
}

/// One mock as values.
pub struct MockView {
    /// The mocked function.
    pub name: Seq<char>,
    /// The mock still answers calls.
    pub active: bool,
    /// Expectations that answer calls.
    pub rules: Seq<usize>,
    /// The first failure.
    pub failure: Option<Seq<char>>,
}

impl View for Mock {
    type V = MockView;

    open spec fn view(&self) -> MockView {
        MockView {
            name: self.name@,
            active: self.active,
            rules: self.rules@,
            failure: text_of(self.failure),
        }
    }
}

/// Every expectation, sequence and mock of a session.
#[derive(Debug)]
pub struct Ledger {
    /// Sequence progress, indexed by [`Sequence`].
    pub sequences: Vec<SequenceProgress>,
    /// Expectations, indexed by [`Expectation`].
    pub metas: Vec<Meta>,
    /// Mocks, indexed by [`State`].
    pub mocks: Vec<Mock>,
}

/// A ledger as values.
pub struct LedgerView {
    /// Sequence progress.
    pub sequences: Seq<SequenceProgress>,
    /// Expectations.
    pub metas: Seq<MetaView>,
    /// Mocks.
    pub mocks: Seq<MockView>,
}

impl View for Ledger {
    type V = LedgerView;

    open spec fn view(&self) -> LedgerView {
        LedgerView {
            sequences: self.sequences@,
            metas: self.metas@.map_values(|meta: Meta| meta@),
            mocks: self.mocks@.map_values(|mock: Mock| mock@),
        }
    }
}

/// `name: reason`.
pub open spec fn failure_text(name: Seq<char>, reason: Seq<char>) -> Seq<char> {
    name + ": "@ + reason
}

/// The first of two failures.
pub open spec fn first_failure(kept: Option<Seq<char>>, new: Seq<char>) -> Option<Seq<char>> {
    match kept {
        Some(text) => Some(text),
        None => Some(new),
    }
}

impl LedgerView {
    /// Handles in the ledger point into it.
    pub open spec fn wf(self) -> bool {
        &&& forall|m: int|
            0 <= m < self.metas.len() ==> ((#[trigger] self.metas[m]).ticket matches Some(t) ==> (
            t.sequence < self.sequences.len() && t.index < self.sequences[t.sequence as int].next))
        &&& forall|s: int, k: int|
            0 <= s < self.mocks.len() && 0 <= k < self.mocks[s].rules.len() ==> #[trigger] self.mocks[s].rules[k]
                < self.metas.len()
    }

    /// The ledger with expectation `m` replaced.
    pub open spec fn with_meta(self, m: int, meta: MetaView) -> LedgerView {
        LedgerView { metas: self.metas.update(m, meta), ..self }
    }

    /// The ledger with mock `s` replaced.
    pub open spec fn with_mock(self, s: int, mock: MockView) -> LedgerView {
        LedgerView { mocks: self.mocks.update(s, mock), ..self }
    }

    /// Expectation `m` records a rejected call; its message names the function.
    pub open spec fn meta_failed(self, m: int, reason: Seq<char>) -> (LedgerView, Result<
        Claim,
        Seq<char>,
    >) {
        let meta = self.metas[m];
        let text = failure_text(meta.name, reason);
        (
            self.with_meta(m, MetaView { failure: first_failure(meta.failure, text), ..meta }),
            Err(text),
        )
    }

    /// A call offered to expectation `m`. A forbidden expectation fails;
    /// one that had all its calls is exhausted; a sequenced expectation
    /// fails unless its position is due, and moves the sequence on when it
    /// completes its count.
    pub open spec fn claim(self, m: int) -> (LedgerView, Result<Claim, Seq<char>>) {
        let meta = self.metas[m];
        if meta.count.max == Some(0usize) {
            self.meta_failed(m, "a forbidden call was made"@)
        } else if meta.count.max matches Some(max) && meta.calls >= max {
            (self, Ok(Claim::Exhausted))
        } else if meta.calls == usize::MAX {
            self.meta_failed(m, "call count overflow"@)
        } else {
            let calls = (meta.calls + 1) as usize;
            let counted = MetaView { calls, ..meta };
            match meta.ticket {
                Some(ticket) => {
                    let progress = self.sequences[ticket.sequence as int];
                    if progress.cursor != ticket.index {
                        self.meta_failed(m, "call arrived out of order"@)
                    } else {
                        let sequences = if meta.count.max == Some(calls) {
                            self.sequences.update(
                                ticket.sequence as int,
                                SequenceProgress {
                                    cursor: (progress.cursor + 1) as usize,
                                    ..progress
                                },
                            )
                        } else {
                            self.sequences
                        };
                        (LedgerView { sequences, ..self.with_meta(m, counted) }, Ok(Claim::Taken))
                    }
                },
                None => (self.with_meta(m, counted), Ok(Claim::Taken)),
            }
        }
    }

    /// Mock `s` records a failure.
    pub open spec fn mock_failed(self, s: int, text: Seq<char>) -> LedgerView {
        let mock = self.mocks[s];
        self.with_mock(s, MockView { failure: first_failure(mock.failure, text), ..mock })
    }

    /// A call to mock `s`, offered to its rules from `k` on; `matches[k]`
    /// tells whether rule `k` matches the arguments, and `matched` whether an
    /// earlier rule did. The first matching rule that takes the call answers it.
    pub open spec fn select_from(
        self,
        s: int,
        rules: Seq<usize>,
        matches: Seq<bool>,
        k: int,
        matched: bool,
    ) -> (LedgerView, Result<usize, Seq<char>>)
        decreases rules.len() - k,
    {
        if k < 0 || k >= rules.len() {
            let text = failure_text(
                self.mocks[s].name,
                if matched {
                    "matching expectations are exhausted"@
                } else {
                    "no expectation matched this call"@
                },
            );
            (self.mock_failed(s, text), Err(text))
        } else if k < matches.len() && matches[k] {
            let (next, claim) = self.claim(rules[k] as int);
            match claim {
                Ok(Claim::Taken) => (next, Ok(rules[k])),
                Ok(Claim::Exhausted) => next.select_from(s, rules, matches, k + 1, true),
                Err(text) => (next.mock_failed(s, text), Err(text)),
            }
        } else {
            self.select_from(s, rules, matches, k + 1, matched)
        }
    }

    /// A call to mock `s`; see [`LedgerView::select_from`]. An inactive mock fails.
    pub open spec fn select(self, s: int, matches: Seq<bool>) -> (LedgerView, Result<usize, Seq<char>>) {
        let mock = self.mocks[s];
        if !mock.active {
            let text = failure_text(mock.name, "mock is no longer active"@);
            (self.mock_failed(s, text), Err(text))
        } else {
            self.select_from(s, mock.rules, matches, 0, false)
        }
    }

    /// The check of expectation `m`: its first failure, or too few calls.
    pub open spec fn meta_verdict(self, m: int) -> Result<(), Seq<char>> {
        let meta = self.metas[m];
        match meta.failure {
            Some(text) => Err(text),
            None => if meta.calls < meta.count.min {
                Err(
                    meta.name + ": expected at least "@ + decimal(meta.count.min as nat)
                        + " calls, observed "@ + decimal(meta.calls as nat),
                )
            } else {
                Ok(())
            },
        }
    }

    /// The check of rules from `k` on: the first that fails.
    pub open spec fn rules_verdict(self, rules: Seq<usize>, k: int) -> Result<(), Seq<char>>
        decreases rules.len() - k,
    {
        if k < 0 || k >= rules.len() {
            Ok(())
        } else {
            match self.meta_verdict(rules[k] as int) {
                Err(text) => Err(text),
                Ok(()) => self.rules_verdict(rules, k + 1),
            }
        }
    }

    /// The check of mock `s`: its first failure, then its rules in order.
    pub open spec fn verdict(self, s: int) -> Result<(), Seq<char>> {
        let mock = self.mocks[s];
        match mock.failure {
            Some(text) => Err(text),
            None => self.rules_verdict(mock.rules, 0),
        }
    }
}

/// The error for a verdict.
pub open spec fn verdict_matches(result: Result<(), Error>, verdict: Result<(), Seq<char>>) -> bool {
    match verdict {
        Ok(()) => result is Ok,
        Err(text) => result matches Err(error) && says(error, text),
    }
}

/// `name: reason` as a string.
fn failure_message(name: &str, reason: &str) -> (message: String)
    ensures
        message@ == failure_text(name@, reason@),
{
    let mut message = String::from_str(name);
    message.append(": ");
    message.append(reason);
    message
}

impl Meta {
    /// Records a rejected call and returns its error.
    pub fn fail(&mut self, reason: &str) -> (error: Error)
        ensures
            final(self)@ == (MetaView {
                failure: first_failure(old(self)@.failure, failure_text(old(self)@.name, reason@)),
                ..old(self)@
            }),
            says(error, failure_text(old(self)@.name, reason@)),
    {
        let message = failure_message(self.name, reason);
        if self.progress.failure.is_none() {
            self.progress.failure = Some(message.clone());
        }
        Error::Expectation(message)
    }

    /// Checks the call count and any rejected call.
    pub fn verify(&self) -> (result: Result<(), Error>)
        ensures
            verdict_matches(
                result,
                LedgerView { sequences: Seq::empty(), metas: seq![self@], mocks: Seq::empty() }.meta_verdict(0),
            ),
    {
        match &self.progress.failure {
            Some(message) => {
                return Err(Error::Expectation(message.clone()));
            },
            None => {},
        }
        if self.progress.calls < self.count.min {
            let mut message = String::from_str(self.name);
            message.append(": expected at least ");
            push_decimal(&mut message, self.count.min as u64);
            message.append(" calls, observed ");
            push_decimal(&mut message, self.progress.calls as u64);
            return Err(Error::Expectation(message));
        }
        Ok(())
    }
}

impl Config {
    /// Requires a count or range of counts.
    pub fn times(self, count: CallCount) -> (config: Config)
        ensures
            config == (Config { count: Some(count), ..self }),
    {
        Config { count: Some(count), ..self }
    }

    /// Requires exactly one call.
    pub fn once(self) -> (config: Config)
        ensures
            config == (Config { count: Some(CallCount { min: 1, max: Some(1) }), ..self }),
    {
        self.times(CallCount::from(1usize))
    }

    /// Orders the expectation in `sequence`.
    pub fn in_sequence(self, sequence: &Sequence) -> (config: Config)
        ensures
            config == (Config { sequence: Some(*sequence), ..self }),
    {
        Config { sequence: Some(*sequence), ..self }
    }

    /// The count of a one-shot response, one call when none is given.
    pub open spec fn one_shot(self) -> Result<Config, Seq<char>> {
        let count = match self.count {
            Some(count) => count,
            None => CallCount { min: 1, max: Some(1) },
        };
        if !count.is_valid() {
            Err("call count range is empty"@)
        } else if count.max matches Some(max) && max <= 1 {
            Ok(Config { count: Some(count), ..self })
        } else {
            Err("a one-shot response allows at most one call"@)
        }
    }

    /// Checks that a one-shot response allows at most one call.
    pub fn for_once(self) -> (result: Result<Config, Error>)
        ensures
            match result {
                Ok(config) => self.one_shot() == Ok::<Config, Seq<char>>(config),
                Err(error) => self.one_shot() matches Err(text) && says(error, text),
            },
    {
        let count = match self.count {
            Some(count) => count,
            None => CallCount::from(1usize),
        };
        let count = count.validate()?;
        match count.max {
            Some(max) => if max > 1 {
                return Err(
                    Error::Expectation(
                        String::from_str("a one-shot response allows at most one call"),
                    ),
                );
            },
            None => {
                return Err(
                    Error::Expectation(
                        String::from_str("a one-shot response allows at most one call"),
                    ),
                );
            },
        }
        Ok(Config { count: Some(count), ..self })
    }

    /// The count of an expectation: any number of calls when none is given;
    /// a sequenced expectation needs an exact positive count.
    pub open spec fn verdict(self) -> Result<CallCount, Seq<char>> {
        let count = match self.count {
            Some(count) => count,
            None => CallCount { min: 0, max: None },
        };
        if !count.is_valid() {
            Err("call count range is empty"@)
        } else if self.sequence is Some && (count.min == 0 || count.max != Some(count.min)) {
            Err("sequence expectations need an exact positive count"@)
        } else {
            Ok(count)
        }
    }

    /// Checks the count; see [`Config::verdict`].
    pub fn validate(&self) -> (result: Result<CallCount, Error>)
        ensures
            match result {
                Ok(count) => self.verdict() == Ok::<CallCount, Seq<char>>(count),
                Err(error) => self.verdict() matches Err(text) && says(error, text),
            },
    {
        let count = match self.count {
            Some(count) => count,
            None => CallCount::from(..),
        };
        let count = count.validate()?;
        if self.sequence.is_some() && (count.min == 0 || count.max != Some(count.min)) {
            return Err(
                Error::Expectation(
                    String::from_str("sequence expectations need an exact positive count"),
                ),
            );
        }
        Ok(count)
    }
}

impl LedgerView {
    /// A new expectation for mock `s` with `config`. Nothing changes unless
    /// the count is valid, the mock is active and the sequence has room.
    pub open spec fn add(self, s: int, config: Config) -> (LedgerView, Result<usize, Seq<char>>) {
        let mock = self.mocks[s];
        match config.verdict() {
            Err(text) => (self, Err(text)),
            Ok(count) => if !mock.active {
                (self, Err(failure_text(mock.name, "mock is no longer active"@)))
            } else {
                let placed: Result<(Seq<SequenceProgress>, Option<Ticket>), Seq<char>> = match config.sequence {
                    Some(sequence) => {
                        let progress = self.sequences[sequence.index as int];
                        if progress.next == usize::MAX {
                            Err("sequence is full"@)
                        } else {
                            Ok(
                                (
                                    self.sequences.update(
                                        sequence.index as int,
                                        SequenceProgress {
                                            next: (progress.next + 1) as usize,
                                            ..progress
                                        },
                                    ),
                                    Some(Ticket { sequence: sequence.index, index: progress.next }),
                                ),
                            )
                        }
                    },
                    None => Ok((self.sequences, None)),
                };
                match placed {
                    Err(text) => (self, Err(text)),
                    Ok((sequences, ticket)) => {
                        let index = self.metas.len() as usize;
                        let meta = MetaView {
                            name: mock.name,
                            count,
                            calls: 0,
                            ticket,
                            failure: None,
                        };
                        (
                            LedgerView {
                                sequences,
                                metas: self.metas.push(meta),
                                mocks: self.mocks.update(
                                    s,
                                    MockView { rules: mock.rules.push(index), ..mock },
                                ),
                            },
                            Ok(index),
                        )
                    },
                }
            },
        }
    }

    /// Mock `s` after a checkpoint: when it is active and passes its check,
    /// its rules are cleared.
    pub open spec fn checkpoint(self, s: int) -> (LedgerView, Result<(), Seq<char>>) {
        let mock = self.mocks[s];
        if !mock.active {
            (self, Err(failure_text(mock.name, "mock is no longer active"@)))
        } else {
            match self.verdict(s) {
                Err(text) => (self, Err(text)),
                Ok(()) => (self.with_mock(s, MockView { rules: Seq::empty(), ..mock }), Ok(())),
            }
        }
    }

    /// Mock `s` after it stops answering calls: inactive, with no rules.
    pub open spec fn deactivate(self, s: int) -> LedgerView {
        let mock = self.mocks[s];
        self.with_mock(s, MockView { active: false, rules: Seq::empty(), ..mock })
    }
}

/// A ledger result and a message result agree.
pub open spec fn result_matches<T>(result: Result<T, Error>, expected: Result<T, Seq<char>>) -> bool {
    match expected {
        Ok(value) => result == Ok::<T, Error>(value),
        Err(text) => result matches Err(error) && says(error, text),
    }
}

impl Ledger {
    /// A ledger with nothing in it.
    pub fn new() -> (ledger: Ledger)
        ensures
            ledger@.sequences == Seq::<SequenceProgress>::empty(),
            ledger@.metas == Seq::<MetaView>::empty(),
            ledger@.mocks == Seq::<MockView>::empty(),
            ledger@.wf(),
    {
        let ledger = Ledger { sequences: Vec::new(), metas: Vec::new(), mocks: Vec::new() };
        assert(ledger@.metas =~= Seq::<MetaView>::empty());
        assert(ledger@.mocks =~= Seq::<MockView>::empty());
        ledger
    }

    /// Records a failure of mock `s`.
    fn fail_mock(&mut self, s: usize, message: &String)
        requires
            s < old(self)@.mocks.len(),
        ensures
            final(self)@ == old(self)@.mock_failed(s as int, message@),
    {
        let ghost before = self@;
        let mock = Mock {
            name: self.mocks[s].name,
            active: self.mocks[s].active,
            rules: self.mocks[s].rules.clone(),
            failure: match &self.mocks[s].failure {
                Some(kept) => Some(kept.clone()),
                None => Some(message.clone()),
            },
        };
        self.mocks.set(s, mock);
        proof {
            assert(self@.mocks =~= before.mocks.update(
                s as int,
                MockView { failure: first_failure(before.mocks[s as int].failure, message@), ..before.mocks[s as int] },
            ));
            assert(self@.metas =~= before.metas);
        }
    }
}

/// A claim result and a message result agree.
pub open spec fn claim_matches(result: Result<Claim, Error>, expected: Result<Claim, Seq<char>>) -> bool {
    match expected {
        Ok(claim) => result == Ok::<Claim, Error>(claim),
        Err(text) => result matches Err(error) && says(error, text),
    }
}

/// A copy of an optional message.
fn copy_message(message: &Option<String>) -> (copy: Option<String>)
    ensures
        text_of(copy) == text_of(*message),
{
    match message {
        Some(text) => Some(text.clone()),
        None => None,
    }
}

impl Meta {
    /// A copy of this expectation.
    pub fn copy(&self) -> (copy: Meta)
        ensures
            copy@ == self@,
    {
        Meta {
            name: self.name,
            count: self.count,
            progress: Progress {
                calls: self.progress.calls,
                ticket: self.progress.ticket,
                failure: copy_message(&self.progress.failure),
            },
        }
    }

    /// Offers a call to this expectation; see [`LedgerView::claim`].
    pub fn claim(&mut self, sequences: &mut Vec<SequenceProgress>) -> (result: Result<Claim, Error>)
        requires
            old(self)@.ticket matches Some(t) ==> t.sequence < old(sequences)@.len() && t.index
                < old(sequences)@[t.sequence as int].next,
        ensures
            ({
                let before = LedgerView {
                    sequences: old(sequences)@,
                    metas: seq![old(self)@],
                    mocks: Seq::empty(),
                };
                let (after, outcome) = before.claim(0);
                &&& final(self)@ == after.metas[0]
                &&& final(sequences)@ == after.sequences
                &&& claim_matches(result, outcome)
            }),
    {
        let ghost before = LedgerView {
            sequences: sequences@,
            metas: seq![self@],
            mocks: Seq::empty(),
        };
        if self.count.max == Some(0) {
            let error = self.fail("a forbidden call was made");
            proof {
                assert(before.meta_failed(0, "a forbidden call was made"@).0.metas =~= seq![self@]);
            }
            return Err(error);
        }
        match self.count.max {
            Some(max) => if self.progress.calls >= max {
                return Ok(Claim::Exhausted);
            },
            None => {},
        }
        if self.progress.calls == usize::MAX {
            let error = self.fail("call count overflow");
            proof {
                assert(before.meta_failed(0, "call count overflow"@).0.metas =~= seq![self@]);
            }
            return Err(error);
        }
        let calls = self.progress.calls + 1;
        match self.progress.ticket {
            Some(ticket) => {
                let progress = sequences[ticket.sequence];
                if progress.cursor != ticket.index {
                    let error = self.fail("call arrived out of order");
                    proof {
                        assert(before.meta_failed(0, "call arrived out of order"@).0.metas =~= seq![self@]);
                    }
                    return Err(error);
                }
                if self.count.max == Some(calls) {
                    sequences.set(
                        ticket.sequence,
                        SequenceProgress { cursor: progress.cursor + 1, ..progress },
                    );
                }
            },
            None => {},
        }
        self.progress.calls = calls;
        proof {
            let (after, _) = before.claim(0);
            assert(after.metas =~= seq![self@]);
        }
        Ok(Claim::Taken)
    }
}

impl Sequence {
    /// Starts an empty sequence in `ledger`.
    pub fn new(ledger: &mut Ledger) -> (sequence: Sequence)
        requires
            old(ledger)@.wf(),
        ensures
            sequence.index == old(ledger)@.sequences.len(),
            final(ledger)@ == (LedgerView {
                sequences: old(ledger)@.sequences.push(SequenceProgress { next: 0, cursor: 0 }),
                ..old(ledger)@
            }),
            final(ledger)@.wf(),
    {
        let index = ledger.sequences.len();
        ledger.sequences.push(SequenceProgress { next: 0, cursor: 0 });
        Sequence { index }
    }

    /// Hands out the next position of the sequence, unless every position
    /// is taken.
    pub fn reserve(&self, sequences: &mut Vec<SequenceProgress>) -> (result: Result<Ticket, Error>)
        requires
            self.index < old(sequences)@.len(),
        ensures
            ({
                let progress = old(sequences)@[self.index as int];
                if progress.next == usize::MAX {
                    &&& result matches Err(error) && says(error, "sequence is full"@)
                    &&& final(sequences)@ == old(sequences)@
                } else {
                    &&& result == Ok::<Ticket, Error>(
                        Ticket { sequence: self.index, index: progress.next },
                    )
                    &&& final(sequences)@ == old(sequences)@.update(
                        self.index as int,
                        SequenceProgress { next: (progress.next + 1) as usize, ..progress },
                    )
                }
            }),
    {
        let progress = sequences[self.index];
        if progress.next == usize::MAX {
            return Err(Error::Expectation(String::from_str("sequence is full")));
        }
        sequences.set(self.index, SequenceProgress { next: progress.next + 1, ..progress });
        Ok(Ticket { sequence: self.index, index: progress.next })
    }
}

/// Tracks one expectation; an index into its ledger.
#[derive(Clone, Copy, Debug, PartialEq, Eq, Structural)]
pub struct Expectation {
    /// Index of the expectation in its ledger.
    pub meta: usize,
}

impl Expectation {
    /// Returns the number of calls that used this expectation.
    pub fn calls(&self, ledger: &Ledger) -> (calls: usize)
        requires
            self.meta < ledger@.metas.len(),
        ensures
            calls == ledger@.metas[self.meta as int].calls,
    {
        ledger.metas[self.meta].progress.calls
    }

    /// Checks the call count and any rejected call.
    /// The error is the message that the caller's handle panics with; the
    /// library itself never panics.
    pub fn verify(&self, ledger: &Ledger) -> (result: Result<(), Error>)
        requires
            self.meta < ledger@.metas.len(),
        ensures
            verdict_matches(result, ledger@.meta_verdict(self.meta as int)),
    {
        let result = ledger.metas[self.meta].verify();
        proof {
            let single = LedgerView {
                sequences: Seq::empty(),
                metas: seq![ledger.metas@[self.meta as int]@],
                mocks: Seq::empty(),
            };
            assert(single.meta_verdict(0) == ledger@.meta_verdict(self.meta as int));
        }
        result
    }
}

/// A mock of one function; an index into its ledger.
#[derive(Clone, Copy, Debug, PartialEq, Eq, Structural)]
pub struct State {
    /// Index of the mock in its ledger.
    pub index: usize,
}

/// Marks a running mock call, to catch a mock that calls itself.
#[derive(Debug, PartialEq, Eq)]
pub struct CallGuard {
    /// The running mock.
    pub key: usize,
}

impl CallGuard {
    /// Enters mock `key` unless it is already running; `active` lists the
    /// mocks that are running on this thread.
    pub fn try_enter(active: &mut Vec<usize>, key: usize) -> (result: Result<CallGuard, Error>)
        ensures
            match result {
                Ok(guard) => !old(active)@.contains(key) && guard.key == key && final(active)@
                    == old(active)@.push(key),
                Err(error) => old(active)@.contains(key) && final(active)@ == old(active)@ && says(
                    error,
                    "a mock called itself recursively"@,
                ),
            },
    {
        let mut index: usize = 0;
        while index < active.len()
            invariant
                index <= active@.len(),
                forall|i: int| 0 <= i < index ==> active@[i] != key,
            decreases active@.len() - index,
        {
            if active[index] == key {
                return Err(
                    Error::Expectation(String::from_str("a mock called itself recursively")),
                );
            }
            index = index + 1;
        }
        active.push(key);
        Ok(CallGuard { key })
    }

    /// Leaves the mock: removes its key from `active`.
    pub fn leave(self, active: &mut Vec<usize>)
        ensures
            final(active)@ == old(active)@.filter(|k: usize| k != self.key),
    {
        let ghost start = active@;
        let mut kept: Vec<usize> = Vec::new();
        let mut index: usize = 0;
        while index < active.len()
            invariant
                index <= active@.len(),
                active@ == start,
                kept@ == start.subrange(0, index as int).filter(|k: usize| k != self.key),
            decreases active@.len() - index,
        {
            proof {
                assert(start.subrange(0, index + 1).drop_last() == start.subrange(0, index as int));
                reveal_with_fuel(Seq::filter, 1);
            }
            if active[index] != self.key {
                kept.push(active[index]);
            }
            index = index + 1;
        }
        assert(start.subrange(0, start.len() as int) == start);
        *active = kept;
    }
}

impl Ledger {
    /// Offers a call to expectation `m`; see [`LedgerView::claim`].
    fn claim(&mut self, m: usize) -> (result: Result<Claim, Error>)
        requires
            old(self)@.wf(),
            m < old(self)@.metas.len(),
        ensures
            final(self)@ == old(self)@.claim(m as int).0,
            claim_matches(result, old(self)@.claim(m as int).1),
            final(self)@.wf(),
    {
        let ghost before = self@;
        let mut meta = self.metas[m].copy();
        assert(before.metas[m as int] == meta@);
        let result = meta.claim(&mut self.sequences);
        self.metas.set(m, meta);
        proof {
            let single = LedgerView {
                sequences: before.sequences,
                metas: seq![before.metas[m as int]],
                mocks: Seq::empty(),
            };
            let (after, outcome) = before.claim(m as int);
            let (single_after, single_outcome) = single.claim(0);
            assert(outcome == single_outcome);
            assert(after.sequences == single_after.sequences);
            assert(self@.metas =~= after.metas);
            assert(self@.mocks =~= after.mocks);
        }
        result
    }
}

impl State {
    /// Creates the mock of a function named `name`.
    pub fn new(ledger: &mut Ledger, name: &'static str) -> (state: State)
        requires
            old(ledger)@.wf(),
        ensures
            state.index == old(ledger)@.mocks.len(),
            final(ledger)@ == (LedgerView {
                mocks: old(ledger)@.mocks.push(
                    MockView { name: name@, active: true, rules: Seq::empty(), failure: None },
                ),
                ..old(ledger)@
            }),
            final(ledger)@.wf(),
    {
        let ghost before = ledger@;
        let index = ledger.mocks.len();
        ledger.mocks.push(Mock { name, active: true, rules: Vec::new(), failure: None });
        proof {
            assert(ledger@.mocks =~= before.mocks.push(
                MockView { name: name@, active: true, rules: Seq::empty(), failure: None },
            ));
            assert(ledger@.metas =~= before.metas);
        }
        State { index }
    }

    /// Adds an expectation with `config`; see [`LedgerView::add`].
    pub fn add(&self, ledger: &mut Ledger, config: Config) -> (result: Result<Expectation, Error>)
        requires
            old(ledger)@.wf(),
            self.index < old(ledger)@.mocks.len(),
            config.sequence matches Some(sequence) ==> sequence.index < old(ledger)@.sequences.len(),
        ensures
            final(ledger)@ == old(ledger)@.add(self.index as int, config).0,
            match old(ledger)@.add(self.index as int, config).1 {
                Ok(index) => result == Ok::<Expectation, Error>(Expectation { meta: index }),
                Err(text) => result matches Err(error) && says(error, text),
            },
            final(ledger)@.wf(),
    {
        let ghost before = ledger@;
        let count = config.validate()?;
        let s = self.index;
        if !ledger.mocks[s].active {
            return Err(
                Error::Expectation(failure_message(ledger.mocks[s].name, "mock is no longer active")),
            );
        }
        let ticket = match config.sequence {
            Some(sequence) => Some(sequence.reserve(&mut ledger.sequences)?),
            None => None,
        };
        let index = ledger.metas.len();
        let name = ledger.mocks[s].name;
        ledger.metas.push(
            Meta { name, count, progress: Progress { calls: 0, ticket, failure: None } },
        );
        let mut rules = ledger.mocks[s].rules.clone();
        rules.push(index);
        let mock = Mock {
            name,
            active: true,
            rules,
            failure: copy_message(&ledger.mocks[s].failure),
        };
        ledger.mocks.set(s, mock);
        proof {
            let (after, _) = before.add(s as int, config);
            assert(ledger@.metas =~= after.metas);
            assert(ledger@.mocks =~= after.mocks);
            assert(ledger@.sequences =~= after.sequences);
        }
        Ok(Expectation { meta: index })
    }

    /// Answers a call: the first rule whose `matches` entry is true and that
    /// takes the call; see [`LedgerView::select`]. Every rejected call is
    /// recorded as the mock's failure.
    /// The error is the message that the caller's handle panics with; the
    /// library itself never panics.
    #[verifier::loop_isolation(false)]
    pub fn select(&self, ledger: &mut Ledger, matches: &Vec<bool>) -> (result: Result<Expectation, Error>)
        requires
            old(ledger)@.wf(),
            self.index < old(ledger)@.mocks.len(),
        ensures
            final(ledger)@ == old(ledger)@.select(self.index as int, matches@).0,
            match old(ledger)@.select(self.index as int, matches@).1 {
                Ok(index) => result == Ok::<Expectation, Error>(Expectation { meta: index }),
                Err(text) => result matches Err(error) && says(error, text),
            },
            final(ledger)@.wf(),
    {
        let ghost before = ledger@;
        let s = self.index;
        if !ledger.mocks[s].active {
            let message = failure_message(ledger.mocks[s].name, "mock is no longer active");
            ledger.fail_mock(s, &message);
            return Err(Error::Expectation(message));
        }
        let rules = ledger.mocks[s].rules.clone();
        let mut matched = false;
        let mut k: usize = 0;
        while k < rules.len()
            invariant
                k <= rules@.len(),
                rules@ == before.mocks[s as int].rules,
                s < ledger@.mocks.len(),
                ledger@.mocks.len() == before.mocks.len(),
                ledger@.wf(),
                forall|j: int| 0 <= j < rules@.len() ==> rules@[j] < ledger@.metas.len(),
                before.select(s as int, matches@) == ledger@.select_from(
                    s as int,
                    rules@,
                    matches@,
                    k as int,
                    matched,
                ),
            decreases rules@.len() - k,
        {
            if k < matches.len() && matches[k] {
                let ghost current = ledger@;
                let claim = ledger.claim(rules[k]);
                proof {
                    assert(ledger@.mocks == current.mocks);
                }
                match claim {
                    Ok(Claim::Taken) => {
                        return Ok(Expectation { meta: rules[k] });
                    },
                    Ok(Claim::Exhausted) => {
                        matched = true;
                    },
                    Err(error) => {
                        let message = match error {
                            Error::Expectation(message) => message,
                            _ => {
                                proof {
                                    assert(false);
                                }
                                String::new()
                            },
                        };
                        ledger.fail_mock(s, &message);
                        return Err(Error::Expectation(message));
                    },
                }
            }
            k = k + 1;
        }
        let message = failure_message(
            ledger.mocks[s].name,
            if matched {
                "matching expectations are exhausted"
            } else {
                "no expectation matched this call"
            },
        );
        ledger.fail_mock(s, &message);
        Err(Error::Expectation(message))
    }

    /// Checks the rules from `k` on.
    fn verify_rules(ledger: &Ledger, rules: &Vec<usize>) -> (result: Result<(), Error>)
        requires
            forall|j: int| 0 <= j < rules@.len() ==> rules@[j] < ledger@.metas.len(),
        ensures
            verdict_matches(result, ledger@.rules_verdict(rules@, 0)),
    {
        let mut k: usize = 0;
        while k < rules.len()
            invariant
                k <= rules@.len(),
                forall|j: int| 0 <= j < rules@.len() ==> rules@[j] < ledger@.metas.len(),
                ledger@.rules_verdict(rules@, 0) == ledger@.rules_verdict(rules@, k as int),
            decreases rules@.len() - k,
        {
            let result = Expectation { meta: rules[k] }.verify(ledger);
            if result.is_err() {
                return result;
            }
            k = k + 1;
        }
        Ok(())
    }

    /// Checks the mock: its first failure, then every rule; see [`LedgerView::verdict`].
    pub fn verify(&self, ledger: &Ledger) -> (result: Result<(), Error>)
        requires
            ledger@.wf(),
            self.index < ledger@.mocks.len(),
        ensures
            verdict_matches(result, ledger@.verdict(self.index as int)),
    {
        let s = self.index;
        match &ledger.mocks[s].failure {
            Some(message) => {
                return Err(Error::Expectation(message.clone()));
            },
            None => {},
        }
        assert(forall|j: int| 0 <= j < ledger@.mocks[s as int].rules.len() ==> ledger@.mocks[s as int].rules[j] < ledger@.metas.len());
        Self::verify_rules(ledger, &ledger.mocks[s].rules)
    }

    /// Checks the mock, then clears its rules for the next phase; see
    /// [`LedgerView::checkpoint`].
    pub fn checkpoint(&self, ledger: &mut Ledger) -> (result: Result<(), Error>)
        requires
            old(ledger)@.wf(),
            self.index < old(ledger)@.mocks.len(),
        ensures
            final(ledger)@ == old(ledger)@.checkpoint(self.index as int).0,
            verdict_matches(result, old(ledger)@.checkpoint(self.index as int).1),
            final(ledger)@.wf(),
    {
        let ghost before = ledger@;
        let s = self.index;
        if !ledger.mocks[s].active {
            return Err(
                Error::Expectation(failure_message(ledger.mocks[s].name, "mock is no longer active")),
            );
        }
        self.verify(ledger)?;
        let mock = Mock {
            name: ledger.mocks[s].name,
            active: ledger.mocks[s].active,
            rules: Vec::new(),
            failure: copy_message(&ledger.mocks[s].failure),
        };
        ledger.mocks.set(s, mock);
        proof {
            let (after, _) = before.checkpoint(s as int);
            assert(ledger@.mocks =~= after.mocks);
            assert(ledger@.metas =~= after.metas);
        }
        Ok(())
    }

    /// Stops the mock: it answers no more calls and forgets its rules.
    pub fn deactivate(&self, ledger: &mut Ledger)
        requires
            old(ledger)@.wf(),
            self.index < old(ledger)@.mocks.len(),
        ensures
            final(ledger)@ == old(ledger)@.deactivate(self.index as int),
            final(ledger)@.wf(),
    {
        let ghost before = ledger@;
        let s = self.index;
        let mock = Mock {
            name: ledger.mocks[s].name,
            active: false,
            rules: Vec::new(),
            failure: copy_message(&ledger.mocks[s].failure),
        };
        ledger.mocks.set(s, mock);
        proof {
            assert(ledger@.mocks =~= before.deactivate(s as int).mocks);
            assert(ledger@.metas =~= before.metas);
        }
    }

    /// Enters a call of this mock; a mock that is already running on this
    /// thread fails and records the failure.
    /// The error is the message that the caller's handle panics with; the
    /// library itself never panics.
    pub fn enter(&self, ledger: &mut Ledger, active: &mut Vec<usize>) -> (result: Result<
        CallGuard,
        Error,
    >)
        requires
            old(ledger)@.wf(),
            self.index < old(ledger)@.mocks.len(),
        ensures
            match result {
                Ok(guard) => !old(active)@.contains(self.index) && guard.key == self.index
                    && final(active)@ == old(active)@.push(self.index) && final(ledger)@ == old(ledger)@,
                Err(error) => {
                    let text = failure_text(
                        old(ledger)@.mocks[self.index as int].name,
                        "a mock called itself recursively"@,
                    );
                    &&& old(active)@.contains(self.index)
                    &&& final(active)@ == old(active)@
                    &&& final(ledger)@ == old(ledger)@.mock_failed(self.index as int, text)
                    &&& says(error, text)
                },
            },
            final(ledger)@.wf(),
    {
        match CallGuard::try_enter(active, self.index) {
            Ok(guard) => Ok(guard),
            Err(_) => {
                let message = failure_message(
                    ledger.mocks[self.index].name,
                    "a mock called itself recursively",
                );
                ledger.fail_mock(self.index, &message);
                Err(Error::Expectation(message))
            },
        }
    }
}

/// A rule that answers calls for one expectation.
pub trait Rule {
    /// The expectation that counts this rule's calls.
    fn meta(&self) -> (expectation: Expectation)
        ensures
            expectation == self.counted(),
    ;

    /// The expectation that counts this rule's calls, in specifications.
    spec fn counted(&self) -> Expectation;
}

/// What a session checks and stops when it ends.
pub trait Control {
    /// Checks the mock's expectations.
    fn verify(&self, ledger: &Ledger) -> (result: Result<(), Error>)
        requires
            ledger@.wf(),
            self.target() < ledger@.mocks.len(),
        ensures
            verdict_matches(result, ledger@.verdict(self.target() as int)),
    ;

    /// Stops the mock.
    fn deactivate(&self, ledger: &mut Ledger)
        requires
            old(ledger)@.wf(),
            self.target() < old(ledger)@.mocks.len(),
        ensures
            final(ledger)@ == old(ledger)@.deactivate(self.target() as int),
            final(ledger)@.wf(),
    ;

    /// The mock this control stands for.
    spec fn target(&self) -> usize;
}

impl Control for State {
    open spec fn target(&self) -> usize {
        self.index
    }

    fn verify(&self, ledger: &Ledger) -> (result: Result<(), Error>) {
        State::verify(self, ledger)
    }

    fn deactivate(&self, ledger: &mut Ledger) {
        State::deactivate(self, ledger)
    }
}

} // verus!
