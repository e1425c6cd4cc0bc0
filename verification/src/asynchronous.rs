//! Expectations for futures: the registry of mocked poll functions and the
//! builders of async responses.
use crate::error::Error;
use crate::expectation::{
    says, CallCount, Config, Expectation, Ledger, LedgerView, Rule, Sequence, State,
    verdict_matches,
};
use vstd::prelude::*;

verus! {

/// How a rule answers a poll.
#[derive(Debug)]
pub enum Response<R> {
    /// A closure kept by the caller answers each poll.
    Callback,
    /// A closure kept by the caller answers one poll.
    CallbackOnce,
    /// A clone of the value answers each poll.
    Value(R),
    /// The value answers one poll.
    Once(R),
    /// The output type's default answers each poll.
    Default,
    /// The poll panics with this message.
    Panic(String),
}

/// A rule for one concrete future type.
#[derive(Debug)]
pub struct AsyncRule<R> {
    /// The expectation that counts the rule's polls.
    pub meta: Expectation,
    /// The answer.
    pub response: Response<R>,
}

impl<R> Rule for AsyncRule<R> {
    open spec fn counted(&self) -> Expectation {
        self.meta
    }

    fn meta(&self) -> (expectation: Expectation) {
        self.meta
    }
}

/// Expectations for one concrete future type.
///
/// Each matching poll returns `Ready`. Calls are counted when polled, not when
/// the future is created.
#[derive(Debug)]
pub struct AsyncMock<R> {
    /// The mock in the session's ledger.
    pub state: State,
    /// The rules, with their answers, in the order they were added.
    pub rules: Vec<AsyncRule<R>>,
}

/// A pending async expectation. Finish it with a return behavior or `never`.
#[derive(Debug)]
pub struct AsyncExpectation<R> {
    /// The mock it belongs to.
    pub state: State,
    /// Its count and sequence.
    pub config: Config,
    /// The output type.
    pub output: std::marker::PhantomData<R>,
}

/// The rule that `add` made, or its error.
pub open spec fn added<R>(
    before: LedgerView,
    state: State,
    config: Config,
    result: Result<AsyncRule<R>, Error>,
    after: LedgerView,
) -> bool {
    let (expected, outcome) = before.add(state.index as int, config);
    &&& after == expected
    &&& match outcome {
        Ok(index) => result matches Ok(rule) && rule.meta == (Expectation { meta: index }),
        Err(text) => result matches Err(error) && says(error, text),
    }
}

impl<R> AsyncMock<R> {
    /// Starts an expectation. By default any number of calls is allowed.
    pub fn expect(&self) -> (expectation: AsyncExpectation<R>)
        ensures
            expectation.state == self.state,
            expectation.config == (Config { count: None, sequence: None }),
    {
        AsyncExpectation { state: self.state, config: Config::default(), output: std::marker::PhantomData }
    }

    /// Checks call counts and unexpected calls.
    /// The error is the message that the caller's handle panics with; the
    /// library itself never panics.
    pub fn verify(&self, ledger: &Ledger) -> (result: Result<(), Error>)
        requires
            ledger@.wf(),
            self.state.index < ledger@.mocks.len(),
        ensures
            verdict_matches(result, ledger@.verdict(self.state.index as int)),
    {
        self.state.verify(ledger)
    }

    /// Checks expectations like [`Self::verify`], then clears them for the next phase.
    /// The error is the message that the caller's handle panics with; the
    /// library itself never panics.
    pub fn checkpoint(&mut self, ledger: &mut Ledger) -> (result: Result<(), Error>)
        requires
            old(ledger)@.wf(),
            old(self).state.index < old(ledger)@.mocks.len(),
        ensures
            final(ledger)@ == old(ledger)@.checkpoint(old(self).state.index as int).0,
            verdict_matches(result, old(ledger)@.checkpoint(old(self).state.index as int).1),
            final(ledger)@.wf(),
            final(self).state == old(self).state,
            result is Ok ==> final(self).rules@.len() == 0,
            result is Err ==> final(self).rules@ == old(self).rules@,
    {
        let result = self.state.checkpoint(ledger);
        if result.is_ok() {
            self.rules = Vec::new();
        }
        result
    }

    /// Keeps a finished rule so that polls can find its answer.
    pub fn keep(&mut self, rule: AsyncRule<R>)
        ensures
            final(self).state == old(self).state,
            final(self).rules@ == old(self).rules@.push(rule),
    {
        self.rules.push(rule);
    }
}

impl<R> AsyncExpectation<R> {
    /// Requires a count or range of counts.
    pub fn times(self, count: CallCount) -> (expectation: AsyncExpectation<R>)
        ensures
            expectation.state == self.state,
            expectation.config == (Config { count: Some(count), ..self.config }),
    {
        AsyncExpectation { state: self.state, config: self.config.times(count), output: self.output }
    }

    /// Requires exactly one call.
    pub fn once(self) -> (expectation: AsyncExpectation<R>)
        ensures
            expectation.state == self.state,
            expectation.config == (Config { count: Some(CallCount { min: 1, max: Some(1) }), ..self.config }),
    {
        AsyncExpectation { state: self.state, config: self.config.once(), output: self.output }
    }

    /// Orders this expectation with others. Use an exact positive count.
    pub fn in_sequence(self, sequence: &Sequence) -> (expectation: AsyncExpectation<R>)
        ensures
            expectation.state == self.state,
            expectation.config == (Config { sequence: Some(*sequence), ..self.config }),
    {
        AsyncExpectation {
            state: self.state,
            config: self.config.in_sequence(sequence),
            output: self.output,
        }
    }

    fn finish(self, ledger: &mut Ledger, config: Config, response: Response<R>) -> (result: Result<
        AsyncRule<R>,
        Error,
    >)
        requires
            old(ledger)@.wf(),
            self.state.index < old(ledger)@.mocks.len(),
            config.sequence matches Some(q) ==> q.index < old(ledger)@.sequences.len(),
        ensures
            added(old(ledger)@, self.state, config, result, final(ledger)@),
            result matches Ok(rule) ==> rule.response == response,
            final(ledger)@.wf(),
    {
        let meta = self.state.add(ledger, config)?;
        Ok(AsyncRule { meta, response })
    }

    /// Answers each poll from a closure that the caller keeps.
    /// The error is the message that the caller's handle panics with; the
    /// library itself never panics.
    pub fn returning(self, ledger: &mut Ledger) -> (result: Result<AsyncRule<R>, Error>)
        requires
            old(ledger)@.wf(),
            self.state.index < old(ledger)@.mocks.len(),
            self.config.sequence matches Some(q) ==> q.index < old(ledger)@.sequences.len(),
        ensures
            added(old(ledger)@, self.state, self.config, result, final(ledger)@),
            result matches Ok(rule) ==> rule.response == Response::<R>::Callback,
            final(ledger)@.wf(),
    {
        let config = self.config;
        self.finish(ledger, config, Response::Callback)
    }

    /// Answers at most one poll from a closure that the caller keeps.
    /// The error is the message that the caller's handle panics with; the
    /// library itself never panics.
    pub fn returning_once(self, ledger: &mut Ledger) -> (result: Result<AsyncRule<R>, Error>)
        requires
            old(ledger)@.wf(),
            self.state.index < old(ledger)@.mocks.len(),
            self.config.sequence matches Some(q) ==> q.index < old(ledger)@.sequences.len(),
        ensures
            match self.config.one_shot() {
                Ok(config) => added(old(ledger)@, self.state, config, result, final(ledger)@),
                Err(text) => result matches Err(error) && says(error, text) && final(ledger)@
                    == old(ledger)@,
            },
            result matches Ok(rule) ==> rule.response == Response::<R>::CallbackOnce,
            final(ledger)@.wf(),
    {
        let config = self.config.for_once()?;
        self.finish(ledger, config, Response::CallbackOnce)
    }

    /// Answers each poll with a clone of `value`.
    pub fn returns_value(self, ledger: &mut Ledger, value: R) -> (result: Result<AsyncRule<R>, Error>)
        requires
            old(ledger)@.wf(),
            self.state.index < old(ledger)@.mocks.len(),
            self.config.sequence matches Some(q) ==> q.index < old(ledger)@.sequences.len(),
        ensures
            added(old(ledger)@, self.state, self.config, result, final(ledger)@),
            result matches Ok(rule) ==> rule.response == Response::<R>::Value(value),
            final(ledger)@.wf(),
    {
        let config = self.config;
        self.finish(ledger, config, Response::Value(value))
    }

    /// Moves `value` into one answer. It need not implement `Clone`.
    pub fn return_once(self, ledger: &mut Ledger, value: R) -> (result: Result<AsyncRule<R>, Error>)
        requires
            old(ledger)@.wf(),
            self.state.index < old(ledger)@.mocks.len(),
            self.config.sequence matches Some(q) ==> q.index < old(ledger)@.sequences.len(),
        ensures
            match self.config.one_shot() {
                Ok(config) => added(old(ledger)@, self.state, config, result, final(ledger)@),
                Err(text) => result matches Err(error) && says(error, text) && final(ledger)@
                    == old(ledger)@,
            },
            result matches Ok(rule) ==> rule.response == Response::<R>::Once(value),
            final(ledger)@.wf(),
    {
        let config = self.config.for_once()?;
        self.finish(ledger, config, Response::Once(value))
    }

    /// Answers each poll with the output type's default.
    pub fn returns_default(self, ledger: &mut Ledger) -> (result: Result<AsyncRule<R>, Error>)
        requires
            old(ledger)@.wf(),
            self.state.index < old(ledger)@.mocks.len(),
            self.config.sequence matches Some(q) ==> q.index < old(ledger)@.sequences.len(),
        ensures
            added(old(ledger)@, self.state, self.config, result, final(ledger)@),
            result matches Ok(rule) ==> rule.response == Response::<R>::Default,
            final(ledger)@.wf(),
    {
        let config = self.config;
        self.finish(ledger, config, Response::Default)
    }

    /// Panics with `message` when polled.
    pub fn panics(self, ledger: &mut Ledger, message: String) -> (result: Result<AsyncRule<R>, Error>)
        requires
            old(ledger)@.wf(),
            self.state.index < old(ledger)@.mocks.len(),
            self.config.sequence matches Some(q) ==> q.index < old(ledger)@.sequences.len(),
        ensures
            added(old(ledger)@, self.state, self.config, result, final(ledger)@),
            result matches Ok(rule) ==> rule.response matches Response::Panic(text) && text@
                == message@,
            final(ledger)@.wf(),
    {
        let config = self.config;
        self.finish(ledger, config, Response::Panic(message))
    }

    /// Rejects every poll of this future type.
    pub fn never(self, ledger: &mut Ledger) -> (result: Result<AsyncRule<R>, Error>)
        requires
            old(ledger)@.wf(),
            self.state.index < old(ledger)@.mocks.len(),
            self.config.sequence matches Some(q) ==> q.index < old(ledger)@.sequences.len(),
        ensures
            added(
                old(ledger)@,
                self.state,
                Config { count: Some(CallCount { min: 0, max: Some(0) }), ..self.config },
                result,
                final(ledger)@,
            ),
            result matches Ok(rule) ==> rule.response matches Response::Panic(text) && text@
                == "poll is forbidden"@,
            final(ledger)@.wf(),
    {
        let config = self.config.times(CallCount::from(0usize));
        self.finish(ledger, config, Response::Panic(String::from_str("poll is forbidden")))
    }
}

/// One mocked poll function: its address and its mock.
pub type RegistryEntry = (usize, State);

/// The first entry for `address`.
pub open spec fn entry_for(registry: Seq<RegistryEntry>, address: usize, k: int) -> Option<State>
    decreases registry.len() - k,
{
    if k < 0 || k >= registry.len() {
        None
    } else if registry[k].0 == address {
        Some(registry[k].1)
    } else {
        entry_for(registry, address, k + 1)
    }
}

/// Registers the mock of the poll function at `address`; a function can be
/// mocked once per registry.
pub fn insert(registry: &mut Vec<RegistryEntry>, address: usize, state: State) -> (result: Result<
    (),
    Error,
>)
    ensures
        match result {
            Ok(()) => (forall|k: int| 0 <= k < old(registry)@.len() ==> old(registry)@[k].0 != address)
                && final(registry)@ == old(registry)@.push((address, state)),
            Err(error) => (exists|k: int| 0 <= k < old(registry)@.len() && old(registry)@[k].0 == address)
                && final(registry)@ == old(registry)@ && says(error, "this future is already mocked"@),
        },
{
    let mut k: usize = 0;
    while k < registry.len()
        invariant
            k <= registry@.len(),
            forall|j: int| 0 <= j < k ==> registry@[j].0 != address,
        decreases registry@.len() - k,
    {
        if registry[k].0 == address {
            return Err(Error::Expectation(String::from_str("this future is already mocked")));
        }
        k = k + 1;
    }
    registry.push((address, state));
    Ok(())
}

/// Removes the entries of the poll function at `address`.
pub fn remove(registry: &mut Vec<RegistryEntry>, address: usize)
    ensures
        final(registry)@ == old(registry)@.filter(|entry: RegistryEntry| entry.0 != address),
{
    let ghost start = registry@;
    let mut kept: Vec<RegistryEntry> = Vec::new();
    let mut index: usize = 0;
    while index < registry.len()
        invariant
            index <= registry@.len(),
            registry@ == start,
            kept@ == start.subrange(0, index as int).filter(|entry: RegistryEntry| entry.0 != address),
        decreases registry@.len() - index,
    {
        proof {
            assert(start.subrange(0, index + 1).drop_last() == start.subrange(0, index as int));
            reveal_with_fuel(Seq::filter, 1);
        }
        if registry[index].0 != address {
            kept.push(registry[index]);
        }
        index = index + 1;
    }
    assert(start.subrange(0, start.len() as int) == start);
    *registry = kept;
}

/// The mock of the poll function at `address`.
pub fn find(registry: &Vec<RegistryEntry>, address: usize) -> (found: Option<State>)
    ensures
        found == entry_for(registry@, address, 0),
{
    let mut k: usize = 0;
    while k < registry.len()
        invariant
            k <= registry@.len(),
            entry_for(registry@, address, 0) == entry_for(registry@, address, k as int),
        decreases registry@.len() - k,
    {
        if registry[k].0 == address {
            return Some(registry[k].1);
        }
        k = k + 1;
    }
    None
}

/// The mock of `address` that this thread sees: its own first, then the
/// global one while global async mocks exist.
pub fn registered(
    local: &Vec<RegistryEntry>,
    global: &Vec<RegistryEntry>,
    global_active: bool,
    address: usize,
) -> (found: Option<State>)
    ensures
        found == match entry_for(local@, address, 0) {
            Some(state) => Some(state),
            None => if global_active {
                entry_for(global@, address, 0)
            } else {
                None
            },
        },
{
    match find(local, address) {
        Some(state) => Some(state),
        None => if global_active {
            find(global, address)
        } else {
            None
        },
    }
}

/// No entry from `k` on is for `address`, so none is found.
proof fn lemma_no_entry(registry: Seq<RegistryEntry>, address: usize, k: int)
    requires
        0 <= k,
        forall|j: int| k <= j < registry.len() ==> (#[trigger] registry[j]).0 != address,
    ensures
        entry_for(registry, address, k) is None,
    decreases registry.len() - k,
{
    if k < registry.len() {
        lemma_no_entry(registry, address, k + 1);
    }
}

/// An entry appended after entries for other addresses is the one found.
proof fn lemma_appended_entry(registry: Seq<RegistryEntry>, address: usize, state: State, k: int)
    requires
        0 <= k <= registry.len(),
        forall|j: int| k <= j < registry.len() ==> (#[trigger] registry[j]).0 != address,
    ensures
        entry_for(registry.push((address, state)), address, k) == Some(state),
    decreases registry.len() - k,
{
    if k < registry.len() {
        lemma_appended_entry(registry, address, state, k + 1);
    }
}

/// A mocked poll function finds its mock until the mock is removed; then
/// it finds none.
pub proof fn lemma_registered_until_removed(registry: Seq<RegistryEntry>, address: usize, state: State)
    requires
        forall|k: int| 0 <= k < registry.len() ==> (#[trigger] registry[k]).0 != address,
    ensures
        entry_for(registry.push((address, state)), address, 0) == Some(state),
        entry_for(
            registry.push((address, state)).filter(|entry: RegistryEntry| entry.0 != address),
            address,
            0,
        ) is None,
{
    lemma_appended_entry(registry, address, state, 0);
    let kept = registry.push((address, state)).filter(|entry: RegistryEntry| entry.0 != address);
    assert forall|j: int| 0 <= j < kept.len() implies (#[trigger] kept[j]).0 != address by {
        registry.push((address, state)).lemma_filter_pred(
            |entry: RegistryEntry| entry.0 != address,
            j,
        );
    }
    lemma_no_entry(kept, address, 0);
}

} // verus!
