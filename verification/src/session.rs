//! Sessions: the patches, routes and mocks that one scope installs, and the
//! order in which it removes them.
use crate::code::x86::Plan;
use crate::error::Error;
use crate::expectation::{verdict_matches, Ledger, LedgerView, State};
use crate::routing::{overlaps, views, Record};
use vstd::prelude::*;

verus! {

/// A patch written into a function entry by a global session.
#[derive(Debug)]
pub struct Patch {
    /// The function entry.
    pub entry: usize,
    /// The first patched byte.
    pub address: usize,
    /// The bytes that the patch replaced.
    pub original: Vec<u8>,
    /// The bytes of the patch.
    pub replacement: Vec<u8>,
}

/// A patch as values.
pub struct PatchView {
    /// The function entry.
    pub entry: usize,
    /// The first patched byte.
    pub address: usize,
    /// The bytes that the patch replaced.
    pub original: Seq<u8>,
    /// The bytes of the patch.
    pub replacement: Seq<u8>,
}

impl View for Patch {
    type V = PatchView;

    open spec fn view(&self) -> PatchView {
        PatchView {
            entry: self.entry,
            address: self.address,
            original: self.original@,
            replacement: self.replacement@,
        }
    }
}

/// The patch spans `at`: from the entry to its last patched byte.
pub open spec fn patch_spans(patch: PatchView, at: int) -> bool {
    patch.entry <= at < patch.address + patch.original.len()
}

/// The patch shares a byte with `[address, end)`.
pub open spec fn patch_meets(patch: PatchView, address: int, end: int) -> bool {
    address < patch.address + patch.original.len() && patch.address < end
}

/// How the process-wide session lock was taken.
#[derive(Clone, Copy, Debug, PartialEq, Eq)]
pub enum Acquired {
    /// The lock is held.
    Granted,
    /// The lock is held; a session that panicked held it before.
    Poisoned,
    /// Another session holds the lock.
    WouldBlock,
}

/// A scope for global or thread-local function mocks.
///
/// The platform layer holds the process-wide lock of the session and performs
/// the code writes and route changes; this value records what to undo.
pub struct Session {
    patches: Vec<Patch>,
    mocks: Vec<State>,
    local_patches: Vec<usize>,
    global_routes: Vec<usize>,
    local: bool,
}

/// A session as values.
pub struct SessionView {
    /// Entry patches of a global session, oldest first.
    pub patches: Seq<PatchView>,
    /// Mocks that the session owns.
    pub mocks: Seq<usize>,
    /// Sources with routes of this thread.
    pub local_patches: Seq<usize>,
    /// Sources with global routes.
    pub global_routes: Seq<usize>,
    /// The session's mocks affect only the current thread.
    pub local: bool,
}

impl View for Session {
    type V = SessionView;

    closed spec fn view(&self) -> SessionView {
        SessionView {
            patches: self.patches@.map_values(|patch: Patch| patch@),
            mocks: self.mocks@.map_values(|mock: State| mock.index),
            local_patches: self.local_patches@,
            global_routes: self.global_routes@,
            local: self.local,
        }
    }
}

/// The session undoes nothing and owns no mock.
pub open spec fn empty(session: SessionView) -> bool {
    &&& session.patches.len() == 0
    &&& session.mocks.len() == 0
    &&& session.local_patches.len() == 0
    &&& session.global_routes.len() == 0
}

/// The session's mocks are in the ledger.
pub open spec fn owned_by(session: SessionView, ledger: LedgerView) -> bool {
    forall|k: int| 0 <= k < session.mocks.len() ==> #[trigger] session.mocks[k] < ledger.mocks.len()
}

/// The check of the mocks from index `k` on: the first that fails.
pub open spec fn mocks_verdict(ledger: LedgerView, mocks: Seq<usize>, k: int) -> Result<
    (),
    Seq<char>,
>
    decreases mocks.len() - k,
{
    if k < 0 || k >= mocks.len() {
        Ok(())
    } else {
        match ledger.verdict(mocks[k] as int) {
            Err(text) => Err(text),
            Ok(()) => mocks_verdict(ledger, mocks, k + 1),
        }
    }
}

/// The ledger with the mocks from index `k` on stopped.
pub open spec fn deactivated(ledger: LedgerView, mocks: Seq<usize>, k: int) -> LedgerView
    decreases mocks.len() - k,
{
    if k < 0 || k >= mocks.len() {
        ledger
    } else {
        deactivated(ledger.deactivate(mocks[k] as int), mocks, k + 1)
    }
}

/// `unpatch`, in some state, removed a patch equal to `patch`.
pub open spec fn unpatched<U>(patch: PatchView) -> bool where
    U: FnMut(&Patch) -> Result<(), Error>,
{
    exists|state: U, removed: &Patch, outcome: Result<(), Error>|
        removed@ == patch && outcome is Ok && #[trigger] call_ensures(state, (removed,), outcome)
}

/// `remove`, in some state, removed the routes of `source`.
pub open spec fn removed<L>(source: usize) -> bool where L: FnMut(usize) {
    exists|state: L| #[trigger] call_ensures(state, (source,), ())
}

/// Removing patch `k` of `patches` failed with `error`, which left the
/// patches up to and including it.
pub open spec fn unpatch_failed<U>(patches: Seq<PatchView>, kept: Seq<PatchView>, error: Error) -> bool where
    U: FnMut(&Patch) -> Result<(), Error>,
{
    exists|k: int, state: U, patch: &Patch|
        #![trigger patches[k], call_ensures(state, (patch,), Err::<(), Error>(error))]
        {
            &&& 0 <= k < patches.len()
            &&& kept == patches.take(k + 1)
            &&& patch@ == patches[k]
            &&& call_ensures(state, (patch,), Err::<(), Error>(error))
        }
}

/// One thing a session undoes.
#[derive(Clone, Copy, Debug, PartialEq, Eq, Structural)]
pub enum Removal {
    /// This thread's routes of a source.
    Local(usize),
    /// The global route of a source.
    Global(usize),
    /// The patch at this index.
    Patch(usize),
}

/// Step `j` of the order in which a session is undone: this thread's routes,
/// newest first, then the global routes, newest first, then the patches,
/// newest first.
pub open spec fn removal_at(session: SessionView, j: int) -> Removal {
    let l = session.local_patches.len() as int;
    let g = session.global_routes.len() as int;
    let p = session.patches.len() as int;
    if j < l {
        Removal::Local(session.local_patches[l - 1 - j])
    } else if j < l + g {
        Removal::Global(session.global_routes[l + g - 1 - j])
    } else {
        Removal::Patch((l + g + p - 1 - j) as usize)
    }
}

/// Everything a session undoes, in order; see [`removal_at`].
pub open spec fn removal_order(session: SessionView) -> Seq<Removal> {
    Seq::new(
        session.local_patches.len() + session.global_routes.len() + session.patches.len(),
        |j: int| removal_at(session, j),
    )
}

/// The closures undid `removal`, with `patches` the patches it indexes.
pub open spec fn undone_by<L, G, U>(patches: Seq<PatchView>, removal: Removal) -> bool where
    L: FnMut(usize),
    G: FnMut(usize),
    U: FnMut(&Patch) -> Result<(), Error>,
{
    match removal {
        Removal::Local(source) => removed::<L>(source),
        Removal::Global(source) => removed::<G>(source),
        Removal::Patch(index) => unpatched::<U>(patches[index as int]),
    }
}

impl Session {
    /// Opens a session, `local` or global: a thread with an active session
    /// gets [`Error::Busy`], and so does one whose lock is held elsewhere.
    pub fn open(local: bool, active: bool, acquired: Acquired) -> (result: Result<Session, Error>)
        ensures
            active || acquired == Acquired::WouldBlock ==> result == Err::<Session, Error>(
                Error::Busy,
            ),
            !(active || acquired == Acquired::WouldBlock) ==> (result matches Ok(session) && empty(
                session@,
            ) && session@.local == local),
    {
        if active {
            return Err(Error::Busy);
        }
        match acquired {
            Acquired::WouldBlock => Err(Error::Busy),
            _ => Ok(
                Session {
                    patches: Vec::new(),
                    mocks: Vec::new(),
                    local_patches: Vec::new(),
                    global_routes: Vec::new(),
                    local,
                },
            ),
        }
    }

    /// Opens a thread-local session. See [`Session::new_local`].
    pub fn new(active: bool, acquired: Acquired) -> (result: Result<Session, Error>)
        ensures
            active || acquired == Acquired::WouldBlock ==> result == Err::<Session, Error>(
                Error::Busy,
            ),
            !(active || acquired == Acquired::WouldBlock) ==> (result matches Ok(session) && empty(
                session@,
            ) && session@.local),
    {
        Session::open(true, active, acquired)
    }

    /// Opens a global session, once the lock is taken after other threads'
    /// sessions ended. Mocks affect all threads.
    pub fn new_global(active: bool, acquired: Acquired) -> (result: Result<Session, Error>)
        ensures
            active || acquired == Acquired::WouldBlock ==> result == Err::<Session, Error>(
                Error::Busy,
            ),
            !(active || acquired == Acquired::WouldBlock) ==> (result matches Ok(session) && empty(
                session@,
            ) && !session@.local),
    {
        Session::open(false, active, acquired)
    }

    /// Opens a session whose mocks affect only the current thread, once the
    /// lock is shared after global sessions ended.
    pub fn new_local(active: bool, acquired: Acquired) -> (result: Result<Session, Error>)
        ensures
            active || acquired == Acquired::WouldBlock ==> result == Err::<Session, Error>(
                Error::Busy,
            ),
            !(active || acquired == Acquired::WouldBlock) ==> (result matches Ok(session) && empty(
                session@,
            ) && session@.local),
    {
        Session::open(true, active, acquired)
    }

    /// Opens a local session with the lock as it was found, without waiting.
    pub fn try_new_local(active: bool, acquired: Acquired) -> (result: Result<Session, Error>)
        ensures
            active || acquired == Acquired::WouldBlock ==> result == Err::<Session, Error>(
                Error::Busy,
            ),
            !(active || acquired == Acquired::WouldBlock) ==> (result matches Ok(session) && empty(
                session@,
            ) && session@.local),
    {
        Session::open(true, active, acquired)
    }

    /// Opens a global session with the lock as it was found, without waiting.
    pub fn try_new_global(active: bool, acquired: Acquired) -> (result: Result<Session, Error>)
        ensures
            active || acquired == Acquired::WouldBlock ==> result == Err::<Session, Error>(
                Error::Busy,
            ),
            !(active || acquired == Acquired::WouldBlock) ==> (result matches Ok(session) && empty(
                session@,
            ) && !session@.local),
    {
        Session::open(false, active, acquired)
    }

    /// The number of entry patches that the session would remove.
    pub fn patch_count(&self) -> (count: usize)
        ensures
            count == self@.patches.len(),
    {
        self.patches.len()
    }

    /// The session's mocks affect only the current thread.
    pub fn is_local(&self) -> (local: bool)
        ensures
            local == self@.local,
    {
        self.local
    }

    /// The checks of a raw replacement of `source` by `target` before any
    /// code is read: a global session, two addresses, and no patch of this
    /// session that holds either of them, which would alias or cycle.
    pub fn check_raw(&self, source: usize, target: usize) -> (result: Result<(), Error>)
        ensures
            self@.local ==> (result matches Err(Error::Expectation(message)) && message@
                == "use mock! or mock_async in a local session"@),
            !self@.local && source == target ==> result == Err::<(), Error>(Error::SameAddress),
            !self@.local && source != target ==> result == (if exists|k: int|
                0 <= k < self@.patches.len() && (patch_spans(
                    #[trigger] self@.patches[k],
                    source as int,
                ) || patch_spans(self@.patches[k], target as int)) {
                Err(Error::Overlap)
            } else {
                Ok::<(), Error>(())
            }),
    {
        if self.local {
            return Err(Error::Expectation(String::from_str("use mock! or mock_async in a local session")));
        }
        if source == target {
            return Err(Error::SameAddress);
        }
        let mut k: usize = 0;
        while k < self.patches.len()
            invariant
                k <= self@.patches.len(),
                self@.patches.len() == self.patches@.len(),
                !self@.local,
                source != target,
                forall|j: int|
                    0 <= j < k ==> !(patch_spans(#[trigger] self@.patches[j], source as int)
                        || patch_spans(self@.patches[j], target as int)),
            decreases self.patches@.len() - k,
        {
            let patch = &self.patches[k];
            let end = patch.address as u128 + patch.original.len() as u128;
            if (patch.entry <= source && (source as u128) < end) || (patch.entry <= target
                && (target as u128) < end) {
                assert(patch_spans(self@.patches[k as int], source as int) || patch_spans(
                    self@.patches[k as int],
                    target as int,
                ));
                return Err(Error::Overlap);
            }
            k = k + 1;
        }
        Ok(())
    }

    /// The patch that carries out `plan` at `source`, unless its bytes
    /// overflow the address space or meet a patch of this session or of the
    /// routing registry `records`.
    pub fn patch_for(&self, source: usize, plan: Plan, records: &Vec<Record>) -> (result: Result<
        Patch,
        Error,
    >)
        ensures
            ({
                let address = source + plan@.offset;
                let end = address + plan@.original.len();
                if end > usize::MAX {
                    result == Err::<Patch, Error>(Error::InvalidRange)
                } else if (exists|k: int|
                    0 <= k < self@.patches.len() && patch_meets(
                        #[trigger] self@.patches[k],
                        address,
                        end,
                    )) || (exists|i: int|
                    0 <= i < records@.len() && crate::routing::shares_bytes(
                        #[trigger] views(records@)[i],
                        address,
                        end - address,
                    )) {
                    result == Err::<Patch, Error>(Error::Overlap)
                } else {
                    result matches Ok(patch) && patch@ == PatchView {
                        entry: source,
                        address: address as usize,
                        original: plan@.original,
                        replacement: plan@.replacement,
                    }
                }
            }),
    {
        let address = match source.checked_add(plan.offset) {
            Some(address) => address,
            None => return Err(Error::InvalidRange),
        };
        let end = match address.checked_add(plan.original.len()) {
            Some(end) => end,
            None => return Err(Error::InvalidRange),
        };
        let mut k: usize = 0;
        while k < self.patches.len()
            invariant
                k <= self@.patches.len(),
                self@.patches.len() == self.patches@.len(),
                address == source + plan@.offset,
                end == address + plan@.original.len(),
                forall|j: int|
                    0 <= j < k ==> !patch_meets(#[trigger] self@.patches[j], address as int, end as int),
            decreases self.patches@.len() - k,
        {
            let patch = &self.patches[k];
            if (address as u128) < patch.address as u128 + patch.original.len() as u128
                && patch.address < end {
                assert(patch_meets(self@.patches[k as int], address as int, end as int));
                return Err(Error::Overlap);
            }
            k = k + 1;
        }
        if overlaps(records, address, end - address) {
            return Err(Error::Overlap);
        }
        Ok(Patch { entry: source, address, original: plan.original, replacement: plan.replacement })
    }

    /// Records a patch that was written.
    pub fn add_patch(&mut self, patch: Patch)
        ensures
            final(self)@ == (SessionView { patches: old(self)@.patches.push(patch@), ..old(self)@ }),
    {
        self.patches.push(patch);
        proof {
            assert(self@.patches =~= old(self)@.patches.push(patch@));
        }
    }

    /// Records a global route from `source`.
    pub fn add_global_route(&mut self, source: usize)
        ensures
            final(self)@ == (SessionView {
                global_routes: old(self)@.global_routes.push(source),
                ..old(self)@
            }),
    {
        self.global_routes.push(source);
        proof {
            assert(self@.patches =~= old(self)@.patches);
            assert(self@.mocks =~= old(self)@.mocks);
        }
    }

    /// Records a route of this thread from `source`.
    pub fn add_local_patch(&mut self, source: usize)
        ensures
            final(self)@ == (SessionView {
                local_patches: old(self)@.local_patches.push(source),
                ..old(self)@
            }),
    {
        self.local_patches.push(source);
        proof {
            assert(self@.patches =~= old(self)@.patches);
            assert(self@.mocks =~= old(self)@.mocks);
        }
    }

    /// Takes ownership of a mock: the session checks it and stops it.
    pub fn add_mock(&mut self, mock: State)
        ensures
            final(self)@ == (SessionView { mocks: old(self)@.mocks.push(mock.index), ..old(self)@ }),
    {
        self.mocks.push(mock);
        proof {
            assert(self@.patches =~= old(self)@.patches);
            assert(self@.mocks =~= old(self)@.mocks.push(mock.index));
        }
    }

    /// Checks all call expectations without removing the mocks: the first
    /// mock that fails gives the error.
    pub fn verify(&self, ledger: &Ledger) -> (result: Result<(), Error>)
        requires
            ledger@.wf(),
            owned_by(self@, ledger@),
        ensures
            verdict_matches(result, mocks_verdict(ledger@, self@.mocks, 0)),
    {
        let mut k: usize = 0;
        while k < self.mocks.len()
            invariant
                k <= self@.mocks.len(),
                self@.mocks.len() == self.mocks@.len(),
                ledger@.wf(),
                owned_by(self@, ledger@),
                mocks_verdict(ledger@, self@.mocks, 0) == mocks_verdict(ledger@, self@.mocks, k as int),
            decreases self.mocks@.len() - k,
        {
            assert(self@.mocks[k as int] == self.mocks@[k as int].index);
            let result = self.mocks[k].verify(ledger);
            if result.is_err() {
                return result;
            }
            k = k + 1;
        }
        Ok(())
    }

    /// Stops every mock of the session and lets them go.
    pub fn detach(&mut self, ledger: &mut Ledger)
        requires
            old(ledger)@.wf(),
            owned_by(old(self)@, old(ledger)@),
        ensures
            final(ledger)@ == deactivated(old(ledger)@, old(self)@.mocks, 0),
            final(ledger)@.wf(),
            final(self)@ == (SessionView { mocks: Seq::empty(), ..old(self)@ }),
    {
        let mut k: usize = 0;
        while k < self.mocks.len()
            invariant
                k <= self@.mocks.len(),
                self@.mocks.len() == self.mocks@.len(),
                self@ == old(self)@,
                ledger@.wf(),
                ledger@.mocks.len() == old(ledger)@.mocks.len(),
                owned_by(self@, old(ledger)@),
                deactivated(old(ledger)@, self@.mocks, 0) == deactivated(
                    ledger@,
                    self@.mocks,
                    k as int,
                ),
            decreases self.mocks@.len() - k,
        {
            assert(self@.mocks[k as int] == self.mocks@[k as int].index);
            self.mocks[k].deactivate(ledger);
            k = k + 1;
        }
        self.mocks.clear();
        proof {
            assert(self@.patches =~= old(self)@.patches);
            assert(self@.mocks =~= Seq::<usize>::empty());
        }
    }
    /// The next thing to undo, in the order of [`removal_order`]: this
    /// thread's newest route, else the newest global route, else the newest
    /// patch; nothing once the session undoes nothing.
    pub fn next_removal(&self) -> (next: Option<Removal>)
        ensures
            removal_order(self@).len() > 0 ==> next == Some(removal_order(self@)[0]),
            removal_order(self@).len() == 0 ==> next is None,
    {
        if self.local_patches.len() > 0 {
            Some(Removal::Local(self.local_patches[self.local_patches.len() - 1]))
        } else if self.global_routes.len() > 0 {
            Some(Removal::Global(self.global_routes[self.global_routes.len() - 1]))
        } else if self.patches.len() > 0 {
            Some(Removal::Patch(self.patches.len() - 1))
        } else {
            None
        }
    }

    /// Records that the next thing to undo is undone: what remains is the
    /// rest of [`removal_order`].
    pub fn finish_removal(&mut self)
        requires
            removal_order(old(self)@).len() > 0,
        ensures
            removal_order(final(self)@) == removal_order(old(self)@).drop_first(),
            old(self)@.local_patches.len() > 0 ==> {
                &&& final(self)@.local_patches == old(self)@.local_patches.drop_last()
                &&& final(self)@.global_routes == old(self)@.global_routes
                &&& final(self)@.patches == old(self)@.patches
            },
            old(self)@.local_patches.len() == 0 && old(self)@.global_routes.len() > 0 ==> {
                &&& final(self)@.local_patches == old(self)@.local_patches
                &&& final(self)@.global_routes == old(self)@.global_routes.drop_last()
                &&& final(self)@.patches == old(self)@.patches
            },
            old(self)@.local_patches.len() == 0 && old(self)@.global_routes.len() == 0 ==> {
                &&& final(self)@.local_patches == old(self)@.local_patches
                &&& final(self)@.global_routes == old(self)@.global_routes
                &&& final(self)@.patches == old(self)@.patches.drop_last()
            },
            final(self)@.mocks == old(self)@.mocks,
            final(self)@.local == old(self)@.local,
    {
        if self.local_patches.len() > 0 {
            self.local_patches.pop();
            proof {
                assert(self@.local_patches =~= old(self)@.local_patches.drop_last());
            }
        } else if self.global_routes.len() > 0 {
            self.global_routes.pop();
            proof {
                assert(self@.global_routes =~= old(self)@.global_routes.drop_last());
            }
        } else {
            self.patches.pop();
            proof {
                assert(self@.patches =~= old(self)@.patches.drop_last());
            }
        }
        proof {
            assert(self@.mocks =~= old(self)@.mocks);
            assert(removal_order(self@) =~= removal_order(old(self)@).drop_first());
        }
    }

    /// Removes this session's routes, then its patches, in the order of
    /// [`removal_order`], with `remove_local`, `remove_global` and `unpatch`:
    /// each step undoes what [`Session::next_removal`] names and records it
    /// with [`Session::finish_removal`]. A patch that cannot be removed stays
    /// in the session, with those before it, so that removal can be retried.
    pub fn restore_patches<L, G, U>(
        &mut self,
        remove_local: &mut L,
        remove_global: &mut G,
        unpatch: &mut U,
    ) -> (result: Result<(), Error>) where
        L: FnMut(usize),
        G: FnMut(usize),
        U: FnMut(&Patch) -> Result<(), Error>,
        requires
            forall|state: L, source: usize| call_requires(state, (source,)),
            forall|state: G, source: usize| call_requires(state, (source,)),
            forall|state: U, patch: &Patch| call_requires(state, (patch,)),
        ensures
            final(self)@.local_patches.len() == 0,
            final(self)@.global_routes.len() == 0,
            final(self)@.mocks == old(self)@.mocks,
            final(self)@.local == old(self)@.local,
            forall|k: int|
                0 <= k < old(self)@.local_patches.len() ==> removed::<L>(
                    #[trigger] old(self)@.local_patches[k],
                ),
            forall|k: int|
                0 <= k < old(self)@.global_routes.len() ==> removed::<G>(
                    #[trigger] old(self)@.global_routes[k],
                ),
            forall|k: int|
                final(self)@.patches.len() <= k < old(self)@.patches.len() ==> unpatched::<U>(
                    #[trigger] old(self)@.patches[k],
                ),
            result is Ok ==> final(self)@.patches.len() == 0,
            result matches Err(error) ==> unpatch_failed::<U>(
                old(self)@.patches,
                final(self)@.patches,
                error,
            ),
    {
        let ghost before = old(self)@;
        let ghost l0 = before.local_patches.len() as int;
        let ghost g0 = before.global_routes.len() as int;
        let ghost p0 = before.patches.len() as int;
        let ghost mut done: int = 0;
        let count = self.patches.len();
        assert(p0 == count);
        loop
            invariant
                forall|state: L, source: usize| call_requires(state, (source,)),
                forall|state: G, source: usize| call_requires(state, (source,)),
                forall|state: U, patch: &Patch| call_requires(state, (patch,)),
                before == old(self)@,
                l0 == before.local_patches.len(),
                g0 == before.global_routes.len(),
                p0 == before.patches.len(),
                p0 <= usize::MAX,
                0 <= done <= l0 + g0 + p0,
                self@.mocks == before.mocks,
                self@.local == before.local,
                done <= l0 ==> {
                    &&& self@.local_patches == before.local_patches.take(l0 - done)
                    &&& self@.global_routes == before.global_routes
                    &&& self@.patches == before.patches
                },
                l0 < done <= l0 + g0 ==> {
                    &&& self@.local_patches.len() == 0
                    &&& self@.global_routes == before.global_routes.take(l0 + g0 - done)
                    &&& self@.patches == before.patches
                },
                l0 + g0 < done ==> {
                    &&& self@.local_patches.len() == 0
                    &&& self@.global_routes.len() == 0
                    &&& self@.patches == before.patches.take(l0 + g0 + p0 - done)
                },
                forall|j: int| 0 <= j < done ==> undone_by::<L, G, U>(before.patches, #[trigger] removal_at(before, j)),
            decreases l0 + g0 + p0 - done,
        {
            proof {
                if done <= l0 {
                    assert(before.local_patches.take(l0 - done).len() == l0 - done);
                }
                if l0 < done <= l0 + g0 {
                    assert(before.global_routes.take(l0 + g0 - done).len() == l0 + g0 - done);
                }
                if l0 + g0 < done {
                    assert(before.patches.take(l0 + g0 + p0 - done).len() == l0 + g0 + p0 - done);
                }
                if done < l0 + g0 + p0 {
                    assert(removal_order(self@)[0] == removal_at(self@, 0));
                    assert(removal_at(self@, 0) == removal_at(before, done));
                }
            }
            let next = self.next_removal();
            match next {
                None => {
                    proof {
                        assert(done == l0 + g0 + p0);
                        assert forall|k: int| 0 <= k < l0 implies removed::<L>(
                            #[trigger] before.local_patches[k],
                        ) by {
                            assert(undone_by::<L, G, U>(before.patches, removal_at(before, l0 - 1 - k)));
                        }
                        assert forall|k: int| 0 <= k < g0 implies removed::<G>(
                            #[trigger] before.global_routes[k],
                        ) by {
                            assert(undone_by::<L, G, U>(before.patches, removal_at(before, l0 + g0 - 1 - k)));
                        }
                        assert forall|k: int| 0 <= k < p0 implies unpatched::<U>(
                            #[trigger] before.patches[k],
                        ) by {
                            assert(undone_by::<L, G, U>(
                                before.patches,
                                removal_at(before, l0 + g0 + p0 - 1 - k),
                            ));
                        }
                    }
                    return Ok(());
                },
                Some(Removal::Local(source)) => {
                    let ghost state = *remove_local;
                    remove_local(source);
                    assert(call_ensures(state, (source,), ()));
                    assert(removed::<L>(source));
                    self.finish_removal();
                },
                Some(Removal::Global(source)) => {
                    let ghost state = *remove_global;
                    remove_global(source);
                    assert(call_ensures(state, (source,), ()));
                    assert(removed::<G>(source));
                    self.finish_removal();
                },
                Some(Removal::Patch(index)) => {
                    assert(removal_order(self@)[0] == removal_at(self@, 0));
                    assert(self@.local_patches.len() == 0 && self@.global_routes.len() == 0);
                    assert(done >= l0 + g0);
                    assert(self@.patches.len() == self.patches@.len());
                    assert(index == self.patches@.len() - 1);
                    let ghost state = *unpatch;
                    let outcome = unpatch(&self.patches[index]);
                    assert(self@.patches[index as int] == self.patches@[index as int]@);
                    assert(self@.patches[index as int] == before.patches[index as int]);
                    match outcome {
                        Ok(()) => {
                            assert(call_ensures(state, (&self.patches[index as int],), outcome));
                            assert(unpatched::<U>(before.patches[index as int]));
                        },
                        Err(error) => {
                            assert(call_ensures(
                                state,
                                (&self.patches[index as int],),
                                Err::<(), Error>(error),
                            ));
                            assert(before.patches.take(index + 1) == self@.patches);
                            assert(unpatch_failed::<U>(before.patches, self@.patches, error));
                            assert forall|k: int| 0 <= k < l0 implies removed::<L>(
                                #[trigger] before.local_patches[k],
                            ) by {
                                assert(undone_by::<L, G, U>(before.patches, removal_at(before, l0 - 1 - k)));
                            }
                            assert forall|k: int| 0 <= k < g0 implies removed::<G>(
                                #[trigger] before.global_routes[k],
                            ) by {
                                assert(undone_by::<L, G, U>(
                                    before.patches,
                                    removal_at(before, l0 + g0 - 1 - k),
                                ));
                            }
                            assert forall|k: int|
                                self@.patches.len() <= k < p0 implies unpatched::<U>(
                                #[trigger] before.patches[k],
                            ) by {
                                assert(undone_by::<L, G, U>(
                                    before.patches,
                                    removal_at(before, l0 + g0 + p0 - 1 - k),
                                ));
                            }
                            return Err(error);
                        },
                    }
                    self.finish_removal();
                },
            }
            proof {
                let taken = done;
                done = done + 1;
                assert forall|j: int| 0 <= j < done implies undone_by::<L, G, U>(
                    before.patches,
                    #[trigger] removal_at(before, j),
                ) by {
                    if j == taken {
                    }
                }
                if done <= l0 {
                    assert(self@.local_patches =~= before.local_patches.take(l0 - done));
                }
                if l0 < done <= l0 + g0 {
                    assert(self@.global_routes =~= before.global_routes.take(l0 + g0 - done));
                }
                if l0 + g0 < done {
                    assert(self@.patches =~= before.patches.take(l0 + g0 + p0 - done));
                }
            }
        }
    }
    /// Removes all mocks, then checks their expectations.
    ///
    /// Routes go first, then patches, newest first. When a patch cannot be
    /// removed, it stays in the session with those before it, the mocks stay
    /// too, and the error is returned, so that a later call can retry. Once
    /// every patch is gone, the mocks are checked in order and stopped, and
    /// the first failure is returned. A session with nothing to undo is left
    /// as it is and restores without error.
    pub fn restore<L, G, U>(
        &mut self,
        ledger: &mut Ledger,
        remove_local: &mut L,
        remove_global: &mut G,
        unpatch: &mut U,
    ) -> (result: Result<(), Error>) where
        L: FnMut(usize),
        G: FnMut(usize),
        U: FnMut(&Patch) -> Result<(), Error>,
        requires
            old(ledger)@.wf(),
            owned_by(old(self)@, old(ledger)@),
            forall|state: L, source: usize| call_requires(state, (source,)),
            forall|state: G, source: usize| call_requires(state, (source,)),
            forall|state: U, patch: &Patch| call_requires(state, (patch,)),
        ensures
            final(self)@.local_patches.len() == 0,
            final(self)@.global_routes.len() == 0,
            final(self)@.local == old(self)@.local,
            final(ledger)@.wf(),
            forall|k: int|
                0 <= k < old(self)@.local_patches.len() ==> removed::<L>(
                    #[trigger] old(self)@.local_patches[k],
                ),
            forall|k: int|
                0 <= k < old(self)@.global_routes.len() ==> removed::<G>(
                    #[trigger] old(self)@.global_routes[k],
                ),
            forall|k: int|
                final(self)@.patches.len() <= k < old(self)@.patches.len() ==> unpatched::<U>(
                    #[trigger] old(self)@.patches[k],
                ),
            final(self)@.patches.len() == 0 ==> {
                &&& verdict_matches(result, mocks_verdict(old(ledger)@, old(self)@.mocks, 0))
                &&& empty(final(self)@)
                &&& final(ledger)@ == deactivated(old(ledger)@, old(self)@.mocks, 0)
            },
            final(self)@.patches.len() > 0 ==> {
                &&& result matches Err(error) && unpatch_failed::<U>(
                    old(self)@.patches,
                    final(self)@.patches,
                    error,
                )
                &&& final(self)@.mocks == old(self)@.mocks
                &&& final(ledger)@ == old(ledger)@
            },
            empty(old(self)@) ==> result is Ok && final(self)@ == old(self)@ && final(ledger)@
                == old(ledger)@,
    {
        let restored = self.restore_patches(remove_local, remove_global, unpatch);
        if let Err(error) = restored {
            return Err(error);
        }
        let result = self.verify(ledger);
        self.detach(ledger);
        proof {
            if empty(old(self)@) {
                assert(self@.patches =~= old(self)@.patches);
                assert(self@.mocks =~= old(self)@.mocks);
                assert(self@.local_patches =~= old(self)@.local_patches);
                assert(self@.global_routes =~= old(self)@.global_routes);
            }
        }
        result
    }
}

} // verus!
