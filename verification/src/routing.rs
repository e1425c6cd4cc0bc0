//! Routes from function entries to their replacements.
//!
//! A patched entry jumps to a dispatcher, which asks [`route`] where to go:
//! to the replacement that the current thread installed, else to the
//! replacement that a global session installed, else to the saved original.
//! The registry of patched entries and each thread's routes are values here;
//! the platform layer owns the code pages and publishes entries to threads.
use crate::code::relocate::{has_call, needs_call_bridge, saved_entry, saved_entry_bytes, RELAY};
use crate::code::x86::{jump_bytes, lemma_cover_bounds, lemma_plan_fits, plan, planned, MAX_PREFIX};
use crate::error::Error;
use vstd::prelude::*;

verus! {

/// A patched function entry.
#[derive(Debug)]
pub struct Record {
    /// The function entry.
    pub entry: usize,
    /// The first patched byte.
    pub address: usize,
    /// The number of patched bytes.
    pub length: usize,
    /// The dispatcher that the patch jumps to.
    pub dispatcher: usize,
    /// Dispatchers of mock sites that share this entry.
    pub sites: Vec<usize>,
}

/// A record as values.
pub struct RecordView {
    /// The function entry.
    pub entry: usize,
    /// The first patched byte.
    pub address: usize,
    /// The number of patched bytes.
    pub length: usize,
    /// The dispatcher that the patch jumps to.
    pub dispatcher: usize,
    /// Dispatchers of mock sites that share this entry.
    pub sites: Seq<usize>,
}

impl View for Record {
    type V = RecordView;

    open spec fn view(&self) -> RecordView {
        RecordView {
            entry: self.entry,
            address: self.address,
            length: self.length,
            dispatcher: self.dispatcher,
            sites: self.sites@,
        }
    }
}

/// One thread's route from a source function to its replacement.
#[derive(Clone, Copy, Debug, PartialEq, Eq)]
pub struct LocalRoute {
    /// The replaced function.
    pub source: usize,
    /// The dispatcher that the source's patch jumps to.
    pub dispatcher: usize,
    /// The replacement.
    pub target: usize,
}

/// The views of the records.
pub open spec fn views(records: Seq<Record>) -> Seq<RecordView> {
    records.map_values(|record: Record| record@)
}

/// The patch of `record` spans `at`: from the entry to the last patched byte.
pub open spec fn spans(record: RecordView, at: int) -> bool {
    record.entry <= at < record.address + record.length
}

/// A new local route from `source` through `dispatcher` to `target` collides
/// with `record`: the target lies in its patch, or the source does while it
/// is another entry, or another entry already serves the dispatcher.
pub open spec fn collides(record: RecordView, source: int, dispatcher: usize, target: int) -> bool {
    spans(record, target) || (source != record.entry && (spans(record, source)
        || record.sites.contains(dispatcher)))
}

/// A global route from `source` to `target` collides with `record`.
pub open spec fn collides_globally(record: RecordView, source: int, target: int) -> bool {
    spans(record, target) || (source != record.entry && spans(record, source))
}

/// The patch of `record` shares a byte with `[address, address + length)`.
pub open spec fn shares_bytes(record: RecordView, address: int, length: int) -> bool {
    address < record.address + record.length && record.address < address + length
}

/// Some record collides with a new local route.
pub fn install_conflict(records: &Vec<Record>, source: usize, dispatcher: usize, target: usize) -> (found: bool)
    ensures
        found == exists|i: int|
            0 <= i < records@.len() && collides(
                #[trigger] views(records@)[i],
                source as int,
                dispatcher,
                target as int,
            ),
{
    let mut i: usize = 0;
    while i < records.len()
        invariant
            i <= records@.len(),
            forall|j: int|
                0 <= j < i ==> !collides(
                    #[trigger] views(records@)[j],
                    source as int,
                    dispatcher,
                    target as int,
                ),
        decreases records@.len() - i,
    {
        let record = &records[i];
        let end = record.address as u128 + record.length as u128;
        let shared = contains(&record.sites, dispatcher);
        if (record.entry <= target && (target as u128) < end) || (source != record.entry && ((
        record.entry <= source && (source as u128) < end) || shared)) {
            assert(collides(views(records@)[i as int], source as int, dispatcher, target as int));
            return true;
        }
        i = i + 1;
    }
    false
}

/// Some record collides with a new global route.
pub fn global_conflict(records: &Vec<Record>, source: usize, target: usize) -> (found: bool)
    ensures
        found == exists|i: int|
            0 <= i < records@.len() && collides_globally(
                #[trigger] views(records@)[i],
                source as int,
                target as int,
            ),
{
    let mut i: usize = 0;
    while i < records.len()
        invariant
            i <= records@.len(),
            forall|j: int|
                0 <= j < i ==> !collides_globally(
                    #[trigger] views(records@)[j],
                    source as int,
                    target as int,
                ),
        decreases records@.len() - i,
    {
        let record = &records[i];
        let end = record.address as u128 + record.length as u128;
        if (record.entry <= target && (target as u128) < end) || (source != record.entry && (
        record.entry <= source && (source as u128) < end)) {
            assert(collides_globally(views(records@)[i as int], source as int, target as int));
            return true;
        }
        i = i + 1;
    }
    false
}

/// Some patch shares a byte with `[address, address + length)`.
pub fn overlaps(records: &Vec<Record>, address: usize, length: usize) -> (found: bool)
    ensures
        found == exists|i: int|
            0 <= i < records@.len() && shares_bytes(
                #[trigger] views(records@)[i],
                address as int,
                length as int,
            ),
{
    let mut i: usize = 0;
    while i < records.len()
        invariant
            i <= records@.len(),
            forall|j: int|
                0 <= j < i ==> !shares_bytes(
                    #[trigger] views(records@)[j],
                    address as int,
                    length as int,
                ),
        decreases records@.len() - i,
    {
        let record = &records[i];
        if (address as u128) < record.address as u128 + record.length as u128 && (
        record.address as u128) < address as u128 + length as u128 {
            assert(shares_bytes(views(records@)[i as int], address as int, length as int));
            return true;
        }
        i = i + 1;
    }
    false
}

/// A new patched entry before it is published: where its patch goes, the
/// bytes that the patch overwrites and writes, the page of the saved original
/// entry, and whether the moved instructions hold a call.
#[derive(Debug)]
pub struct Fresh {
    /// The first patched byte.
    pub address: usize,
    /// The bytes the patch overwrites.
    pub original: Vec<u8>,
    /// The bytes the patch writes.
    pub replacement: Vec<u8>,
    /// The page that runs the original entry and then relays to the dispatcher.
    pub saved: Vec<u8>,
    /// The moved instructions hold a relocated call.
    pub call_bridge: bool,
}

/// A new entry as values.
pub struct FreshView {
    /// The first patched byte.
    pub address: int,
    /// The bytes the patch overwrites.
    pub original: Seq<u8>,
    /// The bytes the patch writes.
    pub replacement: Seq<u8>,
    /// The page of the saved original entry.
    pub saved: Seq<u8>,
    /// The moved instructions hold a relocated call.
    pub call_bridge: bool,
}

impl View for Fresh {
    type V = FreshView;

    open spec fn view(&self) -> FreshView {
        FreshView {
            address: self.address as int,
            original: self.original@,
            replacement: self.replacement@,
            saved: self.saved@,
            call_bridge: self.call_bridge,
        }
    }
}

/// The entry that patches `source`, whose first bytes are `bytes`, so that
/// it jumps through the relay of `page` to `dispatcher`; or why it cannot be
/// made: the patch cannot be planned, its bytes run past the address space
/// or into a patch of `records`, or its instructions cannot be moved.
pub open spec fn fresh_outcome(
    records: Seq<RecordView>,
    source: int,
    page: int,
    bytes: Seq<u8>,
    dispatcher: int,
) -> Result<FreshView, Error> {
    match planned(source, page + RELAY, bytes) {
        Err(error) => Err(error),
        Ok(plan) => {
            let address = source + plan.offset;
            let length = plan.original.len() as int;
            if address + length > usize::MAX {
                Err(Error::InvalidRange)
            } else if exists|i: int|
                0 <= i < records.len() && shares_bytes(#[trigger] records[i], address, length) {
                Err(Error::Overlap)
            } else {
                match saved_entry_bytes(address, page, plan.original, dispatcher) {
                    Err(error) => Err(error),
                    Ok(saved) => match has_call(plan.original, 0) {
                        Err(error) => Err(error),
                        Ok(call_bridge) => Ok(
                            FreshView {
                                address,
                                original: plan.original,
                                replacement: plan.replacement,
                                saved,
                                call_bridge,
                            },
                        ),
                    },
                }
            }
        },
    }
}

/// Makes the entry that patches `source`; see [`fresh_outcome`]. `bytes` are
/// the first bytes of code at `source`, as many as a patch can need, and
/// `page` is the executable page that will hold the saved original entry.
pub fn prepare_entry(
    records: &Vec<Record>,
    source: usize,
    page: usize,
    bytes: &[u8],
    dispatcher: usize,
) -> (result: Result<Fresh, Error>)
    requires
        bytes@.len() <= MAX_PREFIX,
        page + RELAY <= usize::MAX,
    ensures
        match result {
            Ok(fresh) => fresh_outcome(
                views(records@),
                source as int,
                page as int,
                bytes@,
                dispatcher as int,
            ) == Ok::<FreshView, Error>(fresh@),
            Err(error) => fresh_outcome(
                views(records@),
                source as int,
                page as int,
                bytes@,
                dispatcher as int,
            ) == Err::<FreshView, Error>(error),
        },
{
    let plan = plan(source, page + RELAY, bytes)?;
    proof {
        lemma_plan_fits(source as int, (page + RELAY) as int, bytes@);
        let prefix = bytes@.subrange(plan@.offset as int, bytes@.len() as int);
        let jump = jump_bytes(source + plan@.offset, page + RELAY)->Some_0;
        lemma_cover_bounds(prefix, jump.len(), 0);
    }
    let address = match source.checked_add(plan.offset) {
        Some(address) => address,
        None => return Err(Error::InvalidRange),
    };
    let length = plan.original.len();
    if address.checked_add(length).is_none() {
        return Err(Error::InvalidRange);
    }
    if overlaps(records, address, length) {
        return Err(Error::Overlap);
    }
    let saved = saved_entry(address, page, plan.original.as_slice(), dispatcher)?;
    let call_bridge = needs_call_bridge(plan.original.as_slice())?;
    Ok(Fresh { address, original: plan.original, replacement: plan.replacement, saved, call_bridge })
}

/// The first record of the entry `source`, from index `i` on.
pub open spec fn record_of(records: Seq<RecordView>, source: usize, i: int) -> Option<int>
    decreases records.len() - i,
{
    if i < 0 || i >= records.len() {
        None
    } else if records[i].entry == source {
        Some(i)
    } else {
        record_of(records, source, i + 1)
    }
}

/// The index of the record of the entry `source`.
pub fn find_record(records: &Vec<Record>, source: usize) -> (index: Option<usize>)
    ensures
        match index {
            Some(index) => record_of(views(records@), source, 0) == Some(index as int) && index
                < records@.len(),
            None => record_of(views(records@), source, 0) is None,
        },
{
    let mut i: usize = 0;
    while i < records.len()
        invariant
            i <= records@.len(),
            record_of(views(records@), source, 0) == record_of(views(records@), source, i as int),
        decreases records@.len() - i,
    {
        if records[i].entry == source {
            return Some(i);
        }
        i = i + 1;
    }
    None
}

/// `items` holds `value`.
fn contains(items: &Vec<usize>, value: usize) -> (found: bool)
    ensures
        found == items@.contains(value),
{
    let mut i: usize = 0;
    while i < items.len()
        invariant
            i <= items@.len(),
            forall|j: int| 0 <= j < i ==> items@[j] != value,
        decreases items@.len() - i,
    {
        if items[i] == value {
            return true;
        }
        i = i + 1;
    }
    false
}

/// Lets the mock site `dispatcher` share the record's entry.
pub fn add_site(record: &mut Record, dispatcher: usize)
    ensures
        final(record)@.sites == (if old(record)@.sites.contains(dispatcher) {
            old(record)@.sites
        } else {
            old(record)@.sites.push(dispatcher)
        }),
        final(record)@.entry == old(record)@.entry,
        final(record)@.address == old(record)@.address,
        final(record)@.length == old(record)@.length,
        final(record)@.dispatcher == old(record)@.dispatcher,
{
    if !contains(&record.sites, dispatcher) {
        record.sites.push(dispatcher);
    }
}

/// This thread already routes `source`.
pub fn local_conflict(routes: &Vec<LocalRoute>, source: usize) -> (found: bool)
    ensures
        found == exists|i: int| 0 <= i < routes@.len() && #[trigger] routes@[i].source == source,
{
    let mut i: usize = 0;
    while i < routes.len()
        invariant
            i <= routes@.len(),
            forall|j: int| 0 <= j < i ==> #[trigger] routes@[j].source != source,
        decreases routes@.len() - i,
    {
        if routes[i].source == source {
            return true;
        }
        i = i + 1;
    }
    false
}

/// The target of the first route through `dispatcher`, from index `i` on.
pub open spec fn first_target(routes: Seq<LocalRoute>, dispatcher: usize, i: int) -> Option<usize>
    decreases routes.len() - i,
{
    if i < 0 || i >= routes.len() {
        None
    } else if routes[i].dispatcher == dispatcher {
        Some(routes[i].target)
    } else {
        first_target(routes, dispatcher, i + 1)
    }
}

/// The target of the first route through `dispatcher`.
fn first_route_target(routes: &Vec<LocalRoute>, dispatcher: usize) -> (target: Option<usize>)
    ensures
        target == first_target(routes@, dispatcher, 0),
{
    let mut i: usize = 0;
    while i < routes.len()
        invariant
            i <= routes@.len(),
            first_target(routes@, dispatcher, 0) == first_target(routes@, dispatcher, i as int),
        decreases routes@.len() - i,
    {
        if routes[i].dispatcher == dispatcher {
            return Some(routes[i].target);
        }
        i = i + 1;
    }
    None
}

/// Where a call that reached `dispatcher` goes: this thread's replacement,
/// unless it is the dispatcher itself; else the global replacement of the
/// entry that the dispatcher serves, or its saved original.
pub open spec fn routed(
    routes: Option<Seq<LocalRoute>>,
    dispatcher: usize,
    entry: Option<(usize, usize)>,
) -> Option<usize> {
    let local = match routes {
        Some(routes) => first_target(routes, dispatcher, 0),
        None => None,
    };
    match local {
        Some(target) if target != dispatcher => Some(target),
        _ => match entry {
            Some((global, saved)) => Some(
                if global == 0 {
                    saved
                } else {
                    global
                },
            ),
            None => None,
        },
    }
}

/// Returns the current replacement or saved original entry for a call that
/// reached `dispatcher`. `routes` are the current thread's routes, when they
/// can be read; `entry` is the global target (zero for none) and the saved
/// original of the published entry that `dispatcher` serves, if any.
pub fn route(routes: Option<&Vec<LocalRoute>>, dispatcher: usize, entry: Option<(usize, usize)>) -> (target: Option<usize>)
    ensures
        target == routed(
            match routes {
                Some(routes) => Some(routes@),
                None => None,
            },
            dispatcher,
            entry,
        ),
{
    let local = match routes {
        Some(routes) => first_route_target(routes, dispatcher),
        None => None,
    };
    match local {
        Some(target) if target != dispatcher => Some(target),
        _ => match entry {
            Some((global, saved)) => Some(
                if global == 0 {
                    saved
                } else {
                    global
                },
            ),
            None => None,
        },
    }
}

/// This thread's routes without those from `source`, in order.
pub open spec fn without(routes: Seq<LocalRoute>, source: usize) -> Seq<LocalRoute> {
    routes.filter(|route: LocalRoute| route.source != source)
}

/// Removes this thread's routes from `source`.
pub fn remove(routes: &mut Vec<LocalRoute>, source: usize)
    ensures
        final(routes)@ == without(old(routes)@, source),
{
    let ghost before = routes@;
    let mut kept: Vec<LocalRoute> = Vec::new();
    let mut i: usize = 0;
    while i < routes.len()
        invariant
            i <= routes@.len(),
            routes@ == before,
            kept@ == without(before.take(i as int), source),
        decreases routes@.len() - i,
    {
        let route = routes[i];
        proof {
            assert(before.take(i + 1) == before.take(i as int).push(route));
            before.take(i as int).lemma_filter_push(
                route,
                |route: LocalRoute| route.source != source,
            );
        }
        if route.source != source {
            kept.push(route);
        }
        i = i + 1;
    }
    assert(before.take(before.len() as int) == before);
    *routes = kept;
}

/// No route from index `i` on goes through `dispatcher`, so none answers.
pub proof fn lemma_no_route(routes: Seq<LocalRoute>, dispatcher: usize, i: int)
    requires
        0 <= i,
        forall|k: int| i <= k < routes.len() ==> #[trigger] routes[k].dispatcher != dispatcher,
    ensures
        first_target(routes, dispatcher, i) is None,
    decreases routes.len() - i,
{
    if i < routes.len() {
        lemma_no_route(routes, dispatcher, i + 1);
    }
}

/// A route appended after routes that do not go through its dispatcher is
/// the first through it.
pub proof fn lemma_appended_route(routes: Seq<LocalRoute>, added: LocalRoute, i: int)
    requires
        0 <= i <= routes.len(),
        first_target(routes, added.dispatcher, i) is None,
    ensures
        first_target(routes.push(added), added.dispatcher, i) == Some(added.target),
    decreases routes.len() - i,
{
    if i < routes.len() {
        lemma_appended_route(routes, added, i + 1);
    }
}

/// A route that a thread adds answers the thread's calls through its
/// dispatcher, whatever the global state, as long as no earlier route of the
/// thread goes through that dispatcher and the target is not the dispatcher.
pub proof fn lemma_added_route_answers(
    routes: Seq<LocalRoute>,
    added: LocalRoute,
    entry: Option<(usize, usize)>,
)
    requires
        first_target(routes, added.dispatcher, 0) is None,
        added.target != added.dispatcher,
    ensures
        routed(Some(routes.push(added)), added.dispatcher, entry) == Some(added.target),
{
    lemma_appended_route(routes, added, 0);
}

/// Once a thread removes its routes from `source`, its calls through a
/// dispatcher that only routes from `source` go where they would go with no
/// routes at all: to the global replacement or the saved original.
pub proof fn lemma_removed_route_falls_back(
    routes: Seq<LocalRoute>,
    source: usize,
    dispatcher: usize,
    entry: Option<(usize, usize)>,
)
    requires
        forall|k: int|
            0 <= k < routes.len() && #[trigger] routes[k].dispatcher == dispatcher ==> routes[k].source
                == source,
    ensures
        routed(Some(without(routes, source)), dispatcher, entry) == routed(None, dispatcher, entry),
{
    let kept = without(routes, source);
    let keep = |route: LocalRoute| route.source != source;
    assert forall|k: int| 0 <= k < kept.len() implies #[trigger] kept[k].dispatcher != dispatcher by {
        routes.lemma_filter_pred(keep, k);
        assert(kept.contains(kept[k]));
        routes.lemma_filter_contains_rev(keep, kept[k]);
        let j = choose|j: int| 0 <= j < routes.len() && routes[j] == kept[k];
        assert(routes[j].dispatcher == kept[k].dispatcher);
    }
    lemma_no_route(kept, dispatcher, 0);
}

/// A global replacement answers calls that no thread routes; once it is
/// cleared, they reach the saved original again.
pub proof fn lemma_global_route_answers(dispatcher: usize, global: usize, saved: usize)
    requires
        global != 0,
    ensures
        routed(None, dispatcher, Some((global, saved))) == Some(global),
        routed(None, dispatcher, Some((0usize, saved))) == Some(saved),
{
}

/// Calls through a dispatcher over the life of a patch: with no published
/// entry and no route of this thread, a call finds nothing; once the thread
/// routes the entry to its target, calls go there whatever the global state;
/// while the thread's routes cannot be read, and once it removed its route,
/// they go to the global replacement if there is one, else to the saved
/// original.
pub proof fn lemma_routes_over_a_patch(
    routes: Seq<LocalRoute>,
    added: LocalRoute,
    global: usize,
    saved: usize,
)
    requires
        added.target != added.dispatcher,
        forall|k: int|
            0 <= k < routes.len() ==> (#[trigger] routes[k]).dispatcher != added.dispatcher,
    ensures
        routed(Some(routes), added.dispatcher, None) is None,
        routed(Some(routes.push(added)), added.dispatcher, Some((global, saved))) == Some(
            added.target,
        ),
        routed(None, added.dispatcher, Some((0usize, saved))) == Some(saved),
        routed(Some(without(routes.push(added), added.source)), added.dispatcher, Some((0usize, saved)))
            == Some(saved),
        global != 0 ==> routed(
            Some(without(routes.push(added), added.source)),
            added.dispatcher,
            Some((global, saved)),
        ) == Some(global),
{
    lemma_no_route(routes, added.dispatcher, 0);
    lemma_added_route_answers(routes, added, Some((global, saved)));
    let all = routes.push(added);
    assert forall|k: int|
        0 <= k < all.len() && #[trigger] all[k].dispatcher == added.dispatcher implies all[k].source
        == added.source by {
        if k < routes.len() {
            assert(all[k] == routes[k]);
        }
    }
    lemma_removed_route_falls_back(all, added.source, added.dispatcher, Some((0usize, saved)));
    lemma_removed_route_falls_back(all, added.source, added.dispatcher, Some((global, saved)));
}

} // verus!
