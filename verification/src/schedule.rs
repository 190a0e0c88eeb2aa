//! The scheduler's books as mathematics: which entities are registered,
//! which hooks were called, and what a tick calls.

use vstd::prelude::*;

verus! {

/// One call of a hook, as the scheduler makes it.
pub enum Call {
    Start { id: i64 },
    Update { id: i64, delta: u64 },
}

impl Call {
    /// The handle of the entity that is called.
    pub open spec fn id(self) -> i64 {
        match self {
            Call::Start { id } => id,
            Call::Update { id, delta } => id,
        }
    }
}

/// A hook call as it was made: which hook of which entity, the behavior that
/// the hook was handed and the behavior that it left.
pub struct Record<E> {
    pub call: Call,
    pub before: E,
    pub after: E,
}

/// The call of a record.
pub open spec fn call_of<E>() -> spec_fn(Record<E>) -> Call {
    |r: Record<E>| r.call
}

/// The calls of `records`, in order.
pub open spec fn calls_of<E>(records: Seq<Record<E>>) -> Seq<Call> {
    records.map_values(call_of())
}

/// The behavior that the hooks of `records` left the entity `id` with: what
/// the last call for it left, and `None` where no call is for it.
pub open spec fn state_of<E>(records: Seq<Record<E>>, id: i64) -> Option<E>
    decreases records.len(),
{
    if records.len() == 0 {
        None
    } else if records.last().call.id() == id {
        Some(records.last().after)
    } else {
        state_of(records.drop_last(), id)
    }
}

/// Whether the call at place `p` was handed the behavior that the calls
/// before it left its entity with, where there are such calls.
pub open spec fn follows<E>(records: Seq<Record<E>>, p: int) -> bool {
    state_of(records.take(p), records[p].call.id()) matches Some(left) ==> records[p].before
        == left
}

/// Whether every call was handed what the calls before it left: no hook
/// ever got the behavior of another entity, or an older one of its own.
pub open spec fn hands_on<E>(records: Seq<Record<E>>) -> bool {
    forall|p: int| 0 <= p < records.len() ==> #[trigger] follows(records, p)
}

/// What the registry knows of an entity besides its behavior.
pub struct Slot {
    pub id: i64,
    pub started: bool,
}

/// The test that picks the started slots.
pub open spec fn is_started() -> spec_fn(Slot) -> bool {
    |s: Slot| s.started
}

/// The test that picks the slots that are not started.
pub open spec fn is_unstarted() -> spec_fn(Slot) -> bool {
    |s: Slot| !s.started
}

/// The handle of a slot.
pub open spec fn slot_id() -> spec_fn(Slot) -> i64 {
    |s: Slot| s.id
}

/// The handles of `slots`, in order.
pub open spec fn ids_of(slots: Seq<Slot>) -> Seq<i64> {
    slots.map_values(slot_id())
}

/// The handles of the started slots, in order.
pub open spec fn started_ids(slots: Seq<Slot>) -> Seq<i64> {
    slots.filter(is_started()).map_values(slot_id())
}

/// The handles of the slots that are not started, in order.
pub open spec fn unstarted_ids(slots: Seq<Slot>) -> Seq<i64> {
    slots.filter(is_unstarted()).map_values(slot_id())
}

/// The handles from `from` up to and without `to`, in order.
pub open spec fn handles(from: int, to: int) -> Seq<i64> {
    Seq::new((to - from) as nat, |k: int| (from + k) as i64)
}

/// The handles from `from` up to and without `to`, as a set.
pub open spec fn handle_set(from: int, to: int) -> Set<i64> {
    Set::new(|id: i64| from <= id < to)
}

/// Whether `block` holds unstarted slots with the handles from `from` on, in
/// order.
pub open spec fn fresh_block(block: Seq<Slot>, from: int) -> bool {
    forall|k: int|
        0 <= k < block.len() ==> !(#[trigger] block[k]).started && block[k].id == from + k
}

/// Whether no two slots have the same handle.
pub open spec fn distinct_ids(slots: Seq<Slot>) -> bool {
    forall|i: int, j: int|
        0 <= i < j < slots.len() ==> (#[trigger] slots[i]).id != (#[trigger] slots[j]).id
}

/// Whether `calls` names `id`.
pub open spec fn mentions(calls: Seq<Call>, id: i64) -> bool {
    exists|a: int| 0 <= a < calls.len() && (#[trigger] calls[a]).id() == id
}

/// Whether the start of `id` stands in `calls` before the place `at`.
pub open spec fn start_precedes(calls: Seq<Call>, at: int, id: i64) -> bool {
    exists|a: int| 0 <= a < at && #[trigger] calls[a] == (Call::Start { id })
}

/// Whether `calls` starts no entity twice.
pub open spec fn starts_once(calls: Seq<Call>) -> bool {
    forall|a: int, b: int|
        0 <= a < b < calls.len() && #[trigger] calls[a] is Start && #[trigger] calls[b] is Start
            ==> calls[a].id() != calls[b].id()
}

/// Whether every update in `calls` comes after the start of its entity.
pub open spec fn updates_follow_start(calls: Seq<Call>) -> bool {
    forall|b: int|
        0 <= b < calls.len() && #[trigger] calls[b] is Update ==> start_precedes(
            calls,
            b,
            calls[b].id(),
        )
}

/// What holds of every journal of hook calls: it names only handles that
/// were given out, starts no entity twice, and updates an entity only after
/// its start.
pub open spec fn journal_wf(calls: Seq<Call>, next: int) -> bool {
    &&& forall|a: int| 0 <= a < calls.len() ==> 0 <= (#[trigger] calls[a]).id() < next
    &&& starts_once(calls)
    &&& updates_follow_start(calls)
}

/// Whether a slot is in order by itself: its handle was given out and has a
/// bag, and the journal agrees with its `started` mark.
pub open spec fn slot_ok(slot: Slot, bags: Set<i64>, next: int, calls: Seq<Call>) -> bool {
    &&& 0 <= slot.id < next
    &&& bags.contains(slot.id)
    &&& slot.started ==> calls.contains(Call::Start { id: slot.id })
    &&& !slot.started ==> !mentions(calls, slot.id)
}

/// Whether a slot fits a registry that it is not part of: it is in order and
/// its handle is the handle of no slot of `others`.
pub open spec fn fits(
    slot: Slot,
    others: Seq<Slot>,
    bags: Set<i64>,
    next: int,
    calls: Seq<Call>,
) -> bool {
    &&& slot_ok(slot, bags, next, calls)
    &&& forall|k: int| 0 <= k < others.len() ==> (#[trigger] others[k]).id != slot.id
}

/// Whether a registry is consistent: its journal is, every bag belongs to a
/// handle that was given out, every slot is in order and no handle stands
/// twice.
pub open spec fn registry_wf(
    slots: Seq<Slot>,
    bags: Set<i64>,
    next: int,
    calls: Seq<Call>,
) -> bool {
    &&& journal_wf(calls, next)
    &&& forall|id: i64| #[trigger] bags.contains(id) ==> 0 <= id < next
    &&& forall|k: int| 0 <= k < slots.len() ==> slot_ok(#[trigger] slots[k], bags, next, calls)
    &&& distinct_ids(slots)
}

/// The calls of one visit: the start where it has not run yet, then the
/// update.
pub open spec fn visit_calls(slot: Slot, delta: u64) -> Seq<Call> {
    if slot.started {
        seq![Call::Update { id: slot.id, delta }]
    } else {
        seq![Call::Start { id: slot.id }, Call::Update { id: slot.id, delta }]
    }
}

/// The first call of a visit: the start where it has not run yet, else the
/// update.
pub open spec fn first_call(slot: Slot, delta: u64) -> Call {
    if slot.started {
        Call::Update { id: slot.id, delta }
    } else {
        Call::Start { id: slot.id }
    }
}

/// The calls of one tick over `slots`: one visit for each, first to last.
pub open spec fn tick_calls(slots: Seq<Slot>, delta: u64) -> Seq<Call>
    decreases slots.len(),
{
    if slots.len() == 0 {
        Seq::empty()
    } else {
        tick_calls(slots.drop_last(), delta) + visit_calls(slots.last(), delta)
    }
}

/// Unstarted slots with the `count` handles from `from` on, in order.
pub open spec fn fresh_slots(from: int, count: nat) -> Seq<Slot> {
    Seq::new(count, |k: int| Slot { id: (from + k) as i64, started: false })
}

/// The sum of `counts`.
pub open spec fn total(counts: Seq<nat>) -> nat
    decreases counts.len(),
{
    if counts.len() == 0 {
        0
    } else {
        total(counts.drop_last()) + counts.last()
    }
}

/// The slots after a tick over `slots` in which the hooks of the slot `k`
/// added `added[k]` entities, `next` being the first free handle before the
/// tick: every slot, marked as started, behind the entities that its own
/// hooks added.
pub open spec fn after_visits(slots: Seq<Slot>, added: Seq<nat>, next: int) -> Seq<Slot>
    decreases slots.len(),
{
    if slots.len() == 0 {
        Seq::empty()
    } else {
        after_visits(slots.drop_last(), added.drop_last(), next) + fresh_slots(
            next + total(added.drop_last()),
            added.last(),
        ) + seq![Slot { id: slots.last().id, started: true }]
    }
}

/// Whether `calls` holds, at `p` and right behind it, the start and the
/// first update of `id`.
pub open spec fn starts_at(calls: Seq<Call>, p: int, id: i64, delta: u64) -> bool {
    &&& 0 <= p
    &&& p + 1 < calls.len()
    &&& calls[p] == Call::Start { id }
    &&& calls[p + 1] == Call::Update { id, delta }
}

/// Whether the slot `k` of `slots` is the one that `call` is for, with a
/// start only for a slot that is not started.
pub open spec fn is_slot_of(slots: Seq<Slot>, k: int, call: Call) -> bool {
    &&& 0 <= k < slots.len()
    &&& slots[k].id == call.id()
    &&& call is Start ==> !slots[k].started
}

/// A tick starts an unstarted slot, and updates it right after.
pub proof fn lemma_tick_starts_unstarted(slots: Seq<Slot>, delta: u64, k: int)
    requires
        0 <= k < slots.len(),
        !slots[k].started,
    ensures
        exists|p: int| starts_at(tick_calls(slots, delta), p, slots[k].id, delta),
    decreases slots.len(),
{
    let rest = slots.drop_last();
    let sooner = tick_calls(rest, delta);
    let visit = visit_calls(slots.last(), delta);
    let all = tick_calls(slots, delta);
    assert(all == sooner + visit);
    if k < rest.len() {
        assert(rest[k] == slots[k]);
        lemma_tick_starts_unstarted(rest, delta, k);
        let p = choose|p: int| starts_at(sooner, p, rest[k].id, delta);
        assert(all[p] == sooner[p] && all[p + 1] == sooner[p + 1]);
        assert(starts_at(all, p, slots[k].id, delta));
    } else {
        let p = sooner.len() as int;
        assert(all[p] == visit[0] && all[p + 1] == visit[1]);
        assert(starts_at(all, p, slots[k].id, delta));
    }
}

/// A tick updates every slot.
pub proof fn lemma_tick_updates_each(slots: Seq<Slot>, delta: u64, k: int)
    requires
        0 <= k < slots.len(),
    ensures
        tick_calls(slots, delta).contains(Call::Update { id: slots[k].id, delta }),
    decreases slots.len(),
{
    let rest = slots.drop_last();
    let sooner = tick_calls(rest, delta);
    let visit = visit_calls(slots.last(), delta);
    let all = tick_calls(slots, delta);
    let call = Call::Update { id: slots[k].id, delta };
    assert(all == sooner + visit);
    if k < rest.len() {
        assert(rest[k] == slots[k]);
        lemma_tick_updates_each(rest, delta, k);
        let p = choose|p: int| 0 <= p < sooner.len() && sooner[p] == call;
        assert(all[p] == call);
    } else {
        assert(all[all.len() - 1] == visit[visit.len() - 1]);
    }
}

/// A tick calls no hook but of its slots, and starts none that is started.
pub proof fn lemma_tick_calls_its_slots(slots: Seq<Slot>, delta: u64, p: int)
    requires
        0 <= p < tick_calls(slots, delta).len(),
    ensures
        exists|k: int| is_slot_of(slots, k, tick_calls(slots, delta)[p]),
    decreases slots.len(),
{
    if slots.len() > 0 {
        let rest = slots.drop_last();
        let sooner = tick_calls(rest, delta);
        let visit = visit_calls(slots.last(), delta);
        let all = tick_calls(slots, delta);
        assert(all == sooner + visit);
        if p < sooner.len() {
            assert(all[p] == sooner[p]);
            lemma_tick_calls_its_slots(rest, delta, p);
            let k = choose|k: int| is_slot_of(rest, k, sooner[p]);
            assert(slots[k] == rest[k]);
            assert(is_slot_of(slots, k, all[p]));
        } else {
            assert(all[p] == visit[p - sooner.len()]);
            assert(is_slot_of(slots, slots.len() - 1, all[p]));
        }
    }
}

/// After a tick the started slots are those that the tick visited, in the
/// order of the visits, and the unstarted ones are those that the hooks
/// added, in the order of their handles.
pub proof fn lemma_after_visits_ids(slots: Seq<Slot>, added: Seq<nat>, next: int)
    requires
        added.len() == slots.len(),
        i64::MIN <= next,
        next + total(added) <= i64::MAX + 1,
    ensures
        started_ids(after_visits(slots, added, next)) == ids_of(slots),
        unstarted_ids(after_visits(slots, added, next)) == handles(next, next + total(added)),
    decreases slots.len(),
{
    let all = after_visits(slots, added, next);
    if slots.len() == 0 {
        lemma_ids_of_fresh_block(Seq::<Slot>::empty(), next);
        assert(all =~= Seq::<Slot>::empty());
        assert(ids_of(slots) =~= Seq::<i64>::empty());
    } else {
        let sooner = after_visits(slots.drop_last(), added.drop_last(), next);
        let from = next + total(added.drop_last());
        let block = fresh_slots(from, added.last());
        let back = Slot { id: slots.last().id, started: true };
        lemma_after_visits_ids(slots.drop_last(), added.drop_last(), next);
        lemma_ids_of_runs(sooner, block);
        lemma_ids_of_runs(sooner + block, seq![back]);
        lemma_ids_of_fresh_block(block, from);
        lemma_ids_of_one(back);
        assert(ids_of(slots) =~= ids_of(slots.drop_last()).push(back.id));
        assert(handles(next, from) + handles(from, from + added.last()) =~= handles(
            next,
            next + total(added),
        ));
    }
}

/// One more call leaves its own entity with what it left, and every other
/// entity with what it had.
pub proof fn lemma_state_of_push<E>(records: Seq<Record<E>>, record: Record<E>, id: i64)
    ensures
        state_of(records.push(record), id) == if record.call.id() == id {
            Some(record.after)
        } else {
            state_of(records, id)
        },
{
    assert(records.push(record).drop_last() =~= records);
}

/// An entity that no call names was left with nothing.
pub proof fn lemma_state_of_unnamed<E>(records: Seq<Record<E>>, id: i64)
    requires
        !mentions(calls_of(records), id),
    ensures
        state_of(records, id) is None,
    decreases records.len(),
{
    if records.len() > 0 {
        let calls = calls_of(records);
        let earlier = records.drop_last();
        assert(calls[records.len() - 1].id() != id);
        assert(!mentions(calls_of(earlier), id)) by {
            if mentions(calls_of(earlier), id) {
                let a = choose|a: int|
                    0 <= a < calls_of(earlier).len() && (#[trigger] calls_of(earlier)[a]).id()
                        == id;
                assert(calls[a].id() == id);
            }
        }
        lemma_state_of_unnamed(earlier, id);
    }
}

/// A journal in which every call was handed what the calls before left
/// stays so with one more call that was handed what they left its entity
/// with.
pub(crate) proof fn lemma_hands_on_push<E>(records: Seq<Record<E>>, record: Record<E>)
    requires
        hands_on(records),
        state_of(records, record.call.id()) matches Some(left) ==> record.before == left,
    ensures
        hands_on(records.push(record)),
{
    let longer = records.push(record);
    assert forall|p: int| 0 <= p < longer.len() implies #[trigger] follows(longer, p) by {
        if p < records.len() {
            assert(longer.take(p) =~= records.take(p));
            assert(follows(records, p));
        } else {
            assert(longer.take(p) =~= records);
        }
    }
}

/// Taking a slot out of a consistent registry leaves a consistent registry
/// that the slot fits.
pub(crate) proof fn lemma_registry_without(
    slots: Seq<Slot>,
    k: int,
    bags: Set<i64>,
    next: int,
    calls: Seq<Call>,
)
    requires
        registry_wf(slots, bags, next, calls),
        0 <= k < slots.len(),
    ensures
        registry_wf(slots.remove(k), bags, next, calls),
        fits(slots[k], slots.remove(k), bags, next, calls),
{
    let rest = slots.remove(k);
    assert forall|j: int| 0 <= j < rest.len() implies slot_ok(
        #[trigger] rest[j],
        bags,
        next,
        calls,
    ) && rest[j].id != slots[k].id by {
        let j0 = if j < k { j } else { j + 1 };
        assert(rest[j] == slots[j0]);
    }
    assert(distinct_ids(rest)) by {
        assert forall|i: int, j: int| 0 <= i < j < rest.len() implies (#[trigger] rest[i]).id
            != (#[trigger] rest[j]).id by {
            let i0 = if i < k { i } else { i + 1 };
            let j0 = if j < k { j } else { j + 1 };
            assert(rest[i] == slots[i0] && rest[j] == slots[j0]);
        }
    }
}

/// Putting a slot that fits behind the slots of a consistent registry leaves
/// it consistent.
pub(crate) proof fn lemma_put_back(
    slot: Slot,
    others: Seq<Slot>,
    bags: Set<i64>,
    next: int,
    calls: Seq<Call>,
)
    requires
        registry_wf(others, bags, next, calls),
        fits(slot, others, bags, next, calls),
    ensures
        registry_wf(others.push(slot), bags, next, calls),
{
    let all = others.push(slot);
    assert forall|k: int| 0 <= k < all.len() implies slot_ok(
        #[trigger] all[k],
        bags,
        next,
        calls,
    ) by {
        if k < others.len() {
            assert(all[k] == others[k]);
        }
    }
    assert(distinct_ids(all)) by {
        assert forall|i: int, j: int| 0 <= i < j < all.len() implies (#[trigger] all[i]).id
            != (#[trigger] all[j]).id by {
            assert(all[i] == others[i]);
            if j < others.len() {
                assert(all[j] == others[j]);
            }
        }
    }
}

/// A consistent registry stays consistent when more handles are given out
/// and more bags are there.
pub(crate) proof fn lemma_registry_grows(
    slots: Seq<Slot>,
    bags: Set<i64>,
    more_bags: Set<i64>,
    next: int,
    later: int,
    calls: Seq<Call>,
)
    requires
        registry_wf(slots, bags, next, calls),
        next <= later,
        bags.subset_of(more_bags),
        forall|id: i64| #[trigger] more_bags.contains(id) ==> 0 <= id < later,
    ensures
        registry_wf(slots, more_bags, later, calls),
{
}

/// The slots of a registry are as much in order after one more call was
/// noted as before, where the call is for none of the unstarted among them.
proof fn lemma_others_after_note(
    others: Seq<Slot>,
    bags: Set<i64>,
    next: int,
    calls: Seq<Call>,
    call: Call,
)
    requires
        forall|k: int| 0 <= k < others.len() ==> slot_ok(#[trigger] others[k], bags, next, calls),
        forall|k: int| 0 <= k < others.len() ==> (#[trigger] others[k]).id != call.id(),
    ensures
        forall|k: int|
            0 <= k < others.len() ==> slot_ok(#[trigger] others[k], bags, next, calls.push(call)),
{
    let noted = calls.push(call);
    assert forall|k: int| 0 <= k < others.len() implies slot_ok(
        #[trigger] others[k],
        bags,
        next,
        noted,
    ) by {
        let other = others[k];
        assert(slot_ok(other, bags, next, calls));
        if other.started {
            let start = Call::Start { id: other.id };
            let a = choose|a: int| 0 <= a < calls.len() && calls[a] == start;
            assert(noted[a] == start);
        } else if mentions(noted, other.id) {
            let a = choose|a: int| 0 <= a < noted.len() && (#[trigger] noted[a]).id() == other.id;
            assert(noted[a] == calls[a]);
            assert(mentions(calls, other.id));
        }
    }
}

/// The updates of a journal still follow the starts after one more call was
/// noted, where that call is a start, or an update of an entity whose start
/// the journal holds.
proof fn lemma_updates_after_note(calls: Seq<Call>, call: Call)
    requires
        updates_follow_start(calls),
        call is Update ==> calls.contains(Call::Start { id: call.id() }),
    ensures
        updates_follow_start(calls.push(call)),
{
    let noted = calls.push(call);
    assert forall|b: int|
        0 <= b < noted.len() && #[trigger] noted[b] is Update implies start_precedes(
        noted,
        b,
        noted[b].id(),
    ) by {
        let start = Call::Start { id: noted[b].id() };
        if b < calls.len() {
            assert(noted[b] == calls[b]);
            assert(start_precedes(calls, b, calls[b].id()));
            let a = choose|a: int| 0 <= a < b && #[trigger] calls[a] == start;
            assert(noted[a] == calls[a]);
        } else {
            let a = choose|a: int| 0 <= a < calls.len() && calls[a] == start;
            assert(noted[a] == start);
        }
    }
}

/// Noting the start of an unstarted slot that fits keeps the registry
/// consistent, and the slot, then marked as started, still fits.
pub(crate) proof fn lemma_note_start(
    slot: Slot,
    others: Seq<Slot>,
    bags: Set<i64>,
    next: int,
    calls: Seq<Call>,
)
    requires
        registry_wf(others, bags, next, calls),
        fits(slot, others, bags, next, calls),
        !slot.started,
    ensures
        registry_wf(others, bags, next, calls.push(Call::Start { id: slot.id })),
        fits(
            Slot { id: slot.id, started: true },
            others,
            bags,
            next,
            calls.push(Call::Start { id: slot.id }),
        ),
{
    let call = Call::Start { id: slot.id };
    let noted = calls.push(call);
    assert(starts_once(noted)) by {
        assert forall|a: int, b: int|
            0 <= a < b < noted.len() && #[trigger] noted[a] is Start
                && #[trigger] noted[b] is Start implies noted[a].id() != noted[b].id() by {
            assert(noted[a] == calls[a]);
            if b < calls.len() {
                assert(noted[b] == calls[b]);
            } else if calls[a].id() == slot.id {
                assert(mentions(calls, slot.id));
            }
        }
    }
    lemma_updates_after_note(calls, call);
    lemma_others_after_note(others, bags, next, calls, call);
    assert(noted[calls.len() as int] == call);
}

/// Noting an update of a started slot that fits keeps the registry
/// consistent, and the slot still fits.
pub(crate) proof fn lemma_note_update(
    slot: Slot,
    others: Seq<Slot>,
    bags: Set<i64>,
    next: int,
    calls: Seq<Call>,
    delta: u64,
)
    requires
        registry_wf(others, bags, next, calls),
        fits(slot, others, bags, next, calls),
        slot.started,
    ensures
        registry_wf(others, bags, next, calls.push(Call::Update { id: slot.id, delta })),
        fits(slot, others, bags, next, calls.push(Call::Update { id: slot.id, delta })),
{
    let call = Call::Update { id: slot.id, delta };
    let noted = calls.push(call);
    let start = Call::Start { id: slot.id };
    let s = choose|s: int| 0 <= s < calls.len() && calls[s] == start;
    assert(noted[s] == start);
    assert(starts_once(noted)) by {
        assert forall|a: int, b: int|
            0 <= a < b < noted.len() && #[trigger] noted[a] is Start
                && #[trigger] noted[b] is Start implies noted[a].id() != noted[b].id() by {
            assert(noted[a] == calls[a]);
            assert(noted[b] == calls[b]);
        }
    }
    lemma_updates_after_note(calls, call);
    lemma_others_after_note(others, bags, next, calls, call);
}

/// A slot that fits a registry still fits it after the registry got fresh
/// slots, handles and bags.
pub(crate) proof fn lemma_fits_after_growth(
    slot: Slot,
    others: Seq<Slot>,
    more: Seq<Slot>,
    bags: Set<i64>,
    more_bags: Set<i64>,
    next: int,
    later: int,
    calls: Seq<Call>,
)
    requires
        fits(slot, others, bags, next, calls),
        others.is_prefix_of(more),
        fresh_block(more.skip(others.len() as int), next),
        bags.subset_of(more_bags),
        next <= later,
    ensures
        fits(slot, more, more_bags, later, calls),
{
    let added = more.skip(others.len() as int);
    assert forall|k: int| 0 <= k < more.len() implies (#[trigger] more[k]).id != slot.id by {
        if k < others.len() {
            assert(more[k] == others[k]);
        } else {
            assert(added[k - others.len()] == more[k]);
        }
    }
}

/// The started and the unstarted handles of two runs of slots, one behind
/// the other, are those of the first followed by those of the second.
proof fn lemma_ids_of_runs(a: Seq<Slot>, b: Seq<Slot>)
    ensures
        started_ids(a + b) == started_ids(a) + started_ids(b),
        unstarted_ids(a + b) == unstarted_ids(a) + unstarted_ids(b),
{
    Seq::filter_distributes_over_add(a, b, is_started());
    Seq::filter_distributes_over_add(a, b, is_unstarted());
    assert(started_ids(a + b) =~= started_ids(a) + started_ids(b));
    assert(unstarted_ids(a + b) =~= unstarted_ids(a) + unstarted_ids(b));
}

/// A fresh block holds no started slot, and its unstarted handles are the
/// handles from its first on.
proof fn lemma_ids_of_fresh_block(block: Seq<Slot>, from: int)
    requires
        fresh_block(block, from),
    ensures
        started_ids(block) == Seq::<i64>::empty(),
        unstarted_ids(block) == handles(from, from + block.len()),
    decreases block.len(),
{
    reveal(Seq::filter);
    if block.len() == 0 {
        assert(started_ids(block) =~= Seq::<i64>::empty());
        assert(unstarted_ids(block) =~= handles(from, from + block.len()));
    } else {
        let shorter = block.drop_last();
        let last = block.last();
        let kept = shorter.filter(is_unstarted());
        assert(fresh_block(shorter, from)) by {
            assert forall|k: int| 0 <= k < shorter.len() implies !(#[trigger] shorter[k]).started
                && shorter[k].id == from + k by {
                assert(shorter[k] == block[k]);
            }
        }
        lemma_ids_of_fresh_block(shorter, from);
        assert(!last.started && last.id == from + block.len() - 1);
        assert(block.filter(is_started()) == shorter.filter(is_started()));
        assert(block.filter(is_unstarted()) == kept.push(last));
        assert(kept.push(last).map_values(slot_id()) =~= kept.map_values(slot_id()).push(last.id));
        assert(handles(from, from + shorter.len()).push(last.id) =~= handles(
            from,
            from + block.len(),
        ));
    }
}

/// A started slot alone has its handle as the one started handle and no
/// unstarted handle.
proof fn lemma_ids_of_one(slot: Slot)
    requires
        slot.started,
    ensures
        started_ids(seq![slot]) == seq![slot.id],
        unstarted_ids(seq![slot]) == Seq::<i64>::empty(),
{
    reveal(Seq::filter);
    let one = seq![slot];
    let none = Seq::<Slot>::empty();
    assert(one.drop_last() =~= none);
    assert(none.filter(is_started()) =~= none);
    assert(none.filter(is_unstarted()) =~= none);
    assert(one.filter(is_started()) =~= one);
    assert(one.filter(is_unstarted()) =~= none);
    assert(started_ids(one) =~= seq![slot.id]);
    assert(unstarted_ids(one) =~= Seq::<i64>::empty());
}

} // verus!
