//! The world: the registry of entities, the queue of removals, the grid, the
//! attribute bags and the scheduler that ticks them.
//!
//! Beside what the running program holds, the world keeps two histories for
//! its contracts: the journal of hook calls, which every hook enters itself
//! in, and the list of all removals that were ever asked for.

use vstd::prelude::*;
use crossterm::event::KeyCode;
use crossterm::style::Color;
use crate::attributes::erase;
use crate::attributes::recall_mut;
use crate::attributes::type_key;
use crate::attributes::Attribute;
use crate::attributes::AttributeStore;
use crate::grid::lemma_after_strokes_of_runs;
use crate::grid::DrawCall;
use crate::grid::Grid;
use crate::grid::GridView;
use crate::grid::Stroke;
use crate::input::Input;
use crate::schedule::after_visits;
use crate::schedule::calls_of;
use crate::schedule::distinct_ids;
use crate::schedule::first_call;
use crate::schedule::fits;
use crate::schedule::fresh_block;
use crate::schedule::fresh_slots;
use crate::schedule::handle_set;
use crate::schedule::handles;
use crate::schedule::hands_on;
use crate::schedule::ids_of;
use crate::schedule::is_slot_of;
use crate::schedule::lemma_fits_after_growth;
use crate::schedule::lemma_hands_on_push;
use crate::schedule::lemma_state_of_push;
use crate::schedule::lemma_state_of_unnamed;
use crate::schedule::lemma_after_visits_ids;
use crate::schedule::lemma_note_start;
use crate::schedule::lemma_note_update;
use crate::schedule::lemma_put_back;
use crate::schedule::lemma_registry_grows;
use crate::schedule::lemma_registry_without;
use crate::schedule::lemma_tick_calls_its_slots;
use crate::schedule::mentions;
use crate::schedule::registry_wf;
use crate::schedule::slot_ok;
use crate::schedule::start_precedes;
use crate::schedule::state_of;
use crate::schedule::started_ids;
use crate::schedule::starts_once;
use crate::schedule::tick_calls;
use crate::schedule::total;
use crate::schedule::unstarted_ids;
use crate::schedule::updates_follow_start;
use crate::schedule::visit_calls;
use crate::schedule::Call;
use crate::schedule::Record;
use crate::schedule::Slot;

verus! {

/// An entity of the registry: its behavior, its handle, and whether its
/// `start` hook has run.
pub struct EntityData<E> {
    pub entity: E,
    pub id: i64,
    started: bool,
}

impl<E> View for EntityData<E> {
    type V = Slot;

    closed spec fn view(&self) -> Slot {
        Slot { id: self.id, started: self.started }
    }
}

impl<E> EntityData<E> {
    /// The behavior of the entity.
    pub closed spec fn behavior(self) -> E {
        self.entity
    }

    /// Whether the `start` hook of the entity has run.
    pub fn started(&self) -> (started: bool)
        ensures
            started == self@.started,
    {
        self.started
    }
}

/// What the registry knows of an entity.
pub open spec fn slot_of<E>() -> spec_fn(EntityData<E>) -> Slot {
    |e: EntityData<E>| e@
}

/// The test that an entity passes when the removals are carried out: its
/// handle is not among `pending`.
pub open spec fn stays<E>(pending: Seq<i64>) -> spec_fn(EntityData<E>) -> bool {
    |e: EntityData<E>| !pending.contains(e@.id)
}

/// The test that passes every entity but the one with handle `id`.
pub open spec fn is_not<E>(id: i64) -> spec_fn(EntityData<E>) -> bool {
    |e: EntityData<E>| e@.id != id
}

/// Whether `e`, where it is started, holds the behavior that the last hook
/// called for it left.
pub open spec fn keeps_state<E>(e: EntityData<E>, records: Seq<Record<E>>) -> bool {
    e@.started ==> state_of(records, e@.id) == Some(e.behavior())
}

/// Whether every started entity of `population` holds the behavior that the
/// last hook called for it left.
pub open spec fn settled<E>(population: Seq<EntityData<E>>, records: Seq<Record<E>>) -> bool {
    forall|k: int| 0 <= k < population.len() ==> keeps_state(#[trigger] population[k], records)
}

/// Whether the call at place `p` of `records` is the first call of a visit
/// of `e`, handed the behavior that `e` holds.
pub open spec fn handed_at<E>(
    records: Seq<Record<E>>,
    p: int,
    e: EntityData<E>,
    delta: u64,
) -> bool {
    &&& 0 <= p < records.len()
    &&& records[p].call == first_call(e@, delta)
    &&& records[p].before == e.behavior()
}

/// Whether `records` holds, at `from` or behind it, the first call of a
/// visit of `e`, handed the behavior that `e` holds.
pub open spec fn handed<E>(
    records: Seq<Record<E>>,
    from: int,
    e: EntityData<E>,
    delta: u64,
) -> bool {
    exists|p: int| from <= p && handed_at(records, p, e, delta)
}

/// What an entity brings: two hooks, both of which may be left as they are.
///
/// The scheduler calls `start` once, in the tick in which it first visits the
/// entity, and `update` in that tick and in every later one. For the time of
/// the call the entity is taken out of the registry; its bag stays.
///
/// A hook gets the world, and may change it with `add_entity`,
/// `remove_entity`, `write`, `set_component` and `get_component`, each of
/// which is proved to take a consistent world to one that it `evolves_to`.
/// Besides, every call of a hook is entered in the journal of the world,
/// once, with the behavior that the hook was handed and the one that it
/// left. The hooks as they stand here enter themselves with `World::enter`,
/// which does nothing when the program runs. That the world `evolves_by` the
/// record of the call is what the scheduler relies on of every hook; and
/// since the scheduler enters no call itself, what it promises of the
/// journal it promises of the calls that it made. Of a hook written outside
/// this crate the contract is taken on trust: one that ticks the world,
/// feeds it keys or puts another world in its place breaks it.
pub trait Entity: Sized {
    /// Runs once, before the first update.
    fn start(&mut self, world: &mut World<Self>, id: i64)
        requires
            old(world).wf(),
            old(world).hosts(Slot { id, started: false }),
        ensures
            old(world).evolves_by(
                *final(world),
                Record { call: Call::Start { id }, before: *old(self), after: *final(self) },
            ),
    {
        let ghost me = *self;
        world.enter(Ghost(Record { call: Call::Start { id }, before: me, after: me }));
    }

    /// Runs in every tick in which the entity is registered when the tick
    /// begins. `delta` is the time since the tick before, in nanoseconds.
    fn update(&mut self, delta: u64, world: &mut World<Self>, id: i64)
        requires
            old(world).wf(),
            old(world).hosts(Slot { id, started: true }),
            state_of(old(world).records(), id) == Some(*old(self)),
        ensures
            old(world).evolves_by(
                *final(world),
                Record {
                    call: Call::Update { id, delta },
                    before: *old(self),
                    after: *final(self),
                },
            ),
    {
        let ghost me = *self;
        world.enter(Ghost(Record { call: Call::Update { id, delta }, before: me, after: me }));
    }
}

/// The world that entities live in.
pub struct World<E> {
    entities: Vec<EntityData<E>>,
    removal_queue: Vec<i64>,
    map: Grid,
    input: Input,
    next_id: i64,
    components: AttributeStore<Attribute>,
    journal: Ghost<Seq<Record<E>>>,
    asked: Ghost<Seq<i64>>,
}

impl<E> World<E> {
    /// The registered entities, in the order in which the next tick visits
    /// them.
    pub closed spec fn population(self) -> Seq<EntityData<E>> {
        self.entities@
    }

    /// Handle and `started` mark of each registered entity.
    pub open spec fn slots(self) -> Seq<Slot> {
        self.population().map_values(slot_of())
    }

    /// The handles whose removal was asked for since the last tick began.
    pub closed spec fn pending(self) -> Seq<i64> {
        self.removal_queue@
    }

    /// Every handle whose removal was ever asked for, in the order of the
    /// asking, carried out or not.
    pub closed spec fn requests(self) -> Seq<i64> {
        self.asked@
    }

    /// The grid.
    pub closed spec fn grid(self) -> GridView {
        self.map@
    }

    /// The key of this tick and of the one before.
    pub closed spec fn keys(self) -> Input {
        self.input
    }

    /// The handle that the next added entity gets.
    pub closed spec fn next_handle(self) -> int {
        self.next_id as int
    }

    /// The attribute bags, by handle.
    pub closed spec fn attributes(self) -> Map<i64, Map<Seq<char>, Attribute>> {
        self.components@
    }

    /// The journal: every hook call that was made, first to last, with the
    /// behavior that the hook was handed and the one that it left.
    pub closed spec fn records(self) -> Seq<Record<E>> {
        self.journal@
    }

    /// Every hook call that was made, first to last.
    pub open spec fn calls(self) -> Seq<Call> {
        calls_of(self.records())
    }

    /// Whether the removals that are pending are the last that were asked
    /// for.
    pub open spec fn pending_is_latest(self) -> bool {
        &&& self.pending().len() <= self.requests().len()
        &&& self.pending() == self.requests().skip(
            self.requests().len() - self.pending().len(),
        )
    }

    /// The world is consistent: the grid and the bags are well formed, and
    /// so is the registry; every hook was handed what the hook before left,
    /// and every started entity holds what its last hook left; the pending
    /// removals are the last that were asked for.
    pub closed spec fn wf(self) -> bool {
        &&& self.map.wf()
        &&& self.components.wf()
        &&& 0 <= self.next_id
        &&& registry_wf(
            self.slots(),
            self.attributes().dom(),
            self.next_handle(),
            self.calls(),
        )
        &&& hands_on(self.records())
        &&& settled(self.population(), self.records())
        &&& self.pending_is_latest()
    }

    /// The entities that the next tick visits, in order: those whose removal
    /// was not asked for.
    pub open spec fn survivors(self) -> Seq<EntityData<E>> {
        self.population().filter(stays(self.pending()))
    }

    /// The handle and mark of those that the next tick visits, in order.
    pub open spec fn survivor_slots(self) -> Seq<Slot> {
        self.survivors().map_values(slot_of())
    }

    /// Whether `slot`, which is not registered, fits the registry.
    pub open spec fn hosts(self, slot: Slot) -> bool {
        fits(slot, self.slots(), self.attributes().dom(), self.next_handle(), self.calls())
    }

    /// Whether `e`, which is not registered, fits the registry and, where it
    /// is started, holds the behavior that its last hook left.
    pub open spec fn holds(self, e: EntityData<E>) -> bool {
        &&& self.hosts(e@)
        &&& keeps_state(e, self.records())
    }

    /// Whether `next` has the entities, the removals pending and asked for,
    /// the next handle, the journal and the keys of `self`.
    pub open spec fn same_registry(self, next: World<E>) -> bool {
        &&& next.population() == self.population()
        &&& next.pending() == self.pending()
        &&& next.requests() == self.requests()
        &&& next.next_handle() == self.next_handle()
        &&& next.records() == self.records()
        &&& next.keys() == self.keys()
    }

    /// Whether `next` is `self` with more in it: the entities of `self` are
    /// there, untouched and in place, and behind them unstarted ones with the
    /// handles that were free; the removals that were asked for are still
    /// asked for and pending, and behind them what was asked for since; the
    /// grid was only written; every bag is there, and one for each new
    /// handle; the keys are the same.
    pub open spec fn extends_to(self, next: World<E>) -> bool {
        &&& self.population().is_prefix_of(next.population())
        &&& next.next_handle() == self.next_handle() + (next.population().len()
            - self.population().len())
        &&& fresh_block(next.slots().skip(self.population().len() as int), self.next_handle())
        &&& self.requests().is_prefix_of(next.requests())
        &&& next.pending() == self.pending() + next.requests().skip(
            self.requests().len() as int,
        )
        &&& exists|strokes: Seq<Stroke>|
            next.grid() == #[trigger] self.grid().after_strokes(strokes)
        &&& next.attributes().dom() == self.attributes().dom().union(
            handle_set(self.next_handle(), next.next_handle()),
        )
        &&& next.keys() == self.keys()
    }

    /// What the operations of the world make of it: `next` is a consistent
    /// world that `self` turned into by adding entities, asking for removals,
    /// writing the grid and changing attributes, and by nothing else. No hook
    /// was called on the way.
    pub open spec fn evolves_to(self, next: World<E>) -> bool {
        &&& next.wf()
        &&& self.extends_to(next)
        &&& next.records() == self.records()
    }

    /// What a hook makes of the world: what the operations of the world make
    /// of it, and its own call entered in the journal.
    pub open spec fn evolves_by(self, next: World<E>, record: Record<E>) -> bool {
        &&& next.wf()
        &&& self.extends_to(next)
        &&& next.records() == self.records().push(record)
    }

    /// A world extends to itself.
    pub proof fn lemma_extends_reflexive(self)
        ensures
            self.extends_to(self),
    {
        let dom = self.attributes().dom();
        assert(self.grid().after_strokes(Seq::<Stroke>::empty()) == self.grid());
        assert(dom =~= dom.union(handle_set(self.next_handle(), self.next_handle())));
        assert(self.pending() =~= self.pending() + self.requests().skip(
            self.requests().len() as int,
        ));
    }

    /// A consistent world evolves to itself: a hook may do nothing.
    pub proof fn lemma_evolves_reflexive(self)
        requires
            self.wf(),
        ensures
            self.evolves_to(self),
    {
        self.lemma_extends_reflexive();
    }

    /// What extends to a world extends to all that this world extends to.
    pub proof fn lemma_extends_transitive(self, mid: World<E>, last: World<E>)
        requires
            self.extends_to(mid),
            mid.extends_to(last),
        ensures
            self.extends_to(last),
    {
        let a = self.population().len() as int;
        let b = mid.population().len() as int;
        let tail = last.slots().skip(a);
        assert(self.population().is_prefix_of(last.population()));
        assert forall|k: int| 0 <= k < tail.len() implies !(#[trigger] tail[k]).started
            && tail[k].id == self.next_handle() + k by {
            if a + k < b {
                assert(tail[k] == mid.slots().skip(a)[k]);
            } else {
                assert(tail[k] == last.slots().skip(b)[k - (b - a)]);
            }
        }
        let r0 = self.requests().len() as int;
        let r1 = mid.requests().len() as int;
        assert(self.requests().is_prefix_of(last.requests()));
        assert(last.requests().skip(r0) =~= mid.requests().skip(r0) + last.requests().skip(r1));
        assert(last.pending() =~= self.pending() + last.requests().skip(r0));
        let first = choose|strokes: Seq<Stroke>|
            mid.grid() == #[trigger] self.grid().after_strokes(strokes);
        let second = choose|strokes: Seq<Stroke>|
            last.grid() == #[trigger] mid.grid().after_strokes(strokes);
        lemma_after_strokes_of_runs(self.grid(), first, second);
        assert(last.grid() == self.grid().after_strokes(first + second));
        assert(last.attributes().dom() =~= self.attributes().dom().union(
            handle_set(self.next_handle(), last.next_handle()),
        ));
    }

    /// Evolving is transitive: what two hooks may do one after the other, one
    /// hook may do.
    pub proof fn lemma_evolves_transitive(self, mid: World<E>, last: World<E>)
        requires
            self.evolves_to(mid),
            mid.evolves_to(last),
        ensures
            self.evolves_to(last),
    {
        self.lemma_extends_transitive(mid, last);
    }

    /// A slot that fits the registry of a world, whatever the journal, fits
    /// that of every world that it extends to, with the same journal.
    proof fn lemma_fits_after_extension(self, next: World<E>, slot: Slot, calls: Seq<Call>)
        requires
            fits(slot, self.slots(), self.attributes().dom(), self.next_handle(), calls),
            self.extends_to(next),
        ensures
            fits(slot, next.slots(), next.attributes().dom(), next.next_handle(), calls),
    {
        assert(self.slots().is_prefix_of(next.slots()));
        lemma_fits_after_growth(
            slot,
            self.slots(),
            next.slots(),
            self.attributes().dom(),
            next.attributes().dom(),
            self.next_handle(),
            next.next_handle(),
            calls,
        );
    }

    /// A hook may work first and enter its call then: an entity that a world
    /// hosts is hosted by every world that it evolves to, and was left there
    /// with the same behavior by the hooks before.
    pub proof fn lemma_hosts_after_evolution(self, next: World<E>, slot: Slot)
        requires
            self.hosts(slot),
            self.evolves_to(next),
        ensures
            next.hosts(slot),
            state_of(next.records(), slot.id) == state_of(self.records(), slot.id),
    {
        self.lemma_fits_after_extension(next, slot, self.calls());
    }

    /// Where the pending removals of a world are the last that were asked
    /// for, and those of `next` are these and what was asked for since, the
    /// pending removals of `next` are the last that were asked for.
    proof fn lemma_pending_stays_latest(self, next: World<E>)
        requires
            self.pending_is_latest(),
            self.requests().is_prefix_of(next.requests()),
            next.pending() == self.pending() + next.requests().skip(
                self.requests().len() as int,
            ),
        ensures
            next.pending_is_latest(),
    {
        let kept = self.requests().len() - self.pending().len();
        assert(next.requests().skip(kept) =~= self.requests().skip(kept) + next.requests().skip(
            self.requests().len() as int,
        ));
    }

    /// A world with the same entities, handles, journal and keys, whose grid
    /// was only written and whose bags belong to the same handles, is
    /// consistent where this one is, and this one evolves to it.
    proof fn lemma_evolves_in_place(self, next: World<E>, strokes: Seq<Stroke>)
        requires
            self.wf(),
            next.map.wf(),
            next.components.wf(),
            next.population() == self.population(),
            self.requests().is_prefix_of(next.requests()),
            next.pending() == self.pending() + next.requests().skip(
                self.requests().len() as int,
            ),
            next.next_handle() == self.next_handle(),
            next.records() == self.records(),
            next.keys() == self.keys(),
            next.grid() == self.grid().after_strokes(strokes),
            next.attributes().dom() == self.attributes().dom(),
        ensures
            next.wf(),
            self.evolves_to(next),
    {
        let dom = self.attributes().dom();
        assert(dom =~= dom.union(handle_set(self.next_handle(), self.next_handle())));
        assert(fresh_block(
            next.slots().skip(self.population().len() as int),
            self.next_handle(),
        ));
        self.lemma_pending_stays_latest(next);
    }

    /// A world with a grid of `map_width` by `map_height` cells and nothing
    /// else: no entity, no pending removal, no key, and 0 as the first handle.
    pub fn new(map_width: usize, map_height: usize) -> (world: World<E>)
        requires
            map_width > 0,
            map_height > 0,
        ensures
            world.wf(),
            world.population() == Seq::<EntityData<E>>::empty(),
            world.pending() == Seq::<i64>::empty(),
            world.requests() == Seq::<i64>::empty(),
            world.grid() == GridView::initial(map_width as nat, map_height as nat),
            world.keys().current_input is None,
            world.keys().last_input is None,
            world.next_handle() == 0,
            world.attributes() == Map::<i64, Map<Seq<char>, Attribute>>::empty(),
            world.records() == Seq::<Record<E>>::empty(),
    {
        let world = World {
            entities: Vec::new(),
            removal_queue: Vec::new(),
            map: Grid::new(map_width, map_height),
            input: Input::new(),
            next_id: 0,
            components: AttributeStore::new(),
            journal: Ghost(Seq::empty()),
            asked: Ghost(Seq::empty()),
        };
        assert(world.pending() =~= world.requests().skip(0));
        assert(world.slots() =~= Seq::<Slot>::empty());
        assert(world.calls() =~= Seq::<Call>::empty());
        world
    }

    /// Registers `entity`: it gets the next handle and an empty attribute
    /// bag, and waits unstarted behind the entities that are there. Returns
    /// the handle.
    pub fn add_entity(&mut self, entity: E) -> (id: i64)
        requires
            old(self).wf(),
            old(self).next_handle() < i64::MAX,
        ensures
            final(self).wf(),
            old(self).evolves_to(*final(self)),
            id == old(self).next_handle(),
            final(self).next_handle() == id + 1,
            final(self).population().len() == old(self).population().len() + 1,
            final(self).population().drop_last() == old(self).population(),
            final(self).population().last()@ == (Slot { id, started: false }),
            final(self).population().last().behavior() == entity,
            final(self).pending() == old(self).pending(),
            final(self).requests() == old(self).requests(),
            final(self).grid() == old(self).grid(),
            final(self).attributes() == old(self).attributes().insert(
                id,
                Map::<Seq<char>, Attribute>::empty(),
            ),
            final(self).records() == old(self).records(),
            final(self).keys() == old(self).keys(),
    {
        let id: i64 = self.next_id;
        self.entities.push(EntityData { entity, id, started: false });
        self.components.register(id);
        self.next_id = id + 1;
        proof {
            let before = *old(self);
            let after = *self;
            let slot = Slot { id, started: false };
            assert(after.population().drop_last() =~= before.population());
            assert(after.slots() =~= before.slots().push(slot));
            assert(before.grid().after_strokes(Seq::<Stroke>::empty()) == before.grid());
            assert(after.attributes().dom() =~= before.attributes().dom().union(
                handle_set(before.next_handle(), after.next_handle()),
            ));
            assert(fresh_block(
                after.slots().skip(before.population().len() as int),
                before.next_handle(),
            ));
            assert(after.pending() =~= before.pending() + after.requests().skip(
                before.requests().len() as int,
            ));
            assert forall|k: int| 0 <= k < after.population().len() implies keeps_state(
                #[trigger] after.population()[k],
                after.records(),
            ) by {
                if k < before.population().len() {
                    assert(after.population()[k] == before.population()[k]);
                }
            }
            if mentions(before.calls(), id) {
                let a = choose|a: int|
                    0 <= a < before.calls().len() && (#[trigger] before.calls()[a]).id() == id;
                assert(0 <= before.calls()[a].id() < before.next_handle());
            }
            lemma_registry_grows(
                before.slots(),
                before.attributes().dom(),
                after.attributes().dom(),
                before.next_handle(),
                after.next_handle(),
                before.calls(),
            );
            lemma_put_back(
                slot,
                before.slots(),
                after.attributes().dom(),
                after.next_handle(),
                after.calls(),
            );
        }
        id
    }

    /// Asks for the removal of the entity `id`. The entity stays registered,
    /// and is visited, until the next tick begins; then it leaves, and its
    /// bag with it. A handle that names no entity is dropped then.
    pub fn remove_entity(&mut self, id: i64)
        requires
            old(self).wf(),
        ensures
            final(self).wf(),
            old(self).evolves_to(*final(self)),
            final(self).pending() == old(self).pending().push(id),
            final(self).requests() == old(self).requests().push(id),
            final(self).population() == old(self).population(),
            final(self).next_handle() == old(self).next_handle(),
            final(self).grid() == old(self).grid(),
            final(self).attributes() == old(self).attributes(),
            final(self).records() == old(self).records(),
            final(self).keys() == old(self).keys(),
    {
        self.removal_queue.push(id);
        proof {
            self.asked@ = self.asked@.push(id);
            assert(self.requests().skip(old(self).requests().len() as int) =~= seq![id]);
            assert(self.pending() =~= old(self).pending() + seq![id]);
            old(self).lemma_evolves_in_place(*self, Seq::empty());
        }
    }

    /// Writes `character` in `color` at `position`, clamped into the grid,
    /// in the name of `id`. Occupancy questions do not see the write before
    /// the tick is over.
    pub fn write(&mut self, position: (i32, i32), character: char, color: Color, id: i64)
        requires
            old(self).wf(),
        ensures
            final(self).wf(),
            old(self).evolves_to(*final(self)),
            old(self).same_registry(*final(self)),
            final(self).attributes() == old(self).attributes(),
            final(self).grid() == old(self).grid().written(
                position.0 as int,
                position.1 as int,
                character,
                color,
                id,
            ),
    {
        self.map.write(position, character, color, id);
        proof {
            let stroke = Stroke {
                x: position.0 as int,
                y: position.1 as int,
                glyph: character,
                color,
                id,
            };
            let strokes = seq![stroke];
            assert(strokes.drop_last() =~= Seq::<Stroke>::empty());
            assert(old(self).grid().after_strokes(strokes.drop_last()) == old(self).grid());
            old(self).lemma_extends_reflexive();
            old(self).lemma_evolves_in_place(*self, strokes);
        }
    }

    /// The handles that wrote the cell at `position`, clamped into the grid,
    /// during the last completed frame, in the order of their writes.
    pub fn query_map(&self, position: (i32, i32)) -> (ids: Vec<i64>)
        requires
            self.wf(),
        ensures
            ids@ == self.grid().occupants(position.0 as int, position.1 as int),
    {
        self.map.occupants(position)
    }

    /// Stores `component` as the attribute of its type in the bag of `id`,
    /// in place of the attribute of that type that the bag held. Does
    /// nothing where `id` has no bag.
    pub fn set_component<T: 'static>(&mut self, id: i64, component: T)
        requires
            old(self).wf(),
        ensures
            final(self).wf(),
            old(self).evolves_to(*final(self)),
            old(self).same_registry(*final(self)),
            final(self).grid() == old(self).grid(),
            !old(self).attributes().contains_key(id) ==> final(self).attributes()
                == old(self).attributes(),
            old(self).attributes().contains_key(id) ==> exists|key: Seq<char>, value: Attribute|
                final(self).attributes() == #[trigger] old(self).attributes().insert(
                    id,
                    old(self).attributes()[id].insert(key, value),
                ),
    {
        let key = type_key::<T>();
        let value = erase(component);
        self.components.insert(id, key, value);
        proof {
            let before = old(self).attributes();
            assert(self.attributes().dom() =~= before.dom());
            if before.contains_key(id) {
                assert(self.attributes() == before.insert(id, before[id].insert(key@, value)));
            }
            old(self).lemma_extends_reflexive();
            old(self).lemma_evolves_in_place(*self, Seq::empty());
        }
    }

    /// The attribute of type `T` in the bag of `id`, to be changed in place:
    /// `None` where `id` has no bag, where the bag is empty or holds no
    /// attribute under the key of `T`, and where what it holds there is no
    /// `T`.
    pub fn get_component<T: 'static>(&mut self, id: i64) -> (component: Option<&mut T>)
        requires
            old(self).wf(),
        ensures
            final(self).wf(),
            old(self).evolves_to(*final(self)),
            old(self).same_registry(*final(self)),
            final(self).grid() == old(self).grid(),
            component is Some ==> old(self).attributes().contains_key(id) && exists|
                key: Seq<char>,
            | #[trigger] old(self).attributes()[id].contains_key(key),
            component is None ==> final(self).attributes() == old(self).attributes(),
            final(self).attributes().dom() == old(self).attributes().dom(),
            forall|other: i64|
                other != id && old(self).attributes().contains_key(other)
                    ==> #[trigger] final(self).attributes()[other] == old(self).attributes()[other],
            old(self).attributes().contains_key(id) ==> final(self).attributes()[id].dom()
                == old(self).attributes()[id].dom(),
    {
        let key = type_key::<T>();
        proof {
            let bags = old(self).attributes();
            old(self).lemma_evolves_reflexive();
            assert(fresh_block(
                old(self).slots().skip(old(self).population().len() as int),
                old(self).next_handle(),
            ));
            if bags.contains_key(id) && bags[id].contains_key(key@) {
                let bag = bags[id];
                assert forall|a: Attribute|
                    (#[trigger] bags.insert(id, bag.insert(key@, a))).dom() =~= bags.dom()
                        && bag.insert(key@, a).dom() =~= bag.dom() by {}
                assert(bag.insert(key@, bag[key@]) =~= bag);
                assert(bags.insert(id, bag) =~= bags);
            }
        }
        match self.components.get_mut(id, &key) {
            Some(attribute) => recall_mut::<T>(attribute),
            None => None,
        }
    }

    /// Begins a tick for the keys: what was the latest key becomes the
    /// previous one, and `polled` the latest. For the loop that ticks the
    /// world, not for hooks.
    pub fn advance_input(&mut self, polled: Option<KeyCode>)
        requires
            old(self).wf(),
        ensures
            final(self).wf(),
            final(self).keys().last_input == old(self).keys().current_input,
            final(self).keys().current_input == polled,
            final(self).population() == old(self).population(),
            final(self).pending() == old(self).pending(),
            final(self).next_handle() == old(self).next_handle(),
            final(self).grid() == old(self).grid(),
            final(self).requests() == old(self).requests(),
            final(self).attributes() == old(self).attributes(),
            final(self).records() == old(self).records(),
    {
        self.input.advance(polled);
    }

    /// Enters a hook call in the journal. This is for hooks: each enters its
    /// own call, once, with the behavior that it was handed and the one that
    /// it leaves. It changes nothing that the running program holds.
    pub fn enter(&mut self, Ghost(record): Ghost<Record<E>>)
        requires
            old(self).wf(),
            old(self).hosts(Slot { id: record.call.id(), started: record.call is Update }),
            record.call is Update ==> state_of(old(self).records(), record.call.id()) == Some(
                record.before,
            ),
        ensures
            old(self).evolves_by(*final(self), record),
            final(self).population() == old(self).population(),
            final(self).pending() == old(self).pending(),
            final(self).requests() == old(self).requests(),
            final(self).next_handle() == old(self).next_handle(),
            final(self).grid() == old(self).grid(),
            final(self).attributes() == old(self).attributes(),
            final(self).keys() == old(self).keys(),
    {
        proof {
            let id = record.call.id();
            let slot = Slot { id, started: record.call is Update };
            let records = self.records();
            let noted = records.push(record);
            let bags = self.attributes().dom();
            assert(calls_of(noted) =~= self.calls().push(record.call));
            match record.call {
                Call::Start { id } => {
                    lemma_note_start(slot, self.slots(), bags, self.next_handle(), self.calls());
                    lemma_state_of_unnamed(records, id);
                },
                Call::Update { id, delta } => {
                    lemma_note_update(
                        slot,
                        self.slots(),
                        bags,
                        self.next_handle(),
                        self.calls(),
                        delta,
                    );
                },
            }
            lemma_hands_on_push(records, record);
            assert forall|k: int| 0 <= k < self.population().len() implies keeps_state(
                #[trigger] self.population()[k],
                noted,
            ) by {
                assert(self.slots()[k].id != id);
                assert(keeps_state(self.population()[k], records));
                lemma_state_of_push(records, record, self.population()[k]@.id);
            }
            self.lemma_extends_reflexive();
            self.journal@ = noted;
        }
    }

    /// The registered entities, in the order in which the next tick visits
    /// them.
    pub fn entities(&self) -> (entities: &Vec<EntityData<E>>)
        ensures
            entities@ == self.population(),
    {
        &self.entities
    }

    /// The handles whose removal was asked for since the last tick began, in
    /// the order of the asking.
    pub fn pending_removals(&self) -> (pending: &Vec<i64>)
        ensures
            pending@ == self.pending(),
    {
        &self.removal_queue
    }

    /// The grid.
    pub fn map(&self) -> (map: &Grid)
        ensures
            map@ == self.grid(),
            self.wf() ==> map.wf(),
    {
        &self.map
    }

    /// The key of this tick and of the one before.
    pub fn input(&self) -> (input: &Input)
        ensures
            *input == self.keys(),
    {
        &self.input
    }

    /// Whether a handle is left to give out, so that `add_entity` may be
    /// called.
    pub fn has_free_handle(&self) -> (free: bool)
        ensures
            free == (self.next_handle() < i64::MAX),
    {
        self.next_id < i64::MAX
    }

    /// Whether `id` has an attribute bag: it was given out, and its entity
    /// did not leave.
    pub fn is_registered(&self, id: i64) -> (known: bool)
        ensures
            known == self.attributes().contains_key(id),
    {
        self.components.is_registered(id)
    }

}

/// Whether `id` stands in `list`.
fn contains_handle(list: &Vec<i64>, id: i64) -> (found: bool)
    ensures
        found == list@.contains(id),
{
    let mut k: usize = 0;
    while k < list.len()
        invariant
            k <= list@.len(),
            forall|j: int| 0 <= j < k ==> list@[j] != id,
        decreases list@.len() - k,
    {
        if list[k] == id {
            return true;
        }
        k += 1;
    }
    false
}

impl<E> World<E> {
    /// Carries out the removals that were asked for: every entity whose
    /// handle is pending leaves, and the bag of every pending handle with it.
    /// Those that stay keep their order.
    fn apply_removals(&mut self)
        requires
            old(self).wf(),
        ensures
            final(self).wf(),
            final(self).population() == old(self).survivors(),
            final(self).pending() == Seq::<i64>::empty(),
            final(self).requests() == old(self).requests(),
            final(self).attributes() == old(self).attributes().remove_keys(
                old(self).pending().to_set(),
            ),
            final(self).next_handle() == old(self).next_handle(),
            final(self).grid() == old(self).grid(),
            final(self).records() == old(self).records(),
            final(self).keys() == old(self).keys(),
    {
        let ghost all = self.entities@;
        let ghost pending = self.removal_queue@;
        let ghost test = stays::<E>(pending);
        let ghost mut seen: int = 0;
        let mut at: usize = 0;
        while at < self.entities.len()
            invariant
                0 <= seen <= all.len(),
                at == all.take(seen).filter(test).len(),
                self.entities@ == all.take(seen).filter(test) + all.skip(seen),
                test == stays::<E>(pending),
                self.removal_queue@ == pending,
                self.map == old(self).map,
                self.input == old(self).input,
                self.next_id == old(self).next_id,
                self.components == old(self).components,
                self.journal == old(self).journal,
                self.asked == old(self).asked,
                registry_wf(
                    self.slots(),
                    self.attributes().dom(),
                    self.next_handle(),
                    self.calls(),
                ),
                settled(self.entities@, self.journal@),
            decreases all.len() - seen,
        {
            let ghost before = self.entities@;
            let ghost slots_before = self.slots();
            assert(before[at as int] == all.skip(seen)[0]);
            assert(all.take(seen + 1) =~= all.take(seen).push(all[seen]));
            proof {
                all.take(seen).lemma_filter_push(all[seen], test);
            }
            if contains_handle(&self.removal_queue, self.entities[at].id) {
                self.entities.remove(at);
                proof {
                    lemma_registry_without(
                        slots_before,
                        at as int,
                        self.attributes().dom(),
                        self.next_handle(),
                        self.calls(),
                    );
                    assert(self.slots() =~= slots_before.remove(at as int));
                    assert(self.entities@ =~= all.take(seen + 1).filter(test) + all.skip(seen + 1));
                    assert forall|k: int| 0 <= k < self.entities@.len() implies keeps_state(
                        #[trigger] self.entities@[k],
                        self.journal@,
                    ) by {
                        let k0 = if k < at { k } else { k + 1 };
                        assert(self.entities@[k] == before[k0]);
                    }
                }
            } else {
                at += 1;
                proof {
                    assert(self.entities@ =~= all.take(seen + 1).filter(test) + all.skip(seen + 1));
                }
            }
            proof {
                seen = seen + 1;
            }
        }
        assert(all.take(seen) =~= all);
        assert(self.entities@ =~= all.filter(test));
        let ghost bags = self.components@;
        let mut k: usize = 0;
        while k < self.removal_queue.len()
            invariant
                k <= pending.len(),
                self.removal_queue@ == pending,
                self.components.wf(),
                self.components@ == bags.remove_keys(pending.take(k as int).to_set()),
                self.entities@ == all.filter(test),
                self.map == old(self).map,
                self.input == old(self).input,
                self.next_id == old(self).next_id,
                self.journal == old(self).journal,
                self.asked == old(self).asked,
            decreases pending.len() - k,
        {
            let id: i64 = self.removal_queue[k];
            self.components.dispose(id);
            proof {
                let sooner = pending.take(k as int);
                let later = pending.take(k as int + 1);
                assert(later =~= sooner.push(id));
                sooner.lemma_push_to_set_commute(id);
                assert(self.components@ =~= bags.remove_keys(later.to_set()));
            }
            k += 1;
        }
        assert(pending.take(k as int) =~= pending);
        self.removal_queue.clear();
        proof {
            assert(self.pending() =~= self.requests().skip(self.requests().len() as int));
            let slots = self.slots();
            let dom = self.attributes().dom();
            let kept = all.filter(test);
            assert forall|j: int| 0 <= j < slots.len() implies slot_ok(
                #[trigger] slots[j],
                dom,
                self.next_handle(),
                self.calls(),
            ) by {
                all.lemma_filter_pred(test, j);
                assert(test(kept[j]));
                assert(slots[j] == kept[j]@);
                assert(!pending.contains(slots[j].id));
                assert(slot_ok(slots[j], bags.dom(), self.next_handle(), self.calls()));
            }
        }
    }
}

impl<E: Entity> World<E> {
    /// Visits one entity that was taken out of the registry: runs its start
    /// hook unless it has run, runs its update hook, and puts the entity
    /// back, behind whatever the hooks added.
    fn visit(&mut self, slot: EntityData<E>, delta: u64)
        requires
            old(self).wf(),
            old(self).holds(slot),
        ensures
            final(self).wf(),
            old(self).population().is_prefix_of(final(self).population()),
            final(self).population().len() > old(self).population().len(),
            final(self).population().last()@ == (Slot { id: slot@.id, started: true }),
            fresh_block(
                final(self).slots().subrange(
                    old(self).population().len() as int,
                    final(self).population().len() - 1,
                ),
                old(self).next_handle(),
            ),
            final(self).next_handle() == old(self).next_handle() + (final(self).population().len()
                - old(self).population().len() - 1),
            old(self).requests().is_prefix_of(final(self).requests()),
            final(self).pending() == old(self).pending() + final(self).requests().skip(
                old(self).requests().len() as int,
            ),
            exists|strokes: Seq<Stroke>|
                final(self).grid() == #[trigger] old(self).grid().after_strokes(strokes),
            final(self).attributes().dom() == old(self).attributes().dom().union(
                handle_set(old(self).next_handle(), final(self).next_handle()),
            ),
            old(self).records().is_prefix_of(final(self).records()),
            final(self).calls() == old(self).calls() + visit_calls(slot@, delta),
            handed(final(self).records(), old(self).records().len() as int, slot, delta),
            final(self).keys() == old(self).keys(),
    {
        let mut slot = slot;
        let id: i64 = slot.id;
        let ghost entered = *self;
        let ghost arrived = slot;
        if !slot.started {
            slot.entity.start(self, id);
            slot.started = true;
            proof {
                let record = Record {
                    call: Call::Start { id },
                    before: arrived.entity,
                    after: slot.entity,
                };
                assert(self.records() == entered.records().push(record));
                assert(self.calls() =~= entered.calls().push(record.call));
                lemma_note_start(
                    arrived@,
                    entered.slots(),
                    entered.attributes().dom(),
                    entered.next_handle(),
                    entered.calls(),
                );
                entered.lemma_fits_after_extension(*self, slot@, self.calls());
                lemma_state_of_push(entered.records(), record, id);
                assert(self.calls() =~= entered.calls() + seq![record.call]);
            }
        } else {
            proof {
                entered.lemma_extends_reflexive();
                assert(self.calls() =~= entered.calls() + Seq::<Call>::empty());
            }
        }
        assert(entered.extends_to(*self));
        assert(self.holds(slot));
        let ghost started = *self;
        let ghost given = slot;
        slot.entity.update(delta, self, id);
        proof {
            let record = Record {
                call: Call::Update { id, delta },
                before: given.entity,
                after: slot.entity,
            };
            assert(self.records() == started.records().push(record));
            assert(self.calls() =~= started.calls().push(record.call));
            lemma_note_update(
                given@,
                started.slots(),
                started.attributes().dom(),
                started.next_handle(),
                started.calls(),
                delta,
            );
            started.lemma_fits_after_extension(*self, slot@, self.calls());
            lemma_state_of_push(started.records(), record, id);
            entered.lemma_extends_transitive(started, *self);
            lemma_put_back(
                slot@,
                self.slots(),
                self.attributes().dom(),
                self.next_handle(),
                self.calls(),
            );
            assert(self.calls() =~= entered.calls() + visit_calls(arrived@, delta));
            let first = entered.records().len() as int;
            assert(self.records()[first].call == first_call(arrived@, delta));
            assert(handed_at(self.records(), first, arrived, delta));
        }
        let ghost updated = *self;
        self.entities.push(slot);
        proof {
            let kept = entered.population().len() as int;
            assert(self.slots() =~= updated.slots().push(Slot { id, started: true }));
            assert(self.slots().subrange(kept, self.population().len() - 1)
                =~= updated.slots().skip(kept));
            assert forall|k: int| 0 <= k < self.population().len() implies keeps_state(
                #[trigger] self.population()[k],
                self.records(),
            ) by {
                if k < updated.population().len() {
                    assert(self.population()[k] == updated.population()[k]);
                }
            }
        }
    }

    /// One tick. Carries out the removals that were asked for since the last
    /// tick began. Then visits every entity that is left, in order and once:
    /// takes it from the front, runs its start hook unless it has run, runs
    /// its update hook with `delta`, and puts it back at the end. What the
    /// hooks add waits behind and is visited from the next tick on; what they
    /// ask to remove stays, and is pending when the tick is over. At last
    /// hands back what the renderer has to draw and ends the frame of the
    /// grid.
    pub fn update_entities(&mut self, delta: u64) -> (draws: Vec<DrawCall>)
        requires
            old(self).wf(),
        ensures
            final(self).wf(),
            final(self).calls() == old(self).calls() + tick_calls(
                old(self).survivor_slots(),
                delta,
            ),
            old(self).records().is_prefix_of(final(self).records()),
            forall|k: int|
                0 <= k < old(self).survivors().len() ==> handed(
                    final(self).records(),
                    old(self).records().len() as int,
                    #[trigger] old(self).survivors()[k],
                    delta,
                ),
            exists|added: Seq<nat>|
                {
                    &&& added.len() == old(self).survivor_slots().len()
                    &&& final(self).slots() == #[trigger] after_visits(
                        old(self).survivor_slots(),
                        added,
                        old(self).next_handle(),
                    )
                    &&& final(self).next_handle() == old(self).next_handle() + total(added)
                },
            started_ids(final(self).slots()) == ids_of(old(self).survivor_slots()),
            unstarted_ids(final(self).slots()) == handles(
                old(self).next_handle(),
                final(self).next_handle(),
            ),
            old(self).next_handle() <= final(self).next_handle(),
            old(self).requests().is_prefix_of(final(self).requests()),
            final(self).pending() == final(self).requests().skip(
                old(self).requests().len() as int,
            ),
            exists|strokes: Seq<Stroke>|
                {
                    &&& draws@ == (#[trigger] old(self).grid().after_strokes(strokes)).draws()
                    &&& final(self).grid() == old(self).grid().after_strokes(strokes).cleared()
                },
            old(self).survivors().len() == 0 ==> {
                &&& final(self).requests() == old(self).requests()
                &&& final(self).records() == old(self).records()
                &&& final(self).next_handle() == old(self).next_handle()
                &&& draws@ == old(self).grid().draws()
                &&& final(self).grid() == old(self).grid().cleared()
            },
            final(self).attributes().dom() == old(self).attributes().remove_keys(
                old(self).pending().to_set(),
            ).dom().union(handle_set(old(self).next_handle(), final(self).next_handle())),
            final(self).keys() == old(self).keys(),
    {
        self.apply_removals();
        let n: usize = self.entities.len();
        let ghost origin = *self;
        let ghost mut strokes: Seq<Stroke> = Seq::empty();
        let ghost mut added: Seq<nat> = Seq::empty();
        let mut i: usize = 0;
        assert(self.slots().skip(n as int) =~= Seq::<Slot>::empty());
        proof {
            assert(self.calls() =~= origin.calls() + tick_calls(origin.slots().take(0), delta));
            assert(self.attributes().dom() =~= origin.attributes().dom().union(
                handle_set(origin.next_handle(), self.next_handle()),
            ));
            assert(self.pending() =~= self.requests().skip(origin.requests().len() as int));
        }
        while i < n
            invariant
                self.wf(),
                origin.wf(),
                i <= n,
                n == origin.population().len(),
                self.population().len() >= n - i,
                self.population().subrange(0, n - i) == origin.population().subrange(
                    i as int,
                    n as int,
                ),
                added.len() == i,
                self.slots().skip(n - i) == after_visits(
                    origin.slots().take(i as int),
                    added,
                    origin.next_handle(),
                ),
                self.next_handle() == origin.next_handle() + total(added),
                self.calls() == origin.calls() + tick_calls(origin.slots().take(i as int), delta),
                origin.records().is_prefix_of(self.records()),
                forall|j: int|
                    0 <= j < i ==> handed(
                        self.records(),
                        origin.records().len() as int,
                        #[trigger] origin.population()[j],
                        delta,
                    ),
                origin.requests().is_prefix_of(self.requests()),
                self.pending() == self.requests().skip(origin.requests().len() as int),
                self.grid() == origin.grid().after_strokes(strokes),
                n == 0 ==> strokes == Seq::<Stroke>::empty() && self.requests()
                    == origin.requests() && self.records() == origin.records(),
                self.attributes().dom() == origin.attributes().dom().union(
                    handle_set(origin.next_handle(), self.next_handle()),
                ),
                self.keys() == origin.keys(),
            decreases n - i,
        {
            let ghost before = *self;
            assert(before.population()[0] == before.population().subrange(0, n - i)[0]);
            let current = self.entities.remove(0);
            let ghost taken = *self;
            proof {
                lemma_registry_without(
                    before.slots(),
                    0,
                    before.attributes().dom(),
                    before.next_handle(),
                    before.calls(),
                );
                assert(taken.slots() =~= before.slots().remove(0));
                assert(current == origin.population()[i as int]);
                assert(current@ == origin.slots()[i as int]);
                assert forall|k: int| 0 <= k < taken.population().len() implies keeps_state(
                    #[trigger] taken.population()[k],
                    taken.records(),
                ) by {
                    assert(taken.population()[k] == before.population()[k + 1]);
                }
                assert(keeps_state(before.population()[0], before.records()));
            }
            self.visit(current, delta);
            proof {
                let more = choose|more: Seq<Stroke>|
                    self.grid() == #[trigger] taken.grid().after_strokes(more);
                lemma_after_strokes_of_runs(origin.grid(), strokes, more);
                strokes = strokes + more;

                let held = taken.population().len() as int;
                let rest = before.slots().skip(n - i);
                let block = self.slots().subrange(held, self.population().len() - 1);
                let back = seq![Slot { id: current@.id, started: true }];
                let ahead = self.population().subrange(0, n - i - 1);
                assert(ahead =~= origin.population().subrange(i as int + 1, n as int)) by {
                    assert forall|k: int| 0 <= k < n - i - 1 implies ahead[k]
                        == origin.population()[i + 1 + k] by {
                        assert(self.population()[k] == taken.population()[k]);
                        assert(taken.population()[k] == before.population()[k + 1]);
                        assert(before.population().subrange(0, n - i)[k + 1]
                            == origin.population().subrange(i as int, n as int)[k + 1]);
                    }
                }
                let left = self.slots().skip(n - i - 1);
                assert(left =~= rest + block + back) by {
                    assert forall|k: int| 0 <= k < left.len() implies left[k] == (rest + block
                        + back)[k] by {
                        let at = n - i - 1 + k;
                        if at < held {
                            assert(self.population()[at] == taken.population()[at]);
                            assert(taken.population()[at] == before.population()[at + 1]);
                        } else if at < self.population().len() - 1 {
                            assert(block[at - held] == self.slots()[at]);
                        }
                    }
                }
                let visited = origin.slots().take(i as int);
                let visited_now = origin.slots().take(i as int + 1);
                assert(visited_now.drop_last() =~= visited);
                assert(self.calls() =~= origin.calls() + tick_calls(visited_now, delta));
                let more_added = added.push(block.len());
                assert(block =~= fresh_slots(taken.next_handle(), block.len()));
                assert(more_added.drop_last() =~= added);
                assert(left =~= after_visits(visited_now, more_added, origin.next_handle()));
                added = more_added;
                assert(self.attributes().dom() =~= origin.attributes().dom().union(
                    handle_set(origin.next_handle(), self.next_handle()),
                ));
                let r0 = origin.requests().len() as int;
                let r1 = taken.requests().len() as int;
                assert(self.requests().skip(r0) =~= taken.requests().skip(r0)
                    + self.requests().skip(r1));
                let first = origin.records().len() as int;
                assert forall|j: int| 0 <= j < i + 1 implies handed(
                    self.records(),
                    first,
                    #[trigger] origin.population()[j],
                    delta,
                ) by {
                    let e = origin.population()[j];
                    if j < i {
                        assert(handed(before.records(), first, e, delta));
                        let p = choose|p: int|
                            first <= p && handed_at(before.records(), p, e, delta);
                        assert(self.records()[p] == before.records()[p]);
                        assert(first <= p && handed_at(self.records(), p, e, delta));
                    } else {
                        let p = choose|p: int|
                            taken.records().len() <= p && handed_at(self.records(), p, e, delta);
                        assert(first <= p && handed_at(self.records(), p, e, delta));
                    }
                }
            }
            i += 1;
        }
        assert(self.slots().skip(0) =~= self.slots());
        assert(origin.slots().take(n as int) =~= origin.slots());
        proof {
            lemma_after_visits_ids(origin.slots(), added, origin.next_handle());
        }
        let ghost visited = *self;
        let draws = self.map.draw_calls();
        self.map.clear();
        proof {
            let lived = old(self).survivor_slots();
            let written = old(self).grid().after_strokes(strokes);
            assert(self.slots() == after_visits(lived, added, old(self).next_handle()));
            assert(draws@ == written.draws());
            assert(self.grid() == written.cleared());
            assert forall|k: int| 0 <= k < old(self).survivors().len() implies handed(
                self.records(),
                old(self).records().len() as int,
                #[trigger] old(self).survivors()[k],
                delta,
            ) by {
                assert(origin.population()[k] == old(self).survivors()[k]);
            }
        }
        draws
    }
}

impl<E> World<E> {
    /// Whether `handle[k]` is what `add_entity` returned on `before[k]`,
    /// leaving `after[k]`, for each `k`, and the next handle was not lowered
    /// between one call and the next.
    pub open spec fn adds_in_turn(
        before: Seq<World<E>>,
        handle: Seq<i64>,
        after: Seq<World<E>>,
    ) -> bool {
        &&& before.len() == handle.len()
        &&& after.len() == handle.len()
        &&& forall|k: int|
            0 <= k < handle.len() ==> #[trigger] handle[k] == before[k].next_handle()
        &&& forall|k: int|
            0 <= k < handle.len() ==> (#[trigger] after[k]).next_handle() == handle[k] + 1
        &&& forall|k: int|
            0 <= k < handle.len() - 1 ==> (#[trigger] after[k]).next_handle() <= before[k
                + 1].next_handle()
    }

    /// Handles grow. Take any number of calls of `add_entity`, the world
    /// `before[k]` on which the call `k` was made, the handle `handle[k]`
    /// that it returned and the world `after[k]` that it left. Each call
    /// returned the next handle of its world and left the handle behind it
    /// as the next. Where nothing that was done between two of the calls
    /// lowered the next handle, as nothing in this crate does, the handles
    /// increase strictly from call to call, and no two are the same.
    pub proof fn lemma_handles_increase(
        before: Seq<World<E>>,
        handle: Seq<i64>,
        after: Seq<World<E>>,
    )
        requires
            Self::adds_in_turn(before, handle, after),
        ensures
            forall|i: int, j: int|
                0 <= i < j < handle.len() ==> #[trigger] handle[i] < #[trigger] handle[j],
            forall|i: int, j: int|
                0 <= i < handle.len() && 0 <= j < handle.len() && i != j
                    ==> #[trigger] handle[i] != #[trigger] handle[j],
    {
        assert forall|i: int, j: int| 0 <= i < j < handle.len() implies #[trigger] handle[i]
            < #[trigger] handle[j] by {
            Self::lemma_handles_between(before, handle, after, i, j);
        }
        assert forall|i: int, j: int|
            0 <= i < handle.len() && 0 <= j < handle.len() && i != j implies #[trigger] handle[i]
            != #[trigger] handle[j] by {
            if i < j {
                assert(handle[i] < handle[j]);
            } else {
                assert(handle[j] < handle[i]);
            }
        }
    }

    proof fn lemma_handles_between(
        before: Seq<World<E>>,
        handle: Seq<i64>,
        after: Seq<World<E>>,
        i: int,
        j: int,
    )
        requires
            Self::adds_in_turn(before, handle, after),
            0 <= i < j < handle.len(),
        ensures
            handle[i] < handle[j],
        decreases j - i,
    {
        assert(after[j - 1].next_handle() == handle[j - 1] + 1);
        assert(after[j - 1].next_handle() <= before[j].next_handle());
        assert(handle[j] == before[j].next_handle());
        if i < j - 1 {
            Self::lemma_handles_between(before, handle, after, i, j - 1);
        }
    }

    /// Start once. In a consistent world no entity was started twice, every
    /// update of an entity came after its start, and an entity that is
    /// registered is marked as started exactly if its start was called; one
    /// that is not marked was not called at all.
    pub proof fn lemma_start_once(self)
        requires
            self.wf(),
        ensures
            starts_once(self.calls()),
            updates_follow_start(self.calls()),
            forall|k: int|
                0 <= k < self.slots().len() ==> ((#[trigger] self.slots()[k]).started
                    <==> self.calls().contains(Call::Start { id: self.slots()[k].id })),
            forall|k: int|
                0 <= k < self.slots().len() && !(#[trigger] self.slots()[k]).started
                    ==> !mentions(self.calls(), self.slots()[k].id),
    {
        let calls = self.calls();
        assert forall|k: int| 0 <= k < self.slots().len() implies {
            &&& (#[trigger] self.slots()[k]).started <==> calls.contains(
                Call::Start { id: self.slots()[k].id },
            )
            &&& !self.slots()[k].started ==> !mentions(calls, self.slots()[k].id)
        } by {
            let slot = self.slots()[k];
            let start = Call::Start { id: slot.id };
            assert(slot_ok(slot, self.attributes().dom(), self.next_handle(), calls));
            if calls.contains(start) {
                let a = choose|a: int| 0 <= a < calls.len() && calls[a] == start;
                assert(calls[a].id() == slot.id);
                assert(mentions(calls, slot.id));
            }
        }
    }

    /// Handles are not reused. In a consistent world every registered entity
    /// has a handle of its own, below the handle that is given out next, and
    /// below that handle are the handles of all bags and of all hook calls
    /// that were made.
    pub proof fn lemma_handles_are_taken(self)
        requires
            self.wf(),
        ensures
            distinct_ids(self.slots()),
            forall|k: int|
                0 <= k < self.slots().len() ==> 0 <= (#[trigger] self.slots()[k]).id
                    < self.next_handle(),
            forall|a: int|
                0 <= a < self.calls().len() ==> 0 <= (#[trigger] self.calls()[a]).id()
                    < self.next_handle(),
            forall|id: i64| #[trigger]
                self.attributes().contains_key(id) ==> 0 <= id < self.next_handle(),
    {
        let bags = self.attributes().dom();
        let slots = self.slots();
        assert forall|k: int| 0 <= k < slots.len() implies 0 <= (#[trigger] slots[k]).id
            < self.next_handle() by {
            assert(slot_ok(slots[k], bags, self.next_handle(), self.calls()));
        }
        assert forall|id: i64| #[trigger] self.attributes().contains_key(id) implies 0 <= id
            < self.next_handle() by {
            assert(bags.contains(id));
        }
    }

    /// What is pending leaves. No entity whose removal is pending is among
    /// those that the next tick visits, so what a hook asks to remove in one
    /// tick, and finds pending when that tick is over, is not visited in the
    /// next.
    pub proof fn lemma_pending_leave(self, id: i64)
        requires
            self.pending().contains(id),
        ensures
            forall|k: int|
                0 <= k < self.survivors().len() ==> (#[trigger] self.survivors()[k])@.id != id,
            !ids_of(self.survivor_slots()).contains(id),
    {
        let left = self.survivors();
        assert forall|k: int| 0 <= k < left.len() implies (#[trigger] left[k])@.id != id by {
            self.population().lemma_filter_pred(stays(self.pending()), k);
        }
        if ids_of(self.survivor_slots()).contains(id) {
            let ids = ids_of(self.survivor_slots());
            let k = choose|k: int| 0 <= k < ids.len() && ids[k] == id;
            assert(left[k]@.id == id);
        }
    }

    /// Behaviors are handed on. In a consistent world every hook was handed
    /// the behavior that the hook called before it for the same entity left,
    /// and every started entity holds the behavior that its last hook left:
    /// no entity ever got the behavior of another.
    pub proof fn lemma_behaviors_are_handed_on(self)
        requires
            self.wf(),
        ensures
            hands_on(self.records()),
            settled(self.population(), self.records()),
    {
    }

    /// The pending removals of a consistent world are the last that were
    /// asked for.
    pub proof fn lemma_pending_is_latest(self)
        requires
            self.wf(),
        ensures
            self.pending_is_latest(),
    {
    }

    /// Removal is deferred. Where `next` is this world after `remove_entity`
    /// was called with `id` (the same entities, one more pending handle),
    /// the next tick visits what it would have visited without the call but
    /// for the entity `id`: the others in the same order, that entity not at
    /// all. Asking twice is asking once.
    pub proof fn lemma_removal_is_deferred(self, next: World<E>, id: i64)
        requires
            next.population() == self.population(),
            next.pending() == self.pending().push(id),
        ensures
            next.survivors() == self.survivors().filter(is_not(id)),
            forall|k: int|
                0 <= k < next.survivors().len() ==> (#[trigger] next.survivors()[k])@.id != id,
            self.pending().contains(id) ==> next.survivors() == self.survivors(),
    {
        lemma_one_more_removal(self.population(), self.pending(), id);
        let left = next.survivors();
        assert forall|k: int| 0 <= k < left.len() implies (#[trigger] left[k])@.id != id by {
            self.survivors().lemma_filter_pred(is_not(id), k);
        }
        if self.pending().contains(id) {
            let sooner = stays::<E>(self.pending());
            let later = stays::<E>(next.pending());
            assert forall|e: EntityData<E>| #[trigger] later(e) == sooner(e) by {
                vstd::seq_lib::lemma_seq_contains_after_push(self.pending(), id, e@.id);
            }
            assert(later =~= sooner);
        }
    }

    /// Late adds wait. The hook calls of a tick are for entities that were
    /// registered when the tick began and whose removal was not pending
    /// then. An entity that a hook adds during the tick has a handle that
    /// was not given out when the tick began, so the tick calls no hook of
    /// it.
    pub proof fn lemma_tick_visits_survivors_only(self, delta: u64)
        requires
            self.wf(),
        ensures
            forall|p: int|
                0 <= p < tick_calls(self.survivor_slots(), delta).len() ==> {
                    &&& 0 <= (#[trigger] tick_calls(self.survivor_slots(), delta)[p]).id()
                        < self.next_handle()
                    &&& ids_of(self.slots()).contains(
                        tick_calls(self.survivor_slots(), delta)[p].id(),
                    )
                    &&& !self.pending().contains(tick_calls(self.survivor_slots(), delta)[p].id())
                },
    {
        let calls = tick_calls(self.survivor_slots(), delta);
        self.lemma_handles_are_taken();
        assert forall|p: int| 0 <= p < calls.len() implies {
            &&& 0 <= (#[trigger] calls[p]).id() < self.next_handle()
            &&& ids_of(self.slots()).contains(calls[p].id())
            &&& !self.pending().contains(calls[p].id())
        } by {
            lemma_tick_calls_its_slots(self.survivor_slots(), delta, p);
            let k = choose|k: int| is_slot_of(self.survivor_slots(), k, calls[p]);
            let e = self.survivors()[k];
            assert(self.survivor_slots()[k] == e@);
            self.population().lemma_filter_pred(stays(self.pending()), k);
            assert(stays::<E>(self.pending())(e));
            self.population().lemma_filter_contains_rev(stays(self.pending()), e);
            assert(self.population().contains(e));
            let j = choose|j: int| 0 <= j < self.population().len() && self.population()[j] == e;
            assert(self.slots()[j] == e@);
            assert(ids_of(self.slots())[j] == e@.id);
        }
    }
}

/// Asking for one more removal takes from those that stay the entity that
/// was named, and nothing else: the others stay, in order.
proof fn lemma_one_more_removal<E>(all: Seq<EntityData<E>>, pending: Seq<i64>, id: i64)
    ensures
        all.filter(stays(pending.push(id))) == all.filter(stays(pending)).filter(is_not(id)),
    decreases all.len(),
{
    reveal(Seq::filter);
    if all.len() == 0 {
        assert(all.filter(stays(pending)) =~= all);
    } else {
        let last = all.last();
        let rest = all.drop_last();
        lemma_one_more_removal(rest, pending, id);
        vstd::seq_lib::lemma_seq_contains_after_push(pending, id, last@.id);
        if stays::<E>(pending)(last) {
            rest.filter(stays(pending)).lemma_filter_push(last, is_not(id));
        }
    }
}

} // verus!
