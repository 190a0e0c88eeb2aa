use crossterm::style::Color;
use engine::DrawCall;
use engine::Entity;
use engine::World;
use std::cell::RefCell;
use std::rc::Rc;

#[derive(Debug, PartialEq)]
struct Health {
    hp: u32,
}

#[derive(Debug, PartialEq)]
struct Faction {
    enemy: bool,
}

/// What a probe does in its update hook.
enum Plan {
    Nothing,
    /// Asks what stands at the cell, notes the answer, then writes the cell.
    Paint { at: (i32, i32), glyph: char, leave_after: Option<u32> },
    /// Adds one idle child in its first update.
    Spawn,
    /// Adds a child in its start hook and one more in its first update.
    SpawnTwice,
    /// Asks for its own removal in every update.
    Leave,
    /// Asks for the removal of another entity in its first update.
    Evict(i64),
}

struct Probe {
    name: String,
    notes: Rc<RefCell<Vec<String>>>,
    plan: Plan,
    updates: u32,
}

fn probe(name: &str, notes: &Rc<RefCell<Vec<String>>>, plan: Plan) -> Probe {
    Probe { name: name.to_string(), notes: notes.clone(), plan, updates: 0 }
}

fn taken(notes: &Rc<RefCell<Vec<String>>>) -> Vec<String> {
    notes.borrow_mut().drain(..).collect()
}

fn ids(world: &World<Probe>) -> Vec<i64> {
    world.entities().iter().map(|e| e.id).collect()
}

fn marks(world: &World<Probe>) -> Vec<bool> {
    world.entities().iter().map(|e| e.started()).collect()
}

impl Entity for Probe {
    fn start(&mut self, world: &mut World<Self>, id: i64) {
        self.notes.borrow_mut().push(format!("start {} {}", self.name, id));
        if let Plan::SpawnTwice = self.plan {
            world.add_entity(probe("early", &self.notes, Plan::Nothing));
        }
    }

    fn update(&mut self, delta: u64, world: &mut World<Self>, id: i64) {
        self.notes.borrow_mut().push(format!("update {} {} {}", self.name, id, delta));
        self.updates += 1;
        match self.plan {
            Plan::Nothing => {}
            Plan::Paint { at, glyph, leave_after } => {
                let seen = world.query_map(at);
                self.notes.borrow_mut().push(format!("sees {:?}", seen));
                world.write(at, glyph, Color::Blue, id);
                if leave_after == Some(self.updates) {
                    world.remove_entity(id);
                }
            }
            Plan::Spawn => {
                if self.updates == 1 {
                    world.add_entity(probe("child", &self.notes, Plan::Nothing));
                }
            }
            Plan::SpawnTwice => {
                if self.updates == 1 {
                    world.add_entity(probe("late", &self.notes, Plan::Nothing));
                }
            }
            Plan::Leave => {
                world.remove_entity(id);
            }
            Plan::Evict(other) => {
                if self.updates == 1 {
                    world.remove_entity(other);
                }
            }
        }
    }
}

struct Still;

impl Entity for Still {}

#[test]
fn new_world_is_empty() {
    let mut world: World<Still> = World::new(25, 15);
    assert!(world.entities().is_empty());
    assert_eq!(world.map().width(), 25);
    assert_eq!(world.map().height(), 15);
    assert_eq!(world.input().current_input, None);
    assert_eq!(world.input().last_input, None);
    assert!(world.has_free_handle());
    assert!(!world.is_registered(0));
    assert!(world.update_entities(1).is_empty());
    assert!(world.entities().is_empty());
}

#[test]
fn default_hooks_do_nothing() {
    let mut world: World<Still> = World::new(4, 4);
    assert_eq!(world.add_entity(Still), 0);
    assert!(world.update_entities(5).is_empty());
    assert_eq!(world.entities().len(), 1);
    assert!(world.entities()[0].started());
    assert!(world.is_registered(0));
}

#[test]
fn handles_are_distinct_and_increase() {
    let notes = Rc::new(RefCell::new(Vec::new()));
    let mut world: World<Probe> = World::new(25, 15);
    let mut given = Vec::new();
    for _ in 0..50 {
        given.push(world.add_entity(probe("p", &notes, Plan::Nothing)));
    }
    let expected: Vec<i64> = (0..50).collect();
    assert_eq!(given, expected);
    for i in 0..given.len() {
        for j in (i + 1)..given.len() {
            assert!(given[i] < given[j]);
        }
    }
    assert_eq!(ids(&world), expected);
    assert_eq!(marks(&world), vec![false; 50]);
}

#[test]
fn handle_of_a_removed_entity_is_not_given_again() {
    let notes = Rc::new(RefCell::new(Vec::new()));
    let mut world: World<Probe> = World::new(25, 15);
    let a = world.add_entity(probe("a", &notes, Plan::Nothing));
    let b = world.add_entity(probe("b", &notes, Plan::Nothing));
    world.remove_entity(a);
    world.remove_entity(b);
    world.update_entities(1);
    assert!(world.entities().is_empty());
    let c = world.add_entity(probe("c", &notes, Plan::Nothing));
    assert_eq!((a, b, c), (0, 1, 2));
}

#[test]
fn add_entity_only_keeps_books() {
    let notes = Rc::new(RefCell::new(Vec::new()));
    let mut world: World<Probe> = World::new(25, 15);
    let id = world.add_entity(probe("a", &notes, Plan::Nothing));
    assert_eq!(taken(&notes), Vec::<String>::new());
    assert_eq!(world.entities().len(), 1);
    assert_eq!(world.entities()[0].id, id);
    assert!(!world.entities()[0].started());
    assert!(world.is_registered(id));
    assert_eq!(world.get_component::<Health>(id), None);
}

#[test]
fn start_runs_once_and_before_the_first_update() {
    let notes = Rc::new(RefCell::new(Vec::new()));
    let mut world: World<Probe> = World::new(25, 15);
    world.add_entity(probe("a", &notes, Plan::Nothing));
    world.add_entity(probe("b", &notes, Plan::Nothing));
    world.update_entities(11);
    assert_eq!(taken(&notes), vec!["start a 0", "update a 0 11", "start b 1", "update b 1 11"]);
    assert_eq!(marks(&world), vec![true, true]);
    world.update_entities(12);
    assert_eq!(taken(&notes), vec!["update a 0 12", "update b 1 12"]);
    world.update_entities(13);
    assert_eq!(taken(&notes), vec!["update a 0 13", "update b 1 13"]);
    assert_eq!(ids(&world), vec![0, 1]);
}

#[test]
fn removal_waits_for_the_next_tick() {
    let notes = Rc::new(RefCell::new(Vec::new()));
    let mut world: World<Probe> = World::new(25, 15);
    let a = world.add_entity(probe("a", &notes, Plan::Leave));
    let b = world.add_entity(probe("b", &notes, Plan::Nothing));
    world.update_entities(1);
    assert_eq!(taken(&notes), vec!["start a 0", "update a 0 1", "start b 1", "update b 1 1"]);
    assert_eq!(ids(&world), vec![a, b]);
    assert_eq!(world.pending_removals(), &vec![a]);
    assert!(world.is_registered(a));
    world.update_entities(2);
    assert_eq!(taken(&notes), vec!["update b 1 2"]);
    assert_eq!(ids(&world), vec![b]);
    assert!(world.pending_removals().is_empty());
    assert!(!world.is_registered(a));
    assert!(world.is_registered(b));
}

#[test]
fn removal_from_outside_a_tick_keeps_the_slot_until_the_tick() {
    let notes = Rc::new(RefCell::new(Vec::new()));
    let mut world: World<Probe> = World::new(25, 15);
    let a = world.add_entity(probe("a", &notes, Plan::Nothing));
    world.remove_entity(a);
    world.remove_entity(a);
    assert_eq!(ids(&world), vec![a]);
    assert!(world.is_registered(a));
    world.update_entities(1);
    assert_eq!(taken(&notes), Vec::<String>::new());
    assert!(world.entities().is_empty());
    assert!(!world.is_registered(a));
}

#[test]
fn entity_evicted_later_in_the_tick_is_still_updated() {
    let notes = Rc::new(RefCell::new(Vec::new()));
    let mut world: World<Probe> = World::new(25, 15);
    world.add_entity(probe("a", &notes, Plan::Evict(1)));
    world.add_entity(probe("b", &notes, Plan::Nothing));
    world.update_entities(1);
    assert_eq!(taken(&notes), vec!["start a 0", "update a 0 1", "start b 1", "update b 1 1"]);
    assert_eq!(ids(&world), vec![0, 1]);
    world.update_entities(2);
    assert_eq!(taken(&notes), vec!["update a 0 2"]);
    assert_eq!(ids(&world), vec![0]);
}

#[test]
fn removal_of_an_unknown_handle_does_nothing() {
    let notes = Rc::new(RefCell::new(Vec::new()));
    let mut world: World<Probe> = World::new(25, 15);
    world.add_entity(probe("a", &notes, Plan::Nothing));
    world.remove_entity(17);
    world.remove_entity(-3);
    world.update_entities(1);
    assert_eq!(taken(&notes), vec!["start a 0", "update a 0 1"]);
    assert_eq!(ids(&world), vec![0]);
    assert_eq!(world.add_entity(probe("b", &notes, Plan::Nothing)), 1);
}

#[test]
fn entity_added_in_a_tick_waits_for_the_next() {
    let notes = Rc::new(RefCell::new(Vec::new()));
    let mut world: World<Probe> = World::new(25, 15);
    world.add_entity(probe("parent", &notes, Plan::Spawn));
    world.add_entity(probe("other", &notes, Plan::Nothing));
    world.update_entities(1);
    assert_eq!(
        taken(&notes),
        vec!["start parent 0", "update parent 0 1", "start other 1", "update other 1 1"]
    );
    assert_eq!(ids(&world), vec![2, 0, 1]);
    assert_eq!(marks(&world), vec![false, true, true]);
    assert!(world.is_registered(2));
    world.update_entities(2);
    assert_eq!(
        taken(&notes),
        vec!["start child 2", "update child 2 2", "update parent 0 2", "update other 1 2"]
    );
    assert_eq!(ids(&world), vec![2, 0, 1]);
    assert_eq!(marks(&world), vec![true, true, true]);
}

#[test]
fn entities_added_in_start_and_update_take_the_next_handles() {
    let notes = Rc::new(RefCell::new(Vec::new()));
    let mut world: World<Probe> = World::new(25, 15);
    world.add_entity(probe("a", &notes, Plan::SpawnTwice));
    world.add_entity(probe("b", &notes, Plan::SpawnTwice));
    world.update_entities(1);
    assert_eq!(
        taken(&notes),
        vec!["start a 0", "update a 0 1", "start b 1", "update b 1 1"]
    );
    assert_eq!(ids(&world), vec![2, 3, 0, 4, 5, 1]);
    assert_eq!(marks(&world), vec![false, false, true, false, false, true]);
    world.update_entities(2);
    assert_eq!(
        taken(&notes),
        vec![
            "start early 2",
            "update early 2 2",
            "start late 3",
            "update late 3 2",
            "update a 0 2",
            "start early 4",
            "update early 4 2",
            "start late 5",
            "update late 5 2",
            "update b 1 2",
        ]
    );
}

#[test]
fn entity_added_and_removed_before_its_first_tick_never_runs() {
    let notes = Rc::new(RefCell::new(Vec::new()));
    let mut world: World<Probe> = World::new(25, 15);
    let a = world.add_entity(probe("a", &notes, Plan::Nothing));
    world.remove_entity(a);
    world.update_entities(1);
    world.update_entities(2);
    assert_eq!(taken(&notes), Vec::<String>::new());
}

#[test]
fn attribute_is_overwritten_and_others_are_absent() {
    let mut world: World<Still> = World::new(25, 15);
    let h = world.add_entity(Still);
    world.set_component(h, Health { hp: 1 });
    world.set_component(h, Health { hp: 2 });
    assert_eq!(world.get_component::<Health>(h), Some(&mut Health { hp: 2 }));
    assert_eq!(world.get_component::<Faction>(h), None);
}

#[test]
fn attribute_is_changed_in_place() {
    let mut world: World<Still> = World::new(25, 15);
    let h = world.add_entity(Still);
    world.set_component(h, Health { hp: 10 });
    world.set_component(h, Faction { enemy: true });
    match world.get_component::<Health>(h) {
        Some(health) => health.hp -= 4,
        None => panic!("the attribute was set"),
    }
    assert_eq!(world.get_component::<Health>(h), Some(&mut Health { hp: 6 }));
    assert_eq!(world.get_component::<Faction>(h), Some(&mut Faction { enemy: true }));
}

#[test]
fn attributes_of_two_entities_are_apart() {
    let mut world: World<Still> = World::new(25, 15);
    let a = world.add_entity(Still);
    let b = world.add_entity(Still);
    world.set_component(a, Health { hp: 1 });
    assert_eq!(world.get_component::<Health>(b), None);
    world.set_component(b, Health { hp: 2 });
    assert_eq!(world.get_component::<Health>(a), Some(&mut Health { hp: 1 }));
    assert_eq!(world.get_component::<Health>(b), Some(&mut Health { hp: 2 }));
}

#[test]
fn attribute_of_an_unknown_handle_is_dropped() {
    let mut world: World<Still> = World::new(25, 15);
    world.set_component(3, Health { hp: 1 });
    assert_eq!(world.get_component::<Health>(3), None);
    assert!(!world.is_registered(3));
    let h = world.add_entity(Still);
    assert_eq!(h, 0);
    world.add_entity(Still);
    world.add_entity(Still);
    assert_eq!(world.add_entity(Still), 3);
    assert_eq!(world.get_component::<Health>(3), None);
}

#[test]
fn attributes_leave_with_the_entity() {
    let mut world: World<Still> = World::new(25, 15);
    let h = world.add_entity(Still);
    world.set_component(h, Health { hp: 5 });
    world.remove_entity(h);
    assert_eq!(world.get_component::<Health>(h), Some(&mut Health { hp: 5 }));
    world.update_entities(1);
    assert_eq!(world.get_component::<Health>(h), None);
    world.set_component(h, Health { hp: 6 });
    assert_eq!(world.get_component::<Health>(h), None);
}

#[test]
fn world_answers_occupancy_from_the_frame_before() {
    let mut world: World<Still> = World::new(25, 15);
    world.write((3, 4), 'x', Color::Red, 12);
    assert_eq!(world.query_map((3, 4)), Vec::<i64>::new());
    let draws = world.update_entities(1);
    assert_eq!(draws, vec![DrawCall { column: 3, row: 4, glyph: 'x', color: Color::Red }]);
    assert_eq!(world.query_map((3, 4)), vec![12]);
    assert_eq!(world.query_map((3, 5)), Vec::<i64>::new());
    assert_eq!(world.query_map((-9, 99)), Vec::<i64>::new());
}

#[test]
fn one_entity_from_first_tick_to_silence() {
    let notes = Rc::new(RefCell::new(Vec::new()));
    let mut world: World<Probe> = World::new(25, 15);
    let star = DrawCall { column: 10, row: 10, glyph: '*', color: Color::Blue };
    let blank = DrawCall { column: 10, row: 10, glyph: ' ', color: Color::Black };
    let e1 = world.add_entity(
        probe("e1", &notes, Plan::Paint { at: (10, 10), glyph: '*', leave_after: Some(2) }),
    );

    let draws = world.update_entities(40);
    assert_eq!(taken(&notes), vec!["start e1 0", "update e1 0 40", "sees []"]);
    assert_eq!(draws, vec![star]);
    assert_eq!(world.query_map((10, 10)), vec![e1]);

    let draws = world.update_entities(41);
    assert_eq!(taken(&notes), vec!["update e1 0 41", "sees [0]"]);
    assert_eq!(draws, vec![star]);
    assert_eq!(ids(&world), vec![e1]);

    assert_eq!(world.pending_removals(), &vec![e1]);
    let draws = world.update_entities(42);
    assert_eq!(taken(&notes), Vec::<String>::new());
    assert!(world.entities().is_empty());
    assert!(world.pending_removals().is_empty());
    assert_eq!(draws, vec![blank]);
    assert_eq!(world.query_map((10, 10)), Vec::<i64>::new());

    let draws = world.update_entities(43);
    assert_eq!(taken(&notes), Vec::<String>::new());
    assert_eq!(draws, Vec::<DrawCall>::new());
}

#[test]
fn tick_does_not_touch_the_keys() {
    let mut world: World<Still> = World::new(2, 2);
    world.advance_input(Some(crossterm::event::KeyCode::Left));
    world.add_entity(Still);
    world.update_entities(1);
    assert_eq!(world.input().current_input, Some(crossterm::event::KeyCode::Left));
    assert_eq!(world.input().last_input, None);
    assert!(!world.input().quit_requested());
}

#[test]
fn pending_holds_what_was_asked_since_the_tick_began() {
    let notes = Rc::new(RefCell::new(Vec::new()));
    let mut world: World<Probe> = World::new(25, 15);
    world.add_entity(probe("a", &notes, Plan::Evict(7)));
    world.add_entity(probe("b", &notes, Plan::Leave));
    world.remove_entity(5);
    world.remove_entity(5);
    assert_eq!(world.pending_removals(), &vec![5, 5]);
    world.update_entities(1);
    assert_eq!(world.pending_removals(), &vec![7, 1]);
    world.remove_entity(9);
    assert_eq!(world.pending_removals(), &vec![7, 1, 9]);
    world.update_entities(2);
    assert!(world.pending_removals().is_empty());
    assert_eq!(ids(&world), vec![0]);
}

#[test]
fn new_entity_has_no_attribute_of_any_type() {
    let mut world: World<Still> = World::new(25, 15);
    let h = world.add_entity(Still);
    assert_eq!(world.get_component::<Health>(h), None);
    assert_eq!(world.get_component::<Faction>(h), None);
    assert_eq!(world.get_component::<u8>(h), None);
}
