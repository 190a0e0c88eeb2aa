//! Attribute bags: for every registered handle a map from a type's key to
//! one value.
//!
//! The keyed store is generic in what it holds and is verified as it stands.
//! The world holds `Attribute` values in it: values of any type whose type
//! was forgotten, which only std can make and turn back.

use vstd::prelude::*;
use std::any::Any;
use std::any::TypeId;
use std::collections::HashMap;

verus! {

/// A value of any type behind `Box<dyn std::any::Any>`. Verus has no model of
/// `Any`, so nothing is known of what is inside.
#[verifier::external_body]
pub struct Attribute {
    value: Box<dyn Any>,
}

/// `Box::new`, with the box then taken as `Box<dyn Any>`: forgets the type of
/// `value`. Nothing is claimed of the result.
#[verifier::external_body]
pub(crate) fn erase<T: 'static>(value: T) -> Attribute {
    Attribute { value: Box::new(value) }
}

/// `<dyn Any>::downcast_mut`: the value inside, if it is a `T`. Claimed:
/// where the answer is `None`, the attribute is as it was.
#[verifier::external_body]
pub(crate) fn recall_mut<T: 'static>(attribute: &mut Attribute) -> (value: Option<&mut T>)
    ensures
        value is None ==> *final(attribute) == *old(attribute),
{
    attribute.value.downcast_mut::<T>()
}

/// `TypeId::of`, printed with `{:?}`: the key under which values of type `T`
/// are stored. Nothing is claimed of the result, not even that two calls
/// agree.
#[verifier::external_body]
pub(crate) fn type_key<T: 'static>() -> String {
    format!("{:?}", TypeId::of::<T>())
}

/// `HashMap::get_mut` on the bags of a store: the bag of `id`, to be changed
/// in place. Claimed: the answer is `Some` exactly where the map has the
/// key; the reference then points at the value stored under it, and the map
/// afterwards differs from the map before in that value only.
#[verifier::external_body]
fn bag_mut<V>(bags: &mut HashMap<i64, AttributeBag<V>>, id: i64) -> (bag: Option<
    &mut AttributeBag<V>,
>)
    ensures
        match bag {
            Some(b) => {
                &&& old(bags)@.contains_key(id)
                &&& *b == old(bags)@[id]
                &&& final(bags)@ == old(bags)@.insert(id, *final(b))
            },
            None => !old(bags)@.contains_key(id) && final(bags)@ == old(bags)@,
        },
{
    bags.get_mut(&id)
}

/// One attribute of a bag.
struct Entry<V> {
    key: String,
    value: V,
}

/// Whether `entries[i]` is stored under `key`.
spec fn has_key<V>(entries: Seq<Entry<V>>, i: int, key: Seq<char>) -> bool {
    0 <= i < entries.len() && entries[i].key@ == key
}

/// The index of the entry with key `key`, where there is one.
spec fn index_of<V>(entries: Seq<Entry<V>>, key: Seq<char>) -> int {
    choose|i: int| has_key(entries, i, key)
}

/// Whether no key stands twice in `entries`.
spec fn distinct_keys<V>(entries: Seq<Entry<V>>) -> bool {
    forall|i: int, j: int|
        0 <= i < j < entries.len() ==> (#[trigger] entries[i]).key@ != (#[trigger] entries[j]).key@
}

/// The map that `entries` stand for.
spec fn map_of<V>(entries: Seq<Entry<V>>) -> Map<Seq<char>, V> {
    Map::new(
        |key: Seq<char>| exists|i: int| has_key(entries, i, key),
        |key: Seq<char>| entries[index_of(entries, key)].value,
    )
}

/// Where no key stands twice, an entry is what the map holds under its key.
proof fn lemma_entry_is_mapped<V>(entries: Seq<Entry<V>>, i: int)
    requires
        distinct_keys(entries),
        0 <= i < entries.len(),
    ensures
        index_of(entries, entries[i].key@) == i,
        map_of(entries).contains_key(entries[i].key@),
        map_of(entries)[entries[i].key@] == entries[i].value,
{
    assert(has_key(entries, i, entries[i].key@));
}

/// Where `later` holds `value` under `key` at the place `at`, a place that
/// `sooner` has under the same key or does not have, and elsewhere what
/// `sooner` holds, the map of `later` is that of `sooner` with `value` under
/// `key`.
proof fn lemma_map_of_changed<V>(
    sooner: Seq<Entry<V>>,
    later: Seq<Entry<V>>,
    at: int,
    key: Seq<char>,
    value: V,
)
    requires
        distinct_keys(later),
        0 <= at < later.len(),
        later[at].key@ == key,
        later[at].value == value,
        forall|i: int| 0 <= i < sooner.len() && i != at ==> #[trigger] later[i] == sooner[i],
        later.len() == sooner.len() || (later.len() == sooner.len() + 1 && at == sooner.len()),
        at < sooner.len() ==> sooner[at].key@ == key,
    ensures
        map_of(later) == map_of(sooner).insert(key, value),
{
    let target = map_of(sooner).insert(key, value);
    assert(distinct_keys(sooner)) by {
        assert forall|i: int, j: int| 0 <= i < j < sooner.len() implies (#[trigger] sooner[i]).key@
            != (#[trigger] sooner[j]).key@ by {
            assert(later[i].key@ == sooner[i].key@);
            assert(later[j].key@ == sooner[j].key@);
        }
    }
    assert forall|k: Seq<char>| #[trigger]
        map_of(later).contains_key(k) == target.contains_key(k) by {
        if map_of(sooner).contains_key(k) {
            let i = index_of(sooner, k);
            assert(has_key(later, i, k));
        }
        if k == key {
            assert(has_key(later, at, k));
        }
        if map_of(later).contains_key(k) {
            let i = index_of(later, k);
            if i != at {
                assert(has_key(sooner, i, k));
            }
        }
    }
    assert forall|k: Seq<char>| map_of(later).contains_key(k) implies #[trigger] map_of(later)[k]
        == target[k] by {
        let i = index_of(later, k);
        lemma_entry_is_mapped(later, i);
        if i != at {
            assert(has_key(sooner, i, k));
            lemma_entry_is_mapped(sooner, i);
        }
    }
    assert(map_of(later) =~= target);
}

/// Adding an entry under a key that is not stored adds it to the map.
proof fn lemma_map_of_push<V>(entries: Seq<Entry<V>>, entry: Entry<V>)
    requires
        distinct_keys(entries),
        !map_of(entries).contains_key(entry.key@),
    ensures
        distinct_keys(entries.push(entry)),
        map_of(entries.push(entry)) == map_of(entries).insert(entry.key@, entry.value),
{
    let longer = entries.push(entry);
    assert forall|i: int, j: int| 0 <= i < j < longer.len() implies (#[trigger] longer[i]).key@
        != (#[trigger] longer[j]).key@ by {
        if j == entries.len() {
            assert(has_key(entries, i, entries[i].key@));
        } else {
            assert(entries[i].key@ != entries[j].key@);
        }
    }
    lemma_map_of_changed(entries, longer, entries.len() as int, entry.key@, entry.value);
}

/// Putting an entry in the place of one with the same key puts its value
/// under that key in the map.
proof fn lemma_map_of_update<V>(entries: Seq<Entry<V>>, i: int, entry: Entry<V>)
    requires
        distinct_keys(entries),
        0 <= i < entries.len(),
        entry.key@ == entries[i].key@,
    ensures
        distinct_keys(entries.update(i, entry)),
        map_of(entries.update(i, entry)) == map_of(entries).insert(entry.key@, entry.value),
{
    let changed = entries.update(i, entry);
    assert forall|a: int, b: int| 0 <= a < b < changed.len() implies (#[trigger] changed[a]).key@
        != (#[trigger] changed[b]).key@ by {
        assert(entries[a].key@ != entries[b].key@);
    }
    lemma_map_of_changed(entries, changed, i, entry.key@, entry.value);
}

/// The attributes of one handle: at most one value for each key.
///
/// The entries stand in a list that is searched from the front. A hash map
/// with `String` keys would do for the running program, but vstd's model of
/// `HashMap` says what a map holds only for keys that obey its key model,
/// which it grants to integers and not to `String`.
pub struct AttributeBag<V> {
    entries: Vec<Entry<V>>,
}

impl<V> View for AttributeBag<V> {
    type V = Map<Seq<char>, V>;

    closed spec fn view(&self) -> Map<Seq<char>, V> {
        map_of(self.entries@)
    }
}

impl<V> AttributeBag<V> {
    /// No key is stored twice.
    pub closed spec fn wf(&self) -> bool {
        distinct_keys(self.entries@)
    }

    /// A bag without attributes.
    pub fn new() -> (bag: AttributeBag<V>)
        ensures
            bag.wf(),
            bag@ == Map::<Seq<char>, V>::empty(),
    {
        let bag = AttributeBag { entries: Vec::new() };
        assert(bag@ =~= Map::<Seq<char>, V>::empty());
        bag
    }

    /// Where `key` is stored, if it is.
    fn position(&self, key: &String) -> (at: Option<usize>)
        requires
            self.wf(),
        ensures
            match at {
                Some(i) => i < self.entries@.len() && self.entries@[i as int].key@ == key@,
                None => !self@.contains_key(key@),
            },
    {
        let mut i: usize = 0;
        while i < self.entries.len()
            invariant
                i <= self.entries@.len(),
                forall|j: int| 0 <= j < i ==> (#[trigger] self.entries@[j]).key@ != key@,
            decreases self.entries@.len() - i,
        {
            if self.entries[i].key == *key {
                return Some(i);
            }
            i += 1;
        }
        None
    }

    /// Stores `value` under `key`, in place of what was stored under it.
    pub fn insert(&mut self, key: String, value: V)
        requires
            old(self).wf(),
        ensures
            final(self).wf(),
            final(self)@ == old(self)@.insert(key@, value),
    {
        match self.position(&key) {
            Some(i) => {
                proof {
                    lemma_map_of_update(self.entries@, i as int, Entry { key, value });
                }
                self.entries[i] = Entry { key, value };
            },
            None => {
                proof {
                    lemma_map_of_push(self.entries@, Entry { key, value });
                }
                self.entries.push(Entry { key, value });
            },
        }
    }

    /// The value stored under `key`, to be changed in place.
    pub fn get_mut(&mut self, key: &String) -> (value: Option<&mut V>)
        requires
            old(self).wf(),
        ensures
            final(self).wf(),
            match value {
                Some(v) => {
                    &&& old(self)@.contains_key(key@)
                    &&& *v == old(self)@[key@]
                    &&& final(self)@ == old(self)@.insert(key@, *final(v))
                },
                None => !old(self)@.contains_key(key@) && final(self)@ == old(self)@,
            },
    {
        match self.position(key) {
            Some(i) => {
                proof {
                    let entries = self.entries@;
                    let stored = entries[i as int].key;
                    lemma_entry_is_mapped(entries, i as int);
                    assert forall|v: V|
                        distinct_keys(
                            #[trigger] entries.update(i as int, Entry { key: stored, value: v }),
                        ) && map_of(entries.update(i as int, Entry { key: stored, value: v }))
                            == self@.insert(key@, v) by {
                        lemma_map_of_update(entries, i as int, Entry { key: stored, value: v });
                    }
                }
                Some(&mut self.entries[i].value)
            },
            None => None,
        }
    }
}

/// The bags of all registered handles.
pub struct AttributeStore<V> {
    bags: HashMap<i64, AttributeBag<V>>,
}

impl<V> View for AttributeStore<V> {
    type V = Map<i64, Map<Seq<char>, V>>;

    closed spec fn view(&self) -> Map<i64, Map<Seq<char>, V>> {
        Map::new(|id: i64| self.bags@.contains_key(id), |id: i64| self.bags@[id]@)
    }
}

impl<V> AttributeStore<V> {
    /// Every bag is well formed.
    pub closed spec fn wf(&self) -> bool {
        forall|id: i64| self.bags@.contains_key(id) ==> (#[trigger] self.bags@[id]).wf()
    }

    /// A store in which no handle is registered.
    pub fn new() -> (store: AttributeStore<V>)
        ensures
            store.wf(),
            store@ == Map::<i64, Map<Seq<char>, V>>::empty(),
    {
        let store = AttributeStore { bags: HashMap::new() };
        assert(store@ =~= Map::<i64, Map<Seq<char>, V>>::empty());
        store
    }

    /// Whether `id` has a bag.
    pub fn is_registered(&self, id: i64) -> (known: bool)
        ensures
            known == self@.contains_key(id),
    {
        self.bags.contains_key(&id)
    }

    /// Gives `id` an empty bag, in place of any bag it had.
    pub fn register(&mut self, id: i64)
        requires
            old(self).wf(),
        ensures
            final(self).wf(),
            final(self)@ == old(self)@.insert(id, Map::<Seq<char>, V>::empty()),
    {
        self.bags.insert(id, AttributeBag::new());
        assert(self@ =~= old(self)@.insert(id, Map::<Seq<char>, V>::empty()));
    }

    /// Takes the bag of `id` away, if it has one.
    pub fn dispose(&mut self, id: i64)
        requires
            old(self).wf(),
        ensures
            final(self).wf(),
            final(self)@ == old(self)@.remove(id),
    {
        self.bags.remove(&id);
        assert(self@ =~= old(self)@.remove(id));
    }

    /// Stores `value` under `key` in the bag of `id`, in place of what was
    /// stored under that key. Does nothing where `id` is not registered.
    pub fn insert(&mut self, id: i64, key: String, value: V)
        requires
            old(self).wf(),
        ensures
            final(self).wf(),
            final(self)@ == if old(self)@.contains_key(id) {
                old(self)@.insert(id, old(self)@[id].insert(key@, value))
            } else {
                old(self)@
            },
    {
        match self.bags.remove(&id) {
            Some(bag) => {
                let mut bag = bag;
                bag.insert(key, value);
                self.bags.insert(id, bag);
                assert(self@ =~= old(self)@.insert(id, old(self)@[id].insert(key@, value)));
            },
            None => {
                assert(self@ =~= old(self)@);
            },
        }
    }

    /// The value stored under `key` in the bag of `id`, to be changed in
    /// place: `None` where `id` is not registered or its bag has no such key.
    pub fn get_mut(&mut self, id: i64, key: &String) -> (value: Option<&mut V>)
        requires
            old(self).wf(),
        ensures
            final(self).wf(),
            match value {
                Some(v) => {
                    &&& old(self)@.contains_key(id)
                    &&& old(self)@[id].contains_key(key@)
                    &&& *v == old(self)@[id][key@]
                    &&& final(self)@ == old(self)@.insert(
                        id,
                        old(self)@[id].insert(key@, *final(v)),
                    )
                },
                None => {
                    &&& !(old(self)@.contains_key(id) && old(self)@[id].contains_key(key@))
                    &&& final(self)@ == old(self)@
                },
            },
    {
        match bag_mut(&mut self.bags, id) {
            Some(bag) => bag.get_mut(key),
            None => None,
        }
    }
}

} // verus!
