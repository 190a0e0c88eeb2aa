use engine::attributes::AttributeBag;
use engine::attributes::AttributeStore;

fn key(name: &str) -> String {
    name.to_string()
}

#[test]
fn bag_keeps_one_value_for_each_key() {
    let mut bag: AttributeBag<u32> = AttributeBag::new();
    assert_eq!(bag.get_mut(&key("health")), None);
    bag.insert(key("health"), 10);
    bag.insert(key("faction"), 2);
    assert_eq!(bag.get_mut(&key("health")), Some(&mut 10));
    bag.insert(key("health"), 7);
    assert_eq!(bag.get_mut(&key("health")), Some(&mut 7));
    assert_eq!(bag.get_mut(&key("faction")), Some(&mut 2));
    assert_eq!(bag.get_mut(&key("speed")), None);
}

#[test]
fn bag_value_is_changed_in_place() {
    let mut bag: AttributeBag<u32> = AttributeBag::new();
    bag.insert(key("a"), 1);
    bag.insert(key("b"), 2);
    match bag.get_mut(&key("a")) {
        Some(value) => *value = 40,
        None => panic!("the key was stored"),
    }
    assert_eq!(bag.get_mut(&key("a")), Some(&mut 40));
    assert_eq!(bag.get_mut(&key("b")), Some(&mut 2));
}

#[test]
fn store_drops_what_is_set_for_an_unknown_handle() {
    let mut store: AttributeStore<u32> = AttributeStore::new();
    assert!(!store.is_registered(4));
    store.insert(4, key("health"), 10);
    assert!(!store.is_registered(4));
    assert_eq!(store.get_mut(4, &key("health")), None);
    store.register(4);
    assert!(store.is_registered(4));
    assert_eq!(store.get_mut(4, &key("health")), None);
}

#[test]
fn store_overwrites_and_keeps_bags_apart() {
    let mut store: AttributeStore<u32> = AttributeStore::new();
    store.register(0);
    store.register(1);
    store.insert(0, key("health"), 1);
    store.insert(0, key("health"), 2);
    store.insert(1, key("health"), 30);
    assert_eq!(store.get_mut(0, &key("health")), Some(&mut 2));
    assert_eq!(store.get_mut(1, &key("health")), Some(&mut 30));
    assert_eq!(store.get_mut(0, &key("faction")), None);
    assert_eq!(store.get_mut(2, &key("health")), None);
}

#[test]
fn store_value_is_changed_in_place() {
    let mut store: AttributeStore<u32> = AttributeStore::new();
    store.register(5);
    store.register(6);
    store.insert(5, key("health"), 10);
    store.insert(6, key("health"), 20);
    match store.get_mut(5, &key("health")) {
        Some(value) => *value -= 3,
        None => panic!("the attribute was stored"),
    }
    assert_eq!(store.get_mut(5, &key("health")), Some(&mut 7));
    assert_eq!(store.get_mut(6, &key("health")), Some(&mut 20));
}

#[test]
fn store_forgets_a_disposed_bag() {
    let mut store: AttributeStore<u32> = AttributeStore::new();
    store.register(1);
    store.register(2);
    store.insert(1, key("health"), 10);
    store.insert(2, key("health"), 20);
    store.dispose(1);
    assert!(!store.is_registered(1));
    assert!(store.is_registered(2));
    assert_eq!(store.get_mut(1, &key("health")), None);
    assert_eq!(store.get_mut(2, &key("health")), Some(&mut 20));
    store.dispose(1);
    store.dispose(9);
    assert!(store.is_registered(2));
}

#[test]
fn store_registering_again_empties_the_bag() {
    let mut store: AttributeStore<u32> = AttributeStore::new();
    store.register(1);
    store.insert(1, key("health"), 10);
    store.register(1);
    assert!(store.is_registered(1));
    assert_eq!(store.get_mut(1, &key("health")), None);
}
