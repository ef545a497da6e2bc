use division_ecs::{Entity, Store};

const TEST_GROUP: u64 = 7;

#[test]
fn get_first_or_last_entity_ordered_by_returns_none_when_no_order_group() {
    let store = Store::new();

    assert_eq!(store.get_first_entity_ordered_by(TEST_GROUP), None);
    assert_eq!(store.get_last_entity_ordered_by(TEST_GROUP), None);
}

#[test]
fn add_entity_order_by_after_first_call_as_expected() {
    let mut store = Store::new();
    let entity = store.create_entity();

    store.add_entity_order_by(entity, TEST_GROUP);

    assert_eq!(store.get_first_entity_ordered_by(TEST_GROUP), Some(entity));
    assert_eq!(store.get_last_entity_ordered_by(TEST_GROUP), Some(entity));
    assert_eq!(store.get_next_entity_ordered_by(entity, TEST_GROUP), None);
    assert_eq!(store.get_previous_entity_ordered_by(entity, TEST_GROUP), None);
}

#[test]
fn add_entity_order_by_multiple_times_order_as_expected() {
    let mut store = Store::new();
    let e0 = store.create_entity();
    let e1 = store.create_entity();

    store.add_entity_order_by(e0, TEST_GROUP);
    store.add_entity_order_by(e1, TEST_GROUP);

    assert_two_entities_add_as_expected(&store, e0, e1);
}

#[test]
fn add_entity_order_by_multiple_times_after_resizing_order_as_expected() {
    let mut store = Store::with_capacity(1);

    let e0 = store.create_entity();
    let e1 = store.create_entity();

    store.add_entity_order_by(e0, TEST_GROUP);
    store.add_entity_order_by(e1, TEST_GROUP);

    assert_two_entities_add_as_expected(&store, e0, e1);
}

fn assert_two_entities_add_as_expected(store: &Store, e0: Entity, e1: Entity) {
    assert_eq!(store.get_first_entity_ordered_by(TEST_GROUP), Some(e0));
    assert_eq!(store.get_last_entity_ordered_by(TEST_GROUP), Some(e1));

    assert_eq!(store.get_next_entity_ordered_by(e0, TEST_GROUP), Some(e1));
    assert_eq!(store.get_previous_entity_ordered_by(e1, TEST_GROUP), Some(e0));

    assert_eq!(store.get_next_entity_ordered_by(e1, TEST_GROUP), None);
    assert_eq!(store.get_previous_entity_ordered_by(e0, TEST_GROUP), None);
}

#[test]
fn remove_entity_order_by_from_when_no_group_do_nothing() {
    let mut store = Store::new();
    let e0 = store.create_entity();

    store.remove_entity_order_by(e0, TEST_GROUP);

    assert!(store.is_alive(e0));
}

#[test]
fn remove_entity_order_by_after_first_add_as_expected() {
    let mut store = Store::new();
    let entity = store.create_entity();

    store.add_entity_order_by(entity, TEST_GROUP);
    store.remove_entity_order_by(entity, TEST_GROUP);

    assert_eq!(store.get_first_entity_ordered_by(TEST_GROUP), None);
    assert_eq!(store.get_last_entity_ordered_by(TEST_GROUP), None);
    assert_eq!(store.get_next_entity_ordered_by(entity, TEST_GROUP), None);
    assert_eq!(store.get_previous_entity_ordered_by(entity, TEST_GROUP), None);
}

#[test]
fn remove_entity_order_by_multiple_times_as_expected() {
    let mut store = Store::with_capacity(3);

    let e0 = store.create_entity();
    let e1 = store.create_entity();
    let e2 = store.create_entity();

    store.add_entity_order_by(e0, TEST_GROUP);
    store.add_entity_order_by(e1, TEST_GROUP);
    store.add_entity_order_by(e2, TEST_GROUP);

    store.remove_entity_order_by(e1, TEST_GROUP);

    assert_eq!(store.get_previous_entity_ordered_by(e1, TEST_GROUP), None);
    assert_eq!(store.get_next_entity_ordered_by(e1, TEST_GROUP), None);

    assert_eq!(store.get_next_entity_ordered_by(e0, TEST_GROUP), Some(e2));
    assert_eq!(store.get_previous_entity_ordered_by(e2, TEST_GROUP), Some(e0));

    assert_eq!(store.get_first_entity_ordered_by(TEST_GROUP), Some(e0));
    assert_eq!(store.get_last_entity_ordered_by(TEST_GROUP), Some(e2));

    assert_eq!(store.get_next_entity_ordered_by(e2, TEST_GROUP), None);
    assert_eq!(store.get_previous_entity_ordered_by(e0, TEST_GROUP), None);

    store.remove_entity_order_by(e0, TEST_GROUP);

    assert_eq!(store.get_previous_entity_ordered_by(e0, TEST_GROUP), None);
    assert_eq!(store.get_next_entity_ordered_by(e0, TEST_GROUP), None);

    assert_eq!(store.get_previous_entity_ordered_by(e1, TEST_GROUP), None);
    assert_eq!(store.get_next_entity_ordered_by(e1, TEST_GROUP), None);

    assert_eq!(store.get_previous_entity_ordered_by(e2, TEST_GROUP), None);
    assert_eq!(store.get_next_entity_ordered_by(e2, TEST_GROUP), None);

    assert_eq!(store.get_first_entity_ordered_by(TEST_GROUP), Some(e2));
    assert_eq!(store.get_last_entity_ordered_by(TEST_GROUP), Some(e2));

    store.remove_entity_order_by(e2, TEST_GROUP);

    assert_eq!(store.get_previous_entity_ordered_by(e0, TEST_GROUP), None);
    assert_eq!(store.get_next_entity_ordered_by(e0, TEST_GROUP), None);

    assert_eq!(store.get_previous_entity_ordered_by(e1, TEST_GROUP), None);
    assert_eq!(store.get_next_entity_ordered_by(e1, TEST_GROUP), None);

    assert_eq!(store.get_previous_entity_ordered_by(e2, TEST_GROUP), None);
    assert_eq!(store.get_next_entity_ordered_by(e2, TEST_GROUP), None);

    assert_eq!(store.get_first_entity_ordered_by(TEST_GROUP), None);
    assert_eq!(store.get_last_entity_ordered_by(TEST_GROUP), None);
}

#[test]
fn after_entity_destroy_order_is_removed_too() {
    let mut store = Store::new();

    let e0 = store.create_entity();
    let e1 = store.create_entity();
    let e2 = store.create_entity();

    store.add_entity_order_by(e0, TEST_GROUP);
    store.add_entity_order_by(e1, TEST_GROUP);
    store.add_entity_order_by(e2, TEST_GROUP);

    store.destroy_entity(e1);

    assert_eq!(store.get_next_entity_ordered_by(e0, TEST_GROUP), Some(e2));
    assert_eq!(store.get_previous_entity_ordered_by(e2, TEST_GROUP), Some(e0));
}

#[test]
fn add_entity_next_to_order_by_inserts_between() {
    let mut store = Store::new();
    let e0 = store.create_entity();
    let e1 = store.create_entity();
    let e2 = store.create_entity();

    store.add_entity_order_by(e0, TEST_GROUP);
    store.add_entity_order_by(e2, TEST_GROUP);
    store.add_entity_next_to_order_by(e1, e0, TEST_GROUP);

    assert_eq!(store.get_next_entity_ordered_by(e0, TEST_GROUP), Some(e1));
    assert_eq!(store.get_next_entity_ordered_by(e1, TEST_GROUP), Some(e2));
    assert_eq!(store.get_last_entity_ordered_by(TEST_GROUP), Some(e2));
}

#[test]
fn add_entity_previous_to_order_by_updates_head() {
    let mut store = Store::new();
    let e0 = store.create_entity();
    let e1 = store.create_entity();

    store.add_entity_order_by(e1, TEST_GROUP);
    store.add_entity_previous_to_order_by(e0, e1, TEST_GROUP);

    assert_eq!(store.get_first_entity_ordered_by(TEST_GROUP), Some(e0));
    assert_eq!(store.get_next_entity_ordered_by(e0, TEST_GROUP), Some(e1));
}
