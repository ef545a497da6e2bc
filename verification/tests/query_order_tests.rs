use division_ecs::query::{entity_component, ordered_component};
use division_ecs::{Archetype, ComponentData, ComponentType, Entity, Store};

const TEST_GROUP: u64 = 7;

// TestComponent1 { val: f32 }
fn ordered_comp1_type() -> ComponentType {
    ComponentType::of(1, 4, 4, "TestComponent1")
}

fn ordered_comp1(val: f32) -> ComponentData {
    ComponentData { component_type: ordered_comp1_type(), bytes: val.to_le_bytes().to_vec() }
}

#[test]
fn query_will_iterate_with_expected_components_order() {
    let mut store = Store::new();

    let mut expected: Vec<(Entity, ComponentData)> = (0..10)
        .map(|i| {
            let e = store.create_entity();
            let c = ordered_comp1(i as f32);
            store.add_entity_order_by(e, TEST_GROUP);
            store.add_components(e, &[ordered_comp1(i as f32)]);
            (e, c)
        })
        .collect();

    store.destroy_entity(expected.remove(0).0);
    store.destroy_entity(expected.remove(2).0);
    let last = expected.len() - 1;
    store.destroy_entity(expected.remove(last).0);

    let expected: Vec<Vec<u8>> = expected.into_iter().map(|(_, c)| c.bytes).collect();

    let query = ordered_component::readonly(TEST_GROUP, vec![ordered_comp1_type()]);
    let mut iter = store.ordered_query_iter(&query);
    assert_eq!(iter.len(), expected.len());

    let mut actual: Vec<Vec<u8>> = Vec::new();
    while let Some((_, values)) = iter.next() {
        actual.push(values[0].clone());
    }

    assert_eq!(actual, expected);
}

#[test]
fn with_entities_iter_as_expected() {
    let mut store = Store::new();

    let expected: Vec<(Entity, Vec<u8>)> = (0..5)
        .map(|i| {
            let e = store.create_entity();
            store.add_entity_order_by(e, TEST_GROUP);
            store.add_components(e, &[ordered_comp1(i as f32)]);
            (e, ordered_comp1(i as f32).bytes)
        })
        .collect();

    let query = ordered_component::readonly(TEST_GROUP, vec![ordered_comp1_type()]);
    let mut iter = store.ordered_query_iter(&query);

    let mut actual: Vec<(Entity, Vec<u8>)> = Vec::new();
    while let Some((e, values)) = iter.next() {
        actual.push((e, values[0].clone()));
    }

    assert_eq!(actual, expected);
}

// TestComponent1 { x: f32, y: u128 }
fn pair_comp1_type() -> ComponentType {
    ComponentType::of(11, 20, 4, "TestComponent1")
}

fn pair_comp1(x: f32, y: u128) -> ComponentData {
    let mut bytes = x.to_le_bytes().to_vec();
    bytes.extend_from_slice(&y.to_le_bytes());
    ComponentData { component_type: pair_comp1_type(), bytes }
}

// TestComponent2 { value: f64 }
fn pair_comp2_type() -> ComponentType {
    ComponentType::of(12, 8, 8, "TestComponent2")
}

fn pair_comp2(value: f64) -> ComponentData {
    ComponentData { component_type: pair_comp2_type(), bytes: value.to_le_bytes().to_vec() }
}

fn usize_type() -> ComponentType {
    ComponentType::of(13, 8, 8, "usize")
}

#[test]
fn entity_component_query_iter_will_not_iterate_over_invalid_entities() {
    let mut store = Store::new();
    let mut valid_entities: Vec<(Entity, Vec<u8>, Vec<u8>)> = Vec::new();
    let mut invalid_entities: Vec<Entity> = Vec::new();

    let mut create_valid_entity = |store: &mut Store, i: usize| {
        let e = store.create_entity();
        let comp1 = pair_comp1(i as f32, i as u128 * 2);
        let comp2 = pair_comp2(i as f64 * 3.);
        store.add_components(e, &[pair_comp1(i as f32, i as u128 * 2), pair_comp2(i as f64 * 3.)]);
        (e, comp1.bytes, comp2.bytes)
    };

    for i in 0..7 {
        let v = create_valid_entity(&mut store, i);
        valid_entities.push(v);
    }
    let invalid_arch = Archetype::with_components(&[usize_type()]);
    for _ in 7..15 {
        invalid_entities.push(store.create_entity_with_archetype(&invalid_arch));
    }
    for i in 15..21 {
        let v = create_valid_entity(&mut store, i);
        valid_entities.push(v);
    }

    let all_entities: Vec<Entity> = valid_entities
        .iter()
        .map(|(e, _, _)| *e)
        .chain(invalid_entities.into_iter())
        .collect();

    let query = entity_component::readonly(vec![pair_comp1_type(), pair_comp2_type()]);

    let mut i = 0;
    let mut iter = store.entity_component_query_iter(&all_entities, &query).with_entities();
    while let Some((actual_entity, values)) = iter.next() {
        let (expected_entity, expected_val1, expected_val2) = &valid_entities[i];

        assert_eq!(*expected_entity, actual_entity);
        assert_eq!(*expected_val1, values[0]);
        assert_eq!(*expected_val2, values[1]);

        i += 1;
    }

    assert_eq!(i, valid_entities.len());
}

#[test]
fn entity_component_query_iter_order_as_expected() {
    let mut store = Store::new();
    let mut entities: Vec<Entity> = Vec::new();
    let mut component_values: Vec<Vec<u8>> = Vec::new();
    let archetype1 = Archetype::with_components(&[pair_comp1_type(), pair_comp2_type()]);
    let archetype2 = Archetype::with_components(&[pair_comp2_type()]);
    let arch1_entity_count = 51;
    let arch2_entity_count = 48;

    let last_index_after_first_destroy = arch1_entity_count + arch2_entity_count - 2;
    let entities_indices_to_destroy = [0, last_index_after_first_destroy, 32, 72];

    let mut create_entity_with_component =
        |store: &mut Store, archetype: &Archetype, entities: &mut Vec<Entity>, values: &mut Vec<Vec<u8>>| {
            let e = store.create_entity_with_archetype(archetype);
            let comp = pair_comp2(e.id() as f64);
            store.add_components(e, &[pair_comp2(e.id() as f64)]);
            entities.push(e);
            values.push(comp.bytes);
        };

    for _ in 0..arch1_entity_count {
        create_entity_with_component(&mut store, &archetype1, &mut entities, &mut component_values);
    }
    for _ in 0..arch2_entity_count {
        create_entity_with_component(&mut store, &archetype2, &mut entities, &mut component_values);
    }

    for i in entities_indices_to_destroy {
        store.destroy_entity(entities.remove(i));
        component_values.remove(i);
    }

    for i in 0..entities.len() - 1 {
        if i % 3 == 0 {
            let x = i;
            let y = i * 17 % entities.len();
            entities.swap(x, y);
            component_values.swap(x, y);
        }
    }

    let query = entity_component::readonly(vec![pair_comp2_type()]);

    let mut i = 0;
    let mut iter = store.entity_component_query_iter(&entities, &query).with_entities();
    while let Some((e, values)) = iter.next() {
        assert_eq!(e, entities[i]);
        assert_eq!(values[0], component_values[i]);
        i += 1;
    }

    assert_eq!(entities.len(), i);
}
