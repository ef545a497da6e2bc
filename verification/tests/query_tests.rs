use division_ecs::query::component;
use division_ecs::query::entity_component;
use division_ecs::query::ordered_component;
use division_ecs::{Archetype, ComponentData, ComponentType, Store};

fn position_type() -> ComponentType {
    ComponentType::of(1, 8, 4, "Position")
}

fn rotation_type() -> ComponentType {
    ComponentType::of(2, 8, 8, "Rotation")
}

fn u64_type() -> ComponentType {
    ComponentType::of(64, 8, 8, "u64")
}

#[test]
fn component_query_visits_every_matching_entity_once() {
    let mut store = Store::new();
    let arch0 = Archetype::with_components(&[position_type(), rotation_type()]);
    let arch1 = Archetype::with_components(&[position_type(), rotation_type(), u64_type()]);

    let mut expected = Vec::new();
    for _ in 0..3 {
        expected.push(store.create_entity_with_archetype(&arch0));
    }
    for _ in 0..2 {
        expected.push(store.create_entity_with_archetype(&arch1));
    }
    // an entity without the queried components is not visited
    let other = Archetype::with_components(&[u64_type()]);
    store.create_entity_with_archetype(&other);

    let query = component::readonly(vec![position_type(), rotation_type()]);
    let mut iter = store.component_query_iter(&query).with_entities();
    assert_eq!(iter.len(), 5);

    let mut seen = Vec::new();
    while let Some((e, values)) = iter.next() {
        assert_eq!(values.len(), 2);
        assert_eq!(values[0].len(), 8);
        assert_eq!(values[1].len(), 8);
        seen.push(e);
    }
    assert_eq!(seen.len(), 5);
    for e in &expected {
        assert_eq!(seen.iter().filter(|s| s.id() == e.id()).count(), 1);
    }
}

#[test]
fn entity_component_query_preserves_input_order_and_filters() {
    let mut store = Store::new();
    let arch = Archetype::with_components(&[position_type()]);

    let e0 = store.create_entity_with_archetype(&arch);
    let e1 = store.create_entity();
    let e2 = store.create_entity_with_archetype(&arch);
    let e3 = store.create_entity_with_archetype(&arch);
    store.destroy_entity(e3);

    let query = entity_component::readonly(vec![position_type()]);
    let input = [e2, e1, e0, e3];
    let mut iter = store.entity_component_query_iter(&input, &query);

    let (first, _) = iter.next().unwrap();
    assert_eq!(first, e2);
    let (second, _) = iter.next().unwrap();
    assert_eq!(second, e0);
    assert!(iter.next().is_none());
}

#[test]
fn ordered_query_follows_group_links_and_skips_destroyed() {
    const GROUP: u64 = 42;
    let mut store = Store::new();
    let arch = Archetype::with_components(&[position_type()]);

    let mut entities = Vec::new();
    for _ in 0..10 {
        let e = store.create_entity_with_archetype(&arch);
        store.add_entity_order_by(e, GROUP);
        entities.push(e);
    }
    store.destroy_entity(entities[0]);
    store.destroy_entity(entities[2]);
    store.destroy_entity(entities[9]);

    let query = ordered_component::readonly(GROUP, vec![position_type()]);
    let mut iter = store.ordered_query_iter(&query);
    assert_eq!(iter.len(), 7);

    let expected: Vec<_> = entities
        .iter()
        .enumerate()
        .filter(|(i, _)| *i != 0 && *i != 2 && *i != 9)
        .map(|(_, e)| *e)
        .collect();
    let mut k = 0;
    while let Some((e, _)) = iter.next() {
        assert_eq!(e, expected[k]);
        k += 1;
    }
    assert_eq!(k, 7);
}

#[test]
fn filter_tag_keeps_only_tagged_entities() {
    const TAG: u64 = 9;
    let mut store = Store::new();
    let arch = Archetype::with_components(&[position_type()]);

    let mut tagged = Vec::new();
    for i in 0..20 {
        let e = store.create_entity_with_archetype(&arch);
        if i % 10 == 0 {
            store.add_tag(e, TAG);
            tagged.push(e);
        }
    }

    let query = component::readonly(vec![position_type()]);
    let iter = store.component_query_iter(&query).with_entities();
    let mut filtered = iter.filter_tag(&store, TAG);
    assert_eq!(filtered.len(), 2);
    while let Some((e, _)) = filtered.next() {
        assert!(tagged.iter().any(|t| t.id() == e.id()));
    }
}

fn position(x: f32, y: f32) -> ComponentData {
    let mut bytes = x.to_le_bytes().to_vec();
    bytes.extend_from_slice(&y.to_le_bytes());
    ComponentData { component_type: position_type(), bytes }
}

fn rotation(angle: f64) -> ComponentData {
    ComponentData { component_type: rotation_type(), bytes: angle.to_le_bytes().to_vec() }
}

fn u64_value(v: u64) -> ComponentData {
    ComponentData { component_type: u64_type(), bytes: v.to_le_bytes().to_vec() }
}

#[test]
fn query_test_write_and_read_query_test() {
    let mut store = Store::new();

    let expected_data = [
        (position(10., 20.), rotation(90.)),
        (position(0., 20.), rotation(180.)),
    ];

    let e0 = store.create_entity();
    store.add_components(e0, &[position(0., 0.), rotation(0.)]);
    let e1 = store.create_entity();
    store.add_components(e1, &[position(0., 0.), rotation(0.), u64_value(1)]);
    let mut entities = Vec::new();

    // the write pass: visit every (Position, Rotation) row and store the
    // expected values
    let write_query = component::write(vec![position_type(), rotation_type()]);
    let mut iter = store.component_query_iter(&write_query).with_entities();
    let mut to_write = Vec::new();
    let mut iter_count = 0;
    while let Some((e, _)) = iter.next() {
        entities.push(e);
        let (expected_pos, expected_rot) = &expected_data[iter_count];
        to_write.push((e, expected_pos.bytes.clone(), expected_rot.bytes.clone()));
        iter_count += 1;
    }
    assert_eq!(iter_count, expected_data.len());
    for (e, pos_bytes, rot_bytes) in to_write {
        store.add_components(
            e,
            &[
                ComponentData { component_type: position_type(), bytes: pos_bytes },
                ComponentData { component_type: rotation_type(), bytes: rot_bytes },
            ],
        );
    }

    // unrelated entities must not show up
    let f32_type = ComponentType::of(32, 4, 4, "f32");
    let other = store.create_entity();
    store.add_components(
        other,
        &[
            ComponentData { component_type: f32_type, bytes: vec![0; 4] },
            u64_value(0),
        ],
    );
    let other2 = store.create_entity();
    store.add_components(
        other2,
        &[
            ComponentData { component_type: f32_type, bytes: vec![0; 4] },
            u64_value(0),
        ],
    );

    let read_query = component::readonly(vec![position_type(), rotation_type()]);
    let mut iter = store.component_query_iter(&read_query).with_entities();
    let mut iter_count = 0;
    while let Some((e, values)) = iter.next() {
        iter_count += 1;
        let e_idx = entities.iter().position(|e_check| *e_check == e).unwrap();
        let (expected_pos, expected_rot) = &expected_data[e_idx];
        assert_eq!(values[0], expected_pos.bytes);
        assert_eq!(values[1], expected_rot.bytes);
    }
    assert_eq!(iter_count, expected_data.len());
}

#[test]
fn ordered_query_reads_assigned_values_in_order() {
    const GROUP: u64 = 42;
    let mut store = Store::new();

    let mut entities = Vec::new();
    for i in 0..10u64 {
        let e = store.create_entity();
        store.add_components(e, &[u64_value(i)]);
        store.add_entity_order_by(e, GROUP);
        entities.push(e);
    }
    store.destroy_entity(entities[0]);
    store.destroy_entity(entities[2]);
    store.destroy_entity(entities[9]);

    let query = ordered_component::readonly(GROUP, vec![u64_type()]);
    let mut iter = store.ordered_query_iter(&query);
    assert_eq!(iter.len(), 7);

    let expected: Vec<u64> = (0..10u64).filter(|i| *i != 0 && *i != 2 && *i != 9).collect();
    let mut k = 0;
    while let Some((e, values)) = iter.next() {
        assert_eq!(e, entities[expected[k] as usize]);
        assert_eq!(values[0], expected[k].to_le_bytes().to_vec());
        k += 1;
    }
    assert_eq!(k, 7);
}

#[test]
fn data_page_size_is_fixed() {
    assert_eq!(Store::data_page_size(), 16384);
}
