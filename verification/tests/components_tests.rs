use division_ecs::{Archetype, ComponentData, ComponentType, Store};

// TestComponent1 { value: i32 }
fn test_component1_type() -> ComponentType {
    ComponentType::of(1, 4, 4, "TestComponent1")
}

// TestComponent2 { value: f64 }
fn test_component2_type() -> ComponentType {
    ComponentType::of(2, 8, 8, "TestComponent2")
}

fn u64_type() -> ComponentType {
    ComponentType::of(64, 8, 8, "u64")
}

fn u128_type() -> ComponentType {
    ComponentType::of(128, 16, 16, "u128")
}

fn f32_type() -> ComponentType {
    ComponentType::of(32, 4, 4, "f32")
}

fn test_component1(value: i32) -> ComponentData {
    ComponentData { component_type: test_component1_type(), bytes: value.to_le_bytes().to_vec() }
}

fn test_component1_new(i: usize) -> ComponentData {
    test_component1(i as i32)
}

fn test_component2(value: f64) -> ComponentData {
    ComponentData { component_type: test_component2_type(), bytes: value.to_le_bytes().to_vec() }
}

fn test_component2_new(i: usize) -> ComponentData {
    test_component2((i * 2) as f64)
}

fn u64_component(value: u64) -> ComponentData {
    ComponentData { component_type: u64_type(), bytes: value.to_le_bytes().to_vec() }
}

fn u128_component(value: u128) -> ComponentData {
    ComponentData { component_type: u128_type(), bytes: value.to_le_bytes().to_vec() }
}

#[test]
fn registry_set_value_for_entity_as_expected() {
    let entities_capacity = 255;
    let mut store = Store::with_capacity(entities_capacity);
    let archetype = Archetype::with_components(&[u64_type(), u128_type()]);

    let u64_values: Vec<u64> = (0..entities_capacity).map(|v| v as u64).collect();
    let u128_values: Vec<u128> =
        (0..entities_capacity).map(|v| (entities_capacity + v) as u128).collect();

    let mut entities = Vec::new();
    for i in 0..entities_capacity {
        let entity = store.create_entity_with_archetype(&archetype);
        entities.push(entity);
        store.add_components(
            entity,
            &[u64_component(u64_values[i]), u128_component(u128_values[i])],
        );
    }

    for i in 0..entities_capacity {
        let entity = entities[i];
        let values = store
            .get_components_refs(entity, &[u64_type(), u128_type()])
            .unwrap();
        assert_eq!(values[0], u64_values[i].to_le_bytes().to_vec());
        assert_eq!(values[1], u128_values[i].to_le_bytes().to_vec());
    }
}

#[test]
fn registry_get_component_ref_mut_is_none_if_component_doesnt_exist() {
    let mut store = Store::new();
    let archetype = Archetype::with_components(&[u64_type(), u128_type()]);

    let entity = store.create_entity_with_archetype(&archetype);
    assert!(store.get_components_refs_mut(entity, &[f32_type()]).is_none());
}

#[test]
fn registry_get_component_ref_mut_is_none_if_entity_doesnt_alive() {
    let mut registry = Store::new();
    let archetype = Archetype::with_components(&[u64_type()]);

    let entity = registry.create_entity_with_archetype(&archetype);
    registry.destroy_entity(entity);

    assert!(registry.get_components_refs_mut(entity, &[u64_type()]).is_none());
}

#[test]
fn registry_destroy_component_after_internal_page_swap_remove_as_expected() {
    let mut registry = Store::new();
    let archetype = Archetype::with_components(&[test_component1_type(), test_component2_type()]);

    let mut entity_to_swap_remove = None;
    let mut swapped_entity = None;
    for i in 0..4 {
        let e = registry.create_entity_with_archetype(&archetype);
        registry.add_components(e, &[test_component1_new(i), test_component2_new(i)]);
        match i {
            1 => entity_to_swap_remove = Some(e),
            3 => swapped_entity = Some((e, test_component1_new(i), test_component2_new(i))),
            _ => {}
        }
    }

    let entity_to_swap_remove = entity_to_swap_remove.unwrap();
    let (swapped_entity, expected1, expected2) = swapped_entity.unwrap();

    registry.destroy_entity(entity_to_swap_remove);

    let values = registry
        .get_components_refs_mut(swapped_entity, &[test_component1_type(), test_component2_type()])
        .unwrap();
    assert_eq!(values[0], expected1.bytes);
    assert_eq!(values[1], expected2.bytes);
}

#[test]
fn add_components_to_empty_archetype_changes_it_respectively() {
    let mut store = Store::new();
    let e = store.create_entity();

    store.add_components(e, &[test_component1(0), test_component2(0.)]);

    let arch = store.get_entity_archetype(e).unwrap();

    assert!(arch.is_include_only_ids(&[test_component1_type().id(), test_component2_type().id()]));
}

#[test]
fn add_components_values_as_expected() {
    let mut store = Store::new();
    let e = store.create_entity();

    let expected1 = test_component1(364);
    let expected2 = test_component2(31.);

    store.add_components(e, &[test_component1(364)]);
    store.add_components(e, &[test_component2(31.)]);

    let values = store
        .get_components_refs(e, &[test_component1_type(), test_component2_type()])
        .unwrap();

    assert_eq!(values[0], expected1.bytes);
    assert_eq!(values[1], expected2.bytes);
}

#[test]
fn add_components_with_intersected_types_as_expected() {
    let mut store = Store::new();
    let e0 = store.create_entity();
    let e1 = store.create_entity();

    store.add_components(e0, &[test_component1_new(1)]);
    store.add_components(e1, &[test_component2_new(15)]);
    store.add_components(e0, &[u64_component(15)]);
    store.add_components(e1, &[test_component1_new(2)]);

    let values0 = store
        .get_components_refs(e0, &[test_component1_type(), u64_type()])
        .unwrap();
    let values1 = store
        .get_components_refs(e1, &[test_component2_type(), test_component1_type()])
        .unwrap();

    assert_eq!(values0[0], test_component1_new(1).bytes);
    assert_eq!(values0[1], u64_component(15).bytes);
    assert_eq!(values1[0], test_component2_new(15).bytes);
    assert_eq!(values1[1], test_component1_new(2).bytes);
}

#[test]
fn add_components_values_work_with_different_archetypes() {
    let mut store = Store::new();
    let e1 = store.create_entity();

    store.add_components(e1, &[test_component1(364)]);

    let e2 = store.create_entity();
    store.add_components(e2, &[test_component2(31.)]);

    let actual1 = store.get_components_refs(e1, &[test_component1_type()]).unwrap();
    let actual2 = store.get_components_refs(e2, &[test_component2_type()]).unwrap();

    assert!(store
        .get_entity_archetype(e1)
        .unwrap()
        .is_include_only_ids(&[test_component1_type().id()]));
    assert!(store
        .get_entity_archetype(e2)
        .unwrap()
        .is_include_only_ids(&[test_component2_type().id()]));

    assert_eq!(actual1[0], test_component1(364).bytes);
    assert_eq!(actual2[0], test_component2(31.).bytes);
}

#[test]
fn remove_components_archetype_will_not_contain_erased_types() {
    let mut store = Store::new();
    let entity = store.create_entity();

    store.add_components(entity, &[test_component1(0), test_component2(0.)]);
    store.remove_components(entity, &[test_component2_type()]);

    let arch = store.get_entity_archetype(entity).unwrap();

    assert!(arch.is_exclude_ids(&[test_component2_type().id()]));
    assert!(arch.is_include_ids(&[test_component1_type().id()]));
}

#[test]
fn remove_components_archetype_values_as_expected() {
    let mut store = Store::new();
    let entity = store.create_entity();
    let expected_comp = test_component2_new(33);

    store.add_components(entity, &[test_component1(0), test_component2_new(33)]);
    store.remove_components(entity, &[test_component1_type()]);

    let comp2 = store.get_components_refs(entity, &[test_component2_type()]).unwrap();

    assert_eq!(comp2[0], expected_comp.bytes);
}

#[test]
fn remove_every_component_leaves_entity_without_archetype() {
    let mut store = Store::new();
    let entity = store.create_entity();

    store.add_components(entity, &[test_component1(7)]);
    store.remove_components(entity, &[test_component1_type()]);

    assert!(store.is_alive(entity));
    assert!(store.get_entity_archetype(entity).is_none());
}
