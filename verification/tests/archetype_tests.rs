use division_ecs::{Archetype, ArchetypeBuilder, ComponentType};

fn test_type1() -> ComponentType {
    ComponentType::of(1, 4, 4, "TestType1")
}

fn test_type2() -> ComponentType {
    ComponentType::of(2, 4, 4, "TestType2")
}

fn test_type3() -> ComponentType {
    ComponentType::of(3, 4, 4, "TestType3")
}

fn u64_type() -> ComponentType {
    ComponentType::of(64, 8, 8, "u64")
}

fn f32_type() -> ComponentType {
    ComponentType::of(32, 4, 4, "f32")
}

#[test]
fn archetype_tests_archetype_has_component_when_it_build_with_it() {
    let archetype = Archetype::with_components(&[test_type1(), test_type3()]);

    assert_eq!(archetype.component_count(), 2);
    assert!(archetype.has_component(test_type1().id()));
    assert!(archetype.has_component(test_type2().id()) == false);
    assert!(archetype.has_component(test_type3().id()));
}

#[test]
fn archetype_tests_archetype_include_as_expected() {
    let arch_to_extend = Archetype::with_components(&[test_type3(), u64_type()]);

    let arch = ArchetypeBuilder::new()
        .include_components(&[test_type1(), test_type2()])
        .include_archetype(&arch_to_extend)
        .build();

    assert!(arch.is_include(&arch_to_extend));

    let not_extended_archetype = Archetype::with_components(&[f32_type()]);

    assert!(arch.is_include(&not_extended_archetype) == false);
}

#[test]
fn archetype_exclude_as_expected() {
    let arch = Archetype::with_components(&[test_type1(), u64_type()]);
    let arch_to_be_excluded = Archetype::with_components(&[test_type2(), test_type3()]);

    assert!(arch.is_exclude(&arch_to_be_excluded));

    let arch_with_one_match_type = ArchetypeBuilder::new()
        .include_archetype(&arch_to_be_excluded)
        .include_components(&[u64_type()])
        .build();

    assert!(arch.is_exclude(&arch_with_one_match_type) == false);

    let arch_with_one_match_type = ArchetypeBuilder::new()
        .include_archetype(&arch_to_be_excluded)
        .include_components(&[test_type1()])
        .build();

    assert!(arch.is_exclude(&arch_with_one_match_type) == false);

    let same_types_arch = ArchetypeBuilder::new().include_archetype(&arch).build();

    assert!(arch.is_exclude(&same_types_arch) == false);
}

#[test]
fn archetype_is_same_as_true_only_with_same_set_of_types() {
    let a1 = Archetype::with_components(&[test_type1(), test_type2()]);

    let a2 = a1.clone();

    assert!(a1.is_same_as(&a2));

    let a3 = Archetype::with_components(&[test_type1(), test_type3()]);

    assert!(a1.is_same_as(&a3) == false);
}

#[test]
fn archetype_builder_exclude_removes_types() {
    let arch = ArchetypeBuilder::new()
        .include_components(&[test_type1(), test_type2(), test_type3()])
        .exclude_components(&[test_type2()])
        .build();

    assert_eq!(arch.component_count(), 2);
    assert!(arch.has_component(test_type1().id()));
    assert!(!arch.has_component(test_type2().id()));
    assert!(arch.has_component(test_type3().id()));
}

#[test]
fn archetype_included_ids_sorted() {
    let arch = Archetype::with_components(&[test_type3(), test_type1(), test_type2()]);
    let ids = arch.included_ids();
    assert_eq!(ids, vec![1, 2, 3]);
}

#[test]
fn archetype_union_matches_common_ids() {
    let arch0 = Archetype::with_components(&[test_type1(), test_type2(), test_type3()]);
    let arch1 = Archetype::with_components(&[test_type1(), test_type3()]);

    let union = division_ecs::ArchetypesUnion::calculate(&arch0, &arch1);

    assert_eq!(union.len(), 2);
    assert_eq!(union.lhs_indices, vec![0, 2]);
    assert_eq!(union.rhs_indices, vec![0, 1]);
}
