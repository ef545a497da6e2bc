use division_ecs::Store;

const TEST_TAG: u64 = 11;
const OTHER_TEST_TAG: u64 = 12;

#[test]
fn add_remove_tag_as_expected() {
    let mut store = Store::new();

    let e = store.create_entity();
    store.add_tag(e, TEST_TAG);

    assert!(store.has_tag(e, TEST_TAG));

    store.remove_tag(e, TEST_TAG);

    assert!(store.has_tag(e, TEST_TAG) == false);
}

#[test]
fn add_one_tag_doesnt_affect_on_other() {
    let mut store = Store::new();

    let e = store.create_entity();
    store.add_tag(e, TEST_TAG);
    store.add_tag(e, OTHER_TEST_TAG);

    assert!(store.has_tag(e, TEST_TAG));
    assert!(store.has_tag(e, OTHER_TEST_TAG));

    store.remove_tag(e, OTHER_TEST_TAG);

    assert!(store.has_tag(e, TEST_TAG));
    assert!(store.has_tag(e, OTHER_TEST_TAG) == false);

    store.remove_tag(e, TEST_TAG);

    assert!(store.has_tag(e, TEST_TAG) == false);
    assert!(store.has_tag(e, OTHER_TEST_TAG) == false);
}
