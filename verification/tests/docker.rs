use egressd::docker::FakeDocker;

#[test]
fn fake_create_list_remove() {
    let mut fake = FakeDocker::new();
    let id = fake.create("egressd-abc", "warpgate:local", "egressd-net");
    assert!(id.starts_with("cid-"));
    let list = fake.list_by_prefix("egressd-", true);
    assert_eq!(list.len(), 1);
    assert_eq!(list[0].name, "egressd-abc");
    assert!(fake.has_volume("egressd-abc-data"));
    assert!(fake.remove("egressd-abc"));
    assert_eq!(fake.list_by_prefix("egressd-", true).len(), 0);
    assert!(!fake.has_volume("egressd-abc-data"));
}

#[test]
fn fake_prefix_filter() {
    let mut fake = FakeDocker::new();
    fake.create("egressd-1", "img", "net");
    fake.create("warpgate-1", "img", "net");
    assert_eq!(fake.list_by_prefix("egressd-", true).len(), 1);
    assert_eq!(fake.list_by_prefix("warpgate-", true).len(), 1);
}

#[test]
fn fake_create_exact_shape() {
    let mut fake = FakeDocker::new();
    let id = fake.create("egressd-x", "img", "net");
    assert_eq!(id, "cid-egressd-x");
    assert!(fake.has_volume("egressd-x-data"));
    assert!(fake.has_volume("egressd-x-cache"));
    assert!(fake.has_container_named("egressd-x"));
    assert_eq!(fake.container_id_of("egressd-x").as_deref(), Some("cid-egressd-x"));
    let list = fake.list_by_prefix("", false);
    assert_eq!(list.len(), 1);
    assert_eq!(list[0].id, "cid-egressd-x");
    assert!(list[0].running);
}

#[test]
fn fake_remove_by_id_and_missing() {
    let mut fake = FakeDocker::new();
    fake.create("egressd-y", "img", "net");
    assert!(!fake.remove("nope"));
    assert!(fake.remove("cid-egressd-y"));
    assert!(!fake.has_container_named("egressd-y"));
    assert!(fake.container_id_of("egressd-y").is_none());
    // Removal by id leaves the volumes in place.
    assert!(fake.has_volume("egressd-y-cache"));
}

#[test]
fn fake_volumes_add_remove() {
    let mut fake = FakeDocker::new();
    fake.add_volume("v".to_string());
    fake.add_volume("v".to_string());
    assert!(fake.has_volume("v"));
    fake.remove_volume("v");
    assert!(!fake.has_volume("v"));
    fake.remove_volume("v");
    assert!(!fake.has_volume("v"));
}
