use augr::MemStore;
use augr::Operation;
use augr::Patch;
use augr::Repository;
use augr::Store;
use augr::StoreError;

fn add_event(device: &str, at: u64, start: u64, tags: Vec<&str>) -> Patch {
    Patch::new(device.to_string(), at, Operation::AddEvent {
        start,
        tags: tags.into_iter().map(|t| t.to_string()).collect(),
    })
}

#[test]
fn add_patch_is_idempotent() {
    let store = MemStore::new("a".to_string());
    let mut repo = Repository::from_store(store);
    let p = add_event("a", 1, 100, vec!["work"]);
    let p2 = p.clone_patch();
    assert!(repo.add_patch(p).is_ok());
    assert!(repo.add_patch(p2).is_ok());
    let store = repo.into_store();
    assert_eq!(store.list_patch_refs().len(), 1);
}

#[test]
fn divergent_content_under_one_name_is_detected() {
    let mut store = MemStore::new("a".to_string());
    let p = add_event("a", 1, 100, vec![]);
    store.put_patch_bytes(p.patch_ref().clone_ref(), vec![1, 2, 3]);
    let mut repo = Repository::from_store(store);
    let r = repo.add_patch(p);
    match r {
        Err(StoreError::PatchMismatch { .. }) => {},
        _ => panic!("expected a mismatch error"),
    }
}

#[test]
fn tampered_patch_file_is_rejected() {
    let mut store = MemStore::new("a".to_string());
    let p = add_event("a", 1, 100, vec!["work"]);
    let mut bytes = p.encode();
    let last = bytes.len() - 1;
    bytes[last] ^= 0x01;
    store.put_patch_bytes(p.patch_ref().clone_ref(), bytes);
    match store.get_patch(p.patch_ref()) {
        Err(StoreError::DeserializePatch { .. }) => {},
        other => panic!("expected a corruption error, got {:?}", other.is_ok()),
    }
}

#[test]
fn missing_patch_is_not_found() {
    let store = MemStore::new("a".to_string());
    let p = add_event("a", 1, 100, vec![]);
    match store.get_patch(p.patch_ref()) {
        Err(StoreError::NotFound { .. }) => {},
        _ => panic!("expected not found"),
    }
}

#[test]
fn partial_sync_recovers_everything_it_can() {
    let mut store = MemStore::new("a".to_string());
    let good1 = add_event("a", 1, 100, vec!["one"]);
    let good2 = add_event("a", 2, 200, vec!["two"]);
    let bad = add_event("a", 3, 300, vec!["three"]);
    let mut bytes = bad.encode();
    bytes[40] ^= 0xff;
    store.put_patch_bytes(bad.patch_ref().clone_ref(), bytes);
    let mut repo = Repository::from_store(store);
    assert!(repo.add_patch(good1).is_ok());
    assert!(repo.add_patch(good2).is_ok());
    let r = repo.try_sync_data();
    match r {
        Err(errors) => assert_eq!(errors.len(), 1),
        Ok(()) => panic!("sync should report the corrupt file"),
    }
    let graph = repo.timesheet();
    assert_eq!(graph.len(), 2);
    let t = graph.flatten().expect("no conflicts");
    assert_eq!(t.events.len(), 2);
}

#[test]
fn sync_converges_across_devices() {
    // Device a writes one patch into the shared folder.
    let store_a = MemStore::new("a".to_string());
    let mut repo_a = Repository::from_store(store_a);
    let p1 = add_event("a", 1, 100, vec!["alpha"]);
    assert!(repo_a.add_patch(p1).is_ok());
    assert!(repo_a.try_sync_data().is_ok());
    assert!(repo_a.save_meta().is_ok());
    let sheet_a = format!("{:?}", repo_a.timesheet().flatten().unwrap().events);

    // Device b sees the same folder, adds its own patch, and syncs.
    let store_b = repo_a.into_store().with_device_id("b".to_string());
    let mut repo_b = Repository::from_store(store_b);
    let p2 = add_event("b", 2, 200, vec!["beta"]);
    assert!(repo_b.add_patch(p2).is_ok());
    assert!(repo_b.try_sync_data().is_ok());
    assert!(repo_b.save_meta().is_ok());
    assert_eq!(repo_b.meta.known_patches.len(), 2);

    // One more round on device a converges both views.
    let store_a2 = repo_b.into_store().with_device_id("a".to_string());
    let mut repo_a2 = Repository::from_store(store_a2);
    assert!(repo_a2.try_sync_data().is_ok());
    assert!(repo_a2.save_meta().is_ok());
    assert_eq!(repo_a2.meta.known_patches.len(), 2);

    let sheet_a2 = format!("{:?}", repo_a2.timesheet().flatten().unwrap().events);
    let store_b2 = repo_a2.into_store().with_device_id("b".to_string());
    let mut repo_b2 = Repository::from_store(store_b2);
    assert!(repo_b2.try_sync_data().is_ok());
    let sheet_b2 = format!("{:?}", repo_b2.timesheet().flatten().unwrap().events);
    assert_eq!(sheet_a2, sheet_b2);
    assert_ne!(sheet_a, sheet_a2);
}

#[test]
fn meta_starts_empty_and_grows() {
    let store = MemStore::new("fresh".to_string());
    let meta = store.get_meta(&"fresh".to_string());
    assert_eq!(meta.known_patches.len(), 0);
    let mut repo = Repository::from_store(store);
    let p = add_event("fresh", 1, 5, vec![]);
    let r = p.patch_ref().clone_ref();
    assert!(repo.add_patch(p).is_ok());
    assert!(repo.meta.contains(&r));
}
