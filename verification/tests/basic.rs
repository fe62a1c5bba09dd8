use augr::Operation;
use augr::Patch;

fn make_patch(device: &str, at: u64, op: Operation) -> Patch {
    Patch::new(device.to_string(), at, op)
}

#[test]
fn it_works() {
    assert_eq!(2 + 2, 4);
}

#[test]
fn patch_ref_is_deterministic() {
    let p = make_patch("alpha", 100, Operation::AddEvent { start: 100, tags: vec![
        "work".to_string(),
    ] });
    let q = make_patch("alpha", 100, Operation::AddEvent { start: 100, tags: vec![
        "work".to_string(),
    ] });
    assert_eq!(p.patch_ref().as_bytes(), q.patch_ref().as_bytes());
    assert_eq!(p.patch_ref().as_bytes().len(), 32);
}

#[test]
fn patch_ref_differs_for_different_content() {
    let p = make_patch("alpha", 100, Operation::AddEvent { start: 100, tags: vec![] });
    let q = make_patch("alpha", 101, Operation::AddEvent { start: 100, tags: vec![] });
    assert_ne!(p.patch_ref().as_bytes(), q.patch_ref().as_bytes());
}

#[test]
fn round_trip_reproduces_the_patch() {
    let p = make_patch("alpha", 7, Operation::AddEvent { start: 9, tags: vec![
        "a".to_string(),
        "b".to_string(),
    ] });
    let bytes = p.encode();
    let q = augr::patch::decode_patch_checked(p.patch_ref(), &bytes).expect("decode");
    assert_eq!(q.patch_ref().as_bytes(), p.patch_ref().as_bytes());
    assert_eq!(q.device_id(), p.device_id());
    assert_eq!(q.created_at(), p.created_at());
    match q.operation() {
        Operation::AddEvent { start, tags } => {
            assert_eq!(*start, 9);
            assert_eq!(tags, &vec!["a".to_string(), "b".to_string()]);
        },
        _ => panic!("wrong operation"),
    }
}

#[test]
fn round_trip_of_an_edit() {
    let creator = make_patch("alpha", 7, Operation::AddEvent { start: 9, tags: vec![] });
    let p = make_patch("beta", 8, Operation::SetEventStart {
        event_ref: creator.patch_ref().clone_ref(),
        start: 11,
    });
    let bytes = p.encode();
    let q = augr::patch::decode_patch_checked(p.patch_ref(), &bytes).expect("decode");
    match q.operation() {
        Operation::SetEventStart { event_ref, start } => {
            assert_eq!(event_ref.as_bytes(), creator.patch_ref().as_bytes());
            assert_eq!(*start, 11);
        },
        _ => panic!("wrong operation"),
    }
}

#[test]
fn big_endian_bytes_exact() {
    let mut out: Vec<u8> = Vec::new();
    augr::codec::push_be(&mut out, 1);
    assert_eq!(out, vec![0, 0, 0, 0, 0, 0, 0, 1]);
    let mut out2: Vec<u8> = Vec::new();
    augr::codec::push_be(&mut out2, 0x0102030405060708);
    assert_eq!(out2, vec![1, 2, 3, 4, 5, 6, 7, 8]);
    let back = augr::codec::read_be(&out2, 0).expect("read");
    assert_eq!(back.0, 0x0102030405060708);
    assert_eq!(back.1, 8);
}

#[test]
fn hex_names_exact() {
    let s = augr::sync_folder_store::hex_string(&vec![0u8, 255u8, 16u8]);
    assert_eq!(s, "00ff10");
}

#[test]
fn folder_paths() {
    let store = augr::SyncFolderStore::new("/data/augr".to_string(), "laptop".to_string());
    assert_eq!(store.meta_file_path(), "/data/augr/meta/laptop.toml");
    let p = make_patch("alpha", 1, Operation::AddEvent { start: 1, tags: vec![] });
    let path = store.patch_file_path(p.patch_ref());
    assert!(path.starts_with("/data/augr/patches/"));
    assert!(path.ends_with(".toml"));
    assert_eq!(path.len(), "/data/augr/patches/".len() + 64 + ".toml".len());
    let store2 = store.should_init(true);
    assert!(store2.init);
}

#[test]
fn should_init_follows_its_argument() {
    let store = augr::SyncFolderStore::new("/data/augr".to_string(), "laptop".to_string());
    assert!(!store.init);
    let store = store.should_init(true);
    assert!(store.init);
    let store = store.should_init(false);
    assert!(!store.init);
}

#[test]
fn hex_decoding_inverts_encoding() {
    assert_eq!(
        augr::sync_folder_store::from_hex("00ff10"),
        Some(vec![0u8, 255u8, 16u8])
    );
    assert_eq!(augr::sync_folder_store::from_hex(""), Some(vec![]));
    assert_eq!(augr::sync_folder_store::from_hex("0"), None);
    assert_eq!(augr::sync_folder_store::from_hex("zz"), None);
    assert_eq!(augr::sync_folder_store::from_hex("AB"), None);
    let bytes: Vec<u8> = vec![1, 2, 3, 171, 205, 239];
    let name = augr::sync_folder_store::hex_string(&bytes);
    assert_eq!(augr::sync_folder_store::from_hex(&name), Some(bytes));
}

#[test]
fn meta_record_round_trip() {
    let p1 = make_patch("alpha", 1, Operation::AddEvent { start: 1, tags: vec![] });
    let p2 = make_patch("alpha", 2, Operation::AddEvent { start: 2, tags: vec![] });
    let mut meta = augr::Meta::new("laptop".to_string());
    meta.insert(p1.patch_ref().clone_ref());
    meta.insert(p2.patch_ref().clone_ref());
    let bytes = meta.encode();
    let back = augr::Meta::decode_meta(&bytes).expect("decode");
    assert_eq!(back.device_id, "laptop");
    assert_eq!(back.known_patches.len(), 2);
    assert_eq!(back.known_patches[0].as_bytes(), p1.patch_ref().as_bytes());
    assert_eq!(back.known_patches[1].as_bytes(), p2.patch_ref().as_bytes());
}

#[test]
fn meta_record_with_duplicate_refs_is_rejected() {
    let p = make_patch("alpha", 1, Operation::AddEvent { start: 1, tags: vec![] });
    let twice = augr::Meta {
        device_id: "laptop".to_string(),
        known_patches: vec![p.patch_ref().clone_ref(), p.patch_ref().clone_ref()],
    };
    let bytes = twice.encode();
    assert!(augr::Meta::decode_meta(&bytes).is_none());
}

#[test]
fn garbage_meta_bytes_are_rejected() {
    assert!(augr::Meta::decode_meta(&vec![1, 2, 3]).is_none());
}
