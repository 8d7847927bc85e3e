use block_store::state_view::OnDiskStateView;

fn view() -> OnDiskStateView {
    OnDiskStateView::new(b"/work/build".to_vec(), b"/work/storage".to_vec())
}

#[test]
fn resource_paths_are_recognised() {
    let v = view();
    assert!(v.is_resource_path(&b"/work/storage/0x1/resources/Coin.bcs".to_vec()));
    assert!(!v.is_module_path(&b"/work/storage/0x1/resources/Coin.bcs".to_vec()));
    assert!(!v.is_event_path(&b"/work/storage/0x1/resources/Coin.bcs".to_vec()));
}

#[test]
fn module_and_event_paths_are_recognised() {
    let v = view();
    assert!(v.is_module_path(&b"/work/storage/0x1/modules/Coin.mv".to_vec()));
    assert!(v.is_event_path(&b"/work/storage/0x1/events/7.bcs".to_vec()));
    assert!(!v.is_resource_path(&b"/work/storage/0x1/modules/Coin.mv".to_vec()));
}

#[test]
fn paths_outside_storage_are_rejected() {
    let v = view();
    assert!(!v.is_resource_path(&b"/elsewhere/0x1/resources/Coin.bcs".to_vec()));
    assert!(!v.is_resource_path(&b"/work/build/0x1/resources/Coin.bcs".to_vec()));
    // a directory-name suffix is not a whole component
    assert!(!v.is_resource_path(&b"/work/storage/0x1/notresources/Coin.bcs".to_vec()));
    // no separator at all
    assert!(!v.is_resource_path(&b"resources".to_vec()));
}

#[test]
fn path_listing_filters_by_kind() {
    let v = view();
    let candidates = vec![
        b"/work/storage/0x1/resources/Coin.bcs".to_vec(),
        b"/work/storage/0x1/modules/Coin.mv".to_vec(),
        b"/work/storage/0x2/resources/Account.bcs".to_vec(),
        b"/work/storage/0x2/events/0.bcs".to_vec(),
        b"/work/build/ignored.mv".to_vec(),
    ];
    let resources = v.resource_paths(&candidates);
    assert_eq!(resources, vec![
        b"/work/storage/0x1/resources/Coin.bcs".to_vec(),
        b"/work/storage/0x2/resources/Account.bcs".to_vec(),
    ]);
    let modules = v.module_paths(&candidates);
    assert_eq!(modules, vec![b"/work/storage/0x1/modules/Coin.mv".to_vec()]);
    let events = v.event_paths(&candidates);
    assert_eq!(events, vec![b"/work/storage/0x2/events/0.bcs".to_vec()]);
}

#[test]
fn build_dir_is_kept() {
    let v = view();
    assert_eq!(v.build_dir(), &b"/work/build".to_vec());
}
