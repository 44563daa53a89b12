use labkit::registry::RegistryTable;

#[test]
fn indices_start_at_one_and_grow() {
    let mut t: RegistryTable<&str> = RegistryTable::new();
    assert_eq!(t.next_index(), 1);
    assert_eq!(t.add_registry("a"), 1);
    assert_eq!(t.add_registry("b"), 2);
    assert_eq!(t.add_registry("c"), 3);
    assert_eq!(t.len(), 3);
    let mut idx = t.indices();
    idx.sort();
    assert_eq!(idx, vec![1, 2, 3]);
}

#[test]
fn sweep_removes_the_gone_registries() {
    let mut t: RegistryTable<u32> = RegistryTable::new();
    for v in [10, 11, 12, 13] {
        t.add_registry(v);
    }
    let (mut live, mut dead) = t.sweep(|v: &u32| if v % 2 == 0 { Some(v * 10) } else { None });
    live.sort();
    dead.sort();
    assert_eq!(live, vec![(1, 100), (3, 120)]);
    assert_eq!(dead, vec![2, 4]);
    let mut idx = t.indices();
    idx.sort();
    assert_eq!(idx, vec![1, 3]);
    // indices are not reused
    assert_eq!(t.add_registry(14), 5);
}
