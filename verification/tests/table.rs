use wl::event::SourceTable;

#[test]
fn checkout_leaves_a_sentinel() {
    let mut table: SourceTable<String> = SourceTable::new();
    table.add(3, "server".to_string());
    table.add(5, "client".to_string());

    let source = table.checkout(5).unwrap();
    assert_eq!(source, "client");
    // A reentrant checkout of the same descriptor gets nothing: the
    // sentinel protects the slot while the source is out.
    assert!(table.checkout(5).is_none());
    assert!(table.contains(5));
    // Other descriptors are untouched.
    assert_eq!(table.checkout(3).unwrap(), "server");
    table.restore(3, "server".to_string());

    table.restore(5, source);
    assert_eq!(table.checkout(5).unwrap(), "client");
}

#[test]
fn checkout_of_unknown_descriptor_is_none() {
    let mut table: SourceTable<u32> = SourceTable::new();
    assert!(table.checkout(9).is_none());
    assert!(!table.contains(9));
}

#[test]
fn remove_takes_the_slot_out() {
    let mut table: SourceTable<u32> = SourceTable::new();
    table.add(4, 44);
    assert_eq!(table.remove(4), Some(Some(44)));
    assert!(!table.contains(4));
    assert_eq!(table.remove(4), None);

    // Removing a checked-out slot yields the sentinel; the caller
    // already owns the source itself.
    table.add(6, 66);
    let source = table.checkout(6).unwrap();
    assert_eq!(source, 66);
    assert_eq!(table.remove(6), Some(None));
    assert!(!table.contains(6));
}
