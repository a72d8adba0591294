use capnp_rpc_core::tables::{ExportTable, ImportTable};

#[test]
fn export_ids_are_reused_smallest_first() {
    let mut t: ExportTable<&str> = ExportTable::new();
    assert_eq!(t.push("a"), 0);
    assert_eq!(t.push("b"), 1);
    assert_eq!(t.push("c"), 2);
    t.erase(1);
    assert_eq!(t.push("d"), 1);
    assert_eq!(t.push("e"), 3);
    assert_eq!(t.get(1), Some(&"d"));
    assert_eq!(t.get(3), Some(&"e"));
}

#[test]
fn push_takes_the_smallest_of_several_free_ids() {
    let mut t: ExportTable<u32> = ExportTable::new();
    for i in 0..6u32 {
        assert_eq!(t.push(i * 10), i);
    }
    t.erase(4);
    t.erase(1);
    t.erase(3);
    assert_eq!(t.push(100), 1);
    assert_eq!(t.push(101), 3);
    assert_eq!(t.push(102), 4);
    assert_eq!(t.push(103), 6);
}

#[test]
fn erased_slot_is_empty_and_on_the_free_list() {
    let mut t: ExportTable<u32> = ExportTable::new();
    t.push(7);
    t.push(8);
    t.erase(0);
    assert_eq!(t.get(0), None);
    assert_eq!(t.get(1), Some(&8));
    assert_eq!(t.get(5), None);
    assert_eq!(t.free_ids, vec![0]);
}

#[test]
fn replace_keeps_the_id() {
    let mut t: ExportTable<u32> = ExportTable::new();
    let id = t.push(1);
    t.replace(id, 2);
    assert_eq!(t.get(id), Some(&2));
    assert_eq!(t.push(3), 1);
}

#[test]
fn import_table_is_keyed_by_the_peer_ids() {
    let mut t: ImportTable<&str> = ImportTable::new();
    assert!(t.get(7).is_none());
    t.insert(7, "x");
    t.insert(1000, "y");
    assert_eq!(t.get(7), Some(&"x"));
    assert_eq!(t.get(1000), Some(&"y"));
    assert_eq!(t.remove(7), Some("x"));
    assert_eq!(t.remove(7), None);
    assert!(t.get(7).is_none());
}
