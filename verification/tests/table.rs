use master_control::table::Table;

#[test]
fn a_table_keeps_its_keys_ascending_and_each_once() {
    let mut t: Table<&str> = Table::new();
    t.insert(7, "seven");
    t.insert(3, "three");
    t.insert(9, "nine");
    t.insert(7, "SEVEN");
    assert_eq!(t.len(), 3);
    assert_eq!((t.key_at(0), t.key_at(1), t.key_at(2)), (3, 7, 9));
    assert_eq!(t.get(7), Some(&"SEVEN"), "the later value replaces the earlier");
    assert!(t.contains(3) && !t.contains(4));
    assert_eq!(t.remove(3), Some("three"));
    assert_eq!(t.remove(3), None);
    t.drop_below(9);
    assert_eq!(t.len(), 1);
    assert_eq!(t.key_at(0), 9);
}

#[test]
fn a_row_taken_out_by_position_goes_back_where_it_stood() {
    let mut t: Table<u32> = Table::new();
    for k in [40u64, 10, 30, 20] {
        t.insert(k, (k * 2) as u32);
    }
    assert_eq!(t.position_of(30), Some(2));
    assert_eq!(t.position_of(25), None);
    assert_eq!(*t.value_at(1), 40, "the value at the second key, 20");
    let (k, v) = t.remove_at(2);
    assert_eq!((k, v), (30, 60));
    assert_eq!((t.key_at(0), t.key_at(1), t.key_at(2)), (10, 20, 40));
    t.put_back(2, k, v + 1);
    assert_eq!(t.position_of(30), Some(2));
    assert_eq!(t.get(30), Some(&61));
    assert_eq!(t.len(), 4);
}
