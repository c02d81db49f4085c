use pocket_rocket::query::{collect_column, collect_grouped, collect_map, first_field};

#[test]
fn optional_field_absent_without_rows() {
    let none: Option<Option<u32>> = None;
    assert_eq!(first_field(none), None);
    assert_eq!(first_field(Some(Some(1u32))), Some(1));
    assert_eq!(first_field(Some(None::<u32>)), None);
}

#[test]
fn column_skips_undecodable_fields() {
    let fields = vec![Some(1u64), None, Some(3)];
    assert_eq!(collect_column(fields), vec![1, 3]);
}

#[test]
fn column_of_no_rows_is_empty() {
    let fields: Vec<Option<String>> = Vec::new();
    assert!(collect_column(fields).is_empty());
}

#[test]
fn map_keeps_last_value_for_a_key() {
    let rows = vec![(Some(1u32), Some("first")), (Some(2), Some("other")), (Some(1), Some("second"))];
    let map = collect_map(rows);
    assert_eq!(map.len(), 2);
    assert_eq!(map[&1], "second");
    assert_eq!(map[&2], "other");
}

#[test]
fn map_skips_partial_rows() {
    let rows = vec![(Some(1u32), Some(10u8)), (None, Some(20)), (Some(1), None), (Some(3), None)];
    let map = collect_map(rows);
    assert_eq!(map.len(), 1);
    assert_eq!(map[&1], 10);
}

#[test]
fn grouped_keeps_row_order() {
    let rows = vec![Some((1u32, "a")), Some((2, "b")), None, Some((1, "c")), Some((1, "d"))];
    let groups = collect_grouped(rows);
    assert_eq!(groups.len(), 2);
    assert_eq!(groups[&1], vec!["a", "c", "d"]);
    assert_eq!(groups[&2], vec!["b"]);
}

