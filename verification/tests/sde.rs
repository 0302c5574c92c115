use eve_core::sde::csv_columns;

#[test]
fn header_columns_are_trimmed_and_numbered() {
    let cols = csv_columns("typeID, groupID ,name,volume");
    assert_eq!(
        cols,
        vec![
            ("typeID".to_string(), 0),
            ("groupID".to_string(), 1),
            ("name".to_string(), 2),
            ("volume".to_string(), 3)
        ]
    );
}

#[test]
fn empty_header_is_one_empty_column() {
    assert_eq!(csv_columns(""), vec![(String::new(), 0)]);
    assert_eq!(csv_columns("a,,b").len(), 3);
    assert_eq!(csv_columns("a,,b")[1], (String::new(), 1));
}

#[test]
fn later_duplicate_wins_when_read_as_a_map() {
    let map: std::collections::BTreeMap<String, usize> = csv_columns("id,name,id").into_iter().collect();
    assert_eq!(map.get("id"), Some(&2));
    assert_eq!(map.get("name"), Some(&1));
}
