use eve_core::reprocess::{as_map, Material};

#[test]
fn as_map_lists_each_material() {
    let m = as_map(&[
        Material { type_id: 34, quantity: 415 },
        Material { type_id: 35, quantity: 100 },
    ]);
    assert_eq!(m.len(), 2);
    assert_eq!(m[&34], 415);
    assert_eq!(m[&35], 100);
}

#[test]
fn as_map_keeps_the_later_duplicate() {
    let m = as_map(&[Material { type_id: 34, quantity: 415 }, Material { type_id: 34, quantity: 5 }]);
    assert_eq!(m.len(), 1);
    assert_eq!(m[&34], 5);
}

#[test]
fn as_map_of_nothing_is_empty() {
    assert!(as_map(&[]).is_empty());
}
