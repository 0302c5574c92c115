use eve_core::killmail::{build_eft, slot_of, KmItem, Slot};

#[test]
fn flags_map_to_sections() {
    assert_eq!(slot_of(11), Some(Slot::Low));
    assert_eq!(slot_of(22), Some(Slot::Mid));
    assert_eq!(slot_of(27), Some(Slot::High));
    assert_eq!(slot_of(92), Some(Slot::Rig));
    assert_eq!(slot_of(87), Some(Slot::Drone));
    assert_eq!(slot_of(5), Some(Slot::Cargo));
    assert_eq!(slot_of(89), None); // implant slot — not part of the fit
}

#[test]
fn builds_eft_in_section_order() {
    let items = vec![
        (Slot::High, "200mm AutoCannon II".to_string(), 3),
        (Slot::Low, "Gyrostabilizer II".to_string(), 1),
        (Slot::Mid, "5MN Microwarpdrive II".to_string(), 1),
        (Slot::Drone, "Warrior II".to_string(), 4),
    ];
    let eft = build_eft("Rifter", "Reconstructed", &items);
    assert!(eft.starts_with("[Rifter, Reconstructed]\n"));
    // Lows before mids before highs; three gun lines; drones collapsed.
    let gyro = eft.find("Gyrostabilizer II").unwrap();
    let mwd = eft.find("5MN Microwarpdrive II").unwrap();
    let gun = eft.find("200mm AutoCannon II").unwrap();
    assert!(gyro < mwd && mwd < gun);
    assert_eq!(eft.matches("200mm AutoCannon II").count(), 3);
    assert!(eft.contains("Warrior II x4"));
}

#[test]
fn eft_text_is_exact() {
    let items = vec![
        (Slot::Cargo, "Nanite Repair Paste".to_string(), 0),
        (Slot::Rig, "Small Anti-EM Screen Reinforcer I".to_string(), -2),
        (Slot::Low, "Damage Control II".to_string(), 2),
    ];
    let eft = build_eft("Merlin", "Test", &items);
    assert_eq!(
        eft,
        "[Merlin, Test]\nDamage Control II\nDamage Control II\n\nSmall Anti-EM Screen Reinforcer I\n\nNanite Repair Paste x1\n"
    );
    assert_eq!(build_eft("Ibis", "Empty", &[]), "[Ibis, Empty]\n");
}

#[test]
fn item_quantity_sums_destroyed_and_dropped() {
    let i = KmItem { item_type_id: 1, flag: 5, quantity_destroyed: Some(3), quantity_dropped: None };
    assert_eq!(i.quantity(), 3);
    let j = KmItem { item_type_id: 1, flag: 5, quantity_destroyed: Some(3), quantity_dropped: Some(4) };
    assert_eq!(j.quantity(), 7);
    assert_eq!(slot_of(128), Some(Slot::Subsystem));
    assert_eq!(slot_of(35), None);
}
