use eve_core::remap::{pick_fastest, remap_allocations, Attr, BASE, MAX, POOL};

#[test]
fn attribute_ids_map() {
    assert_eq!(Attr::from_attribute_id(165), Some(Attr::Intelligence));
    assert_eq!(Attr::from_attribute_id(164), Some(Attr::Charisma));
    assert_eq!(Attr::from_attribute_id(999), None);
}

#[test]
fn attribute_indices_follow_allocation_order() {
    assert_eq!(Attr::Intelligence.index(), 0);
    assert_eq!(Attr::Memory.index(), 1);
    assert_eq!(Attr::Perception.index(), 2);
    assert_eq!(Attr::Willpower.index(), 3);
    assert_eq!(Attr::Charisma.index(), 4);
}

#[test]
fn allocations_cover_every_legal_split_in_order() {
    let all = remap_allocations();
    // Splits of 14 points over five attributes, none above 10.
    assert_eq!(all.len(), 2885);
    assert!(all.iter().all(|a| a.iter().all(|v| (BASE..=MAX).contains(v))));
    assert!(all.iter().all(|a| a.iter().sum::<i64>() == 5 * BASE + POOL));
    assert_eq!(all[0], [17, 17, 17, 21, 27]);
    assert_eq!(*all.last().unwrap(), [27, 21, 17, 17, 17]);
    assert!(all.windows(2).all(|w| w[0] < w[1]));
}

#[test]
fn fastest_is_first_smallest() {
    let allocs = [[20, 20, 20, 20, 19], [27, 21, 17, 17, 17], [17, 17, 17, 21, 27]];
    let r = pick_fastest(&allocs, &[500, 300, 300]);
    assert_eq!((r.intelligence, r.memory, r.perception, r.willpower, r.charisma), (27, 21, 17, 17, 17));
    assert_eq!(r.train_seconds, 300);
}

#[test]
fn no_allocation_falls_back_to_even_spread() {
    let r = pick_fastest(&[], &[]);
    assert_eq!((r.intelligence, r.memory, r.perception, r.willpower, r.charisma, r.train_seconds), (20, 20, 20, 20, 19, 0));
}

#[test]
fn every_allowed_allocation_is_listed() {
    let list = remap_allocations();
    let mut expected = 0;
    for i in BASE..=MAX {
        for m in BASE..=MAX {
            for p in BASE..=MAX {
                for w in BASE..=MAX {
                    let c = 5 * BASE + POOL - i - m - p - w;
                    if (BASE..=MAX).contains(&c) {
                        expected += 1;
                        assert!(list.contains(&[i, m, p, w, c]));
                    }
                }
            }
        }
    }
    assert_eq!(list.len(), expected);
}
