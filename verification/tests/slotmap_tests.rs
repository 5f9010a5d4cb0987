use miniegg_with_slots::slot::Slot;
use miniegg_with_slots::slotmap::SlotMap;

#[test]
fn insert_keeps_keys_sorted_and_replaces() {
    let mut m = SlotMap::new();
    m.insert(Slot(5), Slot(50));
    m.insert(Slot(1), Slot(10));
    m.insert(Slot(3), Slot(30));
    m.insert(Slot(1), Slot(11));
    assert_eq!(m.to_pairs(), vec![(Slot(1), Slot(11)), (Slot(3), Slot(30)), (Slot(5), Slot(50))]);
    assert_eq!(m.len(), 3);
    assert_eq!(m.get(Slot(3)), Some(Slot(30)));
    assert_eq!(m.get(Slot(4)), None);
    assert_eq!(m.index(Slot(5)), Slot(50));
    assert!(m.contains_key(Slot(1)));
    assert!(!m.contains_key(Slot(2)));
    assert_eq!(m.values_in_order(), vec![Slot(11), Slot(30), Slot(50)]);
}

#[test]
fn from_pairs_takes_the_last_value_of_a_key() {
    let m = SlotMap::from_pairs(&[(Slot(2), Slot(1)), (Slot(0), Slot(4)), (Slot(2), Slot(3))]);
    assert_eq!(m.to_pairs(), vec![(Slot(0), Slot(4)), (Slot(2), Slot(3))]);
}

#[test]
fn bijection_and_inverse() {
    let m = SlotMap::from_pairs(&[(Slot(0), Slot(7)), (Slot(1), Slot(5))]);
    assert!(m.is_bijection());
    assert_eq!(m.inverse(), SlotMap::from_pairs(&[(Slot(7), Slot(0)), (Slot(5), Slot(1))]));
    assert_eq!(m.inverse().inverse(), m);

    let n = SlotMap::from_pairs(&[(Slot(0), Slot(7)), (Slot(1), Slot(7))]);
    assert!(!n.is_bijection());
    assert_eq!(n.inverse(), SlotMap::from_pairs(&[(Slot(7), Slot(1))]));
}

#[test]
fn compose_partial_drops_unmapped_values() {
    let m = SlotMap::from_pairs(&[(Slot(0), Slot(7)), (Slot(1), Slot(5)), (Slot(2), Slot(6))]);
    let n = SlotMap::from_pairs(&[(Slot(7), Slot(70)), (Slot(6), Slot(60))]);
    assert_eq!(m.compose_partial(&n), SlotMap::from_pairs(&[(Slot(0), Slot(70)), (Slot(2), Slot(60))]));
}

#[test]
fn keys_values_and_with_values() {
    let m = SlotMap::from_pairs(&[(Slot(4), Slot(7)), (Slot(1), Slot(7))]);
    assert_eq!(m.keys().to_vec(), vec![Slot(1), Slot(4)]);
    assert_eq!(m.values().to_vec(), vec![Slot(7)]);
    let w = m.with_values(&vec![Slot(8), Slot(9)]);
    assert_eq!(w.to_pairs(), vec![(Slot(1), Slot(8)), (Slot(4), Slot(9))]);
    assert_eq!(m.clone(), m);
}
