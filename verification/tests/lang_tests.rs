use miniegg_with_slots::lang::{as_set, firsts, AppliedId, ENode, Language};
use miniegg_with_slots::slot::{Id, Slot, SlotCounter};
use miniegg_with_slots::slotmap::SlotMap;

#[test]
fn test_apply_slotmap() {
    let s = Slot;

    let in_slotmap = SlotMap::from_pairs(&[(s(0), s(10)), (s(1), s(3))]);
    let in_enode = ENode::Lam(s(3), AppliedId::new(Id(12), in_slotmap));

    let slotmap = SlotMap::from_pairs(&[(s(10), s(100))]);
    let real = in_enode.apply_slotmap(&slotmap);

    let expected_slotmap = SlotMap::from_pairs(&[(s(0), s(100)), (s(1), s(3))]);
    let expected = ENode::Lam(s(3), AppliedId::new(Id(12), expected_slotmap));
    assert_eq!(real, expected);
}

#[test]
fn fresh_slots_count_up_from_one() {
    let mut ctr = SlotCounter::new();
    let a = Slot::fresh(&mut ctr);
    let b = Slot::fresh(&mut ctr);
    let c = Slot::fresh(&mut ctr);
    assert_eq!(a, Slot(1));
    assert_eq!(b, Slot(2));
    assert_eq!(c, Slot(3));
    assert_eq!(ctr.peek(), 4);
}

#[test]
fn firsts_keeps_order_of_first_use() {
    let v = vec![Slot(3), Slot(1), Slot(3), Slot(2), Slot(1)];
    assert_eq!(firsts(v), vec![Slot(3), Slot(1), Slot(2)]);
    assert_eq!(firsts(vec![]), Vec::<Slot>::new());
}

#[test]
fn as_set_forgets_order_and_repetition() {
    let a = as_set(vec![Slot(3), Slot(1), Slot(3)]);
    let b = as_set(vec![Slot(1), Slot(3)]);
    assert_eq!(a, b);
    assert_eq!(a.len(), 2);
    assert!(a.contains(Slot(3)));
    assert!(!a.contains(Slot(2)));
    assert_eq!(a.to_vec(), vec![Slot(1), Slot(3)]);
    assert!(a.is_superset(&as_set(vec![Slot(1)])));
    assert!(!as_set(vec![Slot(1)]).is_superset(&a));
}

#[test]
fn enode_slot_occurrences() {
    let lam = ENode::Lam(
        Slot(3),
        AppliedId::new(Id(12), SlotMap::from_pairs(&[(Slot(0), Slot(10)), (Slot(1), Slot(3))])),
    );
    assert_eq!(lam.all_slot_occurences(), vec![Slot(3), Slot(10), Slot(3)]);
    assert_eq!(lam.public_slot_occurences(), vec![Slot(10)]);
    assert_eq!(lam.slot_occurences(), vec![Slot(10)]);
    assert_eq!(lam.ids(), vec![Id(12)]);
    assert_eq!(lam.discr(), 0);

    let app = ENode::App(
        AppliedId::new(Id(1), SlotMap::from_pairs(&[(Slot(0), Slot(7))])),
        AppliedId::new(Id(2), SlotMap::from_pairs(&[(Slot(0), Slot(8)), (Slot(1), Slot(7))])),
    );
    assert_eq!(app.all_slot_occurences(), vec![Slot(7), Slot(8), Slot(7)]);
    assert_eq!(app.public_slot_occurences(), vec![Slot(7), Slot(8), Slot(7)]);
    assert_eq!(app.slot_order(), vec![Slot(7), Slot(8)]);
    assert_eq!(app.slots(), as_set(vec![Slot(8), Slot(7)]));
    assert_eq!(app.ids(), vec![Id(1), Id(2)]);
    assert_eq!(app.discr(), 1);

    let var = ENode::Var(Slot(4));
    assert_eq!(var.all_slot_occurences(), vec![Slot(4)]);
    assert_eq!(var.applied_id_occurences(), vec![]);
    assert_eq!(var.discr(), 2);
}

#[test]
fn writing_slot_occurrences_reads_back() {
    let mut app = ENode::App(
        AppliedId::new(Id(1), SlotMap::from_pairs(&[(Slot(0), Slot(7))])),
        AppliedId::new(Id(2), SlotMap::from_pairs(&[(Slot(0), Slot(8)), (Slot(1), Slot(7))])),
    );
    let written = vec![Slot(20), Slot(21), Slot(22)];
    app.all_slot_occurences_mut(&written);
    assert_eq!(app.all_slot_occurences(), written);

    let mut lam = ENode::Lam(
        Slot(3),
        AppliedId::new(Id(12), SlotMap::from_pairs(&[(Slot(0), Slot(10)), (Slot(1), Slot(3))])),
    );
    lam.public_slot_occurences_mut(&vec![Slot(11)]);
    assert_eq!(lam.public_slot_occurences(), vec![Slot(11)]);
    assert_eq!(lam.all_slot_occurences(), vec![Slot(3), Slot(11), Slot(3)]);

    let new_id = AppliedId::new(Id(5), SlotMap::from_pairs(&[(Slot(0), Slot(9))]));
    lam.applied_id_occurences_mut(vec![new_id.clone()]);
    assert_eq!(lam.applied_id_occurences(), vec![new_id]);
}

#[test]
fn writing_the_binder_into_public_slots_renames_the_binder() {
    let mut lam = ENode::Lam(
        Slot(3),
        AppliedId::new(Id(12), SlotMap::from_pairs(&[(Slot(0), Slot(10)), (Slot(1), Slot(3))])),
    );
    lam.public_slot_occurences_mut(&vec![Slot(3)]);
    assert_eq!(lam.public_slot_occurences(), vec![Slot(3)]);
    let expected = ENode::Lam(
        Slot(0),
        AppliedId::new(Id(12), SlotMap::from_pairs(&[(Slot(0), Slot(3)), (Slot(1), Slot(0))])),
    );
    assert_eq!(lam, expected);
}

#[test]
fn shape_round_trip_does_not_capture_a_free_slot() {
    // \3. f(0, 3): the body exposes the free slot 0.
    let n = ENode::Lam(
        Slot(3),
        AppliedId::new(Id(12), SlotMap::from_pairs(&[(Slot(0), Slot(0)), (Slot(1), Slot(3))])),
    );
    let (sh, bij) = n.shape();
    let expected_shape = ENode::Lam(
        Slot(0),
        AppliedId::new(Id(12), SlotMap::from_pairs(&[(Slot(0), Slot(1)), (Slot(1), Slot(0))])),
    );
    assert_eq!(sh, expected_shape);
    assert_eq!(bij, SlotMap::from_pairs(&[(Slot(1), Slot(0))]));
    let back = sh.apply_slotmap(&bij);
    // The binder moves to slot 1, so the free slot 0 stays free.
    let expected = ENode::Lam(
        Slot(1),
        AppliedId::new(Id(12), SlotMap::from_pairs(&[(Slot(0), Slot(0)), (Slot(1), Slot(1))])),
    );
    assert_eq!(back, expected);
    assert_eq!(back.public_slot_occurences(), n.public_slot_occurences());
    if let ENode::Lam(_, b) = &back {
        assert!(b.m.is_bijection());
    }
}

#[test]
fn shape_renames_by_first_use() {
    // \5. f(7, 5)
    let n = ENode::Lam(
        Slot(5),
        AppliedId::new(Id(1), SlotMap::from_pairs(&[(Slot(0), Slot(7)), (Slot(1), Slot(5))])),
    );
    let (sh, bij) = n.shape();
    let expected = ENode::Lam(
        Slot(0),
        AppliedId::new(Id(1), SlotMap::from_pairs(&[(Slot(0), Slot(1)), (Slot(1), Slot(0))])),
    );
    assert_eq!(sh, expected);
    assert_eq!(bij, SlotMap::from_pairs(&[(Slot(1), Slot(7))]));
    // The map hands back the node's own slots ...
    assert_eq!(bij.values(), n.slots());
    assert_eq!(bij.keys(), sh.slots());
    // ... and applying it gives the node back, with its binder renamed.
    let back = sh.apply_slotmap(&bij);
    let renamed = ENode::Lam(
        Slot(0),
        AppliedId::new(Id(1), SlotMap::from_pairs(&[(Slot(0), Slot(7)), (Slot(1), Slot(0))])),
    );
    assert_eq!(back, renamed);
}

#[test]
fn shape_of_an_application_round_trips() {
    let n = ENode::App(
        AppliedId::new(Id(1), SlotMap::from_pairs(&[(Slot(0), Slot(9)), (Slot(1), Slot(4))])),
        AppliedId::new(Id(2), SlotMap::from_pairs(&[(Slot(0), Slot(4))])),
    );
    let (sh, bij) = n.shape();
    assert_eq!(sh.all_slot_occurences(), vec![Slot(0), Slot(1), Slot(1)]);
    assert_eq!(bij, SlotMap::from_pairs(&[(Slot(0), Slot(9)), (Slot(1), Slot(4))]));
    assert_eq!(sh.apply_slotmap(&bij), n);
}

#[test]
fn map_applied_ids_replaces_each_id() {
    let app = ENode::App(
        AppliedId::new(Id(1), SlotMap::from_pairs(&[(Slot(0), Slot(7))])),
        AppliedId::new(Id(2), SlotMap::new()),
    );
    let bumped = app.map_applied_ids(|a: AppliedId| AppliedId::new(Id(a.id.0 + 10), a.m));
    assert_eq!(bumped.ids(), vec![Id(11), Id(12)]);
    assert_eq!(bumped.all_slot_occurences(), vec![Slot(7)]);
}

#[test]
fn applied_id_apply_slotmap_partial_drops_unmapped_slots() {
    let a = AppliedId::new(Id(3), SlotMap::from_pairs(&[(Slot(0), Slot(10)), (Slot(1), Slot(11))]));
    let m = SlotMap::from_pairs(&[(Slot(10), Slot(20))]);
    let r = a.apply_slotmap_partial(&m);
    assert_eq!(r.id, Id(3));
    assert_eq!(r.m, SlotMap::from_pairs(&[(Slot(0), Slot(20))]));
    assert_eq!(r.slots(), as_set(vec![Slot(20)]));

    let full = SlotMap::from_pairs(&[(Slot(10), Slot(20)), (Slot(11), Slot(21))]);
    let r2 = a.apply_slotmap(&full);
    assert_eq!(r2.slots_in_order(), vec![Slot(20), Slot(21)]);
    r2.check();

    let mut a2 = a.clone();
    a2.slots_mut(&vec![Slot(1), Slot(2)]);
    assert_eq!(a2.m, SlotMap::from_pairs(&[(Slot(0), Slot(1)), (Slot(1), Slot(2))]));
}

#[test]
fn shape_of_a_shape_is_itself_with_the_identity_map() {
    let n = ENode::Lam(
        Slot(5),
        AppliedId::new(Id(1), SlotMap::from_pairs(&[(Slot(0), Slot(7)), (Slot(1), Slot(5)), (Slot(2), Slot(9))])),
    );
    let (sh, _) = n.shape();
    let (sh2, bij2) = sh.shape();
    assert_eq!(sh2, sh);
    assert_eq!(bij2, SlotMap::from_pairs(&[(Slot(1), Slot(1)), (Slot(2), Slot(2))]));
}

#[test]
fn shape_ignores_an_injective_renaming() {
    let n = ENode::App(
        AppliedId::new(Id(1), SlotMap::from_pairs(&[(Slot(0), Slot(9)), (Slot(1), Slot(4))])),
        AppliedId::new(Id(2), SlotMap::from_pairs(&[(Slot(0), Slot(4))])),
    );
    let mut n2 = n.clone();
    // 9 -> 30, 4 -> 31
    n2.all_slot_occurences_mut(&vec![Slot(30), Slot(31), Slot(31)]);
    let (sh, bij) = n.shape();
    let (sh2, bij2) = n2.shape();
    assert_eq!(sh2, sh);
    assert_eq!(bij, SlotMap::from_pairs(&[(Slot(0), Slot(9)), (Slot(1), Slot(4))]));
    assert_eq!(bij2, SlotMap::from_pairs(&[(Slot(0), Slot(30)), (Slot(1), Slot(31))]));
}

#[test]
fn firsts_of_a_concatenation() {
    let v = vec![Slot(2), Slot(1), Slot(2)];
    let w = vec![Slot(3), Slot(1), Slot(4), Slot(3)];
    let mut vw = v.clone();
    vw.extend(w.iter().copied());
    let rest: Vec<Slot> = w.into_iter().filter(|s| !v.contains(s)).collect();
    let mut expected = firsts(v);
    expected.extend(firsts(rest));
    assert_eq!(firsts(vw), expected);
}

#[test]
fn renaming_by_a_bijection_and_back_gives_the_applied_id() {
    let a = AppliedId::new(Id(3), SlotMap::from_pairs(&[(Slot(0), Slot(10)), (Slot(1), Slot(11))]));
    let m = SlotMap::from_pairs(&[(Slot(10), Slot(20)), (Slot(11), Slot(21)), (Slot(12), Slot(22))]);
    assert!(m.is_bijection());
    let there = a.apply_slotmap(&m);
    assert_eq!(there, a.apply_slotmap_partial(&m));
    let back = there.apply_slotmap(&m.inverse());
    assert_eq!(back, a);
}

#[test]
fn all_slots_are_the_public_ones_and_the_binder() {
    let lam = ENode::Lam(
        Slot(3),
        AppliedId::new(Id(12), SlotMap::from_pairs(&[(Slot(0), Slot(10)), (Slot(1), Slot(3))])),
    );
    let mut with_binder = lam.public_slot_occurences();
    with_binder.push(Slot(3));
    assert_eq!(as_set(lam.all_slot_occurences()), as_set(with_binder));
    let app = ENode::App(
        AppliedId::new(Id(1), SlotMap::from_pairs(&[(Slot(0), Slot(7))])),
        AppliedId::new(Id(2), SlotMap::from_pairs(&[(Slot(0), Slot(8))])),
    );
    assert_eq!(as_set(app.all_slot_occurences()), app.slots());
}

#[test]
fn fresh_slots_strictly_increase_across_calls() {
    let mut ctr = SlotCounter::new();
    let mut last = Slot::fresh(&mut ctr);
    for _ in 0..20 {
        let next = Slot::fresh(&mut ctr);
        assert!(next.0 > last.0);
        last = next;
    }
}
