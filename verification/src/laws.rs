use vstd::prelude::*;
use crate::slot::Slot;
use crate::slotmap::{
    keys_sorted, has_key, has_value, value_at, values_of, with_values_seq, lemma_value_at, compose_seq,
};
use crate::lang::{
    ENodeView, applied_slots, drop_slot, refill, lemma_refill_len, firsts_spec, lemma_firsts,
    binder_for, lemma_first_absent, lemma_drop_slot_len,
    first_use_names,
    enode_all_slots, enode_public_slots, enode_with_all_slots, enode_with_public_slots,
    enode_applied_ids, enode_with_applied_ids, AppliedIdView,
};

verus! {

/// The shape of an e-node: its slots renamed by their first use.
pub open spec fn shape_node(n: ENodeView) -> ENodeView {
    enode_with_all_slots(n, first_use_names(enode_all_slots(n)))
}

/// `bij` is the map that `shape` hands back with `shape_node(n)`.
pub open spec fn is_shape_map(n: ENodeView, bij: Seq<(Slot, Slot)>) -> bool {
    let f = firsts_spec(enode_all_slots(n));
    &&& forall|y: Slot|
        has_key(bij, y) <==> (y.0 < f.len() && enode_public_slots(shape_node(n)).contains(y))
    &&& forall|y: Slot| has_key(bij, y) ==> value_at(bij, y) == f[y.0 as int]
}

/// `n` with its binder, and the body's occurrences of it, renamed to `z`; a node without
/// a binder stays as it is.
pub open spec fn rename_binder(n: ENodeView, z: Slot) -> ENodeView {
    match n {
        ENodeView::Lam(x, b) => ENodeView::Lam(
            z,
            (b.0, with_values_seq(b.1, rename_in(applied_slots(b), x, z))),
        ),
        _ => n,
    }
}

/// `s` with each occurrence of `x` replaced by `z`.
pub open spec fn rename_in(s: Seq<Slot>, x: Slot, z: Slot) -> Seq<Slot> {
    s.map_values(|v: Slot| if v == x { z } else { v })
}

/// The renaming by first use, as a function on slots.
pub open spec fn first_use_name(s: Seq<Slot>, z: Slot) -> Slot {
    Slot(firsts_spec(s).index_of(z) as usize)
}

proof fn lemma_with_values(p: Seq<(Slot, Slot)>, a: Seq<Slot>, b: Seq<Slot>)
    requires
        a.len() == p.len(),
        b.len() == p.len(),
    ensures
        values_of(with_values_seq(p, a)) == a,
        with_values_seq(with_values_seq(p, a), b) == with_values_seq(p, b),
        with_values_seq(p, values_of(p)) == p,
{
    assert(values_of(with_values_seq(p, a)) =~= a);
    assert(with_values_seq(with_values_seq(p, a), b) =~= with_values_seq(p, b));
    assert(with_values_seq(p, values_of(p)) =~= p);
}

/// The renaming by first use numbers each slot of `s` below the count of distinct slots,
/// is undone by reading `firsts_spec(s)`, and is injective on `s`.
proof fn lemma_first_use_name(s: Seq<Slot>)
    requires
        s.len() < usize::MAX,
    ensures
        forall|z: Slot|
            s.contains(z) ==> (#[trigger] first_use_name(s, z)).0 < firsts_spec(s).len() && firsts_spec(
                s,
            )[first_use_name(s, z).0 as int] == z,
        forall|z1: Slot, z2: Slot|
            s.contains(z1) && s.contains(z2) && #[trigger] first_use_name(s, z1) == #[trigger] first_use_name(
                s,
                z2,
            ) ==> z1 == z2,
        forall|k: int| 0 <= k < s.len() ==> #[trigger] first_use_names(s)[k] == first_use_name(s, s[k]),
{
    lemma_firsts(s);
    let f = firsts_spec(s);
    assert forall|z: Slot| s.contains(z) implies (#[trigger] first_use_name(s, z)).0 < f.len() && f[first_use_name(
        s,
        z,
    ).0 as int] == z by {
        assert(f.contains(z));
        let i = f.index_of(z);
        assert(0 <= i < f.len() && f[i] == z);
    }
}

/// Dropping the renamed binder from the renamed slots is renaming what dropping the
/// binder leaves, for a renaming that is injective on the slots involved.
proof fn lemma_drop_slot_renamed(s: Seq<Slot>, x: Slot, g: spec_fn(Slot) -> Slot)
    requires
        forall|a: Slot, b: Slot|
            (s.contains(a) || a == x) && (s.contains(b) || b == x) && #[trigger] g(a) == #[trigger] g(b)
                ==> a == b,
    ensures
        drop_slot(s.map_values(g), g(x)) == drop_slot(s, x).map_values(g),
    decreases s.len(),
{
    if s.len() > 0 {
        let t = s.drop_last();
        assert forall|a: Slot, b: Slot|
            (t.contains(a) || a == x) && (t.contains(b) || b == x) && #[trigger] g(a) == #[trigger] g(b)
                implies a == b by {
            if t.contains(a) {
                let i = choose|i: int| 0 <= i < t.len() && t[i] == a;
                assert(s[i] == a);
            }
            if t.contains(b) {
                let i = choose|i: int| 0 <= i < t.len() && t[i] == b;
                assert(s[i] == b);
            }
        }
        lemma_drop_slot_renamed(t, x, g);
        assert(s.map_values(g).drop_last() =~= t.map_values(g));
        assert(s.contains(s.last()));
        assert(drop_slot(s, x).map_values(g) =~= (if s.last() == x {
            drop_slot(t, x).map_values(g)
        } else {
            drop_slot(t, x).map_values(g).push(g(s.last()))
        }));
    } else {
        assert(drop_slot(s.map_values(g), g(x)) =~= drop_slot(s, x).map_values(g));
    }
}

/// Writing the slots that dropping the binder leaves back over the renamed slots, with
/// the renamed binder's occurrences becoming `z`, renames the binder alone, to `z`.
proof fn lemma_refill_renamed(s: Seq<Slot>, x: Slot, z: Slot, g: spec_fn(Slot) -> Slot)
    requires
        forall|a: Slot, b: Slot|
            (s.contains(a) || a == x) && (s.contains(b) || b == x) && #[trigger] g(a) == #[trigger] g(b)
                ==> a == b,
    ensures
        refill(s.map_values(g), g(x), z, drop_slot(s, x)) == rename_in(s, x, z),
    decreases s.len(),
{
    if s.len() > 0 {
        let t = s.drop_last();
        assert forall|a: Slot, b: Slot|
            (t.contains(a) || a == x) && (t.contains(b) || b == x) && #[trigger] g(a) == #[trigger] g(b)
                implies a == b by {
            if t.contains(a) {
                let i = choose|i: int| 0 <= i < t.len() && t[i] == a;
                assert(s[i] == a);
            }
            if t.contains(b) {
                let i = choose|i: int| 0 <= i < t.len() && t[i] == b;
                assert(s[i] == b);
            }
        }
        lemma_refill_renamed(t, x, z, g);
        assert(s.map_values(g).drop_last() =~= t.map_values(g));
        assert(s.contains(s.last()));
        if s.last() != x {
            assert(g(s.last()) != g(x));
            assert(drop_slot(s, x).drop_last() =~= drop_slot(t, x));
        }
        assert(s.map_values(|v: Slot| if v == x { z } else { v }) =~= t.map_values(
            |v: Slot| if v == x { z } else { v },
        ).push(if s.last() == x { z } else { s.last() }));
    } else {
        assert(refill(s.map_values(g), g(x), z, drop_slot(s, x)) =~= s.map_values(
            |v: Slot| if v == x { z } else { v },
        ));
    }
}

/// The first distinct slot of a non-empty sequence is its first entry.
proof fn lemma_firsts_head(s: Seq<Slot>)
    requires
        s.len() > 0,
    ensures
        firsts_spec(s).len() > 0,
        firsts_spec(s)[0] == s[0],
    decreases s.len(),
{
    if s.len() > 1 {
        lemma_firsts_head(s.drop_last());
    } else {
        assert(firsts_spec(s.drop_last()) =~= Seq::<Slot>::empty());
    }
}

/// What dropping a slot leaves is part of what it was dropped from.
proof fn lemma_drop_slot_contains(s: Seq<Slot>, x: Slot, z: Slot)
    requires
        drop_slot(s, x).contains(z),
    ensures
        s.contains(z),
        z != x,
    decreases s.len(),
{
    if s.len() > 0 {
        let t = s.drop_last();
        if drop_slot(t, x).contains(z) {
            lemma_drop_slot_contains(t, x, z);
            let i = choose|i: int| 0 <= i < t.len() && t[i] == z;
            assert(s[i] == z);
        } else {
            let r = drop_slot(t, x);
            let i = choose|i: int| 0 <= i < r.push(s.last()).len() && r.push(s.last())[i] == z;
            assert(s[s.len() - 1] == z);
        }
    }
}

/// The public slots of a shape are the public slots of the node, renamed by first use.
proof fn lemma_shape_public(n: ENodeView)
    requires
        enode_all_slots(n).len() < usize::MAX,
    ensures
        enode_public_slots(shape_node(n)) == enode_public_slots(n).map_values(
            |z: Slot| first_use_name(enode_all_slots(n), z),
        ),
        forall|z: Slot| #[trigger] enode_public_slots(n).contains(z) ==> enode_all_slots(n).contains(z),
{
    let s = enode_all_slots(n);
    let g = |z: Slot| first_use_name(s, z);
    lemma_first_use_name(s);
    let names = first_use_names(s);
    match n {
        ENodeView::Lam(x, b) => {
            let vals = applied_slots(b);
            assert(s[0] == x);
            assert(names.skip(1) =~= vals.map_values(g)) by {
                assert forall|k: int| 0 <= k < vals.len() implies names.skip(1)[k] == vals.map_values(g)[k] by {
                    assert(names[k + 1] == first_use_name(s, s[k + 1]));
                    assert(s[k + 1] == vals[k]);
                }
            }
            assert(names[0] == g(x));
            lemma_with_values(b.1, names.skip(1), names.skip(1));
            assert forall|a: Slot, c: Slot|
                (vals.contains(a) || a == x) && (vals.contains(c) || c == x) && #[trigger] g(a) == #[trigger] g(c)
                    implies a == c by {
                assert(s.contains(x));
                if vals.contains(a) {
                    let i = choose|i: int| 0 <= i < vals.len() && vals[i] == a;
                    assert(s[i + 1] == a);
                }
                if vals.contains(c) {
                    let i = choose|i: int| 0 <= i < vals.len() && vals[i] == c;
                    assert(s[i + 1] == c);
                }
            }
            lemma_drop_slot_renamed(vals, x, g);
            assert forall|z: Slot| #[trigger] enode_public_slots(n).contains(z) implies s.contains(z) by {
                lemma_drop_slot_contains(vals, x, z);
                let i = choose|i: int| 0 <= i < vals.len() && vals[i] == z;
                assert(s[i + 1] == z);
            }
        },
        ENodeView::App(l, r) => {
            let k = l.1.len() as int;
            assert(names =~= s.map_values(g));
            lemma_with_values(l.1, names.take(k), names.take(k));
            lemma_with_values(r.1, names.skip(k), names.skip(k));
            assert(names.take(k) + names.skip(k) =~= names);
        },
        ENodeView::Var(x) => {
            assert(names =~= seq![g(x)]);
            assert(seq![x].map_values(g) =~= seq![g(x)]);
        },
    }
}

/// The map of a shape maps onto exactly the slots that the node exposes, and its keys
/// are exactly the slots that the shape exposes.
pub proof fn lemma_shape_slots(n: ENodeView, bij: Seq<(Slot, Slot)>)
    requires
        enode_all_slots(n).len() < usize::MAX,
        keys_sorted(bij),
        is_shape_map(n, bij),
    ensures
        forall|z: Slot| has_value(bij, z) <==> enode_public_slots(n).contains(z),
        forall|y: Slot| has_key(bij, y) <==> enode_public_slots(shape_node(n)).contains(y),
{
    let s = enode_all_slots(n);
    let f = firsts_spec(s);
    let g = |z: Slot| first_use_name(s, z);
    lemma_first_use_name(s);
    lemma_shape_public(n);
    let pn = enode_public_slots(n);
    let pc = enode_public_slots(shape_node(n));
    assert forall|y: Slot| has_key(bij, y) <==> pc.contains(y) by {
        if pc.contains(y) {
            let i = choose|i: int| 0 <= i < pc.len() && pc[i] == y;
            assert(pn.contains(pn[i]));
            assert(s.contains(pn[i]));
            assert(y == g(pn[i]));
        }
    }
    assert forall|z: Slot| has_value(bij, z) <==> pn.contains(z) by {
        if has_value(bij, z) {
            let a = choose|a: int| 0 <= a < bij.len() && bij[a].1 == z;
            lemma_value_at(bij, a);
            let y = bij[a].0;
            assert(pc.contains(y));
            let i = choose|i: int| 0 <= i < pc.len() && pc[i] == y;
            assert(pn.contains(pn[i]));
            assert(s.contains(pn[i]));
            assert(y == g(pn[i]));
            assert(f[y.0 as int] == pn[i]);
        }
        if pn.contains(z) {
            let i = choose|i: int| 0 <= i < pn.len() && pn[i] == z;
            assert(s.contains(z));
            let y = g(z);
            assert(pc[i] == y);
            assert(pc.contains(y));
            assert(has_key(bij, y));
            let a = choose|a: int| 0 <= a < bij.len() && bij[a].0 == y;
            lemma_value_at(bij, a);
            assert(bij[a].1 == z);
        }
    }
}

/// The shape with its public slots renamed back is the node with its binder renamed.
proof fn lemma_shape_apply_core(n: ENodeView, bij: Seq<(Slot, Slot)>)
    requires
        enode_all_slots(n).len() < usize::MAX,
        is_shape_map(n, bij),
    ensures
        enode_with_public_slots(
            shape_node(n),
            enode_public_slots(shape_node(n)).map_values(|y: Slot| value_at(bij, y)),
        ) == rename_binder(n, binder_for(Slot(0), enode_public_slots(n))),
{
    let s = enode_all_slots(n);
    let f = firsts_spec(s);
    let g = |z: Slot| first_use_name(s, z);
    lemma_first_use_name(s);
    lemma_shape_public(n);
    let pn = enode_public_slots(n);
    let pc = enode_public_slots(shape_node(n));
    let back = pc.map_values(|y: Slot| value_at(bij, y));
    assert(back =~= pn) by {
        assert forall|i: int| 0 <= i < pn.len() implies back[i] == pn[i] by {
            assert(pn.contains(pn[i]));
            assert(s.contains(pn[i]));
            assert(pc[i] == g(pn[i]));
            assert(pc.contains(pc[i]));
        }
    }
    let names = first_use_names(s);
    match n {
        ENodeView::Lam(x, b) => {
            let vals = applied_slots(b);
            assert(names.skip(1) =~= vals.map_values(g)) by {
                assert forall|k: int| 0 <= k < vals.len() implies names.skip(1)[k] == vals.map_values(g)[k] by {
                    assert(names[k + 1] == first_use_name(s, s[k + 1]));
                    assert(s[k + 1] == vals[k]);
                }
            }
            lemma_firsts(s);
            lemma_firsts_head(s);
            assert(f.index_of(x) == 0) by {
                let i = f.index_of(x);
                assert(s.contains(x));
                assert(f.contains(x));
                assert(0 <= i < f.len() && f[i] == x);
            }
            assert(g(x) == Slot(0));
            assert forall|a: Slot, c: Slot|
                (vals.contains(a) || a == x) && (vals.contains(c) || c == x) && #[trigger] g(a) == #[trigger] g(c)
                    implies a == c by {
                assert(s.contains(x));
                if vals.contains(a) {
                    let i = choose|i: int| 0 <= i < vals.len() && vals[i] == a;
                    assert(s[i + 1] == a);
                }
                if vals.contains(c) {
                    let i = choose|i: int| 0 <= i < vals.len() && vals[i] == c;
                    assert(s[i + 1] == c);
                }
            }
            let z = binder_for(Slot(0), pn);
            assert(names[0] == Slot(0));
            assert(pn == drop_slot(vals, x));
            assert(binder_for(names[0], back) == z);
            lemma_refill_renamed(vals, x, z, g);
            lemma_with_values(b.1, names.skip(1), names.skip(1));
            lemma_refill_len(vals.map_values(g), g(x), z, pn);
            lemma_with_values(
                b.1,
                vals.map_values(g),
                refill(vals.map_values(g), g(x), z, pn),
            );
            let r = refill(vals.map_values(g), g(x), z, pn);
            assert(r == rename_in(vals, x, z));
            let bs = (b.0, with_values_seq(b.1, names.skip(1)));
            assert(shape_node(n) == ENodeView::Lam(names[0], bs));
            assert(applied_slots(bs) == vals.map_values(g));
            assert(enode_with_public_slots(shape_node(n), back) == ENodeView::Lam(
                z,
                (b.0, with_values_seq(bs.1, r)),
            ));
            assert(with_values_seq(bs.1, r) == with_values_seq(b.1, r));

        },
        ENodeView::App(l, r) => {
            let k = l.1.len() as int;
            lemma_with_values(l.1, names.take(k), s.take(k));
            lemma_with_values(r.1, names.skip(k), s.skip(k));
            assert(s.take(k) =~= values_of(l.1));
            assert(s.skip(k) =~= values_of(r.1));
            lemma_with_values(l.1, values_of(l.1), values_of(l.1));
            lemma_with_values(r.1, values_of(r.1), values_of(r.1));
        },
        ENodeView::Var(_) => {},
    }
}

/// Renaming the public slots of a shape by its map gives back the node, up to the name
/// of its binder (if it has one): the binder becomes `Slot(0)`, or, if the node exposes
/// `Slot(0)`, the first slot that the node does not expose. No exposed slot is captured:
/// the result exposes exactly what the node exposes.
pub proof fn lemma_shape_apply(n: ENodeView, bij: Seq<(Slot, Slot)>)
    requires
        enode_all_slots(n).len() < usize::MAX,
        is_shape_map(n, bij),
    ensures
        enode_with_public_slots(
            shape_node(n),
            enode_public_slots(shape_node(n)).map_values(|y: Slot| value_at(bij, y)),
        ) == rename_binder(n, binder_for(Slot(0), enode_public_slots(n))),
        !enode_public_slots(n).contains(binder_for(Slot(0), enode_public_slots(n))),
        enode_public_slots(rename_binder(n, binder_for(Slot(0), enode_public_slots(n))))
            == enode_public_slots(n),
{
    lemma_shape_apply_core(n, bij);
    lemma_shape_public(n);
    lemma_drop_slot_len_all(n);
    let pn = enode_public_slots(n);
    lemma_binder_for(Slot(0), pn);
    let sh = shape_node(n);
    let back = enode_public_slots(sh).map_values(|y: Slot| value_at(bij, y));
    lemma_shape_back(n, bij);
    lemma_public_slots_write_read(sh, back);
}

/// Renaming the public slots of a shape by its map gives the node's public slots.
proof fn lemma_shape_back(n: ENodeView, bij: Seq<(Slot, Slot)>)
    requires
        enode_all_slots(n).len() < usize::MAX,
        is_shape_map(n, bij),
    ensures
        enode_public_slots(shape_node(n)).map_values(|y: Slot| value_at(bij, y)) == enode_public_slots(n),
{
    let s = enode_all_slots(n);
    let g = |z: Slot| first_use_name(s, z);
    lemma_first_use_name(s);
    lemma_shape_public(n);
    let pn = enode_public_slots(n);
    let pc = enode_public_slots(shape_node(n));
    let back = pc.map_values(|y: Slot| value_at(bij, y));
    assert forall|i: int| 0 <= i < pn.len() implies back[i] == pn[i] by {
        assert(pn.contains(pn[i]));
        assert(s.contains(pn[i]));
        assert(pc[i] == g(pn[i]));
        assert(pc.contains(pc[i]));
    }
    assert(back =~= pn);
}


/// Reading all slot occurrences after writing them gives back what was written.
pub proof fn lemma_all_slots_write_read(n: ENodeView, s: Seq<Slot>)
    requires
        s.len() == enode_all_slots(n).len(),
    ensures
        enode_all_slots(enode_with_all_slots(n, s)) == s,
{
    match n {
        ENodeView::Lam(x, b) => {
            lemma_with_values(b.1, s.skip(1), s.skip(1));
            assert(seq![s[0]] + s.skip(1) =~= s);
        },
        ENodeView::App(l, r) => {
            let k = l.1.len() as int;
            lemma_with_values(l.1, s.take(k), s.take(k));
            lemma_with_values(r.1, s.skip(k), s.skip(k));
            assert(s.take(k) + s.skip(k) =~= s);
        },
        ENodeView::Var(x) => {
            assert(seq![s[0]] =~= s);
        },
    }
}

/// Reading the applied-id occurrences after writing them gives back what was written.
pub proof fn lemma_applied_ids_write_read(n: ENodeView, a: Seq<AppliedIdView>)
    requires
        a.len() == enode_applied_ids(n).len(),
    ensures
        enode_applied_ids(enode_with_applied_ids(n, a)) == a,
{
    match n {
        ENodeView::Lam(_, _) => {
            assert(seq![a[0]] =~= a);
        },
        ENodeView::App(_, _) => {
            assert(seq![a[0], a[1]] =~= a);
        },
        ENodeView::Var(_) => {
            assert(Seq::<AppliedIdView>::empty() =~= a);
        },
    }
}

/// Dropping `z` from what refilling put around the occurrences of `x` (now `z`) gives
/// back the filling, when the filling has no `z` of its own.
proof fn lemma_drop_refill(vals: Seq<Slot>, x: Slot, z: Slot, fill: Seq<Slot>)
    requires
        fill.len() == drop_slot(vals, x).len(),
        !fill.contains(z),
    ensures
        drop_slot(refill(vals, x, z, fill), z) == fill,
    decreases vals.len(),
{
    if vals.len() == 0 {
        assert(fill =~= Seq::<Slot>::empty());
    } else {
        let t = vals.drop_last();
        if vals.last() == x {
            lemma_drop_refill(t, x, z, fill);
            lemma_refill_len(t, x, z, fill);
            assert(refill(vals, x, z, fill).drop_last() =~= refill(t, x, z, fill));
        } else {
            let f0 = fill.drop_last();
            assert(!f0.contains(z)) by {
                if f0.contains(z) {
                    let i = choose|i: int| 0 <= i < f0.len() && f0[i] == z;
                    assert(fill[i] == z);
                }
            }
            lemma_drop_refill(t, x, z, f0);
            lemma_refill_len(t, x, z, f0);
            assert(refill(vals, x, z, fill).drop_last() =~= refill(t, x, z, f0));
            assert(fill.last() != z) by {
                assert(fill[fill.len() - 1] == fill.last());
            }
            assert(f0.push(fill.last()) =~= fill);
        }
    }
}

/// The binder that a write of `s` leaves is not among the written slots.
pub proof fn lemma_binder_for(x: Slot, s: Seq<Slot>)
    requires
        s.len() <= usize::MAX,
    ensures
        !s.contains(binder_for(x, s)),
        !s.contains(x) ==> binder_for(x, s) == x,
{
    lemma_first_absent(s);
}

/// The public slots of a node are no more than all its slots.
proof fn lemma_drop_slot_len_all(n: ENodeView)
    ensures
        enode_public_slots(n).len() <= enode_all_slots(n).len(),
{
    if let ENodeView::Lam(x, b) = n {
        lemma_drop_slot_len(applied_slots(b), x);
    }
}

/// Reading the public slot occurrences after writing them gives back what was written.
/// An abstraction whose binder is among the written slots takes a binder that is not, so
/// no written slot is captured.
pub proof fn lemma_public_slots_write_read(n: ENodeView, s: Seq<Slot>)
    requires
        s.len() == enode_public_slots(n).len(),
        s.len() <= usize::MAX,
    ensures
        enode_public_slots(enode_with_public_slots(n, s)) == s,
{
    match n {
        ENodeView::Lam(x, b) => {
            let vals = applied_slots(b);
            let z = binder_for(x, s);
            lemma_binder_for(x, s);
            lemma_refill_len(vals, x, z, s);
            lemma_with_values(b.1, refill(vals, x, z, s), refill(vals, x, z, s));
            lemma_drop_refill(vals, x, z, s);
        },
        _ => {
            lemma_all_slots_write_read(n, s);
        },
    }
}

} // verus!

verus! {

/// Each value of `compose_seq(s, t)` is what `t` gives a value of `s` that it maps: the
/// value of `s` at the returned position.
proof fn lemma_compose_value(s: Seq<(Slot, Slot)>, t: Seq<(Slot, Slot)>, i: int) -> (j: int)
    requires
        0 <= i < compose_seq(s, t).len(),
    ensures
        0 <= j < s.len(),
        has_key(t, s[j].1),
        compose_seq(s, t)[i].1 == value_at(t, s[j].1),
        compose_seq(s, t)[i].0 == s[j].0,
        j < s.len() - 1 ==> i < compose_seq(s.drop_last(), t).len(),
    decreases s.len(),
{
    let d = s.drop_last();
    let cd = compose_seq(d, t);
    if i < cd.len() {
        let j = lemma_compose_value(d, t, i);
        assert(s[j] == d[j]);
        j
    } else {
        assert(s[s.len() - 1] == s.last());
        s.len() - 1
    }
}

/// Renaming the slots of a bijection by a map that covers them and keeps distinct slots
/// apart gives a bijection: the slot map of an applied id stays a bijection.
pub proof fn lemma_renaming_keeps_bijection(s: Seq<(Slot, Slot)>, t: Seq<(Slot, Slot)>)
    requires
        values_of(s).no_duplicates(),
        forall|i: int, j: int|
            0 <= i < s.len() && 0 <= j < s.len() && has_key(t, s[i].1) && has_key(t, s[j].1)
                && value_at(t, #[trigger] s[i].1) == value_at(t, #[trigger] s[j].1) ==> i == j,
    ensures
        values_of(compose_seq(s, t)).no_duplicates(),
    decreases s.len(),
{
    if s.len() > 0 {
        let d = s.drop_last();
        let n = s.len() - 1;
        assert(values_of(d).no_duplicates()) by {
            assert forall|a: int, b: int| 0 <= a < d.len() && 0 <= b < d.len() && a != b implies values_of(d)[a]
                != values_of(d)[b] by {
                assert(values_of(s)[a] != values_of(s)[b]);
            }
        }
        assert forall|i: int, j: int|
            0 <= i < d.len() && 0 <= j < d.len() && has_key(t, d[i].1) && has_key(t, d[j].1) && value_at(
                t,
                #[trigger] d[i].1,
            ) == value_at(t, #[trigger] d[j].1) implies i == j by {
            assert(s[i] == d[i] && s[j] == d[j]);
        }
        lemma_renaming_keeps_bijection(d, t);
        let cd = compose_seq(d, t);
        if has_key(t, s.last().1) {
            let c = compose_seq(s, t);
            assert(c == cd.push((s.last().0, value_at(t, s.last().1))));
            assert forall|a: int, b: int| 0 <= a < c.len() && 0 <= b < c.len() && a != b implies values_of(c)[a]
                != values_of(c)[b] by {
                if a < cd.len() && b < cd.len() {
                    assert(values_of(cd)[a] != values_of(cd)[b]);
                } else {
                    let k = if a < cd.len() { a } else { b };
                    let j = lemma_compose_value(d, t, k);
                    assert(s[j] == d[j]);
                    assert(s[n] == s.last());
                    if value_at(t, s[j].1) == value_at(t, s[n].1) {
                        assert(j == n);
                    }
                }
            }
        }
    }
}

} // verus!

verus! {

/// A slot of `s` other than `x` survives dropping `x`.
proof fn lemma_drop_slot_keeps(s: Seq<Slot>, x: Slot, v: Slot)
    requires
        s.contains(v),
        v != x,
    ensures
        drop_slot(s, x).contains(v),
    decreases s.len(),
{
    let t = s.drop_last();
    if s.last() == v {
        assert(drop_slot(s, x) == drop_slot(t, x).push(v));
        assert(drop_slot(s, x)[drop_slot(t, x).len() as int] == v);
    } else {
        let i = choose|i: int| 0 <= i < s.len() && s[i] == v;
        assert(i < s.len() - 1);
        assert(t[i] == v);
        lemma_drop_slot_keeps(t, x, v);
        let j = choose|j: int| 0 <= j < drop_slot(t, x).len() && drop_slot(t, x)[j] == v;
        if s.last() != x {
            assert(drop_slot(s, x)[j] == v);
        }
    }
}

/// Writing the renamed public slots back over the slots of an abstraction's body renames
/// each public slot, and puts `z` for the binder.
proof fn lemma_refill_mapped(s: Seq<Slot>, x: Slot, z: Slot, g: spec_fn(Slot) -> Slot)
    ensures
        refill(s, x, z, drop_slot(s, x).map_values(g)) == s.map_values(
            |v: Slot| if v == x { z } else { g(v) },
        ),
    decreases s.len(),
{
    if s.len() > 0 {
        let t = s.drop_last();
        lemma_refill_mapped(t, x, z, g);
        if s.last() != x {
            assert(drop_slot(s, x).map_values(g).drop_last() =~= drop_slot(t, x).map_values(g));
        }
        assert(s.map_values(|v: Slot| if v == x { z } else { g(v) }) =~= t.map_values(
            |v: Slot| if v == x { z } else { g(v) },
        ).push(if s.last() == x { z } else { g(s.last()) }));
    } else {
        assert(refill(s, x, z, drop_slot(s, x).map_values(g)) =~= s.map_values(
            |v: Slot| if v == x { z } else { g(v) },
        ));
    }
}

/// The slots that `m` gives the public slots of `n`.
pub open spec fn renamed_public(n: ENodeView, m: Seq<(Slot, Slot)>) -> Seq<Slot> {
    enode_public_slots(n).map_values(|y: Slot| value_at(m, y))
}

/// Every applied id of `n` has a bijective slot map.
pub open spec fn applied_ids_bijective(n: ENodeView) -> bool {
    forall|i: int|
        0 <= i < enode_applied_ids(n).len() ==> values_of(
            (#[trigger] enode_applied_ids(n)[i]).1,
        ).no_duplicates()
}

/// Renaming the public slots of a node whose applied ids are bijections, by a map that
/// covers them and keeps distinct ones apart, leaves every applied id a bijection.
pub proof fn lemma_apply_keeps_bijections(n: ENodeView, m: Seq<(Slot, Slot)>)
    requires
        applied_ids_bijective(n),
        enode_public_slots(n).len() <= usize::MAX,
        forall|y: Slot| enode_public_slots(n).contains(y) ==> has_key(m, y),
        forall|y1: Slot, y2: Slot|
            enode_public_slots(n).contains(y1) && enode_public_slots(n).contains(y2)
                && #[trigger] value_at(m, y1) == #[trigger] value_at(m, y2) ==> y1 == y2,
    ensures
        applied_ids_bijective(enode_with_public_slots(n, renamed_public(n, m))),
{
    let pn = enode_public_slots(n);
    let g = |y: Slot| value_at(m, y);
    let s = renamed_public(n, m);
    match n {
        ENodeView::Lam(x, b) => {
            let vals = applied_slots(b);
            assert(enode_applied_ids(n)[0] == b);
            let z = binder_for(x, s);
            lemma_binder_for(x, s);
            lemma_refill_mapped(vals, x, z, g);
            let h = |v: Slot| if v == x { z } else { g(v) };
            let r = vals.map_values(h);
            lemma_refill_len(vals, x, z, s);
            lemma_with_values(b.1, r, r);
            assert forall|a: int, c: int| 0 <= a < r.len() && 0 <= c < r.len() && a != c implies r[a]
                != r[c] by {
                assert(values_of(b.1)[a] != values_of(b.1)[c]);
                let va = vals[a];
                let vc = vals[c];
                if va != x {
                    assert(vals.contains(va));
                    lemma_drop_slot_keeps(vals, x, va);
                }
                if vc != x {
                    assert(vals.contains(vc));
                    lemma_drop_slot_keeps(vals, x, vc);
                }
                if va != x && vc == x {
                    let k = choose|k: int| 0 <= k < pn.len() && pn[k] == va;
                    assert(s[k] == g(va));
                    assert(s.contains(g(va)));
                }
                if va == x && vc != x {
                    let k = choose|k: int| 0 <= k < pn.len() && pn[k] == vc;
                    assert(s[k] == g(vc));
                    assert(s.contains(g(vc)));
                }
            }
            let rn = enode_with_public_slots(n, s);
            assert(enode_applied_ids(rn)[0].1 == with_values_seq(b.1, r));
        },
        ENodeView::App(l, r) => {
            let lv = values_of(l.1);
            let rv = values_of(r.1);
            let k = l.1.len() as int;
            assert(enode_applied_ids(n)[0] == l);
            assert(enode_applied_ids(n)[1] == r);
            assert(s.take(k) =~= lv.map_values(g));
            assert(s.skip(k) =~= rv.map_values(g));
            lemma_with_values(l.1, s.take(k), s.take(k));
            lemma_with_values(r.1, s.skip(k), s.skip(k));
            assert forall|a: int, c: int| 0 <= a < k && 0 <= c < k && a != c implies s.take(k)[a]
                != s.take(k)[c] by {
                assert(lv[a] != lv[c]);
                assert(pn[a] == lv[a] && pn[c] == lv[c]);
                assert(pn.contains(lv[a]) && pn.contains(lv[c]));
            }
            assert forall|a: int, c: int|
                0 <= a < rv.len() && 0 <= c < rv.len() && a != c implies s.skip(k)[a] != s.skip(k)[c] by {
                assert(rv[a] != rv[c]);
                assert(pn[k + a] == rv[a] && pn[k + c] == rv[c]);
                assert(pn.contains(rv[a]) && pn.contains(rv[c]));
            }
            let rn = enode_with_public_slots(n, s);
            assert(enode_applied_ids(rn)[0].1 == with_values_seq(l.1, s.take(k)));
            assert(enode_applied_ids(rn)[1].1 == with_values_seq(r.1, s.skip(k)));
        },
        ENodeView::Var(_) => {},
    }
}

} // verus!

verus! {

/// `inv` is what `SlotMap::inverse` gives for the pairs `m`.
pub open spec fn is_inverse(inv: Seq<(Slot, Slot)>, m: Seq<(Slot, Slot)>) -> bool {
    &&& forall|y: Slot| has_key(inv, y) <==> has_value(m, y)
    &&& forall|i: int|
        0 <= i < m.len() && (forall|j: int| i < j < m.len() ==> m[j].1 != m[i].1) ==> value_at(
            inv,
            #[trigger] m[i].1,
        ) == m[i].0
}

/// When `m` maps every slot of `s`, renaming by `m` drops no pair: each value is renamed
/// in place, so partial and full renaming of an applied id agree.
pub proof fn lemma_compose_total(s: Seq<(Slot, Slot)>, m: Seq<(Slot, Slot)>)
    requires
        forall|i: int| 0 <= i < s.len() ==> has_key(m, #[trigger] s[i].1),
    ensures
        compose_seq(s, m) == s.map_values(|p: (Slot, Slot)| (p.0, value_at(m, p.1))),
    decreases s.len(),
{
    if s.len() > 0 {
        let d = s.drop_last();
        assert forall|i: int| 0 <= i < d.len() implies has_key(m, #[trigger] d[i].1) by {
            assert(d[i] == s[i]);
        }
        lemma_compose_total(d, m);
        assert(has_key(m, s[s.len() - 1].1));
        assert(s.map_values(|p: (Slot, Slot)| (p.0, value_at(m, p.1))) =~= d.map_values(
            |p: (Slot, Slot)| (p.0, value_at(m, p.1)),
        ).push((s.last().0, value_at(m, s.last().1))));
    } else {
        assert(compose_seq(s, m) =~= s.map_values(|p: (Slot, Slot)| (p.0, value_at(m, p.1))));
    }
}

/// Renaming the slots of an applied id by a bijection that maps them all, and then by its
/// inverse, gives the applied id back.
pub proof fn lemma_apply_then_inverse(s: Seq<(Slot, Slot)>, m: Seq<(Slot, Slot)>, inv: Seq<(Slot, Slot)>)
    requires
        keys_sorted(m),
        values_of(m).no_duplicates(),
        forall|i: int| 0 <= i < s.len() ==> has_key(m, #[trigger] s[i].1),
        is_inverse(inv, m),
    ensures
        compose_seq(compose_seq(s, m), inv) == s,
    decreases s.len(),
{
    if s.len() > 0 {
        let d = s.drop_last();
        assert forall|i: int| 0 <= i < d.len() implies has_key(m, #[trigger] d[i].1) by {
            assert(d[i] == s[i]);
        }
        lemma_apply_then_inverse(d, m, inv);
        let y = s.last().1;
        assert(has_key(m, s[s.len() - 1].1));
        let j = choose|j: int| 0 <= j < m.len() && m[j].0 == y;
        lemma_value_at(m, j);
        assert forall|k: int| j < k < m.len() implies m[k].1 != m[j].1 by {
            assert(values_of(m)[k] != values_of(m)[j]);
        }
        assert(has_value(m, m[j].1));
        let c = compose_seq(s, m);
        assert(c == compose_seq(d, m).push((s.last().0, m[j].1)));
        assert(c.drop_last() =~= compose_seq(d, m));
        assert(d.push(s.last()) =~= s);
    } else {
        assert(compose_seq(compose_seq(s, m), inv) =~= s);
    }
}

/// `firsts` of a concatenation is `firsts` of the front, followed by `firsts` of what the
/// back adds; in particular `firsts(v)` is a prefix of `firsts(v + w)`.
pub proof fn lemma_firsts_concat(v: Seq<Slot>, w: Seq<Slot>)
    ensures
        firsts_spec(v + w) == firsts_spec(v) + firsts_spec(w.filter(|x: Slot| !v.contains(x))),
        firsts_spec(v).is_prefix_of(firsts_spec(v + w)),
    decreases w.len(),
{
    let p = |x: Slot| !v.contains(x);
    if w.len() == 0 {
        assert(v + w =~= v);
        reveal(Seq::filter);
        assert(w.filter(p) =~= Seq::<Slot>::empty());
        assert(firsts_spec(v) + firsts_spec(w.filter(p)) =~= firsts_spec(v));
    } else {
        let w0 = w.drop_last();
        let l = w.last();
        lemma_firsts_concat(v, w0);
        assert((v + w).drop_last() =~= v + w0);
        assert((v + w).last() == l);
        reveal(Seq::filter);
        assert(w.filter(p) == if p(l) { w0.filter(p).push(l) } else { w0.filter(p) });
        lemma_firsts(v);
        let fw = firsts_spec(w0.filter(p));
        lemma_firsts(w0.filter(p));
        if p(l) {
            let f = w0.filter(p).push(l);
            assert(f.drop_last() =~= w0.filter(p));
            assert(f.last() == l);
            assert((firsts_spec(v) + fw).contains(l) <==> fw.contains(l)) by {
                if (firsts_spec(v) + fw).contains(l) {
                    let i = choose|i: int| 0 <= i < (firsts_spec(v) + fw).len() && (firsts_spec(v) + fw)[i] == l;
                    if i < firsts_spec(v).len() {
                        assert(firsts_spec(v).contains(l));
                    } else {
                        assert(fw[i - firsts_spec(v).len()] == l);
                    }
                }
                if fw.contains(l) {
                    let i = choose|i: int| 0 <= i < fw.len() && fw[i] == l;
                    assert((firsts_spec(v) + fw)[firsts_spec(v).len() + i] == l);
                }
            }
            assert((firsts_spec(v) + fw).push(l) =~= firsts_spec(v) + fw.push(l));
        } else {
            assert(v.contains(l));
            assert(firsts_spec(v).contains(l));
            let i = choose|i: int| 0 <= i < firsts_spec(v).len() && firsts_spec(v)[i] == l;
            assert((firsts_spec(v) + fw)[i] == l);
        }
    }
}

/// Successive fresh slots from one counter: each call returns the counter's number and
/// moves it on by one, and nothing moves it back between calls. Then the slots strictly
/// increase, so no slot is handed out twice.
pub proof fn lemma_fresh_sequence(counters: Seq<nat>, slots: Seq<Slot>)
    requires
        slots.len() == counters.len(),
        forall|i: int| 0 <= i < slots.len() ==> (#[trigger] slots[i]).0 == counters[i],
        forall|i: int| 0 <= i < counters.len() - 1 ==> #[trigger] counters[i + 1] >= counters[i] + 1,
    ensures
        forall|i: int, j: int| 0 <= i < j < slots.len() ==> slots[i].0 < slots[j].0,
        forall|i: int, j: int| 0 <= i < j < slots.len() ==> slots[i] != slots[j],
    decreases slots.len(),
{
    if slots.len() > 0 {
        let n = slots.len() - 1;
        lemma_fresh_sequence(counters.drop_last(), slots.drop_last());
        assert forall|i: int, j: int| 0 <= i < j < slots.len() implies slots[i].0 < slots[j].0 by {
            if j < n {
                assert(slots.drop_last()[i] == slots[i] && slots.drop_last()[j] == slots[j]);
            } else if i < n - 1 {
                assert(slots.drop_last()[i] == slots[i] && slots.drop_last()[n - 1] == slots[n - 1]);
                assert(counters[n - 1 + 1] >= counters[n - 1] + 1);
            } else {
                assert(counters[i + 1] >= counters[i] + 1);
            }
        }
    }
}

} // verus!

verus! {

/// `idx` picks, in increasing positions of `b`, the entries of `a`.
pub open spec fn positions_into(a: Seq<Slot>, b: Seq<Slot>, idx: Seq<int>) -> bool {
    &&& idx.len() == a.len()
    &&& forall|k: int| 0 <= k < idx.len() ==> 0 <= #[trigger] idx[k] < b.len() && b[idx[k]] == a[k]
    &&& forall|k1: int, k2: int| 0 <= k1 < k2 < idx.len() ==> idx[k1] < idx[k2]
}

/// `a` is `b` with some entries left out.
pub open spec fn is_subsequence(a: Seq<Slot>, b: Seq<Slot>) -> bool {
    exists|idx: Seq<int>| #[trigger] positions_into(a, b, idx)
}

/// The positions of `s` that dropping `x` keeps.
pub open spec fn kept_positions(s: Seq<Slot>, x: Slot) -> Seq<int>
    decreases s.len(),
{
    if s.len() == 0 {
        Seq::empty()
    } else if s.last() == x {
        kept_positions(s.drop_last(), x)
    } else {
        kept_positions(s.drop_last(), x).push(s.len() - 1)
    }
}

proof fn lemma_kept_positions(s: Seq<Slot>, x: Slot)
    ensures
        positions_into(drop_slot(s, x), s, kept_positions(s, x)),
        forall|k: int| 0 <= k < kept_positions(s, x).len() ==> #[trigger] kept_positions(s, x)[k] < s.len(),
    decreases s.len(),
{
    if s.len() > 0 {
        let t = s.drop_last();
        lemma_kept_positions(t, x);
        let p = kept_positions(t, x);
        let d = drop_slot(t, x);
        assert forall|k: int| 0 <= k < p.len() implies s[p[k]] == t[p[k]] by {}
        if s.last() != x {
            let q = p.push(s.len() - 1);
            assert(q[p.len() as int] == s.len() - 1);
            assert(s[s.len() - 1] == s.last());
            assert forall|k: int| 0 <= k < q.len() implies 0 <= #[trigger] q[k] < s.len() && s[q[k]]
                == d.push(s.last())[k] by {
                if k < p.len() {
                    assert(q[k] == p[k]);
                }
            }
        }
    }
}

/// The public slot occurrences of a node are its slot occurrences with the binder's left
/// out; as sets, all the slots are the public ones together with the binder.
pub proof fn lemma_public_within_all(n: ENodeView)
    ensures
        is_subsequence(enode_public_slots(n), enode_all_slots(n)),
        enode_all_slots(n).to_set() == match n {
            ENodeView::Lam(x, _) => enode_public_slots(n).to_set().insert(x),
            _ => enode_public_slots(n).to_set(),
        },
{
    let a = enode_all_slots(n);
    let p = enode_public_slots(n);
    match n {
        ENodeView::Lam(x, b) => {
            let vals = applied_slots(b);
            lemma_kept_positions(vals, x);
            let kp = kept_positions(vals, x);
            let idx = kp.map_values(|i: int| i + 1);
            assert forall|k: int| 0 <= k < idx.len() implies 0 <= #[trigger] idx[k] < a.len() && a[idx[k]]
                == p[k] by {
                assert(idx[k] == kp[k] + 1);
                assert(a[kp[k] + 1] == vals[kp[k]]);
            }
            assert(positions_into(p, a, idx));
            assert forall|v: Slot| a.to_set().contains(v) <==> p.to_set().insert(x).contains(v) by {
                if a.contains(v) && v != x {
                    let i = choose|i: int| 0 <= i < a.len() && a[i] == v;
                    assert(vals[i - 1] == v);
                    lemma_drop_slot_keeps(vals, x, v);
                }
                if p.contains(v) {
                    lemma_drop_slot_contains(vals, x, v);
                    let i = choose|i: int| 0 <= i < vals.len() && vals[i] == v;
                    assert(a[i + 1] == v);
                }
                if v == x {
                    assert(a[0] == x);
                }
            }
            assert(a.to_set() =~= p.to_set().insert(x));
        },
        _ => {
            let idx = Seq::new(a.len(), |i: int| i);
            assert(positions_into(p, a, idx));
        },
    }
}

} // verus!

verus! {

/// Writing all slot occurrences twice is writing the second time only.
proof fn lemma_with_all_twice(n: ENodeView, a: Seq<Slot>, b: Seq<Slot>)
    requires
        a.len() == enode_all_slots(n).len(),
        b.len() == enode_all_slots(n).len(),
    ensures
        enode_with_all_slots(enode_with_all_slots(n, a), b) == enode_with_all_slots(n, b),
{
    match n {
        ENodeView::Lam(x, p) => {
            lemma_with_values(p.1, a.skip(1), b.skip(1));
        },
        ENodeView::App(l, r) => {
            let k = l.1.len() as int;
            lemma_with_values(l.1, a.take(k), b.take(k));
            lemma_with_values(r.1, a.skip(k), b.skip(k));
        },
        ENodeView::Var(_) => {},
    }
}

/// Renaming the slots injectively commutes with taking them in order of first use.
proof fn lemma_firsts_map(s: Seq<Slot>, g: spec_fn(Slot) -> Slot)
    requires
        forall|a: Slot, b: Slot| s.contains(a) && s.contains(b) && #[trigger] g(a) == #[trigger] g(b) ==> a == b,
    ensures
        firsts_spec(s.map_values(g)) == firsts_spec(s).map_values(g),
    decreases s.len(),
{
    if s.len() > 0 {
        let d = s.drop_last();
        let l = s.last();
        assert forall|a: Slot, b: Slot| d.contains(a) && d.contains(b) && #[trigger] g(a) == #[trigger] g(b)
            implies a == b by {
            let i = choose|i: int| 0 <= i < d.len() && d[i] == a;
            let j = choose|j: int| 0 <= j < d.len() && d[j] == b;
            assert(s[i] == a && s[j] == b);
        }
        lemma_firsts_map(d, g);
        lemma_firsts(d);
        assert(s.map_values(g).drop_last() =~= d.map_values(g));
        assert(s.contains(l)) by {
            assert(s[s.len() - 1] == l);
        }
        let fd = firsts_spec(d);
        assert(fd.map_values(g).contains(g(l)) <==> fd.contains(l)) by {
            if fd.map_values(g).contains(g(l)) {
                let i = choose|i: int| 0 <= i < fd.len() && fd.map_values(g)[i] == g(l);
                assert(fd.contains(fd[i]));
                assert(d.contains(fd[i]));
                let j = choose|j: int| 0 <= j < d.len() && d[j] == fd[i];
                assert(s[j] == fd[i]);
            }
            if fd.contains(l) {
                let i = choose|i: int| 0 <= i < fd.len() && fd[i] == l;
                assert(fd.map_values(g)[i] == g(l));
            }
        }
        assert(fd.push(l).map_values(g) =~= fd.map_values(g).push(g(l)));
    }
}

/// The renaming by first use gives the same names to a node and to any injective
/// renaming of it.
proof fn lemma_first_use_names_map(s: Seq<Slot>, g: spec_fn(Slot) -> Slot)
    requires
        s.len() < usize::MAX,
        forall|a: Slot, b: Slot| s.contains(a) && s.contains(b) && #[trigger] g(a) == #[trigger] g(b) ==> a == b,
    ensures
        first_use_names(s.map_values(g)) == first_use_names(s),
        firsts_spec(s.map_values(g)) == firsts_spec(s).map_values(g),
{
    let t = s.map_values(g);
    lemma_firsts_map(s, g);
    lemma_firsts(s);
    lemma_firsts(t);
    let f = firsts_spec(s);
    let ft = firsts_spec(t);
    assert forall|k: int| 0 <= k < s.len() implies first_use_names(t)[k] == first_use_names(s)[k] by {
        assert(s.contains(s[k]));
        assert(f.contains(s[k]));
        let i = f.index_of(s[k]);
        assert(0 <= i < f.len() && f[i] == s[k]);
        assert(t[k] == g(s[k]));
        assert(ft[i] == g(s[k]));
        assert(ft.contains(t[k]));
        let j = ft.index_of(t[k]);
        assert(0 <= j < ft.len() && ft[j] == t[k]);
        assert(i == j);
    }
    assert(first_use_names(t) =~= first_use_names(s));
}

/// Shapes ignore how slots are named: renaming every slot of a node injectively (binder
/// included) leaves its shape as it was, and renames the values of the shape's map by the
/// same renaming.
pub proof fn lemma_shape_renamed(n: ENodeView, g: spec_fn(Slot) -> Slot)
    requires
        enode_all_slots(n).len() < usize::MAX,
        forall|a: Slot, b: Slot|
            enode_all_slots(n).contains(a) && enode_all_slots(n).contains(b) && #[trigger] g(a) == #[trigger] g(
                b,
            ) ==> a == b,
    ensures
        shape_node(enode_with_all_slots(n, enode_all_slots(n).map_values(g))) == shape_node(n),
        forall|bij: Seq<(Slot, Slot)>, bij2: Seq<(Slot, Slot)>|
            #[trigger] is_shape_map(n, bij) && #[trigger] is_shape_map(
                enode_with_all_slots(n, enode_all_slots(n).map_values(g)),
                bij2,
            ) ==> (forall|y: Slot| #[trigger] has_key(bij2, y) <==> has_key(bij, y)) && (forall|y: Slot|
                has_key(bij, y) ==> #[trigger] value_at(bij2, y) == g(value_at(bij, y))),
{
    let s = enode_all_slots(n);
    let t = s.map_values(g);
    let n2 = enode_with_all_slots(n, t);
    lemma_all_slots_write_read(n, t);
    lemma_first_use_names_map(s, g);
    lemma_with_all_twice(n, t, first_use_names(s));
    lemma_firsts(s);
    assert forall|bij: Seq<(Slot, Slot)>, bij2: Seq<(Slot, Slot)>|
        #[trigger] is_shape_map(n, bij) && #[trigger] is_shape_map(n2, bij2) implies (forall|y: Slot|
        #[trigger] has_key(bij2, y) <==> has_key(bij, y)) && (forall|y: Slot|
        has_key(bij, y) ==> #[trigger] value_at(bij2, y) == g(value_at(bij, y))) by {
        assert forall|y: Slot| has_key(bij, y) implies #[trigger] value_at(bij2, y) == g(value_at(bij, y)) by {
            assert(firsts_spec(t)[y.0 as int] == g(firsts_spec(s)[y.0 as int]));
        }
    }
}

/// The shape of a shape is itself, and its map sends each of its public slots to itself.
pub proof fn lemma_shape_of_shape(n: ENodeView)
    requires
        enode_all_slots(n).len() < usize::MAX,
    ensures
        shape_node(shape_node(n)) == shape_node(n),
        forall|bij: Seq<(Slot, Slot)>|
            #[trigger] is_shape_map(shape_node(n), bij) ==> (forall|y: Slot|
                #[trigger] has_key(bij, y) <==> enode_public_slots(shape_node(n)).contains(y)) && (forall|
                y: Slot,
            | has_key(bij, y) ==> #[trigger] value_at(bij, y) == y),
{
    let s = enode_all_slots(n);
    let f = firsts_spec(s);
    let names = first_use_names(s);
    let g = |z: Slot| first_use_name(s, z);
    lemma_first_use_name(s);
    lemma_firsts(s);
    assert(names =~= s.map_values(g));
    lemma_all_slots_write_read(n, names);
    let sh = shape_node(n);
    assert(enode_all_slots(sh) == names);
    lemma_first_use_names_map(s, g);
    // The distinct names, in order of first use, are Slot(0), Slot(1), ...
    let fn_ = firsts_spec(names);
    assert(fn_ == f.map_values(g));
    assert forall|j: int| 0 <= j < fn_.len() implies #[trigger] fn_[j] == Slot(j as usize) by {
        assert(f.contains(f[j]));
        let i = f.index_of(f[j]);
        assert(0 <= i < f.len() && f[i] == f[j]);
        assert(i == j);
    }
    // So renaming the names by first use changes nothing.
    lemma_firsts(names);
    assert forall|k: int| 0 <= k < names.len() implies #[trigger] first_use_names(names)[k] == names[k] by {
        assert(s.contains(s[k]));
        let j = names[k].0 as int;
        assert(names[k] == g(s[k]));
        assert(j < f.len());
        assert(fn_[j] == Slot(j as usize));
        assert(fn_[j] == names[k]);
        assert(fn_.contains(names[k]));
        let i = fn_.index_of(names[k]);
        assert(0 <= i < fn_.len() && fn_[i] == names[k]);
        assert(fn_[i] == Slot(i as usize));
    }
    assert(first_use_names(names) =~= names);
    lemma_with_all_twice(n, names, names);
    // Every public slot of the shape is numbered below the count of distinct names.
    lemma_shape_public(n);
    assert forall|bij: Seq<(Slot, Slot)>| #[trigger] is_shape_map(sh, bij) implies (forall|y: Slot|
        #[trigger] has_key(bij, y) <==> enode_public_slots(sh).contains(y)) && (forall|y: Slot|
        has_key(bij, y) ==> #[trigger] value_at(bij, y) == y) by {
        assert forall|y: Slot| #[trigger] has_key(bij, y) <==> enode_public_slots(sh).contains(y) by {
            if enode_public_slots(sh).contains(y) {
                let i = choose|i: int| 0 <= i < enode_public_slots(sh).len() && enode_public_slots(sh)[i] == y;
                let z = enode_public_slots(n)[i];
                assert(enode_public_slots(n).contains(z));
                assert(s.contains(z));
                assert(y == g(z));
            }
        }
        assert forall|y: Slot| has_key(bij, y) implies #[trigger] value_at(bij, y) == y by {
            assert(fn_[y.0 as int] == Slot(y.0 as int as usize));
        }
    }
}

} // verus!

verus! {

/// Renaming keeps the order of the keys: the pairs that survive are in the order of `s`.
proof fn lemma_compose_sorted(s: Seq<(Slot, Slot)>, t: Seq<(Slot, Slot)>)
    requires
        keys_sorted(s),
    ensures
        keys_sorted(compose_seq(s, t)),
    decreases s.len(),
{
    if s.len() > 0 {
        let d = s.drop_last();
        assert(keys_sorted(d)) by {
            assert forall|a: int, b: int| 0 <= a < b < d.len() implies d[a].0.0 < d[b].0.0 by {
                assert(d[a] == s[a] && d[b] == s[b]);
            }
        }
        lemma_compose_sorted(d, t);
        let cd = compose_seq(d, t);
        let c = compose_seq(s, t);
        if has_key(t, s.last().1) {
            assert forall|a: int, b: int| 0 <= a < b < c.len() implies c[a].0.0 < c[b].0.0 by {
                if b == cd.len() {
                    let j = lemma_compose_value(d, t, a);
                    assert(d[j] == s[j]);
                    assert(s[s.len() - 1] == s.last());
                } else {
                    assert(c[a] == cd[a] && c[b] == cd[b]);
                }
            }
        }
    }
}

/// The pair of `s` at position `i`, renamed, is among the pairs that renaming keeps.
proof fn lemma_compose_keeps(s: Seq<(Slot, Slot)>, t: Seq<(Slot, Slot)>, i: int) -> (k: int)
    requires
        0 <= i < s.len(),
        has_key(t, s[i].1),
    ensures
        0 <= k < compose_seq(s, t).len(),
        compose_seq(s, t)[k] == (s[i].0, value_at(t, s[i].1)),
    decreases s.len(),
{
    let d = s.drop_last();
    if i == s.len() - 1 {
        assert(s[i] == s.last());
        compose_seq(d, t).len() as int
    } else {
        assert(d[i] == s[i]);
        let k = lemma_compose_keeps(d, t, i);
        assert(compose_seq(s, t)[k] == compose_seq(d, t)[k]);
        k
    }
}

/// Renaming the slots of a slot map by `t` treats each pair on its own: a pair whose
/// value `t` maps keeps its key and takes `t`'s value for it; every key of the result is
/// such a key of `s`. So a pair that `t` does not map drops only itself.
pub proof fn lemma_compose_pairs(s: Seq<(Slot, Slot)>, t: Seq<(Slot, Slot)>)
    requires
        keys_sorted(s),
    ensures
        keys_sorted(compose_seq(s, t)),
        forall|i: int|
            0 <= i < s.len() && has_key(t, #[trigger] s[i].1) ==> has_key(compose_seq(s, t), s[i].0)
                && value_at(compose_seq(s, t), s[i].0) == value_at(t, s[i].1),
        forall|k: Slot|
            has_key(compose_seq(s, t), k) ==> exists|i: int|
                0 <= i < s.len() && (#[trigger] s[i]).0 == k && has_key(t, s[i].1),
{
    lemma_compose_sorted(s, t);
    let c = compose_seq(s, t);
    assert forall|i: int| 0 <= i < s.len() && has_key(t, #[trigger] s[i].1) implies has_key(c, s[i].0)
        && value_at(c, s[i].0) == value_at(t, s[i].1) by {
        let k = lemma_compose_keeps(s, t, i);
        lemma_value_at(c, k);
    }
    assert forall|k: Slot| has_key(c, k) implies exists|i: int|
        0 <= i < s.len() && (#[trigger] s[i]).0 == k && has_key(t, s[i].1) by {
        let a = choose|a: int| 0 <= a < c.len() && c[a].0 == k;
        let j = lemma_compose_value(s, t, a);
        assert(s[j].0 == k);
    }
}

/// Writing applied ids changes no slot of the node itself: the kind of node stays, and so
/// do an abstraction's binder and a variable's slot.
pub proof fn lemma_applied_ids_write_keeps_slots(n: ENodeView, a: Seq<AppliedIdView>)
    requires
        a.len() == enode_applied_ids(n).len(),
    ensures
        crate::lang::enode_discr(enode_with_applied_ids(n, a)) == crate::lang::enode_discr(n),
        n matches ENodeView::Lam(x, _) ==> enode_with_applied_ids(n, a) matches ENodeView::Lam(y, _)
            && y == x,
        n matches ENodeView::Var(x) ==> enode_with_applied_ids(n, a) matches ENodeView::Var(y) && y == x,
        enode_applied_ids(enode_with_applied_ids(n, a)) == a,
{
    lemma_applied_ids_write_read(n, a);
}

} // verus!
