use vstd::prelude::*;
use vstd::pervasive::strictly_cloned;
use crate::slot::{Id, Slot};
use crate::slotset::SlotSet;
use crate::slotmap::{
    SlotMap, values_of, keys_of, keys_sorted, has_key, has_value, value_at, lemma_value_at, compose_seq,
    with_values_seq,
};

verus! {

/// The slots of `s` in the order of their first occurrence, each once.
pub open spec fn firsts_spec(s: Seq<Slot>) -> Seq<Slot>
    decreases s.len(),
{
    if s.len() == 0 {
        Seq::empty()
    } else {
        let f = firsts_spec(s.drop_last());
        if f.contains(s.last()) {
            f
        } else {
            f.push(s.last())
        }
    }
}

/// `firsts_spec(s)` holds each slot of `s` exactly once, and nothing else.
pub proof fn lemma_firsts(s: Seq<Slot>)
    ensures
        firsts_spec(s).no_duplicates(),
        forall|x: Slot| firsts_spec(s).contains(x) <==> s.contains(x),
        firsts_spec(s).len() <= s.len(),
    decreases s.len(),
{
    if s.len() > 0 {
        lemma_firsts(s.drop_last());
        let f = firsts_spec(s.drop_last());
        assert forall|x: Slot| firsts_spec(s).contains(x) <==> s.contains(x) by {
            if f.push(s.last()).contains(x) && x != s.last() {
                let i = choose|i: int| 0 <= i < f.push(s.last()).len() && f.push(s.last())[i] == x;
                assert(f[i] == x);
            }
            assert(f.push(s.last())[f.len() as int] == s.last());
            if f.contains(x) {
                let i = choose|i: int| 0 <= i < f.len() && f[i] == x;
                assert(f.push(s.last())[i] == x);
            }
            assert(s[s.len() - 1] == s.last());
            if s.contains(x) {
                let i = choose|i: int| 0 <= i < s.len() && s[i] == x;
                if i < s.len() - 1 {
                    assert(s.drop_last()[i] == x);
                }
            }
            if s.drop_last().contains(x) {
                let i = choose|i: int| 0 <= i < s.drop_last().len() && s.drop_last()[i] == x;
                assert(s[i] == x);
            }
        }
    }
}

/// Whether `x` occurs in `v`.
fn vec_contains(v: &Vec<Slot>, x: Slot) -> (b: bool)
    ensures
        b == v@.contains(x),
{
    let mut i: usize = 0;
    while i < v.len()
        invariant
            0 <= i <= v@.len(),
            forall|k: int| 0 <= k < i ==> v@[k] != x,
        decreases v@.len() - i,
    {
        if v[i] == x {
            return true;
        }
        i = i + 1;
    }
    false
}

/// The slots of `v` in the order of their first usage, each once.
pub fn firsts(v: Vec<Slot>) -> (out: Vec<Slot>)
    ensures
        out@ == firsts_spec(v@),
{
    let mut out: Vec<Slot> = Vec::new();
    let mut i: usize = 0;
    while i < v.len()
        invariant
            0 <= i <= v@.len(),
            out@ == firsts_spec(v@.take(i as int)),
        decreases v@.len() - i,
    {
        let x = v[i];
        assert(v@.take(i + 1).drop_last() =~= v@.take(i as int));
        if !vec_contains(&out, x) {
            out.push(x);
        }
        i = i + 1;
    }
    assert(v@.take(v@.len() as int) =~= v@);
    out
}

/// The set of the slots in `v`.
pub fn as_set(v: Vec<Slot>) -> (s: SlotSet)
    ensures
        s@ == v@.to_set(),
{
    SlotSet::from_slots(&v)
}

/// The view of an applied id: its e-class and the pairs of its slot map.
pub type AppliedIdView = (Id, Seq<(Slot, Slot)>);

/// An e-class id together with the renaming of its slots.
///
/// `m` maps the slots of `id` to the slots that are put into it, and is meant to be a
/// bijection; its values, in the order of its keys, are the slots the applied id exposes.
#[derive(PartialEq, Eq, Hash, PartialOrd, Ord, Debug)]
pub struct AppliedId {
    pub id: Id,
    pub m: SlotMap,
}

impl View for AppliedId {
    type V = AppliedIdView;

    open spec fn view(&self) -> AppliedIdView {
        (self.id, self.m@)
    }
}

impl Clone for AppliedId {
    fn clone(&self) -> (r: AppliedId)
        ensures
            r@ == self@,
    {
        AppliedId { id: self.id, m: self.m.clone() }
    }
}

/// The views of a sequence of applied ids.
pub open spec fn views_of(s: Seq<AppliedId>) -> Seq<AppliedIdView> {
    s.map_values(|a: AppliedId| a@)
}

/// `outs[i]` is a result of `f` on `ins[i]`, for each `i`.
pub open spec fn mapped_by<F: Fn(AppliedId) -> AppliedId>(
    f: F,
    ins: Seq<AppliedId>,
    outs: Seq<AppliedId>,
) -> bool {
    &&& outs.len() == ins.len()
    &&& forall|i: int| 0 <= i < outs.len() ==> call_ensures(f, (ins[i],), #[trigger] outs[i])
}

/// The slots that an applied id exposes, in the order of the keys of its map.
pub open spec fn applied_slots(a: AppliedIdView) -> Seq<Slot> {
    values_of(a.1)
}

impl AppliedId {
    /// The applied id of `id` under `m`; `m` must be a bijection.
    pub fn new(id: Id, m: SlotMap) -> (s: AppliedId)
        requires
            values_of(m@).no_duplicates(),
        ensures
            s@ == (id, m@),
    {
        let s = AppliedId { id, m };
        s.check();
        s
    }

    /// Holds only of an applied id whose map is a bijection.
    pub fn check(&self)
        requires
            values_of(self.m@).no_duplicates(),
    {
        let is_bijection = self.m.is_bijection();
        assert(is_bijection);
    }

    /// Renames the exposed slots by `m`, which must map all of them, injectively.
    pub fn apply_slotmap(&self, m: &SlotMap) -> (r: AppliedId)
        requires
            values_of(self.m@).to_set().subset_of(keys_of(m@).to_set()),
            values_of(compose_seq(self.m@, m@)).no_duplicates(),
        ensures
            r@ == (self.id, compose_seq(self.m@, m@)),
    {
        self.apply_slotmap_partial(m)
    }

    /// Renames the exposed slots by `m`; a slot that `m` does not map is dropped together
    /// with its key. The result must be a bijection.
    pub fn apply_slotmap_partial(&self, m: &SlotMap) -> (r: AppliedId)
        requires
            values_of(compose_seq(self.m@, m@)).no_duplicates(),
        ensures
            r@ == (self.id, compose_seq(self.m@, m@)),
    {
        AppliedId::new(self.id, self.m.compose_partial(m))
    }

    /// The set of exposed slots.
    pub fn slots(&self) -> (s: SlotSet)
        ensures
            s@ == applied_slots(self@).to_set(),
    {
        self.m.values()
    }

    /// The exposed slots, in order.
    pub fn slots_in_order(&self) -> (v: Vec<Slot>)
        ensures
            v@ == applied_slots(self@),
    {
        self.m.values_in_order()
    }

    /// Writes `new_slots`, in order, over the exposed slots; the keys stay.
    pub fn slots_mut(&mut self, new_slots: &Vec<Slot>)
        requires
            new_slots@.len() == applied_slots(old(self)@).len(),
        ensures
            final(self)@ == (old(self).id, with_values_seq(old(self).m@, new_slots@)),
    {
        self.m = self.m.with_values(new_slots);
    }
}


/// `s` without the occurrences of `x`, in order.
pub open spec fn drop_slot(s: Seq<Slot>, x: Slot) -> Seq<Slot>
    decreases s.len(),
{
    if s.len() == 0 {
        s
    } else {
        let r = drop_slot(s.drop_last(), x);
        if s.last() == x {
            r
        } else {
            r.push(s.last())
        }
    }
}

/// `vals` with its occurrences of `x` replaced by `z` and its other entries replaced, in
/// order, by the entries of `fill`.
pub open spec fn refill(vals: Seq<Slot>, x: Slot, z: Slot, fill: Seq<Slot>) -> Seq<Slot>
    decreases vals.len(),
{
    if vals.len() == 0 {
        Seq::empty()
    } else if vals.last() == x {
        refill(vals.drop_last(), x, z, fill).push(z)
    } else {
        refill(vals.drop_last(), x, z, fill.drop_last()).push(fill.last())
    }
}

pub proof fn lemma_refill_len(vals: Seq<Slot>, x: Slot, z: Slot, fill: Seq<Slot>)
    ensures
        refill(vals, x, z, fill).len() == vals.len(),
    decreases vals.len(),
{
    if vals.len() > 0 {
        if vals.last() == x {
            lemma_refill_len(vals.drop_last(), x, z, fill);
        } else {
            lemma_refill_len(vals.drop_last(), x, z, fill.drop_last());
        }
    }
}

/// The slot numbered `k`.
pub open spec fn numbered(k: nat) -> Slot {
    Slot(k as usize)
}

/// The least number from `k` on whose slot is not in `s`, or `s.len() + 1` if every number
/// from `k` to `s.len()` is.
pub open spec fn absent_from(s: Seq<Slot>, k: nat) -> nat
    decreases s.len() + 1 - k,
{
    if k > s.len() || !s.contains(numbered(k)) {
        k
    } else {
        absent_from(s, k + 1)
    }
}

/// The slot with the least number that is not in `s`.
pub open spec fn first_absent(s: Seq<Slot>) -> Slot {
    numbered(absent_from(s, 0))
}

/// The binder that an abstraction with binder `x` takes when `s` is written over its
/// public slots: `x` itself, unless `s` holds `x`, which the binder would then capture;
/// then the first slot that `s` does not hold.
pub open spec fn binder_for(x: Slot, s: Seq<Slot>) -> Slot {
    if s.contains(x) {
        first_absent(s)
    } else {
        x
    }
}

/// `absent_from(s, k)` is the first number from `k` on whose slot is not in `s`, if one
/// up to `s.len()` is missing.
proof fn lemma_absent_from(s: Seq<Slot>, k: nat)
    requires
        k <= s.len() + 1,
        s.len() <= usize::MAX,
    ensures
        k <= absent_from(s, k) <= s.len() + 1,
        forall|j: nat| k <= j < absent_from(s, k) ==> s.contains(#[trigger] numbered(j)),
        absent_from(s, k) <= s.len() ==> !s.contains(numbered(absent_from(s, k))),
    decreases s.len() + 1 - k,
{
    if !(k > s.len() || !s.contains(numbered(k))) {
        lemma_absent_from(s, k + 1);
    }
}

/// Some number up to `s.len()` has its slot missing from `s`, since `s` has fewer entries
/// than there are such numbers.
proof fn lemma_some_absent(s: Seq<Slot>)
    requires
        s.len() <= usize::MAX,
    ensures
        exists|k: nat| k <= s.len() && !s.contains(numbered(k)),
{
    if forall|k: nat| k <= s.len() ==> s.contains(numbered(k)) {
        let r = vstd::set_lib::set_int_range(0, s.len() as int + 1);
        vstd::set_lib::lemma_int_range(0, s.len() as int + 1);
        let f = |k: int| numbered(k as nat);
        assert(vstd::relations::injective_on(f, r)) by {
            assert forall|a: int, b: int| r.contains(a) && r.contains(b) && #[trigger] f(a) == #[trigger] f(b)
                implies a == b by {}
        }
        vstd::set_lib::lemma_map_size(r, r.map(f), f);
        assert(r.map(f).subset_of(s.to_set())) by {
            assert forall|y: Slot| r.map(f).contains(y) implies s.to_set().contains(y) by {
                let k = choose|k: int| r.contains(k) && f(k) == y;
                assert(s.contains(numbered(k as nat)));
            }
        }
        s.lemma_cardinality_of_set();
        vstd::set_lib::lemma_len_subset(r.map(f), s.to_set());
    }
}

/// The first absent slot is missing from `s`, and numbered at most `s.len()`.
pub proof fn lemma_first_absent(s: Seq<Slot>)
    requires
        s.len() <= usize::MAX,
    ensures
        !s.contains(first_absent(s)),
        absent_from(s, 0) <= s.len(),
        first_absent(s).0 <= s.len(),
        forall|j: nat| j < first_absent(s).0 ==> s.contains(#[trigger] numbered(j)),
{
    lemma_absent_from(s, 0);
    lemma_some_absent(s);
    let k = choose|k: nat| k <= s.len() && !s.contains(numbered(k));
    if absent_from(s, 0) > s.len() {
        assert(s.contains(numbered(k)));
    }
}

/// The slot with the least number that is not in `v`.
fn first_absent_vec(v: &Vec<Slot>) -> (z: Slot)
    ensures
        z == first_absent(v@),
{
    let n = v.len();
    proof {
        lemma_first_absent(v@);
        lemma_absent_from(v@, 0);
    }
    let mut k: usize = 0;
    while vec_contains(v, Slot(k))
        invariant
            k <= v@.len(),
            v@.len() <= usize::MAX,
            absent_from(v@, 0) <= v@.len(),
            forall|j: nat| j < k ==> v@.contains(#[trigger] numbered(j)),
            absent_from(v@, 0) == absent_from(v@, k as nat),
        decreases v@.len() - k,
    {
        assert(absent_from(v@, k as nat) == absent_from(v@, (k + 1) as nat));
        if k == v.len() {
            proof {
                lemma_absent_from(v@, 0);
                assert(!v@.contains(numbered(absent_from(v@, 0))));
                assert(v@.contains(numbered(absent_from(v@, 0))));
            }
        }
        k = k + 1;
    }
    Slot(k)
}

/// `v` without the occurrences of `x`.
fn drop_slot_vec(v: &Vec<Slot>, x: Slot) -> (r: Vec<Slot>)
    ensures
        r@ == drop_slot(v@, x),
{
    let mut out: Vec<Slot> = Vec::new();
    let mut i: usize = 0;
    while i < v.len()
        invariant
            0 <= i <= v@.len(),
            out@ == drop_slot(v@.take(i as int), x),
        decreases v@.len() - i,
    {
        assert(v@.take(i + 1).drop_last() =~= v@.take(i as int));
        if v[i] != x {
            out.push(v[i]);
        }
        i = i + 1;
    }
    assert(v@.take(v@.len() as int) =~= v@);
    out
}

/// `vals` with its occurrences of `x` replaced by `z` and the others replaced, in order, by
/// `fill`.
fn refill_vec(vals: &Vec<Slot>, x: Slot, z: Slot, fill: &Vec<Slot>) -> (r: Vec<Slot>)
    requires
        fill@.len() == drop_slot(vals@, x).len(),
    ensures
        r@ == refill(vals@, x, z, fill@),
{
    let mut out: Vec<Slot> = Vec::new();
    let mut i: usize = 0;
    let mut j: usize = 0;
    let flen = fill.len();
    while i < vals.len()
        invariant
            flen == fill@.len(),
            0 <= i <= vals@.len(),
            fill@.len() == drop_slot(vals@, x).len(),
            j == drop_slot(vals@.take(i as int), x).len(),
            j <= fill@.len(),
            out@ == refill(vals@.take(i as int), x, z, fill@.take(j as int)),
        decreases vals@.len() - i,
    {
        proof {
            lemma_drop_slot_prefix_len(vals@, x, i as int);
        }
        assert(vals@.take(i + 1).drop_last() =~= vals@.take(i as int));
        if vals[i] == x {
            out.push(z);
        } else {
            assert(fill@.take(j + 1).drop_last() =~= fill@.take(j as int));
            assert(j < fill@.len());
            out.push(fill[j]);
            j = j + 1;
        }
        i = i + 1;
    }
    assert(vals@.take(vals@.len() as int) =~= vals@);
    assert(fill@.take(j as int) =~= fill@);
    out
}

/// Dropping a slot leaves no more entries than there were.
pub proof fn lemma_drop_slot_len(s: Seq<Slot>, x: Slot)
    ensures
        drop_slot(s, x).len() <= s.len(),
    decreases s.len(),
{
    if s.len() > 0 {
        lemma_drop_slot_len(s.drop_last(), x);
    }
}

/// Dropping from a longer prefix leaves at least as much, and a kept entry counts.
proof fn lemma_drop_slot_prefix_len(s: Seq<Slot>, x: Slot, i: int)
    requires
        0 <= i < s.len(),
    ensures
        drop_slot(s.take(i), x).len() + (if s[i] == x { 0int } else { 1int }) <= drop_slot(s, x).len(),
    decreases s.len(),
{
    assert(s.take(i + 1).drop_last() =~= s.take(i));
    if i + 1 < s.len() {
        lemma_drop_slot_prefix_len(s.drop_last(), x, i);
        assert(s.drop_last().take(i) =~= s.take(i));
    } else {
        assert(s.take(i + 1) =~= s);
    }
}

/// The exposed slots of `v`, from position `from` up to `to`.
fn sub_vec(v: &Vec<Slot>, from: usize, to: usize) -> (r: Vec<Slot>)
    requires
        from <= to <= v@.len(),
    ensures
        r@ == v@.subrange(from as int, to as int),
{
    let mut out: Vec<Slot> = Vec::new();
    let mut i: usize = from;
    while i < to
        invariant
            from <= i <= to <= v@.len(),
            out@ == v@.subrange(from as int, i as int),
        decreases to - i,
    {
        out.push(v[i]);
        i = i + 1;
        assert(out@ =~= v@.subrange(from as int, i as int));
    }
    out
}


/// Each slot of `s` renamed to `Slot(i)`, where `i` is the position of its first
/// occurrence among the distinct slots of `s`.
pub open spec fn first_use_names(s: Seq<Slot>) -> Seq<Slot> {
    Seq::new(s.len(), |k: int| Slot(firsts_spec(s).index_of(s[k]) as usize))
}

/// A map that sends the `j`-th of the distinct slots `f` to `Slot(j)` is injective, and
/// its values are the slots numbered below `f.len()`.
proof fn lemma_numbering_map(m: Seq<(Slot, Slot)>, f: Seq<Slot>)
    requires
        keys_sorted(m),
        f.no_duplicates(),
        forall|x: Slot| has_key(m, x) <==> f.contains(x),
        forall|j: int| 0 <= j < f.len() ==> value_at(m, #[trigger] f[j]) == Slot(j as usize),
        f.len() <= usize::MAX,
    ensures
        forall|y: Slot| has_value(m, y) <==> y.0 < f.len(),
        forall|a: int|
            0 <= a < m.len() ==> (#[trigger] m[a]).1.0 < f.len() && f[m[a].1.0 as int] == m[a].0,
        forall|a: int, b: int| 0 <= a < m.len() && 0 <= b < m.len() && a != b ==> m[a].1 != m[b].1,
{
    assert forall|a: int| 0 <= a < m.len() implies (#[trigger] m[a]).1.0 < f.len() && f[m[a].1.0 as int]
        == m[a].0 by {
        lemma_value_at(m, a);
        assert(f.contains(m[a].0));
        let j = choose|j: int| 0 <= j < f.len() && f[j] == m[a].0;
        assert(value_at(m, f[j]) == Slot(j as usize));
    }
    assert forall|y: Slot| has_value(m, y) <==> y.0 < f.len() by {
        if has_value(m, y) {
            let a = choose|a: int| 0 <= a < m.len() && m[a].1 == y;
            assert(m[a].1.0 < f.len());
        }
        if y.0 < f.len() {
            let j = y.0 as int;
            assert(f.contains(f[j]));
            assert(has_key(m, f[j]));
            let a = choose|a: int| 0 <= a < m.len() && m[a].0 == f[j];
            lemma_value_at(m, a);
            assert(m[a].1 == y);
        }
    }
    assert forall|a: int, b: int| 0 <= a < m.len() && 0 <= b < m.len() && a != b implies m[a].1 != m[b].1 by {
        if m[a].1 == m[b].1 {
            assert(m[a].0 == f[m[a].1.0 as int]);
            assert(m[b].0 == f[m[b].1.0 as int]);
            if a < b {
                assert(m[a].0.0 < m[b].0.0);
            } else {
                assert(m[b].0.0 < m[a].0.0);
            }
        }
    }
}

/// A language of e-nodes with slots and applied ids.
///
/// An e-node is described by its slot occurrences (all of them, binders included, and the
/// public ones, which it exposes) and its applied-id occurrences, each in order. The
/// `*_mut` methods write new values over those occurrences, in the same order.
pub trait Language: Sized + Clone + View {
    /// The kind of node, as a number.
    spec fn discr_spec(n: Self::V) -> u32;

    /// All slot occurrences, in order, with repetitions.
    spec fn all_slots_spec(n: Self::V) -> Seq<Slot>;

    /// The public slot occurrences, in order, with repetitions.
    spec fn public_slots_spec(n: Self::V) -> Seq<Slot>;

    /// The applied-id occurrences, in order.
    spec fn applied_ids_spec(n: Self::V) -> Seq<AppliedIdView>;

    /// The node with `s` written over all its slot occurrences.
    spec fn with_all_slots_spec(n: Self::V, s: Seq<Slot>) -> Self::V;

    /// The node with `s` written over its public slot occurrences.
    spec fn with_public_slots_spec(n: Self::V, s: Seq<Slot>) -> Self::V;

    /// The node with `a` written over its applied-id occurrences.
    spec fn with_applied_ids_spec(n: Self::V, a: Seq<AppliedIdView>) -> Self::V;

    /// A clone has the view of what it was cloned from.
    proof fn lemma_clone_view(a: Self, b: Self)
        requires
            strictly_cloned(a, b),
        ensures
            a@ == b@,
    ;

    fn discr(&self) -> (d: u32)
        ensures
            d == Self::discr_spec(self@),
    ;

    fn all_slot_occurences(&self) -> (v: Vec<Slot>)
        ensures
            v@ == Self::all_slots_spec(self@),
    ;

    fn public_slot_occurences(&self) -> (v: Vec<Slot>)
        ensures
            v@ == Self::public_slots_spec(self@),
    ;

    fn applied_id_occurences(&self) -> (v: Vec<AppliedId>)
        ensures
            views_of(v@) == Self::applied_ids_spec(self@),
    ;

    /// Writes `new_slots`, in order, over all slot occurrences.
    fn all_slot_occurences_mut(&mut self, new_slots: &Vec<Slot>)
        requires
            new_slots@.len() == Self::all_slots_spec(old(self)@).len(),
        ensures
            final(self)@ == Self::with_all_slots_spec(old(self)@, new_slots@),
    ;

    /// Writes `new_slots`, in order, over the public slot occurrences.
    fn public_slot_occurences_mut(&mut self, new_slots: &Vec<Slot>)
        requires
            new_slots@.len() == Self::public_slots_spec(old(self)@).len(),
        ensures
            final(self)@ == Self::with_public_slots_spec(old(self)@, new_slots@),
    ;

    /// Writes `new_ids`, in order, over the applied-id occurences.
    fn applied_id_occurences_mut(&mut self, new_ids: Vec<AppliedId>)
        requires
            new_ids@.len() == Self::applied_ids_spec(old(self)@).len(),
        ensures
            final(self)@ == Self::with_applied_ids_spec(old(self)@, views_of(new_ids@)),
    ;

    /// The node with each applied id `a` replaced by `f(a)`.
    fn map_applied_ids(&self, f: impl Fn(AppliedId) -> AppliedId) -> (r: Self)
        requires
            forall|a: AppliedId| Self::applied_ids_spec(self@).contains(a@) ==> call_requires(f, (a,)),
        ensures
            exists|ins: Seq<AppliedId>, outs: Seq<AppliedId>|
                #![trigger mapped_by(f, ins, outs)]
                {
                    &&& views_of(ins) == Self::applied_ids_spec(self@)
                    &&& mapped_by(f, ins, outs)
                    &&& r@ == Self::with_applied_ids_spec(self@, views_of(outs))
                },
    {
        let mut c = self.clone();
        proof {
            Self::lemma_clone_view(*self, c);
        }
        let ids = c.applied_id_occurences();
        let ghost idv = Self::applied_ids_spec(self@);
        let ghost mut ins: Seq<AppliedId> = Seq::empty();
        let mut out: Vec<AppliedId> = Vec::new();
        let mut i: usize = 0;
        while i < ids.len()
            invariant
                0 <= i <= ids@.len(),
                views_of(ids@) == idv,
                idv == Self::applied_ids_spec(self@),
                forall|a: AppliedId| idv.contains(a@) ==> call_requires(f, (a,)),
                out@.len() == i,
                ins.len() == i,
                forall|k: int| 0 <= k < i ==> (#[trigger] ins[k])@ == idv[k],
                forall|k: int| 0 <= k < i ==> call_ensures(f, (ins[k],), #[trigger] out@[k]),
            decreases ids@.len() - i,
        {
            let a = ids[i].clone();
            assert(idv[i as int] == ids@[i as int]@);
            assert(idv.contains(a@));
            proof {
                ins = ins.push(a);
            }
            let b = f(a);
            out.push(b);
            i = i + 1;
        }
        let ghost outs = out@;
        c.applied_id_occurences_mut(out);
        assert(views_of(ins) =~= idv);
        assert(views_of(ids@).len() == ids@.len());
        assert(mapped_by(f, ins, outs));
        assert(c@ == Self::with_applied_ids_spec(self@, views_of(outs)));
        c
    }

    /// The node with each public slot `x` renamed to `m[x]`; `m` must map all of them.
    fn apply_slotmap_partial(&self, m: &SlotMap) -> (r: Self)
        requires
            forall|i: int|
                0 <= i < Self::public_slots_spec(self@).len() ==> has_key(
                    m@,
                    #[trigger] Self::public_slots_spec(self@)[i],
                ),
        ensures
            r@ == Self::with_public_slots_spec(
                self@,
                Self::public_slots_spec(self@).map_values(|x: Slot| value_at(m@, x)),
            ),
    {
        let mut c = self.clone();
        proof {
            Self::lemma_clone_view(*self, c);
        }
        let p = c.public_slot_occurences();
        let ghost pv = Self::public_slots_spec(self@);
        let mut out: Vec<Slot> = Vec::new();
        let mut i: usize = 0;
        while i < p.len()
            invariant
                0 <= i <= p@.len(),
                p@ == pv,
                forall|k: int| 0 <= k < pv.len() ==> has_key(m@, #[trigger] pv[k]),
                out@ == pv.map_values(|x: Slot| value_at(m@, x)).take(i as int),
            decreases p@.len() - i,
        {
            assert(has_key(m@, pv[i as int]));
            out.push(m.index(p[i]));
            i = i + 1;
            assert(out@ =~= pv.map_values(|x: Slot| value_at(m@, x)).take(i as int));
        }
        assert(pv.map_values(|x: Slot| value_at(m@, x)).take(p@.len() as int) =~= pv.map_values(
            |x: Slot| value_at(m@, x),
        ));
        c.public_slot_occurences_mut(&out);
        c
    }

    /// The node with each public slot `x` renamed to `m[x]`; the keys of `m` must cover
    /// the public slots.
    fn apply_slotmap(&self, m: &SlotMap) -> (r: Self)
        requires
            Self::public_slots_spec(self@).to_set().subset_of(keys_of(m@).to_set()),
        ensures
            r@ == Self::with_public_slots_spec(
                self@,
                Self::public_slots_spec(self@).map_values(|x: Slot| value_at(m@, x)),
            ),
    {
        proof {
            let pv = Self::public_slots_spec(self@);
            assert forall|i: int| 0 <= i < pv.len() implies has_key(m@, #[trigger] pv[i]) by {
                assert(pv.to_set().contains(pv[i]));
                assert(keys_of(m@).to_set().contains(pv[i]));
                let j = choose|j: int| 0 <= j < keys_of(m@).len() && keys_of(m@)[j] == pv[i];
                assert(m@[j].0 == pv[i]);
            }
        }
        self.apply_slotmap_partial(m)
    }

    /// The public slot occurrences, in order, with repetitions.
    fn slot_occurences(&self) -> (v: Vec<Slot>)
        ensures
            v@ == Self::public_slots_spec(self@),
    {
        self.public_slot_occurences()
    }

    /// The public slots in the order of their first occurrence, each once.
    fn slot_order(&self) -> (v: Vec<Slot>)
        ensures
            v@ == firsts_spec(Self::public_slots_spec(self@)),
    {
        firsts(self.slot_occurences())
    }

    /// The set of public slots.
    fn slots(&self) -> (s: SlotSet)
        ensures
            s@ == Self::public_slots_spec(self@).to_set(),
    {
        as_set(self.slot_occurences())
    }

    /// The e-class ids of the applied-id occurrences, in order.
    fn ids(&self) -> (v: Vec<Id>)
        ensures
            v@ == Self::applied_ids_spec(self@).map_values(|a: AppliedIdView| a.0),
    {
        let a = self.applied_id_occurences();
        let ghost av = Self::applied_ids_spec(self@);
        let mut out: Vec<Id> = Vec::new();
        let mut i: usize = 0;
        while i < a.len()
            invariant
                0 <= i <= a@.len(),
                views_of(a@) == av,
                out@ == av.map_values(|b: AppliedIdView| b.0).take(i as int),
            decreases a@.len() - i,
        {
            assert(av[i as int] == a@[i as int]@);
            out.push(a[i].id);
            i = i + 1;
            assert(out@ =~= av.map_values(|b: AppliedIdView| b.0).take(i as int));
        }
        assert(av.map_values(|b: AppliedIdView| b.0).take(a@.len() as int) =~= av.map_values(
            |b: AppliedIdView| b.0,
        ));
        out
    }

    /// The node with its slots renamed to `Slot(0)`, `Slot(1)`, ... in the order of their
    /// first occurrence, binders included, together with the map from each renamed public
    /// slot back to the slot it replaced.
    fn shape(&self) -> (res: (Self, SlotMap))
        ensures
            res.0@ == Self::with_all_slots_spec(self@, first_use_names(Self::all_slots_spec(self@))),
            forall|y: Slot|
                has_key(res.1@, y) <==> (y.0 < firsts_spec(Self::all_slots_spec(self@)).len()
                    && Self::public_slots_spec(res.0@).contains(y)),
            forall|y: Slot|
                has_key(res.1@, y) ==> value_at(res.1@, y) == firsts_spec(
                    Self::all_slots_spec(self@),
                )[y.0 as int],
    {
        let mut c = self.clone();
        proof {
            Self::lemma_clone_view(*self, c);
        }
        let all = c.all_slot_occurences();
        let ghost s = all@;
        let mut m = SlotMap::new();
        let mut i: usize = 0;
        let mut names: Vec<Slot> = Vec::new();
        let ghost mut f: Seq<Slot> = Seq::empty();
        let mut k: usize = 0;
        assert(s.take(0) =~= Seq::<Slot>::empty());
        while k < all.len()
            invariant
                0 <= k <= s.len(),
                all@ == s,
                f == firsts_spec(s.take(k as int)),
                i == f.len(),
                i <= k,
                forall|x: Slot| has_key(m@, x) <==> f.contains(x),
                forall|j: int| 0 <= j < f.len() ==> value_at(m@, #[trigger] f[j]) == Slot(j as usize),
                names@.len() == k,
                forall|j: int|
                    0 <= j < k ==> (#[trigger] names@[j]).0 < f.len() && f[names@[j].0 as int] == s[j],
            decreases s.len() - k,
        {
            let x = all[k];
            assert(s.take(k + 1).drop_last() =~= s.take(k as int));
            assert(s.take(k + 1).last() == x);
            let ghost f0 = f;
            let ghost m0 = m@;
            if !m.contains_key(x) {
                m.insert(x, Slot(i));
                proof {
                    f = f.push(x);
                    assert forall|j: int| 0 <= j < f.len() implies value_at(m@, #[trigger] f[j]) == Slot(j as usize) by {
                        if j < f0.len() {
                            assert(f[j] == f0[j]);
                            assert(f0.contains(f0[j]));
                            assert(f0[j] != x);
                        }
                    }
                    assert forall|x2: Slot| has_key(m@, x2) <==> f.contains(x2) by {
                        if f.contains(x2) && x2 != x {
                            let j = choose|j: int| 0 <= j < f.len() && f[j] == x2;
                            assert(f0[j] == x2);
                        }
                        if f0.contains(x2) {
                            let j = choose|j: int| 0 <= j < f0.len() && f0[j] == x2;
                            assert(f[j] == x2);
                        }
                        assert(f[f0.len() as int] == x);
                    }
                }
                i = i + 1;
            }
            let y = m.index(x);
            proof {
                assert(f.contains(x));
                let j = choose|j: int| 0 <= j < f.len() && f[j] == x;
                assert(value_at(m@, f[j]) == Slot(j as usize));
                assert forall|j2: int| 0 <= j2 < k implies (#[trigger] names@[j2]).0 < f.len() && f[names@[j2].0 as int] == s[j2] by {
                    assert(f0[names@[j2].0 as int] == s[j2]);
                    if f.len() > f0.len() {
                        assert(f[names@[j2].0 as int] == f0[names@[j2].0 as int]);
                    }
                }
            }
            names.push(y);
            k = k + 1;
        }
        proof {
            assert(s.take(s.len() as int) =~= s);
            lemma_firsts(s);
            use_type_invariant(&m);
            assert forall|j: int| 0 <= j < s.len() implies names@[j] == #[trigger] first_use_names(s)[j] by {
                let t = names@[j].0 as int;
                assert(f[t] == s[j]);
                let u = f.index_of(s[j]);
                assert(f.contains(s[j]));
                assert(0 <= u < f.len() && f[u] == s[j]);
                assert(u == t);
            }
            assert(names@ =~= first_use_names(s));
            lemma_numbering_map(m@, f);
        }
        c.all_slot_occurences_mut(&names);
        let inv = m.inverse();
        let public = c.slots();
        let ps = inv.to_pairs();
        let mut out = SlotMap::new();
        let mut j: usize = 0;
        proof {
            use_type_invariant(&inv);
        }
        while j < ps.len()
            invariant
                0 <= j <= ps@.len(),
                ps@ == inv@,
                keys_sorted(inv@),
                forall|z: Slot|
                    has_key(out@, z) <==> (has_key(inv@.take(j as int), z) && public@.contains(z)),
                forall|z: Slot| has_key(out@, z) ==> value_at(out@, z) == value_at(inv@, z),
            decreases ps@.len() - j,
        {
            let (x, y) = ps[j];
            let ghost o0 = out@;
            proof {
                lemma_value_at(inv@, j as int);
                let t0 = inv@.take(j as int);
                let t1 = inv@.take(j + 1);
                assert forall|z: Slot| has_key(t1, z) <==> (has_key(t0, z) || z == x) by {
                    if has_key(t0, z) {
                        let a = choose|a: int| 0 <= a < t0.len() && t0[a].0 == z;
                        assert(t1[a].0 == z);
                    }
                    if has_key(t1, z) {
                        let a = choose|a: int| 0 <= a < t1.len() && t1[a].0 == z;
                        if a < j {
                            assert(t0[a].0 == z);
                        }
                    }
                    assert(t1[j as int].0 == x);
                }
            }
            if public.contains(x) {
                out.insert(x, y);
            }
            j = j + 1;
        }
        proof {
            assert(inv@.take(inv@.len() as int) =~= inv@);
            assert forall|y: Slot| has_key(out@, y) implies value_at(out@, y) == f[y.0 as int] by {
                assert(has_key(inv@, y));
                assert(has_value(m@, y));
                let a = choose|a: int| 0 <= a < m@.len() && m@[a].1 == y;
                assert(m@[a].1.0 < f.len() && f[m@[a].1.0 as int] == m@[a].0);
                assert(value_at(inv@, m@[a].1) == m@[a].0);
            }
        }
        (c, out)
    }
}


/// A term of the lambda calculus as a list of e-nodes, each of which refers to earlier
/// ones by their positions.
#[derive(Clone, Debug)]
pub struct RecExpr {
    pub node_dag: Vec<ENode>,
}

/// The view of an e-node of the lambda calculus.
pub ghost enum ENodeView {
    Lam(Slot, AppliedIdView),
    App(AppliedIdView, AppliedIdView),
    Var(Slot),
}

/// An e-node of the lambda calculus: an abstraction binding a slot, an application, or a
/// variable.
#[derive(PartialEq, Eq, Hash, PartialOrd, Ord, Debug)]
pub enum ENode {
    Lam(Slot, AppliedId),
    App(AppliedId, AppliedId),
    Var(Slot),
}

impl View for ENode {
    type V = ENodeView;

    open spec fn view(&self) -> ENodeView {
        match self {
            ENode::Lam(x, b) => ENodeView::Lam(*x, b@),
            ENode::App(l, r) => ENodeView::App(l@, r@),
            ENode::Var(x) => ENodeView::Var(*x),
        }
    }
}

impl Clone for ENode {
    fn clone(&self) -> (r: ENode)
        ensures
            r@ == self@,
    {
        match self {
            ENode::Lam(x, b) => ENode::Lam(*x, b.clone()),
            ENode::App(l, r) => ENode::App(l.clone(), r.clone()),
            ENode::Var(x) => ENode::Var(*x),
        }
    }
}

pub open spec fn enode_discr(n: ENodeView) -> u32 {
    match n {
        ENodeView::Lam(_, _) => 0,
        ENodeView::App(_, _) => 1,
        ENodeView::Var(_) => 2,
    }
}

/// The binder, then the slots of the body; the slots of both sides; the variable.
pub open spec fn enode_all_slots(n: ENodeView) -> Seq<Slot> {
    match n {
        ENodeView::Lam(x, b) => seq![x] + applied_slots(b),
        ENodeView::App(l, r) => applied_slots(l) + applied_slots(r),
        ENodeView::Var(x) => seq![x],
    }
}

/// Like `enode_all_slots`, but an abstraction exposes neither its binder nor the body's
/// occurrences of it.
pub open spec fn enode_public_slots(n: ENodeView) -> Seq<Slot> {
    match n {
        ENodeView::Lam(x, b) => drop_slot(applied_slots(b), x),
        ENodeView::App(l, r) => applied_slots(l) + applied_slots(r),
        ENodeView::Var(x) => seq![x],
    }
}

pub open spec fn enode_applied_ids(n: ENodeView) -> Seq<AppliedIdView> {
    match n {
        ENodeView::Lam(_, b) => seq![b],
        ENodeView::App(l, r) => seq![l, r],
        ENodeView::Var(_) => seq![],
    }
}

pub open spec fn enode_with_all_slots(n: ENodeView, s: Seq<Slot>) -> ENodeView {
    match n {
        ENodeView::Lam(_, b) => ENodeView::Lam(s[0], (b.0, with_values_seq(b.1, s.skip(1)))),
        ENodeView::App(l, r) => ENodeView::App(
            (l.0, with_values_seq(l.1, s.take(l.1.len() as int))),
            (r.0, with_values_seq(r.1, s.skip(l.1.len() as int))),
        ),
        ENodeView::Var(_) => ENodeView::Var(s[0]),
    }
}

/// The node with `s` written over its public slots. An abstraction keeps its binder unless
/// `s` holds it; then the binder, and the body's occurrences of it, become
/// `binder_for(x, s)`, so that no written slot is captured.
pub open spec fn enode_with_public_slots(n: ENodeView, s: Seq<Slot>) -> ENodeView {
    match n {
        ENodeView::Lam(x, b) => ENodeView::Lam(
            binder_for(x, s),
            (b.0, with_values_seq(b.1, refill(applied_slots(b), x, binder_for(x, s), s))),
        ),
        _ => enode_with_all_slots(n, s),
    }
}

pub open spec fn enode_with_applied_ids(n: ENodeView, a: Seq<AppliedIdView>) -> ENodeView {
    match n {
        ENodeView::Lam(x, _) => ENodeView::Lam(x, a[0]),
        ENodeView::App(_, _) => ENodeView::App(a[0], a[1]),
        ENodeView::Var(x) => ENodeView::Var(x),
    }
}

impl Language for ENode {
    open spec fn discr_spec(n: ENodeView) -> u32 {
        enode_discr(n)
    }

    open spec fn all_slots_spec(n: ENodeView) -> Seq<Slot> {
        enode_all_slots(n)
    }

    open spec fn public_slots_spec(n: ENodeView) -> Seq<Slot> {
        enode_public_slots(n)
    }

    open spec fn applied_ids_spec(n: ENodeView) -> Seq<AppliedIdView> {
        enode_applied_ids(n)
    }

    open spec fn with_all_slots_spec(n: ENodeView, s: Seq<Slot>) -> ENodeView {
        enode_with_all_slots(n, s)
    }

    open spec fn with_public_slots_spec(n: ENodeView, s: Seq<Slot>) -> ENodeView {
        enode_with_public_slots(n, s)
    }

    open spec fn with_applied_ids_spec(n: ENodeView, a: Seq<AppliedIdView>) -> ENodeView {
        enode_with_applied_ids(n, a)
    }

    proof fn lemma_clone_view(a: Self, b: Self) {
        assert(call_ensures(<ENode as Clone>::clone, (&a,), b));
        assert(b@ == a@);
    }

    fn discr(&self) -> (d: u32) {
        match self {
            ENode::Lam(_, _) => 0,
            ENode::App(_, _) => 1,
            ENode::Var(_) => 2,
        }
    }

    fn all_slot_occurences(&self) -> (v: Vec<Slot>) {
        match self {
            ENode::Lam(x, b) => {
                assert(self@ == ENodeView::Lam(*x, b@));
                assert(Self::all_slots_spec(self@) == seq![*x] + applied_slots(b@));
                let mut out: Vec<Slot> = Vec::new();
                out.push(*x);
                let mut rest = b.slots_in_order();
                out.append(&mut rest);
                assert(out@ =~= seq![*x] + applied_slots(b@));
                out
            },
            ENode::App(l, r) => {
                let mut out = l.slots_in_order();
                let mut rest = r.slots_in_order();
                out.append(&mut rest);
                out
            },
            ENode::Var(x) => {
                let mut out: Vec<Slot> = Vec::new();
                out.push(*x);
                assert(out@ =~= seq![*x]);
                out
            },
        }
    }

    fn public_slot_occurences(&self) -> (v: Vec<Slot>) {
        match self {
            ENode::Lam(x, b) => {
                let vals = b.slots_in_order();
                drop_slot_vec(&vals, *x)
            },
            _ => self.all_slot_occurences(),
        }
    }

    fn applied_id_occurences(&self) -> (v: Vec<AppliedId>) {
        let mut out: Vec<AppliedId> = Vec::new();
        match self {
            ENode::Lam(_, b) => {
                out.push(b.clone());
            },
            ENode::App(l, r) => {
                out.push(l.clone());
                out.push(r.clone());
            },
            ENode::Var(_) => {},
        }
        assert(views_of(out@) =~= enode_applied_ids(self@));
        out
    }

    fn all_slot_occurences_mut(&mut self, new_slots: &Vec<Slot>) {
        let ghost n0 = self@;
        let n = match &*self {
            ENode::Lam(x, b) => {
                assert(n0 == ENodeView::Lam(*x, b@));
                let rest = sub_vec(new_slots, 1, new_slots.len());
                let mut b2 = b.clone();
                b2.slots_mut(&rest);
                assert(rest@ =~= new_slots@.skip(1));
                ENode::Lam(new_slots[0], b2)
            },
            ENode::App(l, r) => {
                assert(n0 == ENodeView::App(l@, r@));
                let k = l.m.len();
                let left = sub_vec(new_slots, 0, k);
                let right = sub_vec(new_slots, k, new_slots.len());
                let mut l2 = l.clone();
                let mut r2 = r.clone();
                l2.slots_mut(&left);
                r2.slots_mut(&right);
                assert(left@ =~= new_slots@.take(l@.1.len() as int));
                assert(right@ =~= new_slots@.skip(l@.1.len() as int));
                ENode::App(l2, r2)
            },
            ENode::Var(x) => {
                assert(n0 == ENodeView::Var(*x));
                ENode::Var(new_slots[0])
            },
        };
        assert(n@ == enode_with_all_slots(n0, new_slots@));
        *self = n;
        assert(Self::with_all_slots_spec(n0, new_slots@) == enode_with_all_slots(n0, new_slots@));
    }

    fn public_slot_occurences_mut(&mut self, new_slots: &Vec<Slot>) {
        let ghost n0 = self@;
        match &*self {
            ENode::Lam(x, b) => {
                assert(n0 == ENodeView::Lam(*x, b@));
                let vals = b.slots_in_order();
                proof {
                    lemma_drop_slot_len(vals@, *x);
                }
                let z = if vec_contains(new_slots, *x) {
                    first_absent_vec(new_slots)
                } else {
                    *x
                };
                let filled = refill_vec(&vals, *x, z, new_slots);
                proof {
                    lemma_refill_len(vals@, *x, z, new_slots@);
                }
                let mut b2 = b.clone();
                b2.slots_mut(&filled);
                let n = ENode::Lam(z, b2);
                assert(n@ == enode_with_public_slots(n0, new_slots@));
                *self = n;
            },
            ENode::App(l, r) => {
                assert(n0 == ENodeView::App(l@, r@));
                self.all_slot_occurences_mut(new_slots);
            },
            ENode::Var(x) => {
                assert(n0 == ENodeView::Var(*x));
                self.all_slot_occurences_mut(new_slots);
            },
        }
    }

    fn applied_id_occurences_mut(&mut self, new_ids: Vec<AppliedId>) {
        let n = match &*self {
            ENode::Lam(x, _) => ENode::Lam(*x, new_ids[0].clone()),
            ENode::App(_, _) => ENode::App(new_ids[0].clone(), new_ids[1].clone()),
            ENode::Var(x) => ENode::Var(*x),
        };
        *self = n;
    }
}

} // verus!
