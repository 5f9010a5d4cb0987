use vstd::prelude::*;
use crate::slot::Slot;
use crate::slotset::SlotSet;

verus! {

/// The keys of a sequence of pairs, in order.
pub open spec fn keys_of(s: Seq<(Slot, Slot)>) -> Seq<Slot> {
    s.map_values(|p: (Slot, Slot)| p.0)
}

/// The values of a sequence of pairs, in order.
pub open spec fn values_of(s: Seq<(Slot, Slot)>) -> Seq<Slot> {
    s.map_values(|p: (Slot, Slot)| p.1)
}

/// Keys strictly increasing: each key occurs once, and the order is canonical.
pub open spec fn keys_sorted(s: Seq<(Slot, Slot)>) -> bool {
    forall|i: int, j: int| 0 <= i < j < s.len() ==> s[i].0.0 < s[j].0.0
}

/// Whether `k` is a key of the pairs.
pub open spec fn has_key(s: Seq<(Slot, Slot)>, k: Slot) -> bool {
    exists|i: int| 0 <= i < s.len() && s[i].0 == k
}

/// The value that the pairs give to the key `k` (meaningful where `has_key(s, k)`).
pub open spec fn value_at(s: Seq<(Slot, Slot)>, k: Slot) -> Slot {
    s[choose|i: int| 0 <= i < s.len() && s[i].0 == k].1
}

/// Whether `y` is a value of the pairs.
pub open spec fn has_value(s: Seq<(Slot, Slot)>, y: Slot) -> bool {
    exists|i: int| 0 <= i < s.len() && s[i].1 == y
}

/// With sorted keys, the value of the `i`-th key is the `i`-th value.
pub proof fn lemma_value_at(s: Seq<(Slot, Slot)>, i: int)
    requires
        keys_sorted(s),
        0 <= i < s.len(),
    ensures
        has_key(s, s[i].0),
        value_at(s, s[i].0) == s[i].1,
{
    let j = choose|j: int| 0 <= j < s.len() && s[j].0 == s[i].0;
    if j < i {
        assert(s[j].0.0 < s[i].0.0);
    } else if i < j {
        assert(s[i].0.0 < s[j].0.0);
    }
}

/// The pairs `(x, other[y])` for each pair `(x, y)` of `s` whose value `y` is a key of
/// `other`, in the order of `s`.
pub open spec fn compose_seq(s: Seq<(Slot, Slot)>, other: Seq<(Slot, Slot)>) -> Seq<(Slot, Slot)>
    decreases s.len(),
{
    if s.len() == 0 {
        Seq::empty()
    } else {
        let rest = compose_seq(s.drop_last(), other);
        if has_key(other, s.last().1) {
            rest.push((s.last().0, value_at(other, s.last().1)))
        } else {
            rest
        }
    }
}

/// The pairs of `s` with their values replaced, in order, by `vals`.
pub open spec fn with_values_seq(s: Seq<(Slot, Slot)>, vals: Seq<Slot>) -> Seq<(Slot, Slot)> {
    Seq::new(s.len(), |i: int| (s[i].0, vals[i]))
}

/// One step of inverting `s`: inserting `(s[i].1, s[i].0)` into the inverse of the first
/// `i` pairs gives the inverse of the first `i + 1`.
proof fn lemma_inverse_step(s: Seq<(Slot, Slot)>, i: int, m0: Seq<(Slot, Slot)>, m1: Seq<(Slot, Slot)>)
    requires
        0 <= i < s.len(),
        forall|y: Slot| has_key(m0, y) <==> has_value(s.take(i), y),
        forall|a: int|
            0 <= a < i && (forall|j: int| a < j < i ==> s[j].1 != s[a].1) ==> value_at(
                m0,
                #[trigger] s[a].1,
            ) == s[a].0,
        forall|x: Slot| has_key(m1, x) <==> (has_key(m0, x) || x == s[i].1),
        value_at(m1, s[i].1) == s[i].0,
        forall|x: Slot| x != s[i].1 && has_key(m0, x) ==> value_at(m1, x) == value_at(m0, x),
    ensures
        forall|y: Slot| has_key(m1, y) <==> has_value(s.take(i + 1), y),
        forall|a: int|
            0 <= a < i + 1 && (forall|j: int| a < j < i + 1 ==> s[j].1 != s[a].1) ==> value_at(
                m1,
                #[trigger] s[a].1,
            ) == s[a].0,
{
    let t0 = s.take(i);
    let t1 = s.take(i + 1);
    assert forall|w: Slot| has_value(t1, w) <==> (has_value(t0, w) || w == s[i].1) by {
        if has_value(t0, w) {
            let j = choose|j: int| 0 <= j < t0.len() && t0[j].1 == w;
            assert(t1[j].1 == w);
        }
        if has_value(t1, w) {
            let j = choose|j: int| 0 <= j < t1.len() && t1[j].1 == w;
            if j < i {
                assert(t0[j].1 == w);
            }
        }
        assert(t1[i].1 == s[i].1);
    }
    assert forall|a: int|
        0 <= a < i + 1 && (forall|j: int| a < j < i + 1 ==> s[j].1 != s[a].1) implies value_at(
            m1,
            #[trigger] s[a].1,
        ) == s[a].0 by {
        if a < i {
            assert(s[i].1 != s[a].1);
            assert(t0[a].1 == s[a].1);
            assert(has_value(t0, s[a].1));
        }
    }
}

/// A finite map from slots to slots, kept as pairs in increasing order of their keys.
///
/// Its values, read in the order of the keys, are the slots that an applied id exposes.
#[derive(PartialEq, Eq, Hash, PartialOrd, Ord, Debug)]
pub struct SlotMap {
    pairs: Vec<(Slot, Slot)>,
}

impl View for SlotMap {
    type V = Seq<(Slot, Slot)>;

    closed spec fn view(&self) -> Seq<(Slot, Slot)> {
        self.pairs@
    }
}

impl Clone for SlotMap {
    fn clone(&self) -> (r: SlotMap)
        ensures
            r@ == self@,
    {
        proof {
            use_type_invariant(self);
        }
        SlotMap { pairs: self.to_pairs() }
    }
}

impl SlotMap {
    #[verifier::type_invariant]
    pub open spec fn sorted_keys(&self) -> bool {
        keys_sorted(self@)
    }

    /// The empty map.
    pub fn new() -> (m: SlotMap)
        ensures
            m@ == Seq::<(Slot, Slot)>::empty(),
    {
        SlotMap { pairs: Vec::new() }
    }

    /// The number of keys.
    pub fn len(&self) -> (n: usize)
        ensures
            n == self@.len(),
    {
        self.pairs.len()
    }

    /// The pairs, in increasing order of their keys.
    pub fn to_pairs(&self) -> (v: Vec<(Slot, Slot)>)
        ensures
            v@ == self@,
    {
        let mut out: Vec<(Slot, Slot)> = Vec::new();
        let mut i: usize = 0;
        while i < self.pairs.len()
            invariant
                0 <= i <= self.pairs@.len(),
                out@ == self.pairs@.take(i as int),
            decreases self.pairs@.len() - i,
        {
            out.push(self.pairs[i]);
            i = i + 1;
            assert(out@ =~= self.pairs@.take(i as int));
        }
        assert(self.pairs@.take(self.pairs@.len() as int) =~= self.pairs@);
        out
    }

    /// The position of the key `k`, if it is a key.
    fn find(&self, k: Slot) -> (r: Option<usize>)
        ensures
            r matches Some(i) ==> i < self@.len() && self@[i as int].0 == k,
            r is None ==> !has_key(self@, k),
    {
        let mut i: usize = 0;
        while i < self.pairs.len()
            invariant
                0 <= i <= self.pairs@.len(),
                forall|j: int| 0 <= j < i ==> self.pairs@[j].0 != k,
            decreases self.pairs@.len() - i,
        {
            if self.pairs[i].0 == k {
                return Some(i);
            }
            i = i + 1;
        }
        None
    }

    /// Whether `k` is a key.
    pub fn contains_key(&self, k: Slot) -> (b: bool)
        ensures
            b == has_key(self@, k),
    {
        match self.find(k) {
            Some(_) => true,
            None => false,
        }
    }

    /// The value of `k`, if `k` is a key.
    pub fn get(&self, k: Slot) -> (r: Option<Slot>)
        ensures
            r is Some <==> has_key(self@, k),
            r matches Some(y) ==> y == value_at(self@, k),
    {
        proof {
            use_type_invariant(self);
        }
        match self.find(k) {
            Some(i) => {
                proof {
                    lemma_value_at(self@, i as int);
                }
                Some(self.pairs[i].1)
            },
            None => None,
        }
    }

    /// The value of the key `k`.
    pub fn index(&self, k: Slot) -> (y: Slot)
        requires
            has_key(self@, k),
        ensures
            y == value_at(self@, k),
    {
        match self.get(k) {
            Some(y) => y,
            None => k,
        }
    }

    /// Gives `k` the value `v`: the keys become those of before and `k`, the other keys
    /// keep their values.
    pub fn insert(&mut self, k: Slot, v: Slot)
        ensures
            forall|x: Slot| has_key(final(self)@, x) <==> (has_key(old(self)@, x) || x == k),
            value_at(final(self)@, k) == v,
            forall|x: Slot|
                x != k && has_key(old(self)@, x) ==> value_at(final(self)@, x) == value_at(
                    old(self)@,
                    x,
                ),
            final(self)@.len() == old(self)@.len() + (if has_key(old(self)@, k) {
                0int
            } else {
                1int
            }),
    {
        proof {
            use_type_invariant(&*self);
        }
        let ghost s0 = self@;
        let mut p: Vec<(Slot, Slot)> = Vec::new();
        std::mem::swap(&mut p, &mut self.pairs);
        assert(p@ == s0);
        let mut i: usize = 0;
        while i < p.len() && p[i].0.0 < k.0
            invariant
                p@ == s0,
                keys_sorted(s0),
                0 <= i <= s0.len(),
                forall|j: int| 0 <= j < i ==> s0[j].0.0 < k.0,
            decreases p.len() - i,
        {
            i = i + 1;
        }
        if i < p.len() && p[i].0.0 == k.0 {
            p.set(i, (k, v));
            proof {
                let s1 = p@;
                assert(s1 == s0.update(i as int, (k, v)));
                assert(keys_sorted(s1));
                lemma_value_at(s1, i as int);
                assert forall|x: Slot| has_key(s1, x) <==> (has_key(s0, x) || x == k) by {
                    if has_key(s0, x) {
                        let j = choose|j: int| 0 <= j < s0.len() && s0[j].0 == x;
                        assert(s1[j].0 == x);
                    }
                    if has_key(s1, x) {
                        let j = choose|j: int| 0 <= j < s1.len() && s1[j].0 == x;
                        assert(s0[j].0 == x);
                    }
                }
                assert forall|x: Slot| x != k && has_key(s0, x) implies value_at(s1, x) == value_at(s0, x) by {
                    let j = choose|j: int| 0 <= j < s0.len() && s0[j].0 == x;
                    lemma_value_at(s0, j);
                    lemma_value_at(s1, j);
                }
            }
            self.pairs = p;
        } else {
            p.insert(i, (k, v));
            proof {
                let s1 = p@;
                s0.insert_ensures(i as int, (k, v));
                assert forall|a: int, b: int| 0 <= a < b < s1.len() implies s1[a].0.0 < s1[b].0.0 by {
                    if b < i {
                    } else if b == i {
                    } else if a < i {
                        assert(s1[b] == s0[b - 1]);
                    } else if a == i {
                        assert(s1[b] == s0[b - 1]);
                        assert(s0[i as int].0.0 <= s0[b - 1].0.0);
                    } else {
                        assert(s1[a] == s0[a - 1]);
                        assert(s1[b] == s0[b - 1]);
                    }
                }
                assert(!has_key(s0, k)) by {
                    if has_key(s0, k) {
                        let j = choose|j: int| 0 <= j < s0.len() && s0[j].0 == k;
                        if j >= i {
                            assert(s0[i as int].0.0 <= s0[j].0.0);
                        }
                    }
                }
                lemma_value_at(s1, i as int);
                assert forall|x: Slot| has_key(s1, x) <==> (has_key(s0, x) || x == k) by {
                    if has_key(s0, x) {
                        let j = choose|j: int| 0 <= j < s0.len() && s0[j].0 == x;
                        if j < i {
                            assert(s1[j].0 == x);
                        } else {
                            assert(s1[j + 1].0 == x);
                        }
                    }
                    if has_key(s1, x) {
                        let j = choose|j: int| 0 <= j < s1.len() && s1[j].0 == x;
                        if j < i {
                            assert(s0[j].0 == x);
                        } else if j > i {
                            assert(s0[j - 1].0 == x);
                        }
                    }
                }
                assert forall|x: Slot| x != k && has_key(s0, x) implies value_at(s1, x) == value_at(s0, x) by {
                    let j = choose|j: int| 0 <= j < s0.len() && s0[j].0 == x;
                    lemma_value_at(s0, j);
                    if j < i {
                        lemma_value_at(s1, j);
                    } else {
                        lemma_value_at(s1, j + 1);
                    }
                }
            }
            self.pairs = p;
        }
    }

    /// The map made by inserting the pairs in order: a key that occurs more than once
    /// takes its last value.
    pub fn from_pairs(pairs: &[(Slot, Slot)]) -> (m: SlotMap)
        ensures
            forall|x: Slot| has_key(m@, x) <==> has_key(pairs@, x),
            forall|i: int|
                0 <= i < pairs@.len() && (forall|j: int| i < j < pairs@.len() ==> pairs@[j].0 != pairs@[i].0)
                    ==> value_at(m@, #[trigger] pairs@[i].0) == pairs@[i].1,
    {
        let mut m = SlotMap::new();
        let mut i: usize = 0;
        while i < pairs.len()
            invariant
                0 <= i <= pairs@.len(),
                forall|x: Slot| has_key(m@, x) <==> has_key(pairs@.take(i as int), x),
                forall|a: int|
                    0 <= a < i && (forall|j: int| a < j < i ==> pairs@[j].0 != pairs@[a].0)
                        ==> value_at(m@, #[trigger] pairs@[a].0) == pairs@[a].1,
            decreases pairs@.len() - i,
        {
            let (k, v) = pairs[i];
            let ghost m0 = m@;
            m.insert(k, v);
            proof {
                let t0 = pairs@.take(i as int);
                assert forall|a: int|
                    0 <= a < i + 1 && (forall|j: int| a < j < i + 1 ==> pairs@[j].0 != pairs@[a].0)
                        implies value_at(m@, #[trigger] pairs@[a].0) == pairs@[a].1 by {
                    if a < i {
                        assert(pairs@[i as int].0 != pairs@[a].0);
                        assert(t0[a].0 == pairs@[a].0);
                        assert(has_key(m0, pairs@[a].0));
                    }
                }
                let t1 = pairs@.take(i + 1);
                assert forall|x: Slot| has_key(t1, x) <==> (has_key(t0, x) || x == k) by {
                    if has_key(t0, x) {
                        let j = choose|j: int| 0 <= j < t0.len() && t0[j].0 == x;
                        assert(t1[j].0 == x);
                    }
                    if has_key(t1, x) {
                        let j = choose|j: int| 0 <= j < t1.len() && t1[j].0 == x;
                        if j < i {
                            assert(t0[j].0 == x);
                        }
                    }
                    assert(t1[i as int].0 == k);
                }
            }
            i = i + 1;
        }
        assert(pairs@.take(pairs@.len() as int) =~= pairs@);
        m
    }

    /// The set of keys.
    pub fn keys(&self) -> (s: SlotSet)
        ensures
            s@ == keys_of(self@).to_set(),
    {
        let mut v: Vec<Slot> = Vec::new();
        let mut i: usize = 0;
        while i < self.pairs.len()
            invariant
                0 <= i <= self.pairs@.len(),
                v@ == keys_of(self.pairs@.take(i as int)),
            decreases self.pairs@.len() - i,
        {
            v.push(self.pairs[i].0);
            i = i + 1;
            assert(v@ =~= keys_of(self.pairs@.take(i as int)));
        }
        assert(self.pairs@.take(self.pairs@.len() as int) =~= self.pairs@);
        SlotSet::from_slots(&v)
    }

    /// The values, in increasing order of their keys.
    pub fn values_in_order(&self) -> (v: Vec<Slot>)
        ensures
            v@ == values_of(self@),
    {
        let mut v: Vec<Slot> = Vec::new();
        let mut i: usize = 0;
        while i < self.pairs.len()
            invariant
                0 <= i <= self.pairs@.len(),
                v@ == values_of(self.pairs@.take(i as int)),
            decreases self.pairs@.len() - i,
        {
            v.push(self.pairs[i].1);
            i = i + 1;
            assert(v@ =~= values_of(self.pairs@.take(i as int)));
        }
        assert(self.pairs@.take(self.pairs@.len() as int) =~= self.pairs@);
        v
    }

    /// The set of values.
    pub fn values(&self) -> (s: SlotSet)
        ensures
            s@ == values_of(self@).to_set(),
    {
        let v = self.values_in_order();
        SlotSet::from_slots(&v)
    }

    /// The same keys, with the values replaced, in the order of the keys, by `vals`.
    pub fn with_values(&self, vals: &Vec<Slot>) -> (m: SlotMap)
        requires
            vals@.len() == self@.len(),
        ensures
            m@ == with_values_seq(self@, vals@),
    {
        proof {
            use_type_invariant(self);
        }
        let mut out: Vec<(Slot, Slot)> = Vec::new();
        let mut i: usize = 0;
        while i < self.pairs.len()
            invariant
                0 <= i <= self.pairs@.len(),
                vals@.len() == self.pairs@.len(),
                out@ == with_values_seq(self.pairs@, vals@).take(i as int),
            decreases self.pairs@.len() - i,
        {
            out.push((self.pairs[i].0, vals[i]));
            i = i + 1;
            assert(out@ =~= with_values_seq(self.pairs@, vals@).take(i as int));
        }
        assert(with_values_seq(self.pairs@, vals@).take(self.pairs@.len() as int) =~= with_values_seq(
            self.pairs@,
            vals@,
        ));
        SlotMap { pairs: out }
    }

    /// Whether no two keys share a value.
    pub fn is_bijection(&self) -> (b: bool)
        ensures
            b == values_of(self@).no_duplicates(),
    {
        let n = self.pairs.len();
        let mut i: usize = 0;
        while i < n
            invariant
                n == self.pairs@.len(),
                0 <= i <= n,
                forall|a: int, b: int| 0 <= a < i && a < b < n ==> self.pairs@[a].1 != self.pairs@[b].1,
            decreases n - i,
        {
            let mut j: usize = i + 1;
            while j < n
                invariant
                    n == self.pairs@.len(),
                    0 <= i < n,
                    i + 1 <= j <= n,
                    forall|b: int| i < b < j ==> self.pairs@[i as int].1 != self.pairs@[b].1,
                decreases n - j,
            {
                if self.pairs[i].1 == self.pairs[j].1 {
                    proof {
                        let vs = values_of(self@);
                        assert(vs[i as int] == vs[j as int]);
                    }
                    return false;
                }
                j = j + 1;
            }
            i = i + 1;
        }
        proof {
            let vs = values_of(self@);
            assert forall|a: int, b: int| 0 <= a < vs.len() && 0 <= b < vs.len() && a != b implies vs[a] != vs[b] by {
                if a < b {
                    assert(self.pairs@[a].1 != self.pairs@[b].1);
                } else {
                    assert(self.pairs@[b].1 != self.pairs@[a].1);
                }
            }
        }
        true
    }

    /// The pairs `(x, other[y])` for each pair `(x, y)` of `self` whose value `y` is a key
    /// of `other`; the other pairs are dropped.
    pub fn compose_partial(&self, other: &SlotMap) -> (m: SlotMap)
        ensures
            m@ == compose_seq(self@, other@),
    {
        proof {
            use_type_invariant(self);
        }
        let mut out: Vec<(Slot, Slot)> = Vec::new();
        let mut i: usize = 0;
        while i < self.pairs.len()
            invariant
                0 <= i <= self.pairs@.len(),
                keys_sorted(self.pairs@),
                out@ == compose_seq(self.pairs@.take(i as int), other@),
                keys_sorted(out@),
                forall|k: int| 0 <= k < out@.len() ==> exists|j: int| 0 <= j < i && (#[trigger] out@[k]).0 == (#[trigger] self.pairs@[j]).0,
            decreases self.pairs@.len() - i,
        {
            let (x, y) = self.pairs[i];
            assert(self.pairs@.take(i + 1).drop_last() =~= self.pairs@.take(i as int));
            match other.get(y) {
                Some(z) => {
                    proof {
                        assert forall|a: int, b: int| 0 <= a < b < out@.len() + 1 implies #[trigger] out@.push((x, z))[a].0.0
                            < #[trigger] out@.push((x, z))[b].0.0 by {
                            if b == out@.len() {
                                let j = choose|j: int| 0 <= j < i && out@[a].0 == self.pairs@[j].0;
                                assert(self.pairs@[j].0.0 < self.pairs@[i as int].0.0);
                            }
                        }
                    }
                    out.push((x, z));
                },
                None => {},
            }
            proof {
                assert forall|k: int| 0 <= k < out@.len() implies exists|j: int| 0 <= j < i + 1 && (#[trigger] out@[k]).0 == (#[trigger] self.pairs@[j]).0 by {
                    if k == out@.len() - 1 && has_key(other@, y) {
                        assert(out@[k].0 == self.pairs@[i as int].0);
                    } else {
                        let j = choose|j: int| 0 <= j < i && out@[k].0 == self.pairs@[j].0;
                    }
                }
            }
            i = i + 1;
        }
        assert(self.pairs@.take(self.pairs@.len() as int) =~= self.pairs@);
        SlotMap { pairs: out }
    }

    /// The map from each value to its key; a value shared by several keys goes to the last
    /// of them.
    pub fn inverse(&self) -> (m: SlotMap)
        ensures
            forall|y: Slot| has_key(m@, y) <==> has_value(self@, y),
            forall|i: int|
                0 <= i < self@.len() && (forall|j: int| i < j < self@.len() ==> self@[j].1 != self@[i].1)
                    ==> value_at(m@, #[trigger] self@[i].1) == self@[i].0,
    {
        let mut m = SlotMap::new();
        let mut i: usize = 0;
        while i < self.pairs.len()
            invariant
                0 <= i <= self.pairs@.len(),
                forall|y: Slot| has_key(m@, y) <==> has_value(self.pairs@.take(i as int), y),
                forall|a: int|
                    0 <= a < i && (forall|j: int| a < j < i ==> self.pairs@[j].1 != self.pairs@[a].1)
                        ==> value_at(m@, #[trigger] self.pairs@[a].1) == self.pairs@[a].0,
            decreases self.pairs@.len() - i,
        {
            let (x, y) = self.pairs[i];
            let ghost m0 = m@;
            m.insert(y, x);
            proof {
                lemma_inverse_step(self.pairs@, i as int, m0, m@);
            }
            i = i + 1;
        }
        assert(self.pairs@.take(self.pairs@.len() as int) =~= self.pairs@);
        m
    }
}

} // verus!
