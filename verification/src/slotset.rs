use vstd::prelude::*;
use crate::slot::Slot;

verus! {

/// Slots in strictly increasing order of their numbers.
pub open spec fn strictly_sorted(s: Seq<Slot>) -> bool {
    forall|i: int, j: int| 0 <= i < j < s.len() ==> s[i].0 < s[j].0
}

/// Inserts `x` into a strictly sorted vector of slots, keeping it strictly sorted.
pub fn insert_sorted(v: &mut Vec<Slot>, x: Slot)
    requires
        strictly_sorted(old(v)@),
    ensures
        strictly_sorted(final(v)@),
        final(v)@.to_set() == old(v)@.to_set().insert(x),
{
    let ghost s0 = v@;
    let mut i: usize = 0;
    while i < v.len() && v[i].0 < x.0
        invariant
            v@ == s0,
            strictly_sorted(s0),
            0 <= i <= s0.len(),
            forall|k: int| 0 <= k < i ==> s0[k].0 < x.0,
        decreases v.len() - i,
    {
        i = i + 1;
    }
    if i < v.len() && v[i].0 == x.0 {
        assert(s0.to_set().insert(x) =~= s0.to_set()) by {
            assert(s0[i as int] == x);
        }
        return;
    }
    v.insert(i, x);
    proof {
        let s1 = s0.insert(i as int, x);
        s0.insert_ensures(i as int, x);
        assert(v@ == s1);
        assert forall|a: int, b: int| 0 <= a < b < s1.len() implies s1[a].0 < s1[b].0 by {
            if b < i {
            } else if b == i {
            } else if a < i {
                assert(s1[b] == s0[b - 1]);
            } else if a == i {
                assert(s1[b] == s0[b - 1]);
                assert(s0[i as int].0 > x.0);
                assert(s0[i as int].0 <= s0[b - 1].0);
            } else {
                assert(s1[a] == s0[a - 1]);
                assert(s1[b] == s0[b - 1]);
            }
        }
        assert forall|y: Slot| s1.to_set().contains(y) <==> s0.to_set().insert(x).contains(y) by {
            if s0.contains(y) {
                let k = choose|k: int| 0 <= k < s0.len() && s0[k] == y;
                if k < i {
                    assert(s1[k] == y);
                } else {
                    assert(s1[k + 1] == y);
                }
            }
            if s1.contains(y) {
                let k = choose|k: int| 0 <= k < s1.len() && s1[k] == y;
                if k < i {
                    assert(s0[k] == y);
                } else if k > i {
                    assert(s0[k - 1] == y);
                }
            }
        }
        assert(s1.to_set() =~= s0.to_set().insert(x));
    }
}

/// A finite set of slots, kept as a strictly increasing vector, so that equal sets are
/// equal values.
#[derive(PartialEq, Eq, Hash, Debug)]
pub struct SlotSet {
    elems: Vec<Slot>,
}

impl View for SlotSet {
    type V = Set<Slot>;

    closed spec fn view(&self) -> Set<Slot> {
        self.elems@.to_set()
    }
}

impl Clone for SlotSet {
    fn clone(&self) -> (r: SlotSet)
        ensures
            r.ordered() == self.ordered(),
    {
        proof {
            use_type_invariant(self);
        }
        SlotSet { elems: self.to_vec() }
    }
}

impl SlotSet {
    /// The members in increasing order.
    pub closed spec fn ordered(&self) -> Seq<Slot> {
        self.elems@
    }

    #[verifier::type_invariant]
    pub open spec fn sorted_members(&self) -> bool {
        strictly_sorted(self.ordered())
    }

    /// The set of the slots in `v`.
    pub fn from_slots(v: &Vec<Slot>) -> (s: SlotSet)
        ensures
            s@ == v@.to_set(),
    {
        let mut out: Vec<Slot> = Vec::new();
        let mut i: usize = 0;
        while i < v.len()
            invariant
                0 <= i <= v.len(),
                strictly_sorted(out@),
                out@.to_set() == v@.take(i as int).to_set(),
            decreases v.len() - i,
        {
            insert_sorted(&mut out, v[i]);
            proof {
                assert(v@.take(i + 1) =~= v@.take(i as int).push(v@[i as int]));
                v@.take(i as int).lemma_push_to_set_commute(v@[i as int]);
            }
            i = i + 1;
        }
        assert(v@.take(v.len() as int) =~= v@);
        SlotSet { elems: out }
    }

    /// Whether `x` is a member.
    pub fn contains(&self, x: Slot) -> (b: bool)
        ensures
            b == self@.contains(x),
    {
        let mut i: usize = 0;
        while i < self.elems.len()
            invariant
                0 <= i <= self.elems@.len(),
                forall|k: int| 0 <= k < i ==> self.elems@[k] != x,
            decreases self.elems@.len() - i,
        {
            if self.elems[i] == x {
                assert(self.elems@.contains(x));
                return true;
            }
            i = i + 1;
        }
        false
    }

    /// The number of members.
    pub fn len(&self) -> (n: usize)
        ensures
            n == self@.len(),
    {
        proof {
            use_type_invariant(self);
            self.lemma_no_duplicates();
            self.elems@.unique_seq_to_set();
        }
        self.elems.len()
    }

    proof fn lemma_no_duplicates(&self)
        requires
            self.sorted_members(),
        ensures
            self.elems@.no_duplicates(),
    {
        assert forall|i: int, j: int| 0 <= i < self.elems@.len() && 0 <= j < self.elems@.len() && i != j
            implies self.elems@[i] != self.elems@[j] by {
            if i < j {
                assert(self.elems@[i].0 < self.elems@[j].0);
            } else {
                assert(self.elems@[j].0 < self.elems@[i].0);
            }
        }
    }

    /// Whether every member of `other` is a member of `self`.
    pub fn is_superset(&self, other: &SlotSet) -> (b: bool)
        ensures
            b == other@.subset_of(self@),
    {
        let mut i: usize = 0;
        while i < other.elems.len()
            invariant
                0 <= i <= other.elems@.len(),
                forall|k: int| 0 <= k < i ==> self@.contains(#[trigger] other.elems@[k]),
            decreases other.elems@.len() - i,
        {
            if !self.contains(other.elems[i]) {
                assert(other@.contains(other.elems@[i as int]));
                return false;
            }
            i = i + 1;
        }
        assert forall|y: Slot| other@.contains(y) implies self@.contains(y) by {
            let k = choose|k: int| 0 <= k < other.elems@.len() && other.elems@[k] == y;
        }
        true
    }

    /// The members in increasing order.
    pub fn to_vec(&self) -> (v: Vec<Slot>)
        ensures
            v@ == self.ordered(),
            v@.to_set() == self@,
    {
        let mut out: Vec<Slot> = Vec::new();
        let mut i: usize = 0;
        while i < self.elems.len()
            invariant
                0 <= i <= self.elems@.len(),
                out@ == self.elems@.take(i as int),
            decreases self.elems@.len() - i,
        {
            out.push(self.elems[i]);
            i = i + 1;
            assert(out@ =~= self.elems@.take(i as int));
        }
        assert(self.elems@.take(self.elems@.len() as int) =~= self.elems@);
        out
    }
}

} // verus!
