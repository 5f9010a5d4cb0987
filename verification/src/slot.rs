use vstd::prelude::*;

verus! {

/// The name of an e-class.
#[derive(Clone, Copy, PartialEq, Eq, Structural, Hash, PartialOrd, Ord, Debug)]
pub struct Id(pub usize);

/// A slot: a variable name that an e-node or e-class exposes.
///
/// For each e-class, its slots form an interval `[0..n]`.
/// An e-node contains three kinds of slots:
/// - free (exposed) slots,
/// - lambda slots (bound by the node itself),
/// - internal slots (the exposed slots of its children).
///
/// A slot is "flexible" if it is free or lambda.
#[derive(Clone, Copy, PartialEq, Eq, Structural, Hash, PartialOrd, Ord, Debug)]
pub struct Slot(pub usize);

/// The source of fresh slot names.
///
/// It starts at 1, so that a fresh slot never collides with `Slot(0)`, which shapes
/// use for lambda variables.
pub struct SlotCounter {
    next: usize,
}

impl SlotCounter {
    /// The number that the next fresh slot will carry.
    pub closed spec fn next_spec(&self) -> nat {
        self.next as nat
    }

    #[verifier::type_invariant]
    closed spec fn counter_starts_at_one(&self) -> bool {
        self.next >= 1
    }

    /// A counter whose first fresh slot is `Slot(1)`.
    pub fn new() -> (c: SlotCounter)
        ensures
            c.next_spec() == 1,
    {
        SlotCounter { next: 1 }
    }

    /// The number that the next fresh slot will carry.
    pub fn peek(&self) -> (n: usize)
        ensures
            n == self.next_spec(),
            n >= 1,
    {
        proof {
            use_type_invariant(self);
        }
        self.next
    }
}

impl Slot {
    /// The slot with the given number.
    pub fn new(i: usize) -> (s: Slot)
        ensures
            s == Slot(i),
    {
        Slot(i)
    }

    /// A slot that no earlier call on the same counter returned: the counter's current
    /// number, after which the counter moves on by one.
    pub fn fresh(ctr: &mut SlotCounter) -> (s: Slot)
        requires
            old(ctr).next_spec() < usize::MAX,
        ensures
            s.0 == old(ctr).next_spec(),
            s.0 >= 1,
            final(ctr).next_spec() == old(ctr).next_spec() + 1,
    {
        proof {
            use_type_invariant(&*ctr);
        }
        let u = ctr.next;
        ctr.next = u + 1;
        Slot(u)
    }
}

/// Fresh slots are never handed out twice: `Slot::fresh` returns the counter's number and
/// moves the counter past it, and the counter never moves back, so a slot that `fresh`
/// returns from any later state of the counter differs from an earlier one.
pub proof fn lemma_fresh_slots_distinct(
    before: SlotCounter,
    earlier: Slot,
    after: SlotCounter,
    later_state: SlotCounter,
    later: Slot,
)
    requires
        earlier.0 == before.next_spec(),
        after.next_spec() == before.next_spec() + 1,
        after.next_spec() <= later_state.next_spec(),
        later.0 == later_state.next_spec(),
    ensures
        earlier != later,
{
}

} // verus!
