use crate::direction::Direction;
use crate::point::Point2d;
use vstd::prelude::*;

verus! {

/// A point from which the search continues in one direction, with the cost
/// of reaching it and the estimated total cost that orders the queue.
#[derive(Debug, Copy, Clone)]
pub struct JumpPoint {
    pub start: Point2d,
    pub direction: Direction,
    pub cost_to_start: u64,
    pub total_cost_estimate: u64,
}

impl PartialEq for JumpPoint {
    /// Jump points are equal when their total cost estimates are.
    fn eq(&self, other: &Self) -> (r: bool) {
        self.total_cost_estimate == other.total_cost_estimate
    }
}

impl vstd::std_specs::cmp::PartialEqSpecImpl for JumpPoint {
    open spec fn obeys_eq_spec() -> bool {
        true
    }

    open spec fn eq_spec(&self, other: &Self) -> bool {
        self.total_cost_estimate == other.total_cost_estimate
    }
}

impl Eq for JumpPoint {

}

impl PartialOrd for JumpPoint {
    /// Jump points are ordered by total cost estimate, reversed: the one with
    /// the smaller estimate is the greater, so that it leaves a max-first
    /// queue first.
    fn partial_cmp(&self, other: &Self) -> (r: Option<core::cmp::Ordering>)
        ensures
            (r == Some(core::cmp::Ordering::Equal)) == (self.total_cost_estimate
                == other.total_cost_estimate),
            (r == Some(core::cmp::Ordering::Less)) == (other.total_cost_estimate
                < self.total_cost_estimate),
            (r == Some(core::cmp::Ordering::Greater)) == (self.total_cost_estimate
                < other.total_cost_estimate),
    {
        if other.total_cost_estimate < self.total_cost_estimate {
            Some(core::cmp::Ordering::Less)
        } else if other.total_cost_estimate == self.total_cost_estimate {
            Some(core::cmp::Ordering::Equal)
        } else {
            Some(core::cmp::Ordering::Greater)
        }
    }
}

impl vstd::std_specs::cmp::PartialOrdSpecImpl for JumpPoint {
    open spec fn obeys_partial_cmp_spec() -> bool {
        true
    }

    open spec fn partial_cmp_spec(&self, other: &Self) -> Option<core::cmp::Ordering> {
        if other.total_cost_estimate < self.total_cost_estimate {
            Some(core::cmp::Ordering::Less)
        } else if other.total_cost_estimate == self.total_cost_estimate {
            Some(core::cmp::Ordering::Equal)
        } else {
            Some(core::cmp::Ordering::Greater)
        }
    }
}

/// `i` is the first position holding a smallest total cost estimate.
pub open spec fn is_first_min(s: Seq<JumpPoint>, i: int) -> bool {
    &&& 0 <= i < s.len()
    &&& forall|j: int| 0 <= j < s.len() ==> s[i].total_cost_estimate <= s[j].total_cost_estimate
    &&& forall|j: int| 0 <= j < i ==> s[i].total_cost_estimate < s[j].total_cost_estimate
}

/// A min-priority queue of jump points ordered by total cost estimate. Of
/// several with the same estimate, the one pushed first leaves first.
pub struct JumpPointQueue {
    items: Vec<JumpPoint>,
}

impl View for JumpPointQueue {
    type V = Seq<JumpPoint>;

    /// The queued jump points, in the order they were pushed.
    closed spec fn view(&self) -> Seq<JumpPoint> {
        self.items@
    }
}

impl JumpPointQueue {
    /// An empty queue.
    pub fn new() -> (q: JumpPointQueue)
        ensures
            q@ == Seq::<JumpPoint>::empty(),
    {
        JumpPointQueue { items: Vec::new() }
    }

    /// Number of queued jump points.
    pub fn len(&self) -> (n: usize)
        ensures
            n == self@.len(),
    {
        self.items.len()
    }

    /// Adds a jump point.
    pub fn push(&mut self, jp: JumpPoint)
        ensures
            final(self)@ == old(self)@.push(jp),
    {
        self.items.push(jp);
    }

    /// Removes and returns a jump point of smallest total cost estimate, the
    /// earliest pushed among equals; `None` when the queue is empty.
    pub fn pop(&mut self) -> (r: Option<JumpPoint>)
        ensures
            old(self)@.len() == 0 ==> r is None && final(self)@ == old(self)@,
            old(self)@.len() > 0 ==> exists|i: int|
                #![trigger old(self)@[i]]
                is_first_min(old(self)@, i) && r == Some(old(self)@[i]) && final(self)@ == old(
                    self,
                )@.remove(i),
    {
        let n = self.items.len();
        if n == 0 {
            return None;
        }
        let mut best: usize = 0;
        let mut i: usize = 1;
        while i < n
            invariant
                n == self.items@.len(),
                1 <= i <= n,
                best < i,
                forall|j: int|
                    0 <= j < i ==> self.items@[best as int].total_cost_estimate
                        <= self.items@[j].total_cost_estimate,
                forall|j: int|
                    0 <= j < best ==> self.items@[best as int].total_cost_estimate
                        < self.items@[j].total_cost_estimate,
            decreases n - i,
        {
            if self.items[i].total_cost_estimate < self.items[best].total_cost_estimate {
                best = i;
            }
            i = i + 1;
        }
        let jp = self.items.remove(best);
        assert(is_first_min(old(self)@, best as int));
        Some(jp)
    }
}

} // verus!
