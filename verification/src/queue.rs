//! Entries of the search frontiers and the order in which they are taken out.

use crate::frontier::{rank_below, Ranked};
use crate::geometry::{Coord, LayeredNode};
use core::cmp::Ordering;
use vstd::prelude::*;
use vstd::std_specs::cmp::PartialOrdSpec;

verus! {

/// Orders two ranks; the lower one is the greater entry, the one to take out first.
pub open spec fn rank_order(a: (nat, nat, nat), b: (nat, nat, nat)) -> Ordering {
    if rank_below(a, b) {
        Ordering::Greater
    } else if rank_below(b, a) {
        Ordering::Less
    } else {
        Ordering::Equal
    }
}

/// Of two ranks the lower one, by its first part, then its second, then its third, is the greater
/// entry; entries are equal exactly if all parts of their ranks are.
pub proof fn law_lower_rank_is_greater(a: (nat, nat, nat), b: (nat, nat, nat))
    ensures
        rank_order(a, b) == Ordering::Greater <==> rank_below(a, b),
        rank_order(a, b) == Ordering::Less <==> rank_below(b, a),
        rank_order(a, b) == Ordering::Equal <==> a == b,
{
}

/// Queue entry for the single-level search.
#[derive(Clone, Copy, Debug, PartialEq, Eq)]
pub struct QueueEntry {
    /// Turf represented by this queue entry.
    pub coord: Coord,
    /// Cost already spent reaching the turf.
    pub cost: u32,
    /// Cost plus the heuristic estimate.
    pub estimate: u32,
    /// Tie-breaker preserving queue order.
    pub sequence: u64,
}

impl QueueEntry {
    /// Orders entries by lowest estimated path cost, then by lowest cost, then by queue order.
    pub fn cmp(&self, other: &Self) -> (order: Ordering)
        ensures
            order == rank_order(self.rank(), other.rank()),
    {
        if self.precedes(other) {
            Ordering::Greater
        } else if other.precedes(self) {
            Ordering::Less
        } else {
            Ordering::Equal
        }
    }
}

impl PartialOrd for QueueEntry {
    /// Delegates partial ordering to the total queue ordering.
    fn partial_cmp(&self, other: &Self) -> (order: Option<Ordering>) {
        Some(self.cmp(other))
    }
}

impl vstd::std_specs::cmp::PartialOrdSpecImpl for QueueEntry {
    open spec fn obeys_partial_cmp_spec() -> bool {
        true
    }

    open spec fn partial_cmp_spec(&self, other: &Self) -> Option<Ordering> {
        Some(rank_order(self.rank(), other.rank()))
    }
}

impl Ranked for QueueEntry {
    open spec fn rank(self) -> (nat, nat, nat) {
        (self.estimate as nat, self.cost as nat, self.sequence as nat)
    }

    fn precedes(&self, other: &Self) -> (before: bool) {
        self.estimate < other.estimate || (self.estimate == other.estimate && (self.cost
            < other.cost || (self.cost == other.cost && self.sequence < other.sequence)))
    }
}

/// Queue entry for the relaxed distances of the portal heuristic.
#[derive(Clone, Copy, Debug, PartialEq, Eq, Structural)]
pub struct RelaxedQueueEntry {
    /// Portal represented by this entry.
    pub node: LayeredNode,
    /// Relaxed distance to the target region.
    pub cost: u32,
    /// Tie-breaker preserving queue order.
    pub sequence: u64,
}

impl RelaxedQueueEntry {
    /// Orders entries by lowest relaxed distance, then by queue order.
    pub fn cmp(&self, other: &Self) -> (order: Ordering)
        ensures
            order == rank_order(self.rank(), other.rank()),
    {
        if self.precedes(other) {
            Ordering::Greater
        } else if other.precedes(self) {
            Ordering::Less
        } else {
            Ordering::Equal
        }
    }
}

impl PartialOrd for RelaxedQueueEntry {
    /// Delegates partial ordering to the total queue ordering.
    fn partial_cmp(&self, other: &Self) -> (order: Option<Ordering>) {
        Some(self.cmp(other))
    }
}

impl vstd::std_specs::cmp::PartialOrdSpecImpl for RelaxedQueueEntry {
    open spec fn obeys_partial_cmp_spec() -> bool {
        true
    }

    open spec fn partial_cmp_spec(&self, other: &Self) -> Option<Ordering> {
        Some(rank_order(self.rank(), other.rank()))
    }
}

impl Ranked for RelaxedQueueEntry {
    open spec fn rank(self) -> (nat, nat, nat) {
        (self.cost as nat, self.sequence as nat, 0)
    }

    fn precedes(&self, other: &Self) -> (before: bool) {
        self.cost < other.cost || (self.cost == other.cost && self.sequence < other.sequence)
    }
}

/// Queue entry for the multi-level search.
#[derive(Clone, Copy, Debug, PartialEq, Eq, Structural)]
pub struct LayeredQueueEntry {
    /// Node represented by this entry.
    pub node: LayeredNode,
    /// Cost already spent reaching the node.
    pub cost: u32,
    /// Cost plus the relaxed lower-bound estimate.
    pub estimate: u32,
    /// Tie-breaker preserving queue order.
    pub sequence: u64,
}

impl LayeredQueueEntry {
    /// Orders entries by lowest estimated total cost first, then by lowest cost, then by queue
    /// order.
    pub fn cmp(&self, other: &Self) -> (order: Ordering)
        ensures
            order == rank_order(self.rank(), other.rank()),
    {
        if self.precedes(other) {
            Ordering::Greater
        } else if other.precedes(self) {
            Ordering::Less
        } else {
            Ordering::Equal
        }
    }
}

impl PartialOrd for LayeredQueueEntry {
    /// Delegates partial ordering to the total queue ordering.
    fn partial_cmp(&self, other: &Self) -> (order: Option<Ordering>) {
        Some(self.cmp(other))
    }
}

impl vstd::std_specs::cmp::PartialOrdSpecImpl for LayeredQueueEntry {
    open spec fn obeys_partial_cmp_spec() -> bool {
        true
    }

    open spec fn partial_cmp_spec(&self, other: &Self) -> Option<Ordering> {
        Some(rank_order(self.rank(), other.rank()))
    }
}

impl Ranked for LayeredQueueEntry {
    open spec fn rank(self) -> (nat, nat, nat) {
        (self.estimate as nat, self.cost as nat, self.sequence as nat)
    }

    fn precedes(&self, other: &Self) -> (before: bool) {
        self.estimate < other.estimate || (self.estimate == other.estimate && (self.cost
            < other.cost || (self.cost == other.cost && self.sequence < other.sequence)))
    }
}

/// The partial comparison of any two entries is their total one: the entry with the lower estimate,
/// then the lower cost, then the earlier place in the queue, is the greater. Where they lie does not
/// matter.
pub proof fn law_partial_order_is_the_total_one(a: QueueEntry, b: QueueEntry)
    ensures
        PartialOrdSpec::partial_cmp_spec(&a, &b) == Some(rank_order(a.rank(), b.rank())),
        PartialOrdSpec::partial_cmp_spec(&a, &b) == Some(Ordering::Greater) <==> {
            ||| a.estimate < b.estimate
            ||| a.estimate == b.estimate && a.cost < b.cost
            ||| a.estimate == b.estimate && a.cost == b.cost && a.sequence < b.sequence
        },
        PartialOrdSpec::partial_cmp_spec(&a, &b) == Some(Ordering::Equal) <==> {
            &&& a.estimate == b.estimate
            &&& a.cost == b.cost
            &&& a.sequence == b.sequence
        },
        PartialOrdSpec::partial_cmp_spec(&a, &b) == Some(Ordering::Less) <==> PartialOrdSpec::partial_cmp_spec(&b, &a) == Some(
            Ordering::Greater,
        ),
{
}

/// A frontier hands out the entry with the lowest estimate first, of those the one with the lowest
/// cost, and of those the one that was queued first; relaxed distances go by cost and then by order.
pub proof fn law_entries_leave_in_order(
    a: QueueEntry,
    b: QueueEntry,
    c: LayeredQueueEntry,
    d: LayeredQueueEntry,
    e: RelaxedQueueEntry,
    f: RelaxedQueueEntry,
)
    ensures
        rank_below(a.rank(), b.rank()) <==> {
            ||| a.estimate < b.estimate
            ||| a.estimate == b.estimate && a.cost < b.cost
            ||| a.estimate == b.estimate && a.cost == b.cost && a.sequence < b.sequence
        },
        rank_below(c.rank(), d.rank()) <==> {
            ||| c.estimate < d.estimate
            ||| c.estimate == d.estimate && c.cost < d.cost
            ||| c.estimate == d.estimate && c.cost == d.cost && c.sequence < d.sequence
        },
        rank_below(e.rank(), f.rank()) <==> {
            ||| e.cost < f.cost
            ||| e.cost == f.cost && e.sequence < f.sequence
        },
        rank_order(a.rank(), b.rank()) == Ordering::Greater <==> rank_below(a.rank(), b.rank()),
        rank_order(a.rank(), b.rank()) == Ordering::Less <==> rank_below(b.rank(), a.rank()),
        rank_order(c.rank(), d.rank()) == Ordering::Greater <==> rank_below(c.rank(), d.rank()),
        rank_order(c.rank(), d.rank()) == Ordering::Less <==> rank_below(d.rank(), c.rank()),
        rank_order(e.rank(), f.rank()) == Ordering::Greater <==> rank_below(e.rank(), f.rank()),
        rank_order(e.rank(), f.rank()) == Ordering::Less <==> rank_below(f.rank(), e.rank()),
{
}

} // verus!
