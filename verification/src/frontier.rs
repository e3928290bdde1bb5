//! A binary heap that hands out its lowest-ranked entry.

use vstd::multiset::Multiset;
use vstd::prelude::*;

verus! {

/// An entry with a rank; a lower rank leaves the frontier first.
pub trait Ranked: Sized + Copy {
    /// The rank, compared lexicographically.
    spec fn rank(self) -> (nat, nat, nat);

    /// Whether this entry has a strictly lower rank than another.
    fn precedes(&self, other: &Self) -> (before: bool)
        ensures
            before == rank_below(self.rank(), other.rank()),
    ;
}

/// Strict lexicographic order on ranks.
pub open spec fn rank_below(a: (nat, nat, nat), b: (nat, nat, nat)) -> bool {
    ||| a.0 < b.0
    ||| a.0 == b.0 && a.1 < b.1
    ||| a.0 == b.0 && a.1 == b.1 && a.2 < b.2
}

/// The queued entries, kept as an implicit binary tree.
pub struct Frontier<T: Ranked> {
    heap: Vec<T>,
}

impl<T: Ranked> View for Frontier<T> {
    type V = Multiset<T>;

    closed spec fn view(&self) -> Multiset<T> {
        self.heap@.to_multiset()
    }
}

/// Whether no entry of `heap` ranks below its parent, the entry at `hole` excepted.
spec fn ordered_but<T: Ranked>(heap: Seq<T>, hole: int) -> bool {
    &&& forall|i: int|
        0 < i < heap.len() && i != hole ==> !rank_below(
            (#[trigger] heap[i]).rank(),
            heap[(i - 1) / 2].rank(),
        )
    &&& forall|i: int|
        0 < i < heap.len() && (i - 1) / 2 == hole && 0 < hole ==> !rank_below(
            (#[trigger] heap[i]).rank(),
            heap[(hole - 1) / 2].rank(),
        )
}

/// Whether no entry of `heap` ranks below its parent, children of `hole` excepted.
spec fn ordered_below<T: Ranked>(heap: Seq<T>, hole: int) -> bool {
    &&& forall|i: int|
        0 < i < heap.len() && (i - 1) / 2 != hole ==> !rank_below(
            (#[trigger] heap[i]).rank(),
            heap[(i - 1) / 2].rank(),
        )
    &&& forall|i: int|
        0 < i < heap.len() && (i - 1) / 2 == hole && 0 < hole ==> !rank_below(
            (#[trigger] heap[i]).rank(),
            heap[(hole - 1) / 2].rank(),
        )
}

/// Exchanging two entries keeps what a sequence holds.
proof fn lemma_swap_keeps_multiset<T>(s: Seq<T>, i: int, j: int)
    requires
        0 <= i < s.len(),
        0 <= j < s.len(),
    ensures
        s.update(i, s[j]).update(j, s[i]).to_multiset() == s.to_multiset(),
{
    vstd::seq_lib::to_multiset_update(s, i, s[j]);
    vstd::seq_lib::to_multiset_update(s.update(i, s[j]), j, s[i]);
    s.to_multiset_ensures();
    assert(s.contains(s[i]));
    assert(s.contains(s[j]));
    assert(s.update(i, s[j]).update(j, s[i]).to_multiset() =~= s.to_multiset());
}

/// In an ordered heap nothing ranks below the entry at the root.
proof fn lemma_root_is_lowest<T: Ranked>(heap: Seq<T>, i: int)
    requires
        ordered_but(heap, -1),
        0 <= i < heap.len(),
    ensures
        !rank_below(heap[i].rank(), heap[0].rank()),
    decreases i,
{
    if i > 0 {
        lemma_root_is_lowest(heap, (i - 1) / 2);
    }
}

impl<T: Ranked> Frontier<T> {
    /// Whether the tree is in heap order.
    pub closed spec fn wf(&self) -> bool {
        ordered_but(self.heap@, -1)
    }

    /// Creates an empty frontier.
    pub fn new() -> (frontier: Self)
        ensures
            frontier.wf(),
            frontier@ == Multiset::<T>::empty(),
    {
        let frontier = Frontier { heap: Vec::new() };
        assert(frontier@ =~= Multiset::<T>::empty()) by {
            frontier.heap@.to_multiset_ensures();
        }
        frontier
    }

    /// Queues one entry.
    pub fn push(&mut self, entry: T)
        requires
            old(self).wf(),
        ensures
            final(self).wf(),
            final(self)@ == old(self)@.insert(entry),
    {
        proof {
            self.heap@.to_multiset_ensures();
        }
        self.heap.push(entry);
        let last: usize = self.heap.len() - 1;
        self.sift_up(last);
    }

    /// Moves the entry at `start` towards the root until its parent does not rank above it.
    fn sift_up(&mut self, start: usize)
        requires
            start < old(self).heap@.len(),
            ordered_but(old(self).heap@, start as int),
        ensures
            final(self).wf(),
            final(self)@ == old(self)@,
    {
        let mut at: usize = start;
        while at > 0 && self.heap[at].precedes(&self.heap[(at - 1) / 2])
            invariant
                at < self.heap@.len(),
                ordered_but(self.heap@, at as int),
                self@ == old(self)@,
            ensures
                at < self.heap@.len(),
                ordered_but(self.heap@, -1),
                self@ == old(self)@,
            decreases at,
        {
            let parent: usize = (at - 1) / 2;
            let ghost before = self.heap@;
            let lower = self.heap[at];
            let upper = self.heap[parent];
            self.heap.set(at, upper);
            self.heap.set(parent, lower);
            proof {
                lemma_swap_keeps_multiset(before, at as int, parent as int);
                assert(self.heap@ =~= before.update(at as int, before[parent as int]).update(
                    parent as int,
                    before[at as int],
                ));
            }
            at = parent;
        }
    }

    /// Takes out an entry that no queued entry ranks below, or nothing from an empty frontier.
    pub fn pop(&mut self) -> (entry: Option<T>)
        requires
            old(self).wf(),
        ensures
            final(self).wf(),
            match entry {
                Some(e) => {
                    &&& old(self)@.contains(e)
                    &&& forall|other: T| #[trigger]
                        old(self)@.contains(other) ==> !rank_below(other.rank(), e.rank())
                    &&& final(self)@ == old(self)@.remove(e)
                },
                None => old(self)@ == Multiset::<T>::empty() && final(self)@ == old(self)@,
            },
    {
        proof {
            self.heap@.to_multiset_ensures();
        }
        let count: usize = self.heap.len();
        if count == 0 {
            assert(self@ =~= Multiset::<T>::empty());
            return None;
        }
        let ghost before = self.heap@;
        let lowest = self.heap[0];
        proof {
            assert(before.contains(before[0]));
            assert forall|other: T| #[trigger] self@.contains(other) implies !rank_below(
                other.rank(),
                lowest.rank(),
            ) by {
                let i = choose|i: int| 0 <= i < before.len() && before[i] == other;
                lemma_root_is_lowest(before, i);
            }
        }
        let last = self.heap[count - 1];
        self.heap.pop();
        if count > 1 {
            self.heap.set(0, last);
        }
        proof {
            let dropped = before.remove(0);
            if count > 1 {
                // The last entry moved to the root: what is left is the old contents less the root.
                let shifted = before.update(0, last);
                vstd::seq_lib::to_multiset_update(before, 0, last);
                assert(self.heap@ =~= shifted.remove(count - 1));
                shifted.to_multiset_ensures();
                assert(self@ =~= old(self)@.remove(lowest));
            } else {
                assert(self.heap@ =~= before.remove(0));
                assert(self@ =~= old(self)@.remove(lowest));
            }
        }
        if count > 1 {
            self.sift_down();
        }
        Some(lowest)
    }

    /// Moves the entry at the root away from it until no child ranks below it.
    fn sift_down(&mut self)
        requires
            ordered_below(old(self).heap@, 0),
        ensures
            final(self).wf(),
            final(self)@ == old(self)@,
    {
        let count: usize = self.heap.len();
        let mut at: usize = 0;
        while at < count / 2
            invariant
                count == self.heap@.len(),
                at <= count,
                ordered_below(self.heap@, at as int),
                self@ == old(self)@,
            ensures
                ordered_but(self.heap@, -1),
                self@ == old(self)@,
            decreases count - at,
        {
            let left: usize = 2 * at + 1;
            let mut child: usize = left;
            if left + 1 < count && self.heap[left + 1].precedes(&self.heap[left]) {
                child = left + 1;
            }
            if !self.heap[child].precedes(&self.heap[at]) {
                assert forall|i: int| 0 < i < self.heap@.len() implies !rank_below(
                    (#[trigger] self.heap@[i]).rank(),
                    self.heap@[(i - 1) / 2].rank(),
                ) by {
                    if (i - 1) / 2 == at {
                        assert(i == left || i == left + 1);
                    }
                }
                break;
            }
            let ghost before = self.heap@;
            let lower = self.heap[child];
            let upper = self.heap[at];
            self.heap.set(child, upper);
            self.heap.set(at, lower);
            proof {
                lemma_swap_keeps_multiset(before, child as int, at as int);
                assert(self.heap@ =~= before.update(child as int, before[at as int]).update(
                    at as int,
                    before[child as int],
                ));
                assert forall|i: int|
                    0 < i < self.heap@.len() && (i - 1) / 2 != child implies !rank_below(
                    (#[trigger] self.heap@[i]).rank(),
                    self.heap@[(i - 1) / 2].rank(),
                ) by {
                    if (i - 1) / 2 == at {
                        assert(i == left || i == left + 1);
                    }
                    assert(!rank_below(before[i].rank(), before[(i - 1) / 2].rank()) || (i - 1) / 2
                        == at);
                }
                assert forall|i: int|
                    0 < i < self.heap@.len() && (i - 1) / 2 == child implies !rank_below(
                    (#[trigger] self.heap@[i]).rank(),
                    self.heap@[(child - 1) / 2].rank(),
                ) by {
                    assert(!rank_below(before[i].rank(), before[(i - 1) / 2].rank()));
                }
            }
            at = child;
        }
    }
}

} // verus!
