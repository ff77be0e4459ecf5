use vstd::prelude::*;
use crate::list::LinkedList;
use crate::order::text_le;
use crate::sorting::{
    Texts,
    adjacent_sorted,
    compare_swap,
    inversions,
    same_entries,
    sorted,
    swap_adjacent,
    lemma_adjacent_sorted_is_sorted,
    lemma_swap_inversions,
    lemma_swap_same_entries,
};

verus! {

/// What one step of a bubble sort did.
pub enum SortStep {
    /// Compared two neighbours, which were in order.
    Kept,
    /// Compared two neighbours and traded them.
    Swapped,
    /// Reached the end of a pass that swapped something; a new pass begins.
    NextPass,
    /// Reached the end of a pass that swapped nothing: the list is sorted.
    Finished,
}

/// Every pair of neighbours `(i, i + 1)` with `i < k` is in order.
pub open spec fn pairs_in_order_below(s: Texts, k: int) -> bool {
    forall|i: int| 0 <= i < k && i + 1 < s.len() ==> #[trigger] text_le(s[i], s[i + 1])
}

/// A bubble sort that advances one comparison at a time, so that the caller
/// can act between steps (for example, wait after each swap). It keeps the
/// cursor of the current pass and whether the pass has swapped anything.
pub struct StepSort {
    pos: usize,
    swapped: bool,
}

impl StepSort {
    /// The position of the next comparison in the current pass.
    pub closed spec fn position(&self) -> nat {
        self.pos as nat
    }

    /// Whether the current pass has swapped anything yet.
    pub closed spec fn swapped_in_pass(&self) -> bool {
        self.swapped
    }

    /// The sorter's state fits the list `s`: the cursor lies in the list,
    /// a pass that swapped nothing so far has found its pairs in order, and
    /// a swap needs at least two entries.
    pub open spec fn valid_for(&self, s: Texts) -> bool {
        &&& (self.position() == 0 || self.position() < s.len())
        &&& (!self.swapped_in_pass() ==> pairs_in_order_below(s, self.position() as int))
        &&& (self.swapped_in_pass() ==> s.len() >= 2)
    }

    /// A bound on the steps left: every step other than `Finished` lowers it.
    pub open spec fn steps_bound(&self, s: Texts) -> nat {
        ((s.len() + 2) * inversions(s) + (if self.swapped_in_pass() { s.len() } else { 0 }) + (
        s.len() - self.position())) as nat
    }

    /// A sorter at the start of its first pass.
    pub fn new() -> (st: Self)
        ensures
            st.position() == 0,
            !st.swapped_in_pass(),
            forall|s: Texts| st.valid_for(s),
    {
        StepSort { pos: 0, swapped: false }
    }

    /// Does one step of the sort on `list`: compares the pair at the cursor
    /// and trades it when it is out of order; at the end of a pass, starts a
    /// new pass if this one swapped anything, and otherwise reports that the
    /// list is sorted.
    pub fn step(&mut self, list: &mut LinkedList) -> (outcome: SortStep)
        requires
            old(self).valid_for(old(list)@),
            old(list)@.len() <= usize::MAX,
        ensures
            final(self).valid_for(final(list)@),
            same_entries(final(list)@, old(list)@),
            final(list)@.len() == old(list)@.len(),
            ({
                let s = old(list)@;
                let p = old(self).position() as int;
                if p + 1 < s.len() {
                    &&& final(list)@ == compare_swap(s, p).0
                    &&& outcome == (if compare_swap(s, p).1 {
                        SortStep::Swapped
                    } else {
                        SortStep::Kept
                    })
                    &&& final(self).position() == p + 1
                    &&& final(self).swapped_in_pass() == (old(self).swapped_in_pass()
                        || compare_swap(s, p).1)
                } else if old(self).swapped_in_pass() {
                    &&& final(list)@ == s
                    &&& outcome == SortStep::NextPass
                    &&& final(self).position() == 0
                    &&& !final(self).swapped_in_pass()
                } else {
                    &&& final(list)@ == s
                    &&& outcome == SortStep::Finished
                    &&& *final(self) == *old(self)
                }
            }),
            outcome != SortStep::Finished ==> final(self).steps_bound(final(list)@) < old(
                self,
            ).steps_bound(old(list)@),
            outcome == SortStep::Finished ==> sorted(final(list)@),
    {
        let ghost s = list@;
        let ghost n = s.len();
        let ghost inv = inversions(s);
        let ghost was_swapped = self.swapped;
        if list.has_pair_at(self.pos) {
            let p = self.pos;
            let did = list.compare_swap_at(p);
            self.pos = p + 1;
            self.swapped = self.swapped || did;
            proof {
                let t = list@;
                if did {
                    lemma_swap_same_entries(s, p as int);
                    lemma_swap_inversions(s, p as int);
                    assert(t == swap_adjacent(s, p as int));
                    assert(inversions(t) + 1 == inv);
                    assert((n + 2) * inversions(t) + (n + 2) == (n + 2) * inv) by (nonlinear_arith)
                        requires
                            inversions(t) + 1 == inv,
                    ;
                } else if !was_swapped {
                    assert(t == s);
                    assert forall|i: int|
                        0 <= i < p + 1 && i + 1 < t.len() implies #[trigger] text_le(
                        t[i],
                        t[i + 1],
                    ) by {
                        if i == p {
                            assert(text_le(s[p as int], s[p + 1]));
                        }
                    }
                }
            }
            if did {
                SortStep::Swapped
            } else {
                SortStep::Kept
            }
        } else if self.swapped {
            self.pos = 0;
            self.swapped = false;
            SortStep::NextPass
        } else {
            proof {
                assert forall|i: int| 0 <= i < s.len() - 1 implies #[trigger] text_le(
                    s[i],
                    s[i + 1],
                ) by {
                    assert(0 <= i < self.pos && i + 1 < s.len());
                }
                assert(adjacent_sorted(s));
                lemma_adjacent_sorted_is_sorted(s);
            }
            SortStep::Finished
        }
    }
}

/// Sorts `list` in ascending order by bubble sort, one compare-and-swap at a
/// time, moving a cursor from each pair to the next as a hand-over-hand walk
/// along the nodes does, until a whole pass swaps nothing.
pub fn bubble_sort(list: &mut LinkedList)
    requires
        old(list)@.len() <= usize::MAX,
    ensures
        sorted(final(list)@),
        same_entries(final(list)@, old(list)@),
{
    let mut st = StepSort::new();
    let mut done = false;
    while !done
        invariant
            st.valid_for(list@),
            same_entries(list@, old(list)@),
            list@.len() == old(list)@.len(),
            old(list)@.len() <= usize::MAX,
            done ==> sorted(list@),
        decreases st.steps_bound(list@) + if done { 0nat } else { 1nat },
    {
        match st.step(list) {
            SortStep::Finished => {
                done = true;
            },
            _ => {},
        }
    }
}

} // verus!
