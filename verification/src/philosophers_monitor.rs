use vstd::prelude::*;
use crate::philosophers::{NUM_PHILOSOPHERS, left_fork, right_fork};

verus! {

/// Philosopher `id` holds both of its forks.
pub open spec fn eating(holders: Seq<Option<usize>>, id: int) -> bool {
    &&& holders[left_fork(id)] == Some(id as usize)
    &&& holders[right_fork(id)] == Some(id as usize)
}

/// Forks are only ever held in pairs: whoever holds a fork is one of its two
/// neighbours and holds its other fork too.
pub open spec fn pairs_only(holders: Seq<Option<usize>>) -> bool {
    &&& holders.len() == NUM_PHILOSOPHERS
    &&& forall|f: int|
        0 <= f < NUM_PHILOSOPHERS && #[trigger] holders[f] is Some ==> {
            let p = holders[f]->0 as int;
            &&& 0 <= p < NUM_PHILOSOPHERS
            &&& (f == left_fork(p) || f == right_fork(p))
            &&& eating(holders, p)
        }
}

/// A table where philosophers take both forks at once or none, under one
/// lock and a condition variable held in the caller: a philosopher whose
/// forks are not both free waits for someone to put forks down and tries
/// again. The table records who holds each fork.
pub struct DiningTable {
    holders: Vec<Option<usize>>,
}

impl View for DiningTable {
    type V = Seq<Option<usize>>;

    /// Who holds each fork, by fork number.
    closed spec fn view(&self) -> Seq<Option<usize>> {
        self.holders@
    }
}

impl DiningTable {
    /// A table with every fork on it.
    pub fn new() -> (t: Self)
        ensures
            t@.len() == NUM_PHILOSOPHERS,
            forall|f: int| 0 <= f < NUM_PHILOSOPHERS ==> #[trigger] t@[f] is None,
            pairs_only(t@),
    {
        let mut holders: Vec<Option<usize>> = Vec::with_capacity(NUM_PHILOSOPHERS);
        let mut i: usize = 0;
        while i < NUM_PHILOSOPHERS
            invariant
                i <= NUM_PHILOSOPHERS,
                holders@.len() == i,
                forall|j: int| 0 <= j < i ==> #[trigger] holders@[j] is None,
            decreases NUM_PHILOSOPHERS - i,
        {
            holders.push(None);
            i = i + 1;
        }
        DiningTable { holders }
    }

    /// Philosopher `id` tries to pick up both forks at once. It gets them
    /// (and answers `true`) exactly when both are on the table; otherwise
    /// nothing changes and the caller waits for forks to be put down.
    pub fn take_forks(&mut self, id: usize) -> (taken: bool)
        requires
            id < NUM_PHILOSOPHERS,
            pairs_only(old(self)@),
        ensures
            pairs_only(final(self)@),
            taken == (old(self)@[left_fork(id as int)] is None && old(self)@[right_fork(
                id as int,
            )] is None),
            taken ==> final(self)@ == old(self)@.update(left_fork(id as int), Some(id)).update(
                right_fork(id as int),
                Some(id),
            ),
            !taken ==> final(self)@ == old(self)@,
            taken ==> eating(final(self)@, id as int),
    {
        let l: usize = id;
        let r: usize = (id + 1) % NUM_PHILOSOPHERS;
        if self.holders[l].is_none() && self.holders[r].is_none() {
            self.holders.set(l, Some(id));
            self.holders.set(r, Some(id));
            proof {
                let h = self.holders@;
                let h0 = old(self)@;
                assert forall|f: int| 0 <= f < NUM_PHILOSOPHERS && #[trigger] h[f] is Some implies {
                    let p = h[f]->0 as int;
                    &&& 0 <= p < NUM_PHILOSOPHERS
                    &&& (f == left_fork(p) || f == right_fork(p))
                    &&& eating(h, p)
                } by {
                    if f != l && f != r {
                        let p = h0[f]->0 as int;
                        assert(h0[f] is Some);
                        assert(eating(h0, p));
                        if p == id {
                            assert(false);
                        }
                        assert(left_fork(p) != l && left_fork(p) != r) by {
                            if left_fork(p) == l || left_fork(p) == r {
                                assert(h0[left_fork(p)] is Some);
                            }
                        }
                        assert(right_fork(p) != l && right_fork(p) != r) by {
                            if right_fork(p) == l || right_fork(p) == r {
                                assert(h0[right_fork(p)] is Some);
                            }
                        }
                    }
                }
            }
            true
        } else {
            false
        }
    }

    /// Philosopher `id` puts both of its forks back on the table.
    pub fn put_forks(&mut self, id: usize)
        requires
            id < NUM_PHILOSOPHERS,
            pairs_only(old(self)@),
            eating(old(self)@, id as int),
        ensures
            pairs_only(final(self)@),
            final(self)@ == old(self)@.update(left_fork(id as int), None).update(
                right_fork(id as int),
                None,
            ),
    {
        let l: usize = id;
        let r: usize = (id + 1) % NUM_PHILOSOPHERS;
        self.holders.set(l, None);
        self.holders.set(r, None);
        proof {
            let h = self.holders@;
            let h0 = old(self)@;
            assert forall|f: int| 0 <= f < NUM_PHILOSOPHERS && #[trigger] h[f] is Some implies {
                let p = h[f]->0 as int;
                &&& 0 <= p < NUM_PHILOSOPHERS
                &&& (f == left_fork(p) || f == right_fork(p))
                &&& eating(h, p)
            } by {
                let p = h0[f]->0 as int;
                assert(h0[f] is Some);
                assert(eating(h0, p));
                assert(p != id);
                assert(left_fork(p) != l && left_fork(p) != r);
                assert(right_fork(p) != l && right_fork(p) != r);
            }
        }
    }
}

/// Mutual exclusion: two neighbours never eat at the same time.
pub proof fn lemma_neighbours_never_eat_together(holders: Seq<Option<usize>>, id: int)
    requires
        pairs_only(holders),
        0 <= id < NUM_PHILOSOPHERS,
    ensures
        !(eating(holders, id) && eating(holders, (id + 1) % (NUM_PHILOSOPHERS as int))),
{
}

/// A philosopher who has taken its forks and put them back leaves the table
/// as it found it.
pub proof fn lemma_take_then_put_restores(holders: Seq<Option<usize>>, id: int)
    requires
        holders.len() == NUM_PHILOSOPHERS,
        0 <= id < NUM_PHILOSOPHERS,
        holders[left_fork(id)] is None,
        holders[right_fork(id)] is None,
    ensures
        holders.update(left_fork(id), Some(id as usize)).update(right_fork(id), Some(id as usize)).update(
            left_fork(id),
            None,
        ).update(right_fork(id), None) == holders,
{
    assert(holders.update(left_fork(id), Some(id as usize)).update(right_fork(id), Some(id as usize)).update(
        left_fork(id),
        None,
    ).update(right_fork(id), None) =~= holders);
}

/// Philosopher `id` is eating, or finds both of its forks on the table.
pub open spec fn eating_or_free(holders: Seq<Option<usize>>, id: int) -> bool {
    eating(holders, id) || (holders[left_fork(id)] is None && holders[right_fork(id)] is None)
}

/// No deadlock: at every moment some philosopher is eating, or finds both of
/// its forks on the table and can take them.
pub proof fn lemma_someone_can_eat(holders: Seq<Option<usize>>)
    requires
        pairs_only(holders),
    ensures
        exists|id: int| 0 <= id < NUM_PHILOSOPHERS && #[trigger] eating_or_free(holders, id),
{
    if holders[0] is Some {
        let p = holders[0]->0 as int;
        assert(0 <= p < NUM_PHILOSOPHERS);
        assert(eating_or_free(holders, p));
    } else if holders[1] is Some {
        let p = holders[1]->0 as int;
        assert(0 <= p < NUM_PHILOSOPHERS);
        assert(eating_or_free(holders, p));
    } else {
        assert(eating_or_free(holders, 0));
    }
}

} // verus!
