use vstd::prelude::*;

verus! {

/// The number of philosophers, and of forks, at the table.
pub const NUM_PHILOSOPHERS: usize = 5;

/// The fork on philosopher `id`'s left.
pub open spec fn left_fork(id: int) -> int {
    id
}

/// The fork on philosopher `id`'s right.
pub open spec fn right_fork(id: int) -> int {
    (id + 1) % (NUM_PHILOSOPHERS as int)
}

/// The order in which philosopher `id` picks up its forks: left then right,
/// except the last philosopher, who picks up right then left.
pub open spec fn fork_order_spec(id: int) -> (int, int) {
    if id == NUM_PHILOSOPHERS - 1 {
        (right_fork(id), left_fork(id))
    } else {
        (left_fork(id), right_fork(id))
    }
}

/// A fork, known by its number.
pub struct Fork {
    pub id: usize,
}

/// A round table of `NUM_PHILOSOPHERS` forks, numbered round the table.
/// Each fork is guarded by its own lock, held in the caller.
pub struct DiningTable {
    forks: Vec<Fork>,
}

impl View for DiningTable {
    type V = Seq<usize>;

    /// The numbers of the forks, in their places round the table.
    closed spec fn view(&self) -> Seq<usize> {
        self.forks@.map_values(|f: Fork| f.id)
    }
}

impl DiningTable {
    /// A table whose fork in place `i` has number `i`.
    pub fn new() -> (t: Self)
        ensures
            t@.len() == NUM_PHILOSOPHERS,
            forall|i: int| 0 <= i < NUM_PHILOSOPHERS ==> #[trigger] t@[i] == i,
    {
        let mut forks: Vec<Fork> = Vec::with_capacity(NUM_PHILOSOPHERS);
        let mut i: usize = 0;
        while i < NUM_PHILOSOPHERS
            invariant
                i <= NUM_PHILOSOPHERS,
                forks@.len() == i,
                forall|j: int| 0 <= j < i ==> #[trigger] forks@[j].id == j,
            decreases NUM_PHILOSOPHERS - i,
        {
            forks.push(Fork { id: i });
            i = i + 1;
        }
        DiningTable { forks }
    }

    /// The forks philosopher `id` picks up, first and second, by number: its
    /// left then its right, except that the last philosopher takes its right
    /// fork first. So every philosopher takes the lower-numbered fork first.
    pub fn fork_order(&self, id: usize) -> (forks: (usize, usize))
        requires
            id < NUM_PHILOSOPHERS,
            self@.len() == NUM_PHILOSOPHERS,
            forall|i: int| 0 <= i < NUM_PHILOSOPHERS ==> #[trigger] self@[i] == i,
        ensures
            forks.0 == fork_order_spec(id as int).0,
            forks.1 == fork_order_spec(id as int).1,
    {
        let r: usize = (id + 1) % NUM_PHILOSOPHERS;
        let left = &self.forks[id];
        let right = &self.forks[r];
        proof {
            assert(self@[id as int] == left.id);
            assert(self@[r as int] == right.id);
        }
        if id == NUM_PHILOSOPHERS - 1 {
            (right.id, left.id)
        } else {
            (left.id, right.id)
        }
    }
}

/// How many meals each philosopher eats before leaving the table.
pub const MEALS: usize = 10;

/// The steps of one round at the table: think, take the first fork, take the
/// second, eat, put both forks down.
pub const STEPS_PER_MEAL: usize = 5;

/// What a philosopher does next.
#[derive(Clone, Copy, Debug, PartialEq, Eq, Structural)]
pub enum Step {
    /// Think for a while.
    Think,
    /// Pick up the fork with this number, waiting until it is free.
    TakeFork(usize),
    /// Eat, holding both forks.
    Eat,
    /// Put both forks down.
    PutDown,
    /// Leave the table: every meal has been eaten.
    Done,
}

/// The step philosopher `id` takes after `taken` steps: `MEALS` rounds of
/// thinking, taking its forks in its order, eating and putting them down,
/// and then leaving.
pub open spec fn step_at(id: int, taken: nat) -> Step {
    if taken >= STEPS_PER_MEAL * MEALS {
        Step::Done
    } else {
        let r = taken % (STEPS_PER_MEAL as nat);
        if r == 0 {
            Step::Think
        } else if r == 1 {
            Step::TakeFork(fork_order_spec(id).0 as usize)
        } else if r == 2 {
            Step::TakeFork(fork_order_spec(id).1 as usize)
        } else if r == 3 {
            Step::Eat
        } else {
            Step::PutDown
        }
    }
}

/// How many of philosopher `id`'s first `n` steps are meals.
pub open spec fn meals_within(id: int, n: nat) -> nat
    decreases n,
{
    if n == 0 {
        0
    } else {
        meals_within(id, (n - 1) as nat) + if step_at(id, (n - 1) as nat) is Eat {
            1nat
        } else {
            0nat
        }
    }
}

/// One philosopher's place in its life at the table: who it is, the forks it
/// takes in order, and how many steps it has taken.
pub struct Philosopher {
    id: usize,
    first: usize,
    second: usize,
    taken: usize,
}

impl View for Philosopher {
    type V = (nat, nat);

    /// The philosopher's number and the steps it has taken.
    closed spec fn view(&self) -> (nat, nat) {
        (self.id as nat, self.taken as nat)
    }
}

impl Philosopher {
    #[verifier::type_invariant]
    spec fn well_formed(self) -> bool {
        &&& self.id < NUM_PHILOSOPHERS
        &&& self.first == fork_order_spec(self.id as int).0
        &&& self.second == fork_order_spec(self.id as int).1
        &&& self.taken <= STEPS_PER_MEAL * MEALS
    }

    /// Philosopher `id`, sitting down at `table` with no step taken.
    pub fn new(table: &DiningTable, id: usize) -> (p: Self)
        requires
            id < NUM_PHILOSOPHERS,
            table@.len() == NUM_PHILOSOPHERS,
            forall|i: int| 0 <= i < NUM_PHILOSOPHERS ==> #[trigger] table@[i] == i,
        ensures
            p@ == (id as nat, 0nat),
    {
        let (first, second) = table.fork_order(id);
        Philosopher { id, first, second, taken: 0 }
    }

    /// The next step of the philosopher's life; after the last meal it is
    /// `Done`, again and again.
    pub fn next_step(&mut self) -> (s: Step)
        ensures
            s == step_at(old(self)@.0 as int, old(self)@.1),
            final(self)@.0 == old(self)@.0,
            final(self)@.1 == if old(self)@.1 < STEPS_PER_MEAL * MEALS {
                old(self)@.1 + 1
            } else {
                old(self)@.1
            },
    {
        proof {
            use_type_invariant(&*self);
        }
        if self.taken >= STEPS_PER_MEAL * MEALS {
            return Step::Done;
        }
        let r: usize = self.taken % STEPS_PER_MEAL;
        let s = if r == 0 {
            Step::Think
        } else if r == 1 {
            Step::TakeFork(self.first)
        } else if r == 2 {
            Step::TakeFork(self.second)
        } else if r == 3 {
            Step::Eat
        } else {
            Step::PutDown
        };
        self.taken = self.taken + 1;
        s
    }
}

/// Every meal is eaten holding both of the philosopher's forks: the two steps
/// before it take them, lower-numbered first, and the step after it puts
/// them down.
pub proof fn lemma_meal_holds_both_forks(id: int, k: nat)
    requires
        0 <= id < NUM_PHILOSOPHERS,
        step_at(id, k) is Eat,
    ensures
        k >= 2,
        step_at(id, (k - 2) as nat) == Step::TakeFork(fork_order_spec(id).0 as usize),
        step_at(id, (k - 1) as nat) == Step::TakeFork(fork_order_spec(id).1 as usize),
        step_at(id, k + 1) is PutDown,
        fork_order_spec(id).0 < fork_order_spec(id).1,
        (fork_order_spec(id).0 == left_fork(id) && fork_order_spec(id).1 == right_fork(id)) || (
        fork_order_spec(id).0 == right_fork(id) && fork_order_spec(id).1 == left_fork(id)),
{
    lemma_forks_taken_in_order(id);
    assert(k % 5 == 3 && k < 50);
    assert((k - 2) % 5 == 1 && (k - 1) % 5 == 2 && (k + 1) % 5 == 4 && k + 1 < 50) by {
        assert(k == 5 * (k / 5) + 3);
    }
}

/// A philosopher eats exactly `MEALS` meals and then leaves the table for good.
pub proof fn lemma_eats_every_meal_then_leaves(id: int)
    ensures
        meals_within(id, (STEPS_PER_MEAL * MEALS) as nat) == MEALS,
        forall|n: nat| n >= STEPS_PER_MEAL * MEALS ==> #[trigger] step_at(id, n) is Done,
{
    lemma_meals_by_round(id, MEALS as nat);
}

/// After `j` whole rounds a philosopher has eaten `j` meals.
proof fn lemma_meals_by_round(id: int, j: nat)
    requires
        j <= MEALS,
    ensures
        meals_within(id, 5 * j) == j,
    decreases j,
{
    if j > 0 {
        let b = (5 * (j - 1)) as nat;
        lemma_meals_by_round(id, (j - 1) as nat);
        assert(b % 5 == 0 && (b + 1) % 5 == 1 && (b + 2) % 5 == 2 && (b + 3) % 5 == 3 && (b + 4)
            % 5 == 4) by {
            assert(b == 5 * (j - 1));
        }
        assert(meals_within(id, b + 1) == j - 1);
        assert(meals_within(id, b + 2) == j - 1);
        assert(meals_within(id, b + 3) == j - 1);
        assert(meals_within(id, b + 4) == j);
        assert(meals_within(id, b + 5) == j);
    }
}

/// Every philosopher picks up its two forks, both its own neighbours, and
/// the lower-numbered one first: the forks are taken in one global order.
pub proof fn lemma_forks_taken_in_order(id: int)
    requires
        0 <= id < NUM_PHILOSOPHERS,
    ensures
        fork_order_spec(id).0 < fork_order_spec(id).1,
        0 <= fork_order_spec(id).0 && fork_order_spec(id).1 < NUM_PHILOSOPHERS,
        (fork_order_spec(id).0 == left_fork(id) && fork_order_spec(id).1 == right_fork(id)) || (
        fork_order_spec(id).0 == right_fork(id) && fork_order_spec(id).1 == left_fork(id)),
{
}

/// No circular wait: two philosophers (the first and the last) start with the
/// same fork, so the philosophers can never each hold their first fork while
/// waiting for their second.
pub proof fn lemma_no_circular_wait()
    ensures
        fork_order_spec(0).0 == fork_order_spec(NUM_PHILOSOPHERS - 1).0,
{
}

/// Philosopher `i` holds fork `f`, where `held[i]` is how many of its forks
/// it holds, taken in its order: with 1 it holds its first fork and waits
/// for its second.
pub open spec fn holds(held: Seq<nat>, i: int, f: int) -> bool {
    ||| (held[i] >= 1 && fork_order_spec(i).0 == f)
    ||| (held[i] >= 2 && fork_order_spec(i).1 == f)
}

/// A state of the table: each philosopher holds 0, 1 or 2 forks, and no fork
/// is held by two philosophers.
pub open spec fn table_state(held: Seq<nat>) -> bool {
    &&& held.len() == NUM_PHILOSOPHERS
    &&& forall|i: int| 0 <= i < NUM_PHILOSOPHERS ==> #[trigger] held[i] <= 2
    &&& forall|i: int, j: int, f: int|
        0 <= i < NUM_PHILOSOPHERS && 0 <= j < NUM_PHILOSOPHERS && i != j && #[trigger] holds(
            held,
            i,
            f,
        ) ==> !#[trigger] holds(held, j, f)
}

/// The fork philosopher `i` reaches for next.
pub open spec fn next_fork(held: Seq<nat>, i: int) -> int {
    if held[i] == 0 {
        fork_order_spec(i).0
    } else {
        fork_order_spec(i).1
    }
}

/// Philosopher `i` is eating, or the fork it reaches for next is free.
pub open spec fn can_proceed(held: Seq<nat>, i: int) -> bool {
    held[i] == 2 || forall|j: int| 0 <= j < NUM_PHILOSOPHERS ==> !#[trigger] holds(held, j, next_fork(held, i))
}

/// No deadlock: because every philosopher takes its lower-numbered fork
/// first, in every state of the table some philosopher is eating or can
/// pick up the fork it reaches for next.
pub proof fn lemma_no_deadlock(held: Seq<nat>)
    requires
        table_state(held),
    ensures
        exists|i: int| 0 <= i < NUM_PHILOSOPHERS && #[trigger] can_proceed(held, i),
{
    if exists|i: int| 0 <= i < NUM_PHILOSOPHERS && #[trigger] held[i] == 2 {
        let i = choose|i: int| 0 <= i < NUM_PHILOSOPHERS && #[trigger] held[i] == 2;
        assert(can_proceed(held, i));
    } else if forall|i: int| 0 <= i < NUM_PHILOSOPHERS ==> #[trigger] held[i] == 0 {
        assert forall|j: int| 0 <= j < NUM_PHILOSOPHERS implies !#[trigger] holds(
            held,
            j,
            next_fork(held, 0),
        ) by {
            assert(held[j] == 0);
        }
        assert(can_proceed(held, 0));
    } else {
        // Among the philosophers waiting for their second fork, the one whose
        // first fork is highest finds its second fork free.
        let k = choose|k: int| 0 <= k < NUM_PHILOSOPHERS && #[trigger] held[k] != 0;
        assert(held[k] == 1);
        let r = highest_lower(held, NUM_PHILOSOPHERS as int);
        let m = r->0;
        assert(held[m] == 1);
        assert forall|j: int| 0 <= j < NUM_PHILOSOPHERS implies !#[trigger] holds(
            held,
            j,
            next_fork(held, m),
        ) by {
            if holds(held, j, next_fork(held, m)) {
                if j == m {
                    lemma_forks_taken_in_order(m);
                } else {
                    assert(held[j] != 2);
                    assert(fork_order_spec(j).0 == fork_order_spec(m).1);
                    lemma_forks_taken_in_order(m);
                    assert(held[j] == 1);
                }
            }
        }
        assert(can_proceed(held, m));
    }
}

/// Among philosophers `0..n` that hold exactly one fork, one whose first fork
/// is the highest, if any holds one.
proof fn highest_lower(held: Seq<nat>, n: int) -> (r: Option<int>)
    requires
        table_state(held),
        0 <= n <= NUM_PHILOSOPHERS,
        forall|i: int| 0 <= i < NUM_PHILOSOPHERS ==> #[trigger] held[i] != 2,
    ensures
        r is None ==> forall|j: int| 0 <= j < n ==> #[trigger] held[j] != 1,
        r is Some ==> 0 <= r->0 < n && held[r->0] == 1 && forall|j: int|
            0 <= j < n && #[trigger] held[j] == 1 ==> fork_order_spec(j).0 <= fork_order_spec(
                r->0,
            ).0,
    decreases n,
{
    if n == 0 {
        None
    } else {
        let last = n - 1;
        match highest_lower(held, last) {
            None => {
                if held[last] == 1 {
                    Some(last)
                } else {
                    None
                }
            },
            Some(m0) => {
                if held[last] == 1 && fork_order_spec(m0).0 < fork_order_spec(last).0 {
                    Some(last)
                } else {
                    Some(m0)
                }
            },
        }
    }
}

} // verus!
