use vstd::prelude::*;

verus! {

/// One operation on a counting semaphore.
pub enum SemOp {
    /// `wait`: take a permit if one is free, else block.
    Wait,
    /// `post`: hand a permit back.
    Post,
}

/// What one `wait` does to the number of free permits: it takes one when
/// one is free, and otherwise leaves the count alone (the caller blocks).
pub open spec fn wait_effect(count: nat) -> (nat, bool) {
    if count > 0 {
        ((count - 1) as nat, true)
    } else {
        (count, false)
    }
}

/// What one `post` does to the number of free permits.
pub open spec fn post_effect(count: nat) -> nat {
    count + 1
}

/// The count after running `ops` from `count`; a `Wait` that finds no
/// permit leaves the count as it is (the caller blocked and retries later).
pub open spec fn run_ops(count: nat, ops: Seq<SemOp>) -> nat
    decreases ops.len(),
{
    if ops.len() == 0 {
        count
    } else {
        let next = match ops[0] {
            SemOp::Wait => wait_effect(count).0,
            SemOp::Post => post_effect(count),
        };
        run_ops(next, ops.drop_first())
    }
}

/// Number of `Post` operations in `ops`.
pub open spec fn posts_in(ops: Seq<SemOp>) -> nat
    decreases ops.len(),
{
    if ops.len() == 0 {
        0
    } else {
        (if ops[0] is Post { 1nat } else { 0nat }) + posts_in(ops.drop_first())
    }
}

/// Number of `Wait` operations in `ops` that found a permit when run from `count`.
pub open spec fn granted_waits(count: nat, ops: Seq<SemOp>) -> nat
    decreases ops.len(),
{
    if ops.len() == 0 {
        0
    } else {
        match ops[0] {
            SemOp::Wait => (if count > 0 { 1nat } else { 0nat }) + granted_waits(
                wait_effect(count).0,
                ops.drop_first(),
            ),
            SemOp::Post => granted_waits(post_effect(count), ops.drop_first()),
        }
    }
}

/// A counting semaphore: the number of permits that can still be taken.
///
/// The blocking of the classic semaphore is left to the caller: `wait`
/// reports whether it took a permit, and a caller that got `false` sleeps
/// until the next `post` and asks again.
pub struct Semaphore {
    count: usize,
}

impl View for Semaphore {
    type V = nat;

    closed spec fn view(&self) -> nat {
        self.count as nat
    }
}

impl Semaphore {
    /// A semaphore that starts with `count` free permits.
    pub fn new(count: usize) -> (s: Self)
        ensures
            s@ == count,
    {
        Semaphore { count }
    }

    /// The number of free permits.
    pub fn count(&self) -> (c: usize)
        ensures
            c == self@,
    {
        self.count
    }

    /// Takes a permit if one is free. Returns `false`, and changes nothing,
    /// when none is: the caller must block and try again after a `post`.
    pub fn wait(&mut self) -> (taken: bool)
        ensures
            (final(self)@, taken) == wait_effect(old(self)@),
    {
        if self.count == 0 {
            false
        } else {
            self.count = self.count - 1;
            true
        }
    }

    /// Hands a permit back.
    pub fn post(&mut self)
        requires
            old(self)@ < usize::MAX,
        ensures
            final(self)@ == post_effect(old(self)@),
    {
        self.count = self.count + 1;
    }
}

/// A `post` followed by a `wait` always succeeds and leaves the count as it was.
pub proof fn lemma_post_then_wait(count: nat)
    ensures
        wait_effect(post_effect(count)) == (count, true),
{
}

/// A `wait` that got a permit, followed by a `post`, leaves the count as it was.
pub proof fn lemma_wait_then_post(count: nat)
    requires
        count > 0,
    ensures
        wait_effect(count).1,
        post_effect(wait_effect(count).0) == count,
{
}

/// Conservation of permits: after any run of operations (so in every state
/// that any interleaving reaches, each operation being atomic), the count
/// equals the starting count plus the posts minus the waits that got a
/// permit; so no more waits get through than the starting count plus the
/// posts.
pub proof fn lemma_permits_conserved(count: nat, ops: Seq<SemOp>)
    ensures
        run_ops(count, ops) + granted_waits(count, ops) == count + posts_in(ops),
        granted_waits(count, ops) <= count + posts_in(ops),
    decreases ops.len(),
{
    if ops.len() > 0 {
        match ops[0] {
            SemOp::Wait => lemma_permits_conserved(wait_effect(count).0, ops.drop_first()),
            SemOp::Post => lemma_permits_conserved(post_effect(count), ops.drop_first()),
        }
    }
}

} // verus!
