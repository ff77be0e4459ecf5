use vstd::prelude::*;
use vstd::string::StringSliceAdditionalSpecFns;
use crate::queue::{
    MAX_MSG_LEN,
    MAX_QUEUE_SIZE,
    QueueOp,
    QueueState,
    copy_to_buffer,
    get_spec,
    message_bytes,
    put_spec,
    truncate_message,
    truncated,
};
use crate::semaphore::Semaphore;

verus! {

/// How many permits `mymsgdrop` hands to each semaphore, so that every
/// producer and consumer that waits wakes up.
pub const DROP_WAKEUPS: usize = 20;

/// What a semaphore-guarded queue holds: its messages and dropped flag, and
/// the permits of its two semaphores: messages ready to read (`items`) and
/// free places (`spaces`).
pub struct SemQueueState {
    pub queue: QueueState,
    pub items: nat,
    pub spaces: nat,
}

/// A live, empty queue: no items, every place free.
pub open spec fn empty_sem_queue() -> SemQueueState {
    SemQueueState {
        queue: QueueState { messages: Seq::empty(), dropped: false },
        items: 0,
        spaces: MAX_QUEUE_SIZE as nat,
    }
}

/// What `mymsgput` does: a dropped queue answers 0; with no free place the
/// caller waits (`None`); otherwise it takes a place, appends the message cut
/// to `MAX_MSG_LEN` bytes, and adds an item.
pub open spec fn sem_put_spec(s: SemQueueState, m: Seq<u8>) -> (SemQueueState, Option<usize>) {
    if s.queue.dropped {
        (s, Some(0usize))
    } else if s.spaces == 0 {
        (s, None)
    } else {
        (
            SemQueueState {
                queue: QueueState { messages: s.queue.messages.push(truncated(m)), dropped: false },
                items: s.items + 1,
                spaces: (s.spaces - 1) as nat,
            },
            Some(truncated(m).len() as usize),
        )
    }
}

/// What `mymsgget` does: a dropped queue answers 0; with no item the caller
/// waits (`None`); otherwise it takes an item, removes the oldest message,
/// copies as much of it as fits into the buffer, and frees a place.
pub open spec fn sem_get_spec(s: SemQueueState, buf_len: usize) -> (
    SemQueueState,
    Option<usize>,
    Seq<u8>,
) {
    if s.queue.dropped {
        (s, Some(0usize), Seq::empty())
    } else if s.items == 0 {
        (s, None, Seq::empty())
    } else {
        let m = s.queue.messages[0];
        let k = if m.len() < buf_len { m.len() as usize } else { buf_len };
        (
            SemQueueState {
                queue: QueueState { messages: s.queue.messages.drop_first(), dropped: false },
                items: (s.items - 1) as nat,
                spaces: s.spaces + 1,
            },
            Some(k),
            m.take(k as int),
        )
    }
}

/// What `mymsgdrop` does: marks the queue dropped and hands `DROP_WAKEUPS`
/// permits to each semaphore.
pub open spec fn sem_drop_spec(s: SemQueueState) -> SemQueueState {
    SemQueueState {
        queue: QueueState { messages: s.queue.messages, dropped: true },
        items: s.items + DROP_WAKEUPS as nat,
        spaces: s.spaces + DROP_WAKEUPS as nat,
    }
}

/// What `mymsgdestroy` does: throws the messages away; the semaphores keep
/// their counts.
pub open spec fn sem_destroy_spec(s: SemQueueState) -> SemQueueState {
    SemQueueState {
        queue: QueueState { messages: Seq::empty(), dropped: s.queue.dropped },
        items: s.items,
        spaces: s.spaces,
    }
}

/// The state after one operation (as for the other queue); a put or get that
/// would wait changes nothing.
pub open spec fn sem_queue_step(s: SemQueueState, op: QueueOp) -> SemQueueState {
    match op {
        QueueOp::Put(m) => sem_put_spec(s, m).0,
        QueueOp::Get(n) => sem_get_spec(s, n).0,
        QueueOp::Drop => sem_drop_spec(s),
        QueueOp::Destroy => sem_destroy_spec(s),
    }
}

/// The state after running `ops` in order from `s`.
pub open spec fn run_sem_queue(s: SemQueueState, ops: Seq<QueueOp>) -> SemQueueState
    decreases ops.len(),
{
    if ops.len() == 0 {
        s
    } else {
        run_sem_queue(sem_queue_step(s, ops[0]), ops.drop_first())
    }
}

/// The counts of a live queue match its contents: one item per message, and
/// the items and free places add up to the capacity.
pub open spec fn consistent(s: SemQueueState) -> bool {
    s.queue.dropped || (s.items == s.queue.messages.len() && s.items + s.spaces
        == MAX_QUEUE_SIZE)
}

/// A bounded queue of text messages guarded by two counting semaphores, one
/// for the messages ready to read and one for the free places. The waiting
/// is the caller's: an operation whose semaphore has no permit answers `None`
/// and changes nothing, and the caller waits for a `post` and retries.
pub struct MessageQueue {
    messages: Vec<String>,
    items: Semaphore,
    spaces: Semaphore,
    dropped: bool,
}

impl View for MessageQueue {
    type V = SemQueueState;

    closed spec fn view(&self) -> SemQueueState {
        SemQueueState {
            queue: QueueState { messages: message_bytes(self.messages@), dropped: self.dropped },
            items: self.items@,
            spaces: self.spaces@,
        }
    }
}

impl MessageQueue {
    /// The counts always add up to the capacity while the queue is live.
    pub open spec fn wf(&self) -> bool {
        self@.queue.dropped || self@.items + self@.spaces == MAX_QUEUE_SIZE
    }

    /// A get cannot fail to find a message once it holds an item. This is
    /// false only after `mymsgdestroy` emptied a live queue that still counted
    /// items.
    pub open spec fn can_get(&self) -> bool {
        self@.queue.dropped || self@.items == 0 || self@.queue.messages.len() > 0
    }

    /// A live, empty queue.
    pub fn new() -> (q: Self)
        ensures
            q@ == empty_sem_queue(),
            q.wf(),
    {
        let q = MessageQueue {
            messages: Vec::new(),
            items: Semaphore::new(0),
            spaces: Semaphore::new(MAX_QUEUE_SIZE),
            dropped: false,
        };
        assert(q@.queue.messages =~= Seq::<Seq<u8>>::empty());
        q
    }

    /// The permits of the two semaphores: items ready to read, and free places.
    pub fn permits(&self) -> (r: (usize, usize))
        ensures
            r.0 == self@.items,
            r.1 == self@.spaces,
    {
        (self.items.count(), self.spaces.count())
    }

    /// Whether a get can go ahead without finding the queue emptied under its item.
    pub fn get_is_safe(&self) -> (r: bool)
        ensures
            r == self.can_get(),
    {
        self.dropped || self.items.count() == 0 || self.messages.len() > 0
    }

    /// Whether a put would store its message now: the queue is live and a
    /// place is free. Only then is the message cut.
    pub fn takes_message(&self) -> (r: bool)
        ensures
            r == (!self@.queue.dropped && self@.spaces > 0),
    {
        !self.dropped && self.spaces.count() > 0
    }

    /// Puts a message at the back of the queue, cut to `MAX_MSG_LEN` bytes.
    /// Answers its kept length, 0 when the queue was dropped, and `None` when
    /// no place is free and the caller has to wait. A message is only cut
    /// when it is stored, so only then must the cut fall between characters.
    pub fn mymsgput(&mut self, msg: &str) -> (r: Option<usize>)
        requires
            old(self).wf(),
            old(self)@.queue.dropped || old(self)@.spaces == 0 || msg.spec_bytes().len()
                <= MAX_MSG_LEN || vstd::utf8::is_char_boundary(
                msg.spec_bytes(),
                MAX_MSG_LEN as int,
            ),
        ensures
            final(self).wf(),
            (final(self)@, r) == sem_put_spec(old(self)@, msg.spec_bytes()),
    {
        if self.dropped {
            return Some(0);
        }
        if !self.spaces.wait() {
            return None;
        }
        let kept = truncate_message(msg);
        let len = kept.as_str().as_bytes().len();
        self.messages.push(kept);
        self.items.post();
        assert(self@.queue.messages =~= old(self)@.queue.messages.push(
            truncated(msg.spec_bytes()),
        ));
        Some(len)
    }

    /// Takes the oldest message and copies as much of it as fits to the front
    /// of `buf`. Answers the number of bytes copied, 0 when the queue was
    /// dropped, and `None` when no item is ready and the caller has to wait.
    pub fn mymsgget(&mut self, buf: &mut [u8]) -> (r: Option<usize>)
        requires
            old(self).wf(),
            old(self).can_get(),
        ensures
            final(self).wf(),
            ({
                let (s, res, written) = sem_get_spec(old(self)@, old(buf)@.len() as usize);
                &&& final(self)@ == s
                &&& r == res
                &&& final(buf)@ == crate::queue::overwrite_front(old(buf)@, written)
            }),
    {
        let _buf_len = buf.len();
        if self.dropped {
            assert(buf@ =~= crate::queue::overwrite_front(buf@, Seq::empty()));
            return Some(0);
        }
        if !self.items.wait() {
            assert(buf@ =~= crate::queue::overwrite_front(buf@, Seq::empty()));
            return None;
        }
        let msg = self.messages.remove(0);
        assert(self@.queue.messages =~= old(self)@.queue.messages.drop_first());
        let copied = copy_to_buffer(&msg, buf);
        self.spaces.post();
        Some(copied)
    }

    /// Marks the queue dropped and wakes every waiter by handing
    /// `DROP_WAKEUPS` permits to each semaphore; from now on every put and
    /// get answers 0.
    pub fn mymsgdrop(&mut self)
        requires
            old(self)@.items + DROP_WAKEUPS <= usize::MAX,
            old(self)@.spaces + DROP_WAKEUPS <= usize::MAX,
        ensures
            final(self)@ == sem_drop_spec(old(self)@),
            final(self).wf(),
    {
        self.dropped = true;
        let mut i: usize = 0;
        while i < DROP_WAKEUPS
            invariant
                i <= DROP_WAKEUPS,
                self.dropped,
                self.messages@ == old(self).messages@,
                self.items@ == old(self)@.items + i,
                self.spaces@ == old(self)@.spaces + i,
                old(self)@.items + DROP_WAKEUPS <= usize::MAX,
                old(self)@.spaces + DROP_WAKEUPS <= usize::MAX,
            decreases DROP_WAKEUPS - i,
        {
            self.items.post();
            self.spaces.post();
            i = i + 1;
        }
    }

    /// Throws away the messages still queued; the semaphores keep their counts.
    pub fn mymsgdestroy(&mut self)
        requires
            old(self).wf(),
        ensures
            final(self).wf(),
            final(self)@ == sem_destroy_spec(old(self)@),
    {
        self.messages.clear();
        assert(self@.queue.messages =~= Seq::<Seq<u8>>::empty());
    }
}

/// While its counts match its contents, the semaphore-guarded queue behaves
/// exactly like the queue guarded by condition variables: puts and gets give
/// the same answers and leave the same messages, and the counts keep matching.
pub proof fn lemma_matches_condvar_queue(s: SemQueueState, m: Seq<u8>, buf_len: usize)
    requires
        consistent(s),
    ensures
        sem_put_spec(s, m).0.queue == put_spec(s.queue, m).0,
        sem_put_spec(s, m).1 == put_spec(s.queue, m).1,
        consistent(sem_put_spec(s, m).0),
        sem_get_spec(s, buf_len).0.queue == get_spec(s.queue, buf_len).0,
        sem_get_spec(s, buf_len).1 == get_spec(s.queue, buf_len).1,
        sem_get_spec(s, buf_len).2 == get_spec(s.queue, buf_len).2,
        consistent(sem_get_spec(s, buf_len).0),
        consistent(sem_drop_spec(s)),
{
}

/// Once dropped, the queue stays dropped whatever runs after, and from then on
/// every put and every get answers 0 and changes nothing: a caller that was
/// waiting and retries gets 0.
pub proof fn lemma_sem_dropped_stays_dropped(
    s: SemQueueState,
    ops: Seq<QueueOp>,
    m: Seq<u8>,
    n: usize,
)
    requires
        s.queue.dropped,
    ensures
        run_sem_queue(s, ops).queue.dropped,
        sem_put_spec(run_sem_queue(s, ops), m) == (run_sem_queue(s, ops), Some(0usize)),
        sem_get_spec(run_sem_queue(s, ops), n) == (
            run_sem_queue(s, ops),
            Some(0usize),
            Seq::<u8>::empty(),
        ),
    decreases ops.len(),
{
    if ops.len() > 0 {
        lemma_sem_dropped_stays_dropped(sem_queue_step(s, ops[0]), ops.drop_first(), m, n);
    }
}

/// Dropping wakes every waiter: from the drop on, in every state that any run
/// of operations reaches, each semaphore holds at least `DROP_WAKEUPS`
/// permits, so a caller blocked on either finds a permit when it retries, and
/// then answers 0 and changes nothing.
pub proof fn lemma_drop_wakes_every_waiter(s: SemQueueState, ops: Seq<QueueOp>, m: Seq<u8>, n: usize)
    ensures
        run_sem_queue(sem_drop_spec(s), ops).items >= DROP_WAKEUPS,
        run_sem_queue(sem_drop_spec(s), ops).spaces >= DROP_WAKEUPS,
        sem_put_spec(run_sem_queue(sem_drop_spec(s), ops), m).1 == Some(0usize),
        sem_get_spec(run_sem_queue(sem_drop_spec(s), ops), n).1 == Some(0usize),
{
    lemma_dropped_keeps_permits(sem_drop_spec(s), ops);
    lemma_sem_dropped_stays_dropped(sem_drop_spec(s), ops, m, n);
}

proof fn lemma_dropped_keeps_permits(s: SemQueueState, ops: Seq<QueueOp>)
    requires
        s.queue.dropped,
        s.items >= DROP_WAKEUPS,
        s.spaces >= DROP_WAKEUPS,
    ensures
        run_sem_queue(s, ops).items >= DROP_WAKEUPS,
        run_sem_queue(s, ops).spaces >= DROP_WAKEUPS,
    decreases ops.len(),
{
    if ops.len() > 0 {
        lemma_dropped_keeps_permits(sem_queue_step(s, ops[0]), ops.drop_first());
    }
}

/// A fresh queue's counts match its contents.
pub proof fn lemma_new_is_consistent()
    ensures
        consistent(empty_sem_queue()),
{
}

} // verus!
