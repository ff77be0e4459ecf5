use vstd::prelude::*;
use vstd::string::StringSliceAdditionalSpecFns;
use vstd::utf8::encode_utf8;

verus! {

/// The most messages a queue holds at once.
pub const MAX_QUEUE_SIZE: usize = 10;

/// The most bytes of a message that a queue keeps.
pub const MAX_MSG_LEN: usize = 80;

/// What a message queue holds: its messages, oldest first, by their bytes,
/// and whether it has been dropped.
pub struct QueueState {
    pub messages: Seq<Seq<u8>>,
    pub dropped: bool,
}

/// The part of a message that a queue keeps: its first `MAX_MSG_LEN` bytes.
pub open spec fn truncated(m: Seq<u8>) -> Seq<u8> {
    if m.len() > MAX_MSG_LEN {
        m.take(MAX_MSG_LEN as int)
    } else {
        m
    }
}

/// A live queue with no messages.
pub open spec fn empty_queue() -> QueueState {
    QueueState { messages: Seq::empty(), dropped: false }
}

/// What `mymsgput` does: a dropped queue answers 0 and takes nothing; a full
/// one makes the caller wait (`None`); otherwise the message, cut to
/// `MAX_MSG_LEN` bytes, goes to the back, and its length is the answer.
pub open spec fn put_spec(q: QueueState, m: Seq<u8>) -> (QueueState, Option<usize>) {
    if q.dropped {
        (q, Some(0usize))
    } else if q.messages.len() >= MAX_QUEUE_SIZE {
        (q, None)
    } else {
        (
            QueueState { messages: q.messages.push(truncated(m)), dropped: q.dropped },
            Some(truncated(m).len() as usize),
        )
    }
}

/// What `mymsgget` does with a buffer of `buf_len` bytes: a dropped queue
/// answers 0; an empty one makes the caller wait (`None`); otherwise the
/// oldest message leaves the queue and as many of its bytes as fit are copied
/// to the front of the buffer. The last component is the bytes copied.
pub open spec fn get_spec(q: QueueState, buf_len: usize) -> (QueueState, Option<usize>, Seq<u8>) {
    if q.dropped {
        (q, Some(0usize), Seq::empty())
    } else if q.messages.len() == 0 {
        (q, None, Seq::empty())
    } else {
        let m = q.messages[0];
        let k = if m.len() < buf_len { m.len() as usize } else { buf_len };
        (
            QueueState { messages: q.messages.drop_first(), dropped: q.dropped },
            Some(k),
            m.take(k as int),
        )
    }
}

/// What `mymsgdrop` does: marks the queue dropped and keeps its messages.
pub open spec fn drop_spec(q: QueueState) -> QueueState {
    QueueState { messages: q.messages, dropped: true }
}

/// What `mymsgdestroy` does: throws the messages away.
pub open spec fn destroy_spec(q: QueueState) -> QueueState {
    QueueState { messages: Seq::empty(), dropped: q.dropped }
}

/// One operation on a message queue.
pub enum QueueOp {
    /// `mymsgput` of a message with these bytes.
    Put(Seq<u8>),
    /// `mymsgget` into a buffer of this many bytes.
    Get(usize),
    /// `mymsgdrop`.
    Drop,
    /// `mymsgdestroy`.
    Destroy,
}

/// The state after one operation; a put or get that would wait changes nothing.
pub open spec fn queue_step(q: QueueState, op: QueueOp) -> QueueState {
    match op {
        QueueOp::Put(m) => put_spec(q, m).0,
        QueueOp::Get(n) => get_spec(q, n).0,
        QueueOp::Drop => drop_spec(q),
        QueueOp::Destroy => destroy_spec(q),
    }
}

/// The state after running `ops` in order from `q`. Each operation runs under
/// the queue's lock, so every interleaving of threads is such a run.
pub open spec fn run_queue(q: QueueState, ops: Seq<QueueOp>) -> QueueState
    decreases ops.len(),
{
    if ops.len() == 0 {
        q
    } else {
        run_queue(queue_step(q, ops[0]), ops.drop_first())
    }
}

/// A buffer after `written` was copied to its front.
pub open spec fn overwrite_front(buf: Seq<u8>, written: Seq<u8>) -> Seq<u8> {
    written + buf.skip(written.len() as int)
}

/// The bounds a queue always keeps: at most `MAX_QUEUE_SIZE` messages, none
/// longer than `MAX_MSG_LEN` bytes.
pub open spec fn bounded(q: QueueState) -> bool {
    &&& q.messages.len() <= MAX_QUEUE_SIZE
    &&& forall|i: int| 0 <= i < q.messages.len() ==> #[trigger] q.messages[i].len() <= MAX_MSG_LEN
}

/// The bytes of a stored message.
pub open spec fn message_bytes(v: Seq<String>) -> Seq<Seq<u8>> {
    v.map_values(|s: String| encode_utf8(s@))
}

/// The bytes of `msg` that a queue keeps, as a string of their own.
/// Cutting inside a character panics, as slicing a `str` does.
pub fn truncate_message(msg: &str) -> (kept: String)
    requires
        msg.spec_bytes().len() <= MAX_MSG_LEN || vstd::utf8::is_char_boundary(
            msg.spec_bytes(),
            MAX_MSG_LEN as int,
        ),
    ensures
        encode_utf8(kept@) == truncated(msg.spec_bytes()),
{
    if msg.as_bytes().len() > MAX_MSG_LEN {
        let (head, _tail) = msg.split_at(MAX_MSG_LEN);
        assert(head.spec_bytes() =~= truncated(msg.spec_bytes()));
        let kept = head.to_owned();
        assert(kept@ == head@);
        kept
    } else {
        let kept = msg.to_owned();
        assert(kept@ == msg@);
        kept
    }
}

/// Copies the bytes of `msg` to the front of `buf`, as many as fit.
/// Returns how many it copied.
pub fn copy_to_buffer(msg: &String, buf: &mut [u8]) -> (copied: usize)
    ensures
        copied == (if encode_utf8(msg@).len() < old(buf)@.len() {
            encode_utf8(msg@).len()
        } else {
            old(buf)@.len()
        }),
        final(buf)@ == overwrite_front(old(buf)@, encode_utf8(msg@).take(copied as int)),
{
    let bytes = msg.as_str().as_bytes();
    let n = if bytes.len() < buf.len() { bytes.len() } else { buf.len() };
    let mut i: usize = 0;
    while i < n
        invariant
            n <= bytes@.len(),
            n <= old(buf)@.len(),
            bytes@ == encode_utf8(msg@),
            i <= n,
            buf@.len() == old(buf)@.len(),
            buf@ == overwrite_front(old(buf)@, bytes@.take(i as int)),
        decreases n - i,
    {
        buf[i] = bytes[i];
        i = i + 1;
        assert(buf@ =~= overwrite_front(old(buf)@, bytes@.take(i as int)));
    }
    n
}

/// A bounded queue of text messages between producers and consumers, guarded
/// in the caller by one lock and two condition variables (not full, not
/// empty). The waiting is the caller's: an operation that would block
/// answers `None` and changes nothing, and the caller waits and retries.
pub struct MessageQueue {
    messages: Vec<String>,
    dropped: bool,
}

impl View for MessageQueue {
    type V = QueueState;

    closed spec fn view(&self) -> QueueState {
        QueueState { messages: message_bytes(self.messages@), dropped: self.dropped }
    }
}

impl MessageQueue {
    /// A live, empty queue.
    pub fn new() -> (q: Self)
        ensures
            q@ == empty_queue(),
    {
        let q = MessageQueue { messages: Vec::new(), dropped: false };
        assert(q@.messages =~= Seq::<Seq<u8>>::empty());
        q
    }

    /// Whether a put would store its message now: the queue is live and not
    /// full. Only then is the message cut.
    pub fn takes_message(&self) -> (r: bool)
        ensures
            r == (!self@.dropped && self@.messages.len() < MAX_QUEUE_SIZE),
    {
        proof {
            assert(self@.messages.len() == self.messages@.len());
        }
        !self.dropped && self.messages.len() < MAX_QUEUE_SIZE
    }

    /// Puts a message at the back of the queue, cut to `MAX_MSG_LEN` bytes.
    /// Answers its kept length, 0 when the queue was dropped, and `None` when
    /// the queue is full and the caller has to wait. A message is only cut
    /// when it is stored, so only then must the cut fall between characters.
    pub fn mymsgput(&mut self, msg: &str) -> (r: Option<usize>)
        requires
            old(self)@.dropped || old(self)@.messages.len() >= MAX_QUEUE_SIZE
                || msg.spec_bytes().len() <= MAX_MSG_LEN || vstd::utf8::is_char_boundary(
                msg.spec_bytes(),
                MAX_MSG_LEN as int,
            ),
        ensures
            (final(self)@, r) == put_spec(old(self)@, msg.spec_bytes()),
    {
        if self.dropped {
            return Some(0);
        }
        if self.messages.len() >= MAX_QUEUE_SIZE {
            return None;
        }
        let kept = truncate_message(msg);
        let len = kept.as_str().as_bytes().len();
        self.messages.push(kept);
        assert(self@.messages =~= old(self)@.messages.push(truncated(msg.spec_bytes())));
        Some(len)
    }

    /// Takes the oldest message and copies as much of it as fits to the front
    /// of `buf`. Answers the number of bytes copied, 0 when the queue was
    /// dropped, and `None` when the queue is empty and the caller has to wait.
    pub fn mymsgget(&mut self, buf: &mut [u8]) -> (r: Option<usize>)
        ensures
            ({
                let (q, res, written) = get_spec(old(self)@, old(buf)@.len() as usize);
                &&& final(self)@ == q
                &&& r == res
                &&& final(buf)@ == overwrite_front(old(buf)@, written)
            }),
    {
        let _buf_len = buf.len();
        if self.dropped {
            assert(buf@ =~= overwrite_front(buf@, Seq::empty()));
            return Some(0);
        }
        if self.messages.len() == 0 {
            assert(buf@ =~= overwrite_front(buf@, Seq::empty()));
            return None;
        }
        let msg = self.messages.remove(0);
        assert(self@.messages =~= old(self)@.messages.drop_first());
        let copied = copy_to_buffer(&msg, buf);
        Some(copied)
    }

    /// Marks the queue dropped: from now on every put and get answers 0.
    /// The caller wakes everyone who waits on the queue.
    pub fn mymsgdrop(&mut self)
        ensures
            final(self)@ == drop_spec(old(self)@),
    {
        self.dropped = true;
    }

    /// Throws away the messages still queued.
    pub fn mymsgdestroy(&mut self)
        ensures
            final(self)@ == destroy_spec(old(self)@),
    {
        self.messages.clear();
        assert(self@.messages =~= Seq::<Seq<u8>>::empty());
    }
}

/// A queue keeps its bounds through every put and get.
pub proof fn lemma_bounds_kept(q: QueueState, m: Seq<u8>, buf_len: usize)
    requires
        bounded(q),
    ensures
        bounded(put_spec(q, m).0),
        bounded(get_spec(q, buf_len).0),
{
    let p = put_spec(q, m).0;
    if !q.dropped && q.messages.len() < MAX_QUEUE_SIZE {
        assert forall|i: int| 0 <= i < p.messages.len() implies #[trigger] p.messages[i].len()
            <= MAX_MSG_LEN by {
            if i < q.messages.len() {
                assert(p.messages[i] == q.messages[i]);
            }
        }
    }
    let g = get_spec(q, buf_len).0;
    if !q.dropped && q.messages.len() > 0 {
        assert forall|i: int| 0 <= i < g.messages.len() implies #[trigger] g.messages[i].len()
            <= MAX_MSG_LEN by {
            assert(g.messages[i] == q.messages[i + 1]);
        }
    }
}

/// Dropping and destroying keep the bounds too.
pub proof fn lemma_drop_destroy_keep_bounds(q: QueueState)
    requires
        bounded(q),
    ensures
        bounded(drop_spec(q)),
        bounded(destroy_spec(q)),
{
}

/// The bounds hold in every state a queue reaches: from a fresh queue, after
/// any run of puts, gets, drops and destroys, it holds at most
/// `MAX_QUEUE_SIZE` messages, none longer than `MAX_MSG_LEN` bytes.
pub proof fn lemma_always_bounded(q: QueueState, ops: Seq<QueueOp>)
    requires
        bounded(q),
    ensures
        bounded(run_queue(q, ops)),
    decreases ops.len(),
{
    if ops.len() > 0 {
        match ops[0] {
            QueueOp::Put(m) => lemma_bounds_kept(q, m, 0),
            QueueOp::Get(n) => lemma_bounds_kept(q, Seq::empty(), n),
            QueueOp::Drop => lemma_drop_destroy_keep_bounds(q),
            QueueOp::Destroy => lemma_drop_destroy_keep_bounds(q),
        }
        lemma_always_bounded(queue_step(q, ops[0]), ops.drop_first());
    }
}

/// A fresh queue is within its bounds.
pub proof fn lemma_empty_bounded()
    ensures
        bounded(empty_queue()),
{
}

/// A queue made by `new` keeps its bounds in every state it reaches: after any
/// run of puts, gets, drops and destroys it holds at most `MAX_QUEUE_SIZE`
/// messages, none longer than `MAX_MSG_LEN` bytes. A put on a full, live
/// queue makes its caller wait rather than store the message.
pub proof fn lemma_reachable_bounded(ops: Seq<QueueOp>)
    ensures
        bounded(run_queue(empty_queue(), ops)),
{
    lemma_empty_bounded();
    lemma_always_bounded(empty_queue(), ops);
}

/// Once dropped, a queue stays dropped whatever runs after, and from then on
/// every put and every get answers 0 and leaves the messages as they are.
pub proof fn lemma_dropped_stays_dropped(q: QueueState, ops: Seq<QueueOp>, m: Seq<u8>, n: usize)
    requires
        q.dropped,
    ensures
        run_queue(q, ops).dropped,
        put_spec(run_queue(q, ops), m) == (run_queue(q, ops), Some(0usize)),
        get_spec(run_queue(q, ops), n) == (run_queue(q, ops), Some(0usize), Seq::<u8>::empty()),
    decreases ops.len(),
{
    if ops.len() > 0 {
        lemma_dropped_stays_dropped(queue_step(q, ops[0]), ops.drop_first(), m, n);
    }
}

/// Messages come out in the order they went in: a get on a queue that a put
/// has just appended to returns the oldest message, and the message just put
/// stays at the back.
pub proof fn lemma_first_in_first_out(q: QueueState, m: Seq<u8>, buf_len: usize)
    requires
        !q.dropped,
        0 < q.messages.len() < MAX_QUEUE_SIZE,
    ensures
        get_spec(put_spec(q, m).0, buf_len).2 == get_spec(q, buf_len).2,
        get_spec(put_spec(q, m).0, buf_len).0.messages == get_spec(q, buf_len).0.messages.push(
            truncated(m),
        ),
{
    let p = put_spec(q, m).0;
    assert(p.messages[0] == q.messages[0]);
    assert(p.messages.drop_first() =~= q.messages.drop_first().push(truncated(m)));
}

/// What a get gives back of a put: on a live, empty queue, a put followed by a
/// get into a buffer of `buf_len` bytes returns the kept part of the message,
/// as much of it as fits, and leaves the queue empty again.
pub proof fn lemma_put_then_get(m: Seq<u8>, buf_len: usize)
    ensures
        ({
            let (q1, r1) = put_spec(empty_queue(), m);
            let (q2, r2, written) = get_spec(q1, buf_len);
            let k = if truncated(m).len() < buf_len { truncated(m).len() } else { buf_len as nat };
            &&& r1 == Some(truncated(m).len() as usize)
            &&& r2 == Some(k as usize)
            &&& written == truncated(m).take(k as int)
            &&& q2 == empty_queue()
        }),
{
    let (q1, r1) = put_spec(empty_queue(), m);
    assert(q1.messages[0] == truncated(m));
    assert(q1.messages.drop_first() =~= Seq::<Seq<u8>>::empty());
}

/// A dropped queue answers 0 to every put and get and changes no more.
pub proof fn lemma_dropped_is_final(q: QueueState, m: Seq<u8>, buf_len: usize)
    requires
        q.dropped,
    ensures
        put_spec(q, m) == (q, Some(0usize)),
        get_spec(q, buf_len) == (q, Some(0usize), Seq::<u8>::empty()),
{
}

} // verus!
