use threadkit::queue::{MessageQueue, MAX_MSG_LEN, MAX_QUEUE_SIZE};
use threadkit::sem_queue::MessageQueue as SemMessageQueue;

#[test]
fn put_then_get_returns_the_message() {
    let mut q = MessageQueue::new();
    assert_eq!(q.mymsgput("hello"), Some(5));
    let mut buf = [0u8; 100];
    assert_eq!(q.mymsgget(&mut buf), Some(5));
    assert_eq!(&buf[..5], b"hello");
}

#[test]
fn messages_come_out_first_in_first_out() {
    let mut q = MessageQueue::new();
    q.mymsgput("one");
    q.mymsgput("two");
    let mut buf = [0u8; 10];
    assert_eq!(q.mymsgget(&mut buf), Some(3));
    assert_eq!(&buf[..3], b"one");
    assert_eq!(q.mymsgget(&mut buf), Some(3));
    assert_eq!(&buf[..3], b"two");
}

#[test]
fn long_messages_are_cut_to_eighty_bytes() {
    let mut q = MessageQueue::new();
    let long = "x".repeat(120);
    assert_eq!(q.mymsgput(&long), Some(MAX_MSG_LEN));
    let mut buf = [0u8; 100];
    assert_eq!(q.mymsgget(&mut buf), Some(80));
    assert!(buf[..80].iter().all(|&b| b == b'x'));
    assert_eq!(buf[80], 0);
}

#[test]
fn get_copies_only_what_fits() {
    let mut q = MessageQueue::new();
    q.mymsgput("abcdef");
    let mut buf = [9u8; 4];
    assert_eq!(q.mymsgget(&mut buf), Some(4));
    assert_eq!(&buf, b"abcd");
}

#[test]
fn full_queue_makes_put_wait() {
    let mut q = MessageQueue::new();
    for i in 0..MAX_QUEUE_SIZE {
        assert_eq!(q.mymsgput(&format!("m{}", i)), Some(2));
    }
    assert_eq!(q.mymsgput("late"), None);
}

#[test]
fn empty_queue_makes_get_wait() {
    let mut q = MessageQueue::new();
    let mut buf = [0u8; 8];
    assert_eq!(q.mymsgget(&mut buf), None);
}

#[test]
fn dropped_queue_answers_zero() {
    let mut q = MessageQueue::new();
    q.mymsgput("kept");
    q.mymsgdrop();
    assert_eq!(q.mymsgput("more"), Some(0));
    let mut buf = [0u8; 8];
    assert_eq!(q.mymsgget(&mut buf), Some(0));
    assert_eq!(buf, [0u8; 8]);
}

#[test]
fn destroy_discards_messages() {
    let mut q = MessageQueue::new();
    q.mymsgput("gone");
    q.mymsgdestroy();
    let mut buf = [0u8; 8];
    assert_eq!(q.mymsgget(&mut buf), None);
}

#[test]
fn empty_message_is_put_with_length_zero() {
    let mut q = MessageQueue::new();
    assert_eq!(q.mymsgput(""), Some(0));
    let mut buf = [7u8; 2];
    assert_eq!(q.mymsgget(&mut buf), Some(0));
    assert_eq!(buf, [7u8; 2]);
}

#[test]
fn sem_queue_put_then_get() {
    let mut q = SemMessageQueue::new();
    assert_eq!(q.mymsgput("Producer 0 message 1"), Some(20));
    let mut buf = [0u8; 100];
    assert!(q.get_is_safe());
    assert_eq!(q.mymsgget(&mut buf), Some(20));
    assert_eq!(&buf[..20], b"Producer 0 message 1");
}

#[test]
fn sem_queue_blocks_when_full_and_when_empty() {
    let mut q = SemMessageQueue::new();
    let mut buf = [0u8; 100];
    assert_eq!(q.mymsgget(&mut buf), None);
    for _ in 0..MAX_QUEUE_SIZE {
        assert_eq!(q.mymsgput("m"), Some(1));
    }
    assert_eq!(q.mymsgput("m"), None);
    assert_eq!(q.mymsgget(&mut buf), Some(1));
    assert_eq!(q.mymsgput("n"), Some(1));
}

#[test]
fn sem_queue_drop_answers_zero() {
    let mut q = SemMessageQueue::new();
    q.mymsgput("x");
    q.mymsgdrop();
    let mut buf = [0u8; 4];
    assert_eq!(q.mymsgput("y"), Some(0));
    assert_eq!(q.mymsgget(&mut buf), Some(0));
}

#[test]
fn sem_queue_destroy_on_live_queue_makes_get_unsafe() {
    let mut q = SemMessageQueue::new();
    q.mymsgput("x");
    q.mymsgdestroy();
    assert!(!q.get_is_safe());
}

#[test]
fn sem_queue_cuts_long_messages() {
    let mut q = SemMessageQueue::new();
    let long = "y".repeat(200);
    assert_eq!(q.mymsgput(&long), Some(80));
}

#[test]
fn both_queues_answer_alike() {
    let mut a = MessageQueue::new();
    let mut b = SemMessageQueue::new();
    let mut buf_a = [0u8; 6];
    let mut buf_b = [0u8; 6];
    let script: [(bool, &str); 8] = [
        (true, "first message"),
        (false, ""),
        (false, ""),
        (true, "x"),
        (true, "yy"),
        (false, ""),
        (false, ""),
        (false, ""),
    ];
    for (put, msg) in script.iter() {
        if *put {
            assert_eq!(a.mymsgput(msg), b.mymsgput(msg));
        } else {
            assert_eq!(a.mymsgget(&mut buf_a), b.mymsgget(&mut buf_b));
            assert_eq!(buf_a, buf_b);
        }
    }
}

#[test]
fn dropped_queue_takes_any_message() {
    // Byte 80 falls inside "é": storing it would cut a character, but a dropped
    // queue stores nothing and answers 0.
    let msg = "a".repeat(79) + "é";
    let mut q = MessageQueue::new();
    q.mymsgdrop();
    assert!(!q.takes_message());
    assert_eq!(q.mymsgput(&msg), Some(0));
    let mut s = SemMessageQueue::new();
    s.mymsgdrop();
    assert!(!s.takes_message());
    assert_eq!(s.mymsgput(&msg), Some(0));
}

#[test]
fn full_queue_waits_for_any_message() {
    let msg = "a".repeat(79) + "é";
    let mut q = MessageQueue::new();
    for _ in 0..MAX_QUEUE_SIZE {
        assert!(q.takes_message());
        q.mymsgput("m");
    }
    assert!(!q.takes_message());
    assert_eq!(q.mymsgput(&msg), None);
}

#[test]
fn sem_queue_drop_leaves_permits_for_every_waiter() {
    let mut q = SemMessageQueue::new();
    for _ in 0..MAX_QUEUE_SIZE {
        q.mymsgput("m");
    }
    assert_eq!(q.permits(), (10, 0));
    q.mymsgdrop();
    assert_eq!(q.permits(), (30, 20));
    let mut buf = [0u8; 4];
    for _ in 0..25 {
        assert_eq!(q.mymsgput("late"), Some(0));
        assert_eq!(q.mymsgget(&mut buf), Some(0));
    }
    q.mymsgdestroy();
    assert_eq!(q.permits(), (30, 20));
    assert_eq!(q.mymsgget(&mut buf), Some(0));
}

#[test]
fn queue_never_holds_more_than_its_bound() {
    let mut q = MessageQueue::new();
    let mut buf = [0u8; 100];
    let mut stored = 0;
    for i in 0..30 {
        if i % 4 == 3 {
            if q.mymsgget(&mut buf).is_some() {
                stored -= 1;
            }
        } else if q.mymsgput("msg").is_some() {
            stored += 1;
        }
        assert!(stored <= MAX_QUEUE_SIZE);
    }
    assert_eq!(stored, MAX_QUEUE_SIZE);
    assert_eq!(q.mymsgput("more"), None);
}
