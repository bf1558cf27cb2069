use rrs_simulator::message::{Message, MessageStatus};
use rrs_simulator::message_queue::MessageQueue;

#[test]
fn test_message_priority() {
    let mut q = MessageQueue::new();
    assert_eq!(
        true,
        q.push(
            Message {
                from: 1,
                to: 1,
                hop_num: 1,
                status: MessageStatus::FullMessage,
                bloomstatus: Vec::new(),
            },
            1,
        )
    );
    assert_eq!(
        false,
        q.push(
            Message {
                from: 1,
                to: 1,
                hop_num: 1,
                status: MessageStatus::FullMessage,
                bloomstatus: Vec::new(),
            },
            2,
        )
    );
    assert_eq!(q.len(), 1);
}

#[test]
fn test_pop_message() {
    let mut q = MessageQueue::new();
    q.push(
        Message {
            from: 2,
            to: 3,
            hop_num: 2,
            status: MessageStatus::FullMessage,
            bloomstatus: Vec::new(),
        },
        2,
    );
    q.push(
        Message {
            from: 1,
            to: 2,
            hop_num: 1,
            status: MessageStatus::FullMessage,
            bloomstatus: Vec::new(),
        },
        1,
    );

    let (message, ts) = q.pop_front().unwrap();
    assert_eq!(ts, 1);
    assert_eq!(message.hop_num, 1)
}

// Pushing the same key twice keeps exactly one entry with the earliest of
// the two timestamps, whichever order the pushes come in.
#[test]
fn test_keep_earliest_timestamp() {
    let mut q = MessageQueue::new();
    assert!(q.push(Message::build_send_full_message(1, 2, 1), 5));
    assert!(!q.push(Message::build_send_full_message(1, 2, 1), 3));
    assert_eq!(q.len(), 1);
    let (message, ts) = q.pop_front().unwrap();
    assert_eq!(ts, 3);
    assert_eq!(message.from, 1);
    assert_eq!(message.to, 2);
    assert!(q.pop_front().is_none());
}

// The per-kind counters count exactly the distinct-key pushes of that kind;
// updates of an already-pending key count nothing; reset zeroes everything.
#[test]
fn test_counters_count_distinct_pushes() {
    let mut q = MessageQueue::new();
    assert!(q.push(Message::build_send_full_message(0, 1, 0), 10));
    assert!(q.push(Message::build_send_full_message(0, 2, 0), 11));
    assert!(!q.push(Message::build_send_full_message(0, 1, 0), 12));
    assert!(q.push(Message::build_send_hash_message(1, 2, 3), 13));
    assert!(q.push(Message::build_send_query_message(2, 0), 14));
    assert_eq!(q.handled_messsage_count(), 2);
    assert_eq!(q.handled_hash_count(), 1);
    assert_eq!(q.handled_ask_for(), 1);
    assert_eq!(q.len(), 4);

    q.reset_message_queue();
    assert_eq!(q.len(), 0);
    assert_eq!(q.handled_messsage_count(), 0);
    assert_eq!(q.handled_hash_count(), 0);
    assert_eq!(q.handled_ask_for(), 0);
    assert!(q.pop_front().is_none());
}

// pop_front always returns the pending entry with the smallest timestamp;
// ties between equal timestamps go to the entry inserted first.
#[test]
fn test_pop_order() {
    let mut q = MessageQueue::new();
    q.push(Message::build_send_full_message(0, 1, 0), 40);
    q.push(Message::build_send_full_message(0, 2, 0), 20);
    q.push(Message::build_send_full_message(0, 3, 0), 20);
    q.push(Message::build_send_full_message(0, 4, 0), 30);

    let (m1, ts1) = q.pop_front().unwrap();
    assert_eq!((m1.to, ts1), (2, 20));
    let (m2, ts2) = q.pop_front().unwrap();
    assert_eq!((m2.to, ts2), (3, 20));
    let (m3, ts3) = q.pop_front().unwrap();
    assert_eq!((m3.to, ts3), (4, 30));
    let (m4, ts4) = q.pop_front().unwrap();
    assert_eq!((m4.to, ts4), (1, 40));
    assert_eq!(q.len(), 0);
}

// The snapshot is excluded from the queue identity: two messages that
// differ only in their snapshot still collide on the same key.
#[test]
fn test_identity_excludes_snapshot() {
    let mut q = MessageQueue::new();
    let mut a = Message::build_send_full_message(1, 2, 1);
    a.add_bloomstatus(&vec![7, 8]);
    let b = Message::build_send_full_message(1, 2, 1);
    assert!(q.push(a, 9));
    assert!(!q.push(b, 8));
    assert_eq!(q.len(), 1);
}
