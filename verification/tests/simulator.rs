use rrs_simulator::message::{Message, MessageStatus};
use rrs_simulator::performance_result::ResultData;
use rrs_simulator::rrs_simulator::{
    get_random_neighbour, random_delay, ConfigError, ParamsPacket, RRSSimulator,
};

#[test]
fn test_get_random_neighbour() {
    let r1 = get_random_neighbour(0, 30, 3);
    let r2 = get_random_neighbour(0, 30, 3);
    let r3 = get_random_neighbour(0, 30, 3);
    println!("r1 is {:?}", r1);
    println!("r2 is {:?}", r2);
    println!("r2 is {:?}", r3);
    assert_ne!(r1, r2);
    assert_ne!(r1, r3);
    assert_ne!(r2, r3);
}

#[test]
fn test_random_delay() {
    let range: (u32, u32) = (1, 10);
    println!("{}", random_delay(1, range));
    println!("{}", random_delay(10, range));
}

// sample(nodeId=5, poolSize=10, count=3) returns exactly 3 distinct ids,
// none equal to 5, all in [0, 10).
#[test]
fn test_sample_three_distinct() {
    let r = get_random_neighbour(5, 10, 3);
    assert_eq!(r.len(), 3);
    for (i, &a) in r.iter().enumerate() {
        assert!(a < 10);
        assert_ne!(a, 5);
        for &b in &r[i + 1..] {
            assert_ne!(a, b);
        }
    }
}

// Asking for more neighbours than exist clamps to poolSize - 1.
#[test]
fn test_sample_clamps_to_pool() {
    let r = get_random_neighbour(0, 3, 10);
    assert_eq!(r.len(), 2);
    assert!(r.contains(&1));
    assert!(r.contains(&2));
}

// A delay is drawn in [lo, lo + span) and added to the timestamp; with a
// span of one the result is exact.
#[test]
fn test_delay_bounds() {
    for _ in 0..50 {
        let d = random_delay(7, (100, 20));
        assert!((107..127).contains(&d));
    }
    assert_eq!(random_delay(5, (1, 1)), 6);
}

#[test]
fn test_params_validation() {
    assert_eq!(
        ParamsPacket::new(1, 1, 0, 1),
        Err(ConfigError::NodeCountTooSmall)
    );
    assert_eq!(
        ParamsPacket::new(10, 10, 0, 1),
        Err(ConfigError::FanoutOutOfRange)
    );
    assert_eq!(
        ParamsPacket::new(10, 0, 0, 1),
        Err(ConfigError::FanoutOutOfRange)
    );
    assert_eq!(
        ParamsPacket::new(10, 3, 2, 0),
        Err(ConfigError::TrialCountZero)
    );
    let p = ParamsPacket::new(10, 3, 2, 5).unwrap();
    assert_eq!(p.node_size(), 10);
    assert_eq!(p.t(), 3);
    assert_eq!(p.k(), 2);
    assert_eq!(p.n(), 5);
}

// nodeCount=10, t=3, k=2, n=1, seeded with (0,0,0,FullMessage) at ts=0:
// after the run node 0 has seen the payload and the queue has drained.
#[test]
fn test_seeded_trial_reaches_origin() {
    let p = ParamsPacket::new(10, 3, 2, 1).unwrap();
    let mut sim = RRSSimulator::new(p);
    let r = sim.do_test();
    assert!(sim.node(0).has_recv_full_message());
    assert_eq!(sim.queue_len(), 0);
    assert_eq!(r.results().len(), 1);
    let sample = r.results()[0];
    assert!(sample.recv_node_size >= 1);
    assert!(sample.recv_node_size <= 10);
}

// A HashOnly delivery to a node that already has the payload still counts
// as a hash receipt, and seen_full stays true.
#[test]
fn test_hash_delivery_keeps_seen_full() {
    let p = ParamsPacket::new(10, 3, 2, 1).unwrap();
    let mut sim = RRSSimulator::new(p);
    sim.handle_message(Message::build_send_full_message(1, 2, 1), 0);
    assert!(sim.node(2).has_recv_full_message());
    assert_eq!(sim.node(2).recv_message_count(), 1);

    sim.handle_message(Message::build_send_hash_message(3, 2, 1), 200);
    assert!(sim.node(2).has_recv_full_message());
    assert_eq!(sim.node(2).recv_hash_count(), 1);
    assert_eq!(sim.node(2).recv_message_count(), 1);
}

// An event at the hop ceiling is dropped, never forwarded: handling it
// records the receipt but schedules nothing.
#[test]
fn test_hop_ceiling_drops_event() {
    let p = ParamsPacket::new(10, 3, 2, 1).unwrap();
    let mut sim = RRSSimulator::new(p);
    sim.handle_message(Message::build_send_full_message(1, 2, 9), 0);
    assert!(sim.node(2).has_recv_full_message());
    assert_eq!(sim.queue_len(), 0);
}

// An asked node that lacks the payload drops the ask silently; one that has
// it replies with a fresh full message at hop 0.
#[test]
fn test_ask_for_replies_only_when_seen() {
    let p = ParamsPacket::new(10, 3, 2, 1).unwrap();
    let mut sim = RRSSimulator::new(p);
    sim.handle_message(Message::build_send_query_message(4, 6), 10);
    assert_eq!(sim.queue_len(), 0);

    sim.handle_message(Message::build_send_full_message(0, 6, 9), 20);
    assert_eq!(sim.queue_len(), 0);
    sim.handle_message(Message::build_send_query_message(4, 6), 30);
    assert_eq!(sim.queue_len(), 1);
}

// A node that has already received more than EACH_HANDLE_COUNT deliveries
// still has its receipt recorded but forwards nothing at all.
#[test]
fn test_throttled_node_forwards_nothing() {
    let p = ParamsPacket::new(10, 3, 2, 1).unwrap();
    let mut sim = RRSSimulator::new(p);
    for sender in 1..5 {
        sim.handle_message(Message::build_send_full_message(sender, 7, 1), 0);
    }
    assert_eq!(sim.node(7).recv_message_count(), 4);
    let pending = sim.queue_len();
    sim.handle_message(Message::build_send_full_message(5, 7, 1), 10);
    assert_eq!(sim.node(7).recv_message_count(), 5);
    assert_eq!(sim.queue_len(), pending);
}

// A node that lacks the payload asks one neighbour after a hash delivery,
// and repeats the ask only once more than SEND_ASK_INTERVAL has passed.
#[test]
fn test_pull_repair_throttled() {
    let p = ParamsPacket::new(10, 3, 2, 1).unwrap();
    let mut sim = RRSSimulator::new(p);

    sim.handle_message(Message::build_send_hash_message(1, 7, 9), 100);
    assert_eq!(sim.node(7).send_ask_for_ts(), 100);
    assert_eq!(sim.queue_len(), 1);

    // 100 + 50 is not strictly before 120: no new ask.
    sim.handle_message(Message::build_send_hash_message(2, 7, 9), 120);
    assert_eq!(sim.node(7).send_ask_for_ts(), 100);
    assert_eq!(sim.queue_len(), 1);

    // 100 + 50 is strictly before 200: ask again.
    sim.handle_message(Message::build_send_hash_message(3, 7, 9), 200);
    assert_eq!(sim.node(7).send_ask_for_ts(), 200);
    assert!(sim.queue_len() >= 1);
}

fn mean_nodes_reached(samples: &Vec<ResultData>) -> f64 {
    let sum: u64 = samples.iter().map(|s| s.recv_node_size as u64).sum();
    sum as f64 / samples.len() as f64
}

// Two runs of all trials with the same configuration but fresh randomness
// give means within a small statistical tolerance, and both means lie in
// [0, nodeCount].
#[test]
fn test_repeated_runs_agree() {
    let p = ParamsPacket::new(10, 3, 2, 100).unwrap();
    let mut sim = RRSSimulator::new(p);
    let r1 = sim.do_test();
    let r2 = sim.do_test();
    assert_eq!(r1.results().len(), 100);
    assert_eq!(r2.results().len(), 100);
    let m1 = mean_nodes_reached(r1.results());
    let m2 = mean_nodes_reached(r2.results());
    assert!((0.0..=10.0).contains(&m1));
    assert!((0.0..=10.0).contains(&m2));
    assert!((m1 - m2).abs() <= 2.0);
}

// The message builders fix kind, hop and an empty snapshot as documented.
#[test]
fn test_message_builders() {
    let f = Message::build_send_full_message(3, 4, 7);
    assert_eq!(
        (f.from, f.to, f.hop_num, f.status),
        (3, 4, 7, MessageStatus::FullMessage)
    );
    assert!(f.bloomstatus.is_empty());

    let h = Message::build_send_hash_message(1, 2, 5);
    assert_eq!(h.status, MessageStatus::OnlyHash);

    let q = Message::build_send_query_message(8, 9);
    assert_eq!((q.from, q.to, q.hop_num), (8, 9, 0));
    assert_eq!(q.status, MessageStatus::AskForMessage);

    let mut m = Message::build_send_full_message(0, 1, 2);
    m.add_bloomstatus(&vec![5, 6]);
    assert_eq!(m.bloomstatus, vec![5, 6]);
}
