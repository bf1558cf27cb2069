use rrs_simulator::message::Message;
use rrs_simulator::message_queue::MessageQueue;
use rrs_simulator::node_status::NodeStatus;
use rrs_simulator::performance_result::{summarize_data, ResultData, ResultPack};
use rrs_simulator::rrs_simulator::{ParamsPacket, RRSSimulator};

// One sample reads the count of reached nodes out of the node state and the
// per-kind counters out of the queue, exactly.
#[test]
fn test_summarize_one_trial() {
    let p = ParamsPacket::new(3, 1, 0, 1).unwrap();
    let mut rp = ResultPack::new(&p);
    assert_eq!(rp.params().node_size(), 3);
    assert!(rp.results().is_empty());

    let mut nodes = vec![NodeStatus::new(3), NodeStatus::new(3), NodeStatus::new(3)];
    nodes[0].record_recv_message();
    nodes[2].record_recv_message();
    nodes[1].record_recv_hash();

    let mut q = MessageQueue::new();
    q.push(Message::build_send_full_message(0, 1, 0), 5);
    q.push(Message::build_send_full_message(0, 2, 0), 6);
    q.push(Message::build_send_full_message(0, 1, 0), 7);
    q.push(Message::build_send_hash_message(1, 2, 3), 8);
    q.push(Message::build_send_query_message(2, 0), 9);

    summarize_data(&mut rp, &nodes, &q);
    assert_eq!(
        rp.results().as_slice(),
        &[ResultData {
            recv_node_size: 2,
            send_message_count: 2,
            send_hash_count: 1,
            send_ask_for_count: 1,
        }]
    );
}

// Every sample of a real run stays within [0, nodeCount], so the mean of
// nodes reached does too.
#[test]
fn test_samples_bounded_by_node_count() {
    let p = ParamsPacket::new(6, 2, 3, 20).unwrap();
    let mut sim = RRSSimulator::new(p);
    let r = sim.do_test();
    assert_eq!(r.results().len(), 20);
    let mut sum: u64 = 0;
    for s in r.results() {
        assert!(s.recv_node_size <= 6);
        sum += s.recv_node_size as u64;
    }
    assert!(sum <= 20 * 6);
}
