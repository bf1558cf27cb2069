use rrs_simulator::node_status::NodeStatus;

#[test]
fn test_fresh_node() {
    let ns = NodeStatus::new(4);
    assert!(!ns.has_recv_full_message());
    assert_eq!(ns.recv_hash_count(), 0);
    assert_eq!(ns.recv_message_count(), 0);
    assert_eq!(ns.handle_hash_count(), 0);
    assert_eq!(ns.send_ask_for_ts(), 0);
    assert!(ns.get_already_recvd_nodes().is_empty());
}

#[test]
fn test_record_receipts() {
    let mut ns = NodeStatus::new(4);
    ns.record_recv_message();
    assert!(ns.has_recv_full_message());
    assert_eq!(ns.recv_message_count(), 1);
    ns.record_recv_hash();
    ns.record_recv_hash();
    assert_eq!(ns.recv_hash_count(), 2);
    assert!(ns.has_recv_full_message());
    ns.record_send_ask_for(17);
    assert_eq!(ns.send_ask_for_ts(), 17);
}

// stop_handle_message is exactly `recv_hash + recv_message > threshold`.
#[test]
fn test_stop_handle_message() {
    let mut ns = NodeStatus::new(4);
    ns.record_recv_message();
    ns.record_recv_hash();
    ns.record_recv_hash();
    assert!(!ns.stop_handle_message(3));
    assert!(ns.stop_handle_message(2));
    ns.record_recv_hash();
    assert!(ns.stop_handle_message(3));
}

// Bits only accumulate within a trial: marking more peers never clears an
// earlier mark; only a reset does.
#[test]
fn test_bloom_bits_monotonic_until_reset() {
    let mut ns = NodeStatus::new(6);
    ns.update_bloom_filter(&vec![2, 4]);
    assert_eq!(ns.get_already_recvd_nodes(), vec![2, 4]);
    assert!(ns.is_peer_known(2));
    assert!(!ns.is_peer_known(3));

    ns.update_bloom_filter(&vec![0, 4, 5]);
    assert_eq!(ns.get_already_recvd_nodes(), vec![0, 2, 4, 5]);
    assert!(ns.is_peer_known(2));
    assert!(ns.is_peer_known(4));

    ns.record_recv_message();
    ns.reset_status();
    assert!(!ns.has_recv_full_message());
    assert_eq!(ns.recv_message_count(), 0);
    assert_eq!(ns.recv_hash_count(), 0);
    assert_eq!(ns.send_ask_for_ts(), 0);
    assert!(ns.get_already_recvd_nodes().is_empty());
    assert!(!ns.is_peer_known(2));
}

// A repeated id in the marked sequence is harmless: the bitset is a set.
#[test]
fn test_bloom_duplicate_ids() {
    let mut ns = NodeStatus::new(3);
    ns.update_bloom_filter(&vec![1, 1, 1]);
    assert_eq!(ns.get_already_recvd_nodes(), vec![1]);
}
