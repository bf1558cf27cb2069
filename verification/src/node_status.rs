//! Per-node reception and forwarding bookkeeping for one trial: whether and
//! how many times a node has received the payload or its hash, which peers
//! it already knows to possess the payload, and when it last asked for a
//! repair.

use vstd::prelude::*;

use crate::message::NodeId;

verus! {

use vstd::pervasive::VecAdditionalExecFns;

/// One node's status about one message, like `if` and `how many times` it
/// has received the message or its hash.
///
/// `bloom_filter_info` is an exact membership bitset over all node ids: from
/// this node's aspect as a prospective sender, which peers already possess
/// (or are about to receive) the payload. Within a trial its bits are only
/// ever set, never cleared.
#[derive(Debug)]
pub struct NodeStatus {
    has_recv_full_message: bool,
    recv_hash_count: u32,
    recv_message_count: u32,
    handle_hash_count: u32,
    bloom_filter_info: Vec<bool>,
    send_ask_for_ts: u32,
}

impl NodeStatus {
    /// Whether this node has ever received the full payload this trial.
    pub closed spec fn seen_full(&self) -> bool {
        self.has_recv_full_message
    }

    /// How many hash-only deliveries this node has received this trial.
    pub closed spec fn hash_count(&self) -> u32 {
        self.recv_hash_count
    }

    /// How many full deliveries this node has received this trial.
    pub closed spec fn message_count(&self) -> u32 {
        self.recv_message_count
    }

    /// A reserved forwarding counter: reset with the rest of the status,
    /// but never incremented by the current protocol.
    pub closed spec fn spec_handle_hash_count(&self) -> u32 {
        self.handle_hash_count
    }

    /// The peer-knowledge bitset.
    pub closed spec fn known(&self) -> Seq<bool> {
        self.bloom_filter_info@
    }

    /// The timestamp of the last pull request; 0 means "never asked".
    pub closed spec fn ask_ts(&self) -> u32 {
        self.send_ask_for_ts
    }

    /// All counters zero, nothing seen, no peer known, never asked.
    pub open spec fn is_fresh(&self) -> bool {
        &&& !self.seen_full()
        &&& self.hash_count() == 0
        &&& self.message_count() == 0
        &&& self.spec_handle_hash_count() == 0
        &&& self.ask_ts() == 0
        &&& forall|j: int| 0 <= j < self.known().len() ==> !(#[trigger] self.known()[j])
    }

    pub fn has_recv_full_message(&self) -> (r: bool)
        ensures
            r == self.seen_full(),
    {
        self.has_recv_full_message
    }

    pub fn recv_hash_count(&self) -> (r: u32)
        ensures
            r == self.hash_count(),
    {
        self.recv_hash_count
    }

    pub fn recv_message_count(&self) -> (r: u32)
        ensures
            r == self.message_count(),
    {
        self.recv_message_count
    }

    pub fn handle_hash_count(&self) -> (r: u32)
        ensures
            r == self.spec_handle_hash_count(),
    {
        self.handle_hash_count
    }

    pub fn send_ask_for_ts(&self) -> (r: u32)
        ensures
            r == self.ask_ts(),
    {
        self.send_ask_for_ts
    }

    pub fn new(node_size: usize) -> (s: NodeStatus)
        ensures
            s.is_fresh(),
            s.known().len() == node_size,
    {
        let mut bits: Vec<bool> = Vec::new();
        let mut i: usize = 0;
        while i < node_size
            invariant
                i <= node_size,
                bits@.len() == i,
                forall|j: int| 0 <= j < i ==> !(#[trigger] bits@[j]),
            decreases node_size - i,
        {
            bits.push(false);
            i += 1;
        }
        NodeStatus {
            has_recv_full_message: false,
            recv_hash_count: 0,
            recv_message_count: 0,
            handle_hash_count: 0,
            bloom_filter_info: bits,
            send_ask_for_ts: 0,
        }
    }

    /// Whether this node should stop handling (spreading) messages: it has
    /// already received more than `max_handle_count` deliveries.
    pub fn stop_handle_message(&self, max_handle_count: u32) -> (r: bool)
        requires
            self.hash_count() + self.message_count() <= u32::MAX,
        ensures
            r == (self.hash_count() + self.message_count() > max_handle_count),
    {
        self.recv_hash_count + self.recv_message_count > max_handle_count
    }

    /// Records one delivery of the full payload. `seen_full` becomes (and
    /// then stays) true.
    pub fn record_recv_message(&mut self)
        requires
            old(self).message_count() < u32::MAX,
        ensures
            final(self).seen_full(),
            final(self).message_count() == old(self).message_count() + 1,
            final(self).hash_count() == old(self).hash_count(),
            final(self).spec_handle_hash_count() == old(self).spec_handle_hash_count(),
            final(self).known() == old(self).known(),
            final(self).ask_ts() == old(self).ask_ts(),
    {
        self.has_recv_full_message = true;
        self.recv_message_count = self.recv_message_count + 1;
    }

    /// Records one delivery of a hash-only message.
    pub fn record_recv_hash(&mut self)
        requires
            old(self).hash_count() < u32::MAX,
        ensures
            final(self).seen_full() == old(self).seen_full(),
            final(self).hash_count() == old(self).hash_count() + 1,
            final(self).message_count() == old(self).message_count(),
            final(self).spec_handle_hash_count() == old(self).spec_handle_hash_count(),
            final(self).known() == old(self).known(),
            final(self).ask_ts() == old(self).ask_ts(),
    {
        self.recv_hash_count = self.recv_hash_count + 1;
    }

    /// Records that this node sent a pull request at time `ts`, for
    /// throttling later requests.
    pub fn record_send_ask_for(&mut self, ts: u32)
        ensures
            final(self).seen_full() == old(self).seen_full(),
            final(self).hash_count() == old(self).hash_count(),
            final(self).message_count() == old(self).message_count(),
            final(self).spec_handle_hash_count() == old(self).spec_handle_hash_count(),
            final(self).known() == old(self).known(),
            final(self).ask_ts() == ts,
    {
        self.send_ask_for_ts = ts;
    }

    /// Marks every id in `recv_nodes` as known to possess the payload: a
    /// monotonic set-union into the bitset. A singleton sequence covers the
    /// single-peer case.
    pub fn update_bloom_filter(&mut self, recv_nodes: &Vec<NodeId>)
        requires
            forall|i: int|
                0 <= i < recv_nodes@.len() ==> (#[trigger] recv_nodes@[i]) < old(
                    self,
                ).known().len(),
        ensures
            final(self).seen_full() == old(self).seen_full(),
            final(self).hash_count() == old(self).hash_count(),
            final(self).message_count() == old(self).message_count(),
            final(self).spec_handle_hash_count() == old(self).spec_handle_hash_count(),
            final(self).ask_ts() == old(self).ask_ts(),
            final(self).known().len() == old(self).known().len(),
            forall|j: int|
                0 <= j < old(self).known().len() ==> #[trigger] final(self).known()[j] == (old(
                    self,
                ).known()[j] || recv_nodes@.contains(j as NodeId)),
    {
        let ghost old_known = self.bloom_filter_info@;
        let n_ids = self.bloom_filter_info.len();
        let mut i: usize = 0;
        while i < recv_nodes.len()
            invariant
                i <= recv_nodes@.len(),
                old_known.len() == n_ids,
                self.has_recv_full_message == old(self).has_recv_full_message,
                self.recv_hash_count == old(self).recv_hash_count,
                self.recv_message_count == old(self).recv_message_count,
                self.handle_hash_count == old(self).handle_hash_count,
                self.send_ask_for_ts == old(self).send_ask_for_ts,
                old_known == old(self).bloom_filter_info@,
                self.bloom_filter_info@.len() == old_known.len(),
                forall|k: int|
                    0 <= k < recv_nodes@.len() ==> (#[trigger] recv_nodes@[k]) < old_known.len(),
                forall|j: int|
                    0 <= j < old_known.len() ==> #[trigger] self.bloom_filter_info@[j] == (
                    old_known[j] || recv_nodes@.subrange(0, i as int).contains(j as NodeId)),
            decreases recv_nodes@.len() - i,
        {
            let id = recv_nodes[i];
            let ghost prev = self.bloom_filter_info@;
            self.bloom_filter_info.set(id, true);
            i += 1;
            proof {
                let cur = recv_nodes@.subrange(0, i as int);
                let pre = recv_nodes@.subrange(0, i - 1);
                assert(cur =~= pre.push(recv_nodes@[i - 1]));
                assert forall|j: int| 0 <= j < old_known.len() implies #[trigger] self.bloom_filter_info@[j]
                    == (old_known[j] || cur.contains(j as NodeId)) by {
                    assert(prev[j] == (old_known[j] || pre.contains(j as NodeId)));
                    if j == id as int {
                        assert(cur[i - 1] == j as NodeId);
                        assert(cur.contains(j as NodeId));
                    } else {
                        assert(self.bloom_filter_info@[j] == prev[j]);
                        if cur.contains(j as NodeId) {
                            let w = choose|w: int| 0 <= w < cur.len() && cur[w] == j as NodeId;
                            assert(w != i - 1) by {
                                if w == i - 1 {
                                    assert(cur[w] == id);
                                    assert(j as NodeId == id);
                                    assert(0 <= j <= usize::MAX);
                                }
                            }
                            assert(pre[w] == j as NodeId);
                            assert(pre.contains(j as NodeId));
                        }
                        if pre.contains(j as NodeId) {
                            let w = choose|w: int| 0 <= w < pre.len() && pre[w] == j as NodeId;
                            assert(cur[w] == j as NodeId);
                            assert(cur.contains(j as NodeId));
                        }
                    }
                }
            }
        }
        proof {
            assert(recv_nodes@.subrange(0, recv_nodes@.len() as int) =~= recv_nodes@);
        }
    }

    /// Whether the bit for `id` is set in the bitset.
    pub fn is_peer_known(&self, id: NodeId) -> (r: bool)
        requires
            id < self.known().len(),
        ensures
            r == self.known()[id as int],
    {
        self.bloom_filter_info[id]
    }

    /// The ids whose bits are set in the bitset, in increasing order.
    pub fn get_already_recvd_nodes(&self) -> (r: Vec<NodeId>)
        ensures
            r@.no_duplicates(),
            forall|i: int| 0 <= i < r@.len() ==> (#[trigger] r@[i]) < self.known().len(),
            forall|id: int|
                0 <= id < self.known().len() ==> (r@.contains(id as NodeId) <==> self.known()[id]),
    {
        let mut r: Vec<NodeId> = Vec::new();
        let n = self.bloom_filter_info.len();
        let mut i: usize = 0;
        while i < n
            invariant
                i <= n,
                n == self.known().len(),
                forall|a: int, b: int| 0 <= a < b < r@.len() ==> #[trigger] r@[a] < #[trigger] r@[b],
                forall|k: int| 0 <= k < r@.len() ==> (#[trigger] r@[k]) < i,
                forall|id: int| 0 <= id < i ==> (r@.contains(id as NodeId) <==> self.known()[id]),
            decreases n - i,
        {
            if self.bloom_filter_info[i] {
                let ghost old_r = r@;
                r.push(i);
                proof {
                    assert forall|id: int| 0 <= id < i + 1 implies (r@.contains(id as NodeId)
                        <==> self.known()[id]) by {
                        if id < i {
                            if old_r.contains(id as NodeId) {
                                let w = choose|w: int|
                                    0 <= w < old_r.len() && old_r[w] == id as NodeId;
                                assert(r@[w] == id as NodeId);
                                assert(r@.contains(id as NodeId));
                            }
                            if r@.contains(id as NodeId) {
                                let w = choose|w: int| 0 <= w < r@.len() && r@[w] == id as NodeId;
                                assert(w != r@.len() - 1);
                                assert(old_r[w] == id as NodeId);
                                assert(old_r.contains(id as NodeId));
                            }
                        } else {
                            assert(r@[r@.len() - 1] == id as NodeId);
                            assert(r@.contains(id as NodeId));
                        }
                    }
                }
            } else {
                proof {
                    assert forall|id: int| 0 <= id < i + 1 implies (r@.contains(id as NodeId)
                        <==> self.known()[id]) by {
                        if id == i && r@.contains(id as NodeId) {
                            let w = choose|w: int| 0 <= w < r@.len() && r@[w] == id as NodeId;
                            assert(r@[w] < i);
                        }
                    }
                }
            }
            i += 1;
        }
        proof {
            assert forall|a: int, b: int| 0 <= a < b < r@.len() implies r@[a] != r@[b] by {
                assert(r@[a] < r@[b]);
            }
        }
        r
    }

    /// Zeroes every field and clears every bit, ready for the next trial.
    pub fn reset_status(&mut self)
        ensures
            final(self).is_fresh(),
            final(self).known().len() == old(self).known().len(),
    {
        self.has_recv_full_message = false;
        self.recv_hash_count = 0;
        self.recv_message_count = 0;
        self.handle_hash_count = 0;
        let n = self.bloom_filter_info.len();
        let mut i: usize = 0;
        while i < n
            invariant
                i <= n,
                n == self.bloom_filter_info@.len(),
                forall|j: int| 0 <= j < i ==> !(#[trigger] self.bloom_filter_info@[j]),
                self.has_recv_full_message == false,
                self.recv_hash_count == 0,
                self.recv_message_count == 0,
                self.handle_hash_count == 0,
            decreases n - i,
        {
            self.bloom_filter_info.set(i, false);
            i += 1;
        }
        self.send_ask_for_ts = 0;
    }
}

} // verus!
