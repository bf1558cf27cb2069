//! The dissemination protocol: the state machine that consumes popped
//! events, mutates node state, and schedules follow-up events, together with
//! the neighbor sampler, the delay model, and the trial orchestrator.

use vstd::prelude::*;

use crate::message::{Message, MessageStatus, NodeId};
use crate::message_queue::{MessageQueue, QueueEntry, TimeStamp};
use crate::node_status::NodeStatus;
use crate::performance_result::{summarize_data, ResultPack};
use crate::rng::{new_thread_rng, shuffle_ids};

verus! {

/// A global ceiling on propagation depth, irrespective of the push depth
/// `k`: an event whose next hop would reach this many hops is dropped.
pub const MAX_HOP_NUM: u32 = 10;

/// A node that has already received more than this many deliveries (full or
/// hash) stops forwarding; receipt is still recorded.
pub const EACH_HANDLE_COUNT: u32 = 3;

/// Delay ranges, one per message class, as `(lo, span)`: a delay is drawn
/// uniformly in `[lo, lo + span)` and added to the current timestamp. With
/// `lo >= 1`, children are scheduled strictly later than their parent.
pub const SEND_MESSAGE_DELAY_LO: u32 = 100;

pub const SEND_MESSAGE_DELAY_SPAN: u32 = 20;

pub const SEND_HASH_DELAY_LO: u32 = 100;

pub const SEND_HASH_DELAY_SPAN: u32 = 40;

pub const SEND_ASK_FOR_DELAY_LO: u32 = 100;

pub const SEND_ASK_FOR_DELAY_SPAN: u32 = 30;

pub const SEND_REPLY_ASK_DELAY_LO: u32 = 100;

pub const SEND_REPLY_ASK_DELAY_SPAN: u32 = 30;

/// A node repeats a pull request only when more than this much logical time
/// has passed since its last one.
pub const SEND_ASK_INTERVAL: u32 = 50;

/// Headroom cap on the queue's counters under which one more event can
/// always be handled without overflow.
pub const COUNTER_CAP: u64 = 9007199254740992;

/// Headroom cap on a node's delivery count under which one more delivery
/// can always be recorded without overflow.
pub const NODE_RECV_CAP: u32 = 268435456;

/// Immutable simulation configuration, validated at construction.
#[derive(Clone, Copy, Debug, PartialEq, Eq, Structural)]
pub struct ParamsPacket {
    /// network node scale
    node_size: u32,
    /// each round, a node selects `t` neighbours and spreads the message
    t: u32,
    /// after the message has been passed `k` rounds, it is transformed into
    /// a hash-only header message and goes on
    k: u32,
    /// how many trials to simulate
    n: u32,
}

/// Why a configuration was rejected.
#[derive(Clone, Copy, Debug, PartialEq, Eq, Structural)]
pub enum ConfigError {
    /// fewer than two nodes
    NodeCountTooSmall,
    /// fan-out outside `[1, node_size)`
    FanoutOutOfRange,
    /// zero trials requested
    TrialCountZero,
}

impl ParamsPacket {
    pub closed spec fn nodes(&self) -> u32 {
        self.node_size
    }

    pub closed spec fn fanout(&self) -> u32 {
        self.t
    }

    pub closed spec fn depth(&self) -> u32 {
        self.k
    }

    pub closed spec fn trials(&self) -> u32 {
        self.n
    }

    /// A configuration is valid when there are at least two nodes, the
    /// fan-out lies in `[1, node_size)`, and at least one trial is asked for.
    pub open spec fn valid(&self) -> bool {
        &&& self.nodes() >= 2
        &&& 1 <= self.fanout() < self.nodes()
        &&& self.trials() >= 1
    }

    /// Builds a configuration, rejecting every invalid one before any trial
    /// can run.
    pub fn new(node_size: u32, t: u32, k: u32, n: u32) -> (r: Result<ParamsPacket, ConfigError>)
        ensures
            node_size < 2 ==> r == Err::<ParamsPacket, ConfigError>(ConfigError::NodeCountTooSmall),
            node_size >= 2 && !(1 <= t < node_size) ==> r == Err::<ParamsPacket, ConfigError>(
                ConfigError::FanoutOutOfRange,
            ),
            node_size >= 2 && 1 <= t < node_size && n < 1 ==> r == Err::<ParamsPacket, ConfigError>(
                ConfigError::TrialCountZero,
            ),
            node_size >= 2 && 1 <= t < node_size && n >= 1 ==> (r matches Ok(p) && p.nodes()
                == node_size && p.fanout() == t && p.depth() == k && p.trials() == n && p.valid()),
    {
        if node_size < 2 {
            Err(ConfigError::NodeCountTooSmall)
        } else if t < 1 || t >= node_size {
            Err(ConfigError::FanoutOutOfRange)
        } else if n < 1 {
            Err(ConfigError::TrialCountZero)
        } else {
            Ok(ParamsPacket { node_size, t, k, n })
        }
    }

    pub fn node_size(&self) -> (r: u32)
        ensures
            r == self.nodes(),
    {
        self.node_size
    }

    pub fn t(&self) -> (r: u32)
        ensures
            r == self.fanout(),
    {
        self.t
    }

    pub fn k(&self) -> (r: u32)
        ensures
            r == self.depth(),
    {
        self.k
    }

    pub fn n(&self) -> (r: u32)
        ensures
            r == self.trials(),
    {
        self.n
    }
}

/// The shape of every neighbour sample: distinct ids from
/// `[0, node_scale) \ {src}`, as many as asked for, clamped to how many
/// neighbours exist.
pub open spec fn neighbour_sample(s: Seq<NodeId>, src: NodeId, node_scale: int, max_num: int) -> bool {
    &&& s.no_duplicates()
    &&& forall|i: int| 0 <= i < s.len() ==> (#[trigger] s[i]) < node_scale && s[i] != src
    &&& s.len() == (if max_num <= node_scale - 1 {
        max_num
    } else {
        node_scale - 1
    })
}

/// Draws up to `max_num` random distinct nodes from `[0, node_scale)` apart
/// from `src_node_id`, in random order. When the caller asks for more
/// neighbours than exist, the count is clamped to `node_scale - 1`.
pub fn get_random_neighbour(src_node_id: NodeId, node_scale: usize, max_num: usize) -> (r: Vec<
    NodeId,
>)
    requires
        src_node_id < node_scale,
    ensures
        neighbour_sample(r@, src_node_id, node_scale as int, max_num as int),
{
    let mut pool: Vec<NodeId> = Vec::new();
    let mut i: usize = 0;
    while i < node_scale
        invariant
            i <= node_scale,
            src_node_id < node_scale,
            forall|a: int, b: int| 0 <= a < b < pool@.len() ==> #[trigger] pool@[a] < #[trigger] pool@[b],
            forall|a: int| 0 <= a < pool@.len() ==> (#[trigger] pool@[a]) < i && pool@[a] != src_node_id,
            pool@.len() == i - (if i > src_node_id {
                1int
            } else {
                0int
            }),
        decreases node_scale - i,
    {
        if i != src_node_id {
            pool.push(i);
        }
        i += 1;
    }
    proof {
        assert forall|a: int, b: int|
            0 <= a < pool@.len() && 0 <= b < pool@.len() && a != b implies pool@[a] != pool@[b] by {
            if a < b {
                assert(pool@[a] < pool@[b]);
            } else {
                assert(pool@[b] < pool@[a]);
            }
        }
    }
    let ghost pre = pool@;
    let mut rng = new_thread_rng();
    shuffle_ids(&mut pool, &mut rng);
    proof {
        broadcast use vstd::seq_lib::group_to_multiset_ensures;

        pre.lemma_multiset_has_no_duplicates();
        pool@.lemma_multiset_has_no_duplicates_conv();
        assert forall|a: int|
            0 <= a < pool@.len() implies (#[trigger] pool@[a]) < node_scale && pool@[a]
            != src_node_id by {
            assert(pool@.contains(pool@[a]));
            assert(pool@.to_multiset().count(pool@[a]) > 0);
            assert(pre.to_multiset().count(pool@[a]) > 0);
            assert(pre.contains(pool@[a]));
            let w = choose|w: int| 0 <= w < pre.len() && pre[w] == pool@[a];
        }
    }
    let ghost shuffled = pool@;
    pool.truncate(max_num);
    proof {
        if max_num <= shuffled.len() {
            assert forall|a: int, b: int|
                0 <= a < pool@.len() && 0 <= b < pool@.len() && a != b implies pool@[a]
                != pool@[b] by {
                assert(pool@[a] == shuffled[a]);
                assert(pool@[b] == shuffled[b]);
            }
        }
    }
    pool
}

/// The peers a node in the given status does not yet know to possess the
/// payload: the filter the push phase applies to its neighbour sample.
pub open spec fn unknown_pred(ns: NodeStatus) -> spec_fn(NodeId) -> bool {
    |d: NodeId| !ns.known()[d as int]
}

/// Whether a message only addresses and mentions nodes that exist under the
/// given configuration. The hop is not constrained here.
pub open spec fn msg_wf(p: ParamsPacket, m: Message) -> bool {
    &&& m.from < p.nodes()
    &&& m.to < p.nodes()
    &&& forall|i: int| 0 <= i < m.bloomstatus@.len() ==> (#[trigger] m.bloomstatus@[i]) < p.nodes()
}

/// The simulator: one configuration, one event queue, and one status record
/// per node. Node state is a flat array addressed strictly by id; every
/// mutation goes through a single exclusive borrow per call.
#[derive(Debug)]
pub struct RRSSimulator {
    /// All necessary params, set once and never changed while running.
    params: ParamsPacket,
    /// Simulates the nodes spreading one message; random delays order the
    /// nodes' actions on one logical clock.
    message_queue: MessageQueue,
    /// The nodes' status about this message, indexed by node id.
    node_status: Vec<NodeStatus>,
}

impl RRSSimulator {
    pub closed spec fn spec_params(&self) -> ParamsPacket {
        self.params
    }

    pub closed spec fn queue(&self) -> MessageQueue {
        self.message_queue
    }

    pub closed spec fn nodes(&self) -> Seq<NodeStatus> {
        self.node_status@
    }

    /// Every pending event addresses existing nodes and respects the hop
    /// ceiling: a delivered event therefore always has a hop at most
    /// `MAX_HOP_NUM`.
    pub open spec fn queue_ok(&self) -> bool {
        forall|i: int|
            0 <= i < self.queue().entries().len() ==> msg_wf(
                self.spec_params(),
                (#[trigger] self.queue().entries()[i]).message,
            ) && self.queue().entries()[i].message.hop_num <= MAX_HOP_NUM
    }

    pub open spec fn wf(&self) -> bool {
        &&& self.spec_params().valid()
        &&& self.nodes().len() == self.spec_params().nodes() as int
        &&& forall|i: int|
            0 <= i < self.nodes().len() ==> (#[trigger] self.nodes()[i]).known().len()
                == self.spec_params().nodes() as int
        &&& self.queue().wf()
        &&& self.queue_ok()
    }

    /// All queue counters and the insertion rank are at most `cap`.
    pub open spec fn counters_within(&self, cap: int) -> bool {
        &&& self.queue().full_count() <= cap
        &&& self.queue().hash_count() <= cap
        &&& self.queue().ask_count() <= cap
        &&& self.queue().arrival_bound() <= cap
    }

    /// Every node has received at most `cap` deliveries in total.
    pub open spec fn node_counts_within(&self, cap: int) -> bool {
        forall|i: int|
            0 <= i < self.nodes().len() ==> (#[trigger] self.nodes()[i]).hash_count()
                + self.nodes()[i].message_count() <= cap
    }
}

impl RRSSimulator {
    pub fn new(params: ParamsPacket) -> (sim: RRSSimulator)
        requires
            params.valid(),
        ensures
            sim.wf(),
            sim.spec_params() == params,
            sim.queue().entries().len() == 0,
            sim.counters_within(0),
            sim.node_counts_within(0),
            forall|i: int| 0 <= i < sim.nodes().len() ==> (#[trigger] sim.nodes()[i]).is_fresh(),
    {
        let all_node_size: usize = params.node_size as usize;
        let mut statuses: Vec<NodeStatus> = Vec::new();
        let mut i: usize = 0;
        while i < all_node_size
            invariant
                i <= all_node_size,
                statuses@.len() == i,
                forall|j: int|
                    0 <= j < i ==> (#[trigger] statuses@[j]).is_fresh() && statuses@[j].known().len()
                        == all_node_size,
            decreases all_node_size - i,
        {
            statuses.push(NodeStatus::new(all_node_size));
            i += 1;
        }
        RRSSimulator { params, message_queue: MessageQueue::new(), node_status: statuses }
    }

    /// Schedules one follow-up event, leaving node state alone and keeping
    /// the queue well formed. Any entry that the push may have added or
    /// re-timed carries the scheduled message's kind, so no other kind of
    /// event is ever forwarded by scheduling this one.
    fn schedule(&mut self, m: Message, ts: TimeStamp)
        requires
            old(self).wf(),
            msg_wf(old(self).spec_params(), m),
            m.hop_num <= MAX_HOP_NUM,
            old(self).queue().kind_count(m.status) < u64::MAX,
            old(self).queue().arrival_bound() < u64::MAX,
        ensures
            final(self).wf(),
            final(self).spec_params() == old(self).spec_params(),
            final(self).nodes() == old(self).nodes(),
            final(self).queue().full_count() == old(self).queue().full_count() + (
            if m.status == MessageStatus::FullMessage && !old(self).queue().has_key(m) {
                1int
            } else {
                0int
            }),
            final(self).queue().hash_count() == old(self).queue().hash_count() + (
            if m.status == MessageStatus::OnlyHash && !old(self).queue().has_key(m) {
                1int
            } else {
                0int
            }),
            final(self).queue().ask_count() == old(self).queue().ask_count() + (
            if m.status == MessageStatus::AskForMessage && !old(self).queue().has_key(m) {
                1int
            } else {
                0int
            }),
            old(self).queue().arrival_bound() <= final(self).queue().arrival_bound() <= old(
                self,
            ).queue().arrival_bound() + 1,
            final(self).queue().has_key(m),
            old(self).queue().entries().len() <= final(self).queue().entries().len(),
            forall|i: int|
                0 <= i < old(self).queue().entries().len()
                    ==> #[trigger] final(self).queue().entries()[i].message == old(self).queue().entries()[i].message
                    && final(self).queue().entries()[i].arrival == old(self).queue().entries()[i].arrival
                    && final(self).queue().entries()[i].timestamp <= old(self).queue().entries()[i].timestamp,
            forall|i: int|
                0 <= i < final(self).queue().entries().len() && !old(self).queue().entries().contains(
                    #[trigger] final(self).queue().entries()[i],
                ) ==> crate::message::same_key(final(self).queue().entries()[i].message, m)
                    && final(self).queue().entries()[i].timestamp == ts,
            !old(self).queue().has_key(m) ==> final(self).queue().entries() == old(
                self,
            ).queue().entries().push(
                (QueueEntry { message: m, timestamp: ts, arrival: old(self).queue().arrival_bound() }),
            ),
            forall|i: int|
                0 <= i < final(self).queue().entries().len() ==> old(self).queue().entries().contains(
                    #[trigger] final(self).queue().entries()[i],
                ) || final(self).queue().entries()[i].message.status == m.status,
    {
        let ghost oldq = self.message_queue.entries();
        let inserted = self.message_queue.push(m, ts);
        proof {
            if inserted {
                let last = self.message_queue.entries().len() - 1;
                assert(crate::message::same_key(self.message_queue.entries()[last].message, m));
            } else {
                let w = choose|w: int|
                    0 <= w < oldq.len() && crate::message::same_key(oldq[w].message, m);
                assert(crate::message::same_key(self.message_queue.entries()[w].message, m));
            }
            if inserted {
                assert forall|i: int|
                    0 <= i < self.message_queue.entries().len() implies oldq.contains(
                    #[trigger] self.message_queue.entries()[i],
                ) || self.message_queue.entries()[i].message.status == m.status by {
                    if i < oldq.len() {
                        assert(self.message_queue.entries()[i] == oldq[i]);
                    }
                }
            } else {
                assert forall|i: int|
                    0 <= i < self.message_queue.entries().len() implies oldq.contains(
                    #[trigger] self.message_queue.entries()[i],
                ) || self.message_queue.entries()[i].message.status == m.status by {
                    if self.message_queue.entries()[i] != oldq[i] {
                        assert(crate::message::same_key(oldq[i].message, m));
                    } else {
                        assert(oldq.contains(oldq[i]));
                    }
                }
            }
            assert forall|i: int|
                0 <= i < self.message_queue.entries().len() implies msg_wf(
                self.params,
                (#[trigger] self.message_queue.entries()[i]).message,
            ) && self.message_queue.entries()[i].message.hop_num <= MAX_HOP_NUM by {
                if inserted && i == self.message_queue.entries().len() - 1 {
                } else {
                    if !inserted {
                        assert(self.message_queue.entries()[i].message == oldq[i].message);
                    } else {
                        assert(self.message_queue.entries()[i] == oldq[i]);
                    }
                }
            }
        }
    }

    /// Samples up to `t` random neighbours of `src_node_id` and keeps those
    /// not already known (by `src_node_id`) to possess the payload.
    fn get_send_dst_list(&self, src_node_id: NodeId) -> (dst: Vec<NodeId>)
        requires
            self.wf(),
            src_node_id < self.spec_params().nodes(),
        ensures
            dst@.no_duplicates(),
            forall|i: int|
                0 <= i < dst@.len() ==> (#[trigger] dst@[i]) < self.spec_params().nodes() && dst@[i]
                    != src_node_id && !self.nodes()[src_node_id as int].known()[dst@[i] as int],
            dst@.len() <= self.spec_params().fanout(),
            exists|s: Seq<NodeId>|
                #[trigger] neighbour_sample(
                    s,
                    src_node_id,
                    self.spec_params().nodes() as int,
                    self.spec_params().fanout() as int,
                ) && dst@ == s.filter(unknown_pred(self.nodes()[src_node_id as int])),
    {
        let max_num = self.params.t;
        let rand_neighbour = get_random_neighbour(
            src_node_id,
            self.params.node_size as usize,
            max_num as usize,
        );
        let mut dst: Vec<NodeId> = Vec::new();
        let mut i: usize = 0;
        while i < rand_neighbour.len()
            invariant
                self.wf(),
                src_node_id < self.spec_params().nodes(),
                i <= rand_neighbour@.len(),
                rand_neighbour@.len() <= self.spec_params().fanout(),
                rand_neighbour@.no_duplicates(),
                forall|a: int|
                    0 <= a < rand_neighbour@.len() ==> (#[trigger] rand_neighbour@[a])
                        < self.spec_params().nodes() && rand_neighbour@[a] != src_node_id,
                dst@.no_duplicates(),
                dst@.len() <= i,
                forall|a: int|
                    0 <= a < dst@.len() ==> (#[trigger] dst@[a]) < self.spec_params().nodes()
                        && dst@[a] != src_node_id && !self.nodes()[src_node_id as int].known()[dst@[a] as int],
                forall|x: NodeId|
                    dst@.contains(x) ==> #[trigger] rand_neighbour@.subrange(0, i as int).contains(
                        x,
                    ),
                dst@ == rand_neighbour@.subrange(0, i as int).filter(
                    unknown_pred(self.nodes()[src_node_id as int]),
                ),
            decreases rand_neighbour@.len() - i,
        {
            let d = rand_neighbour[i];
            let keep = !self.node_status[src_node_id].is_peer_known(d);
            let ghost old_dst = dst@;
            if keep {
                proof {
                    if old_dst.contains(d) {
                        assert(rand_neighbour@.subrange(0, i as int).contains(d));
                        let w = choose|w: int|
                            0 <= w < i && rand_neighbour@.subrange(0, i as int)[w] == d;
                        assert(rand_neighbour@[w] == d);
                        assert(rand_neighbour@[i as int] == d);
                    }
                }
                dst.push(d);
            }
            i += 1;
            proof {
                let pre = rand_neighbour@.subrange(0, i - 1);
                let cur = rand_neighbour@.subrange(0, i as int);
                assert(cur =~= pre.push(rand_neighbour@[i - 1]));
                reveal(Seq::filter);
                let pred = unknown_pred(self.nodes()[src_node_id as int]);
                assert(cur.drop_last() =~= pre);
                assert(cur.last() == d);
                assert(pred(d) == keep);
                assert(dst@ == cur.filter(pred));
                if keep {
                    assert forall|a: int, b: int|
                        0 <= a < dst@.len() && 0 <= b < dst@.len() && a != b implies dst@[a]
                        != dst@[b] by {
                        if a < dst@.len() - 1 && b < dst@.len() - 1 {
                            assert(dst@[a] == old_dst[a]);
                            assert(dst@[b] == old_dst[b]);
                        } else if a == dst@.len() - 1 {
                            assert(!old_dst.contains(d));
                            assert(old_dst[b] != d) by {
                                if old_dst[b] == d {
                                    assert(old_dst.contains(d));
                                }
                            }
                        } else {
                            assert(!old_dst.contains(d));
                            assert(old_dst[a] != d) by {
                                if old_dst[a] == d {
                                    assert(old_dst.contains(d));
                                }
                            }
                        }
                    }
                }
                assert forall|x: NodeId| dst@.contains(x) implies cur.contains(x) by {
                    let w = choose|w: int| 0 <= w < dst@.len() && dst@[w] == x;
                    if keep && w == dst@.len() - 1 {
                        assert(cur[i - 1] == x);
                    } else {
                        assert(old_dst.contains(x));
                        assert(pre.contains(x));
                        let v = choose|v: int| 0 <= v < pre.len() && pre[v] == x;
                        assert(cur[v] == x);
                    }
                }
            }
        }
        proof {
            assert(rand_neighbour@.subrange(0, rand_neighbour@.len() as int) =~= rand_neighbour@);
            assert(neighbour_sample(
                rand_neighbour@,
                src_node_id,
                self.spec_params().nodes() as int,
                self.spec_params().fanout() as int,
            ));
        }
        dst
    }
}

impl RRSSimulator {
    /// A `FullMessage` delivered to `message.to` at `message.hop_num` hops:
    /// the receipt is recorded; then, unless the node is throttled or the
    /// hop ceiling is reached, the node either pushes the full payload on
    /// (while within the push depth) or relays hash-only messages.
    fn handle_full_message(&mut self, message: Message, ts: TimeStamp)
        requires
            old(self).wf(),
            msg_wf(old(self).spec_params(), message),
            message.status == MessageStatus::FullMessage,
            old(self).counters_within(COUNTER_CAP as int),
            old(self).node_counts_within(NODE_RECV_CAP as int),
        ensures
            step_frame(*old(self), *final(self), message.to as int),
            final(self).nodes()[message.to as int].seen_full(),
            final(self).nodes()[message.to as int].message_count() == old(self).nodes()[message.to as int].message_count() + 1,
            final(self).nodes()[message.to as int].hash_count() == old(self).nodes()[message.to as int].hash_count(),
            message.hop_num + 1 >= MAX_HOP_NUM ==> final(self).queue() == old(self).queue(),
            old(self).nodes()[message.to as int].hash_count() + old(self).nodes()[message.to as int].message_count()
                + 1 > EACH_HANDLE_COUNT ==> final(self).queue() == old(self).queue(),
            (message.hop_num + 1 < MAX_HOP_NUM && message.hop_num + 1 <= old(
                self,
            ).spec_params().depth() && old(self).nodes()[message.to as int].hash_count() + old(
                self,
            ).nodes()[message.to as int].message_count() + 1 <= EACH_HANDLE_COUNT) ==> (exists|dsts: Seq<NodeId>|
                #[trigger] full_push_outcome(*old(self), *final(self), message, dsts))
                && added_entries_are(
                old(self).queue(),
                final(self).queue(),
                message.to,
                message.hop_num + 1,
                MessageStatus::FullMessage,
                ts,
                SEND_MESSAGE_DELAY_LO,
                SEND_MESSAGE_DELAY_SPAN,
            ),
            (message.hop_num + 1 < MAX_HOP_NUM && message.hop_num + 1 > old(
                self,
            ).spec_params().depth() && old(self).nodes()[message.to as int].hash_count() + old(
                self,
            ).nodes()[message.to as int].message_count() + 1 <= EACH_HANDLE_COUNT) ==> (exists|dsts: Seq<NodeId>|
                #[trigger] hash_relay_outcome(*old(self), *final(self), message, dsts))
                && final(self).nodes()[message.to as int].known() == old(
                self,
            ).nodes()[message.to as int].known() && added_entries_are(
                old(self).queue(),
                final(self).queue(),
                message.to,
                message.hop_num + 1,
                MessageStatus::OnlyHash,
                ts,
                SEND_HASH_DELAY_LO,
                SEND_HASH_DELAY_SPAN,
            ),
    {
        let ghost pre = *self;
        let to = message.to;
        let ns = node_at(&mut self.node_status, to);
        ns.record_recv_message();
        proof {
            assert forall|j: int|
                0 <= j < self.node_status@.len() implies (#[trigger] self.node_status@[j]).known().len()
                == self.params.nodes() as int by {
                if j != to as int {
                    assert(self.node_status@[j] == pre.node_status@[j]);
                }
            }
            assert(nodes_monotone(pre, *self));
        }
        let ghost recorded = *self;
        if self.node_status[to].stop_handle_message(EACH_HANDLE_COUNT) {
            return ;
        }
        if message.hop_num >= MAX_HOP_NUM - 1 {
            return ;
        }
        let next_hop = message.hop_num + 1;
        if next_hop <= self.params.k {
            // Still in the push phase: this node becomes the next sender.
            // Merge the originator and the event's snapshot into the
            // node's own peer knowledge.
            let mut single: Vec<NodeId> = Vec::new();
            single.push(message.from);
            let ns1 = node_at(&mut self.node_status, to);
            ns1.update_bloom_filter(&single);
            proof {
                assert forall|j: int|
                    0 <= j < self.node_status@.len() implies (#[trigger] self.node_status@[j]).known().len()
                    == self.params.nodes() as int by {
                    if j != to as int {
                        assert(self.node_status@[j] == recorded.node_status@[j]);
                    }
                }
                assert(nodes_monotone(pre, *self));
                assert(single@[0] == message.from);
                assert(single@.contains(message.from));
                assert(self.node_status@[to as int].known()[message.from as int]);
            }
            let ghost merged1 = *self;
            let ns2 = node_at(&mut self.node_status, to);
            ns2.update_bloom_filter(&message.bloomstatus);
            proof {
                assert forall|j: int|
                    0 <= j < self.node_status@.len() implies (#[trigger] self.node_status@[j]).known().len()
                    == self.params.nodes() as int by {
                    if j != to as int {
                        assert(self.node_status@[j] == merged1.node_status@[j]);
                    }
                }
                assert(nodes_monotone(pre, *self));
                assert(self.node_status@[to as int].known()[message.from as int]);
                assert forall|j: int|
                    0 <= j < self.params.nodes() implies #[trigger] self.node_status@[to as int].known()[j]
                    == (pre.node_status@[to as int].known()[j] || j == message.from as int
                    || message.bloomstatus@.contains(j as NodeId)) by {
                    assert(merged1.node_status@[to as int].known()[j] == (
                    recorded.node_status@[to as int].known()[j] || single@.contains(j as NodeId)));
                    assert(self.node_status@[to as int].known()[j] == (
                    merged1.node_status@[to as int].known()[j] || message.bloomstatus@.contains(
                        j as NodeId,
                    )));
                    if single@.contains(j as NodeId) {
                        let w = choose|w: int| 0 <= w < single@.len() && single@[w] == j as NodeId;
                        assert(single@[0] == message.from);
                    }
                    if j == message.from as int {
                        assert(single@[0] == j as NodeId);
                        assert(single@.contains(j as NodeId));
                    }
                }
            }
            let ghost merged2 = *self;
            // Sample neighbours and keep those not already known; the kept
            // destinations become known as well (they are about to be sent
            // the payload).
            let dst_list = self.get_send_dst_list(to);
            let ns3 = node_at(&mut self.node_status, to);
            ns3.update_bloom_filter(&dst_list);
            proof {
                assert forall|j: int|
                    0 <= j < self.node_status@.len() implies (#[trigger] self.node_status@[j]).known().len()
                    == self.params.nodes() as int by {
                    if j != to as int {
                        assert(self.node_status@[j] == merged2.node_status@[j]);
                    }
                }
                assert(nodes_monotone(pre, *self));
                assert forall|j: int|
                    0 <= j < self.params.nodes() implies #[trigger] self.node_status@[to as int].known()[j]
                    == (pre.node_status@[to as int].known()[j] || j == message.from as int
                    || message.bloomstatus@.contains(j as NodeId) || dst_list@.contains(
                    j as NodeId,
                )) by {
                    assert(self.node_status@[to as int].known()[j] == (
                    merged2.node_status@[to as int].known()[j] || dst_list@.contains(j as NodeId)));
                }
                assert forall|a: int|
                    0 <= a < dst_list@.len() implies (#[trigger] dst_list@[a])
                    < self.params.nodes() && dst_list@[a] != message.to && !(
                pre.node_status@[to as int].known()[dst_list@[a] as int] || dst_list@[a]
                    == message.from || message.bloomstatus@.contains(dst_list@[a])) by {
                    assert(!merged2.node_status@[to as int].known()[dst_list@[a] as int]);
                }
            }
            if dst_list.is_empty() {
                proof {
                    let samp = choose|samp: Seq<NodeId>|
                        #[trigger] neighbour_sample(
                            samp,
                            to,
                            self.spec_params().nodes() as int,
                            self.spec_params().fanout() as int,
                        ) && dst_list@ == samp.filter(
                            unknown_pred(merged2.node_status@[to as int]),
                        );
                    lemma_filter_congruence(
                        samp,
                        unknown_pred(merged2.node_status@[to as int]),
                        merged_unknown_pred(pre, message),
                    );
                    assert(full_push_outcome(pre, *self, message, dst_list@));
                    assert forall|i: int|
                        0 <= i < self.queue().entries().len() implies pre.queue().entries().contains(
                        #[trigger] self.queue().entries()[i],
                    ) by {
                        assert(pre.queue().entries()[i] == self.queue().entries()[i]);
                    }
                }
                return ;
            }
            // A fresh full message per destination, carrying this node's
            // peer knowledge as its snapshot.
            let snapshot = self.node_status[to].get_already_recvd_nodes();
            let ghost sent_state = *self;
            proof {
                assert forall|i: int|
                    0 <= i < self.queue().entries().len() implies sent_state.queue().entries().contains(
                    #[trigger] self.queue().entries()[i],
                ) by {
                    assert(sent_state.queue().entries()[i] == self.queue().entries()[i]);
                }
            }
            let mut di: usize = 0;
            while di < dst_list.len()
                invariant
                    self.wf(),
                    self.spec_params() == sent_state.spec_params(),
                    self.nodes() == sent_state.nodes(),
                    sent_state.wf(),
                    sent_state.spec_params().valid(),
                    di <= dst_list@.len(),
                    dst_list@.len() <= sent_state.spec_params().fanout(),
                    to == message.to,
                    to < sent_state.spec_params().nodes(),
                    next_hop == message.hop_num + 1,
                    next_hop <= MAX_HOP_NUM,
                    forall|a: int|
                        0 <= a < dst_list@.len() ==> (#[trigger] dst_list@[a])
                            < sent_state.spec_params().nodes(),
                    forall|a: int|
                        0 <= a < snapshot@.len() ==> (#[trigger] snapshot@[a])
                            < sent_state.spec_params().nodes(),
                    sent_state.queue().full_count() <= self.queue().full_count()
                        <= sent_state.queue().full_count() + di,
                    self.queue().hash_count() == sent_state.queue().hash_count(),
                    self.queue().ask_count() == sent_state.queue().ask_count(),
                    sent_state.queue().arrival_bound() <= self.queue().arrival_bound()
                        <= sent_state.queue().arrival_bound() + di,
                    sent_state.counters_within(COUNTER_CAP as int),
                    forall|a: int|
                        0 <= a < di ==> self.queue().has_key_of(
                            message.to,
                            #[trigger] dst_list@[a],
                            next_hop,
                            MessageStatus::FullMessage,
                        ),
                    added_entries_are(
                        sent_state.queue(),
                        self.queue(),
                        message.to,
                        message.hop_num + 1,
                        MessageStatus::FullMessage,
                        ts,
                        SEND_MESSAGE_DELAY_LO,
                        SEND_MESSAGE_DELAY_SPAN,
                    ),
                decreases dst_list@.len() - di,
            {
                let dst = dst_list[di];
                let mut m = Message::build_send_full_message(to, dst, next_hop);
                m.add_bloomstatus(&snapshot);
                proof {
                    assert(m.bloomstatus@ =~= snapshot@);
                }
                let ghost mid = *self;
                let next_ts = random_delay(ts, (SEND_MESSAGE_DELAY_LO, SEND_MESSAGE_DELAY_SPAN));
                self.schedule(m, next_ts);
                proof {
                    let w = choose|w: int|
                        0 <= w < self.queue().entries().len() && crate::message::same_key(
                            self.queue().entries()[w].message,
                            m,
                        );
                    assert(self.queue().has_key_of(
                        message.to,
                        dst_list@[di as int],
                        next_hop,
                        MessageStatus::FullMessage,
                    ));
                    assert forall|a: int|
                        0 <= a < di + 1 implies self.queue().has_key_of(
                        message.to,
                        #[trigger] dst_list@[a],
                        next_hop,
                        MessageStatus::FullMessage,
                    ) by {
                        if a < di {
                            let v = choose|v: int|
                                {
                                    &&& 0 <= v < mid.queue().entries().len()
                                    &&& (#[trigger] mid.queue().entries()[v]).message.from
                                        == message.to
                                    &&& mid.queue().entries()[v].message.to == dst_list@[a]
                                    &&& mid.queue().entries()[v].message.hop_num == next_hop
                                    &&& mid.queue().entries()[v].message.status
                                        == MessageStatus::FullMessage
                                };
                            assert(self.queue().entries()[v].message == mid.queue().entries()[v].message);
                        }
                    }
                    assert forall|i: int|
                        0 <= i < self.queue().entries().len() implies sent_state.queue().entries().contains(
                        #[trigger] self.queue().entries()[i],
                    ) || (self.queue().entries()[i].message.from == message.to
                        && self.queue().entries()[i].message.hop_num == message.hop_num + 1
                        && self.queue().entries()[i].message.status == MessageStatus::FullMessage
                        && delayed_in(
                        ts,
                        SEND_MESSAGE_DELAY_LO,
                        SEND_MESSAGE_DELAY_SPAN,
                        self.queue().entries()[i].timestamp,
                    )) by {
                        let e = self.queue().entries()[i];
                        if mid.queue().entries().contains(e) {
                            let v = choose|v: int|
                                0 <= v < mid.queue().entries().len() && mid.queue().entries()[v]
                                    == e;
                        } else {
                            assert(crate::message::same_key(e.message, m));
                        }
                    }
                }
                di += 1;
            }
            proof {
                let samp = choose|samp: Seq<NodeId>|
                    #[trigger] neighbour_sample(
                        samp,
                        to,
                        sent_state.spec_params().nodes() as int,
                        sent_state.spec_params().fanout() as int,
                    ) && dst_list@ == samp.filter(unknown_pred(merged2.node_status@[to as int]));
                lemma_filter_congruence(
                    samp,
                    unknown_pred(merged2.node_status@[to as int]),
                    merged_unknown_pred(pre, message),
                );
                assert(full_push_outcome(pre, *self, message, dst_list@));
            }
        } else {
            // Past the push depth but under the ceiling: relay hash-only
            // messages to sampled neighbours, with no filtering.
            let dst_list = get_random_neighbour(
                to,
                self.params.node_size as usize,
                self.params.t as usize,
            );
            let ghost sent_state = *self;
            proof {
                assert forall|i: int|
                    0 <= i < self.queue().entries().len() implies sent_state.queue().entries().contains(
                    #[trigger] self.queue().entries()[i],
                ) by {
                    assert(sent_state.queue().entries()[i] == self.queue().entries()[i]);
                }
            }
            let mut di: usize = 0;
            while di < dst_list.len()
                invariant
                    self.wf(),
                    self.spec_params() == sent_state.spec_params(),
                    self.nodes() == sent_state.nodes(),
                    sent_state.wf(),
                    di <= dst_list@.len(),
                    dst_list@.len() <= sent_state.spec_params().fanout(),
                    to == message.to,
                    to < sent_state.spec_params().nodes(),
                    next_hop == message.hop_num + 1,
                    next_hop <= MAX_HOP_NUM,
                    forall|a: int|
                        0 <= a < dst_list@.len() ==> (#[trigger] dst_list@[a])
                            < sent_state.spec_params().nodes(),
                    sent_state.queue().hash_count() <= self.queue().hash_count()
                        <= sent_state.queue().hash_count() + di,
                    self.queue().full_count() == sent_state.queue().full_count(),
                    self.queue().ask_count() == sent_state.queue().ask_count(),
                    sent_state.queue().arrival_bound() <= self.queue().arrival_bound()
                        <= sent_state.queue().arrival_bound() + di,
                    sent_state.counters_within(COUNTER_CAP as int),
                    forall|a: int|
                        0 <= a < di ==> self.queue().has_key_of(
                            message.to,
                            #[trigger] dst_list@[a],
                            next_hop,
                            MessageStatus::OnlyHash,
                        ),
                    added_entries_are(
                        sent_state.queue(),
                        self.queue(),
                        message.to,
                        message.hop_num + 1,
                        MessageStatus::OnlyHash,
                        ts,
                        SEND_HASH_DELAY_LO,
                        SEND_HASH_DELAY_SPAN,
                    ),
                decreases dst_list@.len() - di,
            {
                let dst = dst_list[di];
                let m = Message::build_send_hash_message(to, dst, next_hop);
                let ghost mid = *self;
                let next_ts = random_delay(ts, (SEND_HASH_DELAY_LO, SEND_HASH_DELAY_SPAN));
                self.schedule(m, next_ts);
                proof {
                    let w = choose|w: int|
                        0 <= w < self.queue().entries().len() && crate::message::same_key(
                            self.queue().entries()[w].message,
                            m,
                        );
                    assert(self.queue().has_key_of(
                        message.to,
                        dst_list@[di as int],
                        next_hop,
                        MessageStatus::OnlyHash,
                    ));
                    assert forall|a: int|
                        0 <= a < di + 1 implies self.queue().has_key_of(
                        message.to,
                        #[trigger] dst_list@[a],
                        next_hop,
                        MessageStatus::OnlyHash,
                    ) by {
                        if a < di {
                            let v = choose|v: int|
                                {
                                    &&& 0 <= v < mid.queue().entries().len()
                                    &&& (#[trigger] mid.queue().entries()[v]).message.from
                                        == message.to
                                    &&& mid.queue().entries()[v].message.to == dst_list@[a]
                                    &&& mid.queue().entries()[v].message.hop_num == next_hop
                                    &&& mid.queue().entries()[v].message.status
                                        == MessageStatus::OnlyHash
                                };
                            assert(self.queue().entries()[v].message == mid.queue().entries()[v].message);
                        }
                    }
                    assert forall|i: int|
                        0 <= i < self.queue().entries().len() implies sent_state.queue().entries().contains(
                        #[trigger] self.queue().entries()[i],
                    ) || (self.queue().entries()[i].message.from == message.to
                        && self.queue().entries()[i].message.hop_num == message.hop_num + 1
                        && self.queue().entries()[i].message.status == MessageStatus::OnlyHash
                        && delayed_in(
                        ts,
                        SEND_HASH_DELAY_LO,
                        SEND_HASH_DELAY_SPAN,
                        self.queue().entries()[i].timestamp,
                    )) by {
                        let e = self.queue().entries()[i];
                        if mid.queue().entries().contains(e) {
                            let v = choose|v: int|
                                0 <= v < mid.queue().entries().len() && mid.queue().entries()[v]
                                    == e;
                        } else {
                            assert(crate::message::same_key(e.message, m));
                        }
                    }
                }
                di += 1;
            }
            proof {
                assert(hash_relay_outcome(pre, *self, message, dst_list@));
            }
        }
    }
}

/// Whether a node in the given status would ask for a repair at time `ts`:
/// it still lacks the payload and has not asked recently.
pub open spec fn should_ask(ns: NodeStatus, ts: TimeStamp) -> bool {
    &&& !ns.seen_full()
    &&& (ns.ask_ts() == 0 || ns.ask_ts() + SEND_ASK_INTERVAL < ts)
}

/// Whether a hash delivery at time `ts` to a node in the given status
/// triggers a pull repair: the node is not throttled, still lacks the
/// payload, and has not asked recently.
pub open spec fn asks_repair(ns: NodeStatus, ts: TimeStamp) -> bool {
    &&& ns.hash_count() + ns.message_count() + 1 <= EACH_HANDLE_COUNT
    &&& should_ask(ns, ts)
}

impl RRSSimulator {
    /// Pull repair: a node that still lacks the payload asks one random
    /// neighbour for it, unless it asked recently; the ask time is recorded
    /// to throttle the next request.
    fn pull_repair(&mut self, to: NodeId, ts: TimeStamp)
        requires
            old(self).wf(),
            to < old(self).spec_params().nodes(),
            old(self).queue().ask_count() < u64::MAX,
            old(self).queue().arrival_bound() < u64::MAX,
        ensures
            final(self).wf(),
            final(self).spec_params() == old(self).spec_params(),
            final(self).nodes().len() == old(self).nodes().len(),
            forall|j: int|
                0 <= j < old(self).nodes().len() && j != to ==> #[trigger] final(self).nodes()[j]
                    == old(self).nodes()[j],
            final(self).nodes()[to as int].seen_full() == old(self).nodes()[to as int].seen_full(),
            final(self).nodes()[to as int].hash_count() == old(self).nodes()[to as int].hash_count(),
            final(self).nodes()[to as int].message_count() == old(self).nodes()[to as int].message_count(),
            final(self).nodes()[to as int].spec_handle_hash_count() == old(self).nodes()[to as int].spec_handle_hash_count(),
            final(self).nodes()[to as int].known() == old(self).nodes()[to as int].known(),
            final(self).nodes()[to as int].ask_ts() == (if should_ask(
                old(self).nodes()[to as int],
                ts,
            ) {
                ts
            } else {
                old(self).nodes()[to as int].ask_ts()
            }),
            !should_ask(old(self).nodes()[to as int], ts) ==> final(self).queue() == old(
                self,
            ).queue(),
            should_ask(old(self).nodes()[to as int], ts) ==> exists|d: NodeId|
                final(self).queue().has_key_of(to, d, 0, MessageStatus::AskForMessage),
            final(self).queue().full_count() == old(self).queue().full_count(),
            final(self).queue().hash_count() == old(self).queue().hash_count(),
            old(self).queue().ask_count() <= final(self).queue().ask_count() <= old(
                self,
            ).queue().ask_count() + 1,
            old(self).queue().arrival_bound() <= final(self).queue().arrival_bound() <= old(
                self,
            ).queue().arrival_bound() + 1,
            old(self).queue().entries().len() <= final(self).queue().entries().len(),
            forall|i: int|
                0 <= i < old(self).queue().entries().len()
                    ==> #[trigger] final(self).queue().entries()[i].message == old(self).queue().entries()[i].message,
            forall|i: int|
                0 <= i < final(self).queue().entries().len() ==> old(self).queue().entries().contains(
                    #[trigger] final(self).queue().entries()[i],
                ) || (final(self).queue().entries()[i].message.from == to
                    && final(self).queue().entries()[i].message.status == MessageStatus::AskForMessage
                    && final(self).queue().entries()[i].message.hop_num == 0 && delayed_in(
                    ts,
                    SEND_ASK_FOR_DELAY_LO,
                    SEND_ASK_FOR_DELAY_SPAN,
                    final(self).queue().entries()[i].timestamp,
                )),
    {
        let ghost pre = *self;
        if !self.node_status[to].has_recv_full_message() {
            let last_ask = self.node_status[to].send_ask_for_ts();
            if last_ask == 0 || (last_ask as u64 + SEND_ASK_INTERVAL as u64) < ts as u64 {
                let neighbour = get_random_neighbour(to, self.params.node_size as usize, 1);
                let send_ask_message = Message::build_send_query_message(to, neighbour[0]);
                let ns2 = node_at(&mut self.node_status, to);
                ns2.record_send_ask_for(ts);
                proof {
                    assert forall|j: int|
                        0 <= j < self.node_status@.len() implies (#[trigger] self.node_status@[j]).known().len()
                        == self.params.nodes() as int by {
                        if j != to as int {
                            assert(self.node_status@[j] == pre.node_status@[j]);
                        }
                    }
                }
                let next_ts = random_delay(ts, (SEND_ASK_FOR_DELAY_LO, SEND_ASK_FOR_DELAY_SPAN));
                self.schedule(send_ask_message, next_ts);
                proof {
                    let w = choose|w: int|
                        0 <= w < self.queue().entries().len() && crate::message::same_key(
                            self.queue().entries()[w].message,
                            send_ask_message,
                        );
                    assert(self.queue().has_key_of(
                        to,
                        send_ask_message.to,
                        0,
                        MessageStatus::AskForMessage,
                    ));
                }
            }
        }
    }

    /// A `HashOnly` message delivered to `message.to`: the receipt is
    /// recorded; unless throttled, the node relays the hash while under the
    /// hop ceiling, and a node that still lacks the payload may ask one
    /// neighbour for it (pull repair), throttled by `SEND_ASK_INTERVAL`.
    fn handle_only_hash(&mut self, message: Message, ts: TimeStamp)
        requires
            old(self).wf(),
            msg_wf(old(self).spec_params(), message),
            message.status == MessageStatus::OnlyHash,
            old(self).counters_within(COUNTER_CAP as int),
            old(self).node_counts_within(NODE_RECV_CAP as int),
        ensures
            step_frame(*old(self), *final(self), message.to as int),
            final(self).nodes()[message.to as int].seen_full() == old(self).nodes()[message.to as int].seen_full(),
            final(self).nodes()[message.to as int].hash_count() == old(self).nodes()[message.to as int].hash_count() + 1,
            final(self).nodes()[message.to as int].message_count() == old(self).nodes()[message.to as int].message_count(),
            final(self).nodes()[message.to as int].known() == old(self).nodes()[message.to as int].known(),
            old(self).nodes()[message.to as int].hash_count() + old(self).nodes()[message.to as int].message_count()
                + 1 > EACH_HANDLE_COUNT ==> final(self).queue() == old(self).queue(),
            (message.hop_num + 1 < MAX_HOP_NUM && old(self).nodes()[message.to as int].hash_count()
                + old(self).nodes()[message.to as int].message_count() + 1 <= EACH_HANDLE_COUNT)
                ==> exists|dsts: Seq<NodeId>|
                #[trigger] hash_relay_outcome(*old(self), *final(self), message, dsts),
            old(self).nodes()[message.to as int].hash_count() + old(self).nodes()[message.to as int].message_count()
                + 1 <= EACH_HANDLE_COUNT ==> hash_step_added_ok(
                old(self).queue(),
                final(self).queue(),
                message.to,
                message.hop_num + 1,
                ts,
            ),
            message.hop_num + 1 >= MAX_HOP_NUM ==> forall|i: int|
                0 <= i < final(self).queue().entries().len() ==> old(self).queue().entries().contains(
                    #[trigger] final(self).queue().entries()[i],
                ) || final(self).queue().entries()[i].message.status
                    == MessageStatus::AskForMessage,
            final(self).nodes()[message.to as int].ask_ts() == (if asks_repair(
                old(self).nodes()[message.to as int],
                ts,
            ) {
                ts
            } else {
                old(self).nodes()[message.to as int].ask_ts()
            }),
            asks_repair(old(self).nodes()[message.to as int], ts) ==> exists|d: NodeId|
                final(self).queue().has_key_of(
                    message.to,
                    d,
                    0,
                    MessageStatus::AskForMessage,
                ),
            !asks_repair(old(self).nodes()[message.to as int], ts) ==> final(self).queue().ask_count()
                == old(self).queue().ask_count(),
            asks_repair(old(self).nodes()[message.to as int], ts) ==> final(self).queue().ask_count()
                <= old(self).queue().ask_count() + 1,
            !asks_repair(old(self).nodes()[message.to as int], ts) ==> forall|i: int|
                0 <= i < final(self).queue().entries().len()
                    && (#[trigger] final(self).queue().entries()[i]).message.status == MessageStatus::AskForMessage
                    ==> old(self).queue().entries().contains(final(self).queue().entries()[i]),
    {
        let ghost pre = *self;
        let to = message.to;
        let ns = node_at(&mut self.node_status, to);
        ns.record_recv_hash();
        proof {
            assert forall|j: int|
                0 <= j < self.node_status@.len() implies (#[trigger] self.node_status@[j]).known().len()
                == self.params.nodes() as int by {
                if j != to as int {
                    assert(self.node_status@[j] == pre.node_status@[j]);
                }
            }
            assert(nodes_monotone(pre, *self));
        }
        if self.node_status[to].stop_handle_message(EACH_HANDLE_COUNT) {
            return ;
        }
        let ghost sent_state = *self;
        let ghost mut relay_dsts: Seq<NodeId> = Seq::empty();
        if message.hop_num < MAX_HOP_NUM - 1 {
            // Still under the ceiling: relay the hash to sampled
            // neighbours, with no filtering.
            let next_hop = message.hop_num + 1;
            let dst_list = get_random_neighbour(
                to,
                self.params.node_size as usize,
                self.params.t as usize,
            );
            proof {
                assert forall|i: int|
                    0 <= i < self.queue().entries().len() implies sent_state.queue().entries().contains(
                    #[trigger] self.queue().entries()[i],
                ) by {
                    assert(sent_state.queue().entries()[i] == self.queue().entries()[i]);
                }
            }
            let mut di: usize = 0;
            while di < dst_list.len()
                invariant
                    self.wf(),
                    self.spec_params() == sent_state.spec_params(),
                    self.nodes() == sent_state.nodes(),
                    sent_state.wf(),
                    di <= dst_list@.len(),
                    dst_list@.len() <= sent_state.spec_params().fanout(),
                    to == message.to,
                    to < sent_state.spec_params().nodes(),
                    next_hop == message.hop_num + 1,
                    next_hop <= MAX_HOP_NUM,
                    forall|a: int|
                        0 <= a < dst_list@.len() ==> (#[trigger] dst_list@[a])
                            < sent_state.spec_params().nodes(),
                    sent_state.queue().hash_count() <= self.queue().hash_count()
                        <= sent_state.queue().hash_count() + di,
                    self.queue().full_count() == sent_state.queue().full_count(),
                    self.queue().ask_count() == sent_state.queue().ask_count(),
                    sent_state.queue().arrival_bound() <= self.queue().arrival_bound()
                        <= sent_state.queue().arrival_bound() + di,
                    sent_state.counters_within(COUNTER_CAP as int),
                    forall|a: int|
                        0 <= a < di ==> self.queue().has_key_of(
                            message.to,
                            #[trigger] dst_list@[a],
                            next_hop,
                            MessageStatus::OnlyHash,
                        ),
                    added_entries_are(
                        sent_state.queue(),
                        self.queue(),
                        message.to,
                        message.hop_num + 1,
                        MessageStatus::OnlyHash,
                        ts,
                        SEND_HASH_DELAY_LO,
                        SEND_HASH_DELAY_SPAN,
                    ),
                decreases dst_list@.len() - di,
            {
                let dst = dst_list[di];
                let m = Message::build_send_hash_message(to, dst, next_hop);
                let ghost mid = *self;
                let next_ts = random_delay(ts, (SEND_HASH_DELAY_LO, SEND_HASH_DELAY_SPAN));
                self.schedule(m, next_ts);
                proof {
                    let w = choose|w: int|
                        0 <= w < self.queue().entries().len() && crate::message::same_key(
                            self.queue().entries()[w].message,
                            m,
                        );
                    assert(self.queue().has_key_of(
                        message.to,
                        dst_list@[di as int],
                        next_hop,
                        MessageStatus::OnlyHash,
                    ));
                    assert forall|a: int|
                        0 <= a < di + 1 implies self.queue().has_key_of(
                        message.to,
                        #[trigger] dst_list@[a],
                        next_hop,
                        MessageStatus::OnlyHash,
                    ) by {
                        if a < di {
                            let v = choose|v: int|
                                {
                                    &&& 0 <= v < mid.queue().entries().len()
                                    &&& (#[trigger] mid.queue().entries()[v]).message.from
                                        == message.to
                                    &&& mid.queue().entries()[v].message.to == dst_list@[a]
                                    &&& mid.queue().entries()[v].message.hop_num == next_hop
                                    &&& mid.queue().entries()[v].message.status
                                        == MessageStatus::OnlyHash
                                };
                            assert(self.queue().entries()[v].message == mid.queue().entries()[v].message);
                        }
                    }
                    assert forall|i: int|
                        0 <= i < self.queue().entries().len() implies sent_state.queue().entries().contains(
                        #[trigger] self.queue().entries()[i],
                    ) || (self.queue().entries()[i].message.from == message.to
                        && self.queue().entries()[i].message.hop_num == message.hop_num + 1
                        && self.queue().entries()[i].message.status == MessageStatus::OnlyHash
                        && delayed_in(
                        ts,
                        SEND_HASH_DELAY_LO,
                        SEND_HASH_DELAY_SPAN,
                        self.queue().entries()[i].timestamp,
                    )) by {
                        let e = self.queue().entries()[i];
                        if mid.queue().entries().contains(e) {
                            let v = choose|v: int|
                                0 <= v < mid.queue().entries().len() && mid.queue().entries()[v]
                                    == e;
                        } else {
                            assert(crate::message::same_key(e.message, m));
                        }
                    }
                }
                di += 1;
            }
            proof {
                relay_dsts = dst_list@;
                assert(hash_relay_outcome(pre, *self, message, relay_dsts));
            }
        } else {
            proof {
                assert forall|i: int|
                    0 <= i < self.queue().entries().len() implies sent_state.queue().entries().contains(
                    #[trigger] self.queue().entries()[i],
                ) by {
                    assert(sent_state.queue().entries()[i] == self.queue().entries()[i]);
                }
            }
        }
        let ghost after_relay = *self;
        // Pull repair: a node that still lacks the payload asks one random
        // neighbour for it, unless it asked recently.
        self.pull_repair(to, ts);
        proof {
            if message.hop_num + 1 < MAX_HOP_NUM && pre.node_status@[to as int].hash_count()
                + pre.node_status@[to as int].message_count() + 1 <= EACH_HANDLE_COUNT {
                assert forall|a: int|
                    0 <= a < relay_dsts.len() implies self.queue().has_key_of(
                    message.to,
                    #[trigger] relay_dsts[a],
                    (message.hop_num + 1) as u32,
                    MessageStatus::OnlyHash,
                ) by {
                    let v = choose|v: int|
                        {
                            &&& 0 <= v < after_relay.queue().entries().len()
                            &&& (#[trigger] after_relay.queue().entries()[v]).message.from
                                == message.to
                            &&& after_relay.queue().entries()[v].message.to == relay_dsts[a]
                            &&& after_relay.queue().entries()[v].message.hop_num == (message.hop_num
                                + 1) as u32
                            &&& after_relay.queue().entries()[v].message.status
                                == MessageStatus::OnlyHash
                        };
                    assert(self.queue().entries()[v].message == after_relay.queue().entries()[v].message);
                }
                assert(hash_relay_outcome(pre, *self, message, relay_dsts));
            }
            assert forall|i: int|
                0 <= i < self.queue().entries().len() implies pre.queue().entries().contains(
                #[trigger] self.queue().entries()[i],
            ) || (self.queue().entries()[i].message.from == message.to && ((
            self.queue().entries()[i].message.status == MessageStatus::OnlyHash
                && self.queue().entries()[i].message.hop_num == message.hop_num + 1 && delayed_in(
                ts,
                SEND_HASH_DELAY_LO,
                SEND_HASH_DELAY_SPAN,
                self.queue().entries()[i].timestamp,
            )) || (self.queue().entries()[i].message.status == MessageStatus::AskForMessage
                && self.queue().entries()[i].message.hop_num == 0 && delayed_in(
                ts,
                SEND_ASK_FOR_DELAY_LO,
                SEND_ASK_FOR_DELAY_SPAN,
                self.queue().entries()[i].timestamp,
            )))) by {
                let e = self.queue().entries()[i];
                if after_relay.queue().entries().contains(e) {
                    let v = choose|v: int|
                        0 <= v < after_relay.queue().entries().len()
                            && after_relay.queue().entries()[v] == e;
                    if sent_state.queue().entries().contains(e) {
                        let u = choose|u: int|
                            0 <= u < sent_state.queue().entries().len()
                                && sent_state.queue().entries()[u] == e;
                        assert(pre.queue().entries()[u] == e);
                    }
                }
            }
            if !asks_repair(pre.node_status@[to as int], ts) {
                assert forall|i: int|
                    0 <= i < self.queue().entries().len() && (#[trigger] self.queue().entries()[i]).message.status
                    == MessageStatus::AskForMessage implies pre.queue().entries().contains(
                    self.queue().entries()[i],
                ) by {
                    let e = self.queue().entries()[i];
                    if after_relay.queue().entries().contains(e) {
                        let v = choose|v: int|
                            0 <= v < after_relay.queue().entries().len()
                                && after_relay.queue().entries()[v] == e;
                        if sent_state.queue().entries().contains(e) {
                            let u = choose|u: int|
                                0 <= u < sent_state.queue().entries().len()
                                    && sent_state.queue().entries()[u] == e;
                            assert(pre.queue().entries()[u] == e);
                        }
                    }
                }
            }
            if message.hop_num + 1 >= MAX_HOP_NUM {
                assert forall|i: int|
                    0 <= i < self.queue().entries().len() implies pre.queue().entries().contains(
                    #[trigger] self.queue().entries()[i],
                ) || self.queue().entries()[i].message.status == MessageStatus::AskForMessage by {
                    let e = self.queue().entries()[i];
                    if after_relay.queue().entries().contains(e) {
                        let v = choose|v: int|
                            0 <= v < after_relay.queue().entries().len()
                                && after_relay.queue().entries()[v] == e;
                        if sent_state.queue().entries().contains(e) {
                            let u = choose|u: int|
                                0 <= u < sent_state.queue().entries().len()
                                    && sent_state.queue().entries()[u] == e;
                            assert(pre.queue().entries()[u] == e);
                        }
                    }
                }
            }
        }
    }

    /// An `AskForMessage` delivered to `message.to`: if the asked node has
    /// the payload, it replies with a fresh `FullMessage` at hop 0 to the
    /// asker; otherwise the ask is dropped silently, with no cascading ask.
    fn handle_ask_for(&mut self, message: Message, ts: TimeStamp)
        requires
            old(self).wf(),
            msg_wf(old(self).spec_params(), message),
            message.status == MessageStatus::AskForMessage,
            old(self).counters_within(COUNTER_CAP as int),
        ensures
            step_frame(*old(self), *final(self), message.to as int),
            final(self).nodes() == old(self).nodes(),
            !old(self).nodes()[message.to as int].seen_full() ==> final(self).queue() == old(
                self,
            ).queue(),
            old(self).nodes()[message.to as int].seen_full() ==> final(self).queue().has_key_of(
                message.to,
                message.from,
                0,
                MessageStatus::FullMessage,
            ),
            forall|i: int|
                0 <= i < final(self).queue().entries().len() ==> old(self).queue().entries().contains(
                    #[trigger] final(self).queue().entries()[i],
                ) || (final(self).queue().entries()[i].message.from == message.to
                    && final(self).queue().entries()[i].message.to == message.from
                    && final(self).queue().entries()[i].message.hop_num == 0
                    && final(self).queue().entries()[i].message.status == MessageStatus::FullMessage
                    && delayed_in(
                    ts,
                    SEND_REPLY_ASK_DELAY_LO,
                    SEND_REPLY_ASK_DELAY_SPAN,
                    final(self).queue().entries()[i].timestamp,
                )),
            !old(self).queue().has_key_of(message.to, message.from, 0, MessageStatus::FullMessage)
                ==> forall|i: int|
                0 <= i < final(self).queue().entries().len() ==> old(self).queue().entries().contains(
                    #[trigger] final(self).queue().entries()[i],
                ) || final(self).queue().entries()[i].message.bloomstatus@.len() == 0,
    {
        let to = message.to;
        if self.node_status[to].has_recv_full_message() {
            let m = Message::build_send_full_message(to, message.from, 0);
            let ghost mid = *self;
            let next_ts = random_delay(ts, (SEND_REPLY_ASK_DELAY_LO, SEND_REPLY_ASK_DELAY_SPAN));
            self.schedule(m, next_ts);
            proof {
                let w = choose|w: int|
                    0 <= w < self.queue().entries().len() && crate::message::same_key(
                        self.queue().entries()[w].message,
                        m,
                    );
                assert(self.queue().has_key_of(to, message.from, 0, MessageStatus::FullMessage));
                if !mid.queue().has_key(m) {
                    assert(self.queue().entries() == mid.queue().entries().push(
                        (QueueEntry {
                            message: m,
                            timestamp: next_ts,
                            arrival: mid.queue().arrival_bound(),
                        }),
                    ));
                }
                if !mid.queue().has_key_of(message.to, message.from, 0, MessageStatus::FullMessage) {
                    assert(!mid.queue().has_key(m)) by {
                        if mid.queue().has_key(m) {
                            let v = choose|v: int|
                                0 <= v < mid.queue().entries().len() && crate::message::same_key(
                                    mid.queue().entries()[v].message,
                                    m,
                                );
                            assert(mid.queue().has_key_of(
                                message.to,
                                message.from,
                                0,
                                MessageStatus::FullMessage,
                            ));
                        }
                    }
                }
            }
        }
    }

    /// One protocol step: consumes one popped event and mutates only the
    /// addressed node's state and the queue. An event whose next hop would
    /// exceed the ceiling is dropped: its receipt is still recorded, but it
    /// is never forwarded (a hash delivery may still trigger a pull
    /// repair, which starts afresh at hop 0).
    pub fn handle_message(&mut self, message: Message, ts: TimeStamp)
        requires
            old(self).wf(),
            msg_wf(old(self).spec_params(), message),
            old(self).counters_within(COUNTER_CAP as int),
            old(self).node_counts_within(NODE_RECV_CAP as int),
        ensures
            step_frame(*old(self), *final(self), message.to as int),
            message.status == MessageStatus::FullMessage ==> final(self).nodes()[message.to as int].seen_full()
                && final(self).nodes()[message.to as int].message_count() == old(self).nodes()[message.to as int].message_count()
                + 1 && final(self).nodes()[message.to as int].hash_count() == old(self).nodes()[message.to as int].hash_count(),
            message.status == MessageStatus::OnlyHash ==> final(self).nodes()[message.to as int].seen_full()
                == old(self).nodes()[message.to as int].seen_full() && final(self).nodes()[message.to as int].hash_count()
                == old(self).nodes()[message.to as int].hash_count() + 1
                && final(self).nodes()[message.to as int].message_count() == old(self).nodes()[message.to as int].message_count(),
            message.status == MessageStatus::AskForMessage ==> final(self).nodes() == old(
                self,
            ).nodes(),
            message.status == MessageStatus::FullMessage && message.hop_num + 1 >= MAX_HOP_NUM
                ==> final(self).queue() == old(self).queue(),
            message.status == MessageStatus::OnlyHash && message.hop_num + 1 >= MAX_HOP_NUM
                ==> forall|i: int|
                0 <= i < final(self).queue().entries().len() ==> old(self).queue().entries().contains(
                    #[trigger] final(self).queue().entries()[i],
                ) || final(self).queue().entries()[i].message.status
                    == MessageStatus::AskForMessage,
            (message.status == MessageStatus::FullMessage || message.status
                == MessageStatus::OnlyHash) && old(self).nodes()[message.to as int].hash_count()
                + old(self).nodes()[message.to as int].message_count() + 1 > EACH_HANDLE_COUNT
                ==> final(self).queue() == old(self).queue(),
            (message.status == MessageStatus::FullMessage && message.hop_num + 1 < MAX_HOP_NUM
                && message.hop_num + 1 <= old(self).spec_params().depth() && old(
                self,
            ).nodes()[message.to as int].hash_count() + old(
                self,
            ).nodes()[message.to as int].message_count() + 1 <= EACH_HANDLE_COUNT) ==> (exists|dsts: Seq<NodeId>|
                #[trigger] full_push_outcome(*old(self), *final(self), message, dsts))
                && added_entries_are(
                old(self).queue(),
                final(self).queue(),
                message.to,
                message.hop_num + 1,
                MessageStatus::FullMessage,
                ts,
                SEND_MESSAGE_DELAY_LO,
                SEND_MESSAGE_DELAY_SPAN,
            ),
            (message.status == MessageStatus::FullMessage && message.hop_num + 1 < MAX_HOP_NUM
                && message.hop_num + 1 > old(self).spec_params().depth() && old(
                self,
            ).nodes()[message.to as int].hash_count() + old(
                self,
            ).nodes()[message.to as int].message_count() + 1 <= EACH_HANDLE_COUNT) ==> (exists|dsts: Seq<NodeId>|
                #[trigger] hash_relay_outcome(*old(self), *final(self), message, dsts))
                && final(self).nodes()[message.to as int].known() == old(
                self,
            ).nodes()[message.to as int].known() && added_entries_are(
                old(self).queue(),
                final(self).queue(),
                message.to,
                message.hop_num + 1,
                MessageStatus::OnlyHash,
                ts,
                SEND_HASH_DELAY_LO,
                SEND_HASH_DELAY_SPAN,
            ),
            message.status == MessageStatus::OnlyHash ==> final(self).nodes()[message.to as int].known()
                == old(self).nodes()[message.to as int].known(),
            (message.status == MessageStatus::OnlyHash && message.hop_num + 1 < MAX_HOP_NUM && old(
                self,
            ).nodes()[message.to as int].hash_count() + old(
                self,
            ).nodes()[message.to as int].message_count() + 1 <= EACH_HANDLE_COUNT) ==> exists|dsts: Seq<NodeId>|
                #[trigger] hash_relay_outcome(*old(self), *final(self), message, dsts),
            (message.status == MessageStatus::OnlyHash && old(self).nodes()[message.to as int].hash_count()
                + old(self).nodes()[message.to as int].message_count() + 1 <= EACH_HANDLE_COUNT)
                ==> hash_step_added_ok(
                old(self).queue(),
                final(self).queue(),
                message.to,
                message.hop_num + 1,
                ts,
            ),
            message.status == MessageStatus::OnlyHash && !asks_repair(
                old(self).nodes()[message.to as int],
                ts,
            ) ==> final(self).queue().ask_count() == old(self).queue().ask_count() && (forall|i: int|
                0 <= i < final(self).queue().entries().len()
                    && (#[trigger] final(self).queue().entries()[i]).message.status == MessageStatus::AskForMessage
                    ==> old(self).queue().entries().contains(final(self).queue().entries()[i])),
            message.status == MessageStatus::OnlyHash && asks_repair(
                old(self).nodes()[message.to as int],
                ts,
            ) ==> final(self).queue().ask_count() <= old(self).queue().ask_count() + 1,
            message.status == MessageStatus::AskForMessage ==> forall|i: int|
                0 <= i < final(self).queue().entries().len() ==> old(self).queue().entries().contains(
                    #[trigger] final(self).queue().entries()[i],
                ) || (final(self).queue().entries()[i].message.from == message.to
                    && final(self).queue().entries()[i].message.to == message.from
                    && final(self).queue().entries()[i].message.hop_num == 0
                    && final(self).queue().entries()[i].message.status == MessageStatus::FullMessage
                    && delayed_in(
                    ts,
                    SEND_REPLY_ASK_DELAY_LO,
                    SEND_REPLY_ASK_DELAY_SPAN,
                    final(self).queue().entries()[i].timestamp,
                )),
            message.status == MessageStatus::AskForMessage && !old(self).queue().has_key_of(
                message.to,
                message.from,
                0,
                MessageStatus::FullMessage,
            ) ==> forall|i: int|
                0 <= i < final(self).queue().entries().len() ==> old(self).queue().entries().contains(
                    #[trigger] final(self).queue().entries()[i],
                ) || final(self).queue().entries()[i].message.bloomstatus@.len() == 0,
            forall|i: int|
                0 <= i < final(self).queue().entries().len() ==> old(self).queue().entries().contains(
                    #[trigger] final(self).queue().entries()[i],
                ) || final(self).queue().entries()[i].timestamp >= ts,
            message.status == MessageStatus::OnlyHash
                ==> final(self).nodes()[message.to as int].ask_ts() == (if asks_repair(
                old(self).nodes()[message.to as int],
                ts,
            ) {
                ts
            } else {
                old(self).nodes()[message.to as int].ask_ts()
            }),
            message.status == MessageStatus::OnlyHash && asks_repair(
                old(self).nodes()[message.to as int],
                ts,
            ) ==> exists|d: NodeId|
                final(self).queue().has_key_of(
                    message.to,
                    d,
                    0,
                    MessageStatus::AskForMessage,
                ),
            message.status == MessageStatus::AskForMessage && !old(
                self,
            ).nodes()[message.to as int].seen_full() ==> final(self).queue() == old(self).queue(),
            message.status == MessageStatus::AskForMessage && old(
                self,
            ).nodes()[message.to as int].seen_full() ==> final(self).queue().has_key_of(
                message.to,
                message.from,
                0,
                MessageStatus::FullMessage,
            ),
    {
        match message.status {
            MessageStatus::FullMessage => {
                self.handle_full_message(message, ts);
                proof {
                    assert forall|i: int|
                        0 <= i < self.queue().entries().len() implies old(self).queue().entries().contains(
                        #[trigger] self.queue().entries()[i],
                    ) || self.queue().entries()[i].timestamp >= ts by {}
                }
            },
            MessageStatus::OnlyHash => {
                self.handle_only_hash(message, ts);
                proof {
                    assert forall|i: int|
                        0 <= i < self.queue().entries().len() implies old(self).queue().entries().contains(
                        #[trigger] self.queue().entries()[i],
                    ) || self.queue().entries()[i].timestamp >= ts by {}
                }
            },
            MessageStatus::AskForMessage => {
                self.handle_ask_for(message, ts);
                proof {
                    assert forall|i: int|
                        0 <= i < self.queue().entries().len() implies old(self).queue().entries().contains(
                        #[trigger] self.queue().entries()[i],
                    ) || self.queue().entries()[i].timestamp >= ts by {}
                }
            },
        }
    }
}

/// A hard ceiling on the per-trial event budget, keeping the budget small
/// enough that every node's delivery counters provably fit their type.
pub const TRIAL_EVENT_CEILING: u64 = 268435424;

/// A per-trial safety bound on how many events may be handled, guarding
/// against parameter combinations that would branch without end. It scales
/// with the configuration: each node forwards on at most
/// `EACH_HANDLE_COUNT + 1` deliveries and each forwarding schedules at most
/// `fanout + 2` events (destinations, an ask, a reply), so the scaled term
/// is far above any valid configuration's real event count; the two caps
/// only keep the arithmetic of the queue's counters within their types.
pub open spec fn event_budget(p: ParamsPacket) -> int {
    let scaled = p.nodes() * (EACH_HANDLE_COUNT + 1) * (p.fanout() + 2) + 16;
    let counter_room = COUNTER_CAP as int / (p.fanout() + 2);
    let capped = if scaled <= counter_room {
        scaled
    } else {
        counter_room
    };
    if capped <= TRIAL_EVENT_CEILING as int {
        capped
    } else {
        TRIAL_EVENT_CEILING as int
    }
}

impl RRSSimulator {
    /// Computes this configuration's per-trial event budget.
    fn trial_event_budget(&self) -> (b: u64)
        ensures
            b as int == event_budget(self.spec_params()),
            16 <= b <= TRIAL_EVENT_CEILING,
            16 + (b as int) * (self.spec_params().fanout() + 1) <= COUNTER_CAP,
    {
        let t2: u64 = self.params.t as u64 + 2;
        let counter_room: u64 = COUNTER_CAP / t2;
        let per_node: u128 = (self.params.node_size as u128) * ((EACH_HANDLE_COUNT as u128) + 1);
        proof {
            assert((self.params.node_size as int) * ((EACH_HANDLE_COUNT as int) + 1)
                <= 17179869180) by (nonlinear_arith)
                requires
                    self.params.node_size as int <= 4294967295,
                    EACH_HANDLE_COUNT == 3u32,
            ;
            assert(17179869180 * ((self.params.t as int) + 2) <= 73786976303428141260int)
                by (nonlinear_arith)
                requires
                    self.params.t as int <= 4294967295,
            ;
            assert((per_node as int) * ((self.params.t as int) + 2) <= 73786976303428141260int)
                by (nonlinear_arith)
                requires
                    0 <= per_node as int <= 17179869180,
                    0 <= (self.params.t as int) + 2,
                    17179869180 * ((self.params.t as int) + 2) <= 73786976303428141260int,
            ;
        }
        let scaled128: u128 = per_node * ((self.params.t as u128) + 2) + 16;
        let capped: u64 = if scaled128 <= counter_room as u128 {
            scaled128 as u64
        } else {
            counter_room
        };
        let b: u64 = if capped <= TRIAL_EVENT_CEILING {
            capped
        } else {
            TRIAL_EVENT_CEILING
        };
        proof {
            vstd::arithmetic::div_mod::lemma_fundamental_div_mod(COUNTER_CAP as int, t2 as int);
            assert(counter_room as int * (t2 as int) <= COUNTER_CAP as int) by (nonlinear_arith)
                requires
                    counter_room as int == COUNTER_CAP as int / (t2 as int),
                    2 <= t2 as int,
                    COUNTER_CAP == 9007199254740992u64,
            ;
            assert(counter_room >= 2097151) by (nonlinear_arith)
                requires
                    counter_room == COUNTER_CAP as int / (t2 as int),
                    2 <= t2 as int <= 4294967297,
                    COUNTER_CAP == 9007199254740992u64,
            ;
            vstd::arithmetic::mul::lemma_mul_inequality(b as int, counter_room as int, t2 as int);
            assert((b as int) * (t2 as int - 1) == (b as int) * (t2 as int) - (b as int))
                by (nonlinear_arith);
        }
        b
    }


    /// Resets every node's status for the next trial; the queue and the
    /// configuration are untouched.
    fn reset_all_nodes(&mut self)
        requires
            old(self).wf(),
        ensures
            final(self).wf(),
            final(self).spec_params() == old(self).spec_params(),
            final(self).queue() == old(self).queue(),
            final(self).nodes().len() == old(self).nodes().len(),
            forall|j: int|
                0 <= j < final(self).nodes().len() ==> (#[trigger] final(self).nodes()[j]).is_fresh(),
    {
        let len = self.node_status.len();
        let mut i: usize = 0;
        while i < len
            invariant
                old(self).wf(),
                i <= len,
                len == self.node_status@.len(),
                len == old(self).nodes().len(),
                self.params == old(self).params,
                self.message_queue == old(self).message_queue,
                forall|j: int| 0 <= j < i ==> (#[trigger] self.node_status@[j]).is_fresh(),
                forall|j: int|
                    0 <= j < len ==> (#[trigger] self.node_status@[j]).known().len() == old(
                        self,
                    ).spec_params().nodes() as int,
            decreases len - i,
        {
            let ghost before = self.node_status@;
            let ns = node_at(&mut self.node_status, i);
            ns.reset_status();
            proof {
                assert forall|j: int|
                    0 <= j < len implies (#[trigger] self.node_status@[j]).known().len() == old(
                    self,
                ).spec_params().nodes() as int by {
                    if j != i as int {
                        assert(self.node_status@[j] == before[j]);
                    }
                }
                assert forall|j: int| 0 <= j < i + 1 implies (
                #[trigger] self.node_status@[j]).is_fresh() by {
                    if j < i as int {
                        assert(self.node_status@[j] == before[j]);
                    }
                }
            }
            i += 1;
        }
    }

    /// Drains the queue through the protocol: events are handled strictly in
    /// timestamp order until the queue is empty, or until this
    /// configuration's per-trial event budget is spent (which no valid
    /// configuration's real event count reaches). Returns how many events
    /// were handled: a count below the budget means the queue was drained
    /// to empty. If the queue held exactly one full-payload seed event, the
    /// seeded node has certainly seen the payload afterwards.
    pub fn start_one_test(&mut self) -> (handled: u64)
        requires
            old(self).wf(),
            old(self).counters_within(16),
            old(self).node_counts_within(16),
        ensures
            final(self).wf(),
            final(self).spec_params() == old(self).spec_params(),
            nodes_monotone(*old(self), *final(self)),
            handled as int <= event_budget(old(self).spec_params()),
            (handled as int) < event_budget(old(self).spec_params())
                ==> final(self).queue().entries().len() == 0,
            old(self).queue().full_count() <= final(self).queue().full_count(),
            old(self).queue().hash_count() <= final(self).queue().hash_count(),
            old(self).queue().ask_count() <= final(self).queue().ask_count(),
            (old(self).queue().entries().len() == 1 && old(self).queue().entries()[0].message.status
                == MessageStatus::FullMessage) ==> final(self).nodes()[old(
                self,
            ).queue().entries()[0].message.to as int].seen_full(),
    {
        let ghost seeded = old(self).queue().entries().len() == 1 && old(
            self,
        ).queue().entries()[0].message.status == MessageStatus::FullMessage;
        let ghost seed_to = old(self).queue().entries()[0].message.to as int;
        let budget = self.trial_event_budget();
        let ghost fanout1 = self.spec_params().fanout() as int + 1;
        // The queue doubles as a logical clock: every pending timestamp is
        // at least the last handled one, so pops come in non-decreasing
        // timestamp order throughout the drain.
        let ghost mut watermark: TimeStamp = 0;
        let mut steps: u64 = 0;
        let mut done = false;
        while !done && steps < budget
            invariant
                forall|i: int|
                    0 <= i < self.queue().entries().len() ==> watermark
                        <= (#[trigger] self.queue().entries()[i]).timestamp,
                old(self).wf(),
                old(self).counters_within(16),
                self.wf(),
                self.spec_params() == old(self).spec_params(),
                fanout1 == self.spec_params().fanout() as int + 1,
                budget as int == event_budget(old(self).spec_params()),
                16 <= budget <= TRIAL_EVENT_CEILING,
                16 + (budget as int) * fanout1 <= COUNTER_CAP,
                steps <= budget,
                self.counters_within(16 + (steps as int) * fanout1),
                self.node_counts_within(16 + steps as int),
                old(self).queue().full_count() <= self.queue().full_count(),
                old(self).queue().hash_count() <= self.queue().hash_count(),
                old(self).queue().ask_count() <= self.queue().ask_count(),
                nodes_monotone(*old(self), *self),
                done ==> self.queue().entries().len() == 0,
                seeded == (old(self).queue().entries().len() == 1 && old(
                    self,
                ).queue().entries()[0].message.status == MessageStatus::FullMessage),
                seeded ==> seed_to == old(self).queue().entries()[0].message.to as int,
                seeded && steps == 0 ==> self.queue() == old(self).queue() && !done,
                seeded && steps >= 1 ==> 0 <= seed_to < self.nodes().len()
                    && self.nodes()[seed_to].seen_full(),
            decreases
                    budget - steps,
                    (if done {
                        0int
                    } else {
                        1int
                    }),
        {
            let ghost qpre = self.message_queue;
            let ghost simpre = *self;
            match self.message_queue.pop_front() {
                None => {
                    done = true;
                },
                Some(pair) => {
                    let (popped, pts) = pair;
                    proof {
                        let i = choose|i: int|
                            0 <= i < qpre.entries().len() && qpre.entries()[i].message == popped
                                && qpre.entries()[i].timestamp == pts && self.message_queue.entries()
                                == qpre.entries().remove(i) && (forall|j: int|
                                0 <= j < qpre.entries().len() ==> pts <= #[trigger] qpre.entries()[j].timestamp)
                                && (forall|j: int|
                                0 <= j < qpre.entries().len() && #[trigger] qpre.entries()[j].timestamp
                                    == pts ==> qpre.entries()[i].arrival
                                    <= qpre.entries()[j].arrival);
                        assert(msg_wf(self.params, popped));
                        assert(popped.hop_num <= MAX_HOP_NUM);
                        if seeded && steps == 0 {
                            assert(i == 0);
                            assert(popped == old(self).queue().entries()[0].message);
                        }
                        assert((16 + (steps as int) * fanout1) + fanout1 == 16 + ((steps + 1) as int)
                            * fanout1) by (nonlinear_arith);
                        assert((steps as int) * fanout1 <= (budget as int - 1) * fanout1)
                            by (nonlinear_arith)
                            requires
                                steps as int <= budget as int - 1,
                                fanout1 >= 2,
                        ;
                        assert((budget as int - 1) * fanout1 == (budget as int) * fanout1 - fanout1)
                            by (nonlinear_arith);
                    }
                    let ghost popped_snapshot = popped;
                    let ghost before_handle = *self;
                    self.handle_message(popped, pts);
                    proof {
                        watermark = pts;
                        assert forall|i: int|
                            0 <= i < self.queue().entries().len() implies watermark
                            <= (#[trigger] self.queue().entries()[i]).timestamp by {
                            let e = self.queue().entries()[i];
                            if before_handle.queue().entries().contains(e) {
                                let v = choose|v: int|
                                    0 <= v < before_handle.queue().entries().len()
                                        && before_handle.queue().entries()[v] == e;
                            }
                        }
                    }
                    proof {
                        assert forall|j: int|
                            0 <= j < self.nodes().len() implies (#[trigger] self.nodes()[j]).hash_count()
                            + self.nodes()[j].message_count() <= 16 + steps as int + 1 by {
                            if j != popped_snapshot.to as int {
                                assert(self.nodes()[j] == simpre.nodes()[j]);
                            }
                        }
                        if seeded {
                            if steps == 0 {
                                assert(popped_snapshot.status == MessageStatus::FullMessage);
                                assert(self.nodes()[seed_to].seen_full());
                            } else {
                                assert(simpre.nodes()[seed_to].seen_full());
                                assert(self.nodes()[seed_to].seen_full());
                            }
                        }
                    }
                    steps = steps + 1;
                },
            }
        }
        steps
    }

    /// How many deliveries are still pending.
    pub fn queue_len(&self) -> (n: usize)
        ensures
            n == self.queue().entries().len(),
    {
        self.message_queue.len()
    }

    /// One node's status, read-only, addressed by id.
    pub fn node(&self, id: NodeId) -> (ns: &NodeStatus)
        requires
            id < self.nodes().len(),
        ensures
            *ns == self.nodes()[id as int],
    {
        &self.node_status[id]
    }

    /// Runs all configured trials: each trial resets the queue and every
    /// node, seeds one full-payload event for node 0 at time 0, drains the
    /// protocol to completion, and appends one outcome sample. The returned
    /// pack holds one sample per trial.
    pub fn do_test(&mut self) -> (r: ResultPack)
        requires
            old(self).wf(),
        ensures
            final(self).wf(),
            final(self).spec_params() == old(self).spec_params(),
            r.wf(),
            r.spec_params() == old(self).spec_params(),
            r.data().len() == old(self).spec_params().trials() as int,
            forall|i: int|
                0 <= i < r.data().len() ==> 1 <= (#[trigger] r.data()[i]).recv_node_size
                    && r.data()[i].recv_node_size <= old(self).spec_params().nodes()
                    && r.data()[i].send_message_count >= 1,
            final(self).nodes()[0].seen_full(),
    {
        let mut r = ResultPack::new(&self.params);
        let trial_count = self.params.n;
        let mut trial: u32 = 0;
        while trial < trial_count
            invariant
                self.wf(),
                self.spec_params() == old(self).spec_params(),
                trial_count == old(self).spec_params().trials(),
                trial <= trial_count,
                r.wf(),
                r.spec_params() == old(self).spec_params(),
                r.data().len() == trial as int,
                forall|i: int|
                    0 <= i < r.data().len() ==> 1 <= (#[trigger] r.data()[i]).recv_node_size
                        && r.data()[i].recv_node_size <= old(self).spec_params().nodes()
                        && r.data()[i].send_message_count >= 1,
                trial >= 1 ==> 0 < self.nodes().len() && self.nodes()[0].seen_full(),
            decreases trial_count - trial,
        {
            self.message_queue.reset_message_queue();
            self.reset_all_nodes();
            // Seed one broadcast: node 0 delivers the payload to itself.
            let message = Message::build_send_full_message(0, 0, 0);
            let _ = self.message_queue.push(message, 0);
            proof {
                assert forall|i: int|
                    0 <= i < self.queue().entries().len() implies msg_wf(
                    self.params,
                    (#[trigger] self.queue().entries()[i]).message,
                ) && self.queue().entries()[i].message.hop_num <= MAX_HOP_NUM by {
                    assert(self.queue().entries().len() == 1);
                }
            }
            let _events_handled = self.start_one_test();
            proof {
                crate::performance_result::lemma_count_seen_at_least_one(self.node_status@, 0);
                crate::performance_result::lemma_count_seen_bounds(self.node_status@);
            }
            let ghost data_before = r.data();
            summarize_data(&mut r, &self.node_status, &self.message_queue);
            proof {
                assert forall|i: int|
                    0 <= i < r.data().len() implies 1 <= (#[trigger] r.data()[i]).recv_node_size
                    && r.data()[i].recv_node_size <= old(self).spec_params().nodes()
                    && r.data()[i].send_message_count >= 1 by {
                    if i < r.data().len() - 1 {
                        assert(r.data()[i] == data_before[i]);
                    }
                }
            }
            trial = trial + 1;
        }
        r
    }
}

/// Within a trial, node state only accumulates: `seen_full` and the
/// peer-knowledge bits never fall back from `true` until the next reset.
pub open spec fn nodes_monotone(pre: RRSSimulator, post: RRSSimulator) -> bool {
    &&& post.nodes().len() == pre.nodes().len()
    &&& forall|j: int|
        0 <= j < pre.nodes().len() ==> ((#[trigger] pre.nodes()[j]).seen_full()
            ==> post.nodes()[j].seen_full())
    &&& forall|j: int, b: int|
        0 <= j < pre.nodes().len() && 0 <= b < pre.nodes()[j].known().len() ==> ((
        #[trigger] pre.nodes()[j].known()[b]) ==> post.nodes()[j].known()[b])
}

/// What every protocol step guarantees: the simulator stays well formed,
/// the configuration is untouched, no node but the addressee changes, node
/// state only accumulates, and each queue counter grows, by at most the
/// fan-out plus one.
pub open spec fn step_frame(pre: RRSSimulator, post: RRSSimulator, to: int) -> bool {
    &&& post.wf()
    &&& post.spec_params() == pre.spec_params()
    &&& post.nodes().len() == pre.nodes().len()
    &&& forall|j: int|
        0 <= j < pre.nodes().len() && j != to ==> #[trigger] post.nodes()[j] == pre.nodes()[j]
    &&& nodes_monotone(pre, post)
    &&& pre.queue().full_count() <= post.queue().full_count() <= pre.queue().full_count()
        + pre.spec_params().fanout() + 1
    &&& pre.queue().hash_count() <= post.queue().hash_count() <= pre.queue().hash_count()
        + pre.spec_params().fanout() + 1
    &&& pre.queue().ask_count() <= post.queue().ask_count() <= pre.queue().ask_count()
        + pre.spec_params().fanout() + 1
    &&& pre.queue().arrival_bound() <= post.queue().arrival_bound() <= pre.queue().arrival_bound()
        + pre.spec_params().fanout() + 1
}

/// The peers the push phase may still send to, judged against the
/// receiver's pre-delivery knowledge merged with the event: not already
/// known, not the originator, not in the event's snapshot.
pub open spec fn merged_unknown_pred(pre: RRSSimulator, message: Message) -> spec_fn(NodeId) -> bool {
    |d: NodeId|
        !(pre.nodes()[message.to as int].known()[d as int] || d == message.from
            || message.bloomstatus@.contains(d))
}

proof fn lemma_filter_congruence<A>(s: Seq<A>, p1: spec_fn(A) -> bool, p2: spec_fn(A) -> bool)
    requires
        forall|i: int| 0 <= i < s.len() ==> p1(#[trigger] s[i]) == p2(s[i]),
    ensures
        s.filter(p1) == s.filter(p2),
    decreases s.len(),
{
    reveal(Seq::filter);
    if s.len() > 0 {
        assert forall|i: int|
            0 <= i < s.drop_last().len() implies p1(#[trigger] s.drop_last()[i]) == p2(
            s.drop_last()[i],
        ) by {
            assert(s.drop_last()[i] == s[i]);
        }
        lemma_filter_congruence(s.drop_last(), p1, p2);
    }
}

/// Every entry of `postq` was already pending in `preq`, or is a forward of
/// the given shape: sent by `from`, at the given hop and kind, with a
/// timestamp drawn for `base` under the `(lo, span)` delay range.
pub open spec fn added_entries_are(
    preq: MessageQueue,
    postq: MessageQueue,
    from: NodeId,
    hop: int,
    status: MessageStatus,
    base: TimeStamp,
    lo: u32,
    span: u32,
) -> bool {
    forall|i: int|
        0 <= i < postq.entries().len() ==> preq.entries().contains(#[trigger] postq.entries()[i])
            || (postq.entries()[i].message.from == from && postq.entries()[i].message.hop_num == hop
            && postq.entries()[i].message.status == status && delayed_in(
            base,
            lo,
            span,
            postq.entries()[i].timestamp,
        ))
}

/// The push phase's effect on `message.to`: `dsts` are the kept
/// destinations (distinct, at most the fan-out, existing nodes other than
/// the receiver, none previously known to it, to the originator, or in the
/// snapshot); the receiver's known set grows by exactly the originator, the
/// snapshot and the destinations; and every destination has a pending
/// full-payload delivery from the receiver at the next hop.
pub open spec fn full_push_outcome(
    pre: RRSSimulator,
    post: RRSSimulator,
    message: Message,
    dsts: Seq<NodeId>,
) -> bool {
    &&& (exists|s: Seq<NodeId>|
        #[trigger] neighbour_sample(
            s,
            message.to,
            pre.spec_params().nodes() as int,
            pre.spec_params().fanout() as int,
        ) && dsts == s.filter(merged_unknown_pred(pre, message)))
    &&& dsts.no_duplicates()
    &&& dsts.len() <= pre.spec_params().fanout()
    &&& (forall|a: int|
        0 <= a < dsts.len() ==> (#[trigger] dsts[a]) < pre.spec_params().nodes() && dsts[a]
            != message.to && !(pre.nodes()[message.to as int].known()[dsts[a] as int] || dsts[a]
            == message.from || message.bloomstatus@.contains(dsts[a])))
    &&& (forall|j: int|
        0 <= j < pre.spec_params().nodes()
            ==> #[trigger] post.nodes()[message.to as int].known()[j] == (
        pre.nodes()[message.to as int].known()[j] || j == message.from
            || message.bloomstatus@.contains(j as NodeId) || dsts.contains(j as NodeId)))
    &&& (forall|a: int|
        0 <= a < dsts.len() ==> post.queue().has_key_of(
            message.to,
            #[trigger] dsts[a],
            (message.hop_num + 1) as u32,
            MessageStatus::FullMessage,
        ))
}

/// The hash relay's effect: `dsts` is a full (unfiltered) neighbour sample
/// of the receiver, and every sampled neighbour has a pending hash-only
/// delivery from the receiver at the next hop.
pub open spec fn hash_relay_outcome(
    pre: RRSSimulator,
    post: RRSSimulator,
    message: Message,
    dsts: Seq<NodeId>,
) -> bool {
    &&& neighbour_sample(
        dsts,
        message.to,
        pre.spec_params().nodes() as int,
        pre.spec_params().fanout() as int,
    )
    &&& (forall|a: int|
        0 <= a < dsts.len() ==> post.queue().has_key_of(
            message.to,
            #[trigger] dsts[a],
            (message.hop_num + 1) as u32,
            MessageStatus::OnlyHash,
        ))
}

/// Every entry added while handling a hash delivery is either a relayed
/// hash at the next hop or a pull request at hop zero, each in its class's
/// delay window.
pub open spec fn hash_step_added_ok(
    preq: MessageQueue,
    postq: MessageQueue,
    from: NodeId,
    hop: int,
    base: TimeStamp,
) -> bool {
    forall|i: int|
        0 <= i < postq.entries().len() ==> preq.entries().contains(#[trigger] postq.entries()[i])
            || (postq.entries()[i].message.from == from && ((postq.entries()[i].message.status
            == MessageStatus::OnlyHash && postq.entries()[i].message.hop_num == hop && delayed_in(
            base,
            SEND_HASH_DELAY_LO,
            SEND_HASH_DELAY_SPAN,
            postq.entries()[i].timestamp,
        )) || (postq.entries()[i].message.status == MessageStatus::AskForMessage
            && postq.entries()[i].message.hop_num == 0 && delayed_in(
            base,
            SEND_ASK_FOR_DELAY_LO,
            SEND_ASK_FOR_DELAY_SPAN,
            postq.entries()[i].timestamp,
        ))))
}

/// A single exclusive borrow of one node's status, addressed by id.
fn node_at(nodes: &mut Vec<NodeStatus>, i: usize) -> (r: &mut NodeStatus)
    requires
        i < old(nodes).len(),
    ensures
        *r == old(nodes)@[i as int],
        final(nodes)@ == old(nodes)@.update(i as int, *final(r)),
{
    &mut nodes[i]
}

/// A timestamp drawn for `base` under the delay range `(lo, span)`: never
/// before `base`, and inside `[base + lo, base + lo + span)` whenever that
/// window fits the timestamp type (near the top of the type the draw
/// saturates instead of overflowing).
pub open spec fn delayed_in(base: TimeStamp, lo: u32, span: u32, t2: TimeStamp) -> bool {
    &&& base <= t2
    &&& base + lo + span <= u32::MAX ==> base + lo <= t2 < base + lo + span
}

/// Draws a random delay for the given `(lo, span)` range and adds it to
/// `ori`: the result is uniform in `[ori + lo, ori + lo + span)`. Near the
/// top of the timestamp type the sum saturates instead of overflowing.
pub fn random_delay(ori: u32, rg: (u32, u32)) -> (r: u32)
    requires
        rg.1 >= 1,
    ensures
        delayed_in(ori, rg.0, rg.1, r),
{
    let draw: u32 = rand::random::<u32>();
    let off: u64 = (draw % rg.1) as u64;
    let total: u64 = ori as u64 + rg.0 as u64 + off;
    if total > u32::MAX as u64 {
        u32::MAX
    } else {
        total as u32
    }
}

} // verus!
