//! Per-trial outcome samples and their aggregation: one `ResultData` per
//! trial, collected into a `ResultPack` whose per-field sums (divided by the
//! trial count) are the configuration's final report.

use vstd::prelude::*;

use crate::message_queue::MessageQueue;
use crate::node_status::NodeStatus;
use crate::rrs_simulator::ParamsPacket;

verus! {

/// One trial's outcome: how many nodes were reached and how many events of
/// each kind were scheduled.
#[derive(Clone, Copy, Debug, PartialEq, Eq, Structural)]
pub struct ResultData {
    pub recv_node_size: u32,
    pub send_message_count: u64,
    pub send_hash_count: u64,
    pub send_ask_for_count: u64,
}

/// The samples of all trials run under one configuration.
#[derive(Debug)]
pub struct ResultPack {
    params: ParamsPacket,
    each_result_data: Vec<ResultData>,
}

/// How many of the given nodes have received the full payload.
pub open spec fn count_seen(s: Seq<NodeStatus>) -> int
    decreases s.len(),
{
    if s.len() == 0 {
        0
    } else {
        count_seen(s.drop_last()) + (if s.last().seen_full() {
            1int
        } else {
            0int
        })
    }
}

pub proof fn lemma_count_seen_bounds(s: Seq<NodeStatus>)
    ensures
        0 <= count_seen(s) <= s.len(),
    decreases s.len(),
{
    if s.len() > 0 {
        lemma_count_seen_bounds(s.drop_last());
    }
}

/// A node that has seen the payload makes the count of reached nodes
/// positive.
pub proof fn lemma_count_seen_at_least_one(s: Seq<NodeStatus>, i: int)
    requires
        0 <= i < s.len(),
        s[i].seen_full(),
    ensures
        count_seen(s) >= 1,
    decreases s.len(),
{
    if i == s.len() - 1 {
        lemma_count_seen_bounds(s.drop_last());
    } else {
        lemma_count_seen_at_least_one(s.drop_last(), i);
    }
}

/// The sum of nodes reached over the given samples.
pub open spec fn sum_recv(s: Seq<ResultData>) -> int
    decreases s.len(),
{
    if s.len() == 0 {
        0
    } else {
        sum_recv(s.drop_last()) + s.last().recv_node_size
    }
}

impl ResultPack {
    pub closed spec fn spec_params(&self) -> ParamsPacket {
        self.params
    }

    /// The collected per-trial samples.
    pub closed spec fn data(&self) -> Seq<ResultData> {
        self.each_result_data@
    }

    /// Every sample's count of reached nodes is at most the node count.
    pub open spec fn wf(&self) -> bool {
        forall|i: int|
            0 <= i < self.data().len() ==> (#[trigger] self.data()[i]).recv_node_size
                <= self.spec_params().nodes()
    }

    pub fn new(p: &ParamsPacket) -> (r: ResultPack)
        ensures
            r.spec_params() == *p,
            r.data() == Seq::<ResultData>::empty(),
            r.wf(),
    {
        ResultPack { params: *p, each_result_data: Vec::<ResultData>::new() }
    }

    pub fn params(&self) -> (p: ParamsPacket)
        ensures
            p == self.spec_params(),
    {
        self.params
    }

    pub fn results(&self) -> (v: &Vec<ResultData>)
        ensures
            v@ == self.data(),
    {
        &self.each_result_data
    }
}

/// Law: the mean of nodes reached over any well-formed result pack lies
/// between 0 and the node count; that is, the sum of the per-trial counts
/// lies between 0 and the number of samples times the node count.
pub proof fn lemma_mean_nodes_reached_bounded(rp: &ResultPack)
    requires
        rp.wf(),
    ensures
        0 <= sum_recv(rp.data()),
        sum_recv(rp.data()) <= rp.data().len() * rp.spec_params().nodes(),
{
    lemma_sum_recv_bounded(rp.data(), rp.spec_params().nodes() as int);
}

proof fn lemma_sum_recv_bounded(s: Seq<ResultData>, cap: int)
    requires
        cap >= 0,
        forall|i: int| 0 <= i < s.len() ==> (#[trigger] s[i]).recv_node_size <= cap,
    ensures
        0 <= sum_recv(s) <= s.len() * cap,
    decreases s.len(),
{
    if s.len() > 0 {
        lemma_sum_recv_bounded(s.drop_last(), cap);
        assert(s.len() * cap == (s.len() - 1) * cap + cap) by (nonlinear_arith);
    }
}

/// Reads one trial's outcome out of the final node state and the queue's
/// per-kind counters, and appends it to the pack.
pub fn summarize_data(
    rp: &mut ResultPack,
    node_status: &Vec<NodeStatus>,
    message_queue: &MessageQueue,
)
    requires
        old(rp).wf(),
        node_status@.len() == old(rp).spec_params().nodes() as int,
    ensures
        final(rp).wf(),
        final(rp).spec_params() == old(rp).spec_params(),
        final(rp).data() == old(rp).data().push(
            (ResultData {
                recv_node_size: count_seen(node_status@) as u32,
                send_message_count: message_queue.full_count(),
                send_hash_count: message_queue.hash_count(),
                send_ask_for_count: message_queue.ask_count(),
            }),
        ),
{
    let n = node_status.len();
    let mut recv_node_size: u32 = 0;
    let mut i: usize = 0;
    while i < n
        invariant
            i <= n,
            n == node_status@.len(),
            n <= u32::MAX,
            recv_node_size == count_seen(node_status@.subrange(0, i as int)),
            recv_node_size <= i,
        decreases n - i,
    {
        proof {
            lemma_count_seen_bounds(node_status@.subrange(0, i as int));
        }
        let seen = node_status[i].has_recv_full_message();
        proof {
            let cur = node_status@.subrange(0, i + 1);
            assert(cur.drop_last() =~= node_status@.subrange(0, i as int));
        }
        if seen {
            recv_node_size = recv_node_size + 1;
        }
        i += 1;
    }
    proof {
        assert(node_status@.subrange(0, node_status@.len() as int) =~= node_status@);
        lemma_count_seen_bounds(node_status@);
    }
    let rd = ResultData {
        recv_node_size,
        send_message_count: message_queue.handled_messsage_count(),
        send_hash_count: message_queue.handled_hash_count(),
        send_ask_for_count: message_queue.handled_ask_for(),
    };
    rp.each_result_data.push(rd);
    proof {
        assert forall|i: int|
            0 <= i < rp.data().len() implies (#[trigger] rp.data()[i]).recv_node_size
            <= rp.spec_params().nodes() by {
            if i < rp.data().len() - 1 {
                assert(rp.data()[i] == old(rp).data()[i]);
            }
        }
    }
}

} // verus!
