//! The unit of scheduling: an addressed, typed payload.

use vstd::prelude::*;

verus! {

/// A node is identified by an integer id in `[0, node_size)`.
pub type NodeId = usize;

/// The kind of a scheduled delivery: the full payload, a compact hash-only
/// reference to it, or an explicit pull request for the payload.
#[derive(Clone, Copy, Debug, PartialEq, Eq, Structural)]
pub enum MessageStatus {
    FullMessage,
    OnlyHash,
    AskForMessage,
}

/// One pending delivery. `bloomstatus` is a snapshot of the peers the sender
/// already knows to possess the payload; it is populated only for
/// `FullMessage` deliveries and is excluded from the queue identity of the
/// message.
#[derive(Debug)]
pub struct Message {
    pub from: NodeId,
    pub to: NodeId,
    pub hop_num: u32,
    pub status: MessageStatus,
    pub bloomstatus: Vec<NodeId>,
}

/// Queue identity of a message: the peer-knowledge snapshot is excluded.
pub open spec fn same_key(a: Message, b: Message) -> bool {
    &&& a.from == b.from
    &&& a.to == b.to
    &&& a.hop_num == b.hop_num
    &&& a.status == b.status
}

impl Message {
    pub fn build_send_full_message(from: usize, to: usize, hop_num: u32) -> (m: Message)
        ensures
            m.from == from,
            m.to == to,
            m.hop_num == hop_num,
            m.status == MessageStatus::FullMessage,
            m.bloomstatus@ == Seq::<NodeId>::empty(),
    {
        Message {
            from,
            to,
            hop_num,
            status: MessageStatus::FullMessage,
            bloomstatus: Vec::new(),
        }
    }

    pub fn build_send_hash_message(from: usize, to: usize, hop_num: u32) -> (m: Message)
        ensures
            m.from == from,
            m.to == to,
            m.hop_num == hop_num,
            m.status == MessageStatus::OnlyHash,
            m.bloomstatus@ == Seq::<NodeId>::empty(),
    {
        Message {
            from,
            to,
            hop_num,
            status: MessageStatus::OnlyHash,
            bloomstatus: Vec::new(),
        }
    }

    pub fn build_send_query_message(from: usize, to: usize) -> (m: Message)
        ensures
            m.from == from,
            m.to == to,
            m.hop_num == 0,
            m.status == MessageStatus::AskForMessage,
            m.bloomstatus@ == Seq::<NodeId>::empty(),
    {
        Message {
            from,
            to,
            hop_num: 0,
            status: MessageStatus::AskForMessage,
            bloomstatus: Vec::new(),
        }
    }

    /// Appends the given peer ids to the snapshot. The snapshot denotes a
    /// set, so repeated ids are harmless.
    pub fn add_bloomstatus(&mut self, nodes: &Vec<NodeId>)
        ensures
            final(self).from == old(self).from,
            final(self).to == old(self).to,
            final(self).hop_num == old(self).hop_num,
            final(self).status == old(self).status,
            final(self).bloomstatus@ == old(self).bloomstatus@ + nodes@,
    {
        let mut i: usize = 0;
        while i < nodes.len()
            invariant
                i <= nodes.len(),
                self.from == old(self).from,
                self.to == old(self).to,
                self.hop_num == old(self).hop_num,
                self.status == old(self).status,
                self.bloomstatus@ == old(self).bloomstatus@ + nodes@.subrange(0, i as int),
            decreases nodes.len() - i,
        {
            self.bloomstatus.push(nodes[i]);
            i += 1;
            proof {
                assert(old(self).bloomstatus@ + nodes@.subrange(0, i as int)
                    =~= old(self).bloomstatus@ + nodes@.subrange(0, i - 1 as int)
                        + seq![nodes@[i - 1 as int]]);
            }
        }
        proof {
            assert(nodes@.subrange(0, nodes@.len() as int) =~= nodes@);
        }
    }
}

} // verus!
