//! The event queue: a priority-ordered scheduler of pending deliveries,
//! keyed by logical timestamp. One queue simulates one message's spread.
//!
//! Two policies are fixed here for deterministic, reproducible behaviour:
//! a push whose key `(from, to, hop_num, status)` is already pending keeps
//! the earliest of the two timestamps instead of inserting a second entry,
//! and ties between equal timestamps are broken by insertion order.

use vstd::prelude::*;

use crate::message::{same_key, Message, MessageStatus, NodeId};

verus! {

/// Logical time. The queue's timestamp order is the simulator's clock.
pub type TimeStamp = u32;

/// One pending delivery: the message, its delivery timestamp, and the
/// insertion rank that breaks ties among equal timestamps.
#[derive(Debug)]
pub struct QueueEntry {
    pub message: Message,
    pub timestamp: TimeStamp,
    pub arrival: u64,
}

/// Use one queue to simulate one message's spread process.
///
/// Besides scheduling, the queue counts, per message kind, how many
/// distinct-key pushes it accepted (updates of an already-pending entry are
/// excluded); the counters are the trial's overhead report.
#[derive(Debug)]
pub struct MessageQueue {
    entries: Vec<QueueEntry>,
    next_arrival: u64,
    handled_messsage_count: u64,
    handled_hash_count: u64,
    handled_ask_for: u64,
}

impl MessageQueue {
    /// The pending entries, in insertion order.
    pub closed spec fn entries(&self) -> Seq<QueueEntry> {
        self.entries@
    }

    /// How many distinct-key `FullMessage` pushes have been accepted.
    pub closed spec fn full_count(&self) -> u64 {
        self.handled_messsage_count
    }

    /// How many distinct-key `OnlyHash` pushes have been accepted.
    pub closed spec fn hash_count(&self) -> u64 {
        self.handled_hash_count
    }

    /// How many distinct-key `AskForMessage` pushes have been accepted.
    pub closed spec fn ask_count(&self) -> u64 {
        self.handled_ask_for
    }

    /// The insertion rank the next accepted push will get.
    pub closed spec fn arrival_bound(&self) -> u64 {
        self.next_arrival
    }

    /// The counter that a push of the given kind increments.
    pub open spec fn kind_count(&self, s: MessageStatus) -> u64 {
        match s {
            MessageStatus::FullMessage => self.full_count(),
            MessageStatus::OnlyHash => self.hash_count(),
            MessageStatus::AskForMessage => self.ask_count(),
        }
    }

    /// Whether an entry with the same key as `m` is pending.
    pub open spec fn has_key(&self, m: Message) -> bool {
        exists|i: int|
            0 <= i < self.entries().len() && same_key(self.entries()[i].message, m)
    }

    /// Whether an entry with the given key fields is pending.
    pub open spec fn has_key_of(
        &self,
        from: NodeId,
        to: NodeId,
        hop_num: u32,
        status: MessageStatus,
    ) -> bool {
        exists|i: int|
            {
                &&& 0 <= i < self.entries().len()
                &&& (#[trigger] self.entries()[i]).message.from == from
                &&& self.entries()[i].message.to == to
                &&& self.entries()[i].message.hop_num == hop_num
                &&& self.entries()[i].message.status == status
            }
    }

    /// The queue never holds two entries with the same key, and insertion
    /// ranks are distinct and below the next rank to be handed out.
    pub open spec fn wf(&self) -> bool {
        &&& forall|i: int, j: int|
            0 <= i < j < self.entries().len() ==> !same_key(
                #[trigger] self.entries()[i].message,
                #[trigger] self.entries()[j].message,
            )
        &&& forall|i: int|
            0 <= i < self.entries().len() ==> (#[trigger] self.entries()[i].arrival)
                < self.arrival_bound()
        &&& forall|i: int, j: int|
            0 <= i < j < self.entries().len() ==> (#[trigger] self.entries()[i].arrival)
                != (#[trigger] self.entries()[j].arrival)
    }

    pub fn new() -> (q: MessageQueue)
        ensures
            q.wf(),
            q.entries() == Seq::<QueueEntry>::empty(),
            q.full_count() == 0,
            q.hash_count() == 0,
            q.ask_count() == 0,
            q.arrival_bound() == 0,
    {
        MessageQueue {
            entries: Vec::new(),
            next_arrival: 0,
            handled_messsage_count: 0,
            handled_hash_count: 0,
            handled_ask_for: 0,
        }
    }

    pub fn len(&self) -> (n: usize)
        ensures
            n == self.entries().len(),
    {
        self.entries.len()
    }

    pub fn handled_messsage_count(&self) -> (n: u64)
        ensures
            n == self.full_count(),
    {
        self.handled_messsage_count
    }

    pub fn handled_hash_count(&self) -> (n: u64)
        ensures
            n == self.hash_count(),
    {
        self.handled_hash_count
    }

    pub fn handled_ask_for(&self) -> (n: u64)
        ensures
            n == self.ask_count(),
    {
        self.handled_ask_for
    }

    /// Schedules a delivery. A push whose key is new inserts an entry and
    /// returns `true`; a push whose key is already pending keeps the
    /// earliest timestamp for that entry, counts nothing, and returns
    /// `false`.
    pub fn push(&mut self, message: Message, timestamp: TimeStamp) -> (inserted: bool)
        requires
            old(self).wf(),
            old(self).kind_count(message.status) < u64::MAX,
            old(self).arrival_bound() < u64::MAX,
        ensures
            final(self).wf(),
            inserted == !old(self).has_key(message),
            inserted ==> final(self).entries() == old(self).entries().push(
                (QueueEntry { message, timestamp, arrival: old(self).arrival_bound() }),
            ),
            !inserted ==> final(self).entries().len() == old(self).entries().len(),
            !inserted ==> forall|j: int|
                0 <= j < old(self).entries().len() ==> #[trigger] final(self).entries()[j]
                    == (if same_key(old(self).entries()[j].message, message) {
                    (QueueEntry {
                        message: old(self).entries()[j].message,
                        timestamp: (if timestamp < old(self).entries()[j].timestamp {
                            timestamp
                        } else {
                            old(self).entries()[j].timestamp
                        }),
                        arrival: old(self).entries()[j].arrival,
                    })
                } else {
                    old(self).entries()[j]
                }),
            final(self).full_count() as int == old(self).full_count() + (if inserted
                && message.status == MessageStatus::FullMessage {
                1int
            } else {
                0int
            }),
            final(self).hash_count() as int == old(self).hash_count() + (if inserted
                && message.status == MessageStatus::OnlyHash {
                1int
            } else {
                0int
            }),
            final(self).ask_count() as int == old(self).ask_count() + (if inserted
                && message.status == MessageStatus::AskForMessage {
                1int
            } else {
                0int
            }),
            final(self).arrival_bound() as int == old(self).arrival_bound() + (if inserted {
                1int
            } else {
                0int
            }),
    {
        let n = self.entries.len();
        let mut i: usize = 0;
        while i < n
            invariant
                self == old(self),
                old(self).wf(),
                n == self.entries().len(),
                i <= n,
                forall|j: int| 0 <= j < i ==> !same_key(#[trigger] self.entries()[j].message, message),
            decreases n - i,
        {
            let cand = &self.entries[i];
            if cand.message.from == message.from && cand.message.to == message.to
                && cand.message.hop_num == message.hop_num && cand.message.status
                == message.status {
                let ghost oldq = self.entries@;
                let ghost ii = i as int;
                proof {
                    assert(same_key(oldq[ii].message, message));
                    assert(old(self).has_key(message));
                }
                let new_ts = if timestamp < cand.timestamp {
                    timestamp
                } else {
                    cand.timestamp
                };
                let ent = self.entries.remove(i);
                let updated = QueueEntry { message: ent.message, timestamp: new_ts, arrival: ent.arrival };
                self.entries.insert(i, updated);
                proof {
                    assert(self.entries@ =~= oldq.update(ii, (QueueEntry {
                        message: oldq[ii].message,
                        timestamp: (if timestamp < oldq[ii].timestamp {
                            timestamp
                        } else {
                            oldq[ii].timestamp
                        }),
                        arrival: oldq[ii].arrival,
                    })));
                    assert forall|j: int| 0 <= j < oldq.len() implies #[trigger] self.entries@[j].message
                        == oldq[j].message && self.entries@[j].arrival == oldq[j].arrival by {}
                    assert forall|j: int|
                        0 <= j < oldq.len() implies #[trigger] self.entries@[j] == (
                    if same_key(oldq[j].message, message) {
                        (QueueEntry {
                            message: oldq[j].message,
                            timestamp: (if timestamp < oldq[j].timestamp {
                                timestamp
                            } else {
                                oldq[j].timestamp
                            }),
                            arrival: oldq[j].arrival,
                        })
                    } else {
                        oldq[j]
                    }) by {
                        if j != ii && same_key(oldq[j].message, message) {
                            if j < ii {
                                assert(!same_key(oldq[j].message, oldq[ii].message));
                            } else {
                                assert(!same_key(oldq[ii].message, oldq[j].message));
                            }
                        }
                    }
                }
                return false;
            }
            i += 1;
        }
        match message.status {
            MessageStatus::FullMessage => {
                self.handled_messsage_count = self.handled_messsage_count + 1;
            },
            MessageStatus::OnlyHash => {
                self.handled_hash_count = self.handled_hash_count + 1;
            },
            MessageStatus::AskForMessage => {
                self.handled_ask_for = self.handled_ask_for + 1;
            },
        }
        let arrival = self.next_arrival;
        self.next_arrival = self.next_arrival + 1;
        self.entries.push(QueueEntry { message, timestamp, arrival });
        true
    }

    /// Removes and returns the pending entry with the smallest timestamp;
    /// ties between equal timestamps go to the entry inserted first.
    pub fn pop_front(&mut self) -> (r: Option<(Message, TimeStamp)>)
        requires
            old(self).wf(),
        ensures
            final(self).wf(),
            final(self).full_count() == old(self).full_count(),
            final(self).hash_count() == old(self).hash_count(),
            final(self).ask_count() == old(self).ask_count(),
            final(self).arrival_bound() == old(self).arrival_bound(),
            old(self).entries().len() == 0 ==> r is None && final(self).entries() == old(
                self,
            ).entries(),
            old(self).entries().len() > 0 ==> (r matches Some(pair) && (exists|i: int|
                {
                    &&& 0 <= i < old(self).entries().len()
                    &&& #[trigger] old(self).entries()[i].message == pair.0
                    &&& old(self).entries()[i].timestamp == pair.1
                    &&& final(self).entries() == old(self).entries().remove(i)
                    &&& forall|j: int|
                        0 <= j < old(self).entries().len() ==> pair.1 <= #[trigger] old(
                            self,
                        ).entries()[j].timestamp
                    &&& forall|j: int|
                        0 <= j < old(self).entries().len() && #[trigger] old(
                            self,
                        ).entries()[j].timestamp == pair.1 ==> old(self).entries()[i].arrival
                            <= old(self).entries()[j].arrival
                })),
    {
        let n = self.entries.len();
        if n == 0 {
            return None;
        }
        let mut best: usize = 0;
        let mut i: usize = 1;
        while i < n
            invariant
                self == old(self),
                n == self.entries().len(),
                best < i <= n,
                forall|j: int|
                    0 <= j < i ==> self.entries()[best as int].timestamp <= #[trigger] self.entries()[j].timestamp,
                forall|j: int|
                    0 <= j < i && #[trigger] self.entries()[j].timestamp == self.entries()[best as int].timestamp
                        ==> self.entries()[best as int].arrival <= self.entries()[j].arrival,
            decreases n - i,
        {
            let better = self.entries[i].timestamp < self.entries[best].timestamp || (
            self.entries[i].timestamp == self.entries[best].timestamp && self.entries[i].arrival
                < self.entries[best].arrival);
            if better {
                best = i;
            }
            i += 1;
        }
        let ghost oldq = self.entries@;
        let ghost bi = best as int;
        let ent = self.entries.remove(best);
        proof {
            assert forall|x: int, y: int| 0 <= x < y < self.entries@.len() implies !same_key(
                #[trigger] self.entries@[x].message,
                #[trigger] self.entries@[y].message,
            ) && (#[trigger] self.entries@[x].arrival) != (#[trigger] self.entries@[y].arrival) by {
                let ox = if x < bi {
                    x
                } else {
                    x + 1
                };
                let oy = if y < bi {
                    y
                } else {
                    y + 1
                };
                assert(self.entries@[x] == oldq[ox]);
                assert(self.entries@[y] == oldq[oy]);
            }
        }
        Some((ent.message, ent.timestamp))
    }

    /// Empties the queue and zeroes the counters and the insertion ranks:
    /// no residual ordering state survives a reset.
    pub fn reset_message_queue(&mut self)
        ensures
            final(self).wf(),
            final(self).entries() == Seq::<QueueEntry>::empty(),
            final(self).full_count() == 0,
            final(self).hash_count() == 0,
            final(self).ask_count() == 0,
            final(self).arrival_bound() == 0,
    {
        self.entries.clear();
        self.next_arrival = 0;
        self.handled_hash_count = 0;
        self.handled_messsage_count = 0;
        self.handled_ask_for = 0;
    }
}

} // verus!
