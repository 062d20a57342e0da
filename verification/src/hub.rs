//! The relay hub: who is connected, which accepted submissions wait to be
//! persisted, and what is sent to whom.
//!
//! The hub does no input or output. Its caller reports what happened
//! (a connection opened, a text arrived, the sink took a write or failed)
//! and gets back what to send. Submissions are persisted one at a time, in
//! the order in which they were accepted; the acknowledgement of one is
//! broadcast when its write has succeeded.

use crate::logsheet::{encode_logsheet, SinkUnavailable};
use crate::message::{handle_submission, RelayMessage};
pub use crate::model::ConnectionState;
use crate::model::{
    broadcast, lemma_step_preserves_wf, state_in, without, ConnectionView, DeliveryView, HubEvent,
    HubState, PendingView,
};
use crate::record::{record_views, ContactRecord};
use std::collections::VecDeque;
use vstd::prelude::*;

verus! {

#[derive(Clone, Copy, Debug)]
struct Connection {
    id: u64,
    state: ConnectionState,
}

impl View for Connection {
    type V = ConnectionView;

    closed spec fn view(&self) -> ConnectionView {
        ConnectionView { id: self.id as nat, state: self.state }
    }
}

#[derive(Debug)]
struct Pending {
    sequence: u64,
    submitter: u64,
    record: ContactRecord,
}

impl View for Pending {
    type V = PendingView;

    closed spec fn view(&self) -> PendingView {
        PendingView {
            sequence: self.sequence as nat,
            submitter: self.submitter as nat,
            record: self.record@,
        }
    }
}

/// A message for one connection.
#[derive(Debug, PartialEq, Eq)]
pub struct Delivery {
    pub to: u64,
    pub message: RelayMessage,
}

impl View for Delivery {
    type V = DeliveryView;

    open spec fn view(&self) -> DeliveryView {
        DeliveryView { to: self.to as nat, message: self.message@ }
    }
}

/// What each delivery of a sequence holds.
pub open spec fn delivery_views(deliveries: Seq<Delivery>) -> Seq<DeliveryView> {
    Seq::new(deliveries.len(), |i: int| deliveries[i]@)
}

/// The relay hub.
#[derive(Debug)]
pub struct RelayHub {
    connections: Vec<Connection>,
    queue: VecDeque<Pending>,
    next_connection: u64,
    next_sequence: u64,
}

impl View for RelayHub {
    type V = HubState;

    closed spec fn view(&self) -> HubState {
        HubState {
            connections: Seq::new(self.connections@.len(), |i: int| self.connections@[i]@),
            queue: Seq::new(self.queue@.len(), |i: int| self.queue@[i]@),
            next_connection: self.next_connection as nat,
            next_sequence: self.next_sequence as nat,
        }
    }
}

impl RelayHub {
    /// A hub without connections or submissions.
    pub fn new() -> (hub: RelayHub)
        ensures
            hub@ == HubState::initial(),
            hub@.wf(),
    {
        let hub = RelayHub {
            connections: Vec::new(),
            queue: VecDeque::new(),
            next_connection: 0,
            next_sequence: 0,
        };
        assert(hub@.connections =~= Seq::empty());
        assert(hub@.queue =~= Seq::empty());
        hub
    }

    /// Whether the hub can still hand out a connection id.
    pub fn can_connect(&self) -> (room: bool)
        ensures
            room == (self@.next_connection < u64::MAX),
    {
        self.next_connection < u64::MAX
    }

    /// Whether the hub can still hand out a sequence id.
    pub fn can_accept(&self) -> (room: bool)
        ensures
            room == (self@.next_sequence < u64::MAX),
    {
        self.next_sequence < u64::MAX
    }

    /// Registers a new connection and returns its id. The connection is
    /// `Connecting`.
    pub fn connect(&mut self) -> (id: u64)
        requires
            old(self)@.next_connection < u64::MAX,
        ensures
            id == old(self)@.next_connection,
            final(self)@ == old(self)@.connect(),
            old(self)@.wf() ==> final(self)@.wf(),
    {
        proof {
            if old(self)@.wf() {
                lemma_step_preserves_wf(old(self)@, HubEvent::Connect);
            }
        }
        let id = self.next_connection;
        self.next_connection = id + 1;
        self.connections.push(Connection { id, state: ConnectionState::Connecting });
        assert(self@.connections =~= old(self)@.connect().connections);
        id
    }

    /// The state of connection `id`; `Closed` if the hub does not know it.
    pub fn state_of(&self, id: u64) -> (state: ConnectionState)
        ensures
            state == self@.state_of(id as nat),
    {
        let ghost all = self@.connections;
        let mut i: usize = self.connections.len();
        proof {
            assert(all.take(i as int) =~= all);
        }
        while i > 0
            invariant
                i <= self.connections.len(),
                all == self@.connections,
                all.len() == self.connections.len(),
                state_in(all, id as nat) == state_in(all.take(i as int), id as nat),
            decreases i,
        {
            let ghost upto = all.take(i as int);
            proof {
                assert(upto.drop_last() =~= all.take(i - 1));
            }
            if self.connections[i - 1].id == id {
                return self.connections[i - 1].state;
            }
            i = i - 1;
        }
        ConnectionState::Closed
    }

    /// Marks connection `id` as open, if it was connecting.
    pub fn open(&mut self, id: u64)
        ensures
            final(self)@ == old(self)@.open(id as nat),
            old(self)@.wf() ==> final(self)@.wf(),
    {
        let ghost before = self@;
        proof {
            if before.wf() {
                lemma_step_preserves_wf(before, HubEvent::Open(id as nat));
            }
        }
        let n = self.connections.len();
        let mut i: usize = 0;
        while i < n
            invariant
                i <= n == self.connections.len(),
                before == old(self)@,
                before.connections.len() == n,
                self.queue == old(self).queue,
                self.next_connection == old(self).next_connection,
                self.next_sequence == old(self).next_sequence,
                forall|k: int| 0 <= k < i ==> (#[trigger] self.connections@[k])@
                    == before.connections[k].opened(id as nat),
                forall|k: int| i <= k < n ==> (#[trigger] self.connections@[k])@
                    == before.connections[k],
            decreases n - i,
        {
            let found = self.connections[i];
            if found.id == id && found.state == ConnectionState::Connecting {
                self.connections.set(i, Connection { id, state: ConnectionState::Open });
            }
            i = i + 1;
        }
        assert(self@.connections =~= before.open(id as nat).connections);
    }

    /// Marks connection `id` as closing, if it was connecting or open.
    pub fn close(&mut self, id: u64)
        ensures
            final(self)@ == old(self)@.close(id as nat),
            old(self)@.wf() ==> final(self)@.wf(),
    {
        let ghost before = self@;
        proof {
            if before.wf() {
                lemma_step_preserves_wf(before, HubEvent::Close(id as nat));
            }
        }
        let n = self.connections.len();
        let mut i: usize = 0;
        while i < n
            invariant
                i <= n == self.connections.len(),
                before == old(self)@,
                before.connections.len() == n,
                self.queue == old(self).queue,
                self.next_connection == old(self).next_connection,
                self.next_sequence == old(self).next_sequence,
                forall|k: int| 0 <= k < i ==> (#[trigger] self.connections@[k])@
                    == before.connections[k].closing(id as nat),
                forall|k: int| i <= k < n ==> (#[trigger] self.connections@[k])@
                    == before.connections[k],
            decreases n - i,
        {
            let found = self.connections[i];
            if found.id == id && (found.state == ConnectionState::Connecting || found.state
                == ConnectionState::Open) {
                self.connections.set(i, Connection { id, state: ConnectionState::Closing });
            }
            i = i + 1;
        }
        assert(self@.connections =~= before.close(id as nat).connections);
    }

    /// Forgets connection `id`. What it had submitted stays queued.
    pub fn disconnect(&mut self, id: u64)
        ensures
            final(self)@ == old(self)@.disconnect(id as nat),
            old(self)@.wf() ==> final(self)@.wf(),
    {
        let ghost before = self@;
        proof {
            if before.wf() {
                lemma_step_preserves_wf(before, HubEvent::Disconnect(id as nat));
            }
        }
        let n = self.connections.len();
        let mut kept: Vec<Connection> = Vec::new();
        let mut i: usize = 0;
        while i < n
            invariant
                i <= n == self.connections.len(),
                before == self@,
                before.connections.len() == n,
                Seq::new(kept@.len(), |k: int| kept@[k]@) == without(
                    before.connections.take(i as int),
                    id as nat,
                ),
            decreases n - i,
        {
            proof {
                let upto = before.connections.take(i + 1);
                assert(upto.drop_last() =~= before.connections.take(i as int));
            }
            let found = self.connections[i];
            if found.id != id {
                kept.push(found);
            }
            i = i + 1;
        }
        proof {
            assert(before.connections.take(n as int) =~= before.connections);
        }
        self.connections = kept;
    }

    /// Takes a text that arrived from connection `from` and returns what
    /// to send: nothing, or the error for the sender.
    pub fn receive(&mut self, from: u64, raw: &str) -> (out: Vec<Delivery>)
        requires
            old(self)@.next_sequence < u64::MAX,
        ensures
            (final(self)@, delivery_views(out@)) == old(self)@.receive(from as nat, raw@),
            old(self)@.wf() ==> final(self)@.wf(),
    {
        let ghost before = self@;
        proof {
            if before.wf() {
                lemma_step_preserves_wf(before, HubEvent::Receive(from as nat, raw@));
            }
        }
        let mut out: Vec<Delivery> = Vec::new();
        if self.state_of(from) != ConnectionState::Open {
            return out;
        }
        match handle_submission(raw) {
            RelayMessage::Submit(record) => {
                let sequence = self.next_sequence;
                self.next_sequence = sequence + 1;
                self.queue.push_back(Pending { sequence, submitter: from, record });
                assert(self@.queue =~= before.receive(from as nat, raw@).0.queue);
            },
            other => {
                out.push(Delivery { to: from, message: other });
            },
        }
        out
    }

    /// The number of accepted submissions that wait to be persisted.
    pub fn pending(&self) -> (count: usize)
        ensures
            count == self@.queue.len(),
    {
        self.queue.len()
    }

    /// The text to append to the sink next: one bracket for the oldest
    /// queued submission. `None` when nothing is queued.
    pub fn next_write(&self) -> (text: Option<String>)
        ensures
            match text {
                Some(t) => self@.next_write() == Some(t@),
                None => self@.next_write() is None,
            },
    {
        if self.queue.len() == 0 {
            return None;
        }
        let mut batch: Vec<ContactRecord> = Vec::new();
        batch.push(self.queue[0].record.clone());
        proof {
            assert(record_views(batch@) =~= seq![self@.queue[0].record]);
        }
        Some(encode_logsheet(&batch))
    }

    /// Takes the outcome of the write for the oldest queued submission and
    /// returns what to send: its acknowledgement for every open
    /// connection, or the error for its submitter.
    pub fn complete(&mut self, outcome: Result<(), SinkUnavailable>) -> (out: Vec<Delivery>)
        ensures
            (final(self)@, delivery_views(out@)) == old(self)@.complete(outcome is Ok),
            old(self)@.wf() ==> final(self)@.wf(),
    {
        let ghost before = self@;
        proof {
            if before.wf() {
                lemma_step_preserves_wf(before, HubEvent::Persisted(outcome is Ok));
            }
        }
        let mut out: Vec<Delivery> = Vec::new();
        match self.queue.pop_front() {
            None => {},
            Some(head) => {
                assert(self@.queue =~= before.queue.drop_first());
                match outcome {
                    Ok(_) => {
                        out = self.broadcast(RelayMessage::Ack(head.sequence));
                    },
                    Err(error) => {
                        if self.state_of(head.submitter) == ConnectionState::Open {
                            out.push(
                                Delivery {
                                    to: head.submitter,
                                    message: RelayMessage::Error(error.reason()),
                                },
                            );
                        }
                    },
                }
            },
        }
        out
    }

    /// One delivery of `message` for each open connection, in the order of
    /// the connections.
    fn broadcast(&self, message: RelayMessage) -> (out: Vec<Delivery>)
        ensures
            delivery_views(out@) == broadcast(self@.connections, message@),
    {
        let ghost all = self@.connections;
        let mut out: Vec<Delivery> = Vec::new();
        let mut i: usize = 0;
        while i < self.connections.len()
            invariant
                i <= self.connections.len(),
                all == self@.connections,
                all.len() == self.connections.len(),
                delivery_views(out@) == broadcast(all.take(i as int), message@),
            decreases self.connections.len() - i,
        {
            let ghost upto = all.take(i + 1);
            let ghost sent = delivery_views(out@);
            proof {
                assert(upto.drop_last() =~= all.take(i as int));
            }
            if self.connections[i].state == ConnectionState::Open {
                out.push(Delivery { to: self.connections[i].id, message: message.clone() });
                proof {
                    assert(delivery_views(out@) =~= sent.push(
                        DeliveryView { to: self.connections@[i as int].id as nat, message: message@ },
                    ));
                }
            }
            i = i + 1;
        }
        proof {
            assert(all.take(i as int) =~= all);
        }
        out
    }
}

} // verus!
