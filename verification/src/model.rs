//! The relay hub as a state machine over mathematical values: its states,
//! what each event does to them, and what holds of every run.

use crate::logsheet::{logsheet_text, SinkUnavailable};
use crate::message::{submission_outcome, MessageView};
use crate::record::RecordView;
use vstd::prelude::*;

verus! {

/// The life of a connection. A connection that the hub does not know is
/// `Closed`.
#[derive(Clone, Copy, Debug, PartialEq, Eq, Structural)]
pub enum ConnectionState {
    Connecting,
    Open,
    Closing,
    Closed,
}

/// A connection as the hub's model sees it.
pub struct ConnectionView {
    pub id: nat,
    pub state: ConnectionState,
}

/// An accepted submission that waits to be persisted.
pub struct PendingView {
    pub sequence: nat,
    pub submitter: nat,
    pub record: RecordView,
}

/// A message for one connection.
pub struct DeliveryView {
    pub to: nat,
    pub message: MessageView,
}

/// The hub's state, as mathematical values: the connections in the order
/// in which they connected, the queue of accepted submissions with the
/// oldest first, and the ids that the next connection and the next
/// accepted submission get.
pub struct HubState {
    pub connections: Seq<ConnectionView>,
    pub queue: Seq<PendingView>,
    pub next_connection: nat,
    pub next_sequence: nat,
}

impl ConnectionView {
    /// The connection after the handshake of connection `id` is done.
    pub open spec fn opened(self, id: nat) -> ConnectionView {
        if self.id == id && self.state == ConnectionState::Connecting {
            ConnectionView { id: self.id, state: ConnectionState::Open }
        } else {
            self
        }
    }

    /// The connection after connection `id` has begun to close.
    pub open spec fn closing(self, id: nat) -> ConnectionView {
        if self.id == id && (self.state == ConnectionState::Connecting || self.state
            == ConnectionState::Open) {
            ConnectionView { id: self.id, state: ConnectionState::Closing }
        } else {
            self
        }
    }
}

/// The state of connection `id` among `connections`.
pub open spec fn state_in(connections: Seq<ConnectionView>, id: nat) -> ConnectionState
    decreases connections.len(),
{
    if connections.len() == 0 {
        ConnectionState::Closed
    } else if connections.last().id == id {
        connections.last().state
    } else {
        state_in(connections.drop_last(), id)
    }
}

/// The connections without connection `id`.
pub open spec fn without(connections: Seq<ConnectionView>, id: nat) -> Seq<ConnectionView>
    decreases connections.len(),
{
    if connections.len() == 0 {
        Seq::empty()
    } else if connections.last().id == id {
        without(connections.drop_last(), id)
    } else {
        without(connections.drop_last(), id).push(connections.last())
    }
}

/// One delivery of `message` to each open connection, in the order of the
/// connections.
pub open spec fn broadcast(connections: Seq<ConnectionView>, message: MessageView) -> Seq<
    DeliveryView,
>
    decreases connections.len(),
{
    if connections.len() == 0 {
        Seq::empty()
    } else if connections.last().state == ConnectionState::Open {
        broadcast(connections.drop_last(), message).push(
            DeliveryView { to: connections.last().id, message },
        )
    } else {
        broadcast(connections.drop_last(), message)
    }
}

impl HubState {
    /// The hub before anything has happened.
    pub open spec fn initial() -> HubState {
        HubState {
            connections: Seq::empty(),
            queue: Seq::empty(),
            next_connection: 0,
            next_sequence: 0,
        }
    }

    /// The state of connection `id`.
    pub open spec fn state_of(self, id: nat) -> ConnectionState {
        state_in(self.connections, id)
    }

    /// A new connection arrives; it gets the next id and is `Connecting`.
    pub open spec fn connect(self) -> HubState {
        HubState {
            connections: self.connections.push(
                ConnectionView { id: self.next_connection, state: ConnectionState::Connecting },
            ),
            next_connection: self.next_connection + 1,
            ..self
        }
    }

    /// The handshake of connection `id` is done: from `Connecting` it
    /// becomes `Open`.
    pub open spec fn open(self, id: nat) -> HubState {
        HubState {
            connections: Seq::new(self.connections.len(), |i: int| self.connections[i].opened(id)),
            ..self
        }
    }

    /// Connection `id` begins to close: from `Connecting` or `Open` it
    /// becomes `Closing`.
    pub open spec fn close(self, id: nat) -> HubState {
        HubState {
            connections: Seq::new(
                self.connections.len(),
                |i: int| self.connections[i].closing(id),
            ),
            ..self
        }
    }

    /// Connection `id` is gone: the hub forgets it. What it had submitted
    /// stays queued.
    pub open spec fn disconnect(self, id: nat) -> HubState {
        HubState { connections: without(self.connections, id), ..self }
    }

    /// A text arrives from connection `from`. From a connection that is
    /// not open it is ignored. A valid submission is queued under the next
    /// sequence id and nothing is sent yet. For anything else the error
    /// goes to the sender alone, and nothing is queued.
    pub open spec fn receive(self, from: nat, raw: Seq<char>) -> (HubState, Seq<DeliveryView>) {
        if self.state_of(from) != ConnectionState::Open {
            (self, Seq::empty())
        } else {
            match submission_outcome(raw) {
                MessageView::Submit(record) => (
                    HubState {
                        queue: self.queue.push(
                            PendingView { sequence: self.next_sequence, submitter: from, record },
                        ),
                        next_sequence: self.next_sequence + 1,
                        ..self
                    },
                    Seq::empty(),
                ),
                other => (self, seq![DeliveryView { to: from, message: other }]),
            }
        }
    }

    /// The text that the sink is to take next: one bracket for the oldest
    /// queued submission.
    pub open spec fn next_write(self) -> Option<Seq<char>> {
        if self.queue.len() == 0 {
            None
        } else {
            Some(logsheet_text(seq![self.queue[0].record]))
        }
    }

    /// The write for the oldest queued submission has ended. The
    /// submission leaves the queue. If the write succeeded, its
    /// acknowledgement goes to every open connection; if not, the error
    /// goes to the submitter, if that connection is still open.
    pub open spec fn complete(self, persisted: bool) -> (HubState, Seq<DeliveryView>) {
        if self.queue.len() == 0 {
            (self, Seq::empty())
        } else {
            let head = self.queue[0];
            let after = HubState { queue: self.queue.drop_first(), ..self };
            if persisted {
                (after, broadcast(self.connections, MessageView::Ack(head.sequence)))
            } else if self.state_of(head.submitter) == ConnectionState::Open {
                (
                    after,
                    seq![
                        DeliveryView {
                            to: head.submitter,
                            message: MessageView::Error(SinkUnavailable::reason_text()),
                        },
                    ],
                )
            } else {
                (after, Seq::empty())
            }
        }
    }
}

/// What can happen to a hub.
pub enum HubEvent {
    /// A new connection arrives.
    Connect,
    /// The handshake of a connection is done.
    Open(nat),
    /// A connection begins to close.
    Close(nat),
    /// A connection is gone.
    Disconnect(nat),
    /// A text arrives from a connection.
    Receive(nat, Seq<char>),
    /// The write for the oldest queued submission has ended, well or not.
    Persisted(bool),
}

impl HubState {
    /// The hub after `event`, and what it sends.
    pub open spec fn step(self, event: HubEvent) -> (HubState, Seq<DeliveryView>) {
        match event {
            HubEvent::Connect => (self.connect(), Seq::empty()),
            HubEvent::Open(id) => (self.open(id), Seq::empty()),
            HubEvent::Close(id) => (self.close(id), Seq::empty()),
            HubEvent::Disconnect(id) => (self.disconnect(id), Seq::empty()),
            HubEvent::Receive(from, raw) => self.receive(from, raw),
            HubEvent::Persisted(persisted) => self.complete(persisted),
        }
    }

    /// The sequence id of the oldest queued submission, or of the next one
    /// to be accepted if none is queued.
    pub open spec fn oldest(self) -> int {
        self.next_sequence - self.queue.len()
    }

    /// What holds of every state that a hub can reach: connection ids
    /// rise along the connections and stay below the next one; the queue
    /// holds consecutive sequence ids up to the next one; every queued
    /// record is valid.
    pub open spec fn wf(self) -> bool {
        &&& forall|i: int, j: int|
            0 <= i < j < self.connections.len() ==> (#[trigger] self.connections[i]).id < (
            #[trigger] self.connections[j]).id
        &&& forall|i: int|
            0 <= i < self.connections.len() ==> (#[trigger] self.connections[i]).id
                < self.next_connection
        &&& self.queue.len() <= self.next_sequence
        &&& forall|i: int|
            0 <= i < self.queue.len() ==> (#[trigger] self.queue[i]).sequence == self.oldest() + i
        &&& forall|i: int| 0 <= i < self.queue.len() ==> (#[trigger] self.queue[i]).record.valid()
    }
}

/// The hub after all of `events`, in order, and everything it sent.
pub open spec fn run(start: HubState, events: Seq<HubEvent>) -> (HubState, Seq<DeliveryView>)
    decreases events.len(),
{
    if events.len() == 0 {
        (start, Seq::empty())
    } else {
        let (middle, sent) = run(start, events.drop_last());
        let (end, more) = middle.step(events.last());
        (end, sent + more)
    }
}

/// The sequence ids of the acknowledgements among `sent` that went to
/// connection `id`, in the order in which they were sent.
pub open spec fn acks_to(sent: Seq<DeliveryView>, id: nat) -> Seq<nat>
    decreases sent.len(),
{
    if sent.len() == 0 {
        Seq::empty()
    } else {
        let earlier = acks_to(sent.drop_last(), id);
        match sent.last().message {
            MessageView::Ack(sequence) => if sent.last().to == id {
                earlier.push(sequence)
            } else {
                earlier
            },
            _ => earlier,
        }
    }
}

/// The sequence ids of the submissions whose write succeeded while
/// connection `id` was open, in the order in which the writes ended.
pub open spec fn persisted_for(start: HubState, events: Seq<HubEvent>, id: nat) -> Seq<nat>
    decreases events.len(),
{
    if events.len() == 0 {
        Seq::empty()
    } else {
        let earlier = persisted_for(start, events.drop_last(), id);
        let middle = run(start, events.drop_last()).0;
        match events.last() {
            HubEvent::Persisted(persisted) => if persisted && middle.queue.len() > 0
                && middle.state_of(id) == ConnectionState::Open {
                earlier.push(middle.queue[0].sequence)
            } else {
                earlier
            },
            _ => earlier,
        }
    }
}

/// The records that wait in the queue, oldest first.
pub open spec fn queued_records(state: HubState) -> Seq<RecordView> {
    Seq::new(state.queue.len(), |i: int| state.queue[i].record)
}

/// The records of the submissions that were accepted during a run, in the
/// order of acceptance.
pub open spec fn accepted_in(start: HubState, events: Seq<HubEvent>) -> Seq<RecordView>
    decreases events.len(),
{
    if events.len() == 0 {
        Seq::empty()
    } else {
        let earlier = accepted_in(start, events.drop_last());
        let middle = run(start, events.drop_last()).0;
        match events.last() {
            HubEvent::Receive(from, raw) => match submission_outcome(raw) {
                MessageView::Submit(record) => if middle.state_of(from) == ConnectionState::Open {
                    earlier.push(record)
                } else {
                    earlier
                },
                _ => earlier,
            },
            _ => earlier,
        }
    }
}

/// The records whose write ended during a run, well or not, in the order
/// in which the writes ended.
pub open spec fn handed_to_sink(start: HubState, events: Seq<HubEvent>) -> Seq<RecordView>
    decreases events.len(),
{
    if events.len() == 0 {
        Seq::empty()
    } else {
        let earlier = handed_to_sink(start, events.drop_last());
        let middle = run(start, events.drop_last()).0;
        match events.last() {
            HubEvent::Persisted(_) => if middle.queue.len() > 0 {
                earlier.push(middle.queue[0].record)
            } else {
                earlier
            },
            _ => earlier,
        }
    }
}

/// A record that a submission is accepted with is valid.
pub proof fn lemma_accepted_record_valid(raw: Seq<char>)
    ensures
        submission_outcome(raw) matches MessageView::Submit(record) ==> record.valid(),
{
}

/// A connection whose id is not among the connections is `Closed`, and a
/// broadcast does not reach it.
pub proof fn lemma_absent_connection(connections: Seq<ConnectionView>, id: nat, message: MessageView)
    requires
        forall|i: int| 0 <= i < connections.len() ==> (#[trigger] connections[i]).id != id,
    ensures
        state_in(connections, id) == ConnectionState::Closed,
        acks_to(broadcast(connections, message), id) == Seq::<nat>::empty(),
    decreases connections.len(),
{
    if connections.len() > 0 {
        let front = connections.drop_last();
        assert forall|i: int| 0 <= i < front.len() implies (#[trigger] front[i]).id != id by {}
        lemma_absent_connection(front, id, message);
        if connections.last().state == ConnectionState::Open {
            let sent = broadcast(connections, message);
            assert(sent.drop_last() =~= broadcast(front, message));
        }
    }
}

/// Where no two connections share an id, the broadcast of an
/// acknowledgement reaches a connection once if it is open, and not at all
/// if it is not.
pub proof fn lemma_broadcast_ack(connections: Seq<ConnectionView>, sequence: nat, id: nat)
    requires
        forall|i: int, j: int|
            0 <= i < j < connections.len() ==> (#[trigger] connections[i]).id < (
            #[trigger] connections[j]).id,
    ensures
        acks_to(broadcast(connections, MessageView::Ack(sequence)), id) == if state_in(
            connections,
            id,
        ) == ConnectionState::Open {
            seq![sequence]
        } else {
            Seq::<nat>::empty()
        },
    decreases connections.len(),
{
    let message = MessageView::Ack(sequence);
    if connections.len() > 0 {
        let front = connections.drop_last();
        let last = connections.last();
        let sent = broadcast(connections, message);
        assert forall|i: int, j: int| 0 <= i < j < front.len() implies (#[trigger] front[i]).id < (
        #[trigger] front[j]).id by {}
        if last.id == id {
            assert forall|i: int| 0 <= i < front.len() implies (#[trigger] front[i]).id != id by {}
            lemma_absent_connection(front, id, message);
        } else {
            lemma_broadcast_ack(front, sequence, id);
        }
        if last.state == ConnectionState::Open {
            assert(sent.drop_last() =~= broadcast(front, message));
        }
    }
}

/// The acknowledgements of two runs of deliveries, one after the other.
pub proof fn lemma_acks_concat(a: Seq<DeliveryView>, b: Seq<DeliveryView>, id: nat)
    ensures
        acks_to(a + b, id) == acks_to(a, id) + acks_to(b, id),
    decreases b.len(),
{
    if b.len() > 0 {
        lemma_acks_concat(a, b.drop_last(), id);
        assert((a + b).drop_last() =~= a + b.drop_last());
    }
}

/// A single delivery of an error acknowledges nothing.
pub proof fn lemma_single_error(sent: Seq<DeliveryView>, id: nat)
    requires
        sent.len() == 1,
        sent[0].message is Error,
    ensures
        acks_to(sent, id) == Seq::<nat>::empty(),
{
    assert(acks_to(sent.drop_last(), id) == Seq::<nat>::empty());
}

/// Removing a connection keeps the others in their order.
pub proof fn lemma_without_keeps_order(connections: Seq<ConnectionView>, id: nat, bound: nat)
    requires
        forall|i: int, j: int|
            0 <= i < j < connections.len() ==> (#[trigger] connections[i]).id < (
            #[trigger] connections[j]).id,
        forall|i: int| 0 <= i < connections.len() ==> (#[trigger] connections[i]).id < bound,
    ensures
        forall|i: int, j: int|
            0 <= i < j < without(connections, id).len() ==> (#[trigger] without(
                connections,
                id,
            )[i]).id < (#[trigger] without(connections, id)[j]).id,
        forall|i: int|
            0 <= i < without(connections, id).len() ==> (#[trigger] without(connections, id)[i]).id
                < bound,
        connections.len() > 0 ==> forall|i: int|
            0 <= i < without(connections, id).len() ==> (#[trigger] without(connections, id)[i]).id
                <= connections.last().id,
    decreases connections.len(),
{
    if connections.len() > 0 {
        let front = connections.drop_last();
        let last = connections.last();
        assert forall|i: int, j: int| 0 <= i < j < front.len() implies (#[trigger] front[i]).id < (
        #[trigger] front[j]).id by {}
        assert forall|i: int| 0 <= i < front.len() implies (#[trigger] front[i]).id < bound by {}
        lemma_without_keeps_order(front, id, bound);
        let kept = without(front, id);
        assert forall|i: int| 0 <= i < kept.len() implies (#[trigger] kept[i]).id < last.id by {}
    }
}

/// Every step leads from a well-formed state to a well-formed state.
pub proof fn lemma_step_preserves_wf(state: HubState, event: HubEvent)
    requires
        state.wf(),
    ensures
        state.step(event).0.wf(),
{
    let after = state.step(event).0;
    match event {
        HubEvent::Connect => {},
        HubEvent::Open(id) => {},
        HubEvent::Close(id) => {},
        HubEvent::Disconnect(id) => {
            lemma_without_keeps_order(state.connections, id, state.next_connection);
        },
        HubEvent::Receive(from, raw) => {
            lemma_accepted_record_valid(raw);
        },
        HubEvent::Persisted(persisted) => {
            if state.queue.len() > 0 {
                assert forall|i: int| 0 <= i < after.queue.len() implies (
                #[trigger] after.queue[i]).sequence == after.oldest() + i by {}
                assert forall|i: int| 0 <= i < after.queue.len() implies (
                #[trigger] after.queue[i]).record.valid() by {}
            }
        },
    }
}

/// Every run leads from a well-formed state to a well-formed state. The
/// initial state is well-formed, so every state that a hub reaches is: in
/// particular, no record that is not valid is ever queued for the sink.
pub proof fn run_preserves_wf(start: HubState, events: Seq<HubEvent>)
    requires
        start.wf(),
    ensures
        run(start, events).0.wf(),
        HubState::initial().wf(),
    decreases events.len(),
{
    if events.len() > 0 {
        run_preserves_wf(start, events.drop_last());
        lemma_step_preserves_wf(run(start, events.drop_last()).0, events.last());
    }
}

/// A text that is not accepted as a submission changes nothing in the
/// hub: nothing is queued for the sink, and whatever is sent goes to the
/// sender alone.
pub proof fn rejected_submission_is_not_queued(state: HubState, from: nat, raw: Seq<char>)
    requires
        !(submission_outcome(raw) is Submit),
    ensures
        state.receive(from, raw).0 == state,
        forall|i: int|
            0 <= i < state.receive(from, raw).1.len() ==> (#[trigger] state.receive(
                from,
                raw,
            ).1[i]).to == from,
{
}

/// Every accepted submission goes to the sink once, in the order of
/// acceptance. In every run, what was handed to the sink and what still
/// waits are together what waited at the start and what was accepted
/// since, in that order: nothing is skipped, repeated or reordered.
pub proof fn submissions_reach_the_sink_in_order(start: HubState, events: Seq<HubEvent>)
    ensures
        handed_to_sink(start, events) + queued_records(run(start, events).0) == queued_records(
            start,
        ) + accepted_in(start, events),
    decreases events.len(),
{
    if events.len() == 0 {
        assert(handed_to_sink(start, events) + queued_records(start) =~= queued_records(start)
            + accepted_in(start, events));
    } else {
        let earlier = events.drop_last();
        let middle = run(start, earlier).0;
        submissions_reach_the_sink_in_order(start, earlier);
        let handed = handed_to_sink(start, earlier);
        let accepted = accepted_in(start, earlier);
        match events.last() {
            HubEvent::Receive(from, raw) => {
                match submission_outcome(raw) {
                    MessageView::Submit(record) => {
                        if middle.state_of(from) == ConnectionState::Open {
                            assert(handed + queued_records(middle).push(record) =~= (handed
                                + queued_records(middle)).push(record));
                            assert((queued_records(start) + accepted).push(record)
                                =~= queued_records(start) + accepted.push(record));
                        }
                    },
                    _ => {},
                }
            },
            HubEvent::Persisted(_) => {
                if middle.queue.len() > 0 {
                    let head = middle.queue[0].record;
                    assert(handed.push(head) + queued_records(middle).drop_first() =~= handed
                        + queued_records(middle));
                }
            },
            _ => {},
        }
    }
}

/// No acknowledgement is reordered. In every run from a well-formed
/// state, the acknowledgements that reach a connection are, in order, the
/// submissions whose write succeeded while the connection was open, in the
/// order in which the writes ended.
pub proof fn acks_follow_persistence(start: HubState, events: Seq<HubEvent>, id: nat)
    requires
        start.wf(),
    ensures
        acks_to(run(start, events).1, id) == persisted_for(start, events, id),
    decreases events.len(),
{
    if events.len() > 0 {
        let earlier = events.drop_last();
        let (middle, sent) = run(start, earlier);
        let more = middle.step(events.last()).1;
        acks_follow_persistence(start, earlier, id);
        run_preserves_wf(start, earlier);
        lemma_acks_concat(sent, more, id);
        match events.last() {
            HubEvent::Persisted(persisted) => {
                if middle.queue.len() > 0 {
                    if persisted {
                        lemma_broadcast_ack(middle.connections, middle.queue[0].sequence, id);
                    } else if middle.state_of(middle.queue[0].submitter)
                        == ConnectionState::Open {
                        lemma_single_error(more, id);
                    }
                }
            },
            HubEvent::Receive(from, raw) => {
                if more.len() > 0 {
                    lemma_single_error(more, id);
                }
            },
            _ => {},
        }
    }
}

/// The submissions whose write succeeded while a connection was open have
/// rising sequence ids, all below the oldest submission still queued.
pub proof fn lemma_persisted_rise(start: HubState, events: Seq<HubEvent>, id: nat)
    requires
        start.wf(),
    ensures
        forall|i: int, j: int|
            0 <= i < j < persisted_for(start, events, id).len() ==> persisted_for(
                start,
                events,
                id,
            )[i] < persisted_for(start, events, id)[j],
        forall|i: int|
            0 <= i < persisted_for(start, events, id).len() ==> start.oldest() <= (
            #[trigger] persisted_for(start, events, id)[i]) < run(start, events).0.oldest(),
        start.oldest() <= run(start, events).0.oldest(),
    decreases events.len(),
{
    if events.len() > 0 {
        let earlier = events.drop_last();
        lemma_persisted_rise(start, earlier, id);
        run_preserves_wf(start, earlier);
        let before = persisted_for(start, earlier, id);
        let all = persisted_for(start, events, id);
        assert forall|i: int| 0 <= i < before.len() implies all[i] == before[i] by {}
    }
}

/// Acknowledgements come in the order of acceptance. In every run from
/// a well-formed state, the sequence ids acknowledged to a connection rise
/// strictly, and all of them lie below the oldest submission still queued.
pub proof fn acks_rise(start: HubState, events: Seq<HubEvent>, id: nat)
    requires
        start.wf(),
    ensures
        forall|i: int, j: int|
            0 <= i < j < acks_to(run(start, events).1, id).len() ==> acks_to(
                run(start, events).1,
                id,
            )[i] < acks_to(run(start, events).1, id)[j],
        forall|i: int|
            0 <= i < acks_to(run(start, events).1, id).len() ==> start.oldest() <= (
            #[trigger] acks_to(run(start, events).1, id)[i]) < run(start, events).0.oldest(),
{
    acks_follow_persistence(start, events, id);
    lemma_persisted_rise(start, events, id);
}

} // verus!
