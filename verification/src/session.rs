//! The session: one process-wide object owning the transport state
//! machine, the identity allocator, the entity synchronizer and the
//! global event channel, wired together behind the surface that game
//! logic consumes. The host performs all I/O: it decodes wire messages
//! and hands them to the typed handlers here, drains `outgoing` and
//! encodes what it finds, and calls `tick` once per synchronization
//! interval before reading any synchronized entity state.

use vstd::prelude::*;

use crate::events::EventPublisher;
use crate::events::EventReceiver;
use crate::events::GlobalEvent;
use crate::events::channel_model;
use crate::events::event_seqs;
use crate::events::has_channel;
use crate::events::publisher_wf;
use crate::events::receiver_wf;
use crate::events::recv_model;
use crate::events::recv_out;
use crate::events::retransmit_wire;
use crate::events::after_retransmit;
use crate::events::abandoned_of;
use crate::events::without_seq;
use crate::identity::AllocateStatus;
use crate::identity::HandshakeError;
use crate::identity::HandshakePhase;
use crate::identity::HandshakeResponse;
use crate::identity::IdentityAllocator;
use crate::identity::allocator_wf;
use crate::sync::ApplyOutcome;
use crate::sync::EntitySnapshot;
use crate::sync::EntityState;
use crate::sync::EntitySynchronizer;
use crate::sync::aged;
use crate::sync::after_publish;
use crate::sync::apply_to_record;
use crate::sync::fresh_record;
use crate::sync::has_record;
use crate::sync::local_snaps_of;
use crate::sync::origin_state;
use crate::sync::retain_alive;
use crate::sync::state_bounded;
use crate::sync::sync_wf;
use crate::sync::bump_dropped;
use crate::transport::ConnectionState;
use crate::transport::DisconnectCause;
use crate::transport::Transport;

verus! {

/// Synchronization ticks between retransmission rounds of
/// unacknowledged events.
pub const RETRANSMIT_INTERVAL_TICKS: u64 = 30;

/// The abstract wire schema. The concrete byte encoding is the host's
/// choice; it must preserve exactly these values.
#[derive(Clone, Copy, PartialEq, Eq, Structural, Debug)]
pub enum WireMessage {
    /// Client to server: open a session with this credential token.
    Handshake { credentials: u64 },
    /// Server to client: the session is open under this identity.
    HandshakeAck { identity: u64 },
    /// Server to client: the session was refused.
    HandshakeReject,
    /// Either direction: one entity's state for one tick.
    Snapshot { snap: EntitySnapshot },
    /// Either direction: one global event.
    Event { event: GlobalEvent },
    /// Either direction: confirms receipt of the event `seq` from
    /// `origin`.
    EventAck { origin: u64, seq: u64 },
    /// Keep-alive; carries nothing.
    Heartbeat,
}

/// Every record aged by one grace tick.
pub open spec fn aged_all(rs: Seq<crate::sync::EntityRecord>) -> Seq<crate::sync::EntityRecord> {
    rs.map_values(|r: crate::sync::EntityRecord| aged(r, 1))
}

/// Every local record's outbound sequence counter advanced.
pub open spec fn bumped_all(rs: Seq<crate::sync::EntityRecord>) -> Seq<crate::sync::EntityRecord> {
    rs.map_values(|r: crate::sync::EntityRecord| after_publish(r))
}

/// Snapshots wrapped for the wire.
pub open spec fn snap_msgs(snaps: Seq<EntitySnapshot>) -> Seq<WireMessage> {
    snaps.map_values(|s: EntitySnapshot| WireMessage::Snapshot { snap: s })
}

/// Events wrapped for the wire.
pub open spec fn event_msgs(evs: Seq<GlobalEvent>) -> Seq<WireMessage> {
    evs.map_values(|e: GlobalEvent| WireMessage::Event { event: e })
}

/// The synchronization core. Created at process start, torn down on
/// quit or fatal disconnect; the single frame-driven execution context
/// owns it exclusively, so nothing here needs locking.
pub struct NetSession {
    pub transport: Transport,
    pub allocator: IdentityAllocator,
    pub synchronizer: EntitySynchronizer,
    pub publisher: EventPublisher,
    pub receiver: EventReceiver,
    /// Messages for the host to encode and send, oldest first.
    pub outgoing: Vec<WireMessage>,
    /// The credential token handed to `connect`, sent in the handshake.
    pub credentials: u64,
    /// Set once `quit` is called; the host's loop ends on seeing it.
    pub quit_requested: bool,
    /// Ticks since the last retransmission round.
    pub ticks_since_retransmit: u64,
}

/// Session well-formedness: each component is well formed, and once an
/// identity is held the publisher publishes under it.
pub open spec fn session_wf(s: NetSession) -> bool {
    &&& allocator_wf(s.allocator)
    &&& sync_wf(s.synchronizer)
    &&& publisher_wf(s.publisher)
    &&& receiver_wf(s.receiver)
    &&& s.allocator.identity matches Some(id) ==> s.publisher.origin == id
}

impl NetSession {
    /// A fresh, disconnected session.
    pub fn new() -> (s: NetSession)
        ensures
            session_wf(s),
            s.transport.state == ConnectionState::Disconnected,
            s.allocator.identity is None,
            s.synchronizer.records@.len() == 0,
            s.publisher.pending@.len() == 0,
            s.receiver.delivered@.len() == 0,
            s.outgoing@.len() == 0,
            !s.quit_requested,
            s.transport.retries == 0,
            s.transport.backoff == crate::transport::INITIAL_BACKOFF_TICKS,
            s.transport.outbox@.len() == 0,
            s.transport.cause is None,
            s.allocator.phase == HandshakePhase::Idle,
            s.publisher.origin == 0,
            s.publisher.next_seq == 1,
            s.publisher.failed@.len() == 0,
            s.receiver.channels@.len() == 0,
            s.receiver.cursor == 0,
            s.credentials == 0,
            s.ticks_since_retransmit == 0,
    {
        NetSession {
            transport: Transport::new(),
            allocator: IdentityAllocator::new(),
            synchronizer: EntitySynchronizer::new(),
            publisher: EventPublisher::new(0),
            receiver: EventReceiver::new(),
            outgoing: Vec::new(),
            credentials: 0,
            quit_requested: false,
            ticks_since_retransmit: 0,
        }
    }

    /// Non-blocking connection initiation with the pre-shared
    /// credential token. Never fails synchronously; failures surface
    /// later as transport state transitions. The host resolves the
    /// actual address and opens the socket.
    pub fn connect(&mut self, credentials: u64)
        requires
            session_wf(*old(self)),
        ensures
            session_wf(*final(self)),
            final(self).credentials == credentials,
            old(self).transport.state == ConnectionState::Disconnected ==> final(self).transport.state == ConnectionState::Connecting && final(self).transport.retries == 0 && final(self).transport.backoff == crate::transport::INITIAL_BACKOFF_TICKS && final(self).transport.cause is None,
            old(self).transport.state != ConnectionState::Disconnected ==> final(self).transport == old(self).transport,
            final(self).transport.outbox@ == old(self).transport.outbox@,
            final(self).allocator == old(self).allocator,
            final(self).synchronizer == old(self).synchronizer,
            final(self).receiver == old(self).receiver,
            final(self).publisher == old(self).publisher,
            final(self).outgoing@ == old(self).outgoing@,
            final(self).quit_requested == old(self).quit_requested,
            final(self).ticks_since_retransmit == old(self).ticks_since_retransmit,
    {
        self.credentials = credentials;
        self.transport.connect();
    }

    /// Whether the connection is fully established.
    pub fn connected(&self) -> (r: bool)
        ensures
            r == (self.transport.state == ConnectionState::Connected),
    {
        self.transport.connected()
    }

    /// The host reports that the raw channel opened. The transport
    /// enters `Handshaking`, and if no identity is held a handshake
    /// request with the stored credentials is queued.
    pub fn on_channel_open(&mut self)
        requires
            session_wf(*old(self)),
            old(self).transport.state == ConnectionState::Connecting || old(self).transport.state == ConnectionState::Reconnecting,
        ensures
            session_wf(*final(self)),
            final(self).transport.state == ConnectionState::Handshaking,
            (old(self).allocator.phase == HandshakePhase::Idle || old(self).allocator.phase
                == HandshakePhase::Failed) ==> {
                &&& final(self).allocator.phase == (HandshakePhase::Waiting { waited: 0 })
                &&& final(self).outgoing@ == old(self).outgoing@.push(
                    WireMessage::Handshake { credentials: old(self).credentials },
                )
            },
            !(old(self).allocator.phase == HandshakePhase::Idle || old(self).allocator.phase
                == HandshakePhase::Failed) ==> final(self).allocator == old(self).allocator
                && final(self).outgoing@ == old(self).outgoing@,
            final(self).transport == (Transport {
                state: ConnectionState::Handshaking,
                ..old(self).transport
            }),
            final(self).allocator.identity == old(self).allocator.identity,
            final(self).synchronizer == old(self).synchronizer,
            final(self).receiver == old(self).receiver,
            final(self).publisher == old(self).publisher,
            final(self).credentials == old(self).credentials,
            final(self).quit_requested == old(self).quit_requested,
            final(self).ticks_since_retransmit == old(self).ticks_since_retransmit,
    {
        self.transport.on_channel_open();
        if self.allocator.current_identity().is_none() {
            match self.allocator.phase {
                HandshakePhase::Idle | HandshakePhase::Failed => {
                    self.allocator.begin();
                    self.outgoing.push(WireMessage::Handshake { credentials: self.credentials });
                },
                _ => {
                },
            }
        }
    }

    /// One frame of the cooperative wait for the server's handshake
    /// answer: the caller of `allocate` is suspended on this. An ack
    /// completes the handshake (the identity is held, the transport is
    /// `Connected`, the publisher publishes under the identity); a
    /// rejection or a timeout fails the session and returns the
    /// transport to `Disconnected` with the matching cause.
    pub fn poll_handshake(&mut self, elapsed: u64, response: Option<HandshakeResponse>) -> (status:
        AllocateStatus)
        requires
            session_wf(*old(self)),
            old(self).allocator.phase matches HandshakePhase::Waiting { .. },
            old(self).transport.state == ConnectionState::Handshaking,
        ensures
            session_wf(*final(self)),
            response matches Some(HandshakeResponse::Ack { identity }) ==> {
                &&& status == (AllocateStatus::Ready { identity })
                &&& final(self).allocator.identity == Some(identity)
                &&& final(self).allocator.phase == HandshakePhase::Assigned
                &&& final(self).transport == (Transport {
                    state: ConnectionState::Connected,
                    retries: 0,
                    backoff: crate::transport::INITIAL_BACKOFF_TICKS,
                    ..old(self).transport
                })
                &&& final(self).publisher.origin == identity
                &&& (old(self).publisher.origin == identity ==> final(self).publisher == old(self).publisher)
                &&& (old(self).publisher.origin != identity ==> final(self).publisher.next_seq
                    == 1 && final(self).publisher.pending@.len() == 0 && final(self).publisher.failed@.len() == 0)
            },
            response == Some(HandshakeResponse::Reject) ==> {
                &&& status == (AllocateStatus::Failed {
                    error: HandshakeError::HandshakeRejected,
                })
                &&& final(self).allocator.identity is None
                &&& final(self).allocator.phase == HandshakePhase::Failed
                &&& final(self).transport.state == ConnectionState::Disconnected
                &&& final(self).transport.cause == Some(DisconnectCause::Rejected)
                &&& final(self).transport.retries == old(self).transport.retries
                &&& final(self).transport.backoff == old(self).transport.backoff
                &&& final(self).transport.outbox@.len() == 0
                &&& final(self).publisher == old(self).publisher
            },
            response is None ==> (old(self).allocator.phase matches HandshakePhase::Waiting {
                waited,
            } ==> {
                &&& waited + elapsed >= crate::identity::HANDSHAKE_TIMEOUT_TICKS ==> {
                    &&& status == (AllocateStatus::Failed {
                        error: HandshakeError::HandshakeTimeout,
                    })
                    &&& final(self).allocator.identity is None
                    &&& final(self).allocator.phase == HandshakePhase::Failed
                    &&& final(self).transport.state == ConnectionState::Disconnected
                    &&& final(self).transport.cause == Some(DisconnectCause::Unreachable)
                    &&& final(self).transport.retries == old(self).transport.retries
                    &&& final(self).transport.backoff == old(self).transport.backoff
                    &&& final(self).transport.outbox@.len() == 0
                    &&& final(self).publisher == old(self).publisher
                }
                &&& waited + elapsed < crate::identity::HANDSHAKE_TIMEOUT_TICKS ==> {
                    &&& status == AllocateStatus::Pending
                    &&& final(self).allocator.phase == (HandshakePhase::Waiting {
                        waited: (waited + elapsed) as u64,
                    })
                    &&& final(self).allocator.identity is None
                    &&& final(self).transport == old(self).transport
                    &&& final(self).publisher == old(self).publisher
                }
            }),
            final(self).synchronizer == old(self).synchronizer,
            final(self).receiver == old(self).receiver,
            final(self).outgoing@ == old(self).outgoing@,
            final(self).credentials == old(self).credentials,
            final(self).quit_requested == old(self).quit_requested,
            final(self).ticks_since_retransmit == old(self).ticks_since_retransmit,
    {
        let status = self.allocator.poll(elapsed, response);
        match status {
            AllocateStatus::Ready { identity } => {
                self.transport.on_handshake_complete();
                if self.publisher.origin != identity {
                    self.publisher = EventPublisher::new(identity);
                }
            },
            AllocateStatus::Failed { error } => {
                match error {
                    HandshakeError::HandshakeRejected => {
                        self.transport.disconnect(DisconnectCause::Rejected);
                    },
                    HandshakeError::HandshakeTimeout => {
                        self.transport.disconnect(DisconnectCause::Unreachable);
                    },
                }
            },
            AllocateStatus::Pending => {
            },
        }
        status
    }

    /// The stable network identity of the local participant: `None`
    /// before a successful handshake and after disconnect, `Some`
    /// in between.
    pub fn local_identity(&self) -> (r: Option<u64>)
        ensures
            r == self.allocator.identity,
    {
        self.allocator.current_identity()
    }

    /// Queue the close sequence: the quit flag is raised for the
    /// host's loop, the transport is torn down (its queued bytes are
    /// the in-flight work that is cancelled) and the identity is
    /// released. Everything else — entities, the delivery log, the
    /// pending-ack set, queued messages — is left exactly as it was,
    /// so a second call changes nothing further.
    pub fn quit(&mut self)
        requires
            session_wf(*old(self)),
        ensures
            session_wf(*final(self)),
            final(self).quit_requested,
            final(self).transport.state == ConnectionState::Disconnected,
            final(self).transport.cause == Some(DisconnectCause::Quit),
            final(self).transport.retries == old(self).transport.retries,
            final(self).transport.backoff == old(self).transport.backoff,
            final(self).transport.outbox@.len() == 0,
            final(self).allocator.identity is None,
            final(self).allocator.phase == HandshakePhase::Idle,
            final(self).synchronizer == old(self).synchronizer,
            final(self).receiver == old(self).receiver,
            final(self).publisher == old(self).publisher,
            final(self).outgoing@ == old(self).outgoing@,
            final(self).credentials == old(self).credentials,
            final(self).ticks_since_retransmit == old(self).ticks_since_retransmit,
    {
        self.quit_requested = true;
        self.transport.disconnect(DisconnectCause::Quit);
        self.allocator.release();
    }

    /// Register the local player's entity under the held identity,
    /// authoritative for its own state. `false` (and no change) when
    /// no identity is held, the identity is already registered, or the
    /// initial state is out of range.
    pub fn register_local_entity(&mut self, initial: EntityState) -> (ok: bool)
        requires
            session_wf(*old(self)),
        ensures
            session_wf(*final(self)),
            old(self).allocator.identity is None ==> !ok && *final(self) == *old(self),
            old(self).allocator.identity matches Some(id) ==> ok == (!has_record(
                old(self).synchronizer.records@,
                id,
            ) && state_bounded(initial)),
            ok ==> (old(self).allocator.identity matches Some(id) && final(self).synchronizer.records@ == old(self).synchronizer.records@.push(
                fresh_record(id, true, initial),
            )),
            !ok ==> *final(self) == *old(self),
            final(self).transport == old(self).transport,
            final(self).allocator == old(self).allocator,
            final(self).receiver == old(self).receiver,
            final(self).publisher == old(self).publisher,
            final(self).outgoing@ == old(self).outgoing@,
            final(self).credentials == old(self).credentials,
            final(self).quit_requested == old(self).quit_requested,
            final(self).ticks_since_retransmit == old(self).ticks_since_retransmit,
    {
        match self.allocator.current_identity() {
            None => false,
            Some(id) => self.synchronizer.register_local(id, initial),
        }
    }

    /// Register an entity owned by a remote identity; it shows the
    /// neutral origin state until its first snapshot arrives. `false`
    /// (and no change) when the identity is already registered.
    pub fn register_remote_entity(&mut self, identity: u64) -> (ok: bool)
        requires
            session_wf(*old(self)),
        ensures
            session_wf(*final(self)),
            ok == !has_record(old(self).synchronizer.records@, identity),
            ok ==> final(self).synchronizer.records@ == old(self).synchronizer.records@.push(
                fresh_record(identity, false, origin_state()),
            ),
            !ok ==> *final(self) == *old(self),
            final(self).transport == old(self).transport,
            final(self).allocator == old(self).allocator,
            final(self).receiver == old(self).receiver,
            final(self).publisher == old(self).publisher,
            final(self).outgoing@ == old(self).outgoing@,
            final(self).credentials == old(self).credentials,
            final(self).quit_requested == old(self).quit_requested,
            final(self).ticks_since_retransmit == old(self).ticks_since_retransmit,
    {
        self.synchronizer.register_remote(identity)
    }

    /// Publish a discrete game event: the next sequence number for the
    /// local origin is assigned, the event joins the pending-ack set
    /// for retransmission, and it is queued for transmission now.
    /// `None` (and no change) when no identity is held or the sequence
    /// space is exhausted.
    pub fn publish_event(&mut self, payload: u64) -> (ev: Option<GlobalEvent>)
        requires
            session_wf(*old(self)),
        ensures
            session_wf(*final(self)),
            old(self).allocator.identity is None ==> ev is None && *final(self) == *old(self),
            ev matches Some(e) ==> {
                &&& old(self).allocator.identity == Some(e.origin)
                &&& e.seq == old(self).publisher.next_seq
                &&& e.payload == payload
                &&& final(self).publisher.next_seq == old(self).publisher.next_seq + 1
                &&& final(self).publisher.pending@ == old(self).publisher.pending@.push(
                    crate::events::PendingEvent {
                        seq: e.seq,
                        payload,
                        retries_left: crate::events::EVENT_RETRY_BUDGET,
                    },
                )
                &&& final(self).outgoing@ == old(self).outgoing@.push(
                    WireMessage::Event { event: e },
                )
            },
            old(self).allocator.identity is Some && old(self).publisher.next_seq == u64::MAX
                ==> ev is None && *final(self) == *old(self),
            old(self).allocator.identity is Some && old(self).publisher.next_seq < u64::MAX
                ==> ev is Some,
            ev is None ==> *final(self) == *old(self),
            final(self).transport == old(self).transport,
            final(self).allocator == old(self).allocator,
            final(self).synchronizer == old(self).synchronizer,
            final(self).receiver == old(self).receiver,
            final(self).publisher.origin == old(self).publisher.origin,
            final(self).publisher.failed@ == old(self).publisher.failed@,
            final(self).credentials == old(self).credentials,
            final(self).quit_requested == old(self).quit_requested,
            final(self).ticks_since_retransmit == old(self).ticks_since_retransmit,
    {
        match self.allocator.current_identity() {
            None => None,
            Some(_) => {
                let ev = self.publisher.publish(payload);
                match ev {
                    Some(e) => {
                        self.outgoing.push(WireMessage::Event { event: e });
                        Some(e)
                    },
                    None => None,
                }
            },
        }
    }

    /// The lazy consumer view of the global event stream: everything
    /// delivered since the last call, de-duplicated and in per-origin
    /// sequence order.
    pub fn subscribe_events(&mut self) -> (out: Vec<GlobalEvent>)
        requires
            session_wf(*old(self)),
        ensures
            session_wf(*final(self)),
            out@ == old(self).receiver.delivered@.skip(old(self).receiver.cursor as int),
            final(self).receiver.delivered@ == old(self).receiver.delivered@,
            final(self).receiver.channels@ == old(self).receiver.channels@,
            final(self).receiver.cursor == final(self).receiver.delivered@.len(),
            final(self).transport == old(self).transport,
            final(self).allocator == old(self).allocator,
            final(self).synchronizer == old(self).synchronizer,
            final(self).publisher == old(self).publisher,
            final(self).outgoing@ == old(self).outgoing@,
            final(self).credentials == old(self).credentials,
            final(self).quit_requested == old(self).quit_requested,
            final(self).ticks_since_retransmit == old(self).ticks_since_retransmit,
    {
        self.receiver.subscribe_events()
    }

    /// One received entity snapshot: applied only if it is newer than
    /// everything applied for its identity; stale or duplicate ones
    /// are discarded unchanged; malformed (out-of-range) ones are
    /// dropped and counted toward a resynchronization request; unknown
    /// identities are dropped. Never fails the synchronizer.
    pub fn handle_snapshot(&mut self, snap: EntitySnapshot) -> (outcome: ApplyOutcome)
        requires
            session_wf(*old(self)),
        ensures
            session_wf(*final(self)),
            !has_record(old(self).synchronizer.records@, snap.identity) ==> outcome
                == ApplyOutcome::Unknown && *final(self) == *old(self),
            forall|i: int|
                0 <= i < old(self).synchronizer.records@.len() && old(self).synchronizer.records@[i].identity == snap.identity && state_bounded(snap.state)
                    ==> {
                    &&& final(self).synchronizer.records@ == old(self).synchronizer.records@.update(
                        i,
                        apply_to_record(#[trigger] old(self).synchronizer.records@[i], snap),
                    )
                    &&& outcome == (if snap.seq > old(self).synchronizer.records@[i].applied_seq {
                        ApplyOutcome::Applied
                    } else {
                        ApplyOutcome::Stale
                    })
                },
            forall|i: int|
                0 <= i < old(self).synchronizer.records@.len() && (#[trigger] old(self).synchronizer.records@[i]).identity == snap.identity && !state_bounded(snap.state)
                    ==> {
                    &&& outcome == ApplyOutcome::Malformed
                    &&& final(self).synchronizer.records@ == old(self).synchronizer.records@.update(i, bump_dropped(old(self).synchronizer.records@[i]))
                },
            final(self).transport == old(self).transport,
            final(self).allocator == old(self).allocator,
            final(self).receiver == old(self).receiver,
            final(self).publisher == old(self).publisher,
            final(self).outgoing@ == old(self).outgoing@,
            final(self).credentials == old(self).credentials,
            final(self).quit_requested == old(self).quit_requested,
            final(self).ticks_since_retransmit == old(self).ticks_since_retransmit,
    {
        self.synchronizer.apply_snapshot(snap)
    }

    /// One received global event: acknowledged unconditionally (the
    /// ack is queued), de-duplicated, buffered if ahead of a gap, and
    /// every event it unblocks joins the delivery log in per-origin
    /// sequence order.
    pub fn handle_event(&mut self, ev: GlobalEvent) -> (n_delivered: usize)
        requires
            session_wf(*old(self)),
        ensures
            session_wf(*final(self)),
            final(self).outgoing@ == old(self).outgoing@.push(
                WireMessage::EventAck { origin: ev.origin, seq: ev.seq },
            ),
            final(self).receiver.delivered@.len() == old(self).receiver.delivered@.len()
                + n_delivered,
            final(self).receiver.delivered@.take(old(self).receiver.delivered@.len() as int)
                == old(self).receiver.delivered@,
            final(self).receiver.cursor == old(self).receiver.cursor,
            forall|k: int|
                old(self).receiver.delivered@.len() <= k < final(self).receiver.delivered@.len()
                    ==> (#[trigger] final(self).receiver.delivered@[k]).origin == ev.origin,
            forall|i: int|
                0 <= i < old(self).receiver.channels@.len() && (#[trigger] old(self).receiver.channels@[i]).origin == ev.origin ==> {
                    &&& final(self).receiver.channels@.len() == old(self).receiver.channels@.len()
                    &&& channel_model(final(self).receiver.channels@[i]) == recv_model(
                        channel_model(old(self).receiver.channels@[i]),
                        ev.seq,
                    )
                    &&& final(self).receiver.channels@[i].origin == ev.origin
                    &&& event_seqs(
                        final(self).receiver.delivered@.skip(
                            old(self).receiver.delivered@.len() as int,
                        ),
                    ) == recv_out(channel_model(old(self).receiver.channels@[i]), ev.seq)
                    &&& forall|k: int|
                        old(self).receiver.delivered@.len() <= k < final(self).receiver.delivered@.len() ==> (#[trigger] final(self).receiver.delivered@[k] == ev || exists|j: int|
                            0 <= j < old(self).receiver.channels@[i].buffer@.len() && old(self).receiver.channels@[i].buffer@[j] == final(self).receiver.delivered@[k])
                    &&& forall|j: int|
                        0 <= j < old(self).receiver.channels@.len() && j != i ==> final(self).receiver.channels@[j] == old(self).receiver.channels@[j]
                },
            !has_channel(old(self).receiver.channels@, ev.origin) ==> {
                &&& final(self).receiver.channels@.len() == old(self).receiver.channels@.len() + 1
                &&& final(self).receiver.channels@[old(self).receiver.channels@.len() as int].origin
                    == ev.origin
                &&& event_seqs(
                    final(self).receiver.delivered@.skip(
                        old(self).receiver.delivered@.len() as int,
                    ),
                ) == recv_out(
                    (crate::events::ChannelModel { expected: 1u64, buffer: Set::<u64>::empty() }),
                    ev.seq,
                )
                &&& forall|k: int|
                    old(self).receiver.delivered@.len() <= k < final(self).receiver.delivered@.len() ==> #[trigger] final(self).receiver.delivered@[k]
                        == ev
                &&& forall|j: int|
                    0 <= j < old(self).receiver.channels@.len() ==> final(self).receiver.channels@[j] == old(self).receiver.channels@[j]
            },
            final(self).transport == old(self).transport,
            final(self).allocator == old(self).allocator,
            final(self).synchronizer == old(self).synchronizer,
            final(self).publisher == old(self).publisher,
            final(self).credentials == old(self).credentials,
            final(self).quit_requested == old(self).quit_requested,
            final(self).ticks_since_retransmit == old(self).ticks_since_retransmit,
    {
        let n = self.receiver.receive(ev);
        self.outgoing.push(WireMessage::EventAck { origin: ev.origin, seq: ev.seq });
        n
    }

    /// One received acknowledgement for an event this session
    /// published: the event needs no further retransmission. Acks for
    /// another origin's events are ignored.
    pub fn handle_event_ack(&mut self, origin: u64, seq: u64)
        requires
            session_wf(*old(self)),
        ensures
            session_wf(*final(self)),
            origin == old(self).publisher.origin ==> final(self).publisher.pending@
                == without_seq(old(self).publisher.pending@, seq),
            origin != old(self).publisher.origin ==> *final(self) == *old(self),
            final(self).publisher.origin == old(self).publisher.origin,
            final(self).publisher.next_seq == old(self).publisher.next_seq,
            final(self).publisher.failed@ == old(self).publisher.failed@,
            final(self).transport == old(self).transport,
            final(self).allocator == old(self).allocator,
            final(self).receiver == old(self).receiver,
            final(self).synchronizer == old(self).synchronizer,
            final(self).outgoing@ == old(self).outgoing@,
            final(self).credentials == old(self).credentials,
            final(self).quit_requested == old(self).quit_requested,
            final(self).ticks_since_retransmit == old(self).ticks_since_retransmit,
    {
        if origin == self.publisher.origin {
            self.publisher.on_ack(seq);
        }
    }

    /// The host reports transient loss of the established channel:
    /// reconnection with backoff begins.
    pub fn on_connection_lost(&mut self)
        requires
            session_wf(*old(self)),
        ensures
            session_wf(*final(self)),
            old(self).transport.state == ConnectionState::Connected ==> final(self).transport
                == (Transport {
                state: ConnectionState::Reconnecting,
                retries: 0,
                backoff: crate::transport::INITIAL_BACKOFF_TICKS,
                ..old(self).transport
            }),
            old(self).transport.state != ConnectionState::Connected ==> final(self).transport
                == old(self).transport,
            final(self).synchronizer == old(self).synchronizer,
            final(self).receiver == old(self).receiver,
            final(self).publisher == old(self).publisher,
            final(self).allocator == old(self).allocator,
            final(self).outgoing@ == old(self).outgoing@,
            final(self).credentials == old(self).credentials,
            final(self).quit_requested == old(self).quit_requested,
            final(self).ticks_since_retransmit == old(self).ticks_since_retransmit,
    {
        self.transport.on_connection_lost();
    }

    /// The host reports a failed reconnect attempt: the backoff doubles
    /// (capped), and once the retry budget is exhausted the connection
    /// becomes terminal `Disconnected` and is reported upward through
    /// the recorded cause.
    pub fn on_reconnect_failed(&mut self)
        requires
            session_wf(*old(self)),
        ensures
            session_wf(*final(self)),
            old(self).transport.state == ConnectionState::Reconnecting && old(self).transport.retries + 1 < crate::transport::MAX_RECONNECT_ATTEMPTS ==> final(self).transport
                == (Transport {
                retries: (old(self).transport.retries + 1) as u64,
                backoff: crate::transport::doubled_backoff(old(self).transport.backoff),
                ..old(self).transport
            }),
            old(self).transport.state == ConnectionState::Reconnecting && old(self).transport.retries + 1 >= crate::transport::MAX_RECONNECT_ATTEMPTS ==> final(self).transport
                == (Transport {
                state: ConnectionState::Disconnected,
                cause: Some(DisconnectCause::RetriesExhausted),
                ..old(self).transport
            }),
            old(self).transport.state != ConnectionState::Reconnecting ==> final(self).transport
                == old(self).transport,
            final(self).synchronizer == old(self).synchronizer,
            final(self).receiver == old(self).receiver,
            final(self).publisher == old(self).publisher,
            final(self).allocator == old(self).allocator,
            final(self).outgoing@ == old(self).outgoing@,
            final(self).credentials == old(self).credentials,
            final(self).quit_requested == old(self).quit_requested,
            final(self).ticks_since_retransmit == old(self).ticks_since_retransmit,
    {
        self.transport.on_reconnect_failed();
    }

    /// The server reports that a participant disconnected: that
    /// identity's remote entity enters its grace period (it is retired
    /// by `tick` once the period fully elapses with no further
    /// snapshots, which would cancel it), and that origin's held-back
    /// events are flushed to the delivery log in sequence order, with
    /// the gap reported (`true`) when any were held back.
    pub fn on_identity_disconnected(&mut self, identity: u64) -> (gap_reported: bool)
        requires
            session_wf(*old(self)),
        ensures
            session_wf(*final(self)),
            !has_record(old(self).synchronizer.records@, identity) ==> final(self).synchronizer
                == old(self).synchronizer,
            forall|i: int|
                0 <= i < old(self).synchronizer.records@.len() && (#[trigger] old(self).synchronizer.records@[i]).identity == identity ==> final(self).synchronizer.records@ == (if old(self).synchronizer.records@[i].local {
                    old(self).synchronizer.records@
                } else {
                    old(self).synchronizer.records@.update(
                        i,
                        (crate::sync::EntityRecord {
                            grace: Some(0u64),
                            ..old(self).synchronizer.records@[i]
                        }),
                    )
                }),
            final(self).receiver.delivered@.take(old(self).receiver.delivered@.len() as int)
                == old(self).receiver.delivered@,
            final(self).receiver.channels@.len() == old(self).receiver.channels@.len(),
            final(self).receiver.cursor == old(self).receiver.cursor,
            forall|i: int|
                0 <= i < old(self).receiver.channels@.len() && (#[trigger] old(self).receiver.channels@[i]).origin == identity ==> {
                    &&& gap_reported == (old(self).receiver.channels@[i].buffer@.len() > 0)
                    &&& final(self).receiver.channels@[i].buffer@.len() == 0
                    &&& final(self).receiver.channels@[i].origin == identity
                    &&& final(self).receiver.delivered@.len() == old(self).receiver.delivered@.len() + old(self).receiver.channels@[i].buffer@.len()
                    &&& forall|k: int|
                        old(self).receiver.delivered@.len() <= k < final(self).receiver.delivered@.len() ==> old(self).receiver.channels@[i].buffer@.contains(
                            #[trigger] final(self).receiver.delivered@[k],
                        )
                    &&& forall|k1: int, k2: int|
                        old(self).receiver.delivered@.len() <= k1 < k2 < final(self).receiver.delivered@.len() ==> final(self).receiver.delivered@[k1].seq
                            < final(self).receiver.delivered@[k2].seq
                    &&& forall|j: int|
                        0 <= j < old(self).receiver.channels@.len() && j != i ==> final(self).receiver.channels@[j] == old(self).receiver.channels@[j]
                },
            !has_channel(old(self).receiver.channels@, identity) ==> final(self).receiver == old(self).receiver && !gap_reported,
            final(self).transport == old(self).transport,
            final(self).allocator == old(self).allocator,
            final(self).publisher == old(self).publisher,
            final(self).outgoing@ == old(self).outgoing@,
            final(self).credentials == old(self).credentials,
            final(self).quit_requested == old(self).quit_requested,
            final(self).ticks_since_retransmit == old(self).ticks_since_retransmit,
    {
        self.synchronizer.on_identity_disconnected(identity);
        self.receiver.on_origin_disconnected(identity)
    }

    /// One synchronization tick, run once per fixed synchronization
    /// interval (the host's frame-loop adapter bridges its variable
    /// timestep to this), before any synchronized entity state is read
    /// that frame. Grace timers advance one tick and fully elapsed
    /// remote records are retired; every local entity's state is
    /// serialized under its next sequence number and queued; and on
    /// the fixed retransmission schedule every unacknowledged event
    /// with budget left is queued again while exhausted ones are
    /// abandoned.
    pub fn tick(&mut self, timestamp: u64)
        requires
            session_wf(*old(self)),
        ensures
            session_wf(*final(self)),
            final(self).synchronizer.records@ == bumped_all(
                retain_alive(aged_all(old(self).synchronizer.records@)),
            ),
            final(self).outgoing@ == old(self).outgoing@ + snap_msgs(
                local_snaps_of(retain_alive(aged_all(old(self).synchronizer.records@)), timestamp),
            ) + (if old(self).ticks_since_retransmit + 1 >= RETRANSMIT_INTERVAL_TICKS {
                event_msgs(
                    retransmit_wire(old(self).publisher.pending@, old(self).publisher.origin),
                )
            } else {
                Seq::<WireMessage>::empty()
            }),
            old(self).ticks_since_retransmit + 1 >= RETRANSMIT_INTERVAL_TICKS ==> {
                &&& final(self).publisher.pending@ == after_retransmit(
                    old(self).publisher.pending@,
                )
                &&& final(self).publisher.failed@ == old(self).publisher.failed@ + abandoned_of(
                    old(self).publisher.pending@,
                )
                &&& final(self).ticks_since_retransmit == 0
            },
            old(self).ticks_since_retransmit + 1 < RETRANSMIT_INTERVAL_TICKS ==> {
                &&& final(self).publisher == old(self).publisher
                &&& final(self).ticks_since_retransmit == old(self).ticks_since_retransmit + 1
            },
            final(self).receiver == old(self).receiver,
            final(self).allocator == old(self).allocator,
            final(self).transport == old(self).transport,
            final(self).credentials == old(self).credentials,
            final(self).quit_requested == old(self).quit_requested,
    {
        self.synchronizer.advance_grace(1);
        proof {
            assert(self.synchronizer.records@ =~= aged_all(old(self).synchronizer.records@));
        }
        self.synchronizer.remove_expired();
        let ghost alive = self.synchronizer.records@;
        let snaps = self.synchronizer.publish_local_snapshots(timestamp);
        proof {
            assert(self.synchronizer.records@ =~= bumped_all(alive));
        }
        let ghost out_before = self.outgoing@;
        let ghost sync_after = self.synchronizer;
        let n = snaps.len();
        let mut k: usize = 0;
        while k < n
            invariant
                n == snaps@.len(),
                k <= n,
                self.outgoing@ == out_before + snap_msgs(snaps@.take(k as int)),
                self.synchronizer == sync_after,
                self.publisher == old(self).publisher,
                self.receiver == old(self).receiver,
                self.allocator == old(self).allocator,
                self.transport == old(self).transport,
                self.ticks_since_retransmit == old(self).ticks_since_retransmit,
                self.credentials == old(self).credentials,
                self.quit_requested == old(self).quit_requested,
            decreases n - k,
        {
            let s = snaps[k];
            self.outgoing.push(WireMessage::Snapshot { snap: s });
            proof {
                assert(self.outgoing@ =~= out_before + snap_msgs(snaps@.take(k + 1)));
            }
            k = k + 1;
        }
        proof {
            assert(snaps@.take(n as int) =~= snaps@);
        }
        if self.ticks_since_retransmit >= RETRANSMIT_INTERVAL_TICKS - 1 {
            let resend = self.publisher.retransmit_tick();
            let ghost out_mid = self.outgoing@;
            let ghost pub_after = self.publisher;
            let m = resend.len();
            let mut j: usize = 0;
            while j < m
                invariant
                    m == resend@.len(),
                    j <= m,
                    self.outgoing@ == out_mid + event_msgs(resend@.take(j as int)),
                    self.synchronizer == sync_after,
                    self.publisher == pub_after,
                    self.receiver == old(self).receiver,
                    self.allocator == old(self).allocator,
                    self.transport == old(self).transport,
                    self.ticks_since_retransmit == old(self).ticks_since_retransmit,
                    self.credentials == old(self).credentials,
                    self.quit_requested == old(self).quit_requested,
                decreases m - j,
            {
                let e = resend[j];
                self.outgoing.push(WireMessage::Event { event: e });
                proof {
                    assert(self.outgoing@ =~= out_mid + event_msgs(resend@.take(j + 1)));
                }
                j = j + 1;
            }
            proof {
                assert(resend@.take(m as int) =~= resend@);
                assert(self.outgoing@ =~= out_before + snap_msgs(
                    local_snaps_of(alive, timestamp),
                ) + event_msgs(
                    retransmit_wire(old(self).publisher.pending@, old(self).publisher.origin),
                ));
            }
            self.ticks_since_retransmit = 0;
        } else {
            self.ticks_since_retransmit = self.ticks_since_retransmit + 1;
            proof {
                assert(self.outgoing@ =~= out_before + snap_msgs(
                    local_snaps_of(alive, timestamp),
                ) + Seq::<WireMessage>::empty());
            }
        }
    }

    /// Messages queued for transmission, drained for the host to
    /// encode and send, oldest first.
    pub fn take_outgoing(&mut self) -> (out: Vec<WireMessage>)
        requires
            session_wf(*old(self)),
        ensures
            session_wf(*final(self)),
            out@ == old(self).outgoing@,
            final(self).outgoing@.len() == 0,
            final(self).transport == old(self).transport,
            final(self).allocator == old(self).allocator,
            final(self).synchronizer == old(self).synchronizer,
            final(self).receiver == old(self).receiver,
            final(self).publisher == old(self).publisher,
            final(self).credentials == old(self).credentials,
            final(self).quit_requested == old(self).quit_requested,
            final(self).ticks_since_retransmit == old(self).ticks_since_retransmit,
    {
        let mut drained: Vec<WireMessage> = Vec::new();
        core::mem::swap(&mut drained, &mut self.outgoing);
        drained
    }
}

} // verus!
