use netsync::codec::decode;
use netsync::codec::encode;
use netsync::events::EventPublisher;
use netsync::events::EventReceiver;
use netsync::events::GlobalEvent;
use netsync::events::EVENT_RETRY_BUDGET;
use netsync::identity::AllocateStatus;
use netsync::identity::HandshakeError;
use netsync::identity::HandshakeResponse;
use netsync::identity::HANDSHAKE_TIMEOUT_TICKS;
use netsync::session::NetSession;
use netsync::session::WireMessage;
use netsync::sync::ApplyOutcome;
use netsync::sync::EntitySnapshot;
use netsync::sync::EntityState;
use netsync::sync::EntitySynchronizer;
use netsync::sync::COORD_LIMIT;
use netsync::sync::GRACE_PERIOD_TICKS;
use netsync::sync::RESYNC_DROP_THRESHOLD;
use netsync::transport::ConnectionState;
use netsync::transport::DisconnectCause;
use netsync::transport::Transport;
use netsync::transport::INITIAL_BACKOFF_TICKS;
use netsync::transport::MAX_BACKOFF_TICKS;
use netsync::transport::MAX_RECONNECT_ATTEMPTS;

fn state(x: i64, y: i64, o: i64) -> EntityState {
    EntityState {
        pos_x: x,
        pos_y: y,
        orientation: o,
    }
}

fn snap(identity: u64, seq: u64, x: i64) -> EntitySnapshot {
    EntitySnapshot {
        identity,
        seq,
        state: state(x, 0, 0),
        timestamp: 0,
    }
}

fn ev(origin: u64, seq: u64, payload: u64) -> GlobalEvent {
    GlobalEvent {
        origin,
        seq,
        payload,
    }
}

// Scenario A: handshake succeeds, the server assigns identity 7.
#[test]
fn handshake_assigns_identity_seven() {
    let mut s = NetSession::new();
    s.connect(42);
    assert_eq!(s.local_identity(), None);
    s.on_channel_open();
    let sent = s.take_outgoing();
    assert_eq!(sent.len(), 1);
    assert_eq!(sent[0], WireMessage::Handshake { credentials: 42 });
    let st = s.poll_handshake(1, Some(HandshakeResponse::Ack { identity: 7 }));
    assert_eq!(st, AllocateStatus::Ready { identity: 7 });
    assert_eq!(s.local_identity(), Some(7));
    assert!(s.connected());
}

// Scenario E: no handshake response within the timeout.
#[test]
fn handshake_timeout_disconnects() {
    let mut s = NetSession::new();
    s.connect(42);
    s.on_channel_open();
    let mut waited = 0u64;
    let mut last = AllocateStatus::Pending;
    while waited < HANDSHAKE_TIMEOUT_TICKS {
        last = s.poll_handshake(1, None);
        waited += 1;
        if last != AllocateStatus::Pending {
            break;
        }
    }
    assert_eq!(
        last,
        AllocateStatus::Failed {
            error: HandshakeError::HandshakeTimeout
        }
    );
    assert_eq!(s.local_identity(), None);
    assert_eq!(s.transport.state, ConnectionState::Disconnected);
}

#[test]
fn handshake_rejection_disconnects() {
    let mut s = NetSession::new();
    s.connect(9);
    s.on_channel_open();
    let st = s.poll_handshake(1, Some(HandshakeResponse::Reject));
    assert_eq!(
        st,
        AllocateStatus::Failed {
            error: HandshakeError::HandshakeRejected
        }
    );
    assert_eq!(s.transport.state, ConnectionState::Disconnected);
    assert_eq!(s.transport.cause, Some(DisconnectCause::Rejected));
}

// Scenario B: snapshots arriving 5 then 4; only the seq-5 state is applied.
#[test]
fn out_of_order_snapshot_discarded() {
    let mut sy = EntitySynchronizer::new();
    assert!(sy.register_remote(3));
    assert_eq!(sy.apply_snapshot(snap(3, 5, 500)), ApplyOutcome::Applied);
    assert_eq!(sy.apply_snapshot(snap(3, 4, 400)), ApplyOutcome::Stale);
    assert_eq!(sy.entity_state(3), Some(state(500, 0, 0)));
}

// The latest sequence number wins whatever the arrival order.
#[test]
fn latest_sequence_wins_any_order() {
    let arrivals = [2u64, 7, 1, 5, 3];
    let mut sy = EntitySynchronizer::new();
    assert!(sy.register_remote(11));
    for &q in arrivals.iter() {
        sy.apply_snapshot(snap(11, q, (q * 10) as i64));
    }
    assert_eq!(sy.entity_state(11), Some(state(70, 0, 0)));
}

// Idempotence: re-applying an already-applied snapshot changes nothing.
#[test]
fn reapply_is_idempotent() {
    let mut sy = EntitySynchronizer::new();
    assert!(sy.register_remote(4));
    let s5 = snap(4, 5, 123);
    assert_eq!(sy.apply_snapshot(s5), ApplyOutcome::Applied);
    let before = sy.entity_state(4);
    assert_eq!(sy.apply_snapshot(s5), ApplyOutcome::Stale);
    assert_eq!(sy.entity_state(4), before);
}

#[test]
fn unknown_and_malformed_snapshots_dropped() {
    let mut sy = EntitySynchronizer::new();
    assert_eq!(sy.apply_snapshot(snap(8, 1, 0)), ApplyOutcome::Unknown);
    assert!(sy.register_remote(8));
    let bad = snap(8, 1, COORD_LIMIT + 1);
    assert_eq!(sy.apply_snapshot(bad), ApplyOutcome::Malformed);
    assert_eq!(sy.entity_state(8), Some(state(0, 0, 0)));
    assert!(!sy.needs_resync(8));
    for _ in 0..RESYNC_DROP_THRESHOLD {
        sy.apply_snapshot(bad);
    }
    assert!(sy.needs_resync(8));
}

// Scenario D: after the grace period with no further snapshots the
// remote entity is removed from the local view.
#[test]
fn grace_period_removes_disconnected_entity() {
    let mut s = NetSession::new();
    assert!(s.register_remote_entity(3));
    assert_eq!(s.handle_snapshot(snap(3, 1, 10)), ApplyOutcome::Applied);
    s.on_identity_disconnected(3);
    for t in 0..GRACE_PERIOD_TICKS - 1 {
        s.tick(t);
    }
    assert!(s.synchronizer.entity_state(3).is_some());
    s.tick(GRACE_PERIOD_TICKS);
    assert_eq!(s.synchronizer.entity_state(3), None);
}

// A snapshot arriving during the grace period cancels the removal.
#[test]
fn snapshot_during_grace_cancels_removal() {
    let mut s = NetSession::new();
    assert!(s.register_remote_entity(3));
    assert_eq!(s.handle_snapshot(snap(3, 1, 10)), ApplyOutcome::Applied);
    s.on_identity_disconnected(3);
    for t in 0..GRACE_PERIOD_TICKS / 2 {
        s.tick(t);
    }
    assert_eq!(s.handle_snapshot(snap(3, 2, 20)), ApplyOutcome::Applied);
    for t in 0..GRACE_PERIOD_TICKS + 2 {
        s.tick(t);
    }
    assert_eq!(s.synchronizer.entity_state(3), Some(state(20, 0, 0)));
}

// Scenario C: the ack is lost twice and received on the third
// retransmit; the consumer sees the event exactly once.
#[test]
fn ack_lost_twice_delivers_exactly_once() {
    let mut publisher = EventPublisher::new(9);
    let mut receiver = EventReceiver::new();

    let e = publisher.publish(77).expect("sequence space fresh");
    assert_eq!(e, ev(9, 1, 77));

    // first transmission arrives; the ack back is lost
    assert_eq!(receiver.receive(e), 1);
    // two retransmissions arrive as duplicates; acks lost again
    for _ in 0..2 {
        let resend = publisher.retransmit_tick();
        assert_eq!(resend.len(), 1);
        assert_eq!(receiver.receive(resend[0]), 0);
    }
    // third retransmission: this time the ack gets through
    let resend = publisher.retransmit_tick();
    assert_eq!(resend.len(), 1);
    assert_eq!(receiver.receive(resend[0]), 0);
    publisher.on_ack(1);
    assert_eq!(publisher.pending.len(), 0);

    let got = receiver.subscribe_events();
    assert_eq!(got, vec![ev(9, 1, 77)]);
    assert_eq!(receiver.subscribe_events(), vec![]);
}

// Round trip: events published from one origin and delivered under
// reordering and duplication arrive exactly once, in order.
#[test]
fn round_trip_reordered_duplicated() {
    let mut publisher = EventPublisher::new(5);
    let mut receiver = EventReceiver::new();
    let mut sent = Vec::new();
    for p in [100u64, 200, 300, 400] {
        sent.push(publisher.publish(p).unwrap());
    }
    // arrival order 3, 1, 1, 4, 2, 3: duplicates and reordering
    for idx in [2usize, 0, 0, 3, 1, 2] {
        receiver.receive(sent[idx]);
    }
    let got = receiver.subscribe_events();
    assert_eq!(
        got,
        vec![ev(5, 1, 100), ev(5, 2, 200), ev(5, 3, 300), ev(5, 4, 400)]
    );
}

// Delivery is non-decreasing per origin with no duplicates, while
// different origins may interleave.
#[test]
fn per_origin_order_with_interleaving() {
    let mut receiver = EventReceiver::new();
    receiver.receive(ev(1, 2, 12));
    receiver.receive(ev(2, 1, 21));
    receiver.receive(ev(1, 1, 11));
    receiver.receive(ev(2, 2, 22));
    receiver.receive(ev(2, 2, 22));
    let got = receiver.subscribe_events();
    assert_eq!(got, vec![ev(2, 1, 21), ev(1, 1, 11), ev(1, 2, 12), ev(2, 2, 22)]);
    let mut last_per_origin = std::collections::HashMap::new();
    for e in got.iter() {
        if let Some(prev) = last_per_origin.get(&e.origin) {
            assert!(e.seq > *prev);
        }
        last_per_origin.insert(e.origin, e.seq);
    }
}

// A gap stalls later events from the same origin until it is filled.
#[test]
fn gap_stalls_delivery_until_filled() {
    let mut receiver = EventReceiver::new();
    assert_eq!(receiver.receive(ev(6, 2, 2)), 0);
    assert_eq!(receiver.receive(ev(6, 3, 3)), 0);
    assert_eq!(receiver.subscribe_events(), vec![]);
    assert_eq!(receiver.receive(ev(6, 1, 1)), 3);
    assert_eq!(
        receiver.subscribe_events(),
        vec![ev(6, 1, 1), ev(6, 2, 2), ev(6, 3, 3)]
    );
}

// After the retry budget is exhausted the event is abandoned and the
// publisher is notified of the delivery failure.
#[test]
fn retry_budget_exhaustion_abandons_event() {
    let mut publisher = EventPublisher::new(2);
    publisher.publish(55).unwrap();
    for _ in 0..EVENT_RETRY_BUDGET {
        let resend = publisher.retransmit_tick();
        assert_eq!(resend.len(), 1);
    }
    assert!(publisher.take_failed().is_empty());
    let resend = publisher.retransmit_tick();
    assert!(resend.is_empty());
    assert_eq!(publisher.pending.len(), 0);
    assert_eq!(publisher.take_failed(), vec![1]);
    assert!(publisher.take_failed().is_empty());
}

#[test]
fn publish_requires_identity() {
    let mut s = NetSession::new();
    assert_eq!(s.publish_event(5), None);
    s.connect(1);
    s.on_channel_open();
    s.poll_handshake(1, Some(HandshakeResponse::Ack { identity: 9 }));
    let e = s.publish_event(5).expect("identity held");
    assert_eq!(e, ev(9, 1, 5));
    let sent = s.take_outgoing();
    assert!(sent.contains(&WireMessage::Event { event: e }));
}

#[test]
fn transport_state_machine_and_backoff() {
    let mut t = Transport::new();
    assert!(!t.connected());
    t.connect();
    assert_eq!(t.state, ConnectionState::Connecting);
    t.on_channel_open();
    assert_eq!(t.state, ConnectionState::Handshaking);
    t.on_handshake_complete();
    assert!(t.connected());
    t.on_connection_lost();
    assert_eq!(t.state, ConnectionState::Reconnecting);
    assert_eq!(t.backoff, INITIAL_BACKOFF_TICKS);
    t.on_reconnect_failed();
    assert_eq!(t.backoff, INITIAL_BACKOFF_TICKS * 2);
    let mut attempts = 1;
    while t.state == ConnectionState::Reconnecting {
        t.on_reconnect_failed();
        attempts += 1;
        assert!(t.backoff <= MAX_BACKOFF_TICKS);
    }
    assert_eq!(attempts, MAX_RECONNECT_ATTEMPTS);
    assert_eq!(t.state, ConnectionState::Disconnected);
    assert_eq!(t.cause, Some(DisconnectCause::RetriesExhausted));
}

#[test]
fn send_buffers_only_when_channel_usable() {
    let mut t = Transport::new();
    t.send(vec![1, 2, 3]);
    assert_eq!(t.take_outgoing().len(), 0);
    t.connect();
    t.on_channel_open();
    t.on_handshake_complete();
    t.send(vec![4]);
    t.on_connection_lost();
    t.send(vec![5]);
    let out = t.take_outgoing();
    assert_eq!(out, vec![vec![4], vec![5]]);
    assert_eq!(t.take_outgoing().len(), 0);
}

#[test]
fn local_entities_publish_with_fresh_sequence_numbers() {
    let mut s = NetSession::new();
    s.connect(1);
    s.on_channel_open();
    s.poll_handshake(1, Some(HandshakeResponse::Ack { identity: 7 }));
    assert!(s.register_local_entity(state(10, 20, 0)));
    s.take_outgoing();
    s.tick(1000);
    let first = s.take_outgoing();
    assert_eq!(
        first,
        vec![WireMessage::Snapshot {
            snap: EntitySnapshot {
                identity: 7,
                seq: 1,
                state: state(10, 20, 0),
                timestamp: 1000,
            }
        }]
    );
    assert!(s.synchronizer.set_local_state(7, state(11, 20, 0)));
    s.tick(1001);
    let second = s.take_outgoing();
    assert_eq!(
        second,
        vec![WireMessage::Snapshot {
            snap: EntitySnapshot {
                identity: 7,
                seq: 2,
                state: state(11, 20, 0),
                timestamp: 1001,
            }
        }]
    );
}

#[test]
fn duplicate_registration_fails() {
    let mut sy = EntitySynchronizer::new();
    assert!(sy.register_remote(3));
    assert!(!sy.register_remote(3));
    assert!(!sy.register_local(3, state(0, 0, 0)));
}

// Interpolation: halfway through the tick interval the presentation
// sits halfway between the previous and the latest applied state.
#[test]
fn presentation_interpolates_and_freezes() {
    let mut sy = EntitySynchronizer::new();
    assert!(sy.register_remote(2));
    sy.apply_snapshot(snap(2, 1, 100));
    sy.apply_snapshot(snap(2, 2, 200));
    // prev = 100, curr = 200, interval 100
    assert_eq!(sy.presentation(2, 0, 100), Some(state(100, 0, 0)));
    assert_eq!(sy.presentation(2, 50, 100), Some(state(150, 0, 0)));
    assert_eq!(sy.presentation(2, 100, 100), Some(state(200, 0, 0)));
    // bounded extrapolation up to one extra interval, frozen beyond
    assert_eq!(sy.presentation(2, 150, 100), Some(state(250, 0, 0)));
    assert_eq!(sy.presentation(2, 200, 100), Some(state(300, 0, 0)));
    assert_eq!(sy.presentation(2, 10000, 100), Some(state(300, 0, 0)));
    assert_eq!(sy.presentation(99, 0, 100), None);
}

#[test]
fn quit_tears_down_session() {
    let mut s = NetSession::new();
    s.connect(1);
    s.on_channel_open();
    s.poll_handshake(1, Some(HandshakeResponse::Ack { identity: 7 }));
    s.quit();
    assert!(s.quit_requested);
    assert_eq!(s.transport.state, ConnectionState::Disconnected);
    assert_eq!(s.transport.cause, Some(DisconnectCause::Quit));
    assert_eq!(s.local_identity(), None);
}

#[test]
fn received_events_are_acknowledged() {
    let mut s = NetSession::new();
    let n = s.handle_event(ev(3, 1, 30));
    assert_eq!(n, 1);
    let out = s.take_outgoing();
    assert_eq!(out, vec![WireMessage::EventAck { origin: 3, seq: 1 }]);
    assert_eq!(s.subscribe_events(), vec![ev(3, 1, 30)]);
}

#[test]
fn event_ack_clears_pending() {
    let mut s = NetSession::new();
    s.connect(1);
    s.on_channel_open();
    s.poll_handshake(1, Some(HandshakeResponse::Ack { identity: 4 }));
    s.publish_event(9).unwrap();
    assert_eq!(s.publisher.pending.len(), 1);
    s.handle_event_ack(7, 1); // someone else's ack: ignored
    assert_eq!(s.publisher.pending.len(), 1);
    s.handle_event_ack(4, 1);
    assert_eq!(s.publisher.pending.len(), 0);
}

#[test]
fn invalid_event_sequence_numbers_dropped() {
    let mut receiver = EventReceiver::new();
    assert_eq!(receiver.receive(ev(1, 0, 5)), 0);
    assert_eq!(receiver.receive(ev(1, u64::MAX, 5)), 0);
    assert_eq!(receiver.subscribe_events(), vec![]);
}

// An origin disconnecting flushes its held-back events in sequence
// order and reports the gap.
#[test]
fn origin_disconnect_flushes_buffer_and_reports_gap() {
    let mut s = NetSession::new();
    s.handle_event(ev(6, 2, 20));
    s.handle_event(ev(6, 4, 40));
    assert_eq!(s.subscribe_events(), vec![]);
    let gap = s.on_identity_disconnected(6);
    assert!(gap);
    assert_eq!(s.subscribe_events(), vec![ev(6, 2, 20), ev(6, 4, 40)]);
    assert!(!s.on_identity_disconnected(99));
}

// Interpolation toward a smaller coordinate moves backwards linearly.
#[test]
fn presentation_interpolates_backwards_motion() {
    let mut sy = EntitySynchronizer::new();
    assert!(sy.register_remote(5));
    sy.apply_snapshot(snap(5, 1, 200));
    sy.apply_snapshot(snap(5, 2, 100));
    assert_eq!(sy.presentation(5, 0, 100), Some(state(200, 0, 0)));
    assert_eq!(sy.presentation(5, 50, 100), Some(state(150, 0, 0)));
    assert_eq!(sy.presentation(5, 100, 100), Some(state(100, 0, 0)));
    assert_eq!(sy.presentation(5, 10000, 100), Some(state(0, 0, 0)));
}

// The next sequence number owed per origin advances only with gapless
// delivery.
#[test]
fn expected_of_tracks_gapless_delivery() {
    let mut receiver = EventReceiver::new();
    assert_eq!(receiver.expected_of(6), 1);
    receiver.receive(ev(6, 2, 2));
    assert_eq!(receiver.expected_of(6), 1);
    receiver.receive(ev(6, 1, 1));
    assert_eq!(receiver.expected_of(6), 3);
}

// A whole session: handshake, registration, snapshot exchange, events
// with an ack, a remote disconnect, and teardown.
#[test]
fn end_to_end_session_flow() {
    let mut s = NetSession::new();
    s.connect(99);
    s.on_channel_open();
    assert_eq!(
        s.poll_handshake(2, Some(HandshakeResponse::Ack { identity: 7 })),
        AllocateStatus::Ready { identity: 7 }
    );
    assert!(s.register_local_entity(state(1, 2, 3)));
    assert!(s.register_remote_entity(3));
    s.take_outgoing();

    // a remote snapshot and an event arrive in the same frame
    assert_eq!(s.handle_snapshot(snap(3, 1, 40)), ApplyOutcome::Applied);
    assert_eq!(s.handle_event(ev(3, 1, 77)), 1);
    assert_eq!(s.subscribe_events(), vec![ev(3, 1, 77)]);

    // our own event goes out and is acknowledged
    let mine = s.publish_event(5).unwrap();
    assert_eq!(mine, ev(7, 1, 5));
    s.handle_event_ack(7, 1);
    assert_eq!(s.publisher.pending.len(), 0);

    // one tick publishes the local entity under seq 1
    s.tick(10);
    let out = s.take_outgoing();
    assert!(out.iter().any(|m| matches!(
        m,
        WireMessage::Snapshot { snap } if snap.identity == 7 && snap.seq == 1
    )));

    // the remote participant leaves; its entity survives the grace
    // period only briefly
    s.on_identity_disconnected(3);
    for t in 0..GRACE_PERIOD_TICKS + 1 {
        s.tick(t);
    }
    assert_eq!(s.synchronizer.entity_state(3), None);
    assert_eq!(s.synchronizer.entity_state(7), Some(state(1, 2, 3)));

    s.quit();
    assert!(s.quit_requested);
    assert!(!s.connected());
}

// The wire codec returns every message unchanged, and rejects
// malformed bytes.
#[test]
fn codec_round_trips_every_message() {
    let messages = vec![
        WireMessage::Handshake { credentials: 0xDEAD_BEEF },
        WireMessage::HandshakeAck { identity: 7 },
        WireMessage::HandshakeReject,
        WireMessage::Snapshot {
            snap: EntitySnapshot {
                identity: 3,
                seq: 9,
                state: state(-400, 160, 2),
                timestamp: 1234,
            },
        },
        WireMessage::Event {
            event: ev(9, 1, u64::MAX),
        },
        WireMessage::EventAck { origin: 9, seq: 1 },
        WireMessage::Heartbeat,
    ];
    for m in messages {
        assert_eq!(decode(&encode(&m)), Some(m));
    }
    assert_eq!(decode(&vec![]), None);
    assert_eq!(decode(&vec![9]), None);
    assert_eq!(decode(&vec![1, 2, 3]), None);
}

// One encoding is pinned exactly, so the format cannot drift.
#[test]
fn codec_exact_bytes() {
    let bytes = encode(&WireMessage::EventAck { origin: 2, seq: 258 });
    assert_eq!(
        bytes,
        vec![6, 2, 0, 0, 0, 0, 0, 0, 0, 2, 1, 0, 0, 0, 0, 0, 0]
    );
}
