//! Transport connection: the state machine that owns the channel to
//! the server. The host performs the actual socket work and reports
//! what happened (channel opened, data arrived, channel lost); this
//! module decides every state transition, the reconnect backoff and
//! the retry budget, and buffers outbound bytes while the channel is
//! usable.

use vstd::prelude::*;

verus! {

/// Maximum number of reconnect attempts before the connection becomes
/// terminally `Disconnected`.
pub const MAX_RECONNECT_ATTEMPTS: u64 = 8;

/// Backoff interval (in ticks) for the first reconnect attempt.
pub const INITIAL_BACKOFF_TICKS: u64 = 30;

/// Cap on the exponential reconnect backoff, in ticks.
pub const MAX_BACKOFF_TICKS: u64 = 1920;

/// The connection lifecycle. Exactly one per session; mutated only by
/// the transport.
#[derive(Clone, Copy, PartialEq, Eq, Structural, Debug)]
pub enum ConnectionState {
    Disconnected,
    Connecting,
    Handshaking,
    Connected,
    Reconnecting,
}

/// Why the connection ended up `Disconnected`. Recorded so the UI can
/// show a cause; never consulted by the core's own logic.
#[derive(Clone, Copy, PartialEq, Eq, Structural, Debug)]
pub enum DisconnectCause {
    /// Explicit quit requested by the local participant.
    Quit,
    /// The host could not reach or was refused by the server.
    Unreachable,
    /// The server rejected the session (for example bad credentials).
    Rejected,
    /// The reconnect retry budget was exhausted.
    RetriesExhausted,
}

/// The transport connection. Outbound bytes are queued in `outbox`;
/// the host drains it with `take_outgoing` and writes the bytes to the
/// real channel.
pub struct Transport {
    pub state: ConnectionState,
    /// Reconnect attempts already made since the last stable connection.
    pub retries: u64,
    /// Current backoff interval before the next reconnect attempt.
    pub backoff: u64,
    /// Messages queued for transmission, oldest first.
    pub outbox: Vec<Vec<u8>>,
    /// Why the state is `Disconnected`, once it is.
    pub cause: Option<DisconnectCause>,
}

impl Transport {
    /// A fresh transport: disconnected, no retries used, empty outbox.
    pub fn new() -> (t: Transport)
        ensures
            t.state == ConnectionState::Disconnected,
            t.retries == 0,
            t.backoff == INITIAL_BACKOFF_TICKS,
            t.outbox@.len() == 0,
            t.cause is None,
    {
        Transport {
            state: ConnectionState::Disconnected,
            retries: 0,
            backoff: INITIAL_BACKOFF_TICKS,
            outbox: Vec::new(),
            cause: None,
        }
    }

    /// Non-blocking connection initiation. Never fails synchronously:
    /// failures surface later as a transition to `Disconnected` with a
    /// recorded cause. A no-op unless currently `Disconnected`.
    pub fn connect(&mut self)
        ensures
            old(self).state == ConnectionState::Disconnected ==> final(self).state
                == ConnectionState::Connecting && final(self).retries == 0 && final(self).backoff
                == INITIAL_BACKOFF_TICKS && final(self).cause is None,
            old(self).state != ConnectionState::Disconnected ==> *final(self) == *old(self),
            final(self).outbox@ == old(self).outbox@,
    {
        if self.state == ConnectionState::Disconnected {
            self.state = ConnectionState::Connecting;
            self.retries = 0;
            self.backoff = INITIAL_BACKOFF_TICKS;
            self.cause = None;
        }
    }

    /// Whether the connection is fully established.
    pub fn connected(&self) -> (r: bool)
        ensures
            r == (self.state == ConnectionState::Connected),
    {
        self.state == ConnectionState::Connected
    }

    /// The host reports that the raw channel opened: the handshake can
    /// begin. Meaningful only while `Connecting` or `Reconnecting`.
    pub fn on_channel_open(&mut self)
        ensures
            (old(self).state == ConnectionState::Connecting || old(self).state
                == ConnectionState::Reconnecting) ==> *final(self) == (Transport {
                state: ConnectionState::Handshaking,
                ..*old(self)
            }),
            !(old(self).state == ConnectionState::Connecting || old(self).state
                == ConnectionState::Reconnecting) ==> *final(self) == *old(self),
    {
        if self.state == ConnectionState::Connecting || self.state
            == ConnectionState::Reconnecting {
            self.state = ConnectionState::Handshaking;
        }
    }

    /// The handshake concluded successfully: the connection is up and
    /// the retry budget is replenished.
    pub fn on_handshake_complete(&mut self)
        ensures
            old(self).state == ConnectionState::Handshaking ==> *final(self) == (Transport {
                state: ConnectionState::Connected,
                retries: 0,
                backoff: INITIAL_BACKOFF_TICKS,
                ..*old(self)
            }),
            old(self).state != ConnectionState::Handshaking ==> *final(self) == *old(self),
    {
        if self.state == ConnectionState::Handshaking {
            self.state = ConnectionState::Connected;
            self.retries = 0;
            self.backoff = INITIAL_BACKOFF_TICKS;
        }
    }

    /// Transient loss of an established connection: enter
    /// `Reconnecting` and start the backoff schedule.
    pub fn on_connection_lost(&mut self)
        ensures
            old(self).state == ConnectionState::Connected ==> *final(self) == (Transport {
                state: ConnectionState::Reconnecting,
                retries: 0,
                backoff: INITIAL_BACKOFF_TICKS,
                ..*old(self)
            }),
            old(self).state != ConnectionState::Connected ==> *final(self) == *old(self),
    {
        if self.state == ConnectionState::Connected {
            self.state = ConnectionState::Reconnecting;
            self.retries = 0;
            self.backoff = INITIAL_BACKOFF_TICKS;
        }
    }

    /// A reconnect attempt failed. The backoff doubles up to
    /// `MAX_BACKOFF_TICKS`; once `MAX_RECONNECT_ATTEMPTS` attempts have
    /// failed the state becomes terminal `Disconnected` with cause
    /// `RetriesExhausted`.
    pub fn on_reconnect_failed(&mut self)
        ensures
            old(self).state == ConnectionState::Reconnecting && old(self).retries + 1
                < MAX_RECONNECT_ATTEMPTS ==> *final(self) == (Transport {
                retries: (old(self).retries + 1) as u64,
                backoff: doubled_backoff(old(self).backoff),
                ..*old(self)
            }),
            old(self).state == ConnectionState::Reconnecting && old(self).retries + 1
                >= MAX_RECONNECT_ATTEMPTS ==> *final(self) == (Transport {
                state: ConnectionState::Disconnected,
                cause: Some(DisconnectCause::RetriesExhausted),
                ..*old(self)
            }),
            old(self).state != ConnectionState::Reconnecting ==> *final(self) == *old(self),
    {
        if self.state == ConnectionState::Reconnecting {
            if self.retries >= MAX_RECONNECT_ATTEMPTS - 1 {
                self.state = ConnectionState::Disconnected;
                self.cause = Some(DisconnectCause::RetriesExhausted);
            } else {
                self.retries = self.retries + 1;
                if self.backoff <= MAX_BACKOFF_TICKS / 2 {
                    self.backoff = self.backoff * 2;
                } else {
                    self.backoff = MAX_BACKOFF_TICKS;
                }
            }
        }
    }

    /// Explicit quit or unrecoverable error: from any state, become
    /// `Disconnected` with the given cause. Cancels all in-flight work
    /// by discarding the outbox.
    pub fn disconnect(&mut self, cause: DisconnectCause)
        ensures
            final(self).state == ConnectionState::Disconnected,
            final(self).cause == Some(cause),
            final(self).outbox@.len() == 0,
            final(self).retries == old(self).retries,
            final(self).backoff == old(self).backoff,
    {
        self.state = ConnectionState::Disconnected;
        self.cause = Some(cause);
        self.outbox = Vec::new();
    }

    /// Enqueue bytes for transmission. Fails silently when the channel
    /// is not usable: the bytes are kept only while `Connected` (live
    /// channel) or `Reconnecting`/`Handshaking` (internal buffering
    /// until the channel is back).
    pub fn send(&mut self, message: Vec<u8>)
        ensures
            buffering(old(self).state) ==> final(self).outbox@ == old(self).outbox@.push(
                message,
            ),
            !buffering(old(self).state) ==> final(self).outbox@ == old(self).outbox@,
            final(self).state == old(self).state,
            final(self).retries == old(self).retries,
            final(self).backoff == old(self).backoff,
            final(self).cause == old(self).cause,
    {
        if self.state == ConnectionState::Connected || self.state == ConnectionState::Reconnecting
            || self.state == ConnectionState::Handshaking {
            self.outbox.push(message);
        }
    }

    /// Drain everything queued for transmission; the host writes the
    /// returned messages, oldest first, to the real channel.
    pub fn take_outgoing(&mut self) -> (out: Vec<Vec<u8>>)
        ensures
            out@ == old(self).outbox@,
            final(self).outbox@.len() == 0,
            final(self).state == old(self).state,
            final(self).retries == old(self).retries,
            final(self).backoff == old(self).backoff,
            final(self).cause == old(self).cause,
    {
        let mut drained: Vec<Vec<u8>> = Vec::new();
        core::mem::swap(&mut drained, &mut self.outbox);
        drained
    }
}

/// In which states `send` keeps the bytes rather than dropping them.
pub open spec fn buffering(s: ConnectionState) -> bool {
    s == ConnectionState::Connected || s == ConnectionState::Reconnecting || s
        == ConnectionState::Handshaking
}

/// The exponential backoff step: double, capped at `MAX_BACKOFF_TICKS`.
pub open spec fn doubled_backoff(b: u64) -> u64 {
    if b <= MAX_BACKOFF_TICKS / 2 {
        (b * 2) as u64
    } else {
        MAX_BACKOFF_TICKS
    }
}

} // verus!
