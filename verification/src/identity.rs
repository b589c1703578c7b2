//! Identity allocator: negotiates the local participant's network
//! identity during the handshake. The caller is suspended
//! cooperatively: it starts the handshake, then polls once per frame
//! with the elapsed time and whatever response arrived, until the
//! server answers or the timeout elapses.

use vstd::prelude::*;

verus! {

/// Ticks a handshake may wait for the server's answer before it fails
/// with `HandshakeTimeout`.
pub const HANDSHAKE_TIMEOUT_TICKS: u64 = 300;

/// Why a handshake failed. Fatal to the current session: the caller
/// decides whether to reconnect and retry the whole sequence.
#[derive(Clone, Copy, PartialEq, Eq, Structural, Debug)]
pub enum HandshakeError {
    /// No response arrived within `HANDSHAKE_TIMEOUT_TICKS`.
    HandshakeTimeout,
    /// The server rejected the credentials or join parameters.
    HandshakeRejected,
}

/// The server's answer to a handshake request.
#[derive(Clone, Copy, PartialEq, Eq, Structural, Debug)]
pub enum HandshakeResponse {
    /// The server assigned this network identity.
    Ack { identity: u64 },
    /// The server refused the session.
    Reject,
}

/// Where the allocator stands in the handshake.
#[derive(Clone, Copy, PartialEq, Eq, Structural, Debug)]
pub enum HandshakePhase {
    /// No handshake started, or the identity was released.
    Idle,
    /// Request sent; `waited` ticks have elapsed with no answer yet.
    Waiting { waited: u64 },
    /// The server assigned an identity.
    Assigned,
    /// The handshake failed; no identity is held.
    Failed,
}

/// What one poll of an in-flight handshake produced.
#[derive(Clone, Copy, PartialEq, Eq, Structural, Debug)]
pub enum AllocateStatus {
    /// Still waiting on the server.
    Pending,
    /// The handshake concluded; this is the assigned identity.
    Ready { identity: u64 },
    /// The handshake failed for this reason.
    Failed { error: HandshakeError },
}

/// The allocator: at most one identity per session, assigned once and
/// immutable until released on disconnect.
pub struct IdentityAllocator {
    pub phase: HandshakePhase,
    pub identity: Option<u64>,
}

/// An allocator only holds an identity once the handshake succeeded.
pub open spec fn allocator_wf(a: IdentityAllocator) -> bool {
    a.identity is Some <==> a.phase == HandshakePhase::Assigned
}

impl IdentityAllocator {
    /// A fresh allocator: no handshake in flight, no identity.
    pub fn new() -> (a: IdentityAllocator)
        ensures
            a.phase == HandshakePhase::Idle,
            a.identity is None,
            allocator_wf(a),
    {
        IdentityAllocator { phase: HandshakePhase::Idle, identity: None }
    }

    /// Start the handshake: the credentials have been handed to the
    /// transport and the allocator now waits for the server's answer.
    pub fn begin(&mut self)
        requires
            old(self).phase == HandshakePhase::Idle || old(self).phase == HandshakePhase::Failed,
            allocator_wf(*old(self)),
        ensures
            final(self).phase == (HandshakePhase::Waiting { waited: 0 }),
            final(self).identity is None,
            allocator_wf(*final(self)),
    {
        self.phase = HandshakePhase::Waiting { waited: 0 };
    }

    /// One frame of the cooperative wait: account for elapsed time and
    /// apply the server's response if one arrived. Returns `Ready` with
    /// the assigned identity on an ack, `Failed(HandshakeRejected)` on
    /// a rejection, `Failed(HandshakeTimeout)` once the wait exceeds
    /// `HANDSHAKE_TIMEOUT_TICKS` with no answer, and `Pending`
    /// otherwise. A response that arrives on the same frame the
    /// timeout elapses still wins: the timeout is checked only when no
    /// response is at hand.
    pub fn poll(&mut self, elapsed: u64, response: Option<HandshakeResponse>) -> (status:
        AllocateStatus)
        requires
            old(self).phase matches HandshakePhase::Waiting { .. },
            allocator_wf(*old(self)),
        ensures
            allocator_wf(*final(self)),
            response matches Some(HandshakeResponse::Ack { identity }) ==> {
                &&& status == (AllocateStatus::Ready { identity })
                &&& final(self).phase == HandshakePhase::Assigned
                &&& final(self).identity == Some(identity)
            },
            response == Some(HandshakeResponse::Reject) ==> {
                &&& status == (AllocateStatus::Failed {
                    error: HandshakeError::HandshakeRejected,
                })
                &&& final(self).phase == HandshakePhase::Failed
                &&& final(self).identity is None
            },
            response is None ==> (old(self).phase matches HandshakePhase::Waiting { waited }
                ==> {
                &&& waited + elapsed >= HANDSHAKE_TIMEOUT_TICKS ==> {
                    &&& status == (AllocateStatus::Failed {
                        error: HandshakeError::HandshakeTimeout,
                    })
                    &&& final(self).phase == HandshakePhase::Failed
                    &&& final(self).identity is None
                }
                &&& waited + elapsed < HANDSHAKE_TIMEOUT_TICKS ==> {
                    &&& status == AllocateStatus::Pending
                    &&& final(self).phase == (HandshakePhase::Waiting {
                        waited: (waited + elapsed) as u64,
                    })
                    &&& final(self).identity is None
                }
            }),
    {
        match response {
            Some(HandshakeResponse::Ack { identity }) => {
                self.phase = HandshakePhase::Assigned;
                self.identity = Some(identity);
                AllocateStatus::Ready { identity }
            },
            Some(HandshakeResponse::Reject) => {
                self.phase = HandshakePhase::Failed;
                AllocateStatus::Failed { error: HandshakeError::HandshakeRejected }
            },
            None => {
                let waited = match self.phase {
                    HandshakePhase::Waiting { waited } => waited,
                    _ => 0,
                };
                if elapsed >= HANDSHAKE_TIMEOUT_TICKS || waited >= HANDSHAKE_TIMEOUT_TICKS
                    - elapsed {
                    self.phase = HandshakePhase::Failed;
                    AllocateStatus::Failed { error: HandshakeError::HandshakeTimeout }
                } else {
                    self.phase = HandshakePhase::Waiting { waited: waited + elapsed };
                    AllocateStatus::Pending
                }
            },
        }
    }

    /// The assigned identity: `None` before a successful handshake and
    /// after a disconnect, `Some` in between.
    pub fn current_identity(&self) -> (r: Option<u64>)
        ensures
            r == self.identity,
    {
        self.identity
    }

    /// The session ended: release the identity.
    pub fn release(&mut self)
        ensures
            final(self).phase == HandshakePhase::Idle,
            final(self).identity is None,
            allocator_wf(*final(self)),
    {
        self.phase = HandshakePhase::Idle;
        self.identity = None;
    }
}

} // verus!
