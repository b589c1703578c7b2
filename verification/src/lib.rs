//! Network synchronization core for a real-time multiplayer client.
//!
//! The crate models the four cooperating components of the sync layer:
//! a transport connection state machine (`transport`), an identity
//! allocator driven by the handshake (`identity`), an entity
//! synchronizer that applies remote snapshots and publishes local ones
//! (`sync`), and a reliable ordered-per-origin global event channel
//! (`events`). `session` ties them together behind the surface that
//! game logic consumes. All network I/O is performed by the host: the
//! library is a set of pure, frame-driven state machines that take
//! received messages in and hand messages to send out.

pub mod codec;
pub mod events;
pub mod identity;
pub mod session;
pub mod sync;
pub mod transport;
