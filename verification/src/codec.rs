//! One concrete byte encoding of the wire schema: a tag byte followed
//! by fixed-width little-endian fields. The schema itself does not
//! mandate an encoding; what it does require is that the encoding
//! preserve the message exactly, which here is the proved round-trip
//! law `lemma_codec_round_trip`.

use vstd::prelude::*;

use crate::events::GlobalEvent;
use crate::session::WireMessage;
use crate::sync::EntitySnapshot;
use crate::sync::EntityState;

verus! {

/// Byte `k` (little-endian) of `x`.
pub open spec fn le_byte(x: u64, k: u64) -> u8 {
    (x >> (8 * k)) as u8
}

/// The eight little-endian bytes of `x`.
pub open spec fn u64_le(x: u64) -> Seq<u8> {
    seq![
        le_byte(x, 0),
        le_byte(x, 1),
        le_byte(x, 2),
        le_byte(x, 3),
        le_byte(x, 4),
        le_byte(x, 5),
        le_byte(x, 6),
        le_byte(x, 7),
    ]
}

/// The value whose little-endian bytes stand at `b[i..i + 8]`.
pub open spec fn u64_at(b: Seq<u8>, i: int) -> u64 {
    (b[i] as u64) | ((b[i + 1] as u64) << 8) | ((b[i + 2] as u64) << 16) | ((b[i + 3] as u64)
        << 24) | ((b[i + 4] as u64) << 32) | ((b[i + 5] as u64) << 40) | ((b[i + 6] as u64) << 48)
        | ((b[i + 7] as u64) << 56)
}

/// Reassembling the eight little-endian bytes of `x` gives back `x`,
/// and an `i64` survives the unsigned detour.
pub proof fn lemma_le_round_trip(x: u64, y: i64)
    ensures
        ((x >> 0) as u8 as u64) | (((x >> 8) as u8 as u64) << 8) | (((x >> 16) as u8 as u64) << 16)
            | (((x >> 24) as u8 as u64) << 24) | (((x >> 32) as u8 as u64) << 32) | (((x >> 40)
            as u8 as u64) << 40) | (((x >> 48) as u8 as u64) << 48) | (((x >> 56) as u8 as u64)
            << 56) == x,
        (y as u64) as i64 == y,
{
    assert(((x >> 0) as u8 as u64) | (((x >> 8) as u8 as u64) << 8) | (((x >> 16) as u8 as u64)
        << 16) | (((x >> 24) as u8 as u64) << 24) | (((x >> 32) as u8 as u64) << 32) | (((x >> 40)
        as u8 as u64) << 40) | (((x >> 48) as u8 as u64) << 48) | (((x >> 56) as u8 as u64) << 56)
        == x) by (bit_vector);
    assert((y as u64) as i64 == y) by (bit_vector);
}

/// The bytes of one message.
pub open spec fn encoding_of(m: WireMessage) -> Seq<u8> {
    match m {
        WireMessage::Handshake { credentials } => seq![1u8] + u64_le(credentials),
        WireMessage::HandshakeAck { identity } => seq![2u8] + u64_le(identity),
        WireMessage::HandshakeReject => seq![3u8],
        WireMessage::Snapshot { snap } => seq![4u8] + u64_le(snap.identity) + u64_le(snap.seq)
            + u64_le(snap.state.pos_x as u64) + u64_le(snap.state.pos_y as u64) + u64_le(
            snap.state.orientation as u64,
        ) + u64_le(snap.timestamp),
        WireMessage::Event { event } => seq![5u8] + u64_le(event.origin) + u64_le(event.seq)
            + u64_le(event.payload),
        WireMessage::EventAck { origin, seq } => seq![6u8] + u64_le(origin) + u64_le(seq),
        WireMessage::Heartbeat => seq![7u8],
    }
}

/// What a byte string means: the unique message it encodes, or nothing.
pub open spec fn decoding_of(b: Seq<u8>) -> Option<WireMessage> {
    if b.len() == 0 {
        None
    } else if b[0] == 1 && b.len() == 9 {
        Some(WireMessage::Handshake { credentials: u64_at(b, 1) })
    } else if b[0] == 2 && b.len() == 9 {
        Some(WireMessage::HandshakeAck { identity: u64_at(b, 1) })
    } else if b[0] == 3 && b.len() == 1 {
        Some(WireMessage::HandshakeReject)
    } else if b[0] == 4 && b.len() == 49 {
        Some(
            WireMessage::Snapshot {
                snap: EntitySnapshot {
                    identity: u64_at(b, 1),
                    seq: u64_at(b, 9),
                    state: EntityState {
                        pos_x: u64_at(b, 17) as i64,
                        pos_y: u64_at(b, 25) as i64,
                        orientation: u64_at(b, 33) as i64,
                    },
                    timestamp: u64_at(b, 41),
                },
            },
        )
    } else if b[0] == 5 && b.len() == 25 {
        Some(
            WireMessage::Event {
                event: GlobalEvent { origin: u64_at(b, 1), seq: u64_at(b, 9), payload: u64_at(b, 17) },
            },
        )
    } else if b[0] == 6 && b.len() == 17 {
        Some(WireMessage::EventAck { origin: u64_at(b, 1), seq: u64_at(b, 9) })
    } else if b[0] == 7 && b.len() == 1 {
        Some(WireMessage::Heartbeat)
    } else {
        None
    }
}

/// The round-trip law the wire schema demands of any encoding: decoding
/// what was encoded gives back exactly the message.
pub proof fn lemma_codec_round_trip(m: WireMessage)
    ensures
        decoding_of(encoding_of(m)) == Some(m),
{
    let b = encoding_of(m);
    match m {
        WireMessage::Handshake { credentials } => {
            assert(b.subrange(1, 9) =~= u64_le(credentials));
            lemma_u64_at_le(b, 1, credentials);
        },
        WireMessage::HandshakeAck { identity } => {
            assert(b.subrange(1, 9) =~= u64_le(identity));
            lemma_u64_at_le(b, 1, identity);
        },
        WireMessage::HandshakeReject => {
        },
        WireMessage::Snapshot { snap } => {
            assert(b.subrange(1, 9) =~= u64_le(snap.identity));
            lemma_u64_at_le(b, 1, snap.identity);
            assert(b.subrange(9, 17) =~= u64_le(snap.seq));
            lemma_u64_at_le(b, 9, snap.seq);
            assert(b.subrange(17, 25) =~= u64_le(snap.state.pos_x as u64));
            lemma_u64_at_le(b, 17, snap.state.pos_x as u64);
            assert(b.subrange(25, 33) =~= u64_le(snap.state.pos_y as u64));
            lemma_u64_at_le(b, 25, snap.state.pos_y as u64);
            assert(b.subrange(33, 41) =~= u64_le(snap.state.orientation as u64));
            lemma_u64_at_le(b, 33, snap.state.orientation as u64);
            assert(b.subrange(41, 49) =~= u64_le(snap.timestamp));
            lemma_u64_at_le(b, 41, snap.timestamp);
            lemma_le_round_trip(0, snap.state.pos_x);
            lemma_le_round_trip(0, snap.state.pos_y);
            lemma_le_round_trip(0, snap.state.orientation);
        },
        WireMessage::Event { event } => {
            assert(b.subrange(1, 9) =~= u64_le(event.origin));
            lemma_u64_at_le(b, 1, event.origin);
            assert(b.subrange(9, 17) =~= u64_le(event.seq));
            lemma_u64_at_le(b, 9, event.seq);
            assert(b.subrange(17, 25) =~= u64_le(event.payload));
            lemma_u64_at_le(b, 17, event.payload);
        },
        WireMessage::EventAck { origin, seq } => {
            assert(b.subrange(1, 9) =~= u64_le(origin));
            lemma_u64_at_le(b, 1, origin);
            assert(b.subrange(9, 17) =~= u64_le(seq));
            lemma_u64_at_le(b, 9, seq);
        },
        WireMessage::Heartbeat => {
        },
    }
}

/// Where the bytes at `i` are the little-endian bytes of `x`, reading
/// a value there gives back `x`.
pub proof fn lemma_u64_at_le(b: Seq<u8>, i: int, x: u64)
    requires
        0 <= i,
        i + 8 <= b.len(),
        b.subrange(i, i + 8) == u64_le(x),
    ensures
        u64_at(b, i) == x,
{
    assert(b[i] == le_byte(x, 0) && b[i + 1] == le_byte(x, 1) && b[i + 2] == le_byte(x, 2) && b[i
        + 3] == le_byte(x, 3) && b[i + 4] == le_byte(x, 4) && b[i + 5] == le_byte(x, 5) && b[i + 6]
        == le_byte(x, 6) && b[i + 7] == le_byte(x, 7)) by {
        assert(forall|k: int|
            0 <= k < 8 ==> #[trigger] b.subrange(i, i + 8)[k] == b[i + k]);
    };
    lemma_le_round_trip(x, 0);
}

/// Append the eight little-endian bytes of `x`.
fn push_u64(out: &mut Vec<u8>, x: u64)
    ensures
        final(out)@ == old(out)@ + u64_le(x),
{
    out.push((x >> 0) as u8);
    out.push((x >> 8) as u8);
    out.push((x >> 16) as u8);
    out.push((x >> 24) as u8);
    out.push((x >> 32) as u8);
    out.push((x >> 40) as u8);
    out.push((x >> 48) as u8);
    out.push((x >> 56) as u8);
    proof {
        assert(out@ =~= old(out)@ + u64_le(x));
    }
}

/// Encode one message to bytes.
pub fn encode(m: &WireMessage) -> (r: Vec<u8>)
    ensures
        r@ == encoding_of(*m),
{
    let mut out: Vec<u8> = Vec::new();
    match *m {
        WireMessage::Handshake { credentials } => {
            out.push(1);
            push_u64(&mut out, credentials);
        },
        WireMessage::HandshakeAck { identity } => {
            out.push(2);
            push_u64(&mut out, identity);
        },
        WireMessage::HandshakeReject => {
            out.push(3);
        },
        WireMessage::Snapshot { snap } => {
            out.push(4);
            push_u64(&mut out, snap.identity);
            push_u64(&mut out, snap.seq);
            push_u64(&mut out, snap.state.pos_x as u64);
            push_u64(&mut out, snap.state.pos_y as u64);
            push_u64(&mut out, snap.state.orientation as u64);
            push_u64(&mut out, snap.timestamp);
        },
        WireMessage::Event { event } => {
            out.push(5);
            push_u64(&mut out, event.origin);
            push_u64(&mut out, event.seq);
            push_u64(&mut out, event.payload);
        },
        WireMessage::EventAck { origin, seq } => {
            out.push(6);
            push_u64(&mut out, origin);
            push_u64(&mut out, seq);
        },
        WireMessage::Heartbeat => {
            out.push(7);
        },
    }
    proof {
        assert(out@ =~= encoding_of(*m));
    }
    out
}

/// Read the value whose little-endian bytes stand at `b[at..at + 8]`.
fn read_u64(b: &Vec<u8>, at: usize) -> (x: u64)
    requires
        at <= usize::MAX - 8,
        at + 8 <= b@.len(),
    ensures
        x == u64_at(b@, at as int),
{
    (b[at] as u64) | ((b[at + 1] as u64) << 8u64) | ((b[at + 2] as u64) << 16u64) | ((b[at
        + 3] as u64) << 24u64) | ((b[at + 4] as u64) << 32u64) | ((b[at + 5] as u64) << 40u64) | ((
    b[at + 6] as u64) << 48u64) | ((b[at + 7] as u64) << 56u64)
}

/// Decode one message from bytes: exactly the meaning `decoding_of`
/// gives them, `None` for anything malformed.
pub fn decode(b: &Vec<u8>) -> (r: Option<WireMessage>)
    ensures
        r == decoding_of(b@),
{
    if b.len() == 0 {
        return None;
    }
    let tag = b[0];
    if tag == 1 && b.len() == 9 {
        Some(WireMessage::Handshake { credentials: read_u64(b, 1) })
    } else if tag == 2 && b.len() == 9 {
        Some(WireMessage::HandshakeAck { identity: read_u64(b, 1) })
    } else if tag == 3 && b.len() == 1 {
        Some(WireMessage::HandshakeReject)
    } else if tag == 4 && b.len() == 49 {
        Some(
            WireMessage::Snapshot {
                snap: EntitySnapshot {
                    identity: read_u64(b, 1),
                    seq: read_u64(b, 9),
                    state: EntityState {
                        pos_x: read_u64(b, 17) as i64,
                        pos_y: read_u64(b, 25) as i64,
                        orientation: read_u64(b, 33) as i64,
                    },
                    timestamp: read_u64(b, 41),
                },
            },
        )
    } else if tag == 5 && b.len() == 25 {
        Some(
            WireMessage::Event {
                event: GlobalEvent {
                    origin: read_u64(b, 1),
                    seq: read_u64(b, 9),
                    payload: read_u64(b, 17),
                },
            },
        )
    } else if tag == 6 && b.len() == 17 {
        Some(WireMessage::EventAck { origin: read_u64(b, 1), seq: read_u64(b, 9) })
    } else if tag == 7 && b.len() == 1 {
        Some(WireMessage::Heartbeat)
    } else {
        None
    }
}

} // verus!
