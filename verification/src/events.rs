//! Global event channel: reliable, ordered-per-origin, at-most-once
//! delivery of discrete game events over a transport that may drop or
//! reorder. The publisher side assigns per-origin sequence numbers,
//! keeps every event pending until it is acknowledged, retransmits on
//! a schedule and abandons an event once its retry budget is spent.
//! The receiver side acknowledges everything, discards duplicates,
//! buffers out-of-order arrivals and delivers, per origin, a gapless
//! strictly increasing sequence.
//!
//! Each receiver step is specified against an abstract `ChannelModel`:
//! `receive` and `receive_event` promise that one arrival advances the
//! channel by exactly `recv_model` and delivers exactly `recv_out`.
//! `lemma_reliable_delivery` then shows, for any fold of such steps,
//! that arrivals covering a whole sequence range — however reordered
//! or duplicated — deliver that range exactly once, in order.

use vstd::prelude::*;

verus! {

/// Retransmissions allowed per event before it is abandoned and the
/// publisher is notified of delivery failure.
pub const EVENT_RETRY_BUDGET: u64 = 5;

/// One discrete game event. The payload is an opaque value whose
/// meaning belongs to game logic, not to the channel.
#[derive(Clone, Copy, PartialEq, Eq, Structural, Debug)]
pub struct GlobalEvent {
    pub origin: u64,
    pub seq: u64,
    pub payload: u64,
}

/// An outbound event awaiting its acknowledgement.
#[derive(Clone, Copy, PartialEq, Eq, Structural, Debug)]
pub struct PendingEvent {
    pub seq: u64,
    pub payload: u64,
    /// Retransmissions still allowed before the event is abandoned.
    pub retries_left: u64,
}

/// The publishing half of the channel for the local origin.
pub struct EventPublisher {
    pub origin: u64,
    /// The sequence number the next published event will carry.
    pub next_seq: u64,
    /// Published events not yet acknowledged, oldest first.
    pub pending: Vec<PendingEvent>,
    /// Sequence numbers of abandoned events: delivery-failure notices
    /// not yet collected by game logic.
    pub failed: Vec<u64>,
}

/// Publisher well-formedness: sequence numbers start at 1, pending
/// events are strictly ordered and all below `next_seq`.
pub open spec fn publisher_wf(p: EventPublisher) -> bool {
    &&& 1 <= p.next_seq
    &&& forall|i: int, j: int|
        0 <= i < j < p.pending@.len() ==> p.pending@[i].seq < p.pending@[j].seq
    &&& forall|i: int| 0 <= i < p.pending@.len() ==> (#[trigger] p.pending@[i]).seq < p.next_seq
}

/// The pending list with the acknowledged sequence number removed.
pub open spec fn without_seq(s: Seq<PendingEvent>, q: u64) -> Seq<PendingEvent>
    decreases s.len(),
{
    if s.len() == 0 {
        Seq::empty()
    } else if s.last().seq == q {
        without_seq(s.drop_last(), q)
    } else {
        without_seq(s.drop_last(), q).push(s.last())
    }
}

/// The pending list after one retransmission round: events that still
/// had budget stay with one retry consumed; exhausted ones leave.
pub open spec fn after_retransmit(s: Seq<PendingEvent>) -> Seq<PendingEvent>
    decreases s.len(),
{
    if s.len() == 0 {
        Seq::empty()
    } else if s.last().retries_left == 0 {
        after_retransmit(s.drop_last())
    } else {
        after_retransmit(s.drop_last()).push(
            PendingEvent { retries_left: (s.last().retries_left - 1) as u64, ..s.last() },
        )
    }
}

/// The events one retransmission round puts back on the wire: every
/// pending event that still had budget, in order.
pub open spec fn retransmit_wire(s: Seq<PendingEvent>, origin: u64) -> Seq<GlobalEvent>
    decreases s.len(),
{
    if s.len() == 0 {
        Seq::empty()
    } else if s.last().retries_left == 0 {
        retransmit_wire(s.drop_last(), origin)
    } else {
        retransmit_wire(s.drop_last(), origin).push(
            GlobalEvent { origin, seq: s.last().seq, payload: s.last().payload },
        )
    }
}

/// The sequence numbers one retransmission round abandons: every
/// pending event whose budget was already exhausted, in order.
pub open spec fn abandoned_of(s: Seq<PendingEvent>) -> Seq<u64>
    decreases s.len(),
{
    if s.len() == 0 {
        Seq::empty()
    } else if s.last().retries_left == 0 {
        abandoned_of(s.drop_last()).push(s.last().seq)
    } else {
        abandoned_of(s.drop_last())
    }
}

/// A subsequence construction keeps strict seq order and the bound by
/// `next_seq`; used to carry `publisher_wf` across `without_seq` and
/// `after_retransmit`.
pub proof fn lemma_without_seq_wf(s: Seq<PendingEvent>, q: u64, bound: u64)
    requires
        forall|i: int, j: int| 0 <= i < j < s.len() ==> s[i].seq < s[j].seq,
        forall|i: int| 0 <= i < s.len() ==> (#[trigger] s[i]).seq < bound,
    ensures
        forall|i: int, j: int|
            0 <= i < j < without_seq(s, q).len() ==> without_seq(s, q)[i].seq < without_seq(
                s,
                q,
            )[j].seq,
        forall|i: int|
            0 <= i < without_seq(s, q).len() ==> (#[trigger] without_seq(s, q)[i]).seq < bound,
        forall|i: int|
            0 <= i < without_seq(s, q).len() ==> exists|j: int|
                0 <= j < s.len() && s[j] == #[trigger] without_seq(s, q)[i],
    decreases s.len(),
{
    if s.len() > 0 {
        let dl = s.drop_last();
        lemma_without_seq_wf(dl, q, bound);
        if s.last().seq != q {
            assert forall|i: int, j: int|
                0 <= i < j < without_seq(s, q).len() implies without_seq(s, q)[i].seq
                < without_seq(s, q)[j].seq by {
                if j == without_seq(s, q).len() - 1 {
                    let w = choose|w: int| 0 <= w < dl.len() && dl[w] == without_seq(dl, q)[i];
                    assert(s[w].seq < s[s.len() - 1].seq);
                }
            };
            assert forall|i: int| 0 <= i < without_seq(s, q).len() implies exists|j: int|
                0 <= j < s.len() && s[j] == #[trigger] without_seq(s, q)[i] by {
                if i < without_seq(dl, q).len() {
                    let w = choose|w: int| 0 <= w < dl.len() && dl[w] == without_seq(dl, q)[i];
                    assert(s[w] == without_seq(s, q)[i]);
                } else {
                    assert(s[s.len() - 1] == without_seq(s, q)[i]);
                }
            };
        } else {
            assert forall|i: int| 0 <= i < without_seq(s, q).len() implies exists|j: int|
                0 <= j < s.len() && s[j] == #[trigger] without_seq(s, q)[i] by {
                let w = choose|w: int| 0 <= w < dl.len() && dl[w] == without_seq(dl, q)[i];
                assert(s[w] == without_seq(s, q)[i]);
            };
        }
    }
}

/// The retransmission round keeps strict seq order, the `next_seq`
/// bound, and only ever lowers retry budgets of events it keeps.
pub proof fn lemma_after_retransmit_wf(s: Seq<PendingEvent>, bound: u64)
    requires
        forall|i: int, j: int| 0 <= i < j < s.len() ==> s[i].seq < s[j].seq,
        forall|i: int| 0 <= i < s.len() ==> (#[trigger] s[i]).seq < bound,
    ensures
        forall|i: int, j: int|
            0 <= i < j < after_retransmit(s).len() ==> after_retransmit(s)[i].seq
                < after_retransmit(s)[j].seq,
        forall|i: int|
            0 <= i < after_retransmit(s).len() ==> (#[trigger] after_retransmit(s)[i]).seq < bound,
        forall|i: int|
            0 <= i < after_retransmit(s).len() ==> exists|j: int|
                0 <= j < s.len() && s[j].seq == (#[trigger] after_retransmit(s)[i]).seq
                    && s[j].payload == after_retransmit(s)[i].payload,
    decreases s.len(),
{
    if s.len() > 0 {
        let dl = s.drop_last();
        lemma_after_retransmit_wf(dl, bound);
        if s.last().retries_left != 0 {
            assert forall|i: int, j: int|
                0 <= i < j < after_retransmit(s).len() implies after_retransmit(s)[i].seq
                < after_retransmit(s)[j].seq by {
                if j == after_retransmit(s).len() - 1 {
                    let w = choose|w: int|
                        0 <= w < dl.len() && dl[w].seq == after_retransmit(dl)[i].seq && dl[w].payload
                            == after_retransmit(dl)[i].payload;
                    assert(s[w].seq < s[s.len() - 1].seq);
                }
            };
            assert forall|i: int| 0 <= i < after_retransmit(s).len() implies exists|j: int|
                0 <= j < s.len() && s[j].seq == (#[trigger] after_retransmit(s)[i]).seq
                    && s[j].payload == after_retransmit(s)[i].payload by {
                if i < after_retransmit(dl).len() {
                    let w = choose|w: int|
                        0 <= w < dl.len() && dl[w].seq == after_retransmit(dl)[i].seq && dl[w].payload
                            == after_retransmit(dl)[i].payload;
                    assert(s[w].seq == after_retransmit(s)[i].seq);
                } else {
                    assert(s[s.len() - 1].seq == after_retransmit(s)[i].seq);
                }
            };
        } else {
            assert forall|i: int| 0 <= i < after_retransmit(s).len() implies exists|j: int|
                0 <= j < s.len() && s[j].seq == (#[trigger] after_retransmit(s)[i]).seq
                    && s[j].payload == after_retransmit(s)[i].payload by {
                let w = choose|w: int|
                    0 <= w < dl.len() && dl[w].seq == after_retransmit(dl)[i].seq && dl[w].payload
                        == after_retransmit(dl)[i].payload;
                assert(s[w].seq == after_retransmit(s)[i].seq);
            };
        }
    }
}

/// No pending event is silently lost: every retransmission round puts
/// every unacknowledged event that still has budget back on the wire.
/// An event therefore stops being transmitted only once it is
/// acknowledged (`on_ack` removes it) or its whole retry budget is
/// spent (it joins the delivery-failure notices).
pub proof fn lemma_retransmit_covers(s: Seq<PendingEvent>, origin: u64)
    ensures
        forall|i: int|
            0 <= i < s.len() && (#[trigger] s[i]).retries_left > 0 ==> exists|k: int|
                0 <= k < retransmit_wire(s, origin).len() && retransmit_wire(s, origin)[k] == (
                GlobalEvent { origin, seq: s[i].seq, payload: s[i].payload }),
    decreases s.len(),
{
    if s.len() > 0 {
        let dl = s.drop_last();
        lemma_retransmit_covers(dl, origin);
        assert forall|i: int|
            0 <= i < s.len() && (#[trigger] s[i]).retries_left > 0 implies exists|k: int|
                0 <= k < retransmit_wire(s, origin).len() && retransmit_wire(s, origin)[k] == (
                GlobalEvent { origin, seq: s[i].seq, payload: s[i].payload }) by {
            if i < s.len() - 1 {
                assert(dl[i] == s[i]);
                let k = choose|k: int|
                    0 <= k < retransmit_wire(dl, origin).len() && retransmit_wire(dl, origin)[k]
                        == (GlobalEvent { origin, seq: dl[i].seq, payload: dl[i].payload });
                assert(retransmit_wire(s, origin)[k] == (GlobalEvent {
                    origin,
                    seq: s[i].seq,
                    payload: s[i].payload,
                }));
            } else {
                let k = retransmit_wire(s, origin).len() - 1;
                assert(retransmit_wire(s, origin)[k] == (GlobalEvent {
                    origin,
                    seq: s[i].seq,
                    payload: s[i].payload,
                }));
            }
        };
    }
}

impl EventPublisher {
    /// A fresh publisher for the given origin identity.
    pub fn new(origin: u64) -> (p: EventPublisher)
        ensures
            publisher_wf(p),
            p.origin == origin,
            p.next_seq == 1,
            p.pending@.len() == 0,
            p.failed@.len() == 0,
    {
        EventPublisher { origin, next_seq: 1, pending: Vec::new(), failed: Vec::new() }
    }

    /// Publish a payload: assign the next sequence number, remember the
    /// event for retransmission, and return the event to transmit now.
    /// Fire-and-forget for the caller; delivery confirmation happens
    /// asynchronously. Returns `None` only when the sequence space is
    /// exhausted, in which case nothing changes.
    pub fn publish(&mut self, payload: u64) -> (ev: Option<GlobalEvent>)
        requires
            publisher_wf(*old(self)),
        ensures
            publisher_wf(*final(self)),
            final(self).origin == old(self).origin,
            final(self).failed@ == old(self).failed@,
            old(self).next_seq < u64::MAX ==> ev == Some(
                GlobalEvent {
                    origin: old(self).origin,
                    seq: old(self).next_seq,
                    payload,
                },
            ) && final(self).next_seq == old(self).next_seq + 1 && final(self).pending@ == old(
                self,
            ).pending@.push(
                PendingEvent { seq: old(self).next_seq, payload, retries_left: EVENT_RETRY_BUDGET },
            ),
            old(self).next_seq == u64::MAX ==> ev is None && *final(self) == *old(self),
    {
        if self.next_seq == u64::MAX {
            return None;
        }
        let seq = self.next_seq;
        self.pending.push(PendingEvent { seq, payload, retries_left: EVENT_RETRY_BUDGET });
        self.next_seq = seq + 1;
        Some(GlobalEvent { origin: self.origin, seq, payload })
    }

    /// An acknowledgement arrived: the event with that sequence number
    /// (if still pending) needs no further retransmission and leaves
    /// the pending set. Everything else is untouched.
    pub fn on_ack(&mut self, seq: u64)
        requires
            publisher_wf(*old(self)),
        ensures
            publisher_wf(*final(self)),
            final(self).origin == old(self).origin,
            final(self).next_seq == old(self).next_seq,
            final(self).failed@ == old(self).failed@,
            final(self).pending@ == without_seq(old(self).pending@, seq),
    {
        let mut kept: Vec<PendingEvent> = Vec::new();
        let n = self.pending.len();
        let mut i: usize = 0;
        while i < n
            invariant
                n == self.pending@.len(),
                i <= n,
                kept@ == without_seq(self.pending@.take(i as int), seq),
            decreases n - i,
        {
            let p = self.pending[i];
            proof {
                assert(self.pending@.take(i + 1).drop_last() =~= self.pending@.take(i as int));
                assert(self.pending@.take(i + 1).last() == self.pending@[i as int]);
            }
            if p.seq != seq {
                kept.push(p);
            }
            i = i + 1;
        }
        proof {
            assert(self.pending@.take(n as int) =~= self.pending@);
            lemma_without_seq_wf(self.pending@, seq, self.next_seq);
        }
        self.pending = kept;
    }

    /// One round of the retransmission schedule: every pending event
    /// with budget left is returned for transmission and loses one
    /// retry; every event whose budget was exhausted is abandoned, and
    /// its sequence number joins the delivery-failure notices.
    pub fn retransmit_tick(&mut self) -> (resend: Vec<GlobalEvent>)
        requires
            publisher_wf(*old(self)),
        ensures
            publisher_wf(*final(self)),
            final(self).origin == old(self).origin,
            final(self).next_seq == old(self).next_seq,
            final(self).pending@ == after_retransmit(old(self).pending@),
            resend@ == retransmit_wire(old(self).pending@, old(self).origin),
            final(self).failed@ == old(self).failed@ + abandoned_of(old(self).pending@),
    {
        let mut kept: Vec<PendingEvent> = Vec::new();
        let mut resend: Vec<GlobalEvent> = Vec::new();
        let n = self.pending.len();
        let mut i: usize = 0;
        while i < n
            invariant
                n == self.pending@.len(),
                i <= n,
                kept@ == after_retransmit(self.pending@.take(i as int)),
                resend@ == retransmit_wire(self.pending@.take(i as int), self.origin),
                self.failed@ == old(self).failed@ + abandoned_of(self.pending@.take(i as int)),
                self.pending@ == old(self).pending@,
                self.origin == old(self).origin,
                self.next_seq == old(self).next_seq,
            decreases n - i,
        {
            let p = self.pending[i];
            proof {
                assert(self.pending@.take(i + 1).drop_last() =~= self.pending@.take(i as int));
                assert(self.pending@.take(i + 1).last() == self.pending@[i as int]);
            }
            if p.retries_left == 0 {
                self.failed.push(p.seq);
            } else {
                resend.push(GlobalEvent { origin: self.origin, seq: p.seq, payload: p.payload });
                kept.push(PendingEvent { retries_left: p.retries_left - 1, ..p });
            }
            i = i + 1;
        }
        proof {
            assert(self.pending@.take(n as int) =~= self.pending@);
            lemma_after_retransmit_wf(self.pending@, self.next_seq);
        }
        self.pending = kept;
        resend
    }

    /// Collect and clear the delivery-failure notices: the sequence
    /// numbers of events abandoned since the last call. Game logic
    /// decides whether to re-publish.
    pub fn take_failed(&mut self) -> (out: Vec<u64>)
        requires
            publisher_wf(*old(self)),
        ensures
            publisher_wf(*final(self)),
            out@ == old(self).failed@,
            final(self).failed@.len() == 0,
            final(self).origin == old(self).origin,
            final(self).next_seq == old(self).next_seq,
            final(self).pending@ == old(self).pending@,
    {
        let mut drained: Vec<u64> = Vec::new();
        core::mem::swap(&mut drained, &mut self.failed);
        drained
    }
}

/// The receiving side of one origin's event stream, abstracted: the
/// next sequence number owed to consumers and the set of sequence
/// numbers buffered out of order.
pub struct ChannelModel {
    pub expected: u64,
    pub buffer: Set<u64>,
}

/// One delivery: the expected event leaves the buffer for the
/// consumer and the next sequence number is owed.
pub open spec fn deliver_one(m: ChannelModel) -> ChannelModel {
    ChannelModel { expected: (m.expected + 1) as u64, buffer: m.buffer.remove(m.expected) }
}

/// Deliver every consecutively-buffered event, stopping at the first
/// gap.
pub open spec fn drain_model(m: ChannelModel) -> ChannelModel
    decreases m.buffer.len(),
{
    if m.buffer.finite() && m.expected < u64::MAX && m.buffer.contains(m.expected) {
        drain_model(deliver_one(m))
    } else {
        m
    }
}

/// The sequence numbers `drain_model` delivers, in delivery order.
pub open spec fn drain_out(m: ChannelModel) -> Seq<u64>
    decreases m.buffer.len(),
{
    if m.buffer.finite() && m.expected < u64::MAX && m.buffer.contains(m.expected) {
        seq![m.expected] + drain_out(deliver_one(m))
    } else {
        Seq::empty()
    }
}

/// How one arrival changes the channel: sequence numbers outside the
/// protocol's range, already-delivered ones and already-buffered ones
/// change nothing (duplicate suppression); anything else is buffered
/// and every consecutive run starting at `expected` is delivered.
pub open spec fn recv_model(m: ChannelModel, s: u64) -> ChannelModel {
    if s == 0 || s == u64::MAX || s < m.expected || m.buffer.contains(s) {
        m
    } else {
        drain_model(ChannelModel { expected: m.expected, buffer: m.buffer.insert(s) })
    }
}

/// The sequence numbers one arrival causes to be delivered, in order.
pub open spec fn recv_out(m: ChannelModel, s: u64) -> Seq<u64> {
    if s == 0 || s == u64::MAX || s < m.expected || m.buffer.contains(s) {
        Seq::empty()
    } else {
        drain_out(ChannelModel { expected: m.expected, buffer: m.buffer.insert(s) })
    }
}

/// The half-open range of sequence numbers `lo`, `lo + 1`, ..., up to
/// but excluding `hi`.
pub open spec fn seq_range(lo: u64, hi: u64) -> Seq<u64>
    decreases hi - lo,
{
    if lo < hi {
        seq![lo] + seq_range((lo + 1) as u64, hi)
    } else {
        Seq::empty()
    }
}

/// Adjacent ranges concatenate.
pub proof fn lemma_seq_range_concat(lo: u64, mid: u64, hi: u64)
    requires
        lo <= mid <= hi,
    ensures
        seq_range(lo, mid) + seq_range(mid, hi) == seq_range(lo, hi),
    decreases mid - lo,
{
    if lo < mid {
        lemma_seq_range_concat((lo + 1) as u64, mid, hi);
        assert(seq_range(lo, mid) + seq_range(mid, hi) =~= seq_range(lo, hi));
    } else {
        assert(seq_range(lo, mid) + seq_range(mid, hi) =~= seq_range(lo, hi));
    }
}

/// Elements of a range: exactly the numbers between its bounds.
pub proof fn lemma_seq_range_index(lo: u64, hi: u64)
    requires
        lo <= hi,
    ensures
        seq_range(lo, hi).len() == hi - lo,
        forall|k: int| 0 <= k < hi - lo ==> seq_range(lo, hi)[k] == lo + k,
    decreases hi - lo,
{
    if lo < hi {
        lemma_seq_range_index((lo + 1) as u64, hi);
    }
}

/// The members of `seen` that are at least `e`.
pub open spec fn above_from(seen: Set<u64>, e: u64) -> Set<u64> {
    seen.filter(|x: u64| x >= e)
}

/// What draining does, expressed against the set `seen` of every
/// sequence number that ever reached the channel: delivery stops
/// exactly at the first sequence number never seen, everything
/// delivered was seen, and the buffer keeps exactly the seen numbers
/// not yet delivered.
pub proof fn lemma_drain_above(m: ChannelModel, seen: Set<u64>)
    requires
        seen.finite(),
        forall|x: u64| seen.contains(x) ==> 1 <= x < u64::MAX,
        m.buffer =~= above_from(seen, m.expected),
        m.expected >= 1,
    ensures
        drain_model(m).expected >= m.expected,
        drain_model(m).buffer =~= above_from(seen, drain_model(m).expected),
        !seen.contains(drain_model(m).expected),
        drain_out(m) == seq_range(m.expected, drain_model(m).expected),
        forall|x: u64| m.expected <= x < drain_model(m).expected ==> seen.contains(x),
        drain_model(m).expected <= u64::MAX,
    decreases m.buffer.len(),
{
    seen.lemma_len_filter(|x: u64| x >= m.expected);
    if m.buffer.finite() && m.expected < u64::MAX && m.buffer.contains(m.expected) {
        let m1 = deliver_one(m);
        assert(m1.buffer =~= above_from(seen, m1.expected));
        lemma_drain_above(m1, seen);
        lemma_seq_range_concat(m.expected, m1.expected, drain_model(m).expected);
        assert(drain_out(m) == seq_range(m.expected, m1.expected) + drain_out(m1));
    } else {
        if m.expected < u64::MAX {
            assert(!m.buffer.contains(m.expected));
            assert(!seen.contains(m.expected));
        } else {
            assert(!seen.contains(m.expected));
        }
        assert(drain_out(m) =~= seq_range(m.expected, m.expected));
    }
}

/// Whether `x` occurs anywhere in the list of arrivals.
pub open spec fn occurs_in(arrivals: Seq<u64>, x: u64) -> bool {
    exists|i: int| 0 <= i < arrivals.len() && arrivals[i] == x
}

/// The set of values in a list of arrivals.
pub open spec fn seqs_set(s: Seq<u64>) -> Set<u64>
    decreases s.len(),
{
    if s.len() == 0 {
        Set::empty()
    } else {
        seqs_set(s.drop_first()).insert(s[0])
    }
}

/// Membership in `seqs_set` is occurrence in the list.
pub proof fn lemma_seqs_set_membership(s: Seq<u64>)
    ensures
        seqs_set(s).finite(),
        forall|x: u64| seqs_set(s).contains(x) <==> exists|i: int| 0 <= i < s.len() && s[i] == x,
    decreases s.len(),
{
    if s.len() > 0 {
        lemma_seqs_set_membership(s.drop_first());
        assert forall|x: u64| seqs_set(s).contains(x) implies exists|i: int|
            0 <= i < s.len() && s[i] == x by {
            if x == s[0] {
                assert(s[0] == x);
            } else {
                let i = choose|i: int| 0 <= i < s.drop_first().len() && s.drop_first()[i] == x;
                assert(s[i + 1] == x);
            }
        };
        assert forall|x: u64| (exists|i: int| 0 <= i < s.len() && s[i] == x) implies seqs_set(
            s,
        ).contains(x) by {
            let i = choose|i: int| 0 <= i < s.len() && s[i] == x;
            if i > 0 {
                assert(s.drop_first()[i - 1] == x);
            }
        };
    }
}

/// The channel after a whole list of arrivals, oldest first.
pub open spec fn fold_recv(m: ChannelModel, arrivals: Seq<u64>) -> ChannelModel
    decreases arrivals.len(),
{
    if arrivals.len() == 0 {
        m
    } else {
        fold_recv(recv_model(m, arrivals[0]), arrivals.drop_first())
    }
}

/// Everything a whole list of arrivals causes to be delivered, in
/// delivery order.
pub open spec fn fold_recv_out(m: ChannelModel, arrivals: Seq<u64>) -> Seq<u64>
    decreases arrivals.len(),
{
    if arrivals.len() == 0 {
        Seq::empty()
    } else {
        recv_out(m, arrivals[0]) + fold_recv_out(recv_model(m, arrivals[0]), arrivals.drop_first())
    }
}

/// The channel invariant against the set of all arrivals so far: the
/// buffer holds exactly the seen numbers not yet delivered, and the
/// next number owed was never seen.
pub proof fn lemma_fold_recv_inv(m: ChannelModel, arrivals: Seq<u64>, seen: Set<u64>, target: u64)
    requires
        seen.finite(),
        forall|x: u64| seen.contains(x) ==> 1 <= x < target,
        forall|i: int| 0 <= i < arrivals.len() ==> 1 <= #[trigger] arrivals[i] < target,
        target < u64::MAX,
        1 <= m.expected <= target,
        !seen.contains(m.expected),
        m.buffer =~= above_from(seen, m.expected),
    ensures
        fold_recv(m, arrivals).expected >= m.expected,
        fold_recv(m, arrivals).expected <= target,
        !seen.union(seqs_set(arrivals)).contains(fold_recv(m, arrivals).expected),
        fold_recv(m, arrivals).buffer =~= above_from(
            seen.union(seqs_set(arrivals)),
            fold_recv(m, arrivals).expected,
        ),
        fold_recv_out(m, arrivals) == seq_range(m.expected, fold_recv(m, arrivals).expected),
    decreases arrivals.len(),
{
    seen.lemma_len_filter(|x: u64| x >= m.expected);
    if arrivals.len() == 0 {
        assert(seen.union(seqs_set(arrivals)) =~= seen);
        assert(fold_recv_out(m, arrivals) =~= seq_range(m.expected, m.expected));
    } else {
        let s = arrivals[0];
        let rest = arrivals.drop_first();
        let seen1 = seen.insert(s);
        assert(seen.union(seqs_set(arrivals)) =~= seen1.union(seqs_set(rest)));
        if s < m.expected || m.buffer.contains(s) {
            // a stale or duplicated arrival: nothing changes
            assert(recv_model(m, s) == m);
            assert(recv_out(m, s) =~= Seq::<u64>::empty());
            assert(s != m.expected);
            assert(m.buffer =~= above_from(seen1, m.expected));
            lemma_fold_recv_inv(m, rest, seen1, target);
            assert(fold_recv_out(m, arrivals) =~= fold_recv_out(m, rest));
        } else {
            // a fresh arrival: buffer it, then deliver the run
            let mi = ChannelModel { expected: m.expected, buffer: m.buffer.insert(s) };
            assert(mi.buffer =~= above_from(seen1, m.expected));
            lemma_drain_above(mi, seen1);
            let md = drain_model(mi);
            assert(recv_model(m, s) == md);
            assert(recv_out(m, s) == seq_range(m.expected, md.expected));
            assert(md.expected <= target) by {
                if md.expected > m.expected {
                    assert(seen1.contains((md.expected - 1) as u64));
                }
            };
            lemma_fold_recv_inv(md, rest, seen1, target);
            lemma_seq_range_concat(m.expected, md.expected, fold_recv(m, arrivals).expected);
        }
    }
}

/// Reliable in-order exactly-once delivery: start from a gap-free
/// channel (nothing buffered), and let any list of arrivals reach it
/// in any order, with any duplication, and possibly including stale
/// sequence numbers from before the starting point. If every sequence
/// number from the starting point up to (but excluding) `target` is
/// among the arrivals, then afterward the consumer has been handed
/// exactly the numbers from the starting point to `target`, each
/// exactly once, in increasing order, and the channel owes `target`
/// next.
pub proof fn lemma_reliable_delivery(m0: ChannelModel, arrivals: Seq<u64>, target: u64)
    requires
        m0.buffer =~= Set::<u64>::empty(),
        1 <= m0.expected <= target < u64::MAX,
        forall|i: int| 0 <= i < arrivals.len() ==> 1 <= #[trigger] arrivals[i] < target,
        forall|x: u64| m0.expected <= x < target ==> #[trigger] occurs_in(arrivals, x),
    ensures
        fold_recv(m0, arrivals).expected == target,
        fold_recv_out(m0, arrivals) == seq_range(m0.expected, target),
{
    let seen0 = Set::<u64>::empty();
    assert(m0.buffer =~= above_from(seen0, m0.expected));
    lemma_fold_recv_inv(m0, arrivals, seen0, target);
    lemma_seqs_set_membership(arrivals);
    let mf = fold_recv(m0, arrivals);
    if mf.expected < target {
        assert(occurs_in(arrivals, mf.expected));
        assert(seqs_set(arrivals).contains(mf.expected));
        assert(seen0.union(seqs_set(arrivals)).contains(mf.expected));
        assert(false);
    }
}

/// The sequence numbers present in a buffer of events.
pub open spec fn buf_seqs(b: Seq<GlobalEvent>) -> Set<u64> {
    Set::new(|s: u64| exists|i: int| 0 <= i < b.len() && (#[trigger] b[i]).seq == s)
}

/// A buffer holds finitely many sequence numbers.
pub proof fn lemma_buf_seqs_finite(b: Seq<GlobalEvent>)
    ensures
        buf_seqs(b).finite(),
    decreases b.len(),
{
    if b.len() == 0 {
        assert(buf_seqs(b) =~= Set::<u64>::empty());
    } else {
        lemma_buf_seqs_finite(b.drop_last());
        assert forall|s: u64| buf_seqs(b).contains(s) implies buf_seqs(b.drop_last()).insert(
            b.last().seq,
        ).contains(s) by {
            let i = choose|i: int| 0 <= i < b.len() && b[i].seq == s;
            if i < b.len() - 1 {
                assert(b.drop_last()[i].seq == s);
            }
        };
        assert forall|s: u64|
            buf_seqs(b.drop_last()).insert(b.last().seq).contains(s) implies buf_seqs(b).contains(
            s,
        ) by {
            if s == b.last().seq {
                assert(b[b.len() - 1].seq == s);
            } else {
                let i = choose|i: int| 0 <= i < b.len() - 1 && b.drop_last()[i].seq == s;
                assert(b[i].seq == s);
            }
        };
        assert(buf_seqs(b) =~= buf_seqs(b.drop_last()).insert(b.last().seq));
    }
}

/// The seq numbers of a delivery batch, in order.
pub open spec fn event_seqs(b: Seq<GlobalEvent>) -> Seq<u64>
    decreases b.len(),
{
    if b.len() == 0 {
        Seq::empty()
    } else {
        event_seqs(b.drop_last()).push(b.last().seq)
    }
}

/// `event_seqs` is the pointwise seq projection.
pub proof fn lemma_event_seqs_index(b: Seq<GlobalEvent>)
    ensures
        event_seqs(b).len() == b.len(),
        forall|k: int| 0 <= k < b.len() ==> event_seqs(b)[k] == (#[trigger] b[k]).seq,
    decreases b.len(),
{
    if b.len() > 0 {
        lemma_event_seqs_index(b.drop_last());
        assert forall|k: int| 0 <= k < b.len() implies event_seqs(b)[k] == (
        #[trigger] b[k]).seq by {
            if k < b.len() - 1 {
                assert(b.drop_last()[k] == b[k]);
            }
        };
    }
}

/// The receiving half of one origin's event stream.
pub struct OriginChannel {
    pub origin: u64,
    /// The next sequence number owed to consumers; everything below it
    /// has been delivered.
    pub expected: u64,
    /// Events that arrived ahead of a gap, held back rather than
    /// dropped. Unordered; sequence numbers are distinct and above
    /// `expected`.
    pub buffer: Vec<GlobalEvent>,
}

/// Channel well-formedness.
pub open spec fn channel_wf(c: OriginChannel) -> bool {
    &&& 1 <= c.expected
    &&& forall|i: int| 0 <= i < c.buffer@.len() ==> (#[trigger] c.buffer@[i]).origin == c.origin
    &&& forall|i: int|
        0 <= i < c.buffer@.len() ==> c.expected < (#[trigger] c.buffer@[i]).seq < u64::MAX
    &&& forall|i: int, j: int|
        0 <= i < j < c.buffer@.len() ==> c.buffer@[i].seq != c.buffer@[j].seq
}

/// The abstract state of a channel.
pub open spec fn channel_model(c: OriginChannel) -> ChannelModel {
    ChannelModel { expected: c.expected, buffer: buf_seqs(c.buffer@) }
}

impl OriginChannel {
    /// A fresh channel for `origin`: nothing delivered, nothing
    /// buffered; the first event owed carries sequence number 1.
    pub fn new(origin: u64) -> (c: OriginChannel)
        ensures
            channel_wf(c),
            c.origin == origin,
            c.expected == 1,
            c.buffer@.len() == 0,
            channel_model(c) == (ChannelModel { expected: 1u64, buffer: buf_seqs(c.buffer@) }),
            buf_seqs(c.buffer@) =~= Set::<u64>::empty(),
    {
        let c = OriginChannel { origin, expected: 1, buffer: Vec::new() };
        proof {
            assert(buf_seqs(c.buffer@) =~= Set::<u64>::empty());
        }
        c
    }

    /// The index of the buffered event carrying `s`, if any.
    fn find_buffered(&self, s: u64) -> (r: Option<usize>)
        ensures
            match r {
                Some(i) => i < self.buffer@.len() && self.buffer@[i as int].seq == s,
                None => !buf_seqs(self.buffer@).contains(s),
            },
    {
        let mut i: usize = 0;
        while i < self.buffer.len()
            invariant
                i <= self.buffer@.len(),
                forall|j: int| 0 <= j < i ==> (#[trigger] self.buffer@[j]).seq != s,
            decreases self.buffer@.len() - i,
        {
            if self.buffer[i].seq == s {
                return Some(i);
            }
            i = i + 1;
        }
        None
    }

    /// One arrival from this channel's origin. Exactly the model's
    /// behaviour: invalid or duplicate sequence numbers change
    /// nothing; a fresh one is buffered and every consecutively
    /// buffered event starting at `expected` is returned for delivery,
    /// in sequence order. The caller acknowledges the arrival either
    /// way.
    pub fn receive_event(&mut self, ev: GlobalEvent) -> (delivered: Vec<GlobalEvent>)
        requires
            channel_wf(*old(self)),
            ev.origin == old(self).origin,
        ensures
            channel_wf(*final(self)),
            final(self).origin == old(self).origin,
            final(self).expected >= old(self).expected,
            channel_model(*final(self)) == recv_model(channel_model(*old(self)), ev.seq),
            event_seqs(delivered@) == recv_out(channel_model(*old(self)), ev.seq),
            forall|k: int|
                0 <= k < delivered@.len() ==> (#[trigger] delivered@[k]).origin == old(
                    self,
                ).origin && (delivered@[k] == ev || exists|j: int|
                    0 <= j < old(self).buffer@.len() && old(self).buffer@[j] == delivered@[k]),
    {
        proof {
            lemma_buf_seqs_finite(self.buffer@);
        }
        if ev.seq == 0 || ev.seq == u64::MAX || ev.seq < self.expected {
            proof {
                assert(event_seqs(Seq::<GlobalEvent>::empty()) =~= Seq::<u64>::empty());
            }
            return Vec::new();
        }
        match self.find_buffered(ev.seq) {
            Some(_) => {
                proof {
                    assert(buf_seqs(self.buffer@).contains(ev.seq));
                    assert(event_seqs(Seq::<GlobalEvent>::empty()) =~= Seq::<u64>::empty());
                }
                return Vec::new();
            },
            None => {
            },
        }
        self.buffer.push(ev);
        let ghost m_ins = ChannelModel {
            expected: old(self).expected,
            buffer: buf_seqs(old(self).buffer@).insert(ev.seq),
        };
        proof {
            assert forall|s: u64| buf_seqs(self.buffer@).contains(s) implies m_ins.buffer.contains(
                s,
            ) by {
                let i = choose|i: int| 0 <= i < self.buffer@.len() && self.buffer@[i].seq == s;
                if i < self.buffer@.len() - 1 {
                    assert(old(self).buffer@[i].seq == s);
                }
            };
            assert forall|s: u64| m_ins.buffer.contains(s) implies buf_seqs(
                self.buffer@,
            ).contains(s) by {
                if s == ev.seq {
                    assert(self.buffer@[self.buffer@.len() - 1].seq == s);
                } else {
                    let i = choose|i: int|
                        0 <= i < old(self).buffer@.len() && old(self).buffer@[i].seq == s;
                    assert(self.buffer@[i].seq == s);
                }
            };
            assert(buf_seqs(self.buffer@) =~= m_ins.buffer);
            assert(channel_model(*self) == m_ins);
            lemma_buf_seqs_finite(self.buffer@);
        }
        let mut delivered: Vec<GlobalEvent> = Vec::new();
        let mut done = false;
        proof {
            assert(event_seqs(delivered@) =~= Seq::<u64>::empty());
        }
        while !done
            invariant
                self.origin == old(self).origin,
                1 <= self.expected,
                self.expected >= old(self).expected,
                forall|i: int|
                    0 <= i < self.buffer@.len() ==> (#[trigger] self.buffer@[i]).origin
                        == self.origin,
                forall|i: int|
                    0 <= i < self.buffer@.len() ==> self.expected <= (
                    #[trigger] self.buffer@[i]).seq < u64::MAX,
                forall|i: int, j: int|
                    0 <= i < j < self.buffer@.len() ==> self.buffer@[i].seq != self.buffer@[j].seq,
                forall|i: int|
                    0 <= i < self.buffer@.len() ==> (#[trigger] self.buffer@[i] == ev
                        || exists|j: int|
                        0 <= j < old(self).buffer@.len() && old(self).buffer@[j]
                            == self.buffer@[i]),
                buf_seqs(self.buffer@).finite(),
                drain_model(channel_model(*self)) == drain_model(m_ins),
                event_seqs(delivered@) + drain_out(channel_model(*self)) == drain_out(m_ins),
                forall|k: int|
                    0 <= k < delivered@.len() ==> (#[trigger] delivered@[k]).origin == old(
                        self,
                    ).origin && (delivered@[k] == ev || exists|j: int|
                        0 <= j < old(self).buffer@.len() && old(self).buffer@[j]
                            == delivered@[k]),
                done ==> !buf_seqs(self.buffer@).contains(self.expected),
            decreases self.buffer@.len() + (if done {
                0int
            } else {
                1int
            }),
        {
            let found = self.find_buffered(self.expected);
            match found {
                None => {
                    done = true;
                },
                Some(i) => {
                    let ghost m_cur = channel_model(*self);
                    let ghost b_cur = self.buffer@;
                    let ghost d_old = delivered@;
                    let e = self.buffer.remove(i);
                    proof {
                        assert(buf_seqs(b_cur).contains(self.expected)) by {
                            assert(b_cur[i as int].seq == self.expected);
                        };
                        assert forall|s: u64|
                            buf_seqs(self.buffer@).contains(s) implies buf_seqs(b_cur).remove(
                            e.seq,
                        ).contains(s) by {
                            let j = choose|j: int|
                                0 <= j < self.buffer@.len() && self.buffer@[j].seq == s;
                            if j < i {
                                assert(b_cur[j].seq == s);
                            } else {
                                assert(b_cur[j + 1].seq == s);
                            }
                        };
                        assert forall|s: u64|
                            buf_seqs(b_cur).remove(e.seq).contains(s) implies buf_seqs(
                            self.buffer@,
                        ).contains(s) by {
                            let j = choose|j: int| 0 <= j < b_cur.len() && b_cur[j].seq == s;
                            assert(j != i);
                            if j < i {
                                assert(self.buffer@[j].seq == s);
                            } else {
                                assert(self.buffer@[j - 1].seq == s);
                            }
                        };
                        assert(buf_seqs(self.buffer@) =~= buf_seqs(b_cur).remove(e.seq));
                    }
                    delivered.push(e);
                    self.expected = self.expected + 1;
                    proof {
                        assert(channel_model(*self) == deliver_one(m_cur));
                        assert(drain_model(m_cur) == drain_model(deliver_one(m_cur)));
                        assert(drain_out(m_cur) == seq![m_cur.expected] + drain_out(
                            deliver_one(m_cur),
                        ));
                        assert(delivered@ == d_old.push(e));
                        assert(delivered@.drop_last() =~= d_old);
                        assert(event_seqs(delivered@) == event_seqs(d_old).push(e.seq));
                        assert(event_seqs(delivered@) + drain_out(channel_model(*self))
                            =~= (event_seqs(d_old) + drain_out(m_cur)));
                        lemma_buf_seqs_finite(self.buffer@);
                    }
                },
            }
        }
        proof {
            assert(drain_model(channel_model(*self)) == channel_model(*self));
            assert(drain_out(channel_model(*self)) =~= Seq::<u64>::empty());
            assert(event_seqs(delivered@) =~= event_seqs(delivered@) + Seq::<u64>::empty());
            assert(channel_model(*old(self)).buffer == buf_seqs(old(self).buffer@));
            assert(recv_model(channel_model(*old(self)), ev.seq) == drain_model(m_ins));
            assert(recv_out(channel_model(*old(self)), ev.seq) == drain_out(m_ins));
        }
        delivered
    }
}

/// The receiving half of the whole channel: one `OriginChannel` per
/// origin heard from, the in-order delivery log handed to consumers,
/// and the cursor separating what consumers have already taken.
pub struct EventReceiver {
    pub channels: Vec<OriginChannel>,
    /// Everything ever delivered, in delivery order. Per origin this
    /// is strictly increasing in sequence number: no duplicates, no
    /// reordering, no gaps (until a flush on disconnect).
    pub delivered: Vec<GlobalEvent>,
    /// Consumers have taken `delivered[..cursor]`.
    pub cursor: usize,
}

/// Whether a channel for `origin` exists.
pub open spec fn has_channel(cs: Seq<OriginChannel>, origin: u64) -> bool {
    exists|i: int| 0 <= i < cs.len() && cs[i].origin == origin
}

/// Receiver well-formedness. The fourth clause is the delivery
/// guarantee itself: per origin, the log is strictly increasing in
/// sequence number.
pub open spec fn receiver_wf(r: EventReceiver) -> bool {
    &&& forall|i: int| 0 <= i < r.channels@.len() ==> channel_wf(#[trigger] r.channels@[i])
    &&& forall|i: int, j: int|
        0 <= i < j < r.channels@.len() ==> r.channels@[i].origin != r.channels@[j].origin
    &&& r.cursor <= r.delivered@.len()
    &&& forall|i: int, j: int|
        0 <= i < j < r.delivered@.len() && r.delivered@[i].origin == r.delivered@[j].origin
            ==> r.delivered@[i].seq < r.delivered@[j].seq
    &&& forall|k: int, i: int|
        0 <= k < r.delivered@.len() && 0 <= i < r.channels@.len() && (
        #[trigger] r.delivered@[k]).origin == (#[trigger] r.channels@[i]).origin
            ==> r.delivered@[k].seq < r.channels@[i].expected
    &&& forall|k: int|
        0 <= k < r.delivered@.len() ==> has_channel(
            r.channels@,
            (#[trigger] r.delivered@[k]).origin,
        )
}

/// The ordering law of the delivery log: for a fixed origin, consumers
/// observe events in strictly increasing sequence order, so the
/// sequence numbers are non-decreasing and no (origin, seq) pair is
/// ever delivered twice.
pub proof fn lemma_delivery_ordered(r: EventReceiver)
    requires
        receiver_wf(r),
    ensures
        forall|i: int, j: int|
            0 <= i < j < r.delivered@.len() && r.delivered@[i].origin == r.delivered@[j].origin
                ==> r.delivered@[i].seq < r.delivered@[j].seq,
        forall|i: int, j: int|
            0 <= i < j < r.delivered@.len() && r.delivered@[i].origin == r.delivered@[j].origin
                ==> !(r.delivered@[i].seq == r.delivered@[j].seq),
{
}

impl EventReceiver {
    /// A fresh receiver: no origins heard from, nothing delivered.
    pub fn new() -> (r: EventReceiver)
        ensures
            receiver_wf(r),
            r.channels@.len() == 0,
            r.delivered@.len() == 0,
            r.cursor == 0,
    {
        EventReceiver { channels: Vec::new(), delivered: Vec::new(), cursor: 0 }
    }

    /// The index of the channel for `origin`, if one exists.
    fn find_channel(&self, origin: u64) -> (r: Option<usize>)
        ensures
            match r {
                Some(i) => i < self.channels@.len() && self.channels@[i as int].origin == origin,
                None => !has_channel(self.channels@, origin),
            },
    {
        let mut i: usize = 0;
        while i < self.channels.len()
            invariant
                i <= self.channels@.len(),
                forall|j: int| 0 <= j < i ==> (#[trigger] self.channels@[j]).origin != origin,
            decreases self.channels@.len() - i,
        {
            if self.channels[i].origin == origin {
                return Some(i);
            }
            i = i + 1;
        }
        None
    }

    /// The current expected sequence number for `origin`: 1 before
    /// anything was heard from it.
    pub fn expected_of(&self, origin: u64) -> (r: u64)
        ensures
            has_channel(self.channels@, origin) ==> exists|i: int|
                0 <= i < self.channels@.len() && (#[trigger] self.channels@[i]).origin == origin
                    && self.channels@[i].expected == r,
            !has_channel(self.channels@, origin) ==> r == 1,
    {
        match self.find_channel(origin) {
            Some(i) => self.channels[i].expected,
            None => 1,
        }
    }

    /// One event arrived from the wire. The event is acknowledged by
    /// the caller in every case; here it is de-duplicated, buffered if
    /// it is ahead of a gap, and every event it unblocks is appended
    /// to the delivery log, per origin in strictly increasing
    /// sequence order. A first arrival from an unknown origin creates
    /// that origin's channel.
    pub fn receive(&mut self, ev: GlobalEvent) -> (n_delivered: usize)
        requires
            receiver_wf(*old(self)),
        ensures
            receiver_wf(*final(self)),
            final(self).cursor == old(self).cursor,
            final(self).delivered@.len() == old(self).delivered@.len() + n_delivered,
            final(self).delivered@.take(old(self).delivered@.len() as int) == old(
                self,
            ).delivered@,
            forall|k: int|
                old(self).delivered@.len() <= k < final(self).delivered@.len() ==> (
                #[trigger] final(self).delivered@[k]).origin == ev.origin,
            forall|i: int|
                0 <= i < old(self).channels@.len() && (#[trigger] old(self).channels@[i]).origin
                    == ev.origin ==> {
                    &&& final(self).channels@.len() == old(self).channels@.len()
                    &&& channel_model(final(self).channels@[i]) == recv_model(
                        channel_model(old(self).channels@[i]),
                        ev.seq,
                    )
                    &&& event_seqs(
                        final(self).delivered@.skip(old(self).delivered@.len() as int),
                    ) == recv_out(channel_model(old(self).channels@[i]), ev.seq)
                    &&& final(self).channels@[i].origin == ev.origin
                    &&& forall|k: int|
                        old(self).delivered@.len() <= k < final(self).delivered@.len() ==> (
                        #[trigger] final(self).delivered@[k] == ev || exists|j: int|
                            0 <= j < old(self).channels@[i].buffer@.len() && old(
                                self,
                            ).channels@[i].buffer@[j] == final(self).delivered@[k])
                    &&& forall|j: int|
                        0 <= j < old(self).channels@.len() && j != i
                            ==> final(self).channels@[j] == old(self).channels@[j]
                },
            !has_channel(old(self).channels@, ev.origin) ==> {
                &&& final(self).channels@.len() == old(self).channels@.len() + 1
                &&& channel_model(final(self).channels@[old(self).channels@.len() as int])
                    == recv_model(
                    (ChannelModel { expected: 1u64, buffer: Set::<u64>::empty() }),
                    ev.seq,
                )
                &&& event_seqs(final(self).delivered@.skip(old(self).delivered@.len() as int))
                    == recv_out(
                    (ChannelModel { expected: 1u64, buffer: Set::<u64>::empty() }),
                    ev.seq,
                )
                &&& final(self).channels@[old(self).channels@.len() as int].origin == ev.origin
                &&& forall|k: int|
                    old(self).delivered@.len() <= k < final(self).delivered@.len()
                        ==> #[trigger] final(self).delivered@[k] == ev
                &&& forall|j: int|
                    0 <= j < old(self).channels@.len() ==> final(self).channels@[j] == old(
                        self,
                    ).channels@[j]
            },
    {
        let ghost cs_entry = self.channels@;
        let ci: usize = match self.find_channel(ev.origin) {
            Some(i) => i,
            None => {
                let fresh = OriginChannel::new(ev.origin);
                self.channels.push(fresh);
                proof {
                    assert forall|i: int, j: int|
                        0 <= i < j < self.channels@.len() implies self.channels@[i].origin
                        != self.channels@[j].origin by {
                        if j == self.channels@.len() - 1 {
                            assert(cs_entry[i].origin != ev.origin);
                        }
                    };
                    assert forall|k: int|
                        0 <= k < self.delivered@.len() implies has_channel(
                        self.channels@,
                        (#[trigger] self.delivered@[k]).origin,
                    ) by {
                        let w = choose|w: int|
                            0 <= w < cs_entry.len() && cs_entry[w].origin
                                == self.delivered@[k].origin;
                        assert(self.channels@[w].origin == self.delivered@[k].origin);
                    };
                    assert forall|k: int, i: int|
                        0 <= k < self.delivered@.len() && 0 <= i < self.channels@.len() && (
                        #[trigger] self.delivered@[k]).origin == (
                        #[trigger] self.channels@[i]).origin implies self.delivered@[k].seq
                        < self.channels@[i].expected by {
                        if i == self.channels@.len() - 1 {
                            assert(!has_channel(cs_entry, ev.origin));
                            assert(false);
                        }
                    };
                }
                self.channels.len() - 1
            },
        };
        let ghost cs_before = self.channels@;
        let ghost ch_before = self.channels@[ci as int];
        let mut ch = self.channels.remove(ci);
        let out = ch.receive_event(ev);
        self.channels.insert(ci, ch);
        proof {
            assert(self.channels@ =~= cs_before.update(ci as int, ch));
            lemma_event_seqs_index(out@);
            lemma_buf_seqs_finite(ch_before.buffer@);
            lemma_drain_above_for_channel(channel_model(ch_before), ev.seq);
        }
        let ghost d_before = self.delivered@;
        let n = out.len();
        let mut k: usize = 0;
        while k < n
            invariant
                n == out@.len(),
                k <= n,
                self.delivered@ == d_before + out@.take(k as int),
                self.channels@ == cs_before.update(ci as int, ch),
                self.cursor == old(self).cursor,
                0 <= ci < cs_before.len(),
            decreases n - k,
        {
            let e = out[k];
            self.delivered.push(e);
            proof {
                assert(self.delivered@ =~= d_before + out@.take(k + 1));
            }
            k = k + 1;
        }
        proof {
            assert(out@.take(n as int) =~= out@);
            assert(self.delivered@.take(d_before.len() as int) =~= d_before);
            assert(self.delivered@.skip(d_before.len() as int) =~= out@);
            let m_old = channel_model(ch_before);
            let rout = recv_out(m_old, ev.seq);
            assert(ch_before.origin == ev.origin);
            assert(ch.origin == ev.origin);
            assert(self.channels@[ci as int] == ch);
            assert forall|i: int, j: int|
                0 <= i < j < self.channels@.len() implies self.channels@[i].origin
                != self.channels@[j].origin by {
                assert(cs_before[i].origin != cs_before[j].origin);
            };
            assert(forall|kk: int|
                0 <= kk < d_before.len() && (#[trigger] d_before[kk]).origin == ev.origin
                    ==> d_before[kk].seq < ch_before.expected) by {
                if !has_channel(cs_entry, ev.origin) {
                    assert forall|kk: int|
                        0 <= kk < d_before.len() && (#[trigger] d_before[kk]).origin == ev.origin
                            implies d_before[kk].seq < ch_before.expected by {
                        assert(has_channel(cs_entry, d_before[kk].origin));
                        assert(false);
                    };
                }
            };
            assert forall|a: int, b: int|
                0 <= a < b < self.delivered@.len() && self.delivered@[a].origin
                    == self.delivered@[b].origin implies self.delivered@[a].seq
                < self.delivered@[b].seq by {
                if b >= d_before.len() {
                    assert(self.delivered@[b] == out@[b - d_before.len()]);
                    assert(out@[b - d_before.len()].seq == rout[b - d_before.len()]);
                    if a >= d_before.len() {
                        assert(self.delivered@[a] == out@[a - d_before.len()]);
                    } else {
                        assert(self.delivered@[a] == d_before[a]);
                        assert(d_before[a].origin == ch_before.origin);
                        assert(d_before[a].seq < ch_before.expected);
                    }
                }
            };
            assert forall|kk: int, i: int|
                0 <= kk < self.delivered@.len() && 0 <= i < self.channels@.len() && (
                #[trigger] self.delivered@[kk]).origin == (
                #[trigger] self.channels@[i]).origin implies self.delivered@[kk].seq
                < self.channels@[i].expected by {
                if kk >= d_before.len() {
                    assert(self.delivered@[kk] == out@[kk - d_before.len()]);
                    assert(self.delivered@[kk].origin == ev.origin);
                    assert(i == ci as int) by {
                        if i != ci as int {
                            assert(self.channels@[i].origin != self.channels@[ci as int].origin);
                        }
                    };
                    assert(out@[kk - d_before.len()].seq == rout[kk - d_before.len()]);
                } else {
                    assert(self.delivered@[kk] == d_before[kk]);
                    if i == ci as int {
                        assert(d_before[kk].seq < ch_before.expected);
                        assert(ch.expected >= ch_before.expected);
                    } else {
                        assert(self.channels@[i] == cs_before[i]);
                    }
                }
            };
            assert forall|kk: int|
                0 <= kk < self.delivered@.len() implies has_channel(
                self.channels@,
                (#[trigger] self.delivered@[kk]).origin,
            ) by {
                if kk >= d_before.len() {
                    assert(self.channels@[ci as int].origin == ev.origin);
                } else {
                    let w = choose|w: int|
                        0 <= w < cs_before.len() && cs_before[w].origin
                            == self.delivered@[kk].origin;
                    assert(self.channels@[w].origin == self.delivered@[kk].origin);
                }
            };
        }
        n
    }

    /// The origin disconnected: events held back behind a gap will
    /// never be unblocked, so the buffer is flushed — everything
    /// buffered is delivered in increasing sequence order — and the
    /// gap is reported (`true` when anything was held back). The
    /// channel then owes the number just past everything flushed.
    pub fn on_origin_disconnected(&mut self, origin: u64) -> (gap_reported: bool)
        requires
            receiver_wf(*old(self)),
        ensures
            receiver_wf(*final(self)),
            final(self).cursor == old(self).cursor,
            final(self).delivered@.take(old(self).delivered@.len() as int) == old(
                self,
            ).delivered@,
            final(self).channels@.len() == old(self).channels@.len(),
            forall|i: int|
                0 <= i < old(self).channels@.len() && (#[trigger] old(self).channels@[i]).origin
                    == origin ==> {
                    &&& gap_reported == (old(self).channels@[i].buffer@.len() > 0)
                    &&& final(self).channels@[i].buffer@.len() == 0
                    &&& final(self).channels@[i].origin == origin
                    &&& forall|j: int|
                        0 <= j < old(self).channels@.len() && j != i ==> final(self).channels@[j]
                            == old(self).channels@[j]
                    &&& final(self).delivered@.len() == old(self).delivered@.len() + old(
                        self,
                    ).channels@[i].buffer@.len()
                    &&& forall|k: int|
                        old(self).delivered@.len() <= k < final(self).delivered@.len()
                            ==> old(self).channels@[i].buffer@.contains(
                            #[trigger] final(self).delivered@[k],
                        )
                    &&& forall|k1: int, k2: int|
                        old(self).delivered@.len() <= k1 < k2 < final(self).delivered@.len()
                            ==> final(self).delivered@[k1].seq < final(self).delivered@[k2].seq
                },
            !has_channel(old(self).channels@, origin) ==> *final(self) == *old(self)
                && !gap_reported,
    {
        let ci = match self.find_channel(origin) {
            None => {
                return false;
            },
            Some(i) => i,
        };
        let ghost cs_before = self.channels@;
        let ghost ch_start = self.channels@[ci as int];
        let ghost d_start = self.delivered@;
        if self.channels[ci].buffer.len() == 0 {
            proof {
                assert(self.delivered@.take(d_start.len() as int) =~= d_start);
                assert forall|i: int|
                    0 <= i < cs_before.len() && (#[trigger] cs_before[i]).origin
                        == origin implies i == ci as int by {
                    if i != ci as int {
                        assert(cs_before[i].origin != cs_before[ci as int].origin);
                    }
                };
            }
            return false;
        }
        // empty the buffer in one motion and owe the number just past it
        let mut ch = self.channels.remove(ci);
        let mut to_flush: Vec<GlobalEvent> = Vec::new();
        core::mem::swap(&mut to_flush, &mut ch.buffer);
        let n = to_flush.len();
        let mut mx: u64 = 0;
        let mut k: usize = 0;
        while k < n
            invariant
                n == to_flush@.len(),
                k <= n,
                forall|j: int| 0 <= j < k ==> (#[trigger] to_flush@[j]).seq <= mx,
                k > 0 ==> exists|j: int| 0 <= j < k && (#[trigger] to_flush@[j]).seq == mx,
                k == 0 ==> mx == 0,
                forall|j: int| 0 <= j < n ==> (#[trigger] to_flush@[j]).seq < u64::MAX,
                to_flush@ == ch_start.buffer@,
            decreases n - k,
        {
            if to_flush[k].seq > mx {
                mx = to_flush[k].seq;
            }
            k = k + 1;
        }
        if mx < u64::MAX && mx + 1 > ch.expected {
            ch.expected = mx + 1;
        }
        let ghost ch_flushed = ch;
        self.channels.insert(ci, ch);
        proof {
            assert(self.channels@ =~= cs_before.update(ci as int, ch_flushed));
            assert(channel_wf(ch_flushed));
            assert forall|kk: int, i2: int|
                0 <= kk < self.delivered@.len() && 0 <= i2 < self.channels@.len() && (
                #[trigger] self.delivered@[kk]).origin == (
                #[trigger] self.channels@[i2]).origin implies self.delivered@[kk].seq
                < self.channels@[i2].expected by {
                if i2 == ci as int {
                    assert(d_start[kk].seq < ch_start.expected);
                    assert(ch_flushed.expected >= ch_start.expected);
                } else {
                    assert(self.channels@[i2] == cs_before[i2]);
                }
            };
            assert forall|kk: int|
                0 <= kk < self.delivered@.len() implies has_channel(
                self.channels@,
                (#[trigger] self.delivered@[kk]).origin,
            ) by {
                let w = choose|w: int|
                    0 <= w < cs_before.len() && cs_before[w].origin == d_start[kk].origin;
                assert(self.channels@[w].origin == self.delivered@[kk].origin);
            };
            assert(receiver_wf(*self));
        }
        let ghost cs_mid = self.channels@;
        // deliver everything held back, in increasing sequence order
        let mut flushed: usize = 0;
        proof {
            assert(self.delivered@.take(d_start.len() as int) =~= d_start);
        }
        while to_flush.len() > 0
            invariant
                receiver_wf(*self),
                self.channels@ == cs_mid,
                0 <= ci < cs_mid.len(),
                cs_mid[ci as int].origin == origin,
                self.cursor == old(self).cursor,
                channel_wf(ch_start),
                ch_start.origin == origin,
                flushed + to_flush@.len() == ch_start.buffer@.len(),
                ch_start.buffer@.len() <= usize::MAX,
                self.delivered@.len() == d_start.len() + flushed,
                self.delivered@.take(d_start.len() as int) == d_start,
                forall|j: int|
                    0 <= j < to_flush@.len() ==> ch_start.buffer@.contains(
                        #[trigger] to_flush@[j],
                    ),
                forall|j1: int, j2: int|
                    0 <= j1 < j2 < to_flush@.len() ==> to_flush@[j1].seq != to_flush@[j2].seq,
                forall|j: int|
                    0 <= j < to_flush@.len() ==> (#[trigger] to_flush@[j]).origin == origin
                        && ch_start.expected <= to_flush@[j].seq <= mx,
                mx < cs_mid[ci as int].expected,
                forall|k: int|
                    0 <= k < d_start.len() && (#[trigger] d_start[k]).origin == origin
                        ==> d_start[k].seq < ch_start.expected,
                forall|k2: int|
                    d_start.len() <= k2 < self.delivered@.len() ==> ch_start.buffer@.contains(
                        #[trigger] self.delivered@[k2],
                    ) && self.delivered@[k2].origin == origin && self.delivered@[k2].seq <= mx,
                forall|k1: int, k2: int|
                    d_start.len() <= k1 < k2 < self.delivered@.len() ==> self.delivered@[k1].seq
                        < self.delivered@[k2].seq,
                forall|k2: int, j: int|
                    d_start.len() <= k2 < self.delivered@.len() && 0 <= j < to_flush@.len()
                        ==> self.delivered@[k2].seq < to_flush@[j].seq,
            decreases to_flush@.len(),
        {
            let m_len = to_flush.len();
            let mut best: usize = 0;
            let mut m: usize = 1;
            while m < m_len
                invariant
                    m_len == to_flush@.len(),
                    best < m_len,
                    m <= m_len,
                    forall|j: int|
                        0 <= j < m ==> to_flush@[best as int].seq <= (
                        #[trigger] to_flush@[j]).seq,
                decreases m_len - m,
            {
                if to_flush[m].seq < to_flush[best].seq {
                    best = m;
                }
                m = m + 1;
            }
            let ghost tf_cur = to_flush@;
            let ghost d_cur = self.delivered@;
            let e = to_flush.remove(best);
            self.delivered.push(e);
            flushed = flushed + 1;
            proof {
                assert(forall|j: int| 0 <= j < best ==> to_flush@[j] == tf_cur[j]);
                assert(forall|j: int|
                    best <= j < to_flush@.len() ==> to_flush@[j] == tf_cur[j + 1]);
                assert(self.delivered@.take(d_start.len() as int) =~= d_start);
                assert(ch_start.buffer@.contains(e)) by {
                    assert(tf_cur[best as int] == e);
                };
                assert forall|k1: int, k2: int|
                    d_start.len() <= k1 < k2 < self.delivered@.len() implies self.delivered@[k1].seq
                    < self.delivered@[k2].seq by {
                    if k2 == self.delivered@.len() - 1 {
                        assert(self.delivered@[k1] == d_cur[k1]);
                        assert(d_cur[k1].seq < tf_cur[best as int].seq);
                    }
                };
                assert forall|k2: int, j: int|
                    d_start.len() <= k2 < self.delivered@.len() && 0 <= j
                        < to_flush@.len() implies self.delivered@[k2].seq < to_flush@[j].seq by {
                    let jj = if j < best {
                        j
                    } else {
                        j + 1
                    };
                    assert(to_flush@[j] == tf_cur[jj]);
                    if k2 < self.delivered@.len() - 1 {
                        assert(self.delivered@[k2] == d_cur[k2]);
                        assert(d_cur[k2].seq < tf_cur[jj].seq);
                    } else {
                        assert(self.delivered@[k2] == e);
                        assert(tf_cur[best as int].seq <= tf_cur[jj].seq);
                        assert(tf_cur[best as int].seq != tf_cur[jj].seq);
                    }
                };
                assert forall|a: int, b: int|
                    0 <= a < b < self.delivered@.len() && self.delivered@[a].origin
                        == self.delivered@[b].origin implies self.delivered@[a].seq
                    < self.delivered@[b].seq by {
                    if b == self.delivered@.len() - 1 {
                        assert(self.delivered@[b] == e);
                        if a < d_start.len() {
                            assert(self.delivered@[a] == d_cur[a]);
                            assert(d_cur[a] == d_start[a]) by {
                                assert(d_cur.take(d_start.len() as int)[a] == d_cur[a]);
                            };
                            assert(d_start[a].seq < ch_start.expected);
                            assert(e.seq >= ch_start.expected);
                        }
                    } else {
                        assert(self.delivered@[a] == d_cur[a]);
                        assert(self.delivered@[b] == d_cur[b]);
                    }
                };
                assert forall|kk: int, i2: int|
                    0 <= kk < self.delivered@.len() && 0 <= i2 < self.channels@.len() && (
                    #[trigger] self.delivered@[kk]).origin == (
                    #[trigger] self.channels@[i2]).origin implies self.delivered@[kk].seq
                    < self.channels@[i2].expected by {
                    if kk == self.delivered@.len() - 1 {
                        assert(self.delivered@[kk] == e);
                        if i2 != ci as int {
                            assert(cs_mid[i2] == cs_before[i2]);
                            assert(cs_before[i2].origin != cs_before[ci as int].origin);
                            assert(false);
                        }
                        assert(e.seq <= mx);
                        assert(mx < cs_mid[ci as int].expected);
                    } else {
                        assert(self.delivered@[kk] == d_cur[kk]);
                    }
                };
                assert forall|kk: int|
                    0 <= kk < self.delivered@.len() implies has_channel(
                    self.channels@,
                    (#[trigger] self.delivered@[kk]).origin,
                ) by {
                    if kk == self.delivered@.len() - 1 {
                        assert(self.channels@[ci as int].origin == origin);
                    } else {
                        let w = choose|w: int|
                            0 <= w < cs_mid.len() && cs_mid[w].origin == d_cur[kk].origin;
                        assert(self.channels@[w].origin == self.delivered@[kk].origin);
                    }
                };
            }
        }
        proof {
            assert forall|i: int|
                0 <= i < cs_before.len() && (#[trigger] cs_before[i]).origin == origin implies i
                == ci as int by {
                if i != ci as int {
                    assert(cs_before[i].origin != cs_before[ci as int].origin);
                }
            };
        }
        true
    }

    /// The lazy consumer view: everything delivered since the last
    /// call, in delivery order. The log itself is kept.
    pub fn subscribe_events(&mut self) -> (out: Vec<GlobalEvent>)
        requires
            receiver_wf(*old(self)),
        ensures
            receiver_wf(*final(self)),
            out@ == old(self).delivered@.skip(old(self).cursor as int),
            final(self).delivered@ == old(self).delivered@,
            final(self).channels@ == old(self).channels@,
            final(self).cursor == final(self).delivered@.len(),
    {
        let mut out: Vec<GlobalEvent> = Vec::new();
        let n = self.delivered.len();
        let mut k: usize = self.cursor;
        while k < n
            invariant
                n == self.delivered@.len(),
                old(self).cursor <= k <= n,
                self.delivered@ == old(self).delivered@,
                self.channels@ == old(self).channels@,
                self.cursor == old(self).cursor,
                out@ == self.delivered@.subrange(self.cursor as int, k as int),
            decreases n - k,
        {
            let e = self.delivered[k];
            out.push(e);
            proof {
                assert(out@ =~= self.delivered@.subrange(self.cursor as int, k + 1));
            }
            k = k + 1;
        }
        self.cursor = n;
        proof {
            assert(out@ =~= self.delivered@.skip(old(self).cursor as int));
        }
        out
    }
}

/// The delivered run of one arrival is a contiguous range starting at
/// the channel's expected number, so its sequence numbers are strictly
/// increasing and at least `expected`; and the channel's new expected
/// number lies just past the run.
pub proof fn lemma_drain_above_for_channel(m: ChannelModel, s: u64)
    requires
        m.buffer.finite(),
        1 <= m.expected,
        forall|x: u64| m.buffer.contains(x) ==> m.expected < x < u64::MAX,
    ensures
        recv_model(m, s).expected >= m.expected,
        recv_out(m, s) == seq_range(m.expected, recv_model(m, s).expected),
        recv_out(m, s).len() == recv_model(m, s).expected - m.expected,
        forall|k: int|
            0 <= k < recv_out(m, s).len() ==> recv_out(m, s)[k] == m.expected + k,
        forall|x: u64| recv_model(m, s).buffer.contains(x) ==> recv_model(m, s).expected < x
            < u64::MAX,
{
    if s == 0 || s == u64::MAX || s < m.expected || m.buffer.contains(s) {
        assert(recv_out(m, s) =~= seq_range(m.expected, m.expected));
        lemma_seq_range_index(m.expected, m.expected);
    } else {
        let mi = ChannelModel { expected: m.expected, buffer: m.buffer.insert(s) };
        let seen = mi.buffer;
        assert(mi.buffer =~= above_from(seen, mi.expected));
        lemma_drain_above(mi, seen);
        let md = drain_model(mi);
        lemma_seq_range_index(m.expected, md.expected);
        assert forall|x: u64| recv_model(m, s).buffer.contains(x) implies recv_model(
            m,
            s,
        ).expected < x < u64::MAX by {
            assert(above_from(seen, md.expected).contains(x));
            assert(seen.contains(x) && x >= md.expected);
            assert(x != md.expected);
        };
    }
}

} // verus!
