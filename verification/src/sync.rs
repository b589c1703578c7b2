//! Entity synchronizer: keeps every participant's view of the
//! networked entities consistent. Local entities are authoritative for
//! their own state and publish a snapshot with a fresh sequence number
//! every synchronization tick; remote entities are authoritative only
//! via received snapshots, of which only the one with the highest
//! sequence number seen so far is ever applied. Remote presentation
//! state is smoothed between ticks by integer interpolation with a
//! bounded look-ahead.

use vstd::prelude::*;

verus! {

/// Ticks a remote entity survives after its owning identity
/// disconnects, to tolerate transient network loss.
pub const GRACE_PERIOD_TICKS: u64 = 180;

/// Dropped (malformed) snapshots for one entity beyond which a
/// resynchronization request is raised.
pub const RESYNC_DROP_THRESHOLD: u64 = 16;

/// Positions and orientations live in a fixed-point grid within this
/// bound, so interpolation arithmetic cannot overflow.
pub const COORD_LIMIT: i64 = 1000000000;

/// The largest tick interval `presentation` accepts, in the host's
/// time unit.
pub const MAX_TICK_INTERVAL: u64 = 1000000;

/// The replicated state of one entity, in fixed-point units.
#[derive(Clone, Copy, PartialEq, Eq, Structural, Debug)]
pub struct EntityState {
    pub pos_x: i64,
    pub pos_y: i64,
    pub orientation: i64,
}

/// One tick's worth of state for one entity, tagged with the
/// per-identity sequence number that orders it.
#[derive(Clone, Copy, PartialEq, Eq, Structural, Debug)]
pub struct EntitySnapshot {
    pub identity: u64,
    pub seq: u64,
    pub state: EntityState,
    pub timestamp: u64,
}

/// A synchronization record: one per registered entity.
#[derive(Clone, Copy, PartialEq, Eq, Structural, Debug)]
pub struct EntityRecord {
    pub identity: u64,
    /// Authoritative locally (true) or via received snapshots (false).
    pub local: bool,
    /// Highest sequence number applied so far; 0 before any snapshot.
    pub applied_seq: u64,
    /// Interpolation source: the state before the latest application.
    pub prev_state: EntityState,
    /// The latest applied (or, for locals, authoritative) state.
    pub curr_state: EntityState,
    /// Next sequence number this local entity will publish under.
    pub next_out_seq: u64,
    /// Ticks since the owning identity disconnected, if it has.
    pub grace: Option<u64>,
    /// Malformed snapshots dropped since the last good application.
    pub dropped: u64,
}

/// What applying a received snapshot did.
#[derive(Clone, Copy, PartialEq, Eq, Structural, Debug)]
pub enum ApplyOutcome {
    /// Newer than anything seen: the state was applied.
    Applied,
    /// Same or lower sequence number: discarded, state unchanged.
    Stale,
    /// No record is registered for the snapshot's identity.
    Unknown,
    /// Out-of-range state: dropped and counted toward resync.
    Malformed,
}

/// States the synchronizer will hold: within the fixed-point grid.
pub open spec fn state_bounded(s: EntityState) -> bool {
    &&& -COORD_LIMIT <= s.pos_x <= COORD_LIMIT
    &&& -COORD_LIMIT <= s.pos_y <= COORD_LIMIT
    &&& -COORD_LIMIT <= s.orientation <= COORD_LIMIT
}

/// The neutral state a remote entity shows before its first snapshot.
pub open spec fn origin_state() -> EntityState {
    EntityState { pos_x: 0, pos_y: 0, orientation: 0 }
}

/// How one well-formed snapshot changes one record: applied only when
/// it targets this record and strictly exceeds the highest sequence
/// number seen, which also restarts interpolation, clears the
/// disconnect grace timer and the malformed-drop counter. Anything
/// else leaves the record untouched.
pub open spec fn apply_to_record(r: EntityRecord, s: EntitySnapshot) -> EntityRecord {
    if s.identity == r.identity && s.seq > r.applied_seq {
        EntityRecord {
            applied_seq: s.seq,
            prev_state: r.curr_state,
            curr_state: s.state,
            grace: None,
            dropped: 0,
            ..r
        }
    } else {
        r
    }
}

/// `apply_to_record` folded over a whole arrival sequence.
pub open spec fn fold_apply(r: EntityRecord, snaps: Seq<EntitySnapshot>) -> EntityRecord
    decreases snaps.len(),
{
    if snaps.len() == 0 {
        r
    } else {
        fold_apply(apply_to_record(r, snaps[0]), snaps.drop_first())
    }
}

/// The largest sequence number among `snaps`, at least `acc`.
pub open spec fn max_seq_from(snaps: Seq<EntitySnapshot>, acc: u64) -> u64
    decreases snaps.len(),
{
    if snaps.len() == 0 {
        acc
    } else {
        max_seq_from(snaps.drop_first(), if snaps[0].seq > acc { snaps[0].seq } else { acc })
    }
}

/// The running maximum never falls below where it started.
pub proof fn lemma_max_seq_from_ge(snaps: Seq<EntitySnapshot>, acc: u64)
    ensures
        max_seq_from(snaps, acc) >= acc,
        forall|i: int| 0 <= i < snaps.len() ==> max_seq_from(snaps, acc) >= snaps[i].seq,
    decreases snaps.len(),
{
    if snaps.len() > 0 {
        let acc1 = if snaps[0].seq > acc {
            snaps[0].seq
        } else {
            acc
        };
        lemma_max_seq_from_ge(snaps.drop_first(), acc1);
        assert(forall|i: int|
            1 <= i < snaps.len() ==> snaps.drop_first()[i - 1] == snaps[i]);
    }
}

/// Latest-snapshot-wins: after any arrival order of snapshots for one
/// identity, the record holds exactly the state of a snapshot carrying
/// the maximum sequence number seen (when any exceeded what was
/// already applied), and is untouched otherwise. Arrival order never
/// matters beyond that.
pub proof fn lemma_latest_snapshot_wins(r: EntityRecord, snaps: Seq<EntitySnapshot>)
    requires
        forall|i: int| 0 <= i < snaps.len() ==> snaps[i].identity == r.identity,
    ensures
        fold_apply(r, snaps).applied_seq == max_seq_from(snaps, r.applied_seq),
        max_seq_from(snaps, r.applied_seq) > r.applied_seq ==> exists|i: int|
            0 <= i < snaps.len() && snaps[i].seq == max_seq_from(snaps, r.applied_seq)
                && fold_apply(r, snaps).curr_state == snaps[i].state,
        max_seq_from(snaps, r.applied_seq) == r.applied_seq ==> fold_apply(r, snaps) == r,
    decreases snaps.len(),
{
    if snaps.len() > 0 {
        let r1 = apply_to_record(r, snaps[0]);
        let rest = snaps.drop_first();
        lemma_latest_snapshot_wins(r1, rest);
        let m = max_seq_from(snaps, r.applied_seq);
        assert(r1.applied_seq == if snaps[0].seq > r.applied_seq {
            snaps[0].seq
        } else {
            r.applied_seq
        });
        assert(m == max_seq_from(rest, r1.applied_seq));
        lemma_max_seq_from_ge(rest, r1.applied_seq);
        if m > r.applied_seq {
            if max_seq_from(rest, r1.applied_seq) > r1.applied_seq {
                let j = choose|j: int|
                    0 <= j < rest.len() && rest[j].seq == max_seq_from(rest, r1.applied_seq)
                        && fold_apply(r1, rest).curr_state == rest[j].state;
                assert(snaps[j + 1] == rest[j]);
                assert(0 <= j + 1 < snaps.len() && snaps[j + 1].seq == m && fold_apply(
                    r,
                    snaps,
                ).curr_state == snaps[j + 1].state);
            } else {
                assert(m == r1.applied_seq);
                assert(snaps[0].seq > r.applied_seq);
                assert(r1.curr_state == snaps[0].state);
                assert(fold_apply(r1, rest) == r1);
                assert(0 <= 0 < snaps.len() && snaps[0].seq == m && fold_apply(
                    r,
                    snaps,
                ).curr_state == snaps[0].state);
            }
        }
    }
}

/// Idempotence of application: a snapshot whose sequence number does
/// not exceed what is already applied changes nothing, and applying
/// the same snapshot twice is the same as applying it once.
pub proof fn lemma_reapply_idempotent(r: EntityRecord, s: EntitySnapshot)
    ensures
        s.seq <= r.applied_seq ==> apply_to_record(r, s) == r,
        apply_to_record(apply_to_record(r, s), s) == apply_to_record(r, s),
{
}

/// The synchronizer: an arena of records keyed by network identity.
pub struct EntitySynchronizer {
    pub records: Vec<EntityRecord>,
}

/// Well-formedness: one record per identity, every held state within
/// the fixed-point grid.
pub open spec fn sync_wf(s: EntitySynchronizer) -> bool {
    &&& forall|i: int, j: int|
        0 <= i < j < s.records@.len() ==> s.records@[i].identity != s.records@[j].identity
    &&& forall|i: int|
        0 <= i < s.records@.len() ==> state_bounded((#[trigger] s.records@[i]).curr_state)
            && state_bounded(s.records@[i].prev_state)
}

/// Whether a record for `id` exists in `rs`.
pub open spec fn has_record(rs: Seq<EntityRecord>, id: u64) -> bool {
    exists|i: int| 0 <= i < rs.len() && rs[i].identity == id
}

impl EntitySynchronizer {
    /// An empty arena.
    pub fn new() -> (s: EntitySynchronizer)
        ensures
            s.records@.len() == 0,
            sync_wf(s),
    {
        EntitySynchronizer { records: Vec::new() }
    }

    /// The index of the record owned by `id`, if one exists.
    pub fn find_index(&self, id: u64) -> (r: Option<usize>)
        ensures
            match r {
                Some(i) => i < self.records@.len() && self.records@[i as int].identity == id,
                None => !has_record(self.records@, id),
            },
    {
        let mut i: usize = 0;
        while i < self.records.len()
            invariant
                i <= self.records@.len(),
                forall|j: int| 0 <= j < i ==> self.records@[j].identity != id,
            decreases self.records@.len() - i,
        {
            if self.records[i].identity == id {
                return Some(i);
            }
            i = i + 1;
        }
        None
    }

    /// Register a locally-simulated entity, authoritative for its own
    /// state. Fails (returns false, no change) when the identity is
    /// already registered or the initial state is out of range.
    pub fn register_local(&mut self, id: u64, initial: EntityState) -> (ok: bool)
        requires
            sync_wf(*old(self)),
        ensures
            sync_wf(*final(self)),
            ok == (!has_record(old(self).records@, id) && state_bounded(initial)),
            ok ==> final(self).records@ == old(self).records@.push(
                fresh_record(id, true, initial),
            ),
            !ok ==> *final(self) == *old(self),
    {
        if !(initial.pos_x >= -COORD_LIMIT && initial.pos_x <= COORD_LIMIT && initial.pos_y
            >= -COORD_LIMIT && initial.pos_y <= COORD_LIMIT && initial.orientation >= -COORD_LIMIT
            && initial.orientation <= COORD_LIMIT) {
            return false;
        }
        match self.find_index(id) {
            Some(_) => false,
            None => {
                self.records.push(
                    EntityRecord {
                        identity: id,
                        local: true,
                        applied_seq: 0,
                        prev_state: initial,
                        curr_state: initial,
                        next_out_seq: 1,
                        grace: None,
                        dropped: 0,
                    },
                );
                true
            },
        }
    }

    /// Register an entity owned by a remote identity; it shows the
    /// neutral origin state until its first snapshot arrives. Fails
    /// (returns false, no change) when the identity is already
    /// registered.
    pub fn register_remote(&mut self, id: u64) -> (ok: bool)
        requires
            sync_wf(*old(self)),
        ensures
            sync_wf(*final(self)),
            ok == !has_record(old(self).records@, id),
            ok ==> final(self).records@ == old(self).records@.push(
                fresh_record(id, false, origin_state()),
            ),
            !ok ==> *final(self) == *old(self),
    {
        match self.find_index(id) {
            Some(_) => false,
            None => {
                self.records.push(
                    EntityRecord {
                        identity: id,
                        local: false,
                        applied_seq: 0,
                        prev_state: EntityState { pos_x: 0, pos_y: 0, orientation: 0 },
                        curr_state: EntityState { pos_x: 0, pos_y: 0, orientation: 0 },
                        next_out_seq: 1,
                        grace: None,
                        dropped: 0,
                    },
                );
                true
            },
        }
    }

    /// Apply one received snapshot: latest-sequence-wins, duplicates
    /// and stale arrivals discarded unchanged, out-of-range states
    /// dropped (counted toward a resynchronization request), unknown
    /// identities dropped. Never fails the synchronizer itself.
    pub fn apply_snapshot(&mut self, snap: EntitySnapshot) -> (outcome: ApplyOutcome)
        requires
            sync_wf(*old(self)),
        ensures
            sync_wf(*final(self)),
            !has_record(old(self).records@, snap.identity) ==> outcome == ApplyOutcome::Unknown
                && *final(self) == *old(self),
            forall|i: int|
                0 <= i < old(self).records@.len() && old(self).records@[i].identity
                    == snap.identity && state_bounded(snap.state) ==> {
                    &&& final(self).records@ == old(self).records@.update(
                        i,
                        apply_to_record(#[trigger] old(self).records@[i], snap),
                    )
                    &&& outcome == (if snap.seq > old(self).records@[i].applied_seq {
                        ApplyOutcome::Applied
                    } else {
                        ApplyOutcome::Stale
                    })
                },
            forall|i: int|
                0 <= i < old(self).records@.len() && (#[trigger] old(self).records@[i]).identity
                    == snap.identity && !state_bounded(snap.state) ==> {
                    &&& outcome == ApplyOutcome::Malformed
                    &&& final(self).records@ == old(self).records@.update(
                        i,
                        bump_dropped(old(self).records@[i]),
                    )
                },
    {
        match self.find_index(snap.identity) {
            None => ApplyOutcome::Unknown,
            Some(i) => {
                if !(snap.state.pos_x >= -COORD_LIMIT && snap.state.pos_x <= COORD_LIMIT
                    && snap.state.pos_y >= -COORD_LIMIT && snap.state.pos_y <= COORD_LIMIT
                    && snap.state.orientation >= -COORD_LIMIT && snap.state.orientation
                    <= COORD_LIMIT) {
                    let rec = self.records[i];
                    let bumped = EntityRecord {
                        dropped: if rec.dropped < u64::MAX {
                            rec.dropped + 1
                        } else {
                            rec.dropped
                        },
                        ..rec
                    };
                    self.records.set(i, bumped);
                    return ApplyOutcome::Malformed;
                }
                let rec = self.records[i];
                if snap.seq > rec.applied_seq {
                    let updated = EntityRecord {
                        applied_seq: snap.seq,
                        prev_state: rec.curr_state,
                        curr_state: snap.state,
                        grace: None,
                        dropped: 0,
                        ..rec
                    };
                    self.records.set(i, updated);
                    ApplyOutcome::Applied
                } else {
                    assert(self.records@ =~= self.records@.update(i as int, rec));
                    ApplyOutcome::Stale
                }
            },
        }
    }

    /// Whether the dropped-snapshot burst for `id` has crossed the
    /// resynchronization threshold. The wire schema carries no message
    /// for the request itself: the host polls this each tick and asks
    /// the server to resynchronize the entity in whatever form its
    /// protocol extension provides; a good application resets the
    /// burst.
    pub fn needs_resync(&self, id: u64) -> (r: bool)
        requires
            sync_wf(*self),
        ensures
            r == exists|i: int|
                0 <= i < self.records@.len() && (#[trigger] self.records@[i]).identity == id
                    && self.records@[i].dropped > RESYNC_DROP_THRESHOLD,
    {
        match self.find_index(id) {
            Some(i) => {
                assert(forall|k: int|
                    0 <= k < self.records@.len() && (#[trigger] self.records@[k]).identity == id
                        ==> k == i as int);
                self.records[i].dropped > RESYNC_DROP_THRESHOLD
            },
            None => false,
        }
    }

    /// The latest applied (or authoritative) state for `id`, if it is
    /// registered.
    pub fn entity_state(&self, id: u64) -> (r: Option<EntityState>)
        ensures
            match r {
                Some(st) => exists|i: int|
                    0 <= i < self.records@.len() && (#[trigger] self.records@[i]).identity == id
                        && self.records@[i].curr_state == st,
                None => !has_record(self.records@, id),
            },
    {
        match self.find_index(id) {
            Some(i) => Some(self.records[i].curr_state),
            None => None,
        }
    }

    /// Overwrite the authoritative state of a local entity (game logic
    /// moved it). Fails when `id` is not a registered local entity or
    /// the state is out of range.
    pub fn set_local_state(&mut self, id: u64, st: EntityState) -> (ok: bool)
        requires
            sync_wf(*old(self)),
        ensures
            sync_wf(*final(self)),
            ok == (state_bounded(st) && exists|i: int|
                0 <= i < old(self).records@.len() && (#[trigger] old(self).records@[i]).identity
                    == id && old(self).records@[i].local),
            ok ==> exists|i: int|
                0 <= i < old(self).records@.len() && (#[trigger] old(self).records@[i]).identity
                    == id && old(self).records@[i].local && final(self).records@ == old(
                    self,
                ).records@.update(
                    i,
                    (EntityRecord { curr_state: st, ..old(self).records@[i] }),
                ),
            !ok ==> *final(self) == *old(self),
    {
        if !(st.pos_x >= -COORD_LIMIT && st.pos_x <= COORD_LIMIT && st.pos_y >= -COORD_LIMIT
            && st.pos_y <= COORD_LIMIT && st.orientation >= -COORD_LIMIT && st.orientation
            <= COORD_LIMIT) {
            return false;
        }
        match self.find_index(id) {
            Some(i) => {
                let rec = self.records[i];
                if rec.local {
                    self.records.set(i, EntityRecord { curr_state: st, ..rec });
                    proof {
                        let rs = self.records@;
                        let os = old(self).records@;
                        assert(state_bounded(st));
                        assert(rs == os.update(i as int, (EntityRecord { curr_state: st, ..rec })));
                        assert(rec == os[i as int]);
                        assert(rs[i as int].prev_state == rec.prev_state && rs[i as int].curr_state
                            == st);
                        assert(forall|k: int| 0 <= k < rs.len() && k != i as int ==> rs[k] == os[k]);
                        assert(forall|k: int|
                            0 <= k < rs.len() ==> (#[trigger] rs[k]).identity == os[k].identity);
                        assert forall|k: int|
                            0 <= k < rs.len() implies state_bounded(
                            #[trigger] rs[k].curr_state,
                        ) && state_bounded(rs[k].prev_state) by {
                            if k != i as int {
                                assert(rs[k] == os[k]);
                                assert(0 <= k < old(self).records@.len());
                                assert(state_bounded(old(self).records@[k].curr_state)
                                    && state_bounded(old(self).records@[k].prev_state));
                            }
                        };
                    }
                    true
                } else {
                    false
                }
            },
            None => false,
        }
    }
}

impl EntitySynchronizer {
    /// One synchronization tick's outbound half: every local entity's
    /// authoritative state is serialized as a snapshot tagged with its
    /// next sequence number, which is then advanced. Returns the
    /// snapshots to send, in registration order.
    pub fn publish_local_snapshots(&mut self, timestamp: u64) -> (out: Vec<EntitySnapshot>)
        requires
            sync_wf(*old(self)),
        ensures
            sync_wf(*final(self)),
            out@ == local_snaps_of(old(self).records@, timestamp),
            final(self).records@.len() == old(self).records@.len(),
            forall|k: int|
                0 <= k < old(self).records@.len() ==> final(self).records@[k] == after_publish(
                    #[trigger] old(self).records@[k],
                ),
    {
        let mut out: Vec<EntitySnapshot> = Vec::new();
        let mut i: usize = 0;
        let n = self.records.len();
        while i < n
            invariant
                n == self.records@.len(),
                n == old(self).records@.len(),
                i <= n,
                out@ == local_snaps_of(old(self).records@.take(i as int), timestamp),
                forall|k: int|
                    0 <= k < i ==> self.records@[k] == after_publish(
                        #[trigger] old(self).records@[k],
                    ),
                forall|k: int| i <= k < n ==> self.records@[k] == old(self).records@[k],
            decreases n - i,
        {
            let rec = self.records[i];
            proof {
                assert(old(self).records@.take(i + 1).drop_last() =~= old(self).records@.take(
                    i as int,
                ));
                assert(old(self).records@.take(i + 1).last() == old(self).records@[i as int]);
            }
            if rec.local {
                out.push(
                    EntitySnapshot {
                        identity: rec.identity,
                        seq: rec.next_out_seq,
                        state: rec.curr_state,
                        timestamp,
                    },
                );
                let advanced = EntityRecord {
                    next_out_seq: if rec.next_out_seq < u64::MAX {
                        rec.next_out_seq + 1
                    } else {
                        rec.next_out_seq
                    },
                    ..rec
                };
                self.records.set(i, advanced);
            }
            i = i + 1;
        }
        proof {
            assert(old(self).records@.take(n as int) =~= old(self).records@);
            assert forall|p: int, q: int|
                0 <= p < q < self.records@.len() implies self.records@[p].identity
                != self.records@[q].identity by {
                assert(self.records@[p].identity == old(self).records@[p].identity);
                assert(self.records@[q].identity == old(self).records@[q].identity);
            };
            assert forall|k: int|
                0 <= k < self.records@.len() implies state_bounded(
                (#[trigger] self.records@[k]).curr_state,
            ) && state_bounded(self.records@[k].prev_state) by {
                assert(self.records@[k].curr_state == old(self).records@[k].curr_state);
                assert(self.records@[k].prev_state == old(self).records@[k].prev_state);
            };
        }
        out
    }

    /// The owning identity of `id`'s record disconnected: a remote
    /// record starts its grace period (restarted if already running);
    /// local records and unknown identities are untouched.
    pub fn on_identity_disconnected(&mut self, id: u64)
        requires
            sync_wf(*old(self)),
        ensures
            sync_wf(*final(self)),
            !has_record(old(self).records@, id) ==> *final(self) == *old(self),
            forall|i: int|
                0 <= i < old(self).records@.len() && (#[trigger] old(self).records@[i]).identity
                    == id ==> final(self).records@ == (if old(self).records@[i].local {
                    old(self).records@
                } else {
                    old(self).records@.update(
                        i,
                        (EntityRecord { grace: Some(0u64), ..old(self).records@[i] }),
                    )
                }),
    {
        match self.find_index(id) {
            None => {
            },
            Some(i) => {
                let rec = self.records[i];
                if !rec.local {
                    self.records.set(i, EntityRecord { grace: Some(0u64), ..rec });
                    proof {
                        let rs = self.records@;
                        let os = old(self).records@;
                        assert(forall|k: int| 0 <= k < rs.len() && k != i as int ==> rs[k] == os[k]);
                        assert forall|p: int, q: int|
                            0 <= p < q < rs.len() implies rs[p].identity != rs[q].identity by {
                            assert(rs[p].identity == os[p].identity);
                            assert(rs[q].identity == os[q].identity);
                        };
                        assert forall|k: int|
                            0 <= k < rs.len() implies state_bounded(
                            (#[trigger] rs[k]).curr_state,
                        ) && state_bounded(rs[k].prev_state) by {
                            assert(rs[k].curr_state == os[k].curr_state);
                            assert(rs[k].prev_state == os[k].prev_state);
                        };
                    }
                } else {
                    assert(self.records@ =~= old(self).records@);
                }
            },
        }
    }

    /// Advance every running grace timer by `ticks` (saturating).
    pub fn advance_grace(&mut self, ticks: u64)
        requires
            sync_wf(*old(self)),
        ensures
            sync_wf(*final(self)),
            final(self).records@.len() == old(self).records@.len(),
            forall|k: int|
                0 <= k < old(self).records@.len() ==> final(self).records@[k] == aged(
                    #[trigger] old(self).records@[k],
                    ticks,
                ),
    {
        let mut i: usize = 0;
        let n = self.records.len();
        while i < n
            invariant
                n == self.records@.len(),
                n == old(self).records@.len(),
                i <= n,
                forall|k: int|
                    0 <= k < i ==> self.records@[k] == aged(#[trigger] old(self).records@[k], ticks),
                forall|k: int| i <= k < n ==> self.records@[k] == old(self).records@[k],
            decreases n - i,
        {
            let rec = self.records[i];
            match rec.grace {
                Some(g) => {
                    let g2 = if g <= u64::MAX - ticks {
                        g + ticks
                    } else {
                        u64::MAX
                    };
                    self.records.set(i, EntityRecord { grace: Some(g2), ..rec });
                },
                None => {
                },
            }
            i = i + 1;
        }
        proof {
            assert forall|p: int, q: int|
                0 <= p < q < self.records@.len() implies self.records@[p].identity
                != self.records@[q].identity by {
                assert(self.records@[p].identity == old(self).records@[p].identity);
                assert(self.records@[q].identity == old(self).records@[q].identity);
            };
            assert forall|k: int|
                0 <= k < self.records@.len() implies state_bounded(
                (#[trigger] self.records@[k]).curr_state,
            ) && state_bounded(self.records@[k].prev_state) by {
                assert(self.records@[k].curr_state == old(self).records@[k].curr_state);
                assert(self.records@[k].prev_state == old(self).records@[k].prev_state);
            };
        }
    }

    /// Retire every record whose grace period has fully elapsed; all
    /// others survive unchanged, in order.
    pub fn remove_expired(&mut self)
        requires
            sync_wf(*old(self)),
        ensures
            sync_wf(*final(self)),
            final(self).records@ == retain_alive(old(self).records@),
    {
        let mut kept: Vec<EntityRecord> = Vec::new();
        let mut i: usize = 0;
        let n = self.records.len();
        while i < n
            invariant
                n == self.records@.len(),
                self.records@ == old(self).records@,
                i <= n,
                kept@ == retain_alive(self.records@.take(i as int)),
            decreases n - i,
        {
            let rec = self.records[i];
            proof {
                assert(self.records@.take(i + 1).drop_last() =~= self.records@.take(i as int));
                assert(self.records@.take(i + 1).last() == self.records@[i as int]);
            }
            let keep = match rec.grace {
                Some(g) => g < GRACE_PERIOD_TICKS,
                None => true,
            };
            if keep {
                kept.push(rec);
            }
            i = i + 1;
        }
        proof {
            assert(self.records@.take(n as int) =~= self.records@);
            lemma_retain_alive_wf(old(self).records@);
        }
        self.records = kept;
    }
}

/// Linear interpolation from `a` toward `b` by `num / den`, in integer
/// fixed-point arithmetic. `num` may exceed `den` (extrapolation past
/// `b` along the same direction).
pub open spec fn lerp_val(a: i64, b: i64, num: u64, den: u64) -> int {
    if b >= a {
        a + (b - a) * num / (den as int)
    } else {
        a - (a - b) * num / (den as int)
    }
}

/// Interpolation progress, clamped to the look-ahead window of one
/// extra tick interval: beyond `2 * interval` the entity freezes
/// rather than overshooting further.
pub open spec fn clamped_progress(since_apply: u64, interval: u64) -> u64 {
    if since_apply <= 2 * interval {
        since_apply
    } else {
        (2 * interval) as u64
    }
}

/// The smoothed presentation of a record `since_apply` time units
/// after its latest application, with ticks `interval` apart.
pub open spec fn interp_state(
    prev: EntityState,
    curr: EntityState,
    since_apply: u64,
    interval: u64,
) -> EntityState {
    let num = clamped_progress(since_apply, interval);
    EntityState {
        pos_x: lerp_val(prev.pos_x, curr.pos_x, num, interval) as i64,
        pos_y: lerp_val(prev.pos_y, curr.pos_y, num, interval) as i64,
        orientation: lerp_val(prev.orientation, curr.orientation, num, interval) as i64,
    }
}

/// One interpolated coordinate. The bounds on the inputs keep every
/// intermediate product within the machine's range.
pub fn lerp_coord(a: i64, b: i64, num: u64, den: u64) -> (r: i64)
    requires
        -COORD_LIMIT <= a <= COORD_LIMIT,
        -COORD_LIMIT <= b <= COORD_LIMIT,
        1 <= den <= MAX_TICK_INTERVAL,
        num <= 2 * den,
    ensures
        r == lerp_val(a, b, num, den),
{
    if b >= a {
        let delta = (b - a) as u64;
        proof {
            assert(num <= 2000000);
            assert(delta * num <= 4000000000000000) by (nonlinear_arith)
                requires
                    delta <= 2000000000,
                    num <= 2000000,
            ;
            vstd::arithmetic::div_mod::lemma_div_basics_5(delta as int * num as int, den as int);
        }
        let scaled = delta * num / den;
        a + (scaled as i64)
    } else {
        let delta = (a - b) as u64;
        proof {
            assert(num <= 2000000);
            assert(delta * num <= 4000000000000000) by (nonlinear_arith)
                requires
                    delta <= 2000000000,
                    num <= 2000000,
            ;
            vstd::arithmetic::div_mod::lemma_div_basics_5(delta as int * num as int, den as int);
        }
        let scaled = delta * num / den;
        a - (scaled as i64)
    }
}

impl EntitySynchronizer {
    /// The smoothed state to render for `id`, `since_apply` time units
    /// after its latest snapshot was applied, with synchronization
    /// ticks `interval` apart: interpolation from the state before
    /// that snapshot toward it over one interval, extrapolation past
    /// it up to one further interval, frozen beyond. `None` when `id`
    /// is not registered.
    pub fn presentation(&self, id: u64, since_apply: u64, interval: u64) -> (r: Option<
        EntityState,
    >)
        requires
            sync_wf(*self),
            1 <= interval <= MAX_TICK_INTERVAL,
        ensures
            match r {
                Some(st) => exists|i: int|
                    0 <= i < self.records@.len() && (#[trigger] self.records@[i]).identity == id
                        && st == interp_state(
                        self.records@[i].prev_state,
                        self.records@[i].curr_state,
                        since_apply,
                        interval,
                    ),
                None => !has_record(self.records@, id),
            },
    {
        match self.find_index(id) {
            None => None,
            Some(i) => {
                let rec = self.records[i];
                let num = if since_apply <= 2 * interval {
                    since_apply
                } else {
                    2 * interval
                };
                Some(
                    EntityState {
                        pos_x: lerp_coord(rec.prev_state.pos_x, rec.curr_state.pos_x, num, interval),
                        pos_y: lerp_coord(rec.prev_state.pos_y, rec.curr_state.pos_y, num, interval),
                        orientation: lerp_coord(
                            rec.prev_state.orientation,
                            rec.curr_state.orientation,
                            num,
                            interval,
                        ),
                    },
                )
            },
        }
    }
}

/// Whether a record's grace period has fully elapsed.
pub open spec fn expired(r: EntityRecord) -> bool {
    match r.grace {
        Some(g) => g >= GRACE_PERIOD_TICKS,
        None => false,
    }
}

/// The records that survive `remove_expired`, in order.
pub open spec fn retain_alive(rs: Seq<EntityRecord>) -> Seq<EntityRecord>
    decreases rs.len(),
{
    if rs.len() == 0 {
        Seq::empty()
    } else if expired(rs.last()) {
        retain_alive(rs.drop_last())
    } else {
        retain_alive(rs.drop_last()).push(rs.last())
    }
}

/// Every survivor of `retain_alive` was present before.
pub proof fn lemma_retain_alive_membership(rs: Seq<EntityRecord>)
    ensures
        forall|k: int|
            0 <= k < retain_alive(rs).len() ==> exists|j: int|
                0 <= j < rs.len() && rs[j] == #[trigger] retain_alive(rs)[k],
    decreases rs.len(),
{
    if rs.len() > 0 {
        lemma_retain_alive_membership(rs.drop_last());
        assert forall|k: int| 0 <= k < retain_alive(rs).len() implies exists|j: int|
            0 <= j < rs.len() && rs[j] == #[trigger] retain_alive(rs)[k] by {
            let dl = rs.drop_last();
            if k < retain_alive(dl).len() {
                let j = choose|j: int| 0 <= j < dl.len() && dl[j] == retain_alive(dl)[k];
                assert(rs[j] == retain_alive(rs)[k]);
            } else {
                assert(retain_alive(rs)[k] == rs.last());
                assert(rs[rs.len() - 1] == retain_alive(rs)[k]);
            }
        };
    }
}

/// `retain_alive` keeps well-formedness: distinct identities stay
/// distinct and every kept state stays within bounds. Identity
/// distinctness carries over because each survivor is one of the
/// originals and survivors keep their relative order, so the last
/// survivor's identity cannot recur among the earlier ones.
pub proof fn lemma_retain_alive_wf(rs: Seq<EntityRecord>)
    requires
        forall|i: int, j: int| 0 <= i < j < rs.len() ==> rs[i].identity != rs[j].identity,
        forall|i: int|
            0 <= i < rs.len() ==> state_bounded((#[trigger] rs[i]).curr_state) && state_bounded(
                rs[i].prev_state,
            ),
    ensures
        forall|i: int, j: int|
            0 <= i < j < retain_alive(rs).len() ==> retain_alive(rs)[i].identity != retain_alive(
                rs,
            )[j].identity,
        forall|i: int|
            0 <= i < retain_alive(rs).len() ==> state_bounded(
                (#[trigger] retain_alive(rs)[i]).curr_state,
            ) && state_bounded(retain_alive(rs)[i].prev_state),
    decreases rs.len(),
{
    if rs.len() > 0 {
        let dl = rs.drop_last();
        lemma_retain_alive_wf(dl);
        lemma_retain_alive_membership(dl);
        if !expired(rs.last()) {
            assert forall|i: int, j: int|
                0 <= i < j < retain_alive(rs).len() implies retain_alive(rs)[i].identity
                != retain_alive(rs)[j].identity by {
                if j == retain_alive(rs).len() - 1 {
                    let w = choose|w: int| 0 <= w < dl.len() && dl[w] == retain_alive(dl)[i];
                    assert(rs[w].identity != rs[rs.len() - 1].identity);
                }
            };
        }
    }
}

/// The snapshot a local record publishes at `timestamp`.
pub open spec fn snap_of(r: EntityRecord, ts: u64) -> EntitySnapshot {
    EntitySnapshot { identity: r.identity, seq: r.next_out_seq, state: r.curr_state, timestamp: ts }
}

/// A record after one outbound publish: local records advance their
/// sequence counter (saturating at the top, which in practice is never
/// reached); remote records are untouched.
pub open spec fn after_publish(r: EntityRecord) -> EntityRecord {
    if r.local {
        EntityRecord {
            next_out_seq: if r.next_out_seq < u64::MAX {
                (r.next_out_seq + 1) as u64
            } else {
                r.next_out_seq
            },
            ..r
        }
    } else {
        r
    }
}

/// The snapshots one tick publishes: one per local record, in order.
pub open spec fn local_snaps_of(rs: Seq<EntityRecord>, ts: u64) -> Seq<EntitySnapshot>
    decreases rs.len(),
{
    if rs.len() == 0 {
        Seq::empty()
    } else if rs.last().local {
        local_snaps_of(rs.drop_last(), ts).push(snap_of(rs.last(), ts))
    } else {
        local_snaps_of(rs.drop_last(), ts)
    }
}

/// A record after `ticks` of grace aging (saturating).
pub open spec fn aged(r: EntityRecord, ticks: u64) -> EntityRecord {
    match r.grace {
        Some(g) => EntityRecord {
            grace: Some(
                if g + ticks <= u64::MAX {
                    (g + ticks) as u64
                } else {
                    u64::MAX
                },
            ),
            ..r
        },
        None => r,
    }
}

/// A newly registered record.
pub open spec fn fresh_record(id: u64, local: bool, initial: EntityState) -> EntityRecord {
    EntityRecord {
        identity: id,
        local,
        applied_seq: 0,
        prev_state: initial,
        curr_state: initial,
        next_out_seq: 1,
        grace: None,
        dropped: 0,
    }
}

/// A record after one malformed snapshot was dropped on it.
pub open spec fn bump_dropped(r: EntityRecord) -> EntityRecord {
    EntityRecord {
        dropped: if r.dropped < u64::MAX {
            (r.dropped + 1) as u64
        } else {
            r.dropped
        },
        ..r
    }
}

} // verus!
