//! TTL mutation registry: records positions whose state was temporarily
//! altered, together with the deadline at which each must revert.
//!
//! The registry is a flat keyed set with overwrite-on-reinsert: re-recording
//! a position refreshes its deadline (last-writer-wins) instead of adding a
//! duplicate entry, so at most one pending reversion exists per position.
//! A sweep is one linear pass that removes every entry whose deadline has
//! elapsed and hands the caller those positions, each exactly once.

use vstd::prelude::*;
use crate::world::Position;
use crate::posmap::{PosEntry, pos_has, pos_index, pos_unique, pos_map, lemma_pos_at,
    lemma_pos_update, lemma_pos_push};

verus! {

/// A promise to reset `position` to empty once `now >= value` (the deadline,
/// in milliseconds of simulation time).
pub type PendingReversion = PosEntry<u64>;

/// The registry of pending reversions, viewed as a finite map from each
/// recorded position to its reversion deadline.
pub struct MutationRegistry {
    entries: Vec<PendingReversion>,
}

impl View for MutationRegistry {
    type V = Map<Position, u64>;

    closed spec fn view(&self) -> Map<Position, u64> {
        pos_map(self.entries@)
    }
}

impl MutationRegistry {
    /// At most one entry per position.
    pub closed spec fn wf(&self) -> bool {
        pos_unique(self.entries@)
    }

    /// An empty registry: nothing is pending.
    pub fn new() -> (r: MutationRegistry)
        ensures
            r.wf(),
            r@ == Map::<Position, u64>::empty(),
    {
        let r = MutationRegistry { entries: Vec::new() };
        proof {
            assert(r@ =~= Map::<Position, u64>::empty());
        }
        r
    }

    /// Inserts or refreshes the pending reversion for `p` with deadline
    /// `now_ms + ttl_ms`. The deadline is strictly in the future at the
    /// instant of insertion, and a repeated call before expiry leaves one
    /// entry with the later deadline.
    pub fn record(&mut self, p: Position, now_ms: u64, ttl_ms: u64)
        requires
            old(self).wf(),
            ttl_ms >= 1,
            now_ms + ttl_ms <= u64::MAX,
        ensures
            final(self).wf(),
            final(self)@ == old(self)@.insert(p, (now_ms + ttl_ms) as u64),
            final(self)@[p] > now_ms,
    {
        let deadline: u64 = now_ms + ttl_ms;
        let n = self.entries.len();
        let mut i: usize = 0;
        while i < n
            invariant
                *self == *old(self),
                old(self).wf(),
                deadline == now_ms + ttl_ms,
                ttl_ms >= 1,
                n == self.entries@.len(),
                0 <= i <= n,
                forall|k: int| 0 <= k < i ==> self.entries@[k].position != p,
            decreases n - i,
        {
            if self.entries[i].position == p {
                self.entries[i] = PosEntry { position: p, value: deadline };
                proof {
                    lemma_pos_update(old(self).entries@, i as int, deadline);
                }
                return;
            }
            i += 1;
        }
        proof {
            assert(!pos_has(self.entries@, p));
        }
        self.entries.push(PosEntry { position: p, value: deadline });
        proof {
            lemma_pos_push(old(self).entries@, p, deadline);
        }
    }

    /// The deadline currently pending for `p`, if any.
    pub fn get_deadline(&self, p: Position) -> (r: Option<u64>)
        requires
            self.wf(),
        ensures
            self@.dom().contains(p) ==> r == Some(self@[p]),
            !self@.dom().contains(p) ==> r == None::<u64>,
    {
        let n = self.entries.len();
        let mut i: usize = 0;
        while i < n
            invariant
                self.wf(),
                n == self.entries@.len(),
                0 <= i <= n,
                forall|k: int| 0 <= k < i ==> self.entries@[k].position != p,
            decreases n - i,
        {
            if self.entries[i].position == p {
                proof {
                    lemma_pos_at(self.entries@, i as int);
                }
                return Some(self.entries[i].value);
            }
            i += 1;
        }
        proof {
            assert(!pos_has(self.entries@, p));
        }
        None
    }

    /// Number of pending reversions (one per recorded position).
    pub fn pending_count(&self) -> (r: usize)
        requires
            self.wf(),
        ensures
            self@.dom().finite(),
            r == self@.dom().len(),
    {
        proof {
            lemma_pos_count(self.entries@);
        }
        self.entries.len()
    }

    /// Removes every entry whose deadline has elapsed (`deadline <= now_ms`)
    /// and returns those positions, each exactly once, so the caller can
    /// revert each of them; entries with a future deadline are retained
    /// untouched. One linear pass over the entries.
    pub fn sweep(&mut self, now_ms: u64) -> (due: Vec<Position>)
        requires
            old(self).wf(),
        ensures
            final(self).wf(),
            forall|p: Position| final(self)@.dom().contains(p)
                <==> (old(self)@.dom().contains(p) && old(self)@[p] > now_ms),
            forall|p: Position| #[trigger] final(self)@.dom().contains(p)
                ==> final(self)@[p] == old(self)@[p],
            forall|p: Position| due@.contains(p)
                <==> (old(self)@.dom().contains(p) && old(self)@[p] <= now_ms),
            forall|a: int, b: int| 0 <= a < b < due@.len() ==> due@[a] != due@[b],
    {
        let ghost s0 = self.entries@;
        let n = self.entries.len();
        let mut kept: Vec<PendingReversion> = Vec::new();
        let mut due: Vec<Position> = Vec::new();
        let mut i: usize = 0;
        while i < n
            invariant
                *self == *old(self),
                old(self).wf(),
                s0 == self.entries@,
                n == s0.len(),
                0 <= i <= n,
                forall|j: int| 0 <= j < kept@.len() ==> retained_src(s0, i as int, now_ms, #[trigger] kept@[j]),
                forall|k: int| 0 <= k < i && s0[k].value > now_ms
                    ==> pos_has(kept@, #[trigger] s0[k].position),
                pos_unique(kept@),
                forall|j: int| 0 <= j < due@.len() ==> due_src(s0, i as int, now_ms, #[trigger] due@[j]),
                forall|k: int| 0 <= k < i && s0[k].value <= now_ms
                    ==> due@.contains(#[trigger] s0[k].position),
                forall|a: int, b: int| 0 <= a < b < due@.len() ==> due@[a] != due@[b],
            decreases n - i,
        {
            let e = self.entries[i];
            let ghost k0 = kept@;
            let ghost d0 = due@;
            if e.value <= now_ms {
                proof {
                    if due@.contains(e.position) {
                        let j = choose|j: int| 0 <= j < due@.len() && due@[j] == e.position;
                        assert(due_src(s0, i as int, now_ms, due@[j]));
                        let k = choose|k: int|
                            0 <= k < i && s0[k].position == due@[j] && s0[k].value <= now_ms;
                        assert(s0[k].position == s0[i as int].position);
                        assert(false);
                    }
                }
                due.push(e.position);
                proof {
                    assert(due@ == d0.push(e.position));
                    assert(s0[i as int] == e);
                    assert(due_src(s0, i + 1, now_ms, e.position)) by {
                        assert(0 <= i < i + 1 && s0[i as int].position == e.position
                            && s0[i as int].value <= now_ms);
                    }
                    assert forall|j: int| 0 <= j < due@.len() implies
                        due_src(s0, i + 1, now_ms, #[trigger] due@[j]) by {
                        if j < d0.len() {
                            assert(due_src(s0, i as int, now_ms, d0[j]));
                            let k = choose|k: int|
                                0 <= k < i && s0[k].position == d0[j] && s0[k].value <= now_ms;
                            assert(0 <= k < i + 1 && s0[k].position == due@[j]
                                && s0[k].value <= now_ms);
                        } else {
                            assert(due@[j] == e.position);
                        }
                    }
                    assert forall|j: int| 0 <= j < kept@.len() implies
                        retained_src(s0, i + 1, now_ms, #[trigger] kept@[j]) by {
                        assert(retained_src(s0, i as int, now_ms, kept@[j]));
                        let k = choose|k: int|
                            0 <= k < i && s0[k] == kept@[j] && s0[k].value > now_ms;
                        assert(0 <= k < i + 1 && s0[k] == kept@[j] && s0[k].value > now_ms);
                    }
                    assert forall|k: int| 0 <= k < i + 1 && s0[k].value <= now_ms implies
                        due@.contains(#[trigger] s0[k].position) by {
                        if k < i {
                            assert(d0.contains(s0[k].position));
                            let j = choose|j: int| 0 <= j < d0.len() && d0[j] == s0[k].position;
                            assert(due@[j] == s0[k].position);
                        } else {
                            assert(due@[d0.len() as int] == s0[k].position);
                        }
                    }
                    assert forall|a: int, b: int| 0 <= a < b < due@.len() implies
                        due@[a] != due@[b] by {
                        if b == d0.len() {
                            if due@[a] == e.position {
                                assert(d0[a] == e.position);
                                assert(d0.contains(e.position));
                            }
                        }
                    }
                }
            } else {
                proof {
                    if pos_has(kept@, e.position) {
                        let j = pos_index(kept@, e.position);
                        assert(retained_src(s0, i as int, now_ms, kept@[j]));
                        let k = choose|k: int|
                            0 <= k < i && s0[k] == kept@[j] && s0[k].value > now_ms;
                        assert(s0[k].position == s0[i as int].position);
                        assert(false);
                    }
                }
                kept.push(e);
                proof {
                    assert(kept@ == k0.push(e));
                    assert(s0[i as int] == e);
                    assert(retained_src(s0, i + 1, now_ms, e)) by {
                        assert(0 <= i < i + 1 && s0[i as int] == e
                            && s0[i as int].value > now_ms);
                    }
                    assert forall|j: int| 0 <= j < kept@.len() implies
                        retained_src(s0, i + 1, now_ms, #[trigger] kept@[j]) by {
                        if j < k0.len() {
                            assert(retained_src(s0, i as int, now_ms, k0[j]));
                            let k = choose|k: int|
                                0 <= k < i && s0[k] == k0[j] && s0[k].value > now_ms;
                            assert(0 <= k < i + 1 && s0[k] == kept@[j]
                                && s0[k].value > now_ms);
                        } else {
                            assert(kept@[j] == e);
                        }
                    }
                    assert forall|j: int| 0 <= j < due@.len() implies
                        due_src(s0, i + 1, now_ms, #[trigger] due@[j]) by {
                        assert(due_src(s0, i as int, now_ms, due@[j]));
                        let k = choose|k: int|
                            0 <= k < i && s0[k].position == due@[j] && s0[k].value <= now_ms;
                        assert(0 <= k < i + 1 && s0[k].position == due@[j]
                            && s0[k].value <= now_ms);
                    }
                    assert forall|k: int| 0 <= k < i + 1 && s0[k].value > now_ms implies
                        pos_has(kept@, #[trigger] s0[k].position) by {
                        if k < i {
                            assert(pos_has(k0, s0[k].position));
                            let j = choose|j: int|
                                0 <= j < k0.len() && k0[j].position == s0[k].position;
                            assert(kept@[j].position == s0[k].position);
                        } else {
                            assert(kept@[k0.len() as int].position == s0[k].position);
                        }
                    }
                    assert forall|a: int, b: int| 0 <= a < b < kept@.len() implies
                        kept@[a].position != kept@[b].position by {
                        if b == k0.len() {
                            if kept@[a].position == e.position {
                                assert(k0[a].position == e.position);
                                assert(pos_has(k0, e.position));
                            }
                        }
                    }
                }
            }
            i += 1;
        }
        self.entries = kept;
        proof {
            assert forall|p: Position| pos_has(self.entries@, p) implies
                (pos_map(s0).dom().contains(p) && pos_map(s0)[p] > now_ms
                    && pos_map(self.entries@)[p] == pos_map(s0)[p]) by {
                let j = pos_index(self.entries@, p);
                lemma_pos_at(self.entries@, j);
                assert(retained_src(s0, n as int, now_ms, self.entries@[j]));
                let k = choose|k: int|
                    0 <= k < n && s0[k] == self.entries@[j] && s0[k].value > now_ms;
                lemma_pos_at(s0, k);
            }
            assert forall|p: Position|
                pos_map(s0).dom().contains(p) && pos_map(s0)[p] > now_ms implies
                pos_has(self.entries@, p) by {
                let k = pos_index(s0, p);
                lemma_pos_at(s0, k);
            }
            assert forall|p: Position| due@.contains(p) implies
                (pos_map(s0).dom().contains(p) && pos_map(s0)[p] <= now_ms) by {
                let j = choose|j: int| 0 <= j < due@.len() && due@[j] == p;
                assert(due_src(s0, n as int, now_ms, due@[j]));
                let k = choose|k: int|
                    0 <= k < n && s0[k].position == due@[j] && s0[k].value <= now_ms;
                lemma_pos_at(s0, k);
            }
            assert forall|p: Position|
                pos_map(s0).dom().contains(p) && pos_map(s0)[p] <= now_ms implies
                due@.contains(p) by {
                let k = pos_index(s0, p);
                lemma_pos_at(s0, k);
            }
        }
        due
    }
}

/// An entry kept by a sweep of the first `i` entries of `s0` comes from an
/// undue entry among them.
pub open spec fn retained_src(s0: Seq<PendingReversion>, i: int, now: u64, e: PendingReversion) -> bool {
    exists|k: int| 0 <= k < i && s0[k] == e && s0[k].value > now
}

/// A position swept out of the first `i` entries of `s0` comes from a due
/// entry among them.
pub open spec fn due_src(s0: Seq<PendingReversion>, i: int, now: u64, p: Position) -> bool {
    exists|k: int| 0 <= k < i && s0[k].position == p && s0[k].value <= now
}

/// A table with pairwise-distinct positions has exactly one map entry per
/// vector entry.
pub proof fn lemma_pos_count<V>(s: Seq<PosEntry<V>>)
    requires
        pos_unique(s),
    ensures
        pos_map(s).dom().finite(),
        pos_map(s).dom().len() == s.len(),
    decreases s.len(),
{
    if s.len() == 0 {
        assert(pos_map(s).dom() =~= Set::<Position>::empty());
    } else {
        let s1 = s.drop_last();
        let last = s.last();
        assert(forall|k: int| 0 <= k < s1.len() ==> s1[k] == s[k]);
        assert(pos_unique(s1));
        lemma_pos_count(s1);
        assert(!pos_has(s1, last.position)) by {
            if pos_has(s1, last.position) {
                let k = pos_index(s1, last.position);
                assert(s[k].position == s[s.len() - 1].position);
            }
        }
        lemma_pos_push(s1, last.position, last.value);
        assert(s1.push(PosEntry { position: last.position, value: last.value }) =~= s);
        assert(pos_map(s).dom() =~= pos_map(s1).dom().insert(last.position));
    }
}

/// Law: refreshing a recorded position before expiry is idempotent — two
/// records for the same position leave exactly one pending reversion, whose
/// deadline is the one the later record installed (last-writer-wins).
pub proof fn lemma_idempotent_refresh(m: Map<Position, u64>, p: Position, d1: u64, d2: u64)
    ensures
        m.insert(p, d1).insert(p, d2) == m.insert(p, d2),
        m.insert(p, d1).insert(p, d2)[p] == d2,
{
    assert(m.insert(p, d1).insert(p, d2) =~= m.insert(p, d2));
}

/// Law: the registry never holds two deadlines for the same position — its
/// view is a map, so any two deadlines it reports for `p` coincide.
pub proof fn lemma_at_most_one_reversion(r: &MutationRegistry, p: Position, d1: u64, d2: u64)
    requires
        r@.dom().contains(p),
        r@[p] == d1,
        r@[p] == d2,
    ensures
        d1 == d2,
{
}

} // verus!

