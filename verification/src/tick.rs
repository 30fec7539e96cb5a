//! Tick scheduler: one synchronous simulation step over all sessions, the
//! world state store and the TTL mutation registry.
//!
//! Each step first processes every session (two-phase: process each session
//! and collect keep/drop decisions, then compact the active set), and only
//! then runs exactly one eviction sweep of the registry, writing the empty
//! value back for every elapsed deadline. All session-driven insertions of
//! a tick therefore complete before that tick's sweep runs.
//!
//! `phase1_model` is the mathematical fold of per-session transitions;
//! `swept_cells` / `swept_reversions` describe the sweep. `step` is proved
//! to implement their composition exactly.

use vstd::prelude::*;
use crate::config::Config;
use crate::registry::MutationRegistry;
use crate::session::{Session, LifecycleState, process_model, process_session,
    lemma_process_effects};
use crate::world::{Position, StateValue, WorldModel, WorldStore};

verus! {

/// Sessions fit for the active set: well-formed, never past `Active`
/// between ticks, and every bound entity present in the world.
pub open spec fn sessions_ok(ss: Seq<Session>, w: WorldModel) -> bool {
    forall|k: int| 0 <= k < ss.len() ==> ((#[trigger] ss[k]).wf()
        && (ss[k].state == LifecycleState::Connecting || ss[k].state == LifecycleState::Active)
        && ss[k].bound_in(w))
}

/// No two sessions hold the same bound entity.
pub open spec fn handles_distinct(ss: Seq<Session>) -> bool {
    forall|a: int, b: int| (0 <= a < b < ss.len()
        && (#[trigger] ss[a]).bound_entity.is_some() && (#[trigger] ss[b]).bound_entity.is_some())
        ==> ss[a].bound_entity.unwrap().id != ss[b].bound_entity.unwrap().id
}

/// Everything the session phase of one tick produces.
#[verifier::ext_equal]
pub struct TickOut {
    pub kept: Seq<Session>,
    pub world: WorldModel,
    pub reversions: Map<Position, u64>,
}

/// Fold of `process_model` over the sessions, in order: the session phase
/// of one tick, before the sweep.
pub open spec fn phase1_model(
    ss: Seq<Session>,
    w: WorldModel,
    r: Map<Position, u64>,
    cfg: Config,
    now: u64,
) -> TickOut
    decreases ss.len(),
{
    if ss.len() == 0 {
        TickOut { kept: Seq::empty(), world: w, reversions: r }
    } else {
        let prev = phase1_model(ss.drop_last(), w, r, cfg, now);
        let out = process_model(ss.last(), prev.world, prev.reversions, cfg, now);
        TickOut {
            kept: if out.keep {
                prev.kept.push(out.session)
            } else {
                prev.kept
            },
            world: out.world,
            reversions: out.reversions,
        }
    }
}

/// Cell map after one sweep at `now`: every position whose recorded
/// deadline elapsed reads empty; every other managed position is untouched.
pub open spec fn swept_cells(
    cells: Map<Position, StateValue>,
    r: Map<Position, u64>,
    now: u64,
) -> Map<Position, StateValue> {
    Map::new(
        |p: Position| cells.dom().contains(p) || (r.dom().contains(p) && r[p] <= now),
        |p: Position| if r.dom().contains(p) && r[p] <= now {
            StateValue::Empty
        } else {
            cells[p]
        },
    )
}

/// Registry after one sweep at `now`: exactly the entries whose deadline is
/// still in the future, with their deadlines unchanged.
pub open spec fn swept_reversions(r: Map<Position, u64>, now: u64) -> Map<Position, u64> {
    Map::new(|p: Position| r.dom().contains(p) && r[p] > now, |p: Position| r[p])
}

/// `p` occurs among the first `j` positions of `ps`.
pub open spec fn emptied_prefix(ps: Seq<Position>, j: int, p: Position) -> bool {
    exists|a: int| 0 <= a < j && ps[a] == p
}

/// The tick scheduler's whole execution context: configuration, world state
/// store, TTL mutation registry and the active session set, owned by one
/// single-threaded tick loop.
pub struct SimServer {
    pub config: Config,
    pub world: WorldStore,
    pub registry: MutationRegistry,
    pub sessions: Vec<Session>,
}

impl SimServer {
    /// Every component well-formed, every session fit for the active set,
    /// and no two sessions sharing a bound entity.
    pub open spec fn wf(&self) -> bool {
        &&& self.config.wf()
        &&& self.world.wf()
        &&& self.registry.wf()
        &&& sessions_ok(self.sessions@, self.world@)
        &&& handles_distinct(self.sessions@)
    }

    /// A fresh context: empty world, empty registry, no sessions.
    pub fn new(config: Config) -> (srv: SimServer)
        requires
            config.wf(),
        ensures
            srv.wf(),
            srv.config == config,
            srv.world@.cells == Map::<Position, StateValue>::empty(),
            srv.world@.entities.dom() == Set::<u64>::empty(),
            srv.registry@ == Map::<Position, u64>::empty(),
            srv.sessions@ == Seq::<Session>::empty(),
    {
        SimServer {
            config,
            world: WorldStore::new(),
            registry: MutationRegistry::new(),
            sessions: Vec::new(),
        }
    }

    /// Admits a connection the transport just accepted: a new `Connecting`
    /// session that the next tick will bind.
    pub fn accept_connection(&mut self, connection_id: u64, identity: u64)
        requires
            old(self).wf(),
        ensures
            final(self).wf(),
            final(self).config == old(self).config,
            final(self).world == old(self).world,
            final(self).registry == old(self).registry,
            final(self).sessions@ == old(self).sessions@.push(Session {
                connection_id,
                identity,
                transport_closed: false,
                state: LifecycleState::Connecting,
                bound_entity: None,
            }),
    {
        let s = Session::new(connection_id, identity);
        self.sessions.push(s);
        proof {
            assert forall|k: int| 0 <= k < self.sessions@.len() implies
                ((#[trigger] self.sessions@[k]).wf()
                    && (self.sessions@[k].state == LifecycleState::Connecting
                        || self.sessions@[k].state == LifecycleState::Active)
                    && self.sessions@[k].bound_in(self.world@)) by {
                if k < old(self).sessions@.len() {
                    assert(self.sessions@[k] == old(self).sessions@[k]);
                }
            }
            assert forall|a: int, b: int| (0 <= a < b < self.sessions@.len()
                && (#[trigger] self.sessions@[a]).bound_entity.is_some()
                && (#[trigger] self.sessions@[b]).bound_entity.is_some()) implies
                self.sessions@[a].bound_entity.unwrap().id
                    != self.sessions@[b].bound_entity.unwrap().id by {
                if b < old(self).sessions@.len() {
                    assert(self.sessions@[a] == old(self).sessions@[a]);
                    assert(self.sessions@[b] == old(self).sessions@[b]);
                }
            }
        }
    }

    /// Delivers a transport disconnect report: marks every session of that
    /// connection; the next tick unbinds and drops it.
    pub fn report_disconnect(&mut self, connection_id: u64)
        requires
            old(self).wf(),
        ensures
            final(self).wf(),
            final(self).config == old(self).config,
            final(self).world == old(self).world,
            final(self).registry == old(self).registry,
            final(self).sessions@.len() == old(self).sessions@.len(),
            forall|k: int| 0 <= k < old(self).sessions@.len()
                ==> #[trigger] final(self).sessions@[k]
                    == marked_closed(old(self).sessions@[k], connection_id),
    {
        let n = self.sessions.len();
        let mut i: usize = 0;
        while i < n
            invariant
                0 <= i <= n,
                n == self.sessions@.len(),
                self.sessions@.len() == old(self).sessions@.len(),
                self.config == old(self).config,
                self.world == old(self).world,
                self.registry == old(self).registry,
                old(self).wf(),
                forall|k: int| 0 <= k < i ==> #[trigger] self.sessions@[k]
                    == marked_closed(old(self).sessions@[k], connection_id),
                forall|k: int| i <= k < n ==> #[trigger] self.sessions@[k]
                    == old(self).sessions@[k],
            decreases n - i,
        {
            if self.sessions[i].connection_id == connection_id {
                let mut t = self.sessions[i];
                t.mark_transport_closed();
                self.sessions[i] = t;
            }
            i += 1;
        }
        proof {
            assert forall|k: int| 0 <= k < self.sessions@.len() implies
                ((#[trigger] self.sessions@[k]).wf()
                    && (self.sessions@[k].state == LifecycleState::Connecting
                        || self.sessions@[k].state == LifecycleState::Active)
                    && self.sessions@[k].bound_in(self.world@)) by {
                assert(self.sessions@[k] == marked_closed(old(self).sessions@[k], connection_id));
                assert(self.sessions@[k].state == old(self).sessions@[k].state);
                assert(self.sessions@[k].bound_entity == old(self).sessions@[k].bound_entity);
            }
            assert forall|a: int, b: int| (0 <= a < b < self.sessions@.len()
                && (#[trigger] self.sessions@[a]).bound_entity.is_some()
                && (#[trigger] self.sessions@[b]).bound_entity.is_some()) implies
                self.sessions@[a].bound_entity.unwrap().id
                    != self.sessions@[b].bound_entity.unwrap().id by {
                assert(self.sessions@[a].bound_entity == old(self).sessions@[a].bound_entity);
                assert(self.sessions@[b].bound_entity == old(self).sessions@[b].bound_entity);
            }
        }
    }

    /// One simulation step at time `now_ms`: processes every session in
    /// order, compacts the active set to those kept, then runs exactly one
    /// registry sweep, writing the empty value back at every position whose
    /// deadline elapsed. Session-phase insertions therefore always complete
    /// before the sweep of the same tick.
    pub fn step(&mut self, now_ms: u64)
        requires
            old(self).wf(),
            now_ms + old(self).config.mutation_ttl_ms <= u64::MAX,
        ensures
            final(self).wf(),
            final(self).config == old(self).config,
            final(self).sessions@ == phase1_model(old(self).sessions@, old(self).world@,
                old(self).registry@, old(self).config, now_ms).kept,
            final(self).world@.entities == phase1_model(old(self).sessions@, old(self).world@,
                old(self).registry@, old(self).config, now_ms).world.entities,
            final(self).world@.cells == swept_cells(
                phase1_model(old(self).sessions@, old(self).world@, old(self).registry@,
                    old(self).config, now_ms).world.cells,
                phase1_model(old(self).sessions@, old(self).world@, old(self).registry@,
                    old(self).config, now_ms).reversions,
                now_ms),
            final(self).registry@ == swept_reversions(
                phase1_model(old(self).sessions@, old(self).world@, old(self).registry@,
                    old(self).config, now_ms).reversions,
                now_ms),
    {
        let ghost ss0 = self.sessions@;
        let ghost w0 = self.world@;
        let ghost r0 = self.registry@;
        let ghost cfg0 = self.config;
        let n = self.sessions.len();
        let mut kept: Vec<Session> = Vec::new();
        let mut i: usize = 0;
        proof {
            assert(ss0.take(0) =~= Seq::<Session>::empty());
            assert(kept@ + ss0.skip(0) =~= ss0);
        }
        while i < n
            invariant
                0 <= i <= n,
                n == ss0.len(),
                ss0 == self.sessions@,
                self.config == cfg0,
                cfg0.wf(),
                self.world.wf(),
                self.registry.wf(),
                now_ms + cfg0.mutation_ttl_ms <= u64::MAX,
                kept@ == phase1_model(ss0.take(i as int), w0, r0, cfg0, now_ms).kept,
                self.world@ == phase1_model(ss0.take(i as int), w0, r0, cfg0, now_ms).world,
                self.registry@ == phase1_model(ss0.take(i as int), w0, r0, cfg0, now_ms)
                    .reversions,
                sessions_ok(kept@ + ss0.skip(i as int), self.world@),
                handles_distinct(kept@ + ss0.skip(i as int)),
            decreases n - i,
        {
            let ghost ph_pre = phase1_model(ss0.take(i as int), w0, r0, cfg0, now_ms);
            let ghost c_old = kept@ + ss0.skip(i as int);
            let ghost pre_kept = kept@;
            let mut s = self.sessions[i];
            proof {
                assert(ss0.skip(i as int)[0] == ss0[i as int]);
                assert(c_old[pre_kept.len() as int] == ss0[i as int]);
                assert((c_old[pre_kept.len() as int]).wf());
            }
            let keep = process_session(&mut s, &mut self.world, &mut self.registry,
                &self.config, now_ms);
            let ghost sv = ss0[i as int];
            let ghost out = process_model(sv, ph_pre.world, ph_pre.reversions, cfg0, now_ms);
            proof {
                lemma_process_effects(sv, ph_pre.world, ph_pre.reversions, cfg0, now_ms);
                assert(self.world@ =~= out.world);
            }
            if keep {
                kept.push(s);
            }
            i += 1;
            proof {
                assert(ss0.take(i as int).drop_last() =~= ss0.take(i as int - 1));
                assert(ss0.take(i as int).last() == ss0[i as int - 1]);
                let ph = phase1_model(ss0.take(i as int), w0, r0, cfg0, now_ms);
                assert(ph.world == out.world && ph.reversions == out.reversions
                    && ph.kept == (if out.keep { ph_pre.kept.push(out.session) } else {
                        ph_pre.kept
                    }));
                assert(kept@ == ph.kept);
                let c_new = kept@ + ss0.skip(i as int);
                assert forall|q: int| 0 <= q < n - i implies
                    ss0.skip(i as int)[q] == c_old[pre_kept.len() + 1 + q] by {
                    assert(ss0.skip(i as int)[q] == ss0[i + q]);
                    assert(ss0.skip(i as int - 1)[q + 1] == ss0[i + q]);
                }
                // every element of the new combined set is an old member or
                // the processed session
                assert forall|j: int| 0 <= j < c_new.len() implies
                    ((#[trigger] c_new[j]).wf()
                        && (c_new[j].state == LifecycleState::Connecting
                            || c_new[j].state == LifecycleState::Active)
                        && c_new[j].bound_in(self.world@)) by {
                    if out.keep && j == pre_kept.len() {
                        assert(c_new[j] == out.session);
                    } else {
                        let j0 = if j < pre_kept.len() {
                            j
                        } else if out.keep {
                            j
                        } else {
                            j + 1
                        };
                        if j < pre_kept.len() {
                            assert(c_new[j] == pre_kept[j]);
                            assert(c_old[j0] == pre_kept[j]);
                        } else if out.keep {
                            assert(c_new[j] == ss0.skip(i as int)[j - pre_kept.len() - 1]);
                            assert(c_old[j0] == ss0.skip(i as int)[j - pre_kept.len() - 1]);
                        } else {
                            assert(c_new[j] == ss0.skip(i as int)[j - pre_kept.len()]);
                            assert(c_old[j0] == ss0.skip(i as int)[j - pre_kept.len()]);
                        }
                        assert(c_new[j] == c_old[j0]);
                        assert((c_old[j0]).wf() && c_old[j0].bound_in(ph_pre.world));
                        if c_old[j0].bound_entity.is_some() {
                            let tid = c_old[j0].bound_entity.unwrap().id;
                            if sv.bound_entity.is_some() {
                                assert(c_old[j0].bound_entity.is_some()
                                    && c_old[pre_kept.len() as int].bound_entity.is_some());
                                assert(tid != sv.bound_entity.unwrap().id);
                            }
                            if sv.state == LifecycleState::Connecting {
                                if ph_pre.world.entities.dom().contains(sv.identity) {
                                    assert(out.world.entities == ph_pre.world.entities);
                                } else {
                                    assert(tid != sv.identity);
                                }
                            }
                        }
                    }
                }
                assert(sessions_ok(c_new, self.world@));
                assert forall|a: int, b: int| (0 <= a < b < c_new.len()
                    && (#[trigger] c_new[a]).bound_entity.is_some()
                    && (#[trigger] c_new[b]).bound_entity.is_some()) implies
                    c_new[a].bound_entity.unwrap().id != c_new[b].bound_entity.unwrap().id by {
                    let a0 = if a < pre_kept.len() {
                        a
                    } else if out.keep {
                        a
                    } else {
                        a + 1
                    };
                    let b0 = if b < pre_kept.len() {
                        b
                    } else if out.keep {
                        b
                    } else {
                        b + 1
                    };
                    if !(out.keep && a == pre_kept.len()) {
                        if a < pre_kept.len() {
                            assert(c_new[a] == pre_kept[a] && c_old[a0] == pre_kept[a]);
                        } else if out.keep {
                            assert(c_new[a] == ss0.skip(i as int)[a - pre_kept.len() - 1]);
                            assert(c_old[a0] == ss0.skip(i as int)[a - pre_kept.len() - 1]);
                        } else {
                            assert(c_new[a] == ss0.skip(i as int)[a - pre_kept.len()]);
                            assert(c_old[a0] == ss0.skip(i as int)[a - pre_kept.len()]);
                        }
                        assert(c_new[a] == c_old[a0]);
                    }
                    if !(out.keep && b == pre_kept.len()) {
                        if b < pre_kept.len() {
                            assert(c_new[b] == pre_kept[b] && c_old[b0] == pre_kept[b]);
                        } else if out.keep {
                            assert(c_new[b] == ss0.skip(i as int)[b - pre_kept.len() - 1]);
                            assert(c_old[b0] == ss0.skip(i as int)[b - pre_kept.len() - 1]);
                        } else {
                            assert(c_new[b] == ss0.skip(i as int)[b - pre_kept.len()]);
                            assert(c_old[b0] == ss0.skip(i as int)[b - pre_kept.len()]);
                        }
                        assert(c_new[b] == c_old[b0]);
                    }
                    if out.keep && b == pre_kept.len() {
                        if sv.state == LifecycleState::Connecting {
                            assert(!ph_pre.world.entities.dom().contains(sv.identity));
                            assert(c_old[a0].bound_in(ph_pre.world));
                            assert(c_new[b].bound_entity.unwrap().id == sv.identity);
                        } else {
                            assert(c_new[b].bound_entity.unwrap().id
                                == sv.bound_entity.unwrap().id);
                            assert(c_old[a0].bound_entity.is_some()
                                && c_old[pre_kept.len() as int].bound_entity.is_some());
                        }
                    } else if out.keep && a == pre_kept.len() {
                        if sv.state == LifecycleState::Connecting {
                            assert(!ph_pre.world.entities.dom().contains(sv.identity));
                            assert(c_old[b0].bound_in(ph_pre.world));
                            assert(c_new[a].bound_entity.unwrap().id == sv.identity);
                        } else {
                            assert(c_new[a].bound_entity.unwrap().id
                                == sv.bound_entity.unwrap().id);
                            assert(c_old[b0].bound_entity.is_some()
                                && c_old[pre_kept.len() as int].bound_entity.is_some());
                        }
                    } else {
                        assert(c_old[a0].bound_entity.is_some()
                            && c_old[b0].bound_entity.is_some());
                    }
                }
                assert(handles_distinct(c_new));
            }
        }
        proof {
            assert(ss0.take(n as int) =~= ss0);
        }
        let ghost ph = phase1_model(ss0, w0, r0, cfg0, now_ms);
        proof {
            assert(kept@ == ph.kept && self.world@ == ph.world
                && self.registry@ == ph.reversions);
        }
        self.sessions = kept;
        let ghost sess1 = self.sessions@;
        let ghost wv1 = self.world@;
        let ghost cells1 = self.world@.cells;
        let ghost ents1 = self.world@.entities;
        let due = self.registry.sweep(now_ms);
        let ghost due0 = due@;
        let ghost regv = self.registry@;
        let m = due.len();
        let mut j: usize = 0;
        while j < m
            invariant
                0 <= j <= m,
                m == due0.len(),
                due0 == due@,
                self.world.wf(),
                self.world@.entities == ents1,
                self.config == cfg0,
                self.registry@ == regv,
                self.registry.wf(),
                self.sessions@ == sess1,
                forall|p: Position| #[trigger] self.world@.cells.dom().contains(p)
                    ==> (cells1.dom().contains(p) || emptied_prefix(due0, j as int, p)),
                forall|p: Position| cells1.dom().contains(p)
                    ==> #[trigger] self.world@.cells.dom().contains(p),
                forall|p: Position| emptied_prefix(due0, j as int, p)
                    ==> self.world@.cells.dom().contains(p),
                forall|p: Position| #[trigger] self.world@.cells.dom().contains(p)
                    ==> self.world@.cells[p] == (if emptied_prefix(due0, j as int, p) {
                        StateValue::Empty
                    } else {
                        cells1[p]
                    }),
            decreases m - j,
        {
            let ghost cprev = self.world@.cells;
            let q = due[j];
            self.world.set_state(q, StateValue::Empty);
            j += 1;
            proof {
                assert(due0[j - 1] == q);
                let cnew = self.world@.cells;
                assert(cnew == cprev.insert(q, StateValue::Empty));
                assert(emptied_prefix(due0, j as int, q)) by {
                    assert(0 <= j - 1 < j && due0[j - 1] == q);
                }
                assert forall|p: Position| #[trigger] cnew.dom().contains(p) implies
                    (cells1.dom().contains(p) || emptied_prefix(due0, j as int, p)) by {
                    if p != q {
                        assert(cprev.dom().contains(p));
                        if emptied_prefix(due0, j as int - 1, p) {
                            let a = choose|a: int| 0 <= a < j - 1 && due0[a] == p;
                            assert(0 <= a < j && due0[a] == p);
                        }
                    }
                }
                assert forall|p: Position| emptied_prefix(due0, j as int, p) implies
                    cnew.dom().contains(p) by {
                    let a = choose|a: int| 0 <= a < j && due0[a] == p;
                    if a < j - 1 {
                        assert(emptied_prefix(due0, j as int - 1, p));
                        assert(cprev.dom().contains(p));
                    }
                }
                assert forall|p: Position| #[trigger] cnew.dom().contains(p) implies
                    cnew[p] == (if emptied_prefix(due0, j as int, p) {
                        StateValue::Empty
                    } else {
                        cells1[p]
                    }) by {
                    if p == q {
                        assert(cnew[p] == StateValue::Empty);
                    } else {
                        assert(cnew[p] == cprev[p]);
                        assert(cprev.dom().contains(p));
                        if emptied_prefix(due0, j as int, p) {
                            let a = choose|a: int| 0 <= a < j && due0[a] == p;
                            assert(a < j - 1);
                            assert(emptied_prefix(due0, j as int - 1, p));
                        } else {
                            if emptied_prefix(due0, j as int - 1, p) {
                                let a = choose|a: int| 0 <= a < j - 1 && due0[a] == p;
                                assert(0 <= a < j && due0[a] == p);
                            }
                        }
                    }
                }
            }
        }
        proof {
            let swc = swept_cells(ph.world.cells, ph.reversions, now_ms);
            assert forall|p: Position| #[trigger] self.world@.cells.dom().contains(p) implies
                (swc.dom().contains(p) && self.world@.cells[p] == swc[p]) by {
                if emptied_prefix(due0, m as int, p) {
                    let a = choose|a: int| 0 <= a < m && due0[a] == p;
                    assert(due0.contains(p));
                } else {
                    if due0.contains(p) {
                        let a = choose|a: int| 0 <= a < due0.len() && due0[a] == p;
                        assert(emptied_prefix(due0, m as int, p));
                    }
                }
            }
            assert forall|p: Position| #[trigger] swc.dom().contains(p) implies
                self.world@.cells.dom().contains(p) by {
                if ph.reversions.dom().contains(p) && ph.reversions[p] <= now_ms {
                    assert(due0.contains(p));
                    let a = choose|a: int| 0 <= a < due0.len() && due0[a] == p;
                    assert(emptied_prefix(due0, m as int, p));
                }
            }
            assert(self.world@.cells =~= swc);
            assert(self.registry@ =~= swept_reversions(ph.reversions, now_ms));
            assert forall|k: int| 0 <= k < self.sessions@.len() implies
                ((#[trigger] self.sessions@[k]).wf()
                    && (self.sessions@[k].state == LifecycleState::Connecting
                        || self.sessions@[k].state == LifecycleState::Active)
                    && self.sessions@[k].bound_in(self.world@)) by {
                assert((sess1 + ss0.skip(n as int))[k] == sess1[k]);
                assert((sess1 + ss0.skip(n as int))[k].bound_in(wv1));
            }
            assert(sessions_ok(self.sessions@, self.world@));
            assert forall|a: int, b: int| (0 <= a < b < self.sessions@.len()
                && (#[trigger] self.sessions@[a]).bound_entity.is_some()
                && (#[trigger] self.sessions@[b]).bound_entity.is_some()) implies
                self.sessions@[a].bound_entity.unwrap().id
                    != self.sessions@[b].bound_entity.unwrap().id by {
                assert((sess1 + ss0.skip(n as int))[a] == sess1[a]);
                assert((sess1 + ss0.skip(n as int))[b] == sess1[b]);
            }
            assert(handles_distinct(self.sessions@));
        }
    }
}

/// `s` with its transport marked closed when it belongs to `connection_id`.
pub open spec fn marked_closed(s: Session, connection_id: u64) -> Session {
    if s.connection_id == connection_id {
        Session { transport_closed: true, ..s }
    } else {
        s
    }
}

/// During the session phase of a tick, pending reversions are never
/// removed, and every entry added or refreshed carries the deadline
/// `now + ttl`.
pub proof fn lemma_phase1_reversions(
    ss: Seq<Session>,
    w: WorldModel,
    r: Map<Position, u64>,
    cfg: Config,
    now: u64,
)
    ensures
        forall|p: Position| r.dom().contains(p)
            ==> phase1_model(ss, w, r, cfg, now).reversions.dom().contains(p),
        forall|p: Position| #[trigger] phase1_model(ss, w, r, cfg, now).reversions.dom()
            .contains(p)
            ==> ((r.dom().contains(p)
                    && phase1_model(ss, w, r, cfg, now).reversions[p] == r[p])
                || phase1_model(ss, w, r, cfg, now).reversions[p]
                    == (now + cfg.mutation_ttl_ms) as u64),
    decreases ss.len(),
{
    if ss.len() > 0 {
        lemma_phase1_reversions(ss.drop_last(), w, r, cfg, now);
        let prev = phase1_model(ss.drop_last(), w, r, cfg, now);
        assert forall|p: Position| r.dom().contains(p) implies
            phase1_model(ss, w, r, cfg, now).reversions.dom().contains(p) by {
            assert(prev.reversions.dom().contains(p));
        }
        assert forall|p: Position| #[trigger] phase1_model(ss, w, r, cfg, now).reversions
            .dom().contains(p) implies
            ((r.dom().contains(p)
                    && phase1_model(ss, w, r, cfg, now).reversions[p] == r[p])
                || phase1_model(ss, w, r, cfg, now).reversions[p]
                    == (now + cfg.mutation_ttl_ms) as u64) by {
            if prev.reversions.dom().contains(p) {
                assert((r.dom().contains(p) && prev.reversions[p] == r[p])
                    || prev.reversions[p] == (now + cfg.mutation_ttl_ms) as u64);
            }
        }
    }
}

/// Law: no same-tick revert — a mutation recorded (or refreshed) during a
/// tick's session phase has a deadline strictly in the future, so the sweep
/// of the same tick retains its registry entry and leaves its cell exactly
/// as the session phase left it.
pub proof fn lemma_no_same_tick_revert(
    ss: Seq<Session>,
    w: WorldModel,
    r: Map<Position, u64>,
    cfg: Config,
    now: u64,
    p: Position,
)
    requires
        cfg.wf(),
        now + cfg.mutation_ttl_ms <= u64::MAX,
        phase1_model(ss, w, r, cfg, now).reversions.dom().contains(p),
        !(r.dom().contains(p) && r[p] == phase1_model(ss, w, r, cfg, now).reversions[p]),
    ensures
        phase1_model(ss, w, r, cfg, now).reversions[p] > now,
        swept_reversions(phase1_model(ss, w, r, cfg, now).reversions, now).dom().contains(p),
        swept_cells(phase1_model(ss, w, r, cfg, now).world.cells,
            phase1_model(ss, w, r, cfg, now).reversions, now).dom().contains(p)
            == phase1_model(ss, w, r, cfg, now).world.cells.dom().contains(p),
        phase1_model(ss, w, r, cfg, now).world.cells.dom().contains(p)
            ==> swept_cells(phase1_model(ss, w, r, cfg, now).world.cells,
                phase1_model(ss, w, r, cfg, now).reversions, now)[p]
                == phase1_model(ss, w, r, cfg, now).world.cells[p],
{
    lemma_phase1_reversions(ss, w, r, cfg, now);
}

/// Law: eventual reversion — a pending reversion whose deadline has elapsed
/// and which no session refreshes during the tick is swept: its cell reads
/// empty after the tick and its registry entry is gone.
pub proof fn lemma_eventual_reversion(
    ss: Seq<Session>,
    w: WorldModel,
    r: Map<Position, u64>,
    cfg: Config,
    now: u64,
    p: Position,
)
    requires
        cfg.wf(),
        now + cfg.mutation_ttl_ms <= u64::MAX,
        r.dom().contains(p),
        r[p] <= now,
        phase1_model(ss, w, r, cfg, now).reversions[p] == r[p],
    ensures
        swept_cells(phase1_model(ss, w, r, cfg, now).world.cells,
            phase1_model(ss, w, r, cfg, now).reversions, now).dom().contains(p),
        swept_cells(phase1_model(ss, w, r, cfg, now).world.cells,
            phase1_model(ss, w, r, cfg, now).reversions, now)[p] == StateValue::Empty,
        !swept_reversions(phase1_model(ss, w, r, cfg, now).reversions, now).dom().contains(p),
{
    lemma_phase1_reversions(ss, w, r, cfg, now);
}

} // verus!
