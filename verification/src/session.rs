//! Client session lifecycle manager.
//!
//! A session walks `Connecting -> Active -> Disconnecting -> Disconnected`,
//! with the one shortcut `Connecting -> Disconnected` on an identity
//! conflict during setup. While a session is `Active`, each tick applies
//! fall recovery and records the cell beneath the entity's feet in the TTL
//! mutation registry when that cell is non-empty.
//!
//! `process_model` is the mathematical transition function of one session
//! for one tick; the executable `process_session` is proved to implement it
//! exactly.

use vstd::prelude::*;
use crate::config::Config;
use crate::registry::MutationRegistry;
use crate::world::{Position, Orientation, EntityHandle, EntityState, WorldModel,
    WorldStore, BindError, occupied};

verus! {

/// Lifecycle of one client connection. `Disconnected` is terminal.
#[derive(PartialEq, Eq, Structural, Clone, Copy, Debug)]
pub enum LifecycleState {
    Connecting,
    Active,
    Disconnecting,
    Disconnected,
}

/// Server-side representation of one client connection.
#[derive(PartialEq, Eq, Structural, Clone, Copy, Debug)]
pub struct Session {
    /// Identifier of the transport connection.
    pub connection_id: u64,
    /// Identity the connection presented; entity binding is keyed by it.
    pub identity: u64,
    /// Whether the transport has reported this connection gone. Queued
    /// upstream; observed, never changed, by per-tick processing.
    pub transport_closed: bool,
    pub state: LifecycleState,
    /// Entity bound to the session; set exactly once at the
    /// `Connecting -> Active` transition and released on disconnect.
    pub bound_entity: Option<EntityHandle>,
}

impl Session {
    /// Binding invariant: the bound entity is `Some` exactly in the
    /// `Active` and `Disconnecting` states.
    pub open spec fn wf(self) -> bool {
        self.bound_entity.is_some()
            <==> (self.state == LifecycleState::Active
                || self.state == LifecycleState::Disconnecting)
    }

    /// The bound entity, if any, exists in the world's entity table.
    pub open spec fn bound_in(self, w: WorldModel) -> bool {
        self.bound_entity.is_some() ==> w.entities.dom().contains(self.bound_entity.unwrap().id)
    }

    /// A fresh session for a connection just accepted by the transport.
    pub fn new(connection_id: u64, identity: u64) -> (s: Session)
        ensures
            s == (Session {
                connection_id,
                identity,
                transport_closed: false,
                state: LifecycleState::Connecting,
                bound_entity: None,
            }),
            s.wf(),
    {
        Session {
            connection_id,
            identity,
            transport_closed: false,
            state: LifecycleState::Connecting,
            bound_entity: None,
        }
    }

    /// Notes that the transport reported the connection gone; drained by the
    /// next tick's processing.
    pub fn mark_transport_closed(&mut self)
        ensures
            *final(self) == (Session { transport_closed: true, ..*old(self) }),
    {
        self.transport_closed = true;
    }
}

/// Entity placement used for initial spawn and fall recovery.
pub open spec fn spawn_entity(cfg: Config) -> EntityState {
    EntityState { position: cfg.spawn_point, orientation: cfg.spawn_orientation }
}

/// The cell directly beneath an entity standing at `p`.
pub open spec fn spec_below(p: Position) -> Position {
    Position { x: p.x, y: (p.y - 1) as i32, z: p.z }
}

/// The cell directly beneath an entity standing at `p`.
#[verifier::when_used_as_spec(spec_below)]
pub fn below(p: Position) -> (r: Position)
    requires
        p.y > i32::MIN,
    ensures
        r == spec_below(p),
{
    Position { x: p.x, y: p.y - 1, z: p.z }
}

/// Everything one tick's processing of one session produces.
#[verifier::ext_equal]
pub struct ProcessOut {
    pub session: Session,
    pub world: WorldModel,
    pub reversions: Map<Position, u64>,
    pub keep: bool,
}

/// Transition of a session that is (or just became) `Active`:
/// on a closed transport, unbind and drop; otherwise apply fall recovery,
/// then record the non-empty cell beneath the entity's feet.
pub open spec fn active_model(
    s: Session,
    w: WorldModel,
    r: Map<Position, u64>,
    cfg: Config,
    now: u64,
) -> ProcessOut {
    let h = s.bound_entity.unwrap();
    if s.transport_closed {
        ProcessOut {
            session: Session { state: LifecycleState::Disconnected, bound_entity: None, ..s },
            world: WorldModel { cells: w.cells, entities: w.entities.remove(h.id) },
            reversions: r,
            keep: false,
        }
    } else {
        let e0 = w.entities[h.id];
        let fell = e0.position.y < cfg.fall_threshold_y;
        let w1 = if fell {
            WorldModel { cells: w.cells, entities: w.entities.insert(h.id, spawn_entity(cfg)) }
        } else {
            w
        };
        let epos = if fell {
            cfg.spawn_point
        } else {
            e0.position
        };
        let cell = spec_below(epos);
        let r1 = if occupied(w1.cells, cell) {
            r.insert(cell, (now + cfg.mutation_ttl_ms) as u64)
        } else {
            r
        };
        ProcessOut { session: s, world: w1, reversions: r1, keep: true }
    }
}

/// Transition function of one session for one tick: what `process_session`
/// does to the session, the world and the registry, and whether the session
/// is kept in the active set.
pub open spec fn process_model(
    s: Session,
    w: WorldModel,
    r: Map<Position, u64>,
    cfg: Config,
    now: u64,
) -> ProcessOut {
    if s.state == LifecycleState::Connecting {
        if w.entities.dom().contains(s.identity) {
            ProcessOut {
                session: Session {
                    state: LifecycleState::Disconnected,
                    bound_entity: None,
                    ..s
                },
                world: w,
                reversions: r,
                keep: false,
            }
        } else {
            let s1 = Session {
                state: LifecycleState::Active,
                bound_entity: Some(EntityHandle { id: s.identity }),
                ..s
            };
            let w1 = WorldModel {
                cells: w.cells,
                entities: w.entities.insert(s.identity, spawn_entity(cfg)),
            };
            active_model(s1, w1, r, cfg, now)
        }
    } else {
        active_model(s, w, r, cfg, now)
    }
}

/// Processes one session for this tick, implementing `process_model`
/// exactly. Returns whether the session stays in the active set; `false`
/// means it reached `Disconnected` and the scheduler must drop it.
pub fn process_session(
    s: &mut Session,
    world: &mut WorldStore,
    reg: &mut MutationRegistry,
    cfg: &Config,
    now: u64,
) -> (keep: bool)
    requires
        old(s).wf(),
        old(s).state == LifecycleState::Connecting || old(s).state == LifecycleState::Active,
        old(s).bound_in(old(world)@),
        old(world).wf(),
        old(reg).wf(),
        cfg.wf(),
        now + cfg.mutation_ttl_ms <= u64::MAX,
    ensures
        final(s).wf(),
        final(world).wf(),
        final(reg).wf(),
        *final(s) == process_model(*old(s), old(world)@, old(reg)@, *cfg, now).session,
        final(world)@.cells == process_model(*old(s), old(world)@, old(reg)@, *cfg, now).world.cells,
        final(world)@.entities
            == process_model(*old(s), old(world)@, old(reg)@, *cfg, now).world.entities,
        final(reg)@ == process_model(*old(s), old(world)@, old(reg)@, *cfg, now).reversions,
        keep == process_model(*old(s), old(world)@, old(reg)@, *cfg, now).keep,
{
    let ghost out = process_model(*old(s), old(world)@, old(reg)@, *cfg, now);
    if s.state == LifecycleState::Connecting {
        match world.bind_entity(s.identity) {
            Err(BindError::IdentityConflict) => {
                s.state = LifecycleState::Disconnected;
                return false;
            },
            Ok(h) => {
                s.state = LifecycleState::Active;
                s.bound_entity = Some(h);
                world.teleport(h, cfg.spawn_point, cfg.spawn_orientation);
                proof {
                    assert(world@.entities =~= old(world)@.entities
                        .insert(old(s).identity, spawn_entity(*cfg)));
                }
            },
        }
    }
    let h = match s.bound_entity {
        Some(h) => h,
        None => {
            proof {
                assert(false);
            }
            EntityHandle { id: 0 }
        },
    };
    if s.transport_closed {
        s.state = LifecycleState::Disconnecting;
        world.unbind_entity(h);
        s.bound_entity = None;
        s.state = LifecycleState::Disconnected;
        proof {
            assert(world@.entities =~= out.world.entities);
        }
        return false;
    }
    let est = world.entity_state(h);
    let mut epos = est.position;
    if epos.y < cfg.fall_threshold_y {
        world.teleport(h, cfg.spawn_point, cfg.spawn_orientation);
        epos = cfg.spawn_point;
        proof {
            assert(world@.entities =~= out.world.entities);
        }
    }
    let cell = below(epos);
    match world.get_state(cell) {
        Some(v) => {
            if !v.is_empty() {
                reg.record(cell, now, cfg.mutation_ttl_ms);
            }
        },
        None => {},
    }
    proof {
        assert(world@.entities =~= out.world.entities);
        assert(reg@ =~= out.reversions);
    }
    true
}

/// How one session's transition can touch the world and the registry: the
/// cell map is never written during session processing; the entity table
/// changes only at the session's own keys (its bound entity, or the identity
/// it binds); pending reversions are never removed, and any entry added or
/// refreshed carries the deadline `now + ttl`.
pub proof fn lemma_process_effects(
    s: Session,
    w: WorldModel,
    r: Map<Position, u64>,
    cfg: Config,
    now: u64,
)
    requires
        s.wf(),
        s.state == LifecycleState::Connecting || s.state == LifecycleState::Active,
        s.bound_in(w),
    ensures
        process_model(s, w, r, cfg, now).session.wf(),
        process_model(s, w, r, cfg, now).session.connection_id == s.connection_id,
        process_model(s, w, r, cfg, now).session.identity == s.identity,
        process_model(s, w, r, cfg, now).keep
            <==> process_model(s, w, r, cfg, now).session.state == LifecycleState::Active,
        !process_model(s, w, r, cfg, now).keep
            ==> process_model(s, w, r, cfg, now).session.state == LifecycleState::Disconnected,
        process_model(s, w, r, cfg, now).keep ==> (
            process_model(s, w, r, cfg, now).session.bound_entity.is_some()
            && process_model(s, w, r, cfg, now).session.bound_entity.unwrap().id
                == (if s.state == LifecycleState::Connecting {
                    s.identity
                } else {
                    s.bound_entity.unwrap().id
                })
            && process_model(s, w, r, cfg, now).session.bound_in(
                process_model(s, w, r, cfg, now).world)
        ),
        process_model(s, w, r, cfg, now).world.cells == w.cells,
        forall|id: u64| w.entities.dom().contains(id)
            && (s.bound_entity.is_some() ==> id != s.bound_entity.unwrap().id)
            && (s.state == LifecycleState::Connecting ==> id != s.identity)
            ==> process_model(s, w, r, cfg, now).world.entities.dom().contains(id),
        s.state == LifecycleState::Connecting && w.entities.dom().contains(s.identity)
            ==> process_model(s, w, r, cfg, now).world.entities == w.entities,
        s.state == LifecycleState::Connecting && process_model(s, w, r, cfg, now).keep
            ==> !w.entities.dom().contains(s.identity),
        forall|p: Position| r.dom().contains(p)
            ==> process_model(s, w, r, cfg, now).reversions.dom().contains(p),
        forall|p: Position| #[trigger] process_model(s, w, r, cfg, now).reversions.dom()
            .contains(p)
            ==> ((r.dom().contains(p) && process_model(s, w, r, cfg, now).reversions[p] == r[p])
                || process_model(s, w, r, cfg, now).reversions[p]
                    == (now + cfg.mutation_ttl_ms) as u64),
{
}

/// Law: after every transition the session binding invariant holds — the
/// bound entity is `Some` exactly in the `Active` and `Disconnecting`
/// states.
pub proof fn lemma_session_binding(
    s: Session,
    w: WorldModel,
    r: Map<Position, u64>,
    cfg: Config,
    now: u64,
)
    requires
        s.wf(),
        s.state == LifecycleState::Connecting || s.state == LifecycleState::Active,
    ensures
        process_model(s, w, r, cfg, now).session.wf(),
{
}

/// Law: fall recovery — an active, still-connected session whose entity sits
/// below the fall threshold has that entity teleported back to the spawn
/// point by this tick's processing, and the session is kept.
pub proof fn lemma_fall_recovery(
    s: Session,
    w: WorldModel,
    r: Map<Position, u64>,
    cfg: Config,
    now: u64,
)
    requires
        s.wf(),
        s.state == LifecycleState::Active,
        !s.transport_closed,
        s.bound_in(w),
        w.entities[s.bound_entity.unwrap().id].position.y < cfg.fall_threshold_y,
    ensures
        process_model(s, w, r, cfg, now).keep,
        process_model(s, w, r, cfg, now).world.entities[s.bound_entity.unwrap().id]
            == spawn_entity(cfg),
{
}

} // verus!
