use tick_core::config::Config;
use tick_core::session::{LifecycleState, below};
use tick_core::tick::SimServer;
use tick_core::world::{EntityHandle, Orientation, Position, StateValue};

fn pos(x: i32, y: i32, z: i32) -> Position {
    Position { x, y, z }
}

fn test_config() -> Config {
    Config {
        tick_interval_ms: 50,
        mutation_ttl_ms: 200,
        fall_threshold_y: -10,
        spawn_point: pos(1, 2, 1),
        spawn_orientation: Orientation { yaw_deg: -90, pitch_deg: 0 },
    }
}

#[test]
fn config_usability_check() {
    assert!(test_config().is_usable());
    let mut bad = test_config();
    bad.mutation_ttl_ms = 0;
    assert!(!bad.is_usable());
}

#[test]
fn below_is_the_cell_under_the_feet() {
    assert_eq!(below(pos(5, 3, 5)), pos(5, 2, 5));
    assert_eq!(below(pos(1, 2, 1)), pos(1, 1, 1));
}

#[test]
fn connecting_session_binds_and_spawns() {
    let mut srv = SimServer::new(test_config());
    srv.accept_connection(1, 42);
    srv.step(0);
    assert_eq!(srv.sessions.len(), 1);
    assert_eq!(srv.sessions[0].state, LifecycleState::Active);
    assert_eq!(srv.sessions[0].bound_entity, Some(EntityHandle { id: 42 }));
    let st = srv.world.entity_state(EntityHandle { id: 42 });
    assert_eq!(st.position, pos(1, 2, 1));
    assert_eq!(st.orientation, Orientation { yaw_deg: -90, pitch_deg: 0 });
}

#[test]
fn identity_conflict_drops_second_session_only() {
    // Two sessions present the same identity: the second bind fails with a
    // conflict, the second session goes Connecting -> Disconnected and is
    // dropped, the first is unaffected.
    let mut srv = SimServer::new(test_config());
    srv.accept_connection(1, 7);
    srv.accept_connection(2, 7);
    srv.step(0);
    assert_eq!(srv.sessions.len(), 1);
    assert_eq!(srv.sessions[0].connection_id, 1);
    assert_eq!(srv.sessions[0].state, LifecycleState::Active);
    assert_eq!(srv.sessions[0].bound_entity, Some(EntityHandle { id: 7 }));
    assert!(srv.world.has_identity(7));
}

#[test]
fn fall_recovery_teleports_back_to_spawn() {
    // An entity one cell below the fall threshold is teleported to the
    // spawn point by the next tick's processing.
    let cfg = test_config();
    let mut srv = SimServer::new(cfg);
    srv.accept_connection(1, 42);
    srv.step(0);
    let h = EntityHandle { id: 42 };
    let o = Orientation { yaw_deg: 0, pitch_deg: 0 };
    srv.world.teleport(h, pos(3, cfg.fall_threshold_y - 1, 3), o);
    srv.step(50);
    assert_eq!(srv.world.entity_state(h).position, cfg.spawn_point);
}

#[test]
fn standing_on_a_cell_records_a_pending_reversion() {
    let mut srv = SimServer::new(test_config());
    srv.world.set_state(pos(1, 1, 1), StateValue::Material(1));
    srv.accept_connection(1, 42);
    srv.step(0);
    assert_eq!(srv.registry.get_deadline(pos(1, 1, 1)), Some(200));
    assert_eq!(srv.registry.pending_count(), 1);
}

#[test]
fn standing_over_empty_space_records_nothing() {
    let mut srv = SimServer::new(test_config());
    srv.accept_connection(1, 42);
    srv.step(0);
    assert_eq!(srv.registry.pending_count(), 0);
}

#[test]
fn no_same_tick_revert() {
    // A mutation recorded during tick T survives the sweep of tick T.
    let mut srv = SimServer::new(test_config());
    srv.world.set_state(pos(1, 1, 1), StateValue::Material(1));
    srv.accept_connection(1, 42);
    srv.step(0);
    assert_eq!(srv.world.get_state(pos(1, 1, 1)), Some(StateValue::Material(1)));
    assert_eq!(srv.registry.get_deadline(pos(1, 1, 1)), Some(200));
}

#[test]
fn eventual_reversion_after_ttl_without_refresh() {
    // Once the session stops refreshing the cell and the TTL elapses, the
    // next sweep reverts the cell to empty and drops the registry entry.
    let mut srv = SimServer::new(test_config());
    srv.world.set_state(pos(1, 1, 1), StateValue::Material(1));
    srv.accept_connection(1, 42);
    srv.step(0);
    srv.report_disconnect(1);
    srv.step(100);
    assert!(srv.sessions.is_empty());
    assert_eq!(srv.registry.get_deadline(pos(1, 1, 1)), Some(200));
    srv.step(250);
    assert_eq!(srv.world.get_state(pos(1, 1, 1)), Some(StateValue::Empty));
    assert_eq!(srv.registry.get_deadline(pos(1, 1, 1)), None);
}

#[test]
fn refresh_while_standing_postpones_reversion() {
    // While the entity keeps standing on the cell, every tick refreshes the
    // deadline instead of scheduling a second reversion.
    let mut srv = SimServer::new(test_config());
    srv.world.set_state(pos(1, 1, 1), StateValue::Material(1));
    srv.accept_connection(1, 42);
    srv.step(0);
    srv.step(150);
    assert_eq!(srv.registry.pending_count(), 1);
    assert_eq!(srv.registry.get_deadline(pos(1, 1, 1)), Some(350));
    srv.step(300);
    assert_eq!(srv.world.get_state(pos(1, 1, 1)), Some(StateValue::Material(1)));
}

#[test]
fn disconnect_unbinds_entity_and_drops_session() {
    let mut srv = SimServer::new(test_config());
    srv.accept_connection(1, 42);
    srv.step(0);
    assert!(srv.world.has_identity(42));
    srv.report_disconnect(1);
    srv.step(50);
    assert!(srv.sessions.is_empty());
    assert!(!srv.world.has_identity(42));
}

#[test]
fn connect_and_close_in_the_same_tick() {
    let mut srv = SimServer::new(test_config());
    srv.accept_connection(1, 42);
    srv.report_disconnect(1);
    srv.step(0);
    assert!(srv.sessions.is_empty());
    assert!(!srv.world.has_identity(42));
}

#[test]
fn identity_freed_after_disconnect_can_rebind() {
    let mut srv = SimServer::new(test_config());
    srv.accept_connection(1, 42);
    srv.step(0);
    srv.report_disconnect(1);
    srv.step(50);
    srv.accept_connection(2, 42);
    srv.step(100);
    assert_eq!(srv.sessions.len(), 1);
    assert_eq!(srv.sessions[0].connection_id, 2);
    assert_eq!(srv.sessions[0].state, LifecycleState::Active);
}
