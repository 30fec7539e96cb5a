use tick_core::registry::MutationRegistry;
use tick_core::world::{Position, StateValue, WorldStore, BindError, EntityHandle, Orientation};

fn pos(x: i32, y: i32, z: i32) -> Position {
    Position { x, y, z }
}

#[test]
fn record_sets_deadline_now_plus_ttl() {
    let mut reg = MutationRegistry::new();
    reg.record(pos(5, 1, 5), 0, 200);
    assert_eq!(reg.get_deadline(pos(5, 1, 5)), Some(200));
    assert_eq!(reg.pending_count(), 1);
    assert_eq!(reg.get_deadline(pos(0, 0, 0)), None);
}

#[test]
fn idempotent_refresh_keeps_one_entry_with_later_deadline() {
    let mut reg = MutationRegistry::new();
    reg.record(pos(5, 1, 5), 0, 200);
    reg.record(pos(5, 1, 5), 50, 200);
    assert_eq!(reg.pending_count(), 1);
    assert_eq!(reg.get_deadline(pos(5, 1, 5)), Some(250));
}

#[test]
fn at_most_one_deadline_per_position() {
    let mut reg = MutationRegistry::new();
    reg.record(pos(1, 2, 3), 0, 100);
    reg.record(pos(1, 2, 3), 0, 900);
    reg.record(pos(3, 2, 1), 0, 100);
    assert_eq!(reg.pending_count(), 2);
    assert_eq!(reg.get_deadline(pos(1, 2, 3)), Some(900));
}

#[test]
fn sweep_retains_entries_with_future_deadlines() {
    let mut reg = MutationRegistry::new();
    reg.record(pos(5, 1, 5), 0, 200);
    let due = reg.sweep(150);
    assert!(due.is_empty());
    assert_eq!(reg.get_deadline(pos(5, 1, 5)), Some(200));
}

#[test]
fn sweep_removes_and_returns_elapsed_entries() {
    let mut reg = MutationRegistry::new();
    reg.record(pos(5, 1, 5), 0, 200);
    let due = reg.sweep(210);
    assert_eq!(due.len(), 1);
    assert_eq!(due[0], pos(5, 1, 5));
    assert_eq!(reg.get_deadline(pos(5, 1, 5)), None);
    assert_eq!(reg.pending_count(), 0);
}

#[test]
fn sweep_returns_each_due_position_exactly_once() {
    let mut reg = MutationRegistry::new();
    reg.record(pos(1, 0, 0), 0, 100);
    reg.record(pos(2, 0, 0), 0, 150);
    reg.record(pos(3, 0, 0), 0, 500);
    let due = reg.sweep(200);
    assert_eq!(due.len(), 2);
    assert!(due.contains(&pos(1, 0, 0)));
    assert!(due.contains(&pos(2, 0, 0)));
    assert_ne!(due[0], due[1]);
    assert_eq!(reg.pending_count(), 1);
    assert_eq!(reg.get_deadline(pos(3, 0, 0)), Some(500));
}

#[test]
fn deadline_elapsing_exactly_at_sweep_time_is_due() {
    let mut reg = MutationRegistry::new();
    reg.record(pos(0, 0, 0), 0, 200);
    let due = reg.sweep(200);
    assert_eq!(due.len(), 1);
}

#[test]
fn record_sweep_scenario_reverts_after_ttl_only() {
    // record(p=(5,1,5), ttl=200) at t=0; the sweep at t=150 leaves the
    // stored state unchanged; the sweep at t=210 reverts it to empty.
    let mut world = WorldStore::new();
    let mut reg = MutationRegistry::new();
    let p = pos(5, 1, 5);
    world.set_state(p, StateValue::Material(1));
    reg.record(p, 0, 200);

    let due = reg.sweep(150);
    for q in &due {
        world.set_state(*q, StateValue::Empty);
    }
    assert_eq!(world.get_state(p), Some(StateValue::Material(1)));

    let due = reg.sweep(210);
    for q in &due {
        world.set_state(*q, StateValue::Empty);
    }
    assert_eq!(world.get_state(p), Some(StateValue::Empty));
}

#[test]
fn get_state_outside_managed_space_is_none() {
    let world = WorldStore::new();
    assert_eq!(world.get_state(pos(7, 7, 7)), None);
}

#[test]
fn set_state_overwrites_in_place() {
    let mut world = WorldStore::new();
    let p = pos(0, 1, 0);
    world.set_state(p, StateValue::Material(4));
    world.set_state(p, StateValue::Material(9));
    assert_eq!(world.get_state(p), Some(StateValue::Material(9)));
}

#[test]
fn state_value_empty_sentinel() {
    assert!(StateValue::Empty.is_empty());
    assert!(!StateValue::Material(0).is_empty());
}

#[test]
fn bind_entity_conflict_on_same_identity() {
    let mut world = WorldStore::new();
    let first = world.bind_entity(7);
    assert_eq!(first, Ok(EntityHandle { id: 7 }));
    let second = world.bind_entity(7);
    assert_eq!(second, Err(BindError::IdentityConflict));
    assert!(world.has_identity(7));
}

#[test]
fn unbind_entity_releases_identity() {
    let mut world = WorldStore::new();
    let h = world.bind_entity(7).unwrap();
    world.unbind_entity(h);
    assert!(!world.has_identity(7));
    assert_eq!(world.bind_entity(7), Ok(EntityHandle { id: 7 }));
}

#[test]
fn teleport_moves_the_entity() {
    let mut world = WorldStore::new();
    let h = world.bind_entity(3).unwrap();
    let o = Orientation { yaw_deg: -90, pitch_deg: 0 };
    world.teleport(h, pos(1, 2, 1), o);
    let st = world.entity_state(h);
    assert_eq!(st.position, pos(1, 2, 1));
    assert_eq!(st.orientation, o);
}
