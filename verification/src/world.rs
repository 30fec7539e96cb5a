//! The world state store: position-indexed cell state plus the set of
//! simulated entities, each bound to one connection identity.
//!
//! The store is the core-facing surface the tick loop needs: cell reads and
//! writes, entity binding with identity-conflict detection, unbinding, and
//! teleportation. Cells and entities are viewed in specifications as finite
//! maps (`WorldModel`).

use vstd::prelude::*;
use crate::posmap::{PosEntry, pos_has, pos_unique, pos_map, lemma_pos_at,
    lemma_pos_update, lemma_pos_push};

verus! {

/// Discrete integer coordinate of one cell in the world state store.
/// Equality is exact-integer; no tolerance.
#[derive(PartialEq, Eq, Structural, Clone, Copy, Debug)]
pub struct Position {
    pub x: i32,
    pub y: i32,
    pub z: i32,
}

/// State occupying a position; only equality with `Empty` matters to the core.
#[derive(PartialEq, Eq, Structural, Clone, Copy, Debug)]
pub enum StateValue {
    Empty,
    Material(u32),
}

impl StateValue {
    pub open spec fn spec_is_empty(self) -> bool {
        self == StateValue::Empty
    }

    /// True exactly when this value is the empty sentinel.
    #[verifier::when_used_as_spec(spec_is_empty)]
    pub fn is_empty(self) -> (r: bool)
        ensures
            r == self.spec_is_empty(),
    {
        self == StateValue::Empty
    }
}

/// Facing direction of an entity, in whole degrees.
#[derive(PartialEq, Eq, Structural, Clone, Copy, Debug)]
pub struct Orientation {
    pub yaw_deg: i32,
    pub pitch_deg: i32,
}

/// Handle to a bound entity; the store keys entities by the connection
/// identity they were bound for, so the handle carries that identity.
#[derive(PartialEq, Eq, Structural, Clone, Copy, Debug)]
pub struct EntityHandle {
    pub id: u64,
}

/// Position and orientation of one simulated entity.
#[derive(PartialEq, Eq, Structural, Clone, Copy, Debug)]
pub struct EntityState {
    pub position: Position,
    pub orientation: Orientation,
}

/// Error from `bind_entity`: the connection identity is already bound.
#[derive(PartialEq, Eq, Structural, Clone, Copy, Debug)]
pub enum BindError {
    IdentityConflict,
}

/// Mathematical model of the world state store.
#[verifier::ext_equal]
pub struct WorldModel {
    pub cells: Map<Position, StateValue>,
    pub entities: Map<u64, EntityState>,
}

/// `p` holds a non-empty value in the cell map `cells`.
pub open spec fn occupied(cells: Map<Position, StateValue>, p: Position) -> bool {
    cells.dom().contains(p) && cells[p] != StateValue::Empty
}

/// One stored entity, keyed by the identity it was bound for.
#[derive(Clone, Copy, Debug)]
pub struct EntityEntry {
    pub id: u64,
    pub state: EntityState,
}

/// Some entry of `s` has id `id`.
pub open spec fn ent_has(s: Seq<EntityEntry>, id: u64) -> bool {
    exists|i: int| 0 <= i < s.len() && s[i].id == id
}

/// Index of the entry with id `id` (unique when ids are distinct).
pub open spec fn ent_index(s: Seq<EntityEntry>, id: u64) -> int {
    choose|i: int| 0 <= i < s.len() && s[i].id == id
}

/// No two entries share an id.
pub open spec fn ent_unique(s: Seq<EntityEntry>) -> bool {
    forall|i: int, j: int| 0 <= i < j < s.len() ==> s[i].id != s[j].id
}

/// The entity table read as a finite map from ids to entity states.
pub open spec fn ent_map(s: Seq<EntityEntry>) -> Map<u64, EntityState> {
    Map::new(|id: u64| ent_has(s, id), |id: u64| s[ent_index(s, id)].state)
}

/// The entry at index `i` is the one the map view reports for its id.
pub proof fn lemma_ent_at(s: Seq<EntityEntry>, i: int)
    requires
        ent_unique(s),
        0 <= i < s.len(),
    ensures
        ent_has(s, s[i].id),
        ent_index(s, s[i].id) == i,
        ent_map(s).dom().contains(s[i].id),
        ent_map(s)[s[i].id] == s[i].state,
{
    assert(ent_has(s, s[i].id));
    let j = ent_index(s, s[i].id);
    if i < j {
        assert(s[i].id != s[j].id);
    }
    if j < i {
        assert(s[j].id != s[i].id);
    }
}

/// Overwriting the state at index `i` is `Map::insert` at that entry's id.
pub proof fn lemma_ent_update(s: Seq<EntityEntry>, i: int, st: EntityState)
    requires
        ent_unique(s),
        0 <= i < s.len(),
    ensures
        ent_unique(s.update(i, EntityEntry { id: s[i].id, state: st })),
        ent_map(s.update(i, EntityEntry { id: s[i].id, state: st }))
            == ent_map(s).insert(s[i].id, st),
{
    let id = s[i].id;
    let t = s.update(i, EntityEntry { id: id, state: st });
    assert(forall|k: int| 0 <= k < s.len() ==> t[k].id == s[k].id);
    assert(ent_unique(t));
    assert forall|q: u64| ent_has(t, q) implies ent_has(s, q) by {
        let k = choose|k: int| 0 <= k < t.len() && t[k].id == q;
        assert(s[k].id == q);
    }
    assert forall|q: u64| ent_has(s, q) implies ent_has(t, q) by {
        let k = choose|k: int| 0 <= k < s.len() && s[k].id == q;
        assert(t[k].id == q);
    }
    assert forall|q: u64| ent_has(t, q) implies
        ent_map(t)[q] == ent_map(s).insert(id, st)[q] by {
        let k = ent_index(t, q);
        lemma_ent_at(t, k);
        lemma_ent_at(s, k);
        if k != i {
            if k < i {
                assert(t[k].id != t[i].id);
            } else {
                assert(t[i].id != t[k].id);
            }
        }
    }
    lemma_ent_at(s, i);
    assert(ent_map(t) =~= ent_map(s).insert(id, st));
}

/// Appending an entry for an absent id is `Map::insert` of that id.
pub proof fn lemma_ent_push(s: Seq<EntityEntry>, id: u64, st: EntityState)
    requires
        ent_unique(s),
        !ent_has(s, id),
    ensures
        ent_unique(s.push(EntityEntry { id: id, state: st })),
        ent_map(s.push(EntityEntry { id: id, state: st })) == ent_map(s).insert(id, st),
{
    let t = s.push(EntityEntry { id: id, state: st });
    assert(forall|k: int| 0 <= k < s.len() ==> t[k] == s[k]);
    assert(t[s.len() as int].id == id);
    assert forall|i: int, j: int| 0 <= i < j < t.len() implies t[i].id != t[j].id by {
        if j == s.len() {
            if t[i].id == id {
                assert(s[i].id == id);
                assert(ent_has(s, id));
            }
        }
    }
    assert forall|q: u64| ent_has(t, q) implies (ent_has(s, q) || q == id) by {
        let k = choose|k: int| 0 <= k < t.len() && t[k].id == q;
        if k < s.len() {
            assert(s[k].id == q);
        }
    }
    assert forall|q: u64| ent_has(s, q) implies ent_has(t, q) by {
        let k = choose|k: int| 0 <= k < s.len() && s[k].id == q;
        assert(t[k].id == q);
    }
    assert forall|q: u64| ent_has(t, q) implies
        ent_map(t)[q] == ent_map(s).insert(id, st)[q] by {
        let k = ent_index(t, q);
        lemma_ent_at(t, k);
        if k < s.len() {
            lemma_ent_at(s, k);
            if q == id {
                assert(ent_has(s, id));
            }
        } else {
            assert(q == id);
        }
    }
    assert(ent_map(t) =~= ent_map(s).insert(id, st));
}

/// Removing the entry at index `i` is `Map::remove` of that entry's id.
pub proof fn lemma_ent_remove(s: Seq<EntityEntry>, i: int)
    requires
        ent_unique(s),
        0 <= i < s.len(),
    ensures
        ent_unique(s.remove(i)),
        ent_map(s.remove(i)) == ent_map(s).remove(s[i].id),
{
    let id = s[i].id;
    let t = s.remove(i);
    assert(t.len() == s.len() - 1);
    assert(forall|k: int| 0 <= k < i ==> t[k] == s[k]);
    assert(forall|k: int| i <= k < t.len() ==> t[k] == s[k + 1]);
    assert forall|a: int, b: int| 0 <= a < b < t.len() implies t[a].id != t[b].id by {
        let a0 = if a < i { a } else { a + 1 };
        let b0 = if b < i { b } else { b + 1 };
        assert(t[a] == s[a0]);
        assert(t[b] == s[b0]);
        assert(s[a0].id != s[b0].id);
    }
    assert forall|q: u64| ent_has(t, q) implies (ent_has(s, q) && q != id) by {
        let k = choose|k: int| 0 <= k < t.len() && t[k].id == q;
        let k0 = if k < i { k } else { k + 1 };
        assert(s[k0].id == q);
        if k0 < i {
            assert(s[k0].id != s[i].id);
        } else {
            assert(s[i].id != s[k0].id);
        }
    }
    assert forall|q: u64| ent_has(s, q) && q != id implies ent_has(t, q) by {
        let k = choose|k: int| 0 <= k < s.len() && s[k].id == q;
        if k < i {
            assert(t[k].id == q);
        } else {
            if k == i {
                assert(false);
            }
            assert(t[k - 1].id == q);
        }
    }
    assert forall|q: u64| ent_has(t, q) implies
        ent_map(t)[q] == ent_map(s).remove(id)[q] by {
        let k = ent_index(t, q);
        lemma_ent_at(t, k);
        let k0 = if k < i { k } else { k + 1 };
        assert(t[k] == s[k0]);
        lemma_ent_at(s, k0);
    }
    assert(ent_map(t) =~= ent_map(s).remove(id));
}

/// The world state store: cell table plus entity table.
pub struct WorldStore {
    cells: Vec<PosEntry<StateValue>>,
    entities: Vec<EntityEntry>,
}

impl View for WorldStore {
    type V = WorldModel;

    closed spec fn view(&self) -> WorldModel {
        WorldModel { cells: pos_map(self.cells@), entities: ent_map(self.entities@) }
    }
}

impl WorldStore {
    /// Both tables key their entries uniquely.
    pub closed spec fn wf(&self) -> bool {
        pos_unique(self.cells@) && ent_unique(self.entities@)
    }

    /// An empty store: no cells managed, no entities bound.
    pub fn new() -> (w: WorldStore)
        ensures
            w.wf(),
            w@.cells == Map::<Position, StateValue>::empty(),
            w@.entities == Map::<u64, EntityState>::empty(),
    {
        let w = WorldStore { cells: Vec::new(), entities: Vec::new() };
        proof {
            assert(w@.cells =~= Map::<Position, StateValue>::empty());
            assert(w@.entities =~= Map::<u64, EntityState>::empty());
        }
        w
    }

    /// Reads the state at `p`; `None` means the position is outside managed
    /// space, which the core treats as empty.
    pub fn get_state(&self, p: Position) -> (r: Option<StateValue>)
        requires
            self.wf(),
        ensures
            self@.cells.dom().contains(p) ==> r == Some(self@.cells[p]),
            !self@.cells.dom().contains(p) ==> r == None::<StateValue>,
    {
        let n = self.cells.len();
        let mut i: usize = 0;
        while i < n
            invariant
                self.wf(),
                n == self.cells@.len(),
                0 <= i <= n,
                forall|k: int| 0 <= k < i ==> self.cells@[k].position != p,
            decreases n - i,
        {
            if self.cells[i].position == p {
                proof {
                    lemma_pos_at(self.cells@, i as int);
                }
                return Some(self.cells[i].value);
            }
            i += 1;
        }
        proof {
            assert(!pos_has(self.cells@, p));
        }
        None
    }

    /// Writes `v` at `p`, inserting or overwriting the cell; always succeeds.
    pub fn set_state(&mut self, p: Position, v: StateValue)
        requires
            old(self).wf(),
        ensures
            final(self).wf(),
            final(self)@.cells == old(self)@.cells.insert(p, v),
            final(self)@.entities == old(self)@.entities,
    {
        let n = self.cells.len();
        let mut i: usize = 0;
        while i < n
            invariant
                *self == *old(self),
                old(self).wf(),
                n == self.cells@.len(),
                0 <= i <= n,
                forall|k: int| 0 <= k < i ==> self.cells@[k].position != p,
            decreases n - i,
        {
            if self.cells[i].position == p {
                self.cells[i] = PosEntry { position: p, value: v };
                proof {
                    lemma_pos_update(old(self).cells@, i as int, v);
                }
                return;
            }
            i += 1;
        }
        proof {
            assert(!pos_has(self.cells@, p));
        }
        self.cells.push(PosEntry { position: p, value: v });
        proof {
            lemma_pos_push(old(self).cells@, p, v);
        }
    }

    /// True exactly when an entity is bound for `identity`.
    pub fn has_identity(&self, identity: u64) -> (r: bool)
        requires
            self.wf(),
        ensures
            r == self@.entities.dom().contains(identity),
    {
        self.find_entity(identity).is_some()
    }

    /// Index of the entity bound for `identity`, if any.
    fn find_entity(&self, identity: u64) -> (r: Option<usize>)
        requires
            self.wf(),
        ensures
            (match r {
                Some(i) => i < self.entities@.len() && self.entities@[i as int].id == identity
                    && self@.entities.dom().contains(identity)
                    && self@.entities[identity] == self.entities@[i as int].state,
                None => !self@.entities.dom().contains(identity),
            }),
    {
        let n = self.entities.len();
        let mut i: usize = 0;
        while i < n
            invariant
                self.wf(),
                n == self.entities@.len(),
                0 <= i <= n,
                forall|k: int| 0 <= k < i ==> self.entities@[k].id != identity,
            decreases n - i,
        {
            if self.entities[i].id == identity {
                proof {
                    lemma_ent_at(self.entities@, i as int);
                }
                return Some(i);
            }
            i += 1;
        }
        proof {
            assert(!ent_has(self.entities@, identity));
        }
        None
    }

    /// Binds a fresh entity for `identity`, placed at the coordinate origin.
    /// Fails with `IdentityConflict`, changing nothing, exactly when an
    /// entity is already bound for the same identity.
    pub fn bind_entity(&mut self, identity: u64) -> (r: Result<EntityHandle, BindError>)
        requires
            old(self).wf(),
        ensures
            final(self).wf(),
            final(self)@.cells == old(self)@.cells,
            old(self)@.entities.dom().contains(identity) ==> (r == Err::<EntityHandle, BindError>(BindError::IdentityConflict)
                && final(self)@.entities == old(self)@.entities),
            !old(self)@.entities.dom().contains(identity) ==> (r == Ok::<EntityHandle, BindError>(EntityHandle { id: identity })
                && final(self)@.entities == old(self)@.entities.insert(identity, EntityState {
                    position: Position { x: 0, y: 0, z: 0 },
                    orientation: Orientation { yaw_deg: 0, pitch_deg: 0 },
                })),
    {
        if self.find_entity(identity).is_some() {
            return Err(BindError::IdentityConflict);
        }
        let st = EntityState {
            position: Position { x: 0, y: 0, z: 0 },
            orientation: Orientation { yaw_deg: 0, pitch_deg: 0 },
        };
        self.entities.push(EntityEntry { id: identity, state: st });
        proof {
            lemma_ent_push(old(self).entities@, identity, st);
        }
        Ok(EntityHandle { id: identity })
    }

    /// Removes the entity bound under `h`, releasing its identity.
    pub fn unbind_entity(&mut self, h: EntityHandle)
        requires
            old(self).wf(),
            old(self)@.entities.dom().contains(h.id),
        ensures
            final(self).wf(),
            final(self)@.cells == old(self)@.cells,
            final(self)@.entities == old(self)@.entities.remove(h.id),
    {
        let i = match self.find_entity(h.id) {
            Some(i) => i,
            None => {
                proof {
                    assert(false);
                }
                0
            },
        };
        proof {
            lemma_ent_remove(self.entities@, i as int);
        }
        self.entities.remove(i);
    }

    /// Moves the entity bound under `h` to `p`, facing `o`.
    pub fn teleport(&mut self, h: EntityHandle, p: Position, o: Orientation)
        requires
            old(self).wf(),
            old(self)@.entities.dom().contains(h.id),
        ensures
            final(self).wf(),
            final(self)@.cells == old(self)@.cells,
            final(self)@.entities == old(self)@.entities.insert(h.id, EntityState {
                position: p,
                orientation: o,
            }),
    {
        let i = match self.find_entity(h.id) {
            Some(i) => i,
            None => {
                proof {
                    assert(false);
                }
                0
            },
        };
        let st = EntityState { position: p, orientation: o };
        self.entities[i] = EntityEntry { id: h.id, state: st };
        proof {
            lemma_ent_update(old(self).entities@, i as int, st);
        }
    }

    /// Current position and orientation of the entity bound under `h`.
    pub fn entity_state(&self, h: EntityHandle) -> (r: EntityState)
        requires
            self.wf(),
            self@.entities.dom().contains(h.id),
        ensures
            r == self@.entities[h.id],
    {
        let i = match self.find_entity(h.id) {
            Some(i) => i,
            None => {
                proof {
                    assert(false);
                }
                0
            },
        };
        self.entities[i].state
    }
}

} // verus!
