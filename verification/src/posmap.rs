//! Flat position-keyed association list and its mathematical model.
//!
//! Both the world state store's cell table and the TTL mutation registry
//! keep their entries as a flat vector of `(Position, value)` pairs with
//! pairwise-distinct positions, viewed in specifications as a
//! `Map<Position, V>`. The lemmas here relate the vector operations
//! (overwrite in place, append) to `Map::insert`.

use vstd::prelude::*;
use crate::world::Position;

verus! {

/// One entry of a position-keyed table.
#[derive(Clone, Copy, Debug)]
pub struct PosEntry<V> {
    pub position: Position,
    pub value: V,
}

/// Some entry of `s` has position `p`.
pub open spec fn pos_has<V>(s: Seq<PosEntry<V>>, p: Position) -> bool {
    exists|i: int| 0 <= i < s.len() && s[i].position == p
}

/// Index of the entry with position `p` (unique when positions are distinct).
pub open spec fn pos_index<V>(s: Seq<PosEntry<V>>, p: Position) -> int {
    choose|i: int| 0 <= i < s.len() && s[i].position == p
}

/// No two entries share a position.
pub open spec fn pos_unique<V>(s: Seq<PosEntry<V>>) -> bool {
    forall|i: int, j: int| 0 <= i < j < s.len() ==> s[i].position != s[j].position
}

/// The table read as a finite map from positions to values.
pub open spec fn pos_map<V>(s: Seq<PosEntry<V>>) -> Map<Position, V> {
    Map::new(|p: Position| pos_has(s, p), |p: Position| s[pos_index(s, p)].value)
}

/// The entry at index `i` is the one the map view reports for its position.
pub proof fn lemma_pos_at<V>(s: Seq<PosEntry<V>>, i: int)
    requires
        pos_unique(s),
        0 <= i < s.len(),
    ensures
        pos_has(s, s[i].position),
        pos_index(s, s[i].position) == i,
        pos_map(s).dom().contains(s[i].position),
        pos_map(s)[s[i].position] == s[i].value,
{
    assert(pos_has(s, s[i].position));
    let j = pos_index(s, s[i].position);
    if i < j {
        assert(s[i].position != s[j].position);
    }
    if j < i {
        assert(s[j].position != s[i].position);
    }
}

/// Overwriting the value at index `i` is `Map::insert` at that entry's position.
pub proof fn lemma_pos_update<V>(s: Seq<PosEntry<V>>, i: int, v: V)
    requires
        pos_unique(s),
        0 <= i < s.len(),
    ensures
        pos_unique(s.update(i, PosEntry { position: s[i].position, value: v })),
        pos_map(s.update(i, PosEntry { position: s[i].position, value: v }))
            == pos_map(s).insert(s[i].position, v),
{
    let p = s[i].position;
    let t = s.update(i, PosEntry { position: p, value: v });
    assert(forall|k: int| 0 <= k < s.len() ==> t[k].position == s[k].position);
    assert(pos_unique(t));
    assert forall|q: Position| pos_has(t, q) implies pos_has(s, q) by {
        let k = choose|k: int| 0 <= k < t.len() && t[k].position == q;
        assert(s[k].position == q);
    }
    assert forall|q: Position| pos_has(s, q) implies pos_has(t, q) by {
        let k = choose|k: int| 0 <= k < s.len() && s[k].position == q;
        assert(t[k].position == q);
    }
    assert forall|q: Position| pos_has(t, q) implies
        pos_map(t)[q] == pos_map(s).insert(p, v)[q] by {
        let k = pos_index(t, q);
        lemma_pos_at(t, k);
        lemma_pos_at(s, k);
        if k != i {
            if k < i {
                assert(t[k].position != t[i].position);
            } else {
                assert(t[i].position != t[k].position);
            }
        }
    }
    lemma_pos_at(s, i);
    assert(pos_map(t) =~= pos_map(s).insert(p, v));
}

/// Appending an entry for an absent position is `Map::insert` of that position.
pub proof fn lemma_pos_push<V>(s: Seq<PosEntry<V>>, p: Position, v: V)
    requires
        pos_unique(s),
        !pos_has(s, p),
    ensures
        pos_unique(s.push(PosEntry { position: p, value: v })),
        pos_map(s.push(PosEntry { position: p, value: v })) == pos_map(s).insert(p, v),
{
    let t = s.push(PosEntry { position: p, value: v });
    assert(forall|k: int| 0 <= k < s.len() ==> t[k] == s[k]);
    assert(t[s.len() as int].position == p);
    assert forall|i: int, j: int| 0 <= i < j < t.len() implies t[i].position != t[j].position by {
        if j == s.len() {
            if t[i].position == p {
                assert(s[i].position == p);
                assert(pos_has(s, p));
            }
        }
    }
    assert forall|q: Position| pos_has(t, q) implies (pos_has(s, q) || q == p) by {
        let k = choose|k: int| 0 <= k < t.len() && t[k].position == q;
        if k < s.len() {
            assert(s[k].position == q);
        }
    }
    assert forall|q: Position| pos_has(s, q) implies pos_has(t, q) by {
        let k = choose|k: int| 0 <= k < s.len() && s[k].position == q;
        assert(t[k].position == q);
    }
    assert forall|q: Position| pos_has(t, q) implies
        pos_map(t)[q] == pos_map(s).insert(p, v)[q] by {
        let k = pos_index(t, q);
        lemma_pos_at(t, k);
        if k < s.len() {
            lemma_pos_at(s, k);
            if q == p {
                assert(pos_has(s, p));
            }
        } else {
            assert(q == p);
        }
    }
    assert(pos_map(t) =~= pos_map(s).insert(p, v));
}

} // verus!
