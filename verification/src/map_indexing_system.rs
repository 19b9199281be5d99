//! The spatial index builder: rebuilds the blocking overlay and the
//! occupant index from scratch out of the current entity state. It must
//! run after any position-mutating step of the same turn and before any
//! later pathfinding read, so nothing acts on stale occupancy.

use vstd::prelude::*;
use vstd::seq_lib::lemma_seq_contains_after_push;
use crate::components::Entities;
use crate::map::GameMap;

verus! {

/// The occupant index is rebuilt: each tile lists exactly the ids of
/// the entities standing on it, in increasing id order.
pub open spec fn tile_content_exact(map: GameMap, ents: Entities) -> bool {
    &&& forall|t: int, id: usize|
        0 <= t < map.area() ==> (#[trigger] map.tile_content[t]@.contains(id) <==> id < ents.n()
            && ents.on_tile(map, id as int, t))
    &&& forall|t: int, i: int, j: int|
        0 <= t < map.area() && 0 <= i < j < map.tile_content[t]@.len()
            ==> #[trigger] map.tile_content[t]@[i] < #[trigger] map.tile_content[t]@[j]
}

/// The blocking overlay is rebuilt: a tile is blocked exactly when its
/// type blocks movement or an entity with the BlocksMovement marker
/// stands on it.
pub open spec fn blocked_exact(map: GameMap, ents: Entities) -> bool {
    forall|t: int|
        0 <= t < map.area() ==> (#[trigger] map.blocked[t] == (map.tiles[t].blocks_spec()
            || ents.blocker_on_tile(map, t)))
}

/// A freshly rebuilt occupant index is coherent: every listed id names
/// a real entity and each tile's list is strictly increasing.
pub proof fn lemma_exact_index_is_coherent(map: GameMap, ents: Entities)
    requires
        map.wf(),
        tile_content_exact(map, ents),
    ensures
        map.occupants_wf(ents.n()),
{
    assert forall|t: int, j: int|
        0 <= t < map.area() && 0 <= j < map.tile_content[t]@.len() implies (
    #[trigger] map.tile_content[t]@[j] as int) < ents.n() by {
        assert(map.tile_content[t]@.contains(map.tile_content[t]@[j]));
    }
}

pub struct MapIndexingSystem {}

impl MapIndexingSystem {
    /// Rebuild `map.blocked` and `map.tile_content` from scratch.
    pub fn run(&self, map: &mut GameMap, ents: &Entities)
        requires
            old(map).wf(),
            ents.wf(),
            ents.positions_in_bounds(*old(map)),
        ensures
            final(map).wf(),
            *final(map) == (GameMap {
                blocked: final(map).blocked,
                tile_content: final(map).tile_content,
                ..*old(map)
            }),
            blocked_exact(*final(map), *ents),
            tile_content_exact(*final(map), *ents),
    {
        let area = map.tiles.len();
        let mut t: usize = 0;
        while t < area
            invariant
                old(map).wf(),
                map.wf(),
                area == map.area(),
                t <= area,
                *map == (GameMap {
                    blocked: map.blocked,
                    tile_content: map.tile_content,
                    ..*old(map)
                }),
                forall|k: int| 0 <= k < t ==> #[trigger] map.blocked[k] == map.tiles[k].blocks_spec(),
                forall|k: int| t <= k < area ==> #[trigger] map.blocked[k] == old(map).blocked[k],
                forall|k: int| 0 <= k < t ==> #[trigger] map.tile_content[k]@.len() == 0,
                forall|k: int|
                    t <= k < area ==> #[trigger] map.tile_content[k] == old(map).tile_content[k],
            decreases area - t,
        {
            let b = map.tiles[t].is_blocked();
            map.blocked[t] = b;
            map.tile_content[t] = Vec::new();
            t = t + 1;
        }
        let n = ents.len();
        let mut e: usize = 0;
        while e < n
            invariant
                old(map).wf(),
                map.wf(),
                ents.wf(),
                ents.positions_in_bounds(*old(map)),
                n == ents.n(),
                e <= n,
                *map == (GameMap {
                    blocked: map.blocked,
                    tile_content: map.tile_content,
                    ..*old(map)
                }),
                forall|t: int|
                    0 <= t < map.area() ==> (#[trigger] map.blocked[t] == (
                    map.tiles[t].blocks_spec() || exists|i: int|
                        0 <= i < e && ents.blocks_tile[i] && ents.on_tile(*map, i, t))),
                forall|t: int, id: usize|
                    0 <= t < map.area() ==> (#[trigger] map.tile_content[t]@.contains(id) <==> id
                        < e && ents.on_tile(*map, id as int, t)),
                forall|t: int, i: int|
                    0 <= t < map.area() && 0 <= i < map.tile_content[t]@.len()
                        ==> #[trigger] map.tile_content[t]@[i] < e,
                forall|t: int, i: int, j: int|
                    0 <= t < map.area() && 0 <= i < j < map.tile_content[t]@.len()
                        ==> #[trigger] map.tile_content[t]@[i] < #[trigger] map.tile_content[t]@[j],
            decreases n - e,
        {
            let ghost prev = *map;
            match &ents.positions[e] {
                Some(pos) => {
                    let idx = map.idx(pos.x, pos.y);
                    if ents.blocks_tile[e] {
                        map.blocked[idx] = true;
                    }
                    map.tile_content[idx].push(e);
                    proof {
                        assert(ents.on_tile(*map, e as int, idx as int));
                        assert forall|t: int, id: usize|
                            0 <= t < map.area() implies (#[trigger] map.tile_content[t]@.contains(
                            id,
                        ) <==> id < e + 1 && ents.on_tile(*map, id as int, t)) by {
                            if t == idx {
                                lemma_seq_contains_after_push(prev.tile_content[t]@, e, id);
                            } else {
                                assert(map.tile_content[t] == prev.tile_content[t]);
                                assert(!ents.on_tile(*map, e as int, t));
                            }
                        }
                    }
                },
                None => {},
            }
            e = e + 1;
        }
    }
}

} // verus!
