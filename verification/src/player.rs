//! The player action handler: applies one movement intent and the
//! door interaction at the destination tile. Movement and door opening
//! are independent checks against the same destination; a blocked move
//! or an already-open door is a normal no-effect outcome, not an error.

use vstd::prelude::*;
use crate::components::{Door, Entities, Position};
use crate::errors::SimError;
use crate::map::GameMap;
use crate::map_indexing_system::blocked_exact;
use crate::visibility_system::view_blocked_exact;

verus! {

/// Once a door sheds its BlocksMovement and BlocksVisibility markers,
/// the next rebuilds leave its tile blocked only by its static type and
/// clear it from the extra opacity overlay: no entity standing there
/// blocks any more, so neither overlay can name the tile.
pub proof fn lemma_open_door_unblocks(map: GameMap, ents: Entities, t: int)
    requires
        map.wf(),
        0 <= t < map.area(),
        blocked_exact(map, ents),
        view_blocked_exact(map, ents),
        forall|i: int|
            0 <= i < ents.n() && #[trigger] ents.on_tile(map, i, t) ==> !ents.blocks_tile[i]
                && !ents.blocks_visibility[i],
    ensures
        map.blocked[t] == map.tiles[t].blocks_spec(),
        !map.view_blocked[t],
{
    if ents.blocker_on_tile(map, t) {
        let i = choose|i: int|
            0 <= i < ents.n() && ents.blocks_tile[i] && #[trigger] ents.on_tile(map, i, t);
        assert(false);
    }
    if ents.sight_blocker_on_tile(map, t) {
        let i = choose|i: int|
            0 <= i < ents.n() && ents.blocks_visibility[i] && #[trigger] ents.on_tile(map, i, t);
        assert(false);
    }
}

/// Some closed door entity occupies tile `t` according to the occupant
/// index.
pub open spec fn closed_door_at(map: GameMap, ents: Entities, t: int) -> bool {
    exists|id: usize|
        #[trigger] map.tile_content[t]@.contains(id) && (id as int) < ents.n()
            && ents.doors[id as int] is Some && !ents.doors[id as int]->Some_0.open
}

/// Some entity carries the PlayerControlled marker but lacks a position
/// or a viewshed: a programming-contract violation.
pub open spec fn player_incomplete(ents: Entities) -> bool {
    exists|i: int|
        0 <= i < ents.n() && #[trigger] ents.players[i] && (ents.positions[i] is None
            || ents.viewsheds[i] is None)
}

/// Player entity `p`'s move attempt acts on the destination tile: the
/// move itself goes through, or a closed door there opens. Either
/// outcome dirties the player's viewshed for the same pass.
pub open spec fn player_acted(map: GameMap, e0: Entities, dx: int, dy: int, p: int) -> bool {
    let pos = e0.positions[p]->Some_0;
    let nx = pos.x + dx;
    let ny = pos.y + dy;
    let t = map.idx_of(nx, ny);
    map.in_bounds(nx, ny) && (!map.blocked[t] || closed_door_at(map, e0, t))
}

/// Entity `k` is due for a recompute during the player-turn pass that
/// takes `e0` to `e1`: dirty coming in, moved by the pass, or the
/// acting player whose move interacted with the destination tile.
pub open spec fn player_pass_due(
    m0: GameMap,
    e0: Entities,
    e1: Entities,
    dx: int,
    dy: int,
    k: int,
) -> bool {
    ||| crate::visibility_system::pass_recompute_due(e0, e1, k)
    ||| (e0.players[k] && e0.positions[k] is Some && e0.viewsheds[k] is Some && player_acted(
        m0,
        e0,
        dx,
        dy,
        k,
    ))
}

/// How one door entity responds to a move into tile `t`: a closed
/// door there opens and sheds its blocking markers; any other door
/// (elsewhere, or already open) keeps its state.
pub open spec fn door_transition(
    map: GameMap,
    e0: Entities,
    e1: Entities,
    dest_in: bool,
    t: int,
    id: usize,
) -> bool {
    if dest_in && map.tile_content[t]@.contains(id) && e0.doors[id as int] is Some && !e0.doors[
        id as int
    ]->Some_0.open {
        e1.doors[id as int] == Some(Door { open: true }) && !e1.blocks_visibility[id as int]
            && !e1.blocks_tile[id as int]
    } else {
        e1.doors[id as int] == e0.doors[id as int] && e1.blocks_visibility[id as int]
            == e0.blocks_visibility[id as int] && e1.blocks_tile[id as int] == e0.blocks_tile[
            id as int
        ]
    }
}

/// What one move attempt by player entity `p` does to positions, the
/// anchor, and the doors: the move succeeds exactly when the
/// destination is in bounds and not blocked; every closed door at the
/// destination opens and sheds its blocking markers; everything else
/// stays put.
pub open spec fn player_world_effect(
    map: GameMap,
    e0: Entities,
    e1: Entities,
    a0: Position,
    a1: Position,
    dx: int,
    dy: int,
    p: int,
) -> bool {
    let pos = e0.positions[p]->Some_0;
    let nx = pos.x + dx;
    let ny = pos.y + dy;
    let dest_in = map.in_bounds(nx, ny);
    let t = map.idx_of(nx, ny);
    let moved = dest_in && !map.blocked[t];
    &&& e1.positions[p] == if moved {
        Some(Position { x: nx as i32, y: ny as i32 })
    } else {
        e0.positions[p]
    }
    &&& a1 == if moved {
        Position { x: nx as i32, y: ny as i32 }
    } else {
        a0
    }
    &&& forall|id: usize|
        (id as int) < e0.n() ==> #[trigger] door_transition(map, e0, e1, dest_in, t, id)
    &&& forall|q: int| 0 <= q < e0.n() && q != p ==> #[trigger] e1.positions[q] == e0.positions[q]
}

/// What the same move attempt does to the viewsheds: the player's goes
/// dirty exactly when it moved or opened a door, and nobody else's
/// changes.
pub open spec fn player_viewshed_effect(
    map: GameMap,
    e0: Entities,
    e1: Entities,
    dx: int,
    dy: int,
    p: int,
) -> bool {
    let pos = e0.positions[p]->Some_0;
    let nx = pos.x + dx;
    let ny = pos.y + dy;
    let dest_in = map.in_bounds(nx, ny);
    let t = map.idx_of(nx, ny);
    let moved = dest_in && !map.blocked[t];
    let opened = dest_in && closed_door_at(map, e0, t);
    &&& e1.viewsheds[p] is Some
    &&& e1.viewsheds[p]->Some_0.range == e0.viewsheds[p]->Some_0.range
    &&& e1.viewsheds[p]->Some_0.visible_tiles == e0.viewsheds[p]->Some_0.visible_tiles
    &&& e1.viewsheds[p]->Some_0.dirty == (e0.viewsheds[p]->Some_0.dirty || moved || opened)
    &&& forall|q: int| 0 <= q < e0.n() && q != p ==> #[trigger] e1.viewsheds[q] == e0.viewsheds[q]
}

/// The world part of a move's effect only reads positions, doors and
/// the two blocking marker arrays: it survives any later pass that
/// leaves those untouched.
pub proof fn lemma_world_effect_stable(
    map: GameMap,
    e0: Entities,
    e1: Entities,
    e2: Entities,
    a0: Position,
    a1: Position,
    dx: int,
    dy: int,
    p: int,
)
    requires
        player_world_effect(map, e0, e1, a0, a1, dx, dy, p),
        e2.positions == e1.positions,
        e2.doors == e1.doors,
        e2.blocks_visibility == e1.blocks_visibility,
        e2.blocks_tile == e1.blocks_tile,
    ensures
        player_world_effect(map, e0, e2, a0, a1, dx, dy, p),
{
    let pos = e0.positions[p]->Some_0;
    let nx = pos.x + dx;
    let ny = pos.y + dy;
    let dest_in = map.in_bounds(nx, ny);
    let t = map.idx_of(nx, ny);
    assert forall|id: usize| (id as int) < e0.n() implies #[trigger] door_transition(
        map,
        e0,
        e2,
        dest_in,
        t,
        id,
    ) by {
        assert(door_transition(map, e0, e1, dest_in, t, id));
        assert(e2.doors[id as int] == e1.doors[id as int]);
        assert(e2.blocks_visibility[id as int] == e1.blocks_visibility[id as int]);
        assert(e2.blocks_tile[id as int] == e1.blocks_tile[id as int]);
    }
    assert forall|q: int| 0 <= q < e0.n() && q != p implies #[trigger] e2.positions[q]
        == e0.positions[q] by {
        assert(e1.positions[q] == e0.positions[q]);
    }
    assert(e2.positions[p] == e1.positions[p]);
}

/// The whole effect of one player move attempt.
pub open spec fn player_move_effect(
    map: GameMap,
    e0: Entities,
    e1: Entities,
    a0: Position,
    a1: Position,
    dx: int,
    dy: int,
    p: int,
) -> bool {
    &&& player_world_effect(map, e0, e1, a0, a1, dx, dy, p)
    &&& player_viewshed_effect(map, e0, e1, dx, dy, p)
}

/// Apply one player movement intent (a delta from the 8 directions or
/// the null move) and the door interaction at the destination tile.
pub fn try_move_player(
    delta_x: i32,
    delta_y: i32,
    map: &GameMap,
    ents: &mut Entities,
    anchor: &mut Position,
) -> (res: Result<(), SimError>)
    requires
        map.wf(),
        map.occupants_wf(old(ents).n()),
        old(ents).wf(),
        old(ents).positions_in_bounds(*map),
        old(ents).at_most_one_player(),
        -1 <= delta_x <= 1,
        -1 <= delta_y <= 1,
    ensures
        final(ents).wf(),
        final(ents).n() == old(ents).n(),
        final(ents).positions_in_bounds(*map),
        res is Err <==> player_incomplete(*old(ents)),
        res matches Err(e) ==> e == SimError::MissingComponent && *final(ents) == *old(ents)
            && *final(anchor) == *old(anchor),
        final(ents).names == old(ents).names,
        final(ents).renderables == old(ents).renderables,
        final(ents).players == old(ents).players,
        final(ents).moonshots == old(ents).moonshots,
        res is Ok && (forall|p: int|
            0 <= p < old(ents).n() ==> !(#[trigger] old(ents).players[p])) ==> *final(ents) == *old(
            ents,
        ) && *final(anchor) == *old(anchor),
        res is Ok ==> forall|p: int|
            0 <= p < old(ents).n() && #[trigger] old(ents).players[p] ==> player_move_effect(
                *map,
                *old(ents),
                *final(ents),
                *old(anchor),
                *final(anchor),
                delta_x as int,
                delta_y as int,
                p,
            ),
{
    let n = ents.len();
    let mut bad = false;
    let mut i: usize = 0;
    while i < n
        invariant
            ents.wf(),
            n == ents.n(),
            i <= n,
            bad == exists|k: int|
                0 <= k < i && #[trigger] ents.players[k] && (ents.positions[k] is None
                    || ents.viewsheds[k] is None),
        decreases n - i,
    {
        if ents.players[i] {
            match (&ents.positions[i], &ents.viewsheds[i]) {
                (Some(_), Some(_)) => {},
                _ => {
                    bad = true;
                },
            }
        }
        i = i + 1;
    }
    if bad {
        return Err(SimError::MissingComponent);
    }
    let mut p: usize = n;
    let mut j: usize = 0;
    while j < n
        invariant
            ents.wf(),
            n == ents.n(),
            j <= n,
            p == n || (p < j && ents.players[p as int]),
            p == n ==> forall|k: int| 0 <= k < j ==> !(#[trigger] ents.players[k]),
        decreases n - j,
    {
        if ents.players[j] && p == n {
            p = j;
        }
        j = j + 1;
    }
    if p == n {
        return Ok(());
    }
    let ghost e0 = *ents;
    let ghost a0 = *anchor;
    let (px, py) = match &ents.positions[p] {
        Some(pos) => (pos.x, pos.y),
        None => (0, 0),
    };
    let nx = px + delta_x;
    let ny = py + delta_y;
    let dest_in = 0 <= nx && nx < map.width && 0 <= ny && ny < map.height;
    let mut acted = false;
    let ghost t = map.idx_of(nx as int, ny as int);
    if dest_in {
        let didx = map.idx(nx, ny);
        if !map.blocked[didx] {
            ents.positions[p] = Some(Position { x: nx, y: ny });
            anchor.x = nx;
            anchor.y = ny;
            acted = true;
        }
        let ghost moved = acted;
        let m = map.tile_content[didx].len();
        let mut k: usize = 0;
        while k < m
            invariant
                map.wf(),
                ents.wf(),
                e0.wf(),
                n == ents.n(),
                n == e0.n(),
                p < n,
                k <= m,
                0 <= t < map.area(),
                didx as int == t,
                m == map.tile_content[t]@.len(),
                map.occupants_wf(n as int),
                ents.positions@ == e0.positions@.update(
                    p as int,
                    if moved {
                        Some(Position { x: nx, y: ny })
                    } else {
                        e0.positions[p as int]
                    },
                ),
                ents.viewsheds == e0.viewsheds,
                ents.names == e0.names,
                ents.renderables == e0.renderables,
                ents.players == e0.players,
                ents.moonshots == e0.moonshots,
                acted == (moved || exists|j: int|
                    0 <= j < k && (map.tile_content[t]@[j] as int) < n
                        && e0.doors[map.tile_content[t]@[j] as int] is Some && !e0.doors[
                        map.tile_content[t]@[j] as int
                    ]->Some_0.open),
                forall|id: usize|
                    (id as int) < n ==> if (exists|j: int| 0 <= j < k && map.tile_content[t]@[j] == id)
                        && e0.doors[id as int] is Some && !e0.doors[id as int]->Some_0.open {
                        ents.doors[id as int] == Some(Door { open: true }) && !ents.blocks_visibility[
                            id as int
                        ] && !ents.blocks_tile[id as int]
                    } else {
                        ents.doors[id as int] == e0.doors[id as int] && ents.blocks_visibility[
                            id as int
                        ] == e0.blocks_visibility[id as int] && ents.blocks_tile[id as int]
                            == e0.blocks_tile[id as int]
                    },
            decreases m - k,
        {
            let id = map.tile_content[didx][k];
            proof {
                assert((id as int) < n);
                assert(!(exists|j: int| 0 <= j < k && map.tile_content[t]@[j] == id)) by {
                    if exists|j: int| 0 <= j < k && map.tile_content[t]@[j] == id {
                        let j = choose|j: int| 0 <= j < k && map.tile_content[t]@[j] == id;
                        assert(map.tile_content[t]@[j] < map.tile_content[t]@[k as int]);
                    }
                }
                assert(ents.doors[id as int] == e0.doors[id as int]);
            }
            let is_closed_door = match &ents.doors[id] {
                Some(d) => !d.open,
                None => false,
            };
            if is_closed_door {
                ents.doors[id] = Some(Door { open: true });
                ents.blocks_visibility[id] = false;
                ents.blocks_tile[id] = false;
                acted = true;
            }
            proof {
                if is_closed_door {
                    assert(0 <= (k as int) < k + 1 && (map.tile_content[t]@[k as int] as int) < n
                        && e0.doors[map.tile_content[t]@[k as int] as int] is Some && !e0.doors[
                        map.tile_content[t]@[k as int] as int
                    ]->Some_0.open);
                }
            }
            k = k + 1;
        }
        proof {
            assert forall|id: usize|
                ((id as int) < n && #[trigger] map.tile_content[t]@.contains(id) && e0.doors[
                    id as int
                ] is Some && !e0.doors[id as int]->Some_0.open) implies (ents.doors[id as int]
                == Some(Door { open: true }) && !ents.blocks_visibility[id as int]
                && !ents.blocks_tile[id as int]) by {
                let j = choose|j: int| 0 <= j < map.tile_content[t]@.len() && map.tile_content[t]@[j] == id;
                assert(exists|j: int| 0 <= j < m && map.tile_content[t]@[j] == id);
            }
            if !moved {
                assert(acted == closed_door_at(*map, e0, t)) by {
                    if acted {
                        let j = choose|j: int|
                            0 <= j < m && (map.tile_content[t]@[j] as int) < n && e0.doors[
                                map.tile_content[t]@[j] as int
                            ] is Some && !e0.doors[map.tile_content[t]@[j] as int]->Some_0.open;
                        assert(map.tile_content[t]@.contains(map.tile_content[t]@[j]));
                    }
                    if closed_door_at(*map, e0, t) {
                        let id = choose|id: usize|
                            #[trigger] map.tile_content[t]@.contains(id) && (id as int) < n
                                && e0.doors[id as int] is Some && !e0.doors[id as int]->Some_0.open;
                        let j = choose|j: int|
                            0 <= j < map.tile_content[t]@.len() && map.tile_content[t]@[j] == id;
                        assert(0 <= j < m && (map.tile_content[t]@[j] as int) < n);
                    }
                }
            } else {
                if !acted {
                    assert(false);
                }
                if closed_door_at(*map, e0, t) {
                    let id = choose|id: usize|
                        #[trigger] map.tile_content[t]@.contains(id) && (id as int) < n && e0.doors[
                            id as int
                        ] is Some && !e0.doors[id as int]->Some_0.open;
                }
            }
        }
    }
    if acted {
        match &mut ents.viewsheds[p] {
            Some(vs) => {
                vs.dirty = true;
            },
            None => {},
        }
    }
    Ok(())
}

} // verus!
