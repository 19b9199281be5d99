//! The NPC behavior engine. Each entity with a position, a viewshed
//! and the NPCBehavior marker rests when close to the player anchor,
//! chases when the anchor's tile is in sight (one step along a shortest
//! path to a pseudo-randomly jittered target), and idles otherwise. A
//! failed path search is a normal outcome: the entity stays put.

use vstd::prelude::*;
use crate::components::{Entities, Position, Viewshed};
use crate::errors::SimError;
use crate::gamelog::GameLog;
use crate::map::GameMap;
use crate::pathfinding::{is_path, shortest_path, step_ok};
use crate::rng::{rng_state_after, roll_sum_spec, Rng};
use crate::scheduler::RunState;
use vstd::string::StringExecFns;

verus! {

/// Squared Euclidean distance between two positions.
pub open spec fn dist2(a: Position, b: Position) -> int {
    (a.x - b.x) * (a.x - b.x) + (a.y - b.y) * (a.y - b.y)
}

/// The rest threshold: an NPC within Euclidean distance 2 of the
/// anchor (squared distance below 4) stays put.
pub open spec fn resting(a: Position, b: Position) -> bool {
    dist2(a, b) < 4
}

/// The chase target for a given jitter roll (1 to 5): the anchor's
/// tile offset by one of (-2,0), (2,0), (0,-2), (0,2), (0,0).
pub open spec fn jitter_target(anchor: Position, roll: int) -> (int, int) {
    if roll == 1 {
        (anchor.x - 2, anchor.y as int)
    } else if roll == 2 {
        (anchor.x + 2, anchor.y as int)
    } else if roll == 3 {
        (anchor.x as int, anchor.y - 2)
    } else if roll == 4 {
        (anchor.x as int, anchor.y + 2)
    } else {
        (anchor.x as int, anchor.y as int)
    }
}

/// What a path search toward an in-bounds target yields: one step
/// along some shortest path, or no move when no route exists (or the
/// seeker already stands on the target).
#[verifier::opaque]
pub open spec fn chase_outcome(map: GameMap, my_idx: int, t_idx: int, r: Option<Position>) -> bool {
    match r {
        Some(np) => exists|p: Seq<usize>|
            {
                &&& #[trigger] is_path(map, p, my_idx, t_idx)
                &&& forall|q: Seq<usize>| is_path(map, q, my_idx, t_idx) ==> p.len() <= q.len()
                &&& p.len() > 1
                &&& (np.x as int) == (p[1] as int) % (map.width as int)
                &&& (np.y as int) == (p[1] as int) / (map.width as int)
            },
        None => (forall|q: Seq<usize>| !is_path(map, q, my_idx, t_idx)) || t_idx == my_idx,
    }
}

/// One step along some shortest path from `my_idx` to `t_idx`.
fn chase_step(map: &GameMap, my_idx: usize, t_idx: usize) -> (r: Option<Position>)
    requires
        map.wf(),
        (my_idx as int) < map.area(),
        (t_idx as int) < map.area(),
    ensures
        chase_outcome(*map, my_idx as int, t_idx as int, r),
        r matches Some(np) ==> map.in_bounds(np.x as int, np.y as int) && step_ok(
            *map,
            my_idx as int,
            map.idx_of(np.x as int, np.y as int),
        ),
{
    match shortest_path(map, my_idx, t_idx) {
        Some(path) => {
            if path.len() > 1 {
                let next_tile = path[1];
                proof {
                    assert(step_ok(*map, my_idx as int, next_tile as int)) by {
                        assert(is_path(*map, path@, my_idx as int, t_idx as int));
                        crate::pathfinding::lemma_path_step(
                            *map,
                            path@,
                            my_idx as int,
                            t_idx as int,
                            0,
                        );
                    }
                    map.lemma_coords_of_idx(next_tile as int);
                }
                let wu = map.width as usize;
                let npx = (next_tile % wu) as i32;
                let npy = (next_tile / wu) as i32;
                proof {
                    let np = Position { x: npx, y: npy };
                    assert(chase_outcome(*map, my_idx as int, t_idx as int, Some(np))) by {
                        reveal(chase_outcome);
                        assert(is_path(*map, path@, my_idx as int, t_idx as int) && path@.len() > 1
                            && (np.x as int) == (path@[1] as int) % (map.width as int)
                            && (np.y as int) == (path@[1] as int) / (map.width as int));
                    }
                }
                Some(Position { x: npx, y: npy })
            } else {
                proof {
                    assert(path@.len() == 1);
                    assert(path@[0] == my_idx && path@[path@.len() - 1] == t_idx);
                    assert(chase_outcome(*map, my_idx as int, t_idx as int, None)) by {
                        reveal(chase_outcome);
                    }
                }
                None
            }
        },
        None => {
            proof {
                assert(chase_outcome(*map, my_idx as int, t_idx as int, None)) by {
                    reveal(chase_outcome);
                }
            }
            None
        },
    }
}


/// Decide one NPC's move: rest when within the rest threshold, chase
/// one step along a shortest path to the jittered target when the
/// anchor is in sight, idle otherwise. Returns the new position when
/// the entity moves.
#[verifier::rlimit(100)]
#[verifier::spinoff_prover]
pub fn npc_decide(
    map: &GameMap,
    pos: Position,
    visible_tiles: &Vec<usize>,
    anchor: Position,
    rng: &mut Rng,
) -> (r: Option<Position>)
    requires
        map.wf(),
        map.in_bounds(pos.x as int, pos.y as int),
        map.in_bounds(anchor.x as int, anchor.y as int),
    ensures
        r matches Some(np) ==> map.in_bounds(np.x as int, np.y as int) && step_ok(
            *map,
            map.idx_of(pos.x as int, pos.y as int),
            map.idx_of(np.x as int, np.y as int),
        ),
        r is Some ==> !resting(pos, anchor) && visible_tiles@.contains(
            map.idx_of(anchor.x as int, anchor.y as int) as usize,
        ),
        resting(pos, anchor) || !visible_tiles@.contains(
            map.idx_of(anchor.x as int, anchor.y as int) as usize,
        ) ==> r is None && final(rng).state == old(rng).state,
        !resting(pos, anchor) && visible_tiles@.contains(
            map.idx_of(anchor.x as int, anchor.y as int) as usize,
        ) ==> final(rng).state == rng_state_after(old(rng).state, 1) && ({
            let target = jitter_target(anchor, roll_sum_spec(old(rng).state, 1, 5));
            &&& (map.in_bounds(target.0, target.1) ==> chase_outcome(
                *map,
                map.idx_of(pos.x as int, pos.y as int),
                map.idx_of(target.0, target.1),
                r,
            ))
            &&& (!map.in_bounds(target.0, target.1) ==> r is None)
        }),
{
    let dxl = (pos.x as i64) - (anchor.x as i64);
    let dyl = (pos.y as i64) - (anchor.y as i64);
    proof {
        assert(dxl * dxl + dyl * dyl == dist2(pos, anchor) && 0 <= dxl * dxl && 0 <= dyl * dyl
            && dxl * dxl + dyl * dyl <= i64::MAX) by (nonlinear_arith)
            requires
                dxl == pos.x - anchor.x,
                dyl == pos.y - anchor.y,
                -0x7fff_ffff <= dxl <= 0x7fff_ffff,
                -0x7fff_ffff <= dyl <= 0x7fff_ffff,
        ;
    }
    if dxl * dxl + dyl * dyl < 4 {
        return None;
    }
    let a_idx = map.idx(anchor.x, anchor.y);
    let mut seen = false;
    let mut i: usize = 0;
    while i < visible_tiles.len()
        invariant
            i <= visible_tiles@.len(),
            seen == exists|j: int| 0 <= j < i && visible_tiles@[j] == a_idx,
        decreases visible_tiles@.len() - i,
    {
        if visible_tiles[i] == a_idx {
            seen = true;
        }
        i = i + 1;
    }
    proof {
        assert(seen == visible_tiles@.contains(a_idx)) by {
            if seen {
                let j = choose|j: int| 0 <= j < visible_tiles@.len() && visible_tiles@[j] == a_idx;
            }
            if visible_tiles@.contains(a_idx) {
                let j = choose|j: int| 0 <= j < visible_tiles@.len() && visible_tiles@[j] == a_idx;
            }
        }
    }
    if !seen {
        return None;
    }
    let roll = rng.roll_dice(1, 5);
    let mut txl = anchor.x as i64;
    let mut tyl = anchor.y as i64;
    match roll {
        1 => txl = txl - 2,
        2 => txl = txl + 2,
        3 => tyl = tyl - 2,
        4 => tyl = tyl + 2,
        _ => {},
    }
    proof {
        assert((txl as int, tyl as int) == jitter_target(anchor, roll as int));
        assert(roll == roll_sum_spec(old(rng).state, 1, 5));
    }
    if !(0 <= txl && txl < map.width as i64 && 0 <= tyl && tyl < map.height as i64) {
        return None;
    }
    let tx = txl as i32;
    let ty = tyl as i32;
    let my_idx = map.idx(pos.x, pos.y);
    let t_idx = map.idx(tx, ty);
    let r = chase_step(map, my_idx, t_idx);
    proof {
        let target = jitter_target(anchor, roll_sum_spec(old(rng).state, 1, 5));
        assert(target.0 == txl as int && target.1 == tyl as int);
        assert(my_idx as int == map.idx_of(pos.x as int, pos.y as int));
        assert(t_idx as int == map.idx_of(target.0, target.1));
        assert(chase_outcome(
            *map,
            map.idx_of(pos.x as int, pos.y as int),
            map.idx_of(target.0, target.1),
            r,
        ));
    }
    r
}

pub struct MoonshotAI {}

/// Some entity carries the NPCBehavior marker but lacks a position, a
/// viewshed or a name: a programming-contract violation.
pub open spec fn npc_incomplete(ents: Entities) -> bool {
    exists|i: int|
        0 <= i < ents.n() && #[trigger] ents.moonshots[i] && (ents.positions[i] is None
            || ents.viewsheds[i] is None || ents.names[i] is None)
}

/// NPC `i` rolls the jitter die this pass: it is an NPCBehavior entity
/// outside the rest threshold with the anchor's tile in sight.
pub open spec fn npc_rolls(map: GameMap, e0: Entities, anchor: Position, i: int) -> bool {
    &&& e0.moonshots[i]
    &&& e0.positions[i] is Some
    &&& e0.viewsheds[i] is Some
    &&& !resting(e0.positions[i]->Some_0, anchor)
    &&& e0.viewsheds[i]->Some_0.visible_tiles@.contains(
        map.idx_of(anchor.x as int, anchor.y as int) as usize,
    )
}

/// The generator state handed to NPC `i`: the pass walks the entities
/// in id order from seed state `s0`, and each rolling NPC before `i`
/// advances the state by one roll.
pub open spec fn rng_before_npc(
    map: GameMap,
    e0: Entities,
    anchor: Position,
    s0: u64,
    i: int,
) -> u64
    decreases i,
{
    if i <= 0 {
        s0
    } else if npc_rolls(map, e0, anchor, i - 1) {
        rng_state_after(rng_before_npc(map, e0, anchor, s0, i - 1), 1)
    } else {
        rng_before_npc(map, e0, anchor, s0, i - 1)
    }
}

/// The move NPC `i` made, read off its positions before and after.
pub open spec fn npc_move_of(e0: Entities, e1: Entities, i: int) -> Option<Position> {
    if e1.positions[i] == e0.positions[i] {
        None
    } else {
        e1.positions[i]
    }
}

/// The exact outcome of the NPC pass for entity `i`, from seed state
/// `s0`: a resting or blind NPC, or one whose jittered chase target
/// falls off the map, keeps its position and viewshed untouched; any
/// other NPC takes exactly the step the shortest-path search toward the
/// jittered target yields (no step when no route exists), and its
/// viewshed goes dirty exactly when it moved.
pub open spec fn npc_outcome(
    map: GameMap,
    e0: Entities,
    e1: Entities,
    anchor: Position,
    s0: u64,
    i: int,
) -> bool {
    let p0 = e0.positions[i]->Some_0;
    if !npc_rolls(map, e0, anchor, i) {
        e1.positions[i] == e0.positions[i] && e1.viewsheds[i] == e0.viewsheds[i]
    } else {
        let target = jitter_target(
            anchor,
            roll_sum_spec(rng_before_npc(map, e0, anchor, s0, i), 1, 5),
        );
        if !map.in_bounds(target.0, target.1) {
            e1.positions[i] == e0.positions[i] && e1.viewsheds[i] == e0.viewsheds[i]
        } else {
            &&& chase_outcome(
                map,
                map.idx_of(p0.x as int, p0.y as int),
                map.idx_of(target.0, target.1),
                npc_move_of(e0, e1, i),
            )
            &&& match npc_move_of(e0, e1, i) {
                Some(np) => {
                    &&& map.in_bounds(np.x as int, np.y as int)
                    &&& step_ok(
                        map,
                        map.idx_of(p0.x as int, p0.y as int),
                        map.idx_of(np.x as int, np.y as int),
                    )
                    &&& e1.viewsheds[i] is Some
                    &&& e1.viewsheds[i]->Some_0.range == e0.viewsheds[i]->Some_0.range
                    &&& e1.viewsheds[i]->Some_0.visible_tiles == e0.viewsheds[
                        i
                    ]->Some_0.visible_tiles
                    &&& e1.viewsheds[i]->Some_0.dirty
                },
                None => e1.positions[i] == e0.positions[i] && e1.viewsheds[i] == e0.viewsheds[i],
            }
        }
    }
}

/// The position part of `npc_outcome` alone: what remains true of an
/// NPC's move after later passes have recomputed its viewshed.
pub open spec fn npc_move_exact(
    map: GameMap,
    e0: Entities,
    e1: Entities,
    anchor: Position,
    s0: u64,
    i: int,
) -> bool {
    let p0 = e0.positions[i]->Some_0;
    if !npc_rolls(map, e0, anchor, i) {
        e1.positions[i] == e0.positions[i]
    } else {
        let target = jitter_target(
            anchor,
            roll_sum_spec(rng_before_npc(map, e0, anchor, s0, i), 1, 5),
        );
        if !map.in_bounds(target.0, target.1) {
            e1.positions[i] == e0.positions[i]
        } else {
            &&& chase_outcome(
                map,
                map.idx_of(p0.x as int, p0.y as int),
                map.idx_of(target.0, target.1),
                npc_move_of(e0, e1, i),
            )
            &&& (npc_move_of(e0, e1, i) matches Some(np) ==> map.in_bounds(
                np.x as int,
                np.y as int,
            ) && step_ok(
                map,
                map.idx_of(p0.x as int, p0.y as int),
                map.idx_of(np.x as int, np.y as int),
            ))
            &&& (npc_move_of(e0, e1, i) is None ==> e1.positions[i] == e0.positions[i])
        }
    }
}

/// An NPC's exact outcome keeps its position part under any later pass
/// that leaves positions untouched.
pub proof fn lemma_npc_outcome_move(
    map: GameMap,
    e0: Entities,
    e1: Entities,
    e2: Entities,
    anchor: Position,
    s0: u64,
    i: int,
)
    requires
        npc_outcome(map, e0, e1, anchor, s0, i),
        e2.positions[i] == e1.positions[i],
    ensures
        npc_move_exact(map, e0, e2, anchor, s0, i),
{
    assert(npc_move_of(e0, e2, i) == npc_move_of(e0, e1, i));
}

/// The log only ever grows: the old entries stay, in place.
pub open spec fn log_extends(l0: GameLog, l1: GameLog) -> bool {
    &&& l0.entries@.len() <= l1.entries@.len()
    &&& forall|j: int| 0 <= j < l0.entries@.len() ==> #[trigger] l1.entries@[j] == l0.entries@[j]
}

impl MoonshotAI {
    /// One NPC pass. Runs only during the NPC turn; any NPCBehavior
    /// entity lacking a position, viewshed or name is a fatal
    /// MissingComponent, found before anything is mutated.
    #[verifier::rlimit(100)]
    #[verifier::spinoff_prover]
    pub fn run(
        &self,
        map: &GameMap,
        ents: &mut Entities,
        anchor: &Position,
        runstate: RunState,
        rng: &mut Rng,
        log: &mut GameLog,
    ) -> (res: Result<(), SimError>)
        requires
            map.wf(),
            old(ents).wf(),
            old(ents).positions_in_bounds(*map),
            map.in_bounds(anchor.x as int, anchor.y as int),
            old(ents).viewsheds_wf(),
        ensures
            final(ents).wf(),
            final(ents).viewsheds_wf(),
            final(ents).n() == old(ents).n(),
            final(ents).positions_in_bounds(*map),
            final(ents).names == old(ents).names,
            final(ents).renderables == old(ents).renderables,
            final(ents).players == old(ents).players,
            final(ents).moonshots == old(ents).moonshots,
            final(ents).doors == old(ents).doors,
            final(ents).blocks_tile == old(ents).blocks_tile,
            final(ents).blocks_visibility == old(ents).blocks_visibility,
            log_extends(*old(log), *final(log)),
            runstate != RunState::NpcTurn ==> *final(ents) == *old(ents) && *final(rng) == *old(
                rng,
            ) && *final(log) == *old(log) && res is Ok,
            runstate == RunState::NpcTurn ==> (res is Err <==> npc_incomplete(*old(ents))),
            res matches Err(e) ==> e == SimError::MissingComponent && *final(ents) == *old(ents)
                && *final(rng) == *old(rng) && *final(log) == *old(log),
            res is Ok && runstate == RunState::NpcTurn ==> final(rng).state == rng_before_npc(
                *map,
                *old(ents),
                *anchor,
                old(rng).state,
                old(ents).n(),
            ),
            res is Ok ==> forall|i: int|
                #![trigger final(ents).positions[i]]
                #![trigger final(ents).viewsheds[i]]
                0 <= i < old(ents).n() ==> if old(ents).moonshots[i] && runstate
                    == RunState::NpcTurn {
                    npc_outcome(*map, *old(ents), *final(ents), *anchor, old(rng).state, i)
                } else {
                    final(ents).positions[i] == old(ents).positions[i]
                        && final(ents).viewsheds[i] == old(ents).viewsheds[i]
                },
    {
        if runstate != RunState::NpcTurn {
            return Ok(());
        }
        let n = ents.len();
        let mut i: usize = 0;
        let mut bad = false;
        while i < n
            invariant
                ents.wf(),
                n == ents.n(),
                i <= n,
                bad == exists|k: int|
                    0 <= k < i && #[trigger] ents.moonshots[k] && (ents.positions[k] is None
                        || ents.viewsheds[k] is None || ents.names[k] is None),
            decreases n - i,
        {
            if ents.moonshots[i] {
                match (&ents.positions[i], &ents.viewsheds[i], &ents.names[i]) {
                    (Some(_), Some(_), Some(_)) => {},
                    _ => {
                        bad = true;
                    },
                }
            }
            i = i + 1;
        }
        if bad {
            return Err(SimError::MissingComponent);
        }
        proof {
            assert(bad == npc_incomplete(*ents));
        }
        let ghost e0 = *ents;
        let ghost s0 = rng.state;
        let mut i: usize = 0;
        while i < n
            invariant
                map.wf(),
                ents.wf(),
                e0.wf(),
                n == ents.n(),
                n == e0.n(),
                i <= n,
                map.in_bounds(anchor.x as int, anchor.y as int),
                ents.positions_in_bounds(*map),
                ents.viewsheds_wf(),
                e0.viewsheds_wf(),
                e0.positions_in_bounds(*map),
                ents.names == e0.names,
                ents.renderables == e0.renderables,
                ents.players == e0.players,
                ents.moonshots == e0.moonshots,
                ents.doors == e0.doors,
                ents.blocks_tile == e0.blocks_tile,
                ents.blocks_visibility == e0.blocks_visibility,
                log_extends(*old(log), *log),
                s0 == old(rng).state,
                rng.state == rng_before_npc(*map, e0, *anchor, s0, i as int),
                forall|k: int|
                    0 <= k < n && #[trigger] e0.moonshots[k] ==> e0.positions[k] is Some
                        && e0.viewsheds[k] is Some && e0.names[k] is Some,
                forall|k: int| i <= k < n ==> #[trigger] ents.positions[k] == e0.positions[k],
                forall|k: int| i <= k < n ==> #[trigger] ents.viewsheds[k] == e0.viewsheds[k],
                forall|k: int|
                    #![trigger ents.positions[k]]
                    #![trigger ents.viewsheds[k]]
                    0 <= k < i ==> if e0.moonshots[k] {
                        npc_outcome(*map, e0, *ents, *anchor, s0, k)
                    } else {
                        ents.positions[k] == e0.positions[k] && ents.viewsheds[k]
                            == e0.viewsheds[k]
                    },
            decreases n - i,
        {
            let ghost ents_pre = *ents;
            let ghost rng_pre = rng.state;
            if ents.moonshots[i] {
                let pos = match &ents.positions[i] {
                    Some(p) => *p,
                    None => Position { x: 0, y: 0 },
                };
                let moved = match &ents.viewsheds[i] {
                    Some(vs) => npc_decide(map, pos, &vs.visible_tiles, *anchor, rng),
                    None => None,
                };
                let close = {
                    let dxl = (pos.x as i64) - (anchor.x as i64);
                    let dyl = (pos.y as i64) - (anchor.y as i64);
                    proof {
                        assert(dxl * dxl + dyl * dyl == dist2(pos, *anchor) && 0 <= dxl * dxl && 0
                            <= dyl * dyl && dxl * dxl + dyl * dyl <= i64::MAX) by (nonlinear_arith)
                            requires
                                dxl == pos.x - anchor.x,
                                dyl == pos.y - anchor.y,
                                -0x7fff_ffff <= dxl <= 0x7fff_ffff,
                                -0x7fff_ffff <= dyl <= 0x7fff_ffff,
                        ;
                    }
                    dxl * dxl + dyl * dyl < 4
                };
                if close {
                    let msg = match &ents.names[i] {
                        Some(name) => String::from_str(name.as_str()).concat(" stops to rest"),
                        None => String::from_str("stops to rest"),
                    };
                    log.add(msg);
                }
                match moved {
                    Some(np) => {
                        let msg = match &ents.names[i] {
                            Some(name) => String::from_str(name.as_str()).concat(" follows you"),
                            None => String::from_str("follows you"),
                        };
                        log.add(msg);
                        let ghost vs_before = ents.viewsheds@;
                        let slot = ents.viewsheds.remove(i);
                        let new_vs = match slot {
                            Some(vs) => Some(
                                Viewshed {
                                    visible_tiles: vs.visible_tiles,
                                    range: vs.range,
                                    dirty: true,
                                },
                            ),
                            None => None,
                        };
                        ents.viewsheds.insert(i, new_vs);
                        proof {
                            assert(ents.viewsheds@ =~= vs_before.update(
                                i as int,
                                ents.viewsheds@[i as int],
                            ));
                        }
                        ents.positions[i] = Some(np);
                    },
                    None => {},
                }
                proof {
                    let ii = i as int;
                    assert(e0.positions[ii] == Some(pos));
                    let a_idx = map.idx_of(anchor.x as int, anchor.y as int) as usize;
                    let vt = e0.viewsheds[ii]->Some_0.visible_tiles@;
                    if !npc_rolls(*map, e0, *anchor, ii) {
                        assert(resting(pos, *anchor) || !vt.contains(a_idx));
                        assert(moved is None);
                        assert(rng.state == rng_pre);
                        assert(npc_outcome(*map, e0, *ents, *anchor, s0, ii));
                    } else {
                        assert(rng.state == rng_state_after(rng_pre, 1));
                        let target = jitter_target(*anchor, roll_sum_spec(rng_pre, 1, 5));
                        assert(rng_pre == rng_before_npc(*map, e0, *anchor, s0, ii));
                        if !map.in_bounds(target.0, target.1) {
                            assert(moved is None);
                            assert(npc_outcome(*map, e0, *ents, *anchor, s0, ii));
                        } else {
                            assert(chase_outcome(
                                *map,
                                map.idx_of(pos.x as int, pos.y as int),
                                map.idx_of(target.0, target.1),
                                moved,
                            ));
                            match moved {
                                Some(np) => {
                                    assert(np != pos) by {
                                        if np == pos {
                                            assert(map.idx_of(np.x as int, np.y as int)
                                                == map.idx_of(pos.x as int, pos.y as int));
                                        }
                                    }
                                    assert(npc_move_of(e0, *ents, ii) == Some(np));
                                },
                                None => {
                                    assert(npc_move_of(e0, *ents, ii) is None);
                                },
                            }
                            assert(npc_outcome(*map, e0, *ents, *anchor, s0, ii));
                        }
                    }
                    assert forall|k: int|
                        0 <= k < ii && e0.moonshots[k] implies npc_outcome(
                        *map,
                        e0,
                        *ents,
                        *anchor,
                        s0,
                        k,
                    ) by {
                        assert(ents.positions[k] == ents_pre.positions[k]);
                        assert(ents.viewsheds[k] == ents_pre.viewsheds[k]);
                        assert(npc_move_of(e0, *ents, k) == npc_move_of(e0, ents_pre, k));
                        assert(npc_outcome(*map, e0, ents_pre, *anchor, s0, k));
                    }
                }
            }
            i = i + 1;
        }
        Ok(())
    }
}

} // verus!
