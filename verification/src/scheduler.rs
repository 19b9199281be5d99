//! The turn scheduler: a state machine sequencing input handling, the
//! player action handler, the NPC behavior engine, the visibility
//! engine and the spatial index builder into discrete turns. One tick
//! advances the machine by at most one transition; `AwaitingInput`
//! with no recognized input is a null turn that mutates nothing.

use vstd::prelude::*;
use crate::components::{Entities, Position};
use crate::errors::SimError;
use crate::gamelog::GameLog;
use crate::map::GameMap;
use crate::map_indexing_system::{blocked_exact, tile_content_exact, MapIndexingSystem};
use crate::moonshot_ai::{
    lemma_npc_outcome_move, log_extends, npc_incomplete, npc_move_exact, npc_outcome,
    rng_before_npc, MoonshotAI,
};
use crate::player::{
    player_incomplete, player_pass_due, player_world_effect, try_move_player,
};
use crate::rng::Rng;
use crate::visibility_system::{
    dirty_player_viewer, lemma_fov_congruent, pass_recompute_due, player_sight_mirrored,
    recompute_due, sight_same, view_blocked_exact, viewshed_fov_exact, viewshed_recomputed,
    viewshed_settled_exact, VisibilitySystem,
};

verus! {

#[derive(Clone, Copy, PartialEq, Eq, Structural, Debug)]
pub enum RunState {
    AwaitingInput,
    PreRun,
    PlayerTurn,
    NpcTurn,
}

/// One of the 8 movement directions an input event can carry.
#[derive(Clone, Copy, PartialEq, Eq, Structural, Debug)]
pub enum Direction {
    Left,
    Right,
    Up,
    Down,
    UpLeft,
    UpRight,
    DownLeft,
    DownRight,
}

impl Direction {
    pub open spec fn dx_spec(self) -> int {
        match self {
            Direction::Left | Direction::UpLeft | Direction::DownLeft => -1,
            Direction::Right | Direction::UpRight | Direction::DownRight => 1,
            _ => 0,
        }
    }

    pub open spec fn dy_spec(self) -> int {
        match self {
            Direction::Up | Direction::UpLeft | Direction::UpRight => -1,
            Direction::Down | Direction::DownLeft | Direction::DownRight => 1,
            _ => 0,
        }
    }

    /// The coordinate delta of this direction.
    pub fn delta(self) -> (d: (i32, i32))
        ensures
            d.0 == self.dx_spec(),
            d.1 == self.dy_spec(),
            -1 <= d.0 <= 1,
            -1 <= d.1 <= 1,
    {
        match self {
            Direction::Left => (-1, 0),
            Direction::Right => (1, 0),
            Direction::Up => (0, -1),
            Direction::Down => (0, 1),
            Direction::UpLeft => (-1, -1),
            Direction::UpRight => (1, -1),
            Direction::DownLeft => (-1, 1),
            Direction::DownRight => (1, 1),
        }
    }
}

/// The whole simulation state the scheduler owns for the duration of
/// a turn: the map, the entity store, the tracked player anchor, the
/// pending player action, the injected randomness and the message log.
pub struct State {
    pub map: GameMap,
    pub entities: Entities,
    pub player_pos: Position,
    pub runstate: RunState,
    pub pending: Option<Direction>,
    pub rng: Rng,
    pub log: GameLog,
    /// How often the spatial index has been rebuilt.
    pub rebuild_count: u64,
}

/// The column delta a pending action carries; the null move when none
/// is pending.
pub open spec fn pending_dx(p: Option<Direction>) -> int {
    match p {
        Some(d) => d.dx_spec(),
        None => 0,
    }
}

/// The row delta a pending action carries; the null move when none is
/// pending.
pub open spec fn pending_dy(p: Option<Direction>) -> int {
    match p {
        Some(d) => d.dy_spec(),
        None => 0,
    }
}

/// Every viewshed whose owner has a position has been brought up to
/// date: no dirty flag is left standing.
pub open spec fn viewsheds_settled(ents: Entities) -> bool {
    forall|i: int|
        0 <= i < ents.n() && ents.positions[i] is Some && ents.viewsheds[i] is Some
            ==> !(#[trigger] ents.viewsheds[i])->Some_0.dirty
}

impl State {
    /// The structural invariant every tick preserves.
    pub open spec fn wf(self) -> bool {
        &&& self.map.wf()
        &&& self.map.occupants_wf(self.entities.n())
        &&& self.entities.wf()
        &&& self.entities.positions_in_bounds(self.map)
        &&& self.entities.at_most_one_player()
        &&& self.entities.viewsheds_wf()
        &&& self.map.in_bounds(self.player_pos.x as int, self.player_pos.y as int)
    }

    /// Both per-turn overlays agree with the current entity state.
    pub open spec fn indexes_rebuilt(self) -> bool {
        &&& blocked_exact(self.map, self.entities)
        &&& tile_content_exact(self.map, self.entities)
        &&& view_blocked_exact(self.map, self.entities)
    }

    /// One ordered pass of {NPC behavior engine (own turn only) ->
    /// visibility engine -> spatial index builder}. Fails exactly when
    /// it is the NPC turn's pass and some NPC entity is incomplete, and
    /// then changes nothing.
    #[verifier::rlimit(100)]
    #[verifier::spinoff_prover]
    fn run_systems(&mut self) -> (res: Result<(), SimError>)
        requires
            old(self).wf(),
            old(self).rebuild_count < u64::MAX,
        ensures
            final(self).wf(),
            final(self).runstate == old(self).runstate,
            final(self).pending == old(self).pending,
            final(self).player_pos == old(self).player_pos,
            log_extends(old(self).log, final(self).log),
            res is Err <==> old(self).runstate == RunState::NpcTurn && npc_incomplete(
                old(self).entities,
            ),
            res matches Err(e) ==> e == SimError::MissingComponent && *final(self) == *old(self),
            res is Ok && old(self).runstate != RunState::NpcTurn ==> {
                &&& final(self).entities.positions == old(self).entities.positions
                &&& final(self).rng == old(self).rng
                &&& final(self).log == old(self).log
            },
            res is Ok && old(self).runstate == RunState::NpcTurn ==> final(self).rng.state
                == rng_before_npc(
                old(self).map,
                old(self).entities,
                old(self).player_pos,
                old(self).rng.state,
                old(self).entities.n(),
            ),
            res is Ok ==> {
                &&& final(self).indexes_rebuilt()
                &&& viewsheds_settled(final(self).entities)
                &&& final(self).rebuild_count == old(self).rebuild_count + 1
                &&& final(self).map.tiles == old(self).map.tiles
                &&& final(self).map.width == old(self).map.width
                &&& final(self).map.height == old(self).map.height
                &&& final(self).map.rooms == old(self).map.rooms
                &&& final(self).entities.n() == old(self).entities.n()
                &&& final(self).entities.names == old(self).entities.names
                &&& final(self).entities.renderables == old(self).entities.renderables
                &&& final(self).entities.players == old(self).entities.players
                &&& final(self).entities.moonshots == old(self).entities.moonshots
                &&& final(self).entities.doors == old(self).entities.doors
                &&& final(self).entities.blocks_tile == old(self).entities.blocks_tile
                &&& final(self).entities.blocks_visibility == old(self).entities.blocks_visibility
                &&& forall|t: int|
                    0 <= t < final(self).map.area() ==> old(self).map.revealed_tiles[t]
                        ==> #[trigger] final(self).map.revealed_tiles[t]
                &&& forall|k: int|
                    0 <= k < old(self).entities.n() ==> #[trigger] viewshed_settled_exact(
                        final(self).map,
                        old(self).entities,
                        final(self).entities,
                        k,
                    )
                &&& forall|k: int|
                    0 <= k < old(self).entities.n() && old(self).entities.players[k]
                        && #[trigger] pass_recompute_due(
                        old(self).entities,
                        final(self).entities,
                        k,
                    ) ==> player_sight_mirrored(
                        old(self).map,
                        final(self).map,
                        final(self).entities,
                        k,
                    )
                &&& (forall|k: int|
                    !(0 <= k < old(self).entities.n() && old(self).entities.players[k]
                        && #[trigger] pass_recompute_due(
                        old(self).entities,
                        final(self).entities,
                        k,
                    ))) ==> final(self).map.visible_tiles == old(self).map.visible_tiles
                    && final(self).map.revealed_tiles == old(self).map.revealed_tiles
                &&& forall|i: int|
                    0 <= i < old(self).entities.n() ==> if old(self).entities.moonshots[i] && old(
                        self,
                    ).runstate == RunState::NpcTurn {
                        npc_move_exact(
                            old(self).map,
                            old(self).entities,
                            final(self).entities,
                            old(self).player_pos,
                            old(self).rng.state,
                            i,
                        )
                    } else {
                        #[trigger] final(self).entities.positions[i] == old(
                            self,
                        ).entities.positions[i]
                    }
            },
    {
        let moon = MoonshotAI {};
        let res = moon.run(
            &self.map,
            &mut self.entities,
            &self.player_pos,
            self.runstate,
            &mut self.rng,
            &mut self.log,
        );
        match res {
            Err(e) => {
                proof {
                    assert(*self == *old(self));
                }
                return Err(e);
            },
            Ok(()) => {},
        }
        let ghost mid = *self;
        let vis = VisibilitySystem {};
        vis.run(&mut self.map, &mut self.entities);
        let ghost vst = *self;
        let index = MapIndexingSystem {};
        index.run(&mut self.map, &self.entities);
        self.rebuild_count = self.rebuild_count + 1;
        proof {
            crate::map_indexing_system::lemma_exact_index_is_coherent(self.map, self.entities);
            let m0 = old(self).map;
            let a0 = old(self).player_pos;
            let sr = old(self).rng.state;
            let e0 = old(self).entities;
            let em = mid.entities;
            let ef = self.entities;
            let n = e0.n();
            assert(ef.positions == em.positions);
            assert(ef.viewsheds == vst.entities.viewsheds);
            assert(sight_same(vst.map, self.map));
            // how the NPC pass left each slot, and when a recompute fell due
            assert forall|k: int| 0 <= k < n implies (#[trigger] pass_recompute_due(e0, ef, k)
                == recompute_due(em, k)) && (!pass_recompute_due(e0, ef, k)
                ==> em.positions[k] == e0.positions[k] && em.viewsheds[k] == e0.viewsheds[k])
                && (pass_recompute_due(e0, ef, k) ==> em.positions[k] == ef.positions[k]
                && em.viewsheds[k] is Some && em.viewsheds[k]->Some_0.range == e0.viewsheds[
                k
            ]->Some_0.range) by {
                if old(self).runstate == RunState::NpcTurn && e0.moonshots[k] {
                    assert(npc_outcome(m0, e0, em, a0, sr, k));
                    assert(e0.positions[k] is Some && e0.viewsheds[k] is Some);
                } else {
                    assert(em.positions[k] == e0.positions[k] && em.viewsheds[k]
                        == e0.viewsheds[k]);
                }
            }
            assert forall|k: int| 0 <= k < n implies #[trigger] viewshed_settled_exact(
                self.map,
                e0,
                ef,
                k,
            ) by {
                if pass_recompute_due(e0, ef, k) {
                    assert(recompute_due(em, k));
                    assert(viewshed_recomputed(vst.map, em, vst.entities, k));
                    lemma_fov_congruent(
                        vst.map,
                        self.map,
                        em.positions[k]->Some_0.x as int,
                        em.positions[k]->Some_0.y as int,
                        em.viewsheds[k]->Some_0.range as int,
                        ef.viewsheds[k]->Some_0.visible_tiles@,
                    );
                    assert(viewshed_fov_exact(self.map, e0, ef, k));
                } else {
                    assert(!recompute_due(em, k));
                    assert(ef.viewsheds[k] == em.viewsheds[k]);
                    assert(em.viewsheds[k] == e0.viewsheds[k]);
                }
            }
            assert forall|k: int|
                0 <= k < n && e0.players[k] && #[trigger] pass_recompute_due(
                e0,
                ef,
                k,
            ) implies player_sight_mirrored(m0, self.map, ef, k) by {
                assert(dirty_player_viewer(em, k));
                assert(self.map.visible_tiles == vst.map.visible_tiles);
                assert(self.map.revealed_tiles == vst.map.revealed_tiles);
                assert(mid.map.revealed_tiles == m0.revealed_tiles);
                assert forall|t: usize| t < self.map.area() implies (self.map.visible_tiles[
                    t as int
                ] == ef.viewsheds[k]->Some_0.visible_tiles@.contains(t)
                    && self.map.revealed_tiles[t as int] == (m0.revealed_tiles[t as int]
                    || ef.viewsheds[k]->Some_0.visible_tiles@.contains(t))) by {
                    assert(t < vst.map.area());
                }
            }
            if forall|k: int|
                !(0 <= k < n && e0.players[k] && #[trigger] pass_recompute_due(e0, ef, k)) {
                assert forall|k: int| !dirty_player_viewer(em, k) by {
                    if dirty_player_viewer(em, k) {
                        assert(0 <= k < n && e0.players[k] && pass_recompute_due(e0, ef, k));
                    }
                }
                assert(self.map.visible_tiles == m0.visible_tiles);
                assert(self.map.revealed_tiles == m0.revealed_tiles);
            }
            if old(self).runstate == RunState::NpcTurn {
                assert forall|i: int| 0 <= i < n && e0.moonshots[i] implies npc_move_exact(
                    m0,
                    e0,
                    ef,
                    a0,
                    sr,
                    i,
                ) by {
                    assert(npc_outcome(m0, e0, em, a0, sr, i));
                    lemma_npc_outcome_move(m0, e0, em, ef, a0, sr, i);
                }
            }
        }
        Ok(())
    }

    /// Advance the scheduler by one tick: at most one state transition,
    /// with its system pass where the state calls for one. Fails exactly
    /// when the pass finds an incomplete player (player turn) or NPC
    /// (NPC turn) entity; a failed tick leaves everything but a consumed
    /// pending action untouched.
    #[verifier::rlimit(100)]
    #[verifier::spinoff_prover]
    pub fn tick(&mut self, input: Option<Direction>) -> (res: Result<(), SimError>)
        requires
            old(self).wf(),
            old(self).rebuild_count < u64::MAX,
        ensures
            final(self).wf(),
            res is Err <==> (old(self).runstate == RunState::PlayerTurn && player_incomplete(
                old(self).entities,
            )) || (old(self).runstate == RunState::NpcTurn && npc_incomplete(
                old(self).entities,
            )),
            res matches Err(e) ==> e == SimError::MissingComponent,
            old(self).runstate == RunState::PlayerTurn && res is Err ==> *final(self) == (State {
                pending: None,
                ..*old(self)
            }),
            old(self).runstate == RunState::NpcTurn && res is Err ==> *final(self) == *old(self),
            final(self).map.tiles == old(self).map.tiles,
            final(self).map.width == old(self).map.width,
            final(self).map.height == old(self).map.height,
            final(self).map.rooms == old(self).map.rooms,
            log_extends(old(self).log, final(self).log),
            forall|t: int|
                0 <= t < final(self).map.area() ==> old(self).map.revealed_tiles[t]
                    ==> #[trigger] final(self).map.revealed_tiles[t],
            old(self).runstate == RunState::PreRun ==> {
                &&& res is Ok
                &&& final(self).runstate == RunState::AwaitingInput
                &&& final(self).pending == old(self).pending
                &&& final(self).player_pos == old(self).player_pos
                &&& final(self).entities.positions == old(self).entities.positions
                &&& final(self).rng == old(self).rng
                &&& final(self).log == old(self).log
                &&& final(self).indexes_rebuilt()
                &&& viewsheds_settled(final(self).entities)
                &&& final(self).rebuild_count == old(self).rebuild_count + 1
                &&& forall|k: int|
                    0 <= k < old(self).entities.n() ==> #[trigger] viewshed_settled_exact(
                        final(self).map,
                        old(self).entities,
                        final(self).entities,
                        k,
                    )
                &&& forall|k: int|
                    0 <= k < old(self).entities.n() && old(self).entities.players[k]
                        && #[trigger] pass_recompute_due(
                        old(self).entities,
                        final(self).entities,
                        k,
                    ) ==> player_sight_mirrored(
                        old(self).map,
                        final(self).map,
                        final(self).entities,
                        k,
                    )
                &&& (forall|k: int|
                    !(0 <= k < old(self).entities.n() && old(self).entities.players[k]
                        && #[trigger] pass_recompute_due(
                        old(self).entities,
                        final(self).entities,
                        k,
                    ))) ==> final(self).map.visible_tiles == old(self).map.visible_tiles
                    && final(self).map.revealed_tiles == old(self).map.revealed_tiles
            },
            old(self).runstate == RunState::AwaitingInput ==> res is Ok && match input {
                Some(d) => *final(self) == (State {
                    runstate: RunState::PlayerTurn,
                    pending: Some(d),
                    ..*old(self)
                }),
                None => *final(self) == *old(self),
            },
            old(self).runstate == RunState::PlayerTurn && res is Ok ==> {
                &&& final(self).runstate == RunState::NpcTurn
                &&& final(self).pending is None
                &&& final(self).rng == old(self).rng
                &&& final(self).log == old(self).log
                &&& final(self).indexes_rebuilt()
                &&& viewsheds_settled(final(self).entities)
                &&& final(self).rebuild_count == old(self).rebuild_count + 1
            },
            old(self).runstate == RunState::PlayerTurn && res is Ok ==> forall|p: int|
                0 <= p < old(self).entities.n() && #[trigger] old(self).entities.players[p]
                    ==> player_world_effect(
                    old(self).map,
                    old(self).entities,
                    final(self).entities,
                    old(self).player_pos,
                    final(self).player_pos,
                    pending_dx(old(self).pending),
                    pending_dy(old(self).pending),
                    p,
                ),
            old(self).runstate == RunState::PlayerTurn && res is Ok ==> forall|k: int|
                #![trigger final(self).entities.viewsheds[k]]
                0 <= k < old(self).entities.n() ==> if player_pass_due(
                    old(self).map,
                    old(self).entities,
                    final(self).entities,
                    pending_dx(old(self).pending),
                    pending_dy(old(self).pending),
                    k,
                ) {
                    viewshed_fov_exact(
                        final(self).map,
                        old(self).entities,
                        final(self).entities,
                        k,
                    )
                } else {
                    final(self).entities.viewsheds[k] == old(self).entities.viewsheds[k]
                },
            old(self).runstate == RunState::PlayerTurn && res is Ok ==> forall|k: int|
                0 <= k < old(self).entities.n() && old(self).entities.players[k]
                    && #[trigger] player_pass_due(
                    old(self).map,
                    old(self).entities,
                    final(self).entities,
                    pending_dx(old(self).pending),
                    pending_dy(old(self).pending),
                    k,
                ) ==> player_sight_mirrored(
                    old(self).map,
                    final(self).map,
                    final(self).entities,
                    k,
                ),
            old(self).runstate == RunState::PlayerTurn && res is Ok && (forall|k: int|
                !(0 <= k < old(self).entities.n() && old(self).entities.players[k]
                    && #[trigger] player_pass_due(
                    old(self).map,
                    old(self).entities,
                    final(self).entities,
                    pending_dx(old(self).pending),
                    pending_dy(old(self).pending),
                    k,
                ))) ==> final(self).map.visible_tiles == old(self).map.visible_tiles
                && final(self).map.revealed_tiles == old(self).map.revealed_tiles,
            old(self).runstate == RunState::NpcTurn && res is Ok ==> {
                &&& final(self).runstate == RunState::AwaitingInput
                &&& final(self).pending == old(self).pending
                &&& final(self).player_pos == old(self).player_pos
                &&& final(self).indexes_rebuilt()
                &&& viewsheds_settled(final(self).entities)
                &&& final(self).rebuild_count == old(self).rebuild_count + 1
                &&& final(self).rng.state == rng_before_npc(
                    old(self).map,
                    old(self).entities,
                    old(self).player_pos,
                    old(self).rng.state,
                    old(self).entities.n(),
                )
                &&& forall|i: int|
                    0 <= i < old(self).entities.n() ==> if old(self).entities.moonshots[i] {
                        npc_move_exact(
                            old(self).map,
                            old(self).entities,
                            final(self).entities,
                            old(self).player_pos,
                            old(self).rng.state,
                            i,
                        )
                    } else {
                        #[trigger] final(self).entities.positions[i] == old(
                            self,
                        ).entities.positions[i]
                    }
                &&& forall|k: int|
                    0 <= k < old(self).entities.n() ==> #[trigger] viewshed_settled_exact(
                        final(self).map,
                        old(self).entities,
                        final(self).entities,
                        k,
                    )
                &&& forall|k: int|
                    0 <= k < old(self).entities.n() && old(self).entities.players[k]
                        && #[trigger] pass_recompute_due(
                        old(self).entities,
                        final(self).entities,
                        k,
                    ) ==> player_sight_mirrored(
                        old(self).map,
                        final(self).map,
                        final(self).entities,
                        k,
                    )
                &&& (forall|k: int|
                    !(0 <= k < old(self).entities.n() && old(self).entities.players[k]
                        && #[trigger] pass_recompute_due(
                        old(self).entities,
                        final(self).entities,
                        k,
                    ))) ==> final(self).map.visible_tiles == old(self).map.visible_tiles
                    && final(self).map.revealed_tiles == old(self).map.revealed_tiles
            },
    {
        match self.runstate {
            RunState::PreRun => {
                let res = self.run_systems();
                match res {
                    Err(e) => {
                        return Err(e);
                    },
                    Ok(()) => {},
                }
                self.runstate = RunState::AwaitingInput;
            },
            RunState::AwaitingInput => {
                match input {
                    Some(d) => {
                        self.pending = Some(d);
                        self.runstate = RunState::PlayerTurn;
                    },
                    None => {},
                }
            },
            RunState::PlayerTurn => {
                let (dx, dy) = match self.pending {
                    Some(d) => d.delta(),
                    None => (0, 0),
                };
                self.pending = None;
                let res = try_move_player(
                    dx,
                    dy,
                    &self.map,
                    &mut self.entities,
                    &mut self.player_pos,
                );
                match res {
                    Err(e) => {
                        proof {
                            assert(*self == (State { pending: None, ..*old(self) }));
                        }
                        return Err(e);
                    },
                    Ok(()) => {},
                }
                let ghost mid = *self;
                let res2 = self.run_systems();
                match res2 {
                    Err(e) => {
                        return Err(e);
                    },
                    Ok(()) => {},
                }
                self.runstate = RunState::NpcTurn;
                proof {
                    let e0 = old(self).entities;
                    let em = mid.entities;
                    let ef = self.entities;
                    let n = e0.n();
                    let m0 = old(self).map;
                    let a0 = old(self).player_pos;
                    assert(dx as int == pending_dx(old(self).pending));
                    assert(dy as int == pending_dy(old(self).pending));
                    assert(!player_incomplete(e0));
                    assert(ef.positions == em.positions);
                    assert forall|p: int|
                        0 <= p < n && #[trigger] e0.players[p] implies player_world_effect(
                        m0,
                        e0,
                        ef,
                        a0,
                        self.player_pos,
                        dx as int,
                        dy as int,
                        p,
                    ) by {
                        assert(player_world_effect(
                            m0,
                            e0,
                            em,
                            a0,
                            mid.player_pos,
                            dx as int,
                            dy as int,
                            p,
                        ));
                        assert(ef.doors == em.doors);
                        assert(ef.blocks_visibility == em.blocks_visibility);
                        assert(ef.blocks_tile == em.blocks_tile);
                        assert(self.player_pos == mid.player_pos);
                        crate::player::lemma_world_effect_stable(
                            m0,
                            e0,
                            em,
                            ef,
                            a0,
                            mid.player_pos,
                            dx as int,
                            dy as int,
                            p,
                        );
                    }
                    // relate the player handler's slot changes to the
                    // pass-level recompute condition
                    assert forall|k: int| 0 <= k < n implies (#[trigger] pass_recompute_due(
                        em,
                        ef,
                        k,
                    ) == player_pass_due(m0, e0, ef, dx as int, dy as int, k)) && (
                    !pass_recompute_due(em, ef, k) ==> em.viewsheds[k] == e0.viewsheds[k]) && (
                    pass_recompute_due(em, ef, k) ==> em.viewsheds[k] is Some && em.viewsheds[
                        k
                    ]->Some_0.range == e0.viewsheds[k]->Some_0.range) by {
                        if e0.players[k] {
                            assert(player_world_effect(
                                m0,
                                e0,
                                em,
                                a0,
                                mid.player_pos,
                                dx as int,
                                dy as int,
                                k,
                            ));
                            assert(crate::player::player_viewshed_effect(
                                m0,
                                e0,
                                em,
                                dx as int,
                                dy as int,
                                k,
                            ));
                            assert(e0.positions[k] is Some && e0.viewsheds[k] is Some);
                        } else {
                            if exists|p: int| 0 <= p < n && #[trigger] e0.players[p] {
                                let p = choose|p: int| 0 <= p < n && #[trigger] e0.players[p];
                                assert(crate::player::player_viewshed_effect(
                                    m0,
                                    e0,
                                    em,
                                    dx as int,
                                    dy as int,
                                    p,
                                ));
                                assert(k != p);
                                assert(em.viewsheds[k] == e0.viewsheds[k]);
                                assert(em.positions[k] == e0.positions[k]);
                            } else {
                                assert(em == e0);
                            }
                        }
                    }
                    assert forall|k: int| 0 <= k < n implies (if player_pass_due(
                        m0,
                        e0,
                        ef,
                        dx as int,
                        dy as int,
                        k,
                    ) {
                        viewshed_fov_exact(self.map, e0, ef, k)
                    } else {
                        ef.viewsheds[k] == e0.viewsheds[k]
                    }) by {
                        assert(viewshed_settled_exact(self.map, em, ef, k));
                    }
                    assert forall|k: int|
                        0 <= k < n && e0.players[k] && #[trigger] player_pass_due(
                        m0,
                        e0,
                        ef,
                        dx as int,
                        dy as int,
                        k,
                    ) implies player_sight_mirrored(m0, self.map, ef, k) by {
                        assert(pass_recompute_due(em, ef, k));
                        assert(em.players[k]);
                        assert(player_sight_mirrored(mid.map, self.map, ef, k));
                    }
                    if forall|k: int|
                        !(0 <= k < n && e0.players[k] && #[trigger] player_pass_due(
                            m0,
                            e0,
                            ef,
                            dx as int,
                            dy as int,
                            k,
                        )) {
                        assert forall|k: int|
                            !(0 <= k < n && em.players[k] && #[trigger] pass_recompute_due(
                                em,
                                ef,
                                k,
                            )) by {
                            if 0 <= k < n && em.players[k] && pass_recompute_due(em, ef, k) {
                                assert(player_pass_due(m0, e0, ef, dx as int, dy as int, k));
                            }
                        }
                        assert(self.map.visible_tiles == mid.map.visible_tiles);
                        assert(self.map.revealed_tiles == mid.map.revealed_tiles);
                    }
                }
            },
            RunState::NpcTurn => {
                let res = self.run_systems();
                match res {
                    Err(e) => {
                        return Err(e);
                    },
                    Ok(()) => {},
                }
                self.runstate = RunState::AwaitingInput;
            },
        }
        Ok(())
    }
}

} // verus!
