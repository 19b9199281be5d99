use moonshot::components::{Entities, Position, Viewshed};
use moonshot::errors::SimError;
use moonshot::gamelog::GameLog;
use moonshot::map::{GameMap, TileType};
use moonshot::map_indexing_system::MapIndexingSystem;
use moonshot::moonshot_ai::MoonshotAI;
use moonshot::pathfinding::shortest_path;
use moonshot::player::try_move_player;
use moonshot::rng::Rng;
use moonshot::scheduler::{Direction, RunState, State};
use moonshot::visibility_system::{field_of_view, VisibilitySystem};

fn open_map(w: i32, h: i32) -> GameMap {
    let n = (w as usize) * (h as usize);
    GameMap {
        tiles: vec![TileType::Floor; n],
        rooms: Vec::new(),
        width: w,
        height: h,
        revealed_tiles: vec![false; n],
        visible_tiles: vec![false; n],
        blocked: vec![false; n],
        tile_content: vec![Vec::new(); n],
        view_blocked: vec![false; n],
    }
}

fn world(w: i32, h: i32) -> State {
    State {
        map: open_map(w, h),
        entities: Entities::new(),
        player_pos: Position { x: 0, y: 0 },
        runstate: RunState::PreRun,
        pending: None,
        rng: Rng::seeded(7),
        log: GameLog::new(),
        rebuild_count: 0,
    }
}

fn add_player(st: &mut State, x: i32, y: i32) -> usize {
    let id = st.entities.spawn_empty();
    st.entities.positions[id] = Some(Position { x, y });
    st.entities.viewsheds[id] = Some(Viewshed { visible_tiles: Vec::new(), range: 8, dirty: true });
    st.entities.players[id] = true;
    st.entities.names[id] = Some(String::from("Player"));
    st.player_pos = Position { x, y };
    id
}

fn add_moonshot(st: &mut State, x: i32, y: i32) -> usize {
    let id = st.entities.spawn_empty();
    st.entities.positions[id] = Some(Position { x, y });
    st.entities.viewsheds[id] =
        Some(Viewshed { visible_tiles: Vec::new(), range: 12, dirty: true });
    st.entities.moonshots[id] = true;
    st.entities.blocks_tile[id] = true;
    st.entities.names[id] = Some(String::from("Moonshot"));
    id
}

fn add_door(st: &mut State, x: i32, y: i32, open: bool) -> usize {
    let id = st.entities.spawn_empty();
    st.entities.positions[id] = Some(Position { x, y });
    st.entities.doors[id] = Some(moonshot::components::Door { open });
    st.entities.blocks_tile[id] = !open;
    st.entities.blocks_visibility[id] = !open;
    id
}

#[test]
fn xy_idx_maps_row_major_and_rejects_out_of_bounds() {
    let map = open_map(10, 6);
    assert_eq!(map.xy_idx(3, 2), Ok(23));
    assert_eq!(map.xy_idx(0, 0), Ok(0));
    assert_eq!(map.xy_idx(9, 5), Ok(59));
    assert_eq!(map.xy_idx(10, 0), Err(SimError::OutOfBounds));
    assert_eq!(map.xy_idx(-1, 0), Err(SimError::OutOfBounds));
    assert_eq!(map.xy_idx(0, 6), Err(SimError::OutOfBounds));
}

#[test]
fn xy_idx_is_injective_over_a_small_grid() {
    let map = open_map(7, 5);
    let mut seen = vec![false; 35];
    for y in 0..5 {
        for x in 0..7 {
            let i = map.xy_idx(x, y).unwrap();
            assert!(i < 35);
            assert!(!seen[i]);
            seen[i] = true;
        }
    }
}

#[test]
fn tile_glyphs_round_trip_blocking_and_opacity() {
    assert_eq!(TileType::tile_from_glyph('#'), TileType::Tree);
    assert_eq!(TileType::tile_from_glyph('\''), TileType::TallGrass);
    assert_eq!(TileType::tile_from_glyph('|'), TileType::WallV);
    assert_eq!(TileType::tile_from_glyph('-'), TileType::WallH);
    assert_eq!(TileType::tile_from_glyph('.'), TileType::Floor);
    assert_eq!(TileType::tile_from_glyph('+'), TileType::Door);
    assert_eq!(TileType::tile_from_glyph('▲'), TileType::Mountain);
    assert_eq!(TileType::tile_from_glyph(' '), TileType::Empty);
    assert_eq!(TileType::tile_from_glyph('?'), TileType::Empty);
    assert!(TileType::Tree.is_blocked());
    assert!(TileType::Mountain.is_blocked());
    assert!(!TileType::Door.is_blocked());
    assert!(!TileType::Floor.is_blocked());
}

#[test]
fn spatial_index_blocks_static_tiles_and_blocking_occupants() {
    let mut st = world(8, 8);
    st.map.tiles[10] = TileType::Tree;
    add_moonshot(&mut st, 4, 4);
    add_player(&mut st, 1, 1);
    let index = MapIndexingSystem {};
    index.run(&mut st.map, &st.entities);
    assert!(st.map.blocked[10]);
    assert!(st.map.blocked[4 * 8 + 4]);
    assert!(!st.map.blocked[1 * 8 + 1]);
    assert_eq!(st.map.tile_content[4 * 8 + 4], vec![0]);
    assert_eq!(st.map.tile_content[1 * 8 + 1], vec![1]);
    assert!(st.map.tile_content[10].is_empty());
}

#[test]
fn fov_sees_through_floor_but_not_walls() {
    let mut map = open_map(9, 9);
    // wall column between viewer and the right edge
    for y in 0..9 {
        let i = map.xy_idx(6, y).unwrap();
        map.tiles[i] = TileType::WallV;
    }
    let vis = field_of_view(&map, 4, 4, 3);
    let center = map.xy_idx(4, 4).unwrap();
    let near = map.xy_idx(5, 4).unwrap();
    let wall = map.xy_idx(6, 4).unwrap();
    let behind = map.xy_idx(7, 4).unwrap();
    assert!(vis.contains(&center));
    assert!(vis.contains(&near));
    assert!(vis.contains(&wall));
    assert!(!vis.contains(&behind));
    let far = map.xy_idx(4, 8).unwrap();
    assert!(!vis.contains(&far));
}

#[test]
fn recompute_of_non_dirty_viewshed_is_a_no_op() {
    let mut st = world(8, 8);
    add_player(&mut st, 3, 3);
    let vis = VisibilitySystem {};
    vis.run(&mut st.map, &mut st.entities);
    let first = st.entities.viewsheds[0].as_ref().unwrap().visible_tiles.clone();
    assert!(!st.entities.viewsheds[0].as_ref().unwrap().dirty);
    vis.run(&mut st.map, &mut st.entities);
    let second = st.entities.viewsheds[0].as_ref().unwrap().visible_tiles.clone();
    assert_eq!(first, second);
    assert!(!st.entities.viewsheds[0].as_ref().unwrap().dirty);
}

#[test]
fn player_viewshed_reveals_map_and_visible_resets() {
    let mut st = world(8, 8);
    add_player(&mut st, 3, 3);
    let vis = VisibilitySystem {};
    vis.run(&mut st.map, &mut st.entities);
    let here = st.map.xy_idx(3, 3).unwrap();
    assert!(st.map.visible_tiles[here]);
    assert!(st.map.revealed_tiles[here]);
}

#[test]
fn blocked_move_leaves_position_and_dirty_flag_alone() {
    let mut st = world(8, 8);
    let p = add_player(&mut st, 3, 3);
    let index = MapIndexingSystem {};
    index.run(&mut st.map, &st.entities);
    let wall = st.map.xy_idx(4, 3).unwrap();
    st.map.blocked[wall] = true;
    // settle the dirty flag first
    if let Some(vs) = st.entities.viewsheds[p].as_mut() {
        vs.dirty = false;
    }
    let r = try_move_player(1, 0, &st.map, &mut st.entities, &mut st.player_pos);
    assert!(r.is_ok());
    assert_eq!(st.entities.positions[p], Some(Position { x: 3, y: 3 }));
    assert_eq!(st.player_pos, Position { x: 3, y: 3 });
    assert!(!st.entities.viewsheds[p].as_ref().unwrap().dirty);
}

#[test]
fn open_move_updates_position_anchor_and_dirty() {
    let mut st = world(8, 8);
    let p = add_player(&mut st, 3, 3);
    let index = MapIndexingSystem {};
    index.run(&mut st.map, &st.entities);
    if let Some(vs) = st.entities.viewsheds[p].as_mut() {
        vs.dirty = false;
    }
    let r = try_move_player(1, 1, &st.map, &mut st.entities, &mut st.player_pos);
    assert!(r.is_ok());
    assert_eq!(st.entities.positions[p], Some(Position { x: 4, y: 4 }));
    assert_eq!(st.player_pos, Position { x: 4, y: 4 });
    assert!(st.entities.viewsheds[p].as_ref().unwrap().dirty);
}

#[test]
fn missing_player_components_are_fatal() {
    let mut st = world(8, 8);
    let id = st.entities.spawn_empty();
    st.entities.players[id] = true;
    let r = try_move_player(1, 0, &st.map, &mut st.entities, &mut st.player_pos);
    assert_eq!(r, Err(SimError::MissingComponent));
}

#[test]
fn opening_a_door_is_idempotent_and_unblocks_its_tile() {
    let mut st = world(8, 8);
    let p = add_player(&mut st, 3, 3);
    let d = add_door(&mut st, 4, 3, false);
    let index = MapIndexingSystem {};
    index.run(&mut st.map, &st.entities);
    let door_tile = st.map.xy_idx(4, 3).unwrap();
    assert!(st.map.blocked[door_tile]);
    let r = try_move_player(1, 0, &st.map, &mut st.entities, &mut st.player_pos);
    assert!(r.is_ok());
    // blocked, so no move; but the door opened and shed its markers
    assert_eq!(st.entities.positions[p], Some(Position { x: 3, y: 3 }));
    assert!(st.entities.doors[d].unwrap().open);
    assert!(!st.entities.blocks_tile[d]);
    assert!(!st.entities.blocks_visibility[d]);
    assert!(st.entities.viewsheds[p].as_ref().unwrap().dirty);
    // the next rebuild clears the blocking overlay at the door's tile
    let vis = VisibilitySystem {};
    vis.run(&mut st.map, &mut st.entities);
    index.run(&mut st.map, &st.entities);
    assert!(!st.map.blocked[door_tile]);
    assert!(!st.map.view_blocked[door_tile]);
    // opening again changes nothing further
    let before_doors = st.entities.doors.clone();
    let r2 = try_move_player(1, 0, &st.map, &mut st.entities, &mut st.player_pos);
    assert!(r2.is_ok());
    assert_eq!(st.entities.doors, before_doors);
}

#[test]
fn shortest_path_finds_a_straight_corridor() {
    let map = open_map(8, 1);
    let p = shortest_path(&map, 0, 5).unwrap();
    assert_eq!(p, vec![0, 1, 2, 3, 4, 5]);
}

#[test]
fn shortest_path_fails_across_a_full_wall() {
    let mut map = open_map(5, 5);
    for y in 0..5 {
        let i = map.xy_idx(2, y).unwrap();
        map.blocked[i] = true;
    }
    assert!(shortest_path(&map, 0, 4).is_none());
}

#[test]
fn npc_chases_one_step_when_player_is_seen() {
    // player at (2,2), moonshot at (2,5): Euclidean distance 3 > 2,
    // open corridor between them
    let mut st = world(9, 9);
    add_player(&mut st, 2, 2);
    let m = add_moonshot(&mut st, 2, 5);
    st.runstate = RunState::NpcTurn;
    let vis = VisibilitySystem {};
    vis.run(&mut st.map, &mut st.entities);
    let index = MapIndexingSystem {};
    index.run(&mut st.map, &st.entities);
    let moon = MoonshotAI {};
    let before = st.entities.positions[m].unwrap();
    let res = moon.run(
        &st.map,
        &mut st.entities,
        &st.player_pos,
        st.runstate,
        &mut st.rng,
        &mut st.log,
    );
    assert!(res.is_ok());
    let after = st.entities.positions[m].unwrap();
    assert_ne!(before, after);
    // exactly one king step
    assert!((after.x - before.x).abs() <= 1 && (after.y - before.y).abs() <= 1);
    assert!(st.entities.viewsheds[m].as_ref().unwrap().dirty);
}

#[test]
fn npc_rests_when_adjacent_to_player() {
    let mut st = world(9, 9);
    add_player(&mut st, 2, 2);
    let m = add_moonshot(&mut st, 2, 3);
    st.runstate = RunState::NpcTurn;
    let vis = VisibilitySystem {};
    vis.run(&mut st.map, &mut st.entities);
    let index = MapIndexingSystem {};
    index.run(&mut st.map, &st.entities);
    let moon = MoonshotAI {};
    let before = st.entities.positions[m].unwrap();
    moon.run(&st.map, &mut st.entities, &st.player_pos, st.runstate, &mut st.rng, &mut st.log)
        .unwrap();
    assert_eq!(st.entities.positions[m].unwrap(), before);
    assert!(st.log.entries.iter().any(|e| e.contains("stops to rest")));
}

#[test]
fn incomplete_npc_is_fatal_and_leaves_state_unchanged() {
    let mut st = world(8, 8);
    add_player(&mut st, 1, 1);
    let id = st.entities.spawn_empty();
    st.entities.moonshots[id] = true; // no position, viewshed or name
    st.runstate = RunState::NpcTurn;
    let before = st.rebuild_count;
    let pos_before = st.entities.positions.clone();
    let r = st.tick(None);
    assert_eq!(r, Err(SimError::MissingComponent));
    assert_eq!(st.runstate, RunState::NpcTurn);
    assert_eq!(st.rebuild_count, before);
    assert_eq!(st.entities.positions, pos_before);
}

#[test]
fn npc_with_no_route_stays_put_and_the_turn_completes() {
    // the NPC sees the player across the trees (trees block movement,
    // not sight) but is walled into its own cell: pathfinding failure
    // is a normal outcome, never an error
    let mut st = world(9, 9);
    add_player(&mut st, 2, 2);
    let m = add_moonshot(&mut st, 6, 2);
    for (dx, dy) in [(-1, -1), (0, -1), (1, -1), (-1, 0), (1, 0), (-1, 1), (0, 1), (1, 1)] {
        let i = st.map.xy_idx(6 + dx, 2 + dy).unwrap();
        st.map.tiles[i] = TileType::Tree;
    }
    st.runstate = RunState::NpcTurn;
    let vis = VisibilitySystem {};
    vis.run(&mut st.map, &mut st.entities);
    let index = MapIndexingSystem {};
    index.run(&mut st.map, &st.entities);
    let player_tile = st.map.xy_idx(2, 2).unwrap();
    assert!(st.entities.viewsheds[m].as_ref().unwrap().visible_tiles.contains(&player_tile));
    let moon = MoonshotAI {};
    let res = moon.run(
        &st.map,
        &mut st.entities,
        &st.player_pos,
        st.runstate,
        &mut st.rng,
        &mut st.log,
    );
    assert!(res.is_ok());
    assert_eq!(st.entities.positions[m], Some(Position { x: 6, y: 2 }));
    assert!(!st.entities.viewsheds[m].as_ref().unwrap().dirty);
}

#[test]
fn scheduler_runs_prerun_then_waits_then_player_and_npc_turns() {
    let mut st = world(9, 9);
    add_player(&mut st, 2, 2);
    add_moonshot(&mut st, 7, 7);
    assert_eq!(st.runstate, RunState::PreRun);
    st.tick(None).unwrap();
    assert_eq!(st.runstate, RunState::AwaitingInput);
    assert_eq!(st.rebuild_count, 1);
    // a tick with no input is a null turn
    let before_pos = st.entities.positions[0];
    st.tick(None).unwrap();
    assert_eq!(st.runstate, RunState::AwaitingInput);
    assert_eq!(st.rebuild_count, 1);
    assert_eq!(st.entities.positions[0], before_pos);
    // a movement input walks through PlayerTurn and NpcTurn, rebuilding
    // the index exactly twice
    st.tick(Some(Direction::Right)).unwrap();
    assert_eq!(st.runstate, RunState::PlayerTurn);
    assert_eq!(st.rebuild_count, 1);
    st.tick(None).unwrap();
    assert_eq!(st.runstate, RunState::NpcTurn);
    st.tick(None).unwrap();
    assert_eq!(st.runstate, RunState::AwaitingInput);
    assert_eq!(st.rebuild_count, 3);
    assert_eq!(st.entities.positions[0], Some(Position { x: 3, y: 2 }));
}

#[test]
fn seeded_rng_rolls_are_reproducible_and_in_range() {
    let mut a = Rng::seeded(42);
    let mut b = Rng::seeded(42);
    for _ in 0..20 {
        let x = a.roll_dice(1, 5);
        let y = b.roll_dice(1, 5);
        assert_eq!(x, y);
        assert!((1..=5).contains(&x));
    }
    let mut c = Rng::seeded(43);
    let _ = c.range(0, 10);
}

#[test]
fn test_map_is_a_well_formed_arena() {
    let map = GameMap::test_map();
    assert_eq!(map.width, 80);
    assert_eq!(map.height, 50);
    assert_eq!(map.tiles.len(), 4000);
    assert_eq!(map.revealed_tiles.len(), 4000);
    // the rim is mountain, the interior has floor
    assert_eq!(map.tiles[0], TileType::Mountain);
    assert_eq!(map.tiles[49 * 80 + 79], TileType::Mountain);
    assert_eq!(map.tiles[10 * 80 + 10], TileType::Floor);
    // the hut wall from the glyph table
    assert_eq!(map.tiles[24 * 80 + 34], TileType::WallH);
    assert_eq!(map.tiles[25 * 80 + 34], TileType::WallV);
    assert!(!map.revealed_tiles.iter().any(|&b| b));
    assert!(!map.blocked.iter().any(|&b| b));
}

#[test]
fn rooms_and_corridors_generator_is_seeded_and_well_formed() {
    let mut rng = Rng::seeded(99);
    let map = GameMap::new_map_rooms_and_corridors(&mut rng);
    assert_eq!(map.width, 80);
    assert_eq!(map.height, 50);
    assert_eq!(map.tiles.len(), 4000);
    assert!(map.rooms.len() <= 30);
    assert!(map.tiles.iter().all(|&t| t == TileType::Tree || t == TileType::Floor));
    // same seed, same map
    let mut rng2 = Rng::seeded(99);
    let map2 = GameMap::new_map_rooms_and_corridors(&mut rng2);
    assert_eq!(map.tiles, map2.tiles);
}

#[test]
fn spawners_build_complete_entities() {
    let mut ents = Entities::new();
    let p = moonshot::spawners::player(&mut ents, 3, 4);
    let m = moonshot::spawners::moonshot(&mut ents, 6, 7);
    let d = moonshot::spawners::door(&mut ents, 5, 5);
    assert_eq!(p, 0);
    assert_eq!(m, 1);
    assert_eq!(d, 2);
    assert_eq!(ents.positions[p], Some(Position { x: 3, y: 4 }));
    assert!(ents.players[p] && !ents.players[m] && !ents.players[d]);
    assert!(ents.moonshots[m]);
    assert!(ents.blocks_tile[m] && ents.blocks_tile[d] && !ents.blocks_tile[p]);
    assert!(ents.blocks_visibility[d]);
    assert_eq!(ents.doors[d], Some(moonshot::components::Door { open: false }));
    assert_eq!(ents.viewsheds[p].as_ref().unwrap().range, 8);
    assert_eq!(ents.viewsheds[m].as_ref().unwrap().range, 12);
    assert!(ents.viewsheds[p].as_ref().unwrap().dirty);
}

#[test]
fn log_only_appends() {
    let mut log = GameLog::new();
    log.add(String::from("first"));
    log.add(String::from("second"));
    assert_eq!(log.entries, vec![String::from("first"), String::from("second")]);
}
