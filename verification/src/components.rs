//! Per-entity component data, stored structure-of-arrays and keyed by a
//! dense entity index. A component is present when its slot is `Some`
//! (or `true` for the marker components); systems query entities by the
//! explicit set of components they require.

use vstd::prelude::*;
use crate::map::GameMap;

verus! {

#[derive(Clone, Copy, PartialEq, Eq, Structural, Debug)]
pub struct Position {
    pub x: i32,
    pub y: i32,
}

#[derive(Clone, Copy, PartialEq, Eq, Structural, Debug)]
pub struct Rgb {
    pub r: u8,
    pub g: u8,
    pub b: u8,
}

/// Display data the core stores but never interprets.
#[derive(Clone, Copy, PartialEq, Eq, Structural, Debug)]
pub struct Renderable {
    pub glyph: char,
    pub fg: Rgb,
    pub bg: Rgb,
    pub render_order: i32,
}

/// Per-entity record of the current visible-tile set and sight range.
pub struct Viewshed {
    /// Tile indices currently in line of sight.
    pub visible_tiles: Vec<usize>,
    pub range: i32,
    /// True whenever the owner's position (or a sight obstruction near
    /// it) changed since the last recompute.
    pub dirty: bool,
}

#[derive(Clone, Copy, PartialEq, Eq, Structural, Debug)]
pub struct Door {
    pub open: bool,
}

/// All entities, one slot per component array per entity.
pub struct Entities {
    pub positions: Vec<Option<Position>>,
    pub renderables: Vec<Option<Renderable>>,
    pub viewsheds: Vec<Option<Viewshed>>,
    pub names: Vec<Option<String>>,
    pub doors: Vec<Option<Door>>,
    /// PlayerControlled marker.
    pub players: Vec<bool>,
    /// NPCBehavior marker.
    pub moonshots: Vec<bool>,
    /// BlocksMovement marker.
    pub blocks_tile: Vec<bool>,
    /// BlocksVisibility marker.
    pub blocks_visibility: Vec<bool>,
}

impl Entities {
    /// Number of entity slots.
    pub open spec fn n(self) -> int {
        self.positions.len() as int
    }

    /// Every component array has exactly one slot per entity.
    pub open spec fn wf(self) -> bool {
        &&& self.renderables.len() == self.n()
        &&& self.viewsheds.len() == self.n()
        &&& self.names.len() == self.n()
        &&& self.doors.len() == self.n()
        &&& self.players.len() == self.n()
        &&& self.moonshots.len() == self.n()
        &&& self.blocks_tile.len() == self.n()
        &&& self.blocks_visibility.len() == self.n()
    }

    /// Entity `i` stands on tile `t` of `map`.
    pub open spec fn on_tile(self, map: GameMap, i: int, t: int) -> bool {
        &&& self.positions[i] is Some
        &&& map.idx_of(
            self.positions[i]->Some_0.x as int,
            self.positions[i]->Some_0.y as int,
        ) == t
    }

    /// Some entity with the BlocksMovement marker stands on tile `t`.
    pub open spec fn blocker_on_tile(self, map: GameMap, t: int) -> bool {
        exists|i: int| 0 <= i < self.n() && self.blocks_tile[i] && self.on_tile(map, i, t)
    }

    /// Some entity with the BlocksVisibility marker stands on tile `t`.
    pub open spec fn sight_blocker_on_tile(self, map: GameMap, t: int) -> bool {
        exists|i: int| 0 <= i < self.n() && self.blocks_visibility[i] && self.on_tile(map, i, t)
    }

    /// There is at most one entity with the PlayerControlled marker:
    /// the designated player viewer and anchor owner.
    pub open spec fn at_most_one_player(self) -> bool {
        forall|i: int, j: int|
            0 <= i < self.n() && 0 <= j < self.n() && #[trigger] self.players[i]
                && #[trigger] self.players[j] ==> i == j
    }

    /// Every viewshed has a meaningful (non-negative) sight range.
    pub open spec fn viewsheds_wf(self) -> bool {
        forall|i: int|
            0 <= i < self.n() && self.viewsheds[i] is Some
                ==> (#[trigger] self.viewsheds[i])->Some_0.range >= 0
    }

    /// Every positioned entity stands inside the map.
    pub open spec fn positions_in_bounds(self, map: GameMap) -> bool {
        forall|i: int|
            0 <= i < self.n() && self.positions[i] is Some ==> map.in_bounds(
                #[trigger] self.positions[i]->Some_0.x as int,
                self.positions[i]->Some_0.y as int,
            )
    }

    pub fn new() -> (e: Entities)
        ensures
            e.wf(),
            e.n() == 0,
    {
        Entities {
            positions: Vec::new(),
            renderables: Vec::new(),
            viewsheds: Vec::new(),
            names: Vec::new(),
            doors: Vec::new(),
            players: Vec::new(),
            moonshots: Vec::new(),
            blocks_tile: Vec::new(),
            blocks_visibility: Vec::new(),
        }
    }

    /// Create one fresh entity with no components, returning its id.
    pub fn spawn_empty(&mut self) -> (id: usize)
        requires
            old(self).wf(),
        ensures
            final(self).wf(),
            id == old(self).n(),
            final(self).n() == old(self).n() + 1,
            final(self).positions@ == old(self).positions@.push(None),
            final(self).renderables@ == old(self).renderables@.push(None),
            final(self).viewsheds@ == old(self).viewsheds@.push(None),
            final(self).names@ == old(self).names@.push(None),
            final(self).doors@ == old(self).doors@.push(None),
            final(self).players@ == old(self).players@.push(false),
            final(self).moonshots@ == old(self).moonshots@.push(false),
            final(self).blocks_tile@ == old(self).blocks_tile@.push(false),
            final(self).blocks_visibility@ == old(self).blocks_visibility@.push(false),
    {
        let id = self.positions.len();
        self.positions.push(None);
        self.renderables.push(None);
        self.viewsheds.push(None);
        self.names.push(None);
        self.doors.push(None);
        self.players.push(false);
        self.moonshots.push(false);
        self.blocks_tile.push(false);
        self.blocks_visibility.push(false);
        id
    }

    pub fn len(&self) -> (l: usize)
        ensures
            l == self.n(),
    {
        self.positions.len()
    }
}

} // verus!
