//! The grid world store: tile types, dimensions, revealed/visible flags,
//! the blocking overlay, the occupant index, and the extra opacity
//! overlay for closed doors.

use vstd::prelude::*;
use vstd::string::StrSliceExecFns;
use crate::errors::SimError;
use crate::rect::Rect;
use crate::rng::Rng;

verus! {

pub const MAPWIDTH: usize = 80;

pub const MAPHEIGHT: usize = 50;

pub const MAPCOUNT: usize = 4000;

/// The intrinsic kind of one grid cell.
#[derive(Clone, Copy, PartialEq, Eq, Structural, Debug)]
pub enum TileType {
    Empty,
    WallV,
    WallH,
    Floor,
    Door,
    Tree,
    TallGrass,
    Mountain,
}

impl TileType {
    /// Which glyph denotes which tile kind; unknown glyphs read as `Empty`.
    pub open spec fn from_glyph_spec(glyph: char) -> TileType {
        if glyph == '#' {
            TileType::Tree
        } else if glyph == '\'' {
            TileType::TallGrass
        } else if glyph == '|' {
            TileType::WallV
        } else if glyph == '-' {
            TileType::WallH
        } else if glyph == '.' {
            TileType::Floor
        } else if glyph == '+' {
            TileType::Door
        } else if glyph == '▲' {
            TileType::Mountain
        } else {
            TileType::Empty
        }
    }

    pub fn tile_from_glyph(glyph: char) -> (t: TileType)
        ensures
            t == TileType::from_glyph_spec(glyph),
    {
        match glyph {
            '#' => TileType::Tree,
            '\'' => TileType::TallGrass,
            '|' => TileType::WallV,
            '-' => TileType::WallH,
            '.' => TileType::Floor,
            '+' => TileType::Door,
            '▲' => TileType::Mountain,
            _ => TileType::Empty,
        }
    }

    /// Whether this tile kind intrinsically blocks movement.
    pub open spec fn blocks_spec(self) -> bool {
        match self {
            TileType::Tree => true,
            TileType::WallV => true,
            TileType::WallH => true,
            TileType::Mountain => true,
            _ => false,
        }
    }

    pub fn is_blocked(&self) -> (r: bool)
        ensures
            r == self.blocks_spec(),
    {
        match self {
            TileType::Tree => true,
            TileType::WallV => true,
            TileType::WallH => true,
            TileType::Mountain => true,
            TileType::Door => false,
            TileType::TallGrass => false,
            TileType::Floor => false,
            TileType::Empty => false,
        }
    }

    /// Whether this tile kind is intrinsically opaque to sight.
    pub open spec fn opaque_spec(self) -> bool {
        match self {
            TileType::WallV => true,
            TileType::WallH => true,
            TileType::Door => true,
            _ => false,
        }
    }
}

/// The grid world store. Tile types are indexed by `idx = y*width + x`.
/// The `blocked` and `tile_content` overlays are rebuilt every turn by
/// the spatial index builder; `view_blocked` is rebuilt every turn by
/// the visibility engine from the entities that block sight.
pub struct GameMap {
    pub tiles: Vec<TileType>,
    pub rooms: Vec<Rect>,
    pub width: i32,
    pub height: i32,
    /// Monotonically set true, never cleared.
    pub revealed_tiles: Vec<bool>,
    /// Recomputed every turn from the player viewshed.
    pub visible_tiles: Vec<bool>,
    /// True where movement into the tile is denied this turn.
    pub blocked: Vec<bool>,
    /// Occupant entity ids per tile, rebuilt every turn.
    pub tile_content: Vec<Vec<usize>>,
    /// Tiles additionally opaque beyond their static type (closed doors).
    pub view_blocked: Vec<bool>,
}

impl GameMap {
    /// Number of tiles the dimensions call for.
    pub open spec fn area(self) -> int {
        self.width * self.height
    }

    /// Every per-tile overlay has exactly one slot per tile.
    pub open spec fn wf(self) -> bool {
        &&& 0 < self.width
        &&& 0 < self.height
        &&& self.tiles.len() == self.area()
        &&& self.revealed_tiles.len() == self.area()
        &&& self.visible_tiles.len() == self.area()
        &&& self.blocked.len() == self.area()
        &&& self.tile_content.len() == self.area()
        &&& self.view_blocked.len() == self.area()
    }

    pub open spec fn in_bounds(self, x: int, y: int) -> bool {
        &&& 0 <= x < self.width
        &&& 0 <= y < self.height
    }

    /// The coordinate mapping, as a mathematical function.
    pub open spec fn idx_of(self, x: int, y: int) -> int {
        y * self.width + x
    }

    /// Every in-bounds coordinate maps below `width*height`.
    pub proof fn lemma_idx_of_in_range(self, x: int, y: int)
        requires
            self.in_bounds(x, y),
        ensures
            0 <= self.idx_of(x, y) < self.area(),
    {
        assert(y * self.width + x < self.width * self.height && 0 <= y * self.width + x)
            by (nonlinear_arith)
            requires
                0 <= x < self.width,
                0 <= y < self.height,
        ;
    }

    /// The coordinate mapping is injective over in-bounds coordinates.
    pub proof fn lemma_idx_of_injective(self, x1: int, y1: int, x2: int, y2: int)
        requires
            self.in_bounds(x1, y1),
            self.in_bounds(x2, y2),
            self.idx_of(x1, y1) == self.idx_of(x2, y2),
        ensures
            x1 == x2 && y1 == y2,
    {
        assert(x1 == x2 && y1 == y2) by (nonlinear_arith)
            requires
                0 <= x1 < self.width,
                0 <= y1 < self.height,
                0 <= x2 < self.width,
                0 <= y2 < self.height,
                y1 * self.width + x1 == y2 * self.width + x2,
        ;
    }

    /// In-bounds coordinates are recovered from their tile index.
    pub proof fn lemma_idx_coords(self, x: int, y: int)
        requires
            self.wf(),
            self.in_bounds(x, y),
        ensures
            self.idx_of(x, y) % (self.width as int) == x,
            self.idx_of(x, y) / (self.width as int) == y,
    {
        vstd::arithmetic::div_mod::lemma_fundamental_div_mod_converse(
            self.idx_of(x, y),
            self.width as int,
            y,
            x,
        );
    }

    /// Every index below the area splits into in-bounds coordinates.
    pub proof fn lemma_coords_of_idx(self, t: int)
        requires
            self.wf(),
            0 <= t < self.area(),
        ensures
            self.in_bounds(t % (self.width as int), t / (self.width as int)),
            self.idx_of(t % (self.width as int), t / (self.width as int)) == t,
    {
        let w = self.width as int;
        vstd::arithmetic::div_mod::lemma_fundamental_div_mod(t, w);
        vstd::arithmetic::div_mod::lemma_mod_bound(t, w);
        let tx = t % w;
        let ty = t / w;
        assert(0 <= ty && ty < self.height) by (nonlinear_arith)
            requires
                t == w * ty + tx,
                0 <= tx < w,
                0 <= t < w * (self.height as int),
        ;
        assert(ty * w + tx == t) by (nonlinear_arith)
            requires
                t == w * ty + tx,
        ;
    }

    /// The coordinate mapping. Defined only on in-bounds coordinates;
    /// anything else is rejected outright, never clamped or wrapped.
    pub fn xy_idx(&self, x: i32, y: i32) -> (r: Result<usize, SimError>)
        requires
            self.wf(),
        ensures
            match r {
                Ok(i) => self.in_bounds(x as int, y as int) && i == self.idx_of(
                    x as int,
                    y as int,
                ) && i < self.tiles.len(),
                Err(e) => !self.in_bounds(x as int, y as int) && e == SimError::OutOfBounds,
            },
    {
        if 0 <= x && x < self.width && 0 <= y && y < self.height {
            Ok(self.idx(x, y))
        } else {
            Err(SimError::OutOfBounds)
        }
    }

    /// The coordinate mapping for callers that have already established
    /// the bounds check.
    pub fn idx(&self, x: i32, y: i32) -> (i: usize)
        requires
            self.wf(),
            self.in_bounds(x as int, y as int),
        ensures
            i == self.idx_of(x as int, y as int),
            i < self.tiles.len(),
    {
        proof {
            self.lemma_idx_of_in_range(x as int, y as int);
        }
        (y as usize) * (self.width as usize) + (x as usize)
    }

    /// The occupant index is coherent with an entity store of `n`
    /// entities: every listed id is a real entity, each tile's list in
    /// strictly increasing order (so no id twice). The spatial index
    /// builder rebuilds the index in exactly this shape each turn.
    pub open spec fn occupants_wf(self, n: int) -> bool {
        &&& forall|t: int, j: int|
            0 <= t < self.area() && 0 <= j < self.tile_content[t]@.len()
                ==> (#[trigger] self.tile_content[t]@[j] as int) < n
        &&& forall|t: int, i: int, j: int|
            0 <= t < self.area() && 0 <= i < j < self.tile_content[t]@.len()
                ==> #[trigger] self.tile_content[t]@[i] < #[trigger] self.tile_content[t]@[j]
    }

    /// A tile is opaque to sight iff its type is intrinsically opaque or
    /// its index carries the extra opacity overlay.
    pub open spec fn opaque_at(self, i: int) -> bool {
        self.tiles[i].opaque_spec() || self.view_blocked[i]
    }

    pub fn is_opaque(&self, idx: usize) -> (r: bool)
        requires
            self.wf(),
            idx < self.tiles.len(),
        ensures
            r == self.opaque_at(idx as int),
    {
        let tile_opaque = match self.tiles[idx] {
            TileType::WallV => true,
            TileType::WallH => true,
            TileType::Door => true,
            _ => false,
        };
        tile_opaque || self.view_blocked[idx]
    }

    pub fn dimensions(&self) -> (d: (i32, i32))
        ensures
            d.0 == self.width,
            d.1 == self.height,
    {
        (self.width, self.height)
    }

    /// A fresh 80 x 50 grid, every tile `fill`, every overlay clear.
    fn blank_map(fill: TileType) -> (map: GameMap)
        ensures
            map.wf(),
            map.width == 80,
            map.height == 50,
            map.rooms@.len() == 0,
            forall|t: int| 0 <= t < map.area() ==> #[trigger] map.tiles[t] == fill,
            forall|t: int|
                0 <= t < map.area() ==> !(#[trigger] map.revealed_tiles[t])
                    && !map.visible_tiles[t] && !map.blocked[t] && !map.view_blocked[t],
            forall|t: int| 0 <= t < map.area() ==> #[trigger] map.tile_content[t]@.len() == 0,
    {
        let mut tiles: Vec<TileType> = Vec::new();
        let mut revealed: Vec<bool> = Vec::new();
        let mut visible: Vec<bool> = Vec::new();
        let mut blocked: Vec<bool> = Vec::new();
        let mut content: Vec<Vec<usize>> = Vec::new();
        let mut view_blocked: Vec<bool> = Vec::new();
        let mut i: usize = 0;
        while i < MAPCOUNT
            invariant
                i <= MAPCOUNT,
                tiles@.len() == i,
                revealed@.len() == i,
                visible@.len() == i,
                blocked@.len() == i,
                content@.len() == i,
                view_blocked@.len() == i,
                forall|t: int| 0 <= t < i ==> #[trigger] tiles@[t] == fill,
                forall|t: int|
                    0 <= t < i ==> !(#[trigger] revealed@[t]) && !visible@[t] && !blocked@[t]
                        && !view_blocked@[t],
                forall|t: int| 0 <= t < i ==> #[trigger] content@[t]@.len() == 0,
            decreases MAPCOUNT - i,
        {
            tiles.push(fill);
            revealed.push(false);
            visible.push(false);
            blocked.push(false);
            content.push(Vec::new());
            view_blocked.push(false);
            i = i + 1;
        }
        GameMap {
            tiles,
            rooms: Vec::new(),
            width: 80,
            height: 50,
            revealed_tiles: revealed,
            visible_tiles: visible,
            blocked,
            tile_content: content,
            view_blocked,
        }
    }

    /// The fixed demonstration arena, parsed from a glyph table: rows
    /// shorter than the grid are padded with `Empty`, longer rows are
    /// clipped, so any table yields a well-formed 80 x 50 map.
    pub fn test_map() -> (map: GameMap)
        ensures
            map.wf(),
            map.width == 80,
            map.height == 50,
            map.rooms@.len() == 0,
            forall|t: int|
                0 <= t < map.area() ==> !(#[trigger] map.revealed_tiles[t])
                    && !map.visible_tiles[t] && !map.blocked[t] && !map.view_blocked[t],
            forall|t: int| 0 <= t < map.area() ==> #[trigger] map.tile_content[t]@.len() == 0,
    {
        let mut map = Self::blank_map(TileType::Empty);
        let rows: Vec<&str> = glyph_rows();
        let nrows = rows.len();
        let mut r: usize = 0;
        while r < nrows
            invariant
                map.wf(),
                map.width == 80,
                map.height == 50,
                map.rooms@.len() == 0,
                nrows == rows@.len(),
                nrows <= 50,
                r <= nrows,
                forall|t: int|
                    0 <= t < map.area() ==> !(#[trigger] map.revealed_tiles[t])
                        && !map.visible_tiles[t] && !map.blocked[t] && !map.view_blocked[t],
                forall|t: int| 0 <= t < map.area() ==> #[trigger] map.tile_content[t]@.len() == 0,
            decreases nrows - r,
        {
            let row = rows[r];
            let n = row.unicode_len();
            let mut c: usize = 0;
            while c < 80
                invariant
                    map.wf(),
                    map.width == 80,
                    map.height == 50,
                    map.rooms@.len() == 0,
                    r < 50,
                    c <= 80,
                    n == row@.len(),
                    forall|t: int|
                        0 <= t < map.area() ==> !(#[trigger] map.revealed_tiles[t])
                            && !map.visible_tiles[t] && !map.blocked[t] && !map.view_blocked[t],
                    forall|t: int| 0 <= t < map.area() ==> #[trigger] map.tile_content[t]@.len() == 0,
                decreases 80 - c,
            {
                let ch = if c < n {
                    row.get_char(c)
                } else {
                    ' '
                };
                map.tiles[r * 80 + c] = TileType::tile_from_glyph(ch);
                c = c + 1;
            }
            r = r + 1;
        }
        map
    }

    /// Carve the interior of `room` to floor; cells outside the map
    /// are left alone.
    pub fn apply_room_to_map(&mut self, room: &Rect)
        requires
            old(self).wf(),
            room.x1 <= room.x2 < i32::MAX,
            room.y1 <= room.y2 < i32::MAX,
        ensures
            final(self).wf(),
            *final(self) == (GameMap { tiles: final(self).tiles, ..*old(self) }),
            final(self).tiles@.len() == old(self).tiles@.len(),
            forall|t: int|
                0 <= t < final(self).area() ==> #[trigger] final(self).tiles[t]
                    == TileType::Floor || final(self).tiles[t] == old(self).tiles[t],
            forall|x: int, y: int|
                old(self).in_bounds(x, y) && room.x1 + 1 <= x <= room.x2 && room.y1 + 1 <= y
                    <= room.y2 ==> final(self).tiles[#[trigger] old(self).idx_of(x, y)]
                    == TileType::Floor,
            forall|x: int, y: int|
                old(self).in_bounds(x, y) && !(room.x1 + 1 <= x <= room.x2 && room.y1 + 1 <= y
                    <= room.y2) ==> final(self).tiles[#[trigger] old(self).idx_of(x, y)] == old(
                    self,
                ).tiles[old(self).idx_of(x, y)],
    {
        let mut y = room.y1 + 1;
        while y <= room.y2
            invariant
                self.wf(),
                room.x1 <= room.x2 < i32::MAX,
                room.y1 <= room.y2 < i32::MAX,
                room.y1 + 1 <= y,
                y <= room.y2 + 1,
                *self == (GameMap { tiles: self.tiles, ..*old(self) }),
                forall|t: int|
                    0 <= t < self.area() ==> #[trigger] self.tiles[t] == TileType::Floor
                        || self.tiles[t] == old(self).tiles[t],
                forall|x: int, yy: int|
                    old(self).in_bounds(x, yy) && room.x1 + 1 <= x <= room.x2 && room.y1 + 1 <= yy
                        < y ==> self.tiles[#[trigger] old(self).idx_of(x, yy)] == TileType::Floor,
                forall|xx: int, yy: int|
                    old(self).in_bounds(xx, yy) && !(room.x1 + 1 <= xx <= room.x2 && room.y1 + 1
                        <= yy < y) ==> self.tiles[#[trigger] old(self).idx_of(xx, yy)] == old(
                        self,
                    ).tiles[old(self).idx_of(xx, yy)],
            decreases room.y2 + 1 - y,
        {
            let mut x = room.x1 + 1;
            while x <= room.x2
                invariant
                    self.wf(),
                    room.x1 <= room.x2 < i32::MAX,
                    room.y1 <= room.y2 < i32::MAX,
                    room.y1 + 1 <= y <= room.y2,
                    room.x1 + 1 <= x,
                    x <= room.x2 + 1,
                    *self == (GameMap { tiles: self.tiles, ..*old(self) }),
                    forall|t: int|
                        0 <= t < self.area() ==> #[trigger] self.tiles[t] == TileType::Floor
                            || self.tiles[t] == old(self).tiles[t],
                    forall|xx: int, yy: int|
                        old(self).in_bounds(xx, yy) && room.x1 + 1 <= xx <= room.x2 && room.y1 + 1
                            <= yy < y ==> self.tiles[#[trigger] old(self).idx_of(xx, yy)]
                            == TileType::Floor,
                    forall|xx: int|
                        old(self).in_bounds(xx, y as int) && room.x1 + 1 <= xx < x ==> self.tiles[
                            #[trigger] old(self).idx_of(xx, y as int)
                        ] == TileType::Floor,
                    forall|xx: int, yy: int|
                        old(self).in_bounds(xx, yy) && !(room.x1 + 1 <= xx <= room.x2 && room.y1
                            + 1 <= yy < y) && !(yy == y as int && room.x1 + 1 <= xx < x)
                            ==> self.tiles[#[trigger] old(self).idx_of(xx, yy)] == old(self).tiles[
                            old(self).idx_of(xx, yy)
                        ],
                decreases room.x2 + 1 - x,
            {
                let ghost tiles_at = self.tiles@;
                if 0 <= x && x < self.width && 0 <= y && y < self.height {
                    let idx = self.idx(x, y);
                    self.tiles[idx] = TileType::Floor;
                }
                x = x + 1;
                proof {
                    assert forall|xx: int, yy: int|
                        old(self).in_bounds(xx, yy) && room.x1 + 1 <= xx <= room.x2 && room.y1 + 1
                            <= yy < y implies self.tiles[#[trigger] old(self).idx_of(xx, yy)]
                        == TileType::Floor by {
                        old(self).lemma_idx_of_in_range(xx, yy);
                    }
                    assert forall|xx: int|
                        old(self).in_bounds(xx, y as int) && room.x1 + 1 <= xx < x implies self.tiles[
                        #[trigger] old(self).idx_of(xx, y as int)
                    ] == TileType::Floor by {
                        old(self).lemma_idx_of_in_range(xx, y as int);
                    }
                    assert forall|xx: int, yy: int|
                        old(self).in_bounds(xx, yy) && !(room.x1 + 1 <= xx <= room.x2 && room.y1
                            + 1 <= yy < y) && !(yy == y as int && room.x1 + 1 <= xx
                            < x) implies self.tiles[#[trigger] old(self).idx_of(xx, yy)] == old(
                        self,
                    ).tiles[old(self).idx_of(xx, yy)] by {
                        old(self).lemma_idx_of_in_range(xx, yy);
                        if self.tiles@ != tiles_at && old(self).idx_of(xx, yy) == old(
                            self,
                        ).idx_of((x - 1) as int, y as int) {
                            old(self).lemma_idx_of_injective(xx, yy, (x - 1) as int, y as int);
                        }
                    }
                }
            }
            y = y + 1;
            proof {
                assert forall|xx: int, yy: int|
                    old(self).in_bounds(xx, yy) && room.x1 + 1 <= xx <= room.x2 && room.y1 + 1
                        <= yy < y implies self.tiles[#[trigger] old(self).idx_of(xx, yy)]
                    == TileType::Floor by {
                    old(self).lemma_idx_of_in_range(xx, yy);
                }
                assert forall|xx: int, yy: int|
                    old(self).in_bounds(xx, yy) && !(room.x1 + 1 <= xx <= room.x2 && room.y1 + 1
                        <= yy < y) implies self.tiles[#[trigger] old(self).idx_of(xx, yy)] == old(
                    self,
                ).tiles[old(self).idx_of(xx, yy)] by {
                    old(self).lemma_idx_of_in_range(xx, yy);
                }
            }
        }
    }

    /// Carve a horizontal corridor at height `y` between `x1` and `x2`;
    /// cells outside the map are left alone.
    pub fn apply_horizontal_tunnel(&mut self, x1: i32, x2: i32, y: i32)
        requires
            old(self).wf(),
            x1 < i32::MAX,
            x2 < i32::MAX,
        ensures
            final(self).wf(),
            *final(self) == (GameMap { tiles: final(self).tiles, ..*old(self) }),
            forall|t: int|
                0 <= t < final(self).area() ==> #[trigger] final(self).tiles[t]
                    == TileType::Floor || final(self).tiles[t] == old(self).tiles[t],
            forall|x: int|
                old(self).in_bounds(x, y as int) && (x1 as int <= x <= x2 || x2 as int <= x <= x1)
                    ==> final(self).tiles[#[trigger] old(self).idx_of(x, y as int)]
                    == TileType::Floor,
            forall|xx: int, yy: int|
                old(self).in_bounds(xx, yy) && !(yy == y as int && (x1 as int <= xx <= x2
                    || x2 as int <= xx <= x1)) ==> final(self).tiles[
                    #[trigger] old(self).idx_of(xx, yy)
                ] == old(self).tiles[old(self).idx_of(xx, yy)],
    {
        let lo = if x1 < x2 {
            x1
        } else {
            x2
        };
        let hi = if x1 < x2 {
            x2
        } else {
            x1
        };
        let mut x = lo;
        while x <= hi
            invariant
                self.wf(),
                lo <= x,
                x <= hi + 1,
                hi < i32::MAX,
                lo == if x1 < x2 { x1 } else { x2 },
                hi == if x1 < x2 { x2 } else { x1 },
                *self == (GameMap { tiles: self.tiles, ..*old(self) }),
                forall|t: int|
                    0 <= t < self.area() ==> #[trigger] self.tiles[t] == TileType::Floor
                        || self.tiles[t] == old(self).tiles[t],
                forall|xx: int|
                    old(self).in_bounds(xx, y as int) && lo as int <= xx < x ==> self.tiles[
                        #[trigger] old(self).idx_of(xx, y as int)
                    ] == TileType::Floor,
                forall|xx: int, yy: int|
                    old(self).in_bounds(xx, yy) && !(yy == y as int && lo as int <= xx < x)
                        ==> self.tiles[#[trigger] old(self).idx_of(xx, yy)] == old(self).tiles[
                        old(self).idx_of(xx, yy)
                    ],
            decreases hi + 1 - x,
        {
            let ghost tiles_at = self.tiles@;
            if 0 <= x && x < self.width && 0 <= y && y < self.height {
                let idx = self.idx(x, y);
                self.tiles[idx] = TileType::Floor;
            }
            x = x + 1;
            proof {
                assert forall|xx: int|
                    old(self).in_bounds(xx, y as int) && lo as int <= xx < x implies self.tiles[
                    #[trigger] old(self).idx_of(xx, y as int)
                ] == TileType::Floor by {
                    old(self).lemma_idx_of_in_range(xx, y as int);
                }
                assert forall|xx: int, yy: int|
                    old(self).in_bounds(xx, yy) && !(yy == y as int && lo as int <= xx
                        < x) implies self.tiles[#[trigger] old(self).idx_of(xx, yy)] == old(
                    self,
                ).tiles[old(self).idx_of(xx, yy)] by {
                    old(self).lemma_idx_of_in_range(xx, yy);
                    if self.tiles@ != tiles_at && old(self).idx_of(xx, yy) == old(self).idx_of(
                        (x - 1) as int,
                        y as int,
                    ) {
                        old(self).lemma_idx_of_injective(xx, yy, (x - 1) as int, y as int);
                    }
                }
            }
        }
    }

    /// Carve a vertical corridor at column `x` between `y1` and `y2`;
    /// cells outside the map are left alone.
    pub fn apply_vertical_tunnel(&mut self, y1: i32, y2: i32, x: i32)
        requires
            old(self).wf(),
            y1 < i32::MAX,
            y2 < i32::MAX,
        ensures
            final(self).wf(),
            *final(self) == (GameMap { tiles: final(self).tiles, ..*old(self) }),
            forall|t: int|
                0 <= t < final(self).area() ==> #[trigger] final(self).tiles[t]
                    == TileType::Floor || final(self).tiles[t] == old(self).tiles[t],
            forall|y: int|
                old(self).in_bounds(x as int, y) && (y1 as int <= y <= y2 || y2 as int <= y <= y1)
                    ==> final(self).tiles[#[trigger] old(self).idx_of(x as int, y)]
                    == TileType::Floor,
            forall|xx: int, yy: int|
                old(self).in_bounds(xx, yy) && !(xx == x as int && (y1 as int <= yy <= y2
                    || y2 as int <= yy <= y1)) ==> final(self).tiles[
                    #[trigger] old(self).idx_of(xx, yy)
                ] == old(self).tiles[old(self).idx_of(xx, yy)],
    {
        let lo = if y1 < y2 {
            y1
        } else {
            y2
        };
        let hi = if y1 < y2 {
            y2
        } else {
            y1
        };
        let mut y = lo;
        while y <= hi
            invariant
                self.wf(),
                lo <= y,
                y <= hi + 1,
                hi < i32::MAX,
                lo == if y1 < y2 { y1 } else { y2 },
                hi == if y1 < y2 { y2 } else { y1 },
                *self == (GameMap { tiles: self.tiles, ..*old(self) }),
                forall|t: int|
                    0 <= t < self.area() ==> #[trigger] self.tiles[t] == TileType::Floor
                        || self.tiles[t] == old(self).tiles[t],
                forall|yy: int|
                    old(self).in_bounds(x as int, yy) && lo as int <= yy < y ==> self.tiles[
                        #[trigger] old(self).idx_of(x as int, yy)
                    ] == TileType::Floor,
                forall|xx: int, yy: int|
                    old(self).in_bounds(xx, yy) && !(xx == x as int && lo as int <= yy < y)
                        ==> self.tiles[#[trigger] old(self).idx_of(xx, yy)] == old(self).tiles[
                        old(self).idx_of(xx, yy)
                    ],
            decreases hi + 1 - y,
        {
            let ghost tiles_at = self.tiles@;
            if 0 <= x && x < self.width && 0 <= y && y < self.height {
                let idx = self.idx(x, y);
                self.tiles[idx] = TileType::Floor;
            }
            y = y + 1;
            proof {
                assert forall|yy: int|
                    old(self).in_bounds(x as int, yy) && lo as int <= yy < y implies self.tiles[
                    #[trigger] old(self).idx_of(x as int, yy)
                ] == TileType::Floor by {
                    old(self).lemma_idx_of_in_range(x as int, yy);
                }
                assert forall|xx: int, yy: int|
                    old(self).in_bounds(xx, yy) && !(xx == x as int && lo as int <= yy
                        < y) implies self.tiles[#[trigger] old(self).idx_of(xx, yy)] == old(
                    self,
                ).tiles[old(self).idx_of(xx, yy)] by {
                    old(self).lemma_idx_of_in_range(xx, yy);
                    if self.tiles@ != tiles_at && old(self).idx_of(xx, yy) == old(self).idx_of(
                        x as int,
                        (y - 1) as int,
                    ) {
                        old(self).lemma_idx_of_injective(xx, yy, x as int, (y - 1) as int);
                    }
                }
            }
        }
    }

    /// A random 80 x 50 map of up to 30 non-overlapping rooms joined by
    /// corridors, carved out of solid tree cover; the injected
    /// generator makes the layout reproducible from its seed.
    #[verifier::rlimit(100)]
    #[verifier::spinoff_prover]
    pub fn new_map_rooms_and_corridors(rng: &mut Rng) -> (map: GameMap)
        ensures
            map.wf(),
            map.width == 80,
            map.height == 50,
            map.rooms@.len() <= 30,
            forall|a: int, b: int|
                #![trigger map.rooms@[a], map.rooms@[b]]
                0 <= a < b < map.rooms@.len() ==> !map.rooms@[a].intersect_spec(map.rooms@[b]),
            forall|t: int|
                0 <= t < map.area() ==> #[trigger] map.tiles[t] == TileType::Tree || map.tiles[t]
                    == TileType::Floor,
            forall|t: int|
                0 <= t < map.area() ==> !(#[trigger] map.revealed_tiles[t])
                    && !map.visible_tiles[t] && !map.blocked[t] && !map.view_blocked[t],
            forall|t: int| 0 <= t < map.area() ==> #[trigger] map.tile_content[t]@.len() == 0,
    {
        let mut map = Self::blank_map(TileType::Tree);
        let mut i: usize = 0;
        while i < 30
            invariant
                map.wf(),
                map.width == 80,
                map.height == 50,
                i <= 30,
                map.rooms@.len() <= i,
                forall|j: int|
                    0 <= j < map.rooms@.len() ==> 0 <= (#[trigger] map.rooms@[j]).x1
                        && map.rooms@[j].x1 <= map.rooms@[j].x2 && map.rooms@[j].x2 <= 100 && 0
                        <= map.rooms@[j].y1 && map.rooms@[j].y1 <= map.rooms@[j].y2
                        && map.rooms@[j].y2 <= 100,
                forall|a: int, b: int|
                    #![trigger map.rooms@[a], map.rooms@[b]]
                    0 <= a < b < map.rooms@.len() ==> !map.rooms@[a].intersect_spec(
                        map.rooms@[b],
                    ),
                forall|t: int|
                    0 <= t < map.area() ==> #[trigger] map.tiles[t] == TileType::Tree
                        || map.tiles[t] == TileType::Floor,
                forall|t: int|
                    0 <= t < map.area() ==> !(#[trigger] map.revealed_tiles[t])
                        && !map.visible_tiles[t] && !map.blocked[t] && !map.view_blocked[t],
                forall|t: int| 0 <= t < map.area() ==> #[trigger] map.tile_content[t]@.len() == 0,
            decreases 30 - i,
        {
            let ghost tiles_before = map.tiles@;
            let w = rng.range(6, 10);
            let h = rng.range(6, 10);
            let x = rng.roll_dice(1, 80 - w - 1) - 1;
            let y = rng.roll_dice(1, 50 - h - 1) - 1;
            let new_room = Rect::new(x, y, w, h);
            let mut ok = true;
            let mut j: usize = 0;
            while j < map.rooms.len()
                invariant
                    j <= map.rooms@.len(),
                    ok == forall|jj: int|
                        0 <= jj < j ==> !new_room.intersect_spec(#[trigger] map.rooms@[jj]),
                decreases map.rooms@.len() - j,
            {
                if new_room.intersect(&map.rooms[j]) {
                    ok = false;
                }
                j = j + 1;
            }
            if ok {
                map.apply_room_to_map(&new_room);
                if map.rooms.len() > 0 {
                    let (new_x, new_y) = new_room.center();
                    let last = map.rooms.len() - 1;
                    let (prev_x, prev_y) = map.rooms[last].center();
                    if rng.range(0, 2) == 1 {
                        map.apply_horizontal_tunnel(prev_x, new_x, prev_y);
                        map.apply_vertical_tunnel(prev_y, new_y, new_x);
                    } else {
                        map.apply_vertical_tunnel(prev_y, new_y, prev_x);
                        map.apply_horizontal_tunnel(prev_x, new_x, new_y);
                    }
                }
                map.rooms.push(new_room);
                proof {
                    let len = map.rooms@.len();
                    assert(map.rooms@[len - 1] == new_room);
                    assert forall|a: int, b: int|
                        #![trigger map.rooms@[a], map.rooms@[b]]
                        0 <= a < b < len implies !map.rooms@[a].intersect_spec(
                        map.rooms@[b],
                    ) by {
                        if b == len - 1 {
                            assert(!new_room.intersect_spec(map.rooms@[a]));
                        }
                    }
                }
            }
            i = i + 1;
        }
        map
    }
}

/// The glyph table of the fixed arena: a mountain rim, a small walled
/// hut with a gap, scattered trees and patches of tall grass.
fn glyph_rows() -> (rows: Vec<&'static str>)
    ensures
        rows@.len() == 50,
{
    let mut rows: Vec<&'static str> = Vec::new();
    rows.push("▲▲▲▲▲▲▲▲▲▲▲▲▲▲▲▲▲▲▲▲▲▲▲▲▲▲▲▲▲▲▲▲▲▲▲▲▲▲▲▲▲▲▲▲▲▲▲▲▲▲▲▲▲▲▲▲▲▲▲▲▲▲▲▲▲▲▲▲▲▲▲▲▲▲▲▲▲▲▲▲");
    rows.push("▲▲▲▲▲▲▲▲▲▲▲▲▲▲▲▲▲▲▲▲▲▲▲▲▲▲▲▲▲▲▲▲▲▲▲▲▲▲▲▲▲▲▲▲▲▲▲▲▲▲▲▲▲▲▲▲▲▲▲▲▲▲▲▲▲▲▲▲▲▲▲▲▲▲▲▲▲▲▲▲");
    rows.push("▲...............................................................................");
    let mut i: usize = 0;
    while i < 21
        invariant
            rows@.len() == 3 + i,
            i <= 21,
        decreases 21 - i,
    {
        rows.push("................................................................................");
        i = i + 1;
    }
    rows.push("..................................---------...#.................................");
    rows.push("...........................#......|.......|.....................................");
    rows.push("..................................|.......|.#..........''.......................");
    rows.push("......................#...........|.......|...........'.''......................");
    rows.push("..................................|.......|...#.........'.......................");
    rows.push("..................................---- ----.....................................");
    rows.push("................................................................................");
    rows.push("........................................................''......................");
    rows.push("..............................................#.................................");
    let mut k: usize = 0;
    while k < 16
        invariant
            rows@.len() == 33 + k,
            k <= 16,
        decreases 16 - k,
    {
        rows.push("................................................................................");
        k = k + 1;
    }
    rows.push("▲▲▲▲▲▲▲▲▲▲▲▲▲▲▲▲▲▲▲▲▲▲▲▲▲▲▲▲▲▲▲▲▲▲▲▲▲▲▲▲▲▲▲▲▲▲▲▲▲▲▲▲▲▲▲▲▲▲▲▲▲▲▲▲▲▲▲▲▲▲▲▲▲▲▲▲▲▲▲▲");
    rows
}

} // verus!
