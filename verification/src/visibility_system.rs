//! The visibility engine: recomputes the visible-tile set of every
//! viewer whose viewshed is dirty, rebuilds the extra opacity overlay
//! from the entities that block sight, and mirrors the designated
//! player viewer's sight onto the map's visible and revealed flags.
//!
//! Line of sight walks the grid one step at a time, moving diagonally
//! until aligned with the target and straight from there on; a tile is
//! seen when no strictly interior point of that walk is opaque. Any
//! deterministic field of view satisfying the contracts would do; this
//! one is fixed so results are reproducible.

use vstd::prelude::*;
use vstd::seq_lib::lemma_seq_contains_after_push;
use crate::components::{Entities, Viewshed};
use crate::map::GameMap;

verus! {

/// Two maps offer the same sight lines: they agree on everything
/// opacity and bounds are read from.
pub open spec fn sight_same(m1: GameMap, m2: GameMap) -> bool {
    &&& m1.tiles == m2.tiles
    &&& m1.width == m2.width
    &&& m1.height == m2.height
    &&& m1.view_blocked == m2.view_blocked
}

/// The extra opacity overlay is rebuilt: a tile carries it exactly when
/// an entity with the BlocksVisibility marker stands on it.
pub open spec fn view_blocked_exact(map: GameMap, ents: Entities) -> bool {
    forall|t: int|
        0 <= t < map.area() ==> (#[trigger] map.view_blocked[t] == ents.sight_blocker_on_tile(
            map,
            t,
        ))
}

pub open spec fn sign_of(d: int) -> int {
    if d > 0 {
        1
    } else if d < 0 {
        -1
    } else {
        0
    }
}

pub open spec fn abs_of(d: int) -> int {
    if d < 0 {
        -d
    } else {
        d
    }
}

/// Chebyshev distance: the number of king moves between two cells.
pub open spec fn cheb_dist(x0: int, y0: int, x1: int, y1: int) -> int {
    if abs_of(x1 - x0) > abs_of(y1 - y0) {
        abs_of(x1 - x0)
    } else {
        abs_of(y1 - y0)
    }
}

/// No strictly interior point of the walk from (x0,y0) to (x1,y1) is
/// opaque. The endpoints themselves may be opaque: a wall is seen even
/// though nothing behind it is.
pub open spec fn los_clear(map: GameMap, x0: int, y0: int, x1: int, y1: int) -> bool
    decreases cheb_dist(x0, y0, x1, y1),
{
    if x0 == x1 && y0 == y1 {
        true
    } else {
        let nx = x0 + sign_of(x1 - x0);
        let ny = y0 + sign_of(y1 - y0);
        if nx == x1 && ny == y1 {
            true
        } else {
            !map.opaque_at(map.idx_of(nx, ny)) && los_clear(map, nx, ny, x1, y1)
        }
    }
}

/// Tile (x,y) is in sight of a viewer at (ox,oy) with the given range.
pub open spec fn tile_visible(
    map: GameMap,
    ox: int,
    oy: int,
    range: int,
    x: int,
    y: int,
) -> bool {
    &&& map.in_bounds(x, y)
    &&& (x - ox) * (x - ox) + (y - oy) * (y - oy) <= range * range
    &&& los_clear(map, ox, oy, x, y)
}

/// Tile index `t` is in sight of a viewer at (ox,oy).
pub open spec fn visible_idx(map: GameMap, ox: int, oy: int, range: int, t: int) -> bool {
    &&& 0 <= t < map.area()
    &&& tile_visible(map, ox, oy, range, t % (map.width as int), t / (map.width as int))
}

/// `v` is exactly the set of visible tile indices, in increasing order.
pub open spec fn fov_result(map: GameMap, ox: int, oy: int, range: int, v: Seq<usize>) -> bool {
    &&& forall|i: int, j: int| 0 <= i < j < v.len() ==> #[trigger] v[i] < #[trigger] v[j]
    &&& forall|t: usize| #[trigger] v.contains(t) <==> visible_idx(map, ox, oy, range, t as int)
}

/// Outside a square of side `2*range+1` around the viewer, the
/// Euclidean range check always fails.
proof fn lemma_outside_square(ox: int, oy: int, range: int, x: int, y: int)
    requires
        0 <= range,
        abs_of(x - ox) > range || abs_of(y - oy) > range,
    ensures
        (x - ox) * (x - ox) + (y - oy) * (y - oy) > range * range,
{
    assert((x - ox) * (x - ox) + (y - oy) * (y - oy) > range * range) by (nonlinear_arith)
        requires
            0 <= range,
            abs_of(x - ox) > range || abs_of(y - oy) > range,
    ;
}

/// In-bounds coordinates are recovered from their tile index.
proof fn lemma_idx_coords(map: GameMap, x: int, y: int)
    requires
        map.wf(),
        map.in_bounds(x, y),
    ensures
        map.idx_of(x, y) % (map.width as int) == x,
        map.idx_of(x, y) / (map.width as int) == y,
{
    map.lemma_idx_coords(x, y);
}

/// Every index below the area splits into in-bounds coordinates.
proof fn lemma_coords_of_idx(map: GameMap, t: int)
    requires
        map.wf(),
        0 <= t < map.area(),
    ensures
        map.in_bounds(t % (map.width as int), t / (map.width as int)),
        map.idx_of(t % (map.width as int), t / (map.width as int)) == t,
{
    map.lemma_coords_of_idx(t);
}

/// Tiles whose coordinates fall outside the clamped scan box around
/// the viewer are never visible.
proof fn lemma_out_of_box_invisible(
    map: GameMap,
    ox: int,
    oy: int,
    range: int,
    xmin: int,
    xmax: int,
    ymin: int,
    ymax: int,
    t: int,
)
    requires
        map.wf(),
        map.in_bounds(ox, oy),
        0 <= range,
        xmin == if ox > range { ox - range } else { 0 },
        xmax == if ox + range <= map.width - 1 { ox + range } else { map.width - 1 },
        ymin == if oy > range { oy - range } else { 0 },
        ymax == if oy + range <= map.height - 1 { oy + range } else { map.height - 1 },
        0 <= t < map.area(),
        !(xmin <= t % (map.width as int) <= xmax && ymin <= t / (map.width as int) <= ymax),
    ensures
        !visible_idx(map, ox, oy, range, t),
{
    let w = map.width as int;
    let tx = t % w;
    let ty = t / w;
    lemma_coords_of_idx(map, t);
    if tx < xmin || tx > xmax || ty < ymin || ty > ymax {
        assert(abs_of(tx - ox) > range || abs_of(ty - oy) > range);
        lemma_outside_square(ox, oy, range, tx, ty);
    }
}

/// One step of the line walk, in executable form.
fn los_step(map: &GameMap, cx: i32, cy: i32, x1: i32, y1: i32) -> (r: bool)
    requires
        map.wf(),
        map.in_bounds(cx as int, cy as int),
        map.in_bounds(x1 as int, y1 as int),
    ensures
        r == los_clear(*map, cx as int, cy as int, x1 as int, y1 as int),
    decreases cheb_dist(cx as int, cy as int, x1 as int, y1 as int),
{
    if cx == x1 && cy == y1 {
        return true;
    }
    let nx = if x1 > cx {
        cx + 1
    } else if x1 < cx {
        cx - 1
    } else {
        cx
    };
    let ny = if y1 > cy {
        cy + 1
    } else if y1 < cy {
        cy - 1
    } else {
        cy
    };
    if nx == x1 && ny == y1 {
        return true;
    }
    let i = map.idx(nx, ny);
    if map.is_opaque(i) {
        false
    } else {
        los_step(map, nx, ny, x1, y1)
    }
}

/// The set of tiles an unobstructed line of sight reaches from (ox,oy)
/// within `range`, as a strictly increasing list of tile indices.
pub fn field_of_view(map: &GameMap, ox: i32, oy: i32, range: i32) -> (r: Vec<usize>)
    requires
        map.wf(),
        map.in_bounds(ox as int, oy as int),
        0 <= range,
    ensures
        fov_result(*map, ox as int, oy as int, range as int, r@),
{
    let w = map.width;
    let h = map.height;
    let xmin: i32 = if ox > range {
        ox - range
    } else {
        0
    };
    let xmax: i32 = if (ox as i64) + (range as i64) <= (w as i64) - 1 {
        ox + range
    } else {
        w - 1
    };
    let ymin: i32 = if oy > range {
        oy - range
    } else {
        0
    };
    let ymax: i32 = if (oy as i64) + (range as i64) <= (h as i64) - 1 {
        oy + range
    } else {
        h - 1
    };
    let mut r: Vec<usize> = Vec::new();
    let mut y: i32 = ymin;
    proof {
        let wi = map.width as int;
        assert forall|t: usize|
            visible_idx(*map, ox as int, oy as int, range as int, t as int) implies map.idx_of(
            xmin as int,
            ymin as int,
        ) <= t by {
            lemma_coords_of_idx(*map, t as int);
            let tx = t as int % wi;
            let ty = t as int / wi;
            if !(xmin <= tx <= xmax && ymin <= ty <= ymax) {
                lemma_out_of_box_invisible(
                    *map,
                    ox as int,
                    oy as int,
                    range as int,
                    xmin as int,
                    xmax as int,
                    ymin as int,
                    ymax as int,
                    t as int,
                );
            } else {
                assert(ymin * wi <= ty * wi) by (nonlinear_arith)
                    requires
                        ymin <= ty,
                        wi > 0,
                ;
            }
        }
    }
    while y <= ymax
        invariant
            map.wf(),
            map.in_bounds(ox as int, oy as int),
            0 <= range,
            w == map.width,
            h == map.height,
            0 <= xmin <= ox,
            ox <= xmax < w,
            xmin == if ox > range { ox - range } else { 0 },
            xmax as int == if ox + range <= w - 1 { ox + range } else { w - 1 },
            ymin == if oy > range { oy - range } else { 0 },
            ymax as int == if oy + range <= h - 1 { oy + range } else { h - 1 },
            0 <= ymin <= y,
            y <= ymax + 1,
            forall|i: int, j: int| 0 <= i < j < r@.len() ==> #[trigger] r@[i] < #[trigger] r@[j],
            forall|i: int| 0 <= i < r@.len() ==> #[trigger] r@[i] < map.idx_of(xmin as int, y as int),
            forall|t: usize|
                #[trigger] r@.contains(t) <==> (visible_idx(
                    *map,
                    ox as int,
                    oy as int,
                    range as int,
                    t as int,
                ) && t < map.idx_of(xmin as int, y as int)),
        decreases ymax + 1 - y,
    {
        let mut x: i32 = xmin;
        while x <= xmax
            invariant
                map.wf(),
                map.in_bounds(ox as int, oy as int),
                0 <= range,
                w == map.width,
                h == map.height,
                0 <= xmin <= ox,
                ox <= xmax < w,
                xmin == if ox > range { ox - range } else { 0 },
                xmax as int == if ox + range <= w - 1 { ox + range } else { w - 1 },
                ymin <= y <= ymax,
                0 <= ymin,
                ymax < h,
                xmin <= x,
                x <= xmax + 1,
                forall|i: int, j: int| 0 <= i < j < r@.len() ==> #[trigger] r@[i] < #[trigger] r@[j],
                forall|i: int| 0 <= i < r@.len() ==> #[trigger] r@[i] < map.idx_of(x as int, y as int),
                forall|t: usize|
                    #[trigger] r@.contains(t) <==> (visible_idx(
                        *map,
                        ox as int,
                        oy as int,
                        range as int,
                        t as int,
                    ) && t < map.idx_of(x as int, y as int)),
            decreases xmax + 1 - x,
        {
            let ghost r_before = r@;
            let dx = (x as i64) - (ox as i64);
            let dy = (y as i64) - (oy as i64);
            proof {
                assert(dx * dx + dy * dy <= i64::MAX && 0 <= dx * dx && 0 <= dy * dy
                    && (range as i64) * (range as i64) <= i64::MAX) by (nonlinear_arith)
                    requires
                        -0x7fff_ffff <= dx <= 0x7fff_ffff,
                        -0x7fff_ffff <= dy <= 0x7fff_ffff,
                        0 <= range <= 0x7fff_ffff,
                ;
            }
            let within = dx * dx + dy * dy <= (range as i64) * (range as i64);
            let t = map.idx(x, y);
            proof {
                lemma_idx_coords(*map, x as int, y as int);
            }
            if within && los_step(map, ox, oy, x, y) {
                r.push(t);
                proof {
                    assert(visible_idx(*map, ox as int, oy as int, range as int, t as int));
                    assert(r@[r@.len() - 1] == t);
                    assert(r@.contains(t));
                }
            } else {
                proof {
                    assert(!visible_idx(*map, ox as int, oy as int, range as int, t as int));
                }
            }
            x = x + 1;
            proof {
                assert(map.idx_of(x as int, y as int) == t + 1);
                assert forall|q: usize|
                    #[trigger] r@.contains(q) implies (visible_idx(
                    *map,
                    ox as int,
                    oy as int,
                    range as int,
                    q as int,
                ) && q < map.idx_of(x as int, y as int)) by {
                    if !r_before.contains(q) {
                        assert(r@ == r_before.push(t as usize));
                        lemma_seq_contains_after_push(r_before, t as usize, q);
                    }
                }
                assert forall|q: usize|
                    (visible_idx(*map, ox as int, oy as int, range as int, q as int) && q
                        < map.idx_of(x as int, y as int)) implies #[trigger] r@.contains(q) by {
                    if q == t {
                        if r@.len() == r_before.len() + 1 {
                            assert(r@[r@.len() - 1] == t);
                        }
                    } else {
                        assert(r_before.contains(q));
                        if r@.len() == r_before.len() + 1 {
                            assert(r@ == r_before.push(t));
                            lemma_seq_contains_after_push(r_before, t, q);
                        }
                    }
                }
            }
        }
        y = y + 1;
        proof {
            let wi = map.width as int;
            let old_bound = map.idx_of((xmax + 1) as int, (y - 1) as int);
            let new_bound = map.idx_of(xmin as int, y as int);
            assert(old_bound <= new_bound) by (nonlinear_arith)
                requires
                    old_bound == (y - 1) * wi + xmax + 1,
                    new_bound == y * wi + xmin,
                    0 <= xmin,
                    xmax < wi,
            ;
            assert forall|t: usize|
                old_bound <= t < new_bound implies !visible_idx(
                *map,
                ox as int,
                oy as int,
                range as int,
                t as int,
            ) by {
                if 0 <= t < map.area() {
                    let tx = t as int % wi;
                    let ty = t as int / wi;
                    lemma_coords_of_idx(*map, t as int);
                    if xmin <= tx <= xmax && ymin <= ty <= ymax {
                        assert(false) by (nonlinear_arith)
                            requires
                                t == ty * wi + tx,
                                xmin <= tx <= xmax < wi,
                                0 <= xmin,
                                (y - 1) * wi + xmax + 1 <= t < y * wi + xmin,
                        ;
                    } else {
                        lemma_out_of_box_invisible(
                            *map,
                            ox as int,
                            oy as int,
                            range as int,
                            xmin as int,
                            xmax as int,
                            ymin as int,
                            ymax as int,
                            t as int,
                        );
                    }
                }
            }
        }
    }
    proof {
        let wi = map.width as int;
        let end_bound = map.idx_of(xmin as int, (ymax + 1) as int);
        assert forall|t: usize|
            visible_idx(*map, ox as int, oy as int, range as int, t as int) implies t
            < end_bound by {
            let tx = t as int % wi;
            let ty = t as int / wi;
            lemma_coords_of_idx(*map, t as int);
            if xmin <= tx <= xmax && ymin <= ty <= ymax {
                assert(t < end_bound) by (nonlinear_arith)
                    requires
                        t == ty * wi + tx,
                        end_bound == (ymax + 1) * wi + xmin,
                        tx <= xmax < wi,
                        ty <= ymax,
                        0 <= xmin,
                        wi > 0,
                ;
            } else {
                lemma_out_of_box_invisible(
                    *map,
                    ox as int,
                    oy as int,
                    range as int,
                    xmin as int,
                    xmax as int,
                    ymin as int,
                    ymax as int,
                    t as int,
                );
            }
        }
    }
    r
}

/// Sight lines do not depend on the visible/revealed/blocked overlays.
proof fn lemma_los_congruent(m1: GameMap, m2: GameMap, x0: int, y0: int, x1: int, y1: int)
    requires
        sight_same(m1, m2),
    ensures
        los_clear(m1, x0, y0, x1, y1) == los_clear(m2, x0, y0, x1, y1),
    decreases cheb_dist(x0, y0, x1, y1),
{
    if x0 == x1 && y0 == y1 {
    } else {
        let nx = x0 + sign_of(x1 - x0);
        let ny = y0 + sign_of(y1 - y0);
        if nx == x1 && ny == y1 {
        } else {
            lemma_los_congruent(m1, m2, nx, ny, x1, y1);
        }
    }
}

/// A field-of-view result carries over between maps with the same
/// sight lines.
pub proof fn lemma_fov_congruent(m1: GameMap, m2: GameMap, ox: int, oy: int, range: int, v: Seq<usize>)
    requires
        sight_same(m1, m2),
    ensures
        fov_result(m1, ox, oy, range, v) == fov_result(m2, ox, oy, range, v),
{
    assert forall|t: int| true implies #[trigger] visible_idx(m1, ox, oy, range, t) == visible_idx(
        m2,
        ox,
        oy,
        range,
        t,
    ) by {
        if 0 <= t < m1.area() {
            lemma_los_congruent(
                m1,
                m2,
                ox,
                oy,
                t % (m1.width as int),
                t / (m1.width as int),
            );
        }
    }
}

/// Entity `k` is due for a recompute: it has a position and a viewshed,
/// and the viewshed is dirty.
pub open spec fn recompute_due(ents: Entities, k: int) -> bool {
    &&& 0 <= k < ents.n()
    &&& ents.positions[k] is Some
    &&& ents.viewsheds[k] is Some
    &&& ents.viewsheds[k]->Some_0.dirty
}

/// Entity `k` is the designated player viewer and is due for a
/// recompute this pass.
pub open spec fn dirty_player_viewer(ents: Entities, k: int) -> bool {
    &&& recompute_due(ents, k)
    &&& ents.players[k]
}

/// Entity `k`'s viewshed falls due during a pass that takes `e0` to
/// `e1`: it came in dirty, or the pass itself moved the entity.
pub open spec fn pass_recompute_due(e0: Entities, e1: Entities, k: int) -> bool {
    &&& e1.positions[k] is Some
    &&& e0.viewsheds[k] is Some
    &&& (e0.viewsheds[k]->Some_0.dirty || e1.positions[k] != e0.positions[k])
}

/// Entity `k` ends a pass holding the exact field of view from its
/// final position at its incoming range, with the dirty flag cleared.
pub open spec fn viewshed_fov_exact(m1: GameMap, e0: Entities, e1: Entities, k: int) -> bool {
    &&& e1.viewsheds[k] is Some
    &&& e1.viewsheds[k]->Some_0.range == e0.viewsheds[k]->Some_0.range
    &&& !e1.viewsheds[k]->Some_0.dirty
    &&& fov_result(
        m1,
        e1.positions[k]->Some_0.x as int,
        e1.positions[k]->Some_0.y as int,
        e0.viewsheds[k]->Some_0.range as int,
        e1.viewsheds[k]->Some_0.visible_tiles@,
    )
}

/// What one full system pass leaves of entity `k`'s viewshed: a due
/// viewer holds the exact field of view from its final position; every
/// other viewshed is untouched.
pub open spec fn viewshed_settled_exact(m1: GameMap, e0: Entities, e1: Entities, k: int) -> bool {
    if pass_recompute_due(e0, e1, k) {
        viewshed_fov_exact(m1, e0, e1, k)
    } else {
        e1.viewsheds[k] == e0.viewsheds[k]
    }
}

/// The map's visible flags mirror player viewer `k`'s sight exactly,
/// and the revealed flags grew by exactly that sight over their old
/// value.
pub open spec fn player_sight_mirrored(m0: GameMap, m1: GameMap, e1: Entities, k: int) -> bool {
    forall|t: usize|
        t < m1.area() ==> (m1.visible_tiles[t as int] == e1.viewsheds[
            k
        ]->Some_0.visible_tiles@.contains(t) && m1.revealed_tiles[t as int] == (m0.revealed_tiles[
            t as int
        ] || e1.viewsheds[k]->Some_0.visible_tiles@.contains(t)))
}

/// The viewshed of entity `k` was recomputed on `map` from its position:
/// same range, dirty cleared, visible tiles exactly the field of view.
pub open spec fn viewshed_recomputed(
    map: GameMap,
    before: Entities,
    after: Entities,
    k: int,
) -> bool {
    &&& after.viewsheds[k] is Some
    &&& after.viewsheds[k]->Some_0.range == before.viewsheds[k]->Some_0.range
    &&& !after.viewsheds[k]->Some_0.dirty
    &&& fov_result(
        map,
        before.positions[k]->Some_0.x as int,
        before.positions[k]->Some_0.y as int,
        before.viewsheds[k]->Some_0.range as int,
        after.viewsheds[k]->Some_0.visible_tiles@,
    )
}

pub struct VisibilitySystem {}

impl VisibilitySystem {
    /// One visibility pass: rebuild the extra opacity overlay from the
    /// BlocksVisibility markers, recompute every dirty viewshed, and
    /// mirror the player viewer's new sight onto the map's visible and
    /// revealed flags (revealed is never cleared).
    pub fn run(&self, map: &mut GameMap, ents: &mut Entities)
        requires
            old(map).wf(),
            old(ents).wf(),
            old(ents).positions_in_bounds(*old(map)),
            old(ents).viewsheds_wf(),
            old(ents).at_most_one_player(),
        ensures
            final(map).wf(),
            final(ents).wf(),
            final(ents).viewsheds_wf(),
            *final(ents) == (Entities { viewsheds: final(ents).viewsheds, ..*old(ents) }),
            final(ents).viewsheds.len() == old(ents).n(),
            *final(map) == (GameMap {
                visible_tiles: final(map).visible_tiles,
                revealed_tiles: final(map).revealed_tiles,
                view_blocked: final(map).view_blocked,
                ..*old(map)
            }),
            view_blocked_exact(*final(map), *old(ents)),
            forall|k: int|
                0 <= k < old(ents).n() ==> if recompute_due(*old(ents), k) {
                    viewshed_recomputed(*final(map), *old(ents), *final(ents), k)
                } else {
                    final(ents).viewsheds[k] == old(ents).viewsheds[k]
                },
            forall|k: int|
                dirty_player_viewer(*old(ents), k) ==> forall|t: usize|
                    t < final(map).area() ==> (final(map).visible_tiles[t as int]
                        == final(ents).viewsheds[k]->Some_0.visible_tiles@.contains(t)
                        && final(map).revealed_tiles[t as int] == (old(map).revealed_tiles[t as int]
                        || final(ents).viewsheds[k]->Some_0.visible_tiles@.contains(t))),
            (forall|k: int| !dirty_player_viewer(*old(ents), k)) ==> final(map).visible_tiles
                == old(map).visible_tiles && final(map).revealed_tiles == old(
                map,
            ).revealed_tiles,
    {
        let area = map.tiles.len();
        let mut t: usize = 0;
        while t < area
            invariant
                old(map).wf(),
                map.wf(),
                area == map.area(),
                t <= area,
                *map == (GameMap { view_blocked: map.view_blocked, ..*old(map) }),
                forall|j: int| 0 <= j < t ==> !(#[trigger] map.view_blocked[j]),
                forall|j: int|
                    t <= j < area ==> #[trigger] map.view_blocked[j] == old(map).view_blocked[j],
            decreases area - t,
        {
            map.view_blocked[t] = false;
            t = t + 1;
        }
        let n = ents.len();
        let mut e: usize = 0;
        while e < n
            invariant
                old(map).wf(),
                map.wf(),
                ents.wf(),
                ents == old(ents),
                ents.positions_in_bounds(*old(map)),
                n == ents.n(),
                e <= n,
                area == map.area(),
                *map == (GameMap { view_blocked: map.view_blocked, ..*old(map) }),
                forall|j: int|
                    0 <= j < area ==> (#[trigger] map.view_blocked[j] == exists|i: int|
                        0 <= i < e && ents.blocks_visibility[i] && ents.on_tile(*map, i, j)),
            decreases n - e,
        {
            match &ents.positions[e] {
                Some(pos) => {
                    if ents.blocks_visibility[e] {
                        let idx = map.idx(pos.x, pos.y);
                        map.view_blocked[idx] = true;
                        proof {
                            assert(ents.on_tile(*map, e as int, idx as int));
                        }
                    }
                },
                None => {},
            }
            e = e + 1;
        }
        let ghost m1 = *map;
        let ghost ents0 = *ents;
        let mut i: usize = 0;
        while i < n
            invariant
                old(map).wf(),
                map.wf(),
                ents.wf(),
                ents.viewsheds_wf(),
                n == ents.n(),
                i <= n,
                area == map.area(),
                m1.wf(),
                area == m1.area(),
                ents0 == *old(ents),
                ents0.positions_in_bounds(m1),
                ents0.at_most_one_player(),
                ents0.viewsheds_wf(),
                ents0.wf(),
                n == ents0.n(),
                *ents == (Entities { viewsheds: ents.viewsheds, ..ents0 }),
                m1 == (GameMap { view_blocked: m1.view_blocked, ..*old(map) }),
                *map == (GameMap {
                    visible_tiles: map.visible_tiles,
                    revealed_tiles: map.revealed_tiles,
                    ..m1
                }),
                forall|k: int|
                    i <= k < n ==> #[trigger] ents.viewsheds[k] == ents0.viewsheds[k],
                forall|k: int|
                    0 <= k < i ==> if recompute_due(ents0, k) {
                        viewshed_recomputed(*map, ents0, *ents, k)
                    } else {
                        #[trigger] ents.viewsheds[k] == ents0.viewsheds[k]
                    },
                forall|k: int|
                    dirty_player_viewer(ents0, k) && k < i ==> forall|t: usize|
                        t < area ==> (map.visible_tiles[t as int]
                            == ents.viewsheds[k]->Some_0.visible_tiles@.contains(t)
                            && map.revealed_tiles[t as int] == (old(map).revealed_tiles[t as int]
                            || ents.viewsheds[k]->Some_0.visible_tiles@.contains(t))),
                (forall|k: int| !(dirty_player_viewer(ents0, k) && k < i)) ==> map.visible_tiles
                    == old(map).visible_tiles && map.revealed_tiles == old(map).revealed_tiles,
            decreases n - i,
        {
            let recompute = match (&ents.positions[i], &ents.viewsheds[i]) {
                (Some(_), Some(vs)) => vs.dirty,
                _ => false,
            };
            if recompute {
                let ghost map_before = *map;
                let (px, py, range) = match (&ents.positions[i], &ents.viewsheds[i]) {
                    (Some(p), Some(vs)) => (p.x, p.y, vs.range),
                    _ => (0, 0, 0),
                };
                let fovv = field_of_view(map, px, py, range);
                let ghost fov_seq = fovv@;
                ents.viewsheds[i] = Some(
                    Viewshed { visible_tiles: fovv, range: range, dirty: false },
                );
                if ents.players[i] {
                    proof {
                        assert(dirty_player_viewer(ents0, i as int));
                    }
                    let mut t: usize = 0;
                    while t < area
                        invariant
                            map.wf(),
                            area == map.area(),
                            t <= area,
                            *map == (GameMap { visible_tiles: map.visible_tiles, ..map_before }),
                            forall|j: int| 0 <= j < t ==> !(#[trigger] map.visible_tiles[j]),
                            forall|j: int|
                                t <= j < area ==> #[trigger] map.visible_tiles[j]
                                    == map_before.visible_tiles[j],
                        decreases area - t,
                    {
                        map.visible_tiles[t] = false;
                        t = t + 1;
                    }
                    let ghost map_cleared = *map;
                    match &ents.viewsheds[i] {
                        Some(vs) => {
                            let m = vs.visible_tiles.len();
                            proof {
                                assert forall|j: int|
                                    0 <= j < vs.visible_tiles@.len() implies vs.visible_tiles@[j]
                                    < area by {
                                    assert(vs.visible_tiles@.contains(vs.visible_tiles@[j]));
                                }
                            }
                            let mut k: usize = 0;
                            while k < m
                                invariant
                                    map.wf(),
                                    area == map.area(),
                                    k <= m,
                                    m == vs.visible_tiles@.len(),
                                    forall|j: int|
                                        0 <= j < m ==> #[trigger] vs.visible_tiles@[j] < area,
                                    *map == (GameMap {
                                        visible_tiles: map.visible_tiles,
                                        revealed_tiles: map.revealed_tiles,
                                        ..map_cleared
                                    }),
                                    forall|t: usize|
                                        t < area ==> (#[trigger] map.visible_tiles[t as int] == exists|j: int|
                                            0 <= j < k && vs.visible_tiles@[j] == t),
                                    forall|t: usize|
                                        t < area ==> (#[trigger] map.revealed_tiles[t as int] == (
                                        map_cleared.revealed_tiles[t as int] || exists|j: int|
                                            0 <= j < k && vs.visible_tiles@[j] == t)),
                                decreases m - k,
                            {
                                let idx = vs.visible_tiles[k];
                                map.visible_tiles[idx] = true;
                                map.revealed_tiles[idx] = true;
                                k = k + 1;
                            }
                            proof {
                                assert forall|t: usize| t < area implies (map.visible_tiles[t as int]
                                    == vs.visible_tiles@.contains(t) && map.revealed_tiles[t as int]
                                    == (map_cleared.revealed_tiles[t as int]
                                    || vs.visible_tiles@.contains(t))) by {
                                    if vs.visible_tiles@.contains(t) {
                                        let j = choose|j: int|
                                            0 <= j < vs.visible_tiles@.len()
                                                && vs.visible_tiles@[j] == t;
                                        assert(0 <= j < m && vs.visible_tiles@[j] == t);
                                    }
                                }
                            }
                        },
                        None => {},
                    }
                }
                proof {
                    assert(sight_same(map_before, *map));
                    lemma_fov_congruent(
                        map_before,
                        *map,
                        px as int,
                        py as int,
                        range as int,
                        fov_seq,
                    );
                    assert forall|k: int|
                        0 <= k < i && recompute_due(ents0, k) implies viewshed_recomputed(
                        *map,
                        ents0,
                        *ents,
                        k,
                    ) by {
                        assert(viewshed_recomputed(map_before, ents0, *ents, k));
                        lemma_fov_congruent(
                            map_before,
                            *map,
                            ents0.positions[k]->Some_0.x as int,
                            ents0.positions[k]->Some_0.y as int,
                            ents0.viewsheds[k]->Some_0.range as int,
                            ents.viewsheds[k]->Some_0.visible_tiles@,
                        );
                    }
                }
            }
            i = i + 1;
        }
    }
}

} // verus!
