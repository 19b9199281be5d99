//! Entity spawners: the player, the Moonshot NPC, and a closed door,
//! each created with exactly the components the systems query for.

use vstd::prelude::*;
use vstd::string::StringExecFns;
use crate::components::{Door, Entities, Position, Renderable, Rgb, Viewshed};

verus! {

/// Spawn the player-controlled entity at (x, y): position, renderable,
/// player marker, name and a dirty 8-tile viewshed. Requires that no
/// player exists yet, so the world keeps a single designated viewer.
pub fn player(ents: &mut Entities, x: i32, y: i32) -> (id: usize)
    requires
        old(ents).wf(),
        forall|i: int| 0 <= i < old(ents).n() ==> !(#[trigger] old(ents).players[i]),
    ensures
        final(ents).wf(),
        final(ents).n() == old(ents).n() + 1,
        id == old(ents).n(),
        final(ents).positions@ == old(ents).positions@.push(Some(Position { x, y })),
        final(ents).viewsheds[id as int] matches Some(vs) && vs.range == 8 && vs.dirty
            && vs.visible_tiles@.len() == 0,
        final(ents).players@ == old(ents).players@.push(true),
        final(ents).moonshots@ == old(ents).moonshots@.push(false),
        final(ents).blocks_tile@ == old(ents).blocks_tile@.push(false),
        final(ents).blocks_visibility@ == old(ents).blocks_visibility@.push(false),
        final(ents).doors@ == old(ents).doors@.push(None),
        forall|j: int|
            0 <= j < old(ents).n() ==> #[trigger] final(ents).names[j] == old(ents).names[j],
        forall|j: int|
            0 <= j < old(ents).n() ==> #[trigger] final(ents).renderables[j] == old(
                ents,
            ).renderables[j],
        forall|j: int|
            0 <= j < old(ents).n() ==> #[trigger] final(ents).viewsheds[j] == old(
                ents,
            ).viewsheds[j],
        final(ents).names[id as int] matches Some(nm) && nm@ == "Player"@,
        final(ents).renderables[id as int] == (Some(
            Renderable {
                glyph: '@',
                fg: Rgb { r: 255, g: 255, b: 0 },
                bg: Rgb { r: 0, g: 0, b: 0 },
                render_order: 0,
            },
        )),
        final(ents).at_most_one_player(),
        old(ents).viewsheds_wf() ==> final(ents).viewsheds_wf(),
{
    let id = ents.spawn_empty();
    ents.positions[id] = Some(Position { x, y });
    ents.renderables[id] = Some(
        Renderable {
            glyph: '@',
            fg: Rgb { r: 255, g: 255, b: 0 },
            bg: Rgb { r: 0, g: 0, b: 0 },
            render_order: 0,
        },
    );
    ents.players[id] = true;
    ents.names[id] = Some(String::from_str("Player"));
    ents.viewsheds[id] = Some(Viewshed { visible_tiles: Vec::new(), range: 8, dirty: true });
    id
}

/// Spawn the Moonshot NPC at (x, y): position, renderable, NPCBehavior
/// and BlocksMovement markers, name and a dirty 12-tile viewshed.
pub fn moonshot(ents: &mut Entities, x: i32, y: i32) -> (id: usize)
    requires
        old(ents).wf(),
    ensures
        final(ents).wf(),
        final(ents).n() == old(ents).n() + 1,
        id == old(ents).n(),
        final(ents).positions@ == old(ents).positions@.push(Some(Position { x, y })),
        final(ents).viewsheds[id as int] matches Some(vs) && vs.range == 12 && vs.dirty
            && vs.visible_tiles@.len() == 0,
        final(ents).players@ == old(ents).players@.push(false),
        final(ents).moonshots@ == old(ents).moonshots@.push(true),
        final(ents).blocks_tile@ == old(ents).blocks_tile@.push(true),
        final(ents).blocks_visibility@ == old(ents).blocks_visibility@.push(false),
        final(ents).doors@ == old(ents).doors@.push(None),
        forall|j: int|
            0 <= j < old(ents).n() ==> #[trigger] final(ents).names[j] == old(ents).names[j],
        forall|j: int|
            0 <= j < old(ents).n() ==> #[trigger] final(ents).renderables[j] == old(
                ents,
            ).renderables[j],
        forall|j: int|
            0 <= j < old(ents).n() ==> #[trigger] final(ents).viewsheds[j] == old(
                ents,
            ).viewsheds[j],
        final(ents).names[id as int] matches Some(nm) && nm@ == "Moonshot"@,
        final(ents).renderables[id as int] == (Some(
            Renderable {
                glyph: 'm',
                fg: Rgb { r: 128, g: 0, b: 128 },
                bg: Rgb { r: 0, g: 0, b: 0 },
                render_order: 0,
            },
        )),
        old(ents).at_most_one_player() ==> final(ents).at_most_one_player(),
        old(ents).viewsheds_wf() ==> final(ents).viewsheds_wf(),
{
    let id = ents.spawn_empty();
    ents.positions[id] = Some(Position { x, y });
    ents.moonshots[id] = true;
    ents.names[id] = Some(String::from_str("Moonshot"));
    ents.blocks_tile[id] = true;
    ents.viewsheds[id] = Some(Viewshed { visible_tiles: Vec::new(), range: 12, dirty: true });
    ents.renderables[id] = Some(
        Renderable {
            glyph: 'm',
            fg: Rgb { r: 128, g: 0, b: 128 },
            bg: Rgb { r: 0, g: 0, b: 0 },
            render_order: 0,
        },
    );
    id
}

/// Spawn a closed door at (x, y): it blocks movement and sight until
/// the player action handler opens it.
pub fn door(ents: &mut Entities, x: i32, y: i32) -> (id: usize)
    requires
        old(ents).wf(),
    ensures
        final(ents).wf(),
        final(ents).n() == old(ents).n() + 1,
        id == old(ents).n(),
        final(ents).positions@ == old(ents).positions@.push(Some(Position { x, y })),
        final(ents).doors@ == old(ents).doors@.push(Some(Door { open: false })),
        final(ents).players@ == old(ents).players@.push(false),
        final(ents).moonshots@ == old(ents).moonshots@.push(false),
        final(ents).blocks_tile@ == old(ents).blocks_tile@.push(true),
        final(ents).blocks_visibility@ == old(ents).blocks_visibility@.push(true),
        final(ents).viewsheds@ == old(ents).viewsheds@.push(None),
        forall|j: int|
            0 <= j < old(ents).n() ==> #[trigger] final(ents).names[j] == old(ents).names[j],
        forall|j: int|
            0 <= j < old(ents).n() ==> #[trigger] final(ents).renderables[j] == old(
                ents,
            ).renderables[j],
        final(ents).names[id as int] matches Some(nm) && nm@ == "Door"@,
        final(ents).renderables[id as int] == (Some(
            Renderable {
                glyph: '+',
                fg: Rgb { r: 210, g: 105, b: 30 },
                bg: Rgb { r: 0, g: 0, b: 0 },
                render_order: 2,
            },
        )),
        old(ents).at_most_one_player() ==> final(ents).at_most_one_player(),
        old(ents).viewsheds_wf() ==> final(ents).viewsheds_wf(),
{
    let id = ents.spawn_empty();
    ents.positions[id] = Some(Position { x, y });
    ents.blocks_tile[id] = true;
    ents.renderables[id] = Some(
        Renderable {
            glyph: '+',
            fg: Rgb { r: 210, g: 105, b: 30 },
            bg: Rgb { r: 0, g: 0, b: 0 },
            render_order: 2,
        },
    );
    ents.names[id] = Some(String::from_str("Door"));
    ents.blocks_visibility[id] = true;
    ents.doors[id] = Some(Door { open: false });
    id
}

} // verus!
