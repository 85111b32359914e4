use chickenwire::hexgrid::HexGrid;
use vstd::prelude::*;

use crate::coord::HexCoord;
use crate::hexgrid::{grid_accepts, grid_get, grid_tiles, HEXGRID_RADIUS};
use crate::mapfile::{full_map, is_full_map, lemma_map_order, map_cells, map_order};
use crate::tile::{Terrain, Tile};
use crate::units::Unit;

verus! {

/// A sprite to draw: the hex it stands on and its cell in the sprite sheet.
#[derive(Clone, Copy, Debug, PartialEq, Eq, Structural)]
pub struct SpriteCell {
    pub hex: HexCoord,
    pub sheet_x: u32,
    pub sheet_y: u32,
}

/// Sprite-sheet cell of a terrain: coast (3, 0), plain (4, 0),
/// mountain (0, 0), forest (2, 0).
pub open spec fn spec_terrain_sprite(t: Terrain) -> (u32, u32) {
    match t {
        Terrain::Coast => (3, 0),
        Terrain::Plain => (4, 0),
        Terrain::Mountain => (0, 0),
        Terrain::Forest => (2, 0),
    }
}

/// Sprite-sheet cell of a unit by its name: a tank (5, 0), a helicopter
/// (6, 0), anything else (1, 0).
pub open spec fn spec_unit_sprite(name: Seq<char>) -> (u32, u32) {
    if name == "Tank"@ {
        (5, 0)
    } else if name == "Helicopter"@ {
        (6, 0)
    } else {
        (1, 0)
    }
}

/// Sprite-sheet cell of a health bar: (0, 1) for player 1, (1, 1) for
/// any other player.
pub open spec fn spec_healthbar_sprite(player_num: usize) -> (u32, u32) {
    if player_num == 1 {
        (0, 1)
    } else {
        (1, 1)
    }
}

/// The sprite-sheet cell drawn for a terrain.
pub fn terrain_sprite_index(t: Terrain) -> (idx: (u32, u32))
    ensures
        idx == spec_terrain_sprite(t),
{
    match t {
        Terrain::Coast => (3, 0),
        Terrain::Plain => (4, 0),
        Terrain::Mountain => (0, 0),
        Terrain::Forest => (2, 0),
    }
}

/// The sprite-sheet cell drawn for a unit with the given name.
pub fn unit_sprite_index(name: &String) -> (idx: (u32, u32))
    ensures
        idx == spec_unit_sprite(name@),
{
    if *name == "Tank".to_owned() {
        (5, 0)
    } else if *name == "Helicopter".to_owned() {
        (6, 0)
    } else {
        (1, 0)
    }
}

/// The sprite-sheet cell drawn for the health bars of a player's units.
pub fn healthbar_sprite_index(player_num: usize) -> (idx: (u32, u32))
    ensures
        idx == spec_healthbar_sprite(player_num),
{
    if player_num == 1 {
        (0, 1)
    } else {
        (1, 1)
    }
}

/// The map's sprites: one per hex, in scan order, each showing the sprite of
/// the hex's terrain. Every hex of the map must be present in the grid.
pub fn hexgrid_sprite_cells(hexgrid: &HexGrid<Tile>) -> (cells: Vec<SpriteCell>)
    requires
        full_map(grid_tiles(*hexgrid)),
    ensures
        cells@.len() == map_order().len(),
        forall|i: int|
            0 <= i < cells@.len() ==> {
                let cell = #[trigger] cells@[i];
                let idx = spec_terrain_sprite(grid_tiles(*hexgrid)[map_order()[i]].terrain);
                &&& cell.hex == map_order()[i]
                &&& cell.sheet_x == idx.0
                &&& cell.sheet_y == idx.1
            },
{
    proof {
        lemma_map_order();
    }
    let hexes = map_cells();
    let mut cells: Vec<SpriteCell> = Vec::new();
    let mut k: usize = 0;
    while k < hexes.len()
        invariant
            hexes@ == map_order(),
            k <= hexes.len(),
            cells@.len() == k,
            forall|c: HexCoord| c.in_disk(10) ==> grid_tiles(*hexgrid).dom().contains(c),
            forall|i: int| 0 <= i < map_order().len() ==> #[trigger] map_order()[i].in_disk(10),
            forall|i: int| 0 <= i < map_order().len() ==> grid_accepts(#[trigger] map_order()[i]),
            forall|i: int|
                0 <= i < k ==> {
                    let cell = #[trigger] cells@[i];
                    let idx = spec_terrain_sprite(grid_tiles(*hexgrid)[map_order()[i]].terrain);
                    &&& cell.hex == map_order()[i]
                    &&& cell.sheet_x == idx.0
                    &&& cell.sheet_y == idx.1
                },
        decreases hexes.len() - k,
    {
        let hex = hexes[k];
        assert(map_order()[k as int].in_disk(10));
        assert(grid_accepts(map_order()[k as int]));
        let tile = grid_get(hexgrid, hex).unwrap();
        let (sheet_x, sheet_y) = terrain_sprite_index(tile.terrain);
        cells.push(SpriteCell { hex, sheet_x, sheet_y });
        k = k + 1;
    }
    cells
}

/// The map's sprites, as `hexgrid_sprite_cells` gives them, if the grid holds
/// every hex of the map; `None` otherwise.
pub fn try_hexgrid_sprite_cells(hexgrid: &HexGrid<Tile>) -> (cells: Option<Vec<SpriteCell>>)
    ensures
        cells is Some <==> full_map(grid_tiles(*hexgrid)),
        cells matches Some(v) ==> {
            &&& v@.len() == map_order().len()
            &&& forall|i: int|
                0 <= i < v@.len() ==> {
                    let cell = #[trigger] v@[i];
                    let idx = spec_terrain_sprite(grid_tiles(*hexgrid)[map_order()[i]].terrain);
                    &&& cell.hex == map_order()[i]
                    &&& cell.sheet_x == idx.0
                    &&& cell.sheet_y == idx.1
                }
        },
{
    if is_full_map(hexgrid) {
        Some(hexgrid_sprite_cells(hexgrid))
    } else {
        None
    }
}

/// The units' sprites: one per unit, in list order, each on the unit's hex
/// and showing the sprite of the unit's kind.
pub fn units_sprite_cells(units: &Vec<Unit>) -> (cells: Vec<SpriteCell>)
    ensures
        cells@.len() == units@.len(),
        forall|i: int|
            0 <= i < cells@.len() ==> {
                let cell = #[trigger] cells@[i];
                let idx = spec_unit_sprite(units@[i].name@);
                &&& cell.hex == units@[i].location
                &&& cell.sheet_x == idx.0
                &&& cell.sheet_y == idx.1
            },
{
    let mut cells: Vec<SpriteCell> = Vec::new();
    let mut k: usize = 0;
    while k < units.len()
        invariant
            k <= units.len(),
            cells@.len() == k,
            forall|i: int|
                0 <= i < k ==> {
                    let cell = #[trigger] cells@[i];
                    let idx = spec_unit_sprite(units@[i].name@);
                    &&& cell.hex == units@[i].location
                    &&& cell.sheet_x == idx.0
                    &&& cell.sheet_y == idx.1
                },
        decreases units.len() - k,
    {
        let (sheet_x, sheet_y) = unit_sprite_index(&units[k].name);
        cells.push(SpriteCell { hex: units[k].location, sheet_x, sheet_y });
        k = k + 1;
    }
    cells
}

/// Snaps rounded fractional cube coordinates back onto the plane
/// `q + r + s == 0`: the coordinate with the largest rounding difference
/// (`q` if its difference exceeds both others, else `r` if it exceeds `s`'s,
/// else `s`) is recomputed from the other two.
pub fn round_cube(q_int: i32, r_int: i32, s_int: i32, q_diff: i32, r_diff: i32, s_diff: i32) -> (c: (
    i32,
    i32,
    i32,
))
    requires
        q_diff > r_diff && q_diff > s_diff ==> r_int > i32::MIN && i32::MIN <= -r_int - s_int
            <= i32::MAX,
        !(q_diff > r_diff && q_diff > s_diff) && r_diff > s_diff ==> q_int > i32::MIN && i32::MIN
            <= -q_int - s_int <= i32::MAX,
        !(q_diff > r_diff && q_diff > s_diff) && !(r_diff > s_diff) ==> q_int > i32::MIN
            && i32::MIN <= -q_int - r_int <= i32::MAX,
    ensures
        c == if q_diff > r_diff && q_diff > s_diff {
            ((-r_int - s_int) as i32, r_int, s_int)
        } else if r_diff > s_diff {
            (q_int, (-q_int - s_int) as i32, s_int)
        } else {
            (q_int, r_int, (-q_int - r_int) as i32)
        },
        c.0 + c.1 + c.2 == 0,
{
    let mut q = q_int;
    let mut r = r_int;
    let mut s = s_int;
    if q_diff > r_diff && q_diff > s_diff {
        q = -r - s;
    } else if r_diff > s_diff {
        r = -q - s;
    } else {
        s = -q - r;
    }
    (q, r, s)
}

} // verus!
