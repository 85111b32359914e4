use chickenwire::coordinate::MultiCoord;
use chickenwire::hexgrid::HexGrid;
use vstd::prelude::*;

use crate::coord::{neighbors_fit, HexCoord};
use crate::tile::{Terrain, Tile};

verus! {

/// The grid type of the `chickenwire` crate, carried opaquely.
#[verifier::external_type_specification]
#[verifier::external_body]
#[verifier::reject_recursive_types(T)]
pub struct ExHexGrid<T>(HexGrid<T>);

/// What a hex grid of tiles holds: the tile stored at each cube position.
pub uninterp spec fn grid_tiles(g: HexGrid<Tile>) -> Map<HexCoord, Tile>;

/// Radius (in hexes from the centre) of the game map.
pub const HEXGRID_RADIUS: i32 = 10;

/// The tiles of a freshly made radial grid: `blank` at every position within
/// `radius` steps of the origin; nothing when `radius` is zero.
pub open spec fn radial_tiles(radius: int, blank: Tile) -> Map<HexCoord, Tile> {
    if radius == 0 {
        Map::empty()
    } else {
        Map::new(|c: HexCoord| c.in_disk(radius), |c: HexCoord| blank)
    }
}

/// The coordinate check that `chickenwire` applies when it builds a cube
/// position: it computes `0 - q - r` and compares it with `s`.
pub open spec fn grid_accepts(c: HexCoord) -> bool {
    c.q > i32::MIN && c.on_plane()
}

/// `HexGrid::new_radial`: the source walks `Cube::ORIGIN.spiral(radius)`,
/// that is every ring from 0 up to `radius`, and stores `blank` at each hex;
/// for `radius == 0` it stores nothing. The contract claims exactly that set
/// of positions.
#[verifier::external_body]
fn grid_new_radial(radius: u32, blank: Tile) -> (g: HexGrid<Tile>)
    requires
        radius < i32::MAX,
    ensures
        grid_tiles(g) == radial_tiles(radius as int, blank),
{
    HexGrid::new_radial(radius, blank)
}

/// `HexGrid::get` at a cube position, with the stored tile copied out:
/// `Some` of the tile stored there, `None` if the position holds nothing.
#[verifier::external_body]
pub(crate) fn grid_get(g: &HexGrid<Tile>, c: HexCoord) -> (t: Option<Tile>)
    requires
        grid_accepts(c),
    ensures
        match t {
            Some(tile) => grid_tiles(*g).dom().contains(c) && grid_tiles(*g)[c] == tile,
            None => !grid_tiles(*g).dom().contains(c),
        },
{
    g.get(MultiCoord::force_cube(c.q, c.r, c.s)).copied()
}

/// `HexGrid::set` at a cube position: stores the tile there, adding the
/// position if it was absent. The source then computes the six neighbours
/// of the position, so each of its coordinates must leave room for a step.
#[verifier::external_body]
pub(crate) fn grid_set(g: &mut HexGrid<Tile>, c: HexCoord, t: Tile)
    requires
        grid_accepts(c),
        neighbors_fit(c),
    ensures
        grid_tiles(*final(g)) == grid_tiles(*old(g)).insert(c, t),
{
    g.set(MultiCoord::force_cube(c.q, c.r, c.s), t)
}

/// `HexGrid::update` at a cube position: stores the tile and returns `Ok`
/// when the position is present; otherwise leaves the grid as it was and
/// returns `Err` with a message. The message text is not stated.
#[verifier::external_body]
pub(crate) fn grid_update(g: &mut HexGrid<Tile>, c: HexCoord, t: Tile) -> (res: Result<(), String>)
    requires
        grid_accepts(c),
    ensures
        res is Ok <==> grid_tiles(*old(g)).dom().contains(c),
        grid_tiles(*final(g)) == if grid_tiles(*old(g)).dom().contains(c) {
            grid_tiles(*old(g)).insert(c, t)
        } else {
            grid_tiles(*old(g))
        },
{
    g.update(MultiCoord::force_cube(c.q, c.r, c.s), t)
}

/// Builds the game map: a radial grid of `HEXGRID_RADIUS` filled with
/// unoccupied coast tiles.
pub fn create_hexgrid() -> (g: HexGrid<Tile>)
    ensures
        grid_tiles(g) == radial_tiles(HEXGRID_RADIUS as int, Tile { terrain: Terrain::Coast, occupied: false }),
{
    let default_tile = Tile::new(Terrain::Coast);
    let terrain_hexgrid = grid_new_radial(HEXGRID_RADIUS as u32, default_tile);
    terrain_hexgrid
}

/// Leaves the grid as it is.
pub fn set_grid_plain(grid: &mut HexGrid<Tile>)
    ensures
        grid_tiles(*final(grid)) == grid_tiles(*old(grid)),
{
}

/// The tile stored at a position of the grid, if any.
pub fn tile_at(grid: &HexGrid<Tile>, c: HexCoord) -> (t: Option<Tile>)
    requires
        grid_accepts(c),
    ensures
        match t {
            Some(tile) => grid_tiles(*grid).dom().contains(c) && grid_tiles(*grid)[c] == tile,
            None => !grid_tiles(*grid).dom().contains(c),
        },
{
    grid_get(grid, c)
}

} // verus!
