use chickenwire::hexgrid::HexGrid;
use vstd::prelude::*;

use crate::coord::{abs, neighbors_fit, HexCoord};
use crate::hexgrid::{
    create_hexgrid, grid_accepts, grid_get, grid_set, grid_tiles, radial_tiles, HEXGRID_RADIUS,
};
use crate::tile::{Terrain, Tile};

verus! {

/// Number of hexes on the game map, and so of bytes in a map file.
pub const MAP_CELL_COUNT: usize = 331;

/// The hexes of row `q` with `r` below `hi`, in increasing `r`: the positions
/// `(q, r, -q - r)` with `-10 <= r < hi` whose third coordinate is within
/// the map radius.
pub open spec fn row_cells(q: int, hi: int) -> Seq<HexCoord>
    decreases hi + 10,
{
    if hi <= -10 {
        seq![]
    } else {
        let r = hi - 1;
        let s = -q - r;
        let rest = row_cells(q, hi - 1);
        if -10 <= s <= 10 {
            rest.push(HexCoord { q: q as i32, r: r as i32, s: s as i32 })
        } else {
            rest
        }
    }
}

/// The rows `-10 <= q < hi` of the map, one after the other.
pub open spec fn rows_below(hi: int) -> Seq<HexCoord>
    decreases hi + 10,
{
    if hi <= -10 {
        seq![]
    } else {
        rows_below(hi - 1) + row_cells(hi - 1, 11)
    }
}

/// The order in which a map is scanned when it is drawn, saved or loaded:
/// by increasing `q`, and within a row by increasing `r`.
pub open spec fn map_order() -> Seq<HexCoord> {
    rows_below(11)
}

/// `a` comes strictly before `b` in scan order.
pub open spec fn scan_before(a: HexCoord, b: HexCoord) -> bool {
    a.q < b.q || (a.q == b.q && a.r < b.r)
}

/// Number of hexes in the rows `-10 <= q < hi`.
pub open spec fn rows_count(hi: int) -> int
    decreases hi + 10,
{
    if hi <= -10 {
        0
    } else {
        rows_count(hi - 1) + 21 - abs(hi - 1)
    }
}

proof fn lemma_row_cells(q: int, hi: int)
    requires
        -10 <= q <= 10,
        -10 <= hi <= 11,
    ensures
        forall|i: int|
            0 <= i < row_cells(q, hi).len() ==> {
                let e = #[trigger] row_cells(q, hi)[i];
                &&& e.q == q
                &&& -10 <= e.r < hi
                &&& e.s == -q - e.r
                &&& -10 <= e.s <= 10
            },
        forall|i: int, j: int|
            0 <= i < j < row_cells(q, hi).len() ==> row_cells(q, hi)[i].r < row_cells(q, hi)[j].r,
        forall|c: HexCoord|
            c.q == q && -10 <= c.r < hi && c.on_plane() && -10 <= c.s <= 10 ==> row_cells(
                q,
                hi,
            ).contains(c),
        row_cells(q, hi).len() == vstd::math::max(
            0,
            vstd::math::min(hi - 1, 10 - q) - vstd::math::max(-10, -10 - q) + 1,
        ),
    decreases hi + 10,
{
    if hi > -10 {
        lemma_row_cells(q, hi - 1);
        let rest = row_cells(q, hi - 1);
        let r = hi - 1;
        let s = -q - r;
        if -10 <= s <= 10 {
            let e = HexCoord { q: q as i32, r: r as i32, s: s as i32 };
            assert(row_cells(q, hi) == rest.push(e));
            assert forall|c: HexCoord|
                c.q == q && -10 <= c.r < hi && c.on_plane() && -10 <= c.s <= 10 implies row_cells(
                    q,
                    hi,
                ).contains(c) by {
                if c.r == r {
                    assert(c == e);
                    assert(row_cells(q, hi)[rest.len() as int] == e);
                } else {
                    let k = choose|k: int| 0 <= k < rest.len() && rest[k] == c;
                    assert(row_cells(q, hi)[k] == c);
                }
            }
        } else {
            assert forall|c: HexCoord|
                c.q == q && -10 <= c.r < hi && c.on_plane() && -10 <= c.s <= 10 implies row_cells(
                    q,
                    hi,
                ).contains(c) by {
                assert(c.r != r);
            }
        }
    }
}

proof fn lemma_rows_below(hi: int)
    requires
        -10 <= hi <= 11,
    ensures
        forall|i: int|
            0 <= i < rows_below(hi).len() ==> {
                let e = #[trigger] rows_below(hi)[i];
                &&& -10 <= e.q < hi
                &&& e.in_disk(10)
                &&& grid_accepts(e)
            },
        forall|i: int, j: int|
            0 <= i < j < rows_below(hi).len() ==> scan_before(rows_below(hi)[i], rows_below(hi)[j]),
        forall|c: HexCoord| c.in_disk(10) && c.q < hi ==> rows_below(hi).contains(c),
        rows_below(hi).len() == rows_count(hi),
    decreases hi + 10,
{
    if hi > -10 {
        lemma_rows_below(hi - 1);
        lemma_row_cells(hi - 1, 11);
        let a = rows_below(hi - 1);
        let b = row_cells(hi - 1, 11);
        assert(rows_below(hi) == a + b);
        assert forall|i: int| 0 <= i < rows_below(hi).len() implies {
            let e = #[trigger] rows_below(hi)[i];
            &&& -10 <= e.q < hi
            &&& e.in_disk(10)
            &&& grid_accepts(e)
        } by {
            if i >= a.len() {
                assert(rows_below(hi)[i] == b[i - a.len()]);
            } else {
                assert(rows_below(hi)[i] == a[i]);
            }
        }
        assert forall|i: int, j: int|
            0 <= i < j < rows_below(hi).len() implies scan_before(
            rows_below(hi)[i],
            rows_below(hi)[j],
        ) by {
            if j < a.len() {
                assert(rows_below(hi)[i] == a[i]);
                assert(rows_below(hi)[j] == a[j]);
            } else if i >= a.len() {
                assert(rows_below(hi)[i] == b[i - a.len()]);
                assert(rows_below(hi)[j] == b[j - a.len()]);
            } else {
                assert(rows_below(hi)[i] == a[i]);
                assert(rows_below(hi)[j] == b[j - a.len()]);
            }
        }
        assert forall|c: HexCoord| c.in_disk(10) && c.q < hi implies rows_below(hi).contains(c) by {
            if c.q == hi - 1 {
                let k = choose|k: int| 0 <= k < b.len() && b[k] == c;
                assert(rows_below(hi)[a.len() + k] == c);
            } else {
                let k = choose|k: int| 0 <= k < a.len() && a[k] == c;
                assert(rows_below(hi)[k] == c);
            }
        }
    }
}

/// Facts about the scan order: it lists every hex of the map exactly once,
/// each a valid map position, in strictly increasing scan order.
pub proof fn lemma_map_order()
    ensures
        map_order().len() == MAP_CELL_COUNT,
        forall|i: int|
            0 <= i < map_order().len() ==> #[trigger] map_order()[i].in_disk(HEXGRID_RADIUS as int),
        forall|i: int| 0 <= i < map_order().len() ==> grid_accepts(#[trigger] map_order()[i]),
        forall|i: int, j: int|
            0 <= i < j < map_order().len() ==> scan_before(map_order()[i], map_order()[j]),
        forall|c: HexCoord| c.in_disk(HEXGRID_RADIUS as int) ==> map_order().contains(c),
        map_order().no_duplicates(),
{
    lemma_rows_below(11);
    reveal_with_fuel(rows_count, 22);
    assert(rows_count(11) == 331);
    assert forall|i: int, j: int|
        0 <= i < map_order().len() && 0 <= j < map_order().len() && i != j implies map_order()[i]
        != map_order()[j] by {
        if i < j {
            assert(scan_before(map_order()[i], map_order()[j]));
        } else {
            assert(scan_before(map_order()[j], map_order()[i]));
        }
    }
}

/// Lists the hexes of the map in scan order.
pub fn map_cells() -> (cells: Vec<HexCoord>)
    ensures
        cells@ == map_order(),
{
    let mut cells: Vec<HexCoord> = Vec::new();
    let mut q: i32 = -HEXGRID_RADIUS;
    while q <= HEXGRID_RADIUS
        invariant
            -10 <= q <= 11,
            cells@ == rows_below(q as int),
        decreases 11 - q,
    {
        let mut r: i32 = -HEXGRID_RADIUS;
        while r <= HEXGRID_RADIUS
            invariant
                -10 <= q <= 10,
                -10 <= r <= 11,
                cells@ == rows_below(q as int) + row_cells(q as int, r as int),
            decreases 11 - r,
        {
            let s: i32 = -q - r;
            if -HEXGRID_RADIUS <= s && s <= HEXGRID_RADIUS {
                cells.push(HexCoord { q, r, s });
            }
            assert(row_cells(q as int, r + 1) == if -10 <= -q - r <= 10 {
                row_cells(q as int, r as int).push(HexCoord { q, r, s: (-q - r) as i32 })
            } else {
                row_cells(q as int, r as int)
            });
            r = r + 1;
        }
        assert(rows_below(q + 1) == rows_below(q as int) + row_cells(q as int, 11));
        q = q + 1;
    }
    cells
}

/// The byte that stands for a terrain in a map file.
pub open spec fn terrain_code(t: Terrain) -> u8 {
    match t {
        Terrain::Coast => 67u8,
        Terrain::Plain => 80u8,
        Terrain::Mountain => 77u8,
        Terrain::Forest => 70u8,
    }
}

/// The terrain a map-file byte stands for, if any.
pub open spec fn code_terrain(b: u8) -> Option<Terrain> {
    if b == 67u8 {
        Some(Terrain::Coast)
    } else if b == 80u8 {
        Some(Terrain::Plain)
    } else if b == 77u8 {
        Some(Terrain::Mountain)
    } else if b == 70u8 {
        Some(Terrain::Forest)
    } else {
        None
    }
}

/// The map file written for a grid: one terrain byte per hex, in scan order.
pub open spec fn spec_encode(tiles: Map<HexCoord, Tile>) -> Seq<u8> {
    map_order().map_values(|c: HexCoord| terrain_code(tiles[c].terrain))
}

/// A coast tile with no unit on it: what a fresh map holds everywhere.
pub open spec fn blank_tile() -> Tile {
    Tile { terrain: Terrain::Coast, occupied: false }
}

/// The grid read from the first `k` bytes of a map file: a fresh map, then
/// for each of those bytes in scan order, the hex set to a new tile of the
/// byte's terrain; a byte that names no terrain leaves its hex as it was.
pub open spec fn decode_prefix(bytes: Seq<u8>, k: int) -> Map<HexCoord, Tile>
    decreases k,
{
    if k <= 0 {
        radial_tiles(HEXGRID_RADIUS as int, blank_tile())
    } else {
        let m = decode_prefix(bytes, k - 1);
        match code_terrain(bytes[k - 1]) {
            Some(t) => m.insert(map_order()[k - 1], Tile { terrain: t, occupied: false }),
            None => m,
        }
    }
}

/// The grid read from a map file.
pub open spec fn spec_decode(bytes: Seq<u8>) -> Map<HexCoord, Tile> {
    decode_prefix(bytes, MAP_CELL_COUNT as int)
}

/// Writes a grid as map-file bytes: one terrain byte per hex, in scan order.
/// Every hex of the map must be present in the grid.
pub fn encode_hexgrid(hexgrid: &HexGrid<Tile>) -> (bytes: Vec<u8>)
    requires
        full_map(grid_tiles(*hexgrid)),
    ensures
        bytes@ == spec_encode(grid_tiles(*hexgrid)),
{
    proof {
        lemma_map_order();
    }
    let cells = map_cells();
    let mut bytes: Vec<u8> = Vec::new();
    let mut k: usize = 0;
    while k < cells.len()
        invariant
            cells@ == map_order(),
            k <= cells.len(),
            forall|c: HexCoord| c.in_disk(10) ==> grid_tiles(*hexgrid).dom().contains(c),
            forall|i: int| 0 <= i < map_order().len() ==> #[trigger] map_order()[i].in_disk(10),
            forall|i: int| 0 <= i < map_order().len() ==> grid_accepts(#[trigger] map_order()[i]),
            bytes@ == map_order().take(k as int).map_values(
                |c: HexCoord| terrain_code(grid_tiles(*hexgrid)[c].terrain),
            ),
        decreases cells.len() - k,
    {
        let c = cells[k];
        assert(map_order()[k as int].in_disk(HEXGRID_RADIUS as int));
        assert(grid_accepts(map_order()[k as int]));
        let tile = grid_get(hexgrid, c).unwrap();
        let code: u8 = match tile.terrain {
            Terrain::Coast => 67u8,
            Terrain::Plain => 80u8,
            Terrain::Mountain => 77u8,
            Terrain::Forest => 70u8,
        };
        bytes.push(code);
        assert(map_order().take(k + 1) == map_order().take(k as int).push(c));
        k = k + 1;
    }
    assert(map_order().take(k as int) == map_order());
    bytes
}

/// Reads a grid from map-file bytes: a fresh map whose hexes, in scan order,
/// take the terrain of the matching byte; bytes that name no terrain leave
/// their hex as coast. Needs at least one byte per hex.
pub fn decode_hexgrid(bytes: &[u8]) -> (hexgrid: HexGrid<Tile>)
    requires
        bytes@.len() >= MAP_CELL_COUNT,
    ensures
        grid_tiles(hexgrid) == spec_decode(bytes@),
{
    proof {
        lemma_map_order();
    }
    let cells = map_cells();
    let mut new_hexgrid = create_hexgrid();
    let mut k: usize = 0;
    while k < cells.len()
        invariant
            cells@ == map_order(),
            cells@.len() == MAP_CELL_COUNT,
            bytes@.len() >= MAP_CELL_COUNT,
            k <= cells.len(),
            forall|i: int| 0 <= i < map_order().len() ==> grid_accepts(#[trigger] map_order()[i]),
            forall|i: int| 0 <= i < map_order().len() ==> #[trigger] map_order()[i].in_disk(10),
            grid_tiles(new_hexgrid) == decode_prefix(bytes@, k as int),
        decreases cells.len() - k,
    {
        let c = cells[k];
        assert(grid_accepts(map_order()[k as int]));
        assert(map_order()[k as int].in_disk(10));
        assert(neighbors_fit(c));
        let b: u8 = bytes[k];
        if b == 67u8 {
            grid_set(&mut new_hexgrid, c, Tile::new(Terrain::Coast));
        } else if b == 80u8 {
            grid_set(&mut new_hexgrid, c, Tile::new(Terrain::Plain));
        } else if b == 77u8 {
            grid_set(&mut new_hexgrid, c, Tile::new(Terrain::Mountain));
        } else if b == 70u8 {
            grid_set(&mut new_hexgrid, c, Tile::new(Terrain::Forest));
        }
        k = k + 1;
    }
    new_hexgrid
}

/// The grid holds every hex of the game map.
pub open spec fn full_map(tiles: Map<HexCoord, Tile>) -> bool {
    forall|c: HexCoord| c.in_disk(HEXGRID_RADIUS as int) ==> tiles.dom().contains(c)
}

/// Whether the grid holds every hex of the game map.
pub fn is_full_map(hexgrid: &HexGrid<Tile>) -> (b: bool)
    ensures
        b == full_map(grid_tiles(*hexgrid)),
{
    proof {
        lemma_map_order();
    }
    let cells = map_cells();
    let mut k: usize = 0;
    while k < cells.len()
        invariant
            cells@ == map_order(),
            k <= cells.len(),
            forall|i: int| 0 <= i < map_order().len() ==> grid_accepts(#[trigger] map_order()[i]),
            forall|i: int| 0 <= i < map_order().len() ==> #[trigger] map_order()[i].in_disk(10),
            forall|i: int| 0 <= i < k ==> grid_tiles(*hexgrid).dom().contains(#[trigger] map_order()[i]),
        decreases cells.len() - k,
    {
        assert(grid_accepts(map_order()[k as int]));
        if grid_get(hexgrid, cells[k]).is_none() {
            proof {
                assert(map_order()[k as int].in_disk(10));
            }
            return false;
        }
        k = k + 1;
    }
    proof {
        assert forall|c: HexCoord| c.in_disk(HEXGRID_RADIUS as int) implies grid_tiles(*hexgrid).dom().contains(c) by {
            assert(map_order().contains(c));
        }
    }
    true
}

/// Writes a grid as map-file bytes if it holds every hex of the game map;
/// `None` otherwise.
pub fn try_encode_hexgrid(hexgrid: &HexGrid<Tile>) -> (bytes: Option<Vec<u8>>)
    ensures
        bytes is Some <==> full_map(grid_tiles(*hexgrid)),
        bytes matches Some(b) ==> b@ == spec_encode(grid_tiles(*hexgrid)),
{
    if is_full_map(hexgrid) {
        Some(encode_hexgrid(hexgrid))
    } else {
        None
    }
}

/// The tile a map file gives to hex `c`: a fresh tile of the terrain named
/// by the byte at `c`'s place in scan order, or a blank tile if that byte
/// names no terrain.
pub open spec fn decoded_tile(bytes: Seq<u8>, c: HexCoord) -> Tile {
    match code_terrain(bytes[map_order().index_of(c)]) {
        Some(t) => Tile { terrain: t, occupied: false },
        None => blank_tile(),
    }
}

proof fn lemma_decode_prefix(bytes: Seq<u8>, k: int)
    requires
        0 <= k <= MAP_CELL_COUNT,
    ensures
        decode_prefix(bytes, k) == Map::new(
            |c: HexCoord| c.in_disk(10),
            |c: HexCoord|
                if map_order().index_of(c) < k {
                    decoded_tile(bytes, c)
                } else {
                    blank_tile()
                },
        ),
    decreases k,
{
    lemma_map_order();
    let order = map_order();
    assert forall|c: HexCoord| c.in_disk(10) implies 0 <= #[trigger] order.index_of(c) < order.len()
        && order[order.index_of(c)] == c by {
        assert(order.contains(c));
    }
    if k > 0 {
        lemma_decode_prefix(bytes, k - 1);
        let e = order[k - 1];
        assert(e.in_disk(10));
        assert(order.index_of(e) == k - 1) by {
            let j = order.index_of(e);
            assert(order[j] == e);
            if j != k - 1 {
                assert(order[j] != order[k - 1]);
            }
        }
        let lhs = decode_prefix(bytes, k);
        let rhs = Map::new(
            |c: HexCoord| c.in_disk(10),
            |c: HexCoord|
                if order.index_of(c) < k {
                    decoded_tile(bytes, c)
                } else {
                    blank_tile()
                },
        );
        assert forall|c: HexCoord| #[trigger] lhs.dom().contains(c) <==> rhs.dom().contains(c) by {}
        assert forall|c: HexCoord| lhs.dom().contains(c) implies #[trigger] lhs[c] == rhs[c] by {
            if c != e {
                assert(order.index_of(c) != k - 1);
            }
        }
        assert(lhs =~= rhs);
    } else {
        assert(decode_prefix(bytes, 0) =~= Map::new(
            |c: HexCoord| c.in_disk(10),
            |c: HexCoord|
                if map_order().index_of(c) < 0 {
                    decoded_tile(bytes, c)
                } else {
                    blank_tile()
                },
        ));
    }
}

/// The grid read from a map file holds every hex of the map and nothing
/// else; each hex holds the tile its byte names, or a blank coast tile.
pub proof fn lemma_decode_tiles(bytes: Seq<u8>)
    ensures
        spec_decode(bytes) == Map::new(
            |c: HexCoord| c.in_disk(HEXGRID_RADIUS as int),
            |c: HexCoord| decoded_tile(bytes, c),
        ),
{
    lemma_map_order();
    lemma_decode_prefix(bytes, MAP_CELL_COUNT as int);
    let order = map_order();
    assert forall|c: HexCoord| c.in_disk(10) implies #[trigger] order.index_of(c) < MAP_CELL_COUNT by {
        assert(order.contains(c));
    }
    assert(spec_decode(bytes) =~= Map::new(
        |c: HexCoord| c.in_disk(HEXGRID_RADIUS as int),
        |c: HexCoord| decoded_tile(bytes, c),
    ));
}

/// Saving a map and loading the file again gives back the terrain of every
/// hex, with no unit on it; a map that holds exactly the hexes of the game
/// map, all unoccupied, comes back unchanged.
pub proof fn lemma_load_after_save(tiles: Map<HexCoord, Tile>)
    requires
        forall|c: HexCoord| c.in_disk(HEXGRID_RADIUS as int) ==> tiles.dom().contains(c),
    ensures
        spec_decode(spec_encode(tiles)) == Map::new(
            |c: HexCoord| c.in_disk(HEXGRID_RADIUS as int),
            |c: HexCoord| Tile { terrain: tiles[c].terrain, occupied: false },
        ),
        (forall|c: HexCoord| tiles.dom().contains(c) <==> c.in_disk(HEXGRID_RADIUS as int)) && (
        forall|c: HexCoord| tiles.dom().contains(c) ==> !(#[trigger] tiles[c]).occupied)
            ==> spec_decode(spec_encode(tiles)) == tiles,
{
    lemma_map_order();
    lemma_decode_tiles(spec_encode(tiles));
    let order = map_order();
    let bytes = spec_encode(tiles);
    let expect = Map::new(
        |c: HexCoord| c.in_disk(HEXGRID_RADIUS as int),
        |c: HexCoord| Tile { terrain: tiles[c].terrain, occupied: false },
    );
    assert forall|c: HexCoord| c.in_disk(10) implies decoded_tile(bytes, c) == #[trigger] expect[c] by {
        assert(order.contains(c));
        let i = order.index_of(c);
        assert(order[i] == c);
        assert(bytes[i] == terrain_code(tiles[c].terrain));
    }
    assert(spec_decode(bytes) =~= expect);
    if (forall|c: HexCoord| tiles.dom().contains(c) <==> c.in_disk(HEXGRID_RADIUS as int)) && (
    forall|c: HexCoord| tiles.dom().contains(c) ==> !(#[trigger] tiles[c]).occupied) {
        assert forall|c: HexCoord| tiles.dom().contains(c) implies #[trigger] tiles[c] == expect[c] by {
            assert(!tiles[c].occupied);
        }
        assert(expect =~= tiles);
    }
}

/// Loading a map file and saving the map again gives back the file's first
/// `MAP_CELL_COUNT` bytes, each byte that names no terrain replaced by the
/// coast byte; a file made only of terrain bytes comes back unchanged.
pub proof fn lemma_save_after_load(bytes: Seq<u8>)
    requires
        bytes.len() >= MAP_CELL_COUNT,
    ensures
        spec_encode(spec_decode(bytes)) == Seq::new(
            MAP_CELL_COUNT as nat,
            |i: int|
                if code_terrain(bytes[i]) is Some {
                    bytes[i]
                } else {
                    67u8
                },
        ),
        (forall|i: int| 0 <= i < MAP_CELL_COUNT ==> code_terrain(#[trigger] bytes[i]) is Some)
            ==> spec_encode(spec_decode(bytes)) == bytes.take(MAP_CELL_COUNT as int),
{
    lemma_map_order();
    lemma_decode_tiles(bytes);
    let order = map_order();
    let m = spec_decode(bytes);
    let out = spec_encode(m);
    let expect = Seq::new(
        MAP_CELL_COUNT as nat,
        |i: int|
            if code_terrain(bytes[i]) is Some {
                bytes[i]
            } else {
                67u8
            },
    );
    assert forall|i: int| 0 <= i < MAP_CELL_COUNT implies #[trigger] out[i] == expect[i] by {
        let c = order[i];
        assert(c.in_disk(10));
        assert(order.contains(c));
        let j = order.index_of(c);
        assert(order[j] == c);
        if j != i {
            assert(order[j] != order[i]);
        }
        assert(m[c] == decoded_tile(bytes, c));
    }
    assert(out =~= expect);
    if forall|i: int| 0 <= i < MAP_CELL_COUNT ==> code_terrain(#[trigger] bytes[i]) is Some {
        assert(expect =~= bytes.take(MAP_CELL_COUNT as int));
    }
}

} // verus!
