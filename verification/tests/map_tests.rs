use hexgame::coord::HexCoord;
use hexgame::hexgrid::{create_hexgrid, set_grid_plain, tile_at};
use chickenwire::hexgrid::HexGrid;
use hexgame::mapfile::{decode_hexgrid, encode_hexgrid, is_full_map, map_cells, try_encode_hexgrid, MAP_CELL_COUNT};
use hexgame::tile::{Terrain, Tile};

#[test]
fn scan_order_lists_every_hex_once() {
    let cells = map_cells();
    assert_eq!(cells.len(), 331);
    assert_eq!(cells.len(), MAP_CELL_COUNT);
    assert_eq!(cells[0], HexCoord::new(-10, 0, 10));
    assert_eq!(cells[1], HexCoord::new(-10, 1, 9));
    assert_eq!(cells[10], HexCoord::new(-10, 10, 0));
    assert_eq!(cells[11], HexCoord::new(-9, -1, 10));
    assert_eq!(cells[330], HexCoord::new(10, 0, -10));
    for w in cells.windows(2) {
        assert!(w[0].q < w[1].q || (w[0].q == w[1].q && w[0].r < w[1].r));
    }
    for c in &cells {
        assert_eq!(c.q + c.r + c.s, 0);
        assert!(c.q.abs() <= 10 && c.r.abs() <= 10 && c.s.abs() <= 10);
    }
}

#[test]
fn fresh_map_is_all_coast() {
    let grid = create_hexgrid();
    for c in map_cells() {
        assert_eq!(tile_at(&grid, c), Some(Tile::new(Terrain::Coast)));
    }
    assert_eq!(tile_at(&grid, HexCoord::new(11, -11, 0)), None);
    assert_eq!(tile_at(&grid, HexCoord::new(0, 11, -11)), None);
}

#[test]
fn fresh_map_saves_as_coast_bytes() {
    let grid = create_hexgrid();
    let bytes = encode_hexgrid(&grid);
    assert_eq!(bytes, vec![b'C'; 331]);
}

#[test]
fn load_reads_terrain_in_scan_order() {
    let mut bytes = vec![b'P'; 331];
    bytes[0] = b'M';
    bytes[1] = b'F';
    bytes[2] = b'X';
    bytes[330] = b'C';
    let grid = decode_hexgrid(&bytes);
    assert_eq!(tile_at(&grid, HexCoord::new(-10, 0, 10)).unwrap().terrain(), Terrain::Mountain);
    assert_eq!(tile_at(&grid, HexCoord::new(-10, 1, 9)).unwrap().terrain(), Terrain::Forest);
    assert_eq!(tile_at(&grid, HexCoord::new(-10, 2, 8)).unwrap().terrain(), Terrain::Coast);
    assert_eq!(tile_at(&grid, HexCoord::new(0, 0, 0)).unwrap().terrain(), Terrain::Plain);
    assert_eq!(tile_at(&grid, HexCoord::new(10, 0, -10)).unwrap().terrain(), Terrain::Coast);
    assert!(!tile_at(&grid, HexCoord::new(0, 0, 0)).unwrap().is_occupied());
}

#[test]
fn save_after_load_gives_back_the_file() {
    let mut bytes = Vec::new();
    for i in 0..331 {
        bytes.push([b'C', b'P', b'M', b'F'][i % 4]);
    }
    let grid = decode_hexgrid(&bytes);
    assert_eq!(encode_hexgrid(&grid), bytes);
}

#[test]
fn save_after_load_replaces_unknown_bytes_with_coast() {
    let mut bytes = vec![b'F'; 340];
    bytes[5] = b'?';
    let grid = decode_hexgrid(&bytes);
    let out = encode_hexgrid(&grid);
    assert_eq!(out.len(), 331);
    assert_eq!(out[5], b'C');
    assert_eq!(out[4], b'F');
    assert_eq!(out[6], b'F');
}

#[test]
fn load_after_save_gives_back_the_map() {
    let mut bytes = vec![b'C'; 331];
    bytes[100] = b'M';
    bytes[200] = b'P';
    let grid = decode_hexgrid(&bytes);
    let again = decode_hexgrid(&encode_hexgrid(&grid));
    for c in map_cells() {
        assert_eq!(tile_at(&again, c), tile_at(&grid, c));
    }
}

#[test]
fn set_grid_plain_leaves_the_map() {
    let mut grid = decode_hexgrid(&vec![b'M'; 331]);
    set_grid_plain(&mut grid);
    assert_eq!(encode_hexgrid(&grid), vec![b'M'; 331]);
}

#[test]
fn fresh_map_holds_exactly_the_ten_rings() {
    let grid = create_hexgrid();
    let mut count: usize = 0;
    for q in -12i32..=12 {
        for r in -12i32..=12 {
            let s: i32 = -q - r;
            let inside = q.abs() <= 10 && r.abs() <= 10 && s.abs() <= 10;
            let tile = tile_at(&grid, HexCoord::new(q, r, s));
            assert_eq!(tile.is_some(), inside);
            if inside {
                count += 1;
            }
        }
    }
    assert_eq!(count, MAP_CELL_COUNT);
}

#[test]
fn full_map_check_and_guarded_save() {
    let grid = create_hexgrid();
    assert!(is_full_map(&grid));
    assert_eq!(try_encode_hexgrid(&grid), Some(vec![b'C'; 331]));
    let empty: HexGrid<Tile> = HexGrid::default();
    assert!(!is_full_map(&empty));
    assert_eq!(try_encode_hexgrid(&empty), None);
}
