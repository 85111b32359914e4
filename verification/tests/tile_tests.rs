use hexgame::tile::{Terrain, Tile};

#[test]
fn new_tile_is_empty() {
    let t = Tile::new(Terrain::Mountain);
    assert!(!t.is_occupied());
    assert_eq!(t.terrain(), Terrain::Mountain);
}

#[test]
fn occupancy_reads_back() {
    let mut t = Tile::new(Terrain::Plain);
    t.set_occupied();
    assert!(t.is_occupied());
    assert_eq!(t.terrain(), Terrain::Plain);
    t.set_empty();
    assert!(!t.is_occupied());
    assert_eq!(t.terrain(), Terrain::Plain);
}
