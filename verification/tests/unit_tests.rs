use hexgame::coord::HexCoord;
use hexgame::hexgrid::create_hexgrid;
use hexgame::mapfile::decode_hexgrid;
use hexgame::tile::Terrain;
use hexgame::units::{unit_at, Itinerary, Unit};

fn origin() -> HexCoord {
    HexCoord::new(0, 0, 0)
}

#[test]
fn unit_kinds_have_their_statistics() {
    let t = Unit::tank(HexCoord::new(1, -1, 0));
    assert_eq!(t.name, "Tank");
    assert_eq!((t.max_hp, t.hp, t.soft_attack, t.hard_attack, t.aa_damage, t.defense), (100, 100, 10, 15, 5, 10));
    assert_eq!((t.movement, t.remaining_movement), (3, 3));
    assert_eq!(t.location, HexCoord::new(1, -1, 0));
    assert!(!t.has_fought);
    assert_eq!(t.terrain_modifiers[1].terrain_type, Terrain::Mountain);
    assert_eq!(t.terrain_modifiers[1].movement, 10000);

    let h = Unit::helicopter(origin());
    assert_eq!(h.name, "Helicopter");
    assert_eq!((h.max_hp, h.hp, h.soft_attack, h.hard_attack, h.aa_damage, h.defense), (50, 50, 10, 20, 10, 10));
    assert_eq!((h.movement, h.remaining_movement), (5, 5));
    assert_eq!(h.terrain_modifiers[2].terrain_type, Terrain::Coast);
    assert_eq!(h.terrain_modifiers[2].movement, 1);

    let i = Unit::infantry(origin());
    assert_eq!(i.name, "Infantry");
    assert_eq!((i.max_hp, i.hp, i.soft_attack, i.hard_attack, i.aa_damage, i.defense), (150, 150, 10, 5, 20, 10));
    assert_eq!((i.movement, i.remaining_movement), (2, 2));
    assert_eq!(i.terrain_modifiers[1].defense, 20);
}

#[test]
fn neighbors_go_clockwise_from_north_east() {
    let n = HexCoord::new(1, 2, -3).neighbors();
    assert_eq!(
        n,
        vec![
            HexCoord::new(2, 2, -4),
            HexCoord::new(2, 1, -3),
            HexCoord::new(1, 1, -2),
            HexCoord::new(0, 2, -2),
            HexCoord::new(0, 3, -3),
            HexCoord::new(1, 3, -4),
        ]
    );
}

#[test]
fn unit_at_finds_the_first_unit() {
    let units = vec![Unit::tank(origin()), Unit::infantry(HexCoord::new(1, 0, -1)), Unit::tank(HexCoord::new(1, 0, -1))];
    assert_eq!(unit_at(&units, HexCoord::new(1, 0, -1)), Some(1));
    assert_eq!(unit_at(&units, origin()), Some(0));
    assert_eq!(unit_at(&units, HexCoord::new(2, 0, -2)), None);
}

#[test]
fn fight_costs_movement_but_no_hit_points() {
    let mut a = Unit::tank(origin());
    let mut e = Unit::tank(HexCoord::new(1, 0, -1));
    let (attacker_dead, enemy_dead) = a.fight(&mut e);
    assert!(!attacker_dead && !enemy_dead);
    assert_eq!(a.remaining_movement, 0);
    assert!(a.has_fought);
    assert_eq!(a.hp, 100);
    assert_eq!(e.hp, 100);
    assert_eq!(e.remaining_movement, 3);
    assert!(!e.has_fought);
}

#[test]
fn fight_with_rolls_reports_zero_hit_points() {
    let mut a = Unit::tank(origin());
    a.hp = 0;
    let mut e = Unit::tank(HexCoord::new(1, 0, -1));
    assert_eq!(a.fight_with_rolls(&mut e, 99, 0), (true, false));
    let mut b = Unit::tank(origin());
    e.hp = 0;
    assert_eq!(b.fight_with_rolls(&mut e, 50, 50), (false, true));
    assert_eq!(e.hp, 0);
    assert_eq!(b.hp, 100);
}

#[test]
fn search_on_coast_only_reports_blocked_neighbours() {
    let grid = create_hexgrid();
    let t = Unit::tank(origin());
    let found = t.bfs(&grid, &Vec::new(), &Vec::new());
    let expected: Vec<Itinerary> = origin()
        .neighbors()
        .into_iter()
        .map(|c| Itinerary { coordinate: c, distance: 999 })
        .collect();
    assert_eq!(found, expected);
}

#[test]
fn search_on_plains_with_one_step() {
    let grid = decode_hexgrid(&vec![b'P'; 331]);
    let mut t = Unit::tank(origin());
    t.remaining_movement = 1;
    let found = t.bfs(&grid, &Vec::new(), &Vec::new());
    // six neighbours reached at 1 (reported twice each), then every ring-2
    // hex reported once from each ring-1 hex next to it
    assert_eq!(found.len(), 12 + 18);
    let n = origin().neighbors();
    assert_eq!(found[0], Itinerary { coordinate: n[0], distance: 1 });
    assert_eq!(found[1], Itinerary { coordinate: n[0], distance: 1 });
    assert_eq!(found[2], Itinerary { coordinate: n[1], distance: 1 });
    assert_eq!(found[12], Itinerary { coordinate: HexCoord::new(2, 0, -2), distance: 1 });
    for it in &found {
        assert!(it.distance >= 1);
        assert!(it.coordinate != origin());
    }
}

#[test]
fn search_marks_enemies_and_allies() {
    let grid = decode_hexgrid(&vec![b'P'; 331]);
    let mut t = Unit::tank(origin());
    t.remaining_movement = 1;
    let enemy = vec![Unit::tank(HexCoord::new(1, 0, -1))];
    let ally = vec![Unit::tank(HexCoord::new(1, -1, 0))];
    let found = t.bfs(&grid, &enemy, &ally);
    assert_eq!(found[0], Itinerary { coordinate: HexCoord::new(1, 0, -1), distance: 999 });
    assert_eq!(found[1], Itinerary { coordinate: HexCoord::new(1, -1, 0), distance: 999 });
    assert_eq!(found[2], Itinerary { coordinate: HexCoord::new(1, -1, 0), distance: 999 });
    assert_eq!(found[3], Itinerary { coordinate: HexCoord::new(0, -1, 1), distance: 1 });
}

#[test]
fn move_to_free_plain() {
    let grid = decode_hexgrid(&vec![b'P'; 331]);
    let mut t = Unit::tank(origin());
    let mut enemies = vec![Unit::tank(HexCoord::new(-5, 0, 5))];
    let dies = t.move_unit(HexCoord::new(2, -1, -1), &mut enemies, Vec::new(), &grid);
    assert!(!dies);
    assert_eq!(t.location, HexCoord::new(2, -1, -1));
    assert_eq!(t.remaining_movement, 3);
    assert_eq!(enemies.len(), 1);
}

#[test]
fn move_out_of_reach_does_nothing() {
    let grid = create_hexgrid();
    let mut t = Unit::tank(origin());
    let mut enemies = Vec::new();
    let dies = t.move_unit(HexCoord::new(5, -5, 0), &mut enemies, Vec::new(), &grid);
    assert!(!dies);
    assert_eq!(t.location, origin());
    assert!(!t.has_fought);
}

#[test]
fn move_onto_enemy_fights_it() {
    let grid = decode_hexgrid(&vec![b'P'; 331]);
    let mut t = Unit::tank(origin());
    let mut enemies = vec![Unit::tank(HexCoord::new(1, 0, -1))];
    let dies = t.move_unit(HexCoord::new(1, 0, -1), &mut enemies, Vec::new(), &grid);
    assert!(!dies);
    assert_eq!(t.location, origin());
    assert_eq!(t.remaining_movement, 0);
    assert!(t.has_fought);
    assert_eq!(enemies.len(), 1);
    assert_eq!(enemies[0].hp, 100);
}

#[test]
fn move_onto_enemy_at_zero_takes_its_hex() {
    let grid = decode_hexgrid(&vec![b'P'; 331]);
    let mut t = Unit::tank(origin());
    let mut e = Unit::tank(HexCoord::new(1, 0, -1));
    e.hp = 0;
    let mut enemies = vec![Unit::tank(HexCoord::new(-3, 0, 3)), e, Unit::tank(HexCoord::new(3, 0, -3))];
    assert!(!t.move_unit(HexCoord::new(1, 0, -1), &mut enemies, Vec::new(), &grid));
    assert_eq!(enemies.len(), 2);
    assert_eq!(enemies[0].location, HexCoord::new(-3, 0, 3));
    assert_eq!(enemies[1].location, HexCoord::new(3, 0, -3));
    assert_eq!(t.location, HexCoord::new(1, 0, -1));
    assert_eq!(t.hp, 100);
    assert_eq!(t.remaining_movement, 0);
}

#[test]
fn attacker_at_zero_dies_and_enemy_at_zero_leaves() {
    let grid = decode_hexgrid(&vec![b'P'; 331]);
    let mut t = Unit::tank(origin());
    t.hp = 0;
    let mut e = Unit::tank(HexCoord::new(1, 0, -1));
    e.hp = 0;
    let mut enemies = vec![e, Unit::tank(HexCoord::new(3, 0, -3))];
    assert!(t.move_unit(HexCoord::new(1, 0, -1), &mut enemies, Vec::new(), &grid));
    assert_eq!(enemies.len(), 1);
    assert_eq!(enemies[0].location, HexCoord::new(3, 0, -3));
    assert_eq!(t.hp, 0);
    assert_eq!(t.location, origin());
}

#[test]
fn attacker_at_zero_dies_against_a_live_enemy() {
    let grid = decode_hexgrid(&vec![b'P'; 331]);
    let mut t = Unit::tank(origin());
    t.hp = 0;
    let mut enemies = vec![Unit::tank(HexCoord::new(1, 0, -1))];
    assert!(t.move_unit(HexCoord::new(1, 0, -1), &mut enemies, Vec::new(), &grid));
    assert_eq!(enemies.len(), 1);
    assert_eq!(enemies[0].hp, 100);
    assert_eq!(t.location, origin());
    assert!(t.has_fought);
}

#[test]
fn no_move_after_fighting() {
    let grid = decode_hexgrid(&vec![b'P'; 331]);
    let mut t = Unit::tank(origin());
    let mut e = Unit::tank(HexCoord::new(-3, 0, 3));
    t.fight(&mut e);
    let mut enemies = vec![e];
    assert!(!t.move_unit(HexCoord::new(1, 0, -1), &mut enemies, Vec::new(), &grid));
    assert_eq!(t.location, origin());
    assert!(!t.move_unit(HexCoord::new(2, 0, -2), &mut enemies, Vec::new(), &grid));
    assert_eq!(t.location, origin());
}

#[test]
fn blocked_hexes_stay_at_999_within_range() {
    // a mountain ring around plains: the search never gets a mountain below 999
    let mut bytes = vec![b'P'; 331];
    bytes[165] = b'M';
    let grid = decode_hexgrid(&bytes);
    let t = Unit::tank(HexCoord::new(2, -2, 0));
    let found = t.bfs(&grid, &Vec::new(), &Vec::new());
    let cells = hexgame::mapfile::map_cells();
    let mountain = cells[165];
    let mut seen = false;
    for it in &found {
        if it.coordinate == mountain {
            seen = true;
            assert_eq!(it.distance, 999);
        }
    }
    assert!(seen);
}

fn first_report(found: &Vec<Itinerary>, h: HexCoord) -> Option<i32> {
    found.iter().find(|it| it.coordinate == h).map(|it| it.distance)
}

#[test]
fn hexes_are_first_reported_at_their_fewest_steps() {
    // a mountain east of the unit: the hex behind it takes a detour of 3 steps
    let cells = hexgame::mapfile::map_cells();
    let east = cells.iter().position(|c| *c == HexCoord::new(1, 0, -1)).unwrap();
    let mut bytes = vec![b'P'; 331];
    bytes[east] = b'M';
    let grid = decode_hexgrid(&bytes);
    let mut t = Unit::tank(origin());
    t.remaining_movement = 3;
    let found = t.bfs(&grid, &Vec::new(), &Vec::new());
    assert_eq!(first_report(&found, HexCoord::new(1, -1, 0)), Some(1));
    assert_eq!(first_report(&found, HexCoord::new(2, -1, -1)), Some(2));
    assert_eq!(first_report(&found, HexCoord::new(2, 0, -2)), Some(3));
    assert_eq!(first_report(&found, HexCoord::new(-3, 0, 3)), Some(3));
    assert_eq!(first_report(&found, HexCoord::new(1, 0, -1)), Some(999));
}

#[test]
fn move_around_a_mountain_within_reach() {
    let cells = hexgame::mapfile::map_cells();
    let east = cells.iter().position(|c| *c == HexCoord::new(1, 0, -1)).unwrap();
    let mut bytes = vec![b'P'; 331];
    bytes[east] = b'M';
    let grid = decode_hexgrid(&bytes);
    let mut t = Unit::tank(origin());
    t.remaining_movement = 3;
    let mut enemies = vec![Unit::tank(HexCoord::new(-5, 0, 5))];
    let dies = t.move_unit(HexCoord::new(2, 0, -2), &mut enemies, Vec::new(), &grid);
    assert!(!dies);
    assert_eq!(t.location, HexCoord::new(2, 0, -2));
    assert_eq!(enemies.len(), 1);
}
