use hexgame::coord::HexCoord;
use hexgame::hexgrid::{create_hexgrid, tile_at};
use hexgame::sprites::{
    healthbar_sprite_index, hexgrid_sprite_cells, round_cube, terrain_sprite_index, try_hexgrid_sprite_cells,
    unit_sprite_index, units_sprite_cells,
};
use hexgame::statehandler::{GameMode, GameState};
use hexgame::tile::{Terrain, Tile};
use hexgame::units::Unit;

fn fresh_state() -> GameState {
    GameState {
        game_mode: GameMode::MainMenu(true),
        hexgrid: create_hexgrid(),
        player1_units: Vec::new(),
        player2_units: Vec::new(),
        global_tile: Tile::new(Terrain::Plain),
        moving_unit_location: None,
    }
}

fn war_state() -> GameState {
    let mut st = fresh_state();
    st.enter_war_game();
    st
}

#[test]
fn map_creator_setup() {
    let mut st = fresh_state();
    st.moving_unit_location = Some(HexCoord::new(0, 0, 0));
    st.enter_map_creator();
    assert_eq!(st.global_tile, Tile::new(Terrain::Forest));
    assert_eq!(st.moving_unit_location, None);
    assert_eq!(st.game_mode, GameMode::MapCreator(false));
}

#[test]
fn war_game_setup() {
    let st = war_state();
    assert_eq!(st.game_mode, GameMode::WarGame(false, 1));
    assert_eq!(st.player1_units.len(), 2);
    assert_eq!(st.player2_units.len(), 2);
    assert_eq!(st.player1_units[0].location, HexCoord::new(0, 0, 0));
    assert_eq!(st.player1_units[1].location, HexCoord::new(5, -1, -4));
    assert_eq!(st.player2_units[0].location, HexCoord::new(-7, 0, 7));
    assert_eq!(st.player2_units[1].location, HexCoord::new(-8, 0, 8));
    assert_eq!(st.player1_units[0].name, "Tank");
    assert_eq!(st.moving_unit_location, None);
}

#[test]
fn p_key_switches_modes() {
    let mut st = fresh_state();
    st.game_mode = GameMode::MapCreator(false);
    st.request_war_game();
    assert_eq!(st.game_mode, GameMode::WarGame(true, 1));
    st.game_mode = GameMode::WarGame(false, 2);
    st.request_map_creator();
    assert_eq!(st.game_mode, GameMode::MapCreator(true));
}

#[test]
fn click_after_leaving_war_game_changes_nothing() {
    let mut st = fresh_state();
    st.enter_war_game();
    st.request_map_creator();
    let before = st.player1_units.clone();
    assert_eq!(st.war_game_click(HexCoord::new(0, 0, 0)), None);
    assert_eq!(st.moving_unit_location, None);
    assert_eq!(st.player1_units, before);
    assert_eq!(st.game_mode, GameMode::MapCreator(true));
}

#[test]
fn terrain_keys_last_one_wins() {
    let mut st = fresh_state();
    st.select_terrain_keys(true, false, false, false);
    assert_eq!(st.global_tile.terrain(), Terrain::Plain);
    st.select_terrain_keys(false, false, false, true);
    assert_eq!(st.global_tile.terrain(), Terrain::Mountain);
    st.select_terrain_keys(false, true, false, false);
    assert_eq!(st.global_tile.terrain(), Terrain::Coast);
    st.select_terrain_keys(true, true, true, true);
    assert_eq!(st.global_tile.terrain(), Terrain::Forest);
    st.select_terrain_keys(true, false, false, true);
    assert_eq!(st.global_tile.terrain(), Terrain::Mountain);
    st.select_terrain_keys(false, false, false, false);
    assert_eq!(st.global_tile.terrain(), Terrain::Mountain);
}

#[test]
fn painting_changes_only_map_hexes() {
    let mut st = fresh_state();
    st.global_tile = Tile::new(Terrain::Mountain);
    st.paint_hex(HexCoord::new(2, -1, -1));
    assert_eq!(tile_at(&st.hexgrid, HexCoord::new(2, -1, -1)), Some(Tile::new(Terrain::Mountain)));
    st.paint_hex(HexCoord::new(20, -10, -10));
    assert_eq!(tile_at(&st.hexgrid, HexCoord::new(20, -10, -10)), None);
}

#[test]
fn select_then_move_hands_turn_over() {
    let mut st = war_state();
    assert_eq!(st.war_game_click(HexCoord::new(0, 0, 0)), None);
    assert_eq!(st.moving_unit_location, Some(HexCoord::new(0, 0, 0)));
    assert_eq!(st.war_game_click(HexCoord::new(1, 0, -1)), Some(1));
    assert_eq!(st.player1_units[0].location, HexCoord::new(1, 0, -1));
    assert_eq!(st.moving_unit_location, None);
    assert_eq!(st.game_mode, GameMode::WarGame(false, 2));
    // player 2 now: clicking a player-1 unit selects nothing
    assert_eq!(st.war_game_click(HexCoord::new(1, 0, -1)), None);
    assert_eq!(st.moving_unit_location, None);
    assert_eq!(st.war_game_click(HexCoord::new(-7, 0, 7)), None);
    assert_eq!(st.moving_unit_location, Some(HexCoord::new(-7, 0, 7)));
    assert_eq!(st.war_game_click(HexCoord::new(-6, 0, 6)), Some(2));
    assert_eq!(st.player2_units[0].location, HexCoord::new(-6, 0, 6));
    assert_eq!(st.game_mode, GameMode::WarGame(false, 1));
}

#[test]
fn clicks_on_units_change_or_drop_the_selection() {
    let mut st = war_state();
    st.war_game_click(HexCoord::new(0, 0, 0));
    assert_eq!(st.war_game_click(HexCoord::new(5, -1, -4)), None);
    assert_eq!(st.moving_unit_location, Some(HexCoord::new(5, -1, -4)));
    assert_eq!(st.war_game_click(HexCoord::new(-7, 0, 7)), None);
    assert_eq!(st.moving_unit_location, None);
    assert_eq!(st.game_mode, GameMode::WarGame(false, 1));
    assert_eq!(st.player2_units[0].location, HexCoord::new(-7, 0, 7));
}

#[test]
fn clicks_outside_war_game_do_nothing() {
    let mut st = war_state();
    st.game_mode = GameMode::MapCreator(false);
    assert_eq!(st.war_game_click(HexCoord::new(0, 0, 0)), None);
    assert_eq!(st.moving_unit_location, None);
}

#[test]
fn sprite_indices() {
    assert_eq!(terrain_sprite_index(Terrain::Coast), (3, 0));
    assert_eq!(terrain_sprite_index(Terrain::Plain), (4, 0));
    assert_eq!(terrain_sprite_index(Terrain::Mountain), (0, 0));
    assert_eq!(terrain_sprite_index(Terrain::Forest), (2, 0));
    assert_eq!(unit_sprite_index(&"Tank".to_string()), (5, 0));
    assert_eq!(unit_sprite_index(&"Helicopter".to_string()), (6, 0));
    assert_eq!(unit_sprite_index(&"Infantry".to_string()), (1, 0));
    assert_eq!(healthbar_sprite_index(1), (0, 1));
    assert_eq!(healthbar_sprite_index(2), (1, 1));
}

#[test]
fn map_and_unit_sprites() {
    let st = war_state();
    let cells = hexgrid_sprite_cells(&st.hexgrid);
    assert_eq!(cells.len(), 331);
    assert_eq!(cells[0].hex, HexCoord::new(-10, 0, 10));
    assert_eq!((cells[0].sheet_x, cells[0].sheet_y), (3, 0));
    let units = vec![Unit::helicopter(HexCoord::new(1, 0, -1)), Unit::tank(HexCoord::new(0, 0, 0))];
    let ucells = units_sprite_cells(&units);
    assert_eq!(ucells.len(), 2);
    assert_eq!(ucells[0].hex, HexCoord::new(1, 0, -1));
    assert_eq!((ucells[0].sheet_x, ucells[1].sheet_x), (6, 5));
}

#[test]
fn rounding_lands_on_the_plane() {
    assert_eq!(round_cube(1, 2, 3, 0, 0, 0), (1, 2, -3));
    assert_eq!(round_cube(1, 2, 3, 5, 1, 1), (-5, 2, 3));
    assert_eq!(round_cube(1, 2, 3, 1, 5, 1), (1, -4, 3));
    assert_eq!(round_cube(4, -1, -3, 0, 0, 0), (4, -1, -3));
}

#[test]
fn game_over_setup() {
    let mut st = fresh_state();
    st.game_mode = GameMode::GameOver(true, 2);
    st.settle_game_over();
    assert_eq!(st.game_mode, GameMode::GameOver(false, 2));
    st.settle_game_over();
    assert_eq!(st.game_mode, GameMode::GameOver(false, 2));
    st.game_mode = GameMode::WarGame(true, 1);
    st.settle_game_over();
    assert_eq!(st.game_mode, GameMode::WarGame(true, 1));
}

#[test]
fn guarded_map_sprites() {
    let grid = create_hexgrid();
    let cells = try_hexgrid_sprite_cells(&grid).unwrap();
    assert_eq!(cells.len(), 331);
    assert_eq!(cells[330].hex, HexCoord::new(10, 0, -10));
    assert_eq!((cells[330].sheet_x, cells[330].sheet_y), (3, 0));
    let empty: chickenwire::hexgrid::HexGrid<Tile> = chickenwire::hexgrid::HexGrid::default();
    assert!(try_hexgrid_sprite_cells(&empty).is_none());
}
