use chickenwire::hexgrid::HexGrid;
use vstd::prelude::*;

use crate::coord::HexCoord;
use crate::hexgrid::{grid_accepts, grid_tiles, grid_update};
use crate::movement::moved_to;
use crate::tile::{Terrain, Tile};
use crate::units::{first_index, is_fresh_tank, lemma_first_index, locations, unit_at, Unit};

verus! {

/// The mode the game is in. The first field says whether the mode still has
/// to be set up.
#[derive(Clone, Copy, Debug, PartialEq, Eq, Structural)]
pub enum GameMode {
    MainMenu(bool),
    MapCreator(bool),
    /// The second field is the player whose turn it is (1 or 2).
    WarGame(bool, usize),
    /// The second field is the player who won (1 or 2).
    GameOver(bool, usize),
}

/// Everything the game keeps between frames.
pub struct GameState {
    pub game_mode: GameMode,
    pub hexgrid: HexGrid<Tile>,
    pub player1_units: Vec<Unit>,
    pub player2_units: Vec<Unit>,
    pub global_tile: Tile,
    /// The position of the unit selected to move, if any.
    pub moving_unit_location: Option<HexCoord>,
}

/// `units` with the first unit standing at `from` moved to `to`; unchanged
/// if no unit stands at `from`.
pub open spec fn relocate_first(units: Seq<Unit>, from: HexCoord, to: HexCoord) -> Seq<Unit> {
    let i = first_index(locations(units), from);
    if i < 0 {
        units
    } else {
        units.update(i, moved_to(units[i], to))
    }
}

/// A click on `clicked` during a player's turn, with `own` that player's
/// units and `other` the opponent's: the player's units afterwards, the
/// selected position afterwards, and whether a move was made (which ends
/// the turn).
///
/// With no unit selected, clicking one of the player's units selects it.
/// With a unit selected at `from`: clicking one of the player's units
/// selects that one instead; clicking an opponent's unit drops the
/// selection; clicking anywhere else moves the first of the player's units
/// standing at `from` there (dropping the selection) and ends the turn.
pub open spec fn turn_click(
    own: Seq<Unit>,
    other: Seq<Unit>,
    selected: Option<HexCoord>,
    clicked: HexCoord,
) -> (Seq<Unit>, Option<HexCoord>, bool) {
    match selected {
        Some(from) => {
            if locations(own).contains(clicked) {
                (own, Some(clicked), false)
            } else if locations(other).contains(clicked) {
                (own, None, false)
            } else if first_index(locations(own), from) >= 0 {
                (relocate_first(own, from, clicked), None, true)
            } else {
                (own, Some(from), true)
            }
        },
        None => {
            if locations(own).contains(clicked) {
                (own, Some(clicked), false)
            } else {
                (own, None, false)
            }
        },
    }
}

/// The tile chosen by the terrain keys pressed this frame, checked in the
/// order 1 (plain), 4 (mountain), 2 (coast), 3 (forest), the last pressed
/// one winning; `current` if none is pressed.
pub open spec fn spec_selected_tile(current: Tile, key1: bool, key2: bool, key3: bool, key4: bool) -> Tile {
    if key3 {
        Tile { terrain: Terrain::Forest, occupied: false }
    } else if key2 {
        Tile { terrain: Terrain::Coast, occupied: false }
    } else if key4 {
        Tile { terrain: Terrain::Mountain, occupied: false }
    } else if key1 {
        Tile { terrain: Terrain::Plain, occupied: false }
    } else {
        current
    }
}

/// The outcome of a click during a war game: player 1's units, player 2's
/// units, the selected position, the mode, and the player whose units moved
/// (whose sprites must be redrawn), if any. Outside a war game with player 1
/// or 2 to move, nothing changes.
pub open spec fn spec_war_click(
    mode: GameMode,
    p1: Seq<Unit>,
    p2: Seq<Unit>,
    selected: Option<HexCoord>,
    clicked: HexCoord,
) -> (Seq<Unit>, Seq<Unit>, Option<HexCoord>, GameMode, Option<usize>) {
    match mode {
        GameMode::WarGame(_, 1) => {
            let (own, sel, moved) = turn_click(p1, p2, selected, clicked);
            if moved {
                (own, p2, sel, GameMode::WarGame(false, 2), Some(1))
            } else {
                (own, p2, sel, mode, None)
            }
        },
        GameMode::WarGame(_, 2) => {
            let (own, sel, moved) = turn_click(p2, p1, selected, clicked);
            if moved {
                (p1, own, sel, GameMode::WarGame(false, 1), Some(2))
            } else {
                (p1, own, sel, mode, None)
            }
        },
        _ => (p1, p2, selected, mode, None),
    }
}

/// Plays a click for the player whose units are `own`, as `turn_click`
/// describes; returns the new selection and whether a move was made.
fn play_turn_click(own: &mut Vec<Unit>, other: &Vec<Unit>, selected: Option<HexCoord>, clicked: HexCoord) -> (res: (
    Option<HexCoord>,
    bool,
))
    ensures
        (final(own)@, res.0, res.1) == turn_click(old(own)@, other@, selected, clicked),
{
    proof {
        lemma_first_index(locations(own@), clicked);
        lemma_first_index(locations(other@), clicked);
    }
    match selected {
        Some(from_location) => {
            // one of the player's own units: select it instead
            if let Some(i) = unit_at(own, clicked) {
                return (Some(own[i].location), false);
            }
            // an opponent's unit: drop the selection
            if unit_at(other, clicked).is_some() {
                return (None, false);
            }
            // no unit is there: move the selected unit
            proof {
                lemma_first_index(locations(own@), from_location);
            }
            let mut selection = Some(from_location);
            if let Some(i) = unit_at(own, from_location) {
                own[i].location = clicked;
                selection = None;
                proof {
                    assert(own@ =~= relocate_first(old(own)@, from_location, clicked));
                }
            }
            (selection, true)
        },
        None => {
            if let Some(i) = unit_at(own, clicked) {
                (Some(own[i].location), false)
            } else {
                (None, false)
            }
        },
    }
}

impl GameState {
    /// Sets up the map creator: the forest tile is selected for painting,
    /// no unit is selected, and the mode is the map creator, set up.
    pub fn enter_map_creator(&mut self)
        ensures
            final(self).global_tile == (Tile { terrain: Terrain::Forest, occupied: false }),
            final(self).moving_unit_location is None,
            final(self).game_mode == GameMode::MapCreator(false),
            grid_tiles(final(self).hexgrid) == grid_tiles(old(self).hexgrid),
            final(self).player1_units@ == old(self).player1_units@,
            final(self).player2_units@ == old(self).player2_units@,
    {
        self.global_tile = Tile::new(Terrain::Forest);
        self.moving_unit_location = None;
        self.game_mode = GameMode::MapCreator(false);
    }

    /// Sets up a war game: each player gets two fresh tanks, player 1 at
    /// (0, 0, 0) and (5, -1, -4), player 2 at (-7, 0, 7) and (-8, 0, 8); no
    /// unit is selected; the mode is a set-up war game with player 1 to move.
    pub fn enter_war_game(&mut self)
        ensures
            final(self).player1_units@.len() == 2,
            final(self).player2_units@.len() == 2,
            is_fresh_tank(final(self).player1_units@[0], HexCoord { q: 0i32, r: 0i32, s: 0i32 }),
            is_fresh_tank(final(self).player1_units@[1], HexCoord { q: 5i32, r: -1i32, s: -4i32 }),
            is_fresh_tank(final(self).player2_units@[0], HexCoord { q: -7i32, r: 0i32, s: 7i32 }),
            is_fresh_tank(final(self).player2_units@[1], HexCoord { q: -8i32, r: 0i32, s: 8i32 }),
            units_apart(final(self).player1_units@, final(self).player2_units@),
            final(self).moving_unit_location is None,
            final(self).game_mode == GameMode::WarGame(false, 1),
            grid_tiles(final(self).hexgrid) == grid_tiles(old(self).hexgrid),
            final(self).global_tile == old(self).global_tile,
    {
        self.player1_units = Vec::new();
        self.player2_units = Vec::new();

        let tank1 = Unit::tank(HexCoord::new(0, 0, 0));
        let tank2 = Unit::tank(HexCoord::new(5, -1, -4));
        self.player1_units.push(tank1);
        self.player1_units.push(tank2);

        let tank3 = Unit::tank(HexCoord::new(-7, 0, 7));
        let tank4 = Unit::tank(HexCoord::new(-8, 0, 8));
        self.player2_units.push(tank3);
        self.player2_units.push(tank4);

        proof {
            let l = locations(self.player1_units@) + locations(self.player2_units@);
            assert(l =~= seq![
                HexCoord { q: 0i32, r: 0i32, s: 0i32 },
                HexCoord { q: 5i32, r: -1i32, s: -4i32 },
                HexCoord { q: -7i32, r: 0i32, s: 7i32 },
                HexCoord { q: -8i32, r: 0i32, s: 8i32 },
            ]);
        }
        self.moving_unit_location = None;
        // player 1 moves first
        self.game_mode = GameMode::WarGame(false, 1);
    }

    /// Sets up the game-over mode: a game over still to be set up is marked
    /// as set up, keeping its winner; any other mode stays.
    pub fn settle_game_over(&mut self)
        ensures
            final(self).game_mode == (match old(self).game_mode {
                GameMode::GameOver(true, winner) => GameMode::GameOver(false, winner),
                other => other,
            }),
            grid_tiles(final(self).hexgrid) == grid_tiles(old(self).hexgrid),
            final(self).player1_units@ == old(self).player1_units@,
            final(self).player2_units@ == old(self).player2_units@,
            final(self).global_tile == old(self).global_tile,
            final(self).moving_unit_location == old(self).moving_unit_location,
    {
        if let GameMode::GameOver(true, winner) = self.game_mode {
            self.game_mode = GameMode::GameOver(false, winner);
        }
    }

    /// The `P` key in the map creator: asks for a war game still to be set
    /// up, with player 1 to move.
    pub fn request_war_game(&mut self)
        ensures
            final(self).game_mode == GameMode::WarGame(true, 1),
            grid_tiles(final(self).hexgrid) == grid_tiles(old(self).hexgrid),
            final(self).player1_units@ == old(self).player1_units@,
            final(self).player2_units@ == old(self).player2_units@,
            final(self).global_tile == old(self).global_tile,
            final(self).moving_unit_location == old(self).moving_unit_location,
    {
        self.game_mode = GameMode::WarGame(true, 1);
    }

    /// The `P` key in the war game: asks for a map creator still to be set
    /// up. A click handled later in the same frame then changes nothing, as
    /// the game is no longer in a war game.
    pub fn request_map_creator(&mut self)
        ensures
            final(self).game_mode == GameMode::MapCreator(true),
            grid_tiles(final(self).hexgrid) == grid_tiles(old(self).hexgrid),
            final(self).player1_units@ == old(self).player1_units@,
            final(self).player2_units@ == old(self).player2_units@,
            final(self).global_tile == old(self).global_tile,
            final(self).moving_unit_location == old(self).moving_unit_location,
    {
        self.game_mode = GameMode::MapCreator(true);
    }

    /// The terrain keys 1 to 4 in the map creator: selects the tile used for
    /// painting, as `spec_selected_tile` describes.
    pub fn select_terrain_keys(&mut self, key1: bool, key2: bool, key3: bool, key4: bool)
        ensures
            final(self).global_tile == spec_selected_tile(old(self).global_tile, key1, key2, key3, key4),
            final(self).game_mode == old(self).game_mode,
            grid_tiles(final(self).hexgrid) == grid_tiles(old(self).hexgrid),
            final(self).player1_units@ == old(self).player1_units@,
            final(self).player2_units@ == old(self).player2_units@,
            final(self).moving_unit_location == old(self).moving_unit_location,
    {
        if key1 {
            self.global_tile = Tile::new(Terrain::Plain);
        }
        if key4 {
            self.global_tile = Tile::new(Terrain::Mountain);
        }
        if key2 {
            self.global_tile = Tile::new(Terrain::Coast);
        }
        if key3 {
            self.global_tile = Tile::new(Terrain::Forest);
        }
    }

    /// A click in the map creator: paints the selected tile on the clicked
    /// hex if the map has that hex; a hex off the map is left alone.
    pub fn paint_hex(&mut self, clicked: HexCoord)
        requires
            grid_accepts(clicked),
        ensures
            grid_tiles(final(self).hexgrid) == if grid_tiles(old(self).hexgrid).dom().contains(clicked) {
                grid_tiles(old(self).hexgrid).insert(clicked, old(self).global_tile)
            } else {
                grid_tiles(old(self).hexgrid)
            },
            grid_tiles(final(self).hexgrid).dom() == grid_tiles(old(self).hexgrid).dom(),
            final(self).game_mode == old(self).game_mode,
            final(self).global_tile == old(self).global_tile,
            final(self).player1_units@ == old(self).player1_units@,
            final(self).player2_units@ == old(self).player2_units@,
            final(self).moving_unit_location == old(self).moving_unit_location,
    {
        let tile = self.global_tile;
        let _ = grid_update(&mut self.hexgrid, clicked, tile);
        proof {
            if grid_tiles(old(self).hexgrid).dom().contains(clicked) {
                assert(grid_tiles(old(self).hexgrid).insert(clicked, tile).dom() =~= grid_tiles(
                    old(self).hexgrid,
                ).dom());
            }
        }
    }

    /// A click on hex `clicked` during a war game, as `spec_war_click`
    /// describes. Returns the player whose units moved, if any.
    pub fn war_game_click(&mut self, clicked: HexCoord) -> (moved: Option<usize>)
        ensures
            (
                final(self).player1_units@,
                final(self).player2_units@,
                final(self).moving_unit_location,
                final(self).game_mode,
                moved,
            ) == spec_war_click(
                old(self).game_mode,
                old(self).player1_units@,
                old(self).player2_units@,
                old(self).moving_unit_location,
                clicked,
            ),
            grid_tiles(final(self).hexgrid) == grid_tiles(old(self).hexgrid),
            final(self).global_tile == old(self).global_tile,
    {
        match self.game_mode {
            GameMode::WarGame(_, 1) => {
                let (selection, moved) = play_turn_click(
                    &mut self.player1_units,
                    &self.player2_units,
                    self.moving_unit_location,
                    clicked,
                );
                self.moving_unit_location = selection;
                if moved {
                    // player 2 moves next
                    self.game_mode = GameMode::WarGame(false, 2);
                    Some(1)
                } else {
                    None
                }
            },
            GameMode::WarGame(_, 2) => {
                let (selection, moved) = play_turn_click(
                    &mut self.player2_units,
                    &self.player1_units,
                    self.moving_unit_location,
                    clicked,
                );
                self.moving_unit_location = selection;
                if moved {
                    // player 1 moves next
                    self.game_mode = GameMode::WarGame(false, 1);
                    Some(2)
                } else {
                    None
                }
            },
            _ => None,
        }
    }
}

/// No two units, of either player, stand on the same hex.
pub open spec fn units_apart(p1: Seq<Unit>, p2: Seq<Unit>) -> bool {
    (locations(p1) + locations(p2)).no_duplicates()
}

proof fn lemma_relocate_apart(own: Seq<Unit>, other: Seq<Unit>, from: HexCoord, to: HexCoord, own_first: bool)
    requires
        !locations(own).contains(to),
        !locations(other).contains(to),
    ensures
        own_first && units_apart(own, other) ==> units_apart(relocate_first(own, from, to), other),
        !own_first && units_apart(other, own) ==> units_apart(other, relocate_first(own, from, to)),
        relocate_first(own, from, to).len() == own.len(),
{
    let new_own = relocate_first(own, from, to);
    let k = first_index(locations(own), from);
    lemma_first_index(locations(own), from);
    let lo = locations(own);
    let ln = locations(new_own);
    let lt = locations(other);
    assert(ln.len() == lo.len());
    assert forall|i: int| 0 <= i < ln.len() && i != k implies #[trigger] ln[i] == lo[i] by {
        if k >= 0 {
            assert(new_own[i] == own[i]);
        }
    }
    assert(k >= 0 ==> ln[k] == to);
    assert forall|i: int| 0 <= i < lo.len() implies #[trigger] lo[i] != to by {
        if lo[i] == to {
            assert(lo.contains(to));
        }
    }
    assert forall|i: int| 0 <= i < lt.len() implies #[trigger] lt[i] != to by {
        if lt[i] == to {
            assert(lt.contains(to));
        }
    }
    if own_first && units_apart(own, other) {
        let a = lo + lt;
        let b = ln + lt;
        assert forall|i: int, j: int| 0 <= i < b.len() && 0 <= j < b.len() && i != j implies b[i] != b[j] by {
            if i < ln.len() && j < ln.len() {
                if i != k && j != k {
                    assert(b[i] == a[i] && b[j] == a[j]);
                } else if i == k {
                    assert(b[j] == a[j]);
                } else {
                    assert(b[i] == a[i]);
                }
            } else if i < ln.len() {
                assert(b[j] == a[j]);
                if i != k {
                    assert(b[i] == a[i]);
                }
            } else if j < ln.len() {
                assert(b[i] == a[i]);
                if j != k {
                    assert(b[j] == a[j]);
                }
            } else {
                assert(b[i] == a[i] && b[j] == a[j]);
            }
        }
    }
    if !own_first && units_apart(other, own) {
        let a = lt + lo;
        let b = lt + ln;
        let n = lt.len();
        assert forall|i: int, j: int| 0 <= i < b.len() && 0 <= j < b.len() && i != j implies b[i] != b[j] by {
            if i >= n && j >= n {
                if i - n != k && j - n != k {
                    assert(b[i] == a[i] && b[j] == a[j]);
                } else if i - n == k {
                    assert(b[j] == a[j]);
                } else {
                    assert(b[i] == a[i]);
                }
            } else if i >= n {
                assert(b[j] == a[j]);
                if i - n != k {
                    assert(b[i] == a[i]);
                }
            } else if j >= n {
                assert(b[i] == a[i]);
                if j - n != k {
                    assert(b[j] == a[j]);
                }
            } else {
                assert(b[i] == a[i] && b[j] == a[j]);
            }
        }
    }
}

/// What a click in a war game keeps: neither player gains or loses units,
/// the waiting player's units are untouched, a move hands the turn to the
/// other player and lands on a hex no unit stood on, and if no two units
/// shared a hex before the click, none do after it.
pub proof fn lemma_war_click_keeps(
    mode: GameMode,
    p1: Seq<Unit>,
    p2: Seq<Unit>,
    selected: Option<HexCoord>,
    clicked: HexCoord,
)
    ensures
        ({
            let res = spec_war_click(mode, p1, p2, selected, clicked);
            &&& res.0.len() == p1.len()
            &&& res.1.len() == p2.len()
            &&& (mode matches GameMode::WarGame(_, 1)) ==> res.1 == p2
            &&& (mode matches GameMode::WarGame(_, 2)) ==> res.0 == p1
            &&& (mode matches GameMode::WarGame(_, 1)) && res.4 is Some ==> res.3 == GameMode::WarGame(false, 2)
            &&& (mode matches GameMode::WarGame(_, 2)) && res.4 is Some ==> res.3 == GameMode::WarGame(false, 1)
            &&& res.4 is Some ==> !locations(p1).contains(clicked) && !locations(p2).contains(clicked)
            &&& units_apart(p1, p2) ==> units_apart(res.0, res.1)
        }),
{
    match mode {
        GameMode::WarGame(_, 1) => {
            if let Some(from) = selected {
                if !locations(p1).contains(clicked) && !locations(p2).contains(clicked) {
                    lemma_relocate_apart(p1, p2, from, clicked, true);
                }
            }
        },
        GameMode::WarGame(_, 2) => {
            if let Some(from) = selected {
                if !locations(p2).contains(clicked) && !locations(p1).contains(clicked) {
                    lemma_relocate_apart(p2, p1, from, clicked, false);
                }
            }
        },
        _ => {},
    }
}


/// `new` is `old` with at most one unit moved from `from` to `to`: the units
/// keep their number and order; a unit that changed stood at `from` and now
/// stands at `to`, with nothing else about it changed; no two units changed;
/// and if some unit stood at `from`, a unit now stands at `to`.
pub open spec fn moves_unit_at(old: Seq<Unit>, new: Seq<Unit>, from: HexCoord, to: HexCoord) -> bool {
    &&& new.len() == old.len()
    &&& forall|j: int|
        0 <= j < old.len() && #[trigger] new[j] != old[j] ==> old[j].location == from && new[j] == (Unit {
            location: to,
            ..old[j]
        })
    &&& forall|j: int, k: int|
        0 <= j < old.len() && 0 <= k < old.len() && j != k && #[trigger] new[j] != old[j] ==> #[trigger] new[k]
            == old[k]
    &&& locations(old).contains(from) ==> locations(new).contains(to)
}

proof fn lemma_relocate_moves(own: Seq<Unit>, from: HexCoord, to: HexCoord)
    ensures
        moves_unit_at(own, relocate_first(own, from, to), from, to),
{
    lemma_first_index(locations(own), from);
    let i = first_index(locations(own), from);
    let new = relocate_first(own, from, to);
    if i >= 0 {
        assert(own[i].location == locations(own)[i]);
        assert(locations(new)[i] == new[i].location);
        assert(locations(new).contains(to));
    }
}

/// When a click in a war game moves a unit (the result names the player
/// whose units moved), a unit had been selected, and that player's units
/// afterwards are those before with at most the unit standing at the
/// selected position moved to the clicked hex (one such unit, if any stood
/// there); the opponent's units are untouched and the other player is to
/// move.
pub proof fn lemma_click_moves_selected_unit(
    mode: GameMode,
    p1: Seq<Unit>,
    p2: Seq<Unit>,
    selected: Option<HexCoord>,
    clicked: HexCoord,
)
    ensures
        ({
            let res = spec_war_click(mode, p1, p2, selected, clicked);
            &&& res.4 == Some(1usize) ==> {
                &&& selected is Some
                &&& moves_unit_at(p1, res.0, selected->0, clicked)
                &&& res.1 == p2
                &&& res.3 == GameMode::WarGame(false, 2)
            }
            &&& res.4 == Some(2usize) ==> {
                &&& selected is Some
                &&& moves_unit_at(p2, res.1, selected->0, clicked)
                &&& res.0 == p1
                &&& res.3 == GameMode::WarGame(false, 1)
            }
        }),
{
    if let Some(from) = selected {
        lemma_relocate_moves(p1, from, clicked);
        lemma_relocate_moves(p2, from, clicked);
        lemma_first_index(locations(p1), from);
        lemma_first_index(locations(p2), from);
    }
}

/// The terrain keys pressed in one frame: key 3 selects an unoccupied forest
/// tile whatever else is pressed; failing that, key 2 an unoccupied coast
/// tile; failing that, key 4 an unoccupied mountain tile; failing that, key
/// 1 an unoccupied plain tile; with none pressed the selection stays.
pub proof fn lemma_terrain_key_priority(current: Tile, key1: bool, key2: bool, key3: bool, key4: bool)
    ensures
        key3 ==> spec_selected_tile(current, key1, key2, key3, key4) == (Tile {
            terrain: Terrain::Forest,
            occupied: false,
        }),
        !key3 && key2 ==> spec_selected_tile(current, key1, key2, key3, key4) == (Tile {
            terrain: Terrain::Coast,
            occupied: false,
        }),
        !key3 && !key2 && key4 ==> spec_selected_tile(current, key1, key2, key3, key4) == (Tile {
            terrain: Terrain::Mountain,
            occupied: false,
        }),
        !key3 && !key2 && !key4 && key1 ==> spec_selected_tile(current, key1, key2, key3, key4) == (Tile {
            terrain: Terrain::Plain,
            occupied: false,
        }),
        !key1 && !key2 && !key3 && !key4 ==> spec_selected_tile(current, key1, key2, key3, key4) == current,
{
}

} // verus!
