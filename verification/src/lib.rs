//! Game logic of a two-player hex-map war game: terrain tiles, the radial
//! hex map and its file encoding, units with their movement search and
//! combat, and the decisions of the map-creator and war-game modes.

pub mod coord;
pub mod tile;
pub mod hexgrid;
pub mod mapfile;
pub mod units;
pub mod movement;
pub mod sprites;
pub mod statehandler;
pub mod search_laws;
