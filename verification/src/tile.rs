use vstd::prelude::*;

verus! {

/// The kinds of terrain a hex can hold.
#[derive(Clone, Copy, Debug, PartialEq, Eq, Structural)]
pub enum Terrain {
    Coast,
    Plain,
    Mountain,
    Forest,
}

/// How a terrain type affects a unit standing on it.
#[derive(Clone, Copy, Debug, PartialEq, Eq, Structural)]
pub struct TerrainModifier {
    pub terrain_type: Terrain,
    pub movement: usize,
    pub defense: usize,
}

/// One hex of the map: its terrain and whether a unit stands on it.
#[derive(Clone, Copy, Debug, PartialEq, Eq, Structural)]
pub struct Tile {
    pub terrain: Terrain,
    pub occupied: bool,
}

impl Tile {
    /// A fresh, unoccupied tile of the given terrain.
    pub fn new(terrain: Terrain) -> (t: Self)
        ensures
            t.terrain == terrain,
            !t.occupied,
    {
        Tile { terrain, occupied: false }
    }

    /// Marks a unit as standing on this tile.
    pub fn set_occupied(&mut self)
        ensures
            final(self).occupied,
            final(self).terrain == old(self).terrain,
    {
        self.occupied = true
    }

    /// Marks this tile as free of units.
    pub fn set_empty(&mut self)
        ensures
            !final(self).occupied,
            final(self).terrain == old(self).terrain,
    {
        self.occupied = false
    }

    /// Whether a unit stands on this tile.
    pub fn is_occupied(&self) -> (b: bool)
        ensures
            b == self.occupied,
    {
        self.occupied
    }

    /// The terrain of this tile.
    pub fn terrain(&self) -> (t: Terrain)
        ensures
            t == self.terrain,
    {
        self.terrain
    }
}

} // verus!
