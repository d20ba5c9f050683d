//! What stands on the map: units, tiles and their owners.

use vstd::prelude::*;
use super::ids::ID;

verus! {

#[derive(Copy, Clone, PartialEq, Eq, Structural, Hash, Debug)]
pub enum UnitType {
    Grave,
    PineTree,
    PalmTree,
    Village,
    Tower,
    GreatKnight,
    Knight,
    Soldier,
    Militia,
}

/// A unit on the map: who it is and of what type. What the type can do is
/// looked up in the unit catalogue.
#[derive(Copy, Clone, PartialEq, Eq, Structural, Hash, Debug)]
pub struct Unit {
    pub id: ID,
    pub unit_type: UnitType,
}

impl Unit {
    pub fn new(id: ID, unit_type: UnitType) -> (unit: Self)
        ensures
            unit == (Unit { id, unit_type }),
    {
        Self { id, unit_type }
    }

    pub fn id(self) -> (id: ID)
        ensures
            id == self.id,
    {
        self.id
    }

    pub fn unit_type(self) -> (unit_type: UnitType)
        ensures
            unit_type == self.unit_type,
    {
        self.unit_type
    }
}

#[derive(Copy, Clone, PartialEq, Eq, Structural, Hash, Debug)]
pub enum TileSurface {
    Water,
    Land,
}

impl TileSurface {
    pub fn is_land(self) -> (land: bool)
        ensures
            land == (self is Land),
    {
        match self {
            TileSurface::Land => true,
            TileSurface::Water => false,
        }
    }

    pub fn is_water(self) -> (water: bool)
        ensures
            water == (self is Water),
    {
        match self {
            TileSurface::Water => true,
            TileSurface::Land => false,
        }
    }
}

/// One tile of the hexagonal map.
#[derive(Copy, Clone, PartialEq, Eq, Hash, Debug)]
pub struct Tile {
    pub id: ID,
    pub surface: TileSurface,
    pub unit: Option<Unit>,
}

impl Tile {
    pub fn new(id: ID, surface: TileSurface) -> (tile: Self)
        ensures
            tile == (Tile { id, surface, unit: None }),
    {
        Self { id, surface, unit: None }
    }

    pub fn id(&self) -> (id: ID)
        ensures
            id == self.id,
    {
        self.id
    }

    pub fn surface(&self) -> (surface: &TileSurface)
        ensures
            *surface == self.surface,
    {
        &self.surface
    }

    pub fn unit(&self) -> (unit: Option<&Unit>)
        ensures
            unit is Some == self.unit is Some,
            unit is Some ==> *unit->0 == self.unit->0,
    {
        match &self.unit {
            Some(u) => Some(u),
            None => None,
        }
    }

    /// Removes the unit from this tile and returns it.
    pub fn take_unit(&mut self) -> (unit: Option<Unit>)
        ensures
            unit == old(self).unit,
            *final(self) == (Tile { unit: None, ..*old(self) }),
    {
        let unit = self.unit;
        self.unit = None;
        unit
    }

    /// Places a unit on this tile, in place of the one that stood there.
    pub fn place_unit(&mut self, unit: Unit)
        ensures
            *final(self) == (Tile { unit: Some(unit), ..*old(self) }),
    {
        self.unit = Some(unit);
    }
}

#[derive(Copy, Clone, PartialEq, Eq, Structural, Hash, Debug)]
pub struct Player {
    pub id: ID,
}

impl Player {
    pub fn new(id: ID) -> (player: Self)
        ensures
            player == (Player { id }),
    {
        Self { id }
    }

    pub fn id(self) -> (id: ID)
        ensures
            id == self.id,
    {
        self.id
    }
}

} // verus!
