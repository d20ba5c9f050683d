//! What the rules say of an action before it is carried out: whether it is
//! allowed, and what it would take.

use vstd::prelude::*;
use super::consts::EMPTY_TILE_DEFENCE;
use super::coord::Coord;
use super::engine::{EngineView, PlayerAction, PlayerActionError};
use super::ids::ID;
use super::layout::LocationView;
use super::tile::{Tile, UnitType};
use super::topology::touches;
use super::unit::{spec_can_defeat, spec_description, spec_merge_result};
use super::walk::{distance_is, lemma_walk_longer, near, reach};

verus! {

/// The defence of a tile is that of the unit on it.
pub open spec fn tile_defence(tile: Tile) -> u8 {
    match tile.unit {
        Some(unit) => spec_description(unit.unit_type).defence,
        None => EMPTY_TILE_DEFENCE,
    }
}

/// Cell `j` lies next to cell `i` in the same region and defends with at
/// least `power`.
pub open spec fn guard(v: LocationView, i: int, j: int, power: u8) -> bool {
    near(v.cells, i, j) && v.region_of[j] == v.region_of[i] && tile_defence(v.tiles[j]) >= power
}

/// Cell `i` is defended with at least `power`: by the unit on it, or by a
/// unit next to it in the same region.
pub open spec fn guarded(v: LocationView, i: int, power: u8) -> bool {
    tile_defence(v.tiles[i]) >= power || exists|j: int| #[trigger] guard(v, i, j, power)
}

/// A unit of this type that belongs to region `origin` can step on cell `i`.
/// It can pass over every land tile of its region, and end its way there on
/// an empty tile or on a unit that it merges with. On a land tile of another
/// region it can only end its way, if the tile touches its region and is
/// defended with less than the unit attacks with.
pub open spec fn can_step_at(
    v: LocationView,
    unit_type: UnitType,
    i: int,
    origin: ID,
    last: bool,
) -> bool {
    &&& 0 <= i < v.size()
    &&& v.tiles[i].surface is Land
    &&& v.region_of[i] is Some
    &&& if v.region_of[i] == Some(origin) {
        !last || v.tiles[i].unit is None || spec_merge_result(
            unit_type,
            v.tiles[i].unit->0.unit_type,
        ) is Some
    } else {
        last && touches(v, i, origin) && !guarded(v, i, spec_description(unit_type).attack)
    }
}

pub open spec fn can_step(
    v: LocationView,
    unit_type: UnitType,
    c: Coord,
    origin: ID,
    last: bool,
) -> bool {
    v.has_tile(c) && can_step_at(v, unit_type, v.index_of(c), origin, last)
}

/// For each cell, whether the unit can step on it on its way to cell `goal`.
pub open spec fn step_mask(v: LocationView, unit_type: UnitType, origin: ID, goal: int) -> Seq<
    bool,
> {
    Seq::new(v.cells.len(), |i: int| can_step_at(v, unit_type, i, origin, i == goal))
}

/// The least number of steps from cell `from` to cell `to` over open cells.
pub open spec fn distance(cells: Seq<Coord>, open: Seq<bool>, from: int, to: int) -> nat {
    choose|d: nat| distance_is(cells, open, from, to, d)
}

/// There is one least number of steps.
pub proof fn lemma_distance(cells: Seq<Coord>, open: Seq<bool>, from: int, to: int, d: nat)
    requires
        distance_is(cells, open, from, to, d),
    ensures
        distance(cells, open, from, to) == d,
        reach(cells, open, from, to),
{
    let e = distance(cells, open, from, to);
    assert(distance_is(cells, open, from, to, e));
    if e < d {
        lemma_walk_longer(cells, open, from, to, e, (d - 1) as nat);
    }
    if d < e {
        lemma_walk_longer(cells, open, from, to, d, (e - 1) as nat);
    }
}

/// What it takes to put a unit on a tile: whether the tile changes its
/// region, the unit that leaves the tile, and the type that the two units
/// merge into if they do.
pub struct Placing {
    pub need_relocation: bool,
    pub old_unit: Option<ID>,
    pub upgrade_to: Option<UnitType>,
}

/// Whether a unit of this type from region `origin` may be put on the tile
/// `dst` by the player, and what that takes. The tile has to be one that the
/// unit can end its way on. A unit of the player's on it has to merge with
/// the newcomer; a unit of somebody else has to be defeated by it.
pub open spec fn placing(
    v: LocationView,
    player: ID,
    origin: ID,
    unit_type: UnitType,
    dst: Coord,
) -> Result<Placing, PlayerActionError> {
    if !can_step(v, unit_type, dst, origin, true) {
        Err(PlayerActionError::InaccessibleLocation(dst))
    } else {
        let i = v.index_of(dst);
        let region = v.region_of[i]->0;
        match v.tiles[i].unit {
            None => Ok(
                Placing { need_relocation: region != origin, old_unit: None, upgrade_to: None },
            ),
            Some(unit) => if v.owner_of(region).id == player {
                match spec_merge_result(unit_type, unit.unit_type) {
                    None => Err(PlayerActionError::AlreadyOccupied(dst)),
                    Some(merged) => Ok(
                        Placing {
                            need_relocation: region != origin,
                            old_unit: Some(unit.id),
                            upgrade_to: if merged != unit_type {
                                Some(merged)
                            } else {
                                None
                            },
                        },
                    ),
                }
            } else if !spec_can_defeat(unit_type, unit.unit_type) {
                Err(PlayerActionError::CannotAttack(dst))
            } else {
                Ok(
                    Placing {
                        need_relocation: region != origin,
                        old_unit: Some(unit.id),
                        upgrade_to: None,
                    },
                )
            },
        }
    }
}

/// Whether the player may buy a unit of this type with the money of region
/// `origin` and put it on the tile `dst`. The type has to be for sale, the
/// unit has to be allowed on the tile without merging into a unit of another
/// type, and the region has to afford it.
pub open spec fn buying(
    e: EngineView,
    player: ID,
    origin: ID,
    unit_type: UnitType,
    dst: Coord,
) -> Result<Placing, PlayerActionError> {
    if !spec_description(unit_type).is_purchasable {
        Err(PlayerActionError::CannotBePlacedByPlayer(unit_type))
    } else {
        match placing(e.location, player, origin, unit_type, dst) {
            Err(error) => Err(error),
            Ok(placing) => if placing.upgrade_to is Some {
                Err(PlayerActionError::InaccessibleLocation(dst))
            } else if !e.region_info.contains_key(origin) || e.region_info[origin].money_balance
                < spec_description(unit_type).purchase_cost {
                Err(PlayerActionError::NotEnoughMoney(origin))
            } else {
                Ok(placing)
            },
        }
    }
}

/// What it takes to move a unit: the unit, the moves that it pays, its
/// region, and what it takes to put it on the tile where it goes.
pub struct Moving {
    pub unit_id: ID,
    pub moves: u32,
    pub region: ID,
    pub placing: Placing,
}

/// Whether the player may move the unit on the tile `src` to the tile `dst`,
/// and what that takes. The tile `src` has to lie in a region of the player
/// and carry a unit; the unit has to be allowed on `dst`; there has to be a
/// way for it, and it has to have the moves for the way. A move that
/// captures a tile or replaces a unit takes all the moves that the unit has.
pub open spec fn moving(e: EngineView, player: ID, src: Coord, dst: Coord) -> Result<
    Moving,
    PlayerActionError,
> {
    let v = e.location;
    if !v.has_tile(src) || v.region_of[v.index_of(src)] is None {
        Err(PlayerActionError::InaccessibleLocation(src))
    } else {
        let from = v.index_of(src);
        let region = v.region_of[from]->0;
        if v.owner_of(region).id != player {
            Err(PlayerActionError::NotOwned(src))
        } else if v.tiles[from].unit is None {
            Err(PlayerActionError::NoUnit(src))
        } else if src == dst {
            Err(PlayerActionError::InaccessibleLocation(dst))
        } else {
            let unit = v.tiles[from].unit->0;
            match placing(v, player, region, unit.unit_type, dst) {
                Err(error) => Err(error),
                Ok(placing) => {
                    let to = v.index_of(dst);
                    let open = step_mask(v, unit.unit_type, region, to);
                    let have = e.unit_info[unit.id].moves_left;
                    if !reach(v.cells, open, from, to) {
                        Err(PlayerActionError::InaccessibleLocation(dst))
                    } else if have < distance(v.cells, open, from, to) {
                        Err(
                            PlayerActionError::NotEnoughMoves(
                                have,
                                distance(v.cells, open, from, to) as u32,
                            ),
                        )
                    } else {
                        Ok(
                            Moving {
                                unit_id: unit.id,
                                moves: if placing.need_relocation || placing.old_unit is Some {
                                    have
                                } else {
                                    distance(v.cells, open, from, to) as u32
                                },
                                region,
                                placing,
                            },
                        )
                    }
                },
            }
        }
    }
}

/// What it takes to upgrade a unit: the region that pays, the price, and
/// the type of the new unit.
pub struct Upgrading {
    pub region: ID,
    pub price: i32,
    pub unit_type: UnitType,
}

/// Whether the player may upgrade the unit on the tile `dst`, and what that
/// takes. The tile has to lie in a region of the player and carry a unit
/// with a next tier, and the region has to afford the difference in price.
pub open spec fn upgrading(e: EngineView, player: ID, dst: Coord) -> Result<
    Upgrading,
    PlayerActionError,
> {
    let v = e.location;
    if !v.has_tile(dst) || v.region_of[v.index_of(dst)] is None {
        Err(PlayerActionError::InaccessibleLocation(dst))
    } else {
        let at = v.index_of(dst);
        let region = v.region_of[at]->0;
        if v.owner_of(region).id != player {
            Err(PlayerActionError::NotOwned(dst))
        } else if v.tiles[at].unit is None {
            Err(PlayerActionError::NoUnit(dst))
        } else {
            let old = spec_description(v.tiles[at].unit->0.unit_type);
            match old.upgrades_to {
                None => Err(PlayerActionError::NoUpgrade(old.name)),
                Some(next) => {
                    let price = spec_description(next).purchase_cost - old.purchase_cost;
                    if !e.region_info.contains_key(region) || e.region_info[region].money_balance
                        < price {
                        Err(PlayerActionError::NotEnoughMoney(region))
                    } else {
                        Ok(Upgrading { region, price: price as i32, unit_type: next })
                    }
                },
            }
        }
    }
}

/// Why the player may not act at all, if he may not: nobody is left to move,
/// it is another player's turn, or the game has a winner.
pub open spec fn turn_error(e: EngineView, player: ID) -> Option<PlayerActionError> {
    if e.active_player_num >= e.players.len() {
        Some(PlayerActionError::GameAlreadyFinished)
    } else if player != e.players[e.active_player_num as int].id {
        Some(PlayerActionError::OtherPlayersTurn(e.players[e.active_player_num as int].id))
    } else if e.winner is Some {
        Some(PlayerActionError::GameAlreadyFinished)
    } else {
        None
    }
}

/// Why the engine refuses the action of the player, if it does.
pub open spec fn act_error(e: EngineView, player: ID, action: PlayerAction) -> Option<
    PlayerActionError,
> {
    match turn_error(e, player) {
        Some(error) => Some(error),
        None => match action {
            PlayerAction::PlaceNewUnit(origin, unit_type, dst) => match buying(
                e,
                player,
                origin,
                unit_type,
                dst,
            ) {
                Err(error) => Some(error),
                Ok(_) => None,
            },
            PlayerAction::UpgradeUnit(dst) => match upgrading(e, player, dst) {
                Err(error) => Some(error),
                Ok(_) => None,
            },
            PlayerAction::MoveUnit { src, dst } => match moving(e, player, src, dst) {
                Err(error) => Some(error),
                Ok(_) => None,
            },
            PlayerAction::EndTurn => None,
        },
    }
}

} // verus!
