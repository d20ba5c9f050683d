//! The unit catalogue: what each type of unit costs and can do, and the
//! rules of combat and merging that follow from it.

use vstd::prelude::*;
use super::consts::STANDARD_MOVES_NUM;
use super::ids::ID;
use super::tile::{Tile, Unit, UnitType};

verus! {

/// The fixed attributes of one type of unit.
#[derive(Copy, Clone, PartialEq, Eq, Hash, Debug)]
pub struct UnitDescription {
    pub name: UnitType,
    /// Graves and trees belong to nobody: any unit may take their place.
    pub is_unownable: bool,
    pub is_purchasable: bool,
    pub purchase_cost: i32,
    pub turn_cost: i32,
    pub max_moves: u32,
    pub defence: u8,
    pub attack: u8,
    /// By how many tiers this unit lifts the unit it is merged into.
    pub upgrade_levels: u8,
    /// The next tier of the chain Militia, Soldier, Knight, GreatKnight.
    pub upgrades_to: Option<UnitType>,
}

/// The catalogue entry of each unit type.
pub open spec fn spec_description(unit_type: UnitType) -> UnitDescription {
    match unit_type {
        UnitType::Grave => UnitDescription {
            name: UnitType::Grave,
            is_unownable: true,
            is_purchasable: false,
            purchase_cost: 0,
            turn_cost: 0,
            max_moves: 0,
            defence: 0,
            attack: 0,
            upgrade_levels: 0,
            upgrades_to: None,
        },
        UnitType::PineTree => UnitDescription {
            name: UnitType::PineTree,
            is_unownable: true,
            is_purchasable: false,
            purchase_cost: 0,
            turn_cost: 1,
            max_moves: 0,
            defence: 0,
            attack: 0,
            upgrade_levels: 0,
            upgrades_to: None,
        },
        UnitType::PalmTree => UnitDescription {
            name: UnitType::PalmTree,
            is_unownable: true,
            is_purchasable: false,
            purchase_cost: 0,
            turn_cost: 1,
            max_moves: 0,
            defence: 0,
            attack: 0,
            upgrade_levels: 0,
            upgrades_to: None,
        },
        UnitType::Village => UnitDescription {
            name: UnitType::Village,
            is_unownable: false,
            is_purchasable: false,
            purchase_cost: 0,
            turn_cost: 0,
            max_moves: 0,
            defence: 1,
            attack: 0,
            upgrade_levels: 0,
            upgrades_to: None,
        },
        UnitType::Tower => UnitDescription {
            name: UnitType::Tower,
            is_unownable: false,
            is_purchasable: true,
            purchase_cost: 15,
            turn_cost: 0,
            max_moves: 0,
            defence: 2,
            attack: 0,
            upgrade_levels: 0,
            upgrades_to: None,
        },
        UnitType::GreatKnight => UnitDescription {
            name: UnitType::GreatKnight,
            is_unownable: false,
            is_purchasable: true,
            purchase_cost: 40,
            turn_cost: 54,
            max_moves: STANDARD_MOVES_NUM,
            defence: 3,
            attack: 4,
            upgrade_levels: 4,
            upgrades_to: None,
        },
        UnitType::Knight => UnitDescription {
            name: UnitType::Knight,
            is_unownable: false,
            is_purchasable: true,
            purchase_cost: 30,
            turn_cost: 18,
            max_moves: STANDARD_MOVES_NUM,
            defence: 3,
            attack: 3,
            upgrade_levels: 3,
            upgrades_to: Some(UnitType::GreatKnight),
        },
        UnitType::Soldier => UnitDescription {
            name: UnitType::Soldier,
            is_unownable: false,
            is_purchasable: true,
            purchase_cost: 20,
            turn_cost: 6,
            max_moves: STANDARD_MOVES_NUM,
            defence: 2,
            attack: 2,
            upgrade_levels: 2,
            upgrades_to: Some(UnitType::Knight),
        },
        UnitType::Militia => UnitDescription {
            name: UnitType::Militia,
            is_unownable: false,
            is_purchasable: true,
            purchase_cost: 10,
            turn_cost: 2,
            max_moves: STANDARD_MOVES_NUM,
            defence: 1,
            attack: 1,
            upgrade_levels: 1,
            upgrades_to: Some(UnitType::Soldier),
        },
    }
}

/// The catalogue entry of a unit type.
#[verifier::when_used_as_spec(spec_description)]
pub fn description(unit_type: UnitType) -> (d: UnitDescription)
    ensures
        d == spec_description(unit_type),
{
    match unit_type {
        UnitType::Grave => UnitDescription {
            name: UnitType::Grave,
            is_unownable: true,
            is_purchasable: false,
            purchase_cost: 0,
            turn_cost: 0,
            max_moves: 0,
            defence: 0,
            attack: 0,
            upgrade_levels: 0,
            upgrades_to: None,
        },
        UnitType::PineTree => UnitDescription {
            name: UnitType::PineTree,
            is_unownable: true,
            is_purchasable: false,
            purchase_cost: 0,
            turn_cost: 1,
            max_moves: 0,
            defence: 0,
            attack: 0,
            upgrade_levels: 0,
            upgrades_to: None,
        },
        UnitType::PalmTree => UnitDescription {
            name: UnitType::PalmTree,
            is_unownable: true,
            is_purchasable: false,
            purchase_cost: 0,
            turn_cost: 1,
            max_moves: 0,
            defence: 0,
            attack: 0,
            upgrade_levels: 0,
            upgrades_to: None,
        },
        UnitType::Village => UnitDescription {
            name: UnitType::Village,
            is_unownable: false,
            is_purchasable: false,
            purchase_cost: 0,
            turn_cost: 0,
            max_moves: 0,
            defence: 1,
            attack: 0,
            upgrade_levels: 0,
            upgrades_to: None,
        },
        UnitType::Tower => UnitDescription {
            name: UnitType::Tower,
            is_unownable: false,
            is_purchasable: true,
            purchase_cost: 15,
            turn_cost: 0,
            max_moves: 0,
            defence: 2,
            attack: 0,
            upgrade_levels: 0,
            upgrades_to: None,
        },
        UnitType::GreatKnight => UnitDescription {
            name: UnitType::GreatKnight,
            is_unownable: false,
            is_purchasable: true,
            purchase_cost: 40,
            turn_cost: 54,
            max_moves: STANDARD_MOVES_NUM,
            defence: 3,
            attack: 4,
            upgrade_levels: 4,
            upgrades_to: None,
        },
        UnitType::Knight => UnitDescription {
            name: UnitType::Knight,
            is_unownable: false,
            is_purchasable: true,
            purchase_cost: 30,
            turn_cost: 18,
            max_moves: STANDARD_MOVES_NUM,
            defence: 3,
            attack: 3,
            upgrade_levels: 3,
            upgrades_to: Some(UnitType::GreatKnight),
        },
        UnitType::Soldier => UnitDescription {
            name: UnitType::Soldier,
            is_unownable: false,
            is_purchasable: true,
            purchase_cost: 20,
            turn_cost: 6,
            max_moves: STANDARD_MOVES_NUM,
            defence: 2,
            attack: 2,
            upgrade_levels: 2,
            upgrades_to: Some(UnitType::Knight),
        },
        UnitType::Militia => UnitDescription {
            name: UnitType::Militia,
            is_unownable: false,
            is_purchasable: true,
            purchase_cost: 10,
            turn_cost: 2,
            max_moves: STANDARD_MOVES_NUM,
            defence: 1,
            attack: 1,
            upgrade_levels: 1,
            upgrades_to: Some(UnitType::Soldier),
        },
    }
}

/// What the engine remembers of a unit between actions: its type, and how
/// many moves it has left in this turn.
#[derive(Copy, Clone, PartialEq, Eq, Hash, Debug)]
pub struct UnitInfo {
    pub unit_type: UnitType,
    pub moves_left: u32,
}

impl UnitInfo {
    /// The record of a unit that has just been created: it cannot move before
    /// the next turn.
    pub fn from(unit: Unit) -> (info: Self)
        ensures
            info == (UnitInfo { unit_type: unit.unit_type, moves_left: 0 }),
    {
        Self { unit_type: unit.unit_type(), moves_left: 0 }
    }

    /// A new unit together with its record.
    pub fn new(id: ID, unit_type: UnitType) -> (pair: (Unit, Self))
        ensures
            pair.0 == (Unit { id, unit_type }),
            pair.1 == (UnitInfo { unit_type, moves_left: 0 }),
    {
        let unit = Unit::new(id, unit_type);
        let info = Self::from(unit);
        (unit, info)
    }

    pub fn moves_left(&self) -> (moves: u32)
        ensures
            moves == self.moves_left,
    {
        self.moves_left
    }

    pub fn description(&self) -> (d: UnitDescription)
        ensures
            d == spec_description(self.unit_type),
    {
        description(self.unit_type)
    }

    /// Takes `amount` moves from the unit, which has to have them.
    pub fn subtract_moves(&mut self, amount: u32)
        requires
            amount <= old(self).moves_left,
        ensures
            *final(self) == (UnitInfo {
                moves_left: (old(self).moves_left - amount) as u32,
                ..*old(self)
            }),
    {
        self.moves_left -= amount;
    }

    /// Gives the unit all the moves that its type has in a turn.
    pub fn refill_moves(&mut self)
        ensures
            *final(self) == (UnitInfo {
                moves_left: spec_description(old(self).unit_type).max_moves,
                ..*old(self)
            }),
    {
        self.moves_left = description(self.unit_type).max_moves;
    }
}

/// The attacker defeats the defender when its attack is strictly greater than
/// the defender's defence.
pub open spec fn spec_can_defeat(attacker: UnitType, defender: UnitType) -> bool {
    spec_description(attacker).attack > spec_description(defender).defence
}

#[verifier::when_used_as_spec(spec_can_defeat)]
pub fn can_defeat(attacker: UnitType, defender: UnitType) -> (wins: bool)
    ensures
        wins == spec_can_defeat(attacker, defender),
{
    description(attacker).attack > description(defender).defence
}

/// Units of every type can stand on land and on nothing else.
pub open spec fn spec_can_step_on(unit_type: UnitType, tile: &Tile) -> bool {
    tile.surface is Land
}

#[verifier::when_used_as_spec(spec_can_step_on)]
pub fn can_step_on(unit_type: UnitType, tile: &Tile) -> (can: bool)
    ensures
        can == spec_can_step_on(unit_type, tile),
{
    tile.surface().is_land()
}

/// The unit type reached from `unit_type` by `steps` upgrades, if the chain
/// is that long.
pub open spec fn upgraded(unit_type: UnitType, steps: nat) -> Option<UnitType>
    decreases steps,
{
    if steps == 0 {
        Some(unit_type)
    } else {
        match spec_description(unit_type).upgrades_to {
            Some(next) => upgraded(next, (steps - 1) as nat),
            None => None,
        }
    }
}

/// The type of unit that results when `actor` moves onto `goal`. A grave or a
/// tree gives way to the actor. A unit with a next tier is lifted by as many
/// tiers as the actor counts for. Anything else cannot be merged.
pub open spec fn spec_merge_result(actor: UnitType, goal: UnitType) -> Option<UnitType> {
    if spec_description(goal).is_unownable {
        Some(actor)
    } else if spec_description(goal).upgrades_to is Some && spec_description(actor).upgrade_levels
        > 0 {
        upgraded(goal, spec_description(actor).upgrade_levels as nat)
    } else {
        None
    }
}

#[verifier::when_used_as_spec(spec_merge_result)]
pub fn merge_result(actor: UnitType, goal: UnitType) -> (res: Option<UnitType>)
    ensures
        res == spec_merge_result(actor, goal),
{
    let goal_description = description(goal);
    if goal_description.is_unownable {
        Some(actor)
    } else if goal_description.upgrades_to.is_some() {
        let levels: u8 = description(actor).upgrade_levels;
        if levels == 0 {
            None
        } else {
            let mut result: Option<UnitType> = Some(goal);
            let mut done: u8 = 0;
            while done < levels
                invariant
                    done <= levels,
                    upgraded(goal, levels as nat) == match result {
                        Some(r) => upgraded(r, (levels - done) as nat),
                        None => None,
                    },
                decreases levels - done,
            {
                result =
                match result {
                    Some(r) => description(r).upgrades_to,
                    None => None,
                };
                done += 1;
            }
            result
        }
    } else {
        None
    }
}

/// A merge never yields a unit that nobody can own, and a unit that moves
/// onto a grave or a tree stays what it is.
pub proof fn lemma_merge_result(actor: UnitType, goal: UnitType)
    ensures
        spec_description(goal).is_unownable ==> spec_merge_result(actor, goal) == Some(actor),
        spec_merge_result(actor, goal) matches Some(t) ==> (t == actor || !spec_description(
            t,
        ).is_unownable),
        goal == UnitType::Village || goal == UnitType::Tower ==> spec_merge_result(actor, goal)
            is None,
        spec_merge_result(actor, goal) matches Some(t) ==> (t == actor || t != UnitType::Village),
{
    reveal_with_fuel(upgraded, 6);
}

} // verus!
