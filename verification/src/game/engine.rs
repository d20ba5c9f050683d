//! The game engine: the state of a game and the actions of its players.

use vstd::prelude::*;
use std::collections::HashMap;
use super::consts::{
    CONTROLLED_REGION_STARTING_MONEY, EMPTY_TILE_DEFENCE, EMPTY_TILE_INCOME,
    MIN_CONTROLLED_REGION_SIZE,
};
use super::coord::Coord;
use super::ids::{IdProducer, ID};
use super::layout::{
    capital_mask, count_set, friendly, is_capital, lemma_count_set_bound, lemma_count_set_pair,
    lemma_count_set_same, lemma_place_of, lemma_count_set_single, lemma_count_set_zero,
    region_mask, LocationView,
};
use super::location::{
    Location, LocationModificationError, LocationValidationError, RegionTransformation,
};
use super::rules::{
    among_players, capital_count, covered, owned_by, players_agree, region_counts,
    region_hosts_unit, validate_location, validate_regions, covered_at, location_fault,
    regions_fault, crowned, grounded, lawful, lemma_ground_kept, misplaced, miscrowned,
    LocationRulesValidationError, RegionsValidationError,
};
use super::tile::{Player, Tile, Unit, UnitType};
use super::judge::{
    act_error, buying, can_step, can_step_at, distance, guard, guarded, lemma_distance, moving,
    placing, step_mask,
    tile_defence, turn_error, upgrading, Moving, Placing, Upgrading,
};
use super::topology::{
    add_tile_error, among, fate, heir, lemma_gone_is_foreign, lemma_regrouped_from_same_ground,
    lemma_regrouped_same_ground, mergeable, recorded, regrouped, touches, issued,
};
use super::unit::{
    can_defeat, can_step_on, description, lemma_merge_result, merge_result, spec_description,
    UnitInfo,
};
use super::walk::{distance_is, near, walk};

verus! {

broadcast use vstd::std_specs::hash::group_hash_axioms;

/// No balance of a region may be further from zero than this when an action
/// begins.
pub const MONEY_LIMIT: i32 = 100_000_000;

/// The largest number of tiles and of regions that the engine acts on.
pub const MAP_LIMIT: usize = 20_000_000;

/// The engine acts as long as no identifier beyond this one was issued.
pub const ID_LIMIT: ID = 4_000_000_000;

/// What can be wrong with the state of an engine.
#[derive(Copy, Clone, PartialEq, Eq, Hash, Debug)]
pub enum EngineValidationError {
    LocationError(LocationRulesValidationError),
    RegionsError(RegionsValidationError),
    RegionWithoutInfo(ID),
    UnitWithoutInfo(ID),
    UnlinkedRegionInfo(ID),
    UnlinkedUnitInfo(ID),
}

impl From<LocationRulesValidationError> for EngineValidationError {
    fn from(e: LocationRulesValidationError) -> (error: Self) {
        EngineValidationError::LocationError(e)
    }
}

impl vstd::std_specs::convert::FromSpecImpl<LocationRulesValidationError> for EngineValidationError {
    open spec fn obeys_from_spec() -> bool {
        true
    }

    open spec fn from_spec(e: LocationRulesValidationError) -> Self {
        EngineValidationError::LocationError(e)
    }
}

impl From<LocationValidationError> for EngineValidationError {
    fn from(e: LocationValidationError) -> (error: Self) {
        EngineValidationError::LocationError(LocationRulesValidationError::InitiationError(e))
    }
}

impl vstd::std_specs::convert::FromSpecImpl<LocationValidationError> for EngineValidationError {
    open spec fn obeys_from_spec() -> bool {
        true
    }

    open spec fn from_spec(e: LocationValidationError) -> Self {
        EngineValidationError::LocationError(LocationRulesValidationError::InitiationError(e))
    }
}

impl From<RegionsValidationError> for EngineValidationError {
    fn from(e: RegionsValidationError) -> (error: Self) {
        EngineValidationError::RegionsError(e)
    }
}

impl vstd::std_specs::convert::FromSpecImpl<RegionsValidationError> for EngineValidationError {
    open spec fn obeys_from_spec() -> bool {
        true
    }

    open spec fn from_spec(e: RegionsValidationError) -> Self {
        EngineValidationError::RegionsError(e)
    }
}

/// What a player can do.
#[derive(Copy, Clone, PartialEq, Eq, Hash, Debug)]
pub enum PlayerAction {
    /// Buy a unit with the money of a region and place it on a tile.
    PlaceNewUnit(ID, UnitType, Coord),
    /// Replace the unit on a tile by a unit of the next tier.
    UpgradeUnit(Coord),
    MoveUnit { src: Coord, dst: Coord },
    EndTurn,
}

/// Why an action was refused.
#[derive(Copy, Clone, PartialEq, Eq, Hash, Debug)]
pub enum PlayerActionError {
    OtherPlayersTurn(ID),
    LocationError(LocationModificationError),
    InaccessibleLocation(Coord),
    AlreadyOccupied(Coord),
    CannotAttack(Coord),
    NotEnoughMoney(ID),
    /// The moves that the unit has, and the moves that it needs.
    NotEnoughMoves(u32, u32),
    NotOwned(Coord),
    CannotBePlacedByPlayer(UnitType),
    NoUnit(Coord),
    NoUpgrade(UnitType),
    GameAlreadyFinished,
}

impl From<LocationModificationError> for PlayerActionError {
    fn from(e: LocationModificationError) -> (error: Self) {
        PlayerActionError::LocationError(e)
    }
}

impl vstd::std_specs::convert::FromSpecImpl<LocationModificationError> for PlayerActionError {
    open spec fn obeys_from_spec() -> bool {
        true
    }

    open spec fn from_spec(e: LocationModificationError) -> Self {
        PlayerActionError::LocationError(e)
    }
}

/// What the engine knows of a region. The balance is kept here and nowhere
/// else; income and maintenance are counted anew after every action.
#[derive(Copy, Clone, PartialEq, Eq, Hash, Debug)]
pub struct RegionInfo {
    pub money_balance: i32,
    pub income_from_fields: i32,
    pub maintenance_cost: i32,
}

impl RegionInfo {
    pub fn new(money_balance: i32) -> (info: Self)
        ensures
            info == (RegionInfo { money_balance, income_from_fields: 0, maintenance_cost: 0 }),
    {
        RegionInfo { money_balance, income_from_fields: 0, maintenance_cost: 0 }
    }

    pub fn can_afford(&self, sum: i32) -> (can: bool)
        ensures
            can == (self.money_balance >= sum),
    {
        self.money_balance >= sum
    }

    pub fn change_balance(&mut self, diff: i32)
        requires
            i32::MIN <= old(self).money_balance + diff <= i32::MAX,
        ensures
            *final(self) == (RegionInfo {
                money_balance: (old(self).money_balance + diff) as i32,
                ..*old(self)
            }),
    {
        self.money_balance += diff;
    }
}

/// The state of a game as the contracts see it.
pub struct EngineView {
    pub players: Seq<Player>,
    /// For each player, whether he is still in the game.
    pub activity: Map<ID, bool>,
    pub winner: Option<ID>,
    pub current_turn: u32,
    pub active_player_num: usize,
    pub location: LocationView,
    pub region_info: Map<ID, RegionInfo>,
    pub unit_info: Map<ID, UnitInfo>,
    /// The identifier that was issued last.
    pub last_id: ID,
}

/// The unit with this identifier stands on tile `i`.
pub open spec fn unit_on(tiles: Seq<Tile>, i: int, id: ID) -> bool {
    0 <= i < tiles.len() && tiles[i].unit is Some && tiles[i].unit->0.id == id
}

/// The record `info` is that of a unit: it has the unit's type, and no more
/// moves than the type has in a turn.
pub open spec fn record_of(info: UnitInfo, unit: Unit) -> bool {
    info.unit_type == unit.unit_type && info.moves_left <= spec_description(
        info.unit_type,
    ).max_moves
}

/// Every unit on the map has a record of its own with its type, every
/// record belongs to a unit on the map, and no identifier of a unit is
/// greater than the last that was issued.
pub open spec fn units_booked(e: EngineView) -> bool {
    &&& forall|i: int|
        0 <= i < e.location.tiles.len() && (#[trigger] e.location.tiles[i]).unit is Some ==> {
            let unit = e.location.tiles[i].unit->0;
            &&& e.unit_info.contains_key(unit.id)
            &&& record_of(e.unit_info[unit.id], unit)
            &&& unit.id <= e.last_id
        }
    &&& forall|id: ID| #[trigger]
        e.unit_info.contains_key(id) ==> exists|i: int| unit_on(e.location.tiles, i, id)
    &&& forall|i: int, j: int|
        0 <= i < j < e.location.tiles.len() && (#[trigger] e.location.tiles[i]).unit is Some && (
        #[trigger] e.location.tiles[j]).unit is Some ==> e.location.tiles[i].unit->0.id
            != e.location.tiles[j].unit->0.id
}

/// Every region has a record and every record belongs to a region.
pub open spec fn regions_booked(e: EngineView) -> bool {
    &&& forall|id: ID| #[trigger] e.region_info.contains_key(id) ==> e.location.has_region(id)
    &&& forall|id: ID| #[trigger] e.location.has_region(id) ==> e.region_info.contains_key(id)
}

/// Everything of a location's rules but the capitals.
pub open spec fn settled(v: LocationView) -> bool {
    &&& v.valid()
    &&& covered(v)
    &&& grounded(v.cells, v.tiles)
    &&& forall|i: int| !#[trigger] misplaced(v.tiles, i)
}

/// A change of the unit on one land tile leaves a settled location settled.
pub proof fn lemma_settled_with_unit(v: LocationView, i: int, unit: Option<Unit>)
    requires
        settled(v),
        0 <= i < v.size(),
        unit is Some ==> v.tiles[i].surface is Land,
    ensures
        settled(v.with_unit(i, unit)),
{
    let w = v.with_unit(i, unit);
    lemma_ground_kept(v.cells, v.tiles, w.tiles);
    assert forall|j: int| 0 <= j < w.size() implies #[trigger] covered_at(w, j) by {
        assert(covered_at(v, j));
    }
    assert forall|j: int| !#[trigger] misplaced(w.tiles, j) by {
        assert(!misplaced(v.tiles, j));
    }
}

/// A change of the unit on one tile that puts no village there and takes
/// none from there leaves the number of capitals of every region as it is.
pub proof fn lemma_capitals_with_unit(v: LocationView, i: int, unit: Option<Unit>, id: ID)
    requires
        v.shaped(),
        0 <= i < v.size(),
        is_capital(v.tiles[i]) == is_capital(Tile { unit, ..v.tiles[i] }) || v.region_of[i] != Some(
            id,
        ),
    ensures
        v.with_unit(i, unit).capital_count(id) == v.capital_count(id),
        v.with_unit(i, unit).region_size(id) == v.region_size(id),
{
    let w = v.with_unit(i, unit);
    lemma_count_set_same(
        capital_mask(v.region_of, v.tiles, id),
        capital_mask(w.region_of, w.tiles, id),
        v.size(),
    );
}

/// Only units differ between the two states, and no identifier was taken
/// back.
pub open spec fn reshuffled(old: EngineView, new: EngineView) -> bool {
    &&& new.players == old.players
    &&& new.activity == old.activity
    &&& new.winner == old.winner
    &&& new.current_turn == old.current_turn
    &&& new.active_player_num == old.active_player_num
    &&& new.region_info == old.region_info
    &&& new.location.same_ground(old.location)
    &&& old.last_id <= new.last_id
}

/// No balance is further from zero than `bound`.
pub open spec fn modest(infos: Map<ID, RegionInfo>, bound: int) -> bool {
    forall|id: ID| #[trigger]
        infos.contains_key(id) ==> -bound <= infos[id].money_balance <= bound
}

/// The change takes the record of region `id` away.
pub open spec fn drops(change: RegionTransformation, id: ID) -> bool {
    match change {
        RegionTransformation::Delete(gone) => gone == id,
        RegionTransformation::Merge { from, into } => from == id,
        RegionTransformation::Split { .. } => false,
    }
}

/// The change gives region `id` a record.
pub open spec fn adds(change: RegionTransformation, id: ID) -> bool {
    match change {
        RegionTransformation::Split { from, into } => into@.contains(id),
        _ => false,
    }
}

pub open spec fn dropped(changes: Seq<RegionTransformation>, upto: int, id: ID) -> bool {
    exists|j: int| 0 <= j < upto && j < changes.len() && drops(#[trigger] changes[j], id)
}

pub open spec fn added(changes: Seq<RegionTransformation>, upto: int, id: ID) -> bool {
    exists|j: int| 0 <= j < upto && j < changes.len() && adds(#[trigger] changes[j], id)
}

/// The changes come in an order that the records can follow: a deletion or
/// a split comes first and concerns a region with a record that is not the
/// target; every merge goes into the target and takes a region with a
/// record that no earlier change took or gave.
pub open spec fn followable(
    infos: Map<ID, RegionInfo>,
    changes: Seq<RegionTransformation>,
    target: ID,
) -> bool {
    forall|k: int|
        0 <= k < changes.len() ==> match #[trigger] changes[k] {
            RegionTransformation::Delete(id) => k == 0 && infos.contains_key(id) && id != target,
            RegionTransformation::Split { from, into } => k == 0 && infos.contains_key(from)
                && from != target && 1 <= into@.len() <= 6 && into@[0] == from
                && !into@.contains(target) && into@.no_duplicates(),
            RegionTransformation::Merge { from, into } => into == target && infos.contains_key(
                from,
            ) && from != target && !dropped(changes, k, from) && !added(changes, k, from),
        }
}

/// Region `id` has two tiles or more.
pub open spec fn large(region_of: Seq<Option<ID>>, id: ID) -> bool {
    count_set(region_mask(region_of, id), region_of.len() as int) >= MIN_CONTROLLED_REGION_SIZE
}

/// How many of the first `upto` regions of a list have two tiles or more.
pub open spec fn heirs(region_of: Seq<Option<ID>>, into: Seq<ID>, upto: int) -> int
    decreases upto,
{
    if upto <= 0 {
        0
    } else {
        heirs(region_of, into, upto - 1) + if large(region_of, into[upto - 1]) {
            1int
        } else {
            0int
        }
    }
}

/// What falls to the region at place `q` of the list when the balance `sum`
/// of a region is shared among the regions that came of it. The regions of
/// two tiles or more get equal shares, rounded towards zero; what is left of
/// a positive balance goes in ones to the first of them. Smaller regions get
/// nothing.
pub open spec fn share(region_of: Seq<Option<ID>>, sum: int, into: Seq<ID>, q: int) -> int {
    let owners = heirs(region_of, into, into.len() as int);
    if !large(region_of, into[q]) {
        0
    } else if sum >= 0 {
        sum / owners + if heirs(region_of, into, q) < sum % owners {
            1int
        } else {
            0int
        }
    } else {
        -((-sum) / owners)
    }
}

/// The records after region `from` fell apart into the regions of the
/// list: `from` has lost its record, and each region of the list has a new
/// one with its share of the balance.
pub open spec fn parted(
    region_of: Seq<Option<ID>>,
    infos: Map<ID, RegionInfo>,
    from: ID,
    into: Seq<ID>,
) -> Map<ID, RegionInfo> {
    Map::new(
        |id: ID| (infos.contains_key(id) && id != from) || into.contains(id),
        |id: ID|
            if into.contains(id) {
                RegionInfo {
                    money_balance: share(
                        region_of,
                        infos[from].money_balance as int,
                        into,
                        into.index_of(id),
                    ) as i32,
                    income_from_fields: 0,
                    maintenance_cost: 0,
                }
            } else {
                infos[id]
            },
    )
}

/// The records after the first `upto` changes of the regions: a region that
/// is deleted loses its record; a region that merges into another hands its
/// balance on to it and loses its record; a region that falls apart has its
/// balance shared among the regions that come of it.
pub open spec fn followed(
    region_of: Seq<Option<ID>>,
    infos: Map<ID, RegionInfo>,
    changes: Seq<RegionTransformation>,
    upto: int,
) -> Map<ID, RegionInfo>
    decreases upto,
{
    if upto <= 0 {
        infos
    } else {
        let before = followed(region_of, infos, changes, upto - 1);
        match changes[upto - 1] {
            RegionTransformation::Delete(id) => before.remove(id),
            RegionTransformation::Merge { from, into } => before.remove(from).insert(
                into,
                RegionInfo {
                    money_balance: (before[into].money_balance + before[from].money_balance) as i32,
                    ..before[into]
                },
            ),
            RegionTransformation::Split { from, into } => parted(region_of, before, from, into@),
        }
    }
}

/// The count of the larger regions does not go down along the list.
pub proof fn lemma_heirs_grow(region_of: Seq<Option<ID>>, into: Seq<ID>, from: int, upto: int)
    requires
        0 <= from <= upto,
    ensures
        0 <= heirs(region_of, into, from) <= heirs(region_of, into, upto),
    decreases upto,
{
    if from < upto {
        lemma_heirs_grow(region_of, into, from, upto - 1);
    } else if from > 0 {
        lemma_heirs_grow(region_of, into, from - 1, from - 1);
    }
}

/// After the changes, the regions with a record are those of the new
/// location.
pub proof fn lemma_records_follow(
    old: LocationView,
    new: LocationView,
    at: int,
    target: ID,
    changes: Seq<RegionTransformation>,
    id: ID,
)
    requires
        old.valid(),
        old.has_region(target),
        old.region_of[at] != Some(target),
        touches(old, at, target),
        regrouped(old, new, at, target),
        recorded(old, new, at, target, changes),
        new.wf(),
    ensures
        new.has_region(id) <==> (old.has_region(id) && !dropped(changes, changes.len() as int, id))
            || added(changes, changes.len() as int, id),
{
    let lead: int = if changes.len() > 0 && !(changes[0] is Merge) {
        1
    } else {
        0
    };
    let gone = old.region_of[at];
    lemma_gone_is_foreign(old, at, target);
    if dropped(changes, changes.len() as int, id) {
        let j = choose|j: int|
            0 <= j < changes.len() && j < changes.len() && drops(#[trigger] changes[j], id);
        if j >= lead {
            assert(mergeable(old, at, target, id));
            if new.has_region(id) {
                assert(heir(old, new, at, target, id));
            }
        }
    }
    if added(changes, changes.len() as int, id) {
        let j = choose|j: int|
            0 <= j < changes.len() && j < changes.len() && adds(#[trigger] changes[j], id);
        assert(j == 0 && lead == 1);
        match changes[0] {
            RegionTransformation::Split { from, into } => {
                let q = choose|q: int| 0 <= q < into@.len() && into@[q] == id;
                if q >= 1 {
                    assert(new.has_region(into@[q]));
                }
            },
            _ => {},
        }
    }
    if new.has_region(id) {
        assert(heir(old, new, at, target, id));
        if !old.has_region(id) {
            assert(lead == 1);
            match changes[0] {
                RegionTransformation::Split { from, into } => {
                    assert(into@.contains(id));
                    assert(adds(changes[0], id));
                },
                _ => {},
            }
        } else if dropped(changes, changes.len() as int, id) {
            let j = choose|j: int|
                0 <= j < changes.len() && j < changes.len() && drops(#[trigger] changes[j], id);
            if j < lead {
            }
        }
    }
    if old.has_region(id) && !dropped(changes, changes.len() as int, id)
        && !added(changes, changes.len() as int, id) && !new.has_region(id) {
        if mergeable(old, at, target, id) {
            let k = choose|k: int|
                lead <= k < changes.len() && #[trigger] changes[k] == (
                RegionTransformation::Merge { from: id, into: target });
            assert(drops(changes[k], id));
        } else {
            assert(gone == Some(id));
            if lead == 0 {
            } else {
                match changes[0] {
                    RegionTransformation::Delete(g) => {
                        assert(drops(changes[0], id));
                    },
                    RegionTransformation::Split { from, into } => {
                        assert(into@[0] == id);
                        assert(adds(changes[0], id));
                    },
                    _ => {},
                }
            }
        }
    }
}

/// A region that the change of hands did not touch has the tiles that it
/// had.
pub proof fn lemma_untouched(
    old: LocationView,
    new: LocationView,
    at: int,
    target: ID,
    changes: Seq<RegionTransformation>,
    id: ID,
)
    requires
        old.valid(),
        old.has_region(target),
        old.region_of[at] != Some(target),
        touches(old, at, target),
        regrouped(old, new, at, target),
        recorded(old, new, at, target, changes),
        new.tiles == old.tiles,
        new.has_region(id),
        id != target,
        old.region_of[at] != Some(id),
        !added(changes, changes.len() as int, id),
    ensures
        old.has_region(id),
        new.region_size(id) == old.region_size(id),
        new.capital_count(id) == old.capital_count(id),
{
    assert(heir(old, new, at, target, id));
    lemma_gone_is_foreign(old, at, target);
    if !old.has_region(id) {
        match changes[0] {
            RegionTransformation::Split { from, into } => {
                assert(into@.contains(id));
                assert(adds(changes[0], id));
            },
            _ => {},
        }
    }
    assert forall|x: int| 0 <= x < old.region_of.len() implies (old.region_of[x] == Some(id)) == (
    new.region_of[x] == Some(id)) by {
        if x != at {
            assert(fate(old, new, at, target, x));
        }
    }
    lemma_count_set_same(
        region_mask(old.region_of, id),
        region_mask(new.region_of, id),
        old.region_of.len() as int,
    );
    lemma_count_set_same(
        capital_mask(old.region_of, old.tiles, id),
        capital_mask(new.region_of, new.tiles, id),
        old.region_of.len() as int,
    );
}

/// The care for the capital of one region leaves the other regions alone.
pub proof fn lemma_fixed_elsewhere(old: LocationView, new: LocationView, fixed: ID, id: ID)
    requires
        capital_fixed(old, new, fixed),
        new.same_ground(old),
        old.shaped(),
        id != fixed,
    ensures
        new.region_size(id) == old.region_size(id),
        new.capital_count(id) == old.capital_count(id),
{
    assert forall|x: int| 0 <= x < old.region_of.len() implies capital_mask(
        old.region_of,
        old.tiles,
        id,
    )[x] == capital_mask(new.region_of, new.tiles, id)[x] by {
        assert(new.tiles[x] == if old.region_of[x] != Some(fixed) {
            old.tiles[x]
        } else {
            new.tiles[x]
        });
    }
    lemma_count_set_same(
        capital_mask(old.region_of, old.tiles, id),
        capital_mask(new.region_of, new.tiles, id),
        old.region_of.len() as int,
    );
}

/// Between the two states units may have come and gone: a unit that stands
/// in both has the record that it had, and a unit that is new has an
/// identifier that was issued since.
pub open spec fn evolved(old: EngineView, new: EngineView) -> bool {
    &&& old.last_id <= new.last_id
    &&& forall|id: ID| #[trigger]
        new.unit_info.contains_key(id) ==> if old.unit_info.contains_key(id) {
            new.unit_info[id] == old.unit_info[id]
        } else {
            id > old.last_id
        }
}

pub proof fn lemma_evolved_on(a: EngineView, b: EngineView, c: EngineView)
    requires
        units_booked(a),
        units_booked(b),
        evolved(a, b),
        evolved(b, c),
    ensures
        evolved(a, c),
{
    assert forall|id: ID| #[trigger] c.unit_info.contains_key(id) implies if a.unit_info.contains_key(
        id,
    ) {
        c.unit_info[id] == a.unit_info[id]
    } else {
        id > a.last_id
    } by {
        if a.unit_info.contains_key(id) {
            let i = choose|i: int| unit_on(a.location.tiles, i, id);
            assert(a.location.tiles[i].unit is Some);
            assert(id <= a.last_id);
            if !b.unit_info.contains_key(id) {
                assert(id > b.last_id);
            }
        } else if b.unit_info.contains_key(id) {
            assert(id > a.last_id);
        }
    }
}

/// Every region that is miscrowned is on the list.
pub open spec fn crowned_but(v: LocationView, dirty: Seq<ID>, from: int) -> bool {
    forall|h: int|
        0 <= h < v.regions.len() && miscrowned(v, (#[trigger] v.regions[h]).id) ==> exists|
            q: int,
        | from <= q < dirty.len() && #[trigger] dirty[q] == v.regions[h].id
}

/// The rules that hold of every state of a game between two actions: the
/// location meets the rules of the game, every unit and every region has
/// its record, and there are no other records.
pub open spec fn orderly(e: EngineView) -> bool {
    &&& settled(e.location)
    &&& crowned(e.location)
    &&& units_booked(e)
    &&& regions_booked(e)
}

/// The engine has room to act: the map and the list of regions are not
/// larger than `MAP_LIMIT`, the balances are within `MONEY_LIMIT`, and
/// identifiers and turns are left to count with.
pub open spec fn roomy(e: EngineView) -> bool {
    &&& e.location.size() <= MAP_LIMIT
    &&& e.location.regions.len() <= MAP_LIMIT
    &&& e.last_id <= ID_LIMIT
    &&& e.current_turn < u32::MAX
    &&& modest(e.region_info, MONEY_LIMIT as int)
}

/// Nothing but the units, the regions and their records differs between
/// the two states.
pub open spec fn same_table(old: EngineView, new: EngineView) -> bool {
    &&& new.players == old.players
    &&& new.activity == old.activity
    &&& new.winner == old.winner
    &&& new.current_turn == old.current_turn
    &&& new.active_player_num == old.active_player_num
    &&& new.location.cells == old.location.cells
    &&& new.location.tiles.len() == old.location.tiles.len()
    &&& forall|i: int|
        0 <= i < new.location.tiles.len() ==> (#[trigger] new.location.tiles[i]).id
            == old.location.tiles[i].id && new.location.tiles[i].surface
            == old.location.tiles[i].surface
}

/// The record of a region after `amount` was taken from its balance.
pub open spec fn debited(info: RegionInfo, amount: int) -> RegionInfo {
    RegionInfo { money_balance: (info.money_balance - amount) as i32, ..info }
}

/// The state after a unit was bought and put on tile `at` of the region
/// that paid for it: the unit that stood there is gone with its record, the
/// new unit stands there and cannot move yet, and the region has paid.
pub open spec fn bought(old: EngineView, origin: ID, unit_type: UnitType, at: int) -> EngineView {
    let id = (old.last_id + 1) as ID;
    let cleared = match old.location.tiles[at].unit {
        Some(unit) => old.unit_info.remove(unit.id),
        None => old.unit_info,
    };
    EngineView {
        location: old.location.with_unit(at, None).with_unit(at, Some(Unit { id, unit_type })),
        unit_info: cleared.insert(id, UnitInfo { unit_type, moves_left: 0 }),
        region_info: old.region_info.insert(
            origin,
            debited(old.region_info[origin], spec_description(unit_type).purchase_cost as int),
        ),
        last_id: id,
        ..old
    }
}

/// The state after the unit on tile `at` was upgraded to `unit_type` for
/// `price`: a new unit of that type stands there and cannot move yet, and
/// the region has paid.
pub open spec fn upgraded_to(
    old: EngineView,
    region: ID,
    unit_type: UnitType,
    price: int,
    at: int,
) -> EngineView {
    let id = (old.last_id + 1) as ID;
    EngineView {
        location: old.location.with_unit(at, None).with_unit(at, Some(Unit { id, unit_type })),
        unit_info: old.unit_info.remove(old.location.tiles[at].unit->0.id).insert(
            id,
            UnitInfo { unit_type, moves_left: 0 },
        ),
        region_info: old.region_info.insert(region, debited(old.region_info[region], price)),
        last_id: id,
        ..old
    }
}

/// The state after the unit on tile `from` went to tile `to` of its own
/// region and paid `moves` for the way, without merging into another unit:
/// what stood on `to` is gone with its record.
pub open spec fn walked(old: EngineView, from: int, to: int, moves: int) -> EngineView {
    let unit = old.location.tiles[from].unit->0;
    let cleared = match old.location.tiles[to].unit {
        Some(other) => old.unit_info.remove(other.id),
        None => old.unit_info,
    };
    EngineView {
        location: old.location.with_unit(to, None).with_unit(from, None).with_unit(
            to,
            Some(unit),
        ),
        unit_info: cleared.remove(unit.id).insert(
            unit.id,
            UnitInfo {
                moves_left: (old.unit_info[unit.id].moves_left - moves) as u32,
                ..old.unit_info[unit.id]
            },
        ),
        ..old
    }
}

/// The records after region `target` has paid `price`.
pub open spec fn charged(infos: Map<ID, RegionInfo>, target: ID, price: int) -> Map<ID, RegionInfo> {
    infos.insert(target, debited(infos[target], price))
}

/// State `new` comes of state `placed` as tile `at` goes to region
/// `target`, which pays `price`, with the given changes of the regions. In
/// `placed` the unit that takes the tile stands on it already. The regions
/// are regrouped, and the changes are those that this made. The records of
/// the regions follow the changes. The capitals of the target, of the region
/// that lost the tile and of the new regions are seen to; every other tile is
/// left as it is. A unit that stands in both states has the record that it
/// had. The new regions have the next identifiers that no region has, and
/// the new capitals have the identifiers that follow those, in the order in
/// which the regions are seen to.
pub open spec fn taken(
    placed: EngineView,
    new: EngineView,
    at: int,
    target: ID,
    price: int,
    changes: Seq<RegionTransformation>,
) -> bool {
    &&& same_table(placed, new)
    &&& evolved(placed, new)
    &&& units_booked(new)
    &&& regrouped(placed.location, new.location, at, target)
    &&& recorded(placed.location, new.location, at, target, changes)
    &&& new.region_info == charged(
        followed(new.location.region_of, placed.region_info, changes, changes.len() as int),
        target,
        price,
    )
    &&& capitals_fixed(
        LocationView { tiles: placed.location.tiles, ..new.location },
        new.location,
        Set::new(|id: ID| unsettled(placed.location, at, target, id)),
    )
    &&& issued(
        placed.location.regions,
        placed.last_id,
        last_after(placed.last_id, changes),
        changes,
    )
    &&& new.last_id == last_after(placed.last_id, changes) + bare_upto(
        LocationView { tiles: placed.location.tiles, ..new.location },
        watch_list(target, placed.location.region_of[at], changes),
        watch_list(target, placed.location.region_of[at], changes).len() as int,
    )
    &&& crowned_in_turn(
        LocationView { tiles: placed.location.tiles, ..new.location },
        new.location,
        watch_list(target, placed.location.region_of[at], changes),
        last_after(placed.last_id, changes) as int,
    )
}

/// State `new` comes of state `placed` as tile `at` goes to region
/// `target`, which pays `price`.
pub open spec fn annexed(placed: EngineView, new: EngineView, at: int, target: ID, price: int) -> bool {
    exists|changes: Seq<RegionTransformation>| #[trigger]
        taken(placed, new, at, target, price, changes)
}

/// The state after a unit was put on tile `at` and before anybody has paid
/// for it.
pub open spec fn landed(old: EngineView, origin: ID, unit_type: UnitType, at: int) -> EngineView {
    EngineView { region_info: old.region_info, ..bought(old, origin, unit_type, at) }
}

/// Whether the unit on tile `at` has all the moves of its type left.
pub open spec fn fresh(e: EngineView, at: int) -> bool {
    let there = e.unit_info[e.location.tiles[at].unit->0.id];
    there.moves_left == spec_description(there.unit_type).max_moves
}

/// What a move did. The unit has walked to the tile and paid for the way.
/// A tile of another region has gone to the region of the unit. A unit of
/// the player that stood on the tile has merged with the newcomer: a new
/// unit of the merged type stands there, with all the moves of its type if
/// the unit that stood there had all of its own, and with none otherwise.
pub open spec fn moved(old: EngineView, new: EngineView, m: Moving, from: int, to: int) -> bool {
    let there = walked(old, from, to, m.moves as int);
    if m.placing.need_relocation {
        annexed(there, new, to, m.region, 0)
    } else {
        match m.placing.upgrade_to {
            Some(merged) => new == merged_at(there, to, merged, fresh(old, to)),
            None => new == there,
        }
    }
}

/// Where there is a way, there is a least number of steps.
pub proof fn lemma_shortest(cells: Seq<Coord>, open: Seq<bool>, from: int, to: int, steps: nat)
    requires
        walk(cells, open, from, to, steps),
    ensures
        exists|d: nat| distance_is(cells, open, from, to, d),
    decreases steps,
{
    if steps > 0 && walk(cells, open, from, to, (steps - 1) as nat) {
        lemma_shortest(cells, open, from, to, (steps - 1) as nat);
    } else {
        assert(distance_is(cells, open, from, to, steps));
    }
}

/// What the unit on a tile costs its region each turn.
pub open spec fn tile_upkeep(tile: Tile) -> int {
    match tile.unit {
        Some(unit) => spec_description(unit.unit_type).turn_cost as int,
        None => 0,
    }
}

/// What the units on the first `upto` tiles cost region `id` each turn.
pub open spec fn upkeep_upto(v: LocationView, id: ID, upto: int) -> int
    decreases upto,
{
    if upto <= 0 {
        0
    } else {
        upkeep_upto(v, id, upto - 1) + if v.region_of[upto - 1] == Some(id) {
            tile_upkeep(v.tiles[upto - 1])
        } else {
            0
        }
    }
}

/// What the units of region `id` cost it each turn.
pub open spec fn upkeep(v: LocationView, id: ID) -> int {
    upkeep_upto(v, id, v.size())
}

pub proof fn lemma_upkeep_bound(v: LocationView, id: ID, upto: int)
    requires
        0 <= upto,
    ensures
        0 <= upkeep_upto(v, id, upto) <= 54 * upto,
    decreases upto,
{
    if upto > 0 {
        lemma_upkeep_bound(v, id, upto - 1);
    }
}

/// The record of a region with income and maintenance counted anew: each
/// tile brings the same income, and each unit costs what its type costs.
pub open spec fn counted(v: LocationView, id: ID, info: RegionInfo) -> RegionInfo {
    RegionInfo {
        money_balance: info.money_balance,
        income_from_fields: (v.region_size(id) * EMPTY_TILE_INCOME) as i32,
        maintenance_cost: upkeep(v, id) as i32,
    }
}

/// Income and maintenance of every record are those of its region.
pub open spec fn cached(e: EngineView) -> bool {
    forall|id: ID| #[trigger]
        e.region_info.contains_key(id) ==> e.region_info[id] == counted(
            e.location,
            id,
            e.region_info[id],
        )
}

/// The records of the regions with income and maintenance counted anew. A
/// record without a region is left as it is.
pub open spec fn recounted(e: EngineView) -> Map<ID, RegionInfo> {
    Map::new(
        |id: ID| e.region_info.contains_key(id),
        |id: ID|
            if e.location.has_region(id) {
                counted(e.location, id, e.region_info[id])
            } else {
                e.region_info[id]
            },
    )
}

/// Every region has a record.
pub open spec fn regions_recorded(e: EngineView) -> bool {
    forall|id: ID| #[trigger] e.location.has_region(id) ==> e.region_info.contains_key(id)
}

/// The record of a region after a turn's income and maintenance.
pub open spec fn credited(info: RegionInfo) -> RegionInfo {
    RegionInfo {
        money_balance: (info.money_balance + info.income_from_fields
            - info.maintenance_cost) as i32,
        ..info
    }
}

/// The records of the regions after a turn's income: every region of two
/// tiles or more, and every smaller region with a unit, has its income added
/// and its maintenance taken.
pub open spec fn paid(e: EngineView) -> Map<ID, RegionInfo> {
    Map::new(
        |id: ID| e.region_info.contains_key(id),
        |id: ID|
            if region_counts(e.location, id) {
                credited(e.region_info[id])
            } else {
                e.region_info[id]
            },
    )
}

/// The record of a unit with all the moves of its type.
pub open spec fn refilled(info: UnitInfo) -> UnitInfo {
    UnitInfo { moves_left: spec_description(info.unit_type).max_moves, ..info }
}

/// The records of the units after every unit got its moves back.
pub open spec fn rested(e: EngineView) -> Map<ID, UnitInfo> {
    Map::new(|id: ID| e.unit_info.contains_key(id), |id: ID| refilled(e.unit_info[id]))
}

/// A tree stands on the tile.
pub open spec fn is_tree(tile: Tile) -> bool {
    tile.unit is Some && (tile.unit->0.unit_type == UnitType::PalmTree || tile.unit->0.unit_type
        == UnitType::PineTree)
}

/// In direction `d` of cell `i` lies water: a water tile, or the end of the
/// map.
pub open spec fn wet(v: LocationView, i: int, d: int) -> bool {
    let c = v.cells[i].neighbor(d);
    !v.has_tile(c) || v.tiles[v.index_of(c)].surface is Water
}

/// In direction `d` of cell `i` stands a tree.
pub open spec fn wooded(v: LocationView, i: int, d: int) -> bool {
    let c = v.cells[i].neighbor(d);
    v.has_tile(c) && is_tree(v.tiles[v.index_of(c)])
}

/// In how many of the first `upto` directions of cell `i` lies water.
pub open spec fn water_around(v: LocationView, i: int, upto: int) -> int
    decreases upto,
{
    if upto <= 0 {
        0
    } else {
        water_around(v, i, upto - 1) + if wet(v, i, upto - 1) {
            1int
        } else {
            0int
        }
    }
}

/// In how many of the first `upto` directions of cell `i` stands a tree.
pub open spec fn trees_around(v: LocationView, i: int, upto: int) -> int
    decreases upto,
{
    if upto <= 0 {
        0
    } else {
        trees_around(v, i, upto - 1) + if wooded(v, i, upto - 1) {
            1int
        } else {
            0int
        }
    }
}

/// The tree that grows on cell `i` at the end of this turn, if one does. A
/// palm grows next to water and a tree, but not in a turn that is a multiple
/// of five. A pine grows next to two trees in an even turn.
pub open spec fn grown(v: LocationView, turn: u32, i: int) -> Option<UnitType> {
    if turn % 2 != 0 && turn % 5 == 0 {
        None
    } else if water_around(v, i, 6) > 0 && trees_around(v, i, 6) >= 1 && turn % 5 != 0 {
        Some(UnitType::PalmTree)
    } else if trees_around(v, i, 6) >= 2 && turn % 2 == 0 {
        Some(UnitType::PineTree)
    } else {
        None
    }
}

/// For each tile, the tree that grows on it at the end of this turn: trees
/// grow on empty land only.
pub open spec fn forest_plan(v: LocationView, turn: u32) -> Seq<Option<UnitType>> {
    Seq::new(
        v.tiles.len(),
        |i: int|
            if v.tiles[i].surface is Land && v.tiles[i].unit is None {
                grown(v, turn, i)
            } else {
                None
            },
    )
}

/// For each tile, what takes the place of a grave on it: a pine.
pub open spec fn grave_plan(v: LocationView) -> Seq<Option<UnitType>> {
    Seq::new(
        v.tiles.len(),
        |i: int|
            if v.tiles[i].unit is Some && v.tiles[i].unit->0.unit_type == UnitType::Grave {
                Some(UnitType::PineTree)
            } else {
                None
            },
    )
}

/// The unit on the tile starves when its region is in debt: it is a unit
/// that somebody owns and that costs its region something.
pub open spec fn starves(e: EngineView, i: int) -> bool {
    &&& e.location.region_of[i] is Some
    &&& e.region_info.contains_key(e.location.region_of[i]->0)
    &&& e.region_info[e.location.region_of[i]->0].money_balance < 0
    &&& e.location.tiles[i].unit is Some
    &&& !spec_description(e.location.tiles[i].unit->0.unit_type).is_unownable
    &&& spec_description(e.location.tiles[i].unit->0.unit_type).turn_cost > 0
}

/// For each tile, what takes the place of a unit that starves on it: a
/// grave.
pub open spec fn starve_plan(e: EngineView) -> Seq<Option<UnitType>> {
    Seq::new(
        e.location.tiles.len(),
        |i: int|
            if starves(e, i) {
                Some(UnitType::Grave)
            } else {
                None
            },
    )
}

/// How many of the first `upto` tiles get a new unit by the plan.
pub open spec fn planned(plan: Seq<Option<UnitType>>, upto: int) -> int
    decreases upto,
{
    if upto <= 0 {
        0
    } else {
        planned(plan, upto - 1) + if plan[upto - 1] is Some {
            1int
        } else {
            0int
        }
    }
}

/// The new state is the old one with the units of the plan: where the plan
/// names a type, a new unit of that type stands that cannot move yet, and
/// the unit that stood there is gone with its record; everything else is as
/// it was. The new units have the identifiers that follow the last one, in
/// the order of the map.
pub open spec fn remade(old: EngineView, new: EngineView, plan: Seq<Option<UnitType>>) -> bool {
    &&& reshuffled(old, new)
    &&& evolved(old, new)
    &&& new.last_id == old.last_id + planned(plan, plan.len() as int)
    &&& forall|i: int|
        0 <= i < plan.len() && plan[i] is Some ==> (#[trigger] new.location.tiles[i]).unit->0.id
            == old.last_id + planned(plan, i + 1)
    &&& forall|i: int|
        0 <= i < plan.len() ==> (#[trigger] new.location.tiles[i]).unit == match plan[i] {
            Some(unit_type) => Some(Unit { id: new.location.tiles[i].unit->0.id, unit_type }),
            None => old.location.tiles[i].unit,
        }
    &&& forall|i: int|
        0 <= i < plan.len() && plan[i] is Some ==> new.location.tiles[i].unit->0.id > old.last_id
            && new.unit_info[(#[trigger] new.location.tiles[i]).unit->0.id].moves_left == 0
}

/// A unit that can move stands on a tile of the region.
pub open spec fn hosts_mover(v: LocationView, id: ID) -> bool {
    exists|i: int|
        #[trigger] v.in_region(i, id) && v.tiles[i].unit is Some && spec_description(
            v.tiles[i].unit->0.unit_type,
        ).max_moves != 0
}

/// The region keeps its owner in the game: it has two tiles or more, or a
/// unit that can move stands on it.
pub open spec fn keeps_alive(v: LocationView, id: ID) -> bool {
    v.region_size(id) >= MIN_CONTROLLED_REGION_SIZE || hosts_mover(v, id)
}

/// The player owns a region that keeps him in the game.
pub open spec fn alive(v: LocationView, player: ID) -> bool {
    exists|h: int| #[trigger] owned_by(v, h, player) && keeps_alive(v, v.regions[h].id)
}

/// The player was in the game and has just lost his last region that kept
/// him there.
pub open spec fn retired(e: EngineView, player: ID) -> bool {
    e.activity.contains_key(player) && e.activity[player] && !alive(e.location, player)
}

/// Who is in the game after the players without a region that keeps them
/// there have left it.
pub open spec fn checked_activity(e: EngineView) -> Map<ID, bool> {
    Map::new(
        |player: ID| e.activity.contains_key(player),
        |player: ID| e.activity[player] && alive(e.location, player),
    )
}

/// The records of the regions after the players who have just left the game
/// lost the money of their regions.
pub open spec fn forfeited(e: EngineView) -> Map<ID, RegionInfo> {
    Map::new(
        |id: ID| e.region_info.contains_key(id),
        |id: ID|
            if retired(e, e.location.owner_of(id).id) {
                RegionInfo { money_balance: 0, ..e.region_info[id] }
            } else {
                e.region_info[id]
            },
    )
}

/// The state after the players without a region that keeps them in the game
/// have left it.
pub open spec fn checked(e: EngineView) -> EngineView {
    EngineView { activity: checked_activity(e), region_info: forfeited(e), ..e }
}

/// Player `p` of the list is in the game.
pub open spec fn active_at(e: EngineView, p: int) -> bool {
    0 <= p < e.players.len() && e.activity.contains_key(e.players[p].id)
        && e.activity[e.players[p].id]
}

/// Player `p` of the list is the only one who is in the game.
pub open spec fn sole_active(e: EngineView, p: int) -> bool {
    active_at(e, p) && forall|q: int| q != p ==> !#[trigger] active_at(e, q)
}

/// The winner after the check for one: the only player of the list who is
/// still in the game, if there is just one, and the winner so far otherwise.
pub open spec fn winner_after(e: EngineView) -> Option<ID> {
    if exists|p: int| sole_active(e, p) {
        Some(e.players[choose|p: int| sole_active(e, p)].id)
    } else {
        e.winner
    }
}

/// The first player of the list from place `from` on who is in the game, or
/// the length of the list if there is none.
pub open spec fn next_active(e: EngineView, from: int) -> int
    decreases e.players.len() - from,
{
    if from < 0 || from >= e.players.len() {
        e.players.len() as int
    } else if active_at(e, from) {
        from
    } else {
        next_active(e, from + 1)
    }
}

/// The state after a whole turn ended, put together from its steps, in
/// their order: the regions get their income and pay their maintenance; the
/// units get their moves; trees grow; graves turn into pines; units of
/// regions in debt starve; players without ground leave the game; a player
/// who is left alone wins; the next turn begins with the first player who is
/// in the game.
pub open spec fn rolled_over(old: EngineView, new: EngineView) -> bool {
    exists|grown: EngineView, buried: EngineView, starved: EngineView| #[trigger]
        seasons(woken(old), grown, buried, starved) && new == next_turn(old, starved)
}

/// The state at the end of a turn after the regions got their income and
/// paid their maintenance, and the units got their moves.
pub open spec fn woken(old: EngineView) -> EngineView {
    let paid_up = EngineView { region_info: paid(old), ..old };
    EngineView { unit_info: rested(paid_up), ..paid_up }
}

/// Trees grew, then graves turned into pines, then units starved.
pub open spec fn seasons(
    fresh: EngineView,
    grown: EngineView,
    buried: EngineView,
    starved: EngineView,
) -> bool {
    &&& remade(fresh, grown, forest_plan(fresh.location, fresh.current_turn))
    &&& remade(grown, buried, grave_plan(grown.location))
    &&& remade(buried, starved, starve_plan(buried))
}

/// The state in which the next turn begins, after the players without
/// ground left the game and a winner was looked for.
pub open spec fn next_turn(old: EngineView, starved: EngineView) -> EngineView {
    let judged = checked(starved);
    let crowned_one = EngineView { winner: winner_after(judged), ..judged };
    EngineView {
        current_turn: (old.current_turn + 1) as u32,
        active_player_num: next_active(crowned_one, 0) as usize,
        ..crowned_one
    }
}

/// The state after the player whose turn it was ended it: it is the turn of
/// the next player who is in the game, and if there is none, the whole turn
/// ends.
pub open spec fn turn_ended(old: EngineView, new: EngineView) -> bool {
    let next = next_active(old, old.active_player_num + 1);
    if next < old.players.len() {
        new == EngineView { active_player_num: next as usize, ..old }
    } else {
        rolled_over(old, new)
    }
}

/// The state after the follow-up of every action: income and maintenance
/// are counted anew, and the players without ground leave the game.
pub open spec fn tidied(e: EngineView) -> EngineView {
    checked(EngineView { region_info: recounted(e), ..e })
}

/// What the action of the player did to the state before the follow-up.
pub open spec fn performed(
    old: EngineView,
    mid: EngineView,
    player: ID,
    action: PlayerAction,
) -> bool {
    match action {
        PlayerAction::PlaceNewUnit(origin, unit_type, dst) => {
            let at = old.location.index_of(dst);
            &&& same_table(old, mid)
            &&& evolved(old, mid)
            &&& if old.location.region_of[at] == Some(origin) {
                mid == bought(old, origin, unit_type, at)
            } else {
                annexed(
                    landed(old, origin, unit_type, at),
                    mid,
                    at,
                    origin,
                    spec_description(unit_type).purchase_cost as int,
                )
            }
        },
        PlayerAction::UpgradeUnit(dst) => mid == upgraded_to(
            old,
            upgrading(old, player, dst)->Ok_0.region,
            upgrading(old, player, dst)->Ok_0.unit_type,
            upgrading(old, player, dst)->Ok_0.price as int,
            old.location.index_of(dst),
        ),
        PlayerAction::MoveUnit { src, dst } => same_table(old, mid) && moved(
            old,
            mid,
            moving(old, player, src, dst)->Ok_0,
            old.location.index_of(src),
            old.location.index_of(dst),
        ),
        PlayerAction::EndTurn => turn_ended(old, mid),
    }
}

/// What an action that the engine accepted did to the state.
pub open spec fn acted(old: EngineView, new: EngineView, player: ID, action: PlayerAction) -> bool {
    exists|mid: EngineView| #[trigger] performed(old, mid, player, action) && new == tidied(mid)
}

/// The players on the list are those whose activity is recorded.
pub open spec fn enrolled(e: EngineView) -> bool {
    &&& forall|p: int|
        0 <= p < e.players.len() ==> e.activity.contains_key((#[trigger] e.players[p]).id)
    &&& forall|id: ID| #[trigger] e.activity.contains_key(id) ==> among_players(e.players, id)
}

/// What holds of the state of a game between two actions: the location
/// meets the rules of the game; every unit and every region has its record
/// and there are no others; income and maintenance are up to date; the
/// players on the list are those whose activity is recorded.
pub open spec fn sane(e: EngineView) -> bool {
    &&& orderly(e)
    &&& cached(e)
    &&& enrolled(e)
}

/// The greatest identifier of a unit on the first `upto` tiles, and at
/// least `least`.
pub open spec fn newest_unit(tiles: Seq<Tile>, least: ID, upto: int) -> ID
    decreases upto,
{
    if upto <= 0 {
        least
    } else {
        let before = newest_unit(tiles, least, upto - 1);
        match tiles[upto - 1].unit {
            Some(unit) => if unit.id > before {
                unit.id
            } else {
                before
            },
            None => before,
        }
    }
}

/// The record with which a region begins the game: a region of two tiles
/// or more has the starting money, a smaller one has nothing.
pub open spec fn starting_record(v: LocationView, id: ID) -> RegionInfo {
    counted(
        v,
        id,
        RegionInfo {
            money_balance: if v.region_size(id) >= MIN_CONTROLLED_REGION_SIZE {
                CONTROLLED_REGION_STARTING_MONEY
            } else {
                0
            },
            income_from_fields: 0,
            maintenance_cost: 0,
        },
    )
}

/// Two tiles carry units with one identifier.
pub open spec fn unit_twice(tiles: Seq<Tile>, i: int, j: int) -> bool {
    0 <= i < j < tiles.len() && tiles[i].unit is Some && tiles[j].unit is Some
        && tiles[i].unit->0.id == tiles[j].unit->0.id
}

/// No two units have one identifier.
pub open spec fn units_distinct(tiles: Seq<Tile>) -> bool {
    forall|i: int, j: int| !#[trigger] unit_twice(tiles, i, j)
}

/// The state in which a game begins: it is the first turn and the turn of
/// the first player, everybody is in the game, the regions have their
/// starting records, every unit has all the moves of its type, and every
/// identifier of a unit is behind the producer of identifiers.
pub open spec fn started(v: LocationView, players: Seq<Player>, last_id: ID) -> EngineView {
    EngineView {
        players,
        activity: Map::new(|id: ID| among_players(players, id), |id: ID| true),
        winner: None,
        current_turn: 1,
        active_player_num: 0,
        location: v,
        region_info: Map::new(|id: ID| v.has_region(id), |id: ID| starting_record(v, id)),
        unit_info: Map::new(
            |id: ID| exists|i: int| unit_on(v.tiles, i, id),
            |id: ID|
                refilled(
                    UnitInfo {
                        unit_type: v.tiles[choose|i: int| unit_on(v.tiles, i, id)].unit->0.unit_type,
                        moves_left: 0,
                    },
                ),
        ),
        last_id: newest_unit(v.tiles, last_id, v.size()),
    }
}

/// The players of the first `upto` places of the list who are in the game.
pub open spec fn actives_upto(e: EngineView, upto: int) -> Seq<Player>
    decreases upto,
{
    if upto <= 0 {
        Seq::empty()
    } else if active_at(e, upto - 1) {
        actives_upto(e, upto - 1).push(e.players[upto - 1])
    } else {
        actives_upto(e, upto - 1)
    }
}

/// The players who are in the game, in the order of the list.
pub open spec fn actives(e: EngineView) -> Seq<Player> {
    actives_upto(e, e.players.len() as int)
}

/// A unit with this identifier stands on the map.
pub open spec fn stands(tiles: Seq<Tile>, id: ID) -> bool {
    exists|i: int| unit_on(tiles, i, id)
}

/// A unit on tile `i` has no record of its own: it has none at all, or an
/// earlier unit has the same identifier.
pub open spec fn unrecorded(e: EngineView, i: int) -> bool {
    &&& 0 <= i < e.location.tiles.len()
    &&& e.location.tiles[i].unit is Some
    &&& (!e.unit_info.contains_key(e.location.tiles[i].unit->0.id) || exists|a: int|
        #[trigger] unit_twice(e.location.tiles, a, i))
}

/// The records are those of the regions and units of the location: every
/// region and every unit has a record of its own, and there are no others.
pub open spec fn consistent(e: EngineView) -> bool {
    &&& regions_booked(e)
    &&& forall|i: int| !#[trigger] unrecorded(e, i)
    &&& forall|id: ID| #[trigger]
        e.unit_info.contains_key(id) ==> exists|i: int| unit_on(e.location.tiles, i, id)
}

/// What is wrong with the records of an engine whose location and players
/// are in order, if the error says so. A region without a record is the
/// first in the order of the list. A unit without a record of its own is
/// the first in the order of the map. A record without a region or without
/// a unit is any such record.
pub open spec fn inconsistent(e: EngineView, error: EngineValidationError) -> bool {
    match error {
        EngineValidationError::RegionWithoutInfo(id) => exists|h: int|
            0 <= h < e.location.regions.len() && (#[trigger] e.location.regions[h]).id == id
                && !e.region_info.contains_key(id) && forall|g: int|
                0 <= g < h ==> e.region_info.contains_key((#[trigger] e.location.regions[g]).id),
        EngineValidationError::UnlinkedRegionInfo(id) => (forall|r: ID| #[trigger]
            e.location.has_region(r) ==> e.region_info.contains_key(r))
            && e.region_info.contains_key(id) && !e.location.has_region(id),
        EngineValidationError::UnitWithoutInfo(id) => regions_booked(e) && exists|i: int|
            #[trigger] unrecorded(e, i) && e.location.tiles[i].unit->0.id == id && forall|j: int|
                0 <= j < i ==> !#[trigger] unrecorded(e, j),
        EngineValidationError::UnlinkedUnitInfo(id) => regions_booked(e) && (forall|i: int|
            !#[trigger] unrecorded(e, i)) && e.unit_info.contains_key(id) && !exists|i: int|
            unit_on(e.location.tiles, i, id),
        _ => false,
    }
}

/// The record of a unit with the type of the unit.
pub open spec fn retyped(e: EngineView) -> Map<ID, UnitInfo> {
    Map::new(
        |id: ID| e.unit_info.contains_key(id),
        |id: ID|
            if stands(e.location.tiles, id) {
                UnitInfo {
                    unit_type: e.location.tiles[choose|i: int|
                        unit_on(e.location.tiles, i, id)].unit->0.unit_type,
                    ..e.unit_info[id]
                }
            } else {
                e.unit_info[id]
            },
    )
}

/// The state after a repair: income and maintenance of the regions are
/// counted anew, and the record of every unit has the type of the unit.
pub open spec fn repaired(e: EngineView) -> EngineView {
    EngineView { region_info: recounted(e), unit_info: retyped(e), ..e }
}

/// The engine can be repaired: the map is not larger than `MAP_LIMIT`,
/// every region has a record, and every unit has a record of its own.
pub open spec fn repairable(e: EngineView) -> bool {
    &&& e.location.wf()
    &&& e.location.size() <= MAP_LIMIT
    &&& regions_recorded(e)
    &&& forall|i: int| !#[trigger] unrecorded(e, i)
}

/// A repair that follows a repair changes nothing.
pub proof fn lemma_repair_twice(e: EngineView)
    requires
        repairable(e),
    ensures
        repairable(repaired(e)),
        repaired(repaired(e)) == repaired(e),
{
    let r = repaired(e);
    assert forall|id: ID| #[trigger] r.location.has_region(id) implies r.region_info.contains_key(
        id,
    ) by {
        assert(e.location.has_region(id));
    }
    assert forall|i: int| !#[trigger] unrecorded(r, i) by {
        assert(!unrecorded(e, i));
    }
    assert(recounted(r) =~= recounted(e));
    assert(retyped(r) =~= retyped(e));
}

/// A repair changes nothing in a state that is in order: a state that was
/// written down and read again in full is the same after a repair.
pub proof fn lemma_repair_of_sane(e: EngineView)
    requires
        sane(e),
    ensures
        repaired(e) == e,
{
    assert(recounted(e) =~= e.region_info);
    assert(retyped(e) =~= e.unit_info) by {
        assert forall|id: ID| #[trigger] e.unit_info.contains_key(id) implies retyped(e)[id]
            == e.unit_info[id] by {
            if stands(e.location.tiles, id) {
                let i = choose|i: int| unit_on(e.location.tiles, i, id);
                assert(e.location.tiles[i].unit is Some);
            }
        }
    }
}

/// The map that a list of entries describes when they are inserted in
/// their order.
pub open spec fn folded<V>(entries: Seq<(ID, V)>, upto: int) -> Map<ID, V>
    decreases upto,
{
    if upto <= 0 {
        Map::empty()
    } else {
        folded(entries, upto - 1).insert(entries[upto - 1].0, entries[upto - 1].1)
    }
}

/// Coordinates are ordered by `x` first and by `y` second.
pub open spec fn lower(a: Coord, b: Coord) -> bool {
    a.x < b.x || (a.x == b.x && a.y < b.y)
}

/// Cell `i` is marked and has the lowest coordinate of all marked cells.
pub open spec fn lowest_marked(cells: Seq<Coord>, marks: Seq<bool>, i: int) -> bool {
    &&& 0 <= i < cells.len()
    &&& marks[i]
    &&& forall|j: int|
        0 <= j < cells.len() && marks[j] && j != i ==> lower(cells[i], #[trigger] cells[j])
}

/// For each cell, whether it is an empty tile of region `id`.
pub open spec fn vacant_mask(v: LocationView, id: ID) -> Seq<bool> {
    Seq::new(v.region_of.len(), |i: int| v.region_of[i] == Some(id) && v.tiles[i].unit is None)
}

/// Where the capital of a region without one is put: on the empty tile
/// with the lowest coordinate, or if no tile is empty, on the tile with the
/// lowest coordinate of all.
pub open spec fn seat_of_capital(v: LocationView, id: ID, i: int) -> bool {
    if exists|j: int| 0 <= j < v.size() && #[trigger] vacant_mask(v, id)[j] {
        lowest_marked(v.cells, vacant_mask(v, id), i)
    } else {
        lowest_marked(v.cells, region_mask(v.region_of, id), i)
    }
}

/// What the care for the capital of region `id` does to the tiles. In a
/// region of one tile a village is removed. In a larger region without a
/// village, a new village takes the seat of the capital. Of several
/// villages, the one with the lowest coordinate stays and the others go.
/// Everything else is left as it is.
pub open spec fn capital_fixed(old: LocationView, new: LocationView, id: ID) -> bool {
    let size = old.region_size(id);
    let capitals = old.capital_count(id);
    forall|i: int|
        0 <= i < old.size() ==> #[trigger] new.tiles[i] == if old.region_of[i] != Some(id) {
            old.tiles[i]
        } else if size < MIN_CONTROLLED_REGION_SIZE {
            if is_capital(old.tiles[i]) {
                Tile { unit: None, ..old.tiles[i] }
            } else {
                old.tiles[i]
            }
        } else if capitals == 0 {
            if seat_of_capital(old, id, i) {
                Tile {
                    unit: Some(Unit { id: new.tiles[i].unit->0.id, unit_type: UnitType::Village }),
                    ..old.tiles[i]
                }
            } else {
                old.tiles[i]
            }
        } else if is_capital(old.tiles[i]) && !lowest_marked(
            old.cells,
            capital_mask(old.region_of, old.tiles, id),
            i,
        ) {
            Tile { unit: None, ..old.tiles[i] }
        } else {
            old.tiles[i]
        }
}

/// After tile `at` went to region `target`, the capital of region `id` is
/// seen to: it is the target, the region that lost the tile, or a region
/// that is new.
pub open spec fn unsettled(v: LocationView, at: int, target: ID, id: ID) -> bool {
    id == target || v.region_of[at] == Some(id) || !v.has_region(id)
}

/// The last identifier that was issued after the changes of the regions,
/// where `before` was the last one before them: the last new region of a
/// split has it.
pub open spec fn last_after(before: ID, changes: Seq<RegionTransformation>) -> ID {
    if changes.len() > 0 {
        match changes[0] {
            RegionTransformation::Split { from, into } => into@[into@.len() - 1],
            _ => before,
        }
    } else {
        before
    }
}

/// The regions whose capitals are seen to after tile `at` went to region
/// `target`, in the order in which they are seen to: the target, the region
/// that lost the tile, and the new regions that came of it.
pub open spec fn watch_list(
    target: ID,
    gone: Option<ID>,
    changes: Seq<RegionTransformation>,
) -> Seq<ID> {
    let base = match gone {
        Some(g) => seq![target, g],
        None => seq![target],
    };
    if changes.len() > 0 {
        match changes[0] {
            RegionTransformation::Split { from, into } => base + into@.subrange(
                1,
                into@.len() as int,
            ),
            _ => base,
        }
    } else {
        base
    }
}

/// The list of the regions whose capitals are seen to names none of them
/// twice, and of the regions of the new location it names those that are
/// unsettled.
pub proof fn lemma_watch_list(
    v0: LocationView,
    v1: LocationView,
    at: int,
    target: ID,
    changes: Seq<RegionTransformation>,
)
    requires
        0 <= at < v0.region_of.len(),
        v0.has_region(target),
        v0.region_of[at] is Some,
        v0.region_of[at] != Some(target),
        v0.has_region(v0.region_of[at]->0),
        recorded(v0, v1, at, target, changes),
    ensures
        watch_list(target, v0.region_of[at], changes).no_duplicates(),
        forall|id: ID| #[trigger]
            v1.has_region(id) ==> (watch_list(target, v0.region_of[at], changes).contains(id)
                <==> unsettled(v0, at, target, id)),
{
    let gone = v0.region_of[at];
    let g = gone->0;
    let list = watch_list(target, gone, changes);
    let base = seq![target, g];
    assert(base[0] == target && base[1] == g);
    let split = changes.len() > 0 && changes[0] is Split;
    if split {
        let into = changes[0]->Split_into@;
        assert(changes[0]->Split_from == g);
        assert(list =~= base + into.subrange(1, into.len() as int));
        assert forall|a: int, b: int| 0 <= a < b < list.len() implies list[a] != list[b] by {
            if b >= 2 {
                assert(list[b] == into[b - 1]);
                assert(!v0.has_region(into[b - 1]));
                if a >= 2 {
                    assert(list[a] == into[a - 1]);
                }
            }
        }
        assert forall|id: ID| #[trigger] v1.has_region(id) implies (list.contains(id)
            <==> unsettled(v0, at, target, id)) by {
            if list.contains(id) {
                let p = choose|p: int| 0 <= p < list.len() && list[p] == id;
                if p >= 2 {
                    assert(list[p] == into[p - 1]);
                    assert(!v0.has_region(into[p - 1]));
                }
            }
            if unsettled(v0, at, target, id) {
                if id == target {
                    assert(list[0] == id);
                } else if id == g {
                    assert(list[1] == id);
                } else {
                    assert(into.contains(id));
                    let p = choose|p: int| 0 <= p < into.len() && into[p] == id;
                    assert(p >= 1);
                    assert(list[p + 1] == id);
                }
            }
        }
    } else {
        assert(list =~= base);
        assert forall|id: ID| #[trigger] v1.has_region(id) implies (list.contains(id)
            <==> unsettled(v0, at, target, id)) by {
            if list.contains(id) {
                let p = choose|p: int| 0 <= p < list.len() && list[p] == id;
            }
            if unsettled(v0, at, target, id) {
                if id == target {
                    assert(list[0] == id);
                } else if id == g {
                    assert(list[1] == id);
                } else {
                    assert(v0.has_region(id));
                }
            }
        }
    }
}

/// The care for the capitals of a set of regions is that for any set with
/// the same regions of the location in it.
pub proof fn lemma_capitals_fixed_same(old: LocationView, new: LocationView, a: Set<ID>, b: Set<ID>)
    requires
        old.wf(),
        capitals_fixed(old, new, a),
        forall|id: ID| #[trigger] old.has_region(id) ==> (a.contains(id) <==> b.contains(id)),
    ensures
        capitals_fixed(old, new, b),
{
    assert forall|i: int| 0 <= i < old.size() implies #[trigger] new.tiles[i] == match old.region_of[i] {
        Some(id) => if b.contains(id) {
            fixed_tile(old, new, id, i)
        } else {
            old.tiles[i]
        },
        None => old.tiles[i],
    } by {
        if old.region_of[i] is Some {
            assert(old.has_region(old.region_of[i]->0));
        }
    }
}

/// What is recorded of the regions does not depend on the units.
pub proof fn lemma_recorded_on(
    v0: LocationView,
    v1: LocationView,
    f: LocationView,
    at: int,
    target: ID,
    changes: Seq<RegionTransformation>,
)
    requires
        recorded(v0, v1, at, target, changes),
        f.regions == v1.regions,
        f.region_of == v1.region_of,
    ensures
        recorded(v0, f, at, target, changes),
{
    assert forall|id: ID| f.has_region(id) == v1.has_region(id) by {}
}

/// Region `id` is large enough for a capital and has none.
pub open spec fn bare(v: LocationView, id: ID) -> bool {
    v.region_size(id) >= MIN_CONTROLLED_REGION_SIZE && v.capital_count(id) == 0
}

/// If region `id` was without a capital, the village on its seat has the
/// identifier `unit_id`.
pub open spec fn crowned_by(old: LocationView, new: LocationView, id: ID, unit_id: ID) -> bool {
    bare(old, id) ==> forall|i: int|
        0 <= i < old.size() && #[trigger] seat_of_capital(old, id, i) ==> new.tiles[i].unit == Some(
            Unit { id: unit_id, unit_type: UnitType::Village },
        )
}

/// How many of the first `upto` regions of the list are without a capital.
pub open spec fn bare_upto(v: LocationView, watch: Seq<ID>, upto: int) -> int
    decreases upto,
{
    if upto <= 0 {
        0
    } else {
        bare_upto(v, watch, upto - 1) + if bare(v, watch[upto - 1]) {
            1int
        } else {
            0int
        }
    }
}

/// The new capitals of the regions of the list have the identifiers that
/// follow `base`, in the order of the list.
pub open spec fn crowned_in_turn(
    old: LocationView,
    new: LocationView,
    watch: Seq<ID>,
    base: int,
) -> bool {
    forall|q: int|
        0 <= q < watch.len() ==> crowned_by(
            old,
            new,
            #[trigger] watch[q],
            (base + bare_upto(old, watch, q + 1)) as ID,
        )
}

/// The care for the capital of the next region of the list gives its new
/// village the next identifier and leaves the villages of the regions
/// before it as they are.
pub proof fn lemma_crowned_step(
    v: LocationView,
    before: LocationView,
    now: LocationView,
    dirty: Seq<ID>,
    q: int,
    base: int,
    last_before: int,
    last_now: int,
    done: Set<ID>,
)
    requires
        v.shaped(),
        before.same_ground(v),
        now.same_ground(v),
        0 <= q < dirty.len(),
        dirty.no_duplicates(),
        forall|id: ID| done.contains(id) <==> among(dirty, q, id),
        capitals_fixed(v, before, done),
        capital_fixed(before, now, dirty[q]),
        last_now == last_before + if bare(before, dirty[q]) {
            1int
        } else {
            0int
        },
        crowned_by(before, now, dirty[q], (last_before + 1) as ID),
        last_before == base + bare_upto(v, dirty, q),
        forall|p: int|
            0 <= p < q ==> crowned_by(
                v,
                before,
                #[trigger] dirty[p],
                (base + bare_upto(v, dirty, p + 1)) as ID,
            ),
    ensures
        last_now == base + bare_upto(v, dirty, q + 1),
        forall|p: int|
            0 <= p < q + 1 ==> crowned_by(
                v,
                now,
                #[trigger] dirty[p],
                (base + bare_upto(v, dirty, p + 1)) as ID,
            ),
{
    let d = dirty[q];
    assert(!done.contains(d)) by {
        if among(dirty, q, d) {
            let p = choose|p: int| 0 <= p < q && p < dirty.len() && #[trigger] dirty[p] == d;
            assert(dirty[p] == dirty[q]);
        }
    }
    assert forall|j: int| 0 <= j < v.size() && v.region_of[j] == Some(d) implies #[trigger] before.tiles[j]
        == v.tiles[j] by {
        assert(before.tiles[j] == match v.region_of[j] {
            Some(id) => if done.contains(id) {
                fixed_tile(v, before, id, j)
            } else {
                v.tiles[j]
            },
            None => v.tiles[j],
        });
    }
    assert(capital_mask(before.region_of, before.tiles, d) =~= capital_mask(
        v.region_of,
        v.tiles,
        d,
    ));
    assert(vacant_mask(before, d) =~= vacant_mask(v, d));
    assert(bare(before, d) == bare(v, d));
    assert forall|p: int| 0 <= p < q + 1 implies crowned_by(
        v,
        now,
        #[trigger] dirty[p],
        (base + bare_upto(v, dirty, p + 1)) as ID,
    ) by {
        let r = dirty[p];
        let unit_id = (base + bare_upto(v, dirty, p + 1)) as ID;
        if bare(v, r) {
            assert forall|i: int| 0 <= i < v.size() && #[trigger] seat_of_capital(v, r, i) implies now.tiles[i].unit
                == Some(Unit { id: unit_id, unit_type: UnitType::Village }) by {
                if p == q {
                    assert(seat_of_capital(before, d, i));
                } else {
                    assert(crowned_by(v, before, dirty[p], unit_id));
                    assert(v.region_of[i] == Some(r));
                    assert(r != d);
                    assert(now.tiles[i] == if before.region_of[i] != Some(d) {
                        before.tiles[i]
                    } else {
                        now.tiles[i]
                    });
                }
            }
        }
    }
}

/// The tile of cell `i` of region `id` after the care for the capital of
/// the region, which `capital_fixed` describes.
pub open spec fn fixed_tile(old: LocationView, new: LocationView, id: ID, i: int) -> Tile {
    if old.region_size(id) < MIN_CONTROLLED_REGION_SIZE {
        if is_capital(old.tiles[i]) {
            Tile { unit: None, ..old.tiles[i] }
        } else {
            old.tiles[i]
        }
    } else if old.capital_count(id) == 0 {
        if seat_of_capital(old, id, i) {
            Tile {
                unit: Some(Unit { id: new.tiles[i].unit->0.id, unit_type: UnitType::Village }),
                ..old.tiles[i]
            }
        } else {
            old.tiles[i]
        }
    } else if is_capital(old.tiles[i]) && !lowest_marked(
        old.cells,
        capital_mask(old.region_of, old.tiles, id),
        i,
    ) {
        Tile { unit: None, ..old.tiles[i] }
    } else {
        old.tiles[i]
    }
}

/// What the care for the capitals of the regions of a set does to the
/// tiles: the tiles of each of these regions are as `capital_fixed` says, and
/// all other tiles are left as they are.
pub open spec fn capitals_fixed(old: LocationView, new: LocationView, dirty: Set<ID>) -> bool {
    forall|i: int|
        0 <= i < old.size() ==> #[trigger] new.tiles[i] == match old.region_of[i] {
            Some(id) => if dirty.contains(id) {
                fixed_tile(old, new, id, i)
            } else {
                old.tiles[i]
            },
            None => old.tiles[i],
        }
}

/// The care for the capital of a region whose tiles are those of another
/// state does to them what it does in that state.
pub proof fn lemma_fixed_tile_same(
    origin: LocationView,
    old: LocationView,
    new: LocationView,
    id: ID,
    i: int,
)
    requires
        old.same_ground(origin),
        origin.shaped(),
        0 <= i < origin.size(),
        forall|j: int|
            0 <= j < origin.size() && origin.region_of[j] == Some(id) ==> #[trigger] old.tiles[j]
                == origin.tiles[j],
    ensures
        fixed_tile(old, new, id, i) == fixed_tile(origin, new, id, i) || origin.region_of[i]
            != Some(id),
{
    assert(capital_mask(old.region_of, old.tiles, id) =~= capital_mask(
        origin.region_of,
        origin.tiles,
        id,
    ));
    assert(vacant_mask(old, id) =~= vacant_mask(origin, id));
}

/// The state of a game, and the judge of what its players may do.
#[derive(Clone, PartialEq, Eq, Debug)]
pub struct GameEngine {
    players: Vec<Player>,
    player_activity: HashMap<ID, bool>,
    winner: Option<ID>,
    current_turn: u32,
    active_player_num: usize,
    location: Location,
    region_info: HashMap<ID, RegionInfo>,
    unit_info: HashMap<ID, UnitInfo>,
    id_producer: IdProducer,
}

impl View for GameEngine {
    type V = EngineView;

    closed spec fn view(&self) -> EngineView {
        EngineView {
            players: self.players@,
            activity: self.player_activity@,
            winner: self.winner,
            current_turn: self.current_turn,
            active_player_num: self.active_player_num,
            location: self.location@,
            region_info: self.region_info@,
            unit_info: self.unit_info@,
            last_id: self.id_producer.last_issued(),
        }
    }
}

/// Why no game begins on the location `v` with the players on the list: the
/// location breaks a rule of the game; or it breaks none, and the players on
/// the list are not those who hold ground; or all that is in order, and two
/// units have one identifier, which is that of the first unit in the order of
/// the map that has the identifier of another.
pub open spec fn refused(v: LocationView, players: Seq<Player>, error: EngineValidationError) -> bool {
    match error {
        EngineValidationError::LocationError(inner) => !lawful(v) && location_fault(v, inner),
        EngineValidationError::RegionsError(inner) => lawful(v) && !players_agree(v, players)
            && regions_fault(v, players, inner),
        EngineValidationError::UnitWithoutInfo(id) => lawful(v) && players_agree(v, players)
            && exists|i: int, j: int| #[trigger]
            unit_twice(v.tiles, i, j) && v.tiles[j].unit->0.id == id && forall|a: int, b: int|
                0 <= b < j ==> !#[trigger] unit_twice(v.tiles, a, b),
        _ => false,
    }
}

impl GameEngine {
    /// The map of the engine is in order as a representation.
    pub closed spec fn based(&self) -> bool {
        self.location.base()
    }

    pub fn players(&self) -> (players: &Vec<Player>)
        ensures
            players@ == self@.players,
    {
        &self.players
    }

    pub fn location(&self) -> (location: &Location)
        ensures
            location@ == self@.location,
            self.based() ==> location.base(),
    {
        &self.location
    }

    pub fn current_turn(&self) -> (turn: u32)
        ensures
            turn == self@.current_turn,
    {
        self.current_turn
    }

    pub fn winner(&self) -> (winner: Option<ID>)
        ensures
            winner == self@.winner,
    {
        self.winner
    }

    /// Declares the game won.
    pub fn set_winner(&mut self, winner: Option<ID>)
        ensures
            final(self)@ == (EngineView { winner, ..old(self)@ }),
            final(self).based() == old(self).based(),
    {
        self.winner = winner;
    }

    pub fn region_money(&self, region_id: ID) -> (money: Option<i32>)
        ensures
            money == if self@.region_info.contains_key(region_id) {
                Some(self@.region_info[region_id].money_balance)
            } else {
                None
            },
    {
        match self.region_info.get(&region_id) {
            Some(info) => Some(info.money_balance),
            None => None,
        }
    }

    /// What the engine knows of a region.
    pub fn region_info(&self, region_id: ID) -> (info: Option<RegionInfo>)
        ensures
            info == if self@.region_info.contains_key(region_id) {
                Some(self@.region_info[region_id])
            } else {
                None
            },
    {
        match self.region_info.get(&region_id) {
            Some(info) => Some(*info),
            None => None,
        }
    }

    /// What the engine knows of a unit.
    pub fn unit_info(&self, unit_id: ID) -> (info: Option<UnitInfo>)
        ensures
            info == if self@.unit_info.contains_key(unit_id) {
                Some(self@.unit_info[unit_id])
            } else {
                None
            },
    {
        match self.unit_info.get(&unit_id) {
            Some(info) => Some(*info),
            None => None,
        }
    }

    /// Whether the player is still in the game; nothing for somebody who
    /// never was.
    pub fn player_activity(&self, player_id: ID) -> (active: Option<bool>)
        ensures
            active == if self@.activity.contains_key(player_id) {
                Some(self@.activity[player_id])
            } else {
                None
            },
    {
        match self.player_activity.get(&player_id) {
            Some(active) => Some(*active),
            None => None,
        }
    }

    pub fn active_player_num(&self) -> (num: usize)
        ensures
            num == self@.active_player_num,
    {
        self.active_player_num
    }

    /// The player whose turn it is.
    pub fn active_player(&self) -> (player: &Player)
        requires
            self@.active_player_num < self@.players.len(),
        ensures
            *player == self@.players[self@.active_player_num as int],
    {
        &self.players[self.active_player_num]
    }

    /// Adds an amount to the balance of a region, which has to exist.
    pub fn modify_money(&mut self, region_id: ID, amount: i32)
        requires
            old(self)@.region_info.contains_key(region_id),
            i32::MIN <= old(self)@.region_info[region_id].money_balance + amount <= i32::MAX,
        ensures
            final(self).based() == old(self).based(),
            final(self)@ == (EngineView {
                region_info: old(self)@.region_info.insert(
                    region_id,
                    RegionInfo {
                        money_balance: (old(self)@.region_info[region_id].money_balance
                            + amount) as i32,
                        ..old(self)@.region_info[region_id]
                    },
                ),
                ..old(self)@
            }),
    {
        let found = self.region_info.get(&region_id);
        let mut info = *found.unwrap();
        info.change_balance(amount);
        self.region_info.insert(region_id, info);
    }

    /// Puts a unit on tile `i`, which is empty, together with its record.
    fn install(&mut self, i: usize, unit: Unit, info: UnitInfo)
        requires
            old(self).based(),
            i < old(self)@.location.size(),
            old(self)@.location.shaped(),
            units_booked(old(self)@),
            old(self)@.location.tiles[i as int].unit is None,
            !old(self)@.unit_info.contains_key(unit.id),
            unit.id <= old(self)@.last_id,
            record_of(info, unit),
        ensures
            final(self).based(),
            units_booked(final(self)@),
            final(self)@ == (EngineView {
                location: old(self)@.location.with_unit(i as int, Some(unit)),
                unit_info: old(self)@.unit_info.insert(unit.id, info),
                ..old(self)@
            }),
    {
        self.unit_info.insert(unit.id, info);
        self.location.put(i, Some(unit));
        proof {
            let e = old(self)@;
            let f = self@;
            let id = unit.id;
            assert forall|x: ID| #[trigger] f.unit_info.contains_key(x) implies exists|j: int|
                unit_on(f.location.tiles, j, x) by {
                if x == id {
                    assert(unit_on(f.location.tiles, i as int, x));
                } else {
                    let j = choose|j: int| unit_on(e.location.tiles, j, x);
                    assert(unit_on(f.location.tiles, j, x));
                }
            }
            assert forall|a: int, b: int|
                0 <= a < b < f.location.tiles.len() && (#[trigger] f.location.tiles[a]).unit is Some
                    && (#[trigger] f.location.tiles[b]).unit is Some implies f.location.tiles[a].unit->0.id
                != f.location.tiles[b].unit->0.id by {
                if a != i {
                    assert(e.location.tiles[a].unit is Some);
                }
                if b != i {
                    assert(e.location.tiles[b].unit is Some);
                }
            }
            assert forall|a: int|
                0 <= a < f.location.tiles.len() && (#[trigger] f.location.tiles[a]).unit
                    is Some implies {
                let other = f.location.tiles[a].unit->0;
                &&& f.unit_info.contains_key(other.id)
                &&& record_of(f.unit_info[other.id], other)
                &&& other.id <= f.last_id
            } by {
                if a != i {
                    assert(e.location.tiles[a].unit is Some);
                }
            }
        }
    }

    /// Puts a new unit on tile `i`, which is empty, and opens its record.
    fn spawn(&mut self, i: usize, unit_type: UnitType) -> (id: ID)
        requires
            old(self).based(),
            i < old(self)@.location.size(),
            old(self)@.location.shaped(),
            units_booked(old(self)@),
            old(self)@.location.tiles[i as int].unit is None,
            old(self)@.last_id < u32::MAX,
        ensures
            final(self).based(),
            units_booked(final(self)@),
            id == old(self)@.last_id + 1,
            final(self)@ == (EngineView {
                location: old(self)@.location.with_unit(i as int, Some(Unit { id, unit_type })),
                unit_info: old(self)@.unit_info.insert(id, UnitInfo { unit_type, moves_left: 0 }),
                last_id: id,
                ..old(self)@
            }),
    {
        let id = self.id_producer.next_id();
        let (unit, info) = UnitInfo::new(id, unit_type);
        self.unit_info.insert(id, info);
        self.location.put(i, Some(unit));
        proof {
            let e = old(self)@;
            let f = self@;
            assert forall|x: ID| #[trigger] f.unit_info.contains_key(x) implies exists|j: int|
                unit_on(f.location.tiles, j, x) by {
                if x == id {
                    assert(unit_on(f.location.tiles, i as int, x));
                } else {
                    let j = choose|j: int| unit_on(e.location.tiles, j, x);
                    assert(unit_on(f.location.tiles, j, x));
                }
            }
            assert forall|a: int, b: int|
                0 <= a < b < f.location.tiles.len() && (#[trigger] f.location.tiles[a]).unit is Some
                    && (#[trigger] f.location.tiles[b]).unit is Some implies f.location.tiles[a].unit->0.id
                != f.location.tiles[b].unit->0.id by {
                if a != i {
                    assert(e.location.tiles[a].unit is Some);
                }
                if b != i {
                    assert(e.location.tiles[b].unit is Some);
                }
            }
            assert forall|a: int|
                0 <= a < f.location.tiles.len() && (#[trigger] f.location.tiles[a]).unit
                    is Some implies {
                let unit = f.location.tiles[a].unit->0;
                &&& f.unit_info.contains_key(unit.id)
                &&& record_of(f.unit_info[unit.id], unit)
                &&& unit.id <= f.last_id
            } by {
                if a != i {
                    assert(e.location.tiles[a].unit is Some);
                }
            }
        }
        id
    }

    /// Takes the unit from tile `i`, if one is there, and closes its record.
    fn clear(&mut self, i: usize) -> (gone: Option<(Unit, UnitInfo)>)
        requires
            old(self).based(),
            i < old(self)@.location.size(),
            old(self)@.location.shaped(),
            units_booked(old(self)@),
        ensures
            final(self).based(),
            units_booked(final(self)@),
            match gone {
                Some((unit, info)) => old(self)@.location.tiles[i as int].unit == Some(unit)
                    && old(self)@.unit_info[unit.id] == info && final(self)@ == (EngineView {
                    location: old(self)@.location.with_unit(i as int, None),
                    unit_info: old(self)@.unit_info.remove(unit.id),
                    ..old(self)@
                }),
                None => old(self)@.location.tiles[i as int].unit is None && final(self)@ == old(self)@,
            },
    {
        let found = self.location.tile_at_index(i).unit;
        match found {
            Some(unit) => {
                assert(self@.location.tiles[i as int].unit is Some);
                let info = self.unit_info.remove(&unit.id);
                self.location.put(i, None);
                proof {
                    let e = old(self)@;
                    let f = self@;
                    assert(f.location.tiles[i as int].unit is None);
                    assert forall|x: ID| #[trigger] f.unit_info.contains_key(x) implies exists|
                        j: int,
                    | unit_on(f.location.tiles, j, x) by {
                        let j = choose|j: int| unit_on(e.location.tiles, j, x);
                        if j == i {
                            assert(e.location.tiles[j].unit->0.id == unit.id);
                        }
                        assert(unit_on(f.location.tiles, j, x));
                    }
                    assert forall|a: int, b: int|
                        0 <= a < b < f.location.tiles.len() && (
                        #[trigger] f.location.tiles[a]).unit is Some && (
                        #[trigger] f.location.tiles[b]).unit is Some implies f.location.tiles[a].unit->0.id
                        != f.location.tiles[b].unit->0.id by {
                        assert(e.location.tiles[a].unit is Some);
                        assert(e.location.tiles[b].unit is Some);
                    }
                    assert forall|a: int|
                        0 <= a < f.location.tiles.len() && (#[trigger] f.location.tiles[a]).unit
                            is Some implies {
                        let other = f.location.tiles[a].unit->0;
                        &&& f.unit_info.contains_key(other.id)
                        &&& record_of(f.unit_info[other.id], other)
                        &&& other.id <= f.last_id
                    } by {
                        assert(e.location.tiles[a].unit is Some);
                        assert(e.location.tiles[i as int].unit is Some);
                        if a < i {
                            assert(e.location.tiles[a].unit->0.id != e.location.tiles[i as int].unit->0.id);
                        } else {
                            assert(e.location.tiles[i as int].unit->0.id != e.location.tiles[a].unit->0.id);
                        }
                    }
                }
                Some((unit, info.unwrap()))
            },
            None => None,
        }
    }

    /// Whether cell `i` touches a cell of region `id`.
    fn touches_at(&self, i: usize, id: ID) -> (found: bool)
        requires
            self.based(),
            i < self@.location.size(),
        ensures
            found == touches(self@.location, i as int, id),
    {
        let ghost v = self@.location;
        let mut d: usize = 0;
        while d < 6
            invariant
                self.based(),
                v == self@.location,
                i < v.size(),
                d <= 6,
                forall|e: int, j: int|
                    #![trigger v.cells[j], v.cells[i as int].neighbor(e)]
                    0 <= e < d && 0 <= j < v.size() && v.cells[j] == v.cells[i as int].neighbor(e)
                        ==> v.region_of[j] != Some(id),
            decreases 6 - d,
        {
            if let Some(j) = self.location.link(i, d) {
                let inside = match self.location.region_id_at_index(j) {
                    Some(r) => r == id,
                    None => false,
                };
                if inside {
                    return true;
                }
                proof {
                    assert forall|k: int|
                        0 <= k < v.size() && v.cells[k] == v.cells[i as int].neighbor(
                            d as int,
                        ) implies v.region_of[k] != Some(id) by {
                        if k != j {
                            assert(v.cells[k] != v.cells[j as int]);
                        }
                    }
                }
            }
            d += 1;
        }
        proof {
            if touches(v, i as int, id) {
                let j = choose|j: int|
                    #[trigger] near(v.cells, i as int, j) && j < v.region_of.len() && v.region_of[j]
                        == Some(id);
                self.location.lemma_near_is_link(i as int, j);
                let e = choose|e: int|
                    0 <= e < 6 && v.cells[j] == #[trigger] v.cells[i as int].neighbor(e);
                assert(false);
            }
        }
        false
    }

    /// Whether cell `i` is defended with at least `power`.
    fn guarded_at(&self, i: usize, power: u8) -> (found: bool)
        requires
            self.based(),
            i < self@.location.size(),
        ensures
            found == guarded(self@.location, i as int, power),
    {
        let ghost v = self@.location;
        if Self::defence_of(self.location.tile_at_index(i)) >= power {
            return true;
        }
        let region = self.location.region_id_at_index(i);
        let mut d: usize = 0;
        while d < 6
            invariant
                self.based(),
                v == self@.location,
                i < v.size(),
                region == v.region_of[i as int],
                d <= 6,
                forall|e: int, j: int|
                    #![trigger v.cells[j], v.cells[i as int].neighbor(e)]
                    0 <= e < d && 0 <= j < v.size() && v.cells[j] == v.cells[i as int].neighbor(e)
                        ==> !(v.region_of[j] == region && tile_defence(v.tiles[j]) >= power),
            decreases 6 - d,
        {
            if let Some(j) = self.location.link(i, d) {
                let same = match (self.location.region_id_at_index(j), region) {
                    (Some(a), Some(b)) => a == b,
                    (None, None) => true,
                    _ => false,
                };
                if same && Self::defence_of(self.location.tile_at_index(j)) >= power {
                    assert(guard(v, i as int, j as int, power));
                    return true;
                }
                proof {
                    assert forall|k: int|
                        0 <= k < v.size() && v.cells[k] == v.cells[i as int].neighbor(
                            d as int,
                        ) implies !(v.region_of[k] == region && tile_defence(v.tiles[k])
                        >= power) by {
                        if k != j {
                            assert(v.cells[k] != v.cells[j as int]);
                        }
                    }
                }
            }
            d += 1;
        }
        proof {
            if exists|j: int| #[trigger] guard(v, i as int, j, power) {
                let j = choose|j: int| #[trigger] guard(v, i as int, j, power);
                self.location.lemma_near_is_link(i as int, j);
                let e = choose|e: int|
                    0 <= e < 6 && v.cells[j] == #[trigger] v.cells[i as int].neighbor(e);
                assert(false);
            }
        }
        false
    }

    fn defence_of(tile: &Tile) -> (defence: u8)
        ensures
            defence == tile_defence(*tile),
    {
        match tile.unit {
            Some(unit) => description(unit.unit_type).defence,
            None => EMPTY_TILE_DEFENCE,
        }
    }

    /// Whether a unit of this type from region `origin` can step on cell `i`.
    fn can_step_index(&self, unit_type: UnitType, i: usize, origin: ID, last: bool) -> (can: bool)
        requires
            self.based(),
            i < self@.location.size(),
        ensures
            can == can_step_at(self@.location, unit_type, i as int, origin, last),
    {
        let tile = self.location.tile_at_index(i);
        if !can_step_on(unit_type, tile) {
            return false;
        }
        let region = match self.location.region_id_at_index(i) {
            Some(r) => r,
            None => {
                return false;
            },
        };
        if region == origin {
            if !last {
                return true;
            }
            match tile.unit {
                None => true,
                Some(unit) => merge_result(unit_type, unit.unit_type).is_some(),
            }
        } else {
            if !last {
                return false;
            }
            if !self.touches_at(i, origin) {
                return false;
            }
            !self.guarded_at(i, description(unit_type).attack)
        }
    }

    /// Whether a unit of this type that belongs to region
    /// `home_region_id` can step on the tile with this coordinate, as the
    /// last step of its way or as one before.
    pub fn unit_can_step_on_coord(
        &self,
        unit_type: UnitType,
        coordinate: Coord,
        home_region_id: ID,
        is_last_step: bool,
    ) -> (can: bool)
        requires
            self.based(),
        ensures
            can == can_step(
                self@.location,
                unit_type,
                coordinate,
                home_region_id,
                is_last_step,
            ),
    {
        match self.location.index_of(coordinate) {
            Some(i) => self.can_step_index(unit_type, i, home_region_id, is_last_step),
            None => false,
        }
    }

    /// The owner of a region that is on the list.
    fn owner_of(&self, region: ID) -> (owner: Player)
        requires
            self.based(),
            self@.location.linked(),
            self@.location.has_region(region),
        ensures
            owner == self@.location.owner_of(region),
    {
        let place = self.location.find_region(region);
        self.location.region_headers()[place.unwrap()].owner
    }

    /// Checks that a unit of this type from region `originating_region_id`
    /// may be put on the tile `dst` by the player, and says what that takes.
    fn prepare_placing_unit(
        &self,
        player_id: ID,
        originating_region_id: ID,
        unit_type: UnitType,
        dst: Coord,
    ) -> (res: Result<Placing, PlayerActionError>)
        requires
            self.based(),
            self@.location.linked(),
        ensures
            res == placing(self@.location, player_id, originating_region_id, unit_type, dst),
    {
        let at = match self.location.index_of(dst) {
            Some(i) => i,
            None => {
                return Err(PlayerActionError::InaccessibleLocation(dst));
            },
        };
        if !self.can_step_index(unit_type, at, originating_region_id, true) {
            return Err(PlayerActionError::InaccessibleLocation(dst));
        }
        let region = self.location.region_id_at_index(at).unwrap();
        let need_relocation = region != originating_region_id;
        match self.location.tile_at_index(at).unit {
            None => Ok(Placing { need_relocation, old_unit: None, upgrade_to: None }),
            Some(current) => {
                if self.owner_of(region).id == player_id {
                    match merge_result(unit_type, current.unit_type) {
                        None => Err(PlayerActionError::AlreadyOccupied(dst)),
                        Some(merged) => {
                            let upgrade_to = if merged != unit_type {
                                Some(merged)
                            } else {
                                None
                            };
                            Ok(Placing { need_relocation, old_unit: Some(current.id), upgrade_to })
                        },
                    }
                } else if !can_defeat(unit_type, current.unit_type) {
                    Err(PlayerActionError::CannotAttack(dst))
                } else {
                    Ok(Placing { need_relocation, old_unit: Some(current.id), upgrade_to: None })
                }
            },
        }
    }

    /// Checks that the player may buy a unit of this type with the money of
    /// the region and put it on the tile `dst`, and says what that takes.
    fn prepare_buying_unit(
        &self,
        player_id: ID,
        originating_region_id: ID,
        unit_type: UnitType,
        dst: Coord,
    ) -> (res: Result<Placing, PlayerActionError>)
        requires
            self.based(),
            self@.location.linked(),
        ensures
            res == buying(self@, player_id, originating_region_id, unit_type, dst),
    {
        let unit_description = description(unit_type);
        if !unit_description.is_purchasable {
            return Err(PlayerActionError::CannotBePlacedByPlayer(unit_type));
        }
        let placing = match self.prepare_placing_unit(
            player_id,
            originating_region_id,
            unit_type,
            dst,
        ) {
            Ok(placing) => placing,
            Err(error) => {
                return Err(error);
            },
        };
        if placing.upgrade_to.is_some() {
            return Err(PlayerActionError::InaccessibleLocation(dst));
        }
        match self.region_info.get(&originating_region_id) {
            Some(info) => {
                if !info.can_afford(unit_description.purchase_cost) {
                    return Err(PlayerActionError::NotEnoughMoney(originating_region_id));
                }
            },
            None => {
                return Err(PlayerActionError::NotEnoughMoney(originating_region_id));
            },
        }
        Ok(placing)
    }

    /// For each cell, whether the unit can step on it on its way to `goal`.
    fn steps_for(&self, unit_type: UnitType, origin: ID, goal: usize) -> (open: Vec<bool>)
        requires
            self.based(),
        ensures
            open@ == step_mask(self@.location, unit_type, origin, goal as int),
    {
        let n = self.location.size();
        let mut open: Vec<bool> = Vec::new();
        let mut i: usize = 0;
        while i < n
            invariant
                self.based(),
                n == self@.location.size(),
                i <= n,
                open@.len() == i,
                forall|j: int|
                    0 <= j < i ==> open@[j] == can_step_at(
                        self@.location,
                        unit_type,
                        j,
                        origin,
                        j == goal,
                    ),
            decreases n - i,
        {
            open.push(self.can_step_index(unit_type, i, origin, i == goal));
            i += 1;
        }
        assert(open@ =~= step_mask(self@.location, unit_type, origin, goal as int));
        open
    }

    /// Checks that the player may move the unit on the tile `src` to the
    /// tile `dst`, and says what that takes.
    fn prepare_moving_unit(&self, player_id: ID, src: Coord, dst: Coord) -> (res: Result<
        Moving,
        PlayerActionError,
    >)
        requires
            self.based(),
            self@.location.linked(),
            units_booked(self@),
        ensures
            res == moving(self@, player_id, src, dst),
    {
        let ghost v = self@.location;
        let from = match self.location.index_of(src) {
            Some(i) => i,
            None => {
                return Err(PlayerActionError::InaccessibleLocation(src));
            },
        };
        let region = match self.location.region_id_at_index(from) {
            Some(r) => r,
            None => {
                return Err(PlayerActionError::InaccessibleLocation(src));
            },
        };
        if self.owner_of(region).id != player_id {
            return Err(PlayerActionError::NotOwned(src));
        }
        let unit = match self.location.tile_at_index(from).unit {
            Some(unit) => unit,
            None => {
                return Err(PlayerActionError::NoUnit(src));
            },
        };
        if src == dst {
            return Err(PlayerActionError::InaccessibleLocation(dst));
        }
        let placing = match self.prepare_placing_unit(player_id, region, unit.unit_type, dst) {
            Ok(placing) => placing,
            Err(error) => {
                return Err(error);
            },
        };
        let to = self.location.index_of(dst).unwrap();
        let open = self.steps_for(unit.unit_type, region, to);
        let dist = self.location.spread(from, &open);
        assert(v.tiles[from as int].unit is Some);
        let have = self.unit_info.get(&unit.id).unwrap().moves_left;
        match dist[to] {
            None => Err(PlayerActionError::InaccessibleLocation(dst)),
            Some(d) => {
                proof {
                    lemma_distance(v.cells, open@, from as int, to as int, d as nat);
                }
                if have < d {
                    Err(PlayerActionError::NotEnoughMoves(have, d))
                } else {
                    let moves = if placing.need_relocation || placing.old_unit.is_some() {
                        have
                    } else {
                        d
                    };
                    Ok(Moving { unit_id: unit.id, moves, region, placing })
                }
            },
        }
    }

    /// Checks that the player may upgrade the unit on the tile `dst`, and
    /// says what that takes.
    fn prepare_upgrading_unit(&self, player_id: ID, dst: Coord) -> (res: Result<
        Upgrading,
        PlayerActionError,
    >)
        requires
            self.based(),
            self@.location.linked(),
        ensures
            res == upgrading(self@, player_id, dst),
    {
        let at = match self.location.index_of(dst) {
            Some(i) => i,
            None => {
                return Err(PlayerActionError::InaccessibleLocation(dst));
            },
        };
        let region = match self.location.region_id_at_index(at) {
            Some(r) => r,
            None => {
                return Err(PlayerActionError::InaccessibleLocation(dst));
            },
        };
        if self.owner_of(region).id != player_id {
            return Err(PlayerActionError::NotOwned(dst));
        }
        let old_unit = match self.location.tile_at_index(at).unit {
            Some(unit) => unit,
            None => {
                return Err(PlayerActionError::NoUnit(dst));
            },
        };
        let old = description(old_unit.unit_type);
        let next = match old.upgrades_to {
            Some(next) => next,
            None => {
                return Err(PlayerActionError::NoUpgrade(old.name));
            },
        };
        let price = description(next).purchase_cost - old.purchase_cost;
        match self.region_info.get(&region) {
            Some(info) => {
                if !info.can_afford(price) {
                    return Err(PlayerActionError::NotEnoughMoney(region));
                }
            },
            None => {
                return Err(PlayerActionError::NotEnoughMoney(region));
            },
        }
        Ok(Upgrading { region, price, unit_type: next })
    }

    /// Checks that it is the player's turn in a game that is still on.
    fn validate_action(&self, player_id: ID) -> (res: Result<(), PlayerActionError>)
        ensures
            res == match turn_error(self@, player_id) {
                Some(error) => Err::<(), PlayerActionError>(error),
                None => Ok(()),
            },
    {
        if self.active_player_num >= self.players.len() {
            return Err(PlayerActionError::GameAlreadyFinished);
        }
        let active = self.players[self.active_player_num].id;
        if player_id != active {
            Err(PlayerActionError::OtherPlayersTurn(active))
        } else if self.winner.is_some() {
            Err(PlayerActionError::GameAlreadyFinished)
        } else {
            Ok(())
        }
    }

    /// The marked cell with the lowest coordinate.
    fn lowest(&self, marks: &Vec<bool>) -> (found: Option<usize>)
        requires
            self.based(),
            self@.location.shaped(),
            marks@.len() == self@.location.size(),
        ensures
            match found {
                Some(i) => lowest_marked(self@.location.cells, marks@, i as int),
                None => forall|j: int| 0 <= j < marks@.len() ==> !marks@[j],
            },
    {
        let ghost cells = self@.location.cells;
        let n = self.location.size();
        let mut best: Option<usize> = None;
        let mut i: usize = 0;
        while i < n
            invariant
                self.based(),
                self@.location.shaped(),
                cells == self@.location.cells,
                n == cells.len(),
                marks@.len() == n,
                i <= n,
                match best {
                    Some(b) => b < i && marks@[b as int] && forall|j: int|
                        0 <= j < i && marks@[j] && j != b ==> lower(
                            cells[b as int],
                            #[trigger] cells[j],
                        ),
                    None => forall|j: int| 0 <= j < i ==> !marks@[j],
                },
            decreases n - i,
        {
            if marks[i] {
                let here = self.location.coordinate_at(i);
                match best {
                    None => {
                        best = Some(i);
                    },
                    Some(b) => {
                        let there = self.location.coordinate_at(b);
                        assert(cells[b as int] != cells[i as int]);
                        if here.x < there.x || (here.x == there.x && here.y < there.y) {
                            best = Some(i);
                        }
                    },
                }
            }
            i += 1;
        }
        best
    }

    /// For each cell, whether it is an empty tile of region `id`.
    fn vacant_cells(&self, id: ID) -> (marks: Vec<bool>)
        requires
            self.based(),
        ensures
            marks@ == vacant_mask(self@.location, id),
    {
        let n = self.location.size();
        let mut marks: Vec<bool> = Vec::new();
        let mut i: usize = 0;
        while i < n
            invariant
                self.based(),
                n == self@.location.size(),
                i <= n,
                marks@.len() == i,
                forall|j: int|
                    0 <= j < i ==> marks@[j] == (self@.location.region_of[j] == Some(id)
                        && self@.location.tiles[j].unit is None),
            decreases n - i,
        {
            let inside = match self.location.region_id_at_index(i) {
                Some(r) => r == id,
                None => false,
            };
            marks.push(inside && self.location.tile_at_index(i).unit.is_none());
            i += 1;
        }
        assert(marks@ =~= vacant_mask(self@.location, id));
        marks
    }

    /// For each cell, whether region `id` has a village on it.
    fn capital_cells(&self, id: ID) -> (marks: Vec<bool>)
        requires
            self.based(),
        ensures
            marks@ == capital_mask(self@.location.region_of, self@.location.tiles, id),
    {
        let n = self.location.size();
        let mut marks: Vec<bool> = Vec::new();
        let mut i: usize = 0;
        while i < n
            invariant
                self.based(),
                n == self@.location.size(),
                i <= n,
                marks@.len() == i,
                forall|j: int|
                    0 <= j < i ==> marks@[j] == (self@.location.region_of[j] == Some(id)
                        && is_capital(self@.location.tiles[j])),
            decreases n - i,
        {
            let inside = match self.location.region_id_at_index(i) {
                Some(r) => r == id,
                None => false,
            };
            let village = match self.location.tile_at_index(i).unit {
                Some(unit) => match unit.unit_type {
                    UnitType::Village => true,
                    _ => false,
                },
                None => false,
            };
            marks.push(inside && village);
            i += 1;
        }
        assert(marks@ =~= capital_mask(self@.location.region_of, self@.location.tiles, id));
        marks
    }

    /// Sees to it that region `region_id` has the capital that it should
    /// have.
    fn fix_capital(&mut self, region_id: ID)
        requires
            old(self).based(),
            settled(old(self)@.location),
            units_booked(old(self)@),
            old(self)@.last_id < u32::MAX,
        ensures
            final(self).based(),
            settled(final(self)@.location),
            units_booked(final(self)@),
            reshuffled(old(self)@, final(self)@),
            evolved(old(self)@, final(self)@),
            final(self)@.last_id <= old(self)@.last_id + 1,
            !miscrowned(final(self)@.location, region_id),
            capital_fixed(old(self)@.location, final(self)@.location, region_id),
            final(self)@.last_id == old(self)@.last_id + if bare(old(self)@.location, region_id) {
                1int
            } else {
                0int
            },
            crowned_by(
                old(self)@.location,
                final(self)@.location,
                region_id,
                (old(self)@.last_id + 1) as ID,
            ),
    {
        let ghost e = self@;
        let ghost v = e.location;
        let n = self.location.size();
        let size = self.location.region_size(region_id);
        let capitals = capital_count(&self.location, region_id);
        if size < MIN_CONTROLLED_REGION_SIZE {
            let marks = self.capital_cells(region_id);
            let mut i: usize = 0;
            while i < n
                invariant
                    self.based(),
                    settled(self@.location),
                    units_booked(self@),
                    reshuffled(e, self@),
                    evolved(e, self@),
                    self@.last_id == e.last_id,
                    v == e.location,
                    n == v.size(),
                    i <= n,
                    marks@ == capital_mask(v.region_of, v.tiles, region_id),
                    forall|j: int|
                        0 <= j < n ==> #[trigger] self@.location.tiles[j] == if j < i && marks@[j] {
                            Tile { unit: None, ..v.tiles[j] }
                        } else {
                            v.tiles[j]
                        },
                decreases n - i,
            {
                if marks[i] {
                    let ghost before = self@;
                    self.clear(i);
                    proof {
                        lemma_settled_with_unit(before.location, i as int, None);
                    }
                }
                i += 1;
            }
            return ;
        }
        if capitals == 0 {
            let vacant = self.vacant_cells(region_id);
            let seat = match self.lowest(&vacant) {
                Some(i) => Some(i),
                None => {
                    let all = self.location.mask_of(region_id);
                    self.lowest(&all)
                },
            };
            match seat {
                Some(i) => {
                    proof {
                        assert(seat_of_capital(v, region_id, i as int));
                        assert(v.region_of[i as int] == Some(region_id));
                        assert(covered_at(v, i as int));
                    }
                    self.clear(i);
                    proof {
                        lemma_settled_with_unit(v, i as int, None);
                    }
                    let ghost mid = self@;
                    let id = self.spawn(i, UnitType::Village);
                    proof {
                        let w = self@.location;
                        lemma_settled_with_unit(
                            mid.location,
                            i as int,
                            Some(Unit { id, unit_type: UnitType::Village }),
                        );
                        let before = capital_mask(v.region_of, v.tiles, region_id);
                        let after = capital_mask(w.region_of, w.tiles, region_id);
                        lemma_count_set_zero(before, n as int);
                        assert forall|j: int| 0 <= j < n && j != i implies !after[j] by {
                            assert(!before[j]);
                            assert(w.tiles[j] == v.tiles[j]);
                        }
                        assert(after[i as int]);
                        lemma_count_set_single(after, n as int, i as int);
                        assert forall|j: int| 0 <= j < n && j != i implies !seat_of_capital(
                            v,
                            region_id,
                            j,
                        ) by {
                            if seat_of_capital(v, region_id, j) {
                                assert(lower(v.cells[i as int], v.cells[j]));
                                assert(lower(v.cells[j], v.cells[i as int]));
                            }
                        }
                        assert forall|j: int| 0 <= j < n implies #[trigger] w.tiles[j] == if v.region_of[j]
                            != Some(region_id) {
                            v.tiles[j]
                        } else if seat_of_capital(v, region_id, j) {
                            Tile {
                                unit: Some(
                                    Unit { id: w.tiles[j].unit->0.id, unit_type: UnitType::Village },
                                ),
                                ..v.tiles[j]
                            }
                        } else {
                            v.tiles[j]
                        } by {
                            if j != i {
                                assert(w.tiles[j] == v.tiles[j]);
                            }
                        }
                        assert(capital_fixed(v, w, region_id));
                    }
                },
                None => {
                    proof {
                        lemma_count_set_zero(region_mask(v.region_of, region_id), n as int);
                        assert(false);
                    }
                },
            }
        } else if capitals > 1 {
            let marks = self.capital_cells(region_id);
            let keeper = match self.lowest(&marks) {
                Some(i) => i,
                None => {
                    proof {
                        lemma_count_set_zero(marks@, n as int);
                    }
                    return ;
                },
            };
            let mut i: usize = 0;
            while i < n
                invariant
                    self.based(),
                    settled(self@.location),
                    units_booked(self@),
                    reshuffled(e, self@),
                    evolved(e, self@),
                    self@.last_id == e.last_id,
                    v == e.location,
                    n == v.size(),
                    i <= n,
                    keeper < n,
                    marks@ == capital_mask(v.region_of, v.tiles, region_id),
                    lowest_marked(v.cells, marks@, keeper as int),
                    forall|j: int|
                        0 <= j < n ==> #[trigger] self@.location.tiles[j] == if j < i && marks@[j]
                            && j != keeper {
                            Tile { unit: None, ..v.tiles[j] }
                        } else {
                            v.tiles[j]
                        },
                decreases n - i,
            {
                if marks[i] && i != keeper {
                    let ghost before = self@;
                    self.clear(i);
                    proof {
                        lemma_settled_with_unit(before.location, i as int, None);
                    }
                }
                i += 1;
            }
            proof {
                let w = self@.location;
                let after = capital_mask(w.region_of, w.tiles, region_id);
                assert forall|j: int| 0 <= j < n && j != keeper && marks@[j] implies !lowest_marked(
                    v.cells,
                    marks@,
                    j,
                ) by {
                    if lowest_marked(v.cells, marks@, j) {
                        assert(lower(v.cells[keeper as int], v.cells[j]));
                        assert(lower(v.cells[j], v.cells[keeper as int]));
                    }
                }
                assert forall|j: int| 0 <= j < n && j != keeper implies !after[j] by {
                    if marks@[j] {
                        assert(w.tiles[j].unit is None);
                    } else {
                        assert(w.tiles[j] == v.tiles[j]);
                    }
                }
                assert(after[keeper as int]);
                lemma_count_set_single(after, n as int, keeper as int);
                assert forall|j: int| 0 <= j < n implies #[trigger] w.tiles[j] == if v.region_of[j]
                    != Some(region_id) {
                    v.tiles[j]
                } else if is_capital(v.tiles[j]) && !lowest_marked(v.cells, marks@, j) {
                    Tile { unit: None, ..v.tiles[j] }
                } else {
                    v.tiles[j]
                } by {
                    if j == keeper {
                        assert(w.tiles[j] == v.tiles[j]);
                    } else if marks@[j] {
                        assert(w.tiles[j] == Tile { unit: None, ..v.tiles[j] });
                    } else {
                        assert(w.tiles[j] == v.tiles[j]);
                    }
                }
                assert(capital_fixed(v, w, region_id));
            }
        } else {
            proof {
                let marks = capital_mask(v.region_of, v.tiles, region_id);
                assert forall|j: int| 0 <= j < n && marks[j] implies lowest_marked(
                    v.cells,
                    marks,
                    j,
                ) by {
                    assert forall|k: int| 0 <= k < n && marks[k] && k != j implies lower(
                        v.cells[j],
                        #[trigger] v.cells[k],
                    ) by {
                        lemma_count_set_pair(marks, n as int, j, k);
                    }
                }
                assert(capital_fixed(v, self@.location, region_id));
            }
        }
    }

    /// Shares the balance of region `from`, which has fallen apart, among
    /// the regions that came of it. The regions of two tiles or more get
    /// equal shares, rounded towards zero; what is left of a positive
    /// balance goes in ones to the first of them. Smaller regions get
    /// nothing.
    fn split_region(&mut self, from: ID, into: &Vec<ID>)
        requires
            old(self).based(),
            old(self)@.region_info.contains_key(from),
            1 <= into@.len() <= 6,
            into@.no_duplicates(),
            -MONEY_LIMIT <= old(self)@.region_info[from].money_balance <= MONEY_LIMIT,
        ensures
            final(self).based(),
            final(self)@ == (EngineView { region_info: final(self)@.region_info, ..old(self)@ }),
            final(self)@.region_info == parted(
                old(self)@.location.region_of,
                old(self)@.region_info,
                from,
                into@,
            ),
            forall|id: ID| #[trigger]
                final(self)@.region_info.contains_key(id) <==> (old(self)@.region_info.contains_key(
                    id,
                ) && id != from) || into@.contains(id),
            forall|id: ID| #[trigger]
                final(self)@.region_info.contains_key(id) && !into@.contains(id) ==> final(self)@.region_info[id] == old(self)@.region_info[id],
            forall|q: int|
                0 <= q < into@.len() ==> -MONEY_LIMIT - 1 <= final(self)@.region_info[#[trigger] into@[q]].money_balance
                    <= MONEY_LIMIT + 1,
    {
        let ghost e = self@;
        let ghost v = e.location;
        let src = self.region_info.remove(&from).unwrap();
        let sum = src.money_balance;
        let mut owners: u32 = 0;
        let mut j: usize = 0;
        while j < into.len()
            invariant
                self.based(),
                self@.location == v,
                j <= into@.len() <= 6,
                owners <= j,
                owners == heirs(v.region_of, into@, j as int),
            decreases into@.len() - j,
        {
            if self.location.region_size(into[j]) >= MIN_CONTROLLED_REGION_SIZE {
                owners += 1;
            }
            j += 1;
        }
        let mut part: i32 = 0;
        let mut rest: u32 = 0;
        if owners > 0 {
            if sum >= 0 {
                part = ((sum as u32) / owners) as i32;
                rest = (sum as u32) % owners;
            } else {
                part = -((((-sum) as u32) / owners) as i32);
            }
        }
        assert(-MONEY_LIMIT <= part <= MONEY_LIMIT) by (nonlinear_arith)
            requires
                owners > 0 ==> (sum >= 0 ==> part == (sum as int) / (owners as int)) && (sum < 0
                    ==> part == -((-(sum as int)) / (owners as int))),
                owners == 0 ==> part == 0,
                -MONEY_LIMIT <= sum <= MONEY_LIMIT,
                owners >= 0,
        ;
        let mut served: u32 = 0;
        j = 0;
        while j < into.len()
            invariant
                self.based(),
                self@.location == v,
                j <= into@.len() <= 6,
                into@.no_duplicates(),
                served <= j,
                served == heirs(v.region_of, into@, j as int),
                owners == heirs(v.region_of, into@, into@.len() as int),
                sum == e.region_info[from].money_balance,
                owners > 0 ==> (sum >= 0 ==> part == (sum as int) / (owners as int) && rest == (
                sum as int) % (owners as int)) && (sum < 0 ==> part == -((-(sum as int)) / (
                owners as int)) && rest == 0),
                forall|q: int|
                    0 <= q < j ==> self@.region_info[#[trigger] into@[q]] == (RegionInfo {
                        money_balance: share(v.region_of, sum as int, into@, q) as i32,
                        income_from_fields: 0,
                        maintenance_cost: 0,
                    }),
                -MONEY_LIMIT <= part <= MONEY_LIMIT,
                self@ == (EngineView { region_info: self@.region_info, ..e }),
                forall|id: ID| #[trigger]
                    self@.region_info.contains_key(id) <==> (e.region_info.contains_key(id) && id
                        != from) || among(into@, j as int, id),
                forall|id: ID| #[trigger]
                    self@.region_info.contains_key(id) && !among(into@, j as int, id)
                        ==> self@.region_info[id] == e.region_info[id],
                forall|q: int|
                    0 <= q < j ==> -MONEY_LIMIT - 1 <= self@.region_info[#[trigger] into@[q]].money_balance
                        <= MONEY_LIMIT + 1,
            decreases into@.len() - j,
        {
            let id = into[j];
            let money = if self.location.region_size(id) >= MIN_CONTROLLED_REGION_SIZE {
                let share = if served < rest {
                    part + 1
                } else {
                    part
                };
                served += 1;
                share
            } else {
                0
            };
            let ghost before = self@.region_info;
            self.region_info.insert(id, RegionInfo::new(money));
            proof {
                assert forall|x: ID| among(into@, j + 1, x) <==> among(into@, j as int, x) || x
                    == id by {
                    if among(into@, j + 1, x) {
                        let q = choose|q: int|
                            0 <= q < j + 1 && q < into@.len() && #[trigger] into@[q] == x;
                        if q < j {
                            assert(among(into@, j as int, x));
                        }
                    }
                    if among(into@, j as int, x) {
                        let q = choose|q: int|
                            0 <= q < j && q < into@.len() && #[trigger] into@[q] == x;
                        assert(into@[q] == x);
                    }
                    if x == id {
                        assert(into@[j as int] == x);
                    }
                }
                assert forall|q: int| 0 <= q < j + 1 implies -MONEY_LIMIT - 1 <= self@.region_info[#[trigger] into@[q]].money_balance
                    <= MONEY_LIMIT + 1 by {
                    if q < j && into@[q] != id {
                        assert(before[into@[q]] == self@.region_info[into@[q]]);
                    }
                }
                assert forall|q: int| 0 <= q < j + 1 implies self@.region_info[#[trigger] into@[q]]
                    == (RegionInfo {
                    money_balance: share(v.region_of, sum as int, into@, q) as i32,
                    income_from_fields: 0,
                    maintenance_cost: 0,
                }) by {
                    if q < j {
                        assert(into@[q] != into@[j as int]);
                        assert(before[into@[q]] == self@.region_info[into@[q]]);
                    } else {
                        lemma_heirs_grow(v.region_of, into@, j + 1, into@.len() as int);
                    }
                }
            }
            j += 1;
        }
        proof {
            assert forall|x: ID| among(into@, into@.len() as int, x) <==> into@.contains(x) by {
                if into@.contains(x) {
                    let q = choose|q: int| 0 <= q < into@.len() && into@[q] == x;
                    assert(into@[q] == x);
                }
            }
            let goal = parted(v.region_of, e.region_info, from, into@);
            assert forall|id: ID| #[trigger] goal.contains_key(id) implies self@.region_info[id]
                == goal[id] by {
                if into@.contains(id) {
                    let q = into@.index_of(id);
                    assert(0 <= q < into@.len() && into@[q] == id);
                    assert(self@.region_info[into@[q]] == (RegionInfo {
                        money_balance: share(v.region_of, sum as int, into@, q) as i32,
                        income_from_fields: 0,
                        maintenance_cost: 0,
                    }));
                } else {
                    assert(!among(into@, into@.len() as int, id));
                    assert(self@.region_info.contains_key(id));
                    assert(self@.region_info[id] == e.region_info[id]);
                }
            }
            assert(self@.region_info =~= goal);
        }
    }

    /// Brings the records of the regions up to date with the changes that a
    /// change of hands made.
    fn follow_up(&mut self, changes: &Vec<RegionTransformation>, target: ID)
        requires
            old(self).based(),
            changes@.len() <= 7,
            modest(old(self)@.region_info, MONEY_LIMIT as int),
            old(self)@.region_info.contains_key(target),
            followable(old(self)@.region_info, changes@, target),
        ensures
            final(self).based(),
            final(self)@ == (EngineView { region_info: final(self)@.region_info, ..old(self)@ }),
            forall|id: ID| #[trigger]
                final(self)@.region_info.contains_key(id) <==> (old(self)@.region_info.contains_key(
                    id,
                ) && !dropped(changes@, changes@.len() as int, id)) || added(
                    changes@,
                    changes@.len() as int,
                    id,
                ),
            modest(final(self)@.region_info, 8 * (MONEY_LIMIT + 1)),
            final(self)@.region_info.contains_key(target),
            final(self)@.region_info == followed(
                old(self)@.location.region_of,
                old(self)@.region_info,
                changes@,
                changes@.len() as int,
            ),
    {
        let ghost e = self@;
        let mut k: usize = 0;
        while k < changes.len()
            invariant
                self.based(),
                k <= changes@.len() <= 7,
                self@.region_info == followed(
                    e.location.region_of,
                    e.region_info,
                    changes@,
                    k as int,
                ),
                followable(e.region_info, changes@, target),
                modest(e.region_info, MONEY_LIMIT as int),
                self@ == (EngineView { region_info: self@.region_info, ..e }),
                self@.region_info.contains_key(target),
                k == 0 ==> self@.region_info == e.region_info,
                forall|id: ID| #[trigger]
                    self@.region_info.contains_key(id) <==> (e.region_info.contains_key(id)
                        && !dropped(changes@, k as int, id)) || added(changes@, k as int, id),
                forall|id: ID| #[trigger]
                    self@.region_info.contains_key(id) && id != target ==> (-100_000_001
                        <= self@.region_info[id].money_balance <= 100_000_001),
                -(k + 1) * 100_000_001 <= self@.region_info[target].money_balance <= (k + 1)
                    * 100_000_001,
            decreases changes@.len() - k,
        {
            let ghost before = self@.region_info;
            let ghost change = changes@[k as int];
            match &changes[k] {
                RegionTransformation::Delete(id) => {
                    self.region_info.remove(id);
                },
                RegionTransformation::Merge { from, into } => {
                    assert(before.contains_key(*from));
                    assert(-100_000_001 <= before[*from].money_balance <= 100_000_001);
                    let src = self.region_info.remove(from).unwrap();
                    let mut dst = *self.region_info.get(into).unwrap();
                    assert(dst == before[target]);
                    dst.change_balance(src.money_balance);
                    self.region_info.insert(*into, dst);
                    assert(self@.region_info =~= followed(
                        e.location.region_of,
                        e.region_info,
                        changes@,
                        k + 1,
                    ));
                },
                RegionTransformation::Split { from, into } => {
                    assert(k == 0);
                    assert(before == e.region_info);
                    self.split_region(*from, into);
                    assert(self@.region_info.contains_key(target));
                    assert(self@.region_info[target] == before[target]);
                    assert forall|id: ID| #[trigger]
                        self@.region_info.contains_key(id) && id != target implies (-100_000_001
                        <= self@.region_info[id].money_balance <= 100_000_001) by {
                        if into@.contains(id) {
                            let q = choose|q: int| 0 <= q < into@.len() && into@[q] == id;
                            assert(-MONEY_LIMIT - 1 <= self@.region_info[into@[q]].money_balance
                                <= MONEY_LIMIT + 1);
                        } else {
                            assert(before.contains_key(id));
                        }
                    }
                },
            }
            proof {
                assert forall|id: ID| dropped(changes@, k + 1, id) <==> dropped(
                    changes@,
                    k as int,
                    id,
                ) || drops(change, id) by {
                    if dropped(changes@, k + 1, id) {
                        let j = choose|j: int|
                            0 <= j < k + 1 && j < changes@.len() && drops(#[trigger] changes@[j], id);
                        if j < k {
                            assert(dropped(changes@, k as int, id));
                        }
                    }
                    if dropped(changes@, k as int, id) {
                        let j = choose|j: int|
                            0 <= j < k && j < changes@.len() && drops(#[trigger] changes@[j], id);
                        assert(drops(changes@[j], id));
                    }
                    if drops(change, id) {
                        assert(drops(changes@[k as int], id));
                    }
                }
                assert forall|id: ID| added(changes@, k + 1, id) <==> added(changes@, k as int, id)
                    || adds(change, id) by {
                    if added(changes@, k + 1, id) {
                        let j = choose|j: int|
                            0 <= j < k + 1 && j < changes@.len() && adds(#[trigger] changes@[j], id);
                        if j < k {
                            assert(added(changes@, k as int, id));
                        }
                    }
                    if added(changes@, k as int, id) {
                        let j = choose|j: int|
                            0 <= j < k && j < changes@.len() && adds(#[trigger] changes@[j], id);
                        assert(adds(changes@[j], id));
                    }
                    if adds(change, id) {
                        assert(adds(changes@[k as int], id));
                    }
                }
                assert(!dropped(changes@, 0, target) && !added(changes@, 0, target));
                assert forall|id: ID| #[trigger]
                    self@.region_info.contains_key(id) <==> (e.region_info.contains_key(id)
                        && !dropped(changes@, k + 1, id)) || added(changes@, k + 1, id) by {
                    assert(before.contains_key(id) <==> (e.region_info.contains_key(id)
                        && !dropped(changes@, k as int, id)) || added(changes@, k as int, id));
                    match change {
                        RegionTransformation::Delete(gone) => {
                            assert(k == 0);
                            assert(!dropped(changes@, 0, id) && !added(changes@, 0, id));
                            assert(self@.region_info == before.remove(gone));
                            assert(dropped(changes@, k + 1, id) <==> id == gone);
                            assert(!added(changes@, k + 1, id));
                            assert(self@.region_info.contains_key(id) <==> (e.region_info.contains_key(id)
                                && !dropped(changes@, k + 1, id)) || added(changes@, k + 1, id));
                        },
                        RegionTransformation::Merge { from, into } => {
                            assert(!dropped(changes@, k as int, from) && !added(
                                changes@,
                                k as int,
                                from,
                            ));
                            assert(before.contains_key(target));
                            assert(into == target);
                            assert(self@.region_info.dom() == before.remove(from).dom().insert(target));
                            assert(dropped(changes@, k + 1, id) <==> dropped(changes@, k as int, id)
                                || id == from);
                            assert(added(changes@, k + 1, id) <==> added(changes@, k as int, id));
                            assert(self@.region_info.contains_key(id) <==> (e.region_info.contains_key(id)
                                && !dropped(changes@, k + 1, id)) || added(changes@, k + 1, id));
                        },
                        RegionTransformation::Split { from, into } => {
                            assert(k == 0);
                            assert(!dropped(changes@, 0, id) && !added(changes@, 0, id));
                            assert(!dropped(changes@, k + 1, id));
                            assert(added(changes@, k + 1, id) <==> into@.contains(id));
                            assert(self@.region_info.contains_key(id) <==> (e.region_info.contains_key(id)
                                && !dropped(changes@, k + 1, id)) || added(changes@, k + 1, id));
                        },
                    }
                }
            }
            k += 1;
        }
        proof {
            assert forall|id: ID| #[trigger] self@.region_info.contains_key(id) implies -8 * (
            MONEY_LIMIT + 1) <= self@.region_info[id].money_balance <= 8 * (MONEY_LIMIT + 1) by {
                if id != target {
                    assert(-100_000_001 <= self@.region_info[id].money_balance <= 100_000_001);
                }
            }
        }
    }

    /// Sees to the capitals of the regions on the list, in its order.
    fn fix_capitals(&mut self, dirty: &Vec<ID>)
        requires
            old(self).based(),
            settled(old(self)@.location),
            units_booked(old(self)@),
            dirty@.len() <= 7,
            dirty@.no_duplicates(),
            old(self)@.last_id + 7 < u32::MAX,
            crowned_but(old(self)@.location, dirty@, 0),
        ensures
            final(self).based(),
            settled(final(self)@.location),
            crowned(final(self)@.location),
            units_booked(final(self)@),
            reshuffled(old(self)@, final(self)@),
            evolved(old(self)@, final(self)@),
            final(self)@.last_id <= old(self)@.last_id + 7,
            capitals_fixed(old(self)@.location, final(self)@.location, dirty@.to_set()),
            final(self)@.last_id == old(self)@.last_id + bare_upto(
                old(self)@.location,
                dirty@,
                dirty@.len() as int,
            ),
            crowned_in_turn(
                old(self)@.location,
                final(self)@.location,
                dirty@,
                old(self)@.last_id as int,
            ),
    {
        let ghost e = self@;
        let ghost done: Set<ID> = Set::empty();
        let mut q: usize = 0;
        while q < dirty.len()
            invariant
                self.based(),
                dirty@.no_duplicates(),
                self@.last_id == e.last_id + bare_upto(e.location, dirty@, q as int),
                forall|p: int|
                    0 <= p < q ==> crowned_by(
                        e.location,
                        self@.location,
                        #[trigger] dirty@[p],
                        (e.last_id + bare_upto(e.location, dirty@, p + 1)) as ID,
                    ),
                forall|id: ID| done.contains(id) <==> among(dirty@, q as int, id),
                capitals_fixed(e.location, self@.location, done),
                settled(self@.location),
                units_booked(self@),
                units_booked(e),
                reshuffled(e, self@),
                evolved(e, self@),
                q <= dirty@.len() <= 7,
                e.last_id + 7 < u32::MAX,
                self@.last_id <= e.last_id + q,
                crowned_but(self@.location, dirty@, q as int),
            decreases dirty@.len() - q,
        {
            let ghost before = self@;
            self.fix_capital(dirty[q]);
            proof {
                let now = self@;
                lemma_crowned_step(
                    e.location,
                    before.location,
                    now.location,
                    dirty@,
                    q as int,
                    e.last_id as int,
                    before.last_id as int,
                    now.last_id as int,
                    done,
                );
                lemma_evolved_on(e, before, now);
                assert forall|h: int|
                    0 <= h < now.location.regions.len() && miscrowned(
                        now.location,
                        (#[trigger] now.location.regions[h]).id,
                    ) implies exists|p: int|
                    q + 1 <= p < dirty@.len() && #[trigger] dirty@[p] == now.location.regions[h].id by {
                    let id = now.location.regions[h].id;
                    assert(before.location.regions[h].id == id);
                    assert(id != dirty@[q as int]);
                    lemma_fixed_elsewhere(before.location, now.location, dirty@[q as int], id);
                    assert(miscrowned(before.location, id));
                    let p = choose|p: int|
                        q <= p < dirty@.len() && #[trigger] dirty@[p] == before.location.regions[h].id;
                    assert(p != q);
                }
                let d = dirty@[q as int];
                let v = e.location;
                assert(!done.contains(d)) by {
                    if among(dirty@, q as int, d) {
                        let p = choose|p: int|
                            0 <= p < q && p < dirty@.len() && #[trigger] dirty@[p] == d;
                        assert(dirty@[p] == dirty@[q as int]);
                    }
                }
                assert forall|id: ID| done.insert(d).contains(id) <==> among(
                    dirty@,
                    q + 1,
                    id,
                ) by {
                    if among(dirty@, q + 1, id) {
                        let p = choose|p: int|
                            0 <= p < q + 1 && p < dirty@.len() && #[trigger] dirty@[p] == id;
                        if p < q {
                            assert(among(dirty@, q as int, id));
                        }
                    }
                    if among(dirty@, q as int, id) {
                        let p = choose|p: int|
                            0 <= p < q && p < dirty@.len() && #[trigger] dirty@[p] == id;
                        assert(dirty@[p] == id);
                    }
                    if id == d {
                        assert(dirty@[q as int] == id);
                    }
                }
                assert forall|i: int| 0 <= i < v.size() implies #[trigger] now.location.tiles[i]
                    == match v.region_of[i] {
                    Some(id) => if done.insert(d).contains(id) {
                        fixed_tile(v, now.location, id, i)
                    } else {
                        v.tiles[i]
                    },
                    None => v.tiles[i],
                } by {
                    assert(before.location.tiles[i] == match v.region_of[i] {
                        Some(id) => if done.contains(id) {
                            fixed_tile(v, before.location, id, i)
                        } else {
                            v.tiles[i]
                        },
                        None => v.tiles[i],
                    });
                    if v.region_of[i] == Some(d) {
                        assert forall|j: int|
                            0 <= j < v.size() && v.region_of[j] == Some(d) implies #[trigger] before.location.tiles[j]
                            == v.tiles[j] by {
                            assert(before.location.tiles[j] == match v.region_of[j] {
                                Some(id) => if done.contains(id) {
                                    fixed_tile(v, before.location, id, j)
                                } else {
                                    v.tiles[j]
                                },
                                None => v.tiles[j],
                            });
                        }
                        lemma_fixed_tile_same(v, before.location, now.location, d, i);
                        assert(now.location.tiles[i] == fixed_tile(
                            before.location,
                            now.location,
                            d,
                            i,
                        ));
                    } else {
                        assert(now.location.tiles[i] == before.location.tiles[i]);
                    }
                }
                done = done.insert(d);
            }
            q += 1;
        }
        proof {
            assert forall|id: ID| among(dirty@, dirty@.len() as int, id) <==> dirty@.contains(id) by {
                if dirty@.contains(id) {
                    let p = choose|p: int| 0 <= p < dirty@.len() && dirty@[p] == id;
                    assert(dirty@[p] == id);
                }
            }
            assert(done =~= dirty@.to_set());
        }
    }

    /// Gives tile `at` to region `region_id`, which it touches, and follows
    /// up on what that does to the regions: their records are brought up to
    /// date, and the capitals of the regions that changed are seen to.
    fn annex(&mut self, at: usize, region_id: ID) -> (changes: Vec<RegionTransformation>)
        requires
            old(self).based(),
            settled(old(self)@.location),
            units_booked(old(self)@),
            regions_booked(old(self)@),
            modest(old(self)@.region_info, MONEY_LIMIT as int),
            at < old(self)@.location.size(),
            add_tile_error(
                old(self)@.location,
                old(self)@.location.cells[at as int],
                region_id,
            ) is None,
            old(self)@.location.region_of[at as int] is Some,
            forall|h: int|
                0 <= h < old(self)@.location.regions.len() ==> (#[trigger] old(self)@.location.regions[h]).id == region_id || Some(old(self)@.location.regions[h].id)
                    == old(self)@.location.region_of[at as int] || !miscrowned(
                    old(self)@.location,
                    old(self)@.location.regions[h].id,
                ),
            old(self)@.last_id + 5 * (old(self)@.location.regions.len() + 6) + 8 <= u32::MAX,
        ensures
            final(self).based(),
            settled(final(self)@.location),
            crowned(final(self)@.location),
            units_booked(final(self)@),
            regions_booked(final(self)@),
            modest(final(self)@.region_info, 8 * (MONEY_LIMIT + 1)),
            final(self)@.region_info.contains_key(region_id),
            evolved(old(self)@, final(self)@),
            same_table(old(self)@, final(self)@),
            regrouped(old(self)@.location, final(self)@.location, at as int, region_id),
            final(self)@.last_id <= old(self)@.last_id + 5 * (old(self)@.location.regions.len()
                + 6) + 7,
            recorded(old(self)@.location, final(self)@.location, at as int, region_id, changes@),
            final(self)@.region_info == followed(
                final(self)@.location.region_of,
                old(self)@.region_info,
                changes@,
                changes@.len() as int,
            ),
            capitals_fixed(
                LocationView { tiles: old(self)@.location.tiles, ..final(self)@.location },
                final(self)@.location,
                Set::new(|id: ID| unsettled(old(self)@.location, at as int, region_id, id)),
            ),
            issued(
                old(self)@.location.regions,
                old(self)@.last_id,
                last_after(old(self)@.last_id, changes@),
                changes@,
            ),
            final(self)@.last_id == last_after(old(self)@.last_id, changes@) + bare_upto(
                LocationView { tiles: old(self)@.location.tiles, ..final(self)@.location },
                watch_list(region_id, old(self)@.location.region_of[at as int], changes@),
                watch_list(region_id, old(self)@.location.region_of[at as int], changes@).len() as int,
            ),
            crowned_in_turn(
                LocationView { tiles: old(self)@.location.tiles, ..final(self)@.location },
                final(self)@.location,
                watch_list(region_id, old(self)@.location.region_of[at as int], changes@),
                last_after(old(self)@.last_id, changes@) as int,
            ),
    {
        let ghost e = self@;
        let ghost v0 = e.location;
        let coordinate = self.location.coordinate_at(at);
        let gone = self.location.region_id_at_index(at);
        let res = self.location.add_tile_to_region(coordinate, region_id, &mut self.id_producer);
        let changes = match res {
            Ok(changes) => changes,
            Err(_) => {
                assert(false);
                return Vec::new();
            },
        };
        let ghost v1 = self@.location;
        let ghost e1 = self@;
        proof {
            lemma_gone_is_foreign(v0, at as int, region_id);
            assert(e1.location.tiles == v0.tiles);
            assert(e1.unit_info == e.unit_info);
            assert(e1.last_id >= e.last_id);
            assert forall|i: int|
                0 <= i < e1.location.tiles.len() && (#[trigger] e1.location.tiles[i]).unit
                    is Some implies {
                let unit = e1.location.tiles[i].unit->0;
                &&& e1.unit_info.contains_key(unit.id)
                &&& record_of(e1.unit_info[unit.id], unit)
                &&& unit.id <= e1.last_id
            } by {
                assert(e.location.tiles[i].unit is Some);
            }
            assert(units_booked(e1));
            assert(evolved(e, e1));
            assert forall|k: int| 0 <= k < changes@.len() implies match #[trigger] changes@[k] {
                RegionTransformation::Delete(id) => k == 0 && e.region_info.contains_key(id) && id
                    != region_id,
                RegionTransformation::Split { from, into } => k == 0 && e.region_info.contains_key(
                    from,
                ) && from != region_id && 1 <= into@.len() <= 6 && into@[0] == from
                    && !into@.contains(region_id) && into@.no_duplicates(),
                RegionTransformation::Merge { from, into } => into == region_id
                    && e.region_info.contains_key(from) && from != region_id && !dropped(
                    changes@,
                    k,
                    from,
                ) && !added(changes@, k, from),
            } by {
                let lead: int = if changes@.len() > 0 && !(changes@[0] is Merge) {
                    1
                } else {
                    0
                };
                match changes@[k] {
                    RegionTransformation::Delete(id) => {
                        assert(k < lead);
                        assert(v0.has_region(id));
                    },
                    RegionTransformation::Split { from, into } => {
                        assert(k < lead);
                        assert(v0.has_region(from));
                        if into@.contains(region_id) {
                            let q = choose|q: int| 0 <= q < into@.len() && into@[q] == region_id;
                            if q >= 1 {
                                assert(!v0.has_region(into@[q]));
                            }
                        }
                    },
                    RegionTransformation::Merge { from, into } => {
                        assert(k >= lead);
                        assert(mergeable(v0, at as int, region_id, from));
                        if dropped(changes@, k, from) {
                            let j = choose|j: int|
                                0 <= j < k && j < changes@.len() && drops(#[trigger] changes@[j], from);
                            if j >= lead {
                                assert(changes@[j] != changes@[k]);
                            }
                        }
                        if added(changes@, k, from) {
                            let j = choose|j: int|
                                0 <= j < k && j < changes@.len() && adds(#[trigger] changes@[j], from);
                            assert(j == 0);
                            match changes@[0] {
                                RegionTransformation::Split { from: lost, into: parts } => {
                                    let q = choose|q: int| 0 <= q < parts@.len() && parts@[q] == from;
                                    if q >= 1 {
                                        assert(!v0.has_region(parts@[q]));
                                    }
                                },
                                _ => {},
                            }
                        }
                    },
                }
            }
            assert(v0.has_region(region_id));
        }
        self.follow_up(&changes, region_id);
        let ghost e2 = self@;
        proof {
            assert forall|id: ID| #[trigger] e2.region_info.contains_key(id) implies v1.has_region(
                id,
            ) by {
                lemma_records_follow(v0, v1, at as int, region_id, changes@, id);
            }
            assert forall|id: ID| #[trigger] v1.has_region(id) implies e2.region_info.contains_key(
                id,
            ) by {
                lemma_records_follow(v0, v1, at as int, region_id, changes@, id);
            }
            assert(covered(v1)) by {
                assert forall|x: int| 0 <= x < v1.size() implies #[trigger] covered_at(v1, x) by {
                    assert(covered_at(v0, x));
                    if x != at {
                        assert(fate(v0, v1, at as int, region_id, x));
                    }
                }
            }
            assert(settled(v1));
            assert(regions_booked(e2));
            assert(units_booked(e2));
        }
        let mut dirty: Vec<ID> = Vec::new();
        dirty.push(region_id);
        if let Some(g) = gone {
            dirty.push(g);
        }
        let ghost base = dirty@;
        if changes.len() > 0 {
            match &changes[0] {
                RegionTransformation::Split { from, into } => {
                    let mut q: usize = 1;
                    while q < into.len()
                        invariant
                            1 <= q <= into@.len() <= 6,
                            1 <= dirty@.len() <= 2 + q - 1,
                            dirty@[0] == region_id,
                            gone is Some ==> dirty@.len() >= 2 && dirty@[1] == gone->0,
                            forall|p: int| 1 <= p < q ==> dirty@.contains(#[trigger] into@[p]),
                            dirty@ =~= base + into@.subrange(1, q as int),
                        decreases into@.len() - q,
                    {
                        let ghost before = dirty@;
                        dirty.push(into[q]);
                        proof {
                            assert(into@.subrange(1, q + 1) =~= into@.subrange(1, q as int).push(
                                into@[q as int],
                            ));
                            assert(dirty@[before.len() as int] == into@[q as int]);
                            assert forall|p: int| 1 <= p < q + 1 implies dirty@.contains(
                                #[trigger] into@[p],
                            ) by {
                                if p < q {
                                    let r = choose|r: int|
                                        0 <= r < before.len() && before[r] == into@[p];
                                    assert(dirty@[r] == into@[p]);
                                }
                            }
                        }
                        q += 1;
                    }
                },
                _ => {},
            }
        }
        proof {
            assert forall|h: int|
                0 <= h < v1.regions.len() && miscrowned(
                    v1,
                    (#[trigger] v1.regions[h]).id,
                ) implies exists|q: int| 0 <= q < dirty@.len() && #[trigger] dirty@[q] == v1.regions[h].id by {
                let id = v1.regions[h].id;
                assert(v1.has_region(id));
                if id == region_id {
                    assert(dirty@[0] == id);
                } else if gone == Some(id) {
                    assert(dirty@[1] == id);
                } else if added(changes@, changes@.len() as int, id) {
                    let j = choose|j: int|
                        0 <= j < changes@.len() && j < changes@.len() && adds(
                            #[trigger] changes@[j],
                            id,
                        );
                    match changes@[j] {
                        RegionTransformation::Split { from, into } => {
                            assert(j == 0);
                            let p = choose|p: int| 0 <= p < into@.len() && into@[p] == id;
                            assert(p >= 1);
                            assert(dirty@.contains(into@[p]));
                            let r = choose|r: int| 0 <= r < dirty@.len() && dirty@[r] == id;
                            assert(dirty@[r] == id);
                        },
                        _ => {},
                    }
                } else {
                    lemma_untouched(v0, v1, at as int, region_id, changes@, id);
                    let g = choose|g: int|
                        0 <= g < v0.regions.len() && (#[trigger] v0.regions[g]).id == id;
                    assert(!miscrowned(v0, v0.regions[g].id));
                }
            }
        }
        proof {
            assert(v0.region_of[at as int] == gone);
            assert(dirty@ =~= watch_list(region_id, gone, changes@)) by {
                if changes@.len() > 0 {
                    match changes@[0] {
                        RegionTransformation::Split { from, into } => {
                            assert(dirty@ =~= base + into@.subrange(1, into@.len() as int));
                        },
                        _ => {
                            assert(dirty@ =~= base);
                        },
                    }
                }
            }
            lemma_watch_list(v0, v1, at as int, region_id, changes@);
        }
        self.fix_capitals(&dirty);
        proof {
            let f = self@.location;
            let plain = LocationView { tiles: v0.tiles, ..f };
            assert(plain == v1);
            lemma_capitals_fixed_same(
                v1,
                f,
                dirty@.to_set(),
                Set::new(|id: ID| unsettled(v0, at as int, region_id, id)),
            );
            lemma_recorded_on(v0, v1, f, at as int, region_id, changes@);
            lemma_evolved_on(e, e1, e2);
            lemma_evolved_on(e, e2, self@);
            assert(self@.region_info == e2.region_info);
            assert(self@.location.regions == v1.regions);
            assert forall|id: ID| #[trigger] self@.location.has_region(id) implies self@.region_info.contains_key(
                id,
            ) by {
                assert(e2.location.has_region(id));
            }
            assert forall|id: ID| #[trigger] self@.region_info.contains_key(id) implies self@.location.has_region(
                id,
            ) by {
                assert(e2.location.has_region(id));
            }
            lemma_regrouped_same_ground(v0, v1, self@.location, at as int, region_id);
            assert forall|i: int| 0 <= i < self@.location.tiles.len() implies (
            #[trigger] self@.location.tiles[i]).id == e.location.tiles[i].id
                && self@.location.tiles[i].surface == e.location.tiles[i].surface by {
                assert(self@.location.tiles[i].id == e2.location.tiles[i].id);
                assert(e2.location.tiles[i] == v0.tiles[i]);
            }
        }
        changes
    }

    /// Buys a unit for the player with the money of a region and puts it on
    /// a tile. On a tile of another region the unit takes the tile for the
    /// region that paid.
    fn place_new_unit(
        &mut self,
        player_id: ID,
        originating_region_id: ID,
        unit_type: UnitType,
        dst: Coord,
    ) -> (res: Result<(), PlayerActionError>)
        requires
            old(self).based(),
            orderly(old(self)@),
            roomy(old(self)@),
        ensures
            final(self).based(),
            match res {
                Err(error) => buying(old(self)@, player_id, originating_region_id, unit_type, dst)
                    == Err::<Placing, PlayerActionError>(error) && *final(self) == *old(self),
                Ok(()) => {
                    &&& buying(old(self)@, player_id, originating_region_id, unit_type, dst) is Ok
                    &&& orderly(final(self)@)
                    &&& same_table(old(self)@, final(self)@)
                    &&& evolved(old(self)@, final(self)@)
                    &&& modest(final(self)@.region_info, 9 * (MONEY_LIMIT + 1))
                    &&& final(self)@.last_id <= old(self)@.last_id + 5 * (old(self)@.location.regions.len() + 6) + 8
                    &&& {
                        let at = old(self)@.location.index_of(dst);
                        if old(self)@.location.region_of[at] == Some(originating_region_id) {
                            final(self)@ == bought(old(self)@, originating_region_id, unit_type, at)
                        } else {
                            annexed(
                                landed(old(self)@, originating_region_id, unit_type, at),
                                final(self)@,
                                at,
                                originating_region_id,
                                spec_description(unit_type).purchase_cost as int,
                            )
                        }
                    }
                },
            },
    {
        let ghost e = self@;
        let placing = match self.prepare_buying_unit(
            player_id,
            originating_region_id,
            unit_type,
            dst,
        ) {
            Ok(placing) => placing,
            Err(error) => {
                return Err(error);
            },
        };
        let at = self.location.index_of(dst).unwrap();
        let ghost mut made: Seq<RegionTransformation> = Seq::empty();
        proof {
            lemma_merge_result(unit_type, UnitType::Village);
            assert(can_step_at(e.location, unit_type, at as int, originating_region_id, true));
            assert(e.location.tiles[at as int].surface is Land);
        }
        self.clear(at);
        let ghost e1 = self@;
        proof {
            lemma_settled_with_unit(e.location, at as int, None);
        }
        let id = self.spawn(at, unit_type);
        let ghost e2 = self@;
        proof {
            lemma_settled_with_unit(e1.location, at as int, Some(Unit { id, unit_type }));
            lemma_evolved_on(e, e1, e2);
            assert(regions_booked(e2)) by {
                assert forall|r: ID| #[trigger] e2.location.has_region(r) implies e2.region_info.contains_key(
                    r,
                ) by {
                    assert(e.location.has_region(r));
                }
                assert forall|r: ID| #[trigger] e2.region_info.contains_key(r) implies e2.location.has_region(
                    r,
                ) by {
                    assert(e.location.has_region(r));
                }
            }
            assert forall|h: int| 0 <= h < e2.location.regions.len() implies (
            #[trigger] e2.location.regions[h]).id == originating_region_id || Some(
                e2.location.regions[h].id,
            ) == e2.location.region_of[at as int] || !miscrowned(
                e2.location,
                e2.location.regions[h].id,
            ) by {
                let r = e2.location.regions[h].id;
                assert(e.location.regions[h].id == r);
                if Some(r) != e.location.region_of[at as int] {
                    lemma_capitals_with_unit(e.location, at as int, None, r);
                    lemma_capitals_with_unit(
                        e1.location,
                        at as int,
                        Some(Unit { id, unit_type }),
                        r,
                    );
                }
            }
        }
        if placing.need_relocation {
            proof {
                let v = e.location;
                assert(touches(v, at as int, originating_region_id));
                let j = choose|j: int|
                    #[trigger] near(v.cells, at as int, j) && j < v.region_of.len() && v.region_of[j]
                        == Some(originating_region_id);
                assert(v.region_of[j] is Some);
                assert(v.has_region(originating_region_id));
                assert(e2.location.has_region(originating_region_id));
                assert(e2.location.index_of(dst) == at);
                assert(touches(e2.location, at as int, originating_region_id)) by {
                    assert(near(e2.location.cells, at as int, j) && j < e2.location.region_of.len()
                        && e2.location.region_of[j] == Some(originating_region_id));
                }
            }
            let changes = self.annex(at, originating_region_id);
            proof {
                lemma_evolved_on(e, e2, self@);
                lemma_regrouped_from_same_ground(
                    e.location,
                    e2.location,
                    self@.location,
                    at as int,
                    originating_region_id,
                );
                made = changes@;
            }
        } else {
            proof {
                let v = e.location;
                assert(v.region_of[at as int] == Some(originating_region_id));
                assert(crowned(e2.location)) by {
                    assert forall|h: int| 0 <= h < e2.location.regions.len() implies !miscrowned(
                        e2.location,
                        (#[trigger] e2.location.regions[h]).id,
                    ) by {
                        let r = e2.location.regions[h].id;
                        assert(e.location.regions[h].id == r);
                        lemma_capitals_with_unit(e.location, at as int, None, r);
                        lemma_capitals_with_unit(
                            e1.location,
                            at as int,
                            Some(Unit { id, unit_type }),
                            r,
                        );
                    }
                }
            }
        }
        let ghost e3 = self@;
        self.modify_money(originating_region_id, 0 - description(unit_type).purchase_cost);
        proof {
            let f = self@;
            assert(units_booked(f));
            assert(regions_booked(f)) by {
                assert forall|r: ID| #[trigger] f.location.has_region(r) implies f.region_info.contains_key(
                    r,
                ) by {
                    assert(e3.location.has_region(r));
                }
                assert forall|r: ID| #[trigger] f.region_info.contains_key(r) implies f.location.has_region(
                    r,
                ) by {
                    assert(e3.location.has_region(r));
                }
            }
            assert(evolved(e, f)) by {
                assert(evolved(e, e3));
            }
            if placing.need_relocation {
                let there = landed(e, originating_region_id, unit_type, at as int);
                assert(e.location.with_unit(at as int, None).tiles =~= e1.location.tiles);
                assert(e2.unit_info =~= there.unit_info);
                assert(e2 == there);
                assert(taken(
                    there,
                    f,
                    at as int,
                    originating_region_id,
                    spec_description(unit_type).purchase_cost as int,
                    made,
                ));
            }
            if !placing.need_relocation {
                assert(e.location.with_unit(at as int, None).tiles =~= e1.location.tiles);
                assert(f.location == bought(e, originating_region_id, unit_type, at as int).location);
                assert(f.unit_info =~= bought(e, originating_region_id, unit_type, at as int).unit_info);
                assert(f.region_info =~= bought(
                    e,
                    originating_region_id,
                    unit_type,
                    at as int,
                ).region_info);
                assert(f == bought(e, originating_region_id, unit_type, at as int));
            }
        }
        Ok(())
    }

    /// Replaces the unit on a tile by a unit of the next tier, for the
    /// difference in price.
    fn upgrade_unit(&mut self, player_id: ID, dst: Coord) -> (res: Result<(), PlayerActionError>)
        requires
            old(self).based(),
            orderly(old(self)@),
            roomy(old(self)@),
        ensures
            final(self).based(),
            match res {
                Err(error) => upgrading(old(self)@, player_id, dst) == Err::<
                    Upgrading,
                    PlayerActionError,
                >(error) && *final(self) == *old(self),
                Ok(()) => {
                    &&& upgrading(old(self)@, player_id, dst) is Ok
                    &&& orderly(final(self)@)
                    &&& same_table(old(self)@, final(self)@)
                    &&& evolved(old(self)@, final(self)@)
                    &&& modest(final(self)@.region_info, 9 * (MONEY_LIMIT + 1))
                    &&& final(self)@ == upgraded_to(
                        old(self)@,
                        upgrading(old(self)@, player_id, dst)->Ok_0.region,
                        upgrading(old(self)@, player_id, dst)->Ok_0.unit_type,
                        upgrading(old(self)@, player_id, dst)->Ok_0.price as int,
                        old(self)@.location.index_of(dst),
                    )
                },
            },
    {
        let ghost e = self@;
        let upgrade = match self.prepare_upgrading_unit(player_id, dst) {
            Ok(upgrade) => upgrade,
            Err(error) => {
                return Err(error);
            },
        };
        let at = self.location.index_of(dst).unwrap();
        proof {
            assert(covered_at(e.location, at as int));
            assert(e.location.tiles[at as int].unit is Some);
        }
        self.clear(at);
        let ghost e1 = self@;
        proof {
            lemma_settled_with_unit(e.location, at as int, None);
        }
        let id = self.spawn(at, upgrade.unit_type);
        let ghost e2 = self@;
        proof {
            lemma_settled_with_unit(
                e1.location,
                at as int,
                Some(Unit { id, unit_type: upgrade.unit_type }),
            );
            lemma_evolved_on(e, e1, e2);
            assert(crowned(e2.location)) by {
                assert forall|h: int| 0 <= h < e2.location.regions.len() implies !miscrowned(
                    e2.location,
                    (#[trigger] e2.location.regions[h]).id,
                ) by {
                    let r = e2.location.regions[h].id;
                    assert(e.location.regions[h].id == r);
                    lemma_capitals_with_unit(e.location, at as int, None, r);
                    lemma_capitals_with_unit(
                        e1.location,
                        at as int,
                        Some(Unit { id, unit_type: upgrade.unit_type }),
                        r,
                    );
                }
            }
        }
        self.modify_money(upgrade.region, 0 - upgrade.price);
        proof {
            let f = self@;
            assert(regions_booked(f)) by {
                assert forall|r: ID| #[trigger] f.location.has_region(r) implies f.region_info.contains_key(
                    r,
                ) by {
                    assert(e.location.has_region(r));
                }
                assert forall|r: ID| #[trigger] f.region_info.contains_key(r) implies f.location.has_region(
                    r,
                ) by {
                    assert(e.location.has_region(r));
                }
            }
            let goal = upgraded_to(
                e,
                upgrade.region,
                upgrade.unit_type,
                upgrade.price as int,
                at as int,
            );
            assert(f.unit_info =~= goal.unit_info);
            assert(f.region_info =~= goal.region_info);
            assert(f == goal);
        }
        Ok(())
    }

    /// Takes the unit of tile `from` to tile `to` and charges it `moves`:
    /// what stood on `to` is gone with its record, which is handed back.
    fn shift(&mut self, from: usize, to: usize, moves: u32) -> (defeated: Option<UnitInfo>)
        requires
            old(self).based(),
            old(self)@.location.shaped(),
            units_booked(old(self)@),
            from < old(self)@.location.size(),
            to < old(self)@.location.size(),
            from != to,
            old(self)@.location.tiles[from as int].unit is Some,
            moves <= old(self)@.unit_info[old(self)@.location.tiles[from as int].unit->0.id].moves_left,
        ensures
            final(self).based(),
            units_booked(final(self)@),
            final(self)@ == walked(old(self)@, from as int, to as int, moves as int),
            defeated == match old(self)@.location.tiles[to as int].unit {
                Some(unit) => Some(old(self)@.unit_info[unit.id]),
                None => None,
            },
    {
        let ghost e = self@;
        let defeated = self.clear(to);
        let ghost e1 = self@;
        let taken = self.clear(from);
        let (unit, info) = taken.unwrap();
        let rested = UnitInfo { unit_type: info.unit_type, moves_left: info.moves_left - moves };
        self.install(to, unit, rested);
        proof {
            let goal = walked(e, from as int, to as int, moves as int);
            assert(e.location.with_unit(to as int, None).tiles =~= e1.location.tiles);
            assert(self@.unit_info =~= goal.unit_info);
            assert(self@.location == goal.location);
        }
        match defeated {
            Some((_, info)) => Some(info),
            None => None,
        }
    }

    /// Replaces the unit on tile `to` by a new unit of the merged type,
    /// which can move at once if `rested` says so.
    fn merge_at(&mut self, to: usize, merged: UnitType, rested: bool)
        requires
            old(self).based(),
            old(self)@.location.shaped(),
            units_booked(old(self)@),
            to < old(self)@.location.size(),
            old(self)@.location.tiles[to as int].unit is Some,
            old(self)@.last_id < u32::MAX,
        ensures
            final(self).based(),
            units_booked(final(self)@),
            final(self)@ == merged_at(old(self)@, to as int, merged, rested),
    {
        let ghost e = self@;
        self.clear(to);
        let id = self.spawn(to, merged);
        let ghost e6 = self@;
        if rested {
            let mut info = UnitInfo { unit_type: merged, moves_left: 0 };
            info.refill_moves();
            self.unit_info.insert(id, info);
        }
        proof {
            let f = self@;
            assert(f.location == e6.location);
            assert forall|x: ID| #[trigger] f.unit_info.contains_key(x) implies exists|j: int|
                unit_on(f.location.tiles, j, x) by {
                assert(e6.unit_info.contains_key(x));
            }
            assert forall|a: int|
                0 <= a < f.location.tiles.len() && (#[trigger] f.location.tiles[a]).unit
                    is Some implies {
                let other = f.location.tiles[a].unit->0;
                &&& f.unit_info.contains_key(other.id)
                &&& record_of(f.unit_info[other.id], other)
                &&& other.id <= f.last_id
            } by {
                assert(e6.location.tiles[a].unit is Some);
                if a != to {
                    if a < to {
                        assert(e6.location.tiles[a].unit->0.id != e6.location.tiles[to as int].unit->0.id);
                    } else {
                        assert(e6.location.tiles[to as int].unit->0.id != e6.location.tiles[a].unit->0.id);
                    }
                }
            }
            assert(f.unit_info =~= merged_at(e, to as int, merged, rested).unit_info);
        }
    }

    /// Moves a unit of the player from one tile to another. On a tile of
    /// another region the unit takes the tile for its region. A unit of the
    /// player that stands on the tile merges with the newcomer into a unit
    /// of a higher tier, which can move in this turn only if the unit that
    /// stood there had all its moves left.
    #[verifier::rlimit(40)]
    fn move_unit(&mut self, player_id: ID, src: Coord, dst: Coord) -> (res: Result<
        (),
        PlayerActionError,
    >)
        requires
            old(self).based(),
            orderly(old(self)@),
            roomy(old(self)@),
        ensures
            final(self).based(),
            match res {
                Err(error) => moving(old(self)@, player_id, src, dst) == Err::<
                    Moving,
                    PlayerActionError,
                >(error) && *final(self) == *old(self),
                Ok(()) => {
                    &&& moving(old(self)@, player_id, src, dst) is Ok
                    &&& orderly(final(self)@)
                    &&& same_table(old(self)@, final(self)@)
                    &&& modest(final(self)@.region_info, 9 * (MONEY_LIMIT + 1))
                    &&& old(self)@.last_id <= final(self)@.last_id <= old(self)@.last_id + 5 * (
                    old(self)@.location.regions.len() + 6) + 8
                    &&& moved(
                        old(self)@,
                        final(self)@,
                        moving(old(self)@, player_id, src, dst)->Ok_0,
                        old(self)@.location.index_of(src),
                        old(self)@.location.index_of(dst),
                    )
                },
            },
    {
        let ghost e = self@;
        let ghost v = e.location;
        let m = match self.prepare_moving_unit(player_id, src, dst) {
            Ok(m) => m,
            Err(error) => {
                return Err(error);
            },
        };
        let from = self.location.index_of(src).unwrap();
        let to = self.location.index_of(dst).unwrap();
        proof {
            lemma_move_is_sane(e, player_id, src, dst);
        }
        let defeated = self.shift(from, to, m.moves);
        let ghost e3 = self@;
        proof {
            lemma_walked(e, from as int, to as int, m.moves as int);
            assert(regions_booked(e3)) by {
                assert forall|r: ID| #[trigger] e3.location.has_region(r) implies e3.region_info.contains_key(
                    r,
                ) by {
                    assert(e.location.has_region(r));
                }
                assert forall|r: ID| #[trigger] e3.region_info.contains_key(r) implies e3.location.has_region(
                    r,
                ) by {
                    assert(e.location.has_region(r));
                }
            }
        }
        if m.placing.need_relocation {
            proof {
                assert(touches(v, to as int, m.region));
                let j = choose|j: int|
                    #[trigger] near(v.cells, to as int, j) && j < v.region_of.len() && v.region_of[j]
                        == Some(m.region);
                assert(e3.location.has_region(m.region));
                assert(e3.location.index_of(dst) == to);
                assert(touches(e3.location, to as int, m.region)) by {
                    assert(near(e3.location.cells, to as int, j) && j < e3.location.region_of.len()
                        && e3.location.region_of[j] == Some(m.region));
                }
                assert forall|h: int| 0 <= h < e3.location.regions.len() implies (
                #[trigger] e3.location.regions[h]).id == m.region || Some(
                    e3.location.regions[h].id,
                ) == e3.location.region_of[to as int] || !miscrowned(
                    e3.location,
                    e3.location.regions[h].id,
                ) by {
                    assert(e.location.regions[h].id == e3.location.regions[h].id);
                }
            }
            let changes = self.annex(to, m.region);
            proof {
                lemma_regrouped_from_same_ground(
                    v,
                    e3.location,
                    self@.location,
                    to as int,
                    m.region,
                );
                let f = self@;
                let plain = followed(
                    f.location.region_of,
                    e3.region_info,
                    changes@,
                    changes@.len() as int,
                );
                assert(plain =~= charged(plain, m.region, 0));
                assert(taken(e3, f, to as int, m.region, 0, changes@));
            }
        } else {
            proof {
                assert(crowned(e3.location)) by {
                    assert forall|h: int| 0 <= h < e3.location.regions.len() implies !miscrowned(
                        e3.location,
                        (#[trigger] e3.location.regions[h]).id,
                    ) by {
                        assert(e.location.regions[h].id == e3.location.regions[h].id);
                    }
                }
            }
        }
        if let Some(merged) = m.placing.upgrade_to {
            let ghost e4 = self@;
            let rested = match defeated {
                Some(old_info) => old_info.moves_left == description(old_info.unit_type).max_moves,
                None => false,
            };
            self.merge_at(to, merged, rested);
            proof {
                let f = self@;
                let unit = v.tiles[from as int].unit->0;
                let id = (e4.last_id + 1) as ID;
                lemma_settled_with_unit(e4.location, to as int, None);
                lemma_settled_with_unit(
                    e4.location.with_unit(to as int, None),
                    to as int,
                    Some(Unit { id, unit_type: merged }),
                );
                assert(crowned(f.location)) by {
                    assert forall|h: int| 0 <= h < f.location.regions.len() implies !miscrowned(
                        f.location,
                        (#[trigger] f.location.regions[h]).id,
                    ) by {
                        let r = f.location.regions[h].id;
                        assert(e4.location.regions[h].id == r);
                        lemma_capitals_with_unit(e4.location, to as int, None, r);
                        lemma_capitals_with_unit(
                            e4.location.with_unit(to as int, None),
                            to as int,
                            Some(Unit { id, unit_type: merged }),
                            r,
                        );
                    }
                }
                assert(regions_booked(f)) by {
                    assert forall|r: ID| #[trigger] f.location.has_region(r) implies f.region_info.contains_key(
                        r,
                    ) by {
                        assert(e4.location.has_region(r));
                    }
                    assert forall|r: ID| #[trigger] f.region_info.contains_key(r) implies f.location.has_region(
                        r,
                    ) by {
                        assert(e4.location.has_region(r));
                    }
                }
            }
        }
        Ok(())
    }
}

/// A move that the rules allow is made by a unit that is no village, from a
/// tile to another, onto land and onto nothing that is a village unless the
/// tile changes hands; and no move both takes a tile and merges units.
pub proof fn lemma_move_is_sane(e: EngineView, player: ID, src: Coord, dst: Coord)
    requires
        orderly(e),
        e.location.shaped(),
        moving(e, player, src, dst) is Ok,
    ensures
        ({
            let v = e.location;
            let m = moving(e, player, src, dst)->Ok_0;
            let from = v.index_of(src);
            let to = v.index_of(dst);
            &&& 0 <= from < v.size()
            &&& 0 <= to < v.size()
            &&& from != to
            &&& v.cells[from] == src
            &&& v.cells[to] == dst
            &&& v.tiles[from].unit is Some
            &&& v.tiles[from].unit->0.unit_type != UnitType::Village
            &&& m.unit_id == v.tiles[from].unit->0.id
            &&& m.moves <= e.unit_info[m.unit_id].moves_left
            &&& v.region_of[from] == Some(m.region)
            &&& v.region_of[to] is Some
            &&& v.tiles[to].surface is Land
            &&& m.placing.need_relocation == (v.region_of[to] != Some(m.region))
            &&& m.placing.need_relocation ==> touches(v, to, m.region) && v.has_region(m.region)
            &&& !m.placing.need_relocation ==> !is_capital(v.tiles[to])
            &&& !(m.placing.need_relocation && m.placing.upgrade_to is Some)
            &&& m.placing.upgrade_to matches Some(merged) ==> merged != UnitType::Village
                && v.tiles[to].unit is Some
        }),
{
    let v = e.location;
    let from = v.index_of(src);
    let to = v.index_of(dst);
    let unit = v.tiles[from].unit->0;
    let region = v.region_of[from]->0;
    let m = moving(e, player, src, dst)->Ok_0;
    assert(placing(v, player, region, unit.unit_type, dst) is Ok);
    assert(can_step_at(v, unit.unit_type, to, region, true));
    if from == to {
        assert(v.cells[from] == v.cells[to]);
    }
    let open = step_mask(v, unit.unit_type, region, to);
    let d = distance(v.cells, open, from, to);
    let k = choose|k: nat| walk(v.cells, open, from, to, k);
    lemma_shortest(v.cells, open, from, to, k);
    assert(distance_is(v.cells, open, from, to, d));
    assert(d >= 1);
    assert(v.tiles[from].unit is Some);
    assert(record_of(e.unit_info[unit.id], unit));
    if v.tiles[to].unit is Some {
        lemma_merge_result(unit.unit_type, v.tiles[to].unit->0.unit_type);
    }
    assert(v.region_of[from] is Some);
    assert(v.has_region(region));
    if m.placing.need_relocation && m.placing.upgrade_to is Some {
        let j = choose|j: int|
            #[trigger] near(v.cells, to, j) && j < v.region_of.len() && v.region_of[j] == Some(
                region,
            );
        assert(friendly(v.cells, v.region_of, v.regions, to, j));
    }
}

/// A location stays settled when a unit walks to a land tile, and the
/// capitals of a region stay as they are unless the unit or what it lands
/// on is a village of the region.
pub proof fn lemma_walked(e: EngineView, from: int, to: int, moves: int)
    requires
        settled(e.location),
        0 <= from < e.location.size(),
        0 <= to < e.location.size(),
        from != to,
        e.location.tiles[from].unit is Some,
        !is_capital(e.location.tiles[from]),
        e.location.tiles[to].surface is Land,
    ensures
        settled(walked(e, from, to, moves).location),
        forall|h: int|
            0 <= h < e.location.regions.len() && !miscrowned(
                e.location,
                (#[trigger] e.location.regions[h]).id,
            ) && (is_capital(e.location.tiles[to]) ==> e.location.region_of[to] != Some(
                e.location.regions[h].id,
            )) ==> !miscrowned(walked(e, from, to, moves).location, e.location.regions[h].id),
{
    let v = e.location;
    let unit = v.tiles[from].unit->0;
    let v1 = v.with_unit(to, None);
    let v2 = v1.with_unit(from, None);
    let v3 = v2.with_unit(to, Some(unit));
    lemma_settled_with_unit(v, to, None);
    lemma_settled_with_unit(v1, from, None);
    lemma_settled_with_unit(v2, to, Some(unit));
    assert forall|h: int|
        0 <= h < v.regions.len() && !miscrowned(v, (#[trigger] v.regions[h]).id) && (is_capital(
            v.tiles[to],
        ) ==> v.region_of[to] != Some(v.regions[h].id)) implies !miscrowned(v3, v.regions[h].id) by {
        let r = v.regions[h].id;
        assert forall|i: int| 0 <= i < v.size() implies capital_mask(v.region_of, v.tiles, r)[i]
            == capital_mask(v3.region_of, v3.tiles, r)[i] by {
            if i == from {
                assert(v3.tiles[i].unit is None);
            } else if i == to {
                assert(v3.tiles[i].unit == Some(unit));
            } else {
                assert(v3.tiles[i] == v.tiles[i]);
            }
        }
        lemma_count_set_same(
            capital_mask(v.region_of, v.tiles, r),
            capital_mask(v3.region_of, v3.tiles, r),
            v.size(),
        );
    }
}

/// The state after the unit on tile `to` was replaced by a new unit of the
/// merged type.
pub open spec fn merged_at(old: EngineView, to: int, merged: UnitType, rested: bool) -> EngineView {
    let id = (old.last_id + 1) as ID;
    EngineView {
        location: old.location.with_unit(to, None).with_unit(
            to,
            Some(Unit { id, unit_type: merged }),
        ),
        unit_info: old.unit_info.remove(old.location.tiles[to].unit->0.id).insert(
            id,
            UnitInfo {
                unit_type: merged,
                moves_left: if rested {
                    spec_description(merged).max_moves
                } else {
                    0
                },
            },
        ),
        last_id: id,
        ..old
    }
}

impl GameEngine {
    /// What the units of region `id` cost it each turn.
    fn upkeep_of(&self, id: ID) -> (cost: i32)
        requires
            self.based(),
            self@.location.size() <= MAP_LIMIT,
        ensures
            cost == upkeep(self@.location, id),
            0 <= cost <= 54 * MAP_LIMIT,
    {
        let n = self.location.size();
        let mut cost: i32 = 0;
        let mut i: usize = 0;
        while i < n
            invariant
                self.based(),
                n == self@.location.size(),
                n <= MAP_LIMIT,
                i <= n,
                cost == upkeep_upto(self@.location, id, i as int),
                0 <= cost <= 54 * i,
            decreases n - i,
        {
            let inside = match self.location.region_id_at_index(i) {
                Some(r) => r == id,
                None => false,
            };
            if inside {
                if let Some(unit) = self.location.tile_at_index(i).unit {
                    cost += description(unit.unit_type).turn_cost;
                }
            }
            i += 1;
        }
        cost
    }

    /// Counts income and maintenance of every region anew.
    fn recount_region_info(&mut self)
        requires
            old(self).based(),
            old(self)@.location.linked(),
            regions_recorded(old(self)@),
            old(self)@.location.size() <= MAP_LIMIT,
        ensures
            final(self).based(),
            final(self)@ == (EngineView { region_info: recounted(old(self)@), ..old(self)@ }),
            regions_booked(old(self)@) ==> cached(final(self)@),
    {
        let ghost e = self@;
        let ghost v = e.location;
        let count = self.location.region_headers().len();
        let mut h: usize = 0;
        while h < count
            invariant
                self.based(),
                v == e.location,
                v.linked(),
                regions_recorded(e),
                v.size() <= MAP_LIMIT,
                count == v.regions.len(),
                h <= count,
                self@ == (EngineView { region_info: self@.region_info, ..e }),
                forall|id: ID| #[trigger]
                    self@.region_info.contains_key(id) <==> e.region_info.contains_key(id),
                forall|id: ID| #[trigger]
                    self@.region_info.contains_key(id) && !v.has_region(id)
                        ==> self@.region_info[id] == e.region_info[id],
                forall|g: int|
                    0 <= g < count ==> self@.region_info[(#[trigger] v.regions[g]).id] == if g < h {
                        counted(v, v.regions[g].id, e.region_info[v.regions[g].id])
                    } else {
                        e.region_info[v.regions[g].id]
                    },
            decreases count - h,
        {
            let id = self.location.region_headers()[h].id;
            assert(v.regions[h as int].id == id);
            assert(v.has_region(id));
            let size = self.location.region_size(id);
            let cost = self.upkeep_of(id);
            proof {
                lemma_count_set_bound(region_mask(v.region_of, id), v.size());
            }
            let previous = *self.region_info.get(&id).unwrap();
            let ghost before = self@.region_info;
            self.region_info.insert(
                id,
                RegionInfo {
                    money_balance: previous.money_balance,
                    income_from_fields: size as i32 * EMPTY_TILE_INCOME,
                    maintenance_cost: cost,
                },
            );
            proof {
                assert forall|g: int| 0 <= g < count implies self@.region_info[(
                #[trigger] v.regions[g]).id] == if g < h + 1 {
                    counted(v, v.regions[g].id, e.region_info[v.regions[g].id])
                } else {
                    e.region_info[v.regions[g].id]
                } by {
                    if g != h {
                        assert(v.regions[g].id != v.regions[h as int].id);
                        assert(before[v.regions[g].id] == self@.region_info[v.regions[g].id]);
                    }
                }
            }
            h += 1;
        }
        proof {
            assert(self@.region_info =~= recounted(e)) by {
                assert forall|id: ID| #[trigger] self@.region_info.contains_key(id) implies self@.region_info[id]
                    == recounted(e)[id] by {
                    if v.has_region(id) {
                    let g = choose|g: int| 0 <= g < v.regions.len() && (#[trigger] v.regions[g]).id == id;
                    assert(self@.region_info[v.regions[g].id] == counted(
                        v,
                        v.regions[g].id,
                        e.region_info[v.regions[g].id],
                    ));
                    }
                }
            }
        }
    }

    /// Adds the income of a turn to the balance of every region that earns
    /// one, and takes its maintenance.
    fn apply_income(&mut self)
        requires
            old(self).based(),
            old(self)@.location.linked(),
            regions_booked(old(self)@),
            cached(old(self)@),
            old(self)@.location.size() <= MAP_LIMIT,
            modest(old(self)@.region_info, 9 * (MONEY_LIMIT + 1)),
        ensures
            final(self).based(),
            final(self)@ == (EngineView { region_info: paid(old(self)@), ..old(self)@ }),
    {
        let ghost e = self@;
        let ghost v = e.location;
        let count = self.location.region_headers().len();
        let mut h: usize = 0;
        while h < count
            invariant
                self.based(),
                v == e.location,
                v.linked(),
                regions_booked(e),
                cached(e),
                v.size() <= MAP_LIMIT,
                modest(e.region_info, 9 * (MONEY_LIMIT + 1)),
                count == v.regions.len(),
                h <= count,
                self@ == (EngineView { region_info: self@.region_info, ..e }),
                forall|id: ID| #[trigger]
                    self@.region_info.contains_key(id) <==> e.region_info.contains_key(id),
                forall|g: int|
                    0 <= g < count ==> self@.region_info[(#[trigger] v.regions[g]).id] == if g < h {
                        paid(e)[v.regions[g].id]
                    } else {
                        e.region_info[v.regions[g].id]
                    },
            decreases count - h,
        {
            let id = self.location.region_headers()[h].id;
            assert(v.regions[h as int].id == id);
            assert(v.has_region(id));
            let earns = self.location.region_size(id) >= MIN_CONTROLLED_REGION_SIZE
                || region_hosts_unit(&self.location, id);
            let ghost before = self@.region_info;
            if earns {
                let mut info = *self.region_info.get(&id).unwrap();
                proof {
                    assert(info == counted(v, id, info));
                    lemma_count_set_bound(region_mask(v.region_of, id), v.size());
                    lemma_upkeep_bound(v, id, v.size());
                }
                let sum = info.income_from_fields - info.maintenance_cost;
                info.change_balance(sum);
                self.region_info.insert(id, info);
            }
            proof {
                assert forall|g: int| 0 <= g < count implies self@.region_info[(
                #[trigger] v.regions[g]).id] == if g < h + 1 {
                    paid(e)[v.regions[g].id]
                } else {
                    e.region_info[v.regions[g].id]
                } by {
                    if g != h {
                        assert(v.regions[g].id != v.regions[h as int].id);
                        assert(before[v.regions[g].id] == self@.region_info[v.regions[g].id]);
                    }
                }
            }
            h += 1;
        }
        proof {
            assert(self@.region_info =~= paid(e)) by {
                assert forall|id: ID| #[trigger] self@.region_info.contains_key(id) implies self@.region_info[id]
                    == paid(e)[id] by {
                    assert(v.has_region(id));
                    let g = choose|g: int| 0 <= g < v.regions.len() && (#[trigger] v.regions[g]).id == id;
                    assert(self@.region_info[v.regions[g].id] == paid(e)[v.regions[g].id]);
                }
            }
        }
    }

    /// Gives every unit the moves of its type.
    fn refill_moves(&mut self)
        requires
            old(self).based(),
            old(self)@.location.shaped(),
            units_booked(old(self)@),
        ensures
            final(self).based(),
            units_booked(final(self)@),
            final(self)@ == (EngineView { unit_info: rested(old(self)@), ..old(self)@ }),
    {
        let ghost e = self@;
        let ghost tiles = e.location.tiles;
        let n = self.location.size();
        let mut i: usize = 0;
        while i < n
            invariant
                self.based(),
                units_booked(e),
                tiles == e.location.tiles,
                n == tiles.len(),
                i <= n,
                self@ == (EngineView { unit_info: self@.unit_info, ..e }),
                forall|id: ID| #[trigger]
                    self@.unit_info.contains_key(id) <==> e.unit_info.contains_key(id),
                forall|j: int|
                    0 <= j < n && (#[trigger] tiles[j]).unit is Some ==> self@.unit_info[tiles[j].unit->0.id]
                        == if j < i {
                        refilled(e.unit_info[tiles[j].unit->0.id])
                    } else {
                        e.unit_info[tiles[j].unit->0.id]
                    },
            decreases n - i,
        {
            if let Some(unit) = self.location.tile_at_index(i).unit {
                assert(tiles[i as int].unit is Some);
                let mut info = *self.unit_info.get(&unit.id).unwrap();
                info.refill_moves();
                let ghost before = self@.unit_info;
                self.unit_info.insert(unit.id, info);
                proof {
                    assert forall|j: int|
                        0 <= j < n && (#[trigger] tiles[j]).unit is Some implies self@.unit_info[tiles[j].unit->0.id]
                        == if j < i + 1 {
                        refilled(e.unit_info[tiles[j].unit->0.id])
                    } else {
                        e.unit_info[tiles[j].unit->0.id]
                    } by {
                        if j != i {
                            if j < i {
                                assert(tiles[j].unit->0.id != tiles[i as int].unit->0.id);
                            } else {
                                assert(tiles[i as int].unit->0.id != tiles[j].unit->0.id);
                            }
                            assert(before[tiles[j].unit->0.id] == self@.unit_info[tiles[j].unit->0.id]);
                        }
                    }
                }
            }
            i += 1;
        }
        proof {
            let f = self@;
            assert(f.unit_info =~= rested(e)) by {
                assert forall|id: ID| #[trigger] f.unit_info.contains_key(id) implies f.unit_info[id]
                    == rested(e)[id] by {
                    let j = choose|j: int| unit_on(tiles, j, id);
                    assert(tiles[j].unit is Some);
                }
            }
            assert forall|x: ID| #[trigger] f.unit_info.contains_key(x) implies exists|j: int|
                unit_on(f.location.tiles, j, x) by {
                assert(e.unit_info.contains_key(x));
            }
            assert forall|a: int|
                0 <= a < f.location.tiles.len() && (#[trigger] f.location.tiles[a]).unit
                    is Some implies {
                let other = f.location.tiles[a].unit->0;
                &&& f.unit_info.contains_key(other.id)
                &&& record_of(f.unit_info[other.id], other)
                &&& other.id <= f.last_id
            } by {
                assert(e.location.tiles[a].unit is Some);
            }
        }
    }
}

impl GameEngine {
    /// Puts new units on the tiles as the plan says.
    fn remake(&mut self, plan: &Vec<Option<UnitType>>)
        requires
            old(self).based(),
            settled(old(self)@.location),
            crowned(old(self)@.location),
            units_booked(old(self)@),
            plan@.len() == old(self)@.location.size(),
            old(self)@.last_id + plan@.len() < u32::MAX,
            forall|i: int|
                0 <= i < plan@.len() && (#[trigger] plan@[i]) is Some ==> old(self)@.location.tiles[i].surface is Land && plan@[i] != Some(UnitType::Village)
                    && !is_capital(old(self)@.location.tiles[i]),
        ensures
            final(self).based(),
            settled(final(self)@.location),
            crowned(final(self)@.location),
            units_booked(final(self)@),
            remade(old(self)@, final(self)@, plan@),
            final(self)@.last_id <= old(self)@.last_id + plan@.len(),
    {
        let ghost e = self@;
        let n = plan.len();
        let mut i: usize = 0;
        while i < n
            invariant
                self.based(),
                settled(self@.location),
                crowned(self@.location),
                units_booked(self@),
                units_booked(e),
                n == plan@.len(),
                n == e.location.size(),
                i <= n,
                e.last_id + n < u32::MAX,
                e.last_id <= self@.last_id <= e.last_id + i,
                self@.last_id == e.last_id + planned(plan@, i as int),
                forall|j: int|
                    0 <= j < i && plan@[j] is Some ==> (#[trigger] self@.location.tiles[j]).unit->0.id
                        == e.last_id + planned(plan@, j + 1),
                reshuffled(e, self@),
                evolved(e, self@),
                forall|j: int|
                    0 <= j < n && (#[trigger] plan@[j]) is Some ==> e.location.tiles[j].surface
                        is Land && plan@[j] != Some(UnitType::Village) && !is_capital(
                        e.location.tiles[j],
                    ),
                forall|j: int|
                    0 <= j < n ==> (#[trigger] self@.location.tiles[j]).unit == if j < i {
                        match plan@[j] {
                            Some(unit_type) => Some(
                                Unit { id: self@.location.tiles[j].unit->0.id, unit_type },
                            ),
                            None => e.location.tiles[j].unit,
                        }
                    } else {
                        e.location.tiles[j].unit
                    },
                forall|j: int|
                    0 <= j < i && plan@[j] is Some ==> self@.location.tiles[j].unit->0.id
                        > e.last_id && self@.unit_info[(
                    #[trigger] self@.location.tiles[j]).unit->0.id].moves_left == 0,
            decreases n - i,
        {
            if let Some(unit_type) = plan[i] {
                let ghost before = self@;
                assert(plan@[i as int] is Some);
                self.clear(i);
                let ghost mid = self@;
                let id = self.spawn(i, unit_type);
                proof {
                    let now = self@;
                    lemma_settled_with_unit(before.location, i as int, None);
                    lemma_settled_with_unit(
                        mid.location,
                        i as int,
                        Some(Unit { id, unit_type }),
                    );
                    lemma_evolved_on(e, before, mid);
                    lemma_evolved_on(e, mid, now);
                    assert forall|h: int| 0 <= h < now.location.regions.len() implies !miscrowned(
                        now.location,
                        (#[trigger] now.location.regions[h]).id,
                    ) by {
                        let r = now.location.regions[h].id;
                        assert(before.location.regions[h].id == r);
                        lemma_capitals_with_unit(before.location, i as int, None, r);
                        lemma_capitals_with_unit(
                            mid.location,
                            i as int,
                            Some(Unit { id, unit_type }),
                            r,
                        );
                    }
                    assert forall|j: int|
                        0 <= j < i + 1 && plan@[j] is Some implies (
                    #[trigger] now.location.tiles[j]).unit->0.id == e.last_id + planned(
                        plan@,
                        j + 1,
                    ) by {
                        if j < i {
                            assert(now.location.tiles[j] == before.location.tiles[j]);
                        }
                    }
                    assert forall|j: int|
                        0 <= j < i + 1 && plan@[j] is Some implies now.location.tiles[j].unit->0.id
                        > e.last_id && now.unit_info[(
                    #[trigger] now.location.tiles[j]).unit->0.id].moves_left == 0 by {
                        if j < i {
                            assert(before.location.tiles[j].unit is Some);
                            assert(now.location.tiles[j] == before.location.tiles[j]);
                            assert(before.location.tiles[j].unit->0.id <= before.last_id);
                        }
                    }
                }
            }
            i += 1;
        }
    }

    /// The tree that grows on cell `i` at the end of this turn, if one does.
    fn tree_for(&self, i: usize) -> (tree: Option<UnitType>)
        requires
            self.based(),
            i < self@.location.size(),
        ensures
            tree == grown(self@.location, self@.current_turn, i as int),
    {
        let ghost v = self@.location;
        if self.current_turn % 2 != 0 && self.current_turn % 5 == 0 {
            return None;
        }
        let mut water: u8 = 0;
        let mut trees: u8 = 0;
        let mut d: usize = 0;
        while d < 6
            invariant
                self.based(),
                v == self@.location,
                i < v.size(),
                d <= 6,
                water == water_around(v, i as int, d as int),
                trees == trees_around(v, i as int, d as int),
                water <= d,
                trees <= d,
            decreases 6 - d,
        {
            match self.location.link(i, d) {
                None => {
                    water += 1;
                },
                Some(j) => {
                    let tile = self.location.tile_at_index(j);
                    if tile.surface().is_water() {
                        water += 1;
                    }
                    let tree = match tile.unit {
                        Some(unit) => match unit.unit_type {
                            UnitType::PalmTree => true,
                            UnitType::PineTree => true,
                            _ => false,
                        },
                        None => false,
                    };
                    if tree {
                        trees += 1;
                    }
                },
            }
            d += 1;
        }
        if water > 0 && trees >= 1 && self.current_turn % 5 != 0 {
            Some(UnitType::PalmTree)
        } else if trees >= 2 && self.current_turn % 2 == 0 {
            Some(UnitType::PineTree)
        } else {
            None
        }
    }

    /// Lets the forests spread: a tree grows on every empty land tile that
    /// has the neighbours for it.
    fn spread_forests(&mut self)
        requires
            old(self).based(),
            settled(old(self)@.location),
            crowned(old(self)@.location),
            units_booked(old(self)@),
            old(self)@.last_id + old(self)@.location.size() < u32::MAX,
        ensures
            final(self).based(),
            settled(final(self)@.location),
            crowned(final(self)@.location),
            units_booked(final(self)@),
            remade(
                old(self)@,
                final(self)@,
                forest_plan(old(self)@.location, old(self)@.current_turn),
            ),
            final(self)@.last_id <= old(self)@.last_id + old(self)@.location.size(),
    {
        let ghost v = self@.location;
        let n = self.location.size();
        let mut plan: Vec<Option<UnitType>> = Vec::new();
        let mut i: usize = 0;
        while i < n
            invariant
                self.based(),
                v == self@.location,
                n == v.size(),
                i <= n,
                plan@.len() == i,
                forall|j: int|
                    0 <= j < i ==> plan@[j] == forest_plan(v, self@.current_turn)[j],
            decreases n - i,
        {
            let tile = self.location.tile_at_index(i);
            let tree = if tile.surface().is_land() && tile.unit.is_none() {
                self.tree_for(i)
            } else {
                None
            };
            plan.push(tree);
            i += 1;
        }
        assert(plan@ =~= forest_plan(v, self@.current_turn));
        self.remake(&plan);
    }

    /// Lets a pine grow on every grave.
    fn replace_graves_with_pine_trees(&mut self)
        requires
            old(self).based(),
            settled(old(self)@.location),
            crowned(old(self)@.location),
            units_booked(old(self)@),
            old(self)@.last_id + old(self)@.location.size() < u32::MAX,
        ensures
            final(self).based(),
            settled(final(self)@.location),
            crowned(final(self)@.location),
            units_booked(final(self)@),
            remade(old(self)@, final(self)@, grave_plan(old(self)@.location)),
            final(self)@.last_id <= old(self)@.last_id + old(self)@.location.size(),
    {
        let ghost v = self@.location;
        let n = self.location.size();
        let mut plan: Vec<Option<UnitType>> = Vec::new();
        let mut i: usize = 0;
        while i < n
            invariant
                self.based(),
                v == self@.location,
                n == v.size(),
                i <= n,
                plan@.len() == i,
                forall|j: int| 0 <= j < i ==> plan@[j] == grave_plan(v)[j],
            decreases n - i,
        {
            let grave = match self.location.tile_at_index(i).unit {
                Some(unit) => match unit.unit_type {
                    UnitType::Grave => true,
                    _ => false,
                },
                None => false,
            };
            plan.push(if grave { Some(UnitType::PineTree) } else { None });
            i += 1;
        }
        assert(plan@ =~= grave_plan(v));
        proof {
            assert forall|j: int| 0 <= j < plan@.len() && (#[trigger] plan@[j]) is Some implies v.tiles[j].surface
                is Land by {
                assert(!misplaced(v.tiles, j));
            }
        }
        self.remake(&plan);
    }

    /// Lets the units of the regions in debt starve: a grave takes the
    /// place of every unit that somebody owns and that costs something.
    fn kill_starving_units(&mut self)
        requires
            old(self).based(),
            settled(old(self)@.location),
            crowned(old(self)@.location),
            units_booked(old(self)@),
            old(self)@.last_id + old(self)@.location.size() < u32::MAX,
        ensures
            final(self).based(),
            settled(final(self)@.location),
            crowned(final(self)@.location),
            units_booked(final(self)@),
            remade(old(self)@, final(self)@, starve_plan(old(self)@)),
            final(self)@.last_id <= old(self)@.last_id + old(self)@.location.size(),
    {
        let ghost e = self@;
        let ghost v = self@.location;
        let n = self.location.size();
        let mut plan: Vec<Option<UnitType>> = Vec::new();
        let mut i: usize = 0;
        while i < n
            invariant
                self.based(),
                e == self@,
                v == self@.location,
                n == v.size(),
                i <= n,
                plan@.len() == i,
                forall|j: int| 0 <= j < i ==> plan@[j] == starve_plan(e)[j],
            decreases n - i,
        {
            let in_debt = match self.location.region_id_at_index(i) {
                Some(r) => match self.region_info.get(&r) {
                    Some(info) => info.money_balance < 0,
                    None => false,
                },
                None => false,
            };
            let dies = in_debt && match self.location.tile_at_index(i).unit {
                Some(unit) => {
                    let d = description(unit.unit_type);
                    !d.is_unownable && d.turn_cost > 0
                },
                None => false,
            };
            plan.push(if dies { Some(UnitType::Grave) } else { None });
            i += 1;
        }
        assert(plan@ =~= starve_plan(e));
        proof {
            assert forall|j: int| 0 <= j < plan@.len() && (#[trigger] plan@[j]) is Some implies v.tiles[j].surface
                is Land by {
                assert(!misplaced(v.tiles, j));
            }
        }
        self.remake(&plan);
    }
}

impl GameEngine {
    /// The engine is in order: its state is what it should be between two
    /// actions.
    pub open spec fn wf(&self) -> bool {
        self.based() && sane(self@)
    }

    /// Whether a unit that can move stands on a tile of the region.
    fn region_hosts_mover(&self, id: ID) -> (hosts: bool)
        requires
            self.based(),
        ensures
            hosts == hosts_mover(self@.location, id),
    {
        let n = self.location.size();
        let mut i: usize = 0;
        while i < n
            invariant
                self.based(),
                n == self@.location.size(),
                i <= n,
                forall|j: int|
                    0 <= j < i ==> !(#[trigger] self@.location.in_region(j, id)
                        && self@.location.tiles[j].unit is Some && spec_description(
                        self@.location.tiles[j].unit->0.unit_type,
                    ).max_moves != 0),
            decreases n - i,
        {
            let inside = match self.location.region_id_at_index(i) {
                Some(r) => r == id,
                None => false,
            };
            if inside {
                if let Some(unit) = self.location.tile_at_index(i).unit {
                    if description(unit.unit_type).max_moves != 0 {
                        assert(self@.location.in_region(i as int, id));
                        return true;
                    }
                }
            }
            i += 1;
        }
        false
    }

    /// Whether the player owns a region that keeps him in the game.
    fn player_alive(&self, player: ID) -> (lives: bool)
        requires
            self.based(),
        ensures
            lives == alive(self@.location, player),
    {
        let headers = self.location.region_headers();
        let mut h: usize = 0;
        while h < headers.len()
            invariant
                self.based(),
                headers@ == self@.location.regions,
                h <= headers@.len(),
                forall|g: int|
                    0 <= g < h ==> !(#[trigger] owned_by(self@.location, g, player) && keeps_alive(
                        self@.location,
                        self@.location.regions[g].id,
                    )),
            decreases headers@.len() - h,
        {
            if headers[h].owner.id == player {
                let id = headers[h].id;
                if self.location.region_size(id) >= MIN_CONTROLLED_REGION_SIZE
                    || self.region_hosts_mover(id) {
                    assert(owned_by(self@.location, h as int, player));
                    return true;
                }
            }
            h += 1;
        }
        false
    }

    fn listed_id(list: &Vec<ID>, id: ID) -> (found: bool)
        ensures
            found == list@.contains(id),
    {
        let mut i: usize = 0;
        while i < list.len()
            invariant
                i <= list.len(),
                forall|j: int| 0 <= j < i ==> list@[j] != id,
            decreases list.len() - i,
        {
            if list[i] == id {
                return true;
            }
            i += 1;
        }
        false
    }

    /// Lets the players without a region that keeps them in the game leave
    /// it: they count as inactive from now on, and their regions lose their
    /// money.
    fn check_for_active_players(&mut self)
        requires
            old(self).based(),
            old(self)@.location.linked(),
            regions_booked(old(self)@),
            enrolled(old(self)@),
        ensures
            final(self).based(),
            final(self)@ == checked(old(self)@),
    {
        let ghost e = self@;
        let mut leavers: Vec<ID> = Vec::new();
        let mut p: usize = 0;
        while p < self.players.len()
            invariant
                self.based(),
                enrolled(e),
                p <= e.players.len(),
                self@ == (EngineView { activity: self@.activity, ..e }),
                forall|id: ID| #[trigger]
                    self@.activity.contains_key(id) <==> e.activity.contains_key(id),
                forall|id: ID| #[trigger]
                    self@.activity.contains_key(id) ==> self@.activity[id] == e.activity[id]
                        || self@.activity[id] == checked_activity(e)[id],
                forall|q: int|
                    0 <= q < p ==> self@.activity[(#[trigger] e.players[q]).id]
                        == checked_activity(e)[e.players[q].id],
                forall|id: ID| leavers@.contains(id) ==> retired(e, id),
                forall|id: ID| #[trigger]
                    self@.activity.contains_key(id) && self@.activity[id] != e.activity[id]
                        ==> leavers@.contains(id),
                forall|q: int|
                    0 <= q < p && retired(e, (#[trigger] e.players[q]).id) ==> leavers@.contains(
                        e.players[q].id,
                    ),
            decreases e.players.len() - p,
        {
            let id = self.players[p].id;
            let ghost before = self@.activity;
            let ghost listed_before = leavers@;
            let active = *self.player_activity.get(&id).unwrap();
            if active && !self.player_alive(id) {
                self.player_activity.insert(id, false);
                leavers.push(id);
                proof {
                    assert(leavers@[listed_before.len() as int] == id);
                    assert(before[id] == e.activity[id]);
                }
            }
            proof {
                assert forall|x: ID| leavers@.contains(x) implies retired(e, x) by {
                    let k = choose|k: int| 0 <= k < leavers@.len() && leavers@[k] == x;
                    if k < listed_before.len() {
                        assert(listed_before[k] == x);
                        assert(listed_before.contains(x));
                    }
                }
                assert forall|x: ID| listed_before.contains(x) implies leavers@.contains(x) by {
                    let k = choose|k: int| 0 <= k < listed_before.len() && listed_before[k] == x;
                    assert(leavers@[k] == x);
                }
                assert forall|x: ID| #[trigger]
                    self@.activity.contains_key(x) && self@.activity[x] != e.activity[x] implies leavers@.contains(
                    x,
                ) by {
                    if x == id {
                        if before[id] != e.activity[id] {
                            assert(listed_before.contains(id));
                        } else {
                            assert(leavers@[listed_before.len() as int] == id);
                        }
                    } else {
                        assert(before[x] == self@.activity[x]);
                        assert(listed_before.contains(x));
                    }
                }
                assert forall|q: int|
                    0 <= q < p + 1 && retired(e, (#[trigger] e.players[q]).id) implies leavers@.contains(
                    e.players[q].id,
                ) by {
                    let x = e.players[q].id;
                    if q < p {
                        assert(listed_before.contains(x));
                        let k = choose|k: int| 0 <= k < listed_before.len() && listed_before[k] == x;
                        assert(leavers@[k] == x);
                    } else {
                        if before[id] == e.activity[id] {
                            assert(leavers@[listed_before.len() as int] == id);
                        } else {
                            assert(listed_before.contains(id));
                        }
                    }
                }
                assert forall|q: int| 0 <= q < p + 1 implies self@.activity[(
                #[trigger] e.players[q]).id] == checked_activity(e)[e.players[q].id] by {
                    let x = e.players[q].id;
                    if x != id {
                        assert(self@.activity[x] == before[x]);
                    }
                }
            }
            p += 1;
        }
        proof {
            assert(self@.activity =~= checked_activity(e)) by {
                assert forall|id: ID| #[trigger] self@.activity.contains_key(id) implies self@.activity[id]
                    == checked_activity(e)[id] by {
                    assert(among_players(e.players, id));
                    let q = choose|q: int| 0 <= q < e.players.len() && (#[trigger] e.players[q]).id == id;
                    assert(self@.activity[e.players[q].id] == checked_activity(e)[e.players[q].id]);
                }
            }
            assert forall|id: ID| retired(e, id) implies leavers@.contains(id) by {
                assert(among_players(e.players, id));
                let q = choose|q: int| 0 <= q < e.players.len() && (#[trigger] e.players[q]).id == id;
                assert(retired(e, e.players[q].id));
            }
        }
        let ghost v = e.location;
        let count = self.location.region_headers().len();
        let mut h: usize = 0;
        while h < count
            invariant
                self.based(),
                v == e.location,
                v.linked(),
                regions_booked(e),
                count == v.regions.len(),
                h <= count,
                self@ == (EngineView {
                    activity: checked_activity(e),
                    region_info: self@.region_info,
                    ..e
                }),
                forall|id: ID| #[trigger]
                    self@.region_info.contains_key(id) <==> e.region_info.contains_key(id),
                forall|id: ID| leavers@.contains(id) <==> retired(e, id),
                forall|g: int|
                    0 <= g < count ==> self@.region_info[(#[trigger] v.regions[g]).id] == if g < h {
                        forfeited(e)[v.regions[g].id]
                    } else {
                        e.region_info[v.regions[g].id]
                    },
            decreases count - h,
        {
            let header = self.location.region_headers()[h];
            let id = header.id;
            proof {
                assert(v.regions[h as int].id == id);
                assert(v.has_region(id));
                lemma_place_of(v.regions, h as int);
            }
            let owner = header.owner.id;
            let gone = Self::listed_id(&leavers, owner);
            let ghost before = self@.region_info;
            if gone {
                let info = *self.region_info.get(&id).unwrap();
                self.region_info.insert(id, RegionInfo { money_balance: 0, ..info });
            }
            proof {
                assert forall|g: int| 0 <= g < count implies self@.region_info[(
                #[trigger] v.regions[g]).id] == if g < h + 1 {
                    forfeited(e)[v.regions[g].id]
                } else {
                    e.region_info[v.regions[g].id]
                } by {
                    if g != h {
                        assert(v.regions[g].id != v.regions[h as int].id);
                        assert(before[v.regions[g].id] == self@.region_info[v.regions[g].id]);
                    }
                }
            }
            h += 1;
        }
        proof {
            assert(self@.region_info =~= forfeited(e)) by {
                assert forall|id: ID| #[trigger] self@.region_info.contains_key(id) implies self@.region_info[id]
                    == forfeited(e)[id] by {
                    assert(v.has_region(id));
                    let g = choose|g: int| 0 <= g < v.regions.len() && (#[trigger] v.regions[g]).id == id;
                    assert(self@.region_info[v.regions[g].id] == forfeited(e)[v.regions[g].id]);
                }
            }
        }
    }
}

/// The records of the regions may change as long as the regions with a
/// record stay the same.
pub proof fn lemma_books_kept(e: EngineView, f: EngineView)
    requires
        regions_booked(e),
        f.location.regions == e.location.regions,
        forall|id: ID| e.region_info.contains_key(id) <==> f.region_info.contains_key(id),
    ensures
        regions_booked(f),
{
    assert forall|id: ID| #[trigger] f.region_info.contains_key(id) implies f.location.has_region(
        id,
    ) by {
        assert(e.region_info.contains_key(id));
        assert(e.location.has_region(id));
    }
    assert forall|id: ID| #[trigger] f.location.has_region(id) implies f.region_info.contains_key(
        id,
    ) by {
        assert(e.location.has_region(id));
    }
}

/// Income and maintenance stay up to date when only balances change.
pub proof fn lemma_cache_kept(e: EngineView, f: EngineView)
    requires
        cached(e),
        f.location == e.location,
        forall|id: ID| e.region_info.contains_key(id) <==> f.region_info.contains_key(id),
        forall|id: ID| #[trigger]
            f.region_info.contains_key(id) ==> f.region_info[id].income_from_fields
                == e.region_info[id].income_from_fields && f.region_info[id].maintenance_cost
                == e.region_info[id].maintenance_cost,
    ensures
        cached(f),
{
    assert forall|id: ID| #[trigger] f.region_info.contains_key(id) implies f.region_info[id]
        == counted(f.location, id, f.region_info[id]) by {
        assert(e.region_info.contains_key(id));
        assert(e.region_info[id] == counted(e.location, id, e.region_info[id]));
    }
}

impl GameEngine {
    /// Whether player `p` of the list is in the game.
    fn is_active_at(&self, p: usize) -> (active: bool)
        requires
            p < self@.players.len(),
        ensures
            active == active_at(self@, p as int),
    {
        match self.player_activity.get(&self.players[p].id) {
            Some(active) => *active,
            None => false,
        }
    }

    /// Declares the only player who is still in the game the winner, if
    /// there is just one.
    fn check_for_winner(&mut self)
        requires
            old(self).based(),
        ensures
            final(self).based(),
            final(self)@ == (EngineView { winner: winner_after(old(self)@), ..old(self)@ }),
    {
        let ghost e = self@;
        let mut count: usize = 0;
        let mut first: usize = 0;
        let mut p: usize = 0;
        while p < self.players.len()
            invariant
                self@ == e,
                self.based(),
                p <= e.players.len(),
                count <= 2,
                count == 0 ==> forall|q: int| 0 <= q < p ==> !#[trigger] active_at(e, q),
                count == 1 ==> first < p && active_at(e, first as int) && forall|q: int|
                    0 <= q < p && q != first ==> !#[trigger] active_at(e, q),
                count == 2 ==> exists|a: int, b: int|
                    0 <= a < b < p && #[trigger] active_at(e, a) && #[trigger] active_at(e, b),
            decreases e.players.len() - p,
        {
            if self.is_active_at(p) {
                if count == 0 {
                    first = p;
                    count = 1;
                } else if count == 1 {
                    count = 2;
                    assert(active_at(e, first as int) && active_at(e, p as int));
                }
            }
            p += 1;
        }
        if count == 1 {
            proof {
                assert(sole_active(e, first as int)) by {
                    assert forall|q: int| q != first implies !#[trigger] active_at(e, q) by {
                        if active_at(e, q) {
                            assert(0 <= q < e.players.len());
                        }
                    }
                }
                let c = choose|c: int| sole_active(e, c);
                assert(c == first) by {
                    if c != first {
                        assert(!active_at(e, first as int));
                    }
                }
            }
            self.winner = Some(self.players[first].id);
        } else {
            proof {
                if exists|c: int| sole_active(e, c) {
                    let c = choose|c: int| sole_active(e, c);
                    if count == 0 {
                        assert(!active_at(e, c));
                    } else {
                        let (a, b) = choose|a: int, b: int|
                            0 <= a < b < e.players.len() && #[trigger] active_at(e, a)
                                && #[trigger] active_at(e, b);
                        if a != c {
                            assert(!active_at(e, a));
                        } else {
                            assert(!active_at(e, b));
                        }
                    }
                }
            }
        }
    }

    /// The first player of the list from place `from` on who is in the game.
    fn rewind_to_active_player(&self, from: usize) -> (next: usize)
        ensures
            next == next_active(self@, from as int),
            next <= self@.players.len(),
    {
        let mut next = from;
        while next < self.players.len() && !self.is_active_at(next)
            invariant
                from <= next,
                next_active(self@, from as int) == next_active(self@, next as int),
            decreases self@.players.len() - next,
        {
            next += 1;
        }
        if next > self.players.len() {
            self.players.len()
        } else {
            next
        }
    }

    /// Ends the whole turn.
    fn end_turn(&mut self)
        requires
            old(self).based(),
            orderly(old(self)@),
            cached(old(self)@),
            enrolled(old(self)@),
            roomy(old(self)@),
        ensures
            final(self).based(),
            orderly(final(self)@),
            enrolled(final(self)@),
            rolled_over(old(self)@, final(self)@),
            final(self)@.location.size() == old(self)@.location.size(),
    {
        let ghost e = self@;
        self.apply_income();
        let ghost e1 = self@;
        proof {
            lemma_books_kept(e, e1);
        }
        self.refill_moves();
        let ghost fresh = self@;
        proof {
            lemma_books_kept(e, fresh);
            assert(fresh == woken(e));
        }
        self.spread_forests();
        let ghost grown = self@;
        self.replace_graves_with_pine_trees();
        let ghost buried = self@;
        self.kill_starving_units();
        let ghost starved = self@;
        proof {
            lemma_books_kept(fresh, grown);
            lemma_books_kept(grown, buried);
            lemma_books_kept(buried, starved);
            assert(seasons(woken(e), grown, buried, starved));
        }
        self.check_for_active_players();
        let ghost judged = self@;
        proof {
            lemma_books_kept(starved, judged);
        }
        self.check_for_winner();
        self.current_turn += 1;
        self.active_player_num = 0;
        let next = self.rewind_to_active_player(0);
        self.active_player_num = next;
        proof {
            let f = self@;
            lemma_books_kept(judged, f);
            assert(units_booked(f)) by {
                assert(f.unit_info == starved.unit_info);
                assert(f.location == starved.location);
                assert(f.last_id == starved.last_id);
            }
            let crowned_one = EngineView { winner: winner_after(judged), ..judged };
            assert(next_active(EngineView { current_turn: f.current_turn, active_player_num: 0, ..crowned_one }, 0)
                == next_active(crowned_one, 0)) by {
                lemma_next_active_same(
                    EngineView { current_turn: f.current_turn, active_player_num: 0, ..crowned_one },
                    crowned_one,
                    0,
                );
            }
            assert(f == next_turn(e, starved));
        }
    }

    /// Ends the turn of the player whose turn it is.
    fn end_players_turn(&mut self)
        requires
            old(self).based(),
            orderly(old(self)@),
            cached(old(self)@),
            enrolled(old(self)@),
            roomy(old(self)@),
            old(self)@.active_player_num < old(self)@.players.len(),
        ensures
            final(self).based(),
            orderly(final(self)@),
            enrolled(final(self)@),
            turn_ended(old(self)@, final(self)@),
            final(self)@.location.size() == old(self)@.location.size(),
    {
        let ghost e = self@;
        let count = self.players.len();
        assert(self.active_player_num < count);
        let next = self.rewind_to_active_player(self.active_player_num + 1);
        if next >= count {
            self.end_turn();
        } else {
            self.active_player_num = next;
            proof {
                let f = self@;
                lemma_books_kept(e, f);
                assert(f == EngineView { active_player_num: next, ..e });
                assert(f.location == e.location);
                assert(f.unit_info == e.unit_info);
                assert(units_booked(f));
                assert(enrolled(f));
            }
        }
    }
}

/// Who comes next depends on the players and on who is in the game only.
pub proof fn lemma_next_active_same(a: EngineView, b: EngineView, from: int)
    requires
        a.players == b.players,
        a.activity == b.activity,
    ensures
        next_active(a, from) == next_active(b, from),
    decreases a.players.len() - from,
{
    if 0 <= from < a.players.len() && !active_at(a, from) {
        lemma_next_active_same(a, b, from + 1);
    }
}

impl GameEngine {
    /// Whether the engine has room to act.
    pub fn has_room(&self) -> (room: bool)
        requires
            self.wf(),
        ensures
            room == roomy(self@),
    {
        let ghost e = self@;
        let ghost v = e.location;
        if self.location.size() > MAP_LIMIT || self.location.region_headers().len() > MAP_LIMIT
            || self.id_producer.last_issued_id() > ID_LIMIT || self.current_turn == u32::MAX {
            return false;
        }
        let count = self.location.region_headers().len();
        let mut h: usize = 0;
        while h < count
            invariant
                self.wf(),
                e == self@,
                v == e.location,
                count == v.regions.len(),
                h <= count,
                forall|g: int|
                    0 <= g < h ==> -MONEY_LIMIT <= e.region_info[(#[trigger] v.regions[g]).id].money_balance
                        <= MONEY_LIMIT,
            decreases count - h,
        {
            let id = self.location.region_headers()[h].id;
            assert(v.regions[h as int].id == id);
            assert(v.has_region(id));
            let money = self.region_info.get(&id).unwrap().money_balance;
            if money < -MONEY_LIMIT || money > MONEY_LIMIT {
                return false;
            }
            h += 1;
        }
        proof {
            assert forall|id: ID| #[trigger] e.region_info.contains_key(id) implies -MONEY_LIMIT
                <= e.region_info[id].money_balance <= MONEY_LIMIT by {
                assert(v.has_region(id));
                let g = choose|g: int| 0 <= g < v.regions.len() && (#[trigger] v.regions[g]).id == id;
                assert(-MONEY_LIMIT <= e.region_info[v.regions[g].id].money_balance <= MONEY_LIMIT);
            }
        }
        true
    }

    /// Carries out the action of a player, if the rules allow it.
    ///
    /// An action that the rules do not allow changes nothing, and the error
    /// says why it was refused. After an action that they allow, income and
    /// maintenance of the regions are counted anew and the players without
    /// ground leave the game. The engine is in order afterwards, whatever
    /// happened: its location meets the rules of the game.
    pub fn act(&mut self, player_id: ID, action: PlayerAction) -> (res: Result<
        (),
        PlayerActionError,
    >)
        requires
            old(self).wf(),
            roomy(old(self)@),
        ensures
            final(self).wf(),
            lawful(final(self)@.location),
            match res {
                Err(error) => act_error(old(self)@, player_id, action) == Some(error) && *final(self) == *old(self),
                Ok(()) => act_error(old(self)@, player_id, action) is None && acted(
                    old(self)@,
                    final(self)@,
                    player_id,
                    action,
                ),
            },
    {
        let ghost e = self@;
        match self.validate_action(player_id) {
            Ok(()) => {},
            Err(error) => {
                return Err(error);
            },
        }
        match action {
            PlayerAction::MoveUnit { src, dst } => {
                match self.move_unit(player_id, src, dst) {
                    Ok(()) => {},
                    Err(error) => {
                        return Err(error);
                    },
                }
            },
            PlayerAction::PlaceNewUnit(origin, unit_type, dst) => {
                match self.place_new_unit(player_id, origin, unit_type, dst) {
                    Ok(()) => {},
                    Err(error) => {
                        return Err(error);
                    },
                }
            },
            PlayerAction::UpgradeUnit(dst) => {
                match self.upgrade_unit(player_id, dst) {
                    Ok(()) => {},
                    Err(error) => {
                        return Err(error);
                    },
                }
            },
            PlayerAction::EndTurn => {
                self.end_players_turn();
            },
        }
        let ghost mid = self@;
        proof {
            assert(performed(e, mid, player_id, action));
            assert(mid.location.size() == e.location.size());
            assert(enrolled(mid));
        }
        self.recount_region_info();
        let ghost counted_up = self@;
        proof {
            lemma_books_kept(mid, counted_up);
        }
        self.check_for_active_players();
        proof {
            let f = self@;
            assert(f == tidied(mid));
            lemma_books_kept(counted_up, f);
            lemma_cache_kept(counted_up, f);
            assert(units_booked(f)) by {
                assert(f.unit_info == mid.unit_info);
                assert(f.location == mid.location);
                assert(f.last_id == mid.last_id);
            }
        }
        Ok(())
    }
}

pub proof fn lemma_newest_unit(tiles: Seq<Tile>, least: ID, upto: int, i: int)
    requires
        0 <= i < upto <= tiles.len(),
        tiles[i].unit is Some,
    ensures
        tiles[i].unit->0.id <= newest_unit(tiles, least, upto),
        least <= newest_unit(tiles, least, upto),
    decreases upto,
{
    if i < upto - 1 {
        lemma_newest_unit(tiles, least, upto - 1, i);
    } else {
        lemma_newest_least(tiles, least, upto - 1);
    }
}

pub proof fn lemma_newest_least(tiles: Seq<Tile>, least: ID, upto: int)
    ensures
        least <= newest_unit(tiles, least, upto),
    decreases upto,
{
    if upto > 0 {
        lemma_newest_least(tiles, least, upto - 1);
    }
}

impl GameEngine {
    /// The records with which the regions of a location begin the game.
    fn open_region_books(location: &Location) -> (books: HashMap<ID, RegionInfo>)
        requires
            location.wf(),
        ensures
            forall|id: ID| #[trigger] books@.contains_key(id) <==> location@.has_region(id),
            forall|id: ID| #[trigger]
                books@.contains_key(id) ==> books@[id] == (RegionInfo {
                    money_balance: if location@.region_size(id) >= MIN_CONTROLLED_REGION_SIZE {
                        CONTROLLED_REGION_STARTING_MONEY
                    } else {
                        0
                    },
                    income_from_fields: 0,
                    maintenance_cost: 0,
                }),
    {
        let ghost v = location@;
        let mut books: HashMap<ID, RegionInfo> = HashMap::new();
        let headers = location.region_headers();
        let mut h: usize = 0;
        while h < headers.len()
            invariant
                location.wf(),
                v == location@,
                headers@ == v.regions,
                h <= headers@.len(),
                forall|id: ID| #[trigger]
                    books@.contains_key(id) <==> exists|g: int|
                        0 <= g < h && (#[trigger] v.regions[g]).id == id,
                forall|id: ID| #[trigger]
                    books@.contains_key(id) ==> books@[id] == (RegionInfo {
                        money_balance: if v.region_size(id) >= MIN_CONTROLLED_REGION_SIZE {
                            CONTROLLED_REGION_STARTING_MONEY
                        } else {
                            0
                        },
                        income_from_fields: 0,
                        maintenance_cost: 0,
                    }),
            decreases headers@.len() - h,
        {
            let id = headers[h].id;
            let money = if location.region_size(id) >= MIN_CONTROLLED_REGION_SIZE {
                RegionInfo::new(CONTROLLED_REGION_STARTING_MONEY)
            } else {
                RegionInfo::new(0)
            };
            let ghost before = books@;
            books.insert(id, money);
            proof {
                assert forall|x: ID| #[trigger] books@.contains_key(x) <==> exists|g: int|
                    0 <= g < h + 1 && (#[trigger] v.regions[g]).id == x by {
                    if x == id {
                        assert(v.regions[h as int].id == x);
                    }
                    if before.contains_key(x) {
                        let g = choose|g: int| 0 <= g < h && (#[trigger] v.regions[g]).id == x;
                        assert(v.regions[g].id == x);
                    }
                    if exists|g: int| 0 <= g < h + 1 && (#[trigger] v.regions[g]).id == x {
                        let g = choose|g: int| 0 <= g < h + 1 && (#[trigger] v.regions[g]).id == x;
                        if g < h {
                            assert(before.contains_key(x));
                        }
                    }
                }
            }
            h += 1;
        }
        proof {
            assert forall|id: ID| #[trigger] books@.contains_key(id) <==> v.has_region(id) by {
                if v.has_region(id) {
                    let g = choose|g: int| 0 <= g < v.regions.len() && (#[trigger] v.regions[g]).id == id;
                    assert(v.regions[g].id == id);
                }
            }
        }
        books
    }

    /// The records of the units of a location, fresh as those of new
    /// units; and the identifier of the first unit in the order of the map that
    /// an earlier unit has too, if there is one.
    fn open_unit_books(location: &Location) -> (res: (HashMap<ID, UnitInfo>, Option<ID>))
        requires
            location.base(),
        ensures
            forall|id: ID| #[trigger]
                res.0@.contains_key(id) <==> exists|i: int| unit_on(location@.tiles, i, id),
            match res.1 {
                None => units_distinct(location@.tiles) && forall|i: int|
                    0 <= i < location@.tiles.len() && (#[trigger] location@.tiles[i]).unit is Some
                        ==> res.0@[location@.tiles[i].unit->0.id] == (UnitInfo {
                        unit_type: location@.tiles[i].unit->0.unit_type,
                        moves_left: 0,
                    }),
                Some(id) => exists|i: int, j: int|
                    #[trigger] unit_twice(location@.tiles, i, j) && location@.tiles[j].unit->0.id
                        == id && forall|a: int, b: int|
                        0 <= b < j ==> !#[trigger] unit_twice(location@.tiles, a, b),
            },
    {
        let ghost tiles = location@.tiles;
        let n = location.size();
        let mut books: HashMap<ID, UnitInfo> = HashMap::new();
        let mut twice: Option<ID> = None;
        let ghost mut second: int = 0;
        let ghost mut first: int = 0;
        let mut i: usize = 0;
        while i < n
            invariant
                location.base(),
                tiles == location@.tiles,
                n == tiles.len(),
                i <= n,
                forall|id: ID| #[trigger]
                    books@.contains_key(id) <==> exists|j: int| 0 <= j < i && unit_on(tiles, j, id),
                match twice {
                    None => (forall|a: int, b: int|
                        0 <= b < i ==> !#[trigger] unit_twice(tiles, a, b)) && forall|j: int|
                        0 <= j < i && (#[trigger] tiles[j]).unit is Some ==> books@[tiles[j].unit->0.id]
                            == (UnitInfo {
                            unit_type: tiles[j].unit->0.unit_type,
                            moves_left: 0,
                        }),
                    Some(id) => unit_twice(tiles, first, second) && second < i
                        && tiles[second].unit->0.id == id && forall|a: int, b: int|
                        0 <= b < second ==> !#[trigger] unit_twice(tiles, a, b),
                },
            decreases n - i,
        {
            if let Some(unit) = location.tile_at_index(i).unit {
                let ghost before = books@;
                if books.contains_key(&unit.id) {
                    if twice.is_none() {
                        twice = Some(unit.id);
                        proof {
                            let j = choose|j: int| 0 <= j < i && unit_on(tiles, j, unit.id);
                            first = j;
                            second = i as int;
                        }
                    }
                } else {
                    books.insert(unit.id, UnitInfo::from(unit));
                    proof {
                        if twice is None {
                            assert forall|a: int, b: int| 0 <= b < i + 1 implies !#[trigger] unit_twice(
                                tiles,
                                a,
                                b,
                            ) by {
                                if b == i && unit_twice(tiles, a, b) {
                                    assert(unit_on(tiles, a, unit.id));
                                }
                            }
                            assert forall|j: int|
                                0 <= j < i + 1 && (#[trigger] tiles[j]).unit is Some implies books@[tiles[j].unit->0.id]
                                == (UnitInfo {
                                unit_type: tiles[j].unit->0.unit_type,
                                moves_left: 0,
                            }) by {
                                if j < i {
                                    assert(unit_on(tiles, j, tiles[j].unit->0.id));
                                    assert(before.contains_key(tiles[j].unit->0.id));
                                }
                            }
                        }
                    }
                }
                proof {
                    assert forall|id: ID| #[trigger] books@.contains_key(id) <==> exists|j: int|
                        0 <= j < i + 1 && unit_on(tiles, j, id) by {
                        if id == unit.id {
                            assert(unit_on(tiles, i as int, id));
                        }
                        if before.contains_key(id) {
                            let j = choose|j: int| 0 <= j < i && unit_on(tiles, j, id);
                            assert(unit_on(tiles, j, id));
                        }
                        if exists|j: int| 0 <= j < i + 1 && unit_on(tiles, j, id) {
                            let j = choose|j: int| 0 <= j < i + 1 && unit_on(tiles, j, id);
                            if j < i {
                                assert(before.contains_key(id));
                            }
                        }
                    }
                }
            } else {
                proof {
                    if twice is None {
                        assert forall|a: int, b: int| 0 <= b < i + 1 implies !#[trigger] unit_twice(
                            tiles,
                            a,
                            b,
                        ) by {}
                    }
                    assert forall|id: ID| #[trigger] books@.contains_key(id) <==> exists|j: int|
                        0 <= j < i + 1 && unit_on(tiles, j, id) by {
                        if books@.contains_key(id) {
                            let j = choose|j: int| 0 <= j < i && unit_on(tiles, j, id);
                            assert(unit_on(tiles, j, id));
                        }
                        if exists|j: int| 0 <= j < i + 1 && unit_on(tiles, j, id) {
                            let j = choose|j: int| 0 <= j < i + 1 && unit_on(tiles, j, id);
                            assert(j < i);
                        }
                    }
                }
            }
            i += 1;
        }
        proof {
            assert forall|id: ID| #[trigger] books@.contains_key(id) <==> exists|j: int|
                unit_on(tiles, j, id) by {
                if exists|j: int| unit_on(tiles, j, id) {
                    let j = choose|j: int| unit_on(tiles, j, id);
                    assert(0 <= j < n && unit_on(tiles, j, id));
                }
                if books@.contains_key(id) {
                    let j = choose|j: int| 0 <= j < n && unit_on(tiles, j, id);
                    assert(unit_on(tiles, j, id));
                }
            }
            if twice is None {
                assert forall|a: int, b: int| !#[trigger] unit_twice(tiles, a, b) by {
                    if unit_twice(tiles, a, b) {
                        assert(0 <= b < n);
                    }
                }
            }
        }
        (books, twice)
    }

    /// The record of who is in the game when it begins: everybody.
    fn enroll(players: &Vec<Player>) -> (activity: HashMap<ID, bool>)
        ensures
            activity@ == Map::new(|id: ID| among_players(players@, id), |id: ID| true),
    {
        let mut activity: HashMap<ID, bool> = HashMap::new();
        let mut p: usize = 0;
        while p < players.len()
            invariant
                p <= players@.len(),
                forall|id: ID| #[trigger]
                    activity@.contains_key(id) <==> exists|q: int|
                        0 <= q < p && (#[trigger] players@[q]).id == id,
                forall|id: ID| #[trigger] activity@.contains_key(id) ==> activity@[id],
            decreases players@.len() - p,
        {
            let ghost before = activity@;
            let id = players[p].id;
            activity.insert(id, true);
            proof {
                assert forall|x: ID| #[trigger] activity@.contains_key(x) <==> exists|q: int|
                    0 <= q < p + 1 && (#[trigger] players@[q]).id == x by {
                    if x == id {
                        assert(players@[p as int].id == x);
                    }
                    if before.contains_key(x) {
                        let q = choose|q: int| 0 <= q < p && (#[trigger] players@[q]).id == x;
                        assert(players@[q].id == x);
                    }
                    if exists|q: int| 0 <= q < p + 1 && (#[trigger] players@[q]).id == x {
                        let q = choose|q: int| 0 <= q < p + 1 && (#[trigger] players@[q]).id == x;
                        if q < p {
                            assert(before.contains_key(x));
                        }
                    }
                }
            }
            p += 1;
        }
        proof {
            let goal = Map::new(|id: ID| among_players(players@, id), |id: ID| true);
            assert(activity@ =~= goal) by {
                assert forall|id: ID| activity@.contains_key(id) <==> goal.contains_key(id) by {
                    if among_players(players@, id) {
                        let q = choose|q: int|
                            0 <= q < players@.len() && (#[trigger] players@[q]).id == id;
                        assert(players@[q].id == id);
                    }
                }
            }
        }
        activity
    }

    /// Moves the producer of identifiers behind every unit of the location.
    fn catch_up(location: &Location, id_producer: &mut IdProducer)
        requires
            location.base(),
        ensures
            final(id_producer).last_issued() == newest_unit(
                location@.tiles,
                old(id_producer).last_issued(),
                location@.size(),
            ),
    {
        let ghost tiles = location@.tiles;
        let ghost least = id_producer.last_issued();
        let n = location.size();
        let mut i: usize = 0;
        while i < n
            invariant
                location.base(),
                tiles == location@.tiles,
                n == tiles.len(),
                i <= n,
                id_producer.last_issued() == newest_unit(tiles, least, i as int),
            decreases n - i,
        {
            if let Some(unit) = location.tile_at_index(i).unit {
                id_producer.skip_past(unit.id);
            }
            i += 1;
        }
    }
}

impl GameEngine {
    /// The identifier of a record of a region that no region has, if there
    /// is such a record.
    fn stray_region_record(&self) -> (stray: Option<ID>)
        requires
            self.based(),
        ensures
            match stray {
                Some(id) => self@.region_info.contains_key(id) && !self@.location.has_region(id),
                None => forall|id: ID| #[trigger]
                    self@.region_info.contains_key(id) ==> self@.location.has_region(id),
            },
    {
        let keys = self.region_info.keys();
        for key in it: keys
            invariant
                self.based(),
                it.seq().unref().to_set() == self@.region_info.dom(),
                forall|j: int|
                    0 <= j < it.index() ==> self@.location.has_region(*(#[trigger] it.seq()[j])),
        {
            if !self.location.has_region(*key) {
                assert(it.seq().unref().contains(*key));
                return Some(*key);
            }
        }
        None
    }
}

impl GameEngine {
    /// The identifier of a record of a unit that no unit has, if there is
    /// such a record.
    fn stray_unit_record(&self) -> (stray: Option<ID>)
        requires
            self.based(),
        ensures
            match stray {
                Some(id) => self@.unit_info.contains_key(id) && !stands(self@.location.tiles, id),
                None => forall|id: ID| #[trigger]
                    self@.unit_info.contains_key(id) ==> stands(self@.location.tiles, id),
            },
    {
        let keys = self.unit_info.keys();
        for key in it: keys
            invariant
                self.based(),
                it.seq().unref().to_set() == self@.unit_info.dom(),
                forall|j: int|
                    0 <= j < it.index() ==> stands(self@.location.tiles, *(#[trigger] it.seq()[j])),
        {
            if !self.unit_stands(*key) {
                assert(it.seq().unref().contains(*key));
                return Some(*key);
            }
        }
        None
    }

    /// Whether a unit with this identifier stands on the map.
    fn unit_stands(&self, id: ID) -> (found: bool)
        requires
            self.based(),
        ensures
            found == stands(self@.location.tiles, id),
    {
        let n = self.location.size();
        let mut i: usize = 0;
        while i < n
            invariant
                self.based(),
                n == self@.location.tiles.len(),
                i <= n,
                forall|j: int| 0 <= j < i ==> !unit_on(self@.location.tiles, j, id),
            decreases n - i,
        {
            if let Some(unit) = self.location.tile_at_index(i).unit {
                if unit.id == id {
                    assert(unit_on(self@.location.tiles, i as int, id));
                    return true;
                }
            }
            i += 1;
        }
        false
    }

    /// Whether a unit on an earlier tile than `i` has this identifier.
    fn unit_stands_before(&self, i: usize, id: ID) -> (stands: bool)
        requires
            self.based(),
            i < self@.location.size(),
            self@.location.tiles[i as int].unit is Some,
            self@.location.tiles[i as int].unit->0.id == id,
        ensures
            stands == exists|a: int| #[trigger] unit_twice(self@.location.tiles, a, i as int),
    {
        let mut a: usize = 0;
        while a < i
            invariant
                self.based(),
                i < self@.location.size(),
                self@.location.tiles[i as int].unit is Some,
                self@.location.tiles[i as int].unit->0.id == id,
                a <= i,
                forall|b: int| 0 <= b < a ==> !#[trigger] unit_twice(self@.location.tiles, b, i as int),
            decreases i - a,
        {
            if let Some(unit) = self.location.tile_at_index(a).unit {
                if unit.id == id {
                    assert(unit_twice(self@.location.tiles, a as int, i as int));
                    return true;
                }
            }
            a += 1;
        }
        false
    }

    /// Checks that the records are those of the regions and units of the
    /// location.
    fn validate_internal_consistency(&self) -> (res: Result<(), EngineValidationError>)
        requires
            self.based(),
        ensures
            match res {
                Ok(()) => consistent(self@),
                Err(error) => inconsistent(self@, error),
            },
    {
        let ghost e = self@;
        let headers = self.location.region_headers();
        let mut h: usize = 0;
        while h < headers.len()
            invariant
                self.based(),
                e == self@,
                headers@ == e.location.regions,
                h <= headers@.len(),
                forall|g: int|
                    0 <= g < h ==> e.region_info.contains_key((#[trigger] e.location.regions[g]).id),
            decreases headers@.len() - h,
        {
            let id = headers[h].id;
            if !self.region_info.contains_key(&id) {
                assert(e.location.regions[h as int].id == id);
                return Err(EngineValidationError::RegionWithoutInfo(id));
            }
            h += 1;
        }
        proof {
            assert forall|r: ID| #[trigger] e.location.has_region(r) implies e.region_info.contains_key(
                r,
            ) by {
                let g = choose|g: int|
                    0 <= g < e.location.regions.len() && (#[trigger] e.location.regions[g]).id == r;
                assert(e.region_info.contains_key(e.location.regions[g].id));
            }
        }
        if let Some(id) = self.stray_region_record() {
            return Err(EngineValidationError::UnlinkedRegionInfo(id));
        }
        let n = self.location.size();
        let mut i: usize = 0;
        while i < n
            invariant
                self.based(),
                e == self@,
                regions_booked(e),
                n == e.location.tiles.len(),
                i <= n,
                forall|j: int| 0 <= j < i ==> !#[trigger] unrecorded(e, j),
            decreases n - i,
        {
            if let Some(unit) = self.location.tile_at_index(i).unit {
                if !self.unit_info.contains_key(&unit.id) || self.unit_stands_before(i, unit.id) {
                    assert(unrecorded(e, i as int));
                    return Err(EngineValidationError::UnitWithoutInfo(unit.id));
                }
            }
            i += 1;
        }
        proof {
            assert forall|j: int| !#[trigger] unrecorded(e, j) by {
                if unrecorded(e, j) {
                    assert(0 <= j < n);
                }
            }
        }
        if let Some(id) = self.stray_unit_record() {
            return Err(EngineValidationError::UnlinkedUnitInfo(id));
        }
        proof {
            assert forall|id: ID| #[trigger] e.unit_info.contains_key(id) implies exists|i: int|
                unit_on(e.location.tiles, i, id) by {
                assert(stands(e.location.tiles, id));
            }
        }
        Ok(())
    }

    /// The players who are in the game, in the order of the list.
    fn active_players(&self) -> (list: Vec<Player>)
        ensures
            list@ == actives(self@),
    {
        let mut list: Vec<Player> = Vec::new();
        let mut p: usize = 0;
        while p < self.players.len()
            invariant
                p <= self@.players.len(),
                list@ == actives_upto(self@, p as int),
            decreases self@.players.len() - p,
        {
            if self.is_active_at(p) {
                list.push(self.players[p]);
            }
            p += 1;
        }
        list
    }

    /// Checks the state of the engine: the location meets the rules of the
    /// game (`LocationError` otherwise), the players who are in the game
    /// are those who hold ground (`RegionsError`), and the records are those
    /// of the regions and units of the location. The first check that fails
    /// is reported.
    pub fn validate(&self) -> (res: Result<(), EngineValidationError>)
        requires
            self.based(),
            self@.location.wf(),
        ensures
            match res {
                Ok(()) => lawful(self@.location) && players_agree(self@.location, actives(self@))
                    && consistent(self@),
                Err(EngineValidationError::LocationError(error)) => !lawful(self@.location)
                    && location_fault(self@.location, error),
                Err(EngineValidationError::RegionsError(error)) => lawful(self@.location)
                    && !players_agree(self@.location, actives(self@)) && regions_fault(
                    self@.location,
                    actives(self@),
                    error,
                ),
                Err(error) => lawful(self@.location) && players_agree(
                    self@.location,
                    actives(self@),
                ) && inconsistent(self@, error),
            },
    {
        let active_players = self.active_players();
        match validate_location(&self.location) {
            Ok(()) => {},
            Err(error) => {
                return Err(EngineValidationError::LocationError(error));
            },
        }
        match validate_regions(&self.location, active_players.as_slice()) {
            Ok(()) => {},
            Err(error) => {
                return Err(EngineValidationError::RegionsError(error));
            },
        }
        self.validate_internal_consistency()
    }

    /// Begins a game on a location with the players on the list. The
    /// location has to meet the rules of the game, and the players on the
    /// list have to be those who hold ground on it; no two units may have one
    /// identifier.
    pub fn new(location: Location, players: Vec<Player>, id_producer: IdProducer) -> (res: Result<
        Self,
        EngineValidationError,
    >)
        requires
            location.wf(),
            location@.size() <= MAP_LIMIT,
        ensures
            match res {
                Ok(engine) => engine.wf() && players_agree(location@, players@) && engine@
                    == started(location@, players@, id_producer.last_issued()),
                Err(error) => refused(location@, players@, error),
            },
    {
        let ghost v = location@;
        let ghost least = id_producer.last_issued();
        let region_info = Self::open_region_books(&location);
        let player_activity = Self::enroll(&players);
        let (unit_info, twice) = Self::open_unit_books(&location);
        let mut id_producer = id_producer;
        Self::catch_up(&location, &mut id_producer);
        let mut engine = Self {
            location,
            players,
            player_activity,
            unit_info,
            region_info,
            id_producer,
            winner: None,
            current_turn: 1,
            active_player_num: 0,
        };
        let ghost e0 = engine@;
        proof {
            assert(regions_booked(e0));
        }
        engine.recount_region_info();
        match validate_location(&engine.location) {
            Ok(()) => {},
            Err(error) => {
                return Err(EngineValidationError::LocationError(error));
            },
        }
        match validate_regions(&engine.location, engine.players.as_slice()) {
            Ok(()) => {},
            Err(error) => {
                return Err(EngineValidationError::RegionsError(error));
            },
        }
        if let Some(id) = twice {
            return Err(EngineValidationError::UnitWithoutInfo(id));
        }
        let ghost e1 = engine@;
        proof {
            lemma_books_kept(e0, e1);
            assert forall|i: int|
                0 <= i < e1.location.tiles.len() && (#[trigger] e1.location.tiles[i]).unit
                    is Some implies {
                let unit = e1.location.tiles[i].unit->0;
                &&& e1.unit_info.contains_key(unit.id)
                &&& record_of(e1.unit_info[unit.id], unit)
                &&& unit.id <= e1.last_id
            } by {
                let unit = e1.location.tiles[i].unit->0;
                assert(unit_on(v.tiles, i, unit.id));
                lemma_newest_unit(v.tiles, least, v.size(), i);
            }
            assert forall|i: int, j: int|
                0 <= i < j < e1.location.tiles.len() && (#[trigger] e1.location.tiles[i]).unit
                    is Some && (#[trigger] e1.location.tiles[j]).unit is Some implies e1.location.tiles[i].unit->0.id
                != e1.location.tiles[j].unit->0.id by {
                assert(!unit_twice(v.tiles, i, j));
            }
            assert(units_booked(e1));
        }
        engine.refill_moves();
        proof {
            let f = engine@;
            lemma_books_kept(e1, f);
            lemma_cache_kept(e1, f);
            let goal = started(v, engine@.players, least);
            assert(f.region_info =~= goal.region_info);
            assert(f.unit_info =~= goal.unit_info) by {
                assert forall|id: ID| #[trigger] f.unit_info.contains_key(id) implies f.unit_info[id]
                    == goal.unit_info[id] by {
                    let i = choose|i: int| unit_on(v.tiles, i, id);
                    assert(v.tiles[i].unit is Some);
                    assert(e1.unit_info[v.tiles[i].unit->0.id] == (UnitInfo {
                        unit_type: v.tiles[i].unit->0.unit_type,
                        moves_left: 0,
                    }));
                }
            }
            assert(f == goal);
        }
        Ok(engine)
    }
}

impl GameEngine {
    /// Whether every unit has a record of its own.
    fn every_unit_recorded(&self) -> (ok: bool)
        requires
            self.based(),
        ensures
            ok == forall|i: int| !#[trigger] unrecorded(self@, i),
    {
        let ghost e = self@;
        let n = self.location.size();
        let mut i: usize = 0;
        while i < n
            invariant
                self.based(),
                e == self@,
                n == e.location.tiles.len(),
                i <= n,
                forall|j: int| 0 <= j < i ==> !#[trigger] unrecorded(e, j),
            decreases n - i,
        {
            if let Some(unit) = self.location.tile_at_index(i).unit {
                if !self.unit_info.contains_key(&unit.id) || self.unit_stands_before(i, unit.id) {
                    assert(unrecorded(e, i as int));
                    return false;
                }
            }
            i += 1;
        }
        proof {
            assert forall|j: int| !#[trigger] unrecorded(e, j) by {
                if unrecorded(e, j) {
                    assert(0 <= j < n);
                }
            }
        }
        true
    }

    /// Whether the engine can be repaired: the map is not larger than a game
    /// can handle, every region has a record, and every unit has a record of
    /// its own.
    pub fn can_repair(&self) -> (can: bool)
        requires
            self.based(),
            self@.location.wf(),
        ensures
            can == repairable(self@),
    {
        if self.location.size() > MAP_LIMIT {
            return false;
        }
        match self.validate_internal_consistency() {
            Ok(()) => true,
            Err(EngineValidationError::UnlinkedUnitInfo(_)) => true,
            Err(EngineValidationError::UnlinkedRegionInfo(_)) => {
                self.every_unit_recorded()
            },
            Err(error) => {
                proof {
                    let e = self@;
                    match error {
                        EngineValidationError::RegionWithoutInfo(id) => {
                            let h = choose|h: int|
                                0 <= h < e.location.regions.len() && (
                                #[trigger] e.location.regions[h]).id == id
                                    && !e.region_info.contains_key(id);
                            assert(super::layout::listed(
                                e.location.regions,
                                e.location.regions[h].id,
                            ));
                            assert(e.location.has_region(id));
                        },
                        EngineValidationError::UnlinkedRegionInfo(id) => {
                            assert(e.region_info.contains_key(id));
                        },
                        EngineValidationError::UnitWithoutInfo(id) => {
                            let i = choose|i: int| #[trigger]
                                unrecorded(e, i) && e.location.tiles[i].unit->0.id == id;
                            assert(unrecorded(e, i));
                        },
                        _ => {},
                    }
                }
                false
            },
        }
    }

    /// Counts what can be counted anew: income and maintenance of the
    /// regions, and the type in the record of every unit.
    pub fn repair(&mut self)
        requires
            old(self).based(),
            repairable(old(self)@),
        ensures
            final(self).based(),
            final(self)@ == repaired(old(self)@),
            regions_booked(old(self)@) ==> cached(final(self)@),
            repairable(final(self)@),
    {
        let ghost e = self@;
        self.recount_region_info();
        let ghost e1 = self@;
        let ghost tiles = e.location.tiles;
        let n = self.location.size();
        let mut i: usize = 0;
        while i < n
            invariant
                self.based(),
                repairable(e),
                tiles == e.location.tiles,
                n == tiles.len(),
                i <= n,
                e1 == (EngineView { region_info: recounted(e), ..e }),
                self@ == (EngineView { unit_info: self@.unit_info, ..e1 }),
                forall|id: ID| #[trigger]
                    self@.unit_info.contains_key(id) <==> e.unit_info.contains_key(id),
                forall|id: ID| #[trigger]
                    self@.unit_info.contains_key(id) ==> self@.unit_info[id] == if exists|j: int|
                        0 <= j < i && unit_on(tiles, j, id) {
                        retyped(e)[id]
                    } else {
                        e.unit_info[id]
                    },
            decreases n - i,
        {
            if let Some(unit) = self.location.tile_at_index(i).unit {
                proof {
                    assert(!unrecorded(e, i as int));
                    assert(unit_on(tiles, i as int, unit.id));
                    assert(stands(tiles, unit.id));
                    let c = choose|c: int| unit_on(tiles, c, unit.id);
                    if c < i {
                        assert(unit_twice(tiles, c, i as int));
                    } else if c > i {
                        assert(!unrecorded(e, c));
                        assert(unit_twice(tiles, i as int, c));
                    }
                }
                let previous = *self.unit_info.get(&unit.id).unwrap();
                let ghost before = self@.unit_info;
                self.unit_info.insert(
                    unit.id,
                    UnitInfo { unit_type: unit.unit_type, moves_left: previous.moves_left },
                );
                proof {
                    assert forall|id: ID| #[trigger] self@.unit_info.contains_key(id) implies self@.unit_info[id]
                        == if exists|j: int| 0 <= j < i + 1 && unit_on(tiles, j, id) {
                        retyped(e)[id]
                    } else {
                        e.unit_info[id]
                    } by {
                        if id == unit.id {
                            assert(unit_on(tiles, i as int, id));
                            if exists|j: int| 0 <= j < i && unit_on(tiles, j, id) {
                                let j = choose|j: int| 0 <= j < i && unit_on(tiles, j, id);
                                assert(unit_twice(tiles, j, i as int));
                            }
                        } else {
                            assert(before[id] == self@.unit_info[id]);
                            if exists|j: int| 0 <= j < i + 1 && unit_on(tiles, j, id) {
                                let j = choose|j: int| 0 <= j < i + 1 && unit_on(tiles, j, id);
                                assert(j < i);
                            }
                        }
                    }
                }
            } else {
                proof {
                    assert forall|id: ID| #[trigger] self@.unit_info.contains_key(id) implies self@.unit_info[id]
                        == if exists|j: int| 0 <= j < i + 1 && unit_on(tiles, j, id) {
                        retyped(e)[id]
                    } else {
                        e.unit_info[id]
                    } by {
                        if exists|j: int| 0 <= j < i + 1 && unit_on(tiles, j, id) {
                            let j = choose|j: int| 0 <= j < i + 1 && unit_on(tiles, j, id);
                            assert(j < i);
                        }
                    }
                }
            }
            i += 1;
        }
        proof {
            let f = self@;
            assert(f.unit_info =~= retyped(e)) by {
                assert forall|id: ID| #[trigger] f.unit_info.contains_key(id) implies f.unit_info[id]
                    == retyped(e)[id] by {
                    if stands(tiles, id) {
                        let j = choose|j: int| unit_on(tiles, j, id);
                        assert(0 <= j < n && unit_on(tiles, j, id));
                    }
                }
            }
            lemma_repair_twice(e);
        }
    }

    /// Puts a new unit on the tile with this coordinate, in place of what
    /// stood there, and opens its record; the unit cannot move yet.
    pub fn create_and_place_unit(&mut self, unit_type: UnitType, coordinate: Coord) -> (res: Result<
        ID,
        LocationModificationError,
    >)
        requires
            old(self).based(),
            old(self)@.location.shaped(),
            units_booked(old(self)@),
            old(self)@.last_id < u32::MAX,
        ensures
            final(self).based(),
            units_booked(final(self)@),
            match res {
                Ok(id) => old(self)@.location.has_tile(coordinate) && final(self)@ == merged_at_any(
                    old(self)@,
                    old(self)@.location.index_of(coordinate),
                    unit_type,
                ) && id == final(self)@.last_id,
                Err(error) => !old(self)@.location.has_tile(coordinate) && error
                    == LocationModificationError::CoordinateOutOfLocation(coordinate) && *final(self) == *old(self),
            },
    {
        let ghost e = self@;
        match self.location.index_of(coordinate) {
            Some(i) => {
                self.clear(i);
                let ghost e1 = self@;
                let id = self.spawn(i, unit_type);
                proof {
                    assert(e.location.with_unit(i as int, None).tiles =~= e1.location.tiles);
                    assert(self@.unit_info =~= merged_at_any(e, i as int, unit_type).unit_info);
                }
                Ok(id)
            },
            None => Err(LocationModificationError::CoordinateOutOfLocation(coordinate)),
        }
    }

    /// Takes the unit from the tile with this coordinate, which the map has
    /// to have, and closes its record.
    pub fn maybe_remove_unit(&mut self, coordinate: Coord) -> (gone: Option<(Unit, UnitInfo)>)
        requires
            old(self).based(),
            old(self)@.location.shaped(),
            units_booked(old(self)@),
            old(self)@.location.has_tile(coordinate),
        ensures
            final(self).based(),
            units_booked(final(self)@),
            match gone {
                Some((unit, info)) => old(self)@.location.unit_at(coordinate) == Some(unit)
                    && old(self)@.unit_info[unit.id] == info && final(self)@ == (EngineView {
                    location: old(self)@.location.with_unit(
                        old(self)@.location.index_of(coordinate),
                        None,
                    ),
                    unit_info: old(self)@.unit_info.remove(unit.id),
                    ..old(self)@
                }),
                None => old(self)@.location.unit_at(coordinate) is None && final(self)@ == old(self)@,
            },
    {
        let i = self.location.index_of(coordinate).unwrap();
        self.clear(i)
    }

    /// Gives a unit all the moves of its type.
    pub fn refill_unit_moves(&mut self, unit_id: ID)
        requires
            old(self)@.unit_info.contains_key(unit_id),
        ensures
            final(self).based() == old(self).based(),
            final(self)@ == (EngineView {
                unit_info: old(self)@.unit_info.insert(
                    unit_id,
                    refilled(old(self)@.unit_info[unit_id]),
                ),
                ..old(self)@
            }),
    {
        let mut info = *self.unit_info.get(&unit_id).unwrap();
        info.refill_moves();
        self.unit_info.insert(unit_id, info);
    }

    /// The identifier that was issued last.
    pub fn last_issued_id(&self) -> (id: ID)
        ensures
            id == self@.last_id,
    {
        self.id_producer.last_issued_id()
    }

    /// Puts an engine together from its parts as they were written down.
    /// Nothing is checked: `repair` and `validate` say whether the parts
    /// fit.
    pub fn from_parts(
        location: Location,
        players: Vec<Player>,
        activity: Vec<(ID, bool)>,
        winner: Option<ID>,
        current_turn: u32,
        active_player_num: usize,
        region_info: Vec<(ID, RegionInfo)>,
        unit_info: Vec<(ID, UnitInfo)>,
        last_issued_id: ID,
    ) -> (engine: Self)
        requires
            location.base(),
        ensures
            engine.based(),
            engine@ == (EngineView {
                players: players@,
                activity: folded(activity@, activity@.len() as int),
                winner,
                current_turn,
                active_player_num,
                location: location@,
                region_info: folded(region_info@, region_info@.len() as int),
                unit_info: folded(unit_info@, unit_info@.len() as int),
                last_id: last_issued_id,
            }),
    {
        let mut player_activity: HashMap<ID, bool> = HashMap::new();
        let mut k: usize = 0;
        while k < activity.len()
            invariant
                k <= activity@.len(),
                player_activity@ == folded(activity@, k as int),
            decreases activity@.len() - k,
        {
            let (id, active) = activity[k];
            player_activity.insert(id, active);
            k += 1;
        }
        let mut regions: HashMap<ID, RegionInfo> = HashMap::new();
        k = 0;
        while k < region_info.len()
            invariant
                k <= region_info@.len(),
                regions@ == folded(region_info@, k as int),
            decreases region_info@.len() - k,
        {
            let (id, info) = region_info[k];
            regions.insert(id, info);
            k += 1;
        }
        let mut units: HashMap<ID, UnitInfo> = HashMap::new();
        k = 0;
        while k < unit_info.len()
            invariant
                k <= unit_info@.len(),
                units@ == folded(unit_info@, k as int),
            decreases unit_info@.len() - k,
        {
            let (id, info) = unit_info[k];
            units.insert(id, info);
            k += 1;
        }
        Self {
            players,
            player_activity,
            winner,
            current_turn,
            active_player_num,
            location,
            region_info: regions,
            unit_info: units,
            id_producer: IdProducer::starting_after(last_issued_id),
        }
    }
}

/// The state after a new unit of this type took the place of whatever stood
/// on tile `at`.
pub open spec fn merged_at_any(old: EngineView, at: int, unit_type: UnitType) -> EngineView {
    let id = (old.last_id + 1) as ID;
    let cleared = match old.location.tiles[at].unit {
        Some(unit) => old.unit_info.remove(unit.id),
        None => old.unit_info,
    };
    EngineView {
        location: old.location.with_unit(at, None).with_unit(at, Some(Unit { id, unit_type })),
        unit_info: cleared.insert(id, UnitInfo { unit_type, moves_left: 0 }),
        last_id: id,
        ..old
    }
}

/// In every state of a game between two actions, the regions cover the
/// land and nothing else: a tile belongs to a region exactly if it is land,
/// and the region it belongs to is on the list of regions.
pub proof fn lemma_land_is_covered(e: EngineView, i: int)
    requires
        sane(e),
        0 <= i < e.location.size(),
    ensures
        lawful(e.location),
        e.location.region_of[i] is Some <==> e.location.tiles[i].surface is Land,
        e.location.region_of[i] matches Some(id) ==> e.location.has_region(id)
            && e.region_info.contains_key(id),
{
    assert(covered_at(e.location, i));
}

/// In every state of a game between two actions, no two regions of one
/// owner touch.
pub proof fn lemma_no_friendly_borders(e: EngineView, i: int, j: int)
    requires
        sane(e),
        near(e.location.cells, i, j),
        e.location.region_of[i] is Some,
        e.location.region_of[j] is Some,
        e.location.region_of[i] != e.location.region_of[j],
    ensures
        e.location.owner_of(e.location.region_of[i]->0).id != e.location.owner_of(
            e.location.region_of[j]->0,
        ).id,
{
    assert(!friendly(e.location.cells, e.location.region_of, e.location.regions, i, j));
}

/// In every state of a game between two actions, every region of two tiles
/// or more has exactly one capital.
pub proof fn lemma_one_capital(e: EngineView, id: ID)
    requires
        sane(e),
        e.location.has_region(id),
        e.location.region_size(id) >= MIN_CONTROLLED_REGION_SIZE,
    ensures
        e.location.capital_count(id) == 1,
{
    let h = choose|h: int|
        0 <= h < e.location.regions.len() && (#[trigger] e.location.regions[h]).id == id;
    assert(!miscrowned(e.location, e.location.regions[h].id));
}

/// One of the first `upto` entries of the list has the key `k`.
pub open spec fn named_in<V>(entries: Seq<(ID, V)>, upto: int, k: ID) -> bool {
    exists|j: int| 0 <= j < upto && j < entries.len() && (#[trigger] entries[j]).0 == k
}

/// Entries of a map fold to the part of the map that they name.
pub proof fn lemma_folded<V>(entries: Seq<(ID, V)>, map: Map<ID, V>, upto: int)
    requires
        0 <= upto <= entries.len(),
        forall|j: int|
            0 <= j < upto ==> map.contains_key((#[trigger] entries[j]).0) && map[entries[j].0]
                == entries[j].1,
    ensures
        forall|k: ID| #[trigger]
            folded(entries, upto).contains_key(k) <==> named_in(entries, upto, k),
        forall|k: ID| #[trigger]
            folded(entries, upto).contains_key(k) ==> folded(entries, upto)[k] == map[k],
    decreases upto,
{
    if upto > 0 {
        lemma_folded(entries, map, upto - 1);
        let last = entries[upto - 1];
        let before = folded(entries, upto - 1);
        assert(folded(entries, upto) == before.insert(last.0, last.1));
        assert forall|k: ID| #[trigger]
            folded(entries, upto).contains_key(k) implies folded(entries, upto)[k] == map[k] by {
            if k != last.0 {
                assert(before.contains_key(k));
            }
        }
        assert forall|k: ID| #[trigger]
            folded(entries, upto).contains_key(k) <==> named_in(entries, upto, k) by {
            if named_in(entries, upto, k) {
                let j = choose|j: int|
                    0 <= j < upto && j < entries.len() && (#[trigger] entries[j]).0 == k;
                if j < upto - 1 {
                    assert(named_in(entries, upto - 1, k));
                    assert(before.contains_key(k));
                }
            }
            if folded(entries, upto).contains_key(k) {
                if k == last.0 {
                    assert(entries[upto - 1].0 == k);
                } else {
                    assert(before.contains_key(k));
                    assert(named_in(entries, upto - 1, k));
                    let j = choose|j: int|
                        0 <= j < upto - 1 && j < entries.len() && (#[trigger] entries[j]).0 == k;
                    assert(entries[j].0 == k);
                }
            }
        }
    }
}

/// The part of the records of an engine that belongs to what is there: the
/// activity of the players on the list, the records of the regions of the
/// location, and the records of the units on the map.
pub open spec fn listed_activity(e: EngineView) -> Map<ID, bool> {
    e.activity.restrict(Set::new(|id: ID| among_players(e.players, id)))
}

pub open spec fn listed_regions(e: EngineView) -> Map<ID, RegionInfo> {
    e.region_info.restrict(Set::new(|id: ID| e.location.has_region(id)))
}

pub open spec fn listed_units(e: EngineView) -> Map<ID, UnitInfo> {
    e.unit_info.restrict(Set::new(|id: ID| stands(e.location.tiles, id)))
}

/// A state of a game between two actions that is written down in full,
/// with the records of its players, regions and units as lists, and put
/// together again of what was written is, after a repair, the state that it
/// was: the lists hold all its records, and the repair changes nothing.
pub proof fn lemma_round_trip(e: EngineView)
    requires
        sane(e),
    ensures
        listed_activity(e) == e.activity,
        listed_regions(e) == e.region_info,
        listed_units(e) == e.unit_info,
        repaired(e) == e,
{
    lemma_repair_of_sane(e);
    assert(listed_activity(e) =~= e.activity);
    assert(listed_regions(e) =~= e.region_info);
    assert(listed_units(e) =~= e.unit_info) by {
        assert forall|id: ID| #[trigger] e.unit_info.contains_key(id) implies stands(
            e.location.tiles,
            id,
        ) by {}
    }
}

impl GameEngine {
    /// The activity of the players on the list, in the order of the list.
    pub fn activity_records(&self) -> (entries: Vec<(ID, bool)>)
        ensures
            folded(entries@, entries@.len() as int) == listed_activity(self@),
    {
        let ghost e = self@;
        let mut entries: Vec<(ID, bool)> = Vec::new();
        let n = self.players.len();
        let mut p: usize = 0;
        while p < n
            invariant
                e == self@,
                n == e.players.len(),
                p <= n,
                forall|j: int|
                    0 <= j < entries@.len() ==> e.activity.contains_key((#[trigger] entries@[j]).0)
                        && e.activity[entries@[j].0] == entries@[j].1 && among_players(
                        e.players,
                        entries@[j].0,
                    ),
                forall|q: int|
                    0 <= q < p && e.activity.contains_key((#[trigger] e.players[q]).id)
                        ==> named_in(entries@, entries@.len() as int, e.players[q].id),
            decreases n - p,
        {
            let id = self.players[p].id;
            let ghost before = entries@;
            match self.player_activity(id) {
                Some(active) => {
                    entries.push((id, active));
                    proof {
                        assert(entries@[before.len() as int].0 == id);
                        assert(among_players(e.players, id));
                        assert forall|q: int|
                            0 <= q < p + 1 && e.activity.contains_key(
                                (#[trigger] e.players[q]).id,
                            ) implies named_in(
                            entries@,
                            entries@.len() as int,
                            e.players[q].id,
                        ) by {
                            if q < p {
                                let j = choose|j: int|
                                    0 <= j < before.len() && j < before.len() && (
                                    #[trigger] before[j]).0 == e.players[q].id;
                                assert(entries@[j].0 == e.players[q].id);
                            }
                        }
                    }
                },
                None => {},
            }
            p += 1;
        }
        proof {
            lemma_folded(entries@, e.activity, entries@.len() as int);
            let got = folded(entries@, entries@.len() as int);
            assert forall|k: ID| got.contains_key(k) <==> listed_activity(e).contains_key(k) by {
                if got.contains_key(k) {
                    let j = choose|j: int|
                        0 <= j < entries@.len() && j < entries@.len() && (#[trigger] entries@[j]).0
                            == k;
                    assert(among_players(e.players, entries@[j].0));
                }
                if listed_activity(e).contains_key(k) {
                    let q = choose|q: int|
                        0 <= q < e.players.len() && (#[trigger] e.players[q]).id == k;
                    assert(named_in(entries@, entries@.len() as int, e.players[q].id));
                }
            }
            assert(got =~= listed_activity(e));
        }
        entries
    }

    /// The records of the regions of the location, in the order of its
    /// list of regions.
    pub fn region_records(&self) -> (entries: Vec<(ID, RegionInfo)>)
        requires
            self.based(),
        ensures
            folded(entries@, entries@.len() as int) == listed_regions(self@),
    {
        let ghost e = self@;
        let mut entries: Vec<(ID, RegionInfo)> = Vec::new();
        let headers = self.location.region_headers();
        let n = headers.len();
        let mut h: usize = 0;
        while h < n
            invariant
                e == self@,
                headers@ == e.location.regions,
                n == headers@.len(),
                h <= n,
                forall|j: int|
                    0 <= j < entries@.len() ==> e.region_info.contains_key(
                        (#[trigger] entries@[j]).0,
                    ) && e.region_info[entries@[j].0] == entries@[j].1 && e.location.has_region(
                        entries@[j].0,
                    ),
                forall|g: int|
                    0 <= g < h && e.region_info.contains_key((#[trigger] e.location.regions[g]).id)
                        ==> named_in(entries@, entries@.len() as int, e.location.regions[g].id),
            decreases n - h,
        {
            let id = headers[h].id;
            let ghost before = entries@;
            match self.region_info(id) {
                Some(info) => {
                    entries.push((id, info));
                    proof {
                        assert(entries@[before.len() as int].0 == id);
                        assert(e.location.regions[h as int].id == id);
                        assert(e.location.has_region(id));
                        assert forall|g: int|
                            0 <= g < h + 1 && e.region_info.contains_key(
                                (#[trigger] e.location.regions[g]).id,
                            ) implies named_in(
                            entries@,
                            entries@.len() as int,
                            e.location.regions[g].id,
                        ) by {
                            if g < h {
                                let j = choose|j: int|
                                    0 <= j < before.len() && j < before.len() && (
                                    #[trigger] before[j]).0 == e.location.regions[g].id;
                                assert(entries@[j].0 == e.location.regions[g].id);
                            }
                        }
                    }
                },
                None => {},
            }
            h += 1;
        }
        proof {
            lemma_folded(entries@, e.region_info, entries@.len() as int);
            let got = folded(entries@, entries@.len() as int);
            assert forall|k: ID| got.contains_key(k) <==> listed_regions(e).contains_key(k) by {
                if got.contains_key(k) {
                    let j = choose|j: int|
                        0 <= j < entries@.len() && j < entries@.len() && (#[trigger] entries@[j]).0
                            == k;
                    assert(e.location.has_region(entries@[j].0));
                }
                if listed_regions(e).contains_key(k) {
                    let g = choose|g: int|
                        0 <= g < e.location.regions.len() && (#[trigger] e.location.regions[g]).id
                            == k;
                    assert(named_in(entries@, entries@.len() as int, e.location.regions[g].id));
                }
            }
            assert(got =~= listed_regions(e));
        }
        entries
    }

    /// The records of the units on the map, in the order of the map.
    pub fn unit_records(&self) -> (entries: Vec<(ID, UnitInfo)>)
        requires
            self.based(),
        ensures
            folded(entries@, entries@.len() as int) == listed_units(self@),
    {
        let ghost e = self@;
        let ghost tiles = e.location.tiles;
        let mut entries: Vec<(ID, UnitInfo)> = Vec::new();
        let n = self.location.size();
        let mut i: usize = 0;
        while i < n
            invariant
                self.based(),
                e == self@,
                tiles == e.location.tiles,
                n == tiles.len(),
                i <= n,
                forall|j: int|
                    0 <= j < entries@.len() ==> e.unit_info.contains_key((#[trigger] entries@[j]).0)
                        && e.unit_info[entries@[j].0] == entries@[j].1 && stands(
                        tiles,
                        entries@[j].0,
                    ),
                forall|a: int, id: ID|
                    0 <= a < i && #[trigger] unit_on(tiles, a, id) && e.unit_info.contains_key(id)
                        ==> named_in(entries@, entries@.len() as int, id),
            decreases n - i,
        {
            let ghost before = entries@;
            if let Some(unit) = self.location.tile_at_index(i).unit {
                match self.unit_info(unit.id) {
                    Some(info) => {
                        entries.push((unit.id, info));
                        proof {
                            assert(entries@[before.len() as int].0 == unit.id);
                            assert(unit_on(tiles, i as int, unit.id));
                            assert forall|a: int, id: ID|
                                0 <= a < i + 1 && #[trigger] unit_on(tiles, a, id)
                                    && e.unit_info.contains_key(id) implies named_in(
                                entries@,
                                entries@.len() as int,
                                id,
                            ) by {
                                if a < i {
                                    let j = choose|j: int|
                                        0 <= j < before.len() && j < before.len() && (
                                        #[trigger] before[j]).0 == id;
                                    assert(entries@[j].0 == id);
                                }
                            }
                        }
                    },
                    None => {},
                }
            }
            i += 1;
        }
        proof {
            lemma_folded(entries@, e.unit_info, entries@.len() as int);
            let got = folded(entries@, entries@.len() as int);
            assert forall|k: ID| got.contains_key(k) <==> listed_units(e).contains_key(k) by {
                if got.contains_key(k) {
                    let j = choose|j: int|
                        0 <= j < entries@.len() && j < entries@.len() && (#[trigger] entries@[j]).0
                            == k;
                    assert(stands(tiles, entries@[j].0));
                }
                if listed_units(e).contains_key(k) {
                    let a = choose|a: int| unit_on(tiles, a, k);
                    assert(unit_on(tiles, a, k));
                }
            }
            assert(got =~= listed_units(e));
        }
        entries
    }
}

/// The records of the units fit the units: each unit has a record with its
/// type and with no more moves than the type has in a turn, and no unit has
/// an identifier that was not issued yet.
pub open spec fn records_fit(e: EngineView) -> bool {
    forall|i: int|
        0 <= i < e.location.tiles.len() && (#[trigger] e.location.tiles[i]).unit is Some ==> {
            let unit = e.location.tiles[i].unit->0;
            e.unit_info.contains_key(unit.id) && record_of(e.unit_info[unit.id], unit) && unit.id
                <= e.last_id
        }
}

impl GameEngine {
    /// Whether the records of the units fit the units.
    fn check_unit_records(&self) -> (ok: bool)
        requires
            self.based(),
        ensures
            ok == records_fit(self@),
    {
        let ghost e = self@;
        let last = self.id_producer.last_issued_id();
        let n = self.location.size();
        let mut i: usize = 0;
        while i < n
            invariant
                self.based(),
                e == self@,
                last == e.last_id,
                n == e.location.tiles.len(),
                i <= n,
                forall|j: int|
                    0 <= j < i && (#[trigger] e.location.tiles[j]).unit is Some ==> {
                        let unit = e.location.tiles[j].unit->0;
                        e.unit_info.contains_key(unit.id) && record_of(
                            e.unit_info[unit.id],
                            unit,
                        ) && unit.id <= e.last_id
                    },
            decreases n - i,
        {
            if let Some(unit) = self.location.tile_at_index(i).unit {
                let fits = match self.unit_info(unit.id) {
                    Some(info) => info.unit_type == unit.unit_type && info.moves_left
                        <= description(info.unit_type).max_moves,
                    None => false,
                };
                if !fits || unit.id > last {
                    assert(e.location.tiles[i as int].unit is Some);
                    return false;
                }
            }
            i += 1;
        }
        true
    }

    /// What the units of a region cost it each turn, however large the map.
    fn upkeep_at_large(&self, id: ID) -> (cost: u64)
        requires
            self.based(),
            self@.location.shaped(),
        ensures
            cost == upkeep(self@.location, id),
    {
        let n = self.location.size();
        let mut cost: u64 = 0;
        let mut i: usize = 0;
        while i < n
            invariant
                self.based(),
                n == self@.location.size(),
                n <= u32::MAX,
                i <= n,
                cost == upkeep_upto(self@.location, id, i as int),
                0 <= cost <= 54 * i,
            decreases n - i,
        {
            let inside = match self.location.region_id_at_index(i) {
                Some(r) => r == id,
                None => false,
            };
            if inside {
                if let Some(unit) = self.location.tile_at_index(i).unit {
                    let price: i32 = description(unit.unit_type).turn_cost;
                    assert(0 <= price <= 54);
                    cost += price as u64;
                }
            }
            i += 1;
        }
        cost
    }

    /// Whether income and maintenance of every record are those of its
    /// region.
    fn check_caches(&self) -> (ok: bool)
        requires
            self.based(),
            self@.location.shaped(),
            regions_booked(self@),
        ensures
            ok == cached(self@),
    {
        let ghost e = self@;
        let headers = self.location.region_headers();
        let n = headers.len();
        let mut h: usize = 0;
        while h < n
            invariant
                self.based(),
                e == self@,
                e.location.shaped(),
                regions_booked(e),
                headers@ == e.location.regions,
                n == headers@.len(),
                h <= n,
                forall|g: int|
                    0 <= g < h ==> e.region_info[(#[trigger] e.location.regions[g]).id] == counted(
                        e.location,
                        e.location.regions[g].id,
                        e.region_info[e.location.regions[g].id],
                    ),
            decreases n - h,
        {
            let id = headers[h].id;
            assert(e.location.regions[h as int].id == id);
            assert(e.location.has_region(id));
            let size = self.location.region_size(id);
            let cost = self.upkeep_at_large(id);
            let income = #[verifier::truncate]
            (size as i32);
            let maintenance = #[verifier::truncate]
            (cost as i32);
            let fits = match self.region_info(id) {
                Some(info) => info.income_from_fields == income && info.maintenance_cost
                    == maintenance,
                None => false,
            };
            if !fits {
                assert(e.region_info.contains_key(id));
                return false;
            }
            h += 1;
        }
        proof {
            assert forall|id: ID| #[trigger] e.region_info.contains_key(id) implies e.region_info[id]
                == counted(e.location, id, e.region_info[id]) by {
                assert(e.location.has_region(id));
                let g = choose|g: int|
                    0 <= g < e.location.regions.len() && (#[trigger] e.location.regions[g]).id
                        == id;
                assert(e.location.regions[g].id == id);
            }
        }
        true
    }

    /// Whether the players on the list are those whose activity is
    /// recorded.
    fn check_enrolment(&self) -> (ok: bool)
        ensures
            ok == enrolled(self@),
    {
        let ghost e = self@;
        let n = self.players.len();
        let mut p: usize = 0;
        while p < n
            invariant
                e == self@,
                n == e.players.len(),
                p <= n,
                forall|q: int| 0 <= q < p ==> e.activity.contains_key((#[trigger] e.players[q]).id),
            decreases n - p,
        {
            if self.player_activity(self.players[p].id).is_none() {
                assert(!e.activity.contains_key(e.players[p as int].id));
                return false;
            }
            p += 1;
        }
        let keys = self.player_activity.keys();
        for key in it: keys
            invariant
                e == self@,
                n == e.players.len(),
                it.seq().unref().to_set() == e.activity.dom(),
                forall|q: int| 0 <= q < n ==> e.activity.contains_key((#[trigger] e.players[q]).id),
                forall|j: int|
                    0 <= j < it.index() ==> among_players(e.players, *(#[trigger] it.seq()[j])),
        {
            let mut found = false;
            let mut q: usize = 0;
            while q < n
                invariant
                    e == self@,
                    n == e.players.len(),
                    q <= n,
                    found ==> among_players(e.players, *key),
                    !found ==> forall|r: int| 0 <= r < q ==> (#[trigger] e.players[r]).id != *key,
                decreases n - q,
            {
                if self.players[q].id == *key {
                    found = true;
                }
                q += 1;
            }
            if !found {
                assert(it.seq().unref().contains(*key));
                assert(e.activity.contains_key(*key));
                return false;
            }
        }
        true
    }

    /// Whether the state is that of a game between two actions: the
    /// location meets the rules of the game, every unit and every region has
    /// its record and there are no others, the records of the units fit
    /// them, income and maintenance are up to date, and the players on the
    /// list are those whose activity is recorded.
    pub fn is_sane(&self) -> (ok: bool)
        requires
            self.based(),
            self@.location.wf(),
        ensures
            ok == sane(self@),
            ok ==> self.wf(),
    {
        let ghost e = self@;
        match validate_location(&self.location) {
            Ok(()) => {},
            Err(_) => {
                return false;
            },
        }
        match self.validate_internal_consistency() {
            Ok(()) => {},
            Err(error) => {
                proof {
                    match error {
                        EngineValidationError::RegionWithoutInfo(id) => {
                            let h = choose|h: int|
                                0 <= h < e.location.regions.len() && (
                                #[trigger] e.location.regions[h]).id == id
                                    && !e.region_info.contains_key(id);
                            assert(super::layout::listed(
                                e.location.regions,
                                e.location.regions[h].id,
                            ));
                            assert(e.location.has_region(id));
                        },
                        EngineValidationError::UnlinkedRegionInfo(id) => {
                            assert(e.region_info.contains_key(id));
                        },
                        EngineValidationError::UnitWithoutInfo(id) => {
                            let i = choose|i: int| #[trigger]
                                unrecorded(e, i) && e.location.tiles[i].unit->0.id == id;
                            assert(unrecorded(e, i));
                            assert(e.location.tiles[i].unit is Some);
                            if e.unit_info.contains_key(id) {
                                let a = choose|a: int| #[trigger] unit_twice(e.location.tiles, a, i);
                                assert(e.location.tiles[a].unit is Some);
                            }
                        },
                        EngineValidationError::UnlinkedUnitInfo(id) => {
                            assert(e.unit_info.contains_key(id));
                        },
                        _ => {},
                    }
                }
                return false;
            },
        }
        if !self.check_unit_records() {
            proof {
                if units_booked(e) {
                    assert(records_fit(e));
                }
            }
            return false;
        }
        proof {
            assert(units_booked(e)) by {
                assert forall|i: int|
                    0 <= i < e.location.tiles.len() && (#[trigger] e.location.tiles[i]).unit
                        is Some implies {
                    let unit = e.location.tiles[i].unit->0;
                    &&& e.unit_info.contains_key(unit.id)
                    &&& record_of(e.unit_info[unit.id], unit)
                    &&& unit.id <= e.last_id
                } by {
                    assert(!unrecorded(e, i));
                }
                assert forall|i: int, j: int|
                    0 <= i < j < e.location.tiles.len() && (#[trigger] e.location.tiles[i]).unit
                        is Some && (#[trigger] e.location.tiles[j]).unit is Some implies e.location.tiles[i].unit->0.id
                    != e.location.tiles[j].unit->0.id by {
                    assert(!unrecorded(e, j));
                    if e.location.tiles[i].unit->0.id == e.location.tiles[j].unit->0.id {
                        assert(unit_twice(e.location.tiles, i, j));
                    }
                }
            }
        }
        if !self.check_caches() {
            return false;
        }
        self.check_enrolment()
    }
}

impl GameEngine {
    /// Carries out the action of a player as `act` does, if the engine has
    /// room to act. An engine without room is left as it is, and nothing is
    /// handed back. Whatever happened, the engine is in order afterwards and
    /// its location meets the rules of the game.
    pub fn try_act(&mut self, player_id: ID, action: PlayerAction) -> (res: Option<
        Result<(), PlayerActionError>,
    >)
        requires
            old(self).wf(),
        ensures
            final(self).wf(),
            lawful(final(self)@.location),
            match res {
                None => !roomy(old(self)@) && *final(self) == *old(self),
                Some(Err(error)) => roomy(old(self)@) && act_error(old(self)@, player_id, action)
                    == Some(error) && *final(self) == *old(self),
                Some(Ok(())) => roomy(old(self)@) && act_error(old(self)@, player_id, action)
                    is None && acted(old(self)@, final(self)@, player_id, action),
            },
    {
        if !self.has_room() {
            return None;
        }
        Some(self.act(player_id, action))
    }
}

impl GameEngine {
    /// Repairs the engine as `repair` does, if it can be repaired, and says
    /// whether it was. An engine that cannot be repaired is left as it is.
    pub fn try_repair(&mut self) -> (done: bool)
        requires
            old(self).based(),
            old(self)@.location.wf(),
        ensures
            final(self).based(),
            done == repairable(old(self)@),
            done ==> final(self)@ == repaired(old(self)@) && repairable(final(self)@),
            !done ==> *final(self) == *old(self),
    {
        if !self.can_repair() {
            return false;
        }
        self.repair();
        true
    }
}

} // verus!
