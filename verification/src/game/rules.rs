//! The rules that a location and its players have to meet.

use vstd::prelude::*;
use super::consts::{MIN_CONTROLLED_REGION_SIZE, MIN_LOCATION_LAND_COVERAGE_PCT};
use super::coord::Coord;
use super::ids::ID;
use super::layout::{capital_mask, count_set, lemma_count_set_bound, LocationView};
use super::location::{unsound, Location, LocationValidationError};
use super::tile::{Player, Tile};
use super::walk::{distance_is, lemma_reach_back, lemma_reach_join, reach};

verus! {

#[derive(Copy, Clone, PartialEq, Eq, Hash, Debug)]
pub enum LocationRulesValidationError {
    NoLand,
    InsufficientLand(u8),
    UnconnectedLand,
    NotCoveredWithRegions(Coord),
    InitiationError(LocationValidationError),
    MisplacedUnit(Coord),
    RegionContainsWater(ID),
    ActiveRegionWithoutCapital(ID),
    MultiplyCapitals(ID),
}

impl From<LocationValidationError> for LocationRulesValidationError {
    fn from(e: LocationValidationError) -> (error: Self) {
        LocationRulesValidationError::InitiationError(e)
    }
}

impl vstd::std_specs::convert::FromSpecImpl<LocationValidationError> for LocationRulesValidationError {
    open spec fn obeys_from_spec() -> bool {
        true
    }

    open spec fn from_spec(e: LocationValidationError) -> Self {
        LocationRulesValidationError::InitiationError(e)
    }
}

/// For each tile, whether it is land.
pub open spec fn land_mask(tiles: Seq<Tile>) -> Seq<bool> {
    Seq::new(tiles.len(), |i: int| tiles[i].surface is Land)
}

/// Land belongs to a region and water to none.
pub open spec fn covered_at(v: LocationView, i: int) -> bool {
    v.region_of[i] is Some <==> v.tiles[i].surface is Land
}

pub open spec fn covered(v: LocationView) -> bool {
    forall|i: int| 0 <= i < v.size() ==> #[trigger] covered_at(v, i)
}

pub open spec fn is_land(tiles: Seq<Tile>, i: int) -> bool {
    0 <= i < tiles.len() && tiles[i].surface is Land
}

pub open spec fn has_land(tiles: Seq<Tile>) -> bool {
    exists|i: int| #[trigger] is_land(tiles, i)
}

/// From every land tile every other can be reached over land.
pub open spec fn land_connected(cells: Seq<Coord>, tiles: Seq<Tile>) -> bool {
    forall|a: int, b: int|
        is_land(tiles, a) && is_land(tiles, b) ==> #[trigger] reach(cells, land_mask(tiles), a, b)
}

/// The share of land in the map, in percent, rounded down.
pub open spec fn land_percent(tiles: Seq<Tile>) -> int {
    count_set(land_mask(tiles), tiles.len() as int) * 100 / (tiles.len() as int)
}

/// A unit stands on water.
pub open spec fn misplaced(tiles: Seq<Tile>, i: int) -> bool {
    0 <= i < tiles.len() && tiles[i].unit is Some && tiles[i].surface is Water
}

/// The region is large enough to need a capital, and has none or several.
pub open spec fn miscrowned(v: LocationView, id: ID) -> bool {
    v.region_size(id) >= MIN_CONTROLLED_REGION_SIZE && v.capital_count(id) != 1
}

pub open spec fn crowned(v: LocationView) -> bool {
    forall|h: int| 0 <= h < v.regions.len() ==> !miscrowned(v, (#[trigger] v.regions[h]).id)
}

/// The ground of the location is in order: there is land, it is in one
/// piece, and it is at least the required share of the map.
pub open spec fn grounded(cells: Seq<Coord>, tiles: Seq<Tile>) -> bool {
    &&& has_land(tiles)
    &&& land_connected(cells, tiles)
    &&& land_percent(tiles) >= MIN_LOCATION_LAND_COVERAGE_PCT
}

/// The location meets the rules of the game: it is sound, its regions cover
/// the land and nothing else, the land is in one piece and large enough, no
/// unit stands on water, and every region of two tiles or more has exactly
/// one capital.
pub open spec fn lawful(v: LocationView) -> bool {
    &&& v.valid()
    &&& covered(v)
    &&& grounded(v.cells, v.tiles)
    &&& forall|i: int| !#[trigger] misplaced(v.tiles, i)
    &&& crowned(v)
}

/// The ground depends on the surfaces only: units may come and go.
pub proof fn lemma_ground_kept(cells: Seq<Coord>, before: Seq<Tile>, after: Seq<Tile>)
    requires
        before.len() == after.len(),
        forall|i: int| 0 <= i < before.len() ==> (#[trigger] before[i]).surface == after[i].surface,
        grounded(cells, before),
    ensures
        grounded(cells, after),
        land_mask(before) == land_mask(after),
{
    assert(land_mask(before) =~= land_mask(after)) by {
        assert forall|i: int| 0 <= i < before.len() implies land_mask(before)[i] == land_mask(
            after,
        )[i] by {
            assert(before[i].surface == after[i].surface);
        }
    }
    let i = choose|i: int| #[trigger] is_land(before, i);
    assert(before[i].surface == after[i].surface);
    assert(is_land(after, i));
    assert forall|a: int, b: int| is_land(after, a) && is_land(after, b) implies #[trigger] reach(
        cells,
        land_mask(after),
        a,
        b,
    ) by {
        assert(before[a].surface == after[a].surface);
        assert(before[b].surface == after[b].surface);
        assert(is_land(before, a) && is_land(before, b));
        assert(reach(cells, land_mask(before), a, b));
    }
}

/// The number of villages in region `id`.
pub fn capital_count(location: &Location, id: ID) -> (count: usize)
    requires
        location.base(),
    ensures
        count == location@.capital_count(id),
{
    let n = location.size();
    let mut count: usize = 0;
    let mut i: usize = 0;
    while i < n
        invariant
            location.base(),
            n == location@.size(),
            i <= n,
            count <= i,
            count == count_set(capital_mask(location@.region_of, location@.tiles, id), i as int),
        decreases n - i,
    {
        let inside = match location.region_id_at_index(i) {
            Some(r) => r == id,
            None => false,
        };
        if inside {
            let tile = location.tile_at_index(i);
            let village = match tile.unit {
                Some(unit) => match unit.unit_type {
                    super::tile::UnitType::Village => true,
                    _ => false,
                },
                None => false,
            };
            if village {
                count += 1;
            }
        }
        i += 1;
    }
    count
}

/// For each tile, whether it is land.
fn land_cells(location: &Location) -> (mask: Vec<bool>)
    requires
        location.base(),
    ensures
        mask@ == land_mask(location@.tiles),
{
    let n = location.size();
    let mut mask: Vec<bool> = Vec::new();
    let mut i: usize = 0;
    while i < n
        invariant
            location.base(),
            n == location@.size(),
            i <= n,
            mask@.len() == i,
            forall|j: int| 0 <= j < i ==> mask@[j] == (location@.tiles[j].surface is Land),
        decreases n - i,
    {
        mask.push(location.tile_at_index(i).surface().is_land());
        i += 1;
    }
    assert(mask@ =~= land_mask(location@.tiles));
    mask
}

/// Checks the part of the rules that is about the ground: some tile is land
/// (`NoLand`), the land is in one piece (`UnconnectedLand`), and it is a
/// large enough share of the map (`InsufficientLand`, with the share).
fn validate_ground(location: &Location) -> (res: Result<(), LocationRulesValidationError>)
    requires
        location.base(),
    ensures
        match res {
            Ok(()) => grounded(location@.cells, location@.tiles),
            Err(LocationRulesValidationError::NoLand) => !has_land(location@.tiles),
            Err(LocationRulesValidationError::UnconnectedLand) => has_land(location@.tiles)
                && !land_connected(location@.cells, location@.tiles),
            Err(LocationRulesValidationError::InsufficientLand(share)) => has_land(
                location@.tiles,
            ) && land_connected(location@.cells, location@.tiles) && share == land_percent(
                location@.tiles,
            ) && share < MIN_LOCATION_LAND_COVERAGE_PCT,
            Err(_) => false,
        },
{
    let n = location.size();
    let ghost cells = location@.cells;
    let ghost tiles = location@.tiles;
    let mask = land_cells(location);
    let mut first: usize = 0;
    while first < n && !mask[first]
        invariant
            n == mask@.len(),
            first <= n,
            forall|j: int| 0 <= j < first ==> !mask@[j],
        decreases n - first,
    {
        first += 1;
    }
    if first == n {
        proof {
            if has_land(tiles) {
                let i = choose|i: int| #[trigger] is_land(tiles, i);
                assert(mask@[i]);
            }
        }
        return Err(LocationRulesValidationError::NoLand);
    }
    assert(is_land(tiles, first as int));
    let dist = location.spread(first, &mask);
    let mut count: usize = 0;
    let mut i: usize = 0;
    while i < n
        invariant
            location.base(),
            n == location@.size(),
            cells == location@.cells,
            tiles == location@.tiles,
            mask@ == land_mask(tiles),
            dist@.len() == n,
            first < n,
            is_land(tiles, first as int),
            i <= n,
            count <= i,
            count == count_set(mask@, i as int),
            forall|j: int|
                0 <= j < n ==> match #[trigger] dist@[j] {
                    Some(d) => d < n && distance_is(cells, mask@, first as int, j, d as nat),
                    None => !reach(cells, mask@, first as int, j),
                },
            forall|j: int| 0 <= j < i && mask@[j] ==> dist@[j] is Some,
        decreases n - i,
    {
        if mask[i] {
            if dist[i].is_none() {
                proof {
                    assert(is_land(tiles, i as int));
                    assert(!reach(cells, land_mask(tiles), first as int, i as int));
                }
                return Err(LocationRulesValidationError::UnconnectedLand);
            }
            count += 1;
        }
        i += 1;
    }
    proof {
        assert forall|a: int, b: int| is_land(tiles, a) && is_land(tiles, b) implies #[trigger] reach(
            cells,
            land_mask(tiles),
            a,
            b,
        ) by {
            assert(mask@[a] && mask@[b]);
            assert(dist@[a] is Some && dist@[b] is Some);
            assert(reach(cells, mask@, first as int, a));
            assert(reach(cells, mask@, first as int, b));
            lemma_reach_back(cells, mask@, first as int, a);
            lemma_reach_join(cells, mask@, a, first as int, b);
        }
        lemma_count_set_bound(mask@, n as int);
    }
    let share: u64 = (count as u64) * 100 / (n as u64);
    assert(share == land_percent(tiles));
    assert(share <= 100) by (nonlinear_arith)
        requires
            share == (count as int) * 100 / (n as int),
            0 <= count <= n,
            n > 0,
    ;
    if share < MIN_LOCATION_LAND_COVERAGE_PCT as u64 {
        return Err(LocationRulesValidationError::InsufficientLand(share as u8));
    }
    Ok(())
}

/// The first regions of the list up to `upto` are none of them miscrowned.
pub open spec fn crowned_upto(v: LocationView, upto: int) -> bool {
    forall|h: int| 0 <= h < upto ==> !miscrowned(v, (#[trigger] v.regions[h]).id)
}

/// What is wrong with a location, as the error says it. A flaw of the
/// regions themselves comes first. Then come, each only if nothing before it
/// is wrong: land without a region, or a region on water, whichever the map
/// meets first; no land at all; land in several pieces; too little land;
/// the first unit on water; and the first region on the list that is large
/// enough for a capital and has none, or several.
pub open spec fn location_fault(v: LocationView, error: LocationRulesValidationError) -> bool {
    match error {
        LocationRulesValidationError::InitiationError(e) => !v.valid()
            && unsound(v, e),
        LocationRulesValidationError::NotCoveredWithRegions(c) => v.valid()
            && exists|i: int|
            0 <= i < v.size() && #[trigger] v.cells[i] == c
                && v.tiles[i].surface is Land && v.region_of[i] is None
                && forall|j: int| 0 <= j < i ==> #[trigger] covered_at(v, j),
        LocationRulesValidationError::RegionContainsWater(id) => v.valid()
            && exists|i: int|
            0 <= i < v.size() && #[trigger] v.region_of[i] == Some(id)
                && v.tiles[i].surface is Water && forall|j: int|
                0 <= j < i ==> #[trigger] covered_at(v, j),
        LocationRulesValidationError::NoLand => v.valid() && covered(v)
            && !has_land(v.tiles),
        LocationRulesValidationError::UnconnectedLand => v.valid() && covered(
            v,
        ) && has_land(v.tiles) && !land_connected(v.cells, v.tiles),
        LocationRulesValidationError::InsufficientLand(share) => v.valid()
            && covered(v) && has_land(v.tiles) && land_connected(
            v.cells,
            v.tiles,
        ) && share == land_percent(v.tiles) && share
            < MIN_LOCATION_LAND_COVERAGE_PCT,
        LocationRulesValidationError::MisplacedUnit(c) => v.valid() && covered(
            v,
        ) && grounded(v.cells, v.tiles) && exists|i: int|
            #[trigger] misplaced(v.tiles, i) && v.cells[i] == c && forall|
                j: int,
            | 0 <= j < i ==> !#[trigger] misplaced(v.tiles, j),
        LocationRulesValidationError::ActiveRegionWithoutCapital(id) => v.valid()
            && covered(v) && grounded(v.cells, v.tiles) && (forall|
            i: int,
        | !#[trigger] misplaced(v.tiles, i)) && exists|h: int|
            0 <= h < v.regions.len() && (#[trigger] v.regions[h]).id == id
                && v.region_size(id) >= MIN_CONTROLLED_REGION_SIZE
                && v.capital_count(id) == 0 && crowned_upto(v, h),
        LocationRulesValidationError::MultiplyCapitals(id) => v.valid()
            && covered(v) && grounded(v.cells, v.tiles) && (forall|
            i: int,
        | !#[trigger] misplaced(v.tiles, i)) && exists|h: int|
            0 <= h < v.regions.len() && (#[trigger] v.regions[h]).id == id
                && v.region_size(id) >= MIN_CONTROLLED_REGION_SIZE
                && v.capital_count(id) > 1 && crowned_upto(v, h),
    }
}

/// Checks that a location meets the rules of the game.
///
/// The checks come in this order, and the first that fails is reported:
/// soundness, as `Location::validate` reports it; regions that cover the
/// land and no water, with the first tile in the order of the map that is
/// land without a region or water with one; the ground, as `NoLand`,
/// `UnconnectedLand` or `InsufficientLand` with the share of land in
/// percent; units on water, with the first such tile; capitals, with the
/// first region in the order of the list that has two tiles or more and not
/// exactly one village.
pub fn validate_location(location: &Location) -> (res: Result<(), LocationRulesValidationError>)
    requires
        location.wf(),
    ensures
        res is Err ==> !lawful(location@),
        match res {
            Ok(()) => lawful(location@),
            Err(error) => location_fault(location@, error),
        },
{
    match Location::validate(location) {
        Ok(()) => {},
        Err(e) => {
            return Err(LocationRulesValidationError::InitiationError(e));
        },
    }
    let n = location.size();
    let mut i: usize = 0;
    while i < n
        invariant
            location.wf(),
            location@.valid(),
            n == location@.size(),
            i <= n,
            forall|j: int| 0 <= j < i ==> #[trigger] covered_at(location@, j),
        decreases n - i,
    {
        let land = location.tile_at_index(i).surface().is_land();
        match location.region_id_at_index(i) {
            None => {
                if land {
                    let c = location.coordinate_at(i);
                    assert(location@.cells[i as int] == c);
                    assert(!covered_at(location@, i as int));
                    return Err(LocationRulesValidationError::NotCoveredWithRegions(c));
                }
            },
            Some(id) => {
                if !land {
                    assert(location@.region_of[i as int] == Some(id));
                    assert(!covered_at(location@, i as int));
                    return Err(LocationRulesValidationError::RegionContainsWater(id));
                }
            },
        }
        i += 1;
    }
    assert(covered(location@));
    match validate_ground(location) {
        Ok(()) => {},
        Err(e) => {
            return Err(e);
        },
    }
    i = 0;
    while i < n
        invariant
            location.wf(),
            location@.valid(),
            covered(location@),
            grounded(location@.cells, location@.tiles),
            n == location@.size(),
            i <= n,
            forall|j: int| 0 <= j < i ==> !#[trigger] misplaced(location@.tiles, j),
        decreases n - i,
    {
        let tile = location.tile_at_index(i);
        if tile.unit.is_some() && tile.surface().is_water() {
            let c = location.coordinate_at(i);
            assert(misplaced(location@.tiles, i as int));
            return Err(LocationRulesValidationError::MisplacedUnit(c));
        }
        i += 1;
    }
    assert forall|j: int| !#[trigger] misplaced(location@.tiles, j) by {
        if misplaced(location@.tiles, j) {
            assert(0 <= j < n);
        }
    }
    let headers = location.region_headers();
    let mut h: usize = 0;
    while h < headers.len()
        invariant
            location.wf(),
            location@.valid(),
            covered(location@),
            grounded(location@.cells, location@.tiles),
            forall|j: int| !#[trigger] misplaced(location@.tiles, j),
            headers@ == location@.regions,
            h <= headers@.len(),
            crowned_upto(location@, h as int),
        decreases headers@.len() - h,
    {
        let id = headers[h].id;
        if location.region_size(id) >= MIN_CONTROLLED_REGION_SIZE {
            let capitals = capital_count(location, id);
            if capitals == 0 {
                assert(location@.regions[h as int].id == id);
                assert(miscrowned(location@, location@.regions[h as int].id));
                return Err(LocationRulesValidationError::ActiveRegionWithoutCapital(id));
            } else if capitals > 1 {
                assert(location@.regions[h as int].id == id);
                assert(miscrowned(location@, location@.regions[h as int].id));
                return Err(LocationRulesValidationError::MultiplyCapitals(id));
            }
        }
        h += 1;
    }
    Ok(())
}

#[derive(Copy, Clone, PartialEq, Eq, Hash, Debug)]
pub enum RegionsValidationError {
    NoActiveRegions(ID),
    UnlistedPlayer(ID),
}

/// A unit stands on a tile of the region.
pub open spec fn hosts_unit(v: LocationView, id: ID) -> bool {
    exists|i: int| #[trigger] v.in_region(i, id) && v.tiles[i].unit is Some
}

/// The region keeps its owner in the game: it has two tiles or more, or a
/// unit stands on it.
pub open spec fn region_counts(v: LocationView, id: ID) -> bool {
    v.region_size(id) >= MIN_CONTROLLED_REGION_SIZE || hosts_unit(v, id)
}

/// Region `h` of the list belongs to the player.
pub open spec fn owned_by(v: LocationView, h: int, player: ID) -> bool {
    0 <= h < v.regions.len() && v.regions[h].owner.id == player
}

pub open spec fn owns_region(v: LocationView, player: ID) -> bool {
    exists|h: int| #[trigger] owned_by(v, h, player)
}

/// The player owns a region that keeps him in the game.
pub open spec fn holds_ground(v: LocationView, player: ID) -> bool {
    exists|h: int| #[trigger] owned_by(v, h, player) && region_counts(v, v.regions[h].id)
}

pub open spec fn among_players(players: Seq<Player>, player: ID) -> bool {
    exists|p: int| 0 <= p < players.len() && (#[trigger] players[p]).id == player
}

/// What is wrong with the owner of region `h`, if anything: he is listed as
/// active and holds no ground, or he holds ground and is not listed.
pub open spec fn owner_fault(v: LocationView, players: Seq<Player>, h: int) -> Option<
    RegionsValidationError,
> {
    let owner = v.regions[h].owner.id;
    if !holds_ground(v, owner) && among_players(players, owner) {
        Some(RegionsValidationError::NoActiveRegions(owner))
    } else if holds_ground(v, owner) && !among_players(players, owner) {
        Some(RegionsValidationError::UnlistedPlayer(owner))
    } else {
        None
    }
}

/// The players listed as active are those who hold ground: each of them owns
/// a region that counts, and nobody else does.
pub open spec fn players_agree(v: LocationView, players: Seq<Player>) -> bool {
    &&& forall|p: int| 0 <= p < players.len() ==> holds_ground(v, (#[trigger] players[p]).id)
    &&& forall|h: int|
        0 <= h < v.regions.len() && holds_ground(v, (#[trigger] v.regions[h]).owner.id)
            ==> among_players(players, v.regions[h].owner.id)
}

/// Whether a unit stands on a tile of the region.
pub fn region_hosts_unit(location: &Location, id: ID) -> (hosts: bool)
    requires
        location.base(),
    ensures
        hosts == hosts_unit(location@, id),
{
    let n = location.size();
    let mut i: usize = 0;
    while i < n
        invariant
            location.base(),
            n == location@.size(),
            i <= n,
            forall|j: int|
                0 <= j < i ==> !(#[trigger] location@.in_region(j, id)
                    && location@.tiles[j].unit is Some),
        decreases n - i,
    {
        let inside = match location.region_id_at_index(i) {
            Some(r) => r == id,
            None => false,
        };
        if inside && location.tile_at_index(i).unit.is_some() {
            assert(location@.in_region(i as int, id));
            return true;
        }
        i += 1;
    }
    false
}

/// Whether the player owns a region that keeps him in the game.
pub fn player_holds_ground(location: &Location, player: ID) -> (holds: bool)
    requires
        location.base(),
    ensures
        holds == holds_ground(location@, player),
{
    let headers = location.region_headers();
    let mut h: usize = 0;
    while h < headers.len()
        invariant
            location.base(),
            headers@ == location@.regions,
            h <= headers@.len(),
            forall|g: int|
                0 <= g < h ==> !(#[trigger] owned_by(location@, g, player) && region_counts(
                    location@,
                    location@.regions[g].id,
                )),
        decreases headers@.len() - h,
    {
        if headers[h].owner.id == player {
            let id = headers[h].id;
            if location.region_size(id) >= MIN_CONTROLLED_REGION_SIZE || region_hosts_unit(
                location,
                id,
            ) {
                assert(owned_by(location@, h as int, player));
                return true;
            }
        }
        h += 1;
    }
    false
}

fn player_listed(players: &[Player], player: ID) -> (found: bool)
    ensures
        found == among_players(players@, player),
{
    let mut p: usize = 0;
    while p < players.len()
        invariant
            p <= players@.len(),
            forall|q: int| 0 <= q < p ==> (#[trigger] players@[q]).id != player,
        decreases players@.len() - p,
    {
        if players[p].id == player {
            return true;
        }
        p += 1;
    }
    false
}

/// What is wrong between the players and the regions, as the error says it:
/// the first player on the list who owns no region; or, if every one of them
/// owns one, the fault of the owner of the first region on the list whose
/// owner is at fault.
pub open spec fn regions_fault(
    v: LocationView,
    players: Seq<Player>,
    e: RegionsValidationError,
) -> bool {
    ||| exists|p: int|
        0 <= p < players.len() && !owns_region(
            v,
            (#[trigger] players[p]).id,
        ) && e == RegionsValidationError::NoActiveRegions(players[p].id)
            && forall|q: int|
            0 <= q < p ==> owns_region(v, (#[trigger] players[q]).id)
    ||| (forall|p: int|
        0 <= p < players.len() ==> owns_region(
            v,
            (#[trigger] players[p]).id,
        )) && exists|h: int|
        0 <= h < v.regions.len() && #[trigger] owner_fault(
            v,
            players,
            h,
        ) == Some(e) && forall|g: int|
            0 <= g < h ==> #[trigger] owner_fault(v, players, g)
                is None
}

/// Checks that the players listed as active are those who hold ground.
///
/// The first listed player who owns no region at all is reported as without
/// active regions. Failing that, the first region in the order of the list
/// whose owner is at fault is reported: an owner who is listed and holds no
/// ground as without active regions, one who holds ground and is not listed
/// as unlisted.
pub fn validate_regions(location: &Location, active_players: &[Player]) -> (res: Result<
    (),
    RegionsValidationError,
>)
    requires
        location.base(),
    ensures
        match res {
            Ok(()) => players_agree(location@, active_players@),
            Err(e) => regions_fault(location@, active_players@, e),
        },
        res is Err ==> !players_agree(location@, active_players@),
{
    let headers = location.region_headers();
    let mut p: usize = 0;
    while p < active_players.len()
        invariant
            location.base(),
            headers@ == location@.regions,
            p <= active_players@.len(),
            forall|q: int|
                0 <= q < p ==> owns_region(location@, (#[trigger] active_players@[q]).id),
        decreases active_players@.len() - p,
    {
        let player = active_players[p].id;
        let mut h: usize = 0;
        let mut owns = false;
        while h < headers.len()
            invariant
                headers@ == location@.regions,
                h <= headers@.len(),
                owns ==> owns_region(location@, player),
                !owns ==> forall|g: int| 0 <= g < h ==> !#[trigger] owned_by(location@, g, player),
            decreases headers@.len() - h,
        {
            if headers[h].owner.id == player {
                owns = true;
                assert(owned_by(location@, h as int, player));
            }
            h += 1;
        }
        if !owns {
            proof {
                assert(!owns_region(location@, player));
                assert(!holds_ground(location@, active_players@[p as int].id));
            }
            return Err(RegionsValidationError::NoActiveRegions(player));
        }
        p += 1;
    }
    let mut h: usize = 0;
    while h < headers.len()
        invariant
            location.base(),
            headers@ == location@.regions,
            h <= headers@.len(),
            forall|q: int|
                0 <= q < active_players@.len() ==> owns_region(
                    location@,
                    (#[trigger] active_players@[q]).id,
                ),
            forall|g: int|
                0 <= g < h ==> #[trigger] owner_fault(location@, active_players@, g) is None,
        decreases headers@.len() - h,
    {
        let owner = headers[h].owner.id;
        let holds = player_holds_ground(location, owner);
        let is_listed = player_listed(active_players, owner);
        if !holds && is_listed {
            proof {
                let q = choose|q: int|
                    0 <= q < active_players@.len() && (#[trigger] active_players@[q]).id == owner;
                assert(!holds_ground(location@, active_players@[q].id));
                assert(owner_fault(location@, active_players@, h as int) == Some(
                    RegionsValidationError::NoActiveRegions(owner),
                ));
            }
            return Err(RegionsValidationError::NoActiveRegions(owner));
        } else if holds && !is_listed {
            proof {
                assert(location@.regions[h as int].owner.id == owner);
                assert(owner_fault(location@, active_players@, h as int) == Some(
                    RegionsValidationError::UnlistedPlayer(owner),
                ));
            }
            return Err(RegionsValidationError::UnlistedPlayer(owner));
        }
        assert(owner_fault(location@, active_players@, h as int) is None);
        h += 1;
    }
    proof {
        assert forall|q: int| 0 <= q < active_players@.len() implies holds_ground(
            location@,
            (#[trigger] active_players@[q]).id,
        ) by {
            let player = active_players@[q].id;
            assert(owns_region(location@, player));
            let g = choose|g: int| #[trigger] owned_by(location@, g, player);
            assert(owner_fault(location@, active_players@, g) is None);
            assert(among_players(active_players@, player));
        }
        assert forall|g: int|
            0 <= g < location@.regions.len() && holds_ground(
                location@,
                (#[trigger] location@.regions[g]).owner.id,
            ) implies among_players(active_players@, location@.regions[g].owner.id) by {
            assert(owner_fault(location@, active_players@, g) is None);
        }
    }
    Ok(())
}

} // verus!
