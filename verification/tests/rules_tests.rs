use yasc::game::TileSurface::{Land, Water};
use yasc::game::{
    validate_location, validate_regions, Coord, CoordSet, EngineValidationError, Location,
    LocationModificationError, LocationRulesValidationError, LocationValidationError, Player,
    PlayerActionError, Region, RegionsValidationError, Tile, TileMap, TileSurface, Unit, UnitType,
};

fn rules_map(surfaces: [TileSurface; 7]) -> TileMap {
    let mut map = TileMap::new();
    map.insert(Coord::new(0, 1), Tile::new(1, surfaces[0]));
    map.insert(Coord::new(1, 0), Tile::new(2, surfaces[1]));
    map.insert(Coord::new(-1, 1), Tile::new(3, surfaces[2]));
    map.insert(Coord::new(0, 0), Tile::new(4, surfaces[3]));
    map.insert(Coord::new(1, -1), Tile::new(5, surfaces[4]));
    map.insert(Coord::new(-1, 0), Tile::new(6, surfaces[5]));
    map.insert(Coord::new(0, -1), Tile::new(7, surfaces[6]));
    map
}

fn cells(list: &[(i32, i32)]) -> CoordSet {
    let mut set = CoordSet::new();
    for &(x, y) in list {
        set.insert(Coord::new(x, y));
    }
    set
}

#[test]
fn validate_location_no_errors() {
    let map = rules_map([Water, Water, Land, Land, Land, Water, Land]);

    let region_one = Region::new(11, Player::new(21), cells(&[(-1, 1), (0, 0)]));
    let region_two = Region::new(12, Player::new(22), cells(&[(1, -1), (0, -1)]));
    let mut location = Location::new(map, vec![region_one, region_two]).unwrap();
    location
        .place_unit(Unit::new(31, UnitType::Soldier), Coord::new(0, 0))
        .unwrap();
    location
        .place_unit(Unit::new(33, UnitType::Village), Coord::new(-1, 1))
        .unwrap();
    location
        .place_unit(Unit::new(32, UnitType::Tower), Coord::new(0, -1))
        .unwrap();
    location
        .place_unit(Unit::new(34, UnitType::Village), Coord::new(1, -1))
        .unwrap();

    let res = validate_location(&location);

    assert_eq!(res, Ok(()));
}

#[test]
fn validate_location_no_capital() {
    let map = rules_map([Water, Water, Land, Land, Land, Water, Land]);

    let region_one = Region::new(11, Player::new(21), cells(&[(-1, 1), (0, 0)]));
    let region_two = Region::new(12, Player::new(22), cells(&[(1, -1), (0, -1)]));
    let mut location = Location::new(map, vec![region_one, region_two]).unwrap();
    location
        .place_unit(Unit::new(31, UnitType::Soldier), Coord::new(0, 0))
        .unwrap();
    location
        .place_unit(Unit::new(32, UnitType::Tower), Coord::new(0, -1))
        .unwrap();
    location
        .place_unit(Unit::new(34, UnitType::Village), Coord::new(1, -1))
        .unwrap();

    let res = validate_location(&location);

    assert_eq!(
        res,
        Err(LocationRulesValidationError::ActiveRegionWithoutCapital(11))
    );
}

#[test]
fn validate_location_two_capitals() {
    let map = rules_map([Water, Water, Land, Land, Land, Water, Land]);

    let region_one = Region::new(11, Player::new(21), cells(&[(-1, 1), (0, 0)]));
    let region_two = Region::new(12, Player::new(22), cells(&[(1, -1), (0, -1)]));
    let mut location = Location::new(map, vec![region_one, region_two]).unwrap();
    location
        .place_unit(Unit::new(31, UnitType::Soldier), Coord::new(0, 0))
        .unwrap();
    location
        .place_unit(Unit::new(33, UnitType::Village), Coord::new(-1, 1))
        .unwrap();
    location
        .place_unit(Unit::new(32, UnitType::Village), Coord::new(0, -1))
        .unwrap();
    location
        .place_unit(Unit::new(34, UnitType::Village), Coord::new(1, -1))
        .unwrap();

    let res = validate_location(&location);

    assert_eq!(res, Err(LocationRulesValidationError::MultiplyCapitals(12)));
}

#[test]
fn validate_location_no_land() {
    let map = rules_map([Water, Water, Water, Water, Water, Water, Water]);
    let location = Location::new(map, Vec::new()).unwrap();
    let res = validate_location(&location);

    assert_eq!(res, Err(LocationRulesValidationError::NoLand));
}

#[test]
fn validate_location_unconnected_land() {
    let map = rules_map([Land, Water, Land, Water, Land, Water, Land]);

    let region_one = Region::new(11, Player::new(21), cells(&[(-1, 1), (0, 1)]));
    let region_two = Region::new(12, Player::new(22), cells(&[(1, -1), (0, -1)]));
    let mut location = Location::new(map, vec![region_one, region_two]).unwrap();
    location
        .place_unit(Unit::new(31, UnitType::Soldier), Coord::new(0, 1))
        .unwrap();
    location
        .place_unit(Unit::new(32, UnitType::Tower), Coord::new(0, -1))
        .unwrap();

    let res = validate_location(&location);

    assert_eq!(res, Err(LocationRulesValidationError::UnconnectedLand));
}

#[test]
fn validate_location_not_covered_with_region() {
    let map = rules_map([Land, Water, Land, Land, Land, Water, Land]);

    let region_one = Region::new(11, Player::new(21), cells(&[(-1, 1), (0, 1)]));
    let region_two = Region::new(12, Player::new(22), cells(&[(1, -1), (0, -1)]));
    let mut location = Location::new(map, vec![region_one, region_two]).unwrap();
    location
        .place_unit(Unit::new(31, UnitType::Soldier), Coord::new(0, 1))
        .unwrap();
    location
        .place_unit(Unit::new(32, UnitType::Tower), Coord::new(0, -1))
        .unwrap();

    let res = validate_location(&location);

    assert_eq!(
        res,
        Err(LocationRulesValidationError::NotCoveredWithRegions(
            Coord::new(0, 0)
        ))
    );
}

#[test]
fn validate_location_misplaced_unit() {
    let map = rules_map([Water, Water, Land, Land, Land, Water, Land]);

    let region_one = Region::new(11, Player::new(21), cells(&[(-1, 1), (0, 0)]));
    let region_two = Region::new(12, Player::new(22), cells(&[(1, -1), (0, -1)]));

    let mut location = Location::new(map, vec![region_one, region_two]).unwrap();
    location
        .place_unit(Unit::new(31, UnitType::Soldier), Coord::new(0, 1))
        .unwrap();
    location
        .place_unit(Unit::new(32, UnitType::Tower), Coord::new(0, -1))
        .unwrap();

    let res = validate_location(&location);

    assert_eq!(
        res,
        Err(LocationRulesValidationError::MisplacedUnit(Coord::new(
            0, 1
        )))
    );
}

#[test]
fn validate_location_insufficient_land() {
    let map = rules_map([Water, Water, Land, Land, Land, Water, Water]);

    let region_one = Region::new(11, Player::new(21), cells(&[(-1, 1), (0, 0)]));
    let region_two = Region::new(12, Player::new(22), cells(&[(1, -1)]));

    let mut location = Location::new(map, vec![region_one, region_two]).unwrap();
    location
        .place_unit(Unit::new(31, UnitType::Soldier), Coord::new(0, 0))
        .unwrap();
    location
        .place_unit(Unit::new(32, UnitType::Tower), Coord::new(0, -1))
        .unwrap();

    let res = validate_location(&location);

    assert_eq!(res, Err(LocationRulesValidationError::InsufficientLand(42)));
}

#[test]
fn validate_location_region_contains_water() {
    let map = rules_map([Water, Water, Land, Land, Land, Water, Land]);

    let region_one = Region::new(11, Player::new(21), cells(&[(0, 1), (-1, 1), (0, 0)]));
    let region_two = Region::new(12, Player::new(22), cells(&[(1, -1), (0, -1)]));
    let mut location = Location::new(map, vec![region_one, region_two]).unwrap();
    location
        .place_unit(Unit::new(31, UnitType::Soldier), Coord::new(0, 0))
        .unwrap();
    location
        .place_unit(Unit::new(32, UnitType::Tower), Coord::new(0, -1))
        .unwrap();
    let res = validate_location(&location);

    assert_eq!(
        res,
        Err(LocationRulesValidationError::RegionContainsWater(11))
    );
}

#[test]
fn validate_region() {
    let map = rules_map([Water, Water, Land, Land, Land, Water, Land]);

    let player_one = Player::new(21);
    let region_one = Region::new(11, player_one, cells(&[(-1, 1), (0, 0)]));

    let player_two = Player::new(22);
    let region_two = Region::new(12, player_two, cells(&[(1, -1), (0, -1)]));
    let location = Location::new(map, vec![region_one, region_two]).unwrap();

    let players = [player_one, player_two];
    let res = validate_regions(&location, &players);

    assert!(res.is_ok());
}

#[test]
fn validate_regions_error_small_region() {
    let map = rules_map([Water, Water, Land, Land, Land, Water, Land]);

    let player_one = Player::new(21);
    let region_one = Region::new(11, player_one, cells(&[(-1, 1), (0, 0)]));

    let player_two = Player::new(22);
    let region_two = Region::new(12, player_two, cells(&[(1, -1)]));
    let location = Location::new(map, vec![region_one, region_two]).unwrap();

    let players = [player_one, player_two];
    let res = validate_regions(&location, &players);

    assert_eq!(
        res,
        Err(RegionsValidationError::NoActiveRegions(player_two.id()))
    );
}

#[test]
fn validate_regions_error_unlisted_player() {
    let map = rules_map([Water, Water, Land, Land, Land, Water, Land]);

    let player_one = Player::new(21);
    let region_one = Region::new(11, player_one, cells(&[(-1, 1), (0, 0)]));

    let player_two = Player::new(22);
    let region_two = Region::new(12, player_two, cells(&[(1, -1), (0, -1)]));
    let location = Location::new(map, vec![region_one, region_two]).unwrap();

    let players = [player_one];
    let res = validate_regions(&location, &players);

    assert_eq!(
        res,
        Err(RegionsValidationError::UnlistedPlayer(player_two.id()))
    );
}

#[test]
fn validate_regions_error_no_region() {
    let map = rules_map([Water, Water, Land, Land, Land, Water, Land]);

    let player_one = Player::new(21);
    let region_one = Region::new(11, player_one, cells(&[(-1, 1), (0, 0)]));

    let player_two = Player::new(22);
    let region_two = Region::new(12, player_two, cells(&[(1, -1), (0, -1)]));
    let location = Location::new(map, vec![region_one, region_two]).unwrap();

    let player_three = Player::new(23);
    let players = [player_one, player_two, player_three];
    let res = validate_regions(&location, &players);

    assert_eq!(
        res,
        Err(RegionsValidationError::NoActiveRegions(player_three.id()))
    );
}

#[test]
fn validate_regions_small_region_with_a_unit_counts() {
    let map = rules_map([Water, Water, Land, Land, Land, Water, Land]);

    let player_one = Player::new(21);
    let region_one = Region::new(11, player_one, cells(&[(-1, 1), (0, 0)]));

    let player_two = Player::new(22);
    let region_two = Region::new(12, player_two, cells(&[(1, -1)]));
    let mut location = Location::new(map, vec![region_one, region_two]).unwrap();
    location
        .place_unit(Unit::new(31, UnitType::Tower), Coord::new(1, -1))
        .unwrap();

    assert_eq!(validate_regions(&location, &[player_one, player_two]), Ok(()));
    assert_eq!(
        validate_regions(&location, &[player_one]),
        Err(RegionsValidationError::UnlistedPlayer(22))
    );
}

#[test]
fn errors_are_wrapped_on_their_way_up() {
    let split = LocationValidationError::SplitRegions(3);
    assert_eq!(
        LocationModificationError::from(split),
        LocationModificationError::InvalidResult(split)
    );
    assert_eq!(
        LocationRulesValidationError::from(split),
        LocationRulesValidationError::InitiationError(split)
    );
    assert_eq!(
        EngineValidationError::from(split),
        EngineValidationError::LocationError(LocationRulesValidationError::InitiationError(split))
    );
    assert_eq!(
        EngineValidationError::from(LocationRulesValidationError::NoLand),
        EngineValidationError::LocationError(LocationRulesValidationError::NoLand)
    );
    assert_eq!(
        EngineValidationError::from(RegionsValidationError::NoActiveRegions(4)),
        EngineValidationError::RegionsError(RegionsValidationError::NoActiveRegions(4))
    );
    assert_eq!(
        PlayerActionError::from(LocationModificationError::NoSuchRegion(5)),
        PlayerActionError::LocationError(LocationModificationError::NoSuchRegion(5))
    );
}
