use yasc::game::TileSurface::{Land, Water};
use yasc::game::{
    Coord, CoordSet, IdProducer, Location, LocationModificationError, LocationValidationError,
    Player, Region, RegionTransformation, Tile, TileMap, TileSurface, Unit, UnitType,
};

/// A small hex map like this one:
///  * *
/// * * *
///  * *
/// In axial coordinates with pointy tops:
///    (0,1)   (1,0)
/// (-1,1) (0,0) (1,-1)
///   (-1, 0)  (0,-1)
///
/// The surfaces are those of the seven tiles, beginning at the top left.
fn test_map(surfaces: [TileSurface; 7]) -> TileMap {
    let mut map = TileMap::new();
    map.insert(Coord::new(0, 1), Tile::new(1, surfaces[0]));
    map.insert(Coord::new(1, 0), Tile::new(2, surfaces[1]));
    map.insert(Coord::new(-1, 1), Tile::new(3, surfaces[2]));
    map.insert(Coord::new(0, 0), Tile::new(4, surfaces[3]));
    map.insert(Coord::new(1, -1), Tile::new(5, surfaces[4]));
    map.insert(Coord::new(-1, 0), Tile::new(6, surfaces[5]));
    map.insert(Coord::new(0, -1), Tile::new(7, surfaces[6]));
    map
}

fn coords(list: &[(i32, i32)]) -> CoordSet {
    let mut set = CoordSet::new();
    for &(x, y) in list {
        set.insert(Coord::new(x, y));
    }
    set
}

#[test]
fn correct_init() {
    let map = test_map([Water, Water, Water, Water, Water, Water, Water]);
    let location = Location::new(map, Vec::new());
    assert!(location.is_ok());
    assert_eq!(location.unwrap().map().len(), 7);
}

#[test]
fn correct_init_has_valid_regions() {
    let map = test_map([Water, Land, Water, Land, Water, Land, Water]);

    let coords_one = coords(&[(0, 1), (1, 0), (-1, 1)]);
    let region_one = Region::new(11, Player::new(21), coords_one);

    let coords_two = coords(&[(-1, 0), (0, -1)]);
    let region_two = Region::new(12, Player::new(22), coords_two);
    let location = Location::new(map, vec![region_one, region_two]);
    assert!(location.is_ok());
}

#[test]
fn error_init_has_duplicate_id_regions() {
    let map = test_map([Water, Land, Water, Land, Water, Land, Water]);

    let region_one = Region::new(11, Player::new(21), coords(&[(0, 1)]));
    let region_two = Region::new(11, Player::new(22), coords(&[(-1, 0)]));
    let location = Location::new(map, vec![region_one, region_two]);
    assert!(location.is_err());
    assert_eq!(
        location.unwrap_err(),
        LocationValidationError::DuplicateRegionId(11)
    )
}

#[test]
fn error_init_has_intersecting_regions() {
    let map = test_map([Water, Land, Water, Land, Water, Land, Water]);

    let region_one = Region::new(11, Player::new(21), coords(&[(0, 1), (1, 0), (-1, 1)]));
    let region_two = Region::new(12, Player::new(22), coords(&[(-1, 1), (-1, 0), (0, -1)]));
    let location = Location::new(map, vec![region_one, region_two]);
    assert!(location.is_err());
    assert_eq!(
        location.unwrap_err(),
        LocationValidationError::IntersectingRegions(Coord::new(-1, 1))
    )
}

#[test]
fn error_init_has_split_regions() {
    let map = test_map([Water, Land, Water, Land, Water, Land, Water]);

    let region_one = Region::new(11, Player::new(21), coords(&[(0, 1), (1, 0)]));
    let region_two = Region::new(12, Player::new(22), coords(&[(-1, 1), (0, -1)]));
    let location = Location::new(map, vec![region_one, region_two]);
    assert!(location.is_err());
    assert_eq!(
        location.unwrap_err(),
        LocationValidationError::SplitRegions(12)
    )
}

#[test]
fn error_init_has_bordering_regions_of_same_owner() {
    let map = test_map([Water, Water, Land, Land, Land, Water, Land]);

    let player_id = 21;
    let region_one = Region::new(11, Player::new(player_id), coords(&[(-1, 1), (0, 0)]));
    let region_two = Region::new(12, Player::new(player_id), coords(&[(1, -1), (0, -1)]));
    let location = Location::new(map, vec![region_one, region_two]);
    assert!(location.is_err());
    assert_eq!(
        location.unwrap_err(),
        LocationValidationError::SameOwnerBorderingRegions(11, 12)
    )
}

fn create_valid_location() -> Location {
    let map = test_map([Water, Land, Land, Land, Land, Land, Water]);

    let region_one = Region::new(11, Player::new(21), coords(&[(0, 1), (1, 0)]));
    let region_two = Region::new(12, Player::new(22), coords(&[(-1, 1)]));
    let region_three = Region::new(13, Player::new(23), coords(&[(0, 0), (1, -1)]));
    let region_four = Region::new(14, Player::new(21), coords(&[(-1, 0), (0, -1)]));
    let location = Location::new(map, vec![region_one, region_two, region_three, region_four]);
    assert!(location.is_ok());

    location.unwrap()
}

#[test]
fn location_remove_unit_correct() {
    let mut location = create_valid_location();
    let c = Coord::new(-1, 1);

    assert_eq!(location.tile_at(c).unwrap().unit(), None);
    let unit = Unit::new(22, UnitType::Grave);
    location.place_unit(unit.clone(), c).unwrap();

    assert_eq!(location.tile_at(c).unwrap().unit(), Some(&unit));

    location.remove_unit(c).unwrap();
    assert_eq!(location.tile_at(c).unwrap().unit(), None);
}

#[test]
fn location_remove_unit_error_out_of_border() {
    let mut location = create_valid_location();
    let c = Coord::new(-2, 1);
    let res = location.remove_unit(c);

    assert_eq!(
        res,
        Err(LocationModificationError::CoordinateOutOfLocation(c))
    );
    assert!(location.tile_at(c).is_none());
}

#[test]
fn location_place_unit_correct() {
    let mut location = create_valid_location();
    let c = Coord::new(-1, 1);

    assert_eq!(location.tile_at(c).unwrap().unit(), None);
    let unit = Unit::new(22, UnitType::Grave);
    location.place_unit(unit.clone(), c).unwrap();

    assert_eq!(location.tile_at(c).unwrap().unit(), Some(&unit));
}

#[test]
fn location_place_unit_error_out_of_border() {
    let mut location = create_valid_location();
    let c = Coord::new(-2, 1);

    let unit = Unit::new(22, UnitType::Grave);
    let res = location.place_unit(unit.clone(), c);

    assert_eq!(
        res,
        Err(LocationModificationError::CoordinateOutOfLocation(c))
    );
    assert!(location.tile_at(c).is_none());
}

#[test]
fn location_move_unit_correct() {
    let mut location = create_valid_location();
    let src = Coord::new(-1, 1);
    let dst = Coord::new(1, -1);
    let unit = Unit::new(22, UnitType::Grave);
    location.place_unit(unit.clone(), src).unwrap();

    assert_eq!(location.tile_at(src).unwrap().unit(), Some(&unit));
    assert_eq!(location.tile_at(dst).unwrap().unit(), None);

    location.move_unit(src, dst).unwrap();

    assert_eq!(location.tile_at(src).unwrap().unit(), None);
    assert_eq!(location.tile_at(dst).unwrap().unit(), Some(&unit));
}

#[test]
fn location_move_unit_error_no_dst() {
    let mut location = create_valid_location();
    let src = Coord::new(-1, 1);
    let dst = Coord::new(2, -1);
    let unit = Unit::new(22, UnitType::Grave);
    location.place_unit(unit.clone(), src).unwrap();

    assert_eq!(location.tile_at(src).unwrap().unit(), Some(&unit));
    assert_eq!(location.tile_at(dst), None);

    let res = location.move_unit(src, dst);

    assert_eq!(
        res,
        Err(LocationModificationError::CoordinateOutOfLocation(dst))
    );
    assert_eq!(location.tile_at(src).unwrap().unit(), Some(&unit));
    assert_eq!(location.tile_at(dst), None);
}

#[test]
fn location_move_unit_error_no_src() {
    let mut location = create_valid_location();
    let src = Coord::new(-1, 3);
    let dst = Coord::new(1, -1);

    assert_eq!(location.tile_at(src), None);

    let res = location.move_unit(src, dst);

    assert_eq!(
        res,
        Err(LocationModificationError::CoordinateOutOfLocation(src))
    );
    assert_eq!(location.tile_at(src), None);
}

#[test]
fn location_move_unit_error_no_unit() {
    let mut location = create_valid_location();
    let src = Coord::new(-1, 1);
    let dst = Coord::new(1, -1);

    assert_eq!(location.tile_at(src).unwrap().unit(), None);
    assert_eq!(location.tile_at(dst).unwrap().unit(), None);

    let res = location.move_unit(src, dst);

    assert_eq!(res, Err(LocationModificationError::NoUnitAtCoordinate(src)));
    assert_eq!(location.tile_at(src).unwrap().unit(), None);
    assert_eq!(location.tile_at(dst).unwrap().unit(), None);
}

#[test]
fn location_coord_to_region_correct_basic() {
    let mut location = create_valid_location();
    let mut id_producer = IdProducer::default();
    let c = Coord::new(0, 0);
    let actions = location
        .add_tile_to_region(c, 12, &mut id_producer)
        .unwrap();

    assert_eq!(actions.len(), 0);

    let region = location.region(12).unwrap();
    assert_eq!(region.coordinates().len(), 2);
    assert!(region.coordinates().contains(&c));
    assert!(region.coordinates().contains(&Coord::new(-1, 1)));

    let region = location.region(13).unwrap();
    assert_eq!(region.coordinates().len(), 1);
    assert!(region.coordinates().contains(&Coord::new(1, -1)));
}

#[test]
fn location_coord_to_region_correct_remove() {
    let mut location = create_valid_location();
    let mut id_producer = IdProducer::default();
    let c = Coord::new(-1, 1);
    let actions = location
        .add_tile_to_region(c, 13, &mut id_producer)
        .unwrap();

    assert_eq!(actions, vec!(RegionTransformation::Delete(12)));
    // This region should be deleted when processing
    assert!(!location.has_region(12));

    let region = location.region(13).unwrap();
    assert_eq!(region.coordinates().len(), 3);
    assert!(region.coordinates().contains(&c));
    assert!(region.coordinates().contains(&Coord::new(0, 0)));
    assert!(region.coordinates().contains(&Coord::new(1, -1)));
}

#[test]
fn location_coord_to_region_correct_merge_and_remove() {
    let mut location = create_valid_location();
    let mut id_producer = IdProducer::default();
    let c = Coord::new(-1, 1);
    let actions = location
        .add_tile_to_region(c, 11, &mut id_producer)
        .unwrap();

    assert_eq!(
        actions,
        vec!(
            RegionTransformation::Delete(12),
            RegionTransformation::Merge { from: 14, into: 11 }
        )
    );
    // This regions should be deleted when processing
    assert!(!location.has_region(12));
    assert!(!location.has_region(14));

    let region = location.region(11).unwrap();
    assert_eq!(region.coordinates().len(), 5);
    assert!(region.coordinates().contains(&c));
    assert!(region.coordinates().contains(&Coord::new(0, 1)));
    assert!(region.coordinates().contains(&Coord::new(1, 0)));
    assert!(region.coordinates().contains(&Coord::new(0, -1)));
    assert!(region.coordinates().contains(&Coord::new(-1, 0)));
}

#[test]
fn location_coord_to_region_correct_split() {
    let mut location = create_valid_location();
    let mut id_producer = IdProducer::default();
    let actions_one = location
        .add_tile_to_region(Coord::new(-1, 1), 13, &mut id_producer)
        .unwrap();
    let actions_two = location
        .add_tile_to_region(Coord::new(0, 0), 11, &mut id_producer)
        .unwrap();

    assert_eq!(actions_one, vec!(RegionTransformation::Delete(12),));
    assert_eq!(
        actions_two,
        vec!(
            RegionTransformation::Split {
                from: 13,
                into: vec!(13, 1)
            },
            RegionTransformation::Merge { from: 14, into: 11 }
        )
    );

    // This regions should be deleted when processing
    assert!(!location.has_region(12));
    assert!(!location.has_region(14));

    // This one should merge from 14
    let region = location.region(11).unwrap();
    assert_eq!(region.coordinates().len(), 5);
    assert!(region.coordinates().contains(&Coord::new(0, 0)));
    assert!(region.coordinates().contains(&Coord::new(0, 1)));
    assert!(region.coordinates().contains(&Coord::new(1, 0)));
    assert!(region.coordinates().contains(&Coord::new(0, -1)));
    assert!(region.coordinates().contains(&Coord::new(-1, 0)));

    // Other two regions should be split
    let region = location.region(13).unwrap();
    assert_eq!(region.coordinates().len(), 1);

    let region = location.region(1).unwrap();
    assert_eq!(region.coordinates().len(), 1);
}

#[test]
fn location_coord_to_region_error_out_of_border() {
    let mut location = create_valid_location();
    let mut id_producer = IdProducer::default();
    let c = Coord::new(1, 1);
    let res = location.add_tile_to_region(c, 11, &mut id_producer);

    assert_eq!(
        res,
        Err(LocationModificationError::CoordinateOutOfLocation(c))
    );
    assert!(!location.region(11).unwrap().coordinates().contains(&c));
}

#[test]
fn location_coord_to_region_error_no_region() {
    let mut location = create_valid_location();
    let mut id_producer = IdProducer::default();
    let c = Coord::new(-1, 0);
    let region = 19;
    let res = location.add_tile_to_region(c, region, &mut id_producer);

    assert_eq!(res, Err(LocationModificationError::NoSuchRegion(region)));
    assert_ne!(location.region_at(c).unwrap().id(), region);
    assert!(!location.has_region(region));
}

#[test]
fn location_coord_to_region_error_region_far_from_coord() {
    let mut location = create_valid_location();
    let mut id_producer = IdProducer::default();
    let c = Coord::new(1, -1);
    let region = 12;
    let res = location.add_tile_to_region(c, region, &mut id_producer);

    assert_eq!(
        res,
        Err(LocationModificationError::CoordinateNotAdjacentToRegion(c))
    );
    assert_ne!(location.region_at(c).unwrap().id(), region);
    assert!(!location.region(region).unwrap().coordinates().contains(&c));
}

#[test]
fn location_coord_to_region_error_region_already_contains_coord() {
    let mut location = create_valid_location();
    let mut id_producer = IdProducer::default();
    let c = Coord::new(-1, 1);
    let region = 12;
    let res = location.add_tile_to_region(c, region, &mut id_producer);

    assert_eq!(
        res,
        Err(LocationModificationError::CoordinateNotAdjacentToRegion(c))
    );
    assert!(location.region(region).unwrap().coordinates().contains(&c));
}

#[test]
fn bfs_returns_everything() {
    let map = test_map([Water, Land, Water, Land, Water, Land, Water]);
    let location = Location::new(map, Vec::new()).unwrap();
    let coords = location.bfs_all(Coord::new(0, 1), |_| true);
    assert_eq!(coords.len(), location.map().len());
    for c in location.map().coordinates().iter() {
        assert!(coords.contains(c));
    }
}

#[test]
fn bfs_returns_filtered() {
    let map = test_map([Water, Land, Water, Land, Water, Land, Water]);
    let location = Location::new(map, Vec::new()).unwrap();
    let coords = location.bfs_all(Coord::new(0, 1), |c| {
        location
            .tile_at(c)
            .map_or(false, |t| t.surface().is_water())
    });
    assert_eq!(coords.len(), 2);
    for c in vec![Coord::new(0, 1), Coord::new(-1, 1)].iter() {
        assert!(coords.contains(c));
    }
}

#[test]
fn bfs_returns_nothing_coord_out_of_location() {
    let map = test_map([Water, Land, Water, Land, Water, Land, Water]);
    let location = Location::new(map, Vec::new()).unwrap();
    let coords = location.bfs_all(Coord::new(2, 1), |_| true);
    assert!(coords.is_empty());
}

#[test]
fn bfs_returns_nothing_start_coord_fails_predicate() {
    let map = test_map([Water, Land, Water, Land, Water, Land, Water]);
    let location = Location::new(map, Vec::new()).unwrap();
    let coords = location.bfs_all(Coord::new(0, 1), |c| {
        location.tile_at(c).map_or(false, |t| t.surface().is_land())
    });
    assert!(coords.is_empty());
}

#[test]
fn bfs_distance_returns_correct_some() {
    let map = test_map([Land, Land, Water, Land, Land, Land, Water]);
    let location = Location::new(map, Vec::new()).unwrap();
    let distance = location.bfs_distance(Coord::new(-1, 0), Coord::new(0, 1), |c| {
        location.tile_at(c).map_or(false, |t| t.surface().is_land())
    });
    assert_eq!(distance, Some(2));
}

#[test]
fn bfs_distance_returns_correct_to_itself() {
    let map = test_map([Land, Land, Water, Land, Land, Land, Water]);
    let location = Location::new(map, Vec::new()).unwrap();
    let distance = location.bfs_distance(Coord::new(-1, 0), Coord::new(-1, 0), |c| {
        location.tile_at(c).map_or(false, |t| t.surface().is_land())
    });
    assert_eq!(distance, Some(0));
}

#[test]
fn bfs_distance_returns_correct_no_passage() {
    let map = test_map([Land, Land, Water, Water, Land, Land, Water]);
    let location = Location::new(map, Vec::new()).unwrap();
    let distance = location.bfs_distance(Coord::new(-1, 0), Coord::new(0, 1), |c| {
        location.tile_at(c).map_or(false, |t| t.surface().is_land())
    });
    assert_eq!(distance, None);
}

#[test]
fn neighbours_come_in_the_order_of_the_directions() {
    let around = Coord::new(3, -2).neighbors();
    assert_eq!(
        around,
        [
            Coord::new(3, -1),
            Coord::new(4, -2),
            Coord::new(4, -3),
            Coord::new(3, -3),
            Coord::new(2, -2),
            Coord::new(2, -1),
        ]
    );
    assert!(Coord::new(3, -2).is_adjacent(&Coord::new(2, -1)));
    assert!(!Coord::new(3, -2).is_adjacent(&Coord::new(4, -1)));
    assert!(!Coord::new(3, -2).is_adjacent(&Coord::new(3, -2)));
}

#[test]
fn bfs_orders_cells_by_distance_and_then_by_the_map() {
    let map = test_map([Land, Land, Land, Land, Land, Land, Land]);
    let location = Location::new(map, Vec::new()).unwrap();
    let mut iter = location.bfs_iter(Coord::new(-1, 1), |_| true);
    let mut seen = Vec::new();
    while let Some(item) = iter.next() {
        seen.push(item);
    }
    assert_eq!(
        seen,
        vec![
            (0, Coord::new(-1, 1)),
            (1, Coord::new(0, 1)),
            (1, Coord::new(0, 0)),
            (1, Coord::new(-1, 0)),
            (2, Coord::new(1, 0)),
            (2, Coord::new(1, -1)),
            (2, Coord::new(0, -1)),
        ]
    );
    let set = location.bfs_set(Coord::new(-1, 1), |c| c.x <= 0);
    assert_eq!(set.len(), 5);
    assert!(!set.contains(&Coord::new(1, 0)));
}

#[test]
fn tile_map_replaces_the_tile_of_a_coordinate() {
    let mut map = TileMap::new();
    assert!(map.is_empty());
    assert_eq!(map.insert(Coord::new(0, 0), Tile::new(1, Land)), None);
    assert_eq!(
        map.insert(Coord::new(0, 0), Tile::new(2, Water)),
        Some(Tile::new(1, Land))
    );
    assert_eq!(map.len(), 1);
    assert_eq!(map.get(&Coord::new(0, 0)), Some(&Tile::new(2, Water)));
    assert!(!map.contains_key(&Coord::new(1, 0)));
    assert_eq!(map.index_of(&Coord::new(0, 0)), Some(0));
}

#[test]
fn coord_set_keeps_each_cell_once() {
    let mut set = CoordSet::new();
    assert!(set.insert(Coord::new(1, 2)));
    assert!(!set.insert(Coord::new(1, 2)));
    assert!(set.insert(Coord::new(2, 1)));
    assert_eq!(set.len(), 2);
    assert_eq!(set.to_vec(), vec![Coord::new(1, 2), Coord::new(2, 1)]);
    assert_eq!(set.get(1), Coord::new(2, 1));
}

#[test]
fn region_with_a_coordinate_off_the_map_counts_as_split() {
    let map = test_map([Water, Land, Water, Land, Water, Land, Water]);
    let region = Region::new(11, Player::new(21), coords(&[(0, 1), (5, 5)]));
    assert_eq!(
        Location::new(map, vec![region]).unwrap_err(),
        LocationValidationError::SplitRegions(11)
    );
}

#[test]
fn new_region_skips_identifiers_that_are_in_use() {
    let map = test_map([Water, Land, Land, Land, Land, Land, Water]);
    let region_one = Region::new(1, Player::new(21), coords(&[(0, 1), (1, 0)]));
    let region_two = Region::new(2, Player::new(23), coords(&[(-1, 1), (0, 0), (1, -1)]));
    let mut location = Location::new(map, vec![region_one, region_two]).unwrap();
    let mut id_producer = IdProducer::default();
    let actions = location
        .add_tile_to_region(Coord::new(0, 0), 1, &mut id_producer)
        .unwrap();
    assert_eq!(
        actions,
        vec![RegionTransformation::Split {
            from: 2,
            into: vec![2, 3]
        }]
    );
    assert_eq!(id_producer.last_issued_id(), 3);
    assert_eq!(location.region_at(Coord::new(1, -1)).unwrap().id(), 2);
    assert_eq!(location.region_at(Coord::new(-1, 1)).unwrap().id(), 3);
    assert_eq!(Location::validate(&location), Ok(()));
}
