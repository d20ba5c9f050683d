use yasc::game::{
    validate_location, Coord, EngineValidationError, LocationRulesValidationError, TileSurface,
    UnitType,
};
use yasc::init::{
    GameEngineBuilder, GameEngineBuilderInitiationError, GameEngineBuilderModificationError,
};

#[test]
fn check_circle_creation_size_error() {
    let result = GameEngineBuilder::circle(1, 2);

    assert_eq!(result, Err(GameEngineBuilderInitiationError::TooSmallMap));
}

#[test]
fn check_circle_creation_ok() {
    let result = GameEngineBuilder::circle(3, 2);
    assert!(result.is_ok());
}

#[test]
fn check_rectangle_creation_size_error() {
    let result = GameEngineBuilder::rectangle(1, 10, 2);

    assert_eq!(result, Err(GameEngineBuilderInitiationError::TooSmallMap));
}

#[test]
fn check_rectangle_creation_ok() {
    let result = GameEngineBuilder::rectangle(15, 10, 2);
    assert!(result.is_ok());
}

#[test]
fn check_circle_build_ok() {
    let mut builder = GameEngineBuilder::circle(3, 2).unwrap();
    let one_id = builder.players()[0].id();
    let two_id = builder.players()[1].id();

    let start_coord = hex2d::Coordinate::new(0, 0);
    for cell in start_coord.range_iter(3) {
        let c = Coord::new(cell.x, cell.y);
        if c.y == 0 && c.x != 0 {
            continue;
        }
        builder.set_surface(c, TileSurface::Land).unwrap();
        if c.y > 0 {
            builder.set_owner(c, one_id).unwrap();
        } else {
            builder.set_owner(c, two_id).unwrap();
        }
    }

    let result = builder.build();
    assert!(result.is_ok());
}

#[test]
fn check_cannot_set_owner_for_water_tile() {
    let mut builder = GameEngineBuilder::circle(4, 2).unwrap();
    let player_id = builder.players()[0].id();
    let coord = Coord::new(0, 0);

    assert_eq!(
        builder.set_owner(coord, player_id),
        Err(GameEngineBuilderModificationError::CoordinateCannotBeOwned(
            coord
        ))
    );

    assert_eq!(builder.owner_at(coord), None);
}

#[test]
fn check_can_set_owner_for_land_tile() {
    let mut builder = GameEngineBuilder::circle(4, 2).unwrap();
    let player_id = builder.players()[0].id();
    let coord = Coord::new(0, 0);

    assert_eq!(builder.set_surface(coord, TileSurface::Land), Ok(()));
    assert_eq!(builder.set_owner(coord, player_id), Ok(()));

    assert_eq!(builder.owner_at(coord), Some(player_id));
}

#[test]
fn check_removal_of_land_removes_ownership() {
    let mut builder = GameEngineBuilder::circle(4, 2).unwrap();
    let player_id = builder.players()[0].id();
    let coord = Coord::new(0, 0);

    assert_eq!(builder.set_surface(coord, TileSurface::Land), Ok(()));
    assert_eq!(builder.set_owner(coord, player_id), Ok(()));
    assert_eq!(builder.owner_at(coord), Some(player_id));

    assert_eq!(builder.set_surface(coord, TileSurface::Water), Ok(()));
    assert_eq!(builder.owner_at(coord), None);
}

#[test]
fn rectangle_rows_lean_to_the_right() {
    let builder = GameEngineBuilder::rectangle(5, 5, 2).unwrap();
    let mut expected = Vec::new();
    for &(x, low) in [(0, 0), (1, -1), (2, -1), (3, -2), (4, -2)].iter() {
        for k in 0..5 {
            expected.push(Coord::new(x, low + k));
        }
    }
    assert_eq!(builder.map().coordinates(), expected);
    // The tiles are numbered in that order, and the players after them.
    for (k, c) in expected.iter().enumerate() {
        let tile = builder.map().get(c).unwrap();
        assert_eq!(tile.id(), k as u32 + 1);
        assert_eq!(*tile.surface(), TileSurface::Water);
        assert_eq!(tile.unit(), None);
    }
    assert_eq!(builder.players()[0].id(), 26);
    assert_eq!(builder.players()[1].id(), 27);
    assert_eq!(builder.owners().len(), 25);
}

#[test]
fn circle_goes_column_by_column() {
    let builder = GameEngineBuilder::circle(3, 3).unwrap();
    let cells = builder.map().coordinates();
    assert_eq!(cells.len(), 37);
    let mut expected = Vec::new();
    for x in -3i32..=3 {
        let low = if x < 0 { -x - 3 } else { -3 };
        let high = if x < 0 { 3 } else { 3 - x };
        for y in low..=high {
            expected.push(Coord::new(x, y));
        }
    }
    assert_eq!(cells, expected);
    assert_eq!(cells[0], Coord::new(-3, 0));
    assert_eq!(cells[4], Coord::new(-2, -1));
    assert_eq!(cells[36], Coord::new(3, 0));
    assert_eq!(builder.players().len(), 3);
    assert_eq!(builder.players()[2].id(), 40);
}

#[test]
fn builder_needs_two_players() {
    assert_eq!(
        GameEngineBuilder::circle(3, 1),
        Err(GameEngineBuilderInitiationError::NotEnoughPlayers(2))
    );
    assert_eq!(
        GameEngineBuilder::rectangle(5, 5, 0),
        Err(GameEngineBuilderInitiationError::NotEnoughPlayers(2))
    );
    assert_eq!(
        GameEngineBuilder::rectangle(4, 5, 0),
        Err(GameEngineBuilderInitiationError::TooSmallMap)
    );
    assert_eq!(
        GameEngineBuilder::of_cells(&vec![(0, 0), (0, 1)], 1),
        Err(GameEngineBuilderInitiationError::NotEnoughPlayers(2))
    );
}

#[test]
fn blank_map_keeps_each_cell_once() {
    let builder = GameEngineBuilder::of_cells(&vec![(0, 0), (0, 1), (0, 0), (i32::MAX, 0)], 2)
        .unwrap();
    assert_eq!(
        builder.map().coordinates(),
        vec![Coord::new(0, 0), Coord::new(0, 1)]
    );
    assert_eq!(builder.map().get(&Coord::new(0, 0)).unwrap().id(), 3);
    assert_eq!(builder.map().get(&Coord::new(0, 1)).unwrap().id(), 2);
    assert_eq!(builder.players()[0].id(), 5);
}

#[test]
fn builder_refuses_what_is_off_the_map_or_unknown() {
    let mut builder = GameEngineBuilder::circle(3, 2).unwrap();
    let before = builder.clone();
    let far = Coord::new(9, 9);
    assert_eq!(
        builder.set_surface(far, TileSurface::Land),
        Err(GameEngineBuilderModificationError::CoordinateOutOfBounds(far))
    );
    assert_eq!(
        builder.set_owner(far, builder.players()[0].id()),
        Err(GameEngineBuilderModificationError::CoordinateOutOfBounds(far))
    );
    builder
        .set_surface(Coord::new(0, 0), TileSurface::Land)
        .unwrap();
    let raised = builder.clone();
    assert_ne!(raised, before);
    assert_eq!(
        builder.set_owner(Coord::new(0, 0), 1),
        Err(GameEngineBuilderModificationError::NoSuchPlayer(1))
    );
    assert_eq!(builder, raised);
    assert_eq!(builder.owner_at(far), None);
}

#[test]
fn build_makes_one_region_of_what_hangs_together() {
    let mut builder = GameEngineBuilder::rectangle(5, 5, 2).unwrap();
    let one = builder.players()[0].id();
    let two = builder.players()[1].id();
    // Three rows of land: the outer ones for the second player, the one
    // between them in two parts for the first player, with a tile of the
    // second player in its middle.
    for k in 0..5 {
        let upper = Coord::new(0, k);
        let middle = Coord::new(1, k - 1);
        let lower = Coord::new(2, k - 1);
        builder.set_surface(upper, TileSurface::Land).unwrap();
        builder.set_surface(middle, TileSurface::Land).unwrap();
        builder.set_surface(lower, TileSurface::Land).unwrap();
        builder.set_owner(upper, two).unwrap();
        builder
            .set_owner(middle, if k == 2 { two } else { one })
            .unwrap();
        builder.set_owner(lower, two).unwrap();
    }
    let engine = builder.build().unwrap();
    let location = engine.location();
    assert_eq!(validate_location(location), Ok(()));
    let regions = location.regions();
    assert_eq!(regions.len(), 3);
    // The regions come in the order of their first tiles and are numbered
    // after the players; the capitals are numbered after the regions.
    assert_eq!(regions[0].id(), 28);
    assert_eq!(regions[0].owner().id(), two);
    assert_eq!(regions[0].coordinates().len(), 11);
    assert_eq!(regions[1].id(), 29);
    assert_eq!(regions[1].owner().id(), one);
    assert_eq!(
        regions[1].coordinates().to_vec(),
        vec![Coord::new(1, -1), Coord::new(1, 0)]
    );
    assert_eq!(regions[2].id(), 30);
    assert_eq!(
        regions[2].coordinates().to_vec(),
        vec![Coord::new(1, 2), Coord::new(1, 3)]
    );
    let capitals = [
        (Coord::new(0, 0), 31),
        (Coord::new(1, -1), 32),
        (Coord::new(1, 2), 33),
    ];
    for &(c, id) in capitals.iter() {
        let unit = location.tile_at(c).unwrap().unit().unwrap();
        assert_eq!(unit.id(), id);
        assert_eq!(unit.unit_type(), UnitType::Village);
    }
    assert_eq!(location.tile_at(Coord::new(0, 1)).unwrap().unit(), None);
    assert_eq!(engine.last_issued_id(), 33);
    assert_eq!(engine.region_money(28), Some(10));
    assert_eq!(engine.players().len(), 2);
}

#[test]
fn build_fails_on_a_map_without_land() {
    let builder = GameEngineBuilder::circle(3, 2).unwrap();
    let res = builder.build();
    assert!(matches!(res, Err(EngineValidationError::LocationError(_))));
}

#[test]
fn build_fails_on_land_without_an_owner() {
    let mut builder = GameEngineBuilder::circle(3, 2).unwrap();
    let one = builder.players()[0].id();
    let two = builder.players()[1].id();
    for cell in builder.map().coordinates() {
        builder.set_surface(cell, TileSurface::Land).unwrap();
        if cell != Coord::new(3, 0) {
            builder
                .set_owner(cell, if cell.x < 0 { one } else { two })
                .unwrap();
        }
    }
    let res = builder.build();
    assert_eq!(
        res,
        Err(EngineValidationError::LocationError(
            LocationRulesValidationError::NotCoveredWithRegions(Coord::new(3, 0))
        ))
    );
}
