use yasc::game::consts::{CONTROLLED_REGION_STARTING_MONEY, STANDARD_MOVES_NUM};
use yasc::game::TileSurface::{Land, Water};
use yasc::game::{
    description, Coord, CoordSet, GameEngine, IdProducer, Location, Player, PlayerAction,
    PlayerActionError, Region, Tile, TileMap, TileSurface, Unit, UnitType, ID,
};

fn create_map(surfaces: [TileSurface; 12], id_producer: &mut IdProducer) -> TileMap {
    let mut map = TileMap::new();
    let places = [
        (0, -1),
        (1, -1),
        (2, -1),
        (3, -1),
        (-1, 0),
        (0, 0),
        (1, 0),
        (2, 0),
        (-2, 1),
        (-1, 1),
        (0, 1),
        (1, 1),
    ];
    for (k, &(x, y)) in places.iter().enumerate() {
        map.insert(Coord::new(x, y), Tile::new(id_producer.next_id(), surfaces[k]));
    }
    map
}

fn set_of(list: &[(i32, i32)]) -> CoordSet {
    let mut set = CoordSet::new();
    for &(x, y) in list {
        set.insert(Coord::new(x, y));
    }
    set
}

/// An engine for the tests, with this structure:
///
///  Surface:    Owners:
///   * V * ~     1 1 1 ~
///  V ~ S V     3 ~ 1 2
/// * * M *     3 1 2 2
///
/// Coordinates:
///       0/-1  1/-1  2/-1  3/-1
///   -1/0   0/0   1/0   2/0
/// -2/1  -1/1  0/1   1/1
///
fn create_valid_engine() -> (Vec<Player>, Vec<ID>, GameEngine) {
    let mut id_producer = IdProducer::default();
    let surfaces = [
        Land, Land, Land, Water, Land, Water, Land, Land, Land, Land, Land, Land,
    ];
    let mut map = create_map(surfaces, &mut id_producer);
    map.insert(Coord::new(0, -1), Tile::new(id_producer.next_id(), Land));
    map.insert(Coord::new(1, -1), Tile::new(id_producer.next_id(), Land));
    map.insert(Coord::new(2, -1), Tile::new(id_producer.next_id(), Land));
    map.insert(Coord::new(3, -1), Tile::new(id_producer.next_id(), Water));
    map.insert(Coord::new(-1, 0), Tile::new(id_producer.next_id(), Land));
    map.insert(Coord::new(0, 0), Tile::new(id_producer.next_id(), Water));
    map.insert(Coord::new(1, 0), Tile::new(id_producer.next_id(), Land));
    map.insert(Coord::new(2, 0), Tile::new(id_producer.next_id(), Land));
    map.insert(Coord::new(-2, 1), Tile::new(id_producer.next_id(), Land));
    map.insert(Coord::new(-1, 1), Tile::new(id_producer.next_id(), Land));
    map.insert(Coord::new(0, 1), Tile::new(id_producer.next_id(), Land));
    map.insert(Coord::new(1, 1), Tile::new(id_producer.next_id(), Land));

    let players = vec![
        Player::new(id_producer.next_id()),
        Player::new(id_producer.next_id()),
        Player::new(id_producer.next_id()),
    ];
    let region_ids = vec![
        id_producer.next_id(),
        id_producer.next_id(),
        id_producer.next_id(),
        id_producer.next_id(),
    ];

    let region_one = Region::new(
        region_ids[0],
        players[0],
        set_of(&[(0, -1), (1, -1), (2, -1), (1, 0)]),
    );
    let region_two = Region::new(region_ids[1], players[1], set_of(&[(2, 0), (1, 1), (0, 1)]));
    let region_three = Region::new(region_ids[2], players[0], set_of(&[(-1, 1)]));
    let region_four = Region::new(region_ids[3], players[2], set_of(&[(-1, 0), (-2, 1)]));

    let mut location =
        Location::new(map, vec![region_one, region_two, region_three, region_four]).unwrap();
    location
        .place_unit(
            Unit::new(id_producer.next_id(), UnitType::Village),
            Coord::new(1, -1),
        )
        .unwrap();
    location
        .place_unit(
            Unit::new(id_producer.next_id(), UnitType::Soldier),
            Coord::new(1, 0),
        )
        .unwrap();
    location
        .place_unit(
            Unit::new(id_producer.next_id(), UnitType::Militia),
            Coord::new(0, 1),
        )
        .unwrap();
    location
        .place_unit(
            Unit::new(id_producer.next_id(), UnitType::Village),
            Coord::new(2, 0),
        )
        .unwrap();
    location
        .place_unit(
            Unit::new(id_producer.next_id(), UnitType::Village),
            Coord::new(-1, 0),
        )
        .unwrap();

    let game_engine = GameEngine::new(
        location,
        vec![players[0], players[1], players[2]],
        id_producer,
    )
    .unwrap();

    (players, region_ids, game_engine)
}

#[test]
fn create_engine_correct() {
    let (pl, ri, game_engine) = create_valid_engine();

    assert_eq!(*game_engine.active_player(), pl[0]);
    assert_eq!(game_engine.current_turn(), 1);

    assert_eq!(
        game_engine.region_money(ri[0]),
        Some(CONTROLLED_REGION_STARTING_MONEY)
    );
    assert_eq!(
        game_engine.region_money(ri[1]),
        Some(CONTROLLED_REGION_STARTING_MONEY)
    );
    assert_eq!(game_engine.region_money(ri[2]), Some(0));
    assert_eq!(
        game_engine.region_money(ri[3]),
        Some(CONTROLLED_REGION_STARTING_MONEY)
    );
}

#[test]
fn place_new_unit_simple_ok() {
    let (pl, ri, mut game_engine) = create_valid_engine();
    let coordinate = Coord::new(2, -1);

    let action = PlayerAction::PlaceNewUnit(ri[0], UnitType::Militia, coordinate);
    let res = game_engine.act(pl[0].id(), action);

    let region = game_engine.location().region_at(coordinate).unwrap();
    assert_eq!(res, Ok(()));
    assert_eq!(
        game_engine.region_money(region.id()),
        Some(CONTROLLED_REGION_STARTING_MONEY - description(UnitType::Militia).purchase_cost)
    );

    let unit = game_engine
        .location()
        .tile_at(coordinate)
        .unwrap()
        .unit()
        .unwrap();
    assert_eq!(unit.unit_type(), UnitType::Militia);
    assert_eq!(game_engine.unit_info(unit.id()).unwrap().moves_left(), 0);
}

#[test]
fn place_new_unit_simple_no_money() {
    let (pl, ri, mut game_engine) = create_valid_engine();
    let coordinate = Coord::new(2, -1);

    let action = PlayerAction::PlaceNewUnit(ri[0], UnitType::Knight, coordinate);
    let res = game_engine.act(pl[0].id(), action);

    assert_eq!(res, Err(PlayerActionError::NotEnoughMoney(ri[0])));
    assert_eq!(
        game_engine.region_money(ri[0]),
        Some(CONTROLLED_REGION_STARTING_MONEY)
    );
    assert_eq!(
        game_engine.location().tile_at(coordinate).unwrap().unit(),
        None
    )
}

#[test]
fn place_new_unit_simple_tile_out_of_border() {
    let (pl, ri, mut game_engine) = create_valid_engine();
    let coordinate = Coord::new(-1, -1);

    let action = PlayerAction::PlaceNewUnit(ri[0], UnitType::Militia, coordinate);
    let res = game_engine.act(pl[0].id(), action);

    assert_eq!(
        res,
        Err(PlayerActionError::InaccessibleLocation(coordinate))
    );
    assert_eq!(
        game_engine.region_money(ri[0]),
        Some(CONTROLLED_REGION_STARTING_MONEY)
    );
}

#[test]
fn place_new_unit_simple_tile_bad_surface() {
    let (pl, ri, mut game_engine) = create_valid_engine();
    let coordinate = Coord::new(0, 0);

    let action = PlayerAction::PlaceNewUnit(ri[0], UnitType::Militia, coordinate);
    let res = game_engine.act(pl[0].id(), action);

    assert_eq!(
        res,
        Err(PlayerActionError::InaccessibleLocation(coordinate))
    );
    assert_eq!(
        game_engine.region_money(ri[0]),
        Some(CONTROLLED_REGION_STARTING_MONEY)
    );
}

#[test]
fn place_new_unit_simple_tile_not_placeable() {
    let (pl, ri, mut game_engine) = create_valid_engine();
    let coordinate = Coord::new(2, -1);

    let action = PlayerAction::PlaceNewUnit(ri[0], UnitType::Grave, coordinate);
    let res = game_engine.act(pl[0].id(), action);

    assert_eq!(
        res,
        Err(PlayerActionError::CannotBePlacedByPlayer(UnitType::Grave))
    );
    assert_eq!(
        game_engine.region_money(ri[0]),
        Some(CONTROLLED_REGION_STARTING_MONEY)
    );
}

#[test]
fn place_new_unit_simple_tile_has_other_replaceable_unit() {
    let (pl, ri, mut game_engine) = create_valid_engine();
    let coordinate = Coord::new(2, -1);
    game_engine
        .create_and_place_unit(UnitType::Grave, coordinate)
        .unwrap();

    let action = PlayerAction::PlaceNewUnit(ri[0], UnitType::Militia, coordinate);
    let res = game_engine.act(pl[0].id(), action);

    assert_eq!(res, Ok(()));
    assert_eq!(
        game_engine.region_money(ri[0]),
        Some(CONTROLLED_REGION_STARTING_MONEY - description(UnitType::Militia).purchase_cost)
    );
}

#[test]
fn place_new_unit_simple_tile_has_other_non_replaceable_unit() {
    let (pl, ri, mut game_engine) = create_valid_engine();
    let coordinate = Coord::new(1, -1);

    let action = PlayerAction::PlaceNewUnit(ri[0], UnitType::Militia, coordinate);
    let res = game_engine.act(pl[0].id(), action);

    assert_eq!(
        res,
        Err(PlayerActionError::InaccessibleLocation(coordinate))
    );
    assert_eq!(
        game_engine.region_money(ri[0]),
        Some(CONTROLLED_REGION_STARTING_MONEY)
    );
}

#[test]
fn place_new_unit_simple_others_players_turn() {
    let (pl, ri, mut game_engine) = create_valid_engine();

    let coordinate = Coord::new(1, 1);
    let action = PlayerAction::PlaceNewUnit(ri[1], UnitType::Knight, coordinate);
    let res = game_engine.act(pl[1].id(), action);

    assert_eq!(res, Err(PlayerActionError::OtherPlayersTurn(pl[0].id())));
    assert_eq!(
        game_engine.region_money(ri[1]),
        Some(CONTROLLED_REGION_STARTING_MONEY)
    );
}

#[test]
fn place_new_unit_simple_game_finished() {
    let (pl, ri, mut game_engine) = create_valid_engine();
    game_engine.set_winner(Some(pl[0].id()));

    let coordinate = Coord::new(0, -1);
    let action = PlayerAction::PlaceNewUnit(ri[0], UnitType::Knight, coordinate);
    let res = game_engine.act(pl[0].id(), action);

    assert_eq!(res, Err(PlayerActionError::GameAlreadyFinished));
    assert_eq!(
        game_engine.region_money(ri[0]),
        Some(CONTROLLED_REGION_STARTING_MONEY)
    );
}

#[test]
fn place_new_unit_with_attack_empty_tile_all_ok() {
    let (pl, ri, mut game_engine) = create_valid_engine();
    game_engine.act(pl[0].id(), PlayerAction::EndTurn).unwrap();

    let coordinate = Coord::new(-1, 1);
    let old_goal_region_id = game_engine.location().region_at(coordinate).unwrap().id();

    let action = PlayerAction::PlaceNewUnit(ri[1], UnitType::Militia, coordinate);
    let res = game_engine.act(pl[1].id(), action);

    assert_eq!(res, Ok(()));

    let region_for_purchase = game_engine.location().region_at(Coord::new(0, 1)).unwrap();
    let new_goal_region = game_engine.location().region_at(coordinate).unwrap();
    let unit = game_engine
        .location()
        .tile_at(coordinate)
        .unwrap()
        .unit()
        .unwrap();

    assert_eq!(
        game_engine.region_money(region_for_purchase.id()),
        Some(CONTROLLED_REGION_STARTING_MONEY - description(UnitType::Militia).purchase_cost)
    );
    assert_eq!(game_engine.unit_info(unit.id()).unwrap().moves_left(), 0);
    assert_eq!(
        game_engine
            .location()
            .tile_at(coordinate)
            .unwrap()
            .unit()
            .unwrap()
            .unit_type(),
        UnitType::Militia
    );
    assert_ne!(old_goal_region_id, new_goal_region.id());
    assert_eq!(region_for_purchase, new_goal_region);
    assert_eq!(game_engine.region_money(old_goal_region_id), None)
}

#[test]
fn place_new_unit_with_attack_tile_with_unit_all_ok() {
    let (pl, ri, mut game_engine) = create_valid_engine();
    game_engine.act(pl[0].id(), PlayerAction::EndTurn).unwrap();

    let coordinate = Coord::new(1, 0);
    let old_goal_region_id = ri[0];
    // Add some money for expensive unit
    game_engine.modify_money(ri[1], description(UnitType::Knight).purchase_cost);

    let action = PlayerAction::PlaceNewUnit(ri[1], UnitType::Knight, coordinate);
    let res = game_engine.act(pl[1].id(), action);

    assert_eq!(res, Ok(()));

    let region_for_purchase = game_engine.location().region_at(Coord::new(0, 1)).unwrap();
    let new_goal_region = game_engine.location().region_at(coordinate).unwrap();

    assert_eq!(
        game_engine.region_money(ri[1]),
        Some(CONTROLLED_REGION_STARTING_MONEY) // It should get back to standard
    );
    assert_eq!(
        game_engine
            .location()
            .tile_at(coordinate)
            .unwrap()
            .unit()
            .unwrap()
            .unit_type(),
        UnitType::Knight
    );
    assert_ne!(old_goal_region_id, new_goal_region.id());
    assert_eq!(region_for_purchase, new_goal_region);
}

#[test]
fn place_new_unit_with_attack_not_enough_attack() {
    let (pl, ri, mut game_engine) = create_valid_engine();
    game_engine.act(pl[0].id(), PlayerAction::EndTurn).unwrap();

    let coordinate = Coord::new(1, 0);
    let old_goal_region_id = ri[0];

    let action = PlayerAction::PlaceNewUnit(ri[1], UnitType::Militia, coordinate);
    let res = game_engine.act(pl[1].id(), action);

    assert_eq!(
        res,
        Err(PlayerActionError::InaccessibleLocation(coordinate))
    );

    let new_goal_region = game_engine.location().region_at(coordinate).unwrap();

    assert_eq!(
        game_engine.region_money(ri[1]),
        Some(CONTROLLED_REGION_STARTING_MONEY) // It should get back to standard
    );
    assert_eq!(
        game_engine
            .location()
            .tile_at(coordinate)
            .unwrap()
            .unit()
            .unwrap()
            .unit_type(),
        UnitType::Soldier
    );
    assert_eq!(old_goal_region_id, new_goal_region.id());
}

#[test]
fn place_new_unit_with_attack_tile_not_near_border() {
    let (pl, ri, mut game_engine) = create_valid_engine();
    game_engine.act(pl[0].id(), PlayerAction::EndTurn).unwrap();

    let coordinate = Coord::new(0, -1);
    let action = PlayerAction::PlaceNewUnit(ri[1], UnitType::Militia, coordinate);
    let res = game_engine.act(pl[1].id(), action);

    assert_eq!(
        res,
        Err(PlayerActionError::InaccessibleLocation(coordinate))
    );
}

#[test]
fn move_unit_inside_region_ok() {
    let (pl, _, mut game_engine) = create_valid_engine();

    let (src, dst) = (Coord::new(1, 0), Coord::new(2, -1));
    let action = PlayerAction::MoveUnit { src, dst };
    let res = game_engine.act(pl[0].id(), action);

    assert_eq!(res, Ok(()));
    assert_eq!(game_engine.location().tile_at(src).unwrap().unit(), None);

    {
        let unit = game_engine.location().tile_at(dst).unwrap().unit().unwrap();
        let info = game_engine.unit_info(unit.id()).unwrap();
        assert_eq!(unit.unit_type(), UnitType::Soldier);
        assert_eq!(info.moves_left(), info.description().max_moves - 1);
    }

    // And one more, so we have no more moves after
    let (src, dst) = (Coord::new(2, -1), Coord::new(0, -1));
    let action = PlayerAction::MoveUnit { src, dst };
    let res = game_engine.act(pl[0].id(), action);

    assert_eq!(res, Ok(()));
    assert_eq!(game_engine.location().tile_at(src).unwrap().unit(), None);

    {
        let unit = game_engine.location().tile_at(dst).unwrap().unit().unwrap();
        let info = game_engine.unit_info(unit.id()).unwrap();
        assert_eq!(unit.unit_type(), UnitType::Soldier);
        assert_eq!(info.moves_left(), info.description().max_moves - 3);
    }

    // And now we will get error, because there are no moves left
    let (src, dst) = (Coord::new(0, -1), Coord::new(1, 0));
    let action = PlayerAction::MoveUnit { src, dst };
    let res = game_engine.act(pl[0].id(), action);

    assert_eq!(res, Err(PlayerActionError::NotEnoughMoves(1, 2)));
    assert_eq!(game_engine.location().tile_at(dst).unwrap().unit(), None);

    let unit = game_engine.location().tile_at(src).unwrap().unit().unwrap();
    let info = game_engine.unit_info(unit.id()).unwrap();
    assert_eq!(unit.unit_type(), UnitType::Soldier);
    assert_eq!(info.moves_left(), 1);
}

#[test]
fn move_unit_inside_region_error_already_has_unit() {
    let (pl, _, mut game_engine) = create_valid_engine();

    let (src, dst) = (Coord::new(1, 0), Coord::new(1, -1));
    let action = PlayerAction::MoveUnit { src, dst };
    let res = game_engine.act(pl[0].id(), action);

    assert_eq!(res, Err(PlayerActionError::InaccessibleLocation(dst)));

    let village = game_engine.location().tile_at(dst).unwrap().unit().unwrap();
    let unit = game_engine.location().tile_at(src).unwrap().unit().unwrap();
    let info = game_engine.unit_info(unit.id()).unwrap();
    assert_eq!(unit.unit_type(), UnitType::Soldier);
    assert_eq!(village.unit_type(), UnitType::Village);
    assert_eq!(info.moves_left(), info.description().max_moves);
}

#[test]
fn move_unit_inside_region_error_dst_outside_location() {
    let (pl, _, mut game_engine) = create_valid_engine();

    let (src, dst) = (Coord::new(1, 0), Coord::new(3, -2));
    let action = PlayerAction::MoveUnit { src, dst };
    let res = game_engine.act(pl[0].id(), action);

    assert_eq!(res, Err(PlayerActionError::InaccessibleLocation(dst)));

    let unit = game_engine.location().tile_at(src).unwrap().unit().unwrap();
    let info = game_engine.unit_info(unit.id()).unwrap();
    assert_eq!(unit.unit_type(), UnitType::Soldier);
    assert_eq!(info.moves_left(), info.description().max_moves);
}

#[test]
fn move_unit_inside_region_error_dst_is_water() {
    let (pl, _, mut game_engine) = create_valid_engine();

    let (src, dst) = (Coord::new(1, 0), Coord::new(0, 0));
    let action = PlayerAction::MoveUnit { src, dst };
    let res = game_engine.act(pl[0].id(), action);

    assert_eq!(res, Err(PlayerActionError::InaccessibleLocation(dst)));

    let unit = game_engine.location().tile_at(src).unwrap().unit().unwrap();
    let info = game_engine.unit_info(unit.id()).unwrap();
    assert_eq!(unit.unit_type(), UnitType::Soldier);
    assert_eq!(info.moves_left(), info.description().max_moves);
}

fn successful_attack(src: Coord, dst: Coord) -> (Vec<Player>, Vec<ID>, GameEngine) {
    let (pl, ri, mut game_engine) = create_valid_engine();

    let old_dst_region_id = game_engine.location().region_at(dst).unwrap().id();
    let old_dst_unit = game_engine.location().tile_at(dst).unwrap().unit().cloned();
    let action = PlayerAction::MoveUnit { src, dst };
    let res = game_engine.act(pl[0].id(), action);

    assert_eq!(res, Ok(()));
    assert_eq!(game_engine.location().tile_at(src).unwrap().unit(), None);

    assert!(old_dst_unit.is_none() || game_engine.unit_info(old_dst_unit.unwrap().id()).is_none());

    {
        let unit = game_engine.location().tile_at(dst).unwrap().unit().unwrap();
        let info = game_engine.unit_info(unit.id()).unwrap();
        assert_eq!(unit.unit_type(), UnitType::Soldier);

        // Unit cannot move after attack
        assert_eq!(info.moves_left(), 0);
        let src_region = game_engine.location().region_at(src).unwrap();
        let dst_region = game_engine.location().region_at(dst).unwrap();
        assert_eq!(src_region, dst_region);

        let old_region = game_engine.location().region(old_dst_region_id);
        assert!(old_region.is_none() || !old_region.unwrap().coordinates().contains(&dst));
    }

    (pl, ri, game_engine)
}

#[test]
fn move_unit_outside_region_no_unit_all_ok() {
    let (_, _, game_engine) = successful_attack(Coord::new(1, 0), Coord::new(1, 1));

    let new_split_reg_one = game_engine.location().region_at(Coord::new(2, 0)).unwrap();
    let new_split_reg_two = game_engine.location().region_at(Coord::new(0, 1)).unwrap();
    assert_ne!(new_split_reg_one, new_split_reg_two);

    assert_eq!(game_engine.region_money(new_split_reg_one.id()), Some(0));
    assert_eq!(game_engine.region_money(new_split_reg_two.id()), Some(0));

    let old_capital = game_engine
        .location()
        .tile_at(Coord::new(2, 0))
        .unwrap()
        .unit();
    assert_eq!(old_capital, None);

    let militia = game_engine
        .location()
        .tile_at(Coord::new(0, 1))
        .unwrap()
        .unit();
    assert!(militia.is_some());
}

#[test]
fn move_unit_outside_region_has_unit_all_ok() {
    let (_, ri, game_engine) = successful_attack(Coord::new(1, 0), Coord::new(0, 1));

    assert_eq!(
        game_engine.region_money(ri[1]),
        Some(CONTROLLED_REGION_STARTING_MONEY)
    );
    assert!(game_engine
        .location()
        .region(ri[0])
        .unwrap()
        .coordinates()
        .contains(&Coord::new(-1, 1)));

    let region_info = game_engine.region_info(ri[0]).unwrap();
    assert_eq!(region_info.money_balance, CONTROLLED_REGION_STARTING_MONEY);
    assert_eq!(region_info.income_from_fields, 6);
    assert_eq!(game_engine.region_money(ri[2]), None);
}

#[test]
fn move_unit_outside_region_has_capital_capital_moves_all_ok() {
    let (_, ri, game_engine) = successful_attack(Coord::new(1, 0), Coord::new(2, 0));

    assert_eq!(
        game_engine.region_money(ri[1]),
        Some(CONTROLLED_REGION_STARTING_MONEY)
    );
    let new_capital = game_engine
        .location()
        .tile_at(Coord::new(1, 1))
        .unwrap()
        .unit();
    assert!(new_capital.is_some());
    assert_eq!(new_capital.unwrap().unit_type(), UnitType::Village);
}

#[test]
fn move_unit_outside_region_has_capital_region_destroyed_all_ok() {
    let (pl, ri, game_engine) = successful_attack(Coord::new(1, 0), Coord::new(-1, 0));

    assert_eq!(
        game_engine
            .location()
            .tile_at(Coord::new(-2, 1))
            .unwrap()
            .unit(),
        None
    );
    assert_eq!(game_engine.region_money(ri[3]), Some(0));
    assert_eq!(game_engine.player_activity(pl[2].id()), Some(false));
}

#[test]
fn move_unit_and_merge_all_ok_goal_not_moved_before() {
    let (pl, _, mut game_engine) = create_valid_engine();
    let dst = Coord::new(2, -1);
    let unit_id = game_engine
        .create_and_place_unit(UnitType::Militia, dst)
        .unwrap();
    game_engine.refill_unit_moves(unit_id);

    let src = Coord::new(1, 0);
    let action = PlayerAction::MoveUnit { src, dst };
    let res = game_engine.act(pl[0].id(), action);

    assert_eq!(res, Ok(()));

    let unit = game_engine.location().tile_at(dst).unwrap().unit().unwrap();
    let info = game_engine.unit_info(unit.id()).unwrap();
    assert_eq!(unit.unit_type(), UnitType::Knight);
    assert_eq!(info.moves_left(), STANDARD_MOVES_NUM);
}

#[test]
fn move_unit_and_merge_all_ok_goal_moved_before() {
    let (pl, _, mut game_engine) = create_valid_engine();
    let dst = Coord::new(2, -1);
    game_engine
        .create_and_place_unit(UnitType::Militia, dst)
        .unwrap();

    let src = Coord::new(1, 0);
    let action = PlayerAction::MoveUnit { src, dst };
    let res = game_engine.act(pl[0].id(), action);

    assert_eq!(res, Ok(()));

    let unit = game_engine.location().tile_at(dst).unwrap().unit().unwrap();
    let info = game_engine.unit_info(unit.id()).unwrap();
    assert_eq!(unit.unit_type(), UnitType::Knight);
    assert_eq!(info.moves_left(), 0);
}

#[test]
fn move_unit_and_merge_no_result_error() {
    let (pl, _, mut game_engine) = create_valid_engine();
    let dst = Coord::new(2, -1);
    game_engine
        .create_and_place_unit(UnitType::Knight, dst)
        .unwrap();

    let src = Coord::new(1, 0);
    let action = PlayerAction::MoveUnit { src, dst };
    let res = game_engine.act(pl[0].id(), action);

    assert_eq!(res, Err(PlayerActionError::InaccessibleLocation(dst)));

    let unit = game_engine.location().tile_at(dst).unwrap().unit().unwrap();
    let info = game_engine.unit_info(unit.id()).unwrap();
    assert_eq!(unit.unit_type(), UnitType::Knight);
    assert_eq!(info.moves_left(), 0);

    let unit = game_engine.location().tile_at(src).unwrap().unit().unwrap();
    let info = game_engine.unit_info(unit.id()).unwrap();
    assert_eq!(unit.unit_type(), UnitType::Soldier);
    assert_eq!(info.moves_left(), STANDARD_MOVES_NUM);
}

#[test]
fn move_unit_on_grave() {
    let (pl, _, mut game_engine) = create_valid_engine();
    let dst = Coord::new(2, -1);
    game_engine
        .create_and_place_unit(UnitType::Grave, dst)
        .unwrap();

    let src = Coord::new(1, 0);
    let action = PlayerAction::MoveUnit { src, dst };
    let res = game_engine.act(pl[0].id(), action);

    assert_eq!(res, Ok(()));

    let unit = game_engine.location().tile_at(dst).unwrap().unit().unwrap();
    let info = game_engine.unit_info(unit.id()).unwrap();
    assert_eq!(unit.unit_type(), UnitType::Soldier);
    assert_eq!(info.moves_left(), 0);
}

#[test]
fn move_unit_on_tree() {
    let (pl, _, mut game_engine) = create_valid_engine();
    let dst = Coord::new(2, -1);
    game_engine
        .create_and_place_unit(UnitType::PineTree, dst)
        .unwrap();

    let src = Coord::new(1, 0);
    let action = PlayerAction::MoveUnit { src, dst };
    let res = game_engine.act(pl[0].id(), action);

    assert_eq!(res, Ok(()));

    let unit = game_engine.location().tile_at(dst).unwrap().unit().unwrap();
    let info = game_engine.unit_info(unit.id()).unwrap();
    assert_eq!(unit.unit_type(), UnitType::Soldier);
    assert_eq!(info.moves_left(), 0);
}

#[test]
fn end_players_turn_changes_player() {
    let (pl, _, mut game_engine) = create_valid_engine();
    let action = PlayerAction::EndTurn;
    let res = game_engine.act(pl[0].id(), action);

    assert_eq!(res, Ok(()));
    assert_eq!(game_engine.current_turn(), 1);
    assert_eq!(*game_engine.active_player(), pl[1]);
    assert_eq!(
        game_engine.act(pl[0].id(), action),
        Err(PlayerActionError::OtherPlayersTurn(pl[1].id()))
    );
}

#[test]
fn end_players_turn_skips_inactive() {
    let (pl, ri, mut game_engine) = create_valid_engine();
    game_engine.modify_money(ri[0], description(UnitType::Soldier).purchase_cost);
    game_engine
        .act(
            pl[0].id(),
            PlayerAction::MoveUnit {
                src: Coord::new(1, 0),
                dst: Coord::new(0, 1),
            },
        ).unwrap();
    game_engine
        .act(
            pl[0].id(),
            PlayerAction::PlaceNewUnit(ri[0], UnitType::Soldier, Coord::new(2, 0)),
        ).unwrap();
    let res = game_engine.act(pl[0].id(), PlayerAction::EndTurn);

    assert_eq!(res, Ok(()));
    assert_eq!(game_engine.current_turn(), 1);
    assert_eq!(*game_engine.active_player(), pl[2]);
}

#[test]
fn end_players_turn_from_last_player_changes_turn() {
    let (pl, ri, mut game_engine) = create_valid_engine();
    game_engine.act(pl[0].id(), PlayerAction::EndTurn).unwrap();
    game_engine.act(pl[1].id(), PlayerAction::EndTurn).unwrap();
    game_engine.act(pl[2].id(), PlayerAction::EndTurn).unwrap();

    assert_eq!(game_engine.current_turn(), 2);
    assert_eq!(*game_engine.active_player(), pl[0]);

    let soldier = game_engine
        .location()
        .tile_at(Coord::new(1, 0))
        .unwrap()
        .unit()
        .unwrap();
    let info = game_engine.unit_info(soldier.id()).unwrap();
    assert_eq!(info.moves_left(), description(UnitType::Soldier).max_moves);

    let militia = game_engine
        .location()
        .tile_at(Coord::new(0, 1))
        .unwrap()
        .unit()
        .unwrap();
    let info = game_engine.unit_info(militia.id()).unwrap();
    assert_eq!(info.moves_left(), description(UnitType::Militia).max_moves);

    assert_eq!(game_engine.region_money(ri[0]), Some(8));
    assert_eq!(game_engine.region_money(ri[1]), Some(11));
    assert_eq!(game_engine.region_money(ri[2]), Some(0));
    assert_eq!(game_engine.region_money(ri[3]), Some(12));
}

#[test]
fn end_turn_makes_active_player_inactive_if_nothing_left() {
    let (pl, _ri, mut game_engine) = create_valid_engine();
    game_engine
        .act(
            pl[0].id(),
            PlayerAction::MoveUnit {
                src: Coord::new(1, 0),
                dst: Coord::new(1, 1),
            },
        ).unwrap();
    game_engine.act(pl[0].id(), PlayerAction::EndTurn).unwrap();
    game_engine.act(pl[1].id(), PlayerAction::EndTurn).unwrap();

    // Before changing turn pl[1] should be active
    assert_eq!(game_engine.player_activity(pl[1].id()), Some(true));

    game_engine.act(pl[2].id(), PlayerAction::EndTurn).unwrap();

    assert_eq!(game_engine.current_turn(), 2);
    assert_eq!(*game_engine.active_player(), pl[0]);
    assert_eq!(game_engine.player_activity(pl[1].id()), Some(false));

    let grave = game_engine
        .location()
        .tile_at(Coord::new(0, 1))
        .unwrap()
        .unit();
    assert!(grave.is_some());
    assert_eq!(grave.unwrap().unit_type(), UnitType::Grave);
}

#[test]
fn end_turn_skips_first_player_if_he_is_inactive() {
    let (pl, ri, mut game_engine) = create_valid_engine();
    game_engine.modify_money(ri[1], description(UnitType::Knight).purchase_cost * 2);

    game_engine.act(pl[0].id(), PlayerAction::EndTurn).unwrap();
    game_engine
        .act(
            pl[1].id(),
            PlayerAction::PlaceNewUnit(ri[1], UnitType::Knight, Coord::new(1, 0)),
        ).unwrap();
    game_engine
        .act(
            pl[1].id(),
            PlayerAction::PlaceNewUnit(ri[1], UnitType::Knight, Coord::new(1, -1)),
        ).unwrap();
    game_engine.act(pl[1].id(), PlayerAction::EndTurn).unwrap();
    game_engine.act(pl[2].id(), PlayerAction::EndTurn).unwrap();

    assert_eq!(game_engine.current_turn(), 2);
    assert_eq!(*game_engine.active_player(), pl[1]);
}

#[test]
fn end_turn_selects_winner_if_any() {
    let (pl, ri, mut game_engine) = create_valid_engine();
    game_engine.modify_money(ri[0], description(UnitType::Soldier).purchase_cost);
    game_engine
        .act(
            pl[0].id(),
            PlayerAction::MoveUnit {
                src: Coord::new(1, 0),
                dst: Coord::new(1, 1),
            },
        ).unwrap();
    game_engine
        .act(
            pl[0].id(),
            PlayerAction::PlaceNewUnit(ri[0], UnitType::Soldier, Coord::new(-1, 0)),
        ).unwrap();
    game_engine.act(pl[0].id(), PlayerAction::EndTurn).unwrap();
    game_engine.act(pl[1].id(), PlayerAction::EndTurn).unwrap();

    assert_eq!(game_engine.current_turn(), 2);
    assert_eq!(*game_engine.active_player(), pl[0]);
    assert_eq!(game_engine.winner(), Some(pl[0].id()));
}

#[test]
fn end_turn_spawns_graves_if_units_die_from_starvation() {
    let (pl, ri, mut game_engine) = create_valid_engine();
    game_engine.modify_money(ri[0], -CONTROLLED_REGION_STARTING_MONEY);
    game_engine.act(pl[0].id(), PlayerAction::EndTurn).unwrap();
    game_engine.act(pl[1].id(), PlayerAction::EndTurn).unwrap();
    game_engine.act(pl[2].id(), PlayerAction::EndTurn).unwrap();

    assert_eq!(game_engine.current_turn(), 2);
    assert_eq!(*game_engine.active_player(), pl[0]);

    let grave = game_engine
        .location()
        .tile_at(Coord::new(1, 0))
        .unwrap()
        .unit();
    assert!(grave.is_some());
    assert_eq!(grave.unwrap().unit_type(), UnitType::Grave);
}

#[test]
fn end_turn_spawns_trees_on_top_of_graves() {
    let (pl, _ri, mut game_engine) = create_valid_engine();
    let coordinate = Coord::new(2, -1);
    game_engine
        .create_and_place_unit(UnitType::Grave, coordinate)
        .unwrap();
    game_engine.act(pl[0].id(), PlayerAction::EndTurn).unwrap();
    game_engine.act(pl[1].id(), PlayerAction::EndTurn).unwrap();
    game_engine.act(pl[2].id(), PlayerAction::EndTurn).unwrap();

    assert_eq!(game_engine.current_turn(), 2);
    assert_eq!(*game_engine.active_player(), pl[0]);

    let tree = game_engine.location().tile_at(coordinate).unwrap().unit();
    assert!(tree.is_some());
    assert_eq!(tree.unwrap().unit_type(), UnitType::PineTree);
}

#[test]
fn end_turn_dont_spreads_trees_on_existing_units() {
    let (pl, _ri, mut game_engine) = create_valid_engine();
    let coordinate = Coord::new(1, 0);
    game_engine.maybe_remove_unit(coordinate).unwrap();
    game_engine
        .create_and_place_unit(UnitType::PalmTree, coordinate)
        .unwrap();

    game_engine.act(pl[0].id(), PlayerAction::EndTurn).unwrap();
    game_engine.act(pl[1].id(), PlayerAction::EndTurn).unwrap();
    game_engine.act(pl[2].id(), PlayerAction::EndTurn).unwrap();

    assert_eq!(game_engine.current_turn(), 2);
    assert_eq!(*game_engine.active_player(), pl[0]);

    let tree = game_engine
        .location()
        .tile_at(coordinate)
        .unwrap()
        .unit()
        .unwrap();
    assert_eq!(tree.unit_type(), UnitType::PalmTree);

    let tree = game_engine
        .location()
        .tile_at(Coord::new(2, -1))
        .unwrap()
        .unit()
        .unwrap();
    assert_eq!(tree.unit_type(), UnitType::PalmTree);

    let tree = game_engine
        .location()
        .tile_at(Coord::new(1, 1))
        .unwrap()
        .unit()
        .unwrap();
    assert_eq!(tree.unit_type(), UnitType::PalmTree);

    let unit = game_engine
        .location()
        .tile_at(Coord::new(0, 1))
        .unwrap()
        .unit()
        .unwrap();
    assert_eq!(unit.unit_type(), UnitType::Militia);
}

#[test]
fn capital_replaces_unit_if_old_one_is_removed_and_there_is_no_space_left() {
    let (pl, _ri, mut game_engine) = create_valid_engine();
    game_engine
        .create_and_place_unit(UnitType::Militia, Coord::new(1, 1))
        .unwrap();
    game_engine
        .act(
            pl[0].id(),
            PlayerAction::MoveUnit {
                src: Coord::new(1, 0),
                dst: Coord::new(2, 0),
            },
        ).unwrap();

    let unit_one = game_engine
        .location()
        .tile_at(Coord::new(1, 1))
        .unwrap()
        .unit()
        .unwrap();
    let unit_two = game_engine
        .location()
        .tile_at(Coord::new(0, 1))
        .unwrap()
        .unit()
        .unwrap();
    assert!(
        unit_one.unit_type() == UnitType::Village || unit_two.unit_type() == UnitType::Village
    );
    assert!(
        unit_one.unit_type() == UnitType::Militia || unit_two.unit_type() == UnitType::Militia
    );
}

#[test]
fn upgrade_unit_all_ok() {
    let (pl, ri, mut game_engine) = create_valid_engine();
    let coordinate = Coord::new(1, 0);
    let action = PlayerAction::UpgradeUnit(coordinate);
    let res = game_engine.act(pl[0].id(), action);

    assert_eq!(res, Ok(()));
    assert_eq!(game_engine.region_money(ri[0]), Some(0));

    let unit = game_engine
        .location()
        .tile_at(coordinate)
        .unwrap()
        .unit()
        .unwrap();
    let info = game_engine.unit_info(unit.id()).unwrap();
    assert_eq!(unit.unit_type(), UnitType::Knight);
    assert_eq!(info.moves_left(), 0);
}

#[test]
fn upgrade_unit_not_upgradable_error() {
    let (pl, ri, mut game_engine) = create_valid_engine();
    let coordinate = Coord::new(1, -1);
    let action = PlayerAction::UpgradeUnit(coordinate);
    let res = game_engine.act(pl[0].id(), action);

    assert_eq!(res, Err(PlayerActionError::NoUpgrade(UnitType::Village)));
    assert_eq!(
        game_engine.region_money(ri[0]),
        Some(CONTROLLED_REGION_STARTING_MONEY)
    );

    let unit = game_engine
        .location()
        .tile_at(coordinate)
        .unwrap()
        .unit()
        .unwrap();
    assert_eq!(unit.unit_type(), UnitType::Village);
}

#[test]
fn upgrade_unit_of_other_player_error() {
    let (pl, ri, mut game_engine) = create_valid_engine();

    let coordinate = Coord::new(0, 1);
    let action = PlayerAction::UpgradeUnit(coordinate);
    let res = game_engine.act(pl[0].id(), action);

    assert_eq!(res, Err(PlayerActionError::NotOwned(coordinate)));
    assert_eq!(
        game_engine.region_money(ri[0]),
        Some(CONTROLLED_REGION_STARTING_MONEY)
    );
    assert_eq!(
        game_engine.region_money(ri[1]),
        Some(CONTROLLED_REGION_STARTING_MONEY)
    );

    let unit = game_engine
        .location()
        .tile_at(coordinate)
        .unwrap()
        .unit()
        .unwrap();
    assert_eq!(unit.unit_type(), UnitType::Militia);
}

#[test]
fn upgrade_unit_no_unit_error() {
    let (pl, ri, mut game_engine) = create_valid_engine();
    let coordinate = Coord::new(2, -1);
    let action = PlayerAction::UpgradeUnit(coordinate);
    let res = game_engine.act(pl[0].id(), action);

    assert_eq!(res, Err(PlayerActionError::NoUnit(coordinate)));
    assert_eq!(
        game_engine.region_money(ri[0]),
        Some(CONTROLLED_REGION_STARTING_MONEY)
    );

    let unit = game_engine.location().tile_at(coordinate).unwrap().unit();
    assert_eq!(unit, None);
}

#[test]
fn upgrade_unit_no_money_error() {
    let (pl, ri, mut game_engine) = create_valid_engine();
    game_engine.modify_money(ri[0], -5);

    let coordinate = Coord::new(1, 0);
    let action = PlayerAction::UpgradeUnit(coordinate);
    let res = game_engine.act(pl[0].id(), action);

    assert_eq!(res, Err(PlayerActionError::NotEnoughMoney(ri[0])));
    assert_eq!(
        game_engine.region_money(ri[0]),
        Some(CONTROLLED_REGION_STARTING_MONEY - 5)
    );

    let unit = game_engine
        .location()
        .tile_at(coordinate)
        .unwrap()
        .unit()
        .unwrap();
    assert_eq!(unit.unit_type(), UnitType::Soldier);
}

