use yasc::game::consts::CONTROLLED_REGION_STARTING_MONEY;
use yasc::game::TileSurface::{Land, Water};
use yasc::game::{
    validate_location, Coord, CoordSet, EngineValidationError, GameEngine, IdProducer, Location,
    Player, PlayerAction, PlayerActionError, Region, RegionInfo, Tile, TileMap, Unit, UnitInfo,
    UnitType, ID,
};

fn cells_of(list: &[(i32, i32)]) -> CoordSet {
    let mut set = CoordSet::new();
    for &(x, y) in list {
        set.insert(Coord::new(x, y));
    }
    set
}

/// The board of three players, with the coordinates
///       0/-1  1/-1  2/-1  3/-1
///   -1/0   0/0   1/0   2/0
/// -2/1  -1/1  0/1   1/1
/// where 3/-1 and 0/0 are water.
fn board() -> (Vec<Player>, Vec<ID>, GameEngine) {
    let mut ids = IdProducer::default();
    let mut map = TileMap::new();
    let places = [
        (0, -1, Land),
        (1, -1, Land),
        (2, -1, Land),
        (3, -1, Water),
        (-1, 0, Land),
        (0, 0, Water),
        (1, 0, Land),
        (2, 0, Land),
        (-2, 1, Land),
        (-1, 1, Land),
        (0, 1, Land),
        (1, 1, Land),
    ];
    for &(x, y, surface) in places.iter() {
        map.insert(Coord::new(x, y), Tile::new(ids.next_id(), surface));
    }
    let players = vec![
        Player::new(ids.next_id()),
        Player::new(ids.next_id()),
        Player::new(ids.next_id()),
    ];
    let regions = vec![ids.next_id(), ids.next_id(), ids.next_id(), ids.next_id()];
    let list = vec![
        Region::new(
            regions[0],
            players[0],
            cells_of(&[(0, -1), (1, -1), (2, -1), (1, 0)]),
        ),
        Region::new(regions[1], players[1], cells_of(&[(2, 0), (1, 1), (0, 1)])),
        Region::new(regions[2], players[0], cells_of(&[(-1, 1)])),
        Region::new(regions[3], players[2], cells_of(&[(-1, 0), (-2, 1)])),
    ];
    let mut location = Location::new(map, list).unwrap();
    let units = [
        (UnitType::Village, 1, -1),
        (UnitType::Soldier, 1, 0),
        (UnitType::Militia, 0, 1),
        (UnitType::Village, 2, 0),
        (UnitType::Village, -1, 0),
    ];
    for &(unit_type, x, y) in units.iter() {
        location
            .place_unit(Unit::new(ids.next_id(), unit_type), Coord::new(x, y))
            .unwrap();
    }
    let engine = GameEngine::new(location, players.clone(), ids).unwrap();
    (players, regions, engine)
}

fn in_order(engine: &GameEngine) {
    assert_eq!(validate_location(engine.location()), Ok(()));
    assert_eq!(Location::validate(engine.location()), Ok(()));
    assert!(engine.has_room());
    let mut copy = engine.clone();
    copy.repair();
    assert_eq!(&copy, engine);
}

#[test]
fn location_stays_lawful_through_a_game() {
    let (pl, ri, mut engine) = board();
    in_order(&engine);
    let script = vec![
        (
            0,
            PlayerAction::MoveUnit {
                src: Coord::new(1, 0),
                dst: Coord::new(1, 1),
            },
        ),
        (0, PlayerAction::EndTurn),
        (
            1,
            PlayerAction::MoveUnit {
                src: Coord::new(0, 1),
                dst: Coord::new(-1, 1),
            },
        ),
        (1, PlayerAction::EndTurn),
        (
            2,
            PlayerAction::PlaceNewUnit(ri[3], UnitType::Militia, Coord::new(-2, 1)),
        ),
        (2, PlayerAction::EndTurn),
        (0, PlayerAction::EndTurn),
        (1, PlayerAction::EndTurn),
        (2, PlayerAction::EndTurn),
        (0, PlayerAction::EndTurn),
    ];
    for (who, action) in script {
        let _ = engine.act(pl[who].id(), action);
        in_order(&engine);
    }
    assert!(engine.current_turn() >= 2);
}

#[test]
fn regions_of_one_owner_never_touch() {
    let (pl, _, mut engine) = board();
    engine
        .act(
            pl[0].id(),
            PlayerAction::MoveUnit {
                src: Coord::new(1, 0),
                dst: Coord::new(0, 1),
            },
        )
        .unwrap();
    let location = engine.location();
    let coordinates = location.map().coordinates();
    for a in coordinates.iter() {
        for b in a.neighbors().iter() {
            if let (Some(one), Some(other)) = (location.region_at(*a), location.region_at(*b)) {
                if one.id() != other.id() {
                    assert_ne!(one.owner().id(), other.owner().id());
                }
            }
        }
    }
}

#[test]
fn every_large_region_has_one_capital() {
    let (pl, _, mut engine) = board();
    engine
        .act(
            pl[0].id(),
            PlayerAction::MoveUnit {
                src: Coord::new(1, 0),
                dst: Coord::new(2, 0),
            },
        )
        .unwrap();
    let location = engine.location();
    for region in location.regions() {
        let mut capitals = 0;
        for c in region.coordinates().to_vec() {
            if let Some(unit) = location.tile_at(c).unwrap().unit() {
                if unit.unit_type() == UnitType::Village {
                    capitals += 1;
                }
            }
        }
        if region.coordinates().len() >= 2 {
            assert_eq!(capitals, 1);
        }
    }
}

#[test]
fn repair_twice_is_repair_once() {
    let (_, _, mut engine) = board();
    engine.repair();
    let once = engine.clone();
    engine.repair();
    assert_eq!(engine, once);
}

#[test]
fn repair_counts_stale_records_anew() {
    let (pl, ri, engine) = board();
    let location = engine.location().clone();
    let mut activity = Vec::new();
    for p in pl.iter() {
        activity.push((p.id(), true));
    }
    let mut regions = Vec::new();
    for &id in ri.iter() {
        regions.push((
            id,
            RegionInfo {
                money_balance: engine.region_money(id).unwrap(),
                income_from_fields: 77,
                maintenance_cost: -3,
            },
        ));
    }
    let mut units = Vec::new();
    for c in location.map().coordinates() {
        if let Some(unit) = location.tile_at(c).unwrap().unit() {
            let moves = engine.unit_info(unit.id()).unwrap().moves_left();
            units.push((
                unit.id(),
                UnitInfo {
                    unit_type: UnitType::Grave,
                    moves_left: moves,
                },
            ));
        }
    }
    let mut restored = GameEngine::from_parts(
        location,
        pl.clone(),
        activity,
        engine.winner(),
        engine.current_turn(),
        engine.active_player_num(),
        regions,
        units,
        engine.last_issued_id(),
    );
    assert_ne!(restored, engine);
    restored.repair();
    assert_eq!(restored, engine);
    assert_eq!(restored.validate(), Ok(()));
}

#[test]
fn refused_action_changes_nothing() {
    let (pl, ri, mut engine) = board();
    let before = engine.clone();
    let refused = vec![
        (
            1,
            PlayerAction::EndTurn,
            PlayerActionError::OtherPlayersTurn(pl[0].id()),
        ),
        (
            0,
            PlayerAction::PlaceNewUnit(ri[0], UnitType::GreatKnight, Coord::new(2, -1)),
            PlayerActionError::NotEnoughMoney(ri[0]),
        ),
        (
            0,
            PlayerAction::PlaceNewUnit(ri[0], UnitType::Village, Coord::new(2, -1)),
            PlayerActionError::CannotBePlacedByPlayer(UnitType::Village),
        ),
        (
            0,
            PlayerAction::PlaceNewUnit(99, UnitType::Militia, Coord::new(2, -1)),
            PlayerActionError::InaccessibleLocation(Coord::new(2, -1)),
        ),
        (
            0,
            PlayerAction::MoveUnit {
                src: Coord::new(0, 1),
                dst: Coord::new(1, 1),
            },
            PlayerActionError::NotOwned(Coord::new(0, 1)),
        ),
        (
            0,
            PlayerAction::MoveUnit {
                src: Coord::new(2, -1),
                dst: Coord::new(0, -1),
            },
            PlayerActionError::NoUnit(Coord::new(2, -1)),
        ),
        (
            0,
            PlayerAction::MoveUnit {
                src: Coord::new(1, 0),
                dst: Coord::new(1, 0),
            },
            PlayerActionError::InaccessibleLocation(Coord::new(1, 0)),
        ),
        (
            0,
            PlayerAction::MoveUnit {
                src: Coord::new(3, -1),
                dst: Coord::new(2, -1),
            },
            PlayerActionError::InaccessibleLocation(Coord::new(3, -1)),
        ),
        (
            0,
            PlayerAction::UpgradeUnit(Coord::new(1, -1)),
            PlayerActionError::NoUpgrade(UnitType::Village),
        ),
        (
            0,
            PlayerAction::UpgradeUnit(Coord::new(0, 0)),
            PlayerActionError::InaccessibleLocation(Coord::new(0, 0)),
        ),
    ];
    for (who, action, error) in refused {
        assert_eq!(engine.act(pl[who].id(), action), Err(error));
        assert_eq!(engine, before);
    }
}

#[test]
fn attack_on_a_defended_tile_is_refused() {
    let (pl, ri, mut engine) = board();
    engine.act(pl[0].id(), PlayerAction::EndTurn).unwrap();
    let before = engine.clone();
    // The militia attacks with one; the village of the region defends its
    // neighbour with one.
    let res = engine.act(
        pl[1].id(),
        PlayerAction::MoveUnit {
            src: Coord::new(0, 1),
            dst: Coord::new(1, 0),
        },
    );
    assert_eq!(
        res,
        Err(PlayerActionError::InaccessibleLocation(Coord::new(1, 0)))
    );
    assert_eq!(engine, before);
    assert_eq!(
        engine.region_money(ri[1]),
        Some(CONTROLLED_REGION_STARTING_MONEY)
    );
}

#[test]
fn game_begins_with_starting_money_and_full_moves() {
    let (pl, ri, engine) = board();
    assert_eq!(engine.players(), &pl);
    assert_eq!(engine.active_player_num(), 0);
    assert_eq!(engine.winner(), None);
    assert_eq!(engine.region_money(ri[0]), Some(10));
    assert_eq!(engine.region_money(ri[2]), Some(0));
    let info = engine.region_info(ri[0]).unwrap();
    assert_eq!(info.income_from_fields, 4);
    assert_eq!(info.maintenance_cost, 6);
    let soldier = *engine
        .location()
        .tile_at(Coord::new(1, 0))
        .unwrap()
        .unit()
        .unwrap();
    assert_eq!(engine.unit_info(soldier.id()).unwrap().moves_left(), 4);
    assert_eq!(engine.unit_info(0), None);
    assert_eq!(engine.player_activity(pl[1].id()), Some(true));
    assert_eq!(engine.player_activity(0), None);
    assert_eq!(engine.validate(), Ok(()));
}

#[test]
fn engine_is_not_made_of_an_unlawful_location() {
    let mut ids = IdProducer::default();
    let mut map = TileMap::new();
    map.insert(Coord::new(0, 0), Tile::new(ids.next_id(), Land));
    map.insert(Coord::new(1, 0), Tile::new(ids.next_id(), Land));
    let player = Player::new(ids.next_id());
    let region = Region::new(ids.next_id(), player, cells_of(&[(0, 0), (1, 0)]));
    let location = Location::new(map, vec![region]).unwrap();
    let res = GameEngine::new(location.clone(), vec![player], ids.clone());
    assert!(matches!(res, Err(EngineValidationError::LocationError(_))));

    let mut with_capital = location.clone();
    with_capital
        .place_unit(Unit::new(7, UnitType::Village), Coord::new(0, 0))
        .unwrap();
    let res = GameEngine::new(with_capital.clone(), Vec::new(), ids.clone());
    assert!(matches!(res, Err(EngineValidationError::RegionsError(_))));

    let mut twice = with_capital.clone();
    twice
        .place_unit(Unit::new(7, UnitType::Militia), Coord::new(1, 0))
        .unwrap();
    let res = GameEngine::new(twice, vec![player], ids.clone());
    assert_eq!(res, Err(EngineValidationError::UnitWithoutInfo(7)));

    let engine = GameEngine::new(with_capital, vec![player], ids).unwrap();
    assert_eq!(engine.last_issued_id(), 7);
}

#[test]
fn split_money_goes_to_the_large_pieces() {
    // A row of five tiles of one player with another player's unit next to
    // its middle: taking the middle leaves two pieces of two tiles.
    let mut ids = IdProducer::default();
    let mut map = TileMap::new();
    for x in 0..5 {
        map.insert(Coord::new(x, 0), Tile::new(ids.next_id(), Land));
    }
    map.insert(Coord::new(2, -1), Tile::new(ids.next_id(), Land));
    map.insert(Coord::new(3, -1), Tile::new(ids.next_id(), Land));
    let one = Player::new(ids.next_id());
    let two = Player::new(ids.next_id());
    let row = ids.next_id();
    let camp = ids.next_id();
    let list = vec![
        Region::new(
            row,
            one,
            cells_of(&[(0, 0), (1, 0), (2, 0), (3, 0), (4, 0)]),
        ),
        Region::new(camp, two, cells_of(&[(2, -1), (3, -1)])),
    ];
    let mut location = Location::new(map, list).unwrap();
    location
        .place_unit(Unit::new(ids.next_id(), UnitType::Village), Coord::new(0, 0))
        .unwrap();
    location
        .place_unit(Unit::new(ids.next_id(), UnitType::Village), Coord::new(3, -1))
        .unwrap();
    location
        .place_unit(Unit::new(ids.next_id(), UnitType::Knight), Coord::new(2, -1))
        .unwrap();
    let mut engine = GameEngine::new(location, vec![one, two], ids).unwrap();
    engine.modify_money(row, 5);
    engine.act(one.id(), PlayerAction::EndTurn).unwrap();
    engine
        .act(
            two.id(),
            PlayerAction::MoveUnit {
                src: Coord::new(2, -1),
                dst: Coord::new(2, 0),
            },
        )
        .unwrap();
    let left = engine.location().region_at(Coord::new(0, 0)).unwrap();
    let right = engine.location().region_at(Coord::new(4, 0)).unwrap();
    assert_ne!(left.id(), right.id());
    // Fifteen in two shares: eight for the first piece, seven for the second.
    let shares = [
        engine.region_money(left.id()).unwrap(),
        engine.region_money(right.id()).unwrap(),
    ];
    assert!(shares == [8, 7] || shares == [7, 8]);
    assert_eq!(engine.region_money(row).is_some(), true);
    // The piece on the side that comes first in the order of the directions
    // keeps the identifier; the other piece gets the next one that is free,
    // and the new capital the one after that.
    assert_eq!(right.id(), row);
    assert_eq!(left.id(), 15);
    assert_eq!(shares, [7, 8]);
    let capital = *engine
        .location()
        .tile_at(Coord::new(3, 0))
        .unwrap()
        .unit()
        .unwrap();
    assert_eq!(capital, Unit::new(16, UnitType::Village));
    assert_eq!(engine.last_issued_id(), 16);
    // Both pieces have a capital of their own again.
    in_order(&engine);
    let knight = *engine
        .location()
        .tile_at(Coord::new(2, 0))
        .unwrap()
        .unit()
        .unwrap();
    assert_eq!(knight.unit_type(), UnitType::Knight);
    assert_eq!(engine.unit_info(knight.id()).unwrap().moves_left(), 0);
}

#[test]
fn palms_grow_by_the_water_and_pines_in_even_turns() {
    let (pl, _, mut engine) = board();
    let soldier = Coord::new(1, 0);
    engine.maybe_remove_unit(soldier).unwrap();
    engine
        .create_and_place_unit(UnitType::PineTree, soldier)
        .unwrap();
    for turn in 1..=2 {
        for p in pl.iter() {
            engine.act(p.id(), PlayerAction::EndTurn).unwrap();
        }
        assert_eq!(engine.current_turn(), turn + 1);
    }
    // After the first turn palms stand on the two empty tiles next to the
    // pine and the water; after the second, an even turn, a pine stands on
    // the tile next to two trees that lies inland.
    let palm = engine
        .location()
        .tile_at(Coord::new(2, -1))
        .unwrap()
        .unit()
        .unwrap()
        .unit_type();
    assert_eq!(palm, UnitType::PalmTree);
    in_order(&engine);
}

fn unit_at(engine: &GameEngine, x: i32, y: i32) -> Option<Unit> {
    engine
        .location()
        .tile_at(Coord::new(x, y))
        .unwrap()
        .unit()
        .copied()
}

fn step(x0: i32, y0: i32, x1: i32, y1: i32) -> PlayerAction {
    PlayerAction::MoveUnit {
        src: Coord::new(x0, y0),
        dst: Coord::new(x1, y1),
    }
}

#[test]
fn bought_militia_costs_ten_and_cannot_move_yet() {
    let (pl, ri, mut engine) = board();
    let res = engine.act(
        pl[0].id(),
        PlayerAction::PlaceNewUnit(ri[0], UnitType::Militia, Coord::new(2, -1)),
    );
    assert_eq!(res, Ok(()));
    assert_eq!(engine.region_money(ri[0]), Some(0));
    let unit = unit_at(&engine, 2, -1).unwrap();
    assert_eq!(unit.unit_type(), UnitType::Militia);
    assert_eq!(unit.id(), 25);
    assert_eq!(
        engine.unit_info(unit.id()),
        Some(UnitInfo {
            unit_type: UnitType::Militia,
            moves_left: 0
        })
    );
    assert_eq!(engine.last_issued_id(), 25);
    assert_eq!(engine.region_info(ri[0]).unwrap().maintenance_cost, 8);
    // Nothing is left to buy another one with.
    let before = engine.clone();
    assert_eq!(
        engine.act(
            pl[0].id(),
            PlayerAction::PlaceNewUnit(ri[0], UnitType::Militia, Coord::new(0, -1)),
        ),
        Err(PlayerActionError::NotEnoughMoney(ri[0]))
    );
    assert_eq!(engine, before);
}

#[test]
fn steps_are_paid_from_the_moves_of_the_turn() {
    let (pl, _, mut engine) = board();
    let soldier = unit_at(&engine, 1, 0).unwrap();
    assert_eq!(engine.unit_info(soldier.id()).unwrap().moves_left(), 4);
    engine.act(pl[0].id(), step(1, 0, 2, -1)).unwrap();
    assert_eq!(engine.unit_info(soldier.id()).unwrap().moves_left(), 3);
    // Two steps, past the village.
    engine.act(pl[0].id(), step(2, -1, 0, -1)).unwrap();
    assert_eq!(engine.unit_info(soldier.id()).unwrap().moves_left(), 1);
    assert_eq!(unit_at(&engine, 0, -1), Some(soldier));
    assert_eq!(unit_at(&engine, 2, -1), None);
    let before = engine.clone();
    // The unit has one move and needs two.
    assert_eq!(
        engine.act(pl[0].id(), step(0, -1, 1, 0)),
        Err(PlayerActionError::NotEnoughMoves(1, 2))
    );
    assert_eq!(engine, before);
}

#[test]
fn militia_and_rested_soldier_make_a_knight_that_can_move() {
    let (pl, _, mut engine) = board();
    engine
        .create_and_place_unit(UnitType::Militia, Coord::new(2, -1))
        .unwrap();
    let militia = unit_at(&engine, 2, -1).unwrap();
    engine.refill_unit_moves(militia.id());
    let soldier = unit_at(&engine, 1, 0).unwrap();
    engine.act(pl[0].id(), step(2, -1, 1, 0)).unwrap();
    let knight = unit_at(&engine, 1, 0).unwrap();
    assert_eq!(knight.unit_type(), UnitType::Knight);
    assert_eq!(knight.id(), militia.id() + 1);
    assert_eq!(
        engine.unit_info(knight.id()),
        Some(UnitInfo {
            unit_type: UnitType::Knight,
            moves_left: 4
        })
    );
    assert_eq!(unit_at(&engine, 2, -1), None);
    assert_eq!(engine.unit_info(militia.id()), None);
    assert_eq!(engine.unit_info(soldier.id()), None);
    in_order(&engine);
}

#[test]
fn militia_and_tired_soldier_make_a_knight_that_cannot_move() {
    let (pl, _, mut engine) = board();
    engine.act(pl[0].id(), step(1, 0, 2, -1)).unwrap();
    engine
        .create_and_place_unit(UnitType::Militia, Coord::new(1, 0))
        .unwrap();
    let militia = unit_at(&engine, 1, 0).unwrap();
    engine.refill_unit_moves(militia.id());
    engine.act(pl[0].id(), step(1, 0, 2, -1)).unwrap();
    let knight = unit_at(&engine, 2, -1).unwrap();
    assert_eq!(knight.unit_type(), UnitType::Knight);
    assert_eq!(engine.unit_info(knight.id()).unwrap().moves_left(), 0);
    assert_eq!(unit_at(&engine, 1, 0), None);
    in_order(&engine);
}

#[test]
fn capture_takes_the_tile_and_all_moves() {
    let (pl, ri, mut engine) = board();
    let soldier = unit_at(&engine, 1, 0).unwrap();
    engine.act(pl[0].id(), step(1, 0, 1, 1)).unwrap();
    let location = engine.location();
    assert_eq!(location.region_at(Coord::new(1, 1)).unwrap().id(), ri[0]);
    assert_eq!(unit_at(&engine, 1, 1), Some(soldier));
    assert_eq!(unit_at(&engine, 1, 0), None);
    assert_eq!(engine.unit_info(soldier.id()).unwrap().moves_left(), 0);
    // What is left of the other region are two tiles that do not touch:
    // neither is a region with a capital any more.
    let east = location.region_at(Coord::new(2, 0)).unwrap();
    let west = location.region_at(Coord::new(0, 1)).unwrap();
    assert_ne!(east.id(), west.id());
    assert_eq!(east.owner().id(), pl[1].id());
    assert_eq!(west.owner().id(), pl[1].id());
    assert_eq!(unit_at(&engine, 2, 0), None);
    assert_eq!(engine.region_money(east.id()), Some(0));
    assert_eq!(engine.region_money(west.id()), Some(0));
    assert_eq!(engine.region_money(ri[0]), Some(10));
    assert_eq!(engine.region_info(ri[0]).unwrap().income_from_fields, 5);
    in_order(&engine);
}

#[test]
fn capture_joins_the_regions_of_the_owner_and_their_money() {
    let (pl, ri, mut engine) = board();
    engine.modify_money(ri[2], 7);
    let soldier = unit_at(&engine, 1, 0).unwrap();
    let militia = unit_at(&engine, 0, 1).unwrap();
    engine.act(pl[0].id(), step(1, 0, 0, 1)).unwrap();
    let location = engine.location();
    for &(x, y) in [(0, 1), (-1, 1), (1, 0), (1, -1)].iter() {
        assert_eq!(location.region_at(Coord::new(x, y)).unwrap().id(), ri[0]);
    }
    assert!(!location.has_region(ri[2]));
    assert_eq!(engine.region_money(ri[0]), Some(17));
    assert_eq!(engine.region_money(ri[2]), None);
    assert_eq!(engine.region_info(ri[2]), None);
    assert_eq!(engine.region_info(ri[0]).unwrap().income_from_fields, 6);
    assert_eq!(unit_at(&engine, 0, 1), Some(soldier));
    assert_eq!(engine.unit_info(soldier.id()).unwrap().moves_left(), 0);
    assert_eq!(engine.unit_info(militia.id()), None);
    // The region that lost the tile is in one piece and keeps its money.
    assert_eq!(location.region_at(Coord::new(1, 1)).unwrap().id(), ri[1]);
    assert_eq!(engine.region_money(ri[1]), Some(10));
    in_order(&engine);
}

#[test]
fn units_of_a_region_in_debt_starve_at_the_end_of_the_round() {
    let (pl, ri, mut engine) = board();
    engine.modify_money(ri[0], -100);
    let village = unit_at(&engine, 1, -1).unwrap();
    for p in pl.iter() {
        assert_eq!(engine.current_turn(), 1);
        engine.act(p.id(), PlayerAction::EndTurn).unwrap();
    }
    assert_eq!(engine.current_turn(), 2);
    assert_eq!(engine.active_player_num(), 0);
    let grave = unit_at(&engine, 1, 0).unwrap();
    assert_eq!(grave.unit_type(), UnitType::Grave);
    assert_eq!(grave.id(), engine.last_issued_id());
    assert_eq!(engine.unit_info(grave.id()).unwrap().moves_left(), 0);
    assert_eq!(unit_at(&engine, 1, -1), Some(village));
    // Ninety in debt with four tiles and a soldier: four come in, six go
    // out, and nothing is left to maintain.
    assert_eq!(engine.region_money(ri[0]), Some(-92));
    assert_eq!(engine.region_info(ri[0]).unwrap().maintenance_cost, 0);
    // The militia of the neighbour has been paid for and lives.
    assert_eq!(unit_at(&engine, 0, 1).unwrap().unit_type(), UnitType::Militia);
    assert_eq!(engine.region_money(ri[1]), Some(11));
    in_order(&engine);
}

#[test]
fn unit_steps_where_its_attack_beats_the_defence() {
    let (_, ri, engine) = board();
    let can = |unit_type: UnitType, x: i32, y: i32, last: bool| {
        engine.unit_can_step_on_coord(unit_type, Coord::new(x, y), ri[0], last)
    };
    // Within the region every tile is open, but not its capital at the end.
    assert!(can(UnitType::Militia, 2, -1, true));
    assert!(can(UnitType::Militia, 1, -1, false));
    assert!(!can(UnitType::Militia, 1, -1, true));
    // Water and what is off the map are closed.
    assert!(!can(UnitType::Knight, 0, 0, true));
    assert!(!can(UnitType::Knight, 7, 7, true));
    // A tile of another region is open at the end of the way only, and only
    // to a unit that beats what guards it.
    assert!(!can(UnitType::Soldier, 1, 1, false));
    assert!(can(UnitType::Soldier, 1, 1, true));
    assert!(!can(UnitType::Militia, 1, 1, true));
    // A tile that does not touch the region is closed.
    assert!(!can(UnitType::GreatKnight, -2, 1, true));
}

#[test]
fn state_written_down_and_put_together_again_is_the_same() {
    let (pl, ri, mut engine) = board();
    engine.act(pl[0].id(), step(1, 0, 1, 1)).unwrap();
    engine.act(pl[0].id(), PlayerAction::EndTurn).unwrap();
    let activity = engine.activity_records();
    let regions = engine.region_records();
    let units = engine.unit_records();
    assert_eq!(activity.len(), 3);
    assert_eq!(activity[1], (pl[1].id(), true));
    assert_eq!(regions.len(), engine.location().regions().len());
    assert_eq!(regions[0].0, ri[0]);
    assert_eq!(regions[0].1, engine.region_info(ri[0]).unwrap());
    assert_eq!(units.len(), 4);
    let mut restored = GameEngine::from_parts(
        engine.location().clone(),
        engine.players().clone(),
        activity,
        engine.winner(),
        engine.current_turn(),
        engine.active_player_num(),
        regions,
        units,
        engine.last_issued_id(),
    );
    assert_eq!(restored, engine);
    assert!(restored.can_repair());
    restored.repair();
    assert_eq!(restored, engine);
}

#[test]
fn engine_in_order_is_told_from_one_with_stale_records() {
    let (pl, ri, engine) = board();
    assert!(engine.is_sane());
    let stale = RegionInfo {
        money_balance: 10,
        income_from_fields: 0,
        maintenance_cost: 0,
    };
    let mut regions = engine.region_records();
    regions[0] = (ri[0], stale);
    let mut restored = GameEngine::from_parts(
        engine.location().clone(),
        pl.clone(),
        engine.activity_records(),
        None,
        1,
        0,
        regions,
        engine.unit_records(),
        engine.last_issued_id(),
    );
    assert!(!restored.is_sane());
    restored.repair();
    assert!(restored.is_sane());
    assert_eq!(restored, engine);

    // A unit with an identifier that was never issued, a record with more
    // moves than the type has, and a player without a record of activity.
    let late = GameEngine::from_parts(
        engine.location().clone(),
        pl.clone(),
        engine.activity_records(),
        None,
        1,
        0,
        engine.region_records(),
        engine.unit_records(),
        3,
    );
    assert!(!late.is_sane());
    let mut units = engine.unit_records();
    units[0].1.moves_left = 9;
    let eager = GameEngine::from_parts(
        engine.location().clone(),
        pl.clone(),
        engine.activity_records(),
        None,
        1,
        0,
        engine.region_records(),
        units,
        engine.last_issued_id(),
    );
    assert!(!eager.is_sane());
    let forgotten = GameEngine::from_parts(
        engine.location().clone(),
        pl.clone(),
        vec![(pl[0].id(), true), (pl[1].id(), true)],
        None,
        1,
        0,
        engine.region_records(),
        engine.unit_records(),
        engine.last_issued_id(),
    );
    assert!(!forgotten.is_sane());
}

#[test]
fn repair_leaves_a_record_without_a_region_alone() {
    let (pl, _, engine) = board();
    let stray = RegionInfo {
        money_balance: 5,
        income_from_fields: 6,
        maintenance_cost: 7,
    };
    let mut regions = engine.region_records();
    regions.push((999, stray));
    let mut restored = GameEngine::from_parts(
        engine.location().clone(),
        pl.clone(),
        engine.activity_records(),
        None,
        1,
        0,
        regions,
        engine.unit_records(),
        engine.last_issued_id(),
    );
    assert!(restored.can_repair());
    restored.repair();
    assert_eq!(restored.region_info(999), Some(stray));
    assert_eq!(
        restored.validate(),
        Err(EngineValidationError::UnlinkedRegionInfo(999))
    );
    assert!(!restored.is_sane());
}

#[test]
fn action_is_tried_where_the_engine_has_room() {
    let (pl, ri, mut engine) = board();
    assert_eq!(
        engine.try_act(pl[1].id(), PlayerAction::EndTurn),
        Some(Err(PlayerActionError::OtherPlayersTurn(pl[0].id())))
    );
    assert_eq!(
        engine.try_act(pl[0].id(), step(1, 0, 2, -1)),
        Some(Ok(()))
    );
    assert!(engine.is_sane());
    // A balance beyond the limit leaves no room.
    engine.modify_money(ri[0], 200_000_000);
    let before = engine.clone();
    assert!(!engine.has_room());
    assert_eq!(engine.try_act(pl[0].id(), PlayerAction::EndTurn), None);
    assert_eq!(engine, before);
}

#[test]
fn repair_is_tried_where_every_unit_and_region_has_a_record() {
    let (pl, _, engine) = board();
    let mut units = engine.unit_records();
    units.pop();
    let mut broken = GameEngine::from_parts(
        engine.location().clone(),
        pl.clone(),
        engine.activity_records(),
        None,
        1,
        0,
        engine.region_records(),
        units,
        engine.last_issued_id(),
    );
    let before = broken.clone();
    assert!(!broken.try_repair());
    assert_eq!(broken, before);
    let mut whole = engine.clone();
    assert!(whole.try_repair());
    assert!(whole.try_repair());
    assert_eq!(whole, engine);
}
