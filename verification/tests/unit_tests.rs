use yasc::game::consts::STANDARD_MOVES_NUM;
use yasc::game::{
    can_defeat, can_step_on, description, merge_result, Tile, TileSurface, Unit, UnitInfo,
    UnitType,
};

#[test]
fn tile_place_unit() {
    let unit = Unit::new(1, UnitType::Soldier);
    let mut tile = Tile::new(1, TileSurface::Land);
    tile.place_unit(unit.clone());
    assert_eq!(tile.unit(), Some(&unit));

    // Unit will be replaced with new one
    let other_unit = Unit::new(1, UnitType::Militia);
    tile.place_unit(other_unit.clone());
    assert_eq!(tile.unit(), Some(&other_unit));
}

#[test]
fn tile_take_unit() {
    let unit = Unit::new(1, UnitType::Soldier);
    let mut tile = Tile::new(1, TileSurface::Land);
    tile.place_unit(unit.clone());

    let taken_unit = tile.take_unit();
    assert_eq!(taken_unit, Some(unit));
    assert_eq!(tile.unit(), None);
}

#[test]
fn check_description() {
    let desc = description(UnitType::Grave);
    assert_eq!(desc.name, UnitType::Grave);
}

#[test]
fn merge_result_check() {
    assert_eq!(merge_result(UnitType::Soldier, UnitType::Village), None);
    assert_eq!(
        merge_result(UnitType::Soldier, UnitType::Militia),
        Some(UnitType::Knight)
    );
    assert_eq!(
        merge_result(UnitType::Militia, UnitType::Grave),
        Some(UnitType::Militia)
    );
    assert_eq!(
        merge_result(UnitType::Soldier, UnitType::Soldier),
        Some(UnitType::GreatKnight)
    );
    assert_eq!(merge_result(UnitType::Soldier, UnitType::Knight), None);
    assert_eq!(merge_result(UnitType::Grave, UnitType::Militia), None);
}

#[test]
fn check_can_defeat() {
    assert_eq!(can_defeat(UnitType::Soldier, UnitType::Knight), false);
    assert_eq!(can_defeat(UnitType::Knight, UnitType::Soldier), true);
    assert_eq!(can_defeat(UnitType::Soldier, UnitType::Soldier), false);
}

#[test]
fn unit_has_no_moves_when_created() {
    let (_, unit) = UnitInfo::new(1, UnitType::Soldier);
    assert_eq!(unit.moves_left(), 0);
    let (_, unit) = UnitInfo::new(1, UnitType::GreatKnight);
    assert_eq!(unit.moves_left(), 0);
    let (_, unit) = UnitInfo::new(1, UnitType::Village);
    assert_eq!(unit.moves_left(), 0);
}

#[test]
fn unit_has_max_moves_when_refilled() {
    let (_, mut unit) = UnitInfo::new(1, UnitType::Soldier);
    unit.refill_moves();
    assert_eq!(unit.moves_left(), STANDARD_MOVES_NUM);
}

#[test]
fn building_unit_always_has_zero_moves() {
    let (_, mut unit) = UnitInfo::new(1, UnitType::Tower);
    unit.refill_moves();
    assert_eq!(unit.moves_left(), 0);
}

#[test]
fn subtract_moves_changes_moves_left() {
    let (_, mut unit) = UnitInfo::new(1, UnitType::Soldier);
    unit.refill_moves();
    unit.subtract_moves(3);
    assert_eq!(unit.moves_left(), STANDARD_MOVES_NUM - 3);
}

#[test]
fn can_defeat_when_unit_stronger() {
    assert!(can_defeat(UnitType::Soldier, UnitType::Militia));
}

#[test]
fn can_defeat_when_unit_weaker() {
    assert!(!can_defeat(UnitType::Soldier, UnitType::GreatKnight));
}

#[test]
fn can_defeat_when_unit_equal() {
    assert!(!can_defeat(UnitType::Soldier, UnitType::Soldier));
}

#[test]
fn description_is_correct() {
    let desc = description(UnitType::Grave);
    assert_eq!(desc.name, UnitType::Grave);
}

#[test]
fn catalogue_holds_the_balance_of_the_game() {
    let militia = description(UnitType::Militia);
    assert_eq!(militia.purchase_cost, 10);
    assert_eq!(militia.turn_cost, 2);
    assert_eq!(militia.max_moves, 4);
    assert_eq!(militia.upgrades_to, Some(UnitType::Soldier));
    let knight = description(UnitType::Knight);
    assert_eq!(knight.purchase_cost, 30);
    assert_eq!(knight.turn_cost, 18);
    assert_eq!(knight.upgrades_to, Some(UnitType::GreatKnight));
    let great = description(UnitType::GreatKnight);
    assert_eq!(great.attack, 4);
    assert_eq!(great.upgrades_to, None);
    assert!(description(UnitType::PalmTree).is_unownable);
    assert!(!description(UnitType::Village).is_unownable);
    assert!(!description(UnitType::Village).is_purchasable);
}

#[test]
fn merge_walks_the_chain_by_the_actor_level() {
    assert_eq!(
        merge_result(UnitType::Militia, UnitType::Soldier),
        Some(UnitType::Knight)
    );
    assert_eq!(
        merge_result(UnitType::Militia, UnitType::Knight),
        Some(UnitType::GreatKnight)
    );
    assert_eq!(merge_result(UnitType::Militia, UnitType::GreatKnight), None);
    assert_eq!(
        merge_result(UnitType::Knight, UnitType::Militia),
        Some(UnitType::GreatKnight)
    );
    assert_eq!(merge_result(UnitType::Knight, UnitType::Soldier), None);
    assert_eq!(merge_result(UnitType::Soldier, UnitType::Tower), None);
    assert_eq!(
        merge_result(UnitType::Tower, UnitType::PineTree),
        Some(UnitType::Tower)
    );
}

#[test]
fn units_step_on_land_only() {
    let land = Tile::new(1, TileSurface::Land);
    let water = Tile::new(2, TileSurface::Water);
    assert!(can_step_on(UnitType::Soldier, &land));
    assert!(!can_step_on(UnitType::Soldier, &water));
    assert!(TileSurface::Land.is_land());
    assert!(!TileSurface::Land.is_water());
    assert!(TileSurface::Water.is_water());
}
