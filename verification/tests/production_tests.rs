use cat_sim::production::BuildingType::{
    AccountingTent, Barracks, Beds, Clothier, Den, ElderCorner, Field, FoodStorage, HerbGarden,
    MouseFarm, Nursery, Shrine, Smelter, Smithy, StonePrep, Tannery, Walls, WaterBowl, WoodCutter,
    Woodworking, Workshop,
};
use cat_sim::production::{
    building_output_label, building_staff_cap, building_unlocked, field_unlocked, workshop_unlocked,
    BuildingType, FIELD_MIN_COUNT, FIELD_UNLOCK_LEVEL, WORKSHOP_UNLOCK_LEVEL,
};

#[test]
fn unlocks_use_inclusive_village_level_thresholds() {
    assert!(!workshop_unlocked(0));
    assert!(!workshop_unlocked(1));
    assert!(workshop_unlocked(2));
    assert!(workshop_unlocked(3));

    assert!(!field_unlocked(3));
    assert!(field_unlocked(4));
    assert!(field_unlocked(5));
}

#[test]
fn unlock_levels_and_field_floor_are_exact() {
    assert_eq!(WORKSHOP_UNLOCK_LEVEL, 2);
    assert_eq!(FIELD_UNLOCK_LEVEL, 4);
    assert_eq!(FIELD_MIN_COUNT, 2);
}

#[test]
fn typed_unlock_helper_gates_only_production_buildings() {
    assert!(!building_unlocked(BuildingType::Workshop, 1));
    assert!(building_unlocked(BuildingType::Workshop, 2));
    assert!(!building_unlocked(BuildingType::Field, 3));
    assert!(building_unlocked(BuildingType::Field, 4));
    assert!(building_unlocked(BuildingType::Den, 0));
}

#[test]
fn building_output_label_matches_every_verified_recipe() {
    assert_eq!(building_output_label(Workshop), Some("refined"));
    assert_eq!(building_output_label(WoodCutter), Some("plank"));
    assert_eq!(building_output_label(StonePrep), Some("block"));
    assert_eq!(building_output_label(Woodworking), Some("tool"));
    assert_eq!(building_output_label(Smithy), Some("weapon+armor"));
    assert_eq!(building_output_label(Field), Some("food"));
    assert_eq!(building_output_label(Clothier), Some("cloth"));
    assert_eq!(building_output_label(Tannery), Some("leather"));
    assert_eq!(building_output_label(Smelter), Some("metal"));
    for building_type in [
        Den, FoodStorage, WaterBowl, Beds, HerbGarden, Nursery, ElderCorner, Walls, MouseFarm,
        Shrine, Barracks, AccountingTent,
    ] {
        assert_eq!(
            building_output_label(building_type),
            None,
            "{building_type:?} should not report a production output"
        );
    }
}

#[test]
fn building_staff_cap_is_one_only_for_the_single_worker_slot_benches() {
    for building_type in [
        BuildingType::Workshop,
        BuildingType::WoodCutter,
        BuildingType::StonePrep,
        BuildingType::Woodworking,
        BuildingType::Smithy,
        BuildingType::Clothier,
        BuildingType::Tannery,
        BuildingType::Smelter,
    ] {
        assert_eq!(building_staff_cap(building_type), 1, "{building_type:?} should have a 1-cat worker slot");
    }
    for building_type in [
        BuildingType::Den,
        BuildingType::FoodStorage,
        BuildingType::WaterBowl,
        BuildingType::Beds,
        BuildingType::HerbGarden,
        BuildingType::Nursery,
        BuildingType::ElderCorner,
        BuildingType::Walls,
        BuildingType::MouseFarm,
        BuildingType::Shrine,
        BuildingType::Field,
        BuildingType::Barracks,
        BuildingType::AccountingTent,
    ] {
        assert_eq!(building_staff_cap(building_type), 0, "{building_type:?} should have no worker slot");
    }
}

#[test]
fn research_buildings_seat_one_scholar_without_output() {
    assert_eq!(building_staff_cap(BuildingType::ResearchHut), 1);
    assert_eq!(building_staff_cap(BuildingType::School), 1);
    assert_eq!(building_output_label(BuildingType::ResearchHut), None);
    assert_eq!(building_output_label(BuildingType::School), None);
}
