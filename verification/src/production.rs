//! Production rules on whole numbers: which buildings a village level
//! unlocks, how many workers a building seats and what it produces.

use vstd::prelude::*;

verus! {

pub const WORKSHOP_UNLOCK_LEVEL: u32 = 2;
pub const FIELD_UNLOCK_LEVEL: u32 = 4;
/// Fields the leader builds toward regardless of food level.
pub const FIELD_MIN_COUNT: usize = 2;

/// A kind of colony building.
#[derive(Debug, Clone, Copy, PartialEq, Eq, PartialOrd, Ord, Hash, Structural)]
pub enum BuildingType {
    Den,
    FoodStorage,
    WaterBowl,
    Beds,
    HerbGarden,
    Nursery,
    ElderCorner,
    Walls,
    MouseFarm,
    Shrine,
    Workshop,
    Field,
    WoodCutter,
    StonePrep,
    Woodworking,
    Smithy,
    Clothier,
    Tannery,
    ResearchHut,
    School,
    Smelter,
    Barracks,
    AccountingTent,
}

pub fn workshop_unlocked(village_level: u32) -> (r: bool)
    ensures
        r == (village_level >= WORKSHOP_UNLOCK_LEVEL),
{
    village_level >= WORKSHOP_UNLOCK_LEVEL
}

pub fn field_unlocked(village_level: u32) -> (r: bool)
    ensures
        r == (village_level >= FIELD_UNLOCK_LEVEL),
{
    village_level >= FIELD_UNLOCK_LEVEL
}

/// Only workshops and fields are gated by village level.
pub open spec fn unlocked(building_type: BuildingType, village_level: u32) -> bool {
    match building_type {
        BuildingType::Workshop => village_level >= WORKSHOP_UNLOCK_LEVEL,
        BuildingType::Field => village_level >= FIELD_UNLOCK_LEVEL,
        _ => true,
    }
}

pub fn building_unlocked(building_type: BuildingType, village_level: u32) -> (r: bool)
    ensures
        r == unlocked(building_type, village_level),
{
    match building_type {
        BuildingType::Workshop => workshop_unlocked(village_level),
        BuildingType::Field => field_unlocked(village_level),
        _ => true,
    }
}

/// The crafting benches and research buildings seat one worker; the rest
/// take no assigned worker.
pub open spec fn staff_cap(building_type: BuildingType) -> u32 {
    match building_type {
        BuildingType::Workshop | BuildingType::WoodCutter | BuildingType::StonePrep | BuildingType::Woodworking
        | BuildingType::Smithy | BuildingType::Clothier | BuildingType::Tannery | BuildingType::ResearchHut
        | BuildingType::School | BuildingType::Smelter => 1,
        _ => 0,
    }
}

pub fn building_staff_cap(building_type: BuildingType) -> (r: u32)
    ensures
        r == staff_cap(building_type),
{
    match building_type {
        BuildingType::Workshop | BuildingType::WoodCutter | BuildingType::StonePrep | BuildingType::Woodworking
        | BuildingType::Smithy | BuildingType::Clothier | BuildingType::Tannery | BuildingType::ResearchHut
        | BuildingType::School | BuildingType::Smelter => 1,
        BuildingType::Den | BuildingType::FoodStorage | BuildingType::WaterBowl | BuildingType::Beds
        | BuildingType::HerbGarden | BuildingType::Nursery | BuildingType::ElderCorner | BuildingType::Walls
        | BuildingType::MouseFarm | BuildingType::Shrine | BuildingType::Field | BuildingType::Barracks
        | BuildingType::AccountingTent => 0,
    }
}

/// The short label of what a building produces, for buildings that produce.
pub open spec fn output_label(building_type: BuildingType) -> Option<Seq<char>> {
    match building_type {
        BuildingType::Workshop => Some("refined"@),
        BuildingType::WoodCutter => Some("plank"@),
        BuildingType::StonePrep => Some("block"@),
        BuildingType::Woodworking => Some("tool"@),
        BuildingType::Smithy => Some("weapon+armor"@),
        BuildingType::Field => Some("food"@),
        BuildingType::Clothier => Some("cloth"@),
        BuildingType::Tannery => Some("leather"@),
        BuildingType::Smelter => Some("metal"@),
        _ => None,
    }
}

pub fn building_output_label(building_type: BuildingType) -> (r: Option<&'static str>)
    ensures
        r is Some == output_label(building_type) is Some,
        r matches Some(label) ==> output_label(building_type) == Some(label@),
{
    match building_type {
        BuildingType::Workshop => Some("refined"),
        BuildingType::WoodCutter => Some("plank"),
        BuildingType::StonePrep => Some("block"),
        BuildingType::Woodworking => Some("tool"),
        BuildingType::Smithy => Some("weapon+armor"),
        BuildingType::Field => Some("food"),
        BuildingType::Clothier => Some("cloth"),
        BuildingType::Tannery => Some("leather"),
        BuildingType::Smelter => Some("metal"),
        BuildingType::Den | BuildingType::FoodStorage | BuildingType::WaterBowl | BuildingType::Beds
        | BuildingType::HerbGarden | BuildingType::Nursery | BuildingType::ElderCorner | BuildingType::Walls
        | BuildingType::MouseFarm | BuildingType::Shrine | BuildingType::Barracks | BuildingType::ResearchHut
        | BuildingType::School | BuildingType::AccountingTent => None,
    }
}

/// Every building that produces something has a label, and the buildings
/// that seat a worker are producers or research buildings.
pub proof fn law_staffed_buildings_produce_or_research(building_type: BuildingType)
    requires
        staff_cap(building_type) == 1,
    ensures
        output_label(building_type) is Some || building_type == BuildingType::ResearchHut
            || building_type == BuildingType::School,
{
}

/// Village level only ever unlocks more: a building unlocked at one level
/// stays unlocked at every higher level.
pub proof fn law_unlocks_are_monotone(building_type: BuildingType, lower: u32, higher: u32)
    requires
        lower <= higher,
        unlocked(building_type, lower),
    ensures
        unlocked(building_type, higher),
{
}

} // verus!
