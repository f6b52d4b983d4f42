//! Stable content identifiers shared by item, lot and fixture records.

use vstd::prelude::*;

verus! {

/// A stable content identifier (for example `food.bread`).
pub type ContentId = String;
/// A stable identifier of one physical lot.
pub type PhysicalLotId = String;
/// A stable identifier of one exact item instance.
pub type MaterialInstanceId = String;
/// A stable identifier of an item definition.
pub type ItemDefinitionId = String;
/// A stable identifier of a material.
pub type MaterialId = String;
/// A stable identifier of a colony capability.
pub type CapabilityId = String;
/// A stable identifier of a crafting recipe.
pub type RecipeId = String;

/// The equipment slot an item occupies, by catalog number.
#[derive(Debug, Clone, Copy, PartialEq, Eq, PartialOrd, Ord, Hash, Structural)]
pub struct EquipmentSlot(pub u16);

/// The augmentation slot an item accepts or fills, by catalog number.
#[derive(Debug, Clone, Copy, PartialEq, Eq, PartialOrd, Ord, Hash, Structural)]
pub struct AugmentationSlot(pub u16);

/// The fixture slot of a station, by catalog number.
#[derive(Debug, Clone, Copy, PartialEq, Eq, PartialOrd, Ord, Hash, Structural)]
pub struct FixtureSlot(pub u16);

} // verus!
