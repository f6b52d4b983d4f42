//! Universal quality bands and the physical-lot authority: bulk lots and
//! exact item instances, each batch change atomic.

use vstd::prelude::*;
use crate::text::{is_blank, text_is_blank, text_eq, opt_text, clone_opt_text, opt_text_eq};
use crate::id_map::{IdMap, lemma_lookup_all, lemma_lookup_at, lemma_map_len, keys_sorted, entries_map, has_key, lemma_entries_remove_at, lemma_sorted_entries_unique};
use crate::content_ids::{AugmentationSlot, ContentId, EquipmentSlot, FixtureSlot, ItemDefinitionId,
    MaterialId, MaterialInstanceId, PhysicalLotId};

verus! {

pub const QUALITY_LOTS_SCHEMA_VERSION: u32 = 2;
pub const MAX_PHYSICAL_LOTS: usize = 4_096;
pub const MAX_ITEM_INSTANCES: usize = 4_096;

#[derive(Debug, Clone, PartialEq, Eq)]
pub enum QualityLotError {
    InvalidQualityOrdinal(u8),
    InvalidSkill(u8),
    InvalidStationTier,
    InvalidVariation(i16),
    ArithmeticOverflow,
    InvalidSchemaVersion(u32),
    EmptyLocation,
    EmptyProvenance,
    EmptyReservation,
    ZeroQuantity,
    DuplicateLotId(PhysicalLotId),
    DuplicateItemId(MaterialInstanceId),
    MissingLot(PhysicalLotId),
    MissingItem(MaterialInstanceId),
    DuplicateDebitLotId(PhysicalLotId),
    InvalidDebitQuantity,
    ReservedLot(PhysicalLotId),
    DuplicateSplitLotId(PhysicalLotId),
    InvalidSplitQuantity,
    IncompatibleMerge,
    IneligibleAugmentation,
    IncompatibleFixture,
    InventoryLimitExceeded,
}

#[derive(Debug, Clone, Copy, PartialEq, Eq, PartialOrd, Ord, Hash, Structural)]
pub enum QualityBand {
    Crude,
    Common,
    Fine,
    Superior,
    Masterwork,
}

pub open spec fn band_ordinal(b: QualityBand) -> int {
    match b {
        QualityBand::Crude => 0,
        QualityBand::Common => 1,
        QualityBand::Fine => 2,
        QualityBand::Superior => 3,
        QualityBand::Masterwork => 4,
    }
}

pub open spec fn band_from_ordinal(o: int) -> QualityBand {
    if o == 0 { QualityBand::Crude }
    else if o == 1 { QualityBand::Common }
    else if o == 2 { QualityBand::Fine }
    else if o == 3 { QualityBand::Superior }
    else { QualityBand::Masterwork }
}

/// Per-band effect tables: food nutrition, trade value, item durability (percent).
pub open spec fn band_table(b: QualityBand, food: int, trade: int, durability: int) -> bool {
    match b {
        QualityBand::Crude => food == 80 && trade == 75 && durability == 80,
        QualityBand::Common => food == 100 && trade == 100 && durability == 100,
        QualityBand::Fine => food == 120 && trade == 130 && durability == 115,
        QualityBand::Superior => food == 145 && trade == 170 && durability == 135,
        QualityBand::Masterwork => food == 175 && trade == 225 && durability == 160,
    }
}

impl QualityBand {
    pub const ALL: [QualityBand; 5] = [
        QualityBand::Crude,
        QualityBand::Common,
        QualityBand::Fine,
        QualityBand::Superior,
        QualityBand::Masterwork,
    ];

    pub fn ordinal(self) -> (r: u8)
        ensures
            r == band_ordinal(self),
    {
        match self {
            QualityBand::Crude => 0,
            QualityBand::Common => 1,
            QualityBand::Fine => 2,
            QualityBand::Superior => 3,
            QualityBand::Masterwork => 4,
        }
    }

    pub fn from_ordinal(ordinal: u8) -> (r: Result<QualityBand, QualityLotError>)
        ensures
            ordinal <= 4 ==> r == Ok::<QualityBand, QualityLotError>(band_from_ordinal(ordinal as int)),
            ordinal > 4 ==> r == Err::<QualityBand, QualityLotError>(QualityLotError::InvalidQualityOrdinal(ordinal)),
    {
        match ordinal {
            0 => Ok(QualityBand::Crude),
            1 => Ok(QualityBand::Common),
            2 => Ok(QualityBand::Fine),
            3 => Ok(QualityBand::Superior),
            4 => Ok(QualityBand::Masterwork),
            _ => Err(QualityLotError::InvalidQualityOrdinal(ordinal)),
        }
    }

    pub fn input_quality_milli(self) -> (r: i32)
        ensures
            r == band_ordinal(self) * 1_000,
    {
        (self.ordinal() as i32) * 1_000
    }

    pub fn food_nutrition_percent(self) -> (r: u16)
        ensures
            exists|t: int, d: int| band_table(self, r as int, t, d),
    {
        let table: [u16; 5] = [80, 100, 120, 145, 175];
        let r = table[self.ordinal() as usize];
        proof { self.lemma_table_witness(); }
        r
    }

    pub fn trade_hole_value_percent(self) -> (r: u16)
        ensures
            exists|f: int, d: int| band_table(self, f, r as int, d),
    {
        let table: [u16; 5] = [75, 100, 130, 170, 225];
        let r = table[self.ordinal() as usize];
        proof { self.lemma_table_witness(); }
        r
    }

    pub fn item_effect_durability_percent(self) -> (r: u16)
        ensures
            exists|f: int, t: int| band_table(self, f, t, r as int),
    {
        let table: [u16; 5] = [80, 100, 115, 135, 160];
        let r = table[self.ordinal() as usize];
        proof { self.lemma_table_witness(); }
        r
    }

    proof fn lemma_table_witness(self)
        ensures
            match self {
                QualityBand::Crude => band_table(self, 80, 75, 80),
                QualityBand::Common => band_table(self, 100, 100, 100),
                QualityBand::Fine => band_table(self, 120, 130, 115),
                QualityBand::Superior => band_table(self, 145, 170, 135),
                QualityBand::Masterwork => band_table(self, 175, 225, 160),
            },
    {
    }
}

#[derive(Debug, Clone, Copy, PartialEq, Eq, Structural)]
pub enum ProductionComplexity {
    Raw,
    Simple,
    Prepared,
    Complex,
    Feast,
}

pub open spec fn complexity_penalty(c: ProductionComplexity) -> int {
    match c {
        ProductionComplexity::Raw | ProductionComplexity::Simple => 0,
        ProductionComplexity::Prepared => 250,
        ProductionComplexity::Complex => 500,
        ProductionComplexity::Feast => 750,
    }
}

impl ProductionComplexity {
    fn penalty(self) -> (r: i32)
        ensures
            r == complexity_penalty(self),
    {
        match self {
            ProductionComplexity::Raw | ProductionComplexity::Simple => 0,
            ProductionComplexity::Prepared => 250,
            ProductionComplexity::Complex => 500,
            ProductionComplexity::Feast => 750,
        }
    }
}

#[derive(Debug, Clone, Copy, PartialEq, Eq, Structural)]
pub struct ProductionQualityInput {
    pub weighted_input_quality_milli: i32,
    pub worker_skill: u8,
    pub tool_quality: Option<QualityBand>,
    pub fixture_quality: Option<QualityBand>,
    pub station_tier: u8,
    pub complexity: ProductionComplexity,
    pub keyed_variation: i16,
}

/// The skill bonus for skills 0..=100 (in thousandths of a band).
pub open spec fn skill_bonus_milli(skill: u8) -> int {
    if skill <= 19 { -500 }
    else if skill <= 39 { 0 }
    else if skill <= 59 { 250 }
    else if skill <= 79 { 500 }
    else if skill <= 94 { 750 }
    else { 1_000 }
}

pub open spec fn tool_bonus_milli(q: Option<QualityBand>) -> int {
    match q {
        Some(b) => (band_ordinal(b) + 1) * 100,
        None => 0,
    }
}

fn skill_bonus(skill: u8) -> (r: Result<i32, QualityLotError>)
    ensures
        skill <= 100 ==> r == Ok::<i32, QualityLotError>(skill_bonus_milli(skill) as i32),
        skill > 100 ==> r == Err::<i32, QualityLotError>(QualityLotError::InvalidSkill(skill)),
{
    if skill <= 19 { Ok(-500) }
    else if skill <= 39 { Ok(0) }
    else if skill <= 59 { Ok(250) }
    else if skill <= 79 { Ok(500) }
    else if skill <= 94 { Ok(750) }
    else if skill <= 100 { Ok(1_000) }
    else { Err(QualityLotError::InvalidSkill(skill)) }
}

fn quality_bonus(quality: Option<QualityBand>) -> (r: i32)
    ensures
        r == tool_bonus_milli(quality),
{
    match quality {
        Some(value) => (value.ordinal() as i32 + 1) * 100,
        None => 0,
    }
}

pub open spec fn in_i32(x: int) -> bool {
    i32::MIN <= x <= i32::MAX
}

/// The quality score, or the first rule it breaks: a zero station tier, a
/// variation outside ±250, a skill above 100, or an `i32` overflow at any step
/// of the running sum (input, skill, tool, fixture, station, penalty, variation).
pub open spec fn quality_score(
    input_quality_milli: i32,
    worker_skill: u8,
    tool_quality: Option<QualityBand>,
    fixture_quality: Option<QualityBand>,
    station_tier: u8,
    penalty: int,
    keyed_variation: i16,
) -> Result<i32, QualityLotError> {
    if station_tier == 0 {
        Err(QualityLotError::InvalidStationTier)
    } else if keyed_variation < -250 || keyed_variation > 250 {
        Err(QualityLotError::InvalidVariation(keyed_variation))
    } else if worker_skill > 100 {
        Err(QualityLotError::InvalidSkill(worker_skill))
    } else {
        let s1 = input_quality_milli + skill_bonus_milli(worker_skill);
        let s2 = s1 + tool_bonus_milli(tool_quality);
        let s3 = s2 + tool_bonus_milli(fixture_quality);
        let s4 = s3 + (station_tier - 1) * 125;
        let s5 = s4 - penalty;
        let s6 = s5 + keyed_variation;
        if in_i32(s1) && in_i32(s2) && in_i32(s3) && in_i32(s4) && in_i32(s5) && in_i32(s6) {
            Ok(s6 as i32)
        } else {
            Err(QualityLotError::ArithmeticOverflow)
        }
    }
}

fn checked_score(
    input_quality_milli: i32,
    worker_skill: u8,
    tool_quality: Option<QualityBand>,
    fixture_quality: Option<QualityBand>,
    station_tier: u8,
    penalty: i32,
    keyed_variation: i16,
) -> (r: Result<i32, QualityLotError>)
    ensures
        r == quality_score(input_quality_milli, worker_skill, tool_quality, fixture_quality, station_tier, penalty as int, keyed_variation),
{
    if station_tier == 0 {
        return Err(QualityLotError::InvalidStationTier);
    }
    if keyed_variation < -250 || keyed_variation > 250 {
        return Err(QualityLotError::InvalidVariation(keyed_variation));
    }
    let station_bonus = (station_tier as i32 - 1) * 125;
    let skill = skill_bonus(worker_skill)?;
    let s1 = match input_quality_milli.checked_add(skill) { Some(v) => v, None => return Err(QualityLotError::ArithmeticOverflow) };
    let s2 = match s1.checked_add(quality_bonus(tool_quality)) { Some(v) => v, None => return Err(QualityLotError::ArithmeticOverflow) };
    let s3 = match s2.checked_add(quality_bonus(fixture_quality)) { Some(v) => v, None => return Err(QualityLotError::ArithmeticOverflow) };
    let s4 = match s3.checked_add(station_bonus) { Some(v) => v, None => return Err(QualityLotError::ArithmeticOverflow) };
    let s5 = match s4.checked_sub(penalty) { Some(v) => v, None => return Err(QualityLotError::ArithmeticOverflow) };
    let s6 = match s5.checked_add(keyed_variation as i32) { Some(v) => v, None => return Err(QualityLotError::ArithmeticOverflow) };
    Ok(s6)
}

pub fn production_quality_score(input: ProductionQualityInput) -> (r: Result<i32, QualityLotError>)
    ensures
        r == quality_score(input.weighted_input_quality_milli, input.worker_skill, input.tool_quality,
            input.fixture_quality, input.station_tier, complexity_penalty(input.complexity), input.keyed_variation),
{
    checked_score(input.weighted_input_quality_milli, input.worker_skill, input.tool_quality,
        input.fixture_quality, input.station_tier, input.complexity.penalty(), input.keyed_variation)
}

/// Gathering scores from the source's band with no complexity penalty.
pub fn gathering_quality_score(input: ProductionQualityInput, source_quality: QualityBand) -> (r: Result<i32, QualityLotError>)
    ensures
        r == quality_score((band_ordinal(source_quality) * 1_000) as i32, input.worker_skill, input.tool_quality,
            input.fixture_quality, input.station_tier, 0, input.keyed_variation),
{
    checked_score(source_quality.input_quality_milli(), input.worker_skill, input.tool_quality,
        input.fixture_quality, input.station_tier, 0, input.keyed_variation)
}

/// Score thresholds: below 750 crude, then one band per 1,000 points.
pub open spec fn band_for_score(score: int) -> QualityBand {
    if score < 750 { QualityBand::Crude }
    else if score <= 1_749 { QualityBand::Common }
    else if score <= 2_749 { QualityBand::Fine }
    else if score <= 3_749 { QualityBand::Superior }
    else { QualityBand::Masterwork }
}

/// Law: the quality bands are 1_000 points wide, the first above Crude
/// starting at 750: Crude below 750, Common 750..=1_749, Fine 1_750..=2_749,
/// Superior 2_750..=3_749 and Masterwork from 3_750.
pub proof fn law_quality_bands_are_a_thousand_points_wide(score: int)
    ensures
        band_ordinal(band_for_score(score)) == if score < 750 {
            0
        } else if score >= 3_750 {
            4
        } else {
            (score + 250) / 1_000
        },
        score < 750 ==> band_for_score(score) == QualityBand::Crude,
        750 <= score <= 1_749 ==> band_for_score(score) == QualityBand::Common,
        1_750 <= score <= 2_749 ==> band_for_score(score) == QualityBand::Fine,
        2_750 <= score <= 3_749 ==> band_for_score(score) == QualityBand::Superior,
        3_750 <= score ==> band_for_score(score) == QualityBand::Masterwork,
{
}

pub fn quality_from_score(score: i32) -> (r: QualityBand)
    ensures
        r == band_for_score(score as int),
{
    if score < 750 { QualityBand::Crude }
    else if score <= 1_749 { QualityBand::Common }
    else if score <= 2_749 { QualityBand::Fine }
    else if score <= 3_749 { QualityBand::Superior }
    else { QualityBand::Masterwork }
}

/// A higher score never yields a lower band.
pub proof fn law_quality_band_monotonic(a: int, b: int)
    requires
        a <= b,
    ensures
        band_ordinal(band_for_score(a)) <= band_ordinal(band_for_score(b)),
{
}

#[derive(Debug, Clone, PartialEq, Eq)]
pub struct QualityVariationKey {
    pub world_seed: u32,
    pub content_id: ContentId,
    pub lot_id: PhysicalLotId,
    pub completion_index: u64,
}

#[derive(Debug, Clone, PartialEq, Eq, PartialOrd, Ord)]
pub struct BulkLotKey {
    pub content_id: ContentId,
    pub quality: QualityBand,
}

impl BulkLotKey {
    pub fn new(content_id: ContentId, quality: QualityBand) -> (r: Self)
        ensures
            r.content_id == content_id,
            r.quality == quality,
    {
        BulkLotKey { content_id, quality }
    }
}

#[derive(Debug, Clone, PartialEq, Eq)]
pub struct LotProvenance {
    pub origin: String,
    pub created_tick: u64,
}

#[derive(Debug, Clone, PartialEq, Eq)]
pub enum LotLocation {
    Source(String),
    Stockpile(String),
    StationInput(String),
    StationOutput(String),
    Cargo(String),
    Cache(String),
    Hole(String),
}

pub open spec fn location_kind(l: LotLocation) -> int {
    match l {
        LotLocation::Source(_) => 0,
        LotLocation::Stockpile(_) => 1,
        LotLocation::StationInput(_) => 2,
        LotLocation::StationOutput(_) => 3,
        LotLocation::Cargo(_) => 4,
        LotLocation::Cache(_) => 5,
        LotLocation::Hole(_) => 6,
    }
}

pub open spec fn location_id(l: LotLocation) -> Seq<char> {
    match l {
        LotLocation::Source(id) => id@,
        LotLocation::Stockpile(id) => id@,
        LotLocation::StationInput(id) => id@,
        LotLocation::StationOutput(id) => id@,
        LotLocation::Cargo(id) => id@,
        LotLocation::Cache(id) => id@,
        LotLocation::Hole(id) => id@,
    }
}

impl LotLocation {
    fn identifier(&self) -> (r: &str)
        ensures
            r@ == location_id(*self),
    {
        match self {
            LotLocation::Source(id) => id.as_str(),
            LotLocation::Stockpile(id) => id.as_str(),
            LotLocation::StationInput(id) => id.as_str(),
            LotLocation::StationOutput(id) => id.as_str(),
            LotLocation::Cargo(id) => id.as_str(),
            LotLocation::Cache(id) => id.as_str(),
            LotLocation::Hole(id) => id.as_str(),
        }
    }

    fn kind(&self) -> (r: u8)
        ensures
            r == location_kind(*self),
    {
        match self {
            LotLocation::Source(_) => 0,
            LotLocation::Stockpile(_) => 1,
            LotLocation::StationInput(_) => 2,
            LotLocation::StationOutput(_) => 3,
            LotLocation::Cargo(_) => 4,
            LotLocation::Cache(_) => 5,
            LotLocation::Hole(_) => 6,
        }
    }
}

fn same_location(a: &LotLocation, b: &LotLocation) -> (r: bool)
    ensures
        r == (location_kind(*a) == location_kind(*b) && location_id(*a) == location_id(*b)),
{
    a.kind() == b.kind() && text_eq(a.identifier(), b.identifier())
}

#[derive(Debug, Clone, PartialEq, Eq)]
pub struct PhysicalLot {
    pub id: PhysicalLotId,
    pub key: BulkLotKey,
    pub provenance: LotProvenance,
    pub quantity: u32,
    pub location: LotLocation,
    pub reservation: Option<String>,
}

pub open spec fn reservation_blank(r: Option<String>) -> bool {
    r matches Some(v) && is_blank(v@)
}

/// The first rule a lot breaks: a zero quantity, a blank provenance, a blank
/// location or a blank reservation.
pub open spec fn physical_lot_error(lot: PhysicalLot) -> Option<QualityLotError> {
    if lot.quantity == 0 {
        Some(QualityLotError::ZeroQuantity)
    } else if is_blank(lot.provenance.origin@) {
        Some(QualityLotError::EmptyProvenance)
    } else if is_blank(location_id(lot.location)) {
        Some(QualityLotError::EmptyLocation)
    } else if reservation_blank(lot.reservation) {
        Some(QualityLotError::EmptyReservation)
    } else {
        None
    }
}

fn reservation_is_blank(r: &Option<String>) -> (b: bool)
    ensures
        b == reservation_blank(*r),
{
    match r {
        Some(v) => text_is_blank(v.as_str()),
        None => false,
    }
}

impl PhysicalLot {
    fn validate(&self) -> (r: Result<(), QualityLotError>)
        ensures
            r is Err <==> physical_lot_error(*self) is Some,
            r matches Err(e) ==> physical_lot_error(*self) == Some(e),
    {
        if self.quantity == 0 {
            return Err(QualityLotError::ZeroQuantity);
        }
        if text_is_blank(self.provenance.origin.as_str()) {
            return Err(QualityLotError::EmptyProvenance);
        }
        if text_is_blank(self.location.identifier()) {
            return Err(QualityLotError::EmptyLocation);
        }
        if reservation_is_blank(&self.reservation) {
            return Err(QualityLotError::EmptyReservation);
        }
        Ok(())
    }
}

#[derive(Debug, Clone, PartialEq, Eq)]
pub struct ExactItemPayload {
    pub id: MaterialInstanceId,
    pub definition_id: ItemDefinitionId,
    pub material_id: MaterialId,
    pub quality: QualityBand,
    pub durability: u32,
    pub location: LotLocation,
    pub reservation: Option<String>,
    pub equipment_slot: Option<EquipmentSlot>,
    pub augmentation_slot: Option<AugmentationSlot>,
}

pub open spec fn payload_error(p: ExactItemPayload) -> Option<QualityLotError> {
    if is_blank(location_id(p.location)) {
        Some(QualityLotError::EmptyLocation)
    } else if reservation_blank(p.reservation) {
        Some(QualityLotError::EmptyReservation)
    } else {
        None
    }
}

impl ExactItemPayload {
    fn validate(&self) -> (r: Result<(), QualityLotError>)
        ensures
            r is Err <==> payload_error(*self) is Some,
            r matches Err(e) ==> payload_error(*self) == Some(e),
    {
        if text_is_blank(self.location.identifier()) {
            return Err(QualityLotError::EmptyLocation);
        }
        if reservation_is_blank(&self.reservation) {
            return Err(QualityLotError::EmptyReservation);
        }
        Ok(())
    }

    /// The payload of an item that carries no augmentation.
    pub fn from_unaugmented_item(item: ItemInstance) -> (r: Option<Self>)
        ensures
            item.augmentation is Some ==> r is None,
            item.augmentation is None ==> r == Some(ExactItemPayload {
                id: item.id,
                definition_id: item.definition_id,
                material_id: item.material_id,
                quality: item.quality,
                durability: item.durability,
                location: item.location,
                reservation: item.reservation,
                equipment_slot: item.equipment_slot,
                augmentation_slot: item.augmentation_slot,
            }),
    {
        if item.augmentation.is_some() {
            return None;
        }
        Some(ExactItemPayload {
            id: item.id,
            definition_id: item.definition_id,
            material_id: item.material_id,
            quality: item.quality,
            durability: item.durability,
            location: item.location,
            reservation: item.reservation,
            equipment_slot: item.equipment_slot,
            augmentation_slot: item.augmentation_slot,
        })
    }

    /// The unaugmented item holding this payload.
    pub fn into_item(self) -> (r: ItemInstance)
        ensures
            r == (ItemInstance {
                id: self.id,
                definition_id: self.definition_id,
                material_id: self.material_id,
                quality: self.quality,
                durability: self.durability,
                location: self.location,
                reservation: self.reservation,
                equipment_slot: self.equipment_slot,
                augmentation_slot: self.augmentation_slot,
                augmentation: None,
            }),
    {
        ItemInstance {
            id: self.id,
            definition_id: self.definition_id,
            material_id: self.material_id,
            quality: self.quality,
            durability: self.durability,
            location: self.location,
            reservation: self.reservation,
            equipment_slot: self.equipment_slot,
            augmentation_slot: self.augmentation_slot,
            augmentation: None,
        }
    }
}

#[derive(Debug, Clone, PartialEq, Eq)]
pub struct ItemAugmentation {
    pub item: ExactItemPayload,
    pub slot: AugmentationSlot,
}

#[derive(Debug, Clone, PartialEq, Eq)]
pub struct ItemInstance {
    pub id: MaterialInstanceId,
    pub definition_id: ItemDefinitionId,
    pub material_id: MaterialId,
    pub quality: QualityBand,
    pub durability: u32,
    pub location: LotLocation,
    pub reservation: Option<String>,
    pub equipment_slot: Option<EquipmentSlot>,
    /// Catalog-authorized augmentation compatibility; `None` means this item
    /// is not augmentable.
    pub augmentation_slot: Option<AugmentationSlot>,
    pub augmentation: Option<ItemAugmentation>,
}

/// The first rule an item breaks; an installed augmentation must fill the
/// item's slot, be made for that slot, and be a valid payload itself.
pub open spec fn item_error(item: ItemInstance) -> Option<QualityLotError> {
    if is_blank(location_id(item.location)) {
        Some(QualityLotError::EmptyLocation)
    } else if reservation_blank(item.reservation) {
        Some(QualityLotError::EmptyReservation)
    } else if item.augmentation matches Some(a) && (item.augmentation_slot != Some(a.slot)
        || a.item.augmentation_slot != Some(a.slot) || payload_error(a.item) is Some) {
        Some(QualityLotError::IneligibleAugmentation)
    } else {
        None
    }
}

/// Whether an augmentation may be installed: the item is free (unreserved,
/// unequipped, not in cargo, not broken, not already augmented) and has the slot.
pub open spec fn augmentation_installable(item: ItemInstance, a: ItemAugmentation) -> bool {
    &&& item.reservation is None
    &&& item.equipment_slot is None
    &&& !(item.location is Cargo)
    &&& item.durability != 0
    &&& item.augmentation is None
    &&& item.augmentation_slot == Some(a.slot)
}

impl ItemInstance {
    fn validate(&self) -> (r: Result<(), QualityLotError>)
        ensures
            r is Err <==> item_error(*self) is Some,
            r matches Err(e) ==> item_error(*self) == Some(e),
    {
        if text_is_blank(self.location.identifier()) {
            return Err(QualityLotError::EmptyLocation);
        }
        if reservation_is_blank(&self.reservation) {
            return Err(QualityLotError::EmptyReservation);
        }
        match &self.augmentation {
            Some(augmentation) => {
                if self.augmentation_slot != Some(augmentation.slot)
                    || augmentation.item.augmentation_slot != Some(augmentation.slot)
                    || augmentation.item.validate().is_err()
                {
                    return Err(QualityLotError::IneligibleAugmentation);
                }
            },
            None => {},
        }
        Ok(())
    }

    pub fn install_augmentation(&mut self, augmentation: ItemAugmentation) -> (r: Result<(), QualityLotError>)
        ensures
            r is Ok <==> augmentation_installable(*old(self), augmentation),
            r matches Err(e) ==> e == QualityLotError::IneligibleAugmentation && *final(self) == *old(self),
            r is Ok ==> *final(self) == (ItemInstance { augmentation: Some(augmentation), ..*old(self) }),
    {
        if self.reservation.is_some() || self.equipment_slot.is_some()
            || matches!(&self.location, LotLocation::Cargo(_)) || self.durability == 0
            || self.augmentation.is_some() || self.augmentation_slot != Some(augmentation.slot)
        {
            return Err(QualityLotError::IneligibleAugmentation);
        }
        self.augmentation = Some(augmentation);
        Ok(())
    }
}

#[derive(Debug, Clone, PartialEq, Eq)]
pub struct StationFixture {
    pub item: ExactItemPayload,
    pub slot: FixtureSlot,
}

#[derive(Debug, Clone, PartialEq, Eq)]
pub struct FixtureInstance {
    pub slot: FixtureSlot,
    pub installed: Option<StationFixture>,
    pub reserved: bool,
}

impl FixtureInstance {
    /// Install into a free, unreserved slot of the matching kind.
    pub fn install_fixture(&mut self, fixture: StationFixture) -> (r: Result<(), QualityLotError>)
        ensures
            r is Ok <==> (!old(self).reserved && old(self).installed is None && fixture.slot == old(self).slot
                && payload_error(fixture.item) is None),
            r matches Err(e) ==> e == QualityLotError::IncompatibleFixture && *final(self) == *old(self),
            r is Ok ==> *final(self) == (FixtureInstance { installed: Some(fixture), ..*old(self) }),
    {
        if self.reserved || self.installed.is_some() || fixture.slot != self.slot || fixture.item.validate().is_err() {
            return Err(QualityLotError::IncompatibleFixture);
        }
        self.installed = Some(fixture);
        Ok(())
    }
}

#[derive(Debug, Clone, Copy, PartialEq, Eq, Structural)]
pub enum RecoveryReason {
    Cancelled,
    CarrierDeath,
    RouteLost,
}


fn clone_location(l: &LotLocation) -> (r: LotLocation)
    ensures
        r == *l,
{
    match l {
        LotLocation::Source(id) => LotLocation::Source(id.clone()),
        LotLocation::Stockpile(id) => LotLocation::Stockpile(id.clone()),
        LotLocation::StationInput(id) => LotLocation::StationInput(id.clone()),
        LotLocation::StationOutput(id) => LotLocation::StationOutput(id.clone()),
        LotLocation::Cargo(id) => LotLocation::Cargo(id.clone()),
        LotLocation::Cache(id) => LotLocation::Cache(id.clone()),
        LotLocation::Hole(id) => LotLocation::Hole(id.clone()),
    }
}

impl PhysicalLot {
    fn duplicate(&self) -> (r: Self)
        ensures
            r == *self,
    {
        PhysicalLot {
            id: self.id.clone(),
            key: BulkLotKey { content_id: self.key.content_id.clone(), quality: self.key.quality },
            provenance: LotProvenance { origin: self.provenance.origin.clone(), created_tick: self.provenance.created_tick },
            quantity: self.quantity,
            location: clone_location(&self.location),
            reservation: clone_opt_text(&self.reservation),
        }
    }
}

/// The first rule a batch of new lots breaks, scanning in order: an invalid
/// lot, or an ID already held or repeated earlier in the batch.
pub open spec fn lot_batch_error(s: Seq<PhysicalLot>, existing: Map<Seq<char>, PhysicalLot>) -> Option<QualityLotError>
    decreases s.len(),
{
    if s.len() == 0 {
        None
    } else if lot_batch_error(s.drop_last(), existing) is Some {
        lot_batch_error(s.drop_last(), existing)
    } else {
        let x = s.last();
        if physical_lot_error(x) is Some {
            physical_lot_error(x)
        } else if existing.contains_key(x.id@) || exists|j: int| 0 <= j < s.len() - 1 && (#[trigger] s[j]).id@ == x.id@ {
            Some(QualityLotError::DuplicateLotId(x.id))
        } else {
            None
        }
    }
}

/// `m` with every lot of `s` added under its ID.
pub open spec fn insert_all_lots(m: Map<Seq<char>, PhysicalLot>, s: Seq<PhysicalLot>) -> Map<Seq<char>, PhysicalLot>
    decreases s.len(),
{
    if s.len() == 0 {
        m
    } else {
        insert_all_lots(m, s.drop_last()).insert(s.last().id@, s.last())
    }
}

pub open spec fn item_batch_error(s: Seq<ItemInstance>, existing: Map<Seq<char>, ItemInstance>) -> Option<QualityLotError>
    decreases s.len(),
{
    if s.len() == 0 {
        None
    } else if item_batch_error(s.drop_last(), existing) is Some {
        item_batch_error(s.drop_last(), existing)
    } else {
        let x = s.last();
        if item_error(x) is Some {
            item_error(x)
        } else if existing.contains_key(x.id@) || exists|j: int| 0 <= j < s.len() - 1 && (#[trigger] s[j]).id@ == x.id@ {
            Some(QualityLotError::DuplicateItemId(x.id))
        } else {
            None
        }
    }
}

pub open spec fn insert_all_items(m: Map<Seq<char>, ItemInstance>, s: Seq<ItemInstance>) -> Map<Seq<char>, ItemInstance>
    decreases s.len(),
{
    if s.len() == 0 {
        m
    } else {
        insert_all_items(m, s.drop_last()).insert(s.last().id@, s.last())
    }
}

/// Every stored record sits under its own ID and is valid.
pub open spec fn lots_consistent(m: Map<Seq<char>, PhysicalLot>) -> bool {
    forall|k: Seq<char>| #[trigger] m.contains_key(k) ==> m[k].id@ == k && physical_lot_error(m[k]) is None
}

pub open spec fn items_consistent(m: Map<Seq<char>, ItemInstance>) -> bool {
    forall|k: Seq<char>| #[trigger] m.contains_key(k) ==> m[k].id@ == k && item_error(m[k]) is None
}

proof fn lemma_lot_batch_prefix(s: Seq<PhysicalLot>, existing: Map<Seq<char>, PhysicalLot>, k: int)
    requires
        0 <= k <= s.len(),
        lot_batch_error(s.take(k), existing) is Some,
    ensures
        lot_batch_error(s, existing) == lot_batch_error(s.take(k), existing),
    decreases s.len() - k,
{
    if k < s.len() {
        assert(s.take(k + 1).drop_last() =~= s.take(k));
        lemma_lot_batch_prefix(s, existing, k + 1);
    } else {
        assert(s.take(k) =~= s);
    }
}

proof fn lemma_item_batch_prefix(s: Seq<ItemInstance>, existing: Map<Seq<char>, ItemInstance>, k: int)
    requires
        0 <= k <= s.len(),
        item_batch_error(s.take(k), existing) is Some,
    ensures
        item_batch_error(s, existing) == item_batch_error(s.take(k), existing),
    decreases s.len() - k,
{
    if k < s.len() {
        assert(s.take(k + 1).drop_last() =~= s.take(k));
        lemma_item_batch_prefix(s, existing, k + 1);
    } else {
        assert(s.take(k) =~= s);
    }
}

/// Check a batch of new lots against `existing` without changing anything.
#[verifier::loop_isolation(false)]
fn check_lot_batch(lots: &Vec<PhysicalLot>, existing: &IdMap<PhysicalLot>) -> (r: Result<(), QualityLotError>)
    requires
        existing.wf(),
    ensures
        r is Err <==> lot_batch_error(lots@, existing.map()) is Some,
        r matches Err(e) ==> lot_batch_error(lots@, existing.map()) == Some(e),
{
    let mut seen: IdMap<()> = IdMap::new();
    let n = lots.len();
    let mut i: usize = 0;
    while i < n
        invariant
            n == lots@.len(),
            i <= n,
            seen.wf(),
            lot_batch_error(lots@.take(i as int), existing.map()) is None,
            forall|k: Seq<char>| seen.map().contains_key(k) <==> exists|j: int| 0 <= j < i && (#[trigger] lots@[j]).id@ == k,
        decreases n - i,
    {
        proof { assert(lots@.take(i + 1).drop_last() =~= lots@.take(i as int)); }
        let lot = &lots[i];
        let checked = lot.validate();
        if let Err(e) = checked {
            proof { lemma_lot_batch_prefix(lots@, existing.map(), i + 1); }
            return Err(e);
        }
        if existing.contains_key(lot.id.as_str()) || seen.contains_key(lot.id.as_str()) {
            proof {
                if seen.map().contains_key(lot.id@) {
                    let j = choose|j: int| 0 <= j < i && (#[trigger] lots@[j]).id@ == lot.id@;
                    assert(lots@.take(i + 1)[j].id@ == lots@.take(i + 1).last().id@);
                }
                lemma_lot_batch_prefix(lots@, existing.map(), i + 1);
            }
            return Err(QualityLotError::DuplicateLotId(lot.id.clone()));
        }
        proof {
            assert forall|j: int| 0 <= j < i implies (#[trigger] lots@.take(i + 1)[j]).id@ != lots@[i as int].id@ by {
                assert(lots@.take(i + 1)[j] == lots@[j]);
            }
        }
        seen.insert(lot.id.clone(), ());
        proof {
            assert forall|k: Seq<char>| seen.map().contains_key(k) <==> exists|j: int| 0 <= j < i + 1 && (#[trigger] lots@[j]).id@ == k by {
                if k == lots@[i as int].id@ {
                    assert(lots@[i as int].id@ == k);
                }
            }
        }
        i = i + 1;
    }
    proof { assert(lots@.take(n as int) =~= lots@); }
    Ok(())
}

#[verifier::loop_isolation(false)]
fn check_item_batch(items: &Vec<ItemInstance>, existing: &IdMap<ItemInstance>) -> (r: Result<(), QualityLotError>)
    requires
        existing.wf(),
    ensures
        r is Err <==> item_batch_error(items@, existing.map()) is Some,
        r matches Err(e) ==> item_batch_error(items@, existing.map()) == Some(e),
{
    let mut seen: IdMap<()> = IdMap::new();
    let n = items.len();
    let mut i: usize = 0;
    while i < n
        invariant
            n == items@.len(),
            i <= n,
            seen.wf(),
            item_batch_error(items@.take(i as int), existing.map()) is None,
            forall|k: Seq<char>| seen.map().contains_key(k) <==> exists|j: int| 0 <= j < i && (#[trigger] items@[j]).id@ == k,
        decreases n - i,
    {
        proof { assert(items@.take(i + 1).drop_last() =~= items@.take(i as int)); }
        let item = &items[i];
        let checked = item.validate();
        if let Err(e) = checked {
            proof { lemma_item_batch_prefix(items@, existing.map(), i + 1); }
            return Err(e);
        }
        if existing.contains_key(item.id.as_str()) || seen.contains_key(item.id.as_str()) {
            proof {
                if seen.map().contains_key(item.id@) {
                    let j = choose|j: int| 0 <= j < i && (#[trigger] items@[j]).id@ == item.id@;
                    assert(items@.take(i + 1)[j].id@ == items@.take(i + 1).last().id@);
                }
                lemma_item_batch_prefix(items@, existing.map(), i + 1);
            }
            return Err(QualityLotError::DuplicateItemId(item.id.clone()));
        }
        proof {
            assert forall|j: int| 0 <= j < i implies (#[trigger] items@.take(i + 1)[j]).id@ != items@[i as int].id@ by {
                assert(items@.take(i + 1)[j] == items@[j]);
            }
        }
        seen.insert(item.id.clone(), ());
        proof {
            assert forall|k: Seq<char>| seen.map().contains_key(k) <==> exists|j: int| 0 <= j < i + 1 && (#[trigger] items@[j]).id@ == k by {
                if k == items@[i as int].id@ {
                    assert(items@[i as int].id@ == k);
                }
            }
        }
        i = i + 1;
    }
    proof { assert(items@.take(n as int) =~= items@); }
    Ok(())
}

/// Add a checked batch of lots, in order.
fn add_lots(m: &mut IdMap<PhysicalLot>, lots: Vec<PhysicalLot>)
    requires
        old(m).wf(),
        lots_consistent(old(m).map()),
        lot_batch_error(lots@, old(m).map()) is None,
    ensures
        final(m).wf(),
        final(m).map() == insert_all_lots(old(m).map(), lots@),
        lots_consistent(final(m).map()),
{
    let ghost s = lots@;
    let ghost start = m.map();
    let mut rest = lots;
    let n = rest.len();
    let mut i: usize = 0;
    proof {
        assert forall|k: int| 0 <= k <= s.len() implies lot_batch_error(#[trigger] s.take(k), start) is None by {
            if lot_batch_error(s.take(k), start) is Some {
                lemma_lot_batch_prefix(s, start, k);
            }
        }
    }
    while i < n
        invariant
            n == s.len(),
            i <= n,
            rest@ == s.skip(i as int),
            m.wf(),
            m.map() == insert_all_lots(start, s.take(i as int)),
            lots_consistent(m.map()),
            forall|k: int| 0 <= k <= s.len() ==> lot_batch_error(#[trigger] s.take(k), start) is None,
        decreases n - i,
    {
        let lot = rest.remove(0);
        proof {
            assert(lot == s[i as int]);
            assert(s.take(i + 1).drop_last() =~= s.take(i as int));
            assert(s.take(i + 1).last() == s[i as int]);
            assert(rest@ =~= s.skip(i + 1));
            assert(physical_lot_error(lot) is None);
        }
        let key = lot.id.clone();
        m.insert(key, lot);
        i = i + 1;
    }
    proof { assert(s.take(n as int) =~= s); }
}

fn add_items(m: &mut IdMap<ItemInstance>, items: Vec<ItemInstance>)
    requires
        old(m).wf(),
        items_consistent(old(m).map()),
        item_batch_error(items@, old(m).map()) is None,
    ensures
        final(m).wf(),
        final(m).map() == insert_all_items(old(m).map(), items@),
        items_consistent(final(m).map()),
{
    let ghost s = items@;
    let ghost start = m.map();
    let mut rest = items;
    let n = rest.len();
    let mut i: usize = 0;
    proof {
        assert forall|k: int| 0 <= k <= s.len() implies item_batch_error(#[trigger] s.take(k), start) is None by {
            if item_batch_error(s.take(k), start) is Some {
                lemma_item_batch_prefix(s, start, k);
            }
        }
    }
    while i < n
        invariant
            n == s.len(),
            i <= n,
            rest@ == s.skip(i as int),
            m.wf(),
            m.map() == insert_all_items(start, s.take(i as int)),
            items_consistent(m.map()),
            forall|k: int| 0 <= k <= s.len() ==> item_batch_error(#[trigger] s.take(k), start) is None,
        decreases n - i,
    {
        let item = rest.remove(0);
        proof {
            assert(item == s[i as int]);
            assert(s.take(i + 1).drop_last() =~= s.take(i as int));
            assert(s.take(i + 1).last() == s[i as int]);
            assert(rest@ =~= s.skip(i + 1));
        }
        let key = item.id.clone();
        m.insert(key, item);
        i = i + 1;
    }
    proof { assert(s.take(n as int) =~= s); }
}


pub struct QualityLotLedger {
    lots: IdMap<PhysicalLot>,
    items: IdMap<ItemInstance>,
}

/// The total quantity of lots, in key order.
pub open spec fn lots_total(s: Seq<(Seq<char>, PhysicalLot)>) -> int
    decreases s.len(),
{
    if s.len() == 0 { 0 } else { lots_total(s.drop_last()) + s.last().1.quantity }
}

/// The quantities a debit batch takes, summed.
pub open spec fn debit_sum(d: Seq<(PhysicalLotId, u32)>) -> int
    decreases d.len(),
{
    if d.len() == 0 { 0 } else { debit_sum(d.drop_last()) + d.last().1 }
}

proof fn lemma_total_remove_at(s: Seq<(Seq<char>, PhysicalLot)>, i: int)
    requires
        0 <= i < s.len(),
    ensures
        lots_total(s.remove(i)) == lots_total(s) - s[i].1.quantity,
    decreases s.len(),
{
    if i == s.len() - 1 {
        assert(s.remove(i) =~= s.drop_last());
    } else {
        lemma_total_remove_at(s.drop_last(), i);
        assert(s.remove(i).drop_last() =~= s.drop_last().remove(i));
        assert(s.remove(i).last() == s.last());
    }
}

/// Sorted lots whose map lacks one key of another's hold that lot's quantity less.
proof fn lemma_total_without_key(s0: Seq<(Seq<char>, PhysicalLot)>, s1: Seq<(Seq<char>, PhysicalLot)>, k: Seq<char>)
    requires
        keys_sorted(s0),
        keys_sorted(s1),
        entries_map(s0).contains_key(k),
        entries_map(s1) == entries_map(s0).remove(k),
    ensures
        lots_total(s1) == lots_total(s0) - entries_map(s0)[k].quantity,
{
    let i = choose|i: int| 0 <= i < s0.len() && #[trigger] s0[i].0 == k;
    lemma_lookup_at(s0, i);
    lemma_entries_remove_at(s0, i);
    lemma_sorted_entries_unique(s1, s0.remove(i));
    lemma_total_remove_at(s0, i);
}

/// The first rule a debit batch breaks, scanning in order.
pub open spec fn debit_error(d: Seq<(PhysicalLotId, u32)>, lots: Map<Seq<char>, PhysicalLot>) -> Option<QualityLotError>
    decreases d.len(),
{
    if d.len() == 0 {
        None
    } else if debit_error(d.drop_last(), lots) is Some {
        debit_error(d.drop_last(), lots)
    } else {
        let (id, q) = d.last();
        if q == 0 {
            Some(QualityLotError::InvalidDebitQuantity)
        } else if exists|j: int| 0 <= j < d.len() - 1 && (#[trigger] d[j]).0@ == id@ {
            Some(QualityLotError::DuplicateDebitLotId(id))
        } else if !lots.contains_key(id@) {
            Some(QualityLotError::MissingLot(id))
        } else if lots[id@].reservation is Some {
            Some(QualityLotError::ReservedLot(id))
        } else if q > lots[id@].quantity {
            Some(QualityLotError::InvalidDebitQuantity)
        } else {
            None
        }
    }
}

/// The lots after a checked debit batch: each debited lot shrinks, and a lot
/// debited to zero is removed.
pub open spec fn apply_debits(lots: Map<Seq<char>, PhysicalLot>, d: Seq<(PhysicalLotId, u32)>) -> Map<Seq<char>, PhysicalLot>
    decreases d.len(),
{
    if d.len() == 0 {
        lots
    } else {
        let m = apply_debits(lots, d.drop_last());
        let (id, q) = d.last();
        if m[id@].quantity == q {
            m.remove(id@)
        } else {
            m.insert(id@, PhysicalLot { quantity: (m[id@].quantity - q) as u32, ..m[id@] })
        }
    }
}

/// Every debit in the batch is positive, names a distinct lot that exists,
/// is unreserved and holds at least that much.
pub open spec fn debits_acceptable(d: Seq<(PhysicalLotId, u32)>, lots: Map<Seq<char>, PhysicalLot>) -> bool {
    &&& forall|j: int|
        0 <= j < d.len() ==> {
            &&& (#[trigger] d[j]).1 > 0
            &&& lots.contains_key(d[j].0@)
            &&& lots[d[j].0@].reservation is None
            &&& d[j].1 <= lots[d[j].0@].quantity
        }
    &&& forall|a: int, b: int| 0 <= a < b < d.len() ==> (#[trigger] d[a]).0@ != (#[trigger] d[b]).0@
}

/// The lot under `k` after an acceptable batch: each debited lot loses its
/// debit and disappears at zero; every other lot stays as it was.
pub open spec fn lot_after_debits(lots: Map<Seq<char>, PhysicalLot>, d: Seq<(PhysicalLotId, u32)>, k: Seq<char>) -> Option<PhysicalLot> {
    if exists|j: int| 0 <= j < d.len() && (#[trigger] d[j]).0@ == k {
        let j = choose|j: int| 0 <= j < d.len() && (#[trigger] d[j]).0@ == k;
        if lots[k].quantity == d[j].1 {
            None
        } else {
            Some(PhysicalLot { quantity: (lots[k].quantity - d[j].1) as u32, ..lots[k] })
        }
    } else if lots.contains_key(k) {
        Some(lots[k])
    } else {
        None
    }
}

/// The lot map read one key at a time.
pub open spec fn lot_at(m: Map<Seq<char>, PhysicalLot>, k: Seq<char>) -> Option<PhysicalLot> {
    if m.contains_key(k) { Some(m[k]) } else { None }
}

proof fn lemma_debits_per_lot(d: Seq<(PhysicalLotId, u32)>, lots: Map<Seq<char>, PhysicalLot>)
    ensures
        debit_error(d, lots) is None <==> debits_acceptable(d, lots),
        debits_acceptable(d, lots) ==> forall|k: Seq<char>|
            #[trigger] lot_at(apply_debits(lots, d), k) == lot_after_debits(lots, d, k),
    decreases d.len(),
{
    if d.len() > 0 {
        let d0 = d.drop_last();
        let n = d.len() - 1;
        let (id, q) = d.last();
        lemma_debits_per_lot(d0, lots);
        assert forall|j: int| 0 <= j < n implies #[trigger] d0[j] == d[j] by {}
        if debits_acceptable(d, lots) {
            assert(debits_acceptable(d0, lots)) by {
                assert forall|a: int, b: int| 0 <= a < b < d0.len() implies (#[trigger] d0[a]).0@ != (#[trigger] d0[b]).0@ by {
                    assert(d[a].0@ != d[b].0@);
                }
                assert forall|j: int| 0 <= j < d0.len() implies (#[trigger] d0[j]).1 > 0 && lots.contains_key(d0[j].0@) by {
                    assert(d[j] == d0[j]);
                }
            }
            assert(!(exists|j: int| 0 <= j < d.len() - 1 && (#[trigger] d[j]).0@ == id@)) by {
                if exists|j: int| 0 <= j < d.len() - 1 && (#[trigger] d[j]).0@ == id@ {
                    let j = choose|j: int| 0 <= j < d.len() - 1 && (#[trigger] d[j]).0@ == id@;
                    assert(d[j].0@ != d[n].0@);
                }
            }
            assert(d[n] == (id, q));
            assert(debit_error(d, lots) is None);
            let m = apply_debits(lots, d0);
            assert(!(exists|j: int| 0 <= j < d0.len() && (#[trigger] d0[j]).0@ == id@)) by {
                if exists|j: int| 0 <= j < d0.len() && (#[trigger] d0[j]).0@ == id@ {
                    let j = choose|j: int| 0 <= j < d0.len() && (#[trigger] d0[j]).0@ == id@;
                    assert(d[j].0@ == id@);
                }
            }
            assert(lot_at(m, id@) == lot_after_debits(lots, d0, id@));
            assert forall|k: Seq<char>| #[trigger] lot_at(apply_debits(lots, d), k) == lot_after_debits(lots, d, k) by {
                assert(lot_at(m, k) == lot_after_debits(lots, d0, k));
                if k == id@ {
                    assert(d[n].0@ == k);
                    let j = choose|j: int| 0 <= j < d.len() && (#[trigger] d[j]).0@ == k;
                    if j != n {
                        assert(d[j].0@ != d[n].0@);
                    }
                } else {
                    if exists|j: int| 0 <= j < d.len() && (#[trigger] d[j]).0@ == k {
                        let j = choose|j: int| 0 <= j < d.len() && (#[trigger] d[j]).0@ == k;
                        assert(j != n);
                        assert(d0[j].0@ == k);
                        let j0 = choose|j0: int| 0 <= j0 < d0.len() && (#[trigger] d0[j0]).0@ == k;
                        if j0 != j {
                            if j0 < j {
                                assert(d[j0].0@ != d[j].0@);
                            } else {
                                assert(d[j].0@ != d[j0].0@);
                            }
                        }
                    } else {
                        assert(!(exists|j: int| 0 <= j < d0.len() && (#[trigger] d0[j]).0@ == k)) by {
                            if exists|j: int| 0 <= j < d0.len() && (#[trigger] d0[j]).0@ == k {
                                let j = choose|j: int| 0 <= j < d0.len() && (#[trigger] d0[j]).0@ == k;
                                assert(d[j].0@ == k);
                            }
                        }
                    }
                }
            }
        } else {
            if debit_error(d, lots) is None {
                assert(debit_error(d0, lots) is None);
                assert(debits_acceptable(d0, lots));
                assert(debits_acceptable(d, lots)) by {
                    assert forall|j: int| 0 <= j < d.len() implies {
                        &&& (#[trigger] d[j]).1 > 0
                        &&& lots.contains_key(d[j].0@)
                        &&& lots[d[j].0@].reservation is None
                        &&& d[j].1 <= lots[d[j].0@].quantity
                    } by {
                        if j < n {
                            assert(d0[j] == d[j]);
                        }
                    }
                    assert forall|a: int, b: int| 0 <= a < b < d.len() implies (#[trigger] d[a]).0@ != (#[trigger] d[b]).0@ by {
                        if b < n {
                            assert(d0[a] == d[a] && d0[b] == d[b]);
                        } else {
                            assert(d[b] == (id, q));
                        }
                    }
                }
            }
        }
    }
}

/// Law: a debit batch succeeds exactly when every debit is positive and names
/// a distinct, existing, unreserved lot holding at least that much; then each
/// debited lot loses its debit (and disappears at zero) and every other lot
/// stays as it was.
pub proof fn law_debit_lots_per_lot(d: Seq<(PhysicalLotId, u32)>, lots: Map<Seq<char>, PhysicalLot>)
    ensures
        debit_error(d, lots) is None <==> debits_acceptable(d, lots),
        debits_acceptable(d, lots) ==> forall|k: Seq<char>|
            #[trigger] lot_at(apply_debits(lots, d), k) == lot_after_debits(lots, d, k),
{
    lemma_debits_per_lot(d, lots);
}

proof fn lemma_debit_prefix(d: Seq<(PhysicalLotId, u32)>, lots: Map<Seq<char>, PhysicalLot>, k: int)
    requires
        0 <= k <= d.len(),
        debit_error(d.take(k), lots) is Some,
    ensures
        debit_error(d, lots) == debit_error(d.take(k), lots),
    decreases d.len() - k,
{
    if k < d.len() {
        assert(d.take(k + 1).drop_last() =~= d.take(k));
        lemma_debit_prefix(d, lots, k + 1);
    } else {
        assert(d.take(k) =~= d);
    }
}

/// IDs in a batch are checked in order: a missing lot, then a repeat.
pub open spec fn expire_error(ids: Seq<PhysicalLotId>, lots: Map<Seq<char>, PhysicalLot>) -> Option<QualityLotError>
    decreases ids.len(),
{
    if ids.len() == 0 {
        None
    } else if expire_error(ids.drop_last(), lots) is Some {
        expire_error(ids.drop_last(), lots)
    } else {
        let id = ids.last();
        if !lots.contains_key(id@) {
            Some(QualityLotError::MissingLot(id))
        } else if exists|j: int| 0 <= j < ids.len() - 1 && (#[trigger] ids[j])@ == id@ {
            Some(QualityLotError::DuplicateDebitLotId(id))
        } else {
            None
        }
    }
}

proof fn lemma_expire_prefix(ids: Seq<PhysicalLotId>, lots: Map<Seq<char>, PhysicalLot>, k: int)
    requires
        0 <= k <= ids.len(),
        expire_error(ids.take(k), lots) is Some,
    ensures
        expire_error(ids, lots) == expire_error(ids.take(k), lots),
    decreases ids.len() - k,
{
    if k < ids.len() {
        assert(ids.take(k + 1).drop_last() =~= ids.take(k));
        lemma_expire_prefix(ids, lots, k + 1);
    } else {
        assert(ids.take(k) =~= ids);
    }
}

pub open spec fn id_listed(ids: Seq<PhysicalLotId>, k: Seq<char>) -> bool {
    exists|j: int| 0 <= j < ids.len() && (#[trigger] ids[j])@ == k
}

/// Reservations held by the listed lots, in lot-ID order.
pub open spec fn listed_reservations(s: Seq<(Seq<char>, PhysicalLot)>, ids: Seq<PhysicalLotId>) -> Seq<String>
    decreases s.len(),
{
    if s.len() == 0 {
        Seq::empty()
    } else {
        let rest = listed_reservations(s.drop_last(), ids);
        let (k, lot) = s.last();
        if id_listed(ids, k) && lot.reservation is Some {
            rest.push(lot.reservation->0)
        } else {
            rest
        }
    }
}

/// Some ID among the first `i` is `k`.
pub open spec fn listed_before(ids: Seq<PhysicalLotId>, i: int, k: Seq<char>) -> bool {
    exists|j: int| 0 <= j < i && (#[trigger] ids[j])@ == k
}

/// Every listed lot removed.
pub open spec fn without_listed(lots: Map<Seq<char>, PhysicalLot>, ids: Seq<PhysicalLotId>) -> Map<Seq<char>, PhysicalLot> {
    Map::new(|k: Seq<char>| lots.contains_key(k) && !id_listed(ids, k), |k: Seq<char>| lots[k])
}

/// Whether two lots may merge: same key, provenance and location, both free.
pub open spec fn mergeable(a: PhysicalLot, b: PhysicalLot) -> bool {
    &&& a.key.content_id@ == b.key.content_id@
    &&& a.key.quality == b.key.quality
    &&& a.provenance.origin@ == b.provenance.origin@
    &&& a.provenance.created_tick == b.provenance.created_tick
    &&& location_kind(a.location) == location_kind(b.location)
    &&& location_id(a.location) == location_id(b.location)
    &&& a.reservation is None
    &&& b.reservation is None
}

impl QualityLotLedger {
    /// Lots in stable lot-ID order.
    pub closed spec fn lots_view(&self) -> Seq<(Seq<char>, PhysicalLot)> {
        self.lots@
    }

    pub closed spec fn lot_map(&self) -> Map<Seq<char>, PhysicalLot> {
        self.lots.map()
    }

    /// Items in stable item-ID order.
    pub closed spec fn items_view(&self) -> Seq<(Seq<char>, ItemInstance)> {
        self.items@
    }

    pub closed spec fn item_map(&self) -> Map<Seq<char>, ItemInstance> {
        self.items.map()
    }

    pub closed spec fn wf(&self) -> bool {
        &&& self.lots.wf()
        &&& self.items.wf()
        &&& lots_consistent(self.lots.map())
        &&& items_consistent(self.items.map())
    }

    pub proof fn lemma_views(&self)
        requires
            self.wf(),
        ensures
            keys_sorted(self.lots_view()),
            keys_sorted(self.items_view()),
            self.lot_map() == entries_map(self.lots_view()),
            self.item_map() == entries_map(self.items_view()),
            lots_consistent(self.lot_map()),
            items_consistent(self.item_map()),
    {
    }

    /// A ledger from persisted or initial records; every lot and item must be
    /// valid and IDs unique within each kind.
    pub fn new(lots: Vec<PhysicalLot>, items: Vec<ItemInstance>) -> (r: Result<Self, QualityLotError>)
        ensures
            lots@.len() > MAX_PHYSICAL_LOTS || items@.len() > MAX_ITEM_INSTANCES
                ==> r == Err::<Self, QualityLotError>(QualityLotError::InventoryLimitExceeded),
            !(lots@.len() > MAX_PHYSICAL_LOTS || items@.len() > MAX_ITEM_INSTANCES) ==> {
                let le = lot_batch_error(lots@, Map::empty());
                let ie = item_batch_error(items@, Map::empty());
                &&& le is Some ==> r == Err::<Self, QualityLotError>(le->0)
                &&& le is None && ie is Some ==> r == Err::<Self, QualityLotError>(ie->0)
                &&& le is None && ie is None ==> (r matches Ok(l) && l.wf()
                    && l.lot_map() == insert_all_lots(Map::empty(), lots@)
                    && l.item_map() == insert_all_items(Map::empty(), items@))
            },
    {
        if lots.len() > MAX_PHYSICAL_LOTS || items.len() > MAX_ITEM_INSTANCES {
            return Err(QualityLotError::InventoryLimitExceeded);
        }
        let mut lot_index: IdMap<PhysicalLot> = IdMap::new();
        let mut item_index: IdMap<ItemInstance> = IdMap::new();
        proof {
            assert(lot_index.map() =~= Map::<Seq<char>, PhysicalLot>::empty());
            assert(item_index.map() =~= Map::<Seq<char>, ItemInstance>::empty());
        }
        check_lot_batch(&lots, &lot_index)?;
        check_item_batch(&items, &item_index)?;
        add_lots(&mut lot_index, lots);
        add_items(&mut item_index, items);
        Ok(QualityLotLedger { lots: lot_index, items: item_index })
    }

    /// The bulk quantity over all lots. Each lot holds at most `u32::MAX`, so
    /// the sum fits a `u64` for any ledger of up to `u32::MAX` lots.
    pub fn total_bulk_quantity(&self) -> (r: u64)
        requires
            self.lots_view().len() <= u32::MAX,
        ensures
            r == lots_total(self.lots_view()),
    {
        proof {
            lemma_lots_total_bound(self.lots@);
            assert(self.lots@.len() * 4_294_967_295 <= u64::MAX) by (nonlinear_arith)
                requires
                    self.lots@.len() <= 4_294_967_295,
            ;
        }
        let n = self.lots.len();
        let mut total: u64 = 0;
        let mut i: usize = 0;
        while i < n
            invariant
                n == self.lots@.len(),
                i <= n,
                total == lots_total(self.lots@.take(i as int)),
                lots_total(self.lots@) <= u64::MAX,
            decreases n - i,
        {
            proof {
                assert(self.lots@.take(i + 1).drop_last() =~= self.lots@.take(i as int));
                lemma_lots_total_prefix(self.lots@, i + 1);
            }
            total = total + self.lots.value_at(i).quantity as u64;
            i = i + 1;
        }
        proof { assert(self.lots@.take(n as int) =~= self.lots@); }
        total
    }

    pub fn lot(&self, id: &PhysicalLotId) -> (r: Option<&PhysicalLot>)
        requires
            self.wf(),
        ensures
            r is Some == self.lot_map().contains_key(id@),
            r matches Some(l) ==> *l == self.lot_map()[id@],
    {
        self.lots.get(id.as_str())
    }

    /// Physical lots in stable lot-ID order.
    pub fn lots(&self) -> (r: Vec<&PhysicalLot>)
        ensures
            r@.len() == self.lots_view().len(),
            forall|i: int| 0 <= i < r@.len() ==> *r@[i] == self.lots_view()[i].1,
    {
        let mut out: Vec<&PhysicalLot> = Vec::new();
        let n = self.lots.len();
        let mut i: usize = 0;
        while i < n
            invariant
                n == self.lots@.len(),
                i <= n,
                out@.len() == i,
                forall|j: int| 0 <= j < i ==> *out@[j] == self.lots@[j].1,
            decreases n - i,
        {
            out.push(self.lots.value_at(i));
            i = i + 1;
        }
        out
    }

    pub fn item(&self, id: &MaterialInstanceId) -> (r: Option<&ItemInstance>)
        requires
            self.wf(),
        ensures
            r is Some == self.item_map().contains_key(id@),
            r matches Some(x) ==> *x == self.item_map()[id@],
    {
        self.items.get(id.as_str())
    }

    /// Exact item instances in stable item-ID order.
    pub fn items(&self) -> (r: Vec<&ItemInstance>)
        ensures
            r@.len() == self.items_view().len(),
            forall|i: int| 0 <= i < r@.len() ==> *r@[i] == self.items_view()[i].1,
    {
        let mut out: Vec<&ItemInstance> = Vec::new();
        let n = self.items.len();
        let mut i: usize = 0;
        while i < n
            invariant
                n == self.items@.len(),
                i <= n,
                out@.len() == i,
                forall|j: int| 0 <= j < i ==> *out@[j] == self.items@[j].1,
            decreases n - i,
        {
            out.push(self.items.value_at(i));
            i = i + 1;
        }
        out
    }

    /// Atomically validate and insert a batch of exact item instances.
    pub fn insert_items(&mut self, items: Vec<ItemInstance>) -> (r: Result<(), QualityLotError>)
        requires
            old(self).wf(),
        ensures
            final(self).wf(),
            final(self).lot_map() == old(self).lot_map(),
            old(self).items_view().len() + items@.len() > MAX_ITEM_INSTANCES
                ==> r == Err::<(), QualityLotError>(QualityLotError::InventoryLimitExceeded) && final(self).item_map() == old(self).item_map(),
            old(self).items_view().len() + items@.len() <= MAX_ITEM_INSTANCES ==> {
                let e = item_batch_error(items@, old(self).item_map());
                &&& e is Some ==> r == Err::<(), QualityLotError>(e->0) && final(self).item_map() == old(self).item_map()
                &&& e is None ==> r is Ok && final(self).item_map() == insert_all_items(old(self).item_map(), items@)
            },
    {
        if self.items.len() > MAX_ITEM_INSTANCES || items.len() > MAX_ITEM_INSTANCES - self.items.len() {
            return Err(QualityLotError::InventoryLimitExceeded);
        }
        check_item_batch(&items, &self.items)?;
        add_items(&mut self.items, items);
        Ok(())
    }

    /// Atomically insert one newly produced exact item instance.
    pub fn insert_item(&mut self, item: ItemInstance) -> (r: Result<(), QualityLotError>)
        requires
            old(self).wf(),
        ensures
            final(self).wf(),
            final(self).lot_map() == old(self).lot_map(),
            old(self).items_view().len() + 1 > MAX_ITEM_INSTANCES
                ==> r == Err::<(), QualityLotError>(QualityLotError::InventoryLimitExceeded) && final(self).item_map() == old(self).item_map(),
            old(self).items_view().len() + 1 <= MAX_ITEM_INSTANCES ==> {
                let e = item_batch_error(seq![item], old(self).item_map());
                &&& e is Some ==> r == Err::<(), QualityLotError>(e->0) && final(self).item_map() == old(self).item_map()
                &&& e is None ==> r is Ok && final(self).item_map() == old(self).item_map().insert(item.id@, item)
            },
    {
        let ghost m0 = self.item_map();
        let batch = vec![item];
        proof {
            assert(batch@ =~= seq![item]);
            assert(seq![item].drop_last() =~= Seq::<ItemInstance>::empty());
            assert(insert_all_items(m0, Seq::<ItemInstance>::empty()) == m0);
            assert(insert_all_items(m0, seq![item]) == insert_all_items(m0, seq![item].drop_last()).insert(item.id@, item));
            assert(insert_all_items(m0, seq![item]) == m0.insert(item.id@, item));
        }
        self.insert_items(batch)
    }

    /// Atomically validate and insert a batch of newly produced physical lots.
    pub fn insert_lots(&mut self, lots: Vec<PhysicalLot>) -> (r: Result<(), QualityLotError>)
        requires
            old(self).wf(),
        ensures
            final(self).wf(),
            final(self).item_map() == old(self).item_map(),
            old(self).lots_view().len() + lots@.len() > MAX_PHYSICAL_LOTS
                ==> r == Err::<(), QualityLotError>(QualityLotError::InventoryLimitExceeded) && final(self).lot_map() == old(self).lot_map(),
            old(self).lots_view().len() + lots@.len() <= MAX_PHYSICAL_LOTS ==> {
                let e = lot_batch_error(lots@, old(self).lot_map());
                &&& e is Some ==> r == Err::<(), QualityLotError>(e->0) && final(self).lot_map() == old(self).lot_map()
                &&& e is None ==> r is Ok && final(self).lot_map() == insert_all_lots(old(self).lot_map(), lots@)
            },
    {
        if self.lots.len() > MAX_PHYSICAL_LOTS || lots.len() > MAX_PHYSICAL_LOTS - self.lots.len() {
            return Err(QualityLotError::InventoryLimitExceeded);
        }
        check_lot_batch(&lots, &self.lots)?;
        add_lots(&mut self.lots, lots);
        Ok(())
    }

    /// Atomically insert one newly produced physical lot.
    pub fn insert_lot(&mut self, lot: PhysicalLot) -> (r: Result<(), QualityLotError>)
        requires
            old(self).wf(),
        ensures
            final(self).wf(),
            final(self).item_map() == old(self).item_map(),
            old(self).lots_view().len() + 1 > MAX_PHYSICAL_LOTS
                ==> r == Err::<(), QualityLotError>(QualityLotError::InventoryLimitExceeded) && final(self).lot_map() == old(self).lot_map(),
            old(self).lots_view().len() + 1 <= MAX_PHYSICAL_LOTS ==> {
                let e = lot_batch_error(seq![lot], old(self).lot_map());
                &&& e is Some ==> r == Err::<(), QualityLotError>(e->0) && final(self).lot_map() == old(self).lot_map()
                &&& e is None ==> r is Ok && final(self).lot_map() == old(self).lot_map().insert(lot.id@, lot)
            },
    {
        let ghost m0 = self.lot_map();
        let batch = vec![lot];
        proof {
            assert(batch@ =~= seq![lot]);
            assert(seq![lot].drop_last() =~= Seq::<PhysicalLot>::empty());
            assert(insert_all_lots(m0, Seq::<PhysicalLot>::empty()) == m0);
            assert(insert_all_lots(m0, seq![lot]) == insert_all_lots(m0, seq![lot].drop_last()).insert(lot.id@, lot));
            assert(insert_all_lots(m0, seq![lot]) == m0.insert(lot.id@, lot));
        }
        self.insert_lots(batch)
    }
}

proof fn lemma_lots_total_bound(s: Seq<(Seq<char>, PhysicalLot)>)
    ensures
        0 <= lots_total(s) <= s.len() * 4_294_967_295,
    decreases s.len(),
{
    if s.len() > 0 {
        lemma_lots_total_bound(s.drop_last());
    }
}

proof fn lemma_lots_total_prefix(s: Seq<(Seq<char>, PhysicalLot)>, k: int)
    requires
        0 <= k <= s.len(),
    ensures
        lots_total(s.take(k)) <= lots_total(s),
    decreases s.len() - k,
{
    if k < s.len() {
        assert(s.take(k + 1).drop_last() =~= s.take(k));
        lemma_lots_total_prefix(s, k + 1);
    } else {
        assert(s.take(k) =~= s);
    }
}


impl QualityLotLedger {
    pub fn remove_item(&mut self, id: &MaterialInstanceId) -> (r: Result<ItemInstance, QualityLotError>)
        requires
            old(self).wf(),
        ensures
            final(self).wf(),
            final(self).lot_map() == old(self).lot_map(),
            !old(self).item_map().contains_key(id@) ==> r == Err::<ItemInstance, QualityLotError>(QualityLotError::MissingItem(*id))
                && final(self).item_map() == old(self).item_map(),
            old(self).item_map().contains_key(id@) ==> r == Ok::<ItemInstance, QualityLotError>(old(self).item_map()[id@])
                && final(self).item_map() == old(self).item_map().remove(id@),
    {
        let ghost m0 = self.items.map();
        match self.items.remove(id.as_str()) {
            Some(item) => {
                proof {
                    assert forall|k: Seq<char>| #[trigger] self.items.map().contains_key(k) implies self.items.map()[k].id@ == k && item_error(self.items.map()[k]) is None by {
                        assert(m0.contains_key(k));
                    }
                }
                Ok(item)
            },
            None => Err(QualityLotError::MissingItem(id.clone())),
        }
    }

    pub fn replace_item(&mut self, item: ItemInstance) -> (r: Result<(), QualityLotError>)
        requires
            old(self).wf(),
        ensures
            final(self).wf(),
            final(self).lot_map() == old(self).lot_map(),
            item_error(item) is Some ==> r == Err::<(), QualityLotError>(item_error(item)->0) && final(self).item_map() == old(self).item_map(),
            item_error(item) is None && !old(self).item_map().contains_key(item.id@)
                ==> r == Err::<(), QualityLotError>(QualityLotError::MissingItem(item.id)) && final(self).item_map() == old(self).item_map(),
            item_error(item) is None && old(self).item_map().contains_key(item.id@)
                ==> r is Ok && final(self).item_map() == old(self).item_map().insert(item.id@, item),
    {
        item.validate()?;
        if !self.items.contains_key(item.id.as_str()) {
            return Err(QualityLotError::MissingItem(item.id));
        }
        let key = item.id.clone();
        let ghost m0 = self.items.map();
        self.items.insert(key, item);
        proof {
            assert forall|k: Seq<char>| #[trigger] self.items.map().contains_key(k) implies self.items.map()[k].id@ == k && item_error(self.items.map()[k]) is None by {
                if k != item.id@ { assert(m0.contains_key(k)); }
            }
        }
        Ok(())
    }

    /// Return an item to `destination` after a cancelled or failed carry,
    /// releasing its reservation.
    pub fn recover_item(&mut self, id: &MaterialInstanceId, reason: RecoveryReason, destination: LotLocation) -> (r: Result<(), QualityLotError>)
        requires
            old(self).wf(),
        ensures
            final(self).wf(),
            final(self).lot_map() == old(self).lot_map(),
            is_blank(location_id(destination)) ==> r == Err::<(), QualityLotError>(QualityLotError::EmptyLocation)
                && final(self).item_map() == old(self).item_map(),
            !is_blank(location_id(destination)) && !old(self).item_map().contains_key(id@)
                ==> r == Err::<(), QualityLotError>(QualityLotError::MissingItem(*id)) && final(self).item_map() == old(self).item_map(),
            !is_blank(location_id(destination)) && old(self).item_map().contains_key(id@) ==> r is Ok
                && final(self).item_map() == old(self).item_map().insert(id@,
                    ItemInstance { location: destination, reservation: None, ..old(self).item_map()[id@] }),
    {
        if text_is_blank(destination.identifier()) {
            return Err(QualityLotError::EmptyLocation);
        }
        let ghost m0 = self.items.map();
        let mut item = match self.items.remove(id.as_str()) {
            Some(item) => item,
            None => return Err(QualityLotError::MissingItem(id.clone())),
        };
        item.location = destination;
        match reason {
            RecoveryReason::Cancelled | RecoveryReason::CarrierDeath | RecoveryReason::RouteLost => {
                item.reservation = None;
            },
        }
        self.items.insert(id.clone(), item);
        proof {
            assert(self.items.map() =~= m0.insert(id@, item));
            assert forall|k: Seq<char>| #[trigger] self.items.map().contains_key(k) implies self.items.map()[k].id@ == k && item_error(self.items.map()[k]) is None by {
                if k != id@ { assert(m0.contains_key(k)); } else { assert(m0.contains_key(id@)); }
            }
        }
        Ok(())
    }

    /// Atomically debit several unreserved lots after validating the whole
    /// batch; a lot debited to zero disappears.
    #[verifier::loop_isolation(false)]
    pub fn debit_lots(&mut self, debits: &[(PhysicalLotId, u32)]) -> (r: Result<(), QualityLotError>)
        requires
            old(self).wf(),
        ensures
            final(self).wf(),
            final(self).item_map() == old(self).item_map(),
            debit_error(debits@, old(self).lot_map()) is Some ==> r == Err::<(), QualityLotError>(debit_error(debits@, old(self).lot_map())->0)
                && final(self).lot_map() == old(self).lot_map(),
            debit_error(debits@, old(self).lot_map()) is None ==> r is Ok
                && final(self).lot_map() == apply_debits(old(self).lot_map(), debits@),
            r is Ok ==> lots_total(final(self).lots_view()) + debit_sum(debits@) == lots_total(old(self).lots_view()),
    {
        let ghost d = debits@;
        let ghost m0 = self.lots.map();
        let mut seen: IdMap<()> = IdMap::new();
        let n = debits.len();
        let mut i: usize = 0;
        while i < n
            invariant
                n == d.len(),
                i <= n,
                seen.wf(),
                self.lots.map() == m0,
                debit_error(d.take(i as int), m0) is None,
                forall|k: Seq<char>| seen.map().contains_key(k) <==> exists|j: int| 0 <= j < i && (#[trigger] d[j]).0@ == k,
            decreases n - i,
        {
            proof { assert(d.take(i + 1).drop_last() =~= d.take(i as int)); assert(d.take(i + 1).last() == d[i as int]); }
            let id = &debits[i].0;
            let quantity = debits[i].1;
            if quantity == 0 {
                proof { lemma_debit_prefix(d, m0, i + 1); }
                return Err(QualityLotError::InvalidDebitQuantity);
            }
            if seen.contains_key(id.as_str()) {
                proof {
                    let j = choose|j: int| 0 <= j < i && (#[trigger] d[j]).0@ == id@;
                    assert(d.take(i + 1)[j].0@ == id@);
                    lemma_debit_prefix(d, m0, i + 1);
                }
                return Err(QualityLotError::DuplicateDebitLotId(id.clone()));
            }
            proof {
                assert forall|j: int| 0 <= j < i implies (#[trigger] d.take(i + 1)[j]).0@ != id@ by {
                    assert(d.take(i + 1)[j] == d[j]);
                }
            }
            match self.lots.get(id.as_str()) {
                None => {
                    proof { lemma_debit_prefix(d, m0, i + 1); }
                    return Err(QualityLotError::MissingLot(id.clone()));
                },
                Some(lot) => {
                    if lot.reservation.is_some() {
                        proof { lemma_debit_prefix(d, m0, i + 1); }
                        return Err(QualityLotError::ReservedLot(id.clone()));
                    }
                    if quantity > lot.quantity {
                        proof { lemma_debit_prefix(d, m0, i + 1); }
                        return Err(QualityLotError::InvalidDebitQuantity);
                    }
                },
            }
            seen.insert(id.clone(), ());
            proof {
                assert forall|k: Seq<char>| seen.map().contains_key(k) <==> exists|j: int| 0 <= j < i + 1 && (#[trigger] d[j]).0@ == k by {
                    if k == id@ { assert(d[i as int].0@ == k); }
                }
            }
            i = i + 1;
        }
        proof { assert(d.take(n as int) =~= d); }
        // Every debit is valid: apply them in order.
        let mut i: usize = 0;
        while i < n
            invariant
                n == d.len(),
                i <= n,
                self.lots.wf(),
                self.items == old(self).items,
                self.lots.map() == apply_debits(m0, d.take(i as int)),
                lots_consistent(self.lots.map()),
                debit_error(d, m0) is None,
                lots_total(self.lots@) + debit_sum(d.take(i as int)) == lots_total(old(self).lots@),
            decreases n - i,
        {
            proof {
                assert(d.take(i + 1).drop_last() =~= d.take(i as int));
                lemma_debit_applied_lot(d, m0, i as int);
            }
            let id = &debits[i].0;
            let quantity = debits[i].1;
            let ghost before = self.lots.map();
            let ghost before_s = self.lots@;
            let mut lot = match self.lots.remove(id.as_str()) {
                Some(lot) => lot,
                None => { assert(false); return Ok(()); },
            };
            let ghost mid_s = self.lots@;
            proof {
                lemma_total_without_key(before_s, mid_s, id@);
            }
            if lot.quantity != quantity {
                lot.quantity = lot.quantity - quantity;
                self.lots.insert(id.clone(), lot);
                proof {
                    assert(self.lots.map() =~= before.insert(id@, lot));
                    assert(mid_s.len() + 0 == mid_s.len());
                    assert(entries_map(mid_s) =~= entries_map(self.lots@).remove(id@));
                    lemma_total_without_key(self.lots@, mid_s, id@);
                }
            }
            proof {
                assert(debit_sum(d.take(i + 1)) == debit_sum(d.take(i as int)) + quantity);
            }
            proof {
                assert(d.take(i + 1).last() == d[i as int]);
                assert forall|k: Seq<char>| #[trigger] self.lots.map().contains_key(k) implies self.lots.map()[k].id@ == k && physical_lot_error(self.lots.map()[k]) is None by {
                    assert(before.contains_key(k));
                }
            }
            i = i + 1;
        }
        proof { assert(d.take(n as int) =~= d); }
        Ok(())
    }

    /// Atomically debit one unreserved physical lot without changing its identity.
    pub fn debit_lot(&mut self, id: &PhysicalLotId, quantity: u32) -> (r: Result<(), QualityLotError>)
        requires
            old(self).wf(),
        ensures
            final(self).wf(),
            final(self).item_map() == old(self).item_map(),
            debit_error(seq![(*id, quantity)], old(self).lot_map()) is Some
                ==> r == Err::<(), QualityLotError>(debit_error(seq![(*id, quantity)], old(self).lot_map())->0)
                && final(self).lot_map() == old(self).lot_map(),
            debit_error(seq![(*id, quantity)], old(self).lot_map()) is None ==> r is Ok
                && final(self).lot_map() == apply_debits(old(self).lot_map(), seq![(*id, quantity)]),
    {
        let batch: [(PhysicalLotId, u32); 1] = [(id.clone(), quantity)];
        proof { assert(batch@ =~= seq![(*id, quantity)]); }
        self.debit_lots(batch.as_slice())
    }
}

/// Inside a clean batch, each debited lot is still present (with enough
/// quantity) when its debit is applied.
proof fn lemma_debit_applied_lot(d: Seq<(PhysicalLotId, u32)>, m0: Map<Seq<char>, PhysicalLot>, i: int)
    requires
        0 <= i < d.len(),
        debit_error(d, m0) is None,
    ensures
        apply_debits(m0, d.take(i)).contains_key(d[i].0@),
        apply_debits(m0, d.take(i))[d[i].0@] == m0[d[i].0@],
        m0[d[i].0@].quantity >= d[i].1 > 0,
        m0[d[i].0@].reservation is None,
{
    assert forall|k: int| 0 <= k <= d.len() implies debit_error(#[trigger] d.take(k), m0) is None by {
        if debit_error(d.take(k), m0) is Some {
            lemma_debit_prefix(d, m0, k);
        }
    }
    assert(d.take(i + 1).drop_last() =~= d.take(i));
    assert(d.take(i + 1).last() == d[i]);
    assert(debit_error(d.take(i + 1), m0) is None);
    assert forall|j: int| 0 <= j < i implies (#[trigger] d[j]).0@ != d[i].0@ by {
        assert(d.take(i + 1)[j] == d[j]);
    }
    lemma_debit_untouched(d, m0, i, d[i].0@);
}

/// A lot not debited within the first `i` entries is unchanged by them.
proof fn lemma_debit_untouched(d: Seq<(PhysicalLotId, u32)>, m0: Map<Seq<char>, PhysicalLot>, i: int, k: Seq<char>)
    requires
        0 <= i <= d.len(),
        forall|j: int| 0 <= j < i ==> (#[trigger] d[j]).0@ != k,
    ensures
        apply_debits(m0, d.take(i)).contains_key(k) == m0.contains_key(k),
        m0.contains_key(k) ==> apply_debits(m0, d.take(i))[k] == m0[k],
    decreases i,
{
    if i > 0 {
        assert(d.take(i).drop_last() =~= d.take(i - 1));
        assert(d.take(i).last() == d[i - 1]);
        lemma_debit_untouched(d, m0, i - 1, k);
    } else {
        assert(d.take(0) =~= Seq::<(PhysicalLotId, u32)>::empty());
    }
}


impl QualityLotLedger {
    /// Atomically remove complete expired lots, including reserved cargo, and
    /// return the reservations they held in lot-ID order.
    #[verifier::loop_isolation(false)]
    pub fn expire_lots(&mut self, ids: &[PhysicalLotId]) -> (r: Result<Vec<String>, QualityLotError>)
        requires
            old(self).wf(),
        ensures
            final(self).wf(),
            final(self).item_map() == old(self).item_map(),
            expire_error(ids@, old(self).lot_map()) is Some ==> r == Err::<Vec<String>, QualityLotError>(expire_error(ids@, old(self).lot_map())->0)
                && final(self).lot_map() == old(self).lot_map(),
            expire_error(ids@, old(self).lot_map()) is None ==> (r matches Ok(v)
                && v@ == listed_reservations(old(self).lots_view(), ids@)
                && final(self).lot_map() == without_listed(old(self).lot_map(), ids@)),
    {
        let ghost s = ids@;
        let ghost m0 = self.lots.map();
        let mut seen: IdMap<()> = IdMap::new();
        let n = ids.len();
        let mut i: usize = 0;
        while i < n
            invariant
                n == s.len(),
                i <= n,
                seen.wf(),
                self.lots.map() == m0,
                expire_error(s.take(i as int), m0) is None,
                forall|k: Seq<char>| seen.map().contains_key(k) <==> exists|j: int| 0 <= j < i && (#[trigger] s[j])@ == k,
            decreases n - i,
        {
            proof { assert(s.take(i + 1).drop_last() =~= s.take(i as int)); assert(s.take(i + 1).last() == s[i as int]); }
            let id = &ids[i];
            if !self.lots.contains_key(id.as_str()) {
                proof { lemma_expire_prefix(s, m0, i + 1); }
                return Err(QualityLotError::MissingLot(id.clone()));
            }
            if seen.contains_key(id.as_str()) {
                proof {
                    let j = choose|j: int| 0 <= j < i && (#[trigger] s[j])@ == id@;
                    assert(s.take(i + 1)[j]@ == id@);
                    lemma_expire_prefix(s, m0, i + 1);
                }
                return Err(QualityLotError::DuplicateDebitLotId(id.clone()));
            }
            proof {
                assert forall|j: int| 0 <= j < i implies (#[trigger] s.take(i + 1)[j])@ != id@ by {
                    assert(s.take(i + 1)[j] == s[j]);
                }
            }
            seen.insert(id.clone(), ());
            proof {
                assert forall|k: Seq<char>| seen.map().contains_key(k) <==> exists|j: int| 0 <= j < i + 1 && (#[trigger] s[j])@ == k by {
                    if k == id@ { assert(s[i as int]@ == k); }
                }
            }
            i = i + 1;
        }
        proof { assert(s.take(n as int) =~= s); }
        // Collect released reservations in lot-ID order.
        let mut released: Vec<String> = Vec::new();
        let count = self.lots.len();
        let mut j: usize = 0;
        while j < count
            invariant
                count == self.lots@.len(),
                j <= count,
                self.lots.map() == m0,
                released@ == listed_reservations(self.lots@.take(j as int), s),
                forall|k: Seq<char>| seen.map().contains_key(k) <==> id_listed(s, k),
            decreases count - j,
        {
            proof { assert(self.lots@.take(j + 1).drop_last() =~= self.lots@.take(j as int)); assert(self.lots@.take(j + 1).last() == self.lots@[j as int]); }
            let key = self.lots.key_at(j);
            let lot = self.lots.value_at(j);
            if seen.contains_key(key.as_str()) {
                match &lot.reservation {
                    Some(reservation) => released.push(reservation.clone()),
                    None => {},
                }
            }
            j = j + 1;
        }
        proof { assert(self.lots@.take(count as int) =~= self.lots@); }
        // Remove every listed lot.
        let mut i: usize = 0;
        while i < n
            invariant
                n == s.len(),
                i <= n,
                self.lots.wf(),
                self.items == old(self).items,
                self.lots.map() == Map::new(|k: Seq<char>| m0.contains_key(k) && !listed_before(s, i as int, k), |k: Seq<char>| m0[k]),
            decreases n - i,
        {
            let ghost before = self.lots.map();
            self.lots.remove(ids[i].as_str());
            proof {
                assert(self.lots.map() =~= Map::new(|k: Seq<char>| m0.contains_key(k) && !listed_before(s, i + 1, k), |k: Seq<char>| m0[k])) by {
                    assert forall|k: Seq<char>| #[trigger] listed_before(s, i + 1, k) <==> (listed_before(s, i as int, k) || k == s[i as int]@) by {
                        if listed_before(s, i + 1, k) {
                            let j = choose|j: int| 0 <= j < i + 1 && (#[trigger] s[j])@ == k;
                            if j < i { assert(listed_before(s, i as int, k)); } else { assert(k == s[i as int]@); }
                        }
                        if k == s[i as int]@ { assert(s[i as int]@ == k); }
                        if listed_before(s, i as int, k) {
                            let j = choose|j: int| 0 <= j < i && (#[trigger] s[j])@ == k;
                            assert(0 <= j < i + 1);
                        }
                    }
                }
            }
            i = i + 1;
        }
        proof {
            assert forall|k: Seq<char>| #[trigger] listed_before(s, n as int, k) == id_listed(s, k) by {}
            assert(self.lots.map() =~= without_listed(m0, s));
            assert forall|k: Seq<char>| #[trigger] self.lots.map().contains_key(k) implies self.lots.map()[k].id@ == k && physical_lot_error(self.lots.map()[k]) is None by {
                assert(m0.contains_key(k));
            }
        }
        Ok(released)
    }

    pub fn move_lot(&mut self, id: &PhysicalLotId, location: LotLocation) -> (r: Result<(), QualityLotError>)
        requires
            old(self).wf(),
        ensures
            final(self).wf(),
            final(self).item_map() == old(self).item_map(),
            is_blank(location_id(location)) ==> r == Err::<(), QualityLotError>(QualityLotError::EmptyLocation)
                && final(self).lot_map() == old(self).lot_map(),
            !is_blank(location_id(location)) && !old(self).lot_map().contains_key(id@)
                ==> r == Err::<(), QualityLotError>(QualityLotError::MissingLot(*id)) && final(self).lot_map() == old(self).lot_map(),
            !is_blank(location_id(location)) && old(self).lot_map().contains_key(id@) ==> r is Ok
                && final(self).lot_map() == old(self).lot_map().insert(id@, PhysicalLot { location, ..old(self).lot_map()[id@] }),
    {
        if text_is_blank(location.identifier()) {
            return Err(QualityLotError::EmptyLocation);
        }
        let ghost m0 = self.lots.map();
        let mut lot = match self.lots.remove(id.as_str()) {
            Some(lot) => lot,
            None => return Err(QualityLotError::MissingLot(id.clone())),
        };
        lot.location = location;
        self.lots.insert(id.clone(), lot);
        proof {
            assert(self.lots.map() =~= m0.insert(id@, lot));
            assert forall|k: Seq<char>| #[trigger] self.lots.map().contains_key(k) implies self.lots.map()[k].id@ == k && physical_lot_error(self.lots.map()[k]) is None by {
                if k != id@ { assert(m0.contains_key(k)); } else { assert(m0.contains_key(id@)); }
            }
        }
        Ok(())
    }

    /// Return a lot to `destination` after a cancelled or failed carry,
    /// releasing its reservation.
    pub fn recover_lot(&mut self, id: &PhysicalLotId, reason: RecoveryReason, destination: LotLocation) -> (r: Result<(), QualityLotError>)
        requires
            old(self).wf(),
        ensures
            final(self).wf(),
            final(self).item_map() == old(self).item_map(),
            is_blank(location_id(destination)) ==> r == Err::<(), QualityLotError>(QualityLotError::EmptyLocation)
                && final(self).lot_map() == old(self).lot_map(),
            !is_blank(location_id(destination)) && !old(self).lot_map().contains_key(id@)
                ==> r == Err::<(), QualityLotError>(QualityLotError::MissingLot(*id)) && final(self).lot_map() == old(self).lot_map(),
            !is_blank(location_id(destination)) && old(self).lot_map().contains_key(id@) ==> r is Ok
                && final(self).lot_map() == old(self).lot_map().insert(id@,
                    PhysicalLot { location: destination, reservation: None, ..old(self).lot_map()[id@] }),
    {
        if text_is_blank(destination.identifier()) {
            return Err(QualityLotError::EmptyLocation);
        }
        let ghost m0 = self.lots.map();
        let mut lot = match self.lots.remove(id.as_str()) {
            Some(lot) => lot,
            None => return Err(QualityLotError::MissingLot(id.clone())),
        };
        lot.location = destination;
        match reason {
            RecoveryReason::Cancelled | RecoveryReason::CarrierDeath | RecoveryReason::RouteLost => {
                lot.reservation = None;
            },
        }
        self.lots.insert(id.clone(), lot);
        proof {
            assert(self.lots.map() =~= m0.insert(id@, lot));
            assert forall|k: Seq<char>| #[trigger] self.lots.map().contains_key(k) implies self.lots.map()[k].id@ == k && physical_lot_error(self.lots.map()[k]) is None by {
                if k != id@ { assert(m0.contains_key(k)); } else { assert(m0.contains_key(id@)); }
            }
        }
        Ok(())
    }

    /// Split `quantity` off a lot into a new lot `split_id` with the same key,
    /// provenance, location and reservation.
    pub fn split_lot(&mut self, source_id: &PhysicalLotId, split_id: PhysicalLotId, quantity: u32) -> (r: Result<(), QualityLotError>)
        requires
            old(self).wf(),
        ensures
            final(self).wf(),
            final(self).item_map() == old(self).item_map(),
            ({
                let m = old(self).lot_map();
                if quantity == 0 {
                    r == Err::<(), QualityLotError>(QualityLotError::InvalidSplitQuantity) && final(self).lot_map() == m
                } else if m.contains_key(split_id@) {
                    r == Err::<(), QualityLotError>(QualityLotError::DuplicateSplitLotId(split_id)) && final(self).lot_map() == m
                } else if !m.contains_key(source_id@) {
                    r == Err::<(), QualityLotError>(QualityLotError::MissingLot(*source_id)) && final(self).lot_map() == m
                } else if quantity >= m[source_id@].quantity {
                    r == Err::<(), QualityLotError>(QualityLotError::InvalidSplitQuantity) && final(self).lot_map() == m
                } else {
                    r is Ok && final(self).lot_map() == m
                        .insert(source_id@, PhysicalLot { quantity: (m[source_id@].quantity - quantity) as u32, ..m[source_id@] })
                        .insert(split_id@, PhysicalLot { id: split_id, quantity, ..m[source_id@] })
                }
            }),
    {
        if quantity == 0 {
            return Err(QualityLotError::InvalidSplitQuantity);
        }
        if self.lots.contains_key(split_id.as_str()) {
            return Err(QualityLotError::DuplicateSplitLotId(split_id));
        }
        let source = match self.lots.get(source_id.as_str()) {
            Some(lot) => lot.duplicate(),
            None => return Err(QualityLotError::MissingLot(source_id.clone())),
        };
        if quantity >= source.quantity {
            return Err(QualityLotError::InvalidSplitQuantity);
        }
        let ghost m0 = self.lots.map();
        let mut split = source.duplicate();
        split.id = split_id;
        split.quantity = quantity;
        let mut remaining = source;
        remaining.quantity = remaining.quantity - quantity;
        self.lots.insert(source_id.clone(), remaining);
        let key = split.id.clone();
        self.lots.insert(key, split);
        proof {
            assert forall|k: Seq<char>| #[trigger] self.lots.map().contains_key(k) implies self.lots.map()[k].id@ == k && physical_lot_error(self.lots.map()[k]) is None by {
                if k != split_id@ && k != source_id@ { assert(m0.contains_key(k)); }
                if k == source_id@ && k != split_id@ { assert(m0.contains_key(source_id@)); }
            }
        }
        Ok(())
    }

    /// Fold `right` into `left` when both are free lots with the same key,
    /// provenance and location.
    pub fn merge_lots(&mut self, left_id: &PhysicalLotId, right_id: &PhysicalLotId) -> (r: Result<(), QualityLotError>)
        requires
            old(self).wf(),
        ensures
            final(self).wf(),
            final(self).item_map() == old(self).item_map(),
            ({
                let m = old(self).lot_map();
                if left_id@ == right_id@ {
                    r == Err::<(), QualityLotError>(QualityLotError::IncompatibleMerge) && final(self).lot_map() == m
                } else if !m.contains_key(left_id@) {
                    r == Err::<(), QualityLotError>(QualityLotError::MissingLot(*left_id)) && final(self).lot_map() == m
                } else if !m.contains_key(right_id@) {
                    r == Err::<(), QualityLotError>(QualityLotError::MissingLot(*right_id)) && final(self).lot_map() == m
                } else if !mergeable(m[left_id@], m[right_id@]) {
                    r == Err::<(), QualityLotError>(QualityLotError::IncompatibleMerge) && final(self).lot_map() == m
                } else if m[left_id@].quantity + m[right_id@].quantity > u32::MAX {
                    r == Err::<(), QualityLotError>(QualityLotError::ArithmeticOverflow) && final(self).lot_map() == m
                } else {
                    r is Ok && final(self).lot_map() == m
                        .insert(left_id@, PhysicalLot { quantity: (m[left_id@].quantity + m[right_id@].quantity) as u32, ..m[left_id@] })
                        .remove(right_id@)
                }
            }),
    {
        if text_eq(left_id.as_str(), right_id.as_str()) {
            return Err(QualityLotError::IncompatibleMerge);
        }
        let left = match self.lots.get(left_id.as_str()) {
            Some(lot) => lot.duplicate(),
            None => return Err(QualityLotError::MissingLot(left_id.clone())),
        };
        let right_quantity = match self.lots.get(right_id.as_str()) {
            Some(right) => {
                if !text_eq(left.key.content_id.as_str(), right.key.content_id.as_str()) || left.key.quality != right.key.quality
                    || !text_eq(left.provenance.origin.as_str(), right.provenance.origin.as_str())
                    || left.provenance.created_tick != right.provenance.created_tick
                    || !same_location(&left.location, &right.location)
                    || left.reservation.is_some() || right.reservation.is_some()
                {
                    return Err(QualityLotError::IncompatibleMerge);
                }
                right.quantity
            },
            None => return Err(QualityLotError::MissingLot(right_id.clone())),
        };
        let quantity = match left.quantity.checked_add(right_quantity) {
            Some(q) => q,
            None => return Err(QualityLotError::ArithmeticOverflow),
        };
        let ghost m0 = self.lots.map();
        let mut merged = left;
        merged.quantity = quantity;
        self.lots.insert(left_id.clone(), merged);
        self.lots.remove(right_id.as_str());
        proof {
            assert forall|k: Seq<char>| #[trigger] self.lots.map().contains_key(k) implies self.lots.map()[k].id@ == k && physical_lot_error(self.lots.map()[k]) is None by {
                if k != left_id@ { assert(m0.contains_key(k)); } else { assert(m0.contains_key(left_id@)); }
            }
        }
        Ok(())
    }
}

/// Splitting then merging the split part back restores the original lot.
pub proof fn law_split_then_merge_restores(m: Map<Seq<char>, PhysicalLot>, source: Seq<char>, split: PhysicalLotId, quantity: u32)
    requires
        lots_consistent(m),
        m.contains_key(source),
        !m.contains_key(split@),
        0 < quantity < m[source].quantity,
        m[source].reservation is None,
    ensures
        ({
            let after_split = m
                .insert(source, PhysicalLot { quantity: (m[source].quantity - quantity) as u32, ..m[source] })
                .insert(split@, PhysicalLot { id: split, quantity, ..m[source] });
            let l = after_split[source];
            let r = after_split[split@];
            &&& mergeable(l, r)
            &&& l.quantity + r.quantity == m[source].quantity
            &&& after_split.insert(source, PhysicalLot { quantity: (l.quantity + r.quantity) as u32, ..l }).remove(split@) =~= m
        }),
{
    let after_split = m
        .insert(source, PhysicalLot { quantity: (m[source].quantity - quantity) as u32, ..m[source] })
        .insert(split@, PhysicalLot { id: split, quantity, ..m[source] });
    assert(source != split@);
    let l = after_split[source];
    let restored = after_split.insert(source, PhysicalLot { quantity: (l.quantity + after_split[split@].quantity) as u32, ..l }).remove(split@);
    assert(restored[source] == m[source]);
    assert(restored =~= m);
}

} // verus!
