//! Visible storage tiles, typed containers, and preserved internal lots: the
//! deterministic physical storage contract.

use vstd::prelude::*;
use crate::text::{is_blank, text_is_blank, text_compare};
use crate::id_map::{IdMap, lemma_lookup_all};
use crate::spatial::{TaskFootprint, TilePoint, footprint_error};

verus! {

pub const CURRENT_PHYSICAL_STORAGE_VERSION: u32 = 1;
pub const VISIBLE_SLOTS_PER_STORAGE_TILE: usize = 4;

#[derive(Debug, Clone, Copy, PartialEq, Eq, PartialOrd, Ord, Structural)]
pub enum StorageCompatibility {
    Food,
    Herb,
    Fibre,
    Liquid,
    BulkMaterial,
    UniqueItem,
    SmallItem,
    Tool,
    Weapon,
    LongItem,
}

#[derive(Debug, Clone, PartialEq, Eq)]
pub enum PhysicalStorageError {
    UnsupportedVersion { found: u32 },
    EmptyStableId,
    EmptyContentIdentity,
    InvalidLotQuantity,
    ExpiryBeforeProduction,
    ContainerFull,
    TileFull,
    DuplicateLot { lot_id: String },
    DuplicateVisibleSlotId,
    LotKeyMismatch,
    IncompatibleLot { lot_id: String },
    MixedContent,
    InvalidFootprint,
    WorkshopIsNotThreeByThree,
    StorageOverlapsWorkshop,
    StorageNotAdjacent,
}

#[derive(Debug, Clone, PartialEq, Eq)]
pub struct StorageLot {
    pub lot_id: String,
    pub content_id: String,
    pub compatibility: StorageCompatibility,
    pub units: u32,
    pub quality_band: u8,
    pub produced_at_ms: i64,
    pub expires_at_ms: Option<i64>,
    pub provenance_id: String,
    pub reserved_units: u32,
}

/// The first rule a storage lot breaks, if any.
pub open spec fn lot_error(lot: StorageLot) -> Option<PhysicalStorageError> {
    if is_blank(lot.lot_id@) {
        Some(PhysicalStorageError::EmptyStableId)
    } else if is_blank(lot.content_id@) || is_blank(lot.provenance_id@) {
        Some(PhysicalStorageError::EmptyContentIdentity)
    } else if lot.units == 0 || lot.reserved_units > lot.units {
        Some(PhysicalStorageError::InvalidLotQuantity)
    } else if lot.expires_at_ms matches Some(e) && e < lot.produced_at_ms {
        Some(PhysicalStorageError::ExpiryBeforeProduction)
    } else {
        None
    }
}

impl StorageLot {
    pub fn validate(&self) -> (r: Result<(), PhysicalStorageError>)
        ensures
            r is Err <==> lot_error(*self) is Some,
            r matches Err(e) ==> lot_error(*self) == Some(e),
    {
        if text_is_blank(self.lot_id.as_str()) {
            return Err(PhysicalStorageError::EmptyStableId);
        }
        if text_is_blank(self.content_id.as_str()) || text_is_blank(self.provenance_id.as_str()) {
            return Err(PhysicalStorageError::EmptyContentIdentity);
        }
        if self.units == 0 || self.reserved_units > self.units {
            return Err(PhysicalStorageError::InvalidLotQuantity);
        }
        if let Some(expires_at) = self.expires_at_ms {
            if expires_at < self.produced_at_ms {
                return Err(PhysicalStorageError::ExpiryBeforeProduction);
            }
        }
        Ok(())
    }
}

#[derive(Debug, Clone, Copy, PartialEq, Eq, Structural)]
pub enum ContainerKind {
    Basket,
    Barrel,
    Crate,
    Chest,
    Rack,
}

pub open spec fn container_capacity(kind: ContainerKind) -> int {
    match kind {
        ContainerKind::Basket => 4,
        ContainerKind::Barrel | ContainerKind::Crate | ContainerKind::Rack => 8,
        ContainerKind::Chest => 16,
    }
}

pub open spec fn container_same_content(kind: ContainerKind) -> bool {
    kind is Barrel || kind is Crate
}

/// Which storage classes each container kind may hold.
pub open spec fn container_accepts(kind: ContainerKind, c: StorageCompatibility) -> bool {
    match kind {
        ContainerKind::Basket => c is Food || c is Herb || c is Fibre,
        ContainerKind::Barrel => c is Liquid || c is Food,
        ContainerKind::Crate => c is BulkMaterial,
        ContainerKind::Chest => c is UniqueItem || c is SmallItem,
        ContainerKind::Rack => c is Tool || c is Weapon || c is LongItem,
    }
}

impl ContainerKind {
    pub fn lot_capacity(self) -> (r: usize)
        ensures
            r == container_capacity(self),
    {
        match self {
            ContainerKind::Basket => 4,
            ContainerKind::Barrel | ContainerKind::Crate | ContainerKind::Rack => 8,
            ContainerKind::Chest => 16,
        }
    }

    pub fn requires_same_content(self) -> (r: bool)
        ensures
            r == container_same_content(self),
    {
        matches!(self, ContainerKind::Barrel | ContainerKind::Crate)
    }

    pub fn accepts(self, compatibility: StorageCompatibility) -> (r: bool)
        ensures
            r == container_accepts(self, compatibility),
    {
        match self {
            ContainerKind::Basket => matches!(compatibility, StorageCompatibility::Food | StorageCompatibility::Herb | StorageCompatibility::Fibre),
            ContainerKind::Barrel => matches!(compatibility, StorageCompatibility::Liquid | StorageCompatibility::Food),
            ContainerKind::Crate => matches!(compatibility, StorageCompatibility::BulkMaterial),
            ContainerKind::Chest => matches!(compatibility, StorageCompatibility::UniqueItem | StorageCompatibility::SmallItem),
            ContainerKind::Rack => matches!(compatibility, StorageCompatibility::Tool | StorageCompatibility::Weapon | StorageCompatibility::LongItem),
        }
    }
}

#[derive(Debug, Clone, PartialEq, Eq)]
pub struct PhysicalContainer {
    pub version: u32,
    pub container_id: String,
    pub kind: ContainerKind,
    pub lots: IdMap<StorageLot>,
}

/// The first rule one stored entry breaks, if any.
pub open spec fn entry_error(key: Seq<char>, lot: StorageLot, kind: ContainerKind) -> Option<PhysicalStorageError> {
    if lot_error(lot) is Some {
        lot_error(lot)
    } else if key != lot.lot_id@ {
        Some(PhysicalStorageError::LotKeyMismatch)
    } else if !container_accepts(kind, lot.compatibility) {
        Some(PhysicalStorageError::IncompatibleLot { lot_id: lot.lot_id })
    } else {
        None
    }
}

/// The first entry error, scanning entries in key order.
pub open spec fn first_entry_error(s: Seq<(Seq<char>, StorageLot)>, kind: ContainerKind) -> Option<PhysicalStorageError>
    decreases s.len(),
{
    if s.len() == 0 {
        None
    } else if first_entry_error(s.drop_last(), kind) is Some {
        first_entry_error(s.drop_last(), kind)
    } else {
        entry_error(s.last().0, s.last().1, kind)
    }
}

proof fn lemma_first_entry_error_prefix(s: Seq<(Seq<char>, StorageLot)>, kind: ContainerKind, k: int)
    requires
        0 <= k <= s.len(),
        first_entry_error(s.take(k), kind) is Some,
    ensures
        first_entry_error(s, kind) == first_entry_error(s.take(k), kind),
    decreases s.len() - k,
{
    if k < s.len() {
        assert(s.take(k + 1).drop_last() =~= s.take(k));
        lemma_first_entry_error_prefix(s, kind, k + 1);
    } else {
        assert(s.take(k) =~= s);
    }
}

proof fn lemma_first_entry_error_none(s: Seq<(Seq<char>, StorageLot)>, kind: ContainerKind)
    ensures
        first_entry_error(s, kind) is None <==> forall|i: int| 0 <= i < s.len() ==> entry_error(#[trigger] s[i].0, s[i].1, kind) is None,
    decreases s.len(),
{
    if s.len() > 0 {
        let t = s.drop_last();
        lemma_first_entry_error_none(t, kind);
        if first_entry_error(s, kind) is None {
            assert forall|i: int| 0 <= i < s.len() implies entry_error(#[trigger] s[i].0, s[i].1, kind) is None by {
                if i < s.len() - 1 {
                    assert(t[i] == s[i]);
                }
            }
        } else if forall|i: int| 0 <= i < s.len() ==> entry_error(#[trigger] s[i].0, s[i].1, kind) is None {
            assert forall|i: int| 0 <= i < t.len() implies entry_error(#[trigger] t[i].0, t[i].1, kind) is None by {
                assert(t[i] == s[i]);
            }
            assert(entry_error(s[s.len() - 1].0, s[s.len() - 1].1, kind) is None);
        }
    }
}

/// A valid container stays valid when a lot is inserted.
proof fn lemma_insert_keeps_valid(c0: PhysicalContainer, c1: PhysicalContainer, lot: StorageLot)
    requires
        c0.wf(),
        c1.wf(),
        container_error(c0) is None,
        container_insert_error(c0, lot) is None,
        c1.version == c0.version,
        c1.container_id == c0.container_id,
        c1.kind == c0.kind,
        c1.lots.map() == c0.lots.map().insert(lot.lot_id@, lot),
        c1.lots@.len() == c0.lots@.len() + 1,
    ensures
        container_error(c1) is None,
{
    let s0 = c0.lots@;
    let s1 = c1.lots@;
    let kind = c0.kind;
    lemma_first_entry_error_none(s0, kind);
    lemma_first_entry_error_none(s1, kind);
    lemma_lookup_all(s0);
    lemma_lookup_all(s1);
    assert forall|i: int| 0 <= i < s1.len() implies entry_error(#[trigger] s1[i].0, s1[i].1, kind) is None by {
        let k = s1[i].0;
        if k != lot.lot_id@ {
            assert(c0.lots.map().contains_key(k));
            let j = choose|j: int| 0 <= j < s0.len() && #[trigger] s0[j].0 == k;
            assert(entry_error(s0[j].0, s0[j].1, kind) is None);
        }
    }
    if container_same_content(kind) {
        assert forall|i: int| 0 <= i < s1.len() implies (#[trigger] s1[i]).1.content_id@ == lot.content_id@ by {
            let k = s1[i].0;
            if k != lot.lot_id@ {
                let j = choose|j: int| 0 <= j < s0.len() && #[trigger] s0[j].0 == k;
                assert(s0[j].1 == s1[i].1);
                assert(s0[0].1.content_id@ == lot.content_id@);
                if s0[j].1.content_id@ != s0[0].1.content_id@ {
                    assert(mixed_content(s0));
                }
            }
        }
        if mixed_content(s1) {
            let (i, j) = choose|i: int, j: int| 0 <= i < s1.len() && 0 <= j < s1.len() && (#[trigger] s1[i]).1.content_id@ != (#[trigger] s1[j]).1.content_id@;
            assert(s1[i].1.content_id@ == lot.content_id@);
            assert(s1[j].1.content_id@ == lot.content_id@);
        }
    }
}

/// Two stored lots hold different content.
pub open spec fn mixed_content(s: Seq<(Seq<char>, StorageLot)>) -> bool {
    exists|i: int, j: int| 0 <= i < s.len() && 0 <= j < s.len() && (#[trigger] s[i]).1.content_id@ != (#[trigger] s[j]).1.content_id@
}

pub open spec fn container_error(c: PhysicalContainer) -> Option<PhysicalStorageError> {
    if c.version != CURRENT_PHYSICAL_STORAGE_VERSION {
        Some(PhysicalStorageError::UnsupportedVersion { found: c.version })
    } else if is_blank(c.container_id@) {
        Some(PhysicalStorageError::EmptyStableId)
    } else if c.lots@.len() > container_capacity(c.kind) {
        Some(PhysicalStorageError::ContainerFull)
    } else if first_entry_error(c.lots@, c.kind) is Some {
        first_entry_error(c.lots@, c.kind)
    } else if container_same_content(c.kind) && mixed_content(c.lots@) {
        Some(PhysicalStorageError::MixedContent)
    } else {
        None
    }
}

/// Why inserting `lot` is refused, if it is.
pub open spec fn container_insert_error(c: PhysicalContainer, lot: StorageLot) -> Option<PhysicalStorageError> {
    if lot_error(lot) is Some {
        lot_error(lot)
    } else if c.lots.map().contains_key(lot.lot_id@) {
        Some(PhysicalStorageError::DuplicateLot { lot_id: lot.lot_id })
    } else if c.lots@.len() >= container_capacity(c.kind) {
        Some(PhysicalStorageError::ContainerFull)
    } else if !container_accepts(c.kind, lot.compatibility) {
        Some(PhysicalStorageError::IncompatibleLot { lot_id: lot.lot_id })
    } else if container_same_content(c.kind) && c.lots@.len() > 0 && c.lots@[0].1.content_id@ != lot.content_id@ {
        Some(PhysicalStorageError::MixedContent)
    } else {
        None
    }
}

impl PhysicalContainer {
    pub open spec fn wf(&self) -> bool {
        self.lots.wf()
    }

    pub fn new(container_id: &str, kind: ContainerKind) -> (r: Self)
        ensures
            r.wf(),
            r.version == CURRENT_PHYSICAL_STORAGE_VERSION,
            r.container_id@ == container_id@,
            r.kind == kind,
            r.lots@.len() == 0,
    {
        PhysicalContainer {
            version: CURRENT_PHYSICAL_STORAGE_VERSION,
            container_id: String::from_str(container_id),
            kind,
            lots: IdMap::new(),
        }
    }

    #[verifier::loop_isolation(false)]
    pub fn validate(&self) -> (r: Result<(), PhysicalStorageError>)
        requires
            self.wf(),
        ensures
            r is Err <==> container_error(*self) is Some,
            r matches Err(e) ==> container_error(*self) == Some(e),
    {
        if self.version != CURRENT_PHYSICAL_STORAGE_VERSION {
            return Err(PhysicalStorageError::UnsupportedVersion { found: self.version });
        }
        if text_is_blank(self.container_id.as_str()) {
            return Err(PhysicalStorageError::EmptyStableId);
        }
        if self.lots.len() > self.kind.lot_capacity() {
            return Err(PhysicalStorageError::ContainerFull);
        }
        let n = self.lots.len();
        let mut i: usize = 0;
        while i < n
            invariant
                n == self.lots@.len(),
                i <= n,
                first_entry_error(self.lots@.take(i as int), self.kind) is None,
            decreases n - i,
        {
            let key = self.lots.key_at(i);
            let lot = self.lots.value_at(i);
            let ghost prefix = self.lots@.take(i + 1);
            proof {
                assert(prefix.drop_last() =~= self.lots@.take(i as int));
                assert(prefix.last() == self.lots@[i as int]);
            }
            let checked = lot.validate();
            if let Err(e) = checked {
                proof { lemma_first_entry_error_prefix(self.lots@, self.kind, i + 1); }
                return Err(e);
            }
            if text_compare(key.as_str(), lot.lot_id.as_str()) != 0 {
                proof { lemma_first_entry_error_prefix(self.lots@, self.kind, i + 1); }
                return Err(PhysicalStorageError::LotKeyMismatch);
            }
            if !self.kind.accepts(lot.compatibility) {
                proof { lemma_first_entry_error_prefix(self.lots@, self.kind, i + 1); }
                return Err(PhysicalStorageError::IncompatibleLot { lot_id: lot.lot_id.clone() });
            }
            i = i + 1;
        }
        proof {
            assert(self.lots@.take(n as int) =~= self.lots@);
        }
        if self.kind.requires_same_content() && n > 0 {
            let first = self.lots.value_at(0);
            let mut j: usize = 1;
            while j < n
                invariant
                    n == self.lots@.len(),
                    n > 0,
                    1 <= j <= n,
                    forall|a: int| 0 <= a < j ==> (#[trigger] self.lots@[a]).1.content_id@ == self.lots@[0].1.content_id@,
                    *first == self.lots@[0].1,
                decreases n - j,
            {
                if text_compare(self.lots.value_at(j).content_id.as_str(), first.content_id.as_str()) != 0 {
                    assert(self.lots@[j as int].1.content_id@ != self.lots@[0].1.content_id@);
                    assert(mixed_content(self.lots@));
                    return Err(PhysicalStorageError::MixedContent);
                }
                j = j + 1;
            }
            proof {
                assert(!mixed_content(self.lots@)) by {
                    if mixed_content(self.lots@) {
                        let (a, b) = choose|a: int, b: int| 0 <= a < self.lots@.len() && 0 <= b < self.lots@.len() && (#[trigger] self.lots@[a]).1.content_id@ != (#[trigger] self.lots@[b]).1.content_id@;
                        assert(self.lots@[a].1.content_id@ == self.lots@[0].1.content_id@);
                        assert(self.lots@[b].1.content_id@ == self.lots@[0].1.content_id@);
                    }
                }
            }
        }
        proof {
            if n == 0 {
                assert(!mixed_content(self.lots@));
            }
        }
        Ok(())
    }

    pub fn insert(&mut self, lot: StorageLot) -> (r: Result<(), PhysicalStorageError>)
        requires
            old(self).wf(),
        ensures
            final(self).wf(),
            r is Err <==> container_insert_error(*old(self), lot) is Some,
            r matches Err(e) ==> container_insert_error(*old(self), lot) == Some(e) && final(self).lots@ == old(self).lots@,
            r is Ok ==> final(self).lots.map() == old(self).lots.map().insert(lot.lot_id@, lot),
            container_error(*old(self)) is None && r is Ok ==> container_error(*final(self)) is None,
            final(self).version == old(self).version,
            final(self).container_id == old(self).container_id,
            final(self).kind == old(self).kind,
    {
        lot.validate()?;
        if self.lots.contains_key(lot.lot_id.as_str()) {
            return Err(PhysicalStorageError::DuplicateLot { lot_id: lot.lot_id });
        }
        if self.lots.len() >= self.kind.lot_capacity() {
            return Err(PhysicalStorageError::ContainerFull);
        }
        if !self.kind.accepts(lot.compatibility) {
            return Err(PhysicalStorageError::IncompatibleLot { lot_id: lot.lot_id });
        }
        if self.kind.requires_same_content() && self.lots.len() > 0 {
            if text_compare(self.lots.value_at(0).content_id.as_str(), lot.content_id.as_str()) != 0 {
                return Err(PhysicalStorageError::MixedContent);
            }
        }
        let key = lot.lot_id.clone();
        let ghost c0 = *self;
        let ghost l = lot;
        self.lots.insert(key, lot);
        proof {
            if container_error(c0) is None {
                lemma_insert_keeps_valid(c0, *self, l);
            }
        }
        Ok(())
    }

    pub fn remove(&mut self, lot_id: &str) -> (r: Option<StorageLot>)
        requires
            old(self).wf(),
        ensures
            final(self).wf(),
            final(self).lots.map() == old(self).lots.map().remove(lot_id@),
            r is Some == old(self).lots.map().contains_key(lot_id@),
            r matches Some(x) ==> x == old(self).lots.map()[lot_id@],
            final(self).version == old(self).version,
            final(self).container_id == old(self).container_id,
            final(self).kind == old(self).kind,
    {
        self.lots.remove(lot_id)
    }

    /// Occupied and total lot slots.
    pub fn fullness_slots(&self) -> (r: (usize, usize))
        ensures
            r.0 == self.lots@.len(),
            r.1 == container_capacity(self.kind),
    {
        (self.lots.len(), self.kind.lot_capacity())
    }
}


#[derive(Debug, Clone, PartialEq, Eq)]
pub enum VisibleStorageSlot {
    LooseLot { loose_lot: StorageLot },
    Container { container: PhysicalContainer },
}

pub open spec fn slot_stable_id(slot: VisibleStorageSlot) -> Seq<char> {
    match slot {
        VisibleStorageSlot::LooseLot { loose_lot } => loose_lot.lot_id@,
        VisibleStorageSlot::Container { container } => container.container_id@,
    }
}

pub open spec fn slot_wf(slot: VisibleStorageSlot) -> bool {
    match slot {
        VisibleStorageSlot::LooseLot { .. } => true,
        VisibleStorageSlot::Container { container } => container.wf(),
    }
}

pub open spec fn slot_error(slot: VisibleStorageSlot) -> Option<PhysicalStorageError> {
    match slot {
        VisibleStorageSlot::LooseLot { loose_lot } => lot_error(loose_lot),
        VisibleStorageSlot::Container { container } => container_error(container),
    }
}

impl VisibleStorageSlot {
    fn stable_id(&self) -> (r: &str)
        ensures
            r@ == slot_stable_id(*self),
    {
        match self {
            VisibleStorageSlot::LooseLot { loose_lot } => loose_lot.lot_id.as_str(),
            VisibleStorageSlot::Container { container } => container.container_id.as_str(),
        }
    }

    fn validate(&self) -> (r: Result<(), PhysicalStorageError>)
        requires
            slot_wf(*self),
        ensures
            r is Err <==> slot_error(*self) is Some,
            r matches Err(e) ==> slot_error(*self) == Some(e),
    {
        match self {
            VisibleStorageSlot::LooseLot { loose_lot } => loose_lot.validate(),
            VisibleStorageSlot::Container { container } => container.validate(),
        }
    }
}

#[derive(Debug, Clone, PartialEq, Eq)]
pub struct StorageTile {
    pub version: u32,
    pub position: TilePoint,
    pub slots: Vec<VisibleStorageSlot>,
}

/// The first rule slot `i` breaks: its own validity, then a repeated stable ID.
pub open spec fn tile_slot_error(slots: Seq<VisibleStorageSlot>, i: int) -> Option<PhysicalStorageError> {
    if slot_error(slots[i]) is Some {
        slot_error(slots[i])
    } else if exists|j: int| 0 <= j < i && slot_stable_id(#[trigger] slots[j]) == slot_stable_id(slots[i]) {
        Some(PhysicalStorageError::DuplicateVisibleSlotId)
    } else {
        None
    }
}

/// The first slot error, scanning slots in order.
pub open spec fn first_tile_slot_error(slots: Seq<VisibleStorageSlot>, n: int) -> Option<PhysicalStorageError>
    decreases n,
{
    if n <= 0 {
        None
    } else if first_tile_slot_error(slots, n - 1) is Some {
        first_tile_slot_error(slots, n - 1)
    } else {
        tile_slot_error(slots, n - 1)
    }
}

proof fn lemma_first_tile_slot_error(slots: Seq<VisibleStorageSlot>, k: int, n: int)
    requires
        0 <= k <= n,
        first_tile_slot_error(slots, k) is Some,
    ensures
        first_tile_slot_error(slots, n) == first_tile_slot_error(slots, k),
    decreases n - k,
{
    if k < n {
        lemma_first_tile_slot_error(slots, k, n - 1);
    }
}

pub open spec fn tile_error(t: StorageTile) -> Option<PhysicalStorageError> {
    if t.version != CURRENT_PHYSICAL_STORAGE_VERSION {
        Some(PhysicalStorageError::UnsupportedVersion { found: t.version })
    } else if t.slots@.len() > VISIBLE_SLOTS_PER_STORAGE_TILE {
        Some(PhysicalStorageError::TileFull)
    } else {
        first_tile_slot_error(t.slots@, t.slots@.len() as int)
    }
}

pub open spec fn tile_insert_error(t: StorageTile, slot: VisibleStorageSlot) -> Option<PhysicalStorageError> {
    if slot_error(slot) is Some {
        slot_error(slot)
    } else if t.slots@.len() >= VISIBLE_SLOTS_PER_STORAGE_TILE {
        Some(PhysicalStorageError::TileFull)
    } else if exists|j: int| 0 <= j < t.slots@.len() && slot_stable_id(#[trigger] t.slots@[j]) == slot_stable_id(slot) {
        Some(PhysicalStorageError::DuplicateVisibleSlotId)
    } else {
        None
    }
}

impl StorageTile {
    pub open spec fn wf(&self) -> bool {
        forall|i: int| 0 <= i < self.slots@.len() ==> slot_wf(#[trigger] self.slots@[i])
    }

    pub fn new(position: TilePoint) -> (r: Self)
        ensures
            r.version == CURRENT_PHYSICAL_STORAGE_VERSION,
            r.position == position,
            r.slots@.len() == 0,
            r.wf(),
    {
        StorageTile { version: CURRENT_PHYSICAL_STORAGE_VERSION, position, slots: Vec::new() }
    }

    #[verifier::loop_isolation(false)]
    pub fn validate(&self) -> (r: Result<(), PhysicalStorageError>)
        requires
            self.wf(),
        ensures
            r is Err <==> tile_error(*self) is Some,
            r matches Err(e) ==> tile_error(*self) == Some(e),
    {
        if self.version != CURRENT_PHYSICAL_STORAGE_VERSION {
            return Err(PhysicalStorageError::UnsupportedVersion { found: self.version });
        }
        if self.slots.len() > VISIBLE_SLOTS_PER_STORAGE_TILE {
            return Err(PhysicalStorageError::TileFull);
        }
        let n = self.slots.len();
        let mut i: usize = 0;
        while i < n
            invariant
                n == self.slots@.len(),
                i <= n,
                first_tile_slot_error(self.slots@, i as int) is None,
            decreases n - i,
        {
            let checked = self.slots[i].validate();
            if let Err(e) = checked {
                proof { lemma_first_tile_slot_error(self.slots@, i + 1, n as int); }
                return Err(e);
            }
            let id = self.slots[i].stable_id();
            let mut j: usize = 0;
            while j < i
                invariant
                    i < n,
                    j <= i,
                    id@ == slot_stable_id(self.slots@[i as int]),
                    forall|k: int| 0 <= k < j ==> slot_stable_id(#[trigger] self.slots@[k]) != id@,
                decreases i - j,
            {
                if text_compare(self.slots[j].stable_id(), id) == 0 {
                    assert(slot_stable_id(self.slots@[j as int]) == slot_stable_id(self.slots@[i as int]));
                    proof { lemma_first_tile_slot_error(self.slots@, i + 1, n as int); }
                    return Err(PhysicalStorageError::DuplicateVisibleSlotId);
                }
                j = j + 1;
            }
            i = i + 1;
        }
        Ok(())
    }

    /// Place a slot in the next free position and return that position.
    #[verifier::loop_isolation(false)]
    pub fn insert(&mut self, slot: VisibleStorageSlot) -> (r: Result<usize, PhysicalStorageError>)
        requires
            old(self).wf(),
            slot_wf(slot),
        ensures
            final(self).wf(),
            r is Err <==> tile_insert_error(*old(self), slot) is Some,
            r matches Err(e) ==> tile_insert_error(*old(self), slot) == Some(e) && *final(self) == *old(self),
            r matches Ok(p) ==> final(self).slots@ == old(self).slots@.push(slot) && p == old(self).slots@.len(),
            final(self).version == old(self).version,
            final(self).position == old(self).position,
    {
        slot.validate()?;
        if self.slots.len() >= VISIBLE_SLOTS_PER_STORAGE_TILE {
            return Err(PhysicalStorageError::TileFull);
        }
        let n = self.slots.len();
        let mut j: usize = 0;
        while j < n
            invariant
                n == self.slots@.len(),
                self.slots@ == old(self).slots@,
                j <= n,
                forall|k: int| 0 <= k < j ==> slot_stable_id(#[trigger] self.slots@[k]) != slot_stable_id(slot),
            decreases n - j,
        {
            if text_compare(self.slots[j].stable_id(), slot.stable_id()) == 0 {
                assert(slot_stable_id(self.slots@[j as int]) == slot_stable_id(slot));
                return Err(PhysicalStorageError::DuplicateVisibleSlotId);
            }
            j = j + 1;
        }
        self.slots.push(slot);
        Ok(self.slots.len() - 1)
    }

    /// Take out the first slot with `stable_id`.
    #[verifier::loop_isolation(false)]
    pub fn remove(&mut self, stable_id: &str) -> (r: Option<VisibleStorageSlot>)
        requires
            old(self).wf(),
        ensures
            final(self).wf(),
            r is None <==> forall|k: int| 0 <= k < old(self).slots@.len() ==> slot_stable_id(#[trigger] old(self).slots@[k]) != stable_id@,
            r matches Some(x) ==> exists|i: int| 0 <= i < old(self).slots@.len()
                && old(self).slots@[i] == x
                && slot_stable_id(x) == stable_id@
                && (forall|k: int| 0 <= k < i ==> slot_stable_id(#[trigger] old(self).slots@[k]) != stable_id@)
                && final(self).slots@ == old(self).slots@.remove(i),
            r is None ==> final(self).slots@ == old(self).slots@,
            final(self).version == old(self).version,
            final(self).position == old(self).position,
    {
        let n = self.slots.len();
        let mut j: usize = 0;
        while j < n
            invariant
                n == self.slots@.len(),
                self.slots@ == old(self).slots@,
                self.version == old(self).version,
                self.position == old(self).position,
                j <= n,
                forall|k: int| 0 <= k < j ==> slot_stable_id(#[trigger] self.slots@[k]) != stable_id@,
            decreases n - j,
        {
            if text_compare(self.slots[j].stable_id(), stable_id) == 0 {
                let x = self.slots.remove(j);
                proof {
                    assert forall|i: int| 0 <= i < self.slots@.len() implies slot_wf(#[trigger] self.slots@[i]) by {
                        if i < j { assert(self.slots@[i] == old(self).slots@[i]); } else { assert(self.slots@[i] == old(self).slots@[i + 1]); }
                    }
                }
                return Some(x);
            }
            j = j + 1;
        }
        None
    }
}

#[derive(Debug, Clone, PartialEq, Eq)]
pub struct WorkshopInputZoneLink {
    pub version: u32,
    pub workshop_id: String,
    pub workshop_footprint: TaskFootprint,
    pub storage_zone_id: String,
    pub storage_footprint: TaskFootprint,
}

pub open spec fn abs_int(x: int) -> int {
    if x < 0 { -x } else { x }
}

/// Some workshop tile is also a storage tile.
pub open spec fn footprints_overlap(a: Seq<TilePoint>, b: Seq<TilePoint>) -> bool {
    exists|i: int, j: int| 0 <= i < a.len() && 0 <= j < b.len() && #[trigger] a[i] == #[trigger] b[j]
}

/// Some workshop tile shares an edge with some storage tile.
pub open spec fn footprints_adjacent(a: Seq<TilePoint>, b: Seq<TilePoint>) -> bool {
    exists|i: int, j: int| 0 <= i < a.len() && 0 <= j < b.len()
        && abs_int((#[trigger] a[i]).x - (#[trigger] b[j]).x) + abs_int(a[i].y - b[j].y) == 1
}

pub open spec fn zone_link_error(l: WorkshopInputZoneLink) -> Option<PhysicalStorageError> {
    if l.version != CURRENT_PHYSICAL_STORAGE_VERSION {
        Some(PhysicalStorageError::UnsupportedVersion { found: l.version })
    } else if is_blank(l.workshop_id@) || is_blank(l.storage_zone_id@) {
        Some(PhysicalStorageError::EmptyStableId)
    } else if footprint_error(l.workshop_footprint) is Some || footprint_error(l.storage_footprint) is Some {
        Some(PhysicalStorageError::InvalidFootprint)
    } else if l.workshop_footprint.width != 3 || l.workshop_footprint.height != 3 || l.workshop_footprint.tiles@.len() != 9 {
        Some(PhysicalStorageError::WorkshopIsNotThreeByThree)
    } else if footprints_overlap(l.workshop_footprint.tiles@, l.storage_footprint.tiles@) {
        Some(PhysicalStorageError::StorageOverlapsWorkshop)
    } else if !footprints_adjacent(l.workshop_footprint.tiles@, l.storage_footprint.tiles@) {
        Some(PhysicalStorageError::StorageNotAdjacent)
    } else {
        None
    }
}

fn abs_diff_i32(a: i32, b: i32) -> (r: u64)
    ensures
        r == abs_int(a - b),
{
    if a >= b { (a as i64 - b as i64) as u64 } else { (b as i64 - a as i64) as u64 }
}

impl WorkshopInputZoneLink {
    /// A workshop input zone must be a valid footprint that lies outside the
    /// workshop's full 3x3 footprint and touches it along an edge.
    #[verifier::loop_isolation(false)]
    pub fn validate(&self) -> (r: Result<(), PhysicalStorageError>)
        ensures
            r is Err <==> zone_link_error(*self) is Some,
            r matches Err(e) ==> zone_link_error(*self) == Some(e),
    {
        if self.version != CURRENT_PHYSICAL_STORAGE_VERSION {
            return Err(PhysicalStorageError::UnsupportedVersion { found: self.version });
        }
        if text_is_blank(self.workshop_id.as_str()) || text_is_blank(self.storage_zone_id.as_str()) {
            return Err(PhysicalStorageError::EmptyStableId);
        }
        if self.workshop_footprint.validate().is_err() || self.storage_footprint.validate().is_err() {
            return Err(PhysicalStorageError::InvalidFootprint);
        }
        if self.workshop_footprint.width != 3 || self.workshop_footprint.height != 3 || self.workshop_footprint.tiles.len() != 9 {
            return Err(PhysicalStorageError::WorkshopIsNotThreeByThree);
        }
        let a = &self.workshop_footprint.tiles;
        let b = &self.storage_footprint.tiles;
        let mut i: usize = 0;
        while i < a.len()
            invariant
                i <= a@.len(),
                forall|x: int, y: int| 0 <= x < i && 0 <= y < b@.len() ==> #[trigger] a@[x] != #[trigger] b@[y],
            decreases a@.len() - i,
        {
            let mut j: usize = 0;
            while j < b.len()
                invariant
                    i < a@.len(),
                    j <= b@.len(),
                    forall|x: int, y: int| 0 <= x < i && 0 <= y < b@.len() ==> #[trigger] a@[x] != #[trigger] b@[y],
                    forall|y: int| 0 <= y < j ==> a@[i as int] != #[trigger] b@[y],
                decreases b@.len() - j,
            {
                if a[i] == b[j] {
                    assert(footprints_overlap(a@, b@));
                    return Err(PhysicalStorageError::StorageOverlapsWorkshop);
                }
                j = j + 1;
            }
            i = i + 1;
        }
        let mut i: usize = 0;
        while i < a.len()
            invariant
                i <= a@.len(),
                forall|x: int, y: int| 0 <= x < i && 0 <= y < b@.len() ==> abs_int((#[trigger] a@[x]).x - (#[trigger] b@[y]).x) + abs_int(a@[x].y - b@[y].y) != 1,
            decreases a@.len() - i,
        {
            let mut j: usize = 0;
            while j < b.len()
                invariant
                    i < a@.len(),
                    j <= b@.len(),
                    forall|x: int, y: int| 0 <= x < i && 0 <= y < b@.len() ==> abs_int((#[trigger] a@[x]).x - (#[trigger] b@[y]).x) + abs_int(a@[x].y - b@[y].y) != 1,
                    forall|y: int| 0 <= y < j ==> abs_int(a@[i as int].x - (#[trigger] b@[y]).x) + abs_int(a@[i as int].y - b@[y].y) != 1,
                decreases b@.len() - j,
            {
                if abs_diff_i32(a[i].x, b[j].x) + abs_diff_i32(a[i].y, b[j].y) == 1 {
                    assert(footprints_adjacent(a@, b@));
                    return Ok(());
                }
                j = j + 1;
            }
            i = i + 1;
        }
        Err(PhysicalStorageError::StorageNotAdjacent)
    }
}

} // verus!
