//! Deterministic prosthetic item lifecycle: registration, fitting, wear,
//! rehabilitation, repair, trade and recovery on death.

use vstd::prelude::*;
use crate::id_map::IdMap;
use crate::planner_core::{PlannerId, planner_id_text, texts_view};
use crate::text::{decimal, push_decimal, text_eq, text_is_empty, text_starts_with};

verus! {

pub const PROSTHETIC_SCHEMA_VERSION: u32 = 1;
pub const WOODEN_DURABILITY_MINUTES: u64 = 21_600;
pub const METAL_DURABILITY_MINUTES: u64 = 64_800;
pub const REHABILITATION_BONUS_BASIS_POINTS: u16 = 200;
pub const PROSTHETIC_FUNCTION_CAP_BASIS_POINTS: u16 = 9_000;

/// A body part, by its anatomy catalog number; parts order by that number.
#[derive(Debug, Clone, Copy, PartialEq, Eq, PartialOrd, Ord, Hash, Structural)]
pub struct BodyPart(pub u16);

/// The text every prosthetic identifier starts with.
pub open spec fn prosthetic_id_prefix() -> Seq<char> {
    seq!['p', 'l', 'a', 'n', 'n', 'e', 'r', ':', 'v', '1', '|', '1', '0', ':', 'p', 'r', 'o', 's', 't', 'h', 'e', 't', 'i', 'c', '|']
}

pub open spec fn prosthetic_namespace() -> Seq<char> {
    seq!['p', 'r', 'o', 's', 't', 'h', 'e', 't', 'i', 'c']
}

/// A prosthetic identifier is valid when it is a planner identifier in the
/// prosthetic namespace.
pub open spec fn prosthetic_id_valid(id: Seq<char>) -> bool {
    prosthetic_id_prefix().is_prefix_of(id)
}

/// One stable, losslessly encoded identity retained across every lifecycle state.
#[derive(Debug, Clone, PartialEq, Eq, PartialOrd, Ord, Hash)]
pub struct ProstheticId(PlannerId);

impl ProstheticId {
    pub closed spec fn view(&self) -> Seq<char> {
        self.0@
    }

    /// The identity of the prosthetic with the given production serial.
    /// `part_stable_id` is the stable text of the replaced body part.
    pub fn derive(
        colony_id: &str,
        part_stable_id: &str,
        material: ProstheticMaterial,
        production_serial: u64,
    ) -> (r: Self)
        ensures
            r@ == planner_id_text(
                prosthetic_namespace(),
                seq![colony_id@, part_stable_id@, material_stable_id(material), decimal(production_serial as nat)],
            ),
    {
        let mut serial = String::new();
        push_decimal(&mut serial, production_serial);
        assert(serial@ =~= decimal(production_serial as nat));
        proof {
            reveal_strlit("prosthetic");
        }
        let parts: [&str; 4] = [colony_id, part_stable_id, material.stable_id(), serial.as_str()];
        let r = ProstheticId(PlannerId::derive("prosthetic", &parts));
        proof {
            assert("prosthetic"@ =~= prosthetic_namespace());
            assert(texts_view(parts@) =~= seq![colony_id@, part_stable_id@, material_stable_id(material), decimal(production_serial as nat)]);
        }
        r
    }

    pub fn as_str(&self) -> (r: &str)
        ensures
            r@ == self@,
    {
        self.0.as_str()
    }

    fn is_valid(&self) -> (r: bool)
        ensures
            r == prosthetic_id_valid(self@),
    {
        proof {
            reveal_strlit("planner:v1|10:prosthetic|");
        }
        let p = "planner:v1|10:prosthetic|";
        assert(p@ =~= prosthetic_id_prefix());
        text_starts_with(self.as_str(), p)
    }

    /// An identical copy.
    pub fn duplicate(&self) -> (r: Self)
        ensures
            r == *self,
    {
        ProstheticId(self.0.duplicate())
    }
}

#[derive(Debug, Clone, Copy, PartialEq, Eq, PartialOrd, Ord, Hash, Structural)]
pub enum ProstheticMaterial {
    Wooden,
    Metal,
}

pub open spec fn material_stable_id(m: ProstheticMaterial) -> Seq<char> {
    match m {
        ProstheticMaterial::Wooden => seq!['w', 'o', 'o', 'd', 'e', 'n'],
        ProstheticMaterial::Metal => seq!['m', 'e', 't', 'a', 'l'],
    }
}

pub open spec fn material_restoration(m: ProstheticMaterial) -> u16 {
    match m {
        ProstheticMaterial::Wooden => 5_000,
        ProstheticMaterial::Metal => 7_500,
    }
}

pub open spec fn material_max_durability(m: ProstheticMaterial) -> u64 {
    match m {
        ProstheticMaterial::Wooden => WOODEN_DURABILITY_MINUTES,
        ProstheticMaterial::Metal => METAL_DURABILITY_MINUTES,
    }
}

impl ProstheticMaterial {
    pub fn stable_id(self) -> (r: &'static str)
        ensures
            r@ == material_stable_id(self),
    {
        proof {
            reveal_strlit("wooden");
            reveal_strlit("metal");
        }
        match self {
            ProstheticMaterial::Wooden => "wooden",
            ProstheticMaterial::Metal => "metal",
        }
    }

    pub fn restoration_basis_points(self) -> (r: u16)
        ensures
            r == material_restoration(self),
    {
        match self {
            ProstheticMaterial::Wooden => 5_000,
            ProstheticMaterial::Metal => 7_500,
        }
    }

    pub fn max_durability_minutes(self) -> (r: u64)
        ensures
            r == material_max_durability(self),
    {
        match self {
            ProstheticMaterial::Wooden => WOODEN_DURABILITY_MINUTES,
            ProstheticMaterial::Metal => METAL_DURABILITY_MINUTES,
        }
    }
}

#[derive(Debug, Clone, Copy, PartialEq, Eq, Structural)]
pub enum FitSiteKind {
    Treatment,
    Workshop,
}

/// Authoritative physical state of one finite prosthetic item.
#[derive(Debug, Clone, PartialEq, Eq)]
pub enum ProstheticLocation {
    Inventory { colony_id: String },
    FittingReservation {
        colony_id: String,
        reservation_id: String,
        cat_id: String,
        fitter_id: String,
        site_id: String,
        site_kind: FitSiteKind,
    },
    Fitted { colony_id: String, cat_id: String },
    RepairReservation { colony_id: String, reservation_id: String, workshop_id: String },
    TradeCargo { colony_id: String, caravan_id: String },
}

#[derive(Debug, Clone, PartialEq, Eq)]
pub struct ProstheticItem {
    pub id: ProstheticId,
    pub material: ProstheticMaterial,
    pub part: BodyPart,
    pub durability_minutes: u64,
    pub rehabilitation_stages: u8,
    pub location: ProstheticLocation,
}

/// A location, with every identifier read as text.
pub enum LocationView {
    Inventory { colony_id: Seq<char> },
    FittingReservation {
        colony_id: Seq<char>,
        reservation_id: Seq<char>,
        cat_id: Seq<char>,
        fitter_id: Seq<char>,
        site_id: Seq<char>,
        site_kind: FitSiteKind,
    },
    Fitted { colony_id: Seq<char>, cat_id: Seq<char> },
    RepairReservation { colony_id: Seq<char>, reservation_id: Seq<char>, workshop_id: Seq<char> },
    TradeCargo { colony_id: Seq<char>, caravan_id: Seq<char> },
}

pub open spec fn location_view(l: ProstheticLocation) -> LocationView {
    match l {
        ProstheticLocation::Inventory { colony_id } => LocationView::Inventory { colony_id: colony_id@ },
        ProstheticLocation::FittingReservation {
            colony_id,
            reservation_id,
            cat_id,
            fitter_id,
            site_id,
            site_kind,
        } => LocationView::FittingReservation {
            colony_id: colony_id@,
            reservation_id: reservation_id@,
            cat_id: cat_id@,
            fitter_id: fitter_id@,
            site_id: site_id@,
            site_kind,
        },
        ProstheticLocation::Fitted { colony_id, cat_id } => LocationView::Fitted {
            colony_id: colony_id@,
            cat_id: cat_id@,
        },
        ProstheticLocation::RepairReservation { colony_id, reservation_id, workshop_id } =>
            LocationView::RepairReservation {
            colony_id: colony_id@,
            reservation_id: reservation_id@,
            workshop_id: workshop_id@,
        },
        ProstheticLocation::TradeCargo { colony_id, caravan_id } => LocationView::TradeCargo {
            colony_id: colony_id@,
            caravan_id: caravan_id@,
        },
    }
}

/// A prosthetic item, with every identifier read as text.
pub struct ItemView {
    pub id: Seq<char>,
    pub material: ProstheticMaterial,
    pub part: BodyPart,
    pub durability_minutes: u64,
    pub rehabilitation_stages: u8,
    pub location: LocationView,
}

pub open spec fn item_view(i: ProstheticItem) -> ItemView {
    ItemView {
        id: i.id@,
        material: i.material,
        part: i.part,
        durability_minutes: i.durability_minutes,
        rehabilitation_stages: i.rehabilitation_stages,
        location: location_view(i.location),
    }
}

/// The same item in another location.
pub open spec fn moved(i: ItemView, l: LocationView) -> ItemView {
    ItemView { location: l, ..i }
}

/// The colony that owns an item in any location.
pub open spec fn owner_colony(l: LocationView) -> Seq<char> {
    match l {
        LocationView::Inventory { colony_id } => colony_id,
        LocationView::FittingReservation { colony_id, .. } => colony_id,
        LocationView::Fitted { colony_id, .. } => colony_id,
        LocationView::RepairReservation { colony_id, .. } => colony_id,
        LocationView::TradeCargo { colony_id, .. } => colony_id,
    }
}

/// No identifier stored in a location is empty.
pub open spec fn location_fields_valid(l: LocationView) -> bool {
    match l {
        LocationView::Inventory { colony_id } => colony_id.len() > 0,
        LocationView::FittingReservation {
            colony_id,
            reservation_id,
            cat_id,
            fitter_id,
            site_id,
            ..
        } => colony_id.len() > 0 && reservation_id.len() > 0 && cat_id.len() > 0
            && fitter_id.len() > 0 && site_id.len() > 0,
        LocationView::Fitted { colony_id, cat_id } => colony_id.len() > 0 && cat_id.len() > 0,
        LocationView::RepairReservation { colony_id, reservation_id, workshop_id } =>
            colony_id.len() > 0 && reservation_id.len() > 0 && workshop_id.len() > 0,
        LocationView::TradeCargo { colony_id, caravan_id } => colony_id.len() > 0
            && caravan_id.len() > 0,
    }
}

/// The anatomy slot a fitted item occupies.
pub open spec fn fitted_key(item: ItemView) -> Option<(Seq<char>, BodyPart)> {
    match item.location {
        LocationView::Fitted { cat_id, .. } => Some((cat_id, item.part)),
        _ => None,
    }
}

/// One item record is consistent with its key and its material.
pub open spec fn item_valid(key: Seq<char>, item: ItemView) -> bool {
    &&& item.id == key
    &&& prosthetic_id_valid(key)
    &&& item.durability_minutes <= material_max_durability(item.material)
    &&& location_fields_valid(item.location)
    &&& (item.location is FittingReservation ==> item.durability_minutes > 0)
    &&& (item.location is RepairReservation ==> item.durability_minutes == 0)
}

/// The ledger's invariant: every item is consistent, every fitted item occupies
/// exactly its own anatomy slot, and every occupied slot holds a fitted item
/// of that cat and part.
pub open spec fn ledger_valid(
    items: Map<Seq<char>, ItemView>,
    slots: Map<(Seq<char>, BodyPart), Seq<char>>,
) -> bool {
    &&& forall|k: Seq<char>| #[trigger] items.contains_key(k) ==> item_valid(k, items[k])
    &&& forall|k: Seq<char>| #[trigger] items.contains_key(k) && fitted_key(items[k]) is Some
        ==> slots.contains_key(fitted_key(items[k])->0) && slots[fitted_key(items[k])->0] == k
    &&& forall|s: (Seq<char>, BodyPart)| #[trigger] slots.contains_key(s) ==> items.contains_key(slots[s])
        && fitted_key(items[slots[s]]) == Some(s)
}

struct FittedSlot {
    cat_id: String,
    part: BodyPart,
    item_id: ProstheticId,
}

spec fn slot_key(s: FittedSlot) -> (Seq<char>, BodyPart) {
    (s.cat_id@, s.part)
}

spec fn slots_unique(s: Seq<FittedSlot>) -> bool {
    forall|i: int, j: int| 0 <= i < j < s.len() ==> slot_key(#[trigger] s[i]) != slot_key(#[trigger] s[j])
}

spec fn slots_has(s: Seq<FittedSlot>, k: (Seq<char>, BodyPart)) -> bool {
    exists|i: int| 0 <= i < s.len() && slot_key(#[trigger] s[i]) == k
}

spec fn slots_map(s: Seq<FittedSlot>) -> Map<(Seq<char>, BodyPart), Seq<char>> {
    Map::new(
        |k: (Seq<char>, BodyPart)| slots_has(s, k),
        |k: (Seq<char>, BodyPart)| s[choose|i: int| 0 <= i < s.len() && slot_key(#[trigger] s[i]) == k].item_id@,
    )
}

proof fn lemma_slots_at(s: Seq<FittedSlot>, i: int)
    requires
        slots_unique(s),
        0 <= i < s.len(),
    ensures
        slots_map(s).contains_key(slot_key(s[i])),
        slots_map(s)[slot_key(s[i])] == s[i].item_id@,
{
    let k = slot_key(s[i]);
    assert(slots_has(s, k));
    let j = choose|j: int| 0 <= j < s.len() && slot_key(#[trigger] s[j]) == k;
    if j != i {
        if j < i {
            assert(slot_key(s[j]) != slot_key(s[i]));
        } else {
            assert(slot_key(s[i]) != slot_key(s[j]));
        }
    }
}

proof fn lemma_slots_push(s: Seq<FittedSlot>, x: FittedSlot)
    requires
        slots_unique(s),
        !slots_map(s).contains_key(slot_key(x)),
    ensures
        slots_unique(s.push(x)),
        slots_map(s.push(x)) == slots_map(s).insert(slot_key(x), x.item_id@),
{
    let t = s.push(x);
    assert forall|i: int, j: int| 0 <= i < j < t.len() implies slot_key(#[trigger] t[i]) != slot_key(#[trigger] t[j]) by {
        if j == s.len() {
            assert(t[i] == s[i]);
            if slot_key(s[i]) == slot_key(x) {
                assert(slots_has(s, slot_key(x)));
            }
        } else {
            assert(t[i] == s[i] && t[j] == s[j]);
        }
    }
    assert forall|k: (Seq<char>, BodyPart)| slots_has(t, k) == (slots_has(s, k) || k == slot_key(x)) by {
        if slots_has(s, k) {
            let i = choose|i: int| 0 <= i < s.len() && slot_key(#[trigger] s[i]) == k;
            assert(t[i] == s[i]);
        }
        if k == slot_key(x) {
            assert(t[s.len() as int] == x);
        }
        if slots_has(t, k) {
            let i = choose|i: int| 0 <= i < t.len() && slot_key(#[trigger] t[i]) == k;
            if i < s.len() {
                assert(t[i] == s[i]);
            }
        }
    }
    assert forall|k: (Seq<char>, BodyPart)| slots_has(t, k) implies slots_map(t)[k] == slots_map(s).insert(slot_key(x), x.item_id@)[k] by {
        let i = choose|i: int| 0 <= i < t.len() && slot_key(#[trigger] t[i]) == k;
        lemma_slots_at(t, i);
        if i < s.len() {
            assert(t[i] == s[i]);
            lemma_slots_at(s, i);
        }
    }
    assert(slots_map(t) =~= slots_map(s).insert(slot_key(x), x.item_id@));
}

proof fn lemma_slots_remove(s: Seq<FittedSlot>, i: int)
    requires
        slots_unique(s),
        0 <= i < s.len(),
    ensures
        slots_unique(s.remove(i)),
        slots_map(s.remove(i)) == slots_map(s).remove(slot_key(s[i])),
{
    let t = s.remove(i);
    assert forall|a: int, b: int| 0 <= a < b < t.len() implies slot_key(#[trigger] t[a]) != slot_key(#[trigger] t[b]) by {
        if b < i {
            assert(t[a] == s[a] && t[b] == s[b]);
        } else if a < i {
            assert(t[a] == s[a] && t[b] == s[b + 1]);
        } else {
            assert(t[a] == s[a + 1] && t[b] == s[b + 1]);
        }
    }
    let ki = slot_key(s[i]);
    assert forall|k: (Seq<char>, BodyPart)| slots_has(t, k) == (slots_has(s, k) && k != ki) by {
        if slots_has(s, k) && k != ki {
            let j = choose|j: int| 0 <= j < s.len() && slot_key(#[trigger] s[j]) == k;
            if j < i {
                assert(t[j] == s[j]);
            } else {
                assert(j != i);
                assert(t[j - 1] == s[j]);
            }
        }
        if slots_has(t, k) {
            let j = choose|j: int| 0 <= j < t.len() && slot_key(#[trigger] t[j]) == k;
            if j < i {
                assert(t[j] == s[j]);
                assert(slot_key(s[j]) != slot_key(s[i]));
            } else {
                assert(t[j] == s[j + 1]);
                assert(slot_key(s[i]) != slot_key(s[j + 1]));
            }
        }
    }
    assert forall|k: (Seq<char>, BodyPart)| slots_has(t, k) implies slots_map(t)[k] == slots_map(s).remove(ki)[k] by {
        let j = choose|j: int| 0 <= j < t.len() && slot_key(#[trigger] t[j]) == k;
        lemma_slots_at(t, j);
        if j < i {
            assert(t[j] == s[j]);
            lemma_slots_at(s, j);
        } else {
            assert(t[j] == s[j + 1]);
            lemma_slots_at(s, j + 1);
        }
    }
    assert(slots_map(t) =~= slots_map(s).remove(ki));
}

/// The ledger of every finite prosthetic item of a colony and the anatomy slots
/// that fitted items occupy.
pub struct ProstheticLedger {
    items: IdMap<ProstheticItem>,
    fitted_slots: Vec<FittedSlot>,
}

#[derive(Debug, Clone, Copy, PartialEq, Eq, Structural)]
pub enum ProstheticError {
    DuplicateId,
    InvalidStableId,
    UnknownItem,
    WrongOwner,
    WrongPart,
    PartNotMissing,
    Broken,
    SlotOccupied,
    PatientRefused,
    FitterIncapable,
    SiteUnreachable,
    InvalidAuthorization,
    NotInInventory,
    NotReserved,
    NotFitted,
    NotBroken,
    FiniteInputsNotAuthorized,
}

impl ProstheticLedger {
    /// The items, keyed by identifier text.
    pub closed spec fn item_map(&self) -> Map<Seq<char>, ItemView> {
        self.items.map().map_values(|i: ProstheticItem| item_view(i))
    }

    /// The occupied anatomy slots: (cat, part) to the fitted item's identifier.
    pub closed spec fn slot_map(&self) -> Map<(Seq<char>, BodyPart), Seq<char>> {
        slots_map(self.fitted_slots@)
    }

    pub closed spec fn wf(&self) -> bool {
        &&& self.items.wf()
        &&& slots_unique(self.fitted_slots@)
        &&& ledger_valid(self.item_map(), self.slot_map())
    }

    pub fn new() -> (r: Self)
        ensures
            r.wf(),
            r.item_map() == Map::<Seq<char>, ItemView>::empty(),
            r.slot_map() == Map::<(Seq<char>, BodyPart), Seq<char>>::empty(),
    {
        let r = ProstheticLedger { items: IdMap::new(), fitted_slots: Vec::new() };
        assert(r.item_map() =~= Map::<Seq<char>, ItemView>::empty());
        assert(r.slot_map() =~= Map::<(Seq<char>, BodyPart), Seq<char>>::empty());
        r
    }

    fn find_slot(&self, cat_id: &str, part: BodyPart) -> (r: Option<usize>)
        requires
            slots_unique(self.fitted_slots@),
        ensures
            r is Some <==> self.slot_map().contains_key((cat_id@, part)),
            r matches Some(i) ==> i < self.fitted_slots@.len() && slot_key(self.fitted_slots@[i as int])
                == (cat_id@, part) && self.slot_map()[(cat_id@, part)] == self.fitted_slots@[i as int].item_id@,
    {
        let n = self.fitted_slots.len();
        let mut i: usize = 0;
        while i < n
            invariant
                n == self.fitted_slots@.len(),
                i <= n,
                slots_unique(self.fitted_slots@),
                forall|j: int| 0 <= j < i ==> slot_key(#[trigger] self.fitted_slots@[j]) != (cat_id@, part),
            decreases n - i,
        {
            if self.fitted_slots[i].part == part && text_eq(self.fitted_slots[i].cat_id.as_str(), cat_id) {
                proof {
                    lemma_slots_at(self.fitted_slots@, i as int);
                }
                return Some(i);
            }
            i = i + 1;
        }
        None
    }
}

impl Default for ProstheticLedger {
    fn default() -> (r: Self)
        ensures
            r.wf(),
            r.item_map() == Map::<Seq<char>, ItemView>::empty(),
            r.slot_map() == Map::<(Seq<char>, BodyPart), Seq<char>>::empty(),
    {
        ProstheticLedger::new()
    }
}


/// What a fitter needs to reserve an item for one cat's missing part.
#[derive(Debug, Clone, Copy, PartialEq, Eq)]
pub struct FitAuthorization<'a> {
    pub colony_id: &'a str,
    pub cat_id: &'a str,
    pub part: BodyPart,
    pub reservation_id: &'a str,
    pub fitter_id: &'a str,
    pub fitter_capable: bool,
    pub patient_consents: bool,
    pub site_id: &'a str,
    pub site_kind: FitSiteKind,
    pub site_reachable: bool,
}

/// What a workshop needs to reserve a broken item for repair.
#[derive(Debug, Clone, Copy, PartialEq, Eq)]
pub struct RepairAuthorization<'a> {
    pub colony_id: &'a str,
    pub reservation_id: &'a str,
    pub workshop_id: &'a str,
    pub workshop_reachable: bool,
    pub finite_inputs_authorized: bool,
}

pub open spec fn unit_result(e: Option<ProstheticError>) -> Result<(), ProstheticError> {
    match e {
        Some(e) => Err(e),
        None => Ok(()),
    }
}

/// Where an item in inventory may be taken from by `colony_id`: the error, if any.
pub open spec fn inventory_error(l: LocationView, colony_id: Seq<char>) -> Option<ProstheticError> {
    match l {
        LocationView::Inventory { colony_id: owner } => if owner == colony_id {
            None
        } else {
            Some(ProstheticError::WrongOwner)
        },
        _ => Some(ProstheticError::NotInInventory),
    }
}

pub open spec fn register_error(
    items: Map<Seq<char>, ItemView>,
    id: Seq<char>,
    colony_id: Seq<char>,
) -> Option<ProstheticError> {
    if !prosthetic_id_valid(id) {
        Some(ProstheticError::InvalidStableId)
    } else if items.contains_key(id) {
        Some(ProstheticError::DuplicateId)
    } else if colony_id.len() == 0 {
        Some(ProstheticError::InvalidAuthorization)
    } else {
        None
    }
}

pub open spec fn fit_authorization_complete(a: FitAuthorization<'_>) -> bool {
    a.colony_id@.len() > 0 && a.cat_id@.len() > 0 && a.reservation_id@.len() > 0
        && a.fitter_id@.len() > 0 && a.site_id@.len() > 0
}

pub open spec fn begin_fitting_error(
    items: Map<Seq<char>, ItemView>,
    slots: Map<(Seq<char>, BodyPart), Seq<char>>,
    id: Seq<char>,
    part_missing: bool,
    a: FitAuthorization<'_>,
) -> Option<ProstheticError> {
    if !a.patient_consents {
        Some(ProstheticError::PatientRefused)
    } else if !a.fitter_capable {
        Some(ProstheticError::FitterIncapable)
    } else if !a.site_reachable {
        Some(ProstheticError::SiteUnreachable)
    } else if !fit_authorization_complete(a) {
        Some(ProstheticError::InvalidAuthorization)
    } else if !items.contains_key(id) {
        Some(ProstheticError::UnknownItem)
    } else if items[id].part != a.part {
        Some(ProstheticError::WrongPart)
    } else if !part_missing {
        Some(ProstheticError::PartNotMissing)
    } else if items[id].durability_minutes == 0 {
        Some(ProstheticError::Broken)
    } else if slots.contains_key((a.cat_id@, items[id].part)) {
        Some(ProstheticError::SlotOccupied)
    } else {
        inventory_error(items[id].location, a.colony_id@)
    }
}

pub open spec fn fitting_location(a: FitAuthorization<'_>) -> LocationView {
    LocationView::FittingReservation {
        colony_id: a.colony_id@,
        reservation_id: a.reservation_id@,
        cat_id: a.cat_id@,
        fitter_id: a.fitter_id@,
        site_id: a.site_id@,
        site_kind: a.site_kind,
    }
}

fn str_copy(s: &str) -> (r: String)
    ensures
        r@ == s@,
{
    String::from_str(s)
}

impl ProstheticLedger {
    fn get_item(&self, id: &ProstheticId) -> (r: Option<&ProstheticItem>)
        requires
            self.items.wf(),
        ensures
            r is Some == self.item_map().contains_key(id@),
            r matches Some(x) ==> item_view(*x) == self.item_map()[id@],
    {
        self.items.get(id.as_str())
    }

    /// Store `item` under its identifier, leaving the slots as they are.
    fn put_item(&mut self, item: ProstheticItem)
        requires
            old(self).items.wf(),
        ensures
            final(self).items.wf(),
            final(self).fitted_slots == old(self).fitted_slots,
            final(self).item_map() == old(self).item_map().insert(item.id@, item_view(item)),
    {
        let key = str_copy(item.id.as_str());
        let ghost v = item_view(item);
        self.items.insert(key, item);
        proof {
            assert(final(self).item_map() =~= old(self).item_map().insert(v.id, v));
        }
    }

    /// The same item, placed in `location`.
    fn relocated(item: &ProstheticItem, location: ProstheticLocation) -> (r: ProstheticItem)
        ensures
            item_view(r) == moved(item_view(*item), location_view(location)),
            r.id@ == item.id@,
    {
        ProstheticItem {
            id: item.id.duplicate(),
            material: item.material,
            part: item.part,
            durability_minutes: item.durability_minutes,
            rehabilitation_stages: item.rehabilitation_stages,
            location,
        }
    }

    /// Add a new item to `colony_id`'s inventory, at full durability.
    pub fn register(
        &mut self,
        id: ProstheticId,
        material: ProstheticMaterial,
        part: BodyPart,
        colony_id: String,
    ) -> (r: Result<(), ProstheticError>)
        requires
            old(self).wf(),
        ensures
            final(self).wf(),
            r == unit_result(register_error(old(self).item_map(), id@, colony_id@)),
            final(self).slot_map() == old(self).slot_map(),
            r is Err ==> final(self).item_map() == old(self).item_map(),
            r is Ok ==> final(self).item_map() == old(self).item_map().insert(
                id@,
                ItemView {
                    id: id@,
                    material,
                    part,
                    durability_minutes: material_max_durability(material),
                    rehabilitation_stages: 0,
                    location: LocationView::Inventory { colony_id: colony_id@ },
                },
            ),
    {
        if !id.is_valid() {
            return Err(ProstheticError::InvalidStableId);
        }
        if self.get_item(&id).is_some() {
            return Err(ProstheticError::DuplicateId);
        }
        if text_is_empty(colony_id.as_str()) {
            return Err(ProstheticError::InvalidAuthorization);
        }
        let item = ProstheticItem {
            id,
            material,
            part,
            durability_minutes: material.max_durability_minutes(),
            rehabilitation_stages: 0,
            location: ProstheticLocation::Inventory { colony_id },
        };
        let ghost old_items = self.item_map();
        let ghost k = item.id@;
        self.put_item(item);
        proof {
            let items = self.item_map();
            let slots = self.slot_map();
            assert forall|s: (Seq<char>, BodyPart)| #[trigger] slots.contains_key(s) implies items.contains_key(slots[s])
                && fitted_key(items[slots[s]]) == Some(s) by {
                assert(old_items.contains_key(slots[s]));
                assert(slots[s] != k);
            }
        }
        Ok(())
    }

    /// Reserve an inventory item for fitting to a cat's missing part.
    /// `part_missing` reports whether the cat's `authorization.part` is missing.
    pub fn begin_fitting(
        &mut self,
        id: &ProstheticId,
        part_missing: bool,
        authorization: FitAuthorization<'_>,
    ) -> (r: Result<(), ProstheticError>)
        requires
            old(self).wf(),
        ensures
            final(self).wf(),
            r == unit_result(
                begin_fitting_error(old(self).item_map(), old(self).slot_map(), id@, part_missing, authorization),
            ),
            final(self).slot_map() == old(self).slot_map(),
            r is Err ==> final(self).item_map() == old(self).item_map(),
            r is Ok ==> final(self).item_map() == old(self).item_map().insert(
                id@,
                moved(old(self).item_map()[id@], fitting_location(authorization)),
            ),
    {
        if !authorization.patient_consents {
            return Err(ProstheticError::PatientRefused);
        }
        if !authorization.fitter_capable {
            return Err(ProstheticError::FitterIncapable);
        }
        if !authorization.site_reachable {
            return Err(ProstheticError::SiteUnreachable);
        }
        if text_is_empty(authorization.colony_id) || text_is_empty(authorization.cat_id)
            || text_is_empty(authorization.reservation_id) || text_is_empty(authorization.fitter_id)
            || text_is_empty(authorization.site_id) {
            return Err(ProstheticError::InvalidAuthorization);
        }
        let item = match self.get_item(id) {
            Some(item) => item,
            None => return Err(ProstheticError::UnknownItem),
        };
        if item.part != authorization.part {
            return Err(ProstheticError::WrongPart);
        }
        if !part_missing {
            return Err(ProstheticError::PartNotMissing);
        }
        if item.durability_minutes == 0 {
            return Err(ProstheticError::Broken);
        }
        if self.find_slot(authorization.cat_id, item.part).is_some() {
            return Err(ProstheticError::SlotOccupied);
        }
        match &item.location {
            ProstheticLocation::Inventory { colony_id } => {
                if !text_eq(colony_id.as_str(), authorization.colony_id) {
                    return Err(ProstheticError::WrongOwner);
                }
            },
            _ => return Err(ProstheticError::NotInInventory),
        }
        let location = ProstheticLocation::FittingReservation {
            colony_id: str_copy(authorization.colony_id),
            reservation_id: str_copy(authorization.reservation_id),
            cat_id: str_copy(authorization.cat_id),
            fitter_id: str_copy(authorization.fitter_id),
            site_id: str_copy(authorization.site_id),
            site_kind: authorization.site_kind,
        };
        let next = Self::relocated(item, location);
        let ghost old_items = self.item_map();
        self.put_item(next);
        proof {
            let items = self.item_map();
            let slots = self.slot_map();
            assert forall|s: (Seq<char>, BodyPart)| #[trigger] slots.contains_key(s) implies items.contains_key(slots[s])
                && fitted_key(items[slots[s]]) == Some(s) by {
                assert(old_items.contains_key(slots[s]));
                assert(slots[s] != id@);
            }
        }
        Ok(())
    }
}


/// Replacing one item by a version that occupies the same anatomy slot (or
/// none, as before) keeps the ledger valid.
proof fn lemma_replace_keeps_valid(
    items: Map<Seq<char>, ItemView>,
    slots: Map<(Seq<char>, BodyPart), Seq<char>>,
    id: Seq<char>,
    next: ItemView,
)
    requires
        ledger_valid(items, slots),
        items.contains_key(id),
        item_valid(id, next),
        fitted_key(next) == fitted_key(items[id]),
    ensures
        ledger_valid(items.insert(id, next), slots),
{
    let m = items.insert(id, next);
    assert forall|s: (Seq<char>, BodyPart)| #[trigger] slots.contains_key(s) implies m.contains_key(slots[s])
        && fitted_key(m[slots[s]]) == Some(s) by {
        assert(items.contains_key(slots[s]));
    }
    assert forall|k: Seq<char>| #[trigger] m.contains_key(k) && fitted_key(m[k]) is Some
        implies slots.contains_key(fitted_key(m[k])->0) && slots[fitted_key(m[k])->0] == k by {
        assert(items.contains_key(k));
    }
}

pub open spec fn complete_fitting_error(
    items: Map<Seq<char>, ItemView>,
    slots: Map<(Seq<char>, BodyPart), Seq<char>>,
    id: Seq<char>,
) -> Option<ProstheticError> {
    if !items.contains_key(id) {
        Some(ProstheticError::UnknownItem)
    } else {
        match items[id].location {
            LocationView::FittingReservation { cat_id, .. } => if slots.contains_key((cat_id, items[id].part)) {
                Some(ProstheticError::SlotOccupied)
            } else {
                None
            },
            _ => Some(ProstheticError::NotReserved),
        }
    }
}

/// The cat a reservation or fitting belongs to.
pub open spec fn location_cat(l: LocationView) -> Seq<char> {
    match l {
        LocationView::FittingReservation { cat_id, .. } => cat_id,
        LocationView::Fitted { cat_id, .. } => cat_id,
        _ => Seq::empty(),
    }
}

pub open spec fn cancel_reservation_error(items: Map<Seq<char>, ItemView>, id: Seq<char>) -> Option<ProstheticError> {
    if !items.contains_key(id) {
        Some(ProstheticError::UnknownItem)
    } else if items[id].location is FittingReservation || items[id].location is RepairReservation {
        None
    } else {
        Some(ProstheticError::NotReserved)
    }
}

pub open spec fn unfit_error(
    items: Map<Seq<char>, ItemView>,
    slots: Map<(Seq<char>, BodyPart), Seq<char>>,
    id: Seq<char>,
) -> Option<ProstheticError> {
    if !items.contains_key(id) {
        Some(ProstheticError::UnknownItem)
    } else if !(items[id].location is Fitted) {
        Some(ProstheticError::NotFitted)
    } else if !(slots.contains_key((location_cat(items[id].location), items[id].part))
        && slots[(location_cat(items[id].location), items[id].part)] == id) {
        Some(ProstheticError::NotFitted)
    } else {
        None
    }
}

pub open spec fn rehabilitation_error(items: Map<Seq<char>, ItemView>, id: Seq<char>) -> Option<ProstheticError> {
    if !items.contains_key(id) {
        Some(ProstheticError::UnknownItem)
    } else if !(items[id].location is Fitted) {
        Some(ProstheticError::NotFitted)
    } else if items[id].durability_minutes == 0 {
        Some(ProstheticError::Broken)
    } else {
        None
    }
}

pub open spec fn stage_after(stages: u8) -> u8 {
    if stages == 255 { 255 } else { (stages + 1) as u8 }
}

impl ProstheticLedger {
    /// Fit a reserved item: it becomes fitted to the reserving cat and
    /// occupies that cat's slot for its part.
    pub fn complete_fitting(&mut self, id: &ProstheticId) -> (r: Result<(), ProstheticError>)
        requires
            old(self).wf(),
        ensures
            final(self).wf(),
            r == unit_result(complete_fitting_error(old(self).item_map(), old(self).slot_map(), id@)),
            r is Err ==> *final(self) == *old(self),
            r is Ok ==> final(self).item_map() == old(self).item_map().insert(
                id@,
                moved(
                    old(self).item_map()[id@],
                    LocationView::Fitted {
                        colony_id: owner_colony(old(self).item_map()[id@].location),
                        cat_id: location_cat(old(self).item_map()[id@].location),
                    },
                ),
            ),
            r is Ok ==> final(self).slot_map() == old(self).slot_map().insert(
                (location_cat(old(self).item_map()[id@].location), old(self).item_map()[id@].part),
                id@,
            ),
    {
        let item = match self.get_item(id) {
            Some(item) => item,
            None => return Err(ProstheticError::UnknownItem),
        };
        let (colony_id, cat_id) = match &item.location {
            ProstheticLocation::FittingReservation { colony_id, cat_id, .. } => (colony_id, cat_id),
            _ => return Err(ProstheticError::NotReserved),
        };
        if self.find_slot(cat_id.as_str(), item.part).is_some() {
            return Err(ProstheticError::SlotOccupied);
        }
        let slot = FittedSlot { cat_id: str_copy(cat_id.as_str()), part: item.part, item_id: id.duplicate() };
        let next = Self::relocated(
            item,
            ProstheticLocation::Fitted { colony_id: str_copy(colony_id.as_str()), cat_id: str_copy(cat_id.as_str()) },
        );
        let ghost old_items = self.item_map();
        let ghost old_slots = self.slot_map();
        let ghost key = slot_key(slot);
        proof {
            lemma_slots_push(self.fitted_slots@, slot);
        }
        self.put_item(next);
        self.fitted_slots.push(slot);
        proof {
            let items = self.item_map();
            let slots = self.slot_map();
            assert(slots == old_slots.insert(key, id@));
            assert forall|k: Seq<char>| #[trigger] items.contains_key(k) && fitted_key(items[k]) is Some
                implies slots.contains_key(fitted_key(items[k])->0) && slots[fitted_key(items[k])->0] == k by {
                if k != id@ {
                    assert(old_items.contains_key(k));
                    assert(old_slots.contains_key(fitted_key(old_items[k])->0));
                }
            }
            assert forall|s: (Seq<char>, BodyPart)| #[trigger] slots.contains_key(s) implies items.contains_key(slots[s])
                && fitted_key(items[slots[s]]) == Some(s) by {
                if s != key {
                    assert(old_slots.contains_key(s));
                    assert(old_items.contains_key(old_slots[s]));
                    assert(old_slots[s] != id@);
                }
            }
        }
        Ok(())
    }

    /// Release a fitting or repair reservation: the item returns to its
    /// colony's inventory.
    pub fn cancel_reservation(&mut self, id: &ProstheticId) -> (r: Result<(), ProstheticError>)
        requires
            old(self).wf(),
        ensures
            final(self).wf(),
            r == unit_result(cancel_reservation_error(old(self).item_map(), id@)),
            final(self).slot_map() == old(self).slot_map(),
            r is Err ==> final(self).item_map() == old(self).item_map(),
            r is Ok ==> final(self).item_map() == old(self).item_map().insert(
                id@,
                moved(
                    old(self).item_map()[id@],
                    LocationView::Inventory { colony_id: owner_colony(old(self).item_map()[id@].location) },
                ),
            ),
    {
        let item = match self.get_item(id) {
            Some(item) => item,
            None => return Err(ProstheticError::UnknownItem),
        };
        let colony_id = match &item.location {
            ProstheticLocation::FittingReservation { colony_id, .. } => colony_id,
            ProstheticLocation::RepairReservation { colony_id, .. } => colony_id,
            _ => return Err(ProstheticError::NotReserved),
        };
        let next = Self::relocated(item, ProstheticLocation::Inventory { colony_id: str_copy(colony_id.as_str()) });
        proof {
            lemma_replace_keeps_valid(self.item_map(), self.slot_map(), id@, item_view(next));
        }
        self.put_item(next);
        Ok(())
    }

    /// Take a fitted item off: it leaves the cat's slot and returns to its
    /// colony's inventory.
    pub fn unfit(&mut self, id: &ProstheticId) -> (r: Result<(), ProstheticError>)
        requires
            old(self).wf(),
        ensures
            final(self).wf(),
            r == unit_result(unfit_error(old(self).item_map(), old(self).slot_map(), id@)),
            r is Err ==> *final(self) == *old(self),
            r is Ok ==> final(self).item_map() == old(self).item_map().insert(
                id@,
                moved(
                    old(self).item_map()[id@],
                    LocationView::Inventory { colony_id: owner_colony(old(self).item_map()[id@].location) },
                ),
            ),
            r is Ok ==> final(self).slot_map() == old(self).slot_map().remove(
                (location_cat(old(self).item_map()[id@].location), old(self).item_map()[id@].part),
            ),
    {
        let item = match self.get_item(id) {
            Some(item) => item,
            None => return Err(ProstheticError::UnknownItem),
        };
        let (colony_id, cat_id) = match &item.location {
            ProstheticLocation::Fitted { colony_id, cat_id } => (colony_id, cat_id),
            _ => return Err(ProstheticError::NotFitted),
        };
        let i = match self.find_slot(cat_id.as_str(), item.part) {
            Some(i) => i,
            None => return Err(ProstheticError::NotFitted),
        };
        if !text_eq(self.fitted_slots[i].item_id.as_str(), id.as_str()) {
            return Err(ProstheticError::NotFitted);
        }
        let next = Self::relocated(item, ProstheticLocation::Inventory { colony_id: str_copy(colony_id.as_str()) });
        let ghost old_items = self.item_map();
        let ghost old_slots = self.slot_map();
        let ghost key = (cat_id@, item.part);
        proof {
            lemma_slots_remove(self.fitted_slots@, i as int);
        }
        self.fitted_slots.remove(i);
        self.put_item(next);
        proof {
            let items = self.item_map();
            let slots = self.slot_map();
            assert(slots == old_slots.remove(key));
            assert forall|k: Seq<char>| #[trigger] items.contains_key(k) && fitted_key(items[k]) is Some
                implies slots.contains_key(fitted_key(items[k])->0) && slots[fitted_key(items[k])->0] == k by {
                if k != id@ {
                    assert(old_items.contains_key(k));
                    assert(old_slots.contains_key(fitted_key(old_items[k])->0));
                    assert(fitted_key(old_items[k])->0 != key);
                }
            }
            assert forall|s: (Seq<char>, BodyPart)| #[trigger] slots.contains_key(s) implies items.contains_key(slots[s])
                && fitted_key(items[slots[s]]) == Some(s) by {
                assert(old_slots.contains_key(s));
                assert(old_items.contains_key(old_slots[s]));
                if old_slots[s] == id@ {
                    assert(fitted_key(old_items[id@]) == Some(key));
                }
            }
        }
        Ok(())
    }

    /// Record one completed rehabilitation stage of a fitted, working item.
    pub fn complete_rehabilitation_stage(&mut self, id: &ProstheticId) -> (r: Result<(), ProstheticError>)
        requires
            old(self).wf(),
        ensures
            final(self).wf(),
            r == unit_result(rehabilitation_error(old(self).item_map(), id@)),
            final(self).slot_map() == old(self).slot_map(),
            r is Err ==> final(self).item_map() == old(self).item_map(),
            r is Ok ==> final(self).item_map() == old(self).item_map().insert(
                id@,
                ItemView {
                    rehabilitation_stages: stage_after(old(self).item_map()[id@].rehabilitation_stages),
                    ..old(self).item_map()[id@]
                },
            ),
    {
        let item = match self.get_item(id) {
            Some(item) => item,
            None => return Err(ProstheticError::UnknownItem),
        };
        let location = match &item.location {
            ProstheticLocation::Fitted { colony_id, cat_id } => ProstheticLocation::Fitted {
                colony_id: str_copy(colony_id.as_str()),
                cat_id: str_copy(cat_id.as_str()),
            },
            _ => return Err(ProstheticError::NotFitted),
        };
        if item.durability_minutes == 0 {
            return Err(ProstheticError::Broken);
        }
        let mut next = Self::relocated(item, location);
        next.rehabilitation_stages = if item.rehabilitation_stages == 255 { 255 } else { item.rehabilitation_stages + 1 };
        proof {
            lemma_replace_keeps_valid(self.item_map(), self.slot_map(), id@, item_view(next));
        }
        self.put_item(next);
        Ok(())
    }

    /// Wear down the item fitted to `cat_id`'s `part` by work done with that
    /// exact part. Returns the productive minutes before breakage.
    pub fn record_affected_work(&mut self, cat_id: &str, part: BodyPart, minutes: u64) -> (r: u64)
        requires
            old(self).wf(),
        ensures
            final(self).wf(),
            final(self).slot_map() == old(self).slot_map(),
            !old(self).slot_map().contains_key((cat_id@, part)) ==> r == 0 && final(self).item_map()
                == old(self).item_map(),
            old(self).slot_map().contains_key((cat_id@, part)) ==> {
                let k = old(self).slot_map()[(cat_id@, part)];
                let item = old(self).item_map()[k];
                &&& r == if minutes < item.durability_minutes { minutes } else { item.durability_minutes }
                &&& final(self).item_map() == old(self).item_map().insert(
                    k,
                    ItemView { durability_minutes: (item.durability_minutes - r) as u64, ..item },
                )
            },
    {
        let i = match self.find_slot(cat_id, part) {
            Some(i) => i,
            None => return 0,
        };
        let item = match self.get_item(&self.fitted_slots[i].item_id) {
            Some(item) => item,
            None => return 0,
        };
        let productive = if minutes < item.durability_minutes { minutes } else { item.durability_minutes };
        let location = match &item.location {
            ProstheticLocation::Fitted { colony_id, cat_id } => ProstheticLocation::Fitted {
                colony_id: str_copy(colony_id.as_str()),
                cat_id: str_copy(cat_id.as_str()),
            },
            ProstheticLocation::Inventory { colony_id } => ProstheticLocation::Inventory { colony_id: str_copy(colony_id.as_str()) },
            ProstheticLocation::FittingReservation { colony_id, reservation_id, cat_id, fitter_id, site_id, site_kind } =>
                ProstheticLocation::FittingReservation {
                colony_id: str_copy(colony_id.as_str()),
                reservation_id: str_copy(reservation_id.as_str()),
                cat_id: str_copy(cat_id.as_str()),
                fitter_id: str_copy(fitter_id.as_str()),
                site_id: str_copy(site_id.as_str()),
                site_kind: *site_kind,
            },
            ProstheticLocation::RepairReservation { colony_id, reservation_id, workshop_id } =>
                ProstheticLocation::RepairReservation {
                colony_id: str_copy(colony_id.as_str()),
                reservation_id: str_copy(reservation_id.as_str()),
                workshop_id: str_copy(workshop_id.as_str()),
            },
            ProstheticLocation::TradeCargo { colony_id, caravan_id } => ProstheticLocation::TradeCargo {
                colony_id: str_copy(colony_id.as_str()),
                caravan_id: str_copy(caravan_id.as_str()),
            },
        };
        let mut next = Self::relocated(item, location);
        next.durability_minutes = item.durability_minutes - productive;
        proof {
            let k = self.fitted_slots@[i as int].item_id@;
            assert(fitted_key(self.item_map()[k]) == Some((cat_id@, part)));
            lemma_replace_keeps_valid(self.item_map(), self.slot_map(), k, item_view(next));
        }
        self.put_item(next);
        productive
    }
}


pub open spec fn sat_u16(x: int) -> int {
    if x > 65535 { 65535 } else { x }
}

/// The function a missing part regains from a working prosthetic, before the cap.
pub open spec fn prosthetic_function(item: ItemView, adapted_bonus: i64) -> int {
    let rehab = sat_u16(item.rehabilitation_stages * REHABILITATION_BONUS_BASIS_POINTS);
    let adapted = (if adapted_bonus < 0 { 0 } else { adapted_bonus as int }) % 65536;
    sat_u16(sat_u16(material_restoration(item.material) + rehab) + adapted)
}

pub open spec fn part_function(
    items: Map<Seq<char>, ItemView>,
    slots: Map<(Seq<char>, BodyPart), Seq<char>>,
    natural: u16,
    part_missing: bool,
    cat_id: Seq<char>,
    part: BodyPart,
    adapted_bonus: i64,
) -> u16 {
    if !part_missing || !slots.contains_key((cat_id, part)) || !items.contains_key(slots[(cat_id, part)])
        || items[slots[(cat_id, part)]].durability_minutes == 0 {
        natural
    } else {
        let f = prosthetic_function(items[slots[(cat_id, part)]], adapted_bonus);
        (if f > PROSTHETIC_FUNCTION_CAP_BASIS_POINTS { PROSTHETIC_FUNCTION_CAP_BASIS_POINTS as int } else { f }) as u16
    }
}

/// Law: a part regains function only from a fitted prosthetic that still
/// has durability: if the part is present, nothing is fitted, or the fitted
/// item is worn to zero durability, the part keeps its natural function.
pub proof fn law_only_a_working_prosthetic_restores(
    items: Map<Seq<char>, ItemView>,
    slots: Map<(Seq<char>, BodyPart), Seq<char>>,
    natural: u16,
    part_missing: bool,
    cat_id: Seq<char>,
    part: BodyPart,
    adapted_bonus: i64,
)
    ensures
        slots.contains_key((cat_id, part)) && items.contains_key(slots[(cat_id, part)])
            && items[slots[(cat_id, part)]].durability_minutes == 0 ==> part_function(
            items,
            slots,
            natural,
            part_missing,
            cat_id,
            part,
            adapted_bonus,
        ) == natural,
        part_function(items, slots, natural, part_missing, cat_id, part, adapted_bonus) != natural ==> {
            &&& part_missing
            &&& slots.contains_key((cat_id, part))
            &&& items.contains_key(slots[(cat_id, part)])
            &&& items[slots[(cat_id, part)]].durability_minutes > 0
        },
        part_function(items, slots, natural, part_missing, cat_id, part, adapted_bonus) != natural ==> part_function(
            items,
            slots,
            natural,
            part_missing,
            cat_id,
            part,
            adapted_bonus,
        ) <= 9_000,
        ({
            let f = part_function(items, slots, natural, part_missing, cat_id, part, adapted_bonus);
            let restored = (if items[slots[(cat_id, part)]].material == ProstheticMaterial::Wooden { 5_000int } else { 7_500int })
                + 200 * items[slots[(cat_id, part)]].rehabilitation_stages + (if adapted_bonus < 0 { 0int } else { adapted_bonus as int % 65_536 });
            part_missing && slots.contains_key((cat_id, part)) && items.contains_key(slots[(cat_id, part)])
                && items[slots[(cat_id, part)]].durability_minutes > 0 ==> f == if restored > 9_000 { 9_000 } else { restored }
        }),
{
}

pub open spec fn repair_authorization_complete(a: RepairAuthorization<'_>) -> bool {
    a.colony_id@.len() > 0 && a.reservation_id@.len() > 0 && a.workshop_id@.len() > 0
}

pub open spec fn begin_repair_error(
    items: Map<Seq<char>, ItemView>,
    id: Seq<char>,
    a: RepairAuthorization<'_>,
) -> Option<ProstheticError> {
    if !a.workshop_reachable {
        Some(ProstheticError::SiteUnreachable)
    } else if !a.finite_inputs_authorized {
        Some(ProstheticError::FiniteInputsNotAuthorized)
    } else if !repair_authorization_complete(a) {
        Some(ProstheticError::InvalidAuthorization)
    } else if !items.contains_key(id) {
        Some(ProstheticError::UnknownItem)
    } else if items[id].durability_minutes != 0 {
        Some(ProstheticError::NotBroken)
    } else {
        inventory_error(items[id].location, a.colony_id@)
    }
}

pub open spec fn located_error(items: Map<Seq<char>, ItemView>, id: Seq<char>, ok: bool, e: ProstheticError) -> Option<ProstheticError> {
    if !items.contains_key(id) {
        Some(ProstheticError::UnknownItem)
    } else if ok {
        None
    } else {
        Some(e)
    }
}

pub open spec fn begin_trade_error(items: Map<Seq<char>, ItemView>, id: Seq<char>, caravan_id: Seq<char>) -> Option<ProstheticError> {
    if caravan_id.len() == 0 {
        Some(ProstheticError::InvalidAuthorization)
    } else {
        located_error(items, id, items[id].location is Inventory, ProstheticError::NotInInventory)
    }
}

pub open spec fn trade_cargo_error(items: Map<Seq<char>, ItemView>, id: Seq<char>) -> Option<ProstheticError> {
    located_error(items, id, items[id].location is TradeCargo, ProstheticError::NotReserved)
}

pub open spec fn complete_trade_error(items: Map<Seq<char>, ItemView>, id: Seq<char>, destination: Seq<char>) -> Option<ProstheticError> {
    if destination.len() == 0 {
        Some(ProstheticError::InvalidAuthorization)
    } else {
        trade_cargo_error(items, id)
    }
}

impl ProstheticLedger {
    /// The function of `cat_id`'s `part` in basis points. `natural_basis_points`
    /// is the part's own function, `part_missing` whether it is missing, and
    /// `adapted_bonus_basis_points` the cat's acquired prosthetic adaptation.
    /// A missing part with a working fitted prosthetic regains the material's
    /// restoration plus rehabilitation and adaptation, capped.
    pub fn effective_part_function_basis_points(
        &self,
        natural_basis_points: u16,
        part_missing: bool,
        cat_id: &str,
        part: BodyPart,
        adapted_bonus_basis_points: i64,
    ) -> (r: u16)
        requires
            self.wf(),
        ensures
            r == part_function(
                self.item_map(),
                self.slot_map(),
                natural_basis_points,
                part_missing,
                cat_id@,
                part,
                adapted_bonus_basis_points,
            ),
    {
        if !part_missing {
            return natural_basis_points;
        }
        let i = match self.find_slot(cat_id, part) {
            Some(i) => i,
            None => return natural_basis_points,
        };
        let item = match self.get_item(&self.fitted_slots[i].item_id) {
            Some(item) => item,
            None => return natural_basis_points,
        };
        if item.durability_minutes == 0 {
            return natural_basis_points;
        }
        let rehab = (item.rehabilitation_stages as u16) * REHABILITATION_BONUS_BASIS_POINTS;
        let bonus: i64 = if adapted_bonus_basis_points < 0 { 0 } else { adapted_bonus_basis_points };
        let adapted = (bonus % 65536) as u16;
        let total = item.material.restoration_basis_points().saturating_add(rehab).saturating_add(adapted);
        if total > PROSTHETIC_FUNCTION_CAP_BASIS_POINTS {
            PROSTHETIC_FUNCTION_CAP_BASIS_POINTS
        } else {
            total
        }
    }

    /// Reserve a broken inventory item at a workshop for repair.
    pub fn begin_repair(&mut self, id: &ProstheticId, authorization: RepairAuthorization<'_>) -> (r: Result<(), ProstheticError>)
        requires
            old(self).wf(),
        ensures
            final(self).wf(),
            r == unit_result(begin_repair_error(old(self).item_map(), id@, authorization)),
            final(self).slot_map() == old(self).slot_map(),
            r is Err ==> final(self).item_map() == old(self).item_map(),
            r is Ok ==> final(self).item_map() == old(self).item_map().insert(
                id@,
                moved(
                    old(self).item_map()[id@],
                    LocationView::RepairReservation {
                        colony_id: authorization.colony_id@,
                        reservation_id: authorization.reservation_id@,
                        workshop_id: authorization.workshop_id@,
                    },
                ),
            ),
    {
        if !authorization.workshop_reachable {
            return Err(ProstheticError::SiteUnreachable);
        }
        if !authorization.finite_inputs_authorized {
            return Err(ProstheticError::FiniteInputsNotAuthorized);
        }
        if text_is_empty(authorization.colony_id) || text_is_empty(authorization.reservation_id)
            || text_is_empty(authorization.workshop_id) {
            return Err(ProstheticError::InvalidAuthorization);
        }
        let item = match self.get_item(id) {
            Some(item) => item,
            None => return Err(ProstheticError::UnknownItem),
        };
        if item.durability_minutes != 0 {
            return Err(ProstheticError::NotBroken);
        }
        match &item.location {
            ProstheticLocation::Inventory { colony_id } => {
                if !text_eq(colony_id.as_str(), authorization.colony_id) {
                    return Err(ProstheticError::WrongOwner);
                }
            },
            _ => return Err(ProstheticError::NotInInventory),
        }
        let next = Self::relocated(
            item,
            ProstheticLocation::RepairReservation {
                colony_id: str_copy(authorization.colony_id),
                reservation_id: str_copy(authorization.reservation_id),
                workshop_id: str_copy(authorization.workshop_id),
            },
        );
        proof {
            lemma_replace_keeps_valid(self.item_map(), self.slot_map(), id@, item_view(next));
        }
        self.put_item(next);
        Ok(())
    }

    /// Finish a repair: the item is restored to full durability and returns
    /// to its colony's inventory.
    pub fn complete_repair(&mut self, id: &ProstheticId) -> (r: Result<(), ProstheticError>)
        requires
            old(self).wf(),
        ensures
            final(self).wf(),
            r == unit_result(located_error(
                old(self).item_map(),
                id@,
                old(self).item_map()[id@].location is RepairReservation,
                ProstheticError::NotReserved,
            )),
            final(self).slot_map() == old(self).slot_map(),
            r is Err ==> final(self).item_map() == old(self).item_map(),
            r is Ok ==> final(self).item_map() == old(self).item_map().insert(
                id@,
                ItemView {
                    durability_minutes: material_max_durability(old(self).item_map()[id@].material),
                    location: LocationView::Inventory { colony_id: owner_colony(old(self).item_map()[id@].location) },
                    ..old(self).item_map()[id@]
                },
            ),
    {
        let item = match self.get_item(id) {
            Some(item) => item,
            None => return Err(ProstheticError::UnknownItem),
        };
        let colony_id = match &item.location {
            ProstheticLocation::RepairReservation { colony_id, .. } => colony_id,
            _ => return Err(ProstheticError::NotReserved),
        };
        let mut next = Self::relocated(item, ProstheticLocation::Inventory { colony_id: str_copy(colony_id.as_str()) });
        next.durability_minutes = item.material.max_durability_minutes();
        proof {
            lemma_replace_keeps_valid(self.item_map(), self.slot_map(), id@, item_view(next));
        }
        self.put_item(next);
        Ok(())
    }

    /// Whether the item is in inventory, where a trade may take it.
    pub fn trade_eligible(&self, id: &ProstheticId) -> (r: bool)
        requires
            self.wf(),
        ensures
            r == (self.item_map().contains_key(id@) && self.item_map()[id@].location is Inventory),
    {
        match self.get_item(id) {
            Some(item) => match &item.location {
                ProstheticLocation::Inventory { .. } => true,
                _ => false,
            },
            None => false,
        }
    }

    /// Load an inventory item as cargo of a caravan.
    pub fn begin_trade(&mut self, id: &ProstheticId, caravan_id: &str) -> (r: Result<(), ProstheticError>)
        requires
            old(self).wf(),
        ensures
            final(self).wf(),
            r == unit_result(begin_trade_error(old(self).item_map(), id@, caravan_id@)),
            final(self).slot_map() == old(self).slot_map(),
            r is Err ==> final(self).item_map() == old(self).item_map(),
            r is Ok ==> final(self).item_map() == old(self).item_map().insert(
                id@,
                moved(
                    old(self).item_map()[id@],
                    LocationView::TradeCargo {
                        colony_id: owner_colony(old(self).item_map()[id@].location),
                        caravan_id: caravan_id@,
                    },
                ),
            ),
    {
        if text_is_empty(caravan_id) {
            return Err(ProstheticError::InvalidAuthorization);
        }
        let item = match self.get_item(id) {
            Some(item) => item,
            None => return Err(ProstheticError::UnknownItem),
        };
        let colony_id = match &item.location {
            ProstheticLocation::Inventory { colony_id } => colony_id,
            _ => return Err(ProstheticError::NotInInventory),
        };
        let next = Self::relocated(
            item,
            ProstheticLocation::TradeCargo { colony_id: str_copy(colony_id.as_str()), caravan_id: str_copy(caravan_id) },
        );
        proof {
            lemma_replace_keeps_valid(self.item_map(), self.slot_map(), id@, item_view(next));
        }
        self.put_item(next);
        Ok(())
    }

    /// Unload trade cargo back into its colony's inventory.
    pub fn cancel_trade(&mut self, id: &ProstheticId) -> (r: Result<(), ProstheticError>)
        requires
            old(self).wf(),
        ensures
            final(self).wf(),
            r == unit_result(trade_cargo_error(old(self).item_map(), id@)),
            final(self).slot_map() == old(self).slot_map(),
            r is Err ==> final(self).item_map() == old(self).item_map(),
            r is Ok ==> final(self).item_map() == old(self).item_map().insert(
                id@,
                moved(
                    old(self).item_map()[id@],
                    LocationView::Inventory { colony_id: owner_colony(old(self).item_map()[id@].location) },
                ),
            ),
    {
        let item = match self.get_item(id) {
            Some(item) => item,
            None => return Err(ProstheticError::UnknownItem),
        };
        let colony_id = match &item.location {
            ProstheticLocation::TradeCargo { colony_id, .. } => colony_id,
            _ => return Err(ProstheticError::NotReserved),
        };
        let next = Self::relocated(item, ProstheticLocation::Inventory { colony_id: str_copy(colony_id.as_str()) });
        proof {
            lemma_replace_keeps_valid(self.item_map(), self.slot_map(), id@, item_view(next));
        }
        self.put_item(next);
        Ok(())
    }

    /// Deliver trade cargo into the destination colony's inventory.
    pub fn complete_trade(&mut self, id: &ProstheticId, destination_colony_id: &str) -> (r: Result<(), ProstheticError>)
        requires
            old(self).wf(),
        ensures
            final(self).wf(),
            r == unit_result(complete_trade_error(old(self).item_map(), id@, destination_colony_id@)),
            final(self).slot_map() == old(self).slot_map(),
            r is Err ==> final(self).item_map() == old(self).item_map(),
            r is Ok ==> final(self).item_map() == old(self).item_map().insert(
                id@,
                moved(old(self).item_map()[id@], LocationView::Inventory { colony_id: destination_colony_id@ }),
            ),
    {
        if text_is_empty(destination_colony_id) {
            return Err(ProstheticError::InvalidAuthorization);
        }
        let item = match self.get_item(id) {
            Some(item) => item,
            None => return Err(ProstheticError::UnknownItem),
        };
        match &item.location {
            ProstheticLocation::TradeCargo { .. } => {},
            _ => return Err(ProstheticError::NotReserved),
        }
        let next = Self::relocated(item, ProstheticLocation::Inventory { colony_id: str_copy(destination_colony_id) });
        proof {
            lemma_replace_keeps_valid(self.item_map(), self.slot_map(), id@, item_view(next));
        }
        self.put_item(next);
        Ok(())
    }

    /// The item fitted to `cat_id`'s `part`, if any.
    pub fn fitted_item(&self, cat_id: &str, part: BodyPart) -> (r: Option<&ProstheticId>)
        requires
            self.wf(),
        ensures
            r is Some == self.slot_map().contains_key((cat_id@, part)),
            r matches Some(x) ==> x@ == self.slot_map()[(cat_id@, part)],
    {
        match self.find_slot(cat_id, part) {
            Some(i) => Some(&self.fitted_slots[i].item_id),
            None => None,
        }
    }

    pub fn location(&self, id: &ProstheticId) -> (r: Option<&ProstheticLocation>)
        requires
            self.wf(),
        ensures
            r is Some == self.item_map().contains_key(id@),
            r matches Some(l) ==> location_view(*l) == self.item_map()[id@].location,
    {
        match self.get_item(id) {
            Some(item) => Some(&item.location),
            None => None,
        }
    }

    pub fn remaining_durability_minutes(&self, id: &ProstheticId) -> (r: Option<u64>)
        requires
            self.wf(),
        ensures
            r is Some == self.item_map().contains_key(id@),
            r matches Some(d) ==> d == self.item_map()[id@].durability_minutes,
    {
        match self.get_item(id) {
            Some(item) => Some(item.durability_minutes),
            None => None,
        }
    }

    pub fn item_count(&self) -> (r: usize)
        requires
            self.wf(),
        ensures
            r == self.item_map().len(),
    {
        proof {
            crate::id_map::lemma_map_len(self.items@);
            assert(self.item_map().dom() =~= self.items.map().dom());
        }
        self.items.len()
    }

    pub fn item(&self, id: &ProstheticId) -> (r: Option<&ProstheticItem>)
        requires
            self.wf(),
        ensures
            r is Some == self.item_map().contains_key(id@),
            r matches Some(x) ==> item_view(*x) == self.item_map()[id@],
    {
        self.get_item(id)
    }

    /// Every item, in stable identifier order.
    pub fn items(&self) -> (r: Vec<&ProstheticItem>)
        requires
            self.wf(),
        ensures
            r@.len() == self.item_map().len(),
            forall|i: int| 0 <= i < r@.len() ==> #[trigger] self.item_map().contains_key(r@[i].id@)
                && self.item_map()[r@[i].id@] == item_view(*r@[i]),
            forall|i: int, j: int| 0 <= i < j < r@.len() ==> crate::text::text_lt(#[trigger] r@[i].id@, #[trigger] r@[j].id@),
    {
        let n = self.items.len();
        let mut out: Vec<&ProstheticItem> = Vec::new();
        let mut i: usize = 0;
        proof {
            crate::id_map::lemma_map_len(self.items@);
            crate::id_map::lemma_lookup_all(self.items@);
            assert(self.item_map().dom() =~= self.items.map().dom());
        }
        while i < n
            invariant
                n == self.items@.len(),
                i <= n,
                self.wf(),
                out@.len() == i,
                forall|j: int| 0 <= j < i ==> *#[trigger] out@[j] == self.items@[j].1,
                forall|j: int| 0 <= j < self.items@.len() ==> (#[trigger] self.items@[j]).1.id@ == self.items@[j].0,
            decreases n - i,
        {
            proof {
                crate::id_map::lemma_lookup_at(self.items@, i as int);
            }
            out.push(self.items.value_at(i));
            i = i + 1;
        }
        proof {
            assert forall|a: int| 0 <= a < out@.len() implies #[trigger] self.item_map().contains_key(out@[a].id@)
                && self.item_map()[out@[a].id@] == item_view(*out@[a]) by {
                crate::id_map::lemma_lookup_at(self.items@, a);
            }
        }
        out
    }

    /// Every item identifier, in stable order.
    pub fn item_ids(&self) -> (r: Vec<&ProstheticId>)
        requires
            self.wf(),
        ensures
            r@.len() == self.item_map().len(),
            forall|i: int| 0 <= i < r@.len() ==> #[trigger] self.item_map().contains_key(r@[i]@),
            forall|i: int, j: int| 0 <= i < j < r@.len() ==> crate::text::text_lt(#[trigger] r@[i]@, #[trigger] r@[j]@),
    {
        let all = self.items();
        let mut out: Vec<&ProstheticId> = Vec::new();
        let mut i: usize = 0;
        while i < all.len()
            invariant
                i <= all@.len(),
                out@.len() == i,
                forall|j: int| 0 <= j < i ==> #[trigger] out@[j] == &all@[j].id,
            decreases all@.len() - i,
        {
            out.push(&all[i].id);
            i = i + 1;
        }
        out
    }
}


/// Whether an item is fitted to `cat_id`.
pub open spec fn fitted_to(item: ItemView, cat_id: Seq<char>) -> bool {
    item.location is Fitted && location_cat(item.location) == cat_id
}

/// An item returned to its colony's inventory.
pub open spec fn returned(item: ItemView) -> ItemView {
    moved(item, LocationView::Inventory { colony_id: owner_colony(item.location) })
}

/// The items after every item fitted to `cat_id` with part number at most
/// `bound` returned to inventory.
pub open spec fn recovered_items(items: Map<Seq<char>, ItemView>, cat_id: Seq<char>, bound: int) -> Map<Seq<char>, ItemView> {
    Map::new(
        |k: Seq<char>| items.contains_key(k),
        |k: Seq<char>| if fitted_to(items[k], cat_id) && items[k].part.0 <= bound { returned(items[k]) } else { items[k] },
    )
}

/// The slots after those of `cat_id` with part number at most `bound` emptied.
pub open spec fn recovered_slots(
    slots: Map<(Seq<char>, BodyPart), Seq<char>>,
    cat_id: Seq<char>,
    bound: int,
) -> Map<(Seq<char>, BodyPart), Seq<char>> {
    slots.remove_keys(Set::new(|k: (Seq<char>, BodyPart)| k.0 == cat_id && k.1.0 <= bound))
}

impl ProstheticLedger {
    /// The slot of `cat_id` with the lowest part number, if the cat has any.
    fn find_min_cat_slot(&self, cat_id: &str) -> (r: Option<usize>)
        ensures
            r matches Some(i) ==> i < self.fitted_slots@.len() && self.fitted_slots@[i as int].cat_id@ == cat_id@
                && forall|j: int| 0 <= j < self.fitted_slots@.len() && (#[trigger] self.fitted_slots@[j]).cat_id@ == cat_id@
                ==> self.fitted_slots@[i as int].part.0 <= self.fitted_slots@[j].part.0,
            r is None ==> forall|j: int| 0 <= j < self.fitted_slots@.len() ==> (#[trigger] self.fitted_slots@[j]).cat_id@ != cat_id@,
    {
        let n = self.fitted_slots.len();
        let mut best: Option<usize> = None;
        let mut i: usize = 0;
        while i < n
            invariant
                n == self.fitted_slots@.len(),
                i <= n,
                best matches Some(b) ==> b < i && self.fitted_slots@[b as int].cat_id@ == cat_id@
                    && forall|j: int| 0 <= j < i && (#[trigger] self.fitted_slots@[j]).cat_id@ == cat_id@
                    ==> self.fitted_slots@[b as int].part.0 <= self.fitted_slots@[j].part.0,
                best is None ==> forall|j: int| 0 <= j < i ==> (#[trigger] self.fitted_slots@[j]).cat_id@ != cat_id@,
            decreases n - i,
        {
            if text_eq(self.fitted_slots[i].cat_id.as_str(), cat_id) {
                best = match best {
                    Some(b) => if self.fitted_slots[i].part.0 < self.fitted_slots[b].part.0 { Some(i) } else { Some(b) },
                    None => Some(i),
                };
            }
            i = i + 1;
        }
        best
    }

    /// A cat died: every item fitted to it returns to its colony's inventory
    /// and its slots empty. Returns the recovered items in part order.
    #[verifier::rlimit(40)]
    pub fn recover_from_death(&mut self, cat_id: &str) -> (r: Vec<ProstheticId>)
        requires
            old(self).wf(),
        ensures
            final(self).wf(),
            final(self).slot_map() == old(self).slot_map().remove_keys(
                Set::new(|k: (Seq<char>, BodyPart)| k.0 == cat_id@),
            ),
            final(self).item_map() == Map::new(
                |k: Seq<char>| old(self).item_map().contains_key(k),
                |k: Seq<char>| if fitted_to(old(self).item_map()[k], cat_id@) {
                    returned(old(self).item_map()[k])
                } else {
                    old(self).item_map()[k]
                },
            ),
            forall|i: int| 0 <= i < r@.len() ==> #[trigger] old(self).item_map().contains_key(r@[i]@)
                && fitted_to(old(self).item_map()[r@[i]@], cat_id@),
            forall|i: int, j: int| 0 <= i < j < r@.len() ==> (#[trigger] old(self).item_map()[r@[i]@]).part.0
                < (#[trigger] old(self).item_map()[r@[j]@]).part.0,
            forall|k: Seq<char>| #[trigger] old(self).item_map().contains_key(k) && fitted_to(old(self).item_map()[k], cat_id@)
                ==> exists|i: int| 0 <= i < r@.len() && r@[i]@ == k,
    {
        let ghost old_items = self.item_map();
        let ghost old_slots = self.slot_map();
        let ghost mut bound: int = -1;
        let mut out: Vec<ProstheticId> = Vec::new();
        proof {
            assert(recovered_slots(old_slots, cat_id@, -1) =~= old_slots);
            assert(recovered_items(old_items, cat_id@, -1) =~= old_items);
        }
        let mut done = false;
        while !done
            invariant
                ledger_valid(old_items, old_slots),
                self.items.wf(),
                slots_unique(self.fitted_slots@),
                ledger_valid(self.item_map(), self.slot_map()),
                self.slot_map() == recovered_slots(old_slots, cat_id@, bound),
                self.item_map() == recovered_items(old_items, cat_id@, bound),
                forall|i: int| 0 <= i < out@.len() ==> #[trigger] old_items.contains_key(out@[i]@)
                    && fitted_to(old_items[out@[i]@], cat_id@) && old_items[out@[i]@].part.0 <= bound,
                forall|i: int, j: int| 0 <= i < j < out@.len() ==> (#[trigger] old_items[out@[i]@]).part.0
                    < (#[trigger] old_items[out@[j]@]).part.0,
                out@.len() > 0 ==> old_items[out@[out@.len() - 1]@].part.0 == bound,
                forall|k: Seq<char>| #[trigger] old_items.contains_key(k) && fitted_to(old_items[k], cat_id@)
                    && old_items[k].part.0 <= bound ==> exists|i: int| 0 <= i < out@.len() && out@[i]@ == k,
                done ==> forall|k: (Seq<char>, BodyPart)| #[trigger] self.slot_map().contains_key(k) ==> k.0 != cat_id@,
            decreases self.fitted_slots@.len() + if done { 0int } else { 1int },
        {
            match self.find_min_cat_slot(cat_id) {
                None => {
                    proof {
                        assert forall|k: (Seq<char>, BodyPart)| #[trigger] self.slot_map().contains_key(k) implies k.0 != cat_id@ by {
                            let j = choose|j: int| 0 <= j < self.fitted_slots@.len() && slot_key(#[trigger] self.fitted_slots@[j]) == k;
                            assert(self.fitted_slots@[j].cat_id@ != cat_id@);
                        }
                    }
                    done = true;
                },
                Some(i) => {
                    let ghost key = slot_key(self.fitted_slots@[i as int]);
                    let ghost k = self.fitted_slots@[i as int].item_id@;
                    proof {
                        lemma_slots_at(self.fitted_slots@, i as int);
                        assert(self.slot_map().contains_key(key));
                        assert(old_slots.contains_key(key));
                        assert(key.1.0 > bound);
                        assert(old_slots[key] == k);
                        assert(old_items.contains_key(k));
                        assert(fitted_key(old_items[k]) == Some(key));
                        lemma_slots_remove(self.fitted_slots@, i as int);
                    }
                    let slot = self.fitted_slots.remove(i);
                    let item = match self.get_item(&slot.item_id) {
                        Some(item) => item,
                        None => {
                            proof {
                                assert(false);
                            }
                            return out;
                        },
                    };
                    let colony_id = match &item.location {
                        ProstheticLocation::Fitted { colony_id, .. } => colony_id,
                        _ => {
                            proof {
                                assert(false);
                            }
                            return out;
                        },
                    };
                    let next = Self::relocated(item, ProstheticLocation::Inventory { colony_id: str_copy(colony_id.as_str()) });
                    let ghost mid_items = self.item_map();
                    let ghost mid_slots = self.slot_map();
                    let ghost old_out = out@;
                    let ghost old_bound = bound;
                    self.put_item(next);
                    out.push(slot.item_id);
                    proof {
                        let nb = key.1.0 as int;
                        assert(out@ == old_out.push(slot.item_id));
                        assert(slot.item_id@ == k);
                        assert(fitted_to(old_items[k], cat_id@));
                        assert(old_items[k].part == key.1);
                        assert forall|k2: Seq<char>| #[trigger] old_items.contains_key(k2) && fitted_to(old_items[k2], cat_id@)
                            && bound < old_items[k2].part.0 < nb implies false by {
                            let s2 = (cat_id@, old_items[k2].part);
                            assert(fitted_key(old_items[k2]) == Some(s2));
                            assert(old_slots.contains_key(s2));
                            assert(mid_slots.contains_key(s2) || s2 == key);
                            assert(self.slot_map().contains_key(s2));
                        }
                        bound = nb;
                        assert forall|a: int| 0 <= a < out@.len() implies #[trigger] old_items.contains_key(out@[a]@)
                            && fitted_to(old_items[out@[a]@], cat_id@) && old_items[out@[a]@].part.0 <= bound by {
                            if a < old_out.len() {
                                assert(out@[a] == old_out[a]);
                            }
                        }
                        assert forall|k2: Seq<char>| #[trigger] old_items.contains_key(k2) && fitted_to(old_items[k2], cat_id@)
                            && old_items[k2].part.0 <= bound implies exists|a: int| 0 <= a < out@.len() && out@[a]@ == k2 by {
                            if old_items[k2].part.0 <= old_bound {
                                let a = choose|a: int| 0 <= a < old_out.len() && old_out[a]@ == k2;
                                assert(out@[a] == old_out[a]);
                            } else if old_items[k2].part.0 == nb {
                                let s2 = (cat_id@, old_items[k2].part);
                                assert(fitted_key(old_items[k2]) == Some(s2));
                                assert(s2 == key);
                                assert(old_slots[s2] == k2);
                                assert(out@[old_out.len() as int]@ == k2);
                            }
                        }
                        let items = self.item_map();
                        let slots = self.slot_map();
                        assert(slots =~= recovered_slots(old_slots, cat_id@, bound));
                        assert(items =~= recovered_items(old_items, cat_id@, bound));
                    }
                },
            }
        }
        out
    }
}

/// Cancelling a fitting reservation right after it was made puts every item
/// back exactly where it was.
pub proof fn law_cancelled_fitting_restores_items(
    items: Map<Seq<char>, ItemView>,
    slots: Map<(Seq<char>, BodyPart), Seq<char>>,
    id: Seq<char>,
    part_missing: bool,
    authorization: FitAuthorization<'_>,
)
    requires
        begin_fitting_error(items, slots, id, part_missing, authorization) is None,
    ensures
        ({
            let reserved = items.insert(id, moved(items[id], fitting_location(authorization)));
            &&& cancel_reservation_error(reserved, id) is None
            &&& reserved.insert(
                id,
                moved(reserved[id], LocationView::Inventory { colony_id: owner_colony(reserved[id].location) }),
            ) == items
        }),
{
    let reserved = items.insert(id, moved(items[id], fitting_location(authorization)));
    let back = reserved.insert(
        id,
        moved(reserved[id], LocationView::Inventory { colony_id: owner_colony(reserved[id].location) }),
    );
    assert(back[id] == items[id]);
    assert(back =~= items);
}

/// Unloading trade cargo right after it was loaded puts every item back
/// exactly where it was.
pub proof fn law_cancelled_trade_restores_items(items: Map<Seq<char>, ItemView>, id: Seq<char>, caravan_id: Seq<char>)
    requires
        begin_trade_error(items, id, caravan_id) is None,
    ensures
        ({
            let loaded = items.insert(
                id,
                moved(items[id], LocationView::TradeCargo { colony_id: owner_colony(items[id].location), caravan_id }),
            );
            &&& trade_cargo_error(loaded, id) is None
            &&& loaded.insert(
                id,
                moved(loaded[id], LocationView::Inventory { colony_id: owner_colony(loaded[id].location) }),
            ) == items
        }),
{
    let loaded = items.insert(
        id,
        moved(items[id], LocationView::TradeCargo { colony_id: owner_colony(items[id].location), caravan_id }),
    );
    let back = loaded.insert(
        id,
        moved(loaded[id], LocationView::Inventory { colony_id: owner_colony(loaded[id].location) }),
    );
    assert(back[id] == items[id]);
    assert(back =~= items);
}

} // verus!
