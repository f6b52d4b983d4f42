//! Research currencies and their ledgers: Research Notes earned by scholar
//! work and Void Insight fed by the hole, kept apart, with idempotent spends,
//! plus the vocabulary of studies, scholar work and research lanes.

use vstd::prelude::*;
pub use crate::progression_authority::ProgressionAuthority;
use crate::content_ids::{CapabilityId, RecipeId};
use crate::id_map::{ExactCopy, IdMap, entries_map, has_key, keys_sorted, lemma_lookup_all, lemma_lookup_at, lemma_entries_map_finite, lemma_entries_map_values, lemma_sorted_entries_unique};
use crate::text::{decimal, digit_char, lemma_text_lt_irreflexive, push_decimal, text_eq, text_lt, text_starts_with};
use crate::planner_core::{PlannerId, planner_id_text, texts_view};

verus! {

pub const PROGRESSION_SCHEMA_VERSION: u32 = 1;
pub const NOTES_LEDGER_SCHEMA_VERSION: u32 = 1;
pub const VOID_LEDGER_SCHEMA_VERSION: u32 = 1;
pub const MICRO_UNITS_PER_WHOLE: u64 = 1_000_000;
pub const PLAYER_PREPARATION_DISCOUNT_BASIS_POINTS: u16 = 2_500;
pub const MAX_STUDIES: usize = 256;
pub const MAX_ACTIVE_SCHOLAR_WORK: usize = 128;
pub const MAX_CURRENCY_RECEIPTS: usize = 512;
pub const MAX_LANE_CLAIMS: usize = 128;
pub const MAX_DRAIN_BATCH: usize = 64;
pub const HOLE_AXIS_STUDY_COUNT: usize = 30;
pub const BOOST_UNLOCK_STUDY_COUNT: usize = 4;
pub const BOOST_RESEARCH_STAGE_COUNT: u8 = 11;
pub const NOTES_MICRO_PER_WORK_MINUTE: u64 = 1_000;
pub const OOPSIE_PERCENT_BY_LEVEL: [u8; 5] = [25, 12, 5, 1, 0];

/// A fixed-point amount in millionths.
#[derive(Debug, Clone, Copy, PartialEq, Eq, PartialOrd, Ord, Structural)]
pub struct ResearchNotes(pub u64);

impl ResearchNotes {
    /// The empty amount.
    pub fn zero() -> (r: Self)
        ensures
            r.0 == 0,
    {
        ResearchNotes(0)
    }

    /// One whole unit.
    pub fn one() -> (r: Self)
        ensures
            r.0 == MICRO_UNITS_PER_WHOLE,
    {
        ResearchNotes(MICRO_UNITS_PER_WHOLE)
    }

    pub fn from_micro(value: u64) -> (r: Self)
        ensures
            r.0 == value,
    {
        ResearchNotes(value)
    }

    /// Whole units, if they fit.
    pub fn from_whole(value: u64) -> (r: Option<Self>)
        ensures
            value * MICRO_UNITS_PER_WHOLE <= u64::MAX ==> r == Some(ResearchNotes((value * MICRO_UNITS_PER_WHOLE) as u64)),
            value * MICRO_UNITS_PER_WHOLE > u64::MAX ==> r is None,
    {
        match value.checked_mul(MICRO_UNITS_PER_WHOLE) {
            Some(v) => Some(ResearchNotes(v)),
            None => None,
        }
    }

    pub fn micro(self) -> (r: u64)
        ensures
            r == self.0,
    {
        self.0
    }

    pub fn checked_add(self, other: Self) -> (r: Result<Self, ProgressionError>)
        ensures
            self.0 + other.0 <= u64::MAX ==> r == Ok::<ResearchNotes, ProgressionError>(ResearchNotes((self.0 + other.0) as u64)),
            self.0 + other.0 > u64::MAX ==> r == Err::<ResearchNotes, ProgressionError>(ProgressionError::ArithmeticOverflow),
    {
        match self.0.checked_add(other.0) {
            Some(v) => Ok(ResearchNotes(v)),
            None => Err(ProgressionError::ArithmeticOverflow),
        }
    }

    pub fn checked_sub(self, other: Self) -> (r: Result<Self, ProgressionError>)
        ensures
            self.0 >= other.0 ==> r == Ok::<ResearchNotes, ProgressionError>(ResearchNotes((self.0 - other.0) as u64)),
            self.0 < other.0 ==> r == Err::<ResearchNotes, ProgressionError>(ProgressionError::InsufficientCurrency),
    {
        match self.0.checked_sub(other.0) {
            Some(v) => Ok(ResearchNotes(v)),
            None => Err(ProgressionError::InsufficientCurrency),
        }
    }
}

/// A fixed-point amount in millionths.
#[derive(Debug, Clone, Copy, PartialEq, Eq, PartialOrd, Ord, Structural)]
pub struct VoidInsight(pub u64);

impl VoidInsight {
    /// The empty amount.
    pub fn zero() -> (r: Self)
        ensures
            r.0 == 0,
    {
        VoidInsight(0)
    }

    /// One whole unit.
    pub fn one() -> (r: Self)
        ensures
            r.0 == MICRO_UNITS_PER_WHOLE,
    {
        VoidInsight(MICRO_UNITS_PER_WHOLE)
    }

    pub fn from_micro(value: u64) -> (r: Self)
        ensures
            r.0 == value,
    {
        VoidInsight(value)
    }

    /// Whole units, if they fit.
    pub fn from_whole(value: u64) -> (r: Option<Self>)
        ensures
            value * MICRO_UNITS_PER_WHOLE <= u64::MAX ==> r == Some(VoidInsight((value * MICRO_UNITS_PER_WHOLE) as u64)),
            value * MICRO_UNITS_PER_WHOLE > u64::MAX ==> r is None,
    {
        match value.checked_mul(MICRO_UNITS_PER_WHOLE) {
            Some(v) => Some(VoidInsight(v)),
            None => None,
        }
    }

    pub fn micro(self) -> (r: u64)
        ensures
            r == self.0,
    {
        self.0
    }

    pub fn checked_add(self, other: Self) -> (r: Result<Self, ProgressionError>)
        ensures
            self.0 + other.0 <= u64::MAX ==> r == Ok::<VoidInsight, ProgressionError>(VoidInsight((self.0 + other.0) as u64)),
            self.0 + other.0 > u64::MAX ==> r == Err::<VoidInsight, ProgressionError>(ProgressionError::ArithmeticOverflow),
    {
        match self.0.checked_add(other.0) {
            Some(v) => Ok(VoidInsight(v)),
            None => Err(ProgressionError::ArithmeticOverflow),
        }
    }

    pub fn checked_sub(self, other: Self) -> (r: Result<Self, ProgressionError>)
        ensures
            self.0 >= other.0 ==> r == Ok::<VoidInsight, ProgressionError>(VoidInsight((self.0 - other.0) as u64)),
            self.0 < other.0 ==> r == Err::<VoidInsight, ProgressionError>(ProgressionError::InsufficientCurrency),
    {
        match self.0.checked_sub(other.0) {
            Some(v) => Ok(VoidInsight(v)),
            None => Err(ProgressionError::InsufficientCurrency),
        }
    }
}

#[derive(Debug, Clone, PartialEq, Eq, PartialOrd, Ord, Hash)]
pub struct StudyId(String);

impl StudyId {
    pub closed spec fn view(&self) -> Seq<char> {
        self.0@
    }

    /// The study that grants a capability shares its identifier.
    pub fn from_capability(value: &CapabilityId) -> (r: Self)
        ensures
            r@ == value@,
    {
        StudyId(String::from_str(value.as_str()))
    }

    /// The study named by a catalog key.
    pub(crate) fn from_key(key: &str) -> (r: Self)
        ensures
            r@ == key@,
    {
        StudyId(String::from_str(key))
    }

    pub fn as_str(&self) -> (r: &str)
        ensures
            r@ == self@,
    {
        self.0.as_str()
    }

    /// An identical copy.
    pub fn duplicate(&self) -> (r: Self)
        ensures
            r == *self,
            r@ == self@,
    {
        StudyId(self.0.clone())
    }
}

pub open spec fn currency_event_id_text(namespace: Seq<char>, colony_id: Seq<char>, action: Seq<char>) -> Seq<char> {
    planner_id_text("progression_currency_event"@, seq![namespace, colony_id, action])
}

#[derive(Debug, Clone, PartialEq, Eq, PartialOrd, Ord, Hash)]
pub struct CurrencyEventId(PlannerId);

impl CurrencyEventId {
    pub closed spec fn view(&self) -> Seq<char> {
        self.0@
    }

    pub fn derive(namespace: &str, colony_id: &PlannerId, action: &str) -> (r: Self)
        ensures
            r@ == currency_event_id_text(namespace@, colony_id@, action@),
    {
        let parts: [&str; 3] = [namespace, colony_id.as_str(), action];
        let r = CurrencyEventId(PlannerId::derive("progression_currency_event", &parts));
        assert(texts_view(parts@) =~= seq![namespace@, colony_id@, action@]);
        r
    }

    /// The event identifier with the given planner identifier, as persisted.
    pub fn from_planner_id(id: PlannerId) -> (r: Self)
        ensures
            r@ == id@,
    {
        CurrencyEventId(id)
    }

    pub fn as_str(&self) -> (r: &str)
        ensures
            r@ == self@,
    {
        self.0.as_str()
    }

    pub fn duplicate(&self) -> (r: Self)
        ensures
            r == *self,
    {
        CurrencyEventId(self.0.duplicate())
    }
}

#[derive(Debug, Clone, PartialEq, Eq)]
pub struct ColonyPartitionKey {
    pub colony_id: PlannerId,
}

#[derive(Debug, Clone, PartialEq, Eq)]
pub struct PlayerPartitionKey {
    pub colony_id: PlannerId,
    pub player_id: PlannerId,
}

#[derive(Debug, Clone, Copy, PartialEq, Eq, PartialOrd, Ord, Structural)]
pub enum StudyCurrency {
    Notes,
    Void,
}

#[derive(Debug, Clone, Copy, PartialEq, Eq, PartialOrd, Ord, Structural)]
pub enum HoleAxis {
    Width,
    Depth,
    Darkness,
}

pub open spec fn is_ascii_digit(c: char) -> bool {
    '0' <= c <= '9'
}

pub open spec fn digit_value(c: char) -> int {
    c as int - '0' as int
}

/// The value of a two-character level suffix, as an unsigned decimal parse
/// reads it: two digits, or a plus sign and one digit.
pub open spec fn two_char_level(t: Seq<char>) -> Option<int> {
    if t.len() != 2 {
        None
    } else if is_ascii_digit(t[0]) && is_ascii_digit(t[1]) {
        Some(10 * digit_value(t[0]) + digit_value(t[1]))
    } else if t[0] == '+' && is_ascii_digit(t[1]) {
        Some(digit_value(t[1]))
    } else {
        None
    }
}

pub open spec fn axis_prefix(axis: HoleAxis) -> Seq<char> {
    match axis {
        HoleAxis::Width => "black_hole_width_"@,
        HoleAxis::Depth => "black_hole_depth_"@,
        HoleAxis::Darkness => "black_hole_darkness_"@,
    }
}

/// The axis and level a suffix names when it is a level from one to ten.
pub open spec fn axis_level(axis: HoleAxis, t: Seq<char>) -> Option<(HoleAxis, u8)> {
    match two_char_level(t) {
        Some(v) => if 1 <= v <= 10 {
            Some((axis, v as u8))
        } else {
            None
        },
        None => None,
    }
}

/// The hole axis study an identifier names, if any.
pub open spec fn hole_axis_of(id: Seq<char>) -> Option<(HoleAxis, u8)> {
    if axis_prefix(HoleAxis::Width).is_prefix_of(id) {
        axis_level(HoleAxis::Width, id.skip(axis_prefix(HoleAxis::Width).len() as int))
    } else if axis_prefix(HoleAxis::Depth).is_prefix_of(id) {
        axis_level(HoleAxis::Depth, id.skip(axis_prefix(HoleAxis::Depth).len() as int))
    } else if axis_prefix(HoleAxis::Darkness).is_prefix_of(id) {
        axis_level(HoleAxis::Darkness, id.skip(axis_prefix(HoleAxis::Darkness).len() as int))
    } else {
        None
    }
}

fn char_digit(c: char) -> (r: Option<u8>)
    ensures
        r is Some == is_ascii_digit(c),
        r matches Some(d) ==> d == digit_value(c) && d < 10,
{
    if '0' <= c && c <= '9' {
        Some(((c as u32) - ('0' as u32)) as u8)
    } else {
        None
    }
}

fn suffix_level(axis: HoleAxis, t: &str) -> (r: Option<(HoleAxis, u8)>)
    ensures
        r == axis_level(axis, t@),
{
    if t.unicode_len() != 2 {
        return None;
    }
    let c0 = t.get_char(0);
    let c1 = t.get_char(1);
    let value: u8 = match (char_digit(c0), char_digit(c1)) {
        (Some(d0), Some(d1)) => 10 * d0 + d1,
        (None, Some(d1)) => {
            if c0 == '+' {
                d1
            } else {
                return None;
            }
        },
        _ => {
            return None;
        },
    };
    if 1 <= value && value <= 10 {
        Some((axis, value))
    } else {
        None
    }
}

fn prefixed_level(axis: HoleAxis, prefix: &str, id: &str) -> (r: Option<Option<(HoleAxis, u8)>>)
    requires
        prefix@ == axis_prefix(axis),
    ensures
        r is Some == prefix@.is_prefix_of(id@),
        r matches Some(x) ==> x == axis_level(axis, id@.skip(prefix@.len() as int)),
{
    if !text_starts_with(id, prefix) {
        return None;
    }
    let rest = id.substring_char(prefix.unicode_len(), id.unicode_len());
    assert(rest@ =~= id@.skip(prefix@.len() as int));
    Some(suffix_level(axis, rest))
}

/// The hole axis and level a study identifier names, if any.
pub fn parse_hole_axis(id: &StudyId) -> (r: Option<(HoleAxis, u8)>)
    ensures
        r == hole_axis_of(id@),
{
    proof {
        reveal_strlit("black_hole_width_");
        reveal_strlit("black_hole_depth_");
        reveal_strlit("black_hole_darkness_");
    }
    let text = id.as_str();
    match prefixed_level(HoleAxis::Width, "black_hole_width_", text) {
        Some(x) => {
            return x;
        },
        None => {},
    }
    match prefixed_level(HoleAxis::Depth, "black_hole_depth_", text) {
        Some(x) => {
            return x;
        },
        None => {},
    }
    match prefixed_level(HoleAxis::Darkness, "black_hole_darkness_", text) {
        Some(x) => x,
        None => None,
    }
}

#[derive(Debug, Clone, Copy, PartialEq, Eq, PartialOrd, Ord, Structural)]
pub enum SpecializedBoost {
    BountifulLabor,
    FleetPaws,
    InspiredWork,
    RestorativeGrace,
}

pub open spec fn boost_suffix(b: SpecializedBoost) -> Seq<char> {
    match b {
        SpecializedBoost::BountifulLabor => "bountiful_labor"@,
        SpecializedBoost::FleetPaws => "fleet_paws"@,
        SpecializedBoost::InspiredWork => "inspired_work"@,
        SpecializedBoost::RestorativeGrace => "restorative_grace"@,
    }
}

impl SpecializedBoost {
    pub const ALL: [SpecializedBoost; 4] = [
        SpecializedBoost::BountifulLabor,
        SpecializedBoost::FleetPaws,
        SpecializedBoost::InspiredWork,
        SpecializedBoost::RestorativeGrace,
    ];

    pub fn study_suffix(self) -> (r: &'static str)
        ensures
            r@ == boost_suffix(self),
    {
        match self {
            SpecializedBoost::BountifulLabor => "bountiful_labor",
            SpecializedBoost::FleetPaws => "fleet_paws",
            SpecializedBoost::InspiredWork => "inspired_work",
            SpecializedBoost::RestorativeGrace => "restorative_grace",
        }
    }
}

#[derive(Debug, Clone, PartialEq, Eq)]
pub enum StudyKind {
    OrdinaryCapability { capability_id: CapabilityId },
    HoleAxis { axis: HoleAxis, level: u8 },
    BoostUnlock { boost: SpecializedBoost },
    BoostDuration { stage: u8 },
    BoostEconomy { stage: u8 },
}

/// Ordinary capabilities are bought with Notes; hole and boost studies with Void Insight.
pub open spec fn kind_currency(k: StudyKind) -> StudyCurrency {
    match k {
        StudyKind::OrdinaryCapability { .. } => StudyCurrency::Notes,
        _ => StudyCurrency::Void,
    }
}

impl StudyKind {
    pub fn currency(&self) -> (r: StudyCurrency)
        ensures
            r == kind_currency(*self),
    {
        match self {
            StudyKind::OrdinaryCapability { .. } => StudyCurrency::Notes,
            _ => StudyCurrency::Void,
        }
    }

    pub fn is_ordinary(&self) -> (r: bool)
        ensures
            r == (*self is OrdinaryCapability),
    {
        match self {
            StudyKind::OrdinaryCapability { .. } => true,
            _ => false,
        }
    }
}

#[derive(Debug, Clone, PartialEq, Eq)]
pub struct StudyDefinition {
    pub id: StudyId,
    pub display_name: String,
    pub order: u32,
    pub kind: StudyKind,
    pub prerequisites: IdMap<()>,
    pub cost_micro: u64,
    pub required_work_minutes: u64,
}

impl StudyDefinition {
    pub fn currency(&self) -> (r: StudyCurrency)
        ensures
            r == kind_currency(self.kind),
    {
        self.kind.currency()
    }

    /// The Notes price of a Notes study.
    pub fn notes_cost(&self) -> (r: Option<ResearchNotes>)
        ensures
            r == (if kind_currency(self.kind) == StudyCurrency::Notes { Some(ResearchNotes(self.cost_micro)) } else { None }),
    {
        match self.currency() {
            StudyCurrency::Notes => Some(ResearchNotes::from_micro(self.cost_micro)),
            StudyCurrency::Void => None,
        }
    }

    /// The Void Insight price of a Void study.
    pub fn void_cost(&self) -> (r: Option<VoidInsight>)
        ensures
            r == (if kind_currency(self.kind) == StudyCurrency::Void { Some(VoidInsight(self.cost_micro)) } else { None }),
    {
        match self.currency() {
            StudyCurrency::Notes => None,
            StudyCurrency::Void => Some(VoidInsight::from_micro(self.cost_micro)),
        }
    }
}

/// A study kind, with the capability read as text.
pub enum KindView {
    OrdinaryCapability { capability_id: Seq<char> },
    HoleAxis { axis: HoleAxis, level: u8 },
    BoostUnlock { boost: SpecializedBoost },
    BoostDuration { stage: u8 },
    BoostEconomy { stage: u8 },
}

pub open spec fn kind_view(k: StudyKind) -> KindView {
    match k {
        StudyKind::OrdinaryCapability { capability_id } => KindView::OrdinaryCapability { capability_id: capability_id@ },
        StudyKind::HoleAxis { axis, level } => KindView::HoleAxis { axis, level },
        StudyKind::BoostUnlock { boost } => KindView::BoostUnlock { boost },
        StudyKind::BoostDuration { stage } => KindView::BoostDuration { stage },
        StudyKind::BoostEconomy { stage } => KindView::BoostEconomy { stage },
    }
}

/// A study definition, with every identifier read as text.
pub struct StudyView {
    pub id: Seq<char>,
    pub display_name: Seq<char>,
    pub order: u32,
    pub kind: KindView,
    pub prerequisites: Set<Seq<char>>,
    pub cost_micro: u64,
    pub required_work_minutes: u64,
}

pub open spec fn study_view(d: StudyDefinition) -> StudyView {
    StudyView {
        id: d.id@,
        display_name: d.display_name@,
        order: d.order,
        kind: kind_view(d.kind),
        prerequisites: d.prerequisites.map().dom(),
        cost_micro: d.cost_micro,
        required_work_minutes: d.required_work_minutes,
    }
}

pub open spec fn boost_of(i: int) -> SpecializedBoost {
    if i == 0 {
        SpecializedBoost::BountifulLabor
    } else if i == 1 {
        SpecializedBoost::FleetPaws
    } else if i == 2 {
        SpecializedBoost::InspiredWork
    } else {
        SpecializedBoost::RestorativeGrace
    }
}

pub open spec fn boost_name(b: SpecializedBoost) -> Seq<char> {
    match b {
        SpecializedBoost::BountifulLabor => "BountifulLabor"@,
        SpecializedBoost::FleetPaws => "FleetPaws"@,
        SpecializedBoost::InspiredWork => "InspiredWork"@,
        SpecializedBoost::RestorativeGrace => "RestorativeGrace"@,
    }
}

/// A stage number written with two digits.
pub open spec fn two_digits(stage: int) -> Seq<char> {
    seq![digit_char(stage / 10), digit_char(stage % 10)]
}

pub open spec fn stage_prefix(economy: bool) -> Seq<char> {
    if economy {
        "divine_economy"@
    } else {
        "divine_duration"@
    }
}

pub open spec fn stage_study_id(economy: bool, stage: int) -> Seq<char> {
    stage_prefix(economy) + "_"@ + two_digits(stage)
}

/// The divine boost studies, in the order they are numbered: the four
/// unlocks, then each stage's duration and economy studies.
pub open spec fn boost_study(i: int) -> StudyView {
    if i < 4 {
        StudyView {
            id: "divine_boost_"@ + boost_suffix(boost_of(i)),
            display_name: boost_name(boost_of(i)),
            order: (10_000 + i) as u32,
            kind: KindView::BoostUnlock { boost: boost_of(i) },
            prerequisites: Set::empty(),
            cost_micro: (10 * MICRO_UNITS_PER_WHOLE) as u64,
            required_work_minutes: 60,
        }
    } else {
        let stage = (i - 4) / 2 + 1;
        let economy = (i - 4) % 2 == 1;
        StudyView {
            id: stage_study_id(economy, stage),
            display_name: stage_prefix(economy) + " "@ + decimal(stage as nat),
            order: (10_000 + i) as u32,
            kind: if economy {
                KindView::BoostEconomy { stage: stage as u8 }
            } else {
                KindView::BoostDuration { stage: stage as u8 }
            },
            prerequisites: if stage > 1 {
                set![stage_study_id(economy, stage - 1)]
            } else {
                Set::empty()
            },
            cost_micro: (stage * (if economy { 3int } else { 2int }) * MICRO_UNITS_PER_WHOLE) as u64,
            required_work_minutes: (stage * 60) as u64,
        }
    }
}

pub const BOOST_STUDY_TOTAL: usize = 26;

pub proof fn lemma_boost_ids_distinct(i: int, j: int)
    requires
        0 <= i < 26,
        0 <= j < 26,
        i != j,
    ensures
        boost_study(i).id != boost_study(j).id,
{
    reveal_strlit("divine_boost_");
    reveal_strlit("divine_economy");
    reveal_strlit("divine_duration");
    reveal_strlit("_");
    reveal_strlit("bountiful_labor");
    reveal_strlit("fleet_paws");
    reveal_strlit("inspired_work");
    reveal_strlit("restorative_grace");
    let a = boost_study(i).id;
    let b = boost_study(j).id;
    if i < 4 && j < 4 {
        assert(a[13] != b[13]);
    } else if i < 4 || j < 4 {
        assert(a[7] != b[7]);
    } else {
        let si = (i - 4) / 2 + 1;
        let sj = (j - 4) / 2 + 1;
        let ei = (i - 4) % 2 == 1;
        let ej = (j - 4) % 2 == 1;
        if ei != ej {
            assert(a[7] != b[7]);
        } else {
            let n: int = stage_prefix(ei).len() as int + 1;
            assert(si != sj);
            if si / 10 != sj / 10 {
                assert(a[n] != b[n]);
            } else {
                assert(a[n + 1] != b[n + 1]);
            }
        }
    }
}

pub(crate) fn push_two_digits(s: &mut String, stage: u8)
    requires
        1 <= stage <= 11,
    ensures
        final(s)@ == old(s)@ + two_digits(stage as int),
{
    proof {
        reveal_strlit("0");
    }
    if stage < 10 {
        s.append("0");
    }
    push_decimal(s, stage as u64);
    proof {
        if stage >= 10 {
            assert(decimal(stage as nat) =~= decimal(1) + seq![digit_char((stage % 10) as int)]);
        }
        assert(final(s)@ =~= old(s)@ + two_digits(stage as int));
    }
}

fn stage_id_text(economy: bool, stage: u8) -> (r: String)
    requires
        1 <= stage <= 11,
    ensures
        r@ == stage_study_id(economy, stage as int),
{
    let mut s = String::from_str(if economy { "divine_economy" } else { "divine_duration" });
    s.append("_");
    push_two_digits(&mut s, stage);
    s
}

fn boost_definition(i: usize) -> (d: StudyDefinition)
    requires
        i < 26,
    ensures
        study_view(d) == boost_study(i as int),
        d.prerequisites.wf(),
{
    let order: u32 = 10_000 + i as u32;
    if i < 4 {
        let boost = SpecializedBoost::ALL[i];
        assert(boost == boost_of(i as int));
        let mut id = String::from_str("divine_boost_");
        id.append(boost.study_suffix());
        let name = match boost {
            SpecializedBoost::BountifulLabor => "BountifulLabor",
            SpecializedBoost::FleetPaws => "FleetPaws",
            SpecializedBoost::InspiredWork => "InspiredWork",
            SpecializedBoost::RestorativeGrace => "RestorativeGrace",
        };
        let prerequisites: IdMap<()> = IdMap::new();
        let d = StudyDefinition {
            id: StudyId(id),
            display_name: String::from_str(name),
            order,
            kind: StudyKind::BoostUnlock { boost },
            prerequisites,
            cost_micro: 10 * MICRO_UNITS_PER_WHOLE,
            required_work_minutes: 60,
        };
        assert(study_view(d).prerequisites =~= Set::<Seq<char>>::empty());
        d
    } else {
        let stage: u8 = ((i - 4) / 2 + 1) as u8;
        let economy = (i - 4) % 2 == 1;
        let id = stage_id_text(economy, stage);
        let mut name = String::from_str(if economy { "divine_economy" } else { "divine_duration" });
        name.append(" ");
        push_decimal(&mut name, stage as u64);
        let mut prerequisites: IdMap<()> = IdMap::new();
        if stage > 1 {
            prerequisites.insert(stage_id_text(economy, stage - 1), ());
        }
        let multiplier: u64 = if economy { 3 } else { 2 };
        let d = StudyDefinition {
            id: StudyId(id),
            display_name: name,
            order,
            kind: if economy {
                StudyKind::BoostEconomy { stage }
            } else {
                StudyKind::BoostDuration { stage }
            },
            prerequisites,
            cost_micro: stage as u64 * multiplier * MICRO_UNITS_PER_WHOLE,
            required_work_minutes: stage as u64 * 60,
        };
        proof {
            if stage > 1 {
                assert(study_view(d).prerequisites =~= set![stage_study_id(economy, stage - 1)]);
            } else {
                assert(study_view(d).prerequisites =~= Set::<Seq<char>>::empty());
            }
        }
        d
    }
}

/// Whether `k` names one of the divine boost studies.
pub open spec fn is_boost_study_id(k: Seq<char>) -> bool {
    exists|i: int| 0 <= i < 26 && #[trigger] boost_study(i).id == k
}

/// Add the divine boost studies, replacing any study with the same identifier.
fn add_boost_studies(studies: &mut IdMap<StudyDefinition>) -> (r: Result<(), ProgressionError>)
    requires
        old(studies).wf(),
    ensures
        final(studies).wf(),
        r is Ok,
        forall|i: int|
            0 <= i < 26 ==> #[trigger] final(studies).map().contains_key(boost_study(i).id) && study_view(
                final(studies).map()[boost_study(i).id],
            ) == boost_study(i) && final(studies).map()[boost_study(i).id].prerequisites.wf(),
        forall|k: Seq<char>|
            #[trigger] final(studies).map().contains_key(k) <==> old(studies).map().contains_key(k)
                || is_boost_study_id(k),
        forall|k: Seq<char>|
            old(studies).map().contains_key(k) && !is_boost_study_id(k) ==> #[trigger] final(studies).map()[k]
                == old(studies).map()[k],
{
    let mut i: usize = 0;
    while i < BOOST_STUDY_TOTAL
        invariant
            i <= 26,
            studies.wf(),
            forall|j: int|
                0 <= j < i ==> #[trigger] studies.map().contains_key(boost_study(j).id) && study_view(
                    studies.map()[boost_study(j).id],
                ) == boost_study(j) && studies.map()[boost_study(j).id].prerequisites.wf(),
            forall|k: Seq<char>|
                #[trigger] studies.map().contains_key(k) <==> old(studies).map().contains_key(k)
                    || exists|j: int| 0 <= j < i && #[trigger] boost_study(j).id == k,
            forall|k: Seq<char>|
                old(studies).map().contains_key(k) && !(exists|j: int| 0 <= j < i && #[trigger] boost_study(j).id == k)
                    ==> #[trigger] studies.map()[k] == old(studies).map()[k],
        decreases 26 - i,
    {
        let d = boost_definition(i);
        let key = String::from_str(d.id.as_str());
        let ghost before = studies.map();
        let ghost dd = d;
        studies.insert(key, d);
        proof {
            assert(studies.map()[boost_study(i as int).id] == dd);
            assert forall|j: int|
                0 <= j < i + 1 implies #[trigger] studies.map().contains_key(boost_study(j).id) && study_view(
                    studies.map()[boost_study(j).id],
                ) == boost_study(j) && studies.map()[boost_study(j).id].prerequisites.wf() by {
                if j < i {
                    lemma_boost_ids_distinct(j, i as int);
                    assert(before.contains_key(boost_study(j).id));
                }
            }
            assert forall|j: int| 0 <= j < i implies boost_study(j).id != boost_study(i as int).id by {
                lemma_boost_ids_distinct(j, i as int);
            }
            assert forall|k: Seq<char>|
                #[trigger] studies.map().contains_key(k) <==> old(studies).map().contains_key(k)
                    || exists|j: int| 0 <= j < i + 1 && #[trigger] boost_study(j).id == k by {
                if k == boost_study(i as int).id {
                    assert(exists|j: int| 0 <= j < i + 1 && #[trigger] boost_study(j).id == k);
                }
                if exists|j: int| 0 <= j < i + 1 && #[trigger] boost_study(j).id == k {
                    let j = choose|j: int| 0 <= j < i + 1 && #[trigger] boost_study(j).id == k;
                    if j < i {
                        assert(before.contains_key(k));
                    }
                }
            }
            assert forall|k: Seq<char>|
                old(studies).map().contains_key(k) && !(exists|j: int| 0 <= j < i + 1 && #[trigger] boost_study(j).id
                    == k) implies #[trigger] studies.map()[k] == old(studies).map()[k] by {
                assert(k != boost_study(i as int).id);
                if exists|j: int| 0 <= j < i && #[trigger] boost_study(j).id == k {
                    let j = choose|j: int| 0 <= j < i && #[trigger] boost_study(j).id == k;
                    assert(boost_study(j).id == k);
                }
            }
        }
        i = i + 1;
    }
    assert(i == 26);
    assert forall|j: int|
        0 <= j < 26 implies #[trigger] studies.map().contains_key(boost_study(j).id) && study_view(
            studies.map()[boost_study(j).id],
        ) == boost_study(j) && studies.map()[boost_study(j).id].prerequisites.wf() by {
        assert(0 <= j < i);
        assert(studies.map().contains_key(boost_study(j).id));
        assert(studies.map()[boost_study(j).id].prerequisites.wf());
    }
    Ok(())
}

/// One capability of the content manifest, as the catalog reads it.
#[derive(Debug, Clone, PartialEq, Eq)]
pub struct ManifestCapability {
    pub id: CapabilityId,
    pub display_name: String,
    pub order: u32,
    pub founding_owned: bool,
    pub prerequisites: Vec<CapabilityId>,
}

/// Whether `pattern` occurs somewhere in `text`.
pub open spec fn text_contains(text: Seq<char>, pattern: Seq<char>) -> bool {
    exists|i: int| 0 <= i && i + pattern.len() <= text.len() && #[trigger] text.subrange(i, i + pattern.len()) == pattern
}

fn contains_text(text: &str, pattern: &str) -> (r: bool)
    ensures
        r == text_contains(text@, pattern@),
{
    let n = text.unicode_len();
    let m = pattern.unicode_len();
    if m > n {
        proof {
            assert forall|i: int| 0 <= i && i + pattern@.len() <= text@.len() implies #[trigger] text@.subrange(i, i + pattern@.len()) != pattern@ by {}
        }
        return false;
    }
    let mut i: usize = 0;
    while i <= n - m
        invariant
            n == text@.len(),
            m == pattern@.len(),
            m <= n,
            i <= n - m + 1,
            forall|k: int| 0 <= k < i ==> #[trigger] text@.subrange(k, k + m) != pattern@,
        decreases n - m + 1 - i,
    {
        let mut j: usize = 0;
        let mut same = true;
        while j < m
            invariant
                n == text@.len(),
                m == pattern@.len(),
                i + m <= n,
                j <= m,
                same == (forall|t: int| 0 <= t < j ==> text@[i + t] == pattern@[t]),
            decreases m - j,
        {
            if text.get_char(i + j) != pattern.get_char(j) {
                same = false;
            }
            j = j + 1;
        }
        if same {
            assert(text@.subrange(i as int, i + m) =~= pattern@);
            return true;
        }
        proof {
            let t = choose|t: int| 0 <= t < m && text@[i + t] != pattern@[t];
            assert(text@.subrange(i as int, i + m)[t] != pattern@[t]);
        }
        i = i + 1;
    }
    false
}


/// The rules every catalog keeps, read over its studies and its
/// capability-to-study index, both in identifier order.
pub open spec fn catalog_rules(studies: Seq<StudyView>, capability_studies: Seq<(Seq<char>, Seq<char>)>) -> bool {
    &&& studies.len() <= MAX_STUDIES
    &&& studies.filter(|v: StudyView| v.kind is HoleAxis).len() == HOLE_AXIS_STUDY_COUNT
    &&& studies.filter(|v: StudyView| v.kind is BoostUnlock).len() == BOOST_UNLOCK_STUDY_COUNT
    &&& forall|i: int|
        0 <= i < studies.len() ==> ((#[trigger] studies[i]).kind matches KindView::HoleAxis { level, .. } ==> 1
            <= level <= 10)
    &&& forall|a: int, level: int|
        0 <= a < 3 && 1 <= level <= 10 ==> #[trigger] axis_level_present(studies, a, level)
    &&& forall|i: int|
        0 <= i < studies.len() ==> (#[trigger] studies[i]).cost_micro != 0 && studies[i].required_work_minutes != 0
    &&& forall|i: int, p: Seq<char>|
        0 <= i < studies.len() && #[trigger] studies[i].prerequisites.contains(p) ==> exists|j: int|
            0 <= j < studies.len() && #[trigger] studies[j].id == p
    &&& exists|i: int|
        0 <= i < capability_studies.len() && #[trigger] capability_studies[i] == ("plank_processing"@, "plank_processing"@)
    &&& capability_studies.filter(|e: (Seq<char>, Seq<char>)| text_contains(e.0, "plank"@)).len() == 1
}

pub open spec fn axis_at(a: int) -> HoleAxis {
    if a == 0 {
        HoleAxis::Width
    } else if a == 1 {
        HoleAxis::Depth
    } else {
        HoleAxis::Darkness
    }
}

pub open spec fn axis_index(axis: HoleAxis) -> int {
    match axis {
        HoleAxis::Width => 0,
        HoleAxis::Depth => 1,
        HoleAxis::Darkness => 2,
    }
}

/// Whether some study is hole axis `a` at `level`.
pub open spec fn axis_level_present(studies: Seq<StudyView>, a: int, level: int) -> bool {
    exists|i: int|
        0 <= i < studies.len() && #[trigger] studies[i].kind == (KindView::HoleAxis { axis: axis_at(a), level: level as u8 })
}

/// The studies a colony can research, with the capability each grants.
#[derive(Debug, PartialEq, Eq)]
pub struct ProgressionCatalog {
    studies: IdMap<StudyDefinition>,
    founding_capabilities: IdMap<()>,
    capability_to_study: IdMap<StudyId>,
}

impl ProgressionCatalog {
    #[verifier::type_invariant]
    closed spec fn inv(&self) -> bool {
        &&& self.studies.wf()
        &&& self.founding_capabilities.wf()
        &&& self.capability_to_study.wf()
        &&& forall|j: int|
            0 <= j < self.studies@.len() ==> (#[trigger] self.studies@[j]).1.id@ == self.studies@[j].0
                && self.studies@[j].1.prerequisites.wf()
    }

    /// The studies in identifier order.
    pub closed spec fn ordered_studies(&self) -> Seq<StudyView> {
        self.studies@.map_values(|e: (Seq<char>, StudyDefinition)| study_view(e.1))
    }

    /// The studies by identifier.
    pub closed spec fn views(&self) -> Map<Seq<char>, StudyView> {
        self.studies.map().map_values(|d: StudyDefinition| study_view(d))
    }

    /// The prerequisites of study `id`, in identifier order.
    pub closed spec fn prerequisite_order(&self, id: Seq<char>) -> Seq<Seq<char>> {
        self.studies.map()[id].prerequisites@.map_values(|e: (Seq<char>, ())| e.0)
    }

    /// The catalog holds finitely many studies.
    pub proof fn lemma_views_finite(&self)
        ensures
            self.views().dom().finite(),
    {
        lemma_entries_map_finite(self.studies@);
        assert(self.views().dom() =~= self.studies.map().dom());
    }

    /// The capabilities owned from the founding.
    pub closed spec fn founding(&self) -> Set<Seq<char>> {
        self.founding_capabilities.map().dom()
    }

    /// Each researchable capability and the study granting it, in capability order.
    pub closed spec fn capability_entries(&self) -> Seq<(Seq<char>, Seq<char>)> {
        self.capability_to_study@.map_values(|e: (Seq<char>, StudyId)| (e.0, e.1@))
    }

    /// Each researchable capability and the study granting it, by capability.
    pub closed spec fn capability_map(&self) -> Map<Seq<char>, Seq<char>> {
        self.capability_to_study.map().map_values(|sid: StudyId| sid@)
    }

    /// The studies and the capability index are kept in identifier order.
    pub closed spec fn entries_ordered(&self) -> bool {
        self.studies.wf() && self.capability_to_study.wf()
    }

    /// This catalog is the one the capabilities build over the founding set `fset`.
    pub open spec fn built_from(&self, fset: Set<Seq<char>>, capabilities: Seq<ManifestCapability>) -> bool {
        &&& self.entries_ordered()
        &&& self.founding() == fset
        &&& self.views() == built_views(fset, capabilities)
        &&& self.capability_map() == built_capability_map(capabilities)
    }

    /// Two ordered catalogs with the same studies and capability index are
    /// equally valid.
    pub proof fn lemma_valid_determined(c1: ProgressionCatalog, c2: ProgressionCatalog)
        requires
            c1.entries_ordered(),
            c2.entries_ordered(),
            c1.views() == c2.views(),
            c1.capability_map() == c2.capability_map(),
        ensures
            c1.valid() == c2.valid(),
    {
        let f = |d: StudyDefinition| study_view(d);
        let g = |sid: StudyId| sid@;
        lemma_entries_map_values(c1.studies@, f);
        lemma_entries_map_values(c2.studies@, f);
        lemma_entries_map_values(c1.capability_to_study@, g);
        lemma_entries_map_values(c2.capability_to_study@, g);
        let t1 = c1.studies@.map_values(|e: (Seq<char>, StudyDefinition)| (e.0, f(e.1)));
        let t2 = c2.studies@.map_values(|e: (Seq<char>, StudyDefinition)| (e.0, f(e.1)));
        let u1 = c1.capability_to_study@.map_values(|e: (Seq<char>, StudyId)| (e.0, g(e.1)));
        let u2 = c2.capability_to_study@.map_values(|e: (Seq<char>, StudyId)| (e.0, g(e.1)));
        assert(c1.views() =~= entries_map(c1.studies@).map_values(f));
        assert(c2.views() =~= entries_map(c2.studies@).map_values(f));
        assert(c1.capability_map() =~= entries_map(c1.capability_to_study@).map_values(g));
        assert(c2.capability_map() =~= entries_map(c2.capability_to_study@).map_values(g));
        lemma_sorted_entries_unique(t1, t2);
        lemma_sorted_entries_unique(u1, u2);
        assert(c1.ordered_studies() =~= t1.map_values(|e: (Seq<char>, StudyView)| e.1));
        assert(c2.ordered_studies() =~= t2.map_values(|e: (Seq<char>, StudyView)| e.1));
        assert(c1.capability_entries() =~= u1);
        assert(c2.capability_entries() =~= u2);
    }

    pub open spec fn valid(&self) -> bool {
        catalog_rules(self.ordered_studies(), self.capability_entries())
    }

    pub fn studies(&self) -> (r: &IdMap<StudyDefinition>)
        ensures
            r.wf(),
            r.map().map_values(|d: StudyDefinition| study_view(d)) == self.views(),
            r@.map_values(|e: (Seq<char>, StudyDefinition)| study_view(e.1)) == self.ordered_studies(),
    {
        proof {
            use_type_invariant(self);
        }
        &self.studies
    }

    pub fn study(&self, id: &StudyId) -> (r: Option<&StudyDefinition>)
        ensures
            r is Some == self.views().contains_key(id@),
            r matches Some(d) ==> study_view(*d) == self.views()[id@] && d.prerequisites.wf()
                && d.prerequisites@.map_values(|e: (Seq<char>, ())| e.0) == self.prerequisite_order(id@),
    {
        proof {
            use_type_invariant(self);
        }
        let r = self.studies.get(id.as_str());
        proof {
            if r is Some {
                lemma_lookup_all(self.studies@);
                let j = choose|j: int| 0 <= j < self.studies@.len() && #[trigger] self.studies@[j].0 == id@;
                lemma_lookup_at(self.studies@, j);
                assert(self.studies@[j].1.prerequisites.wf());
            }
        }
        r
    }

    pub fn derived_study_total(&self) -> (r: usize)
        ensures
            r == self.ordered_studies().len(),
    {
        self.studies.len()
    }

    pub fn derived_capability_study_total(&self) -> (r: usize)
        ensures
            r == self.capability_entries().len(),
    {
        self.capability_to_study.len()
    }

    pub fn founding_capabilities(&self) -> (r: &IdMap<()>)
        ensures
            r.wf(),
            r.map().dom() == self.founding(),
    {
        proof {
            use_type_invariant(self);
        }
        &self.founding_capabilities
    }

    fn studies_of_kind(&self, hole_axis: bool) -> (r: Vec<&StudyDefinition>)
        ensures
            r@.map_values(|d: &StudyDefinition| study_view(*d)) == (if hole_axis {
                self.ordered_studies().filter(|v: StudyView| v.kind is HoleAxis)
            } else {
                self.ordered_studies().filter(|v: StudyView| v.kind is BoostUnlock)
            }),
    {
        let ghost pred = if hole_axis {
            |v: StudyView| v.kind is HoleAxis
        } else {
            |v: StudyView| v.kind is BoostUnlock
        };
        let ghost all = self.ordered_studies();
        let mut r: Vec<&StudyDefinition> = Vec::new();
        let n = self.studies.len();
        let mut i: usize = 0;
        while i < n
            invariant
                n == all.len(),
                all == self.ordered_studies(),
                i <= n,
                pred == (if hole_axis {
                    |v: StudyView| v.kind is HoleAxis
                } else {
                    |v: StudyView| v.kind is BoostUnlock
                }),
                r@.map_values(|d: &StudyDefinition| study_view(*d)) == all.take(i as int).filter(pred),
            decreases n - i,
        {
            let d = self.studies.value_at(i);
            let keep = match d.kind {
                StudyKind::HoleAxis { .. } => hole_axis,
                StudyKind::BoostUnlock { .. } => !hole_axis,
                _ => false,
            };
            proof {
                assert(all[i as int] == study_view(*d));
                assert(all.take(i + 1).drop_last() =~= all.take(i as int));
                assert(keep == pred(all[i as int]));
            }
            let ghost old_r = r@;
            if keep {
                r.push(d);
            }
            proof {
                reveal(Seq::filter);
                let s1 = all.take(i + 1);
                assert(s1.len() == i + 1);
                assert(s1.last() == all[i as int]);
                assert(s1.filter(pred) == (if pred(s1.last()) {
                    s1.drop_last().filter(pred).push(s1.last())
                } else {
                    s1.drop_last().filter(pred)
                }));
                if keep {
                    assert(r@ == old_r.push(d));
                    assert(r@.map_values(|d: &StudyDefinition| study_view(*d)) =~= old_r.map_values(
                        |d: &StudyDefinition| study_view(*d),
                    ).push(study_view(*d)));
                } else {
                    assert(r@ == old_r);
                }
                assert(r@.map_values(|d: &StudyDefinition| study_view(*d)) =~= all.take(i + 1).filter(pred));
            }
            i = i + 1;
        }
        proof {
            assert(all.take(n as int) =~= all);
        }
        r
    }

    pub fn hole_axis_studies(&self) -> (r: Vec<&StudyDefinition>)
        ensures
            r@.map_values(|d: &StudyDefinition| study_view(*d)) == self.ordered_studies().filter(
                |v: StudyView| v.kind is HoleAxis,
            ),
    {
        self.studies_of_kind(true)
    }

    pub fn boost_unlock_studies(&self) -> (r: Vec<&StudyDefinition>)
        ensures
            r@.map_values(|d: &StudyDefinition| study_view(*d)) == self.ordered_studies().filter(
                |v: StudyView| v.kind is BoostUnlock,
            ),
    {
        self.studies_of_kind(false)
    }
}

impl ProgressionCatalog {
    /// `Ok` exactly when the catalog keeps its rules.
    fn validate(&self) -> (r: Result<(), ProgressionError>)
        ensures
            r is Ok <==> self.valid(),
            r is Err ==> r == Err::<(), ProgressionError>(ProgressionError::ManifestInvalid),
    {
        proof {
            use_type_invariant(self);
            reveal(Seq::filter);
        }
        let ghost all = self.ordered_studies();
        let n = self.studies.len();
        if n > MAX_STUDIES {
            return Err(ProgressionError::ManifestInvalid);
        }
        let mut holes: usize = 0;
        let mut boosts: usize = 0;
        let mut seen: Vec<bool> = Vec::new();
        let mut s: usize = 0;
        while s < 33
            invariant
                s <= 33,
                seen@.len() == s,
                forall|t: int| 0 <= t < s ==> !seen@[t],
            decreases 33 - s,
        {
            seen.push(false);
            s = s + 1;
        }
        let ghost hole_pred = |v: StudyView| v.kind is HoleAxis;
        let ghost boost_pred = |v: StudyView| v.kind is BoostUnlock;
        let mut i: usize = 0;
        while i < n
            invariant
                n == all.len(),
                all == self.ordered_studies(),
                n <= MAX_STUDIES,
                i <= n,
                seen@.len() == 33,
                hole_pred == (|v: StudyView| v.kind is HoleAxis),
                boost_pred == (|v: StudyView| v.kind is BoostUnlock),
                holes == all.take(i as int).filter(hole_pred).len(),
                boosts == all.take(i as int).filter(boost_pred).len(),
                forall|j: int|
                    0 <= j < i ==> ((#[trigger] all[j]).kind matches KindView::HoleAxis { level, .. } ==> 1 <= level
                        <= 10),
                forall|j: int| 0 <= j < i ==> (#[trigger] all[j]).cost_micro != 0 && all[j].required_work_minutes != 0,
                forall|a: int, level: int|
                    0 <= a < 3 && 1 <= level <= 10 ==> (#[trigger] seen@[a * 11 + level] <==> exists|j: int|
                        0 <= j < i && #[trigger] all[j].kind == (KindView::HoleAxis { axis: axis_at(a), level: level as u8 })),
            decreases n - i,
        {
            let d = self.studies.value_at(i);
            proof {
                reveal(Seq::filter);
                assert(all[i as int] == study_view(*d));
                let s1 = all.take(i + 1);
                assert(s1.drop_last() =~= all.take(i as int));
                assert(s1.last() == all[i as int]);
                assert(s1.filter(hole_pred) == (if hole_pred(s1.last()) {
                    s1.drop_last().filter(hole_pred).push(s1.last())
                } else {
                    s1.drop_last().filter(hole_pred)
                }));
                assert(s1.filter(boost_pred) == (if boost_pred(s1.last()) {
                    s1.drop_last().filter(boost_pred).push(s1.last())
                } else {
                    s1.drop_last().filter(boost_pred)
                }));
                assert(hole_pred(all[i as int]) == (d.kind is HoleAxis));
                assert(boost_pred(all[i as int]) == (d.kind is BoostUnlock));
            }
            if d.cost_micro == 0 || d.required_work_minutes == 0 {
                return Err(ProgressionError::ManifestInvalid);
            }
            match d.kind {
                StudyKind::HoleAxis { axis, level } => {
                    if level < 1 || level > 10 {
                        return Err(ProgressionError::ManifestInvalid);
                    }
                    let a: usize = match axis {
                        HoleAxis::Width => 0,
                        HoleAxis::Depth => 1,
                        HoleAxis::Darkness => 2,
                    };
                    let ghost before = seen@;
                    seen.set(a * 11 + level as usize, true);
                    proof {
                        assert(axis_at(a as int) == axis);
                        assert forall|x: int, lv: int|
                            0 <= x < 3 && 1 <= lv <= 10 implies (#[trigger] seen@[x * 11 + lv] <==> exists|j: int|
                                0 <= j < i + 1 && #[trigger] all[j].kind == (KindView::HoleAxis {
                                    axis: axis_at(x),
                                    level: lv as u8,
                                })) by {
                            if x * 11 + lv == a * 11 + level {
                                assert(x == a && lv == level) by (nonlinear_arith)
                                    requires
                                        x * 11 + lv == a * 11 + level,
                                        0 <= x < 3,
                                        1 <= lv <= 10,
                                        0 <= a < 3,
                                        1 <= level <= 10,
                                ;
                                assert(all[i as int].kind == (KindView::HoleAxis { axis: axis_at(x), level: lv as u8 }));
                            } else {
                                assert(seen@[x * 11 + lv] == before[x * 11 + lv]);
                                if all[i as int].kind == (KindView::HoleAxis { axis: axis_at(x), level: lv as u8 }) {
                                    assert(axis_at(x) == axis_at(a as int));
                                    assert(x == a);
                                }
                            }
                        }
                    }
                    holes = holes + 1;
                },
                StudyKind::BoostUnlock { .. } => {
                    proof {
                        assert forall|x: int, lv: int|
                            0 <= x < 3 && 1 <= lv <= 10 implies (#[trigger] seen@[x * 11 + lv] <==> exists|j: int|
                                0 <= j < i + 1 && #[trigger] all[j].kind == (KindView::HoleAxis {
                                    axis: axis_at(x),
                                    level: lv as u8,
                                })) by {
                            assert(!(all[i as int].kind is HoleAxis));
                        }
                    }
                    boosts = boosts + 1;
                },
                _ => {
                    proof {
                        assert forall|x: int, lv: int|
                            0 <= x < 3 && 1 <= lv <= 10 implies (#[trigger] seen@[x * 11 + lv] <==> exists|j: int|
                                0 <= j < i + 1 && #[trigger] all[j].kind == (KindView::HoleAxis {
                                    axis: axis_at(x),
                                    level: lv as u8,
                                })) by {
                            assert(!(all[i as int].kind is HoleAxis));
                        }
                    }
                },
            }
            i = i + 1;
        }
        proof {
            assert(all.take(n as int) =~= all);
        }
        if holes != HOLE_AXIS_STUDY_COUNT || boosts != BOOST_UNLOCK_STUDY_COUNT {
            return Err(ProgressionError::ManifestInvalid);
        }
        proof {
            assert forall|x: int, lv: int|
                0 <= x < 3 && 1 <= lv <= 10 implies (#[trigger] seen@[x * 11 + lv] <==> axis_level_present(all, x, lv)) by {
                if seen@[x * 11 + lv] {
                    let j = choose|j: int|
                        0 <= j < n && #[trigger] all[j].kind == (KindView::HoleAxis { axis: axis_at(x), level: lv as u8 });
                    assert(all[j].kind == (KindView::HoleAxis { axis: axis_at(x), level: lv as u8 }));
                }
                if axis_level_present(all, x, lv) {
                    let j = choose|j: int|
                        0 <= j < all.len() && #[trigger] all[j].kind == (KindView::HoleAxis { axis: axis_at(x), level: lv as u8 });
                    assert(0 <= j < n && all[j].kind == (KindView::HoleAxis { axis: axis_at(x), level: lv as u8 }));
                }
            }
        }
        let mut a: usize = 0;
        while a < 3
            invariant
                all == self.ordered_studies(),
                a <= 3,
                seen@.len() == 33,
                forall|x: int, lv: int|
                    0 <= x < 3 && 1 <= lv <= 10 ==> (#[trigger] seen@[x * 11 + lv] <==> axis_level_present(all, x, lv)),
                forall|x: int, level: int| 0 <= x < a && 1 <= level <= 10 ==> #[trigger] seen@[x * 11 + level],
            decreases 3 - a,
        {
            let mut level: usize = 1;
            while level <= 10
                invariant
                    all == self.ordered_studies(),
                    a < 3,
                    1 <= level <= 11,
                    seen@.len() == 33,
                    forall|x: int, lv: int|
                        0 <= x < 3 && 1 <= lv <= 10 ==> (#[trigger] seen@[x * 11 + lv] <==> axis_level_present(all, x, lv)),
                    forall|x: int, lv: int| 0 <= x < a && 1 <= lv <= 10 ==> #[trigger] seen@[x * 11 + lv],
                    forall|lv: int| 1 <= lv < level ==> #[trigger] seen@[a * 11 + lv],
                decreases 11 - level,
            {
                if !seen[a * 11 + level] {
                    proof {
                        assert(!axis_level_present(all, a as int, level as int));
                    }
                    return Err(ProgressionError::ManifestInvalid);
                }
                level = level + 1;
            }
            a = a + 1;
        }
        proof {
            assert forall|x: int, level: int| 0 <= x < 3 && 1 <= level <= 10 implies #[trigger] axis_level_present(
                all,
                x,
                level,
            ) by {
                assert(seen@[x * 11 + level]);
            }
        }
        let mut i: usize = 0;
        while i < n
            invariant
                n == all.len(),
                all == self.ordered_studies(),
                self.studies.wf(),
                forall|j: int|
                    0 <= j < self.studies@.len() ==> (#[trigger] self.studies@[j]).1.id@ == self.studies@[j].0
                        && self.studies@[j].1.prerequisites.wf(),
                i <= n,
                forall|j: int, p: Seq<char>|
                    0 <= j < i && #[trigger] all[j].prerequisites.contains(p) ==> exists|t: int|
                        0 <= t < n && #[trigger] all[t].id == p,
            decreases n - i,
        {
            let d = self.studies.value_at(i);
            let m = d.prerequisites.len();
            let mut k: usize = 0;
            while k < m
                invariant
                    n == all.len(),
                    all == self.ordered_studies(),
                    self.studies.wf(),
                    forall|j: int|
                        0 <= j < self.studies@.len() ==> (#[trigger] self.studies@[j]).1.id@ == self.studies@[j].0
                            && self.studies@[j].1.prerequisites.wf(),
                    i < n,
                    *d == self.studies@[i as int].1,
                    m == d.prerequisites@.len(),
                    k <= m,
                    forall|t: int| 0 <= t < k ==> exists|u: int| 0 <= u < n && #[trigger] all[u].id == (#[trigger] d.prerequisites@[t]).0,
                decreases m - k,
            {
                let p = d.prerequisites.key_at(k);
                if !self.studies.contains_key(p.as_str()) {
                    proof {
                        assert(all[i as int].prerequisites.contains(p@)) by {
                            lemma_lookup_all(d.prerequisites@);
                        }
                        assert(!catalog_rules(all, self.capability_entries())) by {
                            if catalog_rules(all, self.capability_entries()) {
                                assert(exists|t: int| 0 <= t < all.len() && #[trigger] all[t].id == p@);
                                let t = choose|t: int| 0 <= t < all.len() && #[trigger] all[t].id == p@;
                                assert(all[t].id == self.studies@[t].0);
                                assert(has_key(self.studies@, p@));
                            }
                        }
                        assert forall|u: int| 0 <= u < n implies #[trigger] all[u].id != p@ by {
                            assert(all[u].id == self.studies@[u].0);
                            assert(has_key(self.studies@, self.studies@[u].0));
                        }
                    }
                    return Err(ProgressionError::ManifestInvalid);
                }
                proof {
                    let u = choose|u: int| 0 <= u < self.studies@.len() && #[trigger] self.studies@[u].0 == p@;
                    assert(all[u].id == p@);
                }
                k = k + 1;
            }
            proof {
                assert forall|j: int, p: Seq<char>|
                    0 <= j < i + 1 && #[trigger] all[j].prerequisites.contains(p) implies exists|t: int|
                        0 <= t < n && #[trigger] all[t].id == p by {
                    if j == i {
                        let t = choose|t: int| 0 <= t < m && #[trigger] d.prerequisites@[t].0 == p;
                        assert(exists|u: int| 0 <= u < n && #[trigger] all[u].id == d.prerequisites@[t].0);
                    }
                }
            }
            i = i + 1;
        }
        let ghost caps = self.capability_entries();
        let c = self.capability_to_study.len();
        let mut plank_count: usize = 0;
        let mut plank_found = false;
        let ghost plank_pred = |e: (Seq<char>, Seq<char>)| text_contains(e.0, "plank"@);
        let mut i: usize = 0;
        while i < c
            invariant
                c == caps.len(),
                caps == self.capability_entries(),
                i <= c,
                plank_pred == (|e: (Seq<char>, Seq<char>)| text_contains(e.0, "plank"@)),
                plank_count == caps.take(i as int).filter(plank_pred).len(),
                plank_count <= i,
                plank_found == exists|j: int| 0 <= j < i && #[trigger] caps[j] == ("plank_processing"@, "plank_processing"@),
            decreases c - i,
        {
            let key = self.capability_to_study.key_at(i);
            let study = self.capability_to_study.value_at(i);
            proof {
                reveal(Seq::filter);
                assert(caps[i as int] == (key@, study@));
                let s1 = caps.take(i + 1);
                assert(s1.drop_last() =~= caps.take(i as int));
                assert(s1.last() == caps[i as int]);
                assert(s1.filter(plank_pred) == (if plank_pred(s1.last()) {
                    s1.drop_last().filter(plank_pred).push(s1.last())
                } else {
                    s1.drop_last().filter(plank_pred)
                }));
            }
            if contains_text(key.as_str(), "plank") {
                plank_count = plank_count + 1;
            }
            if text_eq(key.as_str(), "plank_processing") && text_eq(study.as_str(), "plank_processing") {
                plank_found = true;
            }
            i = i + 1;
        }
        proof {
            assert(caps.take(c as int) =~= caps);
        }
        if !plank_found || plank_count != 1 {
            return Err(ProgressionError::ManifestInvalid);
        }
        Ok(())
    }
}

/// The hole level a study identifier names, or zero.
pub open spec fn hole_level_of(id: Seq<char>) -> int {
    match hole_axis_of(id) {
        Some((_, level)) => level as int,
        None => 0,
    }
}

/// The prerequisites a capability's study keeps: those not owned from the founding.
pub open spec fn study_prerequisites(prerequisites: Seq<CapabilityId>, founding: Set<Seq<char>>) -> Set<Seq<char>> {
    Set::new(|p: Seq<char>| (exists|t: int| 0 <= t < prerequisites.len() && #[trigger] prerequisites[t]@ == p) && !founding.contains(p))
}

/// The study a researchable capability becomes.
pub open spec fn capability_study(c: ManifestCapability, founding: Set<Seq<char>>) -> StudyView {
    let level = hole_level_of(c.id@);
    StudyView {
        id: c.id@,
        display_name: c.display_name@,
        order: c.order,
        kind: match hole_axis_of(c.id@) {
            Some((axis, level)) => KindView::HoleAxis { axis, level },
            None => KindView::OrdinaryCapability { capability_id: c.id@ },
        },
        prerequisites: study_prerequisites(c.prerequisites@, founding),
        cost_micro: if level == 0 {
            ((c.order + 1) * 10_000) as u64
        } else {
            (level * MICRO_UNITS_PER_WHOLE) as u64
        },
        required_work_minutes: (c.order + 60) as u64,
    }
}

proof fn lemma_entries_of_map(m: IdMap<StudyDefinition>)
    requires
        m.wf(),
        forall|k: Seq<char>| #[trigger] m.map().contains_key(k) ==> m.map()[k].id@ == k && m.map()[k].prerequisites.wf(),
    ensures
        forall|j: int| 0 <= j < m@.len() ==> (#[trigger] m@[j]).1.id@ == m@[j].0 && m@[j].1.prerequisites.wf(),
{
    lemma_lookup_all(m@);
    assert forall|j: int| 0 <= j < m@.len() implies (#[trigger] m@[j]).1.id@ == m@[j].0 && m@[j].1.prerequisites.wf() by {
        lemma_lookup_at(m@, j);
        assert(m.map().contains_key(m@[j].0));
    }
}

fn capability_prerequisites(prerequisites: &Vec<CapabilityId>, founding: &IdMap<()>) -> (r: IdMap<()>)
    requires
        founding.wf(),
    ensures
        r.wf(),
        r.map().dom() == study_prerequisites(prerequisites@, founding.map().dom()),
{
    let mut r: IdMap<()> = IdMap::new();
    let n = prerequisites.len();
    let mut i: usize = 0;
    while i < n
        invariant
            n == prerequisites@.len(),
            i <= n,
            founding.wf(),
            r.wf(),
            r.map().dom() == Set::new(
                |p: Seq<char>|
                    (exists|t: int| 0 <= t < i && #[trigger] prerequisites@[t]@ == p) && !founding.map().dom().contains(p),
            ),
        decreases n - i,
    {
        let p = &prerequisites[i];
        let ghost before = r.map().dom();
        if !founding.contains_key(p.as_str()) {
            r.insert(String::from_str(p.as_str()), ());
        }
        proof {
            assert(r.map().dom() =~= Set::new(
                |q: Seq<char>|
                    (exists|t: int| 0 <= t < i + 1 && #[trigger] prerequisites@[t]@ == q) && !founding.map().dom().contains(q),
            )) by {
                assert forall|q: Seq<char>|
                    (exists|t: int| 0 <= t < i + 1 && #[trigger] prerequisites@[t]@ == q) && !founding.map().dom().contains(q)
                        implies r.map().dom().contains(q) by {
                    let t = choose|t: int| 0 <= t < i + 1 && #[trigger] prerequisites@[t]@ == q;
                    if t < i {
                        assert(before.contains(q));
                    }
                }
            }
        }
        i = i + 1;
    }
    proof {
        assert(r.map().dom() =~= study_prerequisites(prerequisites@, founding.map().dom()));
    }
    r
}

fn capability_definition(c: &ManifestCapability, founding: &IdMap<()>) -> (r: StudyDefinition)
    requires
        founding.wf(),
    ensures
        study_view(r) == capability_study(*c, founding.map().dom()),
        r.prerequisites.wf(),
        r.id@ == c.id@,
{
    let id = StudyId::from_capability(&c.id);
    let axis = parse_hole_axis(&id);
    let (kind, level) = match axis {
        Some((axis, level)) => (StudyKind::HoleAxis { axis, level }, level as u64),
        None => (StudyKind::OrdinaryCapability { capability_id: String::from_str(c.id.as_str()) }, 0u64),
    };
    let cost_micro: u64 = if level == 0 {
        (c.order as u64 + 1) * 10_000
    } else {
        level * MICRO_UNITS_PER_WHOLE
    };
    let prerequisites = capability_prerequisites(&c.prerequisites, founding);
    StudyDefinition {
        id,
        display_name: String::from_str(c.display_name.as_str()),
        order: c.order,
        kind,
        prerequisites,
        cost_micro,
        required_work_minutes: c.order as u64 + 60,
    }
}

/// The founding capabilities as a set.
pub open spec fn founding_set(founding: Seq<CapabilityId>) -> Set<Seq<char>> {
    Set::new(|k: Seq<char>| exists|t: int| 0 <= t < founding.len() && #[trigger] founding[t]@ == k)
}

/// Some capability not owned from the founding has identifier `k`.
pub open spec fn researchable_id(capabilities: Seq<ManifestCapability>, k: Seq<char>) -> bool {
    exists|i: int| 0 <= i < capabilities.len() && !(#[trigger] capabilities[i]).founding_owned && capabilities[i].id@ == k
}

/// The studies the capabilities build: one per capability not owned from the
/// founding, with the divine boost studies taking their identifiers.
pub open spec fn built_views(fset: Set<Seq<char>>, capabilities: Seq<ManifestCapability>) -> Map<Seq<char>, StudyView> {
    Map::new(
        |k: Seq<char>| researchable_id(capabilities, k) || is_boost_study_id(k),
        |k: Seq<char>|
            if is_boost_study_id(k) {
                boost_study(choose|i: int| 0 <= i < 26 && #[trigger] boost_study(i).id == k)
            } else {
                capability_study(
                    capabilities[choose|i: int|
                        0 <= i < capabilities.len() && !(#[trigger] capabilities[i]).founding_owned && capabilities[i].id@ == k],
                    fset,
                )
            },
    )
}

/// The capability index the capabilities build: each researchable capability
/// to the study of the same identifier.
pub open spec fn built_capability_map(capabilities: Seq<ManifestCapability>) -> Map<Seq<char>, Seq<char>> {
    Map::new(|k: Seq<char>| researchable_id(capabilities, k), |k: Seq<char>| k)
}

/// The capabilities build a catalog: every founding-owned capability is in the
/// founding list, no two researchable capabilities share an identifier, and the
/// catalog they build keeps the catalog rules.
pub open spec fn manifest_buildable(founding: Seq<CapabilityId>, capabilities: Seq<ManifestCapability>) -> bool {
    let fset = founding_set(founding);
    &&& forall|i: int| 0 <= i < capabilities.len() && (#[trigger] capabilities[i]).founding_owned ==> fset.contains(capabilities[i].id@)
    &&& forall|i: int, j: int|
        0 <= i < j < capabilities.len() && !(#[trigger] capabilities[i]).founding_owned && !(#[trigger] capabilities[j]).founding_owned
            ==> capabilities[i].id@ != capabilities[j].id@
    &&& exists|c: ProgressionCatalog| #[trigger] c.built_from(fset, capabilities) && c.valid()
}

/// What the content manifest reports of itself that the catalog build checks:
/// whether it passes its own validation, the founding capabilities it
/// requires, the resources it makes freely available at the founding, and
/// how many capabilities it derives.
#[derive(Debug, Clone, PartialEq, Eq)]
pub struct ManifestFacts {
    pub manifest_valid: bool,
    pub required_founding: Vec<CapabilityId>,
    pub free_founding_resources: Vec<String>,
    pub derived_capability_total: usize,
}

/// Some entry of `v` reads `t`.
pub open spec fn lists_text(v: Seq<String>, t: Seq<char>) -> bool {
    exists|i: int| 0 <= i < v.len() && (#[trigger] v[i])@ == t
}

/// The manifest's own facts allow a build over founding list `founding`.
pub open spec fn manifest_facts_ok(facts: ManifestFacts, founding: Seq<CapabilityId>) -> bool {
    &&& founding_set(founding) == founding_set(facts.required_founding@)
    &&& lists_text(facts.free_founding_resources@, "logs"@)
    &&& lists_text(facts.free_founding_resources@, "stone"@)
}

fn key_set(v: &Vec<CapabilityId>) -> (r: IdMap<()>)
    ensures
        r.wf(),
        r.map().dom() == founding_set(v@),
{
    let mut r: IdMap<()> = IdMap::new();
    let mut i: usize = 0;
    while i < v.len()
        invariant
            i <= v@.len(),
            r.wf(),
            r.map().dom() == Set::new(|k: Seq<char>| exists|t: int| 0 <= t < i && #[trigger] v@[t]@ == k),
        decreases v@.len() - i,
    {
        let ghost before = r.map().dom();
        r.insert(String::from_str(v[i].as_str()), ());
        proof {
            assert(r.map().dom() =~= Set::new(|k: Seq<char>| exists|t: int| 0 <= t < i + 1 && #[trigger] v@[t]@ == k)) by {
                assert forall|k: Seq<char>| (exists|t: int| 0 <= t < i + 1 && #[trigger] v@[t]@ == k) implies r.map().dom().contains(k) by {
                    let t = choose|t: int| 0 <= t < i + 1 && #[trigger] v@[t]@ == k;
                    if t < i {
                        assert(before.contains(k));
                    }
                }
            }
        }
        i = i + 1;
    }
    proof {
        assert(r.map().dom() =~= founding_set(v@));
    }
    r
}

fn same_keys(a: &IdMap<()>, b: &IdMap<()>) -> (r: bool)
    requires
        a.wf(),
        b.wf(),
    ensures
        r == (a.map().dom() == b.map().dom()),
{
    proof {
        crate::id_map::lemma_map_len(a@);
        crate::id_map::lemma_map_len(b@);
        lemma_lookup_all(a@);
    }
    if a.len() != b.len() {
        proof {
            if a.map().dom() == b.map().dom() {
                assert(a.map().len() == b.map().len());
            }
        }
        return false;
    }
    let mut i: usize = 0;
    while i < a.len()
        invariant
            a.wf(),
            b.wf(),
            i <= a@.len(),
            forall|j: int| 0 <= j < i ==> b.map().contains_key(#[trigger] a@[j].0),
        decreases a@.len() - i,
    {
        if !b.contains_key(a.key_at(i).as_str()) {
            proof {
                lemma_lookup_all(a@);
                assert(a.map().contains_key(a@[i as int].0));
            }
            return false;
        }
        i = i + 1;
    }
    proof {
        lemma_lookup_all(a@);
        assert(a.map().dom().subset_of(b.map().dom())) by {
            assert forall|k: Seq<char>| a.map().dom().contains(k) implies b.map().dom().contains(k) by {
                let j = choose|j: int| 0 <= j < a@.len() && #[trigger] a@[j].0 == k;
            }
        }
        vstd::set_lib::lemma_subset_equality(a.map().dom(), b.map().dom());
        crate::id_map::lemma_map_len(a@);
        crate::id_map::lemma_map_len(b@);
        assert(a.map().dom().len() == a.map().len());
        vstd::set_lib::lemma_len_subset(a.map().dom(), b.map().dom());
        if a.map().dom() != b.map().dom() {
            let x = choose|x: Seq<char>| b.map().dom().contains(x) && !a.map().dom().contains(x);
            vstd::set_lib::lemma_len_subset(a.map().dom().insert(x), b.map().dom());
        }
    }
    true
}

fn lists(v: &Vec<String>, t: &str) -> (r: bool)
    ensures
        r == lists_text(v@, t@),
{
    let mut i: usize = 0;
    while i < v.len()
        invariant
            i <= v@.len(),
            forall|j: int| 0 <= j < i ==> (#[trigger] v@[j])@ != t@,
        decreases v@.len() - i,
    {
        if text_eq(v[i].as_str(), t) {
            return true;
        }
        i = i + 1;
    }
    false
}

impl ProgressionCatalog {
    /// Build the catalog from the manifest's capabilities: every capability not
    /// owned from the founding becomes a study (hole axis studies by their
    /// identifier), the divine boost studies are added, and the result must
    /// keep the catalog rules.
    #[verifier::spinoff_prover]
    #[verifier::rlimit(40)]
    pub fn from_capabilities(
        founding_capabilities: &Vec<CapabilityId>,
        capabilities: &Vec<ManifestCapability>,
        facts: &ManifestFacts,
    ) -> (r: Result<Self, ProgressionError>)
        ensures
            !facts.manifest_valid ==> r == Err::<Self, ProgressionError>(ProgressionError::ManifestInvalid),
            facts.manifest_valid && capabilities@.len() > MAX_STUDIES ==> r == Err::<Self, ProgressionError>(
                ProgressionError::CapacityExceeded,
            ),
            facts.manifest_valid && capabilities@.len() <= MAX_STUDIES ==> (r is Ok <==> {
                &&& manifest_facts_ok(*facts, founding_capabilities@)
                &&& manifest_buildable(founding_capabilities@, capabilities@)
                &&& facts.derived_capability_total == built_capability_map(capabilities@).dom().len() + founding_set(
                    founding_capabilities@,
                ).len()
            }),
            r matches Ok(catalog) ==> catalog.built_from(founding_set(founding_capabilities@), capabilities@),
            r is Err ==> r == Err::<Self, ProgressionError>(ProgressionError::CapacityExceeded) || r == Err::<
                Self,
                ProgressionError,
            >(ProgressionError::ManifestInvalid),
            r matches Ok(catalog) ==> {
                &&& catalog.valid()
                &&& catalog.founding() == Set::new(
                    |k: Seq<char>| exists|t: int| 0 <= t < founding_capabilities@.len() && #[trigger] founding_capabilities@[t]@ == k,
                )
                &&& forall|i: int|
                    0 <= i < capabilities@.len() && (#[trigger] capabilities@[i]).founding_owned ==> catalog.founding().contains(
                        capabilities@[i].id@,
                    )
                &&& forall|i: int|
                    0 <= i < capabilities@.len() && !(#[trigger] capabilities@[i]).founding_owned && !is_boost_study_id(
                        capabilities@[i].id@,
                    ) ==> catalog.views().contains_key(capabilities@[i].id@) && catalog.views()[capabilities@[i].id@]
                        == capability_study(capabilities@[i], catalog.founding())
                &&& forall|i: int|
                    0 <= i < 26 ==> #[trigger] catalog.views().contains_key(boost_study(i).id) && catalog.views()[boost_study(
                        i,
                    ).id] == boost_study(i)
            },
    {
        if !facts.manifest_valid {
            return Err(ProgressionError::ManifestInvalid);
        }
        if capabilities.len() > MAX_STUDIES {
            return Err(ProgressionError::CapacityExceeded);
        }
        let given = key_set(founding_capabilities);
        let required = key_set(&facts.required_founding);
        if !same_keys(&given, &required) {
            return Err(ProgressionError::ManifestInvalid);
        }
        if !lists(&facts.free_founding_resources, "logs") || !lists(&facts.free_founding_resources, "stone") {
            return Err(ProgressionError::ManifestInvalid);
        }
        proof {
            assert(manifest_facts_ok(*facts, founding_capabilities@));
        }
        let mut founding: IdMap<()> = IdMap::new();
        let nf = founding_capabilities.len();
        let mut i: usize = 0;
        while i < nf
            invariant
                nf == founding_capabilities@.len(),
                i <= nf,
                founding.wf(),
                founding.map().dom() == Set::new(
                    |k: Seq<char>| exists|t: int| 0 <= t < i && #[trigger] founding_capabilities@[t]@ == k,
                ),
            decreases nf - i,
        {
            let ghost before = founding.map().dom();
            founding.insert(String::from_str(founding_capabilities[i].as_str()), ());
            proof {
                assert(founding.map().dom() =~= Set::new(
                    |k: Seq<char>| exists|t: int| 0 <= t < i + 1 && #[trigger] founding_capabilities@[t]@ == k,
                )) by {
                    assert forall|k: Seq<char>|
                        (exists|t: int| 0 <= t < i + 1 && #[trigger] founding_capabilities@[t]@ == k) implies founding.map().dom().contains(
                        k,
                    ) by {
                        let t = choose|t: int| 0 <= t < i + 1 && #[trigger] founding_capabilities@[t]@ == k;
                        if t < i {
                            assert(before.contains(k));
                        }
                    }
                }
            }
            i = i + 1;
        }
        let ghost fset = founding.map().dom();
        proof {
            assert(fset =~= founding_set(founding_capabilities@));
        }
        let ghost caps = capabilities@;
        let mut studies: IdMap<StudyDefinition> = IdMap::new();
        let mut capability_to_study: IdMap<StudyId> = IdMap::new();
        let n = capabilities.len();
        let mut i: usize = 0;
        while i < n
            invariant
                n == capabilities@.len(),
                n <= MAX_STUDIES,
                i <= n,
                founding.wf(),
                fset == founding.map().dom(),
                studies.wf(),
                capability_to_study.wf(),
                forall|k: Seq<char>|
                    #[trigger] studies.map().contains_key(k) ==> studies.map()[k].id@ == k
                        && studies.map()[k].prerequisites.wf(),
                forall|j: int| 0 <= j < i && (#[trigger] capabilities@[j]).founding_owned ==> fset.contains(capabilities@[j].id@),
                forall|j: int|
                    0 <= j < i && !(#[trigger] capabilities@[j]).founding_owned ==> studies.map().contains_key(
                        capabilities@[j].id@,
                    ) && study_view(studies.map()[capabilities@[j].id@]) == capability_study(capabilities@[j], fset),
                caps == capabilities@,
                fset == founding_set(founding_capabilities@),
                forall|a: int, b: int|
                    0 <= a < b < i && !(#[trigger] caps[a]).founding_owned && !(#[trigger] caps[b]).founding_owned ==> caps[a].id@
                        != caps[b].id@,
                forall|k: Seq<char>|
                    #[trigger] studies.map().contains_key(k) <==> exists|j: int|
                        0 <= j < i && !(#[trigger] caps[j]).founding_owned && caps[j].id@ == k,
                forall|k: Seq<char>|
                    #[trigger] capability_to_study.map().contains_key(k) <==> exists|j: int|
                        0 <= j < i && !(#[trigger] caps[j]).founding_owned && caps[j].id@ == k,
                forall|k: Seq<char>| #[trigger] capability_to_study.map().contains_key(k) ==> capability_to_study.map()[k]@ == k,
            decreases n - i,
        {
            let c = &capabilities[i];
            if c.founding_owned {
                if !founding.contains_key(c.id.as_str()) {
                    proof {
                        assert(!manifest_buildable(founding_capabilities@, capabilities@));
                    }
                    return Err(ProgressionError::ManifestInvalid);
                }
            } else {
                let definition = capability_definition(c, &founding);
                let ghost dv = definition;
                let key = String::from_str(c.id.as_str());
                let study_id = StudyId::from_capability(&c.id);
                let ghost before = studies.map();
                let ghost cap_before = capability_to_study.map();
                let previous = studies.insert(key, definition);
                if previous.is_some() {
                    proof {
                        let j = choose|j: int| 0 <= j < i && !(#[trigger] caps[j]).founding_owned && caps[j].id@ == c.id@;
                        assert(!manifest_buildable(founding_capabilities@, capabilities@));
                    }
                    return Err(ProgressionError::ManifestInvalid);
                }
                let indexed = capability_to_study.insert(String::from_str(c.id.as_str()), study_id);
                if indexed.is_some() {
                    proof {
                        let j = choose|j: int| 0 <= j < i && !(#[trigger] caps[j]).founding_owned && caps[j].id@ == c.id@;
                        assert(before.contains_key(c.id@));
                    }
                    return Err(ProgressionError::ManifestInvalid);
                }
                proof {
                    assert forall|k: Seq<char>|
                        #[trigger] studies.map().contains_key(k) <==> exists|j: int|
                            0 <= j < i + 1 && !(#[trigger] caps[j]).founding_owned && caps[j].id@ == k by {
                        if k == c.id@ {
                            assert(caps[i as int].id@ == k);
                        } else if studies.map().contains_key(k) {
                            assert(before.contains_key(k));
                        }
                    }
                    assert forall|k: Seq<char>|
                        #[trigger] capability_to_study.map().contains_key(k) <==> exists|j: int|
                            0 <= j < i + 1 && !(#[trigger] caps[j]).founding_owned && caps[j].id@ == k by {
                        if k == c.id@ {
                            assert(caps[i as int].id@ == k);
                        } else if capability_to_study.map().contains_key(k) {
                            assert(cap_before.contains_key(k));
                        }
                    }
                    assert forall|a: int, b: int|
                        0 <= a < b < i + 1 && !(#[trigger] caps[a]).founding_owned && !(#[trigger] caps[b]).founding_owned
                            implies caps[a].id@ != caps[b].id@ by {
                        if b == i && caps[a].id@ == caps[b].id@ {
                            assert(before.contains_key(caps[a].id@));
                        }
                    }
                }
                proof {
                    assert(studies.map()[c.id@] == dv);
                    assert forall|j: int|
                        0 <= j < i && !(#[trigger] capabilities@[j]).founding_owned implies capabilities@[j].id@ != c.id@ by {
                        if capabilities@[j].id@ == c.id@ {
                            assert(false);
                        }
                    }
                }
            }
            i = i + 1;
        }
        let ghost studies_before_boost = studies.map();
        let boosted = add_boost_studies(&mut studies);
        proof {
            lemma_entries_of_map(studies);
        }
        let catalog = ProgressionCatalog { studies, founding_capabilities: founding, capability_to_study };
        proof {
            let views = built_views(fset, caps);
            assert forall|k: Seq<char>| #[trigger] catalog.views().contains_key(k) <==> views.contains_key(k) by {
                if researchable_id(caps, k) {
                    let j = choose|j: int| 0 <= j < caps.len() && !(#[trigger] caps[j]).founding_owned && caps[j].id@ == k;
                    assert(caps[j].id@ == k);
                }
            }
            assert forall|k: Seq<char>| #[trigger] catalog.views().contains_key(k) implies catalog.views()[k] == views[k] by {
                if is_boost_study_id(k) {
                    let b = choose|b: int| 0 <= b < 26 && #[trigger] boost_study(b).id == k;
                    assert(catalog.studies.map().contains_key(boost_study(b).id));
                } else {
                    let j = choose|j: int| 0 <= j < caps.len() && !(#[trigger] caps[j]).founding_owned && caps[j].id@ == k;
                    assert(studies_before_boost.contains_key(caps[j].id@));
                }
            }
            assert(catalog.views() =~= views);
            assert(catalog.capability_map() =~= built_capability_map(caps));
            assert(catalog.built_from(fset, caps));
        }
        match catalog.validate() {
            Ok(()) => {},
            Err(e) => {
                proof {
                    assert forall|c: ProgressionCatalog| #[trigger] c.built_from(fset, caps) implies !c.valid() by {
                        ProgressionCatalog::lemma_valid_determined(c, catalog);
                    }
                }
                return Err(e);
            },
        }
        let cap_total = catalog.capability_to_study.len();
        let founding_total = catalog.founding_capabilities.len();
        proof {
            crate::id_map::lemma_map_len(catalog.capability_to_study@);
            crate::id_map::lemma_map_len(catalog.founding_capabilities@);
            assert(catalog.capability_map().dom() == catalog.capability_to_study.map().dom());
            assert(built_capability_map(caps).dom().len() == cap_total);
            assert(fset.len() == founding_total);
        }
        if facts.derived_capability_total < cap_total || facts.derived_capability_total - cap_total != founding_total {
            return Err(ProgressionError::ManifestInvalid);
        }
        Ok(catalog)
    }
}

#[derive(Debug, Clone, Copy, PartialEq, Eq, Structural)]
pub enum CurrencyCommitOutcome {
    Committed,
    AlreadyCommitted,
    RetiredReplay,
}

#[derive(Debug, Clone, Copy, PartialEq, Eq, Structural)]
pub enum VoidDebitPurpose {
    HoleStudy,
    BoostStudy,
    BoostActivation,
    ConstructionMiracle,
    EmergencyRescue,
}

#[derive(Debug, Clone, PartialEq, Eq)]
pub struct CurrencyDebitReceipt {
    pub id: CurrencyEventId,
    pub amount_micro: u64,
    pub fingerprint: u64,
    pub void_purpose: Option<VoidDebitPurpose>,
    pub committed_version: u64,
}

#[derive(Debug, Clone, PartialEq, Eq)]
pub struct ResearchNotesSpendRequest {
    pub id: CurrencyEventId,
    pub amount: ResearchNotes,
    pub expected_version: u64,
    pub fingerprint: u64,
}

#[derive(Debug, Clone, PartialEq, Eq)]
pub struct HoleVoidCreditPayload {
    pub partition: ColonyPartitionKey,
    pub feed_sequence: u64,
    pub amount: VoidInsight,
}

#[derive(Debug, Clone, PartialEq, Eq)]
pub struct VoidSpendRequest {
    pub id: CurrencyEventId,
    pub amount: VoidInsight,
    pub purpose: VoidDebitPurpose,
    pub expected_version: u64,
    pub fingerprint: u64,
}

/// What every stored receipt satisfies: it is filed under its own id, moves a
/// non-zero amount, carries a purpose exactly on the Void ledger, and was
/// committed at a distinct version no later than `version`.
pub open spec fn receipts_valid(m: Map<Seq<char>, CurrencyDebitReceipt>, version: u64, void: bool) -> bool {
    &&& forall|k: Seq<char>| #[trigger] m.contains_key(k) ==> {
        &&& m[k].id@ == k
        &&& m[k].amount_micro != 0
        &&& (m[k].void_purpose is Some) == void
        &&& 1 <= m[k].committed_version <= version
    }
    &&& forall|k1: Seq<char>, k2: Seq<char>|
        #[trigger] m.contains_key(k1) && #[trigger] m.contains_key(k2) && k1 != k2
            ==> m[k1].committed_version != m[k2].committed_version
}

/// The same conditions read position by position over sorted entries.
pub open spec fn receipt_entry_ok(e: (Seq<char>, CurrencyDebitReceipt), version: u64, void: bool) -> bool {
    &&& e.1.id@ == e.0
    &&& e.1.amount_micro != 0
    &&& (e.1.void_purpose is Some) == void
    &&& 1 <= e.1.committed_version <= version
}

pub open spec fn receipt_entries_valid(s: Seq<(Seq<char>, CurrencyDebitReceipt)>, version: u64, void: bool) -> bool {
    &&& forall|i: int| 0 <= i < s.len() ==> receipt_entry_ok(#[trigger] s[i], version, void)
    &&& forall|i: int, j: int|
        0 <= i < s.len() && 0 <= j < s.len() && i != j
            ==> #[trigger] s[i].1.committed_version != #[trigger] s[j].1.committed_version
}

proof fn lemma_receipts_entries_map(s: Seq<(Seq<char>, CurrencyDebitReceipt)>, version: u64, void: bool)
    requires
        keys_sorted(s),
    ensures
        receipt_entries_valid(s, version, void) == receipts_valid(entries_map(s), version, void),
{
    let m = entries_map(s);
    lemma_lookup_all(s);
    if receipt_entries_valid(s, version, void) {
        assert forall|k: Seq<char>| #[trigger] m.contains_key(k) implies {
            &&& m[k].id@ == k
            &&& m[k].amount_micro != 0
            &&& (m[k].void_purpose is Some) == void
            &&& 1 <= m[k].committed_version <= version
        } by {
            let i = choose|i: int| 0 <= i < s.len() && #[trigger] s[i].0 == k;
            lemma_lookup_at(s, i);
            assert(receipt_entry_ok(s[i], version, void));
        }
        assert forall|k1: Seq<char>, k2: Seq<char>|
            #[trigger] m.contains_key(k1) && #[trigger] m.contains_key(k2) && k1 != k2
                implies m[k1].committed_version != m[k2].committed_version by {
            let i = choose|i: int| 0 <= i < s.len() && #[trigger] s[i].0 == k1;
            let j = choose|j: int| 0 <= j < s.len() && #[trigger] s[j].0 == k2;
            lemma_lookup_at(s, i);
            lemma_lookup_at(s, j);
            assert(s[i].1.committed_version != s[j].1.committed_version);
        }
    }
    if receipts_valid(m, version, void) {
        assert forall|i: int| 0 <= i < s.len() implies receipt_entry_ok(#[trigger] s[i], version, void) by {
            lemma_lookup_at(s, i);
            assert(m.contains_key(s[i].0));
        }
        assert forall|i: int, j: int|
            0 <= i < s.len() && 0 <= j < s.len() && i != j
                implies #[trigger] s[i].1.committed_version != #[trigger] s[j].1.committed_version by {
            lemma_lookup_at(s, i);
            lemma_lookup_at(s, j);
            if i < j {
                assert(text_lt(s[i].0, s[j].0));
            } else {
                assert(text_lt(s[j].0, s[i].0));
            }
            if s[i].0 == s[j].0 {
                lemma_text_lt_irreflexive(s[i].0);
            }
            assert(m.contains_key(s[i].0) && m.contains_key(s[j].0));
        }
    }
}

/// Check every receipt against `version` and the ledger kind.
fn check_receipts(spends: &IdMap<CurrencyDebitReceipt>, version: u64, void: bool) -> (r: bool)
    requires
        spends.wf(),
    ensures
        r == receipts_valid(spends.map(), version, void),
{
    let n = spends.len();
    let mut i: usize = 0;
    while i < n
        invariant
            n == spends@.len(),
            spends.wf(),
            i <= n,
            forall|a: int| 0 <= a < i ==> receipt_entry_ok(#[trigger] spends@[a], version, void),
        decreases n - i,
    {
        let key = spends.key_at(i);
        let receipt = spends.value_at(i);
        let ok = text_eq(receipt.id.as_str(), key.as_str()) && receipt.amount_micro != 0
            && receipt.void_purpose.is_some() == void && 1 <= receipt.committed_version
            && receipt.committed_version <= version;
        if !ok {
            proof {
                lemma_receipts_entries_map(spends@, version, void);
                assert(!receipt_entry_ok(spends@[i as int], version, void));
            }
            return false;
        }
        i = i + 1;
    }
    let mut a: usize = 0;
    while a < n
        invariant
            n == spends@.len(),
            spends.wf(),
            a <= n,
            forall|x: int| 0 <= x < n ==> receipt_entry_ok(#[trigger] spends@[x], version, void),
            forall|x: int, y: int|
                0 <= x < a && 0 <= y < n && x != y
                    ==> #[trigger] spends@[x].1.committed_version != #[trigger] spends@[y].1.committed_version,
        decreases n - a,
    {
        let va = spends.value_at(a).committed_version;
        let mut b: usize = 0;
        while b < n
            invariant
                n == spends@.len(),
                spends.wf(),
                forall|x: int| 0 <= x < n ==> receipt_entry_ok(#[trigger] spends@[x], version, void),
                a < n,
                b <= n,
                va == spends@[a as int].1.committed_version,
                forall|y: int| 0 <= y < b && y != a ==> #[trigger] spends@[y].1.committed_version != va,
            decreases n - b,
        {
            if b != a && spends.value_at(b).committed_version == va {
                proof {
                    lemma_receipts_entries_map(spends@, version, void);
                    assert(spends@[a as int].1.committed_version == spends@[b as int].1.committed_version);
                }
                return false;
            }
            b = b + 1;
        }
        proof {
            assert forall|x: int, y: int|
                0 <= x < a + 1 && 0 <= y < n && x != y
                    implies #[trigger] spends@[x].1.committed_version != #[trigger] spends@[y].1.committed_version by {
                if x == a {
                    assert(spends@[y].1.committed_version != va);
                } else if y == a {
                    assert(spends@[x].1.committed_version != spends@[y].1.committed_version);
                }
            }
        }
        a = a + 1;
    }
    proof {
        lemma_receipts_entries_map(spends@, version, void);
    }
    true
}

/// The receipt a debit files under its event id.
pub open spec fn debit_receipt(
    id: CurrencyEventId,
    amount_micro: u64,
    fingerprint: u64,
    void_purpose: Option<VoidDebitPurpose>,
    committed_version: u64,
) -> CurrencyDebitReceipt {
    CurrencyDebitReceipt { id, amount_micro, fingerprint, void_purpose, committed_version }
}

/// Inserting a fresh receipt at the next version keeps the receipts valid.
proof fn lemma_receipts_insert_next(
    m: Map<Seq<char>, CurrencyDebitReceipt>,
    version: u64,
    void: bool,
    k: Seq<char>,
    receipt: CurrencyDebitReceipt,
)
    requires
        receipts_valid(m, version, void),
        !m.contains_key(k),
        version < u64::MAX,
        receipt.id@ == k,
        receipt.amount_micro != 0,
        (receipt.void_purpose is Some) == void,
        receipt.committed_version == version + 1,
    ensures
        receipts_valid(m.insert(k, receipt), (version + 1) as u64, void),
{
    let n = m.insert(k, receipt);
    assert forall|k1: Seq<char>, k2: Seq<char>|
        #[trigger] n.contains_key(k1) && #[trigger] n.contains_key(k2) && k1 != k2
            implies n[k1].committed_version != n[k2].committed_version by {
        if k1 != k && k2 != k {
            assert(m.contains_key(k1) && m.contains_key(k2));
        } else if k1 == k {
            assert(m.contains_key(k2));
        } else {
            assert(m.contains_key(k1));
        }
    }
    assert forall|k1: Seq<char>| #[trigger] n.contains_key(k1) implies 1 <= n[k1].committed_version <= version + 1 by {
        if k1 != k {
            assert(m.contains_key(k1));
        }
    }
}

/// Receipts valid at one version stay valid at any later one.
proof fn lemma_receipts_later(m: Map<Seq<char>, CurrencyDebitReceipt>, version: u64, later: u64, void: bool)
    requires
        receipts_valid(m, version, void),
        version <= later,
    ensures
        receipts_valid(m, later, void),
{
}

/// The Research Notes ledger: a balance credited by retired scholar work in
/// sequence order and debited by idempotent spends.
#[derive(Debug, PartialEq, Eq)]
pub struct ResearchNotesLedger {
    pub schema_version: u32,
    pub partition: ColonyPartitionKey,
    pub version: u64,
    pub balance: ResearchNotes,
    pub retired_work_through: u64,
    pub spends: IdMap<CurrencyDebitReceipt>,
}

impl ResearchNotesLedger {
    /// The persistence conditions, judged at `version`.
    pub open spec fn valid_at(&self, version: u64) -> bool {
        &&& self.schema_version == NOTES_LEDGER_SCHEMA_VERSION
        &&& self.spends@.len() <= MAX_CURRENCY_RECEIPTS
        &&& receipts_valid(self.spends.map(), version, false)
    }

    pub open spec fn valid(&self) -> bool {
        self.valid_at(self.version)
    }

    pub fn new(colony_id: PlannerId) -> (r: Self)
        ensures
            r.schema_version == NOTES_LEDGER_SCHEMA_VERSION,
            r.partition.colony_id == colony_id,
            r.version == 0,
            r.balance.0 == 0,
            r.retired_work_through == 0,
            r.spends.wf(),
            r.spends.map() == Map::<Seq<char>, CurrencyDebitReceipt>::empty(),
            r.valid(),
    {
        ResearchNotesLedger {
            schema_version: NOTES_LEDGER_SCHEMA_VERSION,
            partition: ColonyPartitionKey { colony_id },
            version: 0,
            balance: ResearchNotes::zero(),
            retired_work_through: 0,
            spends: IdMap::new(),
        }
    }

    /// `Ok` exactly when the ledger meets its persistence conditions.
    pub fn validate(&self) -> (r: Result<(), ProgressionError>)
        requires
            self.spends.wf(),
        ensures
            r is Ok <==> self.valid(),
            r is Err ==> r == Err::<(), ProgressionError>(ProgressionError::MalformedPersistence),
    {
        if self.schema_version != NOTES_LEDGER_SCHEMA_VERSION || self.spends.len() > MAX_CURRENCY_RECEIPTS
            || !check_receipts(&self.spends, self.version, false) {
            Err(ProgressionError::MalformedPersistence)
        } else {
            Ok(())
        }
    }

    /// Retire scholar work `sequence`, crediting `credit` when the work produced Notes.
    pub fn advance_scholar_work(&mut self, sequence: u64, credit: Option<ResearchNotes>) -> (r: Result<
        CurrencyCommitOutcome,
        ProgressionError,
    >)
        ensures
            r == notes_advance_outcome(*old(self), sequence, credit),
            r == Ok::<CurrencyCommitOutcome, ProgressionError>(CurrencyCommitOutcome::Committed) ==> {
                &&& final(self).retired_work_through == sequence
                &&& final(self).version == old(self).version + 1
                &&& final(self).balance.0 == old(self).balance.0 + match credit {
                    Some(c) => c.0 as int,
                    None => 0int,
                }
                &&& final(self).schema_version == old(self).schema_version
                &&& final(self).partition == old(self).partition
                &&& final(self).spends == old(self).spends
            },
            r != Ok::<CurrencyCommitOutcome, ProgressionError>(CurrencyCommitOutcome::Committed) ==> *final(self) == *old(self),
    {
        if sequence <= self.retired_work_through {
            return Ok(CurrencyCommitOutcome::RetiredReplay);
        }
        if self.retired_work_through == u64::MAX {
            return Err(ProgressionError::ArithmeticOverflow);
        }
        if sequence != self.retired_work_through + 1 {
            return Err(ProgressionError::NonCanonicalSequence);
        }
        let mut balance = self.balance;
        match credit {
            Some(c) => {
                if c.0 == 0 {
                    return Err(ProgressionError::MalformedRequest);
                }
                match self.balance.checked_add(c) {
                    Ok(b) => {
                        balance = b;
                    },
                    Err(e) => {
                        return Err(e);
                    },
                }
            },
            None => {},
        }
        if self.version == u64::MAX {
            return Err(ProgressionError::ArithmeticOverflow);
        }
        self.balance = balance;
        self.retired_work_through = sequence;
        self.version = self.version + 1;
        Ok(CurrencyCommitOutcome::Committed)
    }

    /// Spend Notes once per event id; a replay with the same terms reports
    /// `AlreadyCommitted` and changes nothing.
    pub fn debit(&mut self, request: ResearchNotesSpendRequest) -> (r: Result<CurrencyCommitOutcome, ProgressionError>)
        requires
            old(self).spends.wf(),
        ensures
            final(self).spends.wf(),
            r == notes_debit_outcome(*old(self), request),
            r == Ok::<CurrencyCommitOutcome, ProgressionError>(CurrencyCommitOutcome::Committed) ==> {
                &&& final(self).version == old(self).version + 1
                &&& final(self).balance.0 == old(self).balance.0 - request.amount.0
                &&& final(self).spends.map() == old(self).spends.map().insert(
                    request.id@,
                    debit_receipt(request.id, request.amount.0, request.fingerprint, None, (old(self).version + 1) as u64),
                )
                &&& final(self).schema_version == old(self).schema_version
                &&& final(self).partition == old(self).partition
                &&& final(self).retired_work_through == old(self).retired_work_through
                &&& final(self).valid()
            },
            r != Ok::<CurrencyCommitOutcome, ProgressionError>(CurrencyCommitOutcome::Committed) ==> *final(self) == *old(self),
    {
        if request.amount.0 == 0 {
            return Err(ProgressionError::MalformedRequest);
        }
        match self.spends.get(request.id.as_str()) {
            Some(receipt) => {
                if receipt.amount_micro == request.amount.0 && receipt.fingerprint == request.fingerprint {
                    return match self.validate() {
                        Ok(()) => Ok(CurrencyCommitOutcome::AlreadyCommitted),
                        Err(e) => Err(e),
                    };
                }
                return Err(ProgressionError::IdempotencyConflict);
            },
            None => {},
        }
        if request.expected_version != self.version {
            return Err(ProgressionError::StaleVersion);
        }
        if self.spends.len() >= MAX_CURRENCY_RECEIPTS {
            return Err(ProgressionError::Backpressure);
        }
        if self.version == u64::MAX {
            return Err(ProgressionError::ArithmeticOverflow);
        }
        if self.balance.0 < request.amount.0 {
            return Err(ProgressionError::InsufficientCurrency);
        }
        match self.validate() {
            Ok(()) => {},
            Err(e) => {
                return Err(e);
            },
        }
        let committed_version = self.version + 1;
        let key = String::from_str(request.id.as_str());
        let amount_micro = request.amount.0;
        let receipt = CurrencyDebitReceipt {
            id: request.id,
            amount_micro,
            fingerprint: request.fingerprint,
            void_purpose: None,
            committed_version,
        };
        proof {
            lemma_receipts_insert_next(self.spends.map(), self.version, false, key@, receipt);
        }
        self.balance = ResearchNotes(self.balance.0 - amount_micro);
        self.spends.insert(key, receipt);
        self.version = committed_version;
        Ok(CurrencyCommitOutcome::Committed)
    }
}

/// What retiring scholar work `sequence` answers.
pub open spec fn notes_advance_outcome(l: ResearchNotesLedger, sequence: u64, credit: Option<ResearchNotes>) -> Result<
    CurrencyCommitOutcome,
    ProgressionError,
> {
    if sequence <= l.retired_work_through {
        Ok(CurrencyCommitOutcome::RetiredReplay)
    } else if l.retired_work_through == u64::MAX {
        Err(ProgressionError::ArithmeticOverflow)
    } else if sequence != l.retired_work_through + 1 {
        Err(ProgressionError::NonCanonicalSequence)
    } else if credit matches Some(c) && c.0 == 0 {
        Err(ProgressionError::MalformedRequest)
    } else if credit matches Some(c) && l.balance.0 + c.0 > u64::MAX {
        Err(ProgressionError::ArithmeticOverflow)
    } else if l.version == u64::MAX {
        Err(ProgressionError::ArithmeticOverflow)
    } else {
        Ok(CurrencyCommitOutcome::Committed)
    }
}

/// What a Notes debit answers, in the order the checks are made.
pub open spec fn notes_debit_outcome(l: ResearchNotesLedger, request: ResearchNotesSpendRequest) -> Result<
    CurrencyCommitOutcome,
    ProgressionError,
> {
    let m = l.spends.map();
    if request.amount.0 == 0 {
        Err(ProgressionError::MalformedRequest)
    } else if m.contains_key(request.id@) {
        if m[request.id@].amount_micro == request.amount.0 && m[request.id@].fingerprint == request.fingerprint {
            if l.valid() {
                Ok(CurrencyCommitOutcome::AlreadyCommitted)
            } else {
                Err(ProgressionError::MalformedPersistence)
            }
        } else {
            Err(ProgressionError::IdempotencyConflict)
        }
    } else if request.expected_version != l.version {
        Err(ProgressionError::StaleVersion)
    } else if l.spends@.len() >= MAX_CURRENCY_RECEIPTS {
        Err(ProgressionError::Backpressure)
    } else if l.version == u64::MAX {
        Err(ProgressionError::ArithmeticOverflow)
    } else if l.balance.0 < request.amount.0 {
        Err(ProgressionError::InsufficientCurrency)
    } else if !l.valid() {
        Err(ProgressionError::MalformedPersistence)
    } else {
        Ok(CurrencyCommitOutcome::Committed)
    }
}

/// The Void Insight ledger: a balance fed by the hole in feed order and
/// debited by idempotent, purpose-tagged spends.
#[derive(Debug, PartialEq, Eq)]
pub struct VoidInsightLedger {
    pub schema_version: u32,
    pub partition: ColonyPartitionKey,
    pub version: u64,
    pub balance: VoidInsight,
    pub credited_feed_through: u64,
    pub spends: IdMap<CurrencyDebitReceipt>,
}

impl VoidInsightLedger {
    /// The persistence conditions, judged at `version`.
    pub open spec fn valid_at(&self, version: u64) -> bool {
        &&& self.schema_version == VOID_LEDGER_SCHEMA_VERSION
        &&& self.spends@.len() <= MAX_CURRENCY_RECEIPTS
        &&& receipts_valid(self.spends.map(), version, true)
    }

    pub open spec fn valid(&self) -> bool {
        self.valid_at(self.version)
    }

    pub fn new(colony_id: PlannerId) -> (r: Self)
        ensures
            r.schema_version == VOID_LEDGER_SCHEMA_VERSION,
            r.partition.colony_id == colony_id,
            r.version == 0,
            r.balance.0 == 0,
            r.credited_feed_through == 0,
            r.spends.wf(),
            r.spends.map() == Map::<Seq<char>, CurrencyDebitReceipt>::empty(),
            r.valid(),
    {
        VoidInsightLedger {
            schema_version: VOID_LEDGER_SCHEMA_VERSION,
            partition: ColonyPartitionKey { colony_id },
            version: 0,
            balance: VoidInsight::zero(),
            credited_feed_through: 0,
            spends: IdMap::new(),
        }
    }

    fn check_at(&self, version: u64) -> (r: bool)
        requires
            self.spends.wf(),
        ensures
            r == self.valid_at(version),
    {
        self.schema_version == VOID_LEDGER_SCHEMA_VERSION && self.spends.len() <= MAX_CURRENCY_RECEIPTS
            && check_receipts(&self.spends, version, true)
    }

    /// `Ok` exactly when the ledger meets its persistence conditions.
    pub fn validate(&self) -> (r: Result<(), ProgressionError>)
        requires
            self.spends.wf(),
        ensures
            r is Ok <==> self.valid(),
            r is Err ==> r == Err::<(), ProgressionError>(ProgressionError::MalformedPersistence),
    {
        if self.check_at(self.version) {
            Ok(())
        } else {
            Err(ProgressionError::MalformedPersistence)
        }
    }

    /// Credit the hole feed in sequence order; an already credited sequence is
    /// a retired replay that changes nothing.
    pub fn credit_hole_feed(&mut self, payload: HoleVoidCreditPayload) -> (r: Result<CurrencyCommitOutcome, ProgressionError>)
        requires
            old(self).spends.wf(),
        ensures
            final(self).spends.wf(),
            r == void_credit_outcome(*old(self), payload),
            r == Ok::<CurrencyCommitOutcome, ProgressionError>(CurrencyCommitOutcome::Committed) ==> {
                &&& final(self).credited_feed_through == payload.feed_sequence
                &&& final(self).version == old(self).version + 1
                &&& final(self).balance.0 == old(self).balance.0 + payload.amount.0
                &&& final(self).schema_version == old(self).schema_version
                &&& final(self).partition == old(self).partition
                &&& final(self).spends == old(self).spends
                &&& final(self).valid()
            },
            r != Ok::<CurrencyCommitOutcome, ProgressionError>(CurrencyCommitOutcome::Committed) ==> *final(self) == *old(self),
    {
        if !text_eq(payload.partition.colony_id.as_str(), self.partition.colony_id.as_str()) || payload.amount.0 == 0 {
            return Err(ProgressionError::PartitionMismatch);
        }
        if payload.feed_sequence <= self.credited_feed_through {
            return match self.validate() {
                Ok(()) => Ok(CurrencyCommitOutcome::RetiredReplay),
                Err(e) => Err(e),
            };
        }
        if self.credited_feed_through == u64::MAX {
            return Err(ProgressionError::ArithmeticOverflow);
        }
        if payload.feed_sequence != self.credited_feed_through + 1 {
            return Err(ProgressionError::NonCanonicalSequence);
        }
        let balance = match self.balance.checked_add(payload.amount) {
            Ok(b) => b,
            Err(e) => {
                return Err(e);
            },
        };
        if self.version == u64::MAX {
            return Err(ProgressionError::ArithmeticOverflow);
        }
        if !self.check_at(self.version + 1) {
            return Err(ProgressionError::MalformedPersistence);
        }
        self.balance = balance;
        self.credited_feed_through = payload.feed_sequence;
        self.version = self.version + 1;
        Ok(CurrencyCommitOutcome::Committed)
    }

    /// Spend Void Insight once per event id; a replay with the same terms
    /// reports `AlreadyCommitted` and changes nothing.
    pub fn debit(&mut self, request: VoidSpendRequest) -> (r: Result<CurrencyCommitOutcome, ProgressionError>)
        requires
            old(self).spends.wf(),
        ensures
            final(self).spends.wf(),
            r == void_debit_outcome(*old(self), request),
            r == Ok::<CurrencyCommitOutcome, ProgressionError>(CurrencyCommitOutcome::Committed) ==> {
                &&& final(self).version == old(self).version + 1
                &&& final(self).balance.0 == old(self).balance.0 - request.amount.0
                &&& final(self).spends.map() == old(self).spends.map().insert(
                    request.id@,
                    debit_receipt(
                        request.id,
                        request.amount.0,
                        request.fingerprint,
                        Some(request.purpose),
                        (old(self).version + 1) as u64,
                    ),
                )
                &&& final(self).schema_version == old(self).schema_version
                &&& final(self).partition == old(self).partition
                &&& final(self).credited_feed_through == old(self).credited_feed_through
                &&& final(self).valid()
            },
            r != Ok::<CurrencyCommitOutcome, ProgressionError>(CurrencyCommitOutcome::Committed) ==> *final(self) == *old(self),
    {
        if request.amount.0 == 0 {
            return Err(ProgressionError::MalformedRequest);
        }
        match self.spends.get(request.id.as_str()) {
            Some(receipt) => {
                if receipt.amount_micro == request.amount.0 && receipt.fingerprint == request.fingerprint {
                    return match self.validate() {
                        Ok(()) => Ok(CurrencyCommitOutcome::AlreadyCommitted),
                        Err(e) => Err(e),
                    };
                }
                return Err(ProgressionError::IdempotencyConflict);
            },
            None => {},
        }
        if request.expected_version != self.version {
            return Err(ProgressionError::StaleVersion);
        }
        if self.spends.len() >= MAX_CURRENCY_RECEIPTS {
            return Err(ProgressionError::Backpressure);
        }
        if self.version == u64::MAX {
            return Err(ProgressionError::ArithmeticOverflow);
        }
        if self.balance.0 < request.amount.0 {
            return Err(ProgressionError::InsufficientCurrency);
        }
        match self.validate() {
            Ok(()) => {},
            Err(e) => {
                return Err(e);
            },
        }
        let committed_version = self.version + 1;
        let key = String::from_str(request.id.as_str());
        let amount_micro = request.amount.0;
        let receipt = CurrencyDebitReceipt {
            id: request.id,
            amount_micro,
            fingerprint: request.fingerprint,
            void_purpose: Some(request.purpose),
            committed_version,
        };
        proof {
            lemma_receipts_insert_next(self.spends.map(), self.version, true, key@, receipt);
        }
        self.balance = VoidInsight(self.balance.0 - amount_micro);
        self.spends.insert(key, receipt);
        self.version = committed_version;
        Ok(CurrencyCommitOutcome::Committed)
    }
}

/// What a hole-feed credit answers, in the order the checks are made.
pub open spec fn void_credit_outcome(l: VoidInsightLedger, payload: HoleVoidCreditPayload) -> Result<
    CurrencyCommitOutcome,
    ProgressionError,
> {
    if payload.partition.colony_id@ != l.partition.colony_id@ || payload.amount.0 == 0 {
        Err(ProgressionError::PartitionMismatch)
    } else if payload.feed_sequence <= l.credited_feed_through {
        if l.valid() {
            Ok(CurrencyCommitOutcome::RetiredReplay)
        } else {
            Err(ProgressionError::MalformedPersistence)
        }
    } else if l.credited_feed_through == u64::MAX {
        Err(ProgressionError::ArithmeticOverflow)
    } else if payload.feed_sequence != l.credited_feed_through + 1 {
        Err(ProgressionError::NonCanonicalSequence)
    } else if l.balance.0 + payload.amount.0 > u64::MAX {
        Err(ProgressionError::ArithmeticOverflow)
    } else if l.version == u64::MAX {
        Err(ProgressionError::ArithmeticOverflow)
    } else if !l.valid_at((l.version + 1) as u64) {
        Err(ProgressionError::MalformedPersistence)
    } else {
        Ok(CurrencyCommitOutcome::Committed)
    }
}

/// What a Void debit answers, in the order the checks are made.
pub open spec fn void_debit_outcome(l: VoidInsightLedger, request: VoidSpendRequest) -> Result<
    CurrencyCommitOutcome,
    ProgressionError,
> {
    let m = l.spends.map();
    if request.amount.0 == 0 {
        Err(ProgressionError::MalformedRequest)
    } else if m.contains_key(request.id@) {
        if m[request.id@].amount_micro == request.amount.0 && m[request.id@].fingerprint == request.fingerprint {
            if l.valid() {
                Ok(CurrencyCommitOutcome::AlreadyCommitted)
            } else {
                Err(ProgressionError::MalformedPersistence)
            }
        } else {
            Err(ProgressionError::IdempotencyConflict)
        }
    } else if request.expected_version != l.version {
        Err(ProgressionError::StaleVersion)
    } else if l.spends@.len() >= MAX_CURRENCY_RECEIPTS {
        Err(ProgressionError::Backpressure)
    } else if l.version == u64::MAX {
        Err(ProgressionError::ArithmeticOverflow)
    } else if l.balance.0 < request.amount.0 {
        Err(ProgressionError::InsufficientCurrency)
    } else if !l.valid() {
        Err(ProgressionError::MalformedPersistence)
    } else {
        Ok(CurrencyCommitOutcome::Committed)
    }
}

/// Replaying a committed Notes spend with the same terms answers
/// `AlreadyCommitted`: a spend is never taken twice.
pub proof fn law_notes_debit_replay_is_idempotent(
    before: ResearchNotesLedger,
    after: ResearchNotesLedger,
    request: ResearchNotesSpendRequest,
)
    requires
        before.spends.wf(),
        after.spends.wf(),
        notes_debit_outcome(before, request) == Ok::<CurrencyCommitOutcome, ProgressionError>(CurrencyCommitOutcome::Committed),
        after.version == before.version + 1,
        after.schema_version == before.schema_version,
        after.spends.map() == before.spends.map().insert(
            request.id@,
            debit_receipt(request.id, request.amount.0, request.fingerprint, None, (before.version + 1) as u64),
        ),
        after.valid(),
    ensures
        notes_debit_outcome(after, request) == Ok::<CurrencyCommitOutcome, ProgressionError>(CurrencyCommitOutcome::AlreadyCommitted),
{
}

/// Replaying a committed Void spend with the same terms answers
/// `AlreadyCommitted`: a spend is never taken twice.
pub proof fn law_void_debit_replay_is_idempotent(
    before: VoidInsightLedger,
    after: VoidInsightLedger,
    request: VoidSpendRequest,
)
    requires
        before.spends.wf(),
        after.spends.wf(),
        void_debit_outcome(before, request) == Ok::<CurrencyCommitOutcome, ProgressionError>(CurrencyCommitOutcome::Committed),
        after.version == before.version + 1,
        after.schema_version == before.schema_version,
        after.spends.map() == before.spends.map().insert(
            request.id@,
            debit_receipt(
                request.id,
                request.amount.0,
                request.fingerprint,
                Some(request.purpose),
                (before.version + 1) as u64,
            ),
        ),
        after.valid(),
    ensures
        void_debit_outcome(after, request) == Ok::<CurrencyCommitOutcome, ProgressionError>(CurrencyCommitOutcome::AlreadyCommitted),
{
}

/// Re-delivering a hole feed that was credited answers `RetiredReplay`: the
/// feed is never credited twice.
pub proof fn law_void_credit_replay_is_retired(
    before: VoidInsightLedger,
    after: VoidInsightLedger,
    payload: HoleVoidCreditPayload,
)
    requires
        void_credit_outcome(before, payload) == Ok::<CurrencyCommitOutcome, ProgressionError>(CurrencyCommitOutcome::Committed),
        after.credited_feed_through == payload.feed_sequence,
        after.partition == before.partition,
        after.valid(),
    ensures
        void_credit_outcome(after, payload) == Ok::<CurrencyCommitOutcome, ProgressionError>(CurrencyCommitOutcome::RetiredReplay),
{
}

/// Retiring scholar work twice answers `RetiredReplay` the second time: a
/// work order never credits Notes twice.
pub proof fn law_notes_advance_replay_is_retired(
    before: ResearchNotesLedger,
    after: ResearchNotesLedger,
    sequence: u64,
    credit: Option<ResearchNotes>,
)
    requires
        notes_advance_outcome(before, sequence, credit) == Ok::<CurrencyCommitOutcome, ProgressionError>(CurrencyCommitOutcome::Committed),
        after.retired_work_through == sequence,
    ensures
        notes_advance_outcome(after, sequence, credit) == Ok::<CurrencyCommitOutcome, ProgressionError>(CurrencyCommitOutcome::RetiredReplay),
{
}

#[derive(Debug, Clone, PartialEq, Eq, PartialOrd, Ord)]
pub struct ScholarWorkId {
    pub colony_id: PlannerId,
    pub sequence: u64,
}

fn decimal_text(n: u64) -> (r: String)
    ensures
        r@ == crate::text::decimal(n as nat),
{
    let mut s = String::new();
    crate::text::push_decimal(&mut s, n);
    assert(s@ =~= crate::text::decimal(n as nat));
    s
}

pub open spec fn scholar_id_text(namespace: Seq<char>, work_id: ScholarWorkId) -> Seq<char> {
    planner_id_text(namespace, seq![work_id.colony_id@, crate::text::decimal(work_id.sequence as nat)])
}

#[derive(Debug, Clone, PartialEq, Eq, PartialOrd, Ord, Hash)]
pub struct ScholarTaskId(PlannerId);

impl ScholarTaskId {
    pub closed spec fn view(&self) -> Seq<char> {
        self.0@
    }

    pub fn derive(work_id: &ScholarWorkId) -> (r: Self)
        ensures
            r@ == scholar_id_text("progression_scholar_task"@, *work_id),
    {
        let sequence = decimal_text(work_id.sequence);
        let parts: [&str; 2] = [work_id.colony_id.as_str(), sequence.as_str()];
        let r = ScholarTaskId(PlannerId::derive("progression_scholar_task", &parts));
        assert(texts_view(parts@) =~= seq![work_id.colony_id@, crate::text::decimal(work_id.sequence as nat)]);
        r
    }

    /// An identical copy.
    pub fn duplicate(&self) -> (r: Self)
        ensures
            r == *self,
            r@ == self@,
    {
        ScholarTaskId(self.0.duplicate())
    }

    pub fn as_str(&self) -> (r: &str)
        ensures
            r@ == self@,
    {
        self.0.as_str()
    }
}

#[derive(Debug, Clone, PartialEq, Eq, PartialOrd, Ord, Hash)]
pub struct ScholarOrderId(PlannerId);

impl ScholarOrderId {
    pub closed spec fn view(&self) -> Seq<char> {
        self.0@
    }

    pub fn derive(work_id: &ScholarWorkId) -> (r: Self)
        ensures
            r@ == scholar_id_text("progression_scholar_order"@, *work_id),
    {
        let sequence = decimal_text(work_id.sequence);
        let parts: [&str; 2] = [work_id.colony_id.as_str(), sequence.as_str()];
        let r = ScholarOrderId(PlannerId::derive("progression_scholar_order", &parts));
        assert(texts_view(parts@) =~= seq![work_id.colony_id@, crate::text::decimal(work_id.sequence as nat)]);
        r
    }

    /// An identical copy.
    pub fn duplicate(&self) -> (r: Self)
        ensures
            r == *self,
            r@ == self@,
    {
        ScholarOrderId(self.0.duplicate())
    }

    pub fn as_str(&self) -> (r: &str)
        ensures
            r@ == self@,
    {
        self.0.as_str()
    }
}

#[derive(Debug, Clone, PartialEq, Eq)]
pub struct ScholarAssignment {
    pub scholar_id: PlannerId,
    pub tool_id: PlannerId,
    pub station_id: PlannerId,
    pub location_id: PlannerId,
}

#[derive(Debug, Clone, PartialEq, Eq)]
pub enum ScholarWorkPurpose {
    ProduceNotes { credit: ResearchNotes },
    PrepareStudy {
        study_id: StudyId,
        player_id: PlannerId,
        frozen_base_cost: ResearchNotes,
        frozen_discount: ResearchNotes,
        frozen_payable: ResearchNotes,
    },
    CompleteGodStudy { study_id: StudyId },
}

#[derive(Debug, Clone, Copy, PartialEq, Eq, Structural)]
pub enum ScholarWorkStage {
    Queued,
    Reserved,
    Working,
    Completed,
    Cancelled,
}

impl ScholarWorkStage {
    pub fn terminal(self) -> (r: bool)
        ensures
            r == (self is Completed || self is Cancelled),
    {
        match self {
            ScholarWorkStage::Completed | ScholarWorkStage::Cancelled => true,
            _ => false,
        }
    }
}

#[derive(Debug, Clone, PartialEq, Eq)]
pub struct ScholarWorkOrder {
    pub id: ScholarWorkId,
    pub order_id: ScholarOrderId,
    pub task_id: ScholarTaskId,
    pub assignment: ScholarAssignment,
    pub purpose: ScholarWorkPurpose,
    pub required_work_minutes: u64,
    pub progress_work_minutes: u64,
    pub stage: ScholarWorkStage,
    pub request_fingerprint: u64,
}

#[derive(Debug, Clone, Copy, PartialEq, Eq, Structural)]
pub enum WorkRecoveryReason {
    CancelledByPlayer,
    ScholarDied,
    RouteLost,
}

#[derive(Debug, Clone, PartialEq, Eq)]
pub struct WorkRelease {
    pub work_id: ScholarWorkId,
    pub assignment: ScholarAssignment,
    pub reason: WorkRecoveryReason,
    pub released_reservation: bool,
    pub lost_progress_work_minutes: u64,
}

#[derive(Debug, Clone, PartialEq, Eq)]
pub struct ResearchNotesCreditPayload {
    pub partition: ColonyPartitionKey,
    pub work_id: ScholarWorkId,
    pub amount: ResearchNotes,
}

#[derive(Debug, Clone, PartialEq, Eq)]
pub struct PreparationRecord {
    pub study_id: StudyId,
    pub player_id: PlannerId,
    pub completed_work_id: ScholarWorkId,
    pub frozen_base_cost: ResearchNotes,
    pub frozen_discount: ResearchNotes,
    pub frozen_payable: ResearchNotes,
}

#[derive(Debug, Clone, PartialEq, Eq)]
pub struct GodQueueClaim {
    pub study_id: StudyId,
    pub player_id: PlannerId,
    pub prepared_terms: Option<PreparationRecord>,
}

#[derive(Debug, Clone, PartialEq, Eq)]
pub struct FundedStudy {
    pub study_id: StudyId,
    pub player_id: PlannerId,
    pub currency: StudyCurrency,
    pub paid_micro: u64,
    pub preparation_consumed: bool,
    pub funding_event_id: CurrencyEventId,
}

#[derive(Debug, Clone, Copy, PartialEq, Eq, Structural)]
pub enum LeaderDuplicateKind {
    VillageCritical,
    KeyedOopsie,
}

#[derive(Debug, Clone, PartialEq, Eq)]
pub struct LeaderTargetClaim {
    pub study_id: StudyId,
    pub duplicate_kind: Option<LeaderDuplicateKind>,
    pub decision_key: Option<PlannerId>,
}

#[derive(Debug, Clone, PartialEq, Eq)]
pub enum LeaderDuplicateHook {
    Absent,
    VillageCritical { report_marks_critical: bool, needed_before_tick: u64, estimated_god_completion_tick: u64 },
    KeyedOopsie { decision_key: PlannerId, effective_level: u8, keyed_roll_percent: u8 },
}

#[derive(Debug, Clone, Copy, PartialEq, Eq, Structural)]
pub enum LeaderTargetDecision {
    Allowed,
    ChooseAnother,
    VillageCriticalOverride,
    KeyedOopsieOverride,
}

#[derive(Debug, Clone, PartialEq, Eq)]
pub struct RecipeCapabilityCheck {
    pub recipe_id: RecipeId,
    pub station_exists: bool,
    pub station_tier: u8,
    pub physical_ingredients_ready: bool,
    pub tools_ready: bool,
    pub capacity_ready: bool,
    pub workers_ready: bool,
}

#[derive(Debug, Clone, Copy, PartialEq, Eq, Structural)]
pub enum ProgressionError {
    ManifestInvalid,
    MalformedId,
    MalformedRequest,
    MalformedPersistence,
    UnknownContent,
    UnknownStudy,
    UnknownWork,
    CapabilityLocked,
    InvalidOperationClass,
    PhysicalPrerequisiteMissing,
    PrerequisiteLocked,
    PreparationIneligible,
    DuplicateLaneClaim,
    DuplicateResolutionPending,
    StudyNotQueued,
    StudyNotFunded,
    StudyNotLeaderTargeted,
    InvalidWorkStage,
    PartitionMismatch,
    StaleVersion,
    NonCanonicalSequence,
    IdempotencyConflict,
    RetiredReplay,
    InsufficientCurrency,
    Backpressure,
    CapacityExceeded,
    ArithmeticOverflow,
}

impl ExactCopy for CurrencyDebitReceipt {
    fn exact_copy(&self) -> (r: Self) {
        CurrencyDebitReceipt {
            id: self.id.duplicate(),
            amount_micro: self.amount_micro,
            fingerprint: self.fingerprint,
            void_purpose: self.void_purpose,
            committed_version: self.committed_version,
        }
    }
}

impl ExactCopy for StudyId {
    fn exact_copy(&self) -> (r: Self) {
        self.duplicate()
    }
}

/// Two Notes ledgers hold the same state.
pub open spec fn same_notes(a: ResearchNotesLedger, b: ResearchNotesLedger) -> bool {
    &&& a.schema_version == b.schema_version
    &&& a.partition == b.partition
    &&& a.version == b.version
    &&& a.balance == b.balance
    &&& a.retired_work_through == b.retired_work_through
    &&& a.spends@ == b.spends@
}

/// Two Void ledgers hold the same state.
pub open spec fn same_void(a: VoidInsightLedger, b: VoidInsightLedger) -> bool {
    &&& a.schema_version == b.schema_version
    &&& a.partition == b.partition
    &&& a.version == b.version
    &&& a.balance == b.balance
    &&& a.credited_feed_through == b.credited_feed_through
    &&& a.spends@ == b.spends@
}

impl ResearchNotesLedger {
    /// A copy holding the same state.
    pub fn duplicate(&self) -> (r: Self)
        ensures
            same_notes(r, *self),
            self.spends.wf() ==> r.spends.wf(),
    {
        ResearchNotesLedger {
            schema_version: self.schema_version,
            partition: ColonyPartitionKey { colony_id: self.partition.colony_id.duplicate() },
            version: self.version,
            balance: self.balance,
            retired_work_through: self.retired_work_through,
            spends: self.spends.copy_entries(),
        }
    }
}

impl VoidInsightLedger {
    /// A copy holding the same state.
    pub fn duplicate(&self) -> (r: Self)
        ensures
            same_void(r, *self),
            self.spends.wf() ==> r.spends.wf(),
    {
        VoidInsightLedger {
            schema_version: self.schema_version,
            partition: ColonyPartitionKey { colony_id: self.partition.colony_id.duplicate() },
            version: self.version,
            balance: self.balance,
            credited_feed_through: self.credited_feed_through,
            spends: self.spends.copy_entries(),
        }
    }
}

} // verus!
