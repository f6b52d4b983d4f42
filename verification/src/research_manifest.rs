//! The canonical research manifest: the research studies of the colony in
//! one ordered graph. It takes the useful studies of the source catalog,
//! removes the obsolete Shrine, Favor, generic-food and coin authority, and
//! overlays the capability surface of the two accepted plans and the four
//! additive tracks. Counts are always derived from the built manifest; the
//! historical source snapshot size is not a live rule.

use vstd::prelude::*;
use crate::id_map::{IdMap, entries_map, has_key, keys_sorted, lemma_lookup_all, lemma_lookup_at};
use crate::progression_research::{two_digits, push_two_digits};
use crate::text::{is_blank, text_eq, text_is_blank, text_lt, text_less};

verus! {

pub const RESEARCH_MANIFEST_SCHEMA_VERSION: u32 = 1;
pub const ADDITIVE_TRACK_COUNT: usize = 4;
pub const ADDITIVE_TRACK_STAGE_COUNT: usize = 11;
pub const ADDITIVE_TRACK_STUDY_COUNT: usize = 44;
pub const HISTORICAL_SOURCE_MANIFEST_STUDY_COUNT: usize = 531;
pub const GLOBAL_MODIFIER_TRACK_COUNT: usize = 14;
pub const GLOBAL_MODIFIER_FINITE_LEVELS: u8 = 10;
pub const GLOBAL_MODIFIER_TERMINAL_LEVEL: u8 = 11;
pub const RESEARCH_GRAPH_ALLOWS_ZOOM: bool = false;
pub const RESEARCH_GRAPH_DRAG_PANNING: bool = true;
pub const RESEARCH_GRAPH_REGION_OWNS_SCROLL: bool = true;
pub const MINIMUM_AND_JUNCTIONS: usize = 24;
pub const CURATED_JUNCTION_COUNT: usize = 8;
pub const ADMINISTRATION_BASE_STANDING_ORDER_SLOTS: u8 = 3;
pub const ADMINISTRATION_BASE_STRATEGIC_INTENT_SLOTS: u8 = 4;

/// The views of a sequence of texts.
pub open spec fn strings_view(v: Seq<String>) -> Seq<Seq<char>> {
    v.map_values(|s: String| s@)
}

#[derive(Debug, Clone, Copy, PartialEq, Eq, PartialOrd, Ord, Hash, Structural)]
pub enum ManifestTrack {
    DivineDuration,
    DivineEconomy,
    Rehabilitation,
    Administration,
}

/// The additive tracks in their canonical order.
pub open spec fn track_at(t: int) -> ManifestTrack {
    if t == 0 {
        ManifestTrack::DivineDuration
    } else if t == 1 {
        ManifestTrack::DivineEconomy
    } else if t == 2 {
        ManifestTrack::Rehabilitation
    } else {
        ManifestTrack::Administration
    }
}

fn track_number(t: usize) -> (r: ManifestTrack)
    requires
        t < 4,
    ensures
        r == track_at(t as int),
{
    if t == 0 {
        ManifestTrack::DivineDuration
    } else if t == 1 {
        ManifestTrack::DivineEconomy
    } else if t == 2 {
        ManifestTrack::Rehabilitation
    } else {
        ManifestTrack::Administration
    }
}

pub open spec fn track_prefix(t: ManifestTrack) -> Seq<char> {
    match t {
        ManifestTrack::DivineDuration => "divine_duration"@,
        ManifestTrack::DivineEconomy => "divine_economy"@,
        ManifestTrack::Rehabilitation => "rehabilitation"@,
        ManifestTrack::Administration => "administration"@,
    }
}

pub open spec fn track_display(t: ManifestTrack) -> Seq<char> {
    match t {
        ManifestTrack::DivineDuration => "Divine Duration"@,
        ManifestTrack::DivineEconomy => "Divine Economy"@,
        ManifestTrack::Rehabilitation => "Rehabilitation"@,
        ManifestTrack::Administration => "Administration"@,
    }
}

pub open spec fn track_root(t: ManifestTrack) -> Seq<char> {
    match t {
        ManifestTrack::DivineDuration | ManifestTrack::DivineEconomy => "void_insight_studies"@,
        ManifestTrack::Rehabilitation => "prosthetic_rehabilitation"@,
        ManifestTrack::Administration => "governance_foundations"@,
    }
}

impl ManifestTrack {
    /// The stable identifier prefix of the track's studies.
    pub fn stable_prefix(self) -> (r: &'static str)
        ensures
            r@ == track_prefix(self),
    {
        match self {
            ManifestTrack::DivineDuration => "divine_duration",
            ManifestTrack::DivineEconomy => "divine_economy",
            ManifestTrack::Rehabilitation => "rehabilitation",
            ManifestTrack::Administration => "administration",
        }
    }

    pub fn display_name(self) -> (r: &'static str)
        ensures
            r@ == track_display(self),
    {
        match self {
            ManifestTrack::DivineDuration => "Divine Duration",
            ManifestTrack::DivineEconomy => "Divine Economy",
            ManifestTrack::Rehabilitation => "Rehabilitation",
            ManifestTrack::Administration => "Administration",
        }
    }

    /// The study the track's first stage requires.
    pub fn root_prerequisite(self) -> (r: &'static str)
        ensures
            r@ == track_root(self),
    {
        match self {
            ManifestTrack::DivineDuration => "void_insight_studies",
            ManifestTrack::DivineEconomy => "void_insight_studies",
            ManifestTrack::Rehabilitation => "prosthetic_rehabilitation",
            ManifestTrack::Administration => "governance_foundations",
        }
    }
}

#[derive(Debug, Clone, Copy, PartialEq, Eq, PartialOrd, Ord, Hash, Structural)]
pub enum ManifestEffectHandler {
    CatalogBuildingAvailableAtFounding,
    CatalogUnlockBuilding,
    CatalogUnlockRecipe,
    CatalogUnlockResource,
    CatalogUnlockJob,
    CatalogModifyBuilding,
    CatalogModifyEffect,
    CatalogUnlockCapability,
    DivineBoostDuration,
    DivineBoostEconomy,
    ProstheticRehabilitation,
    AdministrationCapacity,
}

#[derive(Debug, Clone, PartialEq, Eq)]
pub enum ManifestEffect {
    CatalogPayload { handler: ManifestEffectHandler, target_id: String },
    DivineDuration { stage: u8, max_duration_game_hours: u8 },
    DivineEconomy { stage: u8, discount_basis_points: u16 },
    Rehabilitation { stage: u8, restoration_bonus_percentage_points: u8 },
    Administration { stage: u8, standing_order_slots: u8, strategic_intent_slots: u8 },
}

/// An effect with its target as text.
pub enum EffectView {
    CatalogPayload { handler: ManifestEffectHandler, target_id: Seq<char> },
    DivineDuration { stage: u8, max_duration_game_hours: u8 },
    DivineEconomy { stage: u8, discount_basis_points: u16 },
    Rehabilitation { stage: u8, restoration_bonus_percentage_points: u8 },
    Administration { stage: u8, standing_order_slots: u8, strategic_intent_slots: u8 },
}

pub open spec fn effect_view(e: ManifestEffect) -> EffectView {
    match e {
        ManifestEffect::CatalogPayload { handler, target_id } => EffectView::CatalogPayload { handler, target_id: target_id@ },
        ManifestEffect::DivineDuration { stage, max_duration_game_hours } => EffectView::DivineDuration {
            stage,
            max_duration_game_hours,
        },
        ManifestEffect::DivineEconomy { stage, discount_basis_points } => EffectView::DivineEconomy {
            stage,
            discount_basis_points,
        },
        ManifestEffect::Rehabilitation { stage, restoration_bonus_percentage_points } => EffectView::Rehabilitation {
            stage,
            restoration_bonus_percentage_points,
        },
        ManifestEffect::Administration { stage, standing_order_slots, strategic_intent_slots } => EffectView::Administration {
            stage,
            standing_order_slots,
            strategic_intent_slots,
        },
    }
}

pub open spec fn effects_view(v: Seq<ManifestEffect>) -> Seq<EffectView> {
    v.map_values(|e: ManifestEffect| effect_view(e))
}

/// The handler that applies an effect.
pub open spec fn handler_of(e: EffectView) -> ManifestEffectHandler {
    match e {
        EffectView::CatalogPayload { handler, .. } => handler,
        EffectView::DivineDuration { .. } => ManifestEffectHandler::DivineBoostDuration,
        EffectView::DivineEconomy { .. } => ManifestEffectHandler::DivineBoostEconomy,
        EffectView::Rehabilitation { .. } => ManifestEffectHandler::ProstheticRehabilitation,
        EffectView::Administration { .. } => ManifestEffectHandler::AdministrationCapacity,
    }
}

impl ManifestEffect {
    pub fn handler(&self) -> (r: ManifestEffectHandler)
        ensures
            r == handler_of(effect_view(*self)),
    {
        match self {
            ManifestEffect::CatalogPayload { handler, .. } => *handler,
            ManifestEffect::DivineDuration { .. } => ManifestEffectHandler::DivineBoostDuration,
            ManifestEffect::DivineEconomy { .. } => ManifestEffectHandler::DivineBoostEconomy,
            ManifestEffect::Rehabilitation { .. } => ManifestEffectHandler::ProstheticRehabilitation,
            ManifestEffect::Administration { .. } => ManifestEffectHandler::AdministrationCapacity,
        }
    }

    fn duplicate(&self) -> (r: Self)
        ensures
            effect_view(r) == effect_view(*self),
    {
        match self {
            ManifestEffect::CatalogPayload { handler, target_id } => ManifestEffect::CatalogPayload {
                handler: *handler,
                target_id: String::from_str(target_id.as_str()),
            },
            ManifestEffect::DivineDuration { stage, max_duration_game_hours } => ManifestEffect::DivineDuration {
                stage: *stage,
                max_duration_game_hours: *max_duration_game_hours,
            },
            ManifestEffect::DivineEconomy { stage, discount_basis_points } => ManifestEffect::DivineEconomy {
                stage: *stage,
                discount_basis_points: *discount_basis_points,
            },
            ManifestEffect::Rehabilitation { stage, restoration_bonus_percentage_points } => ManifestEffect::Rehabilitation {
                stage: *stage,
                restoration_bonus_percentage_points: *restoration_bonus_percentage_points,
            },
            ManifestEffect::Administration { stage, standing_order_slots, strategic_intent_slots } => ManifestEffect::Administration {
                stage: *stage,
                standing_order_slots: *standing_order_slots,
                strategic_intent_slots: *strategic_intent_slots,
            },
        }
    }
}

#[derive(Debug, Clone, Copy, PartialEq, Eq, PartialOrd, Ord, Hash, Structural)]
pub enum ManifestStudySource {
    CurrentCatalog,
    AdditiveTrack(ManifestTrack),
}

#[derive(Debug, Clone, PartialEq, Eq)]
pub struct ManifestStudy {
    pub stable_id: String,
    pub display_name: String,
    pub prerequisites: Vec<String>,
    pub source: ManifestStudySource,
    pub stage: Option<u8>,
    /// The finite price for ordinary studies and the next frozen price for an
    /// infinite terminal. Repeat completions double this value.
    pub cost_units: u64,
    pub repeatable_terminal: bool,
    pub order_index: usize,
    pub effects: Vec<ManifestEffect>,
}

/// A study with its texts as sequences of characters.
pub struct StudyRecord {
    pub id: Seq<char>,
    pub name: Seq<char>,
    pub prerequisites: Seq<Seq<char>>,
    pub source: ManifestStudySource,
    pub stage: Option<u8>,
    pub cost_units: u64,
    pub repeatable_terminal: bool,
    pub order_index: usize,
    pub effects: Seq<EffectView>,
}

pub open spec fn record(s: ManifestStudy) -> StudyRecord {
    StudyRecord {
        id: s.stable_id@,
        name: s.display_name@,
        prerequisites: strings_view(s.prerequisites@),
        source: s.source,
        stage: s.stage,
        cost_units: s.cost_units,
        repeatable_terminal: s.repeatable_terminal,
        order_index: s.order_index,
        effects: effects_view(s.effects@),
    }
}

pub open spec fn records(v: Seq<ManifestStudy>) -> Seq<StudyRecord> {
    v.map_values(|s: ManifestStudy| record(s))
}

fn copy_texts(v: &Vec<String>) -> (r: Vec<String>)
    ensures
        strings_view(r@) == strings_view(v@),
{
    let mut r: Vec<String> = Vec::new();
    let mut i: usize = 0;
    while i < v.len()
        invariant
            i <= v@.len(),
            strings_view(r@) == strings_view(v@.take(i as int)),
        decreases v@.len() - i,
    {
        r.push(String::from_str(v[i].as_str()));
        proof {
            assert(strings_view(v@.take(i + 1)) =~= strings_view(v@.take(i as int)).push(v@[i as int]@));
        }
        i = i + 1;
    }
    proof {
        assert(v@.take(v@.len() as int) =~= v@);
    }
    r
}

fn copy_effects(v: &Vec<ManifestEffect>) -> (r: Vec<ManifestEffect>)
    ensures
        effects_view(r@) == effects_view(v@),
{
    let mut r: Vec<ManifestEffect> = Vec::new();
    let mut i: usize = 0;
    while i < v.len()
        invariant
            i <= v@.len(),
            effects_view(r@) == effects_view(v@.take(i as int)),
        decreases v@.len() - i,
    {
        r.push(v[i].duplicate());
        proof {
            assert(effects_view(v@.take(i + 1)) =~= effects_view(v@.take(i as int)).push(effect_view(v@[i as int])));
        }
        i = i + 1;
    }
    proof {
        assert(v@.take(v@.len() as int) =~= v@);
    }
    r
}

impl ManifestStudy {
    /// A copy holding the same study.
    pub fn duplicate(&self) -> (r: Self)
        ensures
            record(r) == record(*self),
    {
        ManifestStudy {
            stable_id: String::from_str(self.stable_id.as_str()),
            display_name: String::from_str(self.display_name.as_str()),
            prerequisites: copy_texts(&self.prerequisites),
            source: self.source,
            stage: self.stage,
            cost_units: self.cost_units,
            repeatable_terminal: self.repeatable_terminal,
            order_index: self.order_index,
            effects: copy_effects(&self.effects),
        }
    }
}

#[derive(Debug, Clone, Copy, PartialEq, Eq, Structural)]
pub struct ResearchGraphTotals {
    pub raw_node_count: usize,
    pub track_count: usize,
    pub projected_node_count: usize,
    pub and_junction_count: usize,
    pub curated_junction_count: usize,
}

#[derive(Debug, Clone, PartialEq, Eq)]
pub enum ResearchManifestError {
    UnsupportedSchemaVersion,
    EmptyManifest,
    WrongGlobalTrackCount { expected: usize, actual: usize },
    InsufficientAndJunctions { minimum: usize, actual: usize },
    MissingCuratedJunctions { expected: usize, actual: usize },
    DuplicateStableId(String),
    DuplicateDisplayName(String),
    DuplicateOrderIndex(usize),
    DuplicatePrerequisite { study_id: String, prerequisite: String },
    MissingPrerequisite { study_id: String, prerequisite: String },
    SelfPrerequisite(String),
    CycleOrUnreachable { visited: usize, total: usize },
    BlankStudyIdentity,
    InvalidStage { study_id: String },
    StudyHasNoEffect(String),
    UnknownEffectHandler { study_id: String, handler: ManifestEffectHandler },
    DeprecatedStudyPresent(String),
    DeprecatedStudyReferenced { study_id: String, deprecated_id: String },
    MalformedTrack { track: ManifestTrack, reason: TrackFault },
    MalformedGlobalModifierTrack(String),
    MalformedRepeatable(String),
}

/// What is wrong with an additive track.
#[derive(Debug, Clone, Copy, PartialEq, Eq, Structural)]
pub enum TrackFault {
    WrongStageCount,
    NoncanonicalStageOrder,
    WrongPrerequisiteChain,
    WrongStageEffect,
}

/// A manifest error with its texts as sequences of characters.
pub enum ManifestFault {
    UnsupportedSchemaVersion,
    EmptyManifest,
    WrongGlobalTrackCount { expected: nat, actual: nat },
    InsufficientAndJunctions { minimum: nat, actual: nat },
    MissingCuratedJunctions { expected: nat, actual: nat },
    DuplicateStableId(Seq<char>),
    DuplicateDisplayName(Seq<char>),
    DuplicateOrderIndex(nat),
    DuplicatePrerequisite { study_id: Seq<char>, prerequisite: Seq<char> },
    MissingPrerequisite { study_id: Seq<char>, prerequisite: Seq<char> },
    SelfPrerequisite(Seq<char>),
    CycleOrUnreachable { visited: nat, total: nat },
    BlankStudyIdentity,
    InvalidStage { study_id: Seq<char> },
    StudyHasNoEffect(Seq<char>),
    UnknownEffectHandler { study_id: Seq<char>, handler: ManifestEffectHandler },
    DeprecatedStudyPresent(Seq<char>),
    DeprecatedStudyReferenced { study_id: Seq<char>, deprecated_id: Seq<char> },
    MalformedTrack { track: ManifestTrack, reason: TrackFault },
    MalformedGlobalModifierTrack(Seq<char>),
    MalformedRepeatable(Seq<char>),
}

pub open spec fn fault_of(e: ResearchManifestError) -> ManifestFault {
    match e {
        ResearchManifestError::UnsupportedSchemaVersion => ManifestFault::UnsupportedSchemaVersion,
        ResearchManifestError::EmptyManifest => ManifestFault::EmptyManifest,
        ResearchManifestError::WrongGlobalTrackCount { expected, actual } => ManifestFault::WrongGlobalTrackCount {
            expected: expected as nat,
            actual: actual as nat,
        },
        ResearchManifestError::InsufficientAndJunctions { minimum, actual } => ManifestFault::InsufficientAndJunctions {
            minimum: minimum as nat,
            actual: actual as nat,
        },
        ResearchManifestError::MissingCuratedJunctions { expected, actual } => ManifestFault::MissingCuratedJunctions {
            expected: expected as nat,
            actual: actual as nat,
        },
        ResearchManifestError::DuplicateStableId(s) => ManifestFault::DuplicateStableId(s@),
        ResearchManifestError::DuplicateDisplayName(s) => ManifestFault::DuplicateDisplayName(s@),
        ResearchManifestError::DuplicateOrderIndex(i) => ManifestFault::DuplicateOrderIndex(i as nat),
        ResearchManifestError::DuplicatePrerequisite { study_id, prerequisite } => ManifestFault::DuplicatePrerequisite {
            study_id: study_id@,
            prerequisite: prerequisite@,
        },
        ResearchManifestError::MissingPrerequisite { study_id, prerequisite } => ManifestFault::MissingPrerequisite {
            study_id: study_id@,
            prerequisite: prerequisite@,
        },
        ResearchManifestError::SelfPrerequisite(s) => ManifestFault::SelfPrerequisite(s@),
        ResearchManifestError::CycleOrUnreachable { visited, total } => ManifestFault::CycleOrUnreachable {
            visited: visited as nat,
            total: total as nat,
        },
        ResearchManifestError::BlankStudyIdentity => ManifestFault::BlankStudyIdentity,
        ResearchManifestError::InvalidStage { study_id } => ManifestFault::InvalidStage { study_id: study_id@ },
        ResearchManifestError::StudyHasNoEffect(s) => ManifestFault::StudyHasNoEffect(s@),
        ResearchManifestError::UnknownEffectHandler { study_id, handler } => ManifestFault::UnknownEffectHandler {
            study_id: study_id@,
            handler,
        },
        ResearchManifestError::DeprecatedStudyPresent(s) => ManifestFault::DeprecatedStudyPresent(s@),
        ResearchManifestError::DeprecatedStudyReferenced { study_id, deprecated_id } => ManifestFault::DeprecatedStudyReferenced {
            study_id: study_id@,
            deprecated_id: deprecated_id@,
        },
        ResearchManifestError::MalformedTrack { track, reason } => ManifestFault::MalformedTrack { track, reason },
        ResearchManifestError::MalformedGlobalModifierTrack(s) => ManifestFault::MalformedGlobalModifierTrack(s@),
        ResearchManifestError::MalformedRepeatable(s) => ManifestFault::MalformedRepeatable(s@),
    }
}

pub open spec fn fault_result<T>(r: Result<T, ResearchManifestError>) -> Option<ManifestFault> {
    match r {
        Ok(_) => None,
        Err(e) => Some(fault_of(e)),
    }
}

// ---------------------------------------------------------------------------
// Retired studies.

/// `c` and `f` are the same character ignoring ASCII case.
pub open spec fn same_ignoring_case(c: char, f: char) -> bool {
    c == f || ('A' <= c && c <= 'Z' && (c as u32) + 32 == f as u32)
}

/// `t` contains `f` at position `p`, ignoring ASCII case.
pub open spec fn contains_at(t: Seq<char>, f: Seq<char>, p: int) -> bool {
    0 <= p && p + f.len() <= t.len() && forall|k: int| 0 <= k < f.len() ==> #[trigger] same_ignoring_case(t[p + k], f[k])
}

/// `t` contains `f` somewhere, ignoring ASCII case.
pub open spec fn contains_ignoring_case(t: Seq<char>, f: Seq<char>) -> bool {
    exists|p: int| contains_at(t, f, p)
}

/// A study identifier belongs to the retired Shrine, Favor, generic-food or
/// coin authority: a retired storage study, a retired food identity, or one
/// that names a retired fragment in any ASCII case.
pub open spec fn obsolete_id(id: Seq<char>) -> bool {
    ||| exists|i: int| 0 <= i < 13 && #[trigger] deprecated_study_id(i) == id
    ||| exists|i: int| 0 <= i < 6 && #[trigger] obsolete_exact_id(i) == id
    ||| exists|i: int| 0 <= i < 7 && contains_ignoring_case(id, #[trigger] obsolete_fragment(i))
}

fn char_same_ignoring_case(c: char, f: char) -> (r: bool)
    ensures
        r == same_ignoring_case(c, f),
{
    c == f || ('A' <= c && c <= 'Z' && (c as u32) + 32 == f as u32)
}

fn text_contains_ignoring_case(t: &str, f: &str) -> (r: bool)
    ensures
        r == contains_ignoring_case(t@, f@),
{
    let n = t.unicode_len();
    let m = f.unicode_len();
    if m > n {
        proof {
            assert forall|p: int| !contains_at(t@, f@, p) by {}
        }
        return false;
    }
    let mut p: usize = 0;
    while p <= n - m
        invariant
            n == t@.len(),
            m == f@.len(),
            m <= n,
            p <= n - m + 1,
            forall|q: int| 0 <= q < p ==> !contains_at(t@, f@, q),
        decreases n - m + 1 - p,
    {
        let mut k: usize = 0;
        let mut all = true;
        while k < m
            invariant
                n == t@.len(),
                m == f@.len(),
                p + m <= n,
                k <= m,
                all == forall|j: int| 0 <= j < k ==> #[trigger] same_ignoring_case(t@[p + j], f@[j]),
            decreases m - k,
        {
            let same = char_same_ignoring_case(t.get_char(p + k), f.get_char(k));
            proof {
                if !same {
                    assert(!same_ignoring_case(t@[p + k as int], f@[k as int]));
                }
            }
            all = all && same;
            k = k + 1;
        }
        if all {
            proof {
                assert(contains_at(t@, f@, p as int));
            }
            return true;
        }
        p = p + 1;
    }
    proof {
        assert forall|q: int| !contains_at(t@, f@, q) by {
            if 0 <= q && q + m <= n {
                assert(q < p);
            }
        }
    }
    false
}

/// Whether a study identifier is retired.
pub fn is_obsolete_stable_id(id: &str) -> (r: bool)
    ensures
        r == obsolete_id(id@),
{
    let mut i: usize = 0;
    while i < 13
        invariant
            i <= 13,
            forall|j: int| 0 <= j < i ==> #[trigger] deprecated_study_id(j) != id@,
        decreases 13 - i,
    {
        if text_eq(deprecated_study_id_text(i), id) {
            return true;
        }
        i = i + 1;
    }
    let mut i: usize = 0;
    while i < 6
        invariant
            i <= 6,
            forall|j: int| 0 <= j < 13 ==> #[trigger] deprecated_study_id(j) != id@,
            forall|j: int| 0 <= j < i ==> #[trigger] obsolete_exact_id(j) != id@,
        decreases 6 - i,
    {
        if text_eq(obsolete_exact_id_text(i), id) {
            return true;
        }
        i = i + 1;
    }
    let mut i: usize = 0;
    while i < 7
        invariant
            i <= 7,
            forall|j: int| 0 <= j < 13 ==> #[trigger] deprecated_study_id(j) != id@,
            forall|j: int| 0 <= j < 6 ==> #[trigger] obsolete_exact_id(j) != id@,
            forall|j: int| 0 <= j < i ==> !contains_ignoring_case(id@, #[trigger] obsolete_fragment(j)),
        decreases 7 - i,
    {
        if text_contains_ignoring_case(id, obsolete_fragment_text(i)) {
            return true;
        }
        i = i + 1;
    }
    false
}

/// The global modifier tracks, by number.
pub open spec fn global_track_id(i: int) -> Seq<char> {
    if i == 0 {
        "logistics"@
    } else if i == 1 {
        "construction"@
    } else if i == 2 {
        "scholarship"@
    } else if i == 3 {
        "governance"@
    } else if i == 4 {
        "welfare"@
    } else if i == 5 {
        "exploration"@
    } else if i == 6 {
        "defense_doctrine"@
    } else if i == 7 {
        "combat_doctrine"@
    } else if i == 8 {
        "storage"@
    } else if i == 9 {
        "agriculture"@
    } else if i == 10 {
        "water_management"@
    } else if i == 11 {
        "craftsmanship"@
    } else if i == 12 {
        "trade"@
    } else {
        "resilience"@
    }
}

fn global_track_id_text(i: usize) -> (r: &'static str)
    requires
        i < 14,
    ensures
        r@ == global_track_id(i as int),
{
    if i == 0 {
        "logistics"
    } else if i == 1 {
        "construction"
    } else if i == 2 {
        "scholarship"
    } else if i == 3 {
        "governance"
    } else if i == 4 {
        "welfare"
    } else if i == 5 {
        "exploration"
    } else if i == 6 {
        "defense_doctrine"
    } else if i == 7 {
        "combat_doctrine"
    } else if i == 8 {
        "storage"
    } else if i == 9 {
        "agriculture"
    } else if i == 10 {
        "water_management"
    } else if i == 11 {
        "craftsmanship"
    } else if i == 12 {
        "trade"
    } else {
        "resilience"
    }
}

/// The global modifier stage names, by stage number less one.
pub open spec fn stage_suffix(i: int) -> Seq<char> {
    if i == 0 {
        "basics"@
    } else if i == 1 {
        "coordination"@
    } else if i == 2 {
        "standards"@
    } else if i == 3 {
        "instruments"@
    } else if i == 4 {
        "training"@
    } else if i == 5 {
        "networks"@
    } else if i == 6 {
        "specialization"@
    } else if i == 7 {
        "optimization"@
    } else if i == 8 {
        "resilience"@
    } else if i == 9 {
        "excellence"@
    } else {
        "mastery"@
    }
}

fn stage_suffix_text(i: usize) -> (r: &'static str)
    requires
        i < 11,
    ensures
        r@ == stage_suffix(i as int),
{
    if i == 0 {
        "basics"
    } else if i == 1 {
        "coordination"
    } else if i == 2 {
        "standards"
    } else if i == 3 {
        "instruments"
    } else if i == 4 {
        "training"
    } else if i == 5 {
        "networks"
    } else if i == 6 {
        "specialization"
    } else if i == 7 {
        "optimization"
    } else if i == 8 {
        "resilience"
    } else if i == 9 {
        "excellence"
    } else {
        "mastery"
    }
}

/// The curated convergence junctions, by number.
pub open spec fn curated_junction_id(i: int) -> Seq<char> {
    if i == 0 {
        "stone_tools"@
    } else if i == 1 {
        "metal_tools"@
    } else if i == 2 {
        "precision_tools"@
    } else if i == 3 {
        "civil_engineering"@
    } else if i == 4 {
        "preservation_science"@
    } else if i == 5 {
        "organized_provisioning"@
    } else if i == 6 {
        "public_administration"@
    } else {
        "combined_arms"@
    }
}

fn curated_junction_id_text(i: usize) -> (r: &'static str)
    requires
        i < 8,
    ensures
        r@ == curated_junction_id(i as int),
{
    if i == 0 {
        "stone_tools"
    } else if i == 1 {
        "metal_tools"
    } else if i == 2 {
        "precision_tools"
    } else if i == 3 {
        "civil_engineering"
    } else if i == 4 {
        "preservation_science"
    } else if i == 5 {
        "organized_provisioning"
    } else if i == 6 {
        "public_administration"
    } else {
        "combined_arms"
    }
}

/// The retired storage studies, by number.
pub open spec fn deprecated_study_id(i: int) -> Seq<char> {
    if i == 0 {
        "den_stores"@
    } else if i == 1 {
        "beds_stores"@
    } else if i == 2 {
        "herb_garden_stores"@
    } else if i == 3 {
        "nursery_stores"@
    } else if i == 4 {
        "elder_corner_stores"@
    } else if i == 5 {
        "walls_stores"@
    } else if i == 6 {
        "mouse_farm_stores"@
    } else if i == 7 {
        "shrine_stores"@
    } else if i == 8 {
        "field_stores"@
    } else if i == 9 {
        "research_hut_stores"@
    } else if i == 10 {
        "school_stores"@
    } else if i == 11 {
        "barracks_stores"@
    } else {
        "accounting_tent_stores"@
    }
}

fn deprecated_study_id_text(i: usize) -> (r: &'static str)
    requires
        i < 13,
    ensures
        r@ == deprecated_study_id(i as int),
{
    if i == 0 {
        "den_stores"
    } else if i == 1 {
        "beds_stores"
    } else if i == 2 {
        "herb_garden_stores"
    } else if i == 3 {
        "nursery_stores"
    } else if i == 4 {
        "elder_corner_stores"
    } else if i == 5 {
        "walls_stores"
    } else if i == 6 {
        "mouse_farm_stores"
    } else if i == 7 {
        "shrine_stores"
    } else if i == 8 {
        "field_stores"
    } else if i == 9 {
        "research_hut_stores"
    } else if i == 10 {
        "school_stores"
    } else if i == 11 {
        "barracks_stores"
    } else {
        "accounting_tent_stores"
    }
}

/// The retired food and ration identities, by number.
pub open spec fn obsolete_exact_id(i: int) -> Seq<char> {
    if i == 0 {
        "flour_to_food"@
    } else if i == 1 {
        "dry_food"@
    } else if i == 2 {
        "smoke_food"@
    } else if i == 3 {
        "pickle_food"@
    } else if i == 4 {
        "preserve_rations"@
    } else {
        "preserve_masterwork_feast"@
    }
}

fn obsolete_exact_id_text(i: usize) -> (r: &'static str)
    requires
        i < 6,
    ensures
        r@ == obsolete_exact_id(i as int),
{
    if i == 0 {
        "flour_to_food"
    } else if i == 1 {
        "dry_food"
    } else if i == 2 {
        "smoke_food"
    } else if i == 3 {
        "pickle_food"
    } else if i == 4 {
        "preserve_rations"
    } else {
        "preserve_masterwork_feast"
    }
}

/// The fragments that mark a retired study, by number.
pub open spec fn obsolete_fragment(i: int) -> Seq<char> {
    if i == 0 {
        "shrine"@
    } else if i == 1 {
        "favor"@
    } else if i == 2 {
        "blessing"@
    } else if i == 3 {
        "coin"@
    } else if i == 4 {
        "purse"@
    } else if i == 5 {
        "generic_food"@
    } else {
        "food_storage"@
    }
}

fn obsolete_fragment_text(i: usize) -> (r: &'static str)
    requires
        i < 7,
    ensures
        r@ == obsolete_fragment(i as int),
{
    if i == 0 {
        "shrine"
    } else if i == 1 {
        "favor"
    } else if i == 2 {
        "blessing"
    } else if i == 3 {
        "coin"
    } else if i == 4 {
        "purse"
    } else if i == 5 {
        "generic_food"
    } else {
        "food_storage"
    }
}

/// The capability families the two accepted plans add (identifiers)
pub open spec fn family_id(i: int) -> Seq<char> {
    if i == 0 {
        "typed_food_handling"@
    } else if i == 1 {
        "apple_ecology"@
    } else if i == 2 {
        "hand_fishing"@
    } else if i == 3 {
        "universal_quality"@
    } else if i == 4 {
        "physical_lot_ledger"@
    } else if i == 5 {
        "cookhouse"@
    } else if i == 6 {
        "fishing_hut"@
    } else if i == 7 {
        "fishing_rods"@
    } else if i == 8 {
        "hunting_lairs"@
    } else if i == 9 {
        "hunting_parties"@
    } else if i == 10 {
        "plank_processing"@
    } else if i == 11 {
        "material_processing"@
    } else if i == 12 {
        "augmentations"@
    } else if i == 13 {
        "station_fixtures"@
    } else if i == 14 {
        "research_instruments"@
    } else if i == 15 {
        "black_hole_foundations"@
    } else if i == 16 {
        "black_hole_width"@
    } else if i == 17 {
        "black_hole_depth"@
    } else if i == 18 {
        "black_hole_darkness"@
    } else if i == 19 {
        "void_insight_studies"@
    } else if i == 20 {
        "governance_foundations"@
    } else if i == 21 {
        "partnerships"@
    } else if i == 22 {
        "family_homes"@
    } else if i == 23 {
        "elder_lodge"@
    } else if i == 24 {
        "nursery"@
    } else if i == 25 {
        "mentorship"@
    } else if i == 26 {
        "family_traditions"@
    } else if i == 27 {
        "professional_enterprises"@
    } else if i == 28 {
        "three_stage_construction"@
    } else if i == 29 {
        "building_upgrade_permits"@
    } else if i == 30 {
        "storage_zones"@
    } else if i == 31 {
        "basket_containers"@
    } else if i == 32 {
        "barrel_containers"@
    } else if i == 33 {
        "crate_containers"@
    } else if i == 34 {
        "chest_containers"@
    } else if i == 35 {
        "rack_containers"@
    } else if i == 36 {
        "linked_workshop_storage"@
    } else if i == 37 {
        "physical_farms"@
    } else if i == 38 {
        "authored_roads"@
    } else if i == 39 {
        "walls_and_gates"@
    } else if i == 40 {
        "food_permissions"@
    } else if i == 41 {
        "material_barter"@
    } else if i == 42 {
        "village_diplomacy"@
    } else {
        "prosthetic_rehabilitation"@
    }
}

fn family_id_text(i: usize) -> (r: &'static str)
    requires
        i < 44,
    ensures
        r@ == family_id(i as int),
{
    if i == 0 {
        "typed_food_handling"
    } else if i == 1 {
        "apple_ecology"
    } else if i == 2 {
        "hand_fishing"
    } else if i == 3 {
        "universal_quality"
    } else if i == 4 {
        "physical_lot_ledger"
    } else if i == 5 {
        "cookhouse"
    } else if i == 6 {
        "fishing_hut"
    } else if i == 7 {
        "fishing_rods"
    } else if i == 8 {
        "hunting_lairs"
    } else if i == 9 {
        "hunting_parties"
    } else if i == 10 {
        "plank_processing"
    } else if i == 11 {
        "material_processing"
    } else if i == 12 {
        "augmentations"
    } else if i == 13 {
        "station_fixtures"
    } else if i == 14 {
        "research_instruments"
    } else if i == 15 {
        "black_hole_foundations"
    } else if i == 16 {
        "black_hole_width"
    } else if i == 17 {
        "black_hole_depth"
    } else if i == 18 {
        "black_hole_darkness"
    } else if i == 19 {
        "void_insight_studies"
    } else if i == 20 {
        "governance_foundations"
    } else if i == 21 {
        "partnerships"
    } else if i == 22 {
        "family_homes"
    } else if i == 23 {
        "elder_lodge"
    } else if i == 24 {
        "nursery"
    } else if i == 25 {
        "mentorship"
    } else if i == 26 {
        "family_traditions"
    } else if i == 27 {
        "professional_enterprises"
    } else if i == 28 {
        "three_stage_construction"
    } else if i == 29 {
        "building_upgrade_permits"
    } else if i == 30 {
        "storage_zones"
    } else if i == 31 {
        "basket_containers"
    } else if i == 32 {
        "barrel_containers"
    } else if i == 33 {
        "crate_containers"
    } else if i == 34 {
        "chest_containers"
    } else if i == 35 {
        "rack_containers"
    } else if i == 36 {
        "linked_workshop_storage"
    } else if i == 37 {
        "physical_farms"
    } else if i == 38 {
        "authored_roads"
    } else if i == 39 {
        "walls_and_gates"
    } else if i == 40 {
        "food_permissions"
    } else if i == 41 {
        "material_barter"
    } else if i == 42 {
        "village_diplomacy"
    } else {
        "prosthetic_rehabilitation"
    }
}

/// The capability families the two accepted plans add (display names)
pub open spec fn family_name(i: int) -> Seq<char> {
    if i == 0 {
        "Typed Food Handling"@
    } else if i == 1 {
        "Apple Ecology"@
    } else if i == 2 {
        "Hand Fishing"@
    } else if i == 3 {
        "Universal Quality"@
    } else if i == 4 {
        "Physical Lot Ledger"@
    } else if i == 5 {
        "Cookhouse Permit"@
    } else if i == 6 {
        "Fishing Hut Permit"@
    } else if i == 7 {
        "Fishing Rods"@
    } else if i == 8 {
        "Hunting Lairs"@
    } else if i == 9 {
        "Hunting Parties"@
    } else if i == 10 {
        "Global Plank Processing"@
    } else if i == 11 {
        "Material Processing"@
    } else if i == 12 {
        "Typed Augmentations"@
    } else if i == 13 {
        "Typed Station Fixtures"@
    } else if i == 14 {
        "Research Instruments"@
    } else if i == 15 {
        "The Hole Foundations"@
    } else if i == 16 {
        "Hole Width"@
    } else if i == 17 {
        "Hole Depth"@
    } else if i == 18 {
        "Hole Darkness"@
    } else if i == 19 {
        "Void Insight Studies"@
    } else if i == 20 {
        "Governance Foundations"@
    } else if i == 21 {
        "Persistent Partnerships"@
    } else if i == 22 {
        "Family Home Permit"@
    } else if i == 23 {
        "Elder Lodge Permit"@
    } else if i == 24 {
        "Nursery Permit"@
    } else if i == 25 {
        "Physical Mentorship"@
    } else if i == 26 {
        "Family Traditions"@
    } else if i == 27 {
        "Professional Enterprises"@
    } else if i == 28 {
        "Three-stage Construction"@
    } else if i == 29 {
        "Building Upgrade Permits"@
    } else if i == 30 {
        "Physical Storage Zones"@
    } else if i == 31 {
        "Basket Containers"@
    } else if i == 32 {
        "Barrel Containers"@
    } else if i == 33 {
        "Crate Containers"@
    } else if i == 34 {
        "Chest Containers"@
    } else if i == 35 {
        "Rack Containers"@
    } else if i == 36 {
        "Linked Workshop Storage"@
    } else if i == 37 {
        "Physical Farms"@
    } else if i == 38 {
        "Authored Roads"@
    } else if i == 39 {
        "Walls and Gates"@
    } else if i == 40 {
        "Leader Food Permissions"@
    } else if i == 41 {
        "Material Barter"@
    } else if i == 42 {
        "Village Diplomacy"@
    } else {
        "Prosthetic Rehabilitation"@
    }
}

fn family_name_text(i: usize) -> (r: &'static str)
    requires
        i < 44,
    ensures
        r@ == family_name(i as int),
{
    if i == 0 {
        "Typed Food Handling"
    } else if i == 1 {
        "Apple Ecology"
    } else if i == 2 {
        "Hand Fishing"
    } else if i == 3 {
        "Universal Quality"
    } else if i == 4 {
        "Physical Lot Ledger"
    } else if i == 5 {
        "Cookhouse Permit"
    } else if i == 6 {
        "Fishing Hut Permit"
    } else if i == 7 {
        "Fishing Rods"
    } else if i == 8 {
        "Hunting Lairs"
    } else if i == 9 {
        "Hunting Parties"
    } else if i == 10 {
        "Global Plank Processing"
    } else if i == 11 {
        "Material Processing"
    } else if i == 12 {
        "Typed Augmentations"
    } else if i == 13 {
        "Typed Station Fixtures"
    } else if i == 14 {
        "Research Instruments"
    } else if i == 15 {
        "The Hole Foundations"
    } else if i == 16 {
        "Hole Width"
    } else if i == 17 {
        "Hole Depth"
    } else if i == 18 {
        "Hole Darkness"
    } else if i == 19 {
        "Void Insight Studies"
    } else if i == 20 {
        "Governance Foundations"
    } else if i == 21 {
        "Persistent Partnerships"
    } else if i == 22 {
        "Family Home Permit"
    } else if i == 23 {
        "Elder Lodge Permit"
    } else if i == 24 {
        "Nursery Permit"
    } else if i == 25 {
        "Physical Mentorship"
    } else if i == 26 {
        "Family Traditions"
    } else if i == 27 {
        "Professional Enterprises"
    } else if i == 28 {
        "Three-stage Construction"
    } else if i == 29 {
        "Building Upgrade Permits"
    } else if i == 30 {
        "Physical Storage Zones"
    } else if i == 31 {
        "Basket Containers"
    } else if i == 32 {
        "Barrel Containers"
    } else if i == 33 {
        "Crate Containers"
    } else if i == 34 {
        "Chest Containers"
    } else if i == 35 {
        "Rack Containers"
    } else if i == 36 {
        "Linked Workshop Storage"
    } else if i == 37 {
        "Physical Farms"
    } else if i == 38 {
        "Authored Roads"
    } else if i == 39 {
        "Walls and Gates"
    } else if i == 40 {
        "Leader Food Permissions"
    } else if i == 41 {
        "Material Barter"
    } else if i == 42 {
        "Village Diplomacy"
    } else {
        "Prosthetic Rehabilitation"
    }
}

/// The capability families the two accepted plans add (prerequisites).
pub open spec fn family_prerequisites(i: int) -> Seq<Seq<char>> {
    if i == 0 {
        Seq::empty()
    } else if i == 1 {
        seq!["typed_food_handling"@]
    } else if i == 2 {
        seq!["typed_food_handling"@]
    } else if i == 3 {
        seq!["typed_food_handling"@]
    } else if i == 4 {
        seq!["universal_quality"@]
    } else if i == 5 {
        seq!["typed_food_handling"@, "physical_lot_ledger"@]
    } else if i == 6 {
        seq!["hand_fishing"@, "physical_lot_ledger"@]
    } else if i == 7 {
        seq!["hand_fishing"@, "universal_quality"@]
    } else if i == 8 {
        seq!["universal_quality"@]
    } else if i == 9 {
        seq!["hunting_lairs"@, "physical_lot_ledger"@]
    } else if i == 10 {
        Seq::empty()
    } else if i == 11 {
        seq!["plank_processing"@, "universal_quality"@]
    } else if i == 12 {
        seq!["material_processing"@, "physical_lot_ledger"@]
    } else if i == 13 {
        seq!["material_processing"@, "physical_lot_ledger"@]
    } else if i == 14 {
        seq!["material_processing"@, "universal_quality"@]
    } else if i == 15 {
        seq!["physical_lot_ledger"@]
    } else if i == 16 {
        seq!["black_hole_foundations"@, "plank_processing"@]
    } else if i == 17 {
        seq!["black_hole_foundations"@, "material_processing"@]
    } else if i == 18 {
        seq!["black_hole_width"@, "black_hole_depth"@]
    } else if i == 19 {
        seq!["black_hole_darkness"@, "research_instruments"@]
    } else if i == 20 {
        Seq::empty()
    } else if i == 21 {
        seq!["governance_foundations"@]
    } else if i == 22 {
        seq!["partnerships"@, "plank_processing"@]
    } else if i == 23 {
        seq!["family_homes"@, "universal_quality"@]
    } else if i == 24 {
        seq!["family_homes"@, "governance_foundations"@]
    } else if i == 25 {
        seq!["nursery"@, "research_instruments"@]
    } else if i == 26 {
        seq!["mentorship"@, "partnerships"@]
    } else if i == 27 {
        seq!["family_traditions"@, "station_fixtures"@]
    } else if i == 28 {
        seq!["plank_processing"@, "physical_lot_ledger"@]
    } else if i == 29 {
        seq!["three_stage_construction"@, "governance_foundations"@]
    } else if i == 30 {
        seq!["physical_lot_ledger"@, "governance_foundations"@]
    } else if i == 31 {
        seq!["storage_zones"@, "typed_food_handling"@]
    } else if i == 32 {
        seq!["storage_zones"@, "material_processing"@]
    } else if i == 33 {
        seq!["storage_zones"@, "plank_processing"@]
    } else if i == 34 {
        seq!["storage_zones"@, "station_fixtures"@]
    } else if i == 35 {
        seq!["storage_zones"@, "material_processing"@]
    } else if i == 36 {
        seq!["storage_zones"@, "professional_enterprises"@]
    } else if i == 37 {
        seq!["typed_food_handling"@, "storage_zones"@]
    } else if i == 38 {
        seq!["three_stage_construction"@, "governance_foundations"@]
    } else if i == 39 {
        seq!["authored_roads"@, "material_processing"@]
    } else if i == 40 {
        seq!["typed_food_handling"@, "governance_foundations"@]
    } else if i == 41 {
        seq!["physical_lot_ledger"@, "governance_foundations"@]
    } else if i == 42 {
        seq!["material_barter"@, "professional_enterprises"@]
    } else {
        seq!["material_processing"@, "mentorship"@]
    }
}

fn family_prerequisite_list(i: usize) -> (r: Vec<String>)
    requires
        i < 44,
    ensures
        strings_view(r@) == family_prerequisites(i as int),
{
    let mut r: Vec<String> = Vec::new();
    if i == 0 {
    } else if i == 1 {
        r.push(String::from_str("typed_food_handling"));
    } else if i == 2 {
        r.push(String::from_str("typed_food_handling"));
    } else if i == 3 {
        r.push(String::from_str("typed_food_handling"));
    } else if i == 4 {
        r.push(String::from_str("universal_quality"));
    } else if i == 5 {
        r.push(String::from_str("typed_food_handling"));
        r.push(String::from_str("physical_lot_ledger"));
    } else if i == 6 {
        r.push(String::from_str("hand_fishing"));
        r.push(String::from_str("physical_lot_ledger"));
    } else if i == 7 {
        r.push(String::from_str("hand_fishing"));
        r.push(String::from_str("universal_quality"));
    } else if i == 8 {
        r.push(String::from_str("universal_quality"));
    } else if i == 9 {
        r.push(String::from_str("hunting_lairs"));
        r.push(String::from_str("physical_lot_ledger"));
    } else if i == 10 {
    } else if i == 11 {
        r.push(String::from_str("plank_processing"));
        r.push(String::from_str("universal_quality"));
    } else if i == 12 {
        r.push(String::from_str("material_processing"));
        r.push(String::from_str("physical_lot_ledger"));
    } else if i == 13 {
        r.push(String::from_str("material_processing"));
        r.push(String::from_str("physical_lot_ledger"));
    } else if i == 14 {
        r.push(String::from_str("material_processing"));
        r.push(String::from_str("universal_quality"));
    } else if i == 15 {
        r.push(String::from_str("physical_lot_ledger"));
    } else if i == 16 {
        r.push(String::from_str("black_hole_foundations"));
        r.push(String::from_str("plank_processing"));
    } else if i == 17 {
        r.push(String::from_str("black_hole_foundations"));
        r.push(String::from_str("material_processing"));
    } else if i == 18 {
        r.push(String::from_str("black_hole_width"));
        r.push(String::from_str("black_hole_depth"));
    } else if i == 19 {
        r.push(String::from_str("black_hole_darkness"));
        r.push(String::from_str("research_instruments"));
    } else if i == 20 {
    } else if i == 21 {
        r.push(String::from_str("governance_foundations"));
    } else if i == 22 {
        r.push(String::from_str("partnerships"));
        r.push(String::from_str("plank_processing"));
    } else if i == 23 {
        r.push(String::from_str("family_homes"));
        r.push(String::from_str("universal_quality"));
    } else if i == 24 {
        r.push(String::from_str("family_homes"));
        r.push(String::from_str("governance_foundations"));
    } else if i == 25 {
        r.push(String::from_str("nursery"));
        r.push(String::from_str("research_instruments"));
    } else if i == 26 {
        r.push(String::from_str("mentorship"));
        r.push(String::from_str("partnerships"));
    } else if i == 27 {
        r.push(String::from_str("family_traditions"));
        r.push(String::from_str("station_fixtures"));
    } else if i == 28 {
        r.push(String::from_str("plank_processing"));
        r.push(String::from_str("physical_lot_ledger"));
    } else if i == 29 {
        r.push(String::from_str("three_stage_construction"));
        r.push(String::from_str("governance_foundations"));
    } else if i == 30 {
        r.push(String::from_str("physical_lot_ledger"));
        r.push(String::from_str("governance_foundations"));
    } else if i == 31 {
        r.push(String::from_str("storage_zones"));
        r.push(String::from_str("typed_food_handling"));
    } else if i == 32 {
        r.push(String::from_str("storage_zones"));
        r.push(String::from_str("material_processing"));
    } else if i == 33 {
        r.push(String::from_str("storage_zones"));
        r.push(String::from_str("plank_processing"));
    } else if i == 34 {
        r.push(String::from_str("storage_zones"));
        r.push(String::from_str("station_fixtures"));
    } else if i == 35 {
        r.push(String::from_str("storage_zones"));
        r.push(String::from_str("material_processing"));
    } else if i == 36 {
        r.push(String::from_str("storage_zones"));
        r.push(String::from_str("professional_enterprises"));
    } else if i == 37 {
        r.push(String::from_str("typed_food_handling"));
        r.push(String::from_str("storage_zones"));
    } else if i == 38 {
        r.push(String::from_str("three_stage_construction"));
        r.push(String::from_str("governance_foundations"));
    } else if i == 39 {
        r.push(String::from_str("authored_roads"));
        r.push(String::from_str("material_processing"));
    } else if i == 40 {
        r.push(String::from_str("typed_food_handling"));
        r.push(String::from_str("governance_foundations"));
    } else if i == 41 {
        r.push(String::from_str("physical_lot_ledger"));
        r.push(String::from_str("governance_foundations"));
    } else if i == 42 {
        r.push(String::from_str("material_barter"));
        r.push(String::from_str("professional_enterprises"));
    } else {
        r.push(String::from_str("material_processing"));
        r.push(String::from_str("mentorship"));
    }
    proof {
        assert(strings_view(r@) =~= family_prerequisites(i as int));
    }
    r
}

/// The curated convergence studies (identifiers)
pub open spec fn curated_id(i: int) -> Seq<char> {
    if i == 0 {
        "stone_tools"@
    } else if i == 1 {
        "metal_tools"@
    } else if i == 2 {
        "precision_tools"@
    } else if i == 3 {
        "civil_engineering"@
    } else if i == 4 {
        "preservation_science"@
    } else if i == 5 {
        "organized_provisioning"@
    } else if i == 6 {
        "public_administration"@
    } else {
        "combined_arms"@
    }
}

fn curated_id_text(i: usize) -> (r: &'static str)
    requires
        i < 8,
    ensures
        r@ == curated_id(i as int),
{
    if i == 0 {
        "stone_tools"
    } else if i == 1 {
        "metal_tools"
    } else if i == 2 {
        "precision_tools"
    } else if i == 3 {
        "civil_engineering"
    } else if i == 4 {
        "preservation_science"
    } else if i == 5 {
        "organized_provisioning"
    } else if i == 6 {
        "public_administration"
    } else {
        "combined_arms"
    }
}

/// The curated convergence studies (display names)
pub open spec fn curated_name(i: int) -> Seq<char> {
    if i == 0 {
        "Stone Tools"@
    } else if i == 1 {
        "Metal Tools"@
    } else if i == 2 {
        "Precision Tools"@
    } else if i == 3 {
        "Civil Engineering"@
    } else if i == 4 {
        "Preservation Science"@
    } else if i == 5 {
        "Organized Provisioning"@
    } else if i == 6 {
        "Public Administration"@
    } else {
        "Combined Arms"@
    }
}

fn curated_name_text(i: usize) -> (r: &'static str)
    requires
        i < 8,
    ensures
        r@ == curated_name(i as int),
{
    if i == 0 {
        "Stone Tools"
    } else if i == 1 {
        "Metal Tools"
    } else if i == 2 {
        "Precision Tools"
    } else if i == 3 {
        "Civil Engineering"
    } else if i == 4 {
        "Preservation Science"
    } else if i == 5 {
        "Organized Provisioning"
    } else if i == 6 {
        "Public Administration"
    } else {
        "Combined Arms"
    }
}

/// The curated convergence studies (prerequisites).
pub open spec fn curated_prerequisites(i: int) -> Seq<Seq<char>> {
    if i == 0 {
        seq!["plank_processing"@, "material_processing"@]
    } else if i == 1 {
        seq!["stone_tools"@, "material_processing"@]
    } else if i == 2 {
        seq!["metal_tools"@, "research_instruments"@]
    } else if i == 3 {
        seq!["three_stage_construction"@, "authored_roads"@]
    } else if i == 4 {
        seq!["typed_food_handling"@, "barrel_containers"@]
    } else if i == 5 {
        seq!["storage_zones"@, "food_permissions"@]
    } else if i == 6 {
        seq!["governance_foundations"@, "professional_enterprises"@]
    } else {
        seq!["hunting_parties"@, "walls_and_gates"@]
    }
}

fn curated_prerequisite_list(i: usize) -> (r: Vec<String>)
    requires
        i < 8,
    ensures
        strings_view(r@) == curated_prerequisites(i as int),
{
    let mut r: Vec<String> = Vec::new();
    if i == 0 {
        r.push(String::from_str("plank_processing"));
        r.push(String::from_str("material_processing"));
    } else if i == 1 {
        r.push(String::from_str("stone_tools"));
        r.push(String::from_str("material_processing"));
    } else if i == 2 {
        r.push(String::from_str("metal_tools"));
        r.push(String::from_str("research_instruments"));
    } else if i == 3 {
        r.push(String::from_str("three_stage_construction"));
        r.push(String::from_str("authored_roads"));
    } else if i == 4 {
        r.push(String::from_str("typed_food_handling"));
        r.push(String::from_str("barrel_containers"));
    } else if i == 5 {
        r.push(String::from_str("storage_zones"));
        r.push(String::from_str("food_permissions"));
    } else if i == 6 {
        r.push(String::from_str("governance_foundations"));
        r.push(String::from_str("professional_enterprises"));
    } else {
        r.push(String::from_str("hunting_parties"));
        r.push(String::from_str("walls_and_gates"));
    }
    proof {
        assert(strings_view(r@) =~= curated_prerequisites(i as int));
    }
    r
}

/// The rare material capabilities (identifiers).
pub open spec fn rare_material_id(i: int) -> Seq<char> {
    if i == 0 {
        "bat_wing_processing"@
    } else if i == 1 {
        "fox_pelt_processing"@
    } else if i == 2 {
        "badger_pelt_processing"@
    } else if i == 3 {
        "boar_tusk_processing"@
    } else if i == 4 {
        "wolf_pelt_processing"@
    } else if i == 5 {
        "lynx_pelt_processing"@
    } else if i == 6 {
        "stag_antler_processing"@
    } else if i == 7 {
        "serpent_scale_processing"@
    } else if i == 8 {
        "bear_pelt_processing"@
    } else if i == 9 {
        "eagle_feather_processing"@
    } else if i == 10 {
        "moon_antler_processing"@
    } else if i == 11 {
        "warg_fang_processing"@
    } else if i == 12 {
        "cockatrice_eye_processing"@
    } else if i == 13 {
        "troll_hide_processing"@
    } else if i == 14 {
        "griffin_plume_processing"@
    } else if i == 15 {
        "basilisk_scale_processing"@
    } else if i == 16 {
        "manticore_barb_processing"@
    } else if i == 17 {
        "beast_core_processing"@
    } else if i == 18 {
        "wyvern_membrane_processing"@
    } else {
        "dragon_heart_processing"@
    }
}

fn rare_material_id_text(i: usize) -> (r: &'static str)
    requires
        i < 20,
    ensures
        r@ == rare_material_id(i as int),
{
    if i == 0 {
        "bat_wing_processing"
    } else if i == 1 {
        "fox_pelt_processing"
    } else if i == 2 {
        "badger_pelt_processing"
    } else if i == 3 {
        "boar_tusk_processing"
    } else if i == 4 {
        "wolf_pelt_processing"
    } else if i == 5 {
        "lynx_pelt_processing"
    } else if i == 6 {
        "stag_antler_processing"
    } else if i == 7 {
        "serpent_scale_processing"
    } else if i == 8 {
        "bear_pelt_processing"
    } else if i == 9 {
        "eagle_feather_processing"
    } else if i == 10 {
        "moon_antler_processing"
    } else if i == 11 {
        "warg_fang_processing"
    } else if i == 12 {
        "cockatrice_eye_processing"
    } else if i == 13 {
        "troll_hide_processing"
    } else if i == 14 {
        "griffin_plume_processing"
    } else if i == 15 {
        "basilisk_scale_processing"
    } else if i == 16 {
        "manticore_barb_processing"
    } else if i == 17 {
        "beast_core_processing"
    } else if i == 18 {
        "wyvern_membrane_processing"
    } else {
        "dragon_heart_processing"
    }
}

/// The rare material capabilities (display names).
pub open spec fn rare_material_name(i: int) -> Seq<char> {
    if i == 0 {
        "Bat Wing Processing"@
    } else if i == 1 {
        "Fox Pelt Processing"@
    } else if i == 2 {
        "Badger Pelt Processing"@
    } else if i == 3 {
        "Boar Tusk Processing"@
    } else if i == 4 {
        "Wolf Pelt Processing"@
    } else if i == 5 {
        "Lynx Pelt Processing"@
    } else if i == 6 {
        "Stag Antler Processing"@
    } else if i == 7 {
        "Serpent Scale Processing"@
    } else if i == 8 {
        "Bear Pelt Processing"@
    } else if i == 9 {
        "Eagle Feather Processing"@
    } else if i == 10 {
        "Moon Antler Processing"@
    } else if i == 11 {
        "Warg Fang Processing"@
    } else if i == 12 {
        "Cockatrice Eye Processing"@
    } else if i == 13 {
        "Troll Hide Processing"@
    } else if i == 14 {
        "Griffin Plume Processing"@
    } else if i == 15 {
        "Basilisk Scale Processing"@
    } else if i == 16 {
        "Manticore Barb Processing"@
    } else if i == 17 {
        "Beast Core Processing"@
    } else if i == 18 {
        "Wyvern Membrane Processing"@
    } else {
        "Dragon Heart Processing"@
    }
}

fn rare_material_name_text(i: usize) -> (r: &'static str)
    requires
        i < 20,
    ensures
        r@ == rare_material_name(i as int),
{
    if i == 0 {
        "Bat Wing Processing"
    } else if i == 1 {
        "Fox Pelt Processing"
    } else if i == 2 {
        "Badger Pelt Processing"
    } else if i == 3 {
        "Boar Tusk Processing"
    } else if i == 4 {
        "Wolf Pelt Processing"
    } else if i == 5 {
        "Lynx Pelt Processing"
    } else if i == 6 {
        "Stag Antler Processing"
    } else if i == 7 {
        "Serpent Scale Processing"
    } else if i == 8 {
        "Bear Pelt Processing"
    } else if i == 9 {
        "Eagle Feather Processing"
    } else if i == 10 {
        "Moon Antler Processing"
    } else if i == 11 {
        "Warg Fang Processing"
    } else if i == 12 {
        "Cockatrice Eye Processing"
    } else if i == 13 {
        "Troll Hide Processing"
    } else if i == 14 {
        "Griffin Plume Processing"
    } else if i == 15 {
        "Basilisk Scale Processing"
    } else if i == 16 {
        "Manticore Barb Processing"
    } else if i == 17 {
        "Beast Core Processing"
    } else if i == 18 {
        "Wyvern Membrane Processing"
    } else {
        "Dragon Heart Processing"
    }
}


// ---------------------------------------------------------------------------
// Additive tracks.

/// The longest divine boost a duration stage allows, in game hours.
pub open spec fn duration_stage_hours(stage: int) -> u8 {
    if stage == 1 {
        2
    } else if stage == 2 {
        3
    } else if stage == 3 {
        4
    } else if stage == 4 {
        6
    } else if stage == 5 {
        8
    } else if stage == 6 {
        10
    } else if stage == 7 {
        12
    } else if stage == 8 {
        16
    } else if stage == 9 {
        18
    } else if stage == 10 {
        21
    } else {
        24
    }
}

fn duration_stage_hours_value(stage: u8) -> (r: u8)
    ensures
        r == duration_stage_hours(stage as int),
{
    if stage == 1 {
        2
    } else if stage == 2 {
        3
    } else if stage == 3 {
        4
    } else if stage == 4 {
        6
    } else if stage == 5 {
        8
    } else if stage == 6 {
        10
    } else if stage == 7 {
        12
    } else if stage == 8 {
        16
    } else if stage == 9 {
        18
    } else if stage == 10 {
        21
    } else {
        24
    }
}

/// The effect of stage `stage` of a track: the boost duration, the economy
/// discount (three percent a stage), the restoration bonus (two points a
/// stage) or the administration slots.
pub open spec fn track_effect(t: ManifestTrack, stage: u8) -> EffectView {
    match t {
        ManifestTrack::DivineDuration => EffectView::DivineDuration {
            stage,
            max_duration_game_hours: duration_stage_hours(stage as int),
        },
        ManifestTrack::DivineEconomy => EffectView::DivineEconomy { stage, discount_basis_points: (300 * stage) as u16 },
        ManifestTrack::Rehabilitation => EffectView::Rehabilitation {
            stage,
            restoration_bonus_percentage_points: (2 * stage) as u8,
        },
        ManifestTrack::Administration => EffectView::Administration {
            stage,
            standing_order_slots: (stage + 3) as u8,
            strategic_intent_slots: (3 + (stage + 2) / 2) as u8,
        },
    }
}

fn track_effect_value(t: ManifestTrack, stage: u8) -> (r: ManifestEffect)
    requires
        1 <= stage <= 11,
    ensures
        effect_view(r) == track_effect(t, stage),
{
    match t {
        ManifestTrack::DivineDuration => ManifestEffect::DivineDuration {
            stage,
            max_duration_game_hours: duration_stage_hours_value(stage),
        },
        ManifestTrack::DivineEconomy => ManifestEffect::DivineEconomy { stage, discount_basis_points: 300 * stage as u16 },
        ManifestTrack::Rehabilitation => ManifestEffect::Rehabilitation {
            stage,
            restoration_bonus_percentage_points: 2 * stage,
        },
        ManifestTrack::Administration => ManifestEffect::Administration {
            stage,
            standing_order_slots: stage + 3,
            strategic_intent_slots: 3 + (stage + 2) / 2,
        },
    }
}

/// Whether `e` is the effect of stage `stage` of track `t`.
fn is_track_effect(e: &ManifestEffect, t: ManifestTrack, stage: u8) -> (r: bool)
    requires
        1 <= stage <= 11,
    ensures
        r == (effect_view(*e) == track_effect(t, stage)),
{
    let expected = track_effect_value(t, stage);
    match (e, &expected) {
        (
            ManifestEffect::DivineDuration { stage: a, max_duration_game_hours: b },
            ManifestEffect::DivineDuration { stage: c, max_duration_game_hours: d },
        ) => *a == *c && *b == *d,
        (
            ManifestEffect::DivineEconomy { stage: a, discount_basis_points: b },
            ManifestEffect::DivineEconomy { stage: c, discount_basis_points: d },
        ) => *a == *c && *b == *d,
        (
            ManifestEffect::Rehabilitation { stage: a, restoration_bonus_percentage_points: b },
            ManifestEffect::Rehabilitation { stage: c, restoration_bonus_percentage_points: d },
        ) => *a == *c && *b == *d,
        (
            ManifestEffect::Administration { stage: a, standing_order_slots: b, strategic_intent_slots: x },
            ManifestEffect::Administration { stage: c, standing_order_slots: d, strategic_intent_slots: y },
        ) => *a == *c && *b == *d && *x == *y,
        _ => false,
    }
}

/// The identifier of stage `stage` of track `t`, such as `rehabilitation_stage_03`.
pub open spec fn track_study_id(t: ManifestTrack, stage: int) -> Seq<char> {
    track_prefix(t) + "_stage_"@ + two_digits(stage)
}

fn track_study_id_text(t: ManifestTrack, stage: u8) -> (r: String)
    requires
        1 <= stage <= 11,
    ensures
        r@ == track_study_id(t, stage as int),
{
    let mut s = String::from_str(t.stable_prefix());
    s.append("_stage_");
    push_two_digits(&mut s, stage);
    s
}

/// The one prerequisite of stage `stage` of track `t`: the track's root for
/// the first stage, the stage before otherwise.
pub open spec fn track_prerequisite(t: ManifestTrack, stage: int) -> Seq<char> {
    if stage == 1 {
        track_root(t)
    } else {
        track_study_id(t, stage - 1)
    }
}

fn track_prerequisite_text(t: ManifestTrack, stage: u8) -> (r: String)
    requires
        1 <= stage <= 11,
    ensures
        r@ == track_prerequisite(t, stage as int),
{
    if stage == 1 {
        String::from_str(t.root_prerequisite())
    } else {
        track_study_id_text(t, stage - 1)
    }
}

// ---------------------------------------------------------------------------
// The manifest rules.

/// What is wrong with a study's identity: a blank identifier or name, or a
/// stage outside one to eleven.
pub open spec fn identity_fault(st: StudyRecord) -> Option<ManifestFault> {
    if is_blank(st.id) || is_blank(st.name) {
        Some(ManifestFault::BlankStudyIdentity)
    } else if st.stage matches Some(g) && (g == 0 || g > 11) {
        Some(ManifestFault::InvalidStage { study_id: st.id })
    } else {
        None
    }
}

/// What is wrong with study `i` given the studies before it. Every effect
/// handler is live, so no effect is refused for its handler.
pub open spec fn study_fault(s: Seq<StudyRecord>, i: int) -> Option<ManifestFault> {
    let st = s[i];
    if identity_fault(st) is Some {
        identity_fault(st)
    } else if exists|j: int| 0 <= j < i && (#[trigger] s[j]).id == st.id {
        Some(ManifestFault::DuplicateStableId(st.id))
    } else if exists|j: int| 0 <= j < i && (#[trigger] s[j]).name == st.name {
        Some(ManifestFault::DuplicateDisplayName(st.name))
    } else if exists|j: int| 0 <= j < i && (#[trigger] s[j]).order_index == st.order_index {
        Some(ManifestFault::DuplicateOrderIndex(st.order_index as nat))
    } else if obsolete_id(st.id) {
        Some(ManifestFault::DeprecatedStudyPresent(st.id))
    } else if st.cost_units == 0 || (st.repeatable_terminal && st.stage != Some(11u8)) {
        Some(ManifestFault::MalformedRepeatable(st.id))
    } else if st.effects.len() == 0 {
        Some(ManifestFault::StudyHasNoEffect(st.id))
    } else {
        None
    }
}

/// The first fault among the first `n` studies.
pub open spec fn studies_fault(s: Seq<StudyRecord>, n: int) -> Option<ManifestFault>
    decreases n,
{
    if n <= 0 {
        None
    } else if studies_fault(s, n - 1) is Some {
        studies_fault(s, n - 1)
    } else {
        study_fault(s, n - 1)
    }
}

/// The studies of additive track `t`, in manifest order.
pub open spec fn track_members(s: Seq<StudyRecord>, t: ManifestTrack) -> Seq<StudyRecord> {
    s.filter(|r: StudyRecord| r.source == ManifestStudySource::AdditiveTrack(t))
}

/// What is wrong with the `k`-th study of track `t`.
pub open spec fn track_entry_fault(t: ManifestTrack, m: Seq<StudyRecord>, k: int) -> Option<TrackFault> {
    if m[k].stage != Some((k + 1) as u8) {
        Some(TrackFault::NoncanonicalStageOrder)
    } else if m[k].prerequisites != seq![track_prerequisite(t, k + 1)] {
        Some(TrackFault::WrongPrerequisiteChain)
    } else if m[k].effects != seq![track_effect(t, (k + 1) as u8)] {
        Some(TrackFault::WrongStageEffect)
    } else {
        None
    }
}

pub open spec fn track_entries_fault(t: ManifestTrack, m: Seq<StudyRecord>, n: int) -> Option<TrackFault>
    decreases n,
{
    if n <= 0 {
        None
    } else if track_entries_fault(t, m, n - 1) is Some {
        track_entries_fault(t, m, n - 1)
    } else {
        track_entry_fault(t, m, n - 1)
    }
}

/// What is wrong with track `t`: not exactly eleven studies, or one out of
/// stage order, chained to the wrong prerequisite or with the wrong effect.
pub open spec fn track_fault(s: Seq<StudyRecord>, t: ManifestTrack) -> Option<TrackFault> {
    let m = track_members(s, t);
    if m.len() != 11 {
        Some(TrackFault::WrongStageCount)
    } else {
        track_entries_fault(t, m, 11)
    }
}

/// The first faulty track among the first `n`.
pub open spec fn tracks_fault(s: Seq<StudyRecord>, n: int) -> Option<ManifestFault>
    decreases n,
{
    if n <= 0 {
        None
    } else if tracks_fault(s, n - 1) is Some {
        tracks_fault(s, n - 1)
    } else {
        match track_fault(s, track_at(n - 1)) {
            Some(reason) => Some(ManifestFault::MalformedTrack { track: track_at(n - 1), reason }),
            None => None,
        }
    }
}

/// Some study has identifier `id`.
pub open spec fn lists_study(s: Seq<StudyRecord>, id: Seq<char>) -> bool {
    exists|k: int| 0 <= k < s.len() && (#[trigger] s[k]).id == id
}

/// What is wrong with prerequisite `j` of study `i`.
pub open spec fn prerequisite_fault(s: Seq<StudyRecord>, i: int, j: int) -> Option<ManifestFault> {
    let st = s[i];
    let p = st.prerequisites[j];
    if obsolete_id(p) {
        Some(ManifestFault::DeprecatedStudyReferenced { study_id: st.id, deprecated_id: p })
    } else if exists|k: int| 0 <= k < j && st.prerequisites[k] == p {
        Some(ManifestFault::DuplicatePrerequisite { study_id: st.id, prerequisite: p })
    } else if !lists_study(s, p) {
        Some(ManifestFault::MissingPrerequisite { study_id: st.id, prerequisite: p })
    } else if p == st.id {
        Some(ManifestFault::SelfPrerequisite(st.id))
    } else {
        None
    }
}

pub open spec fn study_prerequisites_fault(s: Seq<StudyRecord>, i: int, n: int) -> Option<ManifestFault>
    decreases n,
{
    if n <= 0 {
        None
    } else if study_prerequisites_fault(s, i, n - 1) is Some {
        study_prerequisites_fault(s, i, n - 1)
    } else {
        prerequisite_fault(s, i, n - 1)
    }
}

/// The first faulty prerequisite of the first `n` studies.
pub open spec fn prerequisites_fault(s: Seq<StudyRecord>, n: int) -> Option<ManifestFault>
    decreases n,
{
    if n <= 0 {
        None
    } else if prerequisites_fault(s, n - 1) is Some {
        prerequisites_fault(s, n - 1)
    } else {
        study_prerequisites_fault(s, n - 1, s[n - 1].prerequisites.len() as int)
    }
}

/// Every prerequisite of `st` is in `done`.
pub open spec fn prerequisites_within(st: StudyRecord, done: Set<Seq<char>>) -> bool {
    forall|q: int| 0 <= q < st.prerequisites.len() ==> done.contains(#[trigger] st.prerequisites[q])
}

/// The studies that can be completed within `k` rounds, each round adding
/// every study whose prerequisites are all already completed.
pub open spec fn completed_within(s: Seq<StudyRecord>, k: nat) -> Set<Seq<char>>
    decreases k,
{
    if k == 0 {
        Set::empty()
    } else {
        let prev = completed_within(s, (k - 1) as nat);
        prev.union(
            Set::new(|x: Seq<char>| exists|i: int| 0 <= i < s.len() && (#[trigger] s[i]).id == x && prerequisites_within(s[i], prev)),
        )
    }
}

/// The studies reachable from the starting frontier: those completed within
/// as many rounds as there are studies, after which no round adds any.
pub open spec fn reachable(s: Seq<StudyRecord>) -> Set<Seq<char>> {
    completed_within(s, s.len())
}

/// How many of the first `n` studies are in `done`.
pub open spec fn count_in(s: Seq<StudyRecord>, done: Set<Seq<char>>, n: int) -> int
    decreases n,
{
    if n <= 0 {
        0
    } else {
        count_in(s, done, n - 1) + if done.contains(s[n - 1].id) { 1int } else { 0int }
    }
}

/// The first rule a manifest of schema `schema` and studies `s` breaks, in
/// the order the manifest is checked: schema, emptiness, each study, the
/// additive tracks, each prerequisite, and finally that every study can be
/// reached without a cycle.
pub open spec fn manifest_fault(schema: u32, s: Seq<StudyRecord>) -> Option<ManifestFault> {
    let n = s.len() as int;
    if schema != RESEARCH_MANIFEST_SCHEMA_VERSION {
        Some(ManifestFault::UnsupportedSchemaVersion)
    } else if n == 0 {
        Some(ManifestFault::EmptyManifest)
    } else if studies_fault(s, n) is Some {
        studies_fault(s, n)
    } else if tracks_fault(s, 4) is Some {
        tracks_fault(s, 4)
    } else if prerequisites_fault(s, n) is Some {
        prerequisites_fault(s, n)
    } else if count_in(s, reachable(s), n) != n {
        Some(ManifestFault::CycleOrUnreachable { visited: count_in(s, reachable(s), n) as nat, total: n as nat })
    } else {
        None
    }
}

/// The studies form a canonical manifest.
pub open spec fn manifest_rules(s: Seq<StudyRecord>) -> bool {
    manifest_fault(RESEARCH_MANIFEST_SCHEMA_VERSION, s) is None
}


proof fn lemma_studies_fault_stops(s: Seq<StudyRecord>, i: int, n: int)
    requires
        0 <= i < n,
        studies_fault(s, i) is None,
        study_fault(s, i) is Some,
    ensures
        studies_fault(s, n) == study_fault(s, i),
    decreases n - i,
{
    if n > i + 1 {
        lemma_studies_fault_stops(s, i, n - 1);
    }
}

proof fn lemma_track_entries_fault_stops(t: ManifestTrack, m: Seq<StudyRecord>, k: int, n: int)
    requires
        0 <= k < n,
        track_entries_fault(t, m, k) is None,
        track_entry_fault(t, m, k) is Some,
    ensures
        track_entries_fault(t, m, n) == track_entry_fault(t, m, k),
    decreases n - k,
{
    if n > k + 1 {
        lemma_track_entries_fault_stops(t, m, k, n - 1);
    }
}

proof fn lemma_tracks_fault_stops(s: Seq<StudyRecord>, k: int, n: int)
    requires
        1 <= k <= n,
        tracks_fault(s, k) is Some,
    ensures
        tracks_fault(s, n) == tracks_fault(s, k),
    decreases n - k,
{
    if n > k {
        lemma_tracks_fault_stops(s, k, n - 1);
    }
}

proof fn lemma_study_prerequisites_fault_stops(s: Seq<StudyRecord>, i: int, j: int, n: int)
    requires
        0 <= j < n,
        study_prerequisites_fault(s, i, j) is None,
        prerequisite_fault(s, i, j) is Some,
    ensures
        study_prerequisites_fault(s, i, n) == prerequisite_fault(s, i, j),
    decreases n - j,
{
    if n > j + 1 {
        lemma_study_prerequisites_fault_stops(s, i, j, n - 1);
    }
}

proof fn lemma_prerequisites_fault_stops(s: Seq<StudyRecord>, k: int, n: int)
    requires
        1 <= k <= n,
        prerequisites_fault(s, k) is Some,
    ensures
        prerequisites_fault(s, n) == prerequisites_fault(s, k),
    decreases n - k,
{
    if n > k {
        lemma_prerequisites_fault_stops(s, k, n - 1);
    }
}

/// The identifier index of studies: each identifier to the position of the
/// study that has it.
pub open spec fn indexes_ids(s: Seq<StudyRecord>, by_id: Map<Seq<char>, usize>, n: int) -> bool {
    &&& forall|k: Seq<char>| #[trigger] by_id.contains_key(k) <==> exists|j: int| 0 <= j < n && (#[trigger] s[j]).id == k
    &&& forall|k: Seq<char>| #[trigger] by_id.contains_key(k) ==> by_id[k] < n && s[by_id[k] as int].id == k
}

fn text_copy(s: &String) -> (r: String)
    ensures
        r@ == s@,
{
    String::from_str(s.as_str())
}

/// Check every study in order; on success, index them by identifier.
fn check_studies(v: &Vec<ManifestStudy>) -> (r: Result<IdMap<usize>, ResearchManifestError>)
    ensures
        fault_result(r) == studies_fault(records(v@), v@.len() as int),
        r matches Ok(by_id) ==> by_id.wf() && indexes_ids(records(v@), by_id.map(), v@.len() as int),
{
    let ghost s = records(v@);
    let n = v.len();
    let mut by_id: IdMap<usize> = IdMap::new();
    let mut names: IdMap<()> = IdMap::new();
    let mut orders: Vec<usize> = Vec::new();
    let mut i: usize = 0;
    while i < n
        invariant
            n == v@.len(),
            s == records(v@),
            i <= n,
            by_id.wf(),
            names.wf(),
            studies_fault(s, i as int) is None,
            indexes_ids(s, by_id.map(), i as int),
            forall|k: Seq<char>| #[trigger] names.map().contains_key(k) <==> exists|j: int| 0 <= j < i && (#[trigger] s[j]).name == k,
            orders@.len() == i,
            forall|j: int| 0 <= j < i ==> orders@[j] == (#[trigger] s[j]).order_index,
        decreases n - i,
    {
        let st = &v[i];
        assert(s[i as int] == record(*st));
        if text_is_blank(st.stable_id.as_str()) || text_is_blank(st.display_name.as_str()) {
            proof {
                lemma_studies_fault_stops(s, i as int, n as int);
            }
            return Err(ResearchManifestError::BlankStudyIdentity);
        }
        match st.stage {
            Some(g) => {
                if g == 0 || g > 11 {
                    proof {
                        lemma_studies_fault_stops(s, i as int, n as int);
                    }
                    return Err(ResearchManifestError::InvalidStage { study_id: text_copy(&st.stable_id) });
                }
            },
            None => {},
        }
        let ghost before = by_id.map();
        if by_id.insert(text_copy(&st.stable_id), i).is_some() {
            proof {
                let j = choose|j: int| 0 <= j < i && (#[trigger] s[j]).id == s[i as int].id;
                lemma_studies_fault_stops(s, i as int, n as int);
            }
            return Err(ResearchManifestError::DuplicateStableId(text_copy(&st.stable_id)));
        }
        proof {
            assert(!(exists|j: int| 0 <= j < i && (#[trigger] s[j]).id == s[i as int].id));
        }
        let ghost names_before = names.map();
        if names.insert(text_copy(&st.display_name), ()).is_some() {
            proof {
                let j = choose|j: int| 0 <= j < i && (#[trigger] s[j]).name == s[i as int].name;
                lemma_studies_fault_stops(s, i as int, n as int);
            }
            return Err(ResearchManifestError::DuplicateDisplayName(text_copy(&st.display_name)));
        }
        proof {
            assert(identity_fault(s[i as int]) is None);
            assert(!(exists|j: int| 0 <= j < i && (#[trigger] s[j]).name == s[i as int].name));
        }
        let mut k: usize = 0;
        while k < i
            invariant
                i < n,
                n == v@.len(),
                s == records(v@),
                s[i as int] == record(*st),
                studies_fault(s, i as int) is None,
                identity_fault(s[i as int]) is None,
                !(exists|j: int| 0 <= j < i && (#[trigger] s[j]).id == s[i as int].id),
                !(exists|j: int| 0 <= j < i && (#[trigger] s[j]).name == s[i as int].name),
                orders@.len() == i,
                k <= i,
                forall|j: int| 0 <= j < i ==> orders@[j] == (#[trigger] s[j]).order_index,
                forall|j: int| 0 <= j < k ==> orders@[j] != s[i as int].order_index,
            decreases i - k,
        {
            if orders[k] == st.order_index {
                proof {
                    assert(s[k as int].order_index == s[i as int].order_index);
                    lemma_studies_fault_stops(s, i as int, n as int);
                }
                return Err(ResearchManifestError::DuplicateOrderIndex(st.order_index));
            }
            k = k + 1;
        }
        proof {
            assert(!(exists|j: int| 0 <= j < i && (#[trigger] s[j]).order_index == s[i as int].order_index)) by {
                if exists|j: int| 0 <= j < i && (#[trigger] s[j]).order_index == s[i as int].order_index {
                    let j = choose|j: int| 0 <= j < i && (#[trigger] s[j]).order_index == s[i as int].order_index;
                    assert(orders@[j] == s[j].order_index);
                }
            }
        }
        if is_obsolete_stable_id(st.stable_id.as_str()) {
            proof {
                lemma_studies_fault_stops(s, i as int, n as int);
            }
            return Err(ResearchManifestError::DeprecatedStudyPresent(text_copy(&st.stable_id)));
        }
        let terminal_ok = match st.stage {
            Some(g) => g == 11,
            None => false,
        };
        if st.cost_units == 0 || (st.repeatable_terminal && !terminal_ok) {
            proof {
                lemma_studies_fault_stops(s, i as int, n as int);
            }
            return Err(ResearchManifestError::MalformedRepeatable(text_copy(&st.stable_id)));
        }
        if st.effects.len() == 0 {
            proof {
                lemma_studies_fault_stops(s, i as int, n as int);
            }
            return Err(ResearchManifestError::StudyHasNoEffect(text_copy(&st.stable_id)));
        }
        orders.push(st.order_index);
        proof {
            assert(study_fault(s, i as int) is None);
            assert(studies_fault(s, i + 1) is None);
            assert forall|k: Seq<char>| #[trigger] by_id.map().contains_key(k) <==> exists|j: int|
                0 <= j < i + 1 && (#[trigger] s[j]).id == k by {
                if k == s[i as int].id {
                    assert(s[i as int].id == k);
                } else if by_id.map().contains_key(k) {
                    assert(before.contains_key(k));
                }
            }
            assert forall|k: Seq<char>| #[trigger] names.map().contains_key(k) <==> exists|j: int|
                0 <= j < i + 1 && (#[trigger] s[j]).name == k by {
                if k == s[i as int].name {
                    assert(s[i as int].name == k);
                } else if names.map().contains_key(k) {
                    assert(names_before.contains_key(k));
                }
            }
        }
        i = i + 1;
    }
    Ok(by_id)
}

fn track_member_list(v: &Vec<ManifestStudy>, t: ManifestTrack) -> (r: Vec<&ManifestStudy>)
    ensures
        records_of_refs(r@) == track_members(records(v@), t),
{
    let ghost s = records(v@);
    let ghost p = |r: StudyRecord| r.source == ManifestStudySource::AdditiveTrack(t);
    let mut r: Vec<&ManifestStudy> = Vec::new();
    let mut i: usize = 0;
    while i < v.len()
        invariant
            s == records(v@),
            p == (|r: StudyRecord| r.source == ManifestStudySource::AdditiveTrack(t)),
            i <= v@.len(),
            records_of_refs(r@) == s.take(i as int).filter(p),
        decreases v@.len() - i,
    {
        proof {
            reveal(Seq::filter);
            assert(s.take(i + 1).drop_last() =~= s.take(i as int));
            assert(s.take(i + 1).last() == s[i as int]);
            assert(s[i as int] == record(v@[i as int]));
        }
        if v[i].source == ManifestStudySource::AdditiveTrack(t) {
            r.push(&v[i]);
            proof {
                reveal(Seq::filter);
                assert(records_of_refs(r@) =~= s.take(i as int).filter(p).push(s[i as int]));
            }
        }
        i = i + 1;
    }
    proof {
        assert(s.take(v@.len() as int) =~= s);
    }
    r
}

pub open spec fn records_of_refs(v: Seq<&ManifestStudy>) -> Seq<StudyRecord> {
    v.map_values(|s: &ManifestStudy| record(*s))
}

/// Check additive track `t`.
fn check_track(v: &Vec<ManifestStudy>, t: ManifestTrack) -> (r: Result<(), TrackFault>)
    ensures
        match r {
            Ok(()) => track_fault(records(v@), t) is None,
            Err(f) => track_fault(records(v@), t) == Some(f),
        },
{
    let members = track_member_list(v, t);
    let ghost m = track_members(records(v@), t);
    if members.len() != 11 {
        return Err(TrackFault::WrongStageCount);
    }
    let mut k: usize = 0;
    while k < 11
        invariant
            members@.len() == 11,
            m == records_of_refs(members@),
            m == track_members(records(v@), t),
            k <= 11,
            track_entries_fault(t, m, k as int) is None,
        decreases 11 - k,
    {
        let st = members[k];
        let stage: u8 = (k + 1) as u8;
        assert(m[k as int] == record(*st));
        let stage_ok = match st.stage {
            Some(g) => g == stage,
            None => false,
        };
        if !stage_ok {
            proof {
                lemma_track_entries_fault_stops(t, m, k as int, 11);
            }
            return Err(TrackFault::NoncanonicalStageOrder);
        }
        let expected = track_prerequisite_text(t, stage);
        proof {
            assert(m[k as int].prerequisites.len() == st.prerequisites@.len());
            if st.prerequisites@.len() > 0 {
                assert(m[k as int].prerequisites[0] == st.prerequisites@[0]@);
            }
            assert(m[k as int].effects.len() == st.effects@.len());
            if st.effects@.len() > 0 {
                assert(m[k as int].effects[0] == effect_view(st.effects@[0]));
            }
        }
        if st.prerequisites.len() != 1 || !text_eq(st.prerequisites[0].as_str(), expected.as_str()) {
            proof {
                if st.prerequisites@.len() == 1 {
                    assert(m[k as int].prerequisites[0] != track_prerequisite(t, k + 1));
                }
                assert(m[k as int].prerequisites != seq![track_prerequisite(t, k + 1)]);
                lemma_track_entries_fault_stops(t, m, k as int, 11);
            }
            return Err(TrackFault::WrongPrerequisiteChain);
        }
        proof {
            assert(m[k as int].prerequisites =~= seq![track_prerequisite(t, k + 1)]);
        }
        if st.effects.len() != 1 || !is_track_effect(&st.effects[0], t, stage) {
            proof {
                if st.effects@.len() == 1 {
                    assert(m[k as int].effects[0] != track_effect(t, (k + 1) as u8));
                }
                assert(m[k as int].effects != seq![track_effect(t, (k + 1) as u8)]);
                lemma_track_entries_fault_stops(t, m, k as int, 11);
            }
            return Err(TrackFault::WrongStageEffect);
        }
        proof {
            assert(m[k as int].effects =~= seq![track_effect(t, (k + 1) as u8)]);
        }
        k = k + 1;
    }
    Ok(())
}

/// Check the four additive tracks in order.
fn check_tracks(v: &Vec<ManifestStudy>) -> (r: Result<(), ResearchManifestError>)
    ensures
        fault_result(r) == tracks_fault(records(v@), 4),
{
    let mut t: usize = 0;
    while t < 4
        invariant
            t <= 4,
            tracks_fault(records(v@), t as int) is None,
        decreases 4 - t,
    {
        let track = track_number(t);
        match check_track(v, track) {
            Ok(()) => {},
            Err(reason) => {
                proof {
                    lemma_tracks_fault_stops(records(v@), t + 1, 4);
                }
                return Err(ResearchManifestError::MalformedTrack { track, reason });
            },
        }
        t = t + 1;
    }
    Ok(())
}

/// Check every prerequisite of every study in order.
fn check_prerequisites(v: &Vec<ManifestStudy>, by_id: &IdMap<usize>) -> (r: Result<(), ResearchManifestError>)
    requires
        by_id.wf(),
        indexes_ids(records(v@), by_id.map(), v@.len() as int),
    ensures
        fault_result(r) == prerequisites_fault(records(v@), v@.len() as int),
{
    let ghost s = records(v@);
    let n = v.len();
    let mut i: usize = 0;
    while i < n
        invariant
            n == v@.len(),
            s == records(v@),
            i <= n,
            by_id.wf(),
            indexes_ids(s, by_id.map(), n as int),
            prerequisites_fault(s, i as int) is None,
        decreases n - i,
    {
        let st = &v[i];
        assert(s[i as int] == record(*st));
        let m = st.prerequisites.len();
        let mut j: usize = 0;
        while j < m
            invariant
                n == v@.len(),
                s == records(v@),
                i < n,
                s[i as int] == record(*st),
                m == st.prerequisites@.len(),
                j <= m,
                by_id.wf(),
                indexes_ids(s, by_id.map(), n as int),
                prerequisites_fault(s, i as int) is None,
                study_prerequisites_fault(s, i as int, j as int) is None,
            decreases m - j,
        {
            let p = &st.prerequisites[j];
            assert(s[i as int].prerequisites[j as int] == p@);
            if is_obsolete_stable_id(p.as_str()) {
                proof {
                    lemma_study_prerequisites_fault_stops(s, i as int, j as int, m as int);
                    lemma_prerequisites_fault_stops(s, i + 1, n as int);
                }
                return Err(ResearchManifestError::DeprecatedStudyReferenced {
                    study_id: text_copy(&st.stable_id),
                    deprecated_id: text_copy(p),
                });
            }
            let mut k: usize = 0;
            while k < j
                invariant
                    n == v@.len(),
                    s == records(v@),
                    i < n,
                    s[i as int] == record(*st),
                    m == st.prerequisites@.len(),
                    j < m,
                    k <= j,
                    s[i as int].prerequisites[j as int] == p@,
                    !obsolete_id(p@),
                    prerequisites_fault(s, i as int) is None,
                    study_prerequisites_fault(s, i as int, j as int) is None,
                    forall|q: int| 0 <= q < k ==> s[i as int].prerequisites[q] != s[i as int].prerequisites[j as int],
                decreases j - k,
            {
                assert(s[i as int].prerequisites[k as int] == st.prerequisites@[k as int]@);
                if text_eq(st.prerequisites[k].as_str(), p.as_str()) {
                    proof {
                        assert(s[i as int].prerequisites[k as int] == s[i as int].prerequisites[j as int]);
                        lemma_study_prerequisites_fault_stops(s, i as int, j as int, m as int);
                        lemma_prerequisites_fault_stops(s, i + 1, n as int);
                    }
                    return Err(ResearchManifestError::DuplicatePrerequisite {
                        study_id: text_copy(&st.stable_id),
                        prerequisite: text_copy(p),
                    });
                }
                k = k + 1;
            }
            if !by_id.contains_key(p.as_str()) {
                proof {
                    if lists_study(s, p@) {
                        let q = choose|q: int| 0 <= q < s.len() && (#[trigger] s[q]).id == p@;
                        assert(by_id.map().contains_key(s[q].id));
                    }
                    lemma_study_prerequisites_fault_stops(s, i as int, j as int, m as int);
                    lemma_prerequisites_fault_stops(s, i + 1, n as int);
                }
                return Err(ResearchManifestError::MissingPrerequisite {
                    study_id: text_copy(&st.stable_id),
                    prerequisite: text_copy(p),
                });
            }
            proof {
                assert(lists_study(s, p@)) by {
                    let q = by_id.map()[p@] as int;
                    assert(s[q].id == p@);
                }
            }
            if text_eq(p.as_str(), st.stable_id.as_str()) {
                proof {
                    lemma_study_prerequisites_fault_stops(s, i as int, j as int, m as int);
                    lemma_prerequisites_fault_stops(s, i + 1, n as int);
                }
                return Err(ResearchManifestError::SelfPrerequisite(text_copy(&st.stable_id)));
            }
            proof {
                assert(prerequisite_fault(s, i as int, j as int) is None);
            }
            j = j + 1;
        }
        proof {
            assert(prerequisites_fault(s, i + 1) is None);
        }
        i = i + 1;
    }
    Ok(())
}

proof fn lemma_completed_ids(s: Seq<StudyRecord>, k: nat)
    ensures
        forall|x: Seq<char>| #[trigger] completed_within(s, k).contains(x) ==> lists_study(s, x),
    decreases k,
{
    if k > 0 {
        lemma_completed_ids(s, (k - 1) as nat);
        assert forall|x: Seq<char>| #[trigger] completed_within(s, k).contains(x) implies lists_study(s, x) by {
            if !completed_within(s, (k - 1) as nat).contains(x) {
                let i = choose|i: int|
                    0 <= i < s.len() && (#[trigger] s[i]).id == x && prerequisites_within(s[i], completed_within(s, (k - 1) as nat));
            }
        }
    }
}

proof fn lemma_completed_grows(s: Seq<StudyRecord>, k: nat)
    ensures
        completed_within(s, k).subset_of(completed_within(s, k + 1)),
{
}

proof fn lemma_completed_stable(s: Seq<StudyRecord>, k: nat, m: nat)
    requires
        k <= m,
        completed_within(s, k + 1) == completed_within(s, k),
    ensures
        completed_within(s, m) == completed_within(s, k),
    decreases m - k,
{
    if m > k {
        lemma_completed_stable(s, k, (m - 1) as nat);
        assert(completed_within(s, m) =~= completed_within(s, (m - 1) as nat));
    }
}

/// One completion round over the studies.
fn completion_round(v: &Vec<ManifestStudy>, done: &IdMap<()>, k: Ghost<nat>) -> (r: (IdMap<()>, bool))
    requires
        done.wf(),
        done.map().dom() == completed_within(records(v@), k@),
    ensures
        r.0.wf(),
        r.0.map().dom() == completed_within(records(v@), k@ + 1),
        r.1 <==> completed_within(records(v@), k@ + 1) != completed_within(records(v@), k@),
{
    let ghost s = records(v@);
    let ghost prev = completed_within(s, k@);
    let mut next: IdMap<()> = IdMap::new();
    let mut grew = false;
    let n = v.len();
    proof {
        lemma_completed_ids(s, k@);
    }
    let mut i: usize = 0;
    while i < n
        invariant
            n == v@.len(),
            s == records(v@),
            prev == completed_within(s, k@),
            done.wf(),
            done.map().dom() == prev,
            forall|x: Seq<char>| #[trigger] prev.contains(x) ==> lists_study(s, x),
            i <= n,
            next.wf(),
            forall|x: Seq<char>| #[trigger] next.map().contains_key(x) <==> exists|j: int|
                0 <= j < i && (#[trigger] s[j]).id == x && (prev.contains(x) || prerequisites_within(s[j], prev)),
            grew <==> exists|j: int| 0 <= j < i && !prev.contains((#[trigger] s[j]).id) && prerequisites_within(s[j], prev),
        decreases n - i,
    {
        let st = &v[i];
        assert(s[i as int] == record(*st));
        let mut all = true;
        let m = st.prerequisites.len();
        let mut q: usize = 0;
        while q < m
            invariant
                s[i as int] == record(*st),
                m == st.prerequisites@.len(),
                done.wf(),
                done.map().dom() == prev,
                q <= m,
                all <==> forall|r: int| 0 <= r < q ==> prev.contains(#[trigger] s[i as int].prerequisites[r]),
            decreases m - q,
        {
            let has = done.contains_key(st.prerequisites[q].as_str());
            proof {
                assert(s[i as int].prerequisites[q as int] == st.prerequisites@[q as int]@);
            }
            all = all && has;
            q = q + 1;
        }
        let already = done.contains_key(st.stable_id.as_str());
        let ghost before = next.map();
        if already || all {
            next.insert(text_copy(&st.stable_id), ());
        }
        if !already && all {
            grew = true;
        }
        proof {
            assert forall|x: Seq<char>| #[trigger] next.map().contains_key(x) <==> exists|j: int|
                0 <= j < i + 1 && (#[trigger] s[j]).id == x && (prev.contains(x) || prerequisites_within(s[j], prev)) by {
                if x == s[i as int].id && (already || all) {
                    assert(s[i as int].id == x);
                } else if next.map().contains_key(x) {
                    assert(before.contains_key(x));
                } else if exists|j: int| 0 <= j < i + 1 && (#[trigger] s[j]).id == x && (prev.contains(x) || prerequisites_within(s[j], prev)) {
                    let j = choose|j: int| 0 <= j < i + 1 && (#[trigger] s[j]).id == x && (prev.contains(x) || prerequisites_within(s[j], prev));
                    if j == i {
                        assert(prev.contains(x) || prerequisites_within(s[i as int], prev));
                    }
                }
            }
            if !already && all {
                assert(!prev.contains(s[i as int].id) && prerequisites_within(s[i as int], prev));
            }
        }
        i = i + 1;
    }
    proof {
        let nx = completed_within(s, k@ + 1);
        assert(nx == prev.union(
            Set::new(|x: Seq<char>| exists|i: int| 0 <= i < s.len() && (#[trigger] s[i]).id == x && prerequisites_within(s[i], prev)),
        ));
        assert forall|x: Seq<char>| next.map().contains_key(x) <==> #[trigger] nx.contains(x) by {
            if prev.contains(x) {
                assert(lists_study(s, x));
                let j = choose|j: int| 0 <= j < s.len() && (#[trigger] s[j]).id == x;
            }
        }
        assert(next.map().dom() =~= nx);
        if grew {
            let j = choose|j: int| 0 <= j < n && !prev.contains((#[trigger] s[j]).id) && prerequisites_within(s[j], prev);
            assert(nx.contains(s[j].id));
        } else {
            assert(nx =~= prev);
        }
    }
    (next, grew)
}

/// The reachable studies, computed round by round until a round adds none.
fn reachable_set(v: &Vec<ManifestStudy>) -> (r: IdMap<()>)
    ensures
        r.wf(),
        r.map().dom() == reachable(records(v@)),
{
    let ghost s = records(v@);
    let n = v.len();
    let mut done: IdMap<()> = IdMap::new();
    proof {
        assert(done.map().dom() =~= completed_within(s, 0));
    }
    let mut k: usize = 0;
    while k < n
        invariant
            s == records(v@),
            n == s.len(),
            k <= n,
            done.wf(),
            done.map().dom() == completed_within(s, k as nat),
        decreases n - k,
    {
        let (next, grew) = completion_round(v, &done, Ghost(k as nat));
        if !grew {
            proof {
                lemma_completed_stable(s, k as nat, n as nat);
            }
            return done;
        }
        done = next;
        k = k + 1;
    }
    done
}

/// How many studies are in `done`.
fn count_listed(v: &Vec<ManifestStudy>, done: &IdMap<()>) -> (r: usize)
    requires
        done.wf(),
    ensures
        r == count_in(records(v@), done.map().dom(), v@.len() as int),
{
    let ghost s = records(v@);
    let mut c: usize = 0;
    let mut i: usize = 0;
    while i < v.len()
        invariant
            s == records(v@),
            i <= v@.len(),
            done.wf(),
            c == count_in(s, done.map().dom(), i as int),
            c <= i,
        decreases v@.len() - i,
    {
        assert(s[i as int] == record(v@[i as int]));
        if done.contains_key(v[i].stable_id.as_str()) {
            c = c + 1;
        }
        i = i + 1;
    }
    c
}

#[derive(Debug)]
pub struct ResearchManifest {
    pub schema_version: u32,
    studies: Vec<ManifestStudy>,
    by_id: IdMap<usize>,
}

impl ResearchManifest {
    /// The studies, in manifest order.
    pub closed spec fn view(&self) -> Seq<StudyRecord> {
        records(self.studies@)
    }

    /// The schema version the manifest declares.
    pub closed spec fn schema(&self) -> u32 {
        self.schema_version
    }

    pub closed spec fn wf(&self) -> bool {
        &&& self.schema_version == RESEARCH_MANIFEST_SCHEMA_VERSION
        &&& manifest_rules(records(self.studies@))
        &&& self.by_id.wf()
        &&& indexes_ids(records(self.studies@), self.by_id.map(), self.studies@.len() as int)
    }

    /// Check the manifest against its rules, rebuilding its identifier index.
    pub fn validate(&mut self) -> (r: Result<(), ResearchManifestError>)
        ensures
            final(self)@ == old(self)@,
            final(self).schema() == old(self).schema(),
            fault_result(r) == manifest_fault(old(self).schema(), old(self)@),
            r is Ok ==> final(self).wf(),
    {
        if self.schema_version != RESEARCH_MANIFEST_SCHEMA_VERSION {
            return Err(ResearchManifestError::UnsupportedSchemaVersion);
        }
        if self.studies.len() == 0 {
            return Err(ResearchManifestError::EmptyManifest);
        }
        let by_id = match check_studies(&self.studies) {
            Ok(m) => m,
            Err(e) => return Err(e),
        };
        match check_tracks(&self.studies) {
            Ok(()) => {},
            Err(e) => return Err(e),
        }
        match check_prerequisites(&self.studies, &by_id) {
            Ok(()) => {},
            Err(e) => return Err(e),
        }
        let done = reachable_set(&self.studies);
        let visited = count_listed(&self.studies, &done);
        if visited != self.studies.len() {
            return Err(ResearchManifestError::CycleOrUnreachable { visited, total: self.studies.len() });
        }
        self.by_id = by_id;
        Ok(())
    }
}


// ---------------------------------------------------------------------------
// Manifest order.

/// Study `a` comes before study `b`: a lower order index, or the same index
/// and an earlier identifier.
pub open spec fn order_before(a: StudyRecord, b: StudyRecord) -> bool {
    a.order_index < b.order_index || (a.order_index == b.order_index && text_lt(a.id, b.id))
}

/// `x` placed into the ordered studies `t` before the first study it comes
/// before, so that studies with equal keys keep their order.
pub open spec fn insert_ordered(t: Seq<StudyRecord>, x: StudyRecord) -> Seq<StudyRecord>
    decreases t.len(),
{
    if t.len() == 0 {
        seq![x]
    } else if order_before(x, t[0]) {
        seq![x] + t
    } else {
        seq![t[0]] + insert_ordered(t.drop_first(), x)
    }
}

/// The studies in manifest order: by order index, then identifier, a stable
/// sort.
pub open spec fn ordered(s: Seq<StudyRecord>) -> Seq<StudyRecord>
    decreases s.len(),
{
    if s.len() == 0 {
        s
    } else {
        insert_ordered(ordered(s.drop_last()), s.last())
    }
}

proof fn lemma_insert_ordered_at(t: Seq<StudyRecord>, x: StudyRecord, pos: int)
    requires
        0 <= pos <= t.len(),
        forall|j: int| 0 <= j < pos ==> !order_before(x, #[trigger] t[j]),
        pos == t.len() || order_before(x, t[pos]),
    ensures
        insert_ordered(t, x) == t.insert(pos, x),
    decreases pos,
{
    if pos == 0 {
        if t.len() == 0 {
            assert(t.insert(0, x) =~= seq![x]);
        } else {
            assert(t.insert(0, x) =~= seq![x] + t);
        }
    } else {
        let d = t.drop_first();
        assert forall|j: int| 0 <= j < pos - 1 implies !order_before(x, #[trigger] d[j]) by {
            assert(d[j] == t[j + 1]);
        }
        lemma_insert_ordered_at(d, x, pos - 1);
        assert(t.insert(pos, x) =~= seq![t[0]] + d.insert(pos - 1, x));
    }
}

fn study_order_before(a: &ManifestStudy, b: &ManifestStudy) -> (r: bool)
    ensures
        r == order_before(record(*a), record(*b)),
{
    a.order_index < b.order_index || (a.order_index == b.order_index && text_less(
        a.stable_id.as_str(),
        b.stable_id.as_str(),
    ))
}

fn sort_studies(studies: Vec<ManifestStudy>) -> (r: Vec<ManifestStudy>)
    ensures
        records(r@) == ordered(records(studies@)),
{
    let ghost orig = records(studies@);
    let mut rest = studies;
    let mut out: Vec<ManifestStudy> = Vec::new();
    let ghost mut taken: int = 0;
    while rest.len() > 0
        invariant
            0 <= taken <= orig.len(),
            records(rest@) == orig.skip(taken),
            records(out@) == ordered(orig.take(taken)),
        decreases rest@.len(),
    {
        let ghost rest_before = rest@;
        proof {
            assert(records(rest_before).len() == rest_before.len());
            assert(taken < orig.len());
            assert(records(rest_before)[0] == orig.skip(taken)[0]);
        }
        let x = rest.remove(0);
        proof {
            assert(x == rest_before[0]);
            assert(rest@ == rest_before.remove(0));
            assert forall|k: int| 0 <= k < rest@.len() implies records(rest@)[k] == orig.skip(taken + 1)[k] by {
                assert(rest@[k] == rest_before[k + 1]);
                assert(records(rest_before)[k + 1] == orig.skip(taken)[k + 1]);
            }
            assert(records(rest@) =~= orig.skip(taken + 1));
            assert(record(x) == orig[taken]);
        }
        let mut pos: usize = 0;
        while pos < out.len() && !study_order_before(&x, &out[pos])
            invariant
                pos <= out@.len(),
                forall|j: int| 0 <= j < pos ==> !order_before(record(x), #[trigger] records(out@)[j]),
            decreases out@.len() - pos,
        {
            pos = pos + 1;
        }
        proof {
            lemma_insert_ordered_at(records(out@), record(x), pos as int);
            assert(orig.take(taken + 1).drop_last() =~= orig.take(taken));
            assert(orig.take(taken + 1).last() == orig[taken]);
        }
        let ghost before = out@;
        out.insert(pos, x);
        proof {
            assert(records(out@) =~= records(before).insert(pos as int, record(x)));
            taken = taken + 1;
        }
    }
    proof {
        assert(orig.take(taken) =~= orig);
    }
    out
}

// ---------------------------------------------------------------------------
// Graph totals.

/// The studies of global modifier track `track_id`: those with a stage whose
/// identifier starts with the track identifier and an underscore.
pub open spec fn modifier_members(s: Seq<StudyRecord>, track_id: Seq<char>) -> Seq<StudyRecord> {
    s.filter(|r: StudyRecord| (track_id + "_"@).is_prefix_of(r.id) && r.stage is Some)
}

/// The studies of `m` with stages below `v`, by stage, keeping their order
/// within a stage.
pub open spec fn by_stage(m: Seq<StudyRecord>, v: int) -> Seq<StudyRecord>
    decreases v,
{
    if v <= 0 {
        Seq::empty()
    } else {
        by_stage(m, v - 1) + m.filter(|r: StudyRecord| r.stage == Some((v - 1) as u8))
    }
}

/// A global modifier track's studies sorted by stage.
pub open spec fn modifier_track(s: Seq<StudyRecord>, track_id: Seq<char>) -> Seq<StudyRecord> {
    by_stage(modifier_members(s, track_id), 256)
}

/// How many of the first `n` global modifier tracks have studies.
pub open spec fn tracks_present(s: Seq<StudyRecord>, n: int) -> int
    decreases n,
{
    if n <= 0 {
        0
    } else {
        tracks_present(s, n - 1) + if modifier_members(s, global_track_id(n - 1)).len() > 0 { 1int } else { 0int }
    }
}

/// How many studies the first `n` global modifier tracks hold together.
pub open spec fn track_studies_total(s: Seq<StudyRecord>, n: int) -> int
    decreases n,
{
    if n <= 0 {
        0
    } else {
        track_studies_total(s, n - 1) + modifier_members(s, global_track_id(n - 1)).len()
    }
}

/// How many of the first `n` studies join two or more prerequisites.
pub open spec fn and_junctions(s: Seq<StudyRecord>, n: int) -> int
    decreases n,
{
    if n <= 0 {
        0
    } else {
        and_junctions(s, n - 1) + if s[n - 1].prerequisites.len() >= 2 { 1int } else { 0int }
    }
}

/// The study `id` exists and joins two or more prerequisites.
pub open spec fn is_junction(s: Seq<StudyRecord>, id: Seq<char>) -> bool {
    exists|i: int| 0 <= i < s.len() && (#[trigger] s[i]).id == id && s[i].prerequisites.len() >= 2
}

/// How many of the first `n` curated junctions are junctions of the manifest.
pub open spec fn curated_junctions(s: Seq<StudyRecord>, n: int) -> int
    decreases n,
{
    if n <= 0 {
        0
    } else {
        curated_junctions(s, n - 1) + if is_junction(s, curated_junction_id(n - 1)) { 1int } else { 0int }
    }
}

/// The graph totals of a manifest, all derived from its studies.
pub open spec fn totals(s: Seq<StudyRecord>) -> ResearchGraphTotals {
    let projected = track_studies_total(s, 14);
    ResearchGraphTotals {
        raw_node_count: if s.len() > projected { (s.len() - projected) as usize } else { 0 },
        track_count: tracks_present(s, 14) as usize,
        projected_node_count: s.len() as usize,
        and_junction_count: and_junctions(s, s.len() as int) as usize,
        curated_junction_count: curated_junctions(s, 8) as usize,
    }
}

/// `c` doubled, saturating at the largest value.
pub open spec fn doubled_saturating(c: u64) -> u64 {
    if 2 * c > u64::MAX {
        u64::MAX
    } else {
        (2 * c) as u64
    }
}

/// A global modifier track is ten finite levels then one repeatable terminal
/// priced at twice the tenth level.
pub open spec fn modifier_track_ok(g: Seq<StudyRecord>) -> bool {
    &&& g.len() == 11
    &&& forall|k: int| 0 <= k < 10 ==> (#[trigger] g[k]).stage == Some((k + 1) as u8) && !g[k].repeatable_terminal
    &&& g[10].stage == Some(11u8)
    &&& g[10].repeatable_terminal
    &&& g[10].cost_units == doubled_saturating(g[9].cost_units)
}

/// The first of the first `n` global modifier tracks that is malformed.
pub open spec fn modifier_tracks_fault(s: Seq<StudyRecord>, n: int) -> Option<ManifestFault>
    decreases n,
{
    if n <= 0 {
        None
    } else if modifier_tracks_fault(s, n - 1) is Some {
        modifier_tracks_fault(s, n - 1)
    } else if !modifier_track_ok(modifier_track(s, global_track_id(n - 1))) {
        Some(ManifestFault::MalformedGlobalModifierTrack(global_track_id(n - 1)))
    } else {
        None
    }
}

/// The first rule of the canonical research graph the studies break: all
/// fourteen global modifier tracks present and well formed, at least the
/// minimum number of AND junctions, and every curated junction.
pub open spec fn graph_fault(s: Seq<StudyRecord>) -> Option<ManifestFault> {
    let t = totals(s);
    if t.track_count != 14 {
        Some(ManifestFault::WrongGlobalTrackCount { expected: 14, actual: t.track_count as nat })
    } else if modifier_tracks_fault(s, 14) is Some {
        modifier_tracks_fault(s, 14)
    } else if t.and_junction_count < MINIMUM_AND_JUNCTIONS {
        Some(ManifestFault::InsufficientAndJunctions { minimum: 24, actual: t.and_junction_count as nat })
    } else if t.curated_junction_count != 8 {
        Some(ManifestFault::MissingCuratedJunctions { expected: 8, actual: t.curated_junction_count as nat })
    } else {
        None
    }
}

/// The canonical research graph rules hold.
pub open spec fn graph_rules(s: Seq<StudyRecord>) -> bool {
    graph_fault(s) is None
}

proof fn lemma_modifier_tracks_fault_stops(s: Seq<StudyRecord>, k: int, n: int)
    requires
        1 <= k <= n,
        modifier_tracks_fault(s, k) is Some,
    ensures
        modifier_tracks_fault(s, n) == modifier_tracks_fault(s, k),
    decreases n - k,
{
    if n > k {
        lemma_modifier_tracks_fault_stops(s, k, n - 1);
    }
}

fn double_saturating(c: u64) -> (r: u64)
    ensures
        r == doubled_saturating(c),
{
    if c > u64::MAX / 2 {
        u64::MAX
    } else {
        2 * c
    }
}

fn modifier_member_list<'a>(v: &'a Vec<ManifestStudy>, track_id: &str) -> (r: Vec<&'a ManifestStudy>)
    ensures
        records_of_refs(r@) == modifier_members(records(v@), track_id@),
{
    let ghost s = records(v@);
    let ghost p = |r: StudyRecord| (track_id@ + "_"@).is_prefix_of(r.id) && r.stage is Some;
    let mut prefix = String::from_str(track_id);
    prefix.append("_");
    let mut r: Vec<&ManifestStudy> = Vec::new();
    let mut i: usize = 0;
    while i < v.len()
        invariant
            s == records(v@),
            p == (|r: StudyRecord| (track_id@ + "_"@).is_prefix_of(r.id) && r.stage is Some),
            prefix@ == track_id@ + "_"@,
            i <= v@.len(),
            records_of_refs(r@) == s.take(i as int).filter(p),
        decreases v@.len() - i,
    {
        proof {
            reveal(Seq::filter);
            assert(s.take(i + 1).drop_last() =~= s.take(i as int));
            assert(s.take(i + 1).last() == s[i as int]);
            assert(s[i as int] == record(v@[i as int]));
        }
        if crate::text::text_starts_with(v[i].stable_id.as_str(), prefix.as_str()) && v[i].stage.is_some() {
            r.push(&v[i]);
            proof {
                assert(records_of_refs(r@) =~= s.take(i as int).filter(p).push(s[i as int]));
            }
        }
        i = i + 1;
    }
    proof {
        assert(s.take(v@.len() as int) =~= s);
    }
    r
}

fn sorted_by_stage<'a>(m: &Vec<&'a ManifestStudy>) -> (r: Vec<&'a ManifestStudy>)
    ensures
        records_of_refs(r@) == by_stage(records_of_refs(m@), 256),
{
    let ghost ms = records_of_refs(m@);
    let mut r: Vec<&ManifestStudy> = Vec::new();
    let mut v: u16 = 0;
    while v < 256
        invariant
            ms == records_of_refs(m@),
            v <= 256,
            records_of_refs(r@) == by_stage(ms, v as int),
        decreases 256 - v,
    {
        let ghost p = |x: StudyRecord| x.stage == Some(v as u8);
        let ghost base = records_of_refs(r@);
        let mut j: usize = 0;
        while j < m.len()
            invariant
                ms == records_of_refs(m@),
                v < 256,
                p == (|x: StudyRecord| x.stage == Some(v as u8)),
                j <= m@.len(),
                records_of_refs(r@) == base + ms.take(j as int).filter(p),
            decreases m@.len() - j,
        {
            proof {
                reveal(Seq::filter);
                assert(ms.take(j + 1).drop_last() =~= ms.take(j as int));
                assert(ms.take(j + 1).last() == ms[j as int]);
                assert(ms[j as int] == record(*m@[j as int]));
            }
            let wanted = match m[j].stage {
                Some(g) => g as u16 == v,
                None => false,
            };
            if wanted {
                let ghost r_before = r@;
                r.push(m[j]);
                proof {
                    assert(r@ == r_before.push(m@[j as int]));
                    assert(p(ms[j as int]));
                    assert(ms.take(j + 1).filter(p) == ms.take(j as int).filter(p).push(ms[j as int]));
                    assert(records_of_refs(r@) =~= records_of_refs(r_before).push(ms[j as int]));
                    let f = ms.take(j as int).filter(p);
                    assert((base + f).push(ms[j as int]) =~= base + f.push(ms[j as int]));
                }
            }
            j = j + 1;
        }
        proof {
            assert(ms.take(m@.len() as int) =~= ms);
            assert(by_stage(ms, v + 1) == by_stage(ms, v as int) + ms.filter(p));
        }
        v = v + 1;
    }
    r
}

impl ResearchManifest {
    /// Order the studies and check them as a manifest.
    pub fn from_studies(studies: Vec<ManifestStudy>) -> (r: Result<Self, ResearchManifestError>)
        ensures
            fault_result(r) == manifest_fault(RESEARCH_MANIFEST_SCHEMA_VERSION, ordered(records(studies@))),
            r matches Ok(m) ==> m.wf() && m@ == ordered(records(studies@)),
    {
        let sorted = sort_studies(studies);
        let mut manifest = ResearchManifest {
            schema_version: RESEARCH_MANIFEST_SCHEMA_VERSION,
            studies: sorted,
            by_id: IdMap::new(),
        };
        match manifest.validate() {
            Ok(()) => Ok(manifest),
            Err(e) => Err(e),
        }
    }

    /// The studies, in manifest order.
    pub fn studies(&self) -> (r: &[ManifestStudy])
        ensures
            records(r@) == self@,
    {
        self.studies.as_slice()
    }

    pub fn study_count(&self) -> (r: usize)
        ensures
            r == self@.len(),
    {
        self.studies.len()
    }

    /// The study with identifier `stable_id`, if any.
    pub fn get(&self, stable_id: &str) -> (r: Option<&ManifestStudy>)
        requires
            self.wf(),
        ensures
            r is Some <==> lists_study(self@, stable_id@),
            r matches Some(st) ==> exists|i: int| 0 <= i < self@.len() && self@[i] == record(*st) && self@[i].id == stable_id@,
    {
        match self.by_id.get(stable_id) {
            Some(index) => {
                let i = *index;
                assert(records(self.studies@)[i as int] == record(self.studies@[i as int]));
                Some(&self.studies[i])
            },
            None => {
                proof {
                    if lists_study(self@, stable_id@) {
                        let k = choose|k: int| 0 <= k < self@.len() && (#[trigger] self@[k]).id == stable_id@;
                        assert(self.by_id.map().contains_key(self@[k].id));
                    }
                }
                None
            },
        }
    }

    /// The studies that need nothing, in manifest order.
    pub fn starting_frontier_ids(&self) -> (r: Vec<&str>)
        ensures
            r@.map_values(|x: &str| x@) == self@.filter(|st: StudyRecord| st.prerequisites.len() == 0).map_values(
                |st: StudyRecord| st.id,
            ),
    {
        let ghost s = self@;
        let ghost p = |st: StudyRecord| st.prerequisites.len() == 0;
        let mut r: Vec<&str> = Vec::new();
        let mut i: usize = 0;
        while i < self.studies.len()
            invariant
                s == records(self.studies@),
                p == (|st: StudyRecord| st.prerequisites.len() == 0),
                i <= self.studies@.len(),
                r@.map_values(|x: &str| x@) == s.take(i as int).filter(p).map_values(|st: StudyRecord| st.id),
            decreases self.studies@.len() - i,
        {
            proof {
                reveal(Seq::filter);
                assert(s.take(i + 1).drop_last() =~= s.take(i as int));
                assert(s.take(i + 1).last() == s[i as int]);
                assert(s[i as int] == record(self.studies@[i as int]));
            }
            if self.studies[i].prerequisites.len() == 0 {
                let ghost before = r@;
                r.push(self.studies[i].stable_id.as_str());
                proof {
                    assert(r@.map_values(|x: &str| x@) =~= before.map_values(|x: &str| x@).push(s[i as int].id));
                    assert(s.take(i + 1).filter(p) == s.take(i as int).filter(p).push(s[i as int]));
                    assert(s.take(i + 1).filter(p).map_values(|st: StudyRecord| st.id) =~= s.take(i as int).filter(p).map_values(
                        |st: StudyRecord| st.id,
                    ).push(s[i as int].id));
                }
            }
            i = i + 1;
        }
        proof {
            assert(s.take(self.studies@.len() as int) =~= s);
        }
        r
    }

    /// The identifiers of the studies reachable from the starting frontier.
    pub fn reachable_study_ids(&self) -> (r: IdMap<()>)
        ensures
            r.wf(),
            r.map().dom() == reachable(self@),
    {
        reachable_set(&self.studies)
    }

    /// The studies of an additive track, in manifest order.
    pub fn track_studies(&self, track: ManifestTrack) -> (r: Vec<&ManifestStudy>)
        ensures
            records_of_refs(r@) == track_members(self@, track),
    {
        track_member_list(&self.studies, track)
    }

    /// The studies of a global modifier track, sorted by stage.
    pub fn global_modifier_track_studies<'a>(&'a self, track_id: &str) -> (r: Vec<&'a ManifestStudy>)
        ensures
            records_of_refs(r@) == modifier_track(self@, track_id@),
    {
        let members = modifier_member_list(&self.studies, track_id);
        sorted_by_stage(&members)
    }

    /// The graph totals, derived from the studies.
    pub fn graph_totals(&self) -> (t: ResearchGraphTotals)
        ensures
            t == totals(self@),
    {
        let ghost s = self@;
        let n = self.studies.len();
        let mut present: usize = 0;
        let mut projected: u128 = 0;
        let mut i: usize = 0;
        while i < 14
            invariant
                s == records(self.studies@),
                n == s.len(),
                i <= 14,
                present == tracks_present(s, i as int),
                present <= i,
                projected == track_studies_total(s, i as int),
                projected <= i * n,
            decreases 14 - i,
        {
            let members = modifier_member_list(&self.studies, global_track_id_text(i));
            proof {
                assert(members@.len() == modifier_members(s, global_track_id(i as int)).len());
                reveal(Seq::filter);
                s.filter_lemma(|r: StudyRecord| (global_track_id(i as int) + "_"@).is_prefix_of(r.id) && r.stage is Some);
                assert(modifier_members(s, global_track_id(i as int)).len() <= n);
                assert((i + 1) * n == i * n + n) by (nonlinear_arith);
                assert((i + 1) * n <= 14 * n) by (nonlinear_arith)
                    requires
                        i < 14,
                ;
            }
            if members.len() > 0 {
                present = present + 1;
            }
            projected = projected + members.len() as u128;
            i = i + 1;
        }
        let raw: usize = if (n as u128) > projected {
            (n as u128 - projected) as usize
        } else {
            0
        };
        let mut junctions: usize = 0;
        let mut i: usize = 0;
        while i < n
            invariant
                s == records(self.studies@),
                n == s.len(),
                i <= n,
                junctions == and_junctions(s, i as int),
                junctions <= i,
            decreases n - i,
        {
            assert(s[i as int] == record(self.studies@[i as int]));
            if self.studies[i].prerequisites.len() >= 2 {
                junctions = junctions + 1;
            }
            i = i + 1;
        }
        let mut curated: usize = 0;
        let mut c: usize = 0;
        while c < 8
            invariant
                s == records(self.studies@),
                n == s.len(),
                c <= 8,
                curated == curated_junctions(s, c as int),
                curated <= c,
            decreases 8 - c,
        {
            let id = curated_junction_id_text(c);
            let mut found = false;
            let mut k: usize = 0;
            while k < n
                invariant
                    s == records(self.studies@),
                    n == s.len(),
                    id@ == curated_junction_id(c as int),
                    k <= n,
                    found <==> exists|j: int| 0 <= j < k && (#[trigger] s[j]).id == id@ && s[j].prerequisites.len() >= 2,
                decreases n - k,
            {
                assert(s[k as int] == record(self.studies@[k as int]));
                if text_eq(self.studies[k].stable_id.as_str(), id) && self.studies[k].prerequisites.len() >= 2 {
                    found = true;
                }
                k = k + 1;
            }
            if found {
                curated = curated + 1;
            }
            c = c + 1;
        }
        ResearchGraphTotals {
            raw_node_count: raw,
            track_count: present,
            projected_node_count: n,
            and_junction_count: junctions,
            curated_junction_count: curated,
        }
    }

    /// Check the canonical research graph: fourteen well-formed global
    /// modifier tracks, enough AND junctions and every curated junction.
    /// This is separate from the manifest rules, so an older catalog can be
    /// loaded and inspected.
    pub fn validate_lai58_graph(&self) -> (r: Result<ResearchGraphTotals, ResearchManifestError>)
        ensures
            fault_result(r) == graph_fault(self@),
            r matches Ok(t) ==> t == totals(self@),
    {
        let totals = self.graph_totals();
        if totals.track_count != 14 {
            return Err(ResearchManifestError::WrongGlobalTrackCount { expected: 14, actual: totals.track_count });
        }
        let mut i: usize = 0;
        while i < 14
            invariant
                i <= 14,
                totals == crate::research_manifest::totals(self@),
                totals.track_count == 14,
                modifier_tracks_fault(self@, i as int) is None,
            decreases 14 - i,
        {
            let track_id = global_track_id_text(i);
            let g = self.global_modifier_track_studies(track_id);
            let ghost gs = records_of_refs(g@);
            let mut ok = g.len() == 11;
            if ok {
                let mut k: usize = 0;
                while k < 10
                    invariant
                        g@.len() == 11,
                        gs == records_of_refs(g@),
                        k <= 10,
                        ok <==> forall|q: int| 0 <= q < k ==> (#[trigger] gs[q]).stage == Some((q + 1) as u8) && !gs[q].repeatable_terminal,
                    decreases 10 - k,
                {
                    assert(gs[k as int] == record(*g@[k as int]));
                    let level_ok = match g[k].stage {
                        Some(x) => x as usize == k + 1,
                        None => false,
                    } && !g[k].repeatable_terminal;
                    ok = ok && level_ok;
                    k = k + 1;
                }
                assert(gs[10] == record(*g@[10]));
                assert(gs[9] == record(*g@[9]));
                let terminal_ok = match g[10].stage {
                    Some(x) => x == 11,
                    None => false,
                } && g[10].repeatable_terminal && g[10].cost_units == double_saturating(g[9].cost_units);
                ok = ok && terminal_ok;
            }
            proof {
                assert(gs == modifier_track(self@, global_track_id(i as int)));
                if g@.len() == 11 {
                    assert(gs[10] == record(*g@[10]));
                    assert(gs[9] == record(*g@[9]));
                }
                assert(ok == modifier_track_ok(gs));
            }
            if !ok {
                proof {
                    lemma_modifier_tracks_fault_stops(self@, i + 1, 14);
                }
                return Err(ResearchManifestError::MalformedGlobalModifierTrack(String::from_str(track_id)));
            }
            i = i + 1;
        }
        if totals.and_junction_count < MINIMUM_AND_JUNCTIONS {
            return Err(ResearchManifestError::InsufficientAndJunctions {
                minimum: MINIMUM_AND_JUNCTIONS,
                actual: totals.and_junction_count,
            });
        }
        if totals.curated_junction_count != 8 {
            return Err(ResearchManifestError::MissingCuratedJunctions {
                expected: 8,
                actual: totals.curated_junction_count,
            });
        }
        Ok(totals)
    }
}


// ---------------------------------------------------------------------------
// Building the manifest from the source catalog.

/// What the manifest build reads of one source catalog node. The host gives
/// the node's cost rounded up to whole units and its payloads as catalog
/// effects.
#[derive(Debug, Clone, PartialEq, Eq)]
pub struct CatalogNodeFacts {
    pub id: String,
    pub name: String,
    pub prerequisites: Vec<String>,
    pub cost_units: u64,
    pub payloads: Vec<ManifestEffect>,
}

pub struct NodeRecord {
    pub id: Seq<char>,
    pub name: Seq<char>,
    pub prerequisites: Seq<Seq<char>>,
    pub cost_units: u64,
    pub payloads: Seq<EffectView>,
}

pub open spec fn node_record(n: CatalogNodeFacts) -> NodeRecord {
    NodeRecord {
        id: n.id@,
        name: n.name@,
        prerequisites: strings_view(n.prerequisites@),
        cost_units: n.cost_units,
        payloads: effects_view(n.payloads@),
    }
}

pub open spec fn node_records(v: Seq<CatalogNodeFacts>) -> Seq<NodeRecord> {
    v.map_values(|n: CatalogNodeFacts| node_record(n))
}

/// A source node is obsolete when its identifier is retired or one of its
/// payloads targets a retired identifier.
pub open spec fn node_obsolete(n: NodeRecord) -> bool {
    obsolete_id(n.id) || exists|k: int|
        0 <= k < n.payloads.len() && (#[trigger] n.payloads[k] matches EffectView::CatalogPayload { target_id, .. }
            && obsolete_id(target_id))
}

/// The identifiers of the obsolete source nodes.
pub open spec fn removed_ids(src: Seq<NodeRecord>) -> Set<Seq<char>> {
    Set::new(|x: Seq<char>| exists|i: int| 0 <= i < src.len() && (#[trigger] src[i]).id == x && node_obsolete(src[i]))
}

/// The position of the last of the first `n` source nodes with identifier `id`.
pub open spec fn last_index(src: Seq<NodeRecord>, id: Seq<char>, n: int) -> int
    decreases n,
{
    if n <= 0 {
        -1
    } else if src[n - 1].id == id {
        n - 1
    } else {
        last_index(src, id, n - 1)
    }
}

/// The distinct identifiers of the source nodes.
pub open spec fn source_ids(src: Seq<NodeRecord>) -> Set<Seq<char>> {
    Set::new(|x: Seq<char>| exists|i: int| 0 <= i < src.len() && (#[trigger] src[i]).id == x)
}

/// The retained identifiers that stand for prerequisite `p`: `p` itself when
/// it is retained, else the retained prerequisites of the obsolete node `p`,
/// followed through further obsolete nodes. `None` when the walk comes back to
/// an obsolete node already on its path.
pub open spec fn promote(src: Seq<NodeRecord>, rm: Set<Seq<char>>, p: Seq<char>, path: Seq<Seq<char>>) -> Option<Set<Seq<char>>>
    decreases src.len() + 1 - path.len(), 0nat, 0nat,
{
    if !rm.contains(p) {
        Some(set![p])
    } else if path.contains(p) || path.len() >= src.len() {
        None
    } else {
        let ps = src[last_index(src, p, src.len() as int)].prerequisites;
        promote_all(src, rm, ps, path.push(p), ps.len())
    }
}

/// The union of `promote` over the first `k` prerequisites `ps`.
pub open spec fn promote_all(
    src: Seq<NodeRecord>,
    rm: Set<Seq<char>>,
    ps: Seq<Seq<char>>,
    path: Seq<Seq<char>>,
    k: nat,
) -> Option<Set<Seq<char>>>
    decreases src.len() + 1 - path.len(), 1nat, k,
{
    if k == 0 || k > ps.len() {
        Some(Set::empty())
    } else {
        match promote_all(src, rm, ps, path, (k - 1) as nat) {
            None => None,
            Some(a) => match promote(src, rm, ps[k - 1], path) {
                None => None,
                Some(b) => Some(a.union(b)),
            },
        }
    }
}

/// The identifiers of a finite set in increasing order.
pub open spec fn ascending(ids: Set<Seq<char>>) -> Seq<Seq<char>> {
    (choose|e: Seq<(Seq<char>, ())>| keys_sorted(e) && entries_map(e).dom() == ids).map_values(|x: (Seq<char>, ())| x.0)
}

/// The study a retained source node becomes, with its promoted prerequisites.
pub open spec fn catalog_study(n: NodeRecord, prereqs: Set<Seq<char>>) -> StudyRecord {
    StudyRecord {
        id: n.id,
        name: n.name,
        prerequisites: ascending(prereqs),
        source: ManifestStudySource::CurrentCatalog,
        stage: None,
        cost_units: if n.cost_units == 0 { 1 } else { n.cost_units },
        repeatable_terminal: false,
        order_index: 0,
        effects: n.payloads,
    }
}

/// The studies the first `n` source nodes become, or `None` on a cycle among
/// obsolete nodes.
pub open spec fn catalog_studies(src: Seq<NodeRecord>, n: int) -> Option<Seq<StudyRecord>>
    decreases n,
{
    if n <= 0 {
        Some(Seq::empty())
    } else {
        match catalog_studies(src, n - 1) {
            None => None,
            Some(t) => if removed_ids(src).contains(src[n - 1].id) {
                Some(t)
            } else {
                match promote_all(src, removed_ids(src), src[n - 1].prerequisites, Seq::empty(), src[n - 1].prerequisites.len()) {
                    None => None,
                    Some(p) => Some(t.push(catalog_study(src[n - 1], p))),
                }
            },
        }
    }
}

/// A capability study of the accepted plans: a building permit for the five
/// permit studies, a capability unlock otherwise.
pub open spec fn capability_record(id: Seq<char>, name: Seq<char>, prereqs: Seq<Seq<char>>) -> StudyRecord {
    let permit = id == "cookhouse"@ || id == "fishing_hut"@ || id == "family_homes"@ || id == "elder_lodge"@ || id
        == "nursery"@;
    StudyRecord {
        id,
        name,
        prerequisites: prereqs,
        source: ManifestStudySource::CurrentCatalog,
        stage: None,
        cost_units: 1,
        repeatable_terminal: false,
        order_index: 0,
        effects: seq![
            EffectView::CatalogPayload {
                handler: if permit {
                    ManifestEffectHandler::CatalogUnlockBuilding
                } else {
                    ManifestEffectHandler::CatalogUnlockCapability
                },
                target_id: if id == "family_homes"@ { "family_home"@ } else { id },
            },
        ],
    }
}

pub open spec fn family_studies() -> Seq<StudyRecord> {
    Seq::new(44, |i: int| capability_record(family_id(i), family_name(i), family_prerequisites(i)))
}

pub open spec fn rare_material_studies() -> Seq<StudyRecord> {
    Seq::new(
        20,
        |i: int| capability_record(rare_material_id(i), rare_material_name(i), seq!["hunting_lairs"@, "material_processing"@]),
    )
}

/// The first `k` curated convergence studies added where missing.
pub open spec fn with_curated(s: Seq<StudyRecord>, k: int) -> Seq<StudyRecord>
    decreases k,
{
    if k <= 0 {
        s
    } else {
        let t = with_curated(s, k - 1);
        if lists_study(t, curated_id(k - 1)) {
            t
        } else {
            t.push(capability_record(curated_id(k - 1), curated_name(k - 1), curated_prerequisites(k - 1)))
        }
    }
}

/// Stage `stage` of additive track `t`.
pub open spec fn track_record(t: ManifestTrack, stage: int) -> StudyRecord {
    StudyRecord {
        id: track_study_id(t, stage),
        name: track_display(t) + " Stage "@ + two_digits(stage),
        prerequisites: seq![track_prerequisite(t, stage)],
        source: ManifestStudySource::AdditiveTrack(t),
        stage: Some(stage as u8),
        cost_units: stage as u64,
        repeatable_terminal: false,
        order_index: 0,
        effects: seq![track_effect(t, stage as u8)],
    }
}

pub open spec fn track_records() -> Seq<StudyRecord> {
    Seq::new(44, |i: int| track_record(track_at(i / 11), i % 11 + 1))
}

/// The position of the first study with identifier `id`, if any.
pub open spec fn first_index(s: Seq<StudyRecord>, id: Seq<char>, n: int) -> int
    decreases n,
{
    if n <= 0 {
        -1
    } else if first_index(s, id, n - 1) >= 0 {
        first_index(s, id, n - 1)
    } else if s[n - 1].id == id {
        n - 1
    } else {
        -1
    }
}

/// The identifier of stage `j + 1` of global modifier track `t`.
pub open spec fn modifier_stage_id(t: int, j: int) -> Seq<char> {
    global_track_id(t) + "_"@ + stage_suffix(j)
}

/// Mark the first `k` global modifier stages (eleven a track): each gets its
/// stage, the eleventh becomes the repeatable terminal priced at twice the
/// tenth.
pub open spec fn marked(s: Seq<StudyRecord>, k: int) -> Result<Seq<StudyRecord>, ManifestFault>
    decreases k,
{
    if k <= 0 {
        Ok(s)
    } else {
        match marked(s, k - 1) {
            Err(f) => Err(f),
            Ok(t) => {
                let tr = (k - 1) / 11;
                let j = (k - 1) % 11;
                let i = first_index(t, modifier_stage_id(tr, j), t.len() as int);
                if i < 0 {
                    Err(ManifestFault::MalformedGlobalModifierTrack(global_track_id(tr)))
                } else {
                    let cost = if j == 10 {
                        doubled_saturating(t[first_index(t, modifier_stage_id(tr, 9), t.len() as int)].cost_units)
                    } else {
                        t[i].cost_units
                    };
                    Ok(t.update(i, StudyRecord { stage: Some((j + 1) as u8), repeatable_terminal: j == 10, cost_units: cost, ..t[i] }))
                }
            },
        }
    }
}

/// Join the first `k` curated junctions: each must exist, and one with fewer
/// than two prerequisites also requires typed food handling and the
/// governance foundations.
pub open spec fn joined(s: Seq<StudyRecord>, k: int) -> Result<Seq<StudyRecord>, ManifestFault>
    decreases k,
{
    if k <= 0 {
        Ok(s)
    } else {
        match joined(s, k - 1) {
            Err(f) => Err(f),
            Ok(t) => {
                let i = first_index(t, curated_junction_id(k - 1), t.len() as int);
                if i < 0 {
                    Err(ManifestFault::MissingCuratedJunctions { expected: 8, actual: 0 })
                } else if t[i].prerequisites.len() < 2 {
                    let ps = ascending(t[i].prerequisites.to_set().insert("typed_food_handling"@).insert("governance_foundations"@));
                    Ok(t.update(i, StudyRecord { prerequisites: ps, ..t[i] }))
                } else {
                    Ok(t)
                }
            },
        }
    }
}

/// Each study's order index becomes its position.
pub open spec fn renumbered(s: Seq<StudyRecord>) -> Seq<StudyRecord> {
    Seq::new(s.len(), |i: int| StudyRecord { order_index: i as usize, ..s[i] })
}

/// The manifest studies the source catalog builds: the retained catalog
/// studies, the plans' capability families, the rare materials, the missing
/// curated convergences and the four additive tracks, with the global
/// modifier tracks marked, the curated junctions joined and the order indices
/// renumbered.
pub open spec fn manifest_from_catalog(src: Seq<NodeRecord>) -> Result<Seq<StudyRecord>, ManifestFault> {
    match catalog_studies(src, src.len() as int) {
        None => Err(ManifestFault::CycleOrUnreachable { visited: 0, total: source_ids(src).len() }),
        Some(c) => {
            let s = with_curated(c + family_studies() + rare_material_studies(), 8) + track_records();
            match marked(s, 154) {
                Err(f) => Err(f),
                Ok(m) => match joined(m, 8) {
                    Err(f) => Err(f),
                    Ok(j) => Ok(renumbered(j)),
                },
            }
        },
    }
}

/// The first fault the manifest build meets: in the build itself, in the
/// manifest rules, or in the canonical graph rules.
pub open spec fn manifest_build_fault(src: Seq<NodeRecord>) -> Option<ManifestFault> {
    match manifest_from_catalog(src) {
        Err(f) => Some(f),
        Ok(s) => if manifest_fault(RESEARCH_MANIFEST_SCHEMA_VERSION, ordered(s)) is Some {
            manifest_fault(RESEARCH_MANIFEST_SCHEMA_VERSION, ordered(s))
        } else {
            graph_fault(ordered(s))
        },
    }
}


fn copy_node_effects(v: &Vec<ManifestEffect>) -> (r: Vec<ManifestEffect>)
    ensures
        effects_view(r@) == effects_view(v@),
{
    copy_effects(v)
}

fn is_obsolete_node(n: &CatalogNodeFacts) -> (r: bool)
    ensures
        r == node_obsolete(node_record(*n)),
{
    if is_obsolete_stable_id(n.id.as_str()) {
        return true;
    }
    let ghost nr = node_record(*n);
    let mut k: usize = 0;
    while k < n.payloads.len()
        invariant
            nr == node_record(*n),
            !obsolete_id(nr.id),
            k <= n.payloads@.len(),
            forall|q: int|
                0 <= q < k ==> !(#[trigger] nr.payloads[q] matches EffectView::CatalogPayload { target_id, .. } && obsolete_id(
                    target_id,
                )),
        decreases n.payloads@.len() - k,
    {
        assert(nr.payloads[k as int] == effect_view(n.payloads@[k as int]));
        match &n.payloads[k] {
            ManifestEffect::CatalogPayload { target_id, .. } => {
                if is_obsolete_stable_id(target_id.as_str()) {
                    return true;
                }
            },
            _ => {},
        }
        k = k + 1;
    }
    false
}

/// Each source identifier to the position of its last node.
fn node_lookup(src: &Vec<CatalogNodeFacts>) -> (r: IdMap<usize>)
    ensures
        r.wf(),
        forall|x: Seq<char>| #[trigger] r.map().contains_key(x) <==> source_ids(node_records(src@)).contains(x),
        forall|x: Seq<char>|
            #[trigger] r.map().contains_key(x) ==> r.map()[x] as int == last_index(node_records(src@), x, src@.len() as int),
{
    let ghost s = node_records(src@);
    let mut r: IdMap<usize> = IdMap::new();
    let mut i: usize = 0;
    while i < src.len()
        invariant
            s == node_records(src@),
            i <= src@.len(),
            r.wf(),
            forall|x: Seq<char>| #[trigger] r.map().contains_key(x) <==> exists|j: int| 0 <= j < i && (#[trigger] s[j]).id == x,
            forall|x: Seq<char>| #[trigger] r.map().contains_key(x) ==> r.map()[x] as int == last_index(s, x, i as int),
        decreases src@.len() - i,
    {
        assert(s[i as int] == node_record(src@[i as int]));
        let ghost before = r.map();
        r.insert(text_copy(&src[i].id), i);
        proof {
            assert forall|x: Seq<char>| #[trigger] r.map().contains_key(x) <==> exists|j: int|
                0 <= j < i + 1 && (#[trigger] s[j]).id == x by {
                if x == s[i as int].id {
                    assert(s[i as int].id == x);
                } else if r.map().contains_key(x) {
                    assert(before.contains_key(x));
                }
            }
        }
        i = i + 1;
    }
    proof {
        assert forall|x: Seq<char>| #[trigger] r.map().contains_key(x) <==> source_ids(s).contains(x) by {}
    }
    r
}

proof fn lemma_last_index(s: Seq<NodeRecord>, x: Seq<char>, n: int)
    requires
        0 <= n <= s.len(),
        exists|j: int| 0 <= j < n && (#[trigger] s[j]).id == x,
    ensures
        0 <= last_index(s, x, n) < n,
        s[last_index(s, x, n)].id == x,
    decreases n,
{
    if s[n - 1].id != x {
        let j = choose|j: int| 0 <= j < n && (#[trigger] s[j]).id == x;
        assert(j < n - 1);
        lemma_last_index(s, x, n - 1);
    }
}

/// The identifiers of the obsolete source nodes.
fn removed_set(src: &Vec<CatalogNodeFacts>) -> (r: IdMap<()>)
    ensures
        r.wf(),
        r.map().dom() == removed_ids(node_records(src@)),
{
    let ghost s = node_records(src@);
    let mut r: IdMap<()> = IdMap::new();
    let mut i: usize = 0;
    while i < src.len()
        invariant
            s == node_records(src@),
            i <= src@.len(),
            r.wf(),
            forall|x: Seq<char>|
                #[trigger] r.map().contains_key(x) <==> exists|j: int| 0 <= j < i && (#[trigger] s[j]).id == x && node_obsolete(s[j]),
        decreases src@.len() - i,
    {
        assert(s[i as int] == node_record(src@[i as int]));
        let ghost before = r.map();
        if is_obsolete_node(&src[i]) {
            r.insert(text_copy(&src[i].id), ());
        }
        proof {
            assert forall|x: Seq<char>| #[trigger] r.map().contains_key(x) <==> exists|j: int|
                0 <= j < i + 1 && (#[trigger] s[j]).id == x && node_obsolete(s[j]) by {
                if x == s[i as int].id && node_obsolete(s[i as int]) {
                    assert(s[i as int].id == x);
                } else if r.map().contains_key(x) {
                    assert(before.contains_key(x));
                } else if exists|j: int| 0 <= j < i + 1 && (#[trigger] s[j]).id == x && node_obsolete(s[j]) {
                    let j = choose|j: int| 0 <= j < i + 1 && (#[trigger] s[j]).id == x && node_obsolete(s[j]);
                    if j < i {
                        assert(before.contains_key(x));
                    }
                }
            }
        }
        i = i + 1;
    }
    proof {
        assert(r.map().dom() =~= removed_ids(s));
    }
    r
}

fn path_holds(path: &Vec<String>, p: &str) -> (r: bool)
    ensures
        r == strings_view(path@).contains(p@),
{
    let mut i: usize = 0;
    while i < path.len()
        invariant
            i <= path@.len(),
            forall|j: int| 0 <= j < i ==> (#[trigger] path@[j])@ != p@,
        decreases path@.len() - i,
    {
        if text_eq(path[i].as_str(), p) {
            proof {
                assert(strings_view(path@)[i as int] == p@);
            }
            return true;
        }
        i = i + 1;
    }
    proof {
        if strings_view(path@).contains(p@) {
            let j = choose|j: int| 0 <= j < strings_view(path@).len() && strings_view(path@)[j] == p@;
            assert(path@[j]@ == p@);
        }
    }
    false
}

/// Add to `out` the retained identifiers that stand for prerequisite `p`;
/// `false` when the walk finds a cycle among obsolete nodes.
fn promote_into(
    src: &Vec<CatalogNodeFacts>,
    lookup: &IdMap<usize>,
    removed: &IdMap<()>,
    p: &str,
    path: &mut Vec<String>,
    out: &mut IdMap<()>,
) -> (ok: bool)
    requires
        lookup.wf(),
        forall|x: Seq<char>| #[trigger] lookup.map().contains_key(x) <==> source_ids(node_records(src@)).contains(x),
        forall|x: Seq<char>|
            #[trigger] lookup.map().contains_key(x) ==> lookup.map()[x] as int == last_index(node_records(src@), x, src@.len() as int),
        removed.wf(),
        removed.map().dom() == removed_ids(node_records(src@)),
        old(out).wf(),
    ensures
        final(path)@ == old(path)@,
        final(out).wf(),
        ok <==> promote(node_records(src@), removed_ids(node_records(src@)), p@, strings_view(old(path)@)) is Some,
        promote(node_records(src@), removed_ids(node_records(src@)), p@, strings_view(old(path)@)) matches Some(set)
            ==> final(out).map().dom() == old(out).map().dom().union(set),
    decreases src@.len() + 1 - old(path)@.len(),
{
    let ghost s = node_records(src@);
    let ghost rm = removed_ids(s);
    let ghost pv = strings_view(path@);
    if !removed.contains_key(p) {
        let ghost before = out.map().dom();
        out.insert(String::from_str(p), ());
        proof {
            assert(out.map().dom() =~= before.union(set![p@]));
        }
        return true;
    }
    if path_holds(path, p) || path.len() >= src.len() {
        return false;
    }
    proof {
        assert(rm.contains(p@));
        let i = choose|i: int| 0 <= i < s.len() && (#[trigger] s[i]).id == p@ && node_obsolete(s[i]);
        assert(source_ids(s).contains(p@));
    }
    let index = *lookup.get(p).unwrap();
    proof {
        let i = choose|i: int| 0 <= i < s.len() && (#[trigger] s[i]).id == p@ && node_obsolete(s[i]);
        lemma_last_index(s, p@, s.len() as int);
        assert(s[index as int] == node_record(src@[index as int]));
    }
    let ghost ps = s[index as int].prerequisites;
    let ghost path2 = pv.push(p@);
    proof {
        assert(pv.len() == old(path)@.len());
        assert(promote(s, rm, p@, pv) == promote_all(s, rm, ps, path2, ps.len()));
    }
    path.push(String::from_str(p));
    let ghost pushed = path@;
    proof {
        assert(strings_view(path@) =~= path2);
    }
    let ghost start = out.map().dom();
    let ghost mut acc: Set<Seq<char>> = Set::empty();
    let node = &src[index];
    let m = node.prerequisites.len();
    let mut k: usize = 0;
    while k < m
        invariant
            s == node_records(src@),
            rm == removed_ids(s),
            lookup.wf(),
            forall|x: Seq<char>| #[trigger] lookup.map().contains_key(x) <==> source_ids(s).contains(x),
            forall|x: Seq<char>| #[trigger] lookup.map().contains_key(x) ==> lookup.map()[x] as int == last_index(s, x, s.len() as int),
            removed.wf(),
            removed.map().dom() == rm,
            strings_view(path@) == path2,
            path@ == pushed,
            pushed == old(path)@.push(pushed.last()),
            path@.len() == old(path)@.len() + 1,
            old(path)@.len() < src@.len(),
            s.len() == src@.len(),
            promote(s, rm, p@, pv) == promote_all(s, rm, ps, path2, ps.len()),
            pv == strings_view(old(path)@),
            ps == strings_view(node.prerequisites@),
            m == ps.len(),
            k <= m,
            out.wf(),
            promote_all(s, rm, ps, path2, k as nat) == Some(acc),
            out.map().dom() == start.union(acc),
        decreases m - k,
    {
        let q = &node.prerequisites[k];
        assert(ps[k as int] == q@);
        let ghost out_before = out.map().dom();
        let ok = promote_into(src, lookup, removed, q.as_str(), path, out);
        if !ok {
            let _ = path.pop();
            proof {
                assert(promote_all(s, rm, ps, path2, (k + 1) as nat) is None);
                assert(path@ =~= old(path)@);
                lemma_promote_all_none(s, rm, ps, path2, (k + 1) as nat, ps.len());
                assert(promote_all(s, rm, ps, path2, ps.len()) is None);
                assert(promote(s, rm, p@, pv) is None);
                assert(pv == strings_view(old(path)@));
            }
            return false;
        }
        proof {
            let b = promote(s, rm, q@, path2)->0;
            assert(promote_all(s, rm, ps, path2, (k + 1) as nat) == Some(acc.union(b)));
            assert(out.map().dom() =~= start.union(acc.union(b)));
            acc = acc.union(b);
        }
        k = k + 1;
    }
    let _ = path.pop();
    proof {
        assert(path@ =~= old(path)@);
    }
    true
}

proof fn lemma_promote_all_none(
    s: Seq<NodeRecord>,
    rm: Set<Seq<char>>,
    ps: Seq<Seq<char>>,
    path: Seq<Seq<char>>,
    k: nat,
    n: nat,
)
    requires
        1 <= k <= n <= ps.len(),
        promote_all(s, rm, ps, path, k) is None,
    ensures
        promote_all(s, rm, ps, path, n) is None,
    decreases n - k,
{
    if n > k {
        lemma_promote_all_none(s, rm, ps, path, k, (n - 1) as nat);
    }
}

/// The identifiers of a set, in increasing order.
fn ascending_keys(set: &IdMap<()>) -> (r: Vec<String>)
    requires
        set.wf(),
    ensures
        strings_view(r@) == ascending(set.map().dom()),
{
    let mut r: Vec<String> = Vec::new();
    let mut i: usize = 0;
    while i < set.len()
        invariant
            set.wf(),
            i <= set@.len(),
            strings_view(r@) == set@.take(i as int).map_values(|x: (Seq<char>, ())| x.0),
        decreases set@.len() - i,
    {
        let ghost before = r@;
        r.push(text_copy(set.key_at(i)));
        proof {
            assert(strings_view(r@) =~= strings_view(before).push(set@[i as int].0));
            assert(set@.take(i + 1) =~= set@.take(i as int).push(set@[i as int]));
            assert(set@.take(i + 1).map_values(|x: (Seq<char>, ())| x.0) =~= set@.take(i as int).map_values(
                |x: (Seq<char>, ())| x.0,
            ).push(set@[i as int].0));
        }
        i = i + 1;
    }
    proof {
        assert(set@.take(set@.len() as int) =~= set@);
        let e = choose|e: Seq<(Seq<char>, ())>| keys_sorted(e) && entries_map(e).dom() == set.map().dom();
        assert(keys_sorted(set@) && entries_map(set@).dom() == set.map().dom());
        assert(entries_map(e) =~= entries_map(set@));
        crate::id_map::lemma_sorted_entries_unique(e, set@);
    }
    r
}

fn catalog_study_value(n: &CatalogNodeFacts, prereqs: Vec<String>) -> (r: ManifestStudy)
    ensures
        record(r) == (StudyRecord { prerequisites: strings_view(prereqs@), ..catalog_study(node_record(*n), Set::empty()) }),
{
    ManifestStudy {
        stable_id: text_copy(&n.id),
        display_name: text_copy(&n.name),
        prerequisites: prereqs,
        source: ManifestStudySource::CurrentCatalog,
        stage: None,
        cost_units: if n.cost_units == 0 {
            1
        } else {
            n.cost_units
        },
        repeatable_terminal: false,
        order_index: 0,
        effects: copy_effects(&n.payloads),
    }
}

/// The studies the retained source nodes become, in source order; `None` on
/// a cycle among obsolete nodes.
fn catalog_part(src: &Vec<CatalogNodeFacts>, lookup: &IdMap<usize>, removed: &IdMap<()>) -> (r: Option<Vec<ManifestStudy>>)
    requires
        lookup.wf(),
        forall|x: Seq<char>| #[trigger] lookup.map().contains_key(x) <==> source_ids(node_records(src@)).contains(x),
        forall|x: Seq<char>|
            #[trigger] lookup.map().contains_key(x) ==> lookup.map()[x] as int == last_index(node_records(src@), x, src@.len() as int),
        removed.wf(),
        removed.map().dom() == removed_ids(node_records(src@)),
    ensures
        r is None <==> catalog_studies(node_records(src@), src@.len() as int) is None,
        r matches Some(v) ==> catalog_studies(node_records(src@), src@.len() as int) == Some(records(v@)),
{
    let ghost s = node_records(src@);
    let ghost rm = removed_ids(s);
    let mut studies: Vec<ManifestStudy> = Vec::new();
    let mut i: usize = 0;
    while i < src.len()
        invariant
            s == node_records(src@),
            rm == removed_ids(s),
            lookup.wf(),
            forall|x: Seq<char>| #[trigger] lookup.map().contains_key(x) <==> source_ids(s).contains(x),
            forall|x: Seq<char>| #[trigger] lookup.map().contains_key(x) ==> lookup.map()[x] as int == last_index(s, x, s.len() as int),
            removed.wf(),
            removed.map().dom() == rm,
            i <= src@.len(),
            catalog_studies(s, i as int) == Some(records(studies@)),
        decreases src@.len() - i,
    {
        let node = &src[i];
        assert(s[i as int] == node_record(*node));
        if !removed.contains_key(node.id.as_str()) {
            let mut out: IdMap<()> = IdMap::new();
            let mut path: Vec<String> = Vec::new();
            let ghost ps = s[i as int].prerequisites;
            let ghost mut acc: Set<Seq<char>> = Set::empty();
            proof {
                assert(strings_view(path@) =~= Seq::<Seq<char>>::empty());
                assert(out.map().dom() =~= acc);
            }
            let m = node.prerequisites.len();
            let mut k: usize = 0;
            while k < m
                invariant
                    s == node_records(src@),
                    rm == removed_ids(s),
                    lookup.wf(),
                    forall|x: Seq<char>| #[trigger] lookup.map().contains_key(x) <==> source_ids(s).contains(x),
                    forall|x: Seq<char>|
                        #[trigger] lookup.map().contains_key(x) ==> lookup.map()[x] as int == last_index(s, x, s.len() as int),
                    removed.wf(),
                    removed.map().dom() == rm,
                    path@.len() == 0,
                    ps == strings_view(node.prerequisites@),
                    m == ps.len(),
                    k <= m,
                    out.wf(),
                    promote_all(s, rm, ps, Seq::empty(), k as nat) == Some(acc),
                    out.map().dom() == acc,
                    catalog_studies(s, i as int) == Some(records(studies@)),
                    i < src@.len(),
                    !rm.contains(s[i as int].id),
                    ps == s[i as int].prerequisites,
                decreases m - k,
            {
                let q = &node.prerequisites[k];
                assert(ps[k as int] == q@);
                proof {
                    assert(strings_view(path@) =~= Seq::<Seq<char>>::empty());
                }
                let ok = promote_into(src, lookup, removed, q.as_str(), &mut path, &mut out);
                if !ok {
                    proof {
                        assert(promote_all(s, rm, ps, Seq::empty(), (k + 1) as nat) is None);
                        lemma_promote_all_none(s, rm, ps, Seq::empty(), (k + 1) as nat, ps.len());
                        lemma_catalog_studies_none(s, i as int + 1, s.len() as int);
                    }
                    return None;
                }
                proof {
                    let b = promote(s, rm, q@, Seq::empty())->0;
                    assert(promote_all(s, rm, ps, Seq::empty(), (k + 1) as nat) == Some(acc.union(b)));
                    acc = acc.union(b);
                }
                k = k + 1;
            }
            let prereqs = ascending_keys(&out);
            let study = catalog_study_value(node, prereqs);
            let ghost before = studies@;
            studies.push(study);
            proof {
                assert(records(studies@) =~= records(before).push(catalog_study(s[i as int], acc)));
            }
        }
        i = i + 1;
    }
    Some(studies)
}

proof fn lemma_catalog_studies_none(s: Seq<NodeRecord>, k: int, n: int)
    requires
        1 <= k <= n,
        catalog_studies(s, k) is None,
    ensures
        catalog_studies(s, n) is None,
    decreases n - k,
{
    if n > k {
        lemma_catalog_studies_none(s, k, n - 1);
    }
}

fn capability_value(id: &str, name: &str, prereqs: Vec<String>) -> (r: ManifestStudy)
    ensures
        record(r) == capability_record(id@, name@, strings_view(prereqs@)),
{
    let permit = text_eq(id, "cookhouse") || text_eq(id, "fishing_hut") || text_eq(id, "family_homes") || text_eq(
        id,
        "elder_lodge",
    ) || text_eq(id, "nursery");
    let handler = if permit {
        ManifestEffectHandler::CatalogUnlockBuilding
    } else {
        ManifestEffectHandler::CatalogUnlockCapability
    };
    let target = if text_eq(id, "family_homes") {
        String::from_str("family_home")
    } else {
        String::from_str(id)
    };
    let mut effects: Vec<ManifestEffect> = Vec::new();
    effects.push(ManifestEffect::CatalogPayload { handler, target_id: target });
    let r = ManifestStudy {
        stable_id: String::from_str(id),
        display_name: String::from_str(name),
        prerequisites: prereqs,
        source: ManifestStudySource::CurrentCatalog,
        stage: None,
        cost_units: 1,
        repeatable_terminal: false,
        order_index: 0,
        effects,
    };
    proof {
        assert(effects_view(r.effects@) =~= capability_record(id@, name@, strings_view(prereqs@)).effects);
    }
    r
}

proof fn lemma_records_push(v: Seq<ManifestStudy>, x: ManifestStudy)
    ensures
        records(v.push(x)) == records(v).push(record(x)),
{
    assert(records(v.push(x)) =~= records(v).push(record(x)));
}

fn rare_prerequisites() -> (r: Vec<String>)
    ensures
        strings_view(r@) == seq!["hunting_lairs"@, "material_processing"@],
{
    let mut r: Vec<String> = Vec::new();
    r.push(String::from_str("hunting_lairs"));
    r.push(String::from_str("material_processing"));
    proof {
        assert(strings_view(r@) =~= seq!["hunting_lairs"@, "material_processing"@]);
    }
    r
}

fn lists_study_exec(v: &Vec<ManifestStudy>, id: &str) -> (r: bool)
    ensures
        r == lists_study(records(v@), id@),
{
    let mut i: usize = 0;
    while i < v.len()
        invariant
            i <= v@.len(),
            forall|j: int| 0 <= j < i ==> (#[trigger] records(v@)[j]).id != id@,
        decreases v@.len() - i,
    {
        assert(records(v@)[i as int] == record(v@[i as int]));
        if text_eq(v[i].stable_id.as_str(), id) {
            return true;
        }
        i = i + 1;
    }
    false
}

fn track_value(t: ManifestTrack, stage: u8) -> (r: ManifestStudy)
    requires
        1 <= stage <= 11,
    ensures
        record(r) == track_record(t, stage as int),
{
    let mut name = String::from_str(t.display_name());
    name.append(" Stage ");
    push_two_digits(&mut name, stage);
    let mut prereqs: Vec<String> = Vec::new();
    prereqs.push(track_prerequisite_text(t, stage));
    let mut effects: Vec<ManifestEffect> = Vec::new();
    effects.push(track_effect_value(t, stage));
    let r = ManifestStudy {
        stable_id: track_study_id_text(t, stage),
        display_name: name,
        prerequisites: prereqs,
        source: ManifestStudySource::AdditiveTrack(t),
        stage: Some(stage),
        cost_units: stage as u64,
        repeatable_terminal: false,
        order_index: 0,
        effects,
    };
    proof {
        assert(strings_view(r.prerequisites@) =~= seq![track_prerequisite(t, stage as int)]);
        assert(effects_view(r.effects@) =~= seq![track_effect(t, stage)]);
    }
    r
}

/// The catalog studies followed by the plans' families, the rare materials,
/// the missing curated convergences and the additive tracks.
fn append_plan_studies(studies: &mut Vec<ManifestStudy>)
    ensures
        records(final(studies)@) == with_curated(records(old(studies)@) + family_studies() + rare_material_studies(), 8)
            + track_records(),
{
    let ghost c = records(studies@);
    let mut i: usize = 0;
    while i < 44
        invariant
            i <= 44,
            records(studies@) == c + family_studies().take(i as int),
        decreases 44 - i,
    {
        let study = capability_value(family_id_text(i), family_name_text(i), family_prerequisite_list(i));
        let ghost before = studies@;
        studies.push(study);
        proof {
            lemma_records_push(before, study);
            assert(family_studies().take(i + 1) =~= family_studies().take(i as int).push(family_studies()[i as int]));
            assert(records(studies@) =~= c + family_studies().take(i + 1));
        }
        i = i + 1;
    }
    proof {
        assert(family_studies().take(44) =~= family_studies());
    }
    let ghost cf = records(studies@);
    let mut i: usize = 0;
    while i < 20
        invariant
            i <= 20,
            cf == c + family_studies(),
            records(studies@) == cf + rare_material_studies().take(i as int),
        decreases 20 - i,
    {
        let study = capability_value(rare_material_id_text(i), rare_material_name_text(i), rare_prerequisites());
        let ghost before = studies@;
        studies.push(study);
        proof {
            lemma_records_push(before, study);
            assert(rare_material_studies().take(i + 1) =~= rare_material_studies().take(i as int).push(
                rare_material_studies()[i as int],
            ));
            assert(records(studies@) =~= cf + rare_material_studies().take(i + 1));
        }
        i = i + 1;
    }
    proof {
        assert(rare_material_studies().take(20) =~= rare_material_studies());
    }
    let ghost base = records(studies@);
    let mut k: usize = 0;
    while k < 8
        invariant
            k <= 8,
            base == c + family_studies() + rare_material_studies(),
            records(studies@) == with_curated(base, k as int),
        decreases 8 - k,
    {
        if !lists_study_exec(studies, curated_id_text(k)) {
            let study = capability_value(curated_id_text(k), curated_name_text(k), curated_prerequisite_list(k));
            let ghost before = studies@;
            studies.push(study);
            proof {
                lemma_records_push(before, study);
                assert(records(studies@) =~= with_curated(base, k as int).push(
                    capability_record(curated_id(k as int), curated_name(k as int), curated_prerequisites(k as int)),
                ));
            }
        }
        k = k + 1;
    }
    let ghost cur = records(studies@);
    let mut i: usize = 0;
    while i < 44
        invariant
            i <= 44,
            cur == with_curated(base, 8),
            base == c + family_studies() + rare_material_studies(),
            records(studies@) == cur + track_records().take(i as int),
        decreases 44 - i,
    {
        let track = track_number(i / 11);
        let study = track_value(track, (i % 11 + 1) as u8);
        let ghost before = studies@;
        studies.push(study);
        proof {
            lemma_records_push(before, study);
            assert(track_records().take(i + 1) =~= track_records().take(i as int).push(track_records()[i as int]));
            assert(records(studies@) =~= cur + track_records().take(i + 1));
        }
        i = i + 1;
    }
    proof {
        assert(track_records().take(44) =~= track_records());
    }
}

fn first_position(v: &Vec<ManifestStudy>, id: &str) -> (r: Option<usize>)
    ensures
        match r {
            None => first_index(records(v@), id@, v@.len() as int) < 0,
            Some(i) => first_index(records(v@), id@, v@.len() as int) == i,
        },
{
    let ghost s = records(v@);
    let mut i: usize = 0;
    while i < v.len()
        invariant
            s == records(v@),
            i <= v@.len(),
            first_index(s, id@, i as int) < 0,
        decreases v@.len() - i,
    {
        assert(s[i as int] == record(v@[i as int]));
        if text_eq(v[i].stable_id.as_str(), id) {
            proof {
                lemma_first_index_stays(s, id@, i + 1, v@.len() as int);
            }
            return Some(i);
        }
        i = i + 1;
    }
    None
}

proof fn lemma_first_index_stays(s: Seq<StudyRecord>, id: Seq<char>, k: int, n: int)
    requires
        1 <= k <= n,
        first_index(s, id, k) >= 0,
    ensures
        first_index(s, id, n) == first_index(s, id, k),
    decreases n - k,
{
    if n > k {
        lemma_first_index_stays(s, id, k, n - 1);
    }
}

proof fn lemma_first_index_bounds(s: Seq<StudyRecord>, id: Seq<char>, n: int)
    requires
        0 <= n <= s.len(),
    ensures
        first_index(s, id, n) < n,
        first_index(s, id, n) >= 0 ==> s[first_index(s, id, n)].id == id,
    decreases n,
{
    if n > 0 {
        lemma_first_index_bounds(s, id, n - 1);
    }
}

fn replace_study(v: &mut Vec<ManifestStudy>, i: usize, st: ManifestStudy)
    requires
        i < old(v)@.len(),
    ensures
        records(final(v)@) == records(old(v)@).update(i as int, record(st)),
{
    let _ = v.remove(i);
    v.insert(i, st);
    proof {
        assert(records(final(v)@) =~= records(old(v)@).update(i as int, record(st)));
    }
}

fn modifier_stage_id_text(t: usize, j: usize) -> (r: String)
    requires
        t < 14,
        j < 11,
    ensures
        r@ == modifier_stage_id(t as int, j as int),
{
    let mut s = String::from_str(global_track_id_text(t));
    s.append("_");
    s.append(stage_suffix_text(j));
    s
}

/// Mark the global modifier tracks' stages.
fn mark_tracks(v: &mut Vec<ManifestStudy>) -> (r: Result<(), ResearchManifestError>)
    ensures
        match marked(records(old(v)@), 154) {
            Err(f) => fault_result(r) == Some(f),
            Ok(m) => r is Ok && records(final(v)@) == m,
        },
{
    let ghost s0 = records(v@);
    let mut k: usize = 0;
    while k < 154
        invariant
            k <= 154,
            s0 == records(old(v)@),
            marked(s0, k as int) == Ok::<Seq<StudyRecord>, ManifestFault>(records(v@)),
        decreases 154 - k,
    {
        let tr = k / 11;
        let j = k % 11;
        let ghost t = records(v@);
        let id = modifier_stage_id_text(tr, j);
        match first_position(v, id.as_str()) {
            None => {
                proof {
                    lemma_marked_err(s0, k as int + 1, 154);
                }
                return Err(ResearchManifestError::MalformedGlobalModifierTrack(String::from_str(global_track_id_text(tr))));
            },
            Some(i) => {
                proof {
                    lemma_first_index_bounds(t, id@, t.len() as int);
                    assert(t[i as int] == record(v@[i as int]));
                }
                let cost = if j == 10 {
                    let id9 = modifier_stage_id_text(tr, 9);
                    let p9 = first_position(v, id9.as_str());
                    proof {
                        assert(marked(s0, k as int - 1) is Ok);
                        lemma_first_index_bounds(t, id9@, t.len() as int);
                    }
                    match p9 {
                        Some(i9) => {
                            assert(t[i9 as int] == record(v@[i9 as int]));
                            double_saturating(v[i9].cost_units)
                        },
                        None => {
                            proof {
                                lemma_marked_stage_ten(s0, k as int);
                                lemma_marked_ids(s0, k as int);
                                assert(false);
                            }
                            0
                        },
                    }
                } else {
                    v[i].cost_units
                };
                let mut st = v[i].duplicate();
                st.stage = Some((j + 1) as u8);
                st.repeatable_terminal = j == 10;
                st.cost_units = cost;
                replace_study(v, i, st);
                proof {
                    assert(records(v@) =~= t.update(
                        i as int,
                        StudyRecord { stage: Some((j + 1) as u8), repeatable_terminal: j == 10, cost_units: cost, ..t[i as int] },
                    ));
                }
            },
        }
        k = k + 1;
    }
    Ok(())
}

proof fn lemma_marked_err(s: Seq<StudyRecord>, k: int, n: int)
    requires
        1 <= k <= n,
        marked(s, k) is Err,
    ensures
        marked(s, n) == marked(s, k),
    decreases n - k,
{
    if n > k {
        lemma_marked_err(s, k, n - 1);
    }
}

proof fn lemma_marked_ids(s: Seq<StudyRecord>, k: int)
    requires
        marked(s, k) is Ok,
    ensures
        marked(s, k)->Ok_0.len() == s.len(),
        forall|i: int| 0 <= i < s.len() ==> (#[trigger] marked(s, k)->Ok_0[i]).id == s[i].id,
    decreases k,
{
    if k > 0 {
        lemma_marked_ids(s, k - 1);
        let t = marked(s, k - 1)->Ok_0;
        let tr = (k - 1) / 11;
        let j = (k - 1) % 11;
        lemma_first_index_bounds(t, modifier_stage_id(tr, j), t.len() as int);
        lemma_first_index_bounds(t, modifier_stage_id(tr, 9), t.len() as int);
    }
}

/// The tenth stage of a track is found before its eleventh.
proof fn lemma_marked_stage_ten(s: Seq<StudyRecord>, k: int)
    requires
        0 <= k < 154,
        k % 11 == 10,
        marked(s, k) is Ok,
    ensures
        first_index(marked(s, k)->Ok_0, modifier_stage_id(k / 11, 9), s.len() as int) >= 0,
{
    let tr = k / 11;
    assert((k - 1) / 11 == tr && (k - 1) % 11 == 9);
    let t1 = marked(s, k - 1)->Ok_0;
    lemma_marked_ids(s, k - 1);
    lemma_marked_ids(s, k);
    let i = first_index(t1, modifier_stage_id(tr, 9), t1.len() as int);
    lemma_first_index_bounds(t1, modifier_stage_id(tr, 9), t1.len() as int);
    let t2 = marked(s, k)->Ok_0;
    assert(t2[i].id == s[i].id);
    assert(t2[i].id == modifier_stage_id(tr, 9));
    lemma_first_index_found(t2, modifier_stage_id(tr, 9), i, s.len() as int);
}

proof fn lemma_first_index_found(s: Seq<StudyRecord>, id: Seq<char>, i: int, n: int)
    requires
        0 <= i < n <= s.len(),
        s[i].id == id,
    ensures
        first_index(s, id, n) >= 0,
    decreases n,
{
    if n - 1 > i {
        lemma_first_index_found(s, id, i, n - 1);
    }
}

/// Join the curated junctions.
fn join_junctions(v: &mut Vec<ManifestStudy>) -> (r: Result<(), ResearchManifestError>)
    ensures
        match joined(records(old(v)@), 8) {
            Err(f) => fault_result(r) == Some(f),
            Ok(m) => r is Ok && records(final(v)@) == m,
        },
{
    let ghost s0 = records(v@);
    let mut k: usize = 0;
    while k < 8
        invariant
            k <= 8,
            s0 == records(old(v)@),
            joined(s0, k as int) == Ok::<Seq<StudyRecord>, ManifestFault>(records(v@)),
        decreases 8 - k,
    {
        let ghost t = records(v@);
        match first_position(v, curated_junction_id_text(k)) {
            None => {
                proof {
                    lemma_joined_err(s0, k as int + 1, 8);
                }
                return Err(ResearchManifestError::MissingCuratedJunctions { expected: 8, actual: 0 });
            },
            Some(i) => {
                proof {
                    lemma_first_index_bounds(t, curated_junction_id(k as int), t.len() as int);
                    assert(t[i as int] == record(v@[i as int]));
                }
                if v[i].prerequisites.len() < 2 {
                    let mut set: IdMap<()> = IdMap::new();
                    let ghost pre = t[i as int].prerequisites;
                    let mut q: usize = 0;
                    while q < v[i].prerequisites.len()
                        invariant
                            i < v@.len(),
                            pre == strings_view(v@[i as int].prerequisites@),
                            q <= pre.len(),
                            set.wf(),
                            set.map().dom() == pre.take(q as int).to_set(),
                        decreases pre.len() - q,
                    {
                        let ghost before = set.map().dom();
                        set.insert(text_copy(&v[i].prerequisites[q]), ());
                        proof {
                            assert(pre.take(q + 1) =~= pre.take(q as int).push(pre[q as int]));
                            assert(set.map().dom() =~= pre.take(q + 1).to_set()) by {
                                assert forall|x: Seq<char>| set.map().dom().contains(x) <==> pre.take(q + 1).to_set().contains(x) by {
                                    if pre.take(q + 1).contains(x) {
                                        let w = choose|w: int| 0 <= w < pre.take(q + 1).len() && #[trigger] pre.take(q + 1)[w] == x;
                                        if w < q {
                                            assert(pre.take(q as int)[w] == x);
                                        }
                                    }
                                    if before.contains(x) {
                                        let w = choose|w: int| 0 <= w < pre.take(q as int).len() && #[trigger] pre.take(q as int)[w] == x;
                                        assert(pre.take(q + 1)[w] == x);
                                    }
                                    if x == pre[q as int] {
                                        assert(pre.take(q + 1)[q as int] == x);
                                    }
                                }
                            }
                        }
                        q = q + 1;
                    }
                    let ghost base = set.map().dom();
                    set.insert(String::from_str("typed_food_handling"), ());
                    set.insert(String::from_str("governance_foundations"), ());
                    proof {
                        assert(pre.take(pre.len() as int) =~= pre);
                        assert(set.map().dom() =~= pre.to_set().insert("typed_food_handling"@).insert("governance_foundations"@));
                    }
                    let prereqs = ascending_keys(&set);
                    let mut st = v[i].duplicate();
                    st.prerequisites = prereqs;
                    replace_study(v, i, st);
                    proof {
                        assert(records(v@) =~= t.update(i as int, StudyRecord { prerequisites: strings_view(prereqs@), ..t[i as int] }));
                    }
                }
            },
        }
        k = k + 1;
    }
    Ok(())
}

proof fn lemma_joined_err(s: Seq<StudyRecord>, k: int, n: int)
    requires
        1 <= k <= n,
        joined(s, k) is Err,
    ensures
        joined(s, n) == joined(s, k),
    decreases n - k,
{
    if n > k {
        lemma_joined_err(s, k, n - 1);
    }
}

/// Each study's order index becomes its position.
fn renumber(v: Vec<ManifestStudy>) -> (r: Vec<ManifestStudy>)
    ensures
        records(r@) == renumbered(records(v@)),
{
    let ghost s = records(v@);
    let mut rest = v;
    let mut out: Vec<ManifestStudy> = Vec::new();
    let ghost mut taken: int = 0;
    while rest.len() > 0
        invariant
            0 <= taken <= s.len(),
            records(rest@) == s.skip(taken),
            records(out@) == renumbered(s).take(taken),
            out@.len() == taken,
        decreases rest@.len(),
    {
        let ghost rest_before = rest@;
        proof {
            assert(records(rest_before).len() == rest_before.len());
            assert(records(rest_before)[0] == s.skip(taken)[0]);
        }
        let mut x = rest.remove(0);
        proof {
            assert(x == rest_before[0]);
            assert(rest@ == rest_before.remove(0));
            assert forall|k: int| 0 <= k < rest@.len() implies records(rest@)[k] == s.skip(taken + 1)[k] by {
                assert(rest@[k] == rest_before[k + 1]);
                assert(records(rest_before)[k + 1] == s.skip(taken)[k + 1]);
            }
            assert(records(rest@) =~= s.skip(taken + 1));
        }
        x.order_index = out.len();
        out.push(x);
        proof {
            assert(records(out@) =~= renumbered(s).take(taken + 1));
            taken = taken + 1;
        }
    }
    proof {
        assert(renumbered(s).take(taken) =~= renumbered(s));
    }
    out
}

/// Build the canonical research manifest from the source catalog nodes and
/// check it against the manifest rules and the canonical graph rules.
pub fn build_manifest(source: &Vec<CatalogNodeFacts>) -> (r: Result<ResearchManifest, ResearchManifestError>)
    ensures
        fault_result(r) == manifest_build_fault(node_records(source@)),
        r matches Ok(m) ==> (m.wf() && graph_rules(m@) && (manifest_from_catalog(node_records(source@)) matches Ok(s)
            && m@ == ordered(s))),
{
    let ghost src = node_records(source@);
    let lookup = node_lookup(source);
    let removed = removed_set(source);
    let mut studies = match catalog_part(source, &lookup, &removed) {
        Some(v) => v,
        None => {
            proof {
                crate::id_map::lemma_map_len(lookup@);
                assert(lookup.map().dom() =~= source_ids(src));
            }
            return Err(ResearchManifestError::CycleOrUnreachable { visited: 0, total: lookup.len() });
        },
    };
    append_plan_studies(&mut studies);
    match mark_tracks(&mut studies) {
        Ok(()) => {},
        Err(e) => return Err(e),
    }
    match join_junctions(&mut studies) {
        Ok(()) => {},
        Err(e) => return Err(e),
    }
    let numbered = renumber(studies);
    let manifest = match ResearchManifest::from_studies(numbered) {
        Ok(m) => m,
        Err(e) => return Err(e),
    };
    match manifest.validate_lai58_graph() {
        Ok(_) => {},
        Err(e) => return Err(e),
    }
    Ok(manifest)
}


// ---------------------------------------------------------------------------
// Permits and repeat prices.

/// The buildings whose permit a study named `id` grants.
pub open spec fn permit_targets(s: Seq<StudyRecord>, id: Seq<char>) -> Set<Seq<char>> {
    Set::new(
        |x: Seq<char>|
            exists|i: int, k: int|
                0 <= i < s.len() && (#[trigger] s[i]).id == id && 0 <= k < s[i].effects.len() && #[trigger] s[i].effects[k]
                    == (EffectView::CatalogPayload { handler: ManifestEffectHandler::CatalogUnlockBuilding, target_id: x }),
    )
}

proof fn lemma_study_faults_none(s: Seq<StudyRecord>, n: int)
    requires
        studies_fault(s, n) is None,
    ensures
        forall|i: int| 0 <= i < n ==> #[trigger] study_fault(s, i) is None,
    decreases n,
{
    if n > 0 {
        lemma_study_faults_none(s, n - 1);
    }
}

proof fn lemma_unique_ids(s: Seq<StudyRecord>)
    requires
        manifest_rules(s),
    ensures
        forall|i: int, j: int| 0 <= i < s.len() && 0 <= j < s.len() && i != j ==> (#[trigger] s[i]).id != (#[trigger] s[j]).id,
{
    lemma_study_faults_none(s, s.len() as int);
    assert forall|i: int, j: int| 0 <= i < s.len() && 0 <= j < s.len() && i != j implies (#[trigger] s[i]).id != (
    #[trigger] s[j]).id by {
        if i < j {
            assert(study_fault(s, j) is None);
        } else {
            assert(study_fault(s, i) is None);
        }
    }
}

impl ResearchManifest {
    /// The buildings whose permit study `stable_id` grants. A building study
    /// grants only the permit; placing or upgrading the building is left to
    /// the Leader's physical construction path.
    pub fn building_permit_ids(&self, stable_id: &str) -> (r: IdMap<()>)
        ensures
            r.wf(),
            r.map().dom() == permit_targets(self@, stable_id@),
    {
        let ghost s = self@;
        let mut r: IdMap<()> = IdMap::new();
        let mut i: usize = 0;
        while i < self.studies.len()
            invariant
                s == records(self.studies@),
                i <= self.studies@.len(),
                r.wf(),
                forall|x: Seq<char>| #[trigger] r.map().contains_key(x) <==> exists|a: int, k: int|
                    0 <= a < i && (#[trigger] s[a]).id == stable_id@ && 0 <= k < s[a].effects.len() && #[trigger] s[a].effects[k]
                        == (EffectView::CatalogPayload { handler: ManifestEffectHandler::CatalogUnlockBuilding, target_id: x }),
            decreases self.studies@.len() - i,
        {
            let st = &self.studies[i];
            assert(s[i as int] == record(*st));
            if text_eq(st.stable_id.as_str(), stable_id) {
                let mut k: usize = 0;
                while k < st.effects.len()
                    invariant
                        s == records(self.studies@),
                        i < self.studies@.len(),
                        s[i as int] == record(*st),
                        s[i as int].id == stable_id@,
                        k <= st.effects@.len(),
                        r.wf(),
                        forall|x: Seq<char>| #[trigger] r.map().contains_key(x) <==> (exists|a: int, q: int|
                            0 <= a < i && (#[trigger] s[a]).id == stable_id@ && 0 <= q < s[a].effects.len() && #[trigger] s[a].effects[q]
                                == (EffectView::CatalogPayload { handler: ManifestEffectHandler::CatalogUnlockBuilding, target_id: x }))
                            || (exists|q: int| 0 <= q < k && s[i as int].effects[q] == (EffectView::CatalogPayload {
                                handler: ManifestEffectHandler::CatalogUnlockBuilding,
                                target_id: x,
                            })),
                    decreases st.effects@.len() - k,
                {
                    assert(s[i as int].effects[k as int] == effect_view(st.effects@[k as int]));
                    let ghost before = r.map();
                    match &st.effects[k] {
                        ManifestEffect::CatalogPayload { handler, target_id } => {
                            if *handler == ManifestEffectHandler::CatalogUnlockBuilding {
                                r.insert(text_copy(target_id), ());
                            }
                        },
                        _ => {},
                    }
                    proof {
                        assert forall|x: Seq<char>| #[trigger] r.map().contains_key(x) <==> (exists|a: int, q: int|
                            0 <= a < i && (#[trigger] s[a]).id == stable_id@ && 0 <= q < s[a].effects.len() && #[trigger] s[a].effects[q]
                                == (EffectView::CatalogPayload { handler: ManifestEffectHandler::CatalogUnlockBuilding, target_id: x }))
                            || (exists|q: int| 0 <= q < k + 1 && s[i as int].effects[q] == (EffectView::CatalogPayload {
                                handler: ManifestEffectHandler::CatalogUnlockBuilding,
                                target_id: x,
                            })) by {
                            if s[i as int].effects[k as int] == (EffectView::CatalogPayload {
                                handler: ManifestEffectHandler::CatalogUnlockBuilding,
                                target_id: x,
                            }) {
                                assert(r.map().contains_key(x));
                            } else if r.map().contains_key(x) {
                                assert(before.contains_key(x));
                            }
                        }
                    }
                    k = k + 1;
                }
                proof {
                    assert forall|x: Seq<char>| #[trigger] r.map().contains_key(x) <==> exists|a: int, q: int|
                        0 <= a < i + 1 && (#[trigger] s[a]).id == stable_id@ && 0 <= q < s[a].effects.len() && #[trigger] s[a].effects[q]
                            == (EffectView::CatalogPayload { handler: ManifestEffectHandler::CatalogUnlockBuilding, target_id: x }) by {
                        if exists|q: int| 0 <= q < st.effects@.len() && s[i as int].effects[q] == (EffectView::CatalogPayload {
                            handler: ManifestEffectHandler::CatalogUnlockBuilding,
                            target_id: x,
                        }) {
                            let q = choose|q: int| 0 <= q < st.effects@.len() && s[i as int].effects[q] == (EffectView::CatalogPayload {
                                handler: ManifestEffectHandler::CatalogUnlockBuilding,
                                target_id: x,
                            });
                            assert(s[i as int].effects[q] == (EffectView::CatalogPayload {
                                handler: ManifestEffectHandler::CatalogUnlockBuilding,
                                target_id: x,
                            }));
                        }
                    }
                }
            }
            i = i + 1;
        }
        proof {
            assert(r.map().dom() =~= permit_targets(s, stable_id@));
        }
        r
    }

    /// The price of the next completion of a repeatable terminal study, after
    /// `prior_terminal_completions` earlier ones: its cost doubled that many
    /// times. Any other study, or a price beyond the largest value, is
    /// refused.
    pub fn repeat_cost_units(&self, stable_id: &str, prior_terminal_completions: u32) -> (r: Result<u64, ResearchManifestError>)
        requires
            self.wf(),
        ensures
            !lists_study(self@, stable_id@) ==> r is Err,
            forall|i: int|
                0 <= i < self@.len() && (#[trigger] self@[i]).id == stable_id@ ==> {
                    &&& r is Ok <==> (self@[i].repeatable_terminal && prior_terminal_completions < 64 && self@[i].cost_units
                        * vstd::arithmetic::power2::pow2(prior_terminal_completions as nat) <= u64::MAX)
                    &&& r matches Ok(c) ==> c == self@[i].cost_units * vstd::arithmetic::power2::pow2(prior_terminal_completions as nat)
                },
            r matches Err(e) ==> fault_of(e) == ManifestFault::MalformedRepeatable(stable_id@),
    {
        proof {
            lemma_unique_ids(self@);
        }
        let study = match self.get(stable_id) {
            Some(st) => st,
            None => return Err(ResearchManifestError::MalformedRepeatable(String::from_str(stable_id))),
        };
        if !study.repeatable_terminal || prior_terminal_completions >= 64 {
            return Err(ResearchManifestError::MalformedRepeatable(String::from_str(stable_id)));
        }
        let mut multiplier: u64 = 1;
        let mut k: u32 = 0;
        proof {
            vstd::arithmetic::power2::lemma2_to64();
            vstd::arithmetic::power2::lemma2_to64_rest();
        }
        while k < prior_terminal_completions
            invariant
                prior_terminal_completions < 64,
                k <= prior_terminal_completions,
                multiplier == vstd::arithmetic::power2::pow2(k as nat),
                vstd::arithmetic::power2::pow2(63) == 0x8000_0000_0000_0000,
            decreases prior_terminal_completions - k,
        {
            proof {
                vstd::arithmetic::power2::lemma_pow2_unfold((k + 1) as nat);
                if k + 1 < 63 {
                    vstd::arithmetic::power2::lemma_pow2_strictly_increases((k + 1) as nat, 63);
                }
            }
            multiplier = multiplier * 2;
            k = k + 1;
        }
        match study.cost_units.checked_mul(multiplier) {
            Some(c) => Ok(c),
            None => Err(ResearchManifestError::MalformedRepeatable(String::from_str(stable_id))),
        }
    }
}

} // verus!
