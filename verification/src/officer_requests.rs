//! Persistent typed officer requests: an officer proposes work in another
//! domain; the domain's authority accepts, rejects or supersedes it; requests
//! expire, merge with live duplicates and depend on each other without cycles.

use vstd::prelude::*;
use crate::authority::{AuthorityActor, AuthorityDecision, AuthorityDenial, AuthorityDomain};
use crate::content_ids::ContentId;
use crate::id_map::{IdMap, entries_map, entries_view, keys_sorted, lemma_lookup_at, lemma_entries_update_at};
use crate::officer_expertise::ExpertiseLevel;
use crate::officers::OfficerRole;
use crate::planner_core::{BasisPoints, PlannerId, planner_id_text};
use crate::text::{decimal, push_decimal, text_eq, text_lt};

verus! {

pub const OFFICER_REQUEST_SCHEMA_VERSION: u32 = 1;
pub const OFFICER_REQUEST_BOOK_SCHEMA_VERSION: u32 = 1;
pub const REQUEST_URGENCY_PER_FULL_GAME_HOUR: i64 = 100;
pub const MAX_REQUEST_URGENCY_AGE_BASIS_POINTS: i64 = 2_500;
pub const LIVE_OFFICER_REQUEST_CAPACITY: usize = 128;
pub const TERMINAL_OFFICER_REQUEST_CAPACITY: usize = 256;

#[derive(Debug, Clone, Copy, PartialEq, Eq, PartialOrd, Ord, Hash, Structural)]
pub enum RequestKind {
    Survival,
    ActiveDefense,
    Operational,
    Research,
    Building,
    Diplomacy,
    Trade,
}

#[derive(Debug, Clone, Copy, PartialEq, Eq, Structural)]
pub enum RequestLifetime {
    Survival,
    Standard,
    Strategic,
}

pub open spec fn kind_lifetime(kind: RequestKind) -> RequestLifetime {
    match kind {
        RequestKind::Survival | RequestKind::ActiveDefense => RequestLifetime::Survival,
        RequestKind::Research | RequestKind::Building | RequestKind::Diplomacy | RequestKind::Trade =>
            RequestLifetime::Strategic,
        RequestKind::Operational => RequestLifetime::Standard,
    }
}

pub open spec fn lifetime_hours(lifetime: RequestLifetime) -> u64 {
    match lifetime {
        RequestLifetime::Survival => 6,
        RequestLifetime::Standard => 48,
        RequestLifetime::Strategic => 168,
    }
}

impl RequestKind {
    pub fn lifetime(self) -> (r: RequestLifetime)
        ensures
            r == kind_lifetime(self),
    {
        match self {
            RequestKind::Survival | RequestKind::ActiveDefense => RequestLifetime::Survival,
            RequestKind::Research | RequestKind::Building | RequestKind::Diplomacy | RequestKind::Trade =>
                RequestLifetime::Strategic,
            RequestKind::Operational => RequestLifetime::Standard,
        }
    }
}

impl RequestLifetime {
    pub fn game_hours(self) -> (r: u64)
        ensures
            r == lifetime_hours(self),
    {
        match self {
            RequestLifetime::Survival => 6,
            RequestLifetime::Standard => 48,
            RequestLifetime::Strategic => 7 * 24,
        }
    }
}

pub open spec fn kind_id(kind: RequestKind) -> Seq<char> {
    match kind {
        RequestKind::Survival => "survival"@,
        RequestKind::ActiveDefense => "active_defense"@,
        RequestKind::Operational => "operational"@,
        RequestKind::Research => "research"@,
        RequestKind::Building => "building"@,
        RequestKind::Diplomacy => "diplomacy"@,
        RequestKind::Trade => "trade"@,
    }
}

fn request_kind_id(kind: RequestKind) -> (r: &'static str)
    ensures
        r@ == kind_id(kind),
{
    match kind {
        RequestKind::Survival => "survival",
        RequestKind::ActiveDefense => "active_defense",
        RequestKind::Operational => "operational",
        RequestKind::Research => "research",
        RequestKind::Building => "building",
        RequestKind::Diplomacy => "diplomacy",
        RequestKind::Trade => "trade",
    }
}

pub open spec fn request_id_text(
    colony_id: Seq<char>,
    officer_id: Seq<char>,
    kind: RequestKind,
    target_id: Seq<char>,
    occurrence: u32,
) -> Seq<char> {
    planner_id_text(
        "officer_request"@,
        seq![colony_id, officer_id, kind_id(kind), target_id, decimal(occurrence as nat)],
    )
}

#[derive(Debug, Clone, PartialEq, Eq, PartialOrd, Ord, Hash)]
pub struct OfficerRequestId(PlannerId);

impl OfficerRequestId {
    pub closed spec fn view(&self) -> Seq<char> {
        self.0@
    }

    pub fn derive(
        colony_id: &PlannerId,
        officer_id: &PlannerId,
        kind: RequestKind,
        target_id: &PlannerId,
        occurrence: u32,
    ) -> (r: Self)
        ensures
            r@ == request_id_text(colony_id@, officer_id@, kind, target_id@, occurrence),
    {
        let mut occurrence_text = String::new();
        push_decimal(&mut occurrence_text, occurrence as u64);
        assert(occurrence_text@ =~= decimal(occurrence as nat));
        let parts: [&str; 5] = [
            colony_id.as_str(),
            officer_id.as_str(),
            request_kind_id(kind),
            target_id.as_str(),
            occurrence_text.as_str(),
        ];
        let r = OfficerRequestId(PlannerId::derive("officer_request", &parts));
        assert(crate::planner_core::texts_view(parts@) =~= seq![
            colony_id@,
            officer_id@,
            kind_id(kind),
            target_id@,
            decimal(occurrence as nat),
        ]);
        r
    }

    pub fn as_str(&self) -> (r: &str)
        ensures
            r@ == self@,
    {
        self.0.as_str()
    }

    pub fn duplicate(&self) -> (r: Self)
        ensures
            r == *self,
    {
        OfficerRequestId(self.0.duplicate())
    }
}

#[derive(Debug, Clone, Copy, PartialEq, Eq, Structural)]
pub enum OfficerRequestState {
    Proposed,
    Accepted,
    Rejected,
    Fulfilled,
    Superseded,
    Expired,
}

pub open spec fn state_terminal(s: OfficerRequestState) -> bool {
    s is Rejected || s is Fulfilled || s is Superseded || s is Expired
}

pub open spec fn state_transition_allowed(from: OfficerRequestState, to: OfficerRequestState) -> bool {
    ||| from == to
    ||| from is Proposed && (to is Accepted || to is Rejected || to is Superseded || to is Expired)
    ||| from is Accepted && (to is Fulfilled || to is Superseded)
}

impl OfficerRequestState {
    pub fn is_terminal(self) -> (r: bool)
        ensures
            r == state_terminal(self),
    {
        match self {
            OfficerRequestState::Rejected | OfficerRequestState::Fulfilled | OfficerRequestState::Superseded
            | OfficerRequestState::Expired => true,
            _ => false,
        }
    }

    pub fn can_transition_to(self, next: Self) -> (r: bool)
        ensures
            r == state_transition_allowed(self, next),
    {
        let main = match (self, next) {
            (OfficerRequestState::Proposed, OfficerRequestState::Accepted)
            | (OfficerRequestState::Proposed, OfficerRequestState::Rejected)
            | (OfficerRequestState::Proposed, OfficerRequestState::Superseded)
            | (OfficerRequestState::Proposed, OfficerRequestState::Expired)
            | (OfficerRequestState::Accepted, OfficerRequestState::Fulfilled)
            | (OfficerRequestState::Accepted, OfficerRequestState::Superseded) => true,
            _ => false,
        };
        main || self == next
    }
}

/// A terminal request never returns to a live state.
pub proof fn law_terminal_requests_stay_terminal(from: OfficerRequestState, to: OfficerRequestState)
    requires
        state_terminal(from),
        state_transition_allowed(from, to),
    ensures
        to == from,
{
}

#[derive(Debug, Clone, Copy, PartialEq, Eq, Structural)]
pub struct RequestBudget {
    pub resource_limit: i64,
    pub labor_tick_limit: u64,
}

pub open spec fn budget_covers(b: RequestBudget, resource_cost: i64, labor_ticks: u64) -> bool {
    0 <= resource_cost <= b.resource_limit && labor_ticks <= b.labor_tick_limit
}

impl RequestBudget {
    pub fn covers(self, resource_cost: i64, labor_ticks: u64) -> (r: bool)
        ensures
            r == budget_covers(self, resource_cost, labor_ticks),
    {
        resource_cost >= 0 && resource_cost <= self.resource_limit && labor_ticks <= self.labor_tick_limit
    }
}

/// The resource and labor limits of a structured request, by the proposing
/// officer's expertise level.
pub open spec fn level_budget(level: ExpertiseLevel) -> RequestBudget {
    match level {
        ExpertiseLevel::One => RequestBudget { resource_limit: 25, labor_tick_limit: 60 },
        ExpertiseLevel::Two => RequestBudget { resource_limit: 50, labor_tick_limit: 180 },
        ExpertiseLevel::Three => RequestBudget { resource_limit: 100, labor_tick_limit: 360 },
        ExpertiseLevel::Four => RequestBudget { resource_limit: 200, labor_tick_limit: 720 },
        ExpertiseLevel::Five => RequestBudget { resource_limit: 400, labor_tick_limit: 1_440 },
    }
}

/// The structured-request budget an officer of a level may propose within.
pub fn structured_request_budget(level: ExpertiseLevel) -> (r: RequestBudget)
    ensures
        r == level_budget(level),
{
    match level {
        ExpertiseLevel::One => RequestBudget { resource_limit: 25, labor_tick_limit: 60 },
        ExpertiseLevel::Two => RequestBudget { resource_limit: 50, labor_tick_limit: 180 },
        ExpertiseLevel::Three => RequestBudget { resource_limit: 100, labor_tick_limit: 360 },
        ExpertiseLevel::Four => RequestBudget { resource_limit: 200, labor_tick_limit: 720 },
        ExpertiseLevel::Five => RequestBudget { resource_limit: 400, labor_tick_limit: 1_440 },
    }
}

/// How confident the proposer is, in basis points.
#[derive(Debug, Clone, Copy, PartialEq, Eq, PartialOrd, Ord, Hash, Structural)]
pub struct Confidence(pub u16);

#[derive(Debug, Clone, PartialEq, Eq)]
pub struct OfficerRequestDraft {
    pub source_domain: AuthorityDomain,
    pub target_domain: AuthorityDomain,
    pub kind: RequestKind,
    pub target_id: PlannerId,
    pub quantity: u64,
    pub base_urgency: BasisPoints,
    pub rationale_id: PlannerId,
    pub evidence_ids: IdMap<()>,
    pub report_ids: IdMap<()>,
    pub confidence: Confidence,
    pub estimated_resource_cost: i64,
    pub estimated_labor_ticks: u64,
}

#[derive(Debug, Clone, Copy, PartialEq, Eq, PartialOrd, Ord, Structural)]
pub enum RequestedSpaceKind {
    HoleWorkArea,
    HuntingLair,
    AppleTree,
    FishShore,
    FarmPlot,
    Cookhouse,
    Workshop,
    Stockpile,
}

/// Cross-domain meaning that survives beyond a free-form target ID.
#[derive(Debug, Clone, PartialEq, Eq)]
pub enum OfficerRequestPayload {
    Target,
    Dependency { dependency_target_id: PlannerId },
    Space { kind: RequestedSpaceKind, required_cells: u16 },
    Workshop { station_id: PlannerId, operation_id: PlannerId },
    KeepStock { content_id: ContentId, minimum_units: u32, target_units: u32 },
}

pub open spec fn payload_valid(p: OfficerRequestPayload) -> bool {
    match p {
        OfficerRequestPayload::Space { required_cells, .. } => required_cells > 0,
        OfficerRequestPayload::KeepStock { minimum_units, target_units, .. } => minimum_units > 0
            && target_units >= minimum_units,
        _ => true,
    }
}

/// A payload with identifiers read as text.
pub enum PayloadView {
    Target,
    Dependency { dependency_target_id: Seq<char> },
    Space { kind: RequestedSpaceKind, required_cells: u16 },
    Workshop { station_id: Seq<char>, operation_id: Seq<char> },
    KeepStock { content_id: Seq<char>, minimum_units: u32, target_units: u32 },
}

pub open spec fn payload_view(p: OfficerRequestPayload) -> PayloadView {
    match p {
        OfficerRequestPayload::Target => PayloadView::Target,
        OfficerRequestPayload::Dependency { dependency_target_id } => PayloadView::Dependency {
            dependency_target_id: dependency_target_id@,
        },
        OfficerRequestPayload::Space { kind, required_cells } => PayloadView::Space { kind, required_cells },
        OfficerRequestPayload::Workshop { station_id, operation_id } => PayloadView::Workshop {
            station_id: station_id@,
            operation_id: operation_id@,
        },
        OfficerRequestPayload::KeepStock { content_id, minimum_units, target_units } => PayloadView::KeepStock {
            content_id: content_id@,
            minimum_units,
            target_units,
        },
    }
}

/// Two payloads carry the same meaning.
pub open spec fn payload_same(a: OfficerRequestPayload, b: OfficerRequestPayload) -> bool {
    payload_view(a) == payload_view(b)
}

impl OfficerRequestPayload {
    fn validate(&self) -> (r: bool)
        ensures
            r == payload_valid(*self),
    {
        match self {
            OfficerRequestPayload::Space { required_cells, .. } => *required_cells > 0,
            OfficerRequestPayload::KeepStock { minimum_units, target_units, .. } => *minimum_units > 0
                && *target_units >= *minimum_units,
            _ => true,
        }
    }

    fn same(&self, other: &Self) -> (r: bool)
        ensures
            r == payload_same(*self, *other),
    {
        match (self, other) {
            (OfficerRequestPayload::Target, OfficerRequestPayload::Target) => true,
            (
                OfficerRequestPayload::Dependency { dependency_target_id: x },
                OfficerRequestPayload::Dependency { dependency_target_id: y },
            ) => text_eq(x.as_str(), y.as_str()),
            (
                OfficerRequestPayload::Space { kind: k1, required_cells: c1 },
                OfficerRequestPayload::Space { kind: k2, required_cells: c2 },
            ) => *k1 == *k2 && *c1 == *c2,
            (
                OfficerRequestPayload::Workshop { station_id: s1, operation_id: o1 },
                OfficerRequestPayload::Workshop { station_id: s2, operation_id: o2 },
            ) => text_eq(s1.as_str(), s2.as_str()) && text_eq(o1.as_str(), o2.as_str()),
            (
                OfficerRequestPayload::KeepStock { content_id: c1, minimum_units: m1, target_units: t1 },
                OfficerRequestPayload::KeepStock { content_id: c2, minimum_units: m2, target_units: t2 },
            ) => text_eq(c1.as_str(), c2.as_str()) && *m1 == *m2 && *t1 == *t2,
            _ => false,
        }
    }
}

#[derive(Debug, Clone, PartialEq, Eq)]
pub struct TypedOfficerRequestDraft {
    pub request: OfficerRequestDraft,
    pub payload: OfficerRequestPayload,
}

#[derive(Debug, Clone, PartialEq, Eq)]
pub struct OfficerRequest {
    pub schema_version: u32,
    pub id: OfficerRequestId,
    pub colony_id: PlannerId,
    pub officer_id: PlannerId,
    pub officer_role: OfficerRole,
    pub adopted_by_officer_id: Option<PlannerId>,
    pub source_domain: AuthorityDomain,
    pub target_domain: AuthorityDomain,
    pub kind: RequestKind,
    pub payload: OfficerRequestPayload,
    pub target_id: PlannerId,
    pub quantity: u64,
    pub base_urgency: BasisPoints,
    pub rationale_id: PlannerId,
    pub evidence_ids: IdMap<()>,
    pub report_ids: IdMap<()>,
    pub confidence: Confidence,
    pub estimated_resource_cost: i64,
    pub estimated_labor_ticks: u64,
    pub resource_reservation_ids: IdMap<()>,
    pub labor_reservation_ids: IdMap<()>,
    pub dependencies: IdMap<()>,
    pub creation_tick: u64,
    pub expiry_tick: u64,
    pub state: OfficerRequestState,
    pub terminal_tick: Option<u64>,
}

/// A request with identifiers read as text and identifier sets as sets.
pub struct RequestView {
    pub schema_version: u32,
    pub id: Seq<char>,
    pub colony_id: Seq<char>,
    pub officer_id: Seq<char>,
    pub officer_role: OfficerRole,
    pub adopted_by_officer_id: Option<Seq<char>>,
    pub source_domain: AuthorityDomain,
    pub target_domain: AuthorityDomain,
    pub kind: RequestKind,
    pub payload: PayloadView,
    pub target_id: Seq<char>,
    pub quantity: u64,
    pub base_urgency: i64,
    pub rationale_id: Seq<char>,
    pub evidence_ids: Set<Seq<char>>,
    pub report_ids: Set<Seq<char>>,
    pub confidence: u16,
    pub estimated_resource_cost: i64,
    pub estimated_labor_ticks: u64,
    pub resource_reservation_ids: Set<Seq<char>>,
    pub labor_reservation_ids: Set<Seq<char>>,
    pub dependencies: Set<Seq<char>>,
    pub creation_tick: u64,
    pub expiry_tick: u64,
    pub state: OfficerRequestState,
    pub terminal_tick: Option<u64>,
}

pub open spec fn opt_text_view(o: Option<PlannerId>) -> Option<Seq<char>> {
    match o {
        Some(id) => Some(id@),
        None => None,
    }
}

pub open spec fn request_view(r: OfficerRequest) -> RequestView {
    RequestView {
        schema_version: r.schema_version,
        id: r.id@,
        colony_id: r.colony_id@,
        officer_id: r.officer_id@,
        officer_role: r.officer_role,
        adopted_by_officer_id: opt_text_view(r.adopted_by_officer_id),
        source_domain: r.source_domain,
        target_domain: r.target_domain,
        kind: r.kind,
        payload: payload_view(r.payload),
        target_id: r.target_id@,
        quantity: r.quantity,
        base_urgency: r.base_urgency.0,
        rationale_id: r.rationale_id@,
        evidence_ids: r.evidence_ids.map().dom(),
        report_ids: r.report_ids.map().dom(),
        confidence: r.confidence.0,
        estimated_resource_cost: r.estimated_resource_cost,
        estimated_labor_ticks: r.estimated_labor_ticks,
        resource_reservation_ids: r.resource_reservation_ids.map().dom(),
        labor_reservation_ids: r.labor_reservation_ids.map().dom(),
        dependencies: r.dependencies.map().dom(),
        creation_tick: r.creation_tick,
        expiry_tick: r.expiry_tick,
        state: r.state,
        terminal_tick: r.terminal_tick,
    }
}

/// Every identifier set of a request is well formed.
pub open spec fn request_sets_wf(r: OfficerRequest) -> bool {
    &&& r.evidence_ids.wf()
    &&& r.report_ids.wf()
    &&& r.resource_reservation_ids.wf()
    &&& r.labor_reservation_ids.wf()
    &&& r.dependencies.wf()
}

/// Two requests ask for the same thing: same colony, office, domains, kind,
/// target, quantity and payload.
pub open spec fn same_semantic_key(a: RequestView, b: RequestView) -> bool {
    &&& a.colony_id == b.colony_id
    &&& a.officer_role == b.officer_role
    &&& a.source_domain == b.source_domain
    &&& a.target_domain == b.target_domain
    &&& a.kind == b.kind
    &&& a.target_id == b.target_id
    &&& a.quantity == b.quantity
    &&& a.payload == b.payload
}

/// A stored request is consistent in itself.
pub open spec fn request_consistent(r: RequestView) -> bool {
    &&& r.schema_version == OFFICER_REQUEST_SCHEMA_VERSION
    &&& r.quantity != 0
    &&& match r.payload {
        PayloadView::Space { required_cells, .. } => required_cells > 0,
        PayloadView::KeepStock { minimum_units, target_units, .. } => minimum_units > 0 && target_units >= minimum_units,
        _ => true,
    }
    &&& r.expiry_tick > r.creation_tick
    &&& r.estimated_resource_cost >= 0
    &&& !r.dependencies.contains(r.id)
    &&& state_terminal(r.state) == (r.terminal_tick is Some)
    &&& (state_terminal(r.state) ==> r.resource_reservation_ids.is_empty() && r.labor_reservation_ids.is_empty())
}

/// The expiry tick of a request proposed at `creation_tick`, if it fits.
pub open spec fn expiry_of(kind: RequestKind, creation_tick: u64, ticks_per_game_hour: u64) -> int {
    creation_tick + lifetime_hours(kind_lifetime(kind)) * ticks_per_game_hour
}

pub open spec fn proposed_error(
    kind: RequestKind,
    quantity: u64,
    owns_source: bool,
    creation_tick: u64,
    ticks_per_game_hour: u64,
) -> Option<OfficerRequestError> {
    if quantity == 0 || ticks_per_game_hour == 0 || !owns_source {
        Some(OfficerRequestError::MalformedPersistence)
    } else if expiry_of(kind, creation_tick, ticks_per_game_hour) > u64::MAX {
        Some(OfficerRequestError::TickOverflow)
    } else {
        None
    }
}

/// Urgency after aging: one hundred points per full game hour since
/// creation, at most two thousand five hundred, while proposed.
pub open spec fn aged_urgency(r: RequestView, now_tick: u64, ticks_per_game_hour: u64) -> int {
    if r.state != OfficerRequestState::Proposed || ticks_per_game_hour == 0 {
        r.base_urgency as int
    } else {
        let elapsed = if now_tick > r.creation_tick { now_tick - r.creation_tick } else { 0 };
        let hours = elapsed / (ticks_per_game_hour as int);
        let age = if hours * 100 > 2500 { 2500 } else { hours * 100 };
        let total = r.base_urgency + age;
        if total > i64::MAX { i64::MAX as int } else { total }
    }
}

fn empty_set() -> (r: IdMap<()>)
    ensures
        r.wf(),
        r.map().dom().is_empty(),
        r@.len() == 0,
{
    let r = IdMap::new();
    assert(r.map().dom() =~= Set::empty());
    r
}

impl OfficerRequest {
    /// A new proposed request expiring after its kind's lifetime.
    /// `officer_owns_source_domain` reports whether `officer_role` owns
    /// `source_domain`.
    pub fn proposed(
        id: OfficerRequestId,
        colony_id: PlannerId,
        officer_id: PlannerId,
        officer_role: OfficerRole,
        officer_owns_source_domain: bool,
        source_domain: AuthorityDomain,
        target_domain: AuthorityDomain,
        kind: RequestKind,
        target_id: PlannerId,
        quantity: u64,
        rationale_id: PlannerId,
        creation_tick: u64,
        ticks_per_game_hour: u64,
    ) -> (r: Result<Self, OfficerRequestError>)
        ensures
            proposed_error(kind, quantity, officer_owns_source_domain, creation_tick, ticks_per_game_hour) matches Some(e)
                ==> r == Err::<OfficerRequest, OfficerRequestError>(e),
            proposed_error(kind, quantity, officer_owns_source_domain, creation_tick, ticks_per_game_hour) is None ==> (r matches Ok(
                req,
            ) && request_sets_wf(req) && request_consistent(request_view(req)) && request_view(req) == (RequestView {
                schema_version: OFFICER_REQUEST_SCHEMA_VERSION,
                id: id@,
                colony_id: colony_id@,
                officer_id: officer_id@,
                officer_role,
                adopted_by_officer_id: None,
                source_domain,
                target_domain,
                kind,
                payload: PayloadView::Target,
                target_id: target_id@,
                quantity,
                base_urgency: 0,
                rationale_id: rationale_id@,
                evidence_ids: Set::empty(),
                report_ids: Set::empty(),
                confidence: 0,
                estimated_resource_cost: 0,
                estimated_labor_ticks: 0,
                resource_reservation_ids: Set::empty(),
                labor_reservation_ids: Set::empty(),
                dependencies: Set::empty(),
                creation_tick,
                expiry_tick: expiry_of(kind, creation_tick, ticks_per_game_hour) as u64,
                state: OfficerRequestState::Proposed,
                terminal_tick: None,
            })),
    {
        if quantity == 0 || ticks_per_game_hour == 0 || !officer_owns_source_domain {
            return Err(OfficerRequestError::MalformedPersistence);
        }
        let duration = match kind.lifetime().game_hours().checked_mul(ticks_per_game_hour) {
            Some(d) => d,
            None => return Err(OfficerRequestError::TickOverflow),
        };
        let expiry_tick = match creation_tick.checked_add(duration) {
            Some(t) => t,
            None => return Err(OfficerRequestError::TickOverflow),
        };
        Ok(OfficerRequest {
            schema_version: OFFICER_REQUEST_SCHEMA_VERSION,
            id,
            colony_id,
            officer_id,
            officer_role,
            adopted_by_officer_id: None,
            source_domain,
            target_domain,
            kind,
            payload: OfficerRequestPayload::Target,
            target_id,
            quantity,
            base_urgency: BasisPoints(0),
            rationale_id,
            evidence_ids: empty_set(),
            report_ids: empty_set(),
            confidence: Confidence(0),
            estimated_resource_cost: 0,
            estimated_labor_ticks: 0,
            resource_reservation_ids: empty_set(),
            labor_reservation_ids: empty_set(),
            dependencies: empty_set(),
            creation_tick,
            expiry_tick,
            state: OfficerRequestState::Proposed,
            terminal_tick: None,
        })
    }

    pub fn effective_urgency(&self, now_tick: u64, ticks_per_game_hour: u64) -> (r: BasisPoints)
        ensures
            r.0 == aged_urgency(request_view(*self), now_tick, ticks_per_game_hour),
    {
        if self.state != OfficerRequestState::Proposed || ticks_per_game_hour == 0 {
            return self.base_urgency;
        }
        let elapsed = if now_tick > self.creation_tick { now_tick - self.creation_tick } else { 0 };
        let full_hours = elapsed / ticks_per_game_hour;
        let age: u64 = if full_hours > 25 { 2500 } else { full_hours * 100 };
        assert(full_hours * 100 > 2500 <==> full_hours > 25);
        let base = self.base_urgency.get();
        let total = if base > i64::MAX - (age as i64) { i64::MAX } else { base + age as i64 };
        BasisPoints::new(total)
    }
}

#[derive(Debug, Clone, PartialEq, Eq)]
pub enum RequestInsert {
    Inserted(OfficerRequestId),
    Merged(OfficerRequestId),
    DuplicateId(OfficerRequestId),
}

#[derive(Debug, Clone, PartialEq, Eq)]
pub enum OfficerRequestError {
    MissingRequest,
    DependencyCycle,
    DuplicateSemanticRequest,
    InvalidTransition,
    BudgetExceeded,
    ActorMismatch,
    TickOverflow,
    OccurrenceOverflow,
    MalformedPersistence,
    LiveCapacityReached,
    AuthorityDenied(AuthorityDenial),
}


/// Entries read as (identifier text, request view) pairs.
pub open spec fn entry_views(s: Seq<(Seq<char>, OfficerRequest)>) -> Seq<(Seq<char>, RequestView)> {
    s.map_values(|e: (Seq<char>, OfficerRequest)| (e.0, request_view(e.1)))
}

/// The number of terminal requests.
pub open spec fn terminal_count(e: Seq<(Seq<char>, RequestView)>) -> nat
    decreases e.len(),
{
    if e.len() == 0 {
        0
    } else {
        terminal_count(e.drop_last()) + if state_terminal(e.last().1.state) { 1nat } else { 0nat }
    }
}

/// The number of live (non-terminal) requests.
pub open spec fn live_count(e: Seq<(Seq<char>, RequestView)>) -> nat
    decreases e.len(),
{
    if e.len() == 0 {
        0
    } else {
        live_count(e.drop_last()) + if state_terminal(e.last().1.state) { 0nat } else { 1nat }
    }
}

/// The number of requests of one officer, kind and target in a colony.
pub open spec fn occurrence_count(
    e: Seq<(Seq<char>, RequestView)>,
    colony_id: Seq<char>,
    officer_id: Seq<char>,
    kind: RequestKind,
    target_id: Seq<char>,
) -> nat
    decreases e.len(),
{
    if e.len() == 0 {
        0
    } else {
        let r = e.last().1;
        occurrence_count(e.drop_last(), colony_id, officer_id, kind, target_id) + if r.colony_id == colony_id
            && r.officer_id == officer_id && r.kind == kind && r.target_id == target_id {
            1nat
        } else {
            0nat
        }
    }
}

/// Position `i` holds the terminal request completed first: the smallest
/// terminal tick, ties going to the smaller identifier.
pub open spec fn is_oldest_terminal(e: Seq<(Seq<char>, RequestView)>, i: int) -> bool {
    &&& 0 <= i < e.len()
    &&& e[i].1.terminal_tick is Some
    &&& forall|j: int| 0 <= j < e.len() && (#[trigger] e[j]).1.terminal_tick is Some ==> e[i].1.terminal_tick->0
        < e[j].1.terminal_tick->0 || (e[i].1.terminal_tick->0 == e[j].1.terminal_tick->0 && i <= j)
}

pub open spec fn oldest_terminal(e: Seq<(Seq<char>, RequestView)>) -> Option<int> {
    if exists|i: int| is_oldest_terminal(e, i) {
        Some(choose|i: int| is_oldest_terminal(e, i))
    } else {
        None
    }
}

/// Every request with `k` removed from its dependencies.
pub open spec fn strip_dependency(e: Seq<(Seq<char>, RequestView)>, k: Seq<char>) -> Seq<(Seq<char>, RequestView)> {
    e.map_values(|x: (Seq<char>, RequestView)| (x.0, RequestView { dependencies: x.1.dependencies.remove(k), ..x.1 }))
}

/// Terminal history beyond its capacity is evicted oldest first, and
/// evicted requests leave every dependency set.
pub open spec fn evicted(e: Seq<(Seq<char>, RequestView)>) -> Seq<(Seq<char>, RequestView)>
    decreases e.len(),
{
    if terminal_count(e) > TERMINAL_OFFICER_REQUEST_CAPACITY && oldest_terminal(e) is Some {
        let i = oldest_terminal(e)->0;
        if 0 <= i < e.len() {
            evicted(strip_dependency(e.remove(i), e[i].0))
        } else {
            e
        }
    } else {
        e
    }
}

proof fn lemma_oldest_unique(e: Seq<(Seq<char>, RequestView)>, i: int)
    requires
        is_oldest_terminal(e, i),
    ensures
        oldest_terminal(e) == Some(i),
{
    let c = choose|c: int| is_oldest_terminal(e, c);
    assert(is_oldest_terminal(e, c));
    assert(e[c].1.terminal_tick is Some);
    assert(e[i].1.terminal_tick is Some);
}

/// The persistent book of officer requests, keyed by request identifier.
pub struct OfficerRequestBook {
    pub schema_version: u32,
    pub version: u64,
    requests: IdMap<OfficerRequest>,
}

impl OfficerRequestBook {
    pub closed spec fn book_version(&self) -> u64 {
        self.version
    }

    pub closed spec fn book_schema(&self) -> u32 {
        self.schema_version
    }

    /// The requests in identifier order.
    pub closed spec fn entries(&self) -> Seq<(Seq<char>, RequestView)> {
        entry_views(self.requests@)
    }

    /// The requests by identifier.
    pub open spec fn request_map(&self) -> Map<Seq<char>, RequestView> {
        entries_map(self.entries())
    }

    pub closed spec fn wf(&self) -> bool {
        &&& self.requests.wf()
        &&& forall|i: int| 0 <= i < self.requests@.len() ==> {
            let e = #[trigger] self.requests@[i];
            &&& e.1.id@ == e.0
            &&& request_sets_wf(e.1)
            &&& request_consistent(request_view(e.1))
        }
    }

    pub fn new() -> (r: Self)
        ensures
            r.wf(),
            r.book_schema() == OFFICER_REQUEST_BOOK_SCHEMA_VERSION,
            r.book_version() == 0,
            r.entries().len() == 0,
    {
        let r = OfficerRequestBook { schema_version: OFFICER_REQUEST_BOOK_SCHEMA_VERSION, version: 0, requests: IdMap::new() };
        assert(r.entries() =~= Seq::<(Seq<char>, RequestView)>::empty());
        r
    }

    proof fn lemma_entries_sorted(&self)
        requires
            self.wf(),
        ensures
            keys_sorted(self.entries()),
            forall|i: int| 0 <= i < self.entries().len() ==> (#[trigger] self.entries()[i]).1.id == self.entries()[i].0
                && request_consistent(self.entries()[i].1),
    {
        assert forall|i: int, j: int| 0 <= i < j < self.entries().len() implies crate::text::text_lt(
            #[trigger] self.entries()[i].0,
            #[trigger] self.entries()[j].0,
        ) by {
            assert(self.entries()[i].0 == self.requests@[i].0);
            assert(self.entries()[j].0 == self.requests@[j].0);
        }
        assert forall|i: int| 0 <= i < self.entries().len() implies (#[trigger] self.entries()[i]).1.id == self.entries()[i].0
            && request_consistent(self.entries()[i].1) by {
            let e = self.requests@[i];
            assert(self.entries()[i] == (e.0, request_view(e.1)));
        }
    }

    pub fn get(&self, id: &OfficerRequestId) -> (r: Option<&OfficerRequest>)
        requires
            self.wf(),
        ensures
            r is Some == self.request_map().contains_key(id@),
            r matches Some(req) ==> request_view(*req) == self.request_map()[id@],
    {
        proof {
            self.lemma_entries_sorted();
        }
        match self.requests.find(id.as_str()) {
            Ok(i) => {
                proof {
                    lemma_lookup_at(self.entries(), i as int);
                }
                Some(self.requests.value_at(i))
            },
            Err(_) => {
                proof {
                    if crate::id_map::has_key(self.entries(), id@) {
                        let j = choose|j: int| 0 <= j < self.entries().len() && #[trigger] self.entries()[j].0 == id@;
                        assert(self.requests@[j].0 == id@);
                    }
                }
                None
            },
        }
    }

    /// Every request with its identifier, in identifier order.
    pub fn iter(&self) -> (r: Vec<(&OfficerRequestId, &OfficerRequest)>)
        requires
            self.wf(),
        ensures
            r@.len() == self.entries().len(),
            forall|i: int| 0 <= i < r@.len() ==> (#[trigger] r@[i]).0@ == self.entries()[i].0 && request_view(*r@[i].1)
                == self.entries()[i].1,
    {
        let n = self.requests.len();
        let mut out: Vec<(&OfficerRequestId, &OfficerRequest)> = Vec::new();
        let mut i: usize = 0;
        while i < n
            invariant
                n == self.requests@.len(),
                i <= n,
                self.wf(),
                out@.len() == i,
                forall|j: int| 0 <= j < i ==> (#[trigger] out@[j]).0@ == self.entries()[j].0 && request_view(*out@[j].1)
                    == self.entries()[j].1,
            decreases n - i,
        {
            let r = self.requests.value_at(i);
            assert(self.requests@[i as int].1.id@ == self.requests@[i as int].0);
            out.push((&r.id, r));
            i = i + 1;
        }
        out
    }

    fn count_terminal(&self) -> (r: usize)
        requires
            self.wf(),
        ensures
            r == terminal_count(self.entries()),
    {
        let n = self.requests.len();
        let mut count: usize = 0;
        let mut i: usize = 0;
        while i < n
            invariant
                n == self.requests@.len(),
                i <= n,
                count == terminal_count(self.entries().take(i as int)),
                count <= i,
            decreases n - i,
        {
            assert(self.entries().take(i + 1).drop_last() =~= self.entries().take(i as int));
            if self.requests.value_at(i).state.is_terminal() {
                count = count + 1;
            }
            i = i + 1;
        }
        assert(self.entries().take(n as int) =~= self.entries());
        count
    }

    fn count_live(&self) -> (r: usize)
        requires
            self.wf(),
        ensures
            r == live_count(self.entries()),
    {
        let n = self.requests.len();
        let mut count: usize = 0;
        let mut i: usize = 0;
        while i < n
            invariant
                n == self.requests@.len(),
                i <= n,
                count == live_count(self.entries().take(i as int)),
                count <= i,
            decreases n - i,
        {
            assert(self.entries().take(i + 1).drop_last() =~= self.entries().take(i as int));
            if !self.requests.value_at(i).state.is_terminal() {
                count = count + 1;
            }
            i = i + 1;
        }
        assert(self.entries().take(n as int) =~= self.entries());
        count
    }

    /// Position of the terminal request completed first, if any.
    fn find_oldest_terminal(&self) -> (r: Option<usize>)
        requires
            self.wf(),
        ensures
            r is Some == (oldest_terminal(self.entries()) is Some),
            r matches Some(i) ==> oldest_terminal(self.entries()) == Some(i as int),
    {
        let n = self.requests.len();
        let mut best: Option<usize> = None;
        let mut i: usize = 0;
        let ghost e = self.entries();
        while i < n
            invariant
                n == self.requests@.len(),
                e == self.entries(),
                e.len() == n,
                i <= n,
                best matches Some(b) ==> b < i && e[b as int].1.terminal_tick is Some && forall|j: int| 0 <= j < i
                    && (#[trigger] e[j]).1.terminal_tick is Some ==> e[b as int].1.terminal_tick->0 < e[j].1.terminal_tick->0
                    || (e[b as int].1.terminal_tick->0 == e[j].1.terminal_tick->0 && b <= j),
                best is None ==> forall|j: int| 0 <= j < i ==> (#[trigger] e[j]).1.terminal_tick is None,
            decreases n - i,
        {
            let r = self.requests.value_at(i);
            match r.terminal_tick {
                Some(t) => {
                    best = match best {
                        Some(b) => {
                            let bt = match self.requests.value_at(b).terminal_tick {
                                Some(x) => x,
                                None => 0,
                            };
                            if t < bt { Some(i) } else { Some(b) }
                        },
                        None => Some(i),
                    };
                },
                None => {},
            }
            i = i + 1;
        }
        match best {
            Some(b) => {
                proof {
                    assert(is_oldest_terminal(e, b as int));
                    lemma_oldest_unique(e, b as int);
                }
            },
            None => {
                proof {
                    if exists|k: int| is_oldest_terminal(e, k) {
                        let k = choose|k: int| is_oldest_terminal(e, k);
                        assert(e[k].1.terminal_tick is Some);
                    }
                }
            },
        }
        best
    }

    /// Remove `k` from every request's dependencies.
    fn strip_dependency(&mut self, k: &str)
        requires
            old(self).wf(),
        ensures
            final(self).wf(),
            final(self).entries() == strip_dependency(old(self).entries(), k@),
            final(self).book_schema() == old(self).book_schema(),
            final(self).book_version() == old(self).book_version(),
    {
        let ghost orig = self.requests@;
        let mut v = self.requests.take_entries();
        let n = v.len();
        let mut i: usize = 0;
        proof {
            assert forall|j: int| 0 <= j < n implies (#[trigger] v@[j]).0@ == orig[j].0 && v@[j].1 == orig[j].1 by {
                assert(entries_view(v@)[j] == orig[j]);
            }
            assert forall|j: int| 0 <= j < n implies (#[trigger] v@[j]).1.id@ == orig[j].0 && request_sets_wf(v@[j].1)
                && request_consistent(request_view(v@[j].1)) by {
                assert(old(self).requests@[j] == orig[j]);
            }
        }
        while i < n
            invariant
                orig == old(self).requests@,
                n == v@.len(),
                n == orig.len(),
                i <= n,
                forall|j: int| 0 <= j < n ==> (#[trigger] v@[j]).0@ == orig[j].0,
                forall|j: int| 0 <= j < n ==> (#[trigger] v@[j]).1.id@ == orig[j].0 && request_sets_wf(v@[j].1)
                    && request_consistent(request_view(v@[j].1)),
                forall|j: int| 0 <= j < i ==> request_view((#[trigger] v@[j]).1) == (RequestView {
                    dependencies: request_view(orig[j].1).dependencies.remove(k@),
                    ..request_view(orig[j].1)
                }),
                forall|j: int| i <= j < n ==> (#[trigger] v@[j]).1 == orig[j].1,
                keys_sorted(orig),
            decreases n - i,
        {
            let (key, mut r) = v.remove(i);
            r.dependencies.remove(k);
            v.insert(i, (key, r));
            proof {
                assert(r.dependencies.map().dom() =~= old(self).entries()[i as int].1.dependencies.remove(k@)) by {
                    assert(old(self).entries()[i as int].1 == request_view(orig[i as int].1));
                }
            }
            i = i + 1;
        }
        proof {
            assert forall|a: int, b: int| 0 <= a < b < n implies crate::text::text_lt(
                #[trigger] entries_view(v@)[a].0,
                #[trigger] entries_view(v@)[b].0,
            ) by {
                assert(entries_view(v@)[a].0 == orig[a].0);
                assert(entries_view(v@)[b].0 == orig[b].0);
            }
        }
        self.requests = IdMap::from_entries(v);
        proof {
            assert(self.entries() =~= strip_dependency(old(self).entries(), k@)) by {
                assert forall|j: int| 0 <= j < n implies #[trigger] self.entries()[j] == strip_dependency(old(self).entries(), k@)[j] by {
                    assert(self.requests@[j] == (v@[j].0@, v@[j].1));
                    assert(old(self).entries()[j] == (orig[j].0, request_view(orig[j].1)));
                }
            }
            assert forall|j: int| 0 <= j < self.requests@.len() implies {
                let e = #[trigger] self.requests@[j];
                &&& e.1.id@ == e.0
                &&& request_sets_wf(e.1)
                &&& request_consistent(request_view(e.1))
            } by {
                assert(self.requests@[j] == (v@[j].0@, v@[j].1));
            }
        }
    }

    /// Evict terminal history beyond its capacity, oldest first.
    fn evict_terminal_history(&mut self)
        requires
            old(self).wf(),
        ensures
            final(self).wf(),
            final(self).entries() == evicted(old(self).entries()),
            final(self).book_schema() == old(self).book_schema(),
            final(self).book_version() == old(self).book_version(),
    {
        let mut done = false;
        while !done
            invariant
                self.wf(),
                evicted(self.entries()) == evicted(old(self).entries()),
                done ==> evicted(self.entries()) == self.entries(),
                self.schema_version == old(self).schema_version,
                self.version == old(self).version,
            decreases self.requests@.len() + if done { 0int } else { 1int },
        {
            let count = self.count_terminal();
            if count <= TERMINAL_OFFICER_REQUEST_CAPACITY {
                done = true;
            } else {
                match self.find_oldest_terminal() {
                    None => {
                        done = true;
                    },
                    Some(i) => {
                        let ghost e = self.entries();
                        let (key, _evicted) = self.requests.take_at(i);
                        proof {
                            assert(self.entries() =~= e.remove(i as int));
                            assert(key@ == e[i as int].0);
                        }
                        self.strip_dependency(key.as_str());
                        proof {
                            assert(evicted(e) == evicted(strip_dependency(e.remove(i as int), e[i as int].0)));
                        }
                    },
                }
            }
        }
    }
}


pub open spec fn transition_error(r: RequestView, next: OfficerRequestState) -> Option<OfficerRequestError> {
    if r.state != next && !state_transition_allowed(r.state, next) {
        Some(OfficerRequestError::InvalidTransition)
    } else {
        None
    }
}

/// A request moved to `next` at `tick`: entering a terminal state records
/// the tick and releases every reservation.
pub open spec fn transitioned(r: RequestView, next: OfficerRequestState, tick: u64) -> RequestView {
    if r.state == next {
        r
    } else if state_terminal(next) {
        RequestView {
            state: next,
            terminal_tick: Some(tick),
            resource_reservation_ids: Set::empty(),
            labor_reservation_ids: Set::empty(),
            ..r
        }
    } else {
        RequestView { state: next, ..r }
    }
}

/// The position of key `k`.
pub open spec fn index_of(e: Seq<(Seq<char>, RequestView)>, k: Seq<char>) -> int {
    choose|i: int| 0 <= i < e.len() && #[trigger] e[i].0 == k
}

/// The entries with the request under `k` replaced by `v`.
pub open spec fn replaced(e: Seq<(Seq<char>, RequestView)>, k: Seq<char>, v: RequestView) -> Seq<(Seq<char>, RequestView)> {
    e.update(index_of(e, k), (k, v))
}

pub open spec fn denial(d: AuthorityDecision) -> Option<OfficerRequestError> {
    match d {
        AuthorityDecision::Denied(reason) => Some(OfficerRequestError::AuthorityDenied(reason)),
        AuthorityDecision::Allowed => None,
    }
}

pub open spec fn decision_error(
    m: Map<Seq<char>, RequestView>,
    id: Seq<char>,
    decision: AuthorityDecision,
    next: OfficerRequestState,
) -> Option<OfficerRequestError> {
    if !m.contains_key(id) {
        Some(OfficerRequestError::MissingRequest)
    } else if denial(decision) is Some {
        denial(decision)
    } else {
        transition_error(m[id], next)
    }
}

pub open spec fn accept_error(
    m: Map<Seq<char>, RequestView>,
    id: Seq<char>,
    decision: AuthorityDecision,
    budget: RequestBudget,
) -> Option<OfficerRequestError> {
    if !m.contains_key(id) {
        Some(OfficerRequestError::MissingRequest)
    } else if denial(decision) is Some {
        denial(decision)
    } else if !budget_covers(budget, m[id].estimated_resource_cost, m[id].estimated_labor_ticks) {
        Some(OfficerRequestError::BudgetExceeded)
    } else {
        transition_error(m[id], OfficerRequestState::Accepted)
    }
}

pub open spec fn bump(v: u64) -> u64 {
    if v == u64::MAX { v } else { (v + 1) as u64 }
}

pub open spec fn unit_result(e: Option<OfficerRequestError>) -> Result<(), OfficerRequestError> {
    match e {
        Some(e) => Err(e),
        None => Ok(()),
    }
}

/// A proposed request is due to expire at `now_tick`.
pub open spec fn due_to_expire(r: RequestView, now_tick: u64) -> bool {
    r.state == OfficerRequestState::Proposed && now_tick >= r.expiry_tick
}

/// Every due request expired at `now_tick`.
pub open spec fn expire_all(e: Seq<(Seq<char>, RequestView)>, now_tick: u64) -> Seq<(Seq<char>, RequestView)> {
    e.map_values(|x: (Seq<char>, RequestView)| (x.0, if due_to_expire(x.1, now_tick) {
        transitioned(x.1, OfficerRequestState::Expired, now_tick)
    } else {
        x.1
    }))
}

/// The keys of the requests satisfying `p`, in order.
pub open spec fn keys_where(e: Seq<(Seq<char>, RequestView)>, p: spec_fn(RequestView) -> bool) -> Seq<Seq<char>>
    decreases e.len(),
{
    if e.len() == 0 {
        Seq::empty()
    } else {
        keys_where(e.drop_last(), p) + if p(e.last().1) { seq![e.last().0] } else { Seq::empty() }
    }
}

pub open spec fn adoptable(r: RequestView, role: OfficerRole) -> bool {
    r.officer_role == role && !state_terminal(r.state)
}

/// Every live request of `role` adopted by `successor_id`.
pub open spec fn adopt_all(e: Seq<(Seq<char>, RequestView)>, role: OfficerRole, successor_id: Seq<char>) -> Seq<(Seq<char>, RequestView)> {
    e.map_values(|x: (Seq<char>, RequestView)| (x.0, if adoptable(x.1, role) {
        RequestView { adopted_by_officer_id: Some(successor_id), ..x.1 }
    } else {
        x.1
    }))
}

impl OfficerRequest {
    fn transition(&mut self, next: OfficerRequestState, transition_tick: u64) -> (r: Result<(), OfficerRequestError>)
        requires
            request_sets_wf(*old(self)),
        ensures
            request_sets_wf(*final(self)),
            r == unit_result(transition_error(request_view(*old(self)), next)),
            r is Err ==> *final(self) == *old(self),
            r is Ok ==> request_view(*final(self)) == transitioned(request_view(*old(self)), next, transition_tick),
            final(self).id == old(self).id,
    {
        if self.state == next {
            return Ok(());
        }
        if !self.state.can_transition_to(next) {
            return Err(OfficerRequestError::InvalidTransition);
        }
        self.state = next;
        if next.is_terminal() {
            self.terminal_tick = Some(transition_tick);
            self.resource_reservation_ids = empty_set();
            self.labor_reservation_ids = empty_set();
        }
        Ok(())
    }
}

impl OfficerRequestBook {
    proof fn lemma_index(&self, i: int)
        requires
            self.wf(),
            0 <= i < self.entries().len(),
        ensures
            index_of(self.entries(), self.entries()[i].0) == i,
            self.request_map().contains_key(self.entries()[i].0),
            self.request_map()[self.entries()[i].0] == self.entries()[i].1,
    {
        self.lemma_entries_sorted();
        lemma_lookup_at(self.entries(), i);
        let k = self.entries()[i].0;
        let j = index_of(self.entries(), k);
        assert(0 <= j < self.entries().len() && self.entries()[j].0 == k);
        if j < i {
            assert(crate::text::text_lt(self.entries()[j].0, self.entries()[i].0));
            crate::text::lemma_text_lt_irreflexive(k);
        } else if j > i {
            assert(crate::text::text_lt(self.entries()[i].0, self.entries()[j].0));
            crate::text::lemma_text_lt_irreflexive(k);
        }
    }

    /// Locate `id`.
    fn locate(&self, id: &str) -> (r: Option<usize>)
        requires
            self.wf(),
        ensures
            r is Some == self.request_map().contains_key(id@),
            r matches Some(i) ==> i < self.entries().len() && self.entries()[i as int].0 == id@ && index_of(self.entries(), id@)
                == i,
    {
        proof {
            self.lemma_entries_sorted();
        }
        match self.requests.find(id) {
            Ok(i) => {
                proof {
                    assert(self.entries()[i as int].0 == self.requests@[i as int].0);
                    self.lemma_index(i as int);
                }
                Some(i)
            },
            Err(_) => {
                proof {
                    if crate::id_map::has_key(self.entries(), id@) {
                        let j = choose|j: int| 0 <= j < self.entries().len() && #[trigger] self.entries()[j].0 == id@;
                        assert(self.requests@[j].0 == id@);
                    }
                }
                None
            },
        }
    }

    /// Apply a state transition to the request at position `i`.
    fn transition_at(&mut self, i: usize, next: OfficerRequestState, now_tick: u64) -> (r: Result<(), OfficerRequestError>)
        requires
            old(self).wf(),
            i < old(self).entries().len(),
        ensures
            final(self).wf(),
            r == unit_result(transition_error(old(self).entries()[i as int].1, next)),
            r is Err ==> final(self).entries() == old(self).entries(),
            r is Ok ==> final(self).entries() == old(self).entries().update(
                i as int,
                (old(self).entries()[i as int].0, transitioned(old(self).entries()[i as int].1, next, now_tick)),
            ),
            final(self).book_schema() == old(self).book_schema(),
            final(self).book_version() == old(self).book_version(),
    {
        let ghost orig = self.requests@;
        let (key, mut request) = self.requests.take_at(i);
        assert(orig[i as int].1.id@ == orig[i as int].0);
        let result = request.transition(next, now_tick);
        proof {
            assert(self.requests@.insert(i as int, (key@, request)) =~= orig.update(i as int, (key@, request)));
            assert(keys_sorted(orig.update(i as int, (key@, request)))) by {
                let u = orig.update(i as int, (key@, request));
                assert forall|a: int, b: int| 0 <= a < b < u.len() implies crate::text::text_lt(#[trigger] u[a].0, #[trigger] u[b].0) by {
                    assert(u[a].0 == orig[a].0 && u[b].0 == orig[b].0);
                }
            }
        }
        self.requests.put_at(i, (key, request));
        proof {
            assert(self.requests@ == orig.update(i as int, (key@, request)));
            assert forall|j: int| 0 <= j < self.requests@.len() implies {
                let e = #[trigger] self.requests@[j];
                &&& e.1.id@ == e.0
                &&& request_sets_wf(e.1)
                &&& request_consistent(request_view(e.1))
            } by {
                if j != i {
                    assert(self.requests@[j] == orig[j]);
                }
            }
            if result is Err {
                assert(self.requests@ =~= orig);
            }
            assert(self.entries() =~= old(self).entries().update(i as int, (orig[i as int].0, request_view(request))));
        }
        result
    }

    /// Accept a proposed request. `decision` is the authority's verdict on
    /// deciding a request in its target domain.
    pub fn accept(&mut self, id: &OfficerRequestId, decision: AuthorityDecision, budget: RequestBudget, now_tick: u64) -> (r: Result<
        (),
        OfficerRequestError,
    >)
        requires
            old(self).wf(),
        ensures
            final(self).wf(),
            r == unit_result(accept_error(old(self).request_map(), id@, decision, budget)),
            r is Err ==> final(self).entries() == old(self).entries() && final(self).book_version() == old(self).book_version(),
            r is Ok ==> final(self).entries() == replaced(
                old(self).entries(),
                id@,
                transitioned(old(self).request_map()[id@], OfficerRequestState::Accepted, now_tick),
            ) && final(self).book_version() == bump(old(self).book_version()),
            final(self).book_schema() == old(self).book_schema(),
    {
        let i = match self.locate(id.as_str()) {
            Some(i) => i,
            None => return Err(OfficerRequestError::MissingRequest),
        };
        proof {
            self.lemma_index(i as int);
        }
        match decision {
            AuthorityDecision::Denied(reason) => return Err(OfficerRequestError::AuthorityDenied(reason)),
            AuthorityDecision::Allowed => {},
        }
        let request = self.requests.value_at(i);
        if !budget.covers(request.estimated_resource_cost, request.estimated_labor_ticks) {
            return Err(OfficerRequestError::BudgetExceeded);
        }
        match self.transition_at(i, OfficerRequestState::Accepted, now_tick) {
            Ok(()) => {},
            Err(e) => return Err(e),
        }
        self.version = if self.version == u64::MAX { self.version } else { self.version + 1 };
        Ok(())
    }

    fn decide(&mut self, id: &OfficerRequestId, decision: AuthorityDecision, next: OfficerRequestState, now_tick: u64) -> (r: Result<
        (),
        OfficerRequestError,
    >)
        requires
            old(self).wf(),
        ensures
            final(self).wf(),
            r == unit_result(decision_error(old(self).request_map(), id@, decision, next)),
            r is Err ==> final(self).entries() == old(self).entries() && final(self).book_version() == old(self).book_version(),
            r is Ok ==> final(self).entries() == evicted(
                replaced(old(self).entries(), id@, transitioned(old(self).request_map()[id@], next, now_tick)),
            ) && final(self).book_version() == bump(old(self).book_version()),
            final(self).book_schema() == old(self).book_schema(),
    {
        let i = match self.locate(id.as_str()) {
            Some(i) => i,
            None => return Err(OfficerRequestError::MissingRequest),
        };
        proof {
            self.lemma_index(i as int);
        }
        match decision {
            AuthorityDecision::Denied(reason) => return Err(OfficerRequestError::AuthorityDenied(reason)),
            AuthorityDecision::Allowed => {},
        }
        match self.transition_at(i, next, now_tick) {
            Ok(()) => {},
            Err(e) => return Err(e),
        }
        self.version = if self.version == u64::MAX { self.version } else { self.version + 1 };
        self.evict_terminal_history();
        Ok(())
    }

    /// Reject a proposed request. `decision` is the authority's verdict on
    /// deciding a request in its target domain.
    pub fn reject(&mut self, id: &OfficerRequestId, decision: AuthorityDecision, now_tick: u64) -> (r: Result<
        (),
        OfficerRequestError,
    >)
        requires
            old(self).wf(),
        ensures
            final(self).wf(),
            r == unit_result(decision_error(old(self).request_map(), id@, decision, OfficerRequestState::Rejected)),
            r is Err ==> final(self).entries() == old(self).entries() && final(self).book_version() == old(self).book_version(),
            r is Ok ==> final(self).entries() == evicted(
                replaced(
                    old(self).entries(),
                    id@,
                    transitioned(old(self).request_map()[id@], OfficerRequestState::Rejected, now_tick),
                ),
            ) && final(self).book_version() == bump(old(self).book_version()),
            final(self).book_schema() == old(self).book_schema(),
    {
        self.decide(id, decision, OfficerRequestState::Rejected, now_tick)
    }

    /// Supersede a proposed or accepted request. `decision` is the
    /// authority's verdict on deciding a request in its target domain.
    pub fn supersede(&mut self, id: &OfficerRequestId, decision: AuthorityDecision, now_tick: u64) -> (r: Result<
        (),
        OfficerRequestError,
    >)
        requires
            old(self).wf(),
        ensures
            final(self).wf(),
            r == unit_result(decision_error(old(self).request_map(), id@, decision, OfficerRequestState::Superseded)),
            r is Err ==> final(self).entries() == old(self).entries() && final(self).book_version() == old(self).book_version(),
            r is Ok ==> final(self).entries() == evicted(
                replaced(
                    old(self).entries(),
                    id@,
                    transitioned(old(self).request_map()[id@], OfficerRequestState::Superseded, now_tick),
                ),
            ) && final(self).book_version() == bump(old(self).book_version()),
            final(self).book_schema() == old(self).book_schema(),
    {
        self.decide(id, decision, OfficerRequestState::Superseded, now_tick)
    }

    /// Fulfill an accepted request. `decision` is the authority's verdict on
    /// executing approved work in the request's target domain.
    pub fn fulfill(&mut self, id: &OfficerRequestId, decision: AuthorityDecision, now_tick: u64) -> (r: Result<
        (),
        OfficerRequestError,
    >)
        requires
            old(self).wf(),
        ensures
            final(self).wf(),
            r == unit_result(decision_error(old(self).request_map(), id@, decision, OfficerRequestState::Fulfilled)),
            r is Err ==> final(self).entries() == old(self).entries() && final(self).book_version() == old(self).book_version(),
            r is Ok ==> final(self).entries() == evicted(
                replaced(
                    old(self).entries(),
                    id@,
                    transitioned(old(self).request_map()[id@], OfficerRequestState::Fulfilled, now_tick),
                ),
            ) && final(self).book_version() == bump(old(self).book_version()),
            final(self).book_schema() == old(self).book_schema(),
    {
        self.decide(id, decision, OfficerRequestState::Fulfilled, now_tick)
    }
}


pub open spec fn ids_view(v: Seq<OfficerRequestId>) -> Seq<Seq<char>> {
    v.map_values(|id: OfficerRequestId| id@)
}

proof fn lemma_keys_where_ascend(e: Seq<(Seq<char>, RequestView)>, p: spec_fn(RequestView) -> bool)
    requires
        keys_sorted(e),
    ensures
        forall|a: int, b: int|
            0 <= a < b < keys_where(e, p).len() ==> text_lt(#[trigger] keys_where(e, p)[a], #[trigger] keys_where(e, p)[b]),
        forall|a: int| 0 <= a < keys_where(e, p).len() ==> crate::id_map::has_key(e, #[trigger] keys_where(e, p)[a]),
    decreases e.len(),
{
    if e.len() > 0 {
        let d = e.drop_last();
        assert(keys_sorted(d));
        lemma_keys_where_ascend(d, p);
        let ks = keys_where(e, p);
        let kd = keys_where(d, p);
        assert forall|a: int| 0 <= a < kd.len() implies text_lt(kd[a], e.last().0) by {
            let i = choose|i: int| 0 <= i < d.len() && #[trigger] d[i].0 == kd[a];
            assert(text_lt(e[i].0, e[e.len() - 1].0));
        }
        assert forall|a: int| 0 <= a < ks.len() implies crate::id_map::has_key(e, #[trigger] ks[a]) by {
            if a < kd.len() {
                let i = choose|i: int| 0 <= i < d.len() && #[trigger] d[i].0 == kd[a];
                assert(e[i].0 == ks[a]);
            } else {
                assert(e[e.len() - 1].0 == ks[a]);
            }
        }
        assert forall|a: int, b: int| 0 <= a < b < ks.len() implies text_lt(#[trigger] ks[a], #[trigger] ks[b]) by {
            if b < kd.len() {
                assert(text_lt(kd[a], kd[b]));
            } else {
                assert(text_lt(kd[a], e.last().0));
            }
        }
    }
}

/// The identifiers of the requests due to expire at `now_tick`, in order.
pub open spec fn expired_ids(e: Seq<(Seq<char>, RequestView)>, now_tick: u64) -> Seq<Seq<char>> {
    keys_where(e, |x: RequestView| due_to_expire(x, now_tick))
}

/// The requests an expiry reports come in strictly ascending identifier
/// order, each the identifier of a request of the book.
pub proof fn law_expired_ids_ascend(book: OfficerRequestBook, now_tick: u64)
    requires
        book.wf(),
    ensures
        forall|a: int, b: int|
            0 <= a < b < expired_ids(book.entries(), now_tick).len() ==> text_lt(
                #[trigger] expired_ids(book.entries(), now_tick)[a],
                #[trigger] expired_ids(book.entries(), now_tick)[b],
            ),
        forall|a: int|
            0 <= a < expired_ids(book.entries(), now_tick).len() ==> book.request_map().contains_key(
                #[trigger] expired_ids(book.entries(), now_tick)[a],
            ),
{
    let e = book.entries();
    assert(keys_sorted(e)) by {
        assert forall|i: int, j: int| 0 <= i < j < e.len() implies text_lt(#[trigger] e[i].0, #[trigger] e[j].0) by {
            assert(e[i].0 == book.requests@[i].0);
            assert(e[j].0 == book.requests@[j].0);
        }
    }
    let p = |x: RequestView| due_to_expire(x, now_tick);
    lemma_keys_where_ascend(e, p);
    crate::id_map::lemma_lookup_all(e);
    let ks = expired_ids(e, now_tick);
    assert forall|a: int| 0 <= a < ks.len() implies book.request_map().contains_key(#[trigger] ks[a]) by {
        assert(crate::id_map::has_key(e, keys_where(e, p)[a]));
    }
}

/// Every request's terminal tick is set exactly when its state is terminal.
pub open spec fn ticks_match_states(e: Seq<(Seq<char>, RequestView)>) -> bool {
    forall|i: int| 0 <= i < e.len() ==> state_terminal((#[trigger] e[i]).1.state) == (e[i].1.terminal_tick is Some)
}

/// `f` holds request `k` with state `st`.
pub open spec fn holds_with_state(f: Seq<(Seq<char>, RequestView)>, k: Seq<char>, st: OfficerRequestState) -> bool {
    exists|j: int| 0 <= j < f.len() && (#[trigger] f[j]).0 == k && f[j].1.state == st
}

proof fn lemma_evicted_keeps_live(e: Seq<(Seq<char>, RequestView)>)
    requires
        ticks_match_states(e),
    ensures
        forall|i: int|
            0 <= i < e.len() && !state_terminal((#[trigger] e[i]).1.state) ==> holds_with_state(evicted(e), e[i].0, e[i].1.state),
        forall|j: int| 0 <= j < evicted(e).len() ==> holds_with_state(e, (#[trigger] evicted(e)[j]).0, evicted(e)[j].1.state),
    decreases e.len(),
{
    let f = evicted(e);
    if terminal_count(e) > TERMINAL_OFFICER_REQUEST_CAPACITY && oldest_terminal(e) is Some && 0 <= oldest_terminal(e)->0 < e.len() {
        let i0 = oldest_terminal(e)->0;
        let r = e.remove(i0);
        let e2 = strip_dependency(r, e[i0].0);
        assert(is_oldest_terminal(e, i0));
        assert(ticks_match_states(e2)) by {
            assert forall|i: int| 0 <= i < e2.len() implies state_terminal((#[trigger] e2[i]).1.state) == (e2[i].1.terminal_tick is Some) by {
                if i < i0 {
                    assert(e2[i].1.state == e[i].1.state && e2[i].1.terminal_tick == e[i].1.terminal_tick);
                } else {
                    assert(e2[i].1.state == e[i + 1].1.state && e2[i].1.terminal_tick == e[i + 1].1.terminal_tick);
                }
            }
        }
        lemma_evicted_keeps_live(e2);
        assert(f == evicted(e2));
        assert forall|i: int| 0 <= i < e.len() && !state_terminal((#[trigger] e[i]).1.state) implies holds_with_state(f, e[i].0, e[i].1.state) by {
            assert(i != i0);
            let i2 = if i < i0 { i } else { i - 1 };
            assert(e2[i2].0 == e[i].0 && e2[i2].1.state == e[i].1.state);
        }
        assert forall|j: int| 0 <= j < f.len() implies holds_with_state(e, (#[trigger] f[j]).0, f[j].1.state) by {
            assert(holds_with_state(e2, f[j].0, f[j].1.state));
            let i2 = choose|i2: int| 0 <= i2 < e2.len() && (#[trigger] e2[i2]).0 == f[j].0 && e2[i2].1.state == f[j].1.state;
            let i = if i2 < i0 { i2 } else { i2 + 1 };
            assert(e[i].0 == e2[i2].0 && e[i].1.state == e2[i2].1.state);
        }
    } else {
        assert(f == e);
        assert forall|i: int| 0 <= i < e.len() && !state_terminal((#[trigger] e[i]).1.state) implies holds_with_state(f, e[i].0, e[i].1.state) by {
            assert(f[i] == e[i]);
        }
        assert forall|j: int| 0 <= j < f.len() implies holds_with_state(e, (#[trigger] f[j]).0, f[j].1.state) by {
            assert(e[j] == f[j]);
        }
    }
}

/// Law: an expiry at `now_tick` expires exactly the proposed requests whose
/// expiry tick has come (each becomes Expired at `now_tick` with its
/// reservations released) and changes no other request; trimming the
/// terminal history afterwards keeps every live request with its state and
/// adds no request.
pub proof fn law_expiry_changes_only_due(book: OfficerRequestBook, now_tick: u64)
    requires
        book.wf(),
    ensures
        ({
            let e = book.entries();
            let x = expire_all(e, now_tick);
            let f = evicted(x);
            &&& x.len() == e.len()
            &&& forall|i: int|
                0 <= i < e.len() ==> (#[trigger] x[i]).0 == e[i].0 && x[i].1 == if due_to_expire(e[i].1, now_tick) {
                    transitioned(e[i].1, OfficerRequestState::Expired, now_tick)
                } else {
                    e[i].1
                }
            &&& forall|i: int|
                0 <= i < e.len() && due_to_expire(e[i].1, now_tick) ==> {
                    &&& (#[trigger] x[i]).1.state == OfficerRequestState::Expired
                    &&& x[i].1.terminal_tick == Some(now_tick)
                    &&& x[i].1.resource_reservation_ids.is_empty()
                    &&& x[i].1.labor_reservation_ids.is_empty()
                }
            &&& forall|i: int|
                0 <= i < x.len() && !state_terminal((#[trigger] x[i]).1.state) ==> holds_with_state(f, x[i].0, x[i].1.state)
            &&& forall|j: int| 0 <= j < f.len() ==> holds_with_state(x, (#[trigger] f[j]).0, f[j].1.state)
        }),
{
    let e = book.entries();
    let x = expire_all(e, now_tick);
    book.lemma_entries_sorted();
    assert(ticks_match_states(x)) by {
        assert forall|i: int| 0 <= i < x.len() implies state_terminal((#[trigger] x[i]).1.state) == (x[i].1.terminal_tick is Some) by {
            assert(request_consistent(e[i].1));
        }
    }
    lemma_evicted_keeps_live(x);
}

impl OfficerRequestBook {
    /// Expire every proposed request whose expiry tick has come. Returns the
    /// expired identifiers in identifier order.
    pub fn expire_due(&mut self, now_tick: u64) -> (r: Vec<OfficerRequestId>)
        requires
            old(self).wf(),
        ensures
            final(self).wf(),
            ids_view(r@) == keys_where(old(self).entries(), |x: RequestView| due_to_expire(x, now_tick)),
            r@.len() == 0 ==> final(self).entries() == old(self).entries() && final(self).book_version()
                == old(self).book_version(),
            r@.len() > 0 ==> final(self).entries() == evicted(expire_all(old(self).entries(), now_tick))
                && final(self).book_version() == bump(old(self).book_version()),
            final(self).book_schema() == old(self).book_schema(),
    {
        let ghost orig = self.requests@;
        let ghost e = old(self).entries();
        let ghost p = |x: RequestView| due_to_expire(x, now_tick);
        let mut v = self.requests.take_entries();
        let n = v.len();
        let mut expired: Vec<OfficerRequestId> = Vec::new();
        proof {
            assert forall|j: int| 0 <= j < n implies (#[trigger] v@[j]).0@ == orig[j].0 && v@[j].1 == orig[j].1 by {
                assert(entries_view(v@)[j] == orig[j]);
            }
            assert forall|j: int| 0 <= j < n implies (#[trigger] v@[j]).1.id@ == orig[j].0 && request_sets_wf(v@[j].1)
                && request_consistent(request_view(v@[j].1)) by {
                assert(old(self).requests@[j] == orig[j]);
            }
            assert(e.take(0) =~= Seq::<(Seq<char>, RequestView)>::empty());
            assert(ids_view(expired@) =~= Seq::<Seq<char>>::empty());
        }
        let mut i: usize = 0;
        while i < n
            invariant
                orig == old(self).requests@,
                e == old(self).entries(),
                e == entry_views(orig),
                p == (|x: RequestView| due_to_expire(x, now_tick)),
                n == v@.len(),
                n == orig.len(),
                i <= n,
                keys_sorted(orig),
                forall|j: int| 0 <= j < n ==> (#[trigger] v@[j]).0@ == orig[j].0,
                forall|j: int| 0 <= j < n ==> (#[trigger] v@[j]).1.id@ == orig[j].0 && request_sets_wf(v@[j].1)
                    && request_consistent(request_view(v@[j].1)),
                forall|j: int| 0 <= j < i ==> request_view((#[trigger] v@[j]).1) == expire_all(e, now_tick)[j].1,
                forall|j: int| i <= j < n ==> (#[trigger] v@[j]).1 == orig[j].1,
                ids_view(expired@) == keys_where(e.take(i as int), p),
            decreases n - i,
        {
            let (key, mut request) = v.remove(i);
            assert(e[i as int] == (orig[i as int].0, request_view(orig[i as int].1)));
            assert(e.take(i + 1).drop_last() =~= e.take(i as int));
            if request.state == OfficerRequestState::Proposed && now_tick >= request.expiry_tick {
                let id = request.id.duplicate();
                let _ = request.transition(OfficerRequestState::Expired, now_tick);
                expired.push(id);
                proof {
                    assert(ids_view(expired@) =~= keys_where(e.take(i as int), p) + seq![e[i as int].0]);
                }
            } else {
                proof {
                    assert(ids_view(expired@) =~= keys_where(e.take(i as int), p) + Seq::<Seq<char>>::empty());
                }
            }
            v.insert(i, (key, request));
            i = i + 1;
        }
        proof {
            assert(e.take(n as int) =~= e);
            assert forall|a: int, b: int| 0 <= a < b < n implies crate::text::text_lt(
                #[trigger] entries_view(v@)[a].0,
                #[trigger] entries_view(v@)[b].0,
            ) by {
                assert(entries_view(v@)[a].0 == orig[a].0);
                assert(entries_view(v@)[b].0 == orig[b].0);
            }
        }
        self.requests = IdMap::from_entries(v);
        proof {
            assert forall|j: int| 0 <= j < self.requests@.len() implies {
                let x = #[trigger] self.requests@[j];
                &&& x.1.id@ == x.0
                &&& request_sets_wf(x.1)
                &&& request_consistent(request_view(x.1))
            } by {
                assert(self.requests@[j] == (v@[j].0@, v@[j].1));
            }
            assert(self.entries() =~= expire_all(e, now_tick)) by {
                assert forall|j: int| 0 <= j < n implies #[trigger] self.entries()[j] == expire_all(e, now_tick)[j] by {
                    assert(self.requests@[j] == (v@[j].0@, v@[j].1));
                }
            }
        }
        if expired.len() > 0 {
            self.version = if self.version == u64::MAX { self.version } else { self.version + 1 };
            self.evict_terminal_history();
        } else {
            proof {
                assert forall|j: int| 0 <= j < n implies !due_to_expire(#[trigger] e[j].1, now_tick) by {
                    lemma_keys_where_len(e, p, j);
                }
                assert(expire_all(e, now_tick) =~= e);
            }
        }
        expired
    }

    /// A successor takes over every live request of `role`, after due
    /// requests expire. Returns the adopted identifiers in identifier order.
    pub fn adopt_for_successor(&mut self, role: OfficerRole, successor_id: PlannerId, now_tick: u64) -> (r: Vec<
        OfficerRequestId,
    >)
        requires
            old(self).wf(),
        ensures
            final(self).wf(),
            ({
                let expired_ids = keys_where(old(self).entries(), |x: RequestView| due_to_expire(x, now_tick));
                let mid = if expired_ids.len() > 0 {
                    evicted(expire_all(old(self).entries(), now_tick))
                } else {
                    old(self).entries()
                };
                let mid_version = if expired_ids.len() > 0 {
                    bump(old(self).book_version())
                } else {
                    old(self).book_version()
                };
                &&& ids_view(r@) == keys_where(mid, |x: RequestView| adoptable(x, role))
                &&& final(self).entries() == adopt_all(mid, role, successor_id@)
                &&& final(self).book_version() == if r@.len() > 0 { bump(mid_version) } else { mid_version }
            }),
            final(self).book_schema() == old(self).book_schema(),
    {
        let _ = self.expire_due(now_tick);
        let ghost orig = self.requests@;
        let ghost e = self.entries();
        let ghost p = |x: RequestView| adoptable(x, role);
        let ghost mid_self = *self;
        let mut v = self.requests.take_entries();
        let n = v.len();
        let mut adopted: Vec<OfficerRequestId> = Vec::new();
        proof {
            assert forall|j: int| 0 <= j < n implies (#[trigger] v@[j]).0@ == orig[j].0 && v@[j].1 == orig[j].1 by {
                assert(entries_view(v@)[j] == orig[j]);
            }
            assert forall|j: int| 0 <= j < n implies (#[trigger] v@[j]).1.id@ == orig[j].0 && request_sets_wf(v@[j].1)
                && request_consistent(request_view(v@[j].1)) by {
                assert(mid_self.requests@[j] == orig[j]);
            }
            assert(e.take(0) =~= Seq::<(Seq<char>, RequestView)>::empty());
            assert(ids_view(adopted@) =~= Seq::<Seq<char>>::empty());
        }
        let mut i: usize = 0;
        while i < n
            invariant
                e == entry_views(orig),
                p == (|x: RequestView| adoptable(x, role)),
                n == v@.len(),
                n == orig.len(),
                i <= n,
                keys_sorted(orig),
                forall|j: int| 0 <= j < n ==> (#[trigger] v@[j]).0@ == orig[j].0,
                forall|j: int| 0 <= j < n ==> (#[trigger] v@[j]).1.id@ == orig[j].0 && request_sets_wf(v@[j].1)
                    && request_consistent(request_view(v@[j].1)),
                forall|j: int| 0 <= j < i ==> request_view((#[trigger] v@[j]).1) == adopt_all(e, role, successor_id@)[j].1,
                forall|j: int| i <= j < n ==> (#[trigger] v@[j]).1 == orig[j].1,
                ids_view(adopted@) == keys_where(e.take(i as int), p),
            decreases n - i,
        {
            let (key, mut request) = v.remove(i);
            assert(e[i as int] == (orig[i as int].0, request_view(orig[i as int].1)));
            assert(e.take(i + 1).drop_last() =~= e.take(i as int));
            if request.officer_role == role && !request.state.is_terminal() {
                request.adopted_by_officer_id = Some(successor_id.duplicate());
                adopted.push(request.id.duplicate());
                proof {
                    assert(ids_view(adopted@) =~= keys_where(e.take(i as int), p) + seq![e[i as int].0]);
                }
            } else {
                proof {
                    assert(ids_view(adopted@) =~= keys_where(e.take(i as int), p) + Seq::<Seq<char>>::empty());
                }
            }
            v.insert(i, (key, request));
            i = i + 1;
        }
        proof {
            assert(e.take(n as int) =~= e);
            assert forall|a: int, b: int| 0 <= a < b < n implies crate::text::text_lt(
                #[trigger] entries_view(v@)[a].0,
                #[trigger] entries_view(v@)[b].0,
            ) by {
                assert(entries_view(v@)[a].0 == orig[a].0);
                assert(entries_view(v@)[b].0 == orig[b].0);
            }
        }
        self.requests = IdMap::from_entries(v);
        proof {
            assert forall|j: int| 0 <= j < self.requests@.len() implies {
                let x = #[trigger] self.requests@[j];
                &&& x.1.id@ == x.0
                &&& request_sets_wf(x.1)
                &&& request_consistent(request_view(x.1))
            } by {
                assert(self.requests@[j] == (v@[j].0@, v@[j].1));
            }
            assert(self.entries() =~= adopt_all(e, role, successor_id@)) by {
                assert forall|j: int| 0 <= j < n implies #[trigger] self.entries()[j] == adopt_all(e, role, successor_id@)[j] by {
                    assert(self.requests@[j] == (v@[j].0@, v@[j].1));
                }
            }
        }
        if adopted.len() > 0 {
            self.version = if self.version == u64::MAX { self.version } else { self.version + 1 };
        }
        adopted
    }
}

/// A key list is empty only when no request satisfies the predicate.
proof fn lemma_keys_where_len(e: Seq<(Seq<char>, RequestView)>, p: spec_fn(RequestView) -> bool, j: int)
    requires
        0 <= j < e.len(),
        keys_where(e, p).len() == 0,
    ensures
        !p(e[j].1),
    decreases e.len(),
{
    if j == e.len() - 1 {
        assert(e.last() == e[j]);
    } else {
        assert(e.drop_last()[j] == e[j]);
        lemma_keys_where_len(e.drop_last(), p, j);
    }
}


/// The outcome of storing a request, with the identifier read as text.
pub enum InsertView {
    Inserted(Seq<char>),
    Merged(Seq<char>),
    DuplicateId(Seq<char>),
}

pub open spec fn insert_view(r: RequestInsert) -> InsertView {
    match r {
        RequestInsert::Inserted(id) => InsertView::Inserted(id@),
        RequestInsert::Merged(id) => InsertView::Merged(id@),
        RequestInsert::DuplicateId(id) => InsertView::DuplicateId(id@),
    }
}

pub open spec fn insert_result_view(r: Result<RequestInsert, OfficerRequestError>) -> Result<InsertView, OfficerRequestError> {
    match r {
        Ok(x) => Ok(insert_view(x)),
        Err(e) => Err(e),
    }
}

/// Position `i` holds the first live request asking for the same thing as `r`.
pub open spec fn is_first_merge(e: Seq<(Seq<char>, RequestView)>, r: RequestView, i: int) -> bool {
    &&& 0 <= i < e.len()
    &&& !state_terminal(e[i].1.state) && same_semantic_key(e[i].1, r)
    &&& forall|j: int| 0 <= j < i ==> !(!state_terminal((#[trigger] e[j]).1.state) && same_semantic_key(e[j].1, r))
}

pub open spec fn merge_position(e: Seq<(Seq<char>, RequestView)>, r: RequestView) -> Option<int> {
    if exists|i: int| is_first_merge(e, r, i) {
        Some(choose|i: int| is_first_merge(e, r, i))
    } else {
        None
    }
}

/// A live request absorbing a duplicate's evidence, reports, urgency and confidence.
pub open spec fn merged(existing: RequestView, r: RequestView) -> RequestView {
    RequestView {
        evidence_ids: existing.evidence_ids.union(r.evidence_ids),
        report_ids: existing.report_ids.union(r.report_ids),
        base_urgency: if existing.base_urgency >= r.base_urgency { existing.base_urgency } else { r.base_urgency },
        confidence: if existing.confidence >= r.confidence { existing.confidence } else { r.confidence },
        ..existing
    }
}

/// The position at which key `k` keeps the keys ordered.
pub open spec fn is_insert_position(e: Seq<(Seq<char>, RequestView)>, k: Seq<char>, p: int) -> bool {
    &&& 0 <= p <= e.len()
    &&& forall|j: int| 0 <= j < p ==> crate::text::text_lt((#[trigger] e[j]).0, k)
    &&& forall|j: int| p <= j < e.len() ==> crate::text::text_lt(k, (#[trigger] e[j]).0)
}

pub open spec fn insert_position(e: Seq<(Seq<char>, RequestView)>, k: Seq<char>) -> int {
    choose|p: int| is_insert_position(e, k, p)
}

/// What storing `r` yields: an error, the outcome, the new entries and whether
/// the version advances.
pub open spec fn insert_outcome(
    e: Seq<(Seq<char>, RequestView)>,
    r: RequestView,
    owns_source: bool,
) -> (Result<InsertView, OfficerRequestError>, Seq<(Seq<char>, RequestView)>, bool) {
    if !(request_consistent(r) && owns_source) {
        (Err(OfficerRequestError::MalformedPersistence), e, false)
    } else if entries_map(e).contains_key(r.id) {
        (Ok(InsertView::DuplicateId(r.id)), e, false)
    } else if merge_position(e, r) is Some {
        let m = merge_position(e, r)->0;
        (Ok(InsertView::Merged(e[m].0)), e.update(m, (e[m].0, merged(e[m].1, r))), true)
    } else if !state_terminal(r.state) && live_count(e) >= LIVE_OFFICER_REQUEST_CAPACITY {
        (Err(OfficerRequestError::LiveCapacityReached), e, false)
    } else {
        (Ok(InsertView::Inserted(r.id)), evicted(e.insert(insert_position(e, r.id), (r.id, r))), true)
    }
}

proof fn lemma_first_merge_unique(e: Seq<(Seq<char>, RequestView)>, r: RequestView, i: int)
    requires
        is_first_merge(e, r, i),
    ensures
        merge_position(e, r) == Some(i),
{
    let c = choose|c: int| is_first_merge(e, r, c);
    assert(is_first_merge(e, r, c));
    if c < i {
        assert(!(!state_terminal(e[c].1.state) && same_semantic_key(e[c].1, r)));
    } else if c > i {
        assert(!(!state_terminal(e[i].1.state) && same_semantic_key(e[i].1, r)));
    }
}

proof fn lemma_insert_position_unique(e: Seq<(Seq<char>, RequestView)>, k: Seq<char>, p: int)
    requires
        is_insert_position(e, k, p),
    ensures
        insert_position(e, k) == p,
{
    let c = choose|c: int| is_insert_position(e, k, c);
    assert(is_insert_position(e, k, c));
    if c < p {
        assert(crate::text::text_lt(e[c].0, k));
        assert(crate::text::text_lt(k, e[c].0));
        crate::text::lemma_text_lt_asymmetric(k, e[c].0);
    } else if c > p {
        assert(crate::text::text_lt(e[p].0, k));
        assert(crate::text::text_lt(k, e[p].0));
        crate::text::lemma_text_lt_asymmetric(k, e[p].0);
    }
}

/// Law: when storing a request merges it into a live request that asks for
/// the same thing, no entry is added or removed, that request gains the
/// duplicate's evidence and reports and keeps the higher urgency and
/// confidence, every other request stays as it was, and the book's version
/// advances.
pub proof fn law_merge_absorbs_duplicate(
    book: OfficerRequestBook,
    after: Seq<(Seq<char>, RequestView)>,
    request: RequestView,
    owns_source: bool,
    id: Seq<char>,
)
    requires
        book.wf(),
        insert_outcome(book.entries(), request, owns_source).0 == Ok::<InsertView, OfficerRequestError>(InsertView::Merged(id)),
        after == insert_outcome(book.entries(), request, owns_source).1,
    ensures
        ({
            let m0 = book.request_map();
            let m1 = entries_map(after);
            &&& m0.contains_key(id)
            &&& !state_terminal(m0[id].state)
            &&& same_semantic_key(m0[id], request)
            &&& m1.dom() == m0.dom()
            &&& m1[id].evidence_ids == m0[id].evidence_ids.union(request.evidence_ids)
            &&& m1[id].report_ids == m0[id].report_ids.union(request.report_ids)
            &&& m1[id].base_urgency == if m0[id].base_urgency >= request.base_urgency {
                m0[id].base_urgency
            } else {
                request.base_urgency
            }
            &&& m1[id].confidence == if m0[id].confidence >= request.confidence {
                m0[id].confidence
            } else {
                request.confidence
            }
            &&& forall|k: Seq<char>| #[trigger] m0.contains_key(k) && k != id ==> m1[k] == m0[k]
        }),
        insert_outcome(book.entries(), request, owns_source).2,
{
    let e = book.entries();
    book.lemma_entries_sorted();
    let m = merge_position(e, request)->0;
    assert(is_first_merge(e, request, m));
    crate::id_map::lemma_lookup_at(e, m);
    crate::id_map::lemma_entries_update_at(e, m, merged(e[m].1, request));
    assert(entries_map(after).dom() =~= entries_map(e).dom());
}

impl OfficerRequest {
    fn asks_same_as(&self, other: &OfficerRequest) -> (r: bool)
        ensures
            r == same_semantic_key(request_view(*self), request_view(*other)),
    {
        text_eq(self.colony_id.as_str(), other.colony_id.as_str()) && self.officer_role == other.officer_role
            && self.source_domain == other.source_domain && self.target_domain == other.target_domain
            && self.kind == other.kind && text_eq(self.target_id.as_str(), other.target_id.as_str())
            && self.quantity == other.quantity && self.payload.same(&other.payload)
    }

    fn is_consistent(&self) -> (r: bool)
        requires
            request_sets_wf(*self),
        ensures
            r == request_consistent(request_view(*self)),
    {
        let terminal = self.state.is_terminal();
        proof {
            crate::id_map::lemma_map_len(self.resource_reservation_ids@);
            crate::id_map::lemma_map_len(self.labor_reservation_ids@);
            if self.resource_reservation_ids@.len() > 0 {
                crate::id_map::lemma_lookup_at(self.resource_reservation_ids@, 0);
            }
            if self.labor_reservation_ids@.len() > 0 {
                crate::id_map::lemma_lookup_at(self.labor_reservation_ids@, 0);
            }
        }
        self.schema_version == OFFICER_REQUEST_SCHEMA_VERSION && self.quantity != 0 && self.payload.validate()
            && self.expiry_tick > self.creation_tick && self.estimated_resource_cost >= 0
            && !self.dependencies.contains_key(self.id.as_str()) && terminal == self.terminal_tick.is_some() && (!terminal || (
        self.resource_reservation_ids.len() == 0 && self.labor_reservation_ids.len() == 0))
    }
}

impl OfficerRequestBook {
    /// The first live request asking for the same thing as `request`.
    fn find_merge(&self, request: &OfficerRequest) -> (r: Option<usize>)
        requires
            self.wf(),
        ensures
            r is Some == (merge_position(self.entries(), request_view(*request)) is Some),
            r matches Some(i) ==> merge_position(self.entries(), request_view(*request)) == Some(i as int),
    {
        let n = self.requests.len();
        let ghost e = self.entries();
        let ghost rv = request_view(*request);
        let mut i: usize = 0;
        while i < n
            invariant
                n == self.requests@.len(),
                e == self.entries(),
                rv == request_view(*request),
                e.len() == n,
                i <= n,
                forall|j: int| 0 <= j < i ==> !(!state_terminal((#[trigger] e[j]).1.state) && same_semantic_key(e[j].1, rv)),
            decreases n - i,
        {
            let existing = self.requests.value_at(i);
            assert(e[i as int].1 == request_view(*existing));
            if !existing.state.is_terminal() && existing.asks_same_as(request) {
                proof {
                    assert(is_first_merge(e, rv, i as int));
                    lemma_first_merge_unique(e, rv, i as int);
                }
                return Some(i);
            }
            i = i + 1;
        }
        proof {
            if exists|k: int| is_first_merge(e, rv, k) {
                let k = choose|k: int| is_first_merge(e, rv, k);
                assert(!(!state_terminal(e[k].1.state) && same_semantic_key(e[k].1, rv)));
            }
        }
        None
    }

    /// Merge `request` into the live request at position `m`.
    fn merge_into(&mut self, m: usize, request: &OfficerRequest) -> (r: OfficerRequestId)
        requires
            old(self).wf(),
            request_sets_wf(*request),
            m < old(self).entries().len(),
        ensures
            final(self).wf(),
            final(self).entries() == old(self).entries().update(
                m as int,
                (old(self).entries()[m as int].0, merged(old(self).entries()[m as int].1, request_view(*request))),
            ),
            r@ == old(self).entries()[m as int].0,
            final(self).book_version() == old(self).book_version(),
            final(self).book_schema() == old(self).book_schema(),
    {
        let ghost e = self.entries();
        let ghost rv = request_view(*request);
        let ghost orig = self.requests@;
        let (key, mut existing) = self.requests.take_at(m);
        assert(orig[m as int].1.id@ == orig[m as int].0);
        existing.evidence_ids.absorb(&request.evidence_ids);
        existing.report_ids.absorb(&request.report_ids);
        if request.base_urgency.0 > existing.base_urgency.0 {
            existing.base_urgency = request.base_urgency;
        }
        if request.confidence.0 > existing.confidence.0 {
            existing.confidence = request.confidence;
        }
        proof {
            assert(keys_sorted(self.requests@.insert(m as int, (key@, existing)))) by {
                let u = self.requests@.insert(m as int, (key@, existing));
                assert(u =~= orig.update(m as int, (key@, existing)));
                assert forall|a: int, b: int| 0 <= a < b < u.len() implies crate::text::text_lt(#[trigger] u[a].0, #[trigger] u[b].0) by {
                    assert(u[a].0 == orig[a].0 && u[b].0 == orig[b].0);
                }
            }
        }
        let merged_id = existing.id.duplicate();
        self.requests.put_at(m, (key, existing));
        proof {
            assert(self.requests@ =~= orig.update(m as int, (key@, existing)));
            assert forall|j: int| 0 <= j < self.requests@.len() implies {
                let x = #[trigger] self.requests@[j];
                &&& x.1.id@ == x.0
                &&& request_sets_wf(x.1)
                &&& request_consistent(request_view(x.1))
            } by {
                if j != m {
                    assert(self.requests@[j] == orig[j]);
                }
            }
            assert(request_view(existing) == merged(e[m as int].1, rv)) by {
                assert(e[m as int].1 == request_view(orig[m as int].1));
            }
            assert(self.entries() =~= e.update(m as int, (e[m as int].0, merged(e[m as int].1, rv))));
        }
        merged_id
    }

    /// Insert a consistent request whose identifier is not stored yet.
    fn insert_fresh(&mut self, request: OfficerRequest)
        requires
            old(self).wf(),
            request_sets_wf(request),
            request_consistent(request_view(request)),
            !entries_map(old(self).entries()).contains_key(request.id@),
        ensures
            final(self).wf(),
            final(self).entries() == old(self).entries().insert(
                insert_position(old(self).entries(), request.id@),
                (request.id@, request_view(request)),
            ),
            final(self).book_version() == old(self).book_version(),
            final(self).book_schema() == old(self).book_schema(),
    {
        proof {
            self.lemma_entries_sorted();
        }
        let ghost e = self.entries();
        let ghost rv = request_view(request);
        let key = String::from_str(request.id.as_str());
        let p = match self.requests.find(key.as_str()) {
            Err(p) => p,
            Ok(i) => {
                proof {
                    assert(self.entries()[i as int].0 == self.requests@[i as int].0);
                    self.lemma_index(i as int);
                }
                assert(false);
                0
            },
        };
        let ghost orig = self.requests@;
        proof {
            assert(is_insert_position(e, rv.id, p as int)) by {
                assert forall|j: int| 0 <= j < p implies crate::text::text_lt((#[trigger] e[j]).0, rv.id) by {
                    assert(e[j].0 == orig[j].0);
                }
                assert forall|j: int| p <= j < e.len() implies crate::text::text_lt(rv.id, (#[trigger] e[j]).0) by {
                    assert(e[j].0 == orig[j].0);
                }
            }
            lemma_insert_position_unique(e, rv.id, p as int);
            assert(keys_sorted(orig.insert(p as int, (key@, request)))) by {
                let u = orig.insert(p as int, (key@, request));
                assert forall|a: int, b: int| 0 <= a < b < u.len() implies crate::text::text_lt(#[trigger] u[a].0, #[trigger] u[b].0) by {
                    if a < p && b < p {
                        assert(u[a] == orig[a] && u[b] == orig[b]);
                    } else if a < p && b == p {
                        assert(u[a] == orig[a]);
                    } else if a < p {
                        assert(u[a] == orig[a] && u[b] == orig[b - 1]);
                        crate::text::lemma_text_lt_transitive(u[a].0, key@, u[b].0);
                    } else if a == p {
                        assert(u[b] == orig[b - 1]);
                    } else {
                        assert(u[a] == orig[a - 1] && u[b] == orig[b - 1]);
                    }
                }
            }
        }
        self.requests.put_at(p, (key, request));
        proof {
            assert forall|j: int| 0 <= j < self.requests@.len() implies {
                let x = #[trigger] self.requests@[j];
                &&& x.1.id@ == x.0
                &&& request_sets_wf(x.1)
                &&& request_consistent(request_view(x.1))
            } by {
                if j < p {
                    assert(self.requests@[j] == orig[j]);
                } else if j > p {
                    assert(self.requests@[j] == orig[j - 1]);
                }
            }
            assert(self.entries() =~= e.insert(p as int, (rv.id, rv)));
        }
    }

    /// Store a request: an existing identifier is reported, a live request
    /// asking for the same thing absorbs it, and otherwise it is inserted
    /// within the live capacity. `officer_owns_source_domain` reports
    /// whether the request's office owns its source domain.
    pub fn insert_or_merge(&mut self, request: OfficerRequest, officer_owns_source_domain: bool) -> (r: Result<
        RequestInsert,
        OfficerRequestError,
    >)
        requires
            old(self).wf(),
            request_sets_wf(request),
        ensures
            final(self).wf(),
            ({
                let out = insert_outcome(old(self).entries(), request_view(request), officer_owns_source_domain);
                &&& insert_result_view(r) == out.0
                &&& final(self).entries() == out.1
                &&& final(self).book_version() == if out.2 { bump(old(self).book_version()) } else { old(self).book_version() }
            }),
            final(self).book_schema() == old(self).book_schema(),
    {
        if !request.is_consistent() || !officer_owns_source_domain {
            return Err(OfficerRequestError::MalformedPersistence);
        }
        proof {
            self.lemma_entries_sorted();
        }
        let ghost e = self.entries();
        let ghost rv = request_view(request);
        let found = self.requests.find(request.id.as_str());
        match found {
            Ok(i) => {
                proof {
                    assert(self.entries()[i as int].0 == self.requests@[i as int].0);
                    self.lemma_index(i as int);
                }
                return Ok(RequestInsert::DuplicateId(request.id));
            },
            Err(_) => {},
        }
        proof {
            if entries_map(e).contains_key(rv.id) {
                let j = choose|j: int| 0 <= j < e.len() && #[trigger] e[j].0 == rv.id;
                assert(self.requests@[j].0 == rv.id);
            }
        }
        match self.find_merge(&request) {
            Some(m) => {
                let merged_id = self.merge_into(m, &request);
                self.version = if self.version == u64::MAX { self.version } else { self.version + 1 };
                return Ok(RequestInsert::Merged(merged_id));
            },
            None => {},
        }
        if !request.state.is_terminal() && self.count_live() >= LIVE_OFFICER_REQUEST_CAPACITY {
            return Err(OfficerRequestError::LiveCapacityReached);
        }
        let id = request.id.duplicate();
        self.insert_fresh(request);
        self.version = if self.version == u64::MAX { self.version } else { self.version + 1 };
        self.evict_terminal_history();
        Ok(RequestInsert::Inserted(id))
    }
}


/// Whether the acting party is the proposing officer.
pub open spec fn actor_is_officer(actor: AuthorityActor, officer_id: Seq<char>, role: OfficerRole) -> bool {
    actor matches AuthorityActor::Officer { cat_id, role: r } && cat_id@ == officer_id && r == role
}

/// The error a proposal meets before it is stored, if any.
pub open spec fn propose_error(
    e: Seq<(Seq<char>, RequestView)>,
    actor: AuthorityActor,
    submission: AuthorityDecision,
    owns_source: bool,
    colony_id: Seq<char>,
    officer_id: Seq<char>,
    role: OfficerRole,
    draft: OfficerRequestDraft,
    budget: RequestBudget,
    creation_tick: u64,
    ticks_per_game_hour: u64,
) -> Option<OfficerRequestError> {
    if !actor_is_officer(actor, officer_id, role) {
        Some(OfficerRequestError::ActorMismatch)
    } else if denial(submission) is Some {
        denial(submission)
    } else if !budget_covers(budget, draft.estimated_resource_cost, draft.estimated_labor_ticks) {
        Some(OfficerRequestError::BudgetExceeded)
    } else if occurrence_count(e, colony_id, officer_id, draft.kind, draft.target_id@) > u32::MAX {
        Some(OfficerRequestError::OccurrenceOverflow)
    } else {
        proposed_error(draft.kind, draft.quantity, owns_source, creation_tick, ticks_per_game_hour)
    }
}

/// The request a proposal stores: a proposed request carrying the draft's
/// urgency, evidence, reports, confidence, estimates and payload.
pub open spec fn drafted_request(
    e: Seq<(Seq<char>, RequestView)>,
    colony_id: Seq<char>,
    officer_id: Seq<char>,
    role: OfficerRole,
    draft: OfficerRequestDraft,
    payload: PayloadView,
    creation_tick: u64,
    ticks_per_game_hour: u64,
) -> RequestView {
    RequestView {
        schema_version: OFFICER_REQUEST_SCHEMA_VERSION,
        id: request_id_text(
            colony_id,
            officer_id,
            draft.kind,
            draft.target_id@,
            occurrence_count(e, colony_id, officer_id, draft.kind, draft.target_id@) as u32,
        ),
        colony_id,
        officer_id,
        officer_role: role,
        adopted_by_officer_id: None,
        source_domain: draft.source_domain,
        target_domain: draft.target_domain,
        kind: draft.kind,
        payload,
        target_id: draft.target_id@,
        quantity: draft.quantity,
        base_urgency: draft.base_urgency.0,
        rationale_id: draft.rationale_id@,
        evidence_ids: draft.evidence_ids.map().dom(),
        report_ids: draft.report_ids.map().dom(),
        confidence: draft.confidence.0,
        estimated_resource_cost: draft.estimated_resource_cost,
        estimated_labor_ticks: draft.estimated_labor_ticks,
        resource_reservation_ids: Set::empty(),
        labor_reservation_ids: Set::empty(),
        dependencies: Set::empty(),
        creation_tick,
        expiry_tick: expiry_of(draft.kind, creation_tick, ticks_per_game_hour) as u64,
        state: OfficerRequestState::Proposed,
        terminal_tick: None,
    }
}

impl OfficerRequestBook {
    fn next_occurrence(&self, colony_id: &PlannerId, officer_id: &PlannerId, kind: RequestKind, target_id: &PlannerId) -> (r: Result<
        u32,
        OfficerRequestError,
    >)
        requires
            self.wf(),
        ensures
            occurrence_count(self.entries(), colony_id@, officer_id@, kind, target_id@) > u32::MAX ==> r
                == Err::<u32, OfficerRequestError>(OfficerRequestError::OccurrenceOverflow),
            occurrence_count(self.entries(), colony_id@, officer_id@, kind, target_id@) <= u32::MAX ==> r == Ok::<
                u32,
                OfficerRequestError,
            >(occurrence_count(self.entries(), colony_id@, officer_id@, kind, target_id@) as u32),
    {
        let n = self.requests.len();
        let ghost e = self.entries();
        let mut count: usize = 0;
        let mut i: usize = 0;
        while i < n
            invariant
                n == self.requests@.len(),
                e == self.entries(),
                i <= n,
                count == occurrence_count(e.take(i as int), colony_id@, officer_id@, kind, target_id@),
                count <= i,
            decreases n - i,
        {
            assert(e.take(i + 1).drop_last() =~= e.take(i as int));
            let r = self.requests.value_at(i);
            assert(e[i as int].1 == request_view(*r));
            if text_eq(r.colony_id.as_str(), colony_id.as_str()) && text_eq(r.officer_id.as_str(), officer_id.as_str())
                && r.kind == kind && text_eq(r.target_id.as_str(), target_id.as_str()) {
                count = count + 1;
            }
            i = i + 1;
        }
        assert(e.take(n as int) =~= e);
        if count > u32::MAX as usize {
            Err(OfficerRequestError::OccurrenceOverflow)
        } else {
            Ok(count as u32)
        }
    }

    fn propose(
        &mut self,
        actor: &AuthorityActor,
        submission: AuthorityDecision,
        officer_owns_source_domain: bool,
        colony_id: PlannerId,
        officer_id: PlannerId,
        officer_role: OfficerRole,
        draft: OfficerRequestDraft,
        payload: OfficerRequestPayload,
        budget: RequestBudget,
        creation_tick: u64,
        ticks_per_game_hour: u64,
    ) -> (r: Result<RequestInsert, OfficerRequestError>)
        requires
            old(self).wf(),
            draft.evidence_ids.wf(),
            draft.report_ids.wf(),
        ensures
            final(self).wf(),
            propose_error(
                old(self).entries(),
                *actor,
                submission,
                officer_owns_source_domain,
                colony_id@,
                officer_id@,
                officer_role,
                draft,
                budget,
                creation_tick,
                ticks_per_game_hour,
            ) matches Some(x) ==> r == Err::<RequestInsert, OfficerRequestError>(x) && final(self).entries() == old(self).entries()
                && final(self).book_version() == old(self).book_version(),
            propose_error(
                old(self).entries(),
                *actor,
                submission,
                officer_owns_source_domain,
                colony_id@,
                officer_id@,
                officer_role,
                draft,
                budget,
                creation_tick,
                ticks_per_game_hour,
            ) is None ==> ({
                let out = insert_outcome(
                    old(self).entries(),
                    drafted_request(
                        old(self).entries(),
                        colony_id@,
                        officer_id@,
                        officer_role,
                        draft,
                        payload_view(payload),
                        creation_tick,
                        ticks_per_game_hour,
                    ),
                    officer_owns_source_domain,
                );
                &&& insert_result_view(r) == out.0
                &&& final(self).entries() == out.1
                &&& final(self).book_version() == if out.2 { bump(old(self).book_version()) } else { old(self).book_version() }
            }),
            final(self).book_schema() == old(self).book_schema(),
    {
        let is_officer = match actor {
            AuthorityActor::Officer { cat_id, role } => text_eq(cat_id.as_str(), officer_id.as_str()) && *role == officer_role,
            AuthorityActor::Other => false,
        };
        if !is_officer {
            return Err(OfficerRequestError::ActorMismatch);
        }
        match submission {
            AuthorityDecision::Denied(reason) => return Err(OfficerRequestError::AuthorityDenied(reason)),
            AuthorityDecision::Allowed => {},
        }
        if !budget.covers(draft.estimated_resource_cost, draft.estimated_labor_ticks) {
            return Err(OfficerRequestError::BudgetExceeded);
        }
        let occurrence = match self.next_occurrence(&colony_id, &officer_id, draft.kind, &draft.target_id) {
            Ok(o) => o,
            Err(e) => return Err(e),
        };
        let id = OfficerRequestId::derive(&colony_id, &officer_id, draft.kind, &draft.target_id, occurrence);
        let mut request = match OfficerRequest::proposed(
            id,
            colony_id,
            officer_id,
            officer_role,
            officer_owns_source_domain,
            draft.source_domain,
            draft.target_domain,
            draft.kind,
            draft.target_id,
            draft.quantity,
            draft.rationale_id,
            creation_tick,
            ticks_per_game_hour,
        ) {
            Ok(r) => r,
            Err(e) => return Err(e),
        };
        request.payload = payload;
        request.base_urgency = draft.base_urgency;
        request.evidence_ids = draft.evidence_ids;
        request.report_ids = draft.report_ids;
        request.confidence = draft.confidence;
        request.estimated_resource_cost = draft.estimated_resource_cost;
        request.estimated_labor_ticks = draft.estimated_labor_ticks;
        self.insert_or_merge(request, officer_owns_source_domain)
    }

    /// An officer proposes a structured request. `submission` is the
    /// authority's verdict on the officer submitting a request in the draft's
    /// source domain; `officer_owns_source_domain` whether the office owns it.
    pub fn propose_structured(
        &mut self,
        actor: &AuthorityActor,
        submission: AuthorityDecision,
        officer_owns_source_domain: bool,
        colony_id: PlannerId,
        officer_id: PlannerId,
        officer_role: OfficerRole,
        draft: OfficerRequestDraft,
        budget: RequestBudget,
        creation_tick: u64,
        ticks_per_game_hour: u64,
    ) -> (r: Result<RequestInsert, OfficerRequestError>)
        requires
            old(self).wf(),
            draft.evidence_ids.wf(),
            draft.report_ids.wf(),
        ensures
            final(self).wf(),
            propose_error(
                old(self).entries(),
                *actor,
                submission,
                officer_owns_source_domain,
                colony_id@,
                officer_id@,
                officer_role,
                draft,
                budget,
                creation_tick,
                ticks_per_game_hour,
            ) matches Some(x) ==> r == Err::<RequestInsert, OfficerRequestError>(x) && final(self).entries() == old(self).entries()
                && final(self).book_version() == old(self).book_version(),
            propose_error(
                old(self).entries(),
                *actor,
                submission,
                officer_owns_source_domain,
                colony_id@,
                officer_id@,
                officer_role,
                draft,
                budget,
                creation_tick,
                ticks_per_game_hour,
            ) is None ==> ({
                let out = insert_outcome(
                    old(self).entries(),
                    drafted_request(
                        old(self).entries(),
                        colony_id@,
                        officer_id@,
                        officer_role,
                        draft,
                        PayloadView::Target,
                        creation_tick,
                        ticks_per_game_hour,
                    ),
                    officer_owns_source_domain,
                );
                &&& insert_result_view(r) == out.0
                &&& final(self).entries() == out.1
                &&& final(self).book_version() == if out.2 { bump(old(self).book_version()) } else { old(self).book_version() }
            }),
            final(self).book_schema() == old(self).book_schema(),
    {
        self.propose(
            actor,
            submission,
            officer_owns_source_domain,
            colony_id,
            officer_id,
            officer_role,
            draft,
            OfficerRequestPayload::Target,
            budget,
            creation_tick,
            ticks_per_game_hour,
        )
    }

    /// An officer proposes a request with a typed payload; an invalid payload
    /// is refused first.
    pub fn propose_typed(
        &mut self,
        actor: &AuthorityActor,
        submission: AuthorityDecision,
        officer_owns_source_domain: bool,
        colony_id: PlannerId,
        officer_id: PlannerId,
        officer_role: OfficerRole,
        draft: TypedOfficerRequestDraft,
        budget: RequestBudget,
        creation_tick: u64,
        ticks_per_game_hour: u64,
    ) -> (r: Result<RequestInsert, OfficerRequestError>)
        requires
            old(self).wf(),
            draft.request.evidence_ids.wf(),
            draft.request.report_ids.wf(),
        ensures
            final(self).wf(),
            !payload_valid(draft.payload) ==> r == Err::<RequestInsert, OfficerRequestError>(
                OfficerRequestError::MalformedPersistence,
            ) && final(self).entries() == old(self).entries() && final(self).book_version() == old(self).book_version(),
            payload_valid(draft.payload) ==> (propose_error(
                old(self).entries(),
                *actor,
                submission,
                officer_owns_source_domain,
                colony_id@,
                officer_id@,
                officer_role,
                draft.request,
                budget,
                creation_tick,
                ticks_per_game_hour,
            ) matches Some(x) ==> r == Err::<RequestInsert, OfficerRequestError>(x) && final(self).entries() == old(self).entries()
                && final(self).book_version() == old(self).book_version()),
            payload_valid(draft.payload) && propose_error(
                old(self).entries(),
                *actor,
                submission,
                officer_owns_source_domain,
                colony_id@,
                officer_id@,
                officer_role,
                draft.request,
                budget,
                creation_tick,
                ticks_per_game_hour,
            ) is None ==> ({
                let out = insert_outcome(
                    old(self).entries(),
                    drafted_request(
                        old(self).entries(),
                        colony_id@,
                        officer_id@,
                        officer_role,
                        draft.request,
                        payload_view(draft.payload),
                        creation_tick,
                        ticks_per_game_hour,
                    ),
                    officer_owns_source_domain,
                );
                &&& insert_result_view(r) == out.0
                &&& final(self).entries() == out.1
                &&& final(self).book_version() == if out.2 { bump(old(self).book_version()) } else { old(self).book_version() }
            }),
            final(self).book_schema() == old(self).book_schema(),
    {
        if !draft.payload.validate() {
            return Err(OfficerRequestError::MalformedPersistence);
        }
        self.propose(
            actor,
            submission,
            officer_owns_source_domain,
            colony_id,
            officer_id,
            officer_role,
            draft.request,
            draft.payload,
            budget,
            creation_tick,
            ticks_per_game_hour,
        )
    }
}


/// Request `a` depends directly on `b`.
pub open spec fn dep_edge(m: Map<Seq<char>, RequestView>, a: Seq<char>, b: Seq<char>) -> bool {
    m.contains_key(a) && m[a].dependencies.contains(b)
}

pub open spec fn path_step(m: Map<Seq<char>, RequestView>, p: Seq<Seq<char>>, i: int) -> bool {
    dep_edge(m, p[i], p[i + 1])
}

/// A chain of direct dependencies.
pub open spec fn is_dependency_path(m: Map<Seq<char>, RequestView>, p: Seq<Seq<char>>) -> bool {
    p.len() >= 1 && forall|i: int| 0 <= i < p.len() - 1 ==> #[trigger] path_step(m, p, i)
}

/// `a` reaches `b` through zero or more direct dependencies.
pub open spec fn reaches(m: Map<Seq<char>, RequestView>, a: Seq<char>, b: Seq<char>) -> bool {
    exists|p: Seq<Seq<char>>| is_dependency_path(m, p) && p[0] == a && p.last() == b
}

/// No request reaches itself through one or more dependencies.
pub open spec fn dependency_acyclic(m: Map<Seq<char>, RequestView>) -> bool {
    forall|a: Seq<char>, b: Seq<char>| #[trigger] dep_edge(m, a, b) ==> !reaches(m, b, a)
}

proof fn lemma_reaches_edge(m: Map<Seq<char>, RequestView>, x: Seq<char>, y: Seq<char>, z: Seq<char>)
    requires
        reaches(m, x, y),
        dep_edge(m, y, z),
    ensures
        reaches(m, x, z),
{
    let p = choose|p: Seq<Seq<char>>| is_dependency_path(m, p) && p[0] == x && p.last() == y;
    let q = p.push(z);
    assert forall|i: int| 0 <= i < q.len() - 1 implies #[trigger] path_step(m, q, i) by {
        if i < p.len() - 1 {
            assert(path_step(m, p, i));
        }
    }
    assert(is_dependency_path(m, q) && q[0] == x && q.last() == z);
}

/// Along a path of `m1` that starts where `d` reaches in `m0`, every node is
/// reached from `d` in `m0`, when `m1` adds only the edge `r -> d` and `d`
/// does not reach `r`.
proof fn lemma_reach_stays_old(
    m0: Map<Seq<char>, RequestView>,
    m1: Map<Seq<char>, RequestView>,
    r: Seq<char>,
    d: Seq<char>,
    q: Seq<Seq<char>>,
    k: int,
)
    requires
        m0.contains_key(r),
        m1 == m0.insert(r, RequestView { dependencies: m0[r].dependencies.insert(d), ..m0[r] }),
        !reaches(m0, d, r),
        is_dependency_path(m1, q),
        reaches(m0, d, q[0]),
        0 <= k < q.len(),
    ensures
        reaches(m0, d, q[k]),
    decreases k,
{
    if k > 0 {
        lemma_reach_stays_old(m0, m1, r, d, q, k - 1);
        assert(path_step(m1, q, k - 1));
        if q[k - 1] == r {
            assert(false);
        }
        assert(dep_edge(m0, q[k - 1], q[k]));
        lemma_reaches_edge(m0, d, q[k - 1], q[k]);
    }
}

/// Adding the edge `r -> d` where `d` does not reach `r` keeps the graph acyclic.
proof fn lemma_add_edge_acyclic(m0: Map<Seq<char>, RequestView>, m1: Map<Seq<char>, RequestView>, r: Seq<char>, d: Seq<char>)
    requires
        dependency_acyclic(m0),
        m0.contains_key(r),
        m1 == m0.insert(r, RequestView { dependencies: m0[r].dependencies.insert(d), ..m0[r] }),
        !reaches(m0, d, r),
    ensures
        dependency_acyclic(m1),
{
    assert forall|a: Seq<char>, b: Seq<char>| #[trigger] dep_edge(m1, a, b) implies !reaches(m1, b, a) by {
        if reaches(m1, b, a) {
            let p = choose|p: Seq<Seq<char>>| is_dependency_path(m1, p) && p[0] == b && p.last() == a;
            let trivial = seq![d];
            assert(is_dependency_path(m0, trivial) && trivial[0] == d && trivial.last() == d);
            if a == r && b == d {
                lemma_reach_stays_old(m0, m1, r, d, p, p.len() - 1);
            } else {
                assert(dep_edge(m0, a, b));
                if exists|j: int| 0 <= j < p.len() - 1 && p[j] == r && #[trigger] p[j + 1] == d {
                    let j = choose|j: int| 0 <= j < p.len() - 1 && p[j] == r && #[trigger] p[j + 1] == d;
                    let suffix = p.subrange(j + 1, p.len() as int);
                    assert forall|i: int| 0 <= i < suffix.len() - 1 implies #[trigger] path_step(m1, suffix, i) by {
                        assert(path_step(m1, p, j + 1 + i));
                    }
                    lemma_reach_stays_old(m0, m1, r, d, suffix, suffix.len() - 1);
                    assert(suffix.last() == a);
                    lemma_reaches_edge(m0, d, a, b);
                    lemma_reach_stays_old(m0, m1, r, d, p, j);
                } else {
                    assert forall|i: int| 0 <= i < p.len() - 1 implies #[trigger] path_step(m0, p, i) by {
                        assert(path_step(m1, p, i));
                        if p[i] == r {
                            assert(p[i + 1] != d);
                        }
                    }
                    assert(reaches(m0, b, a));
                }
            }
        }
    }
}

/// Every stored request in `r` has all its dependencies in `r`.
pub open spec fn dependency_closed(m: Map<Seq<char>, RequestView>, r: Set<Seq<char>>) -> bool {
    forall|k: Seq<char>, d: Seq<char>| r.contains(k) && #[trigger] dep_edge(m, k, d) ==> r.contains(d)
}

pub open spec fn outside_count(e: Seq<(Seq<char>, RequestView)>, r: Set<Seq<char>>) -> nat
    decreases e.len(),
{
    if e.len() == 0 {
        0
    } else {
        outside_count(e.drop_last(), r) + if r.contains(e.last().0) { 0nat } else { 1nat }
    }
}

proof fn lemma_outside_monotone(e: Seq<(Seq<char>, RequestView)>, a: Set<Seq<char>>, b: Set<Seq<char>>)
    requires
        a.subset_of(b),
    ensures
        outside_count(e, b) <= outside_count(e, a),
        outside_count(e, b) == outside_count(e, a) ==> forall|i: int| 0 <= i < e.len() && b.contains(#[trigger] e[i].0)
            ==> a.contains(e[i].0),
    decreases e.len(),
{
    if e.len() > 0 {
        lemma_outside_monotone(e.drop_last(), a, b);
        if outside_count(e, b) == outside_count(e, a) {
            assert forall|i: int| 0 <= i < e.len() && b.contains(#[trigger] e[i].0) implies a.contains(e[i].0) by {
                if i < e.len() - 1 {
                    assert(e.drop_last()[i] == e[i]);
                }
            }
        }
    }
}

proof fn lemma_path_extend(m: Map<Seq<char>, RequestView>, p: Seq<Seq<char>>, d: Seq<char>)
    requires
        is_dependency_path(m, p),
        dep_edge(m, p.last(), d),
    ensures
        is_dependency_path(m, p.push(d)),
        p.push(d)[0] == p[0],
        p.push(d).last() == d,
{
    let q = p.push(d);
    assert forall|i: int| 0 <= i < q.len() - 1 implies #[trigger] path_step(m, q, i) by {
        if i < p.len() - 1 {
            assert(path_step(m, p, i));
            assert(q[i] == p[i] && q[i + 1] == p[i + 1]);
        } else {
            assert(q[i] == p.last());
        }
    }
}

proof fn lemma_closed_blocks(m: Map<Seq<char>, RequestView>, r: Set<Seq<char>>, p: Seq<Seq<char>>)
    requires
        dependency_closed(m, r),
        is_dependency_path(m, p),
        r.contains(p[0]),
    ensures
        r.contains(p.last()),
    decreases p.len(),
{
    if p.len() > 1 {
        let q = p.drop_last();
        assert forall|i: int| 0 <= i < q.len() - 1 implies #[trigger] path_step(m, q, i) by {
            assert(path_step(m, p, i));
        }
        lemma_closed_blocks(m, r, q);
        assert(path_step(m, p, p.len() - 2));
        assert(dep_edge(m, q.last(), p.last()));
    }
}

impl OfficerRequestBook {
    /// Whether `start` reaches `target` through dependencies.
    #[verifier::rlimit(40)]
    fn reaches(&self, start: &str, target: &str) -> (r: bool)
        requires
            self.wf(),
        ensures
            r == reaches(self.request_map(), start@, target@),
    {
        let ghost m = self.request_map();
        let ghost e = self.entries();
        proof {
            self.lemma_entries_sorted();
            crate::id_map::lemma_lookup_all(e);
        }
        let mut reach: IdMap<()> = IdMap::new();
        reach.insert(String::from_str(start), ());
        proof {
            let p0 = seq![start@];
            assert(is_dependency_path(m, p0));
            assert(p0[0] == start@ && p0.last() == start@);
            assert(reaches(m, start@, start@));
            assert forall|x: Seq<char>| #[trigger] reach.map().dom().contains(x) implies reaches(m, start@, x) by {
                assert(x == start@);
            }
        }
        let mut done = false;
        while !done
            invariant
                self.wf(),
                m == self.request_map(),
                e == self.entries(),
                keys_sorted(e),
                reach.wf(),
                reach.map().dom().contains(start@),
                forall|x: Seq<char>| #[trigger] reach.map().dom().contains(x) ==> reaches(m, start@, x),
                done ==> dependency_closed(m, reach.map().dom()),
            decreases outside_count(e, reach.map().dom()) + if done { 0int } else { 1int },
        {
            let ghost before = reach.map().dom();
            let before_outside = self.count_outside(&reach);
            let n = self.requests.len();
            let mut i: usize = 0;
            while i < n
                invariant
                    self.wf(),
                    m == self.request_map(),
                    e == self.entries(),
                    n == e.len(),
                    keys_sorted(e),
                    i <= n,
                    reach.wf(),
                    before.subset_of(reach.map().dom()),
                    reach.map().dom().contains(start@),
                    forall|x: Seq<char>| #[trigger] reach.map().dom().contains(x) ==> reaches(m, start@, x),
                    forall|j: int, d: Seq<char>| #![trigger e[j].1.dependencies.contains(d)] 0 <= j < i && before.contains(e[j].0)
                        && e[j].1.dependencies.contains(d) ==> reach.map().dom().contains(d),
                decreases n - i,
            {
                let key = self.requests.key_at(i);
                assert(e[i as int].0 == key@);
                if reach.contains_key(key.as_str()) {
                    let deps = &self.requests.value_at(i).dependencies;
                    assert(e[i as int].1 == request_view(self.requests@[i as int].1));
                    let ghost r0 = reach.map().dom();
                    proof {
                        crate::id_map::lemma_lookup_at(e, i as int);
                        assert forall|d: Seq<char>| #[trigger] deps.map().dom().contains(d) implies reaches(m, start@, d) by {
                            let k = e[i as int].0;
                            assert(reaches(m, start@, k));
                            let p = choose|p: Seq<Seq<char>>| is_dependency_path(m, p) && p[0] == start@ && p.last() == k;
                            assert(dep_edge(m, k, d));
                            lemma_path_extend(m, p, d);
                        }
                    }
                    reach.absorb(deps);
                }
                i = i + 1;
            }
            let after_outside = self.count_outside(&reach);
            proof {
                lemma_outside_monotone(e, before, reach.map().dom());
            }
            if after_outside == before_outside {
                proof {
                    assert forall|k: Seq<char>, d: Seq<char>| reach.map().dom().contains(k) && #[trigger] dep_edge(m, k, d)
                        implies reach.map().dom().contains(d) by {
                        let j = choose|j: int| 0 <= j < e.len() && #[trigger] e[j].0 == k;
                        crate::id_map::lemma_lookup_at(e, j);
                        assert(before.contains(e[j].0));
                    }
                }
                done = true;
            }
        }
        let found = reach.contains_key(target);
        proof {
            if !found && reaches(m, start@, target@) {
                let p = choose|p: Seq<Seq<char>>| is_dependency_path(m, p) && p[0] == start@ && p.last() == target@;
                lemma_closed_blocks(m, reach.map().dom(), p);
            }
        }
        found
    }

    fn count_outside(&self, reach: &IdMap<()>) -> (r: usize)
        requires
            self.wf(),
            reach.wf(),
        ensures
            r == outside_count(self.entries(), reach.map().dom()),
    {
        let n = self.requests.len();
        let ghost e = self.entries();
        let mut count: usize = 0;
        let mut i: usize = 0;
        while i < n
            invariant
                n == self.requests@.len(),
                e == self.entries(),
                reach.wf(),
                i <= n,
                count == outside_count(e.take(i as int), reach.map().dom()),
                count <= i,
            decreases n - i,
        {
            assert(e.take(i + 1).drop_last() =~= e.take(i as int));
            assert(e[i as int].0 == self.requests@[i as int].0);
            if !reach.contains_key(self.requests.key_at(i).as_str()) {
                count = count + 1;
            }
            i = i + 1;
        }
        assert(e.take(n as int) =~= e);
        count
    }
}


pub open spec fn add_dependency_error(
    m: Map<Seq<char>, RequestView>,
    request_id: Seq<char>,
    dependency_id: Seq<char>,
) -> Option<OfficerRequestError> {
    if request_id == dependency_id {
        Some(OfficerRequestError::DependencyCycle)
    } else if !m.contains_key(request_id) || !m.contains_key(dependency_id) {
        Some(OfficerRequestError::MissingRequest)
    } else if reaches(m, dependency_id, request_id) {
        Some(OfficerRequestError::DependencyCycle)
    } else {
        None
    }
}

impl OfficerRequestBook {
    /// Make one request depend on another, refusing any dependency cycle.
    pub fn add_dependency(&mut self, request_id: &OfficerRequestId, dependency_id: &OfficerRequestId) -> (r: Result<
        (),
        OfficerRequestError,
    >)
        requires
            old(self).wf(),
        ensures
            final(self).wf(),
            r == unit_result(add_dependency_error(old(self).request_map(), request_id@, dependency_id@)),
            r is Err ==> final(self).entries() == old(self).entries() && final(self).book_version() == old(self).book_version(),
            r is Ok ==> final(self).entries() == replaced(
                old(self).entries(),
                request_id@,
                RequestView {
                    dependencies: old(self).request_map()[request_id@].dependencies.insert(dependency_id@),
                    ..old(self).request_map()[request_id@]
                },
            ) && final(self).book_version() == bump(old(self).book_version()),
            dependency_acyclic(old(self).request_map()) && r is Ok ==> dependency_acyclic(final(self).request_map()),
            final(self).book_schema() == old(self).book_schema(),
    {
        if text_eq(request_id.as_str(), dependency_id.as_str()) {
            return Err(OfficerRequestError::DependencyCycle);
        }
        let i = match self.locate(request_id.as_str()) {
            Some(i) => i,
            None => return Err(OfficerRequestError::MissingRequest),
        };
        if self.locate(dependency_id.as_str()).is_none() {
            return Err(OfficerRequestError::MissingRequest);
        }
        if self.reaches(dependency_id.as_str(), request_id.as_str()) {
            return Err(OfficerRequestError::DependencyCycle);
        }
        proof {
            self.lemma_index(i as int);
            self.lemma_entries_sorted();
        }
        let ghost e = self.entries();
        let ghost m0 = self.request_map();
        let ghost orig = self.requests@;
        let (key, mut request) = self.requests.take_at(i);
        assert(orig[i as int].1.id@ == orig[i as int].0);
        request.dependencies.insert(String::from_str(dependency_id.as_str()), ());
        proof {
            assert(keys_sorted(self.requests@.insert(i as int, (key@, request)))) by {
                let u = self.requests@.insert(i as int, (key@, request));
                assert(u =~= orig.update(i as int, (key@, request)));
                assert forall|a: int, b: int| 0 <= a < b < u.len() implies crate::text::text_lt(#[trigger] u[a].0, #[trigger] u[b].0) by {
                    assert(u[a].0 == orig[a].0 && u[b].0 == orig[b].0);
                }
            }
        }
        self.requests.put_at(i, (key, request));
        proof {
            assert(self.requests@ =~= orig.update(i as int, (key@, request)));
            assert forall|j: int| 0 <= j < self.requests@.len() implies {
                let x = #[trigger] self.requests@[j];
                &&& x.1.id@ == x.0
                &&& request_sets_wf(x.1)
                &&& request_consistent(request_view(x.1))
            } by {
                if j != i {
                    assert(self.requests@[j] == orig[j]);
                }
            }
            assert(e[i as int].1 == request_view(orig[i as int].1));
            assert(self.entries() =~= e.update(
                i as int,
                (request_id@, RequestView { dependencies: e[i as int].1.dependencies.insert(dependency_id@), ..e[i as int].1 }),
            ));
            let nv = RequestView { dependencies: e[i as int].1.dependencies.insert(dependency_id@), ..e[i as int].1 };
            lemma_entries_update_at(e, i as int, nv);
            assert(self.request_map() == m0.insert(request_id@, nv));
            if dependency_acyclic(m0) {
                lemma_add_edge_acyclic(m0, self.request_map(), request_id@, dependency_id@);
            }
        }
        self.version = if self.version == u64::MAX { self.version } else { self.version + 1 };
        Ok(())
    }
}


impl Default for OfficerRequestBook {
    fn default() -> (r: Self)
        ensures
            r.wf(),
            r.book_schema() == OFFICER_REQUEST_BOOK_SCHEMA_VERSION,
            r.book_version() == 0,
            r.entries().len() == 0,
    {
        OfficerRequestBook::new()
    }
}

} // verus!
