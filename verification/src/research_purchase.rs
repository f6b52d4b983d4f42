//! The research-lane leaf: the physical God queue funded in Notes or Void
//! Insight, the free Leader lane with its rolling quota, and the synthetic
//! study catalog they share.
use vstd::prelude::*;
use crate::id_map::{IdMap, entries_map, keys_sorted, lemma_entries_map_finite, lemma_lookup_all};
use crate::planner_core::{PlannerId, planner_id_text, texts_view};
use crate::research_authority::{completions_of, sat_add_i64, saturating_add_i64};
use crate::text::{text_eq, text_less, text_lt, text_le, text_is_blank, is_blank, lemma_text_lt_irreflexive, lemma_text_lt_asymmetric, lemma_text_lt_transitive, lemma_text_lt_total};

verus! {

pub const RESEARCH_PURCHASE_SCHEMA_VERSION: u32 = 1;
pub const AUTOMATIC_RESEARCH_WINDOW_GAME_MINUTES: u64 = 7 * 24 * 60;
pub const MAX_SYNTHETIC_STUDIES: usize = 2_048;
pub const MAX_PREREQUISITES_PER_STUDY: usize = 16;
pub const MAX_PURCHASE_EVENTS: usize = 512;
pub const MAX_AUTOMATIC_QUOTA_TIMESTAMPS: usize = 32;
pub const PLAYER_PREPARATION_DISCOUNT_BASIS_POINTS: u16 = 2_500;
pub const MAX_GOD_RESEARCH_QUEUE: usize = 64;
pub const PREPARATION_LABOR_BASIS_POINTS: u16 = 2_500;
pub const LEADER_DUPLICATE_OOPSIE_PERCENT_BY_EXPERTISE: [u8; 5] = [25, 12, 5, 1, 0];

/// The text of the study identifier derived from a stable manifest id.
pub open spec fn purchase_study_id_text(stable_id: Seq<char>) -> Seq<char> {
    planner_id_text("study"@, seq![stable_id])
}

/// A study of the purchase catalog, named by its derived planner identifier.
#[derive(Debug, Clone, PartialEq, Eq, PartialOrd, Ord, Hash)]
pub struct StudyId(PlannerId);

impl StudyId {
    pub closed spec fn view(&self) -> Seq<char> {
        self.0@
    }

    pub fn derive(stable_id: &str) -> (r: Self)
        ensures
            r@ == purchase_study_id_text(stable_id@),
    {
        let parts: [&str; 1] = [stable_id];
        let r = StudyId(PlannerId::derive("study", &parts));
        assert(texts_view(parts@) =~= seq![stable_id@]);
        r
    }

    pub fn as_str(&self) -> (r: &str)
        ensures
            r@ == self@,
    {
        self.0.as_str()
    }

    /// An identical copy.
    pub fn duplicate(&self) -> (r: Self)
        ensures
            r@ == self@,
            r == *self,
    {
        StudyId(self.0.duplicate())
    }

    /// Whether two identifiers name the same study.
    pub fn same(&self, other: &StudyId) -> (r: bool)
        ensures
            r == (self@ == other@),
    {
        text_eq(self.as_str(), other.as_str())
    }
}

/// The text of a purchase identifier.
pub open spec fn purchase_id_text(namespace: Seq<char>, colony_id: Seq<char>, action_id: Seq<char>) -> Seq<char> {
    planner_id_text("research_purchase"@, seq![namespace, colony_id, action_id])
}

/// A stable identifier for one research purchase or Leader completion.
#[derive(Debug, Clone, PartialEq, Eq, PartialOrd, Ord, Hash)]
pub struct ResearchPurchaseId(PlannerId);

impl ResearchPurchaseId {
    pub closed spec fn view(&self) -> Seq<char> {
        self.0@
    }

    pub fn derive(namespace: &str, colony_id: &PlannerId, action_id: &str) -> (r: Self)
        ensures
            r@ == purchase_id_text(namespace@, colony_id@, action_id@),
    {
        let parts: [&str; 3] = [namespace, colony_id.as_str(), action_id];
        let r = ResearchPurchaseId(PlannerId::derive("research_purchase", &parts));
        assert(texts_view(parts@) =~= seq![namespace@, colony_id@, action_id@]);
        r
    }

    pub fn as_str(&self) -> (r: &str)
        ensures
            r@ == self@,
    {
        self.0.as_str()
    }

    /// An identical copy.
    pub fn duplicate(&self) -> (r: Self)
        ensures
            r@ == self@,
            r == *self,
    {
        ResearchPurchaseId(self.0.duplicate())
    }
}

#[derive(Debug, Clone, Copy, PartialEq, Eq)]
pub enum ResearchPurchaseError {
    UnknownStudy,
    AlreadyOwned,
    NotFrontier,
    NoAffordableFrontier,
    AutomaticQuotaExhausted,
    StaleResearchVersion,
    PurchaseIdConflict,
    MalformedCatalog,
    MalformedPersistence,
    MalformedRequest,
    MissingGodTerms,
    MalformedGodTerms,
    InsufficientGodFunds,
    GodQueueCapacityExceeded,
    GodQueueEmpty,
    GodQueueTargetNotFound,
    GodQueuePrerequisiteOrder,
    GodQueueFrozenFront,
    GodFrontNotFunded,
    GodResearchInfrastructureUnavailable,
    LeaderDuplicateForbidden,
    LeaderResearchAlreadyCommitted,
    FiniteResearchRemaining,
    Overflow,
}

/// `v` held within the range of `i64`.
pub open spec fn clamp_i64(v: int) -> int {
    if v > i64::MAX {
        i64::MAX as int
    } else if v < i64::MIN {
        i64::MIN as int
    } else {
        v
    }
}

/// The report-derived inputs behind an automatic study choice.
#[derive(Debug, Clone, Copy, Default, PartialEq, Eq)]
pub struct AutomaticStudyScoreInputs {
    pub belief_basis_points: i64,
    pub posture_basis_points: i64,
    pub personality_basis_points: i64,
    pub dependency_basis_points: i64,
    pub expected_value_basis_points: i64,
}

impl AutomaticStudyScoreInputs {
    /// The exact sum of the five inputs, held within the range of `i64`.
    pub fn total_score(self) -> (r: i64)
        ensures
            r == clamp_i64(
                self.belief_basis_points + self.posture_basis_points + self.personality_basis_points
                    + self.dependency_basis_points + self.expected_value_basis_points,
            ),
    {
        let total: i128 = self.belief_basis_points as i128 + self.posture_basis_points as i128
            + self.personality_basis_points as i128 + self.dependency_basis_points as i128
            + self.expected_value_basis_points as i128;
        if total > i64::MAX as i128 {
            i64::MAX
        } else if total < i64::MIN as i128 {
            i64::MIN
        } else {
            total as i64
        }
    }
}

/// The scores a Leader decision weighs.
#[derive(Debug, Clone, Copy, Default, PartialEq, Eq)]
pub struct LeaderResearchDecisionInputs {
    pub report_score: i64,
    pub need_score: i64,
    pub intelligence_score: i64,
    pub personality_score: i64,
    pub research_skill_score: i64,
}

/// The decision inputs summed left to right, each step saturating.
pub open spec fn decision_total(d: LeaderResearchDecisionInputs) -> int {
    sat_add_i64(
        sat_add_i64(
            sat_add_i64(sat_add_i64(sat_add_i64(0, d.report_score as int), d.need_score as int), d.intelligence_score as int),
            d.personality_score as int,
        ),
        d.research_skill_score as int,
    )
}

impl LeaderResearchDecisionInputs {
    pub fn total_score(self) -> (r: i64)
        ensures
            r == decision_total(self),
    {
        let a = saturating_add_i64(0, self.report_score);
        let b = saturating_add_i64(a, self.need_score);
        let c = saturating_add_i64(b, self.intelligence_score);
        let d = saturating_add_i64(c, self.personality_score);
        saturating_add_i64(d, self.research_skill_score)
    }
}

/// The last game minute at which a commitment made at `tick` still counts.
pub open spec fn in_quota_window(tick: u64, now_tick: u64) -> bool {
    (if tick + AUTOMATIC_RESEARCH_WINDOW_GAME_MINUTES > u64::MAX {
        u64::MAX as int
    } else {
        tick + AUTOMATIC_RESEARCH_WINDOW_GAME_MINUTES
    }) > now_tick
}

/// How many of `ticks` still count at `now_tick`.
pub open spec fn ticks_in_window(ticks: Seq<u64>, now_tick: u64) -> nat
    decreases ticks.len(),
{
    if ticks.len() == 0 {
        0
    } else {
        ticks_in_window(ticks.drop_last(), now_tick) + if in_quota_window(ticks.last(), now_tick) {
            1nat
        } else {
            0nat
        }
    }
}

proof fn lemma_ticks_in_window_bound(ticks: Seq<u64>, now_tick: u64)
    ensures
        ticks_in_window(ticks, now_tick) <= ticks.len(),
    decreases ticks.len(),
{
    if ticks.len() > 0 {
        lemma_ticks_in_window_bound(ticks.drop_last(), now_tick);
    }
}

fn count_in_window(ticks: &Vec<u64>, now_tick: u64) -> (r: usize)
    ensures
        r == ticks_in_window(ticks@, now_tick),
{
    let mut count: usize = 0;
    let mut i: usize = 0;
    while i < ticks.len()
        invariant
            i <= ticks@.len(),
            count == ticks_in_window(ticks@.subrange(0, i as int), now_tick),
            count <= i,
        decreases ticks@.len() - i,
    {
        proof {
            assert(ticks@.subrange(0, i + 1).drop_last() =~= ticks@.subrange(0, i as int));
        }
        if ticks[i].saturating_add(AUTOMATIC_RESEARCH_WINDOW_GAME_MINUTES) > now_tick {
            count = count + 1;
        }
        i = i + 1;
    }
    proof {
        assert(ticks@.subrange(0, ticks@.len() as int) =~= ticks@);
    }
    count
}

/// Whether `ticks` is in nondecreasing order.
pub open spec fn ticks_sorted(ticks: Seq<u64>) -> bool {
    forall|i: int, j: int| 0 <= i < j < ticks.len() ==> ticks[i] <= ticks[j]
}

fn ticks_are_sorted(ticks: &Vec<u64>) -> (r: bool)
    ensures
        r == ticks_sorted(ticks@),
{
    let mut i: usize = 1;
    while i < ticks.len()
        invariant
            1 <= i,
            forall|a: int, b: int| 0 <= a < b < i && b < ticks@.len() ==> ticks@[a] <= ticks@[b],
        decreases ticks@.len() - i,
    {
        if ticks[i - 1] > ticks[i] {
            return false;
        }
        proof {
            assert forall|a: int, b: int| 0 <= a < b < i + 1 && b < ticks@.len() implies ticks@[a] <= ticks@[b] by {
                if b == i as int && a < b - 1 {
                    assert(ticks@[a] <= ticks@[b - 1]);
                }
            }
        }
        i = i + 1;
    }
    true
}

/// The automatic lane's committed timestamps.
#[derive(Debug, Clone, PartialEq, Eq)]
pub struct AutomaticResearchQuotaState {
    pub schema_version: u32,
    pub committed_ticks: Vec<u64>,
    pub legacy_not_before_tick: Option<u64>,
}

/// The quota record is one the lane could have written.
pub open spec fn quota_rules(schema_version: u32, ticks: Seq<u64>) -> bool {
    &&& schema_version == RESEARCH_PURCHASE_SCHEMA_VERSION
    &&& ticks.len() <= MAX_AUTOMATIC_QUOTA_TIMESTAMPS
    &&& ticks_sorted(ticks)
}

impl AutomaticResearchQuotaState {
    pub fn new() -> (r: Self)
        ensures
            r.schema_version == RESEARCH_PURCHASE_SCHEMA_VERSION,
            r.committed_ticks@.len() == 0,
            r.legacy_not_before_tick is None,
    {
        AutomaticResearchQuotaState {
            schema_version: RESEARCH_PURCHASE_SCHEMA_VERSION,
            committed_ticks: Vec::new(),
            legacy_not_before_tick: None,
        }
    }

    /// How many commitments still count against the quota at `now_tick`.
    pub fn used_in_window(&self, now_tick: u64) -> (r: usize)
        ensures
            r == ticks_in_window(self.committed_ticks@, now_tick),
    {
        count_in_window(&self.committed_ticks, now_tick)
    }

    pub fn validate(&self) -> (r: Result<(), ResearchPurchaseError>)
        ensures
            r is Ok <==> quota_rules(self.schema_version, self.committed_ticks@),
            r is Err ==> r == Err::<(), ResearchPurchaseError>(ResearchPurchaseError::MalformedPersistence),
    {
        if self.schema_version != RESEARCH_PURCHASE_SCHEMA_VERSION || self.committed_ticks.len()
            > MAX_AUTOMATIC_QUOTA_TIMESTAMPS || !ticks_are_sorted(&self.committed_ticks) {
            return Err(ResearchPurchaseError::MalformedPersistence);
        }
        Ok(())
    }
}

/// Whether a Leader may take a study the God queue holds, and on what ground.
#[derive(Debug, Clone, Copy, PartialEq, Eq, Structural)]
pub enum LeaderDuplicateAuthorization {
    Absent,
    Emergency { report_indicates_urgent_need: bool, needed_before_tick: u64, estimated_god_completion_tick: u64 },
    Oopsie { effective_expertise_intelligence_level: u8, keyed_roll_percent: u8 },
}

/// The oopsie chance, in percent, at an expertise-intelligence level.
pub open spec fn oopsie_percent_at(level: u8) -> u8 {
    if level <= 4 {
        LEADER_DUPLICATE_OOPSIE_PERCENT_BY_EXPERTISE[level as int]
    } else {
        0
    }
}

/// Why, if at all, an authorization cannot stand for a target that is or is
/// not a God-queue duplicate.
pub open spec fn duplicate_refused(a: LeaderDuplicateAuthorization, duplicate_target: bool) -> bool {
    match a {
        LeaderDuplicateAuthorization::Absent => duplicate_target,
        LeaderDuplicateAuthorization::Emergency {
            report_indicates_urgent_need,
            needed_before_tick,
            estimated_god_completion_tick,
        } => !duplicate_target || !report_indicates_urgent_need || needed_before_tick >= estimated_god_completion_tick,
        LeaderDuplicateAuthorization::Oopsie { effective_expertise_intelligence_level, keyed_roll_percent } => !duplicate_target
            || keyed_roll_percent >= oopsie_percent_at(effective_expertise_intelligence_level),
    }
}

impl LeaderDuplicateAuthorization {
    pub fn oopsie_percent(effective_expertise_intelligence_level: u8) -> (r: u8)
        ensures
            r == oopsie_percent_at(effective_expertise_intelligence_level),
    {
        if effective_expertise_intelligence_level <= 4 {
            LEADER_DUPLICATE_OOPSIE_PERCENT_BY_EXPERTISE[effective_expertise_intelligence_level as usize]
        } else {
            0
        }
    }

    pub fn permits_duplicate(self) -> (r: bool)
        ensures
            r == !(self is Absent),
    {
        !matches!(self, LeaderDuplicateAuthorization::Absent)
    }

    fn validate(self, duplicate_target: bool) -> (r: Result<(), ResearchPurchaseError>)
        ensures
            r is Ok <==> !duplicate_refused(self, duplicate_target),
            r is Err ==> r == Err::<(), ResearchPurchaseError>(ResearchPurchaseError::LeaderDuplicateForbidden),
    {
        let refused = match self {
            LeaderDuplicateAuthorization::Absent => duplicate_target,
            LeaderDuplicateAuthorization::Emergency {
                report_indicates_urgent_need,
                needed_before_tick,
                estimated_god_completion_tick,
            } => !duplicate_target || !report_indicates_urgent_need || needed_before_tick >= estimated_god_completion_tick,
            LeaderDuplicateAuthorization::Oopsie { effective_expertise_intelligence_level, keyed_roll_percent } => !duplicate_target
                || keyed_roll_percent >= Self::oopsie_percent(effective_expertise_intelligence_level),
        };
        if refused {
            Err(ResearchPurchaseError::LeaderDuplicateForbidden)
        } else {
            Ok(())
        }
    }
}

/// How a Leader completion is recorded.
#[derive(Debug, Clone, Copy, Default, PartialEq, Eq, Structural)]
pub enum LeaderResearchEventKind {
    #[default]
    StandardUnlock,
    IntentionalEmergencyOverride,
    AccidentalDuplicateOopsie,
}

/// The authorization's kind alone, as it is persisted.
#[derive(Debug, Clone, Copy, PartialEq, Eq, Structural)]
pub enum LeaderDuplicateAuthorizationWire {
    Absent,
    Emergency,
    Oopsie,
}

/// The event kind an authorization records.
pub open spec fn event_kind_of(a: LeaderDuplicateAuthorization) -> LeaderResearchEventKind {
    match a {
        LeaderDuplicateAuthorization::Absent => LeaderResearchEventKind::StandardUnlock,
        LeaderDuplicateAuthorization::Emergency { .. } => LeaderResearchEventKind::IntentionalEmergencyOverride,
        LeaderDuplicateAuthorization::Oopsie { .. } => LeaderResearchEventKind::AccidentalDuplicateOopsie,
    }
}

/// The persisted kind of an authorization.
pub open spec fn wire_of(a: LeaderDuplicateAuthorization) -> LeaderDuplicateAuthorizationWire {
    match a {
        LeaderDuplicateAuthorization::Absent => LeaderDuplicateAuthorizationWire::Absent,
        LeaderDuplicateAuthorization::Emergency { .. } => LeaderDuplicateAuthorizationWire::Emergency,
        LeaderDuplicateAuthorization::Oopsie { .. } => LeaderDuplicateAuthorizationWire::Oopsie,
    }
}

impl From<LeaderDuplicateAuthorization> for LeaderResearchEventKind {
    fn from(value: LeaderDuplicateAuthorization) -> (r: Self) {
        match value {
            LeaderDuplicateAuthorization::Absent => LeaderResearchEventKind::StandardUnlock,
            LeaderDuplicateAuthorization::Emergency { .. } => LeaderResearchEventKind::IntentionalEmergencyOverride,
            LeaderDuplicateAuthorization::Oopsie { .. } => LeaderResearchEventKind::AccidentalDuplicateOopsie,
        }
    }
}

impl vstd::std_specs::convert::FromSpecImpl<LeaderDuplicateAuthorization> for LeaderResearchEventKind {
    open spec fn obeys_from_spec() -> bool {
        true
    }

    open spec fn from_spec(v: LeaderDuplicateAuthorization) -> Self {
        event_kind_of(v)
    }
}

impl From<LeaderDuplicateAuthorization> for LeaderDuplicateAuthorizationWire {
    fn from(value: LeaderDuplicateAuthorization) -> (r: Self) {
        match value {
            LeaderDuplicateAuthorization::Absent => LeaderDuplicateAuthorizationWire::Absent,
            LeaderDuplicateAuthorization::Emergency { .. } => LeaderDuplicateAuthorizationWire::Emergency,
            LeaderDuplicateAuthorization::Oopsie { .. } => LeaderDuplicateAuthorizationWire::Oopsie,
        }
    }
}

impl vstd::std_specs::convert::FromSpecImpl<LeaderDuplicateAuthorization> for LeaderDuplicateAuthorizationWire {
    open spec fn obeys_from_spec() -> bool {
        true
    }

    open spec fn from_spec(v: LeaderDuplicateAuthorization) -> Self {
        wire_of(v)
    }
}

/// The two currencies the God lane accepts: Notes fund ordinary studies and
/// Void Insight funds Hole-axis studies.
#[derive(Debug, Clone, Copy, PartialEq, Eq, Structural)]
pub enum GodResearchCurrency {
    Notes,
    VoidInsight,
}

/// The balances God research may draw on.
#[derive(Debug, Clone, Copy, Default, PartialEq, Eq)]
pub struct ResearchFunds {
    pub notes: u64,
    pub void_insight: u64,
}

/// The balance of `funds` held in `currency`.
pub open spec fn balance_in(funds: ResearchFunds, currency: GodResearchCurrency) -> u64 {
    match currency {
        GodResearchCurrency::Notes => funds.notes,
        GodResearchCurrency::VoidInsight => funds.void_insight,
    }
}

/// `funds` with the balance in `currency` set to `value`.
pub open spec fn with_balance(funds: ResearchFunds, currency: GodResearchCurrency, value: u64) -> ResearchFunds {
    match currency {
        GodResearchCurrency::Notes => ResearchFunds { notes: value, ..funds },
        GodResearchCurrency::VoidInsight => ResearchFunds { void_insight: value, ..funds },
    }
}

impl ResearchFunds {
    fn debit(&mut self, currency: GodResearchCurrency, amount: u64) -> (r: Result<(), ResearchPurchaseError>)
        ensures
            r is Ok <==> amount <= balance_in(*old(self), currency),
            r is Ok ==> *final(self) == with_balance(*old(self), currency, (balance_in(*old(self), currency) - amount) as u64),
            r is Err ==> *final(self) == *old(self) && r == Err::<(), ResearchPurchaseError>(
                ResearchPurchaseError::InsufficientGodFunds,
            ),
    {
        match currency {
            GodResearchCurrency::Notes => {
                if self.notes < amount {
                    return Err(ResearchPurchaseError::InsufficientGodFunds);
                }
                self.notes = self.notes - amount;
            },
            GodResearchCurrency::VoidInsight => {
                if self.void_insight < amount {
                    return Err(ResearchPurchaseError::InsufficientGodFunds);
                }
                self.void_insight = self.void_insight - amount;
            },
        }
        Ok(())
    }

    fn credit(&mut self, currency: GodResearchCurrency, amount: u64) -> (r: Result<(), ResearchPurchaseError>)
        ensures
            r is Ok <==> balance_in(*old(self), currency) + amount <= u64::MAX,
            r is Ok ==> *final(self) == with_balance(*old(self), currency, (balance_in(*old(self), currency) + amount) as u64),
            r is Err ==> *final(self) == *old(self) && r == Err::<(), ResearchPurchaseError>(ResearchPurchaseError::Overflow),
    {
        match currency {
            GodResearchCurrency::Notes => {
                if self.notes > u64::MAX - amount {
                    return Err(ResearchPurchaseError::Overflow);
                }
                self.notes = self.notes + amount;
            },
            GodResearchCurrency::VoidInsight => {
                if self.void_insight > u64::MAX - amount {
                    return Err(ResearchPurchaseError::Overflow);
                }
                self.void_insight = self.void_insight + amount;
            },
        }
        Ok(())
    }
}

/// One study's God price and duration.
#[derive(Debug, Clone, Copy, PartialEq, Eq)]
pub struct GodResearchStudyTerms {
    pub currency: GodResearchCurrency,
    pub price: u64,
    pub duration_game_minutes: u64,
}

/// A quarter of `duration`, rounded up, with the scaled duration held within `u64`.
pub open spec fn preparation_minutes_for(duration: u64) -> int {
    let scaled = if duration * PREPARATION_LABOR_BASIS_POINTS > u64::MAX {
        u64::MAX as int
    } else {
        duration * PREPARATION_LABOR_BASIS_POINTS
    };
    (scaled + 9_999) / 10_000
}

impl GodResearchStudyTerms {
    pub fn validate(self) -> (r: Result<(), ResearchPurchaseError>)
        ensures
            r is Ok <==> self.price != 0 && self.duration_game_minutes != 0,
            r is Err ==> r == Err::<(), ResearchPurchaseError>(ResearchPurchaseError::MalformedGodTerms),
    {
        if self.price == 0 || self.duration_game_minutes == 0 {
            return Err(ResearchPurchaseError::MalformedGodTerms);
        }
        Ok(())
    }

    pub fn preparation_labor_minutes(self) -> (r: u64)
        ensures
            r == preparation_minutes_for(self.duration_game_minutes),
    {
        let wide: u128 = self.duration_game_minutes as u128 * PREPARATION_LABOR_BASIS_POINTS as u128;
        let scaled: u64 = if wide > u64::MAX as u128 {
            u64::MAX
        } else {
            wide as u64
        };
        let q: u64 = scaled / 10_000;
        if scaled % 10_000 == 0 {
            q
        } else {
            q + 1
        }
    }
}

/// The God price and duration of every study the queue may hold.
#[derive(Debug)]
pub struct GodResearchTerms {
    pub by_study: IdMap<GodResearchStudyTerms>,
}

impl GodResearchTerms {
    pub fn get(&self, study_id: &StudyId) -> (r: Result<GodResearchStudyTerms, ResearchPurchaseError>)
        requires
            self.by_study.wf(),
        ensures
            !self.by_study.map().contains_key(study_id@) ==> r == Err::<GodResearchStudyTerms, ResearchPurchaseError>(
                ResearchPurchaseError::MissingGodTerms,
            ),
            self.by_study.map().contains_key(study_id@) ==> {
                let t = self.by_study.map()[study_id@];
                if t.price == 0 || t.duration_game_minutes == 0 {
                    r == Err::<GodResearchStudyTerms, ResearchPurchaseError>(ResearchPurchaseError::MalformedGodTerms)
                } else {
                    r == Ok::<GodResearchStudyTerms, ResearchPurchaseError>(t)
                }
            },
    {
        match self.by_study.get(study_id.as_str()) {
            None => Err(ResearchPurchaseError::MissingGodTerms),
            Some(terms) => {
                let terms = *terms;
                terms.validate()?;
                Ok(terms)
            },
        }
    }
}

/// Whether the physical infrastructure lets God research advance.
#[derive(Debug, Clone, Copy, PartialEq, Eq)]
pub struct GodResearchWorkAuthorization {
    pub completed_research_station: bool,
    pub staffed_scholar_alive: bool,
}

impl GodResearchWorkAuthorization {
    fn permits_work(self) -> (r: bool)
        ensures
            r == (self.completed_research_station && self.staffed_scholar_alive),
    {
        self.completed_research_station && self.staffed_scholar_alive
    }
}

#[derive(Debug, Clone, Copy, PartialEq, Eq, Structural)]
pub enum GodResearchFundOutcome {
    Funded,
    AlreadyFunded,
}

#[derive(Debug, Clone, PartialEq, Eq)]
pub enum GodResearchLaborOutcome {
    NoWork,
    Advanced { remaining_labor_minutes: u64 },
    Completed(StudyId),
}

/// What removing a God target took with it.
#[derive(Debug, Clone, PartialEq, Eq)]
pub struct GodResearchRemoval {
    pub removed_studies: Vec<StudyId>,
    pub refunded: Vec<(GodResearchCurrency, u64)>,
    pub lost_labor_minutes: u64,
}

/// `2^e`.
pub open spec fn doubling(e: nat) -> nat
    decreases e,
{
    if e == 0 {
        1
    } else {
        2 * doubling((e - 1) as nat)
    }
}

/// The price of a repeatable terminal study doubles with every completion.
fn doubled_repeat_price(base_terminal_price: u64, prior_completions: u32) -> (r: Result<u64, ResearchPurchaseError>)
    ensures
        prior_completions < 64 && base_terminal_price * doubling(prior_completions as nat) <= u64::MAX ==> r
            == Ok::<u64, ResearchPurchaseError>((base_terminal_price * doubling(prior_completions as nat)) as u64),
        !(prior_completions < 64 && base_terminal_price * doubling(prior_completions as nat) <= u64::MAX) ==> r
            == Err::<u64, ResearchPurchaseError>(ResearchPurchaseError::Overflow),
{
    if prior_completions >= 64 {
        return Err(ResearchPurchaseError::Overflow);
    }
    let mut multiplier: u64 = 1;
    let mut i: u32 = 0;
    proof {
        assert(doubling(0) == 1);
        lemma_doubling_top();
    }
    while i < prior_completions
        invariant
            i <= prior_completions < 64,
            multiplier == doubling(i as nat),
            multiplier as int * doubling((63 - i) as nat) == doubling(63),
            doubling(63) == 0x8000_0000_0000_0000,
        decreases prior_completions - i,
    {
        proof {
            assert(doubling((63 - i) as nat) == 2 * doubling((63 - i - 1) as nat));
            assert(multiplier as int * 2 * doubling((63 - i - 1) as nat) == doubling(63)) by (nonlinear_arith)
                requires
                    multiplier as int * doubling((63 - i) as nat) == doubling(63),
                    doubling((63 - i) as nat) == 2 * doubling((63 - i - 1) as nat),
            ;
            lemma_doubling_positive((63 - i - 1) as nat);
            assert(multiplier as int * 2 <= doubling(63)) by (nonlinear_arith)
                requires
                    multiplier as int * 2 * doubling((63 - i - 1) as nat) == doubling(63),
                    doubling((63 - i - 1) as nat) >= 1,
                    multiplier >= 0,
            ;
        }
        multiplier = multiplier * 2;
        i = i + 1;
    }
    proof {
        let (x, y) = (base_terminal_price as int, multiplier as int);
        assert(x * y <= u64::MAX as int * u64::MAX as int) by (nonlinear_arith)
            requires
                0 <= x <= u64::MAX,
                0 <= y <= u64::MAX,
        ;
        assert(u64::MAX as int * u64::MAX as int <= u128::MAX);
    }
    let wide: u128 = base_terminal_price as u128 * multiplier as u128;
    if wide > u64::MAX as u128 {
        return Err(ResearchPurchaseError::Overflow);
    }
    Ok(wide as u64)
}

proof fn lemma_doubling_top()
    ensures
        doubling(63) == 0x8000_0000_0000_0000,
{
    reveal_with_fuel(doubling, 64);
}

proof fn lemma_doubling_positive(e: nat)
    ensures
        doubling(e) >= 1,
    decreases e,
{
    if e > 0 {
        lemma_doubling_positive((e - 1) as nat);
    }
}


/// One study in the God queue, with the terms it was queued at.
#[derive(Debug, Clone, PartialEq, Eq)]
pub struct GodResearchQueueEntry {
    pub study_id: StudyId,
    pub currency: GodResearchCurrency,
    pub frozen_price: u64,
    pub frozen_duration_game_minutes: u64,
    pub completed_labor_minutes: u64,
    pub frozen: bool,
}

/// The labor an entry still needs.
pub open spec fn remaining_of(e: GodResearchQueueEntry) -> int {
    if e.completed_labor_minutes >= e.frozen_duration_game_minutes {
        0
    } else {
        e.frozen_duration_game_minutes - e.completed_labor_minutes
    }
}

impl GodResearchQueueEntry {
    pub fn remaining_labor_minutes(&self) -> (r: u64)
        ensures
            r == remaining_of(*self),
    {
        self.frozen_duration_game_minutes.saturating_sub(self.completed_labor_minutes)
    }

    /// An identical copy.
    pub fn duplicate(&self) -> (r: Self)
        ensures
            r == *self,
    {
        GodResearchQueueEntry {
            study_id: self.study_id.duplicate(),
            currency: self.currency,
            frozen_price: self.frozen_price,
            frozen_duration_game_minutes: self.frozen_duration_game_minutes,
            completed_labor_minutes: self.completed_labor_minutes,
            frozen: self.frozen,
        }
    }
}

/// The physical God queue, front first.
#[derive(Debug, Clone, PartialEq, Eq)]
pub struct GodResearchQueueState {
    pub schema_version: u32,
    pub entries: Vec<GodResearchQueueEntry>,
}

/// The study identifiers of a queue, in order.
pub open spec fn god_queue_ids(q: Seq<GodResearchQueueEntry>) -> Seq<Seq<char>> {
    q.map_values(|e: GodResearchQueueEntry| e.study_id@)
}

/// No study appears twice in the queue.
pub open spec fn god_ids_distinct(q: Seq<GodResearchQueueEntry>) -> bool {
    forall|i: int, j: int| 0 <= i < j < q.len() ==> (#[trigger] q[i]).study_id@ != (#[trigger] q[j]).study_id@
}

/// The queue is one the God lane could have written.
pub open spec fn god_queue_rules(schema_version: u32, q: Seq<GodResearchQueueEntry>) -> bool {
    &&& schema_version == RESEARCH_PURCHASE_SCHEMA_VERSION
    &&& q.len() <= MAX_GOD_RESEARCH_QUEUE
    &&& god_ids_distinct(q)
    &&& forall|i: int| 0 <= i < q.len() && (#[trigger] q[i]).frozen ==> i == 0
    &&& forall|i: int|
        0 <= i < q.len() ==> {
            &&& (#[trigger] q[i]).frozen_price != 0
            &&& q[i].frozen_duration_game_minutes != 0
            &&& q[i].completed_labor_minutes <= q[i].frozen_duration_game_minutes
        }
}

/// `i` is the first position of study `id` in the queue.
pub open spec fn first_at(q: Seq<GodResearchQueueEntry>, id: Seq<char>, i: int) -> bool {
    &&& 0 <= i < q.len()
    &&& q[i].study_id@ == id
    &&& forall|j: int| 0 <= j < i ==> (#[trigger] q[j]).study_id@ != id
}

/// The study is not queued.
pub open spec fn absent_from(q: Seq<GodResearchQueueEntry>, id: Seq<char>) -> bool {
    forall|j: int| 0 <= j < q.len() ==> (#[trigger] q[j]).study_id@ != id
}

/// The remaining labor of the first `k` entries, summed and held within `u64`.
pub open spec fn wait_total(q: Seq<GodResearchQueueEntry>, k: int) -> int
    decreases k,
{
    if k <= 0 {
        0
    } else {
        let t = wait_total(q, k - 1) + remaining_of(q[k - 1]);
        if t > u64::MAX {
            u64::MAX as int
        } else {
            t
        }
    }
}

/// What `price` costs at `discount` basis points off, rounded up.
pub open spec fn discounted_charge(price: u64, discount: u16) -> int {
    if discount == 0 {
        price as int
    } else {
        (price * 7_500 + 9_999) / 10_000
    }
}

/// Which error, if any, refuses to fund the front at this discount.
pub open spec fn fund_error(q: Seq<GodResearchQueueEntry>, funds: ResearchFunds, discount: u16) -> Option<ResearchPurchaseError> {
    if q.len() == 0 {
        Some(ResearchPurchaseError::GodQueueEmpty)
    } else if q[0].frozen {
        None
    } else if !(discount == 0 || discount == PLAYER_PREPARATION_DISCOUNT_BASIS_POINTS) || (discount != 0
        && q[0].currency != GodResearchCurrency::Notes) {
        Some(ResearchPurchaseError::MalformedRequest)
    } else if balance_in(funds, q[0].currency) < discounted_charge(q[0].frozen_price, discount) {
        Some(ResearchPurchaseError::InsufficientGodFunds)
    } else {
        None
    }
}

/// What funding the front at `discount` does to the queue and the funds.
pub open spec fn funded(
    q0: Seq<GodResearchQueueEntry>,
    f0: ResearchFunds,
    discount: u16,
    q1: Seq<GodResearchQueueEntry>,
    f1: ResearchFunds,
    r: Result<GodResearchFundOutcome, ResearchPurchaseError>,
) -> bool {
    match fund_error(q0, f0, discount) {
        Some(e) => r == Err::<GodResearchFundOutcome, ResearchPurchaseError>(e) && q1 == q0 && f1 == f0,
        None => if q0[0].frozen {
            r == Ok::<GodResearchFundOutcome, ResearchPurchaseError>(GodResearchFundOutcome::AlreadyFunded) && q1 == q0 && f1 == f0
        } else {
            let front = q0[0];
            let charged = discounted_charge(front.frozen_price, discount);
            &&& r == Ok::<GodResearchFundOutcome, ResearchPurchaseError>(GodResearchFundOutcome::Funded)
            &&& f1 == with_balance(f0, front.currency, (balance_in(f0, front.currency) - charged) as u64)
            &&& q1 == q0.update(0, GodResearchQueueEntry { frozen_price: charged as u64, frozen: true, ..front })
        },
    }
}

impl GodResearchQueueState {
    pub fn new() -> (r: Self)
        ensures
            r.schema_version == RESEARCH_PURCHASE_SCHEMA_VERSION,
            r.entries@.len() == 0,
    {
        GodResearchQueueState { schema_version: RESEARCH_PURCHASE_SCHEMA_VERSION, entries: Vec::new() }
    }

    pub fn entries(&self) -> (r: &[GodResearchQueueEntry])
        ensures
            r@ == self.entries@,
    {
        self.entries.as_slice()
    }

    fn position(&self, study_id: &StudyId) -> (r: Option<usize>)
        ensures
            match r {
                Some(i) => first_at(self.entries@, study_id@, i as int),
                None => absent_from(self.entries@, study_id@),
            },
    {
        let mut i: usize = 0;
        while i < self.entries.len()
            invariant
                i <= self.entries@.len(),
                forall|j: int| 0 <= j < i ==> (#[trigger] self.entries@[j]).study_id@ != study_id@,
            decreases self.entries@.len() - i,
        {
            if self.entries[i].study_id.same(study_id) {
                return Some(i);
            }
            i = i + 1;
        }
        None
    }

    /// The queued entry for a study, if it is queued.
    pub fn entry(&self, study_id: &StudyId) -> (r: Option<&GodResearchQueueEntry>)
        ensures
            match r {
                Some(e) => exists|i: int| first_at(self.entries@, study_id@, i) && *e == self.entries@[i],
                None => absent_from(self.entries@, study_id@),
            },
    {
        match self.position(study_id) {
            Some(i) => Some(&self.entries[i]),
            None => None,
        }
    }

    pub fn validate(&self) -> (r: Result<(), ResearchPurchaseError>)
        ensures
            r is Ok <==> god_queue_rules(self.schema_version, self.entries@),
            r is Err ==> r == Err::<(), ResearchPurchaseError>(ResearchPurchaseError::MalformedPersistence),
    {
        if self.schema_version != RESEARCH_PURCHASE_SCHEMA_VERSION || self.entries.len() > MAX_GOD_RESEARCH_QUEUE {
            return Err(ResearchPurchaseError::MalformedPersistence);
        }
        let n = self.entries.len();
        let mut i: usize = 0;
        while i < n
            invariant
                n == self.entries@.len(),
                i <= n,
                forall|a: int, b: int|
                    0 <= a < b < n && a < i ==> (#[trigger] self.entries@[a]).study_id@ != (#[trigger] self.entries@[b]).study_id@,
                forall|a: int| 0 <= a < i && (#[trigger] self.entries@[a]).frozen ==> a == 0,
                forall|a: int|
                    0 <= a < i ==> {
                        &&& (#[trigger] self.entries@[a]).frozen_price != 0
                        &&& self.entries@[a].frozen_duration_game_minutes != 0
                        &&& self.entries@[a].completed_labor_minutes <= self.entries@[a].frozen_duration_game_minutes
                    },
            decreases n - i,
        {
            let e = &self.entries[i];
            if (e.frozen && i != 0) || e.frozen_price == 0 || e.frozen_duration_game_minutes == 0
                || e.completed_labor_minutes > e.frozen_duration_game_minutes {
                return Err(ResearchPurchaseError::MalformedPersistence);
            }
            let mut j: usize = i + 1;
            while j < n
                invariant
                    n == self.entries@.len(),
                    i < n,
                    i + 1 <= j <= n,
                    forall|b: int| i < b < j ==> self.entries@[i as int].study_id@ != (#[trigger] self.entries@[b]).study_id@,
                decreases n - j,
            {
                if self.entries[i].study_id.same(&self.entries[j].study_id) {
                    return Err(ResearchPurchaseError::MalformedPersistence);
                }
                j = j + 1;
            }
            i = i + 1;
        }
        Ok(())
    }

    /// The labor, front first, before `study_id` completes.
    fn estimated_wait_minutes(&self, study_id: &StudyId) -> (r: Option<u64>)
        ensures
            match r {
                Some(w) => exists|i: int| first_at(self.entries@, study_id@, i) && w == wait_total(self.entries@, i + 1),
                None => absent_from(self.entries@, study_id@),
            },
    {
        let index = match self.position(study_id) {
            Some(i) => i,
            None => return None,
        };
        let mut total: u64 = 0;
        let mut k: usize = 0;
        while k <= index
            invariant
                index < self.entries.len(),
                k <= index + 1,
                total == wait_total(self.entries@, k as int),
            decreases index + 1 - k,
        {
            total = total.saturating_add(self.entries[k].remaining_labor_minutes());
            k = k + 1;
        }
        Some(total)
    }

    /// Freeze the front's price, charged at the discount, once.
    fn fund_front(&mut self, funds: &mut ResearchFunds, discount_basis_points: u16) -> (r: Result<
        GodResearchFundOutcome,
        ResearchPurchaseError,
    >)
        ensures
            final(self).schema_version == old(self).schema_version,
            funded(old(self).entries@, *old(funds), discount_basis_points, final(self).entries@, *final(funds), r),
    {
        if self.entries.len() == 0 {
            return Err(ResearchPurchaseError::GodQueueEmpty);
        }
        if self.entries[0].frozen {
            return Ok(GodResearchFundOutcome::AlreadyFunded);
        }
        if !(discount_basis_points == 0 || discount_basis_points == PLAYER_PREPARATION_DISCOUNT_BASIS_POINTS) || (
        discount_basis_points != 0 && self.entries[0].currency != GodResearchCurrency::Notes) {
            return Err(ResearchPurchaseError::MalformedRequest);
        }
        let price = self.entries[0].frozen_price;
        let charged: u64 = if discount_basis_points == 0 {
            price
        } else {
            let wide: u128 = price as u128 * 7_500 + 9_999;
            (wide / 10_000) as u64
        };
        let currency = self.entries[0].currency;
        match funds.debit(currency, charged) {
            Ok(()) => {},
            Err(e) => return Err(e),
        }
        let mut front = self.entries.remove(0);
        front.frozen_price = charged;
        front.frozen = true;
        self.entries.insert(0, front);
        proof {
            assert(self.entries@ =~= old(self).entries@.update(
                0,
                GodResearchQueueEntry { frozen_price: charged, frozen: true, ..old(self).entries@[0] },
            ));
        }
        Ok(GodResearchFundOutcome::Funded)
    }
}


/// The front's completed labor after `labor` more minutes, capped at its duration.
pub open spec fn labor_after(front: GodResearchQueueEntry, labor: u64) -> int {
    let sum = if front.completed_labor_minutes + labor > u64::MAX {
        u64::MAX as int
    } else {
        front.completed_labor_minutes + labor
    };
    if sum > front.frozen_duration_game_minutes {
        front.frozen_duration_game_minutes as int
    } else {
        sum
    }
}

/// What crediting `labor` minutes to the front reports.
pub open spec fn labor_outcome(q0: Seq<GodResearchQueueEntry>, labor: u64) -> Result<GodResearchLaborOutcome, ResearchPurchaseError> {
    if labor == 0 {
        Ok(GodResearchLaborOutcome::NoWork)
    } else if q0.len() == 0 {
        Err(ResearchPurchaseError::GodQueueEmpty)
    } else if !q0[0].frozen {
        Err(ResearchPurchaseError::GodFrontNotFunded)
    } else {
        let front = q0[0];
        let done = labor_after(front, labor);
        if done < front.frozen_duration_game_minutes {
            Ok(GodResearchLaborOutcome::Advanced { remaining_labor_minutes: (front.frozen_duration_game_minutes - done) as u64 })
        } else {
            Ok(GodResearchLaborOutcome::Completed(front.study_id))
        }
    }
}

/// The queue after crediting `labor` minutes to the front.
pub open spec fn labor_queue(q0: Seq<GodResearchQueueEntry>, labor: u64) -> Seq<GodResearchQueueEntry> {
    if labor == 0 || q0.len() == 0 || !q0[0].frozen {
        q0
    } else {
        let front = q0[0];
        let done = labor_after(front, labor);
        if done < front.frozen_duration_game_minutes {
            q0.update(0, GodResearchQueueEntry { completed_labor_minutes: done as u64, ..front })
        } else {
            q0.drop_first()
        }
    }
}

/// What crediting `labor` minutes to the front does to the queue.
pub open spec fn labored(
    q0: Seq<GodResearchQueueEntry>,
    labor: u64,
    q1: Seq<GodResearchQueueEntry>,
    r: Result<GodResearchLaborOutcome, ResearchPurchaseError>,
) -> bool {
    r == labor_outcome(q0, labor) && q1 == labor_queue(q0, labor)
}

impl GodResearchQueueState {
    /// Credit staffed labor to the funded front; a finished front leaves the queue.
    fn record_front_labor(&mut self, labor: u64) -> (r: Result<GodResearchLaborOutcome, ResearchPurchaseError>)
        ensures
            final(self).schema_version == old(self).schema_version,
            labored(old(self).entries@, labor, final(self).entries@, r),
    {
        if labor == 0 {
            return Ok(GodResearchLaborOutcome::NoWork);
        }
        if self.entries.len() == 0 {
            return Err(ResearchPurchaseError::GodQueueEmpty);
        }
        if !self.entries[0].frozen {
            return Err(ResearchPurchaseError::GodFrontNotFunded);
        }
        let mut front = self.entries.remove(0);
        let sum = front.completed_labor_minutes.saturating_add(labor);
        front.completed_labor_minutes = if sum > front.frozen_duration_game_minutes {
            front.frozen_duration_game_minutes
        } else {
            sum
        };
        if front.completed_labor_minutes < front.frozen_duration_game_minutes {
            let remaining = front.remaining_labor_minutes();
            self.entries.insert(0, front);
            proof {
                assert(self.entries@ =~= old(self).entries@.update(
                    0,
                    GodResearchQueueEntry { completed_labor_minutes: self.entries@[0].completed_labor_minutes, ..old(self).entries@[0] },
                ));
            }
            return Ok(GodResearchLaborOutcome::Advanced { remaining_labor_minutes: remaining });
        }
        proof {
            assert(self.entries@ =~= old(self).entries@.drop_first());
        }
        Ok(GodResearchLaborOutcome::Completed(front.study_id))
    }
}

/// One Leader completion as the lane records it.
#[derive(Debug, Clone, PartialEq, Eq)]
pub struct LeaderResearchEvent {
    pub id: ResearchPurchaseId,
    pub study_id: StudyId,
    pub committed_tick: u64,
    pub effective_loremaster_level: u8,
    pub duplicate_authorization: LeaderDuplicateAuthorizationWire,
    pub event_kind: LeaderResearchEventKind,
}

/// A request to complete a study on the free Leader lane.
#[derive(Debug, Clone, PartialEq, Eq)]
pub struct LeaderResearchRequest {
    pub id: ResearchPurchaseId,
    pub study_id: StudyId,
    pub expected_research_version: u64,
    pub effective_loremaster_level: u8,
    pub now_tick: u64,
    pub duplicate_authorization: LeaderDuplicateAuthorization,
}

/// A study the Leader may pick, with the scores behind the choice.
#[derive(Debug, Clone, PartialEq, Eq)]
pub struct LeaderResearchCandidate {
    pub study_id: StudyId,
    pub decision_inputs: LeaderResearchDecisionInputs,
    pub repeatable: bool,
}

/// What a Leader completion did, and what it took from the God queue.
#[derive(Debug, Clone, PartialEq, Eq)]
pub struct LeaderResearchCompletion {
    pub study_id: StudyId,
    pub duplicate_authorization: LeaderDuplicateAuthorization,
    pub event_kind: LeaderResearchEventKind,
    pub overtake: Option<GodResearchRemoval>,
}

/// The free Leader lane: its rolling quota and its recorded completions.
#[derive(Debug)]
pub struct LeaderResearchLaneState {
    pub schema_version: u32,
    pub committed_ticks: Vec<u64>,
    pub events: IdMap<LeaderResearchEvent>,
}

/// How many Leader completions a rolling week allows at a loremaster level.
pub open spec fn lane_quota(level: u8) -> usize {
    if level <= 1 {
        1
    } else if level <= 3 {
        2
    } else if level == 4 {
        3
    } else {
        4
    }
}

/// The lane record is one the lane could have written.
pub open spec fn lane_rules(l: LeaderResearchLaneState) -> bool {
    &&& l.schema_version == RESEARCH_PURCHASE_SCHEMA_VERSION
    &&& l.committed_ticks@.len() <= MAX_AUTOMATIC_QUOTA_TIMESTAMPS
    &&& l.events@.len() <= MAX_PURCHASE_EVENTS
    &&& ticks_sorted(l.committed_ticks@)
    &&& forall|i: int| 0 <= i < l.events@.len() ==> (#[trigger] l.events@[i]).1.id@ == l.events@[i].0
}

/// The event a request records.
pub open spec fn event_for(request: LeaderResearchRequest) -> LeaderResearchEvent {
    LeaderResearchEvent {
        id: request.id,
        study_id: request.study_id,
        committed_tick: request.now_tick,
        effective_loremaster_level: request.effective_loremaster_level,
        duplicate_authorization: wire_of(request.duplicate_authorization),
        event_kind: event_kind_of(request.duplicate_authorization),
    }
}

/// The ticks still counting at `now_tick`, in order.
pub open spec fn window_filter(ticks: Seq<u64>, now_tick: u64) -> Seq<u64>
    decreases ticks.len(),
{
    if ticks.len() == 0 {
        ticks
    } else {
        let kept = window_filter(ticks.drop_last(), now_tick);
        if in_quota_window(ticks.last(), now_tick) {
            kept.push(ticks.last())
        } else {
            kept
        }
    }
}

/// Which error, if any, refuses to record the request.
pub open spec fn lane_record_error(l: LeaderResearchLaneState, request: LeaderResearchRequest) -> Option<ResearchPurchaseError> {
    if l.events.map().contains_key(request.id@) {
        let e = l.events.map()[request.id@];
        if e.study_id@ == request.study_id@ && e.committed_tick == request.now_tick && e.effective_loremaster_level
            == request.effective_loremaster_level {
            Some(ResearchPurchaseError::LeaderResearchAlreadyCommitted)
        } else {
            Some(ResearchPurchaseError::PurchaseIdConflict)
        }
    } else if ticks_in_window(l.committed_ticks@, request.now_tick) >= lane_quota(request.effective_loremaster_level) {
        Some(ResearchPurchaseError::AutomaticQuotaExhausted)
    } else {
        None
    }
}

proof fn lemma_filter_bounded(ticks: Seq<u64>, now_tick: u64, bound: u64)
    requires
        forall|i: int| 0 <= i < ticks.len() ==> ticks[i] <= bound,
    ensures
        forall|k: int| 0 <= k < window_filter(ticks, now_tick).len() ==> window_filter(ticks, now_tick)[k] <= bound,
        window_filter(ticks, now_tick).len() <= ticks.len(),
    decreases ticks.len(),
{
    if ticks.len() > 0 {
        lemma_filter_bounded(ticks.drop_last(), now_tick, bound);
    }
}

proof fn lemma_filter_sorted(ticks: Seq<u64>, now_tick: u64)
    requires
        ticks_sorted(ticks),
    ensures
        ticks_sorted(window_filter(ticks, now_tick)),
        window_filter(ticks, now_tick).len() <= ticks.len(),
    decreases ticks.len(),
{
    if ticks.len() > 0 {
        let front = ticks.drop_last();
        assert(ticks_sorted(front));
        lemma_filter_sorted(front, now_tick);
        lemma_filter_bounded(front, now_tick, ticks.last());
    }
}

/// Keep the ticks that still count at `now_tick`, in order.
fn retain_in_window(ticks: &Vec<u64>, now_tick: u64) -> (r: Vec<u64>)
    ensures
        r@ == window_filter(ticks@, now_tick),
{
    let mut kept: Vec<u64> = Vec::new();
    let mut i: usize = 0;
    while i < ticks.len()
        invariant
            i <= ticks@.len(),
            kept@ == window_filter(ticks@.subrange(0, i as int), now_tick),
        decreases ticks@.len() - i,
    {
        proof {
            assert(ticks@.subrange(0, i + 1).drop_last() =~= ticks@.subrange(0, i as int));
        }
        if ticks[i].saturating_add(AUTOMATIC_RESEARCH_WINDOW_GAME_MINUTES) > now_tick {
            kept.push(ticks[i]);
        }
        i = i + 1;
    }
    proof {
        assert(ticks@.subrange(0, ticks@.len() as int) =~= ticks@);
    }
    kept
}

/// Insert `t` into the sorted `ticks`, keeping them sorted.
fn insert_sorted(ticks: &mut Vec<u64>, t: u64)
    requires
        ticks_sorted(old(ticks)@),
    ensures
        ticks_sorted(final(ticks)@),
        exists|p: int| 0 <= p <= old(ticks)@.len() && final(ticks)@ == old(ticks)@.insert(p, t),
{
    let mut p: usize = 0;
    while p < ticks.len() && ticks[p] <= t
        invariant
            p <= ticks@.len(),
            ticks@ == old(ticks)@,
            forall|k: int| 0 <= k < p ==> ticks@[k] <= t,
        decreases ticks@.len() - p,
    {
        p = p + 1;
    }
    let ghost before = ticks@;
    ticks.insert(p, t);
    proof {
        assert forall|i: int, j: int| 0 <= i < j < ticks@.len() implies ticks@[i] <= ticks@[j] by {
            if j < p {
            } else if j == p {
            } else if i < p {
                assert(before[i] <= t);
                assert(t < before[p as int] || p as int == before.len());
                assert(before[p as int] <= before[j - 1]);
            } else if i == p {
                assert(t < before[p as int]);
                assert(before[p as int] <= before[j - 1]);
            } else {
            }
        }
    }
}

impl LeaderResearchLaneState {
    pub fn new() -> (r: Self)
        ensures
            r.schema_version == RESEARCH_PURCHASE_SCHEMA_VERSION,
            r.committed_ticks@.len() == 0,
            r.events.wf(),
            r.events@.len() == 0,
    {
        LeaderResearchLaneState { schema_version: RESEARCH_PURCHASE_SCHEMA_VERSION, committed_ticks: Vec::new(), events: IdMap::new() }
    }

    pub fn quota_limit(effective_loremaster_level: u8) -> (r: usize)
        ensures
            r == lane_quota(effective_loremaster_level),
    {
        if effective_loremaster_level <= 1 {
            1
        } else if effective_loremaster_level <= 3 {
            2
        } else if effective_loremaster_level == 4 {
            3
        } else {
            4
        }
    }

    pub fn used_in_window(&self, now_tick: u64) -> (r: usize)
        ensures
            r == ticks_in_window(self.committed_ticks@, now_tick),
    {
        count_in_window(&self.committed_ticks, now_tick)
    }

    pub fn validate(&self) -> (r: Result<(), ResearchPurchaseError>)
        ensures
            r is Ok <==> lane_rules(*self),
            r is Err ==> r == Err::<(), ResearchPurchaseError>(ResearchPurchaseError::MalformedPersistence),
    {
        if self.schema_version != RESEARCH_PURCHASE_SCHEMA_VERSION || self.committed_ticks.len()
            > MAX_AUTOMATIC_QUOTA_TIMESTAMPS || self.events.len() > MAX_PURCHASE_EVENTS || !ticks_are_sorted(
            &self.committed_ticks,
        ) {
            return Err(ResearchPurchaseError::MalformedPersistence);
        }
        let mut i: usize = 0;
        while i < self.events.len()
            invariant
                i <= self.events@.len(),
                forall|k: int| 0 <= k < i ==> (#[trigger] self.events@[k]).1.id@ == self.events@[k].0,
            decreases self.events@.len() - i,
        {
            if !text_eq(self.events.key_at(i).as_str(), self.events.value_at(i).id.as_str()) {
                return Err(ResearchPurchaseError::MalformedPersistence);
            }
            i = i + 1;
        }
        Ok(())
    }
}


impl LeaderResearchLaneState {
    /// Record a Leader completion against the rolling quota.
    fn record(&mut self, request: &LeaderResearchRequest) -> (r: Result<(), ResearchPurchaseError>)
        requires
            old(self).events.wf(),
            ticks_sorted(old(self).committed_ticks@),
        ensures
            final(self).events.wf(),
            final(self).schema_version == old(self).schema_version,
            match lane_record_error(*old(self), *request) {
                Some(e) => r == Err::<(), ResearchPurchaseError>(e) && final(self).events@ == old(self).events@
                    && final(self).committed_ticks@ == old(self).committed_ticks@,
                None => {
                    &&& r is Ok
                    &&& final(self).events.map() == old(self).events.map().insert(request.id@, event_for(*request))
                    &&& ticks_sorted(final(self).committed_ticks@)
                    &&& exists|p: int|
                        0 <= p <= window_filter(old(self).committed_ticks@, request.now_tick).len()
                            && final(self).committed_ticks@ == window_filter(old(self).committed_ticks@, request.now_tick).insert(
                            p,
                            request.now_tick,
                        )
                },
            },
    {
        match self.events.get(request.id.as_str()) {
            Some(event) => {
                if event.study_id.same(&request.study_id) && event.committed_tick == request.now_tick
                    && event.effective_loremaster_level == request.effective_loremaster_level {
                    return Err(ResearchPurchaseError::LeaderResearchAlreadyCommitted);
                }
                return Err(ResearchPurchaseError::PurchaseIdConflict);
            },
            None => {},
        }
        let limit = Self::quota_limit(request.effective_loremaster_level);
        if self.used_in_window(request.now_tick) >= limit {
            return Err(ResearchPurchaseError::AutomaticQuotaExhausted);
        }
        let mut kept = retain_in_window(&self.committed_ticks, request.now_tick);
        proof {
            lemma_filter_sorted(old(self).committed_ticks@, request.now_tick);
        }
        insert_sorted(&mut kept, request.now_tick);
        self.committed_ticks = kept;
        let event = LeaderResearchEvent {
            id: request.id.duplicate(),
            study_id: request.study_id.duplicate(),
            committed_tick: request.now_tick,
            effective_loremaster_level: request.effective_loremaster_level,
            duplicate_authorization: LeaderDuplicateAuthorizationWire::from(request.duplicate_authorization),
            event_kind: LeaderResearchEventKind::from(request.duplicate_authorization),
        };
        self.events.insert(String::from_str(request.id.as_str()), event);
        Ok(())
    }
}


/// A Favor amount in millionths of a Favor, as the purchase catalog prices studies.
#[derive(Debug, Clone, Copy, Default, PartialEq, Eq, PartialOrd, Ord, Hash, Structural)]
pub struct Favor(pub u64);

impl Favor {
    pub fn from_micro_favor(micro: u64) -> (r: Self)
        ensures
            r.0 == micro,
    {
        Favor(micro)
    }

    pub fn micro_favor(self) -> (r: u64)
        ensures
            r == self.0,
    {
        self.0
    }
}

/// One study of the purchase catalog.
#[derive(Debug)]
pub struct SyntheticStudyDescriptor {
    pub id: StudyId,
    pub display_name: String,
    pub prerequisites: Vec<StudyId>,
    pub undiscounted_price: Favor,
    pub tags: IdMap<()>,
}

/// The identifiers of a list of studies.
pub open spec fn purchase_ids(s: Seq<StudyId>) -> Seq<Seq<char>> {
    s.map_values(|x: StudyId| x@)
}

/// A descriptor is well formed: named, priced, with at most the allowed
/// prerequisites, in strictly increasing order and not naming itself.
pub open spec fn descriptor_ok(d: SyntheticStudyDescriptor) -> bool {
    let p = purchase_ids(d.prerequisites@);
    &&& !is_blank(d.display_name@)
    &&& d.undiscounted_price.0 != 0
    &&& p.len() <= MAX_PREREQUISITES_PER_STUDY
    &&& !p.contains(d.id@)
    &&& forall|i: int| 0 <= i < p.len() - 1 ==> text_lt(#[trigger] p[i], p[i + 1])
}

impl SyntheticStudyDescriptor {
    fn validate(&self) -> (r: Result<(), ResearchPurchaseError>)
        ensures
            r is Ok <==> descriptor_ok(*self),
            r is Err ==> r == Err::<(), ResearchPurchaseError>(ResearchPurchaseError::MalformedCatalog),
    {
        let ghost p = purchase_ids(self.prerequisites@);
        if text_is_blank(self.display_name.as_str()) || self.undiscounted_price.0 == 0 || self.prerequisites.len()
            > MAX_PREREQUISITES_PER_STUDY {
            return Err(ResearchPurchaseError::MalformedCatalog);
        }
        let n = self.prerequisites.len();
        let mut i: usize = 0;
        while i < n
            invariant
                n == self.prerequisites@.len(),
                p == purchase_ids(self.prerequisites@),
                i <= n,
                forall|k: int| 0 <= k < i ==> p[k] != self.id@,
                forall|k: int| 0 <= k < i && k + 1 < n ==> text_lt(#[trigger] p[k], p[k + 1]),
            decreases n - i,
        {
            if self.prerequisites[i].same(&self.id) {
                proof {
                    assert(p[i as int] == self.id@);
                    assert(p.contains(self.id@));
                }
                return Err(ResearchPurchaseError::MalformedCatalog);
            }
            if i + 1 < n && !text_less(self.prerequisites[i].as_str(), self.prerequisites[i + 1].as_str()) {
                proof {
                    assert(p[i as int] == self.prerequisites@[i as int]@);
                    assert(p[i + 1] == self.prerequisites@[i + 1]@);
                    assert(!text_lt(p[i as int], p[i as int + 1]));
                }
                return Err(ResearchPurchaseError::MalformedCatalog);
            }
            i = i + 1;
        }
        proof {
            assert forall|k: int| 0 <= k < p.len() implies p[k] != self.id@ by {}
        }
        Ok(())
    }
}

/// The study catalog the purchase lanes share.
#[derive(Debug)]
pub struct SyntheticResearchCatalog {
    pub schema_version: u32,
    pub studies: Vec<SyntheticStudyDescriptor>,
    pub repeatable_studies: IdMap<()>,
}

/// The catalog's study identifiers, in catalog order.
pub open spec fn catalog_ids(studies: Seq<SyntheticStudyDescriptor>) -> Seq<Seq<char>> {
    studies.map_values(|d: SyntheticStudyDescriptor| d.id@)
}

/// `i` is the first catalog position of study `id`.
pub open spec fn catalog_first_at(studies: Seq<SyntheticStudyDescriptor>, id: Seq<char>, i: int) -> bool {
    &&& 0 <= i < studies.len()
    &&& studies[i].id@ == id
    &&& forall|j: int| 0 <= j < i ==> (#[trigger] studies[j]).id@ != id
}

/// The catalog lists no study named `id`.
pub open spec fn catalog_lacks(studies: Seq<SyntheticStudyDescriptor>, id: Seq<char>) -> bool {
    forall|j: int| 0 <= j < studies.len() ==> (#[trigger] studies[j]).id@ != id
}

impl SyntheticResearchCatalog {
    pub fn new(studies: Vec<SyntheticStudyDescriptor>) -> (r: Self)
        ensures
            r.schema_version == RESEARCH_PURCHASE_SCHEMA_VERSION,
            r.studies@ == studies@,
            r.repeatable_studies.wf(),
            r.repeatable_studies@.len() == 0,
    {
        SyntheticResearchCatalog { schema_version: RESEARCH_PURCHASE_SCHEMA_VERSION, studies, repeatable_studies: IdMap::new() }
    }

    pub fn with_repeatable_studies(self, repeatable_studies: IdMap<()>) -> (r: Self)
        ensures
            r.schema_version == self.schema_version,
            r.studies@ == self.studies@,
            r.repeatable_studies == repeatable_studies,
    {
        SyntheticResearchCatalog { repeatable_studies, ..self }
    }

    fn position(&self, study_id: &StudyId) -> (r: Option<usize>)
        ensures
            match r {
                Some(i) => catalog_first_at(self.studies@, study_id@, i as int),
                None => catalog_lacks(self.studies@, study_id@),
            },
    {
        self.position_text(study_id.as_str())
    }

    fn position_text(&self, id: &str) -> (r: Option<usize>)
        ensures
            match r {
                Some(i) => catalog_first_at(self.studies@, id@, i as int),
                None => catalog_lacks(self.studies@, id@),
            },
    {
        let mut i: usize = 0;
        while i < self.studies.len()
            invariant
                i <= self.studies@.len(),
                forall|j: int| 0 <= j < i ==> (#[trigger] self.studies@[j]).id@ != id@,
            decreases self.studies@.len() - i,
        {
            if text_eq(self.studies[i].id.as_str(), id) {
                return Some(i);
            }
            i = i + 1;
        }
        None
    }

    /// The first catalog descriptor of a study, if the catalog lists it.
    pub fn study(&self, study_id: &StudyId) -> (r: Option<&SyntheticStudyDescriptor>)
        ensures
            match r {
                Some(d) => exists|i: int| catalog_first_at(self.studies@, study_id@, i) && *d == self.studies@[i],
                None => catalog_lacks(self.studies@, study_id@),
            },
    {
        match self.position(study_id) {
            Some(i) => Some(&self.studies[i]),
            None => None,
        }
    }

    pub fn is_repeatable(&self, study_id: &StudyId) -> (r: bool)
        requires
            self.repeatable_studies.wf(),
        ensures
            r == self.repeatable_studies.map().contains_key(study_id@),
    {
        self.repeatable_studies.contains_key(study_id.as_str())
    }
}


/// The catalog lists a study named `id`.
pub open spec fn catalog_has(studies: Seq<SyntheticStudyDescriptor>, id: Seq<char>) -> bool {
    exists|j: int| 0 <= j < studies.len() && (#[trigger] studies[j]).id@ == id
}

/// The prerequisite identifiers of catalog study `i`.
pub open spec fn prereqs_of(studies: Seq<SyntheticStudyDescriptor>, i: int) -> Seq<Seq<char>> {
    purchase_ids(studies[i].prerequisites@)
}

/// Every prerequisite of study `i` is in `done`.
pub open spec fn prereqs_within(studies: Seq<SyntheticStudyDescriptor>, i: int, done: Set<Seq<char>>) -> bool {
    forall|q: int| 0 <= q < prereqs_of(studies, i).len() ==> done.contains(#[trigger] prereqs_of(studies, i)[q])
}

/// The studies reachable in `k` rounds of completing every study whose
/// prerequisites are already complete.
pub open spec fn settled(studies: Seq<SyntheticStudyDescriptor>, k: nat) -> Set<Seq<char>>
    decreases k,
{
    if k == 0 {
        Set::empty()
    } else {
        let prev = settled(studies, (k - 1) as nat);
        prev.union(
            Set::new(
                |x: Seq<char>| exists|j: int| 0 <= j < studies.len() && (#[trigger] studies[j]).id@ == x && prereqs_within(studies, j, prev),
            ),
        )
    }
}

/// The prerequisite graph has no cycle: every study completes within as many
/// rounds as there are studies.
pub open spec fn catalog_acyclic(studies: Seq<SyntheticStudyDescriptor>) -> bool {
    forall|i: int| 0 <= i < studies.len() ==> settled(studies, studies.len()).contains(#[trigger] studies[i].id@)
}

/// The catalog is well formed.
pub open spec fn catalog_rules(c: SyntheticResearchCatalog) -> bool {
    let st = c.studies@;
    &&& c.schema_version == RESEARCH_PURCHASE_SCHEMA_VERSION
    &&& 1 <= st.len() <= MAX_SYNTHETIC_STUDIES
    &&& forall|i: int| 0 <= i < st.len() ==> descriptor_ok(#[trigger] st[i])
    &&& forall|i: int, j: int| 0 <= i < j < st.len() ==> (#[trigger] st[i]).id@ != (#[trigger] st[j]).id@
    &&& forall|i: int, j: int| 0 <= i < j < st.len() ==> (#[trigger] st[i]).display_name@ != (#[trigger] st[j]).display_name@
    &&& forall|k: Seq<char>| #[trigger] c.repeatable_studies.map().contains_key(k) ==> catalog_has(st, k)
    &&& forall|i: int, q: int|
        0 <= i < st.len() && 0 <= q < prereqs_of(st, i).len() ==> catalog_has(st, #[trigger] prereqs_of(st, i)[q])
    &&& catalog_acyclic(st)
}

proof fn lemma_settled_ids(studies: Seq<SyntheticStudyDescriptor>, k: nat)
    ensures
        forall|x: Seq<char>| #[trigger] settled(studies, k).contains(x) ==> catalog_has(studies, x),
    decreases k,
{
    if k > 0 {
        let prev = settled(studies, (k - 1) as nat);
        lemma_settled_ids(studies, (k - 1) as nat);
        assert forall|x: Seq<char>| #[trigger] settled(studies, k).contains(x) implies catalog_has(studies, x) by {
            if !prev.contains(x) {
                let j = choose|j: int| 0 <= j < studies.len() && (#[trigger] studies[j]).id@ == x && prereqs_within(studies, j, prev);
                assert(studies[j].id@ == x);
            }
        }
    }
}

proof fn lemma_settled_grows(studies: Seq<SyntheticStudyDescriptor>, k: nat, m: nat)
    requires
        k <= m,
    ensures
        settled(studies, k).subset_of(settled(studies, m)),
    decreases m,
{
    if k < m {
        lemma_settled_grows(studies, k, (m - 1) as nat);
    }
}

proof fn lemma_settled_stays(studies: Seq<SyntheticStudyDescriptor>, k: nat, m: nat)
    requires
        k <= m,
        settled(studies, k + 1) == settled(studies, k),
    ensures
        settled(studies, m) == settled(studies, k),
    decreases m,
{
    if k < m {
        lemma_settled_stays(studies, k, (m - 1) as nat);
        assert(settled(studies, m) == settled(studies, k + 1));
    }
}

/// With distinct identifiers, study `i` joins in round `k + 1` exactly when it
/// was already in or all its prerequisites were.
proof fn lemma_settled_step(studies: Seq<SyntheticStudyDescriptor>, k: nat, i: int)
    requires
        0 <= i < studies.len(),
        forall|a: int, b: int| 0 <= a < b < studies.len() ==> (#[trigger] studies[a]).id@ != (#[trigger] studies[b]).id@,
    ensures
        settled(studies, k + 1).contains(studies[i].id@) == (settled(studies, k).contains(studies[i].id@) || prereqs_within(
            studies,
            i,
            settled(studies, k),
        )),
{
    let prev = settled(studies, k);
    assert(settled(studies, k + 1) == prev.union(
        Set::new(|x: Seq<char>| exists|j: int| 0 <= j < studies.len() && (#[trigger] studies[j]).id@ == x && prereqs_within(studies, j, prev)),
    ));
    if settled(studies, k + 1).contains(studies[i].id@) && !prev.contains(studies[i].id@) {
        let j = choose|j: int| 0 <= j < studies.len() && (#[trigger] studies[j]).id@ == studies[i].id@ && prereqs_within(studies, j, prev);
        if j != i {
            if j < i {
                assert(studies[j].id@ != studies[i].id@);
            } else {
                assert(studies[i].id@ != studies[j].id@);
            }
        }
    }
}


impl SyntheticResearchCatalog {
    /// The catalog position of every prerequisite of every study, when each
    /// prerequisite is listed.
    fn prerequisite_positions(&self) -> (r: Option<Vec<Vec<usize>>>)
        ensures
            r is Some <==> forall|i: int, q: int|
                0 <= i < self.studies@.len() && 0 <= q < prereqs_of(self.studies@, i).len() ==> catalog_has(
                    self.studies@,
                    #[trigger] prereqs_of(self.studies@, i)[q],
                ),
            r matches Some(idx) ==> idx@.len() == self.studies@.len() && forall|i: int|
                0 <= i < self.studies@.len() ==> (#[trigger] idx@[i])@.len() == prereqs_of(self.studies@, i).len()
                    && forall|q: int|
                    0 <= q < idx@[i]@.len() ==> catalog_first_at(
                        self.studies@,
                        prereqs_of(self.studies@, i)[q],
                        #[trigger] idx@[i]@[q] as int,
                    ),
    {
        let ghost st = self.studies@;
        let n = self.studies.len();
        let mut all: Vec<Vec<usize>> = Vec::new();
        let mut i: usize = 0;
        while i < n
            invariant
                n == st.len(),
                st == self.studies@,
                i <= n,
                all@.len() == i,
                forall|a: int, q: int| 0 <= a < i && 0 <= q < prereqs_of(st, a).len() ==> catalog_has(st, #[trigger] prereqs_of(st, a)[q]),
                forall|a: int|
                    0 <= a < i ==> (#[trigger] all@[a])@.len() == prereqs_of(st, a).len() && forall|q: int|
                        0 <= q < all@[a]@.len() ==> catalog_first_at(st, prereqs_of(st, a)[q], #[trigger] all@[a]@[q] as int),
            decreases n - i,
        {
            let d = &self.studies[i];
            let m = d.prerequisites.len();
            let mut row: Vec<usize> = Vec::new();
            let mut q: usize = 0;
            while q < m
                invariant
                    n == st.len(),
                    st == self.studies@,
                    i < n,
                    *d == st[i as int],
                    m == prereqs_of(st, i as int).len(),
                    q <= m,
                    row@.len() == q,
                    forall|b: int| 0 <= b < q ==> catalog_first_at(st, prereqs_of(st, i as int)[b], #[trigger] row@[b] as int),
                decreases m - q,
            {
                proof {
                    assert(prereqs_of(st, i as int)[q as int] == d.prerequisites@[q as int]@);
                }
                match self.position(&d.prerequisites[q]) {
                    Some(j) => row.push(j),
                    None => {
                        proof {
                            assert(!catalog_has(st, prereqs_of(st, i as int)[q as int]));
                        }
                        return None;
                    },
                }
                q = q + 1;
            }
            proof {
                assert forall|b: int| 0 <= b < prereqs_of(st, i as int).len() implies catalog_has(st, #[trigger] prereqs_of(st, i as int)[b]) by {
                    assert(st[row@[b] as int].id@ == prereqs_of(st, i as int)[b]);
                }
            }
            all.push(row);
            i = i + 1;
        }
        Some(all)
    }

    /// Whether every study completes within as many rounds as there are studies.
    fn prerequisites_acyclic(&self, idx: &Vec<Vec<usize>>) -> (r: bool)
        requires
            forall|a: int, b: int|
                0 <= a < b < self.studies@.len() ==> (#[trigger] self.studies@[a]).id@ != (#[trigger] self.studies@[b]).id@,
            idx@.len() == self.studies@.len(),
            forall|i: int|
                0 <= i < self.studies@.len() ==> (#[trigger] idx@[i])@.len() == prereqs_of(self.studies@, i).len() && forall|q: int|
                    0 <= q < idx@[i]@.len() ==> catalog_first_at(self.studies@, prereqs_of(self.studies@, i)[q], #[trigger] idx@[i]@[q] as int),
        ensures
            r == catalog_acyclic(self.studies@),
    {
        let ghost st = self.studies@;
        let n = self.studies.len();
        let mut marks: Vec<bool> = Vec::new();
        let mut i: usize = 0;
        while i < n
            invariant
                i <= n,
                marks@.len() == i,
                forall|a: int| 0 <= a < i ==> !marks@[a],
            decreases n - i,
        {
            marks.push(false);
            i = i + 1;
        }
        let mut round: usize = 0;
        let mut changed = true;
        while round < n && changed
            invariant
                n == st.len(),
                st == self.studies@,
                idx@.len() == n,
                forall|a: int, b: int| 0 <= a < b < n ==> (#[trigger] st[a]).id@ != (#[trigger] st[b]).id@,
                forall|a: int|
                    0 <= a < n ==> (#[trigger] idx@[a])@.len() == prereqs_of(st, a).len() && forall|q: int|
                        0 <= q < idx@[a]@.len() ==> catalog_first_at(st, prereqs_of(st, a)[q], #[trigger] idx@[a]@[q] as int),
                round <= n,
                marks@.len() == n,
                forall|a: int| 0 <= a < n ==> marks@[a] == settled(st, round as nat).contains(#[trigger] st[a].id@),
                !changed ==> round >= 1 && settled(st, round as nat) == settled(st, (round - 1) as nat),
            decreases n - round,
        {
            let mut next: Vec<bool> = Vec::new();
            let mut any = false;
            let mut a: usize = 0;
            while a < n
                invariant
                    n == st.len(),
                    st == self.studies@,
                    idx@.len() == n,
                    forall|x: int, y: int| 0 <= x < y < n ==> (#[trigger] st[x]).id@ != (#[trigger] st[y]).id@,
                    forall|x: int|
                        0 <= x < n ==> (#[trigger] idx@[x])@.len() == prereqs_of(st, x).len() && forall|q: int|
                            0 <= q < idx@[x]@.len() ==> catalog_first_at(st, prereqs_of(st, x)[q], #[trigger] idx@[x]@[q] as int),
                    marks@.len() == n,
                    forall|x: int| 0 <= x < n ==> marks@[x] == settled(st, round as nat).contains(#[trigger] st[x].id@),
                    a <= n,
                    next@.len() == a,
                    forall|x: int| 0 <= x < a ==> next@[x] == settled(st, (round + 1) as nat).contains(#[trigger] st[x].id@),
                    any == exists|x: int| 0 <= x < a && next@[x] != marks@[x],
                decreases n - a,
            {
                let row = &idx[a];
                let mut ready = true;
                let mut q: usize = 0;
                while q < row.len()
                    invariant
                        n == st.len(),
                        a < n,
                        *row == idx@[a as int],
                        row@.len() == prereqs_of(st, a as int).len(),
                        forall|b: int| 0 <= b < row@.len() ==> catalog_first_at(st, prereqs_of(st, a as int)[b], #[trigger] row@[b] as int),
                        marks@.len() == n,
                        forall|x: int| 0 <= x < n ==> marks@[x] == settled(st, round as nat).contains(#[trigger] st[x].id@),
                        q <= row@.len(),
                        ready == forall|b: int| 0 <= b < q ==> settled(st, round as nat).contains(#[trigger] prereqs_of(st, a as int)[b]),
                    decreases row@.len() - q,
                {
                    let j = row[q];
                    proof {
                        assert(catalog_first_at(st, prereqs_of(st, a as int)[q as int], row@[q as int] as int));
                        assert(marks@[j as int] == settled(st, round as nat).contains(st[j as int].id@));
                    }
                    if !marks[j] {
                        ready = false;
                    }
                    q = q + 1;
                }
                let now = marks[a] || ready;
                proof {
                    lemma_settled_step(st, round as nat, a as int);
                }
                if now != marks[a] {
                    any = true;
                }
                next.push(now);
                a = a + 1;
            }
            proof {
                if !any {
                    lemma_settled_ids(st, round as nat);
                    lemma_settled_ids(st, (round + 1) as nat);
                    lemma_settled_grows(st, round as nat, (round + 1) as nat);
                    assert forall|x: Seq<char>| settled(st, (round + 1) as nat).contains(x) implies settled(st, round as nat).contains(x) by {
                        let k = choose|k: int| 0 <= k < st.len() && (#[trigger] st[k]).id@ == x;
                        assert(next@[k] == marks@[k]);
                    }
                    assert(settled(st, (round + 1) as nat) =~= settled(st, round as nat));
                }
            }
            marks = next;
            changed = any;
            round = round + 1;
        }
        let mut all_done = true;
        let mut a: usize = 0;
        while a < n
            invariant
                n == st.len(),
                marks@.len() == n,
                a <= n,
                all_done == forall|x: int| 0 <= x < a ==> marks@[x],
                forall|x: int| 0 <= x < n ==> marks@[x] == settled(st, round as nat).contains(#[trigger] st[x].id@),
            decreases n - a,
        {
            if !marks[a] {
                all_done = false;
            }
            a = a + 1;
        }
        proof {
            if round < n {
                lemma_settled_stays(st, (round - 1) as nat, n as nat);
                lemma_settled_stays(st, (round - 1) as nat, round as nat);
            }
            assert(settled(st, round as nat) == settled(st, n as nat));
            if all_done {
                assert forall|x: int| 0 <= x < n implies settled(st, n as nat).contains(#[trigger] st[x].id@) by {
                    assert(marks@[x]);
                }
            } else {
                let x = choose|x: int| 0 <= x < n && !marks@[x];
                assert(!settled(st, n as nat).contains(st[x].id@));
            }
        }
        all_done
    }

    /// Whether the catalog is well formed; every defect is a malformed catalog.
    pub fn validate(&self) -> (r: Result<(), ResearchPurchaseError>)
        requires
            self.repeatable_studies.wf(),
        ensures
            r is Ok <==> catalog_rules(*self),
            r is Err ==> r == Err::<(), ResearchPurchaseError>(ResearchPurchaseError::MalformedCatalog),
    {
        let ghost st = self.studies@;
        let n = self.studies.len();
        if self.schema_version != RESEARCH_PURCHASE_SCHEMA_VERSION || n == 0 || n > MAX_SYNTHETIC_STUDIES {
            return Err(ResearchPurchaseError::MalformedCatalog);
        }
        let mut i: usize = 0;
        while i < n
            invariant
                n == st.len(),
                st == self.studies@,
                i <= n,
                forall|a: int| 0 <= a < i ==> descriptor_ok(#[trigger] st[a]),
                forall|a: int, b: int| 0 <= a < b < i ==> (#[trigger] st[a]).id@ != (#[trigger] st[b]).id@,
                forall|a: int, b: int| 0 <= a < b < i ==> (#[trigger] st[a]).display_name@ != (#[trigger] st[b]).display_name@,
            decreases n - i,
        {
            match self.studies[i].validate() {
                Ok(()) => {},
                Err(_) => return Err(ResearchPurchaseError::MalformedCatalog),
            }
            let mut j: usize = 0;
            while j < i
                invariant
                    n == st.len(),
                    st == self.studies@,
                    i < n,
                    j <= i,
                    forall|b: int| 0 <= b < j ==> (#[trigger] st[b]).id@ != st[i as int].id@ && st[b].display_name@ != st[i as int].display_name@,
                decreases i - j,
            {
                if self.studies[j].id.same(&self.studies[i].id) || text_eq(
                    self.studies[j].display_name.as_str(),
                    self.studies[i].display_name.as_str(),
                ) {
                    return Err(ResearchPurchaseError::MalformedCatalog);
                }
                j = j + 1;
            }
            i = i + 1;
        }
        let mut k: usize = 0;
        while k < self.repeatable_studies.len()
            invariant
                st == self.studies@,
                self.repeatable_studies.wf(),
                k <= self.repeatable_studies@.len(),
                forall|m: int| 0 <= m < k ==> catalog_has(st, #[trigger] self.repeatable_studies@[m].0),
            decreases self.repeatable_studies@.len() - k,
        {
            match self.position_text(self.repeatable_studies.key_at(k).as_str()) {
                Some(_) => {},
                None => {
                    proof {
                        lemma_lookup_all(self.repeatable_studies@);
                        assert(self.repeatable_studies.map().contains_key(self.repeatable_studies@[k as int].0));
                    }
                    return Err(ResearchPurchaseError::MalformedCatalog);
                },
            }
            k = k + 1;
        }
        proof {
            assert forall|key: Seq<char>| #[trigger] self.repeatable_studies.map().contains_key(key) implies catalog_has(st, key) by {
                let m = choose|m: int| 0 <= m < self.repeatable_studies@.len() && #[trigger] self.repeatable_studies@[m].0 == key;
            }
        }
        let idx = match self.prerequisite_positions() {
            Some(idx) => idx,
            None => return Err(ResearchPurchaseError::MalformedCatalog),
        };
        if !self.prerequisites_acyclic(&idx) {
            return Err(ResearchPurchaseError::MalformedCatalog);
        }
        Ok(())
    }
}


/// The identifier of the Favor ledger event a purchase was charged under.
#[derive(Debug, Clone, PartialEq, Eq, PartialOrd, Ord, Hash)]
pub struct FavorEventId(PlannerId);

impl FavorEventId {
    pub closed spec fn view(&self) -> Seq<char> {
        self.0@
    }

    pub fn from_planner_id(id: PlannerId) -> (r: Self)
        ensures
            r@ == id@,
    {
        FavorEventId(id)
    }

    pub fn as_str(&self) -> (r: &str)
        ensures
            r@ == self@,
    {
        self.0.as_str()
    }
}

#[derive(Debug, Clone, Copy, PartialEq, Eq, Structural)]
pub enum ResearchPurchaseSource {
    Player,
    Automatic,
}

/// A committed purchase of the Favor-priced lane.
#[derive(Debug, Clone, PartialEq, Eq)]
pub struct ResearchPurchaseEvent {
    pub id: ResearchPurchaseId,
    pub source: ResearchPurchaseSource,
    pub study_id: StudyId,
    pub undiscounted_price: Favor,
    pub charged_price: Favor,
    pub discount_basis_points: u16,
    pub consumed_preparation: bool,
    pub favor_event_id: FavorEventId,
    pub committed_research_version: u64,
    pub committed_favor_version: u64,
    pub committed_tick: u64,
}

#[derive(Debug, Clone, Copy, PartialEq, Eq, Structural)]
pub enum ResearchPurchaseOutcome {
    Committed,
    AlreadyCommitted,
}

/// One colony's research progress across the purchase, God and Leader lanes.
#[derive(Debug)]
pub struct ResearchPurchaseState {
    pub schema_version: u32,
    pub version: u64,
    pub owned_studies: IdMap<()>,
    pub repeatable_completions: IdMap<u32>,
    pub purchases: IdMap<ResearchPurchaseEvent>,
    pub automatic_quota: AutomaticResearchQuotaState,
    pub god_queue: GodResearchQueueState,
    pub leader_lane: LeaderResearchLaneState,
}

/// The discount and preparation terms a purchase source allows.
pub open spec fn purchase_terms_ok(source: ResearchPurchaseSource, discount: u16, consumed: bool) -> bool {
    match source {
        ResearchPurchaseSource::Player => (discount == 0 && !consumed) || (discount
            == PLAYER_PREPARATION_DISCOUNT_BASIS_POINTS && consumed),
        ResearchPurchaseSource::Automatic => discount == 0 && !consumed,
    }
}

/// The committed purchases form the history `1..=m` of research versions, each
/// charged, on its source's terms, for a distinct owned study, with `m` no
/// later than the state's version.
pub open spec fn purchases_rules(s: ResearchPurchaseState) -> bool {
    let ev = s.purchases@;
    let m = ev.len();
    &&& forall|i: int| 0 <= i < m ==> (#[trigger] ev[i]).1.id@ == ev[i].0
    &&& forall|i: int| 0 <= i < m ==> 1 <= (#[trigger] ev[i]).1.committed_research_version <= m
    &&& forall|i: int, j: int|
        0 <= i < j < m ==> (#[trigger] ev[i]).1.committed_research_version != (#[trigger] ev[j]).1.committed_research_version
    &&& forall|i: int|
        0 <= i < m ==> {
            let e = (#[trigger] ev[i]).1;
            &&& e.undiscounted_price.0 != 0
            &&& e.charged_price.0 != 0
            &&& purchase_terms_ok(e.source, e.discount_basis_points, e.consumed_preparation)
            &&& s.owned_studies.map().contains_key(e.study_id@)
        }
    &&& forall|i: int, j: int| 0 <= i < j < m ==> (#[trigger] ev[i]).1.study_id@ != (#[trigger] ev[j]).1.study_id@
    &&& m <= s.version
}

/// The purchase history's rules, read over the purchases as a map.
pub open spec fn purchases_map_rules(s: ResearchPurchaseState) -> bool {
    let m = s.purchases.map();
    &&& forall|k: Seq<char>| #[trigger] m.contains_key(k) ==> m[k].id@ == k
    &&& forall|k: Seq<char>| #[trigger] m.contains_key(k) ==> 1 <= m[k].committed_research_version <= m.len()
    &&& forall|k1: Seq<char>, k2: Seq<char>|
        #[trigger] m.contains_key(k1) && #[trigger] m.contains_key(k2) && k1 != k2
            ==> m[k1].committed_research_version != m[k2].committed_research_version
    &&& forall|k: Seq<char>|
        #[trigger] m.contains_key(k) ==> {
            let e = m[k];
            &&& e.undiscounted_price.0 != 0
            &&& e.charged_price.0 != 0
            &&& purchase_terms_ok(e.source, e.discount_basis_points, e.consumed_preparation)
            &&& s.owned_studies.map().contains_key(e.study_id@)
        }
    &&& forall|k1: Seq<char>, k2: Seq<char>|
        #[trigger] m.contains_key(k1) && #[trigger] m.contains_key(k2) && k1 != k2 ==> m[k1].study_id@ != m[k2].study_id@
    &&& m.len() <= s.version
}

proof fn lemma_purchases_rules_by_map(s: ResearchPurchaseState)
    requires
        s.purchases.wf(),
    ensures
        purchases_rules(s) <==> purchases_map_rules(s),
{
    let ev = s.purchases@;
    let m = s.purchases.map();
    lemma_lookup_all(ev);
    crate::id_map::lemma_map_len(ev);
    assert forall|i: int, j: int| 0 <= i < ev.len() && 0 <= j < ev.len() && i != j implies #[trigger] ev[i].0 != #[trigger] ev[j].0 by {
        if i < j {
            assert(text_lt(ev[i].0, ev[j].0));
        } else {
            assert(text_lt(ev[j].0, ev[i].0));
        }
        lemma_text_lt_irreflexive(ev[i].0);
    }
    if purchases_rules(s) {
        assert forall|k: Seq<char>| #[trigger] m.contains_key(k) implies exists|j: int| 0 <= j < ev.len() && #[trigger] ev[j].0 == k by {
        }
        assert forall|k1: Seq<char>, k2: Seq<char>|
            #[trigger] m.contains_key(k1) && #[trigger] m.contains_key(k2) && k1 != k2 implies m[k1].committed_research_version
                != m[k2].committed_research_version && m[k1].study_id@ != m[k2].study_id@ by {
            let j1 = choose|j: int| 0 <= j < ev.len() && #[trigger] ev[j].0 == k1;
            let j2 = choose|j: int| 0 <= j < ev.len() && #[trigger] ev[j].0 == k2;
            assert(m[ev[j1].0] == ev[j1].1);
            assert(m[ev[j2].0] == ev[j2].1);
            if j1 < j2 {
                assert(ev[j1].1.committed_research_version != ev[j2].1.committed_research_version);
                assert(ev[j1].1.study_id@ != ev[j2].1.study_id@);
            } else {
                assert(ev[j2].1.committed_research_version != ev[j1].1.committed_research_version);
                assert(ev[j2].1.study_id@ != ev[j1].1.study_id@);
            }
        }
        assert forall|k: Seq<char>| #[trigger] m.contains_key(k) implies m[k].id@ == k && 1 <= m[k].committed_research_version
            <= m.len() && m[k].undiscounted_price.0 != 0 && m[k].charged_price.0 != 0 && purchase_terms_ok(
            m[k].source,
            m[k].discount_basis_points,
            m[k].consumed_preparation,
        ) && s.owned_studies.map().contains_key(m[k].study_id@) by {
            let j = choose|j: int| 0 <= j < ev.len() && #[trigger] ev[j].0 == k;
            assert(m[ev[j].0] == ev[j].1);
        }
        assert(purchases_map_rules(s));
    }
    if purchases_map_rules(s) {
        assert forall|i: int| 0 <= i < ev.len() implies (#[trigger] ev[i]).1.id@ == ev[i].0 && 1 <= ev[i].1.committed_research_version
            <= ev.len() && ev[i].1.undiscounted_price.0 != 0 && ev[i].1.charged_price.0 != 0 && purchase_terms_ok(
            ev[i].1.source,
            ev[i].1.discount_basis_points,
            ev[i].1.consumed_preparation,
        ) && s.owned_studies.map().contains_key(ev[i].1.study_id@) by {
            assert(m.contains_key(ev[i].0));
        }
        assert forall|i: int, j: int| 0 <= i < j < ev.len() implies (#[trigger] ev[i]).1.committed_research_version
            != (#[trigger] ev[j]).1.committed_research_version && ev[i].1.study_id@ != ev[j].1.study_id@ by {
            assert(m.contains_key(ev[i].0));
            assert(m.contains_key(ev[j].0));
        }
        assert(purchases_rules(s));
    }
}

/// The state is one the lanes could have written.
pub open spec fn purchase_state_rules(s: ResearchPurchaseState) -> bool {
    &&& s.schema_version == RESEARCH_PURCHASE_SCHEMA_VERSION
    &&& s.purchases@.len() <= MAX_PURCHASE_EVENTS
    &&& quota_rules(s.automatic_quota.schema_version, s.automatic_quota.committed_ticks@)
    &&& god_queue_rules(s.god_queue.schema_version, s.god_queue.entries@)
    &&& lane_rules(s.leader_lane)
    &&& forall|i: int| 0 <= i < s.repeatable_completions@.len() ==> (#[trigger] s.repeatable_completions@[i]).1 != 0
    &&& forall|i: int|
        0 <= i < s.repeatable_completions@.len() ==> !s.owned_studies.map().contains_key(
            #[trigger] s.repeatable_completions@[i].0,
        )
    &&& purchases_rules(s)
}

/// The state's maps are ordered, as their operations need.
pub open spec fn purchase_maps_wf(s: ResearchPurchaseState) -> bool {
    &&& s.owned_studies.wf()
    &&& s.repeatable_completions.wf()
    &&& s.purchases.wf()
    &&& s.leader_lane.events.wf()
}

impl ResearchPurchaseState {
    pub fn new() -> (r: Self)
        ensures
            purchase_maps_wf(r),
            purchase_state_rules(r),
            r.version == 0,
            r.owned_studies@.len() == 0,
            r.repeatable_completions@.len() == 0,
            r.purchases@.len() == 0,
            r.god_queue.entries@.len() == 0,
            r.leader_lane.committed_ticks@.len() == 0,
            r.leader_lane.events@.len() == 0,
            r.automatic_quota.committed_ticks@.len() == 0,
    {
        ResearchPurchaseState {
            schema_version: RESEARCH_PURCHASE_SCHEMA_VERSION,
            version: 0,
            owned_studies: IdMap::new(),
            repeatable_completions: IdMap::new(),
            purchases: IdMap::new(),
            automatic_quota: AutomaticResearchQuotaState::new(),
            god_queue: GodResearchQueueState::new(),
            leader_lane: LeaderResearchLaneState::new(),
        }
    }

    fn purchases_valid(&self) -> (r: bool)
        requires
            purchase_maps_wf(*self),
        ensures
            r == purchases_rules(*self),
    {
        let ev = &self.purchases;
        let m = ev.len();
        let mut i: usize = 0;
        while i < m
            invariant
                purchase_maps_wf(*self),
                *ev == self.purchases,
                m == ev@.len(),
                i <= m,
                forall|a: int| 0 <= a < i ==> (#[trigger] ev@[a]).1.id@ == ev@[a].0,
                forall|a: int| 0 <= a < i ==> 1 <= (#[trigger] ev@[a]).1.committed_research_version <= m,
                forall|a: int, b: int|
                    0 <= a < b < m && a < i ==> (#[trigger] ev@[a]).1.committed_research_version != (#[trigger] ev@[b]).1.committed_research_version,
                forall|a: int|
                    0 <= a < i ==> {
                        let e = (#[trigger] ev@[a]).1;
                        &&& e.undiscounted_price.0 != 0
                        &&& e.charged_price.0 != 0
                        &&& purchase_terms_ok(e.source, e.discount_basis_points, e.consumed_preparation)
                        &&& self.owned_studies.map().contains_key(e.study_id@)
                    },
                forall|a: int, b: int| 0 <= a < b < m && a < i ==> (#[trigger] ev@[a]).1.study_id@ != (#[trigger] ev@[b]).1.study_id@,
            decreases m - i,
        {
            let e = ev.value_at(i);
            if !text_eq(ev.key_at(i).as_str(), e.id.as_str()) || e.committed_research_version == 0
                || e.committed_research_version as u128 > m as u128 || e.undiscounted_price.0 == 0 || e.charged_price.0 == 0 {
                return false;
            }
            let terms_ok = match e.source {
                ResearchPurchaseSource::Player => (e.discount_basis_points == 0 && !e.consumed_preparation) || (
                e.discount_basis_points == PLAYER_PREPARATION_DISCOUNT_BASIS_POINTS && e.consumed_preparation),
                ResearchPurchaseSource::Automatic => e.discount_basis_points == 0 && !e.consumed_preparation,
            };
            if !terms_ok || !self.owned_studies.contains_key(e.study_id.as_str()) {
                return false;
            }
            let mut j: usize = i + 1;
            while j < m
                invariant
                    *ev == self.purchases,
                    m == ev@.len(),
                    i < m,
                    *e == ev@[i as int].1,
                    i + 1 <= j <= m,
                    forall|b: int|
                        i < b < j ==> e.committed_research_version != (#[trigger] ev@[b]).1.committed_research_version
                            && e.study_id@ != ev@[b].1.study_id@,
                decreases m - j,
            {
                let f = ev.value_at(j);
                if f.committed_research_version == e.committed_research_version || f.study_id.same(&e.study_id) {
                    return false;
                }
                j = j + 1;
            }
            i = i + 1;
        }
        m as u128 <= self.version as u128
    }

    fn validate(&self) -> (r: Result<(), ResearchPurchaseError>)
        requires
            purchase_maps_wf(*self),
        ensures
            r is Ok <==> purchase_state_rules(*self),
            r is Err ==> r == Err::<(), ResearchPurchaseError>(ResearchPurchaseError::MalformedPersistence),
    {
        if self.schema_version != RESEARCH_PURCHASE_SCHEMA_VERSION || self.purchases.len() > MAX_PURCHASE_EVENTS {
            return Err(ResearchPurchaseError::MalformedPersistence);
        }
        match self.automatic_quota.validate() {
            Ok(()) => {},
            Err(e) => return Err(e),
        }
        match self.god_queue.validate() {
            Ok(()) => {},
            Err(e) => return Err(e),
        }
        match self.leader_lane.validate() {
            Ok(()) => {},
            Err(e) => return Err(e),
        }
        let c = &self.repeatable_completions;
        let mut i: usize = 0;
        while i < c.len()
            invariant
                purchase_maps_wf(*self),
                *c == self.repeatable_completions,
                i <= c@.len(),
                forall|a: int| 0 <= a < i ==> (#[trigger] c@[a]).1 != 0,
                forall|a: int| 0 <= a < i ==> !self.owned_studies.map().contains_key(#[trigger] c@[a].0),
            decreases c@.len() - i,
        {
            if *c.value_at(i) == 0 || self.owned_studies.contains_key(c.key_at(i).as_str()) {
                return Err(ResearchPurchaseError::MalformedPersistence);
            }
            i = i + 1;
        }
        if !self.purchases_valid() {
            return Err(ResearchPurchaseError::MalformedPersistence);
        }
        Ok(())
    }
}


/// `b` holds what `a` holds outside the God queue and the version.
pub open spec fn same_lanes(a: ResearchPurchaseState, b: ResearchPurchaseState) -> bool {
    &&& b.schema_version == a.schema_version
    &&& b.owned_studies@ == a.owned_studies@
    &&& b.repeatable_completions@ == a.repeatable_completions@
    &&& b.purchases@ == a.purchases@
    &&& b.automatic_quota == a.automatic_quota
    &&& b.god_queue.schema_version == a.god_queue.schema_version
    &&& b.leader_lane.schema_version == a.leader_lane.schema_version
    &&& b.leader_lane.committed_ticks@ == a.leader_lane.committed_ticks@
    &&& b.leader_lane.events@ == a.leader_lane.events@
}

/// `b` is `a` untouched.
pub open spec fn unchanged(a: ResearchPurchaseState, b: ResearchPurchaseState) -> bool {
    same_lanes(a, b) && b.version == a.version && b.god_queue.entries@ == a.god_queue.entries@
}

/// After a change that succeeded, the version moves on by one; at the last
/// version the change stands but the call reports an overflow.
pub open spec fn bumped<T>(a: ResearchPurchaseState, b: ResearchPurchaseState, r: Result<T, ResearchPurchaseError>, ok: Result<T, ResearchPurchaseError>) -> bool {
    if a.version == u64::MAX {
        r == Err::<T, ResearchPurchaseError>(ResearchPurchaseError::Overflow) && b.version == a.version
    } else {
        r == ok && b.version == a.version + 1
    }
}

/// `m` after one more completion of `id`.
pub open spec fn completion_added(m: Map<Seq<char>, u32>, id: Seq<char>) -> Map<Seq<char>, u32> {
    m.insert(id, (completions_of(m, id) + 1) as u32)
}

impl ResearchPurchaseState {
    fn bump_version(&mut self) -> (r: Result<(), ResearchPurchaseError>)
        ensures
            same_lanes(*old(self), *final(self)),
            final(self).god_queue.entries@ == old(self).god_queue.entries@,
            final(self).owned_studies == old(self).owned_studies,
            final(self).repeatable_completions == old(self).repeatable_completions,
            final(self).purchases == old(self).purchases,
            final(self).leader_lane.events == old(self).leader_lane.events,
            bumped(*old(self), *final(self), r, Ok::<(), ResearchPurchaseError>(())),
    {
        if self.version == u64::MAX {
            return Err(ResearchPurchaseError::Overflow);
        }
        self.version = self.version + 1;
        Ok(())
    }

    fn fund_front_at(&mut self, funds: &mut ResearchFunds, discount_basis_points: u16) -> (r: Result<
        GodResearchFundOutcome,
        ResearchPurchaseError,
    >)
        requires
            purchase_maps_wf(*old(self)),
        ensures
            purchase_maps_wf(*final(self)),
            same_lanes(*old(self), *final(self)),
            !purchase_state_rules(*old(self)) ==> r == Err::<GodResearchFundOutcome, ResearchPurchaseError>(
                ResearchPurchaseError::MalformedPersistence,
            ) && unchanged(*old(self), *final(self)) && *final(funds) == *old(funds),
            purchase_state_rules(*old(self)) ==> {
                let q0 = old(self).god_queue.entries@;
                let f0 = *old(funds);
                let inner = if fund_error(q0, f0, discount_basis_points) is Some || q0[0].frozen {
                    r
                } else {
                    Ok::<GodResearchFundOutcome, ResearchPurchaseError>(GodResearchFundOutcome::Funded)
                };
                &&& funded(q0, f0, discount_basis_points, final(self).god_queue.entries@, *final(funds), inner)
                &&& if inner == Ok::<GodResearchFundOutcome, ResearchPurchaseError>(GodResearchFundOutcome::Funded) {
                    bumped(*old(self), *final(self), r, inner)
                } else {
                    final(self).version == old(self).version
                }
            },
    {
        match self.validate() {
            Ok(()) => {},
            Err(e) => return Err(e),
        }
        let outcome = match self.god_queue.fund_front(funds, discount_basis_points) {
            Ok(o) => o,
            Err(e) => return Err(e),
        };
        if outcome == GodResearchFundOutcome::Funded {
            match self.bump_version() {
                Ok(()) => {},
                Err(e) => return Err(e),
            }
        }
        Ok(outcome)
    }

    /// Freeze the front study's price once; queue position, disconnects and
    /// offline time cannot alter the terms afterwards.
    pub fn fund_god_front(&mut self, funds: &mut ResearchFunds) -> (r: Result<GodResearchFundOutcome, ResearchPurchaseError>)
        requires
            purchase_maps_wf(*old(self)),
        ensures
            purchase_maps_wf(*final(self)),
            same_lanes(*old(self), *final(self)),
            !purchase_state_rules(*old(self)) ==> r == Err::<GodResearchFundOutcome, ResearchPurchaseError>(
                ResearchPurchaseError::MalformedPersistence,
            ) && unchanged(*old(self), *final(self)) && *final(funds) == *old(funds),
            purchase_state_rules(*old(self)) ==> {
                let q0 = old(self).god_queue.entries@;
                let f0 = *old(funds);
                let inner = if fund_error(q0, f0, 0) is Some || q0[0].frozen {
                    r
                } else {
                    Ok::<GodResearchFundOutcome, ResearchPurchaseError>(GodResearchFundOutcome::Funded)
                };
                &&& funded(q0, f0, 0, final(self).god_queue.entries@, *final(funds), inner)
                &&& if inner == Ok::<GodResearchFundOutcome, ResearchPurchaseError>(GodResearchFundOutcome::Funded) {
                    bumped(*old(self), *final(self), r, inner)
                } else {
                    final(self).version == old(self).version
                }
            },
    {
        self.fund_front_at(funds, 0)
    }

    /// Fund the front at the player's preparation discount.
    pub(crate) fn fund_god_front_with_player_preparation(&mut self, funds: &mut ResearchFunds) -> (r: Result<
        GodResearchFundOutcome,
        ResearchPurchaseError,
    >)
        requires
            purchase_maps_wf(*old(self)),
        ensures
            purchase_maps_wf(*final(self)),
            same_lanes(*old(self), *final(self)),
            !purchase_state_rules(*old(self)) ==> r == Err::<GodResearchFundOutcome, ResearchPurchaseError>(
                ResearchPurchaseError::MalformedPersistence,
            ) && unchanged(*old(self), *final(self)) && *final(funds) == *old(funds),
            purchase_state_rules(*old(self)) ==> {
                let q0 = old(self).god_queue.entries@;
                let f0 = *old(funds);
                let d = PLAYER_PREPARATION_DISCOUNT_BASIS_POINTS;
                let inner = if fund_error(q0, f0, d) is Some || q0[0].frozen {
                    r
                } else {
                    Ok::<GodResearchFundOutcome, ResearchPurchaseError>(GodResearchFundOutcome::Funded)
                };
                &&& funded(q0, f0, d, final(self).god_queue.entries@, *final(funds), inner)
                &&& if inner == Ok::<GodResearchFundOutcome, ResearchPurchaseError>(GodResearchFundOutcome::Funded) {
                    bumped(*old(self), *final(self), r, inner)
                } else {
                    final(self).version == old(self).version
                }
            },
    {
        self.fund_front_at(funds, PLAYER_PREPARATION_DISCOUNT_BASIS_POINTS)
    }
}


/// What recording staffed God labor does to a valid state against a valid catalog.
pub open spec fn labor_recorded(
    a: ResearchPurchaseState,
    b: ResearchPurchaseState,
    repeatable: Map<Seq<char>, ()>,
    minutes: u64,
    r: Result<GodResearchLaborOutcome, ResearchPurchaseError>,
) -> bool {
    let o = labor_outcome(a.god_queue.entries@, minutes);
    &&& b.god_queue.entries@ == labor_queue(a.god_queue.entries@, minutes)
    &&& b.purchases@ == a.purchases@
    &&& b.automatic_quota == a.automatic_quota
    &&& b.leader_lane.committed_ticks@ == a.leader_lane.committed_ticks@
    &&& b.leader_lane.events@ == a.leader_lane.events@
    &&& match o {
        Err(_) => r == o && unchanged(a, b),
        Ok(GodResearchLaborOutcome::NoWork) => r == o && unchanged(a, b),
        Ok(GodResearchLaborOutcome::Advanced { .. }) => {
            &&& b.owned_studies.map() == a.owned_studies.map()
            &&& b.repeatable_completions.map() == a.repeatable_completions.map()
            &&& bumped(a, b, r, o)
        },
        Ok(GodResearchLaborOutcome::Completed(id)) => if repeatable.contains_key(id@) {
            &&& b.owned_studies.map() == a.owned_studies.map()
            &&& if completions_of(a.repeatable_completions.map(), id@) + 1 > u32::MAX {
                r == Err::<GodResearchLaborOutcome, ResearchPurchaseError>(ResearchPurchaseError::Overflow)
                    && b.repeatable_completions.map() == a.repeatable_completions.map() && b.version == a.version
            } else {
                b.repeatable_completions.map() == completion_added(a.repeatable_completions.map(), id@) && bumped(a, b, r, o)
            }
        } else {
            &&& b.owned_studies.map() == a.owned_studies.map().insert(id@, ())
            &&& b.repeatable_completions.map() == a.repeatable_completions.map()
            &&& bumped(a, b, r, o)
        },
    }
}

impl ResearchPurchaseState {
    /// Count one more completion of a repeatable study.
    fn add_completion(&mut self, study_id: &StudyId) -> (r: Result<(), ResearchPurchaseError>)
        requires
            old(self).repeatable_completions.wf(),
        ensures
            final(self).repeatable_completions.wf(),
            final(self).version == old(self).version,
            final(self).schema_version == old(self).schema_version,
            final(self).owned_studies == old(self).owned_studies,
            final(self).purchases == old(self).purchases,
            final(self).automatic_quota == old(self).automatic_quota,
            final(self).god_queue == old(self).god_queue,
            final(self).leader_lane.schema_version == old(self).leader_lane.schema_version,
            final(self).leader_lane.committed_ticks == old(self).leader_lane.committed_ticks,
            final(self).leader_lane.events == old(self).leader_lane.events,
            completions_of(old(self).repeatable_completions.map(), study_id@) + 1 > u32::MAX ==> r == Err::<
                (),
                ResearchPurchaseError,
            >(ResearchPurchaseError::Overflow) && final(self).repeatable_completions.map() == old(self).repeatable_completions.map(),
            completions_of(old(self).repeatable_completions.map(), study_id@) + 1 <= u32::MAX ==> r is Ok
                && final(self).repeatable_completions.map() == completion_added(old(self).repeatable_completions.map(), study_id@),
    {
        let current: u32 = match self.repeatable_completions.get(study_id.as_str()) {
            Some(c) => *c,
            None => 0,
        };
        if current == u32::MAX {
            return Err(ResearchPurchaseError::Overflow);
        }
        self.repeatable_completions.insert(String::from_str(study_id.as_str()), current + 1);
        Ok(())
    }

    /// Credit staffed physical research labor to the funded front; a finished
    /// front becomes owned, or counted once more when it is repeatable.
    pub fn record_god_research_labor(
        &mut self,
        catalog: &SyntheticResearchCatalog,
        authorization: GodResearchWorkAuthorization,
        staffed_minutes: u64,
    ) -> (r: Result<GodResearchLaborOutcome, ResearchPurchaseError>)
        requires
            purchase_maps_wf(*old(self)),
            catalog.repeatable_studies.wf(),
        ensures
            purchase_maps_wf(*final(self)),
            final(self).schema_version == old(self).schema_version,
            final(self).god_queue.schema_version == old(self).god_queue.schema_version,
            final(self).leader_lane.schema_version == old(self).leader_lane.schema_version,
            !purchase_state_rules(*old(self)) ==> r == Err::<GodResearchLaborOutcome, ResearchPurchaseError>(
                ResearchPurchaseError::MalformedPersistence,
            ) && unchanged(*old(self), *final(self)),
            purchase_state_rules(*old(self)) && !catalog_rules(*catalog) ==> r == Err::<GodResearchLaborOutcome, ResearchPurchaseError>(
                ResearchPurchaseError::MalformedCatalog,
            ) && unchanged(*old(self), *final(self)),
            purchase_state_rules(*old(self)) && catalog_rules(*catalog) && !(authorization.completed_research_station
                && authorization.staffed_scholar_alive) ==> r == Err::<GodResearchLaborOutcome, ResearchPurchaseError>(
                ResearchPurchaseError::GodResearchInfrastructureUnavailable,
            ) && unchanged(*old(self), *final(self)),
            purchase_state_rules(*old(self)) && catalog_rules(*catalog) && authorization.completed_research_station
                && authorization.staffed_scholar_alive ==> labor_recorded(
                *old(self),
                *final(self),
                catalog.repeatable_studies.map(),
                staffed_minutes,
                r,
            ),
    {
        match self.validate() {
            Ok(()) => {},
            Err(e) => return Err(e),
        }
        match catalog.validate() {
            Ok(()) => {},
            Err(e) => return Err(e),
        }
        if !authorization.permits_work() {
            return Err(ResearchPurchaseError::GodResearchInfrastructureUnavailable);
        }
        let outcome = match self.god_queue.record_front_labor(staffed_minutes) {
            Ok(o) => o,
            Err(e) => return Err(e),
        };
        match &outcome {
            GodResearchLaborOutcome::Completed(study_id) => {
                if catalog.is_repeatable(study_id) {
                    match self.add_completion(study_id) {
                        Ok(()) => {},
                        Err(e) => return Err(e),
                    }
                } else {
                    self.owned_studies.insert(String::from_str(study_id.as_str()), ());
                }
            },
            _ => {},
        }
        if !matches!(outcome, GodResearchLaborOutcome::NoWork) {
            match self.bump_version() {
                Ok(()) => {},
                Err(e) => return Err(e),
            }
        }
        Ok(outcome)
    }
}


/// The catalog position of study `id`: its first listing.
pub open spec fn catalog_index(studies: Seq<SyntheticStudyDescriptor>, id: Seq<char>) -> int {
    choose|i: int| catalog_first_at(studies, id, i)
}

proof fn lemma_catalog_index(studies: Seq<SyntheticStudyDescriptor>, id: Seq<char>, i: int)
    requires
        catalog_first_at(studies, id, i),
    ensures
        catalog_index(studies, id) == i,
{
    let k = catalog_index(studies, id);
    assert(catalog_first_at(studies, id, k));
    if k < i {
        assert(studies[k].id@ != id);
    } else if i < k {
        assert(studies[i].id@ != id);
    }
}

/// Every prerequisite of queue entry `i` is owned or queued ahead of it.
pub open spec fn queue_prereqs_met(
    studies: Seq<SyntheticStudyDescriptor>,
    owned: Map<Seq<char>, ()>,
    q: Seq<GodResearchQueueEntry>,
    i: int,
) -> bool {
    let pre = prereqs_of(studies, catalog_index(studies, q[i].study_id@));
    forall|p: int|
        0 <= p < pre.len() ==> owned.contains_key(#[trigger] pre[p]) || exists|j: int| 0 <= j < i && (#[trigger] q[j]).study_id@ == pre[p]
}

/// The queue can be worked front to back: every entry is a catalog study whose
/// prerequisites are owned or ahead of it.
pub open spec fn purchase_topological(studies: Seq<SyntheticStudyDescriptor>, owned: Map<Seq<char>, ()>, q: Seq<GodResearchQueueEntry>) -> bool {
    forall|i: int| 0 <= i < q.len() ==> catalog_has(studies, (#[trigger] q[i]).study_id@) && queue_prereqs_met(studies, owned, q, i)
}

fn queued_before(queue: &Vec<GodResearchQueueEntry>, end: usize, id: &StudyId) -> (r: bool)
    requires
        end <= queue@.len(),
    ensures
        r == exists|c: int| 0 <= c < end && (#[trigger] queue@[c]).study_id@ == id@,
{
    let mut j: usize = 0;
    while j < end
        invariant
            end <= queue@.len(),
            j <= end,
            forall|c: int| 0 <= c < j ==> (#[trigger] queue@[c]).study_id@ != id@,
        decreases end - j,
    {
        if queue[j].study_id.same(id) {
            return true;
        }
        j = j + 1;
    }
    false
}

fn god_queue_order_is_topological(catalog: &SyntheticResearchCatalog, owned: &IdMap<()>, queue: &Vec<GodResearchQueueEntry>) -> (r: bool)
    requires
        owned.wf(),
    ensures
        r == purchase_topological(catalog.studies@, owned.map(), queue@),
{
    let ghost st = catalog.studies@;
    let n = queue.len();
    let mut i: usize = 0;
    while i < n
        invariant
            st == catalog.studies@,
            owned.wf(),
            n == queue@.len(),
            i <= n,
            forall|a: int| 0 <= a < i ==> catalog_has(st, (#[trigger] queue@[a]).study_id@) && queue_prereqs_met(st, owned.map(), queue@, a),
        decreases n - i,
    {
        let k = match catalog.position(&queue[i].study_id) {
            Some(k) => k,
            None => {
                proof {
                    assert(!catalog_has(st, queue@[i as int].study_id@));
                }
                return false;
            },
        };
        proof {
            lemma_catalog_index(st, queue@[i as int].study_id@, k as int);
            assert(st[k as int].id@ == queue@[i as int].study_id@);
        }
        let d = &catalog.studies[k];
        let ghost pre = prereqs_of(st, k as int);
        let m = d.prerequisites.len();
        let mut p: usize = 0;
        while p < m
            invariant
                st == catalog.studies@,
                owned.wf(),
                n == queue@.len(),
                i < n,
                k < st.len(),
                *d == st[k as int],
                pre == prereqs_of(st, k as int),
                catalog_index(st, queue@[i as int].study_id@) == k as int,
                catalog_has(st, queue@[i as int].study_id@),
                forall|a: int| 0 <= a < i ==> catalog_has(st, (#[trigger] queue@[a]).study_id@) && queue_prereqs_met(st, owned.map(), queue@, a),
                m == pre.len(),
                p <= m,
                forall|b: int|
                    0 <= b < p ==> owned.map().contains_key(#[trigger] pre[b]) || exists|j: int| 0 <= j < i && (#[trigger] queue@[j]).study_id@ == pre[b],
            decreases m - p,
        {
            let need = &d.prerequisites[p];
            proof {
                assert(pre[p as int] == need@);
            }
            if !owned.contains_key(need.as_str()) && !queued_before(queue, i, need) {
                proof {
                    assert(catalog_index(st, queue@[i as int].study_id@) == k as int);
                    assert(!(owned.map().contains_key(pre[p as int]) || exists|j: int|
                        0 <= j < i && (#[trigger] queue@[j]).study_id@ == pre[p as int]));
                    assert(!queue_prereqs_met(st, owned.map(), queue@, i as int));
                }
                return false;
            }
            p = p + 1;
        }
        i = i + 1;
    }
    true
}

/// Where a study moves when it is taken out of `q` at `from` and put back at `to`.
pub open spec fn moved(q: Seq<GodResearchQueueEntry>, from: int, to: int) -> Seq<GodResearchQueueEntry> {
    q.remove(from).insert(to, q[from])
}

/// Which error, if any, refuses moving `id` to position `to`.
pub open spec fn reorder_error(
    studies: Seq<SyntheticStudyDescriptor>,
    owned: Map<Seq<char>, ()>,
    q: Seq<GodResearchQueueEntry>,
    id: Seq<char>,
    to: int,
) -> Option<ResearchPurchaseError> {
    if absent_from(q, id) || to >= q.len() {
        Some(ResearchPurchaseError::GodQueueTargetNotFound)
    } else {
        let from = choose|i: int| first_at(q, id, i);
        if q[0].frozen && (from == 0 || to == 0) {
            Some(ResearchPurchaseError::GodQueueFrozenFront)
        } else if !purchase_topological(studies, owned, moved(q, from, to)) {
            Some(ResearchPurchaseError::GodQueuePrerequisiteOrder)
        } else {
            None
        }
    }
}

proof fn lemma_first_at_unique(q: Seq<GodResearchQueueEntry>, id: Seq<char>, i: int)
    requires
        first_at(q, id, i),
    ensures
        (choose|k: int| first_at(q, id, k)) == i,
{
    let k = choose|k: int| first_at(q, id, k);
    assert(first_at(q, id, k));
    if k < i {
        assert(q[k].study_id@ != id);
    } else if i < k {
        assert(q[i].study_id@ != id);
    }
}

impl GodResearchQueueState {
    /// Move a queued study to position `to_index`, keeping the queue workable.
    fn reorder(&mut self, catalog: &SyntheticResearchCatalog, owned: &IdMap<()>, study_id: &StudyId, to_index: usize) -> (r: Result<
        (),
        ResearchPurchaseError,
    >)
        requires
            owned.wf(),
        ensures
            final(self).schema_version == old(self).schema_version,
            match reorder_error(catalog.studies@, owned.map(), old(self).entries@, study_id@, to_index as int) {
                Some(e) => r == Err::<(), ResearchPurchaseError>(e) && final(self).entries@ == old(self).entries@,
                None => r is Ok && final(self).entries@ == moved(
                    old(self).entries@,
                    choose|i: int| first_at(old(self).entries@, study_id@, i),
                    to_index as int,
                ),
            },
    {
        let from = match self.position(study_id) {
            Some(i) => i,
            None => return Err(ResearchPurchaseError::GodQueueTargetNotFound),
        };
        if to_index >= self.entries.len() {
            return Err(ResearchPurchaseError::GodQueueTargetNotFound);
        }
        proof {
            lemma_first_at_unique(self.entries@, study_id@, from as int);
        }
        if self.entries[0].frozen && (from == 0 || to_index == 0) {
            return Err(ResearchPurchaseError::GodQueueFrozenFront);
        }
        let ghost q0 = self.entries@;
        let entry = self.entries.remove(from);
        self.entries.insert(to_index, entry);
        proof {
            assert(self.entries@ =~= moved(q0, from as int, to_index as int));
        }
        if !god_queue_order_is_topological(catalog, owned, &self.entries) {
            let entry = self.entries.remove(to_index);
            self.entries.insert(from, entry);
            proof {
                assert(self.entries@ =~= q0);
            }
            return Err(ResearchPurchaseError::GodQueuePrerequisiteOrder);
        }
        Ok(())
    }
}

impl ResearchPurchaseState {
    /// Move a queued God study to a new position.
    pub fn reorder_god_target(&mut self, catalog: &SyntheticResearchCatalog, study_id: &StudyId, to_index: usize) -> (r: Result<
        (),
        ResearchPurchaseError,
    >)
        requires
            purchase_maps_wf(*old(self)),
        ensures
            purchase_maps_wf(*final(self)),
            same_lanes(*old(self), *final(self)),
            !purchase_state_rules(*old(self)) ==> r == Err::<(), ResearchPurchaseError>(ResearchPurchaseError::MalformedPersistence)
                && unchanged(*old(self), *final(self)),
            purchase_state_rules(*old(self)) ==> match reorder_error(
                catalog.studies@,
                old(self).owned_studies.map(),
                old(self).god_queue.entries@,
                study_id@,
                to_index as int,
            ) {
                Some(e) => r == Err::<(), ResearchPurchaseError>(e) && unchanged(*old(self), *final(self)),
                None => {
                    &&& final(self).god_queue.entries@ == moved(
                        old(self).god_queue.entries@,
                        choose|i: int| first_at(old(self).god_queue.entries@, study_id@, i),
                        to_index as int,
                    )
                    &&& bumped(*old(self), *final(self), r, Ok::<(), ResearchPurchaseError>(()))
                },
            },
    {
        match self.validate() {
            Ok(()) => {},
            Err(e) => return Err(e),
        }
        match self.god_queue.reorder(catalog, &self.owned_studies, study_id, to_index) {
            Ok(()) => {},
            Err(e) => return Err(e),
        }
        self.bump_version()
    }
}


/// The study is owned or already queued, so a path search stops there.
pub open spec fn god_path_settled(owned: Map<Seq<char>, ()>, q: Seq<GodResearchQueueEntry>, id: Seq<char>) -> bool {
    owned.contains_key(id) || !absent_from(q, id)
}

/// What a depth-first search from `id` makes of `path`: every missing
/// prerequisite, searched in the catalog's listed order, comes before the
/// study needing it. `visiting` holds the studies on the current branch.
pub open spec fn god_missing_path(
    studies: Seq<SyntheticStudyDescriptor>,
    owned: Map<Seq<char>, ()>,
    q: Seq<GodResearchQueueEntry>,
    id: Seq<char>,
    visiting: Set<Seq<char>>,
    path: Seq<Seq<char>>,
    fuel: nat,
) -> Result<Seq<Seq<char>>, ResearchPurchaseError>
    decreases fuel, 0nat, 0nat,
{
    if god_path_settled(owned, q, id) {
        Ok(path)
    } else if visiting.contains(id) {
        Err(ResearchPurchaseError::MalformedCatalog)
    } else if catalog_lacks(studies, id) {
        Err(ResearchPurchaseError::UnknownStudy)
    } else if fuel == 0 {
        Err(ResearchPurchaseError::MalformedCatalog)
    } else {
        match god_missing_each(
            studies,
            owned,
            q,
            prereqs_of(studies, catalog_index(studies, id)),
            visiting.insert(id),
            path,
            (fuel - 1) as nat,
        ) {
            Ok(p) => Ok(p.push(id)),
            Err(e) => Err(e),
        }
    }
}

/// The search run from each of `ids` in turn, stopping at the first failure.
pub open spec fn god_missing_each(
    studies: Seq<SyntheticStudyDescriptor>,
    owned: Map<Seq<char>, ()>,
    q: Seq<GodResearchQueueEntry>,
    ids: Seq<Seq<char>>,
    visiting: Set<Seq<char>>,
    path: Seq<Seq<char>>,
    fuel: nat,
) -> Result<Seq<Seq<char>>, ResearchPurchaseError>
    decreases fuel, 1nat, ids.len(),
{
    if ids.len() == 0 {
        Ok(path)
    } else {
        match god_missing_path(studies, owned, q, ids[0], visiting, path, fuel) {
            Ok(p) => god_missing_each(studies, owned, q, ids.drop_first(), visiting, p, fuel),
            Err(e) => Err(e),
        }
    }
}

/// The terms a path study is queued at: its God terms, with a repeatable
/// study's price doubled once per earlier completion.
pub open spec fn path_term(
    terms: Map<Seq<char>, GodResearchStudyTerms>,
    repeatable: Map<Seq<char>, ()>,
    completions: Map<Seq<char>, u32>,
    id: Seq<char>,
) -> Result<GodResearchStudyTerms, ResearchPurchaseError> {
    if !terms.contains_key(id) {
        Err(ResearchPurchaseError::MissingGodTerms)
    } else {
        let t = terms[id];
        if t.price == 0 || t.duration_game_minutes == 0 {
            Err(ResearchPurchaseError::MalformedGodTerms)
        } else if repeatable.contains_key(id) {
            let c = completions_of(completions, id);
            if c < 64 && t.price * doubling(c as nat) <= u64::MAX {
                Ok(GodResearchStudyTerms { price: (t.price * doubling(c as nat)) as u64, ..t })
            } else {
                Err(ResearchPurchaseError::Overflow)
            }
        } else {
            Ok(t)
        }
    }
}

/// The entry a study is queued as.
pub open spec fn entry_queued(e: GodResearchQueueEntry, id: Seq<char>, t: GodResearchStudyTerms) -> bool {
    &&& e.study_id@ == id
    &&& e.currency == t.currency
    &&& e.frozen_price == t.price
    &&& e.frozen_duration_game_minutes == t.duration_game_minutes
    &&& e.completed_labor_minutes == 0
    &&& !e.frozen
}

/// How many leading studies of `path` have terms.
pub open spec fn termed_prefix(
    terms: Map<Seq<char>, GodResearchStudyTerms>,
    repeatable: Map<Seq<char>, ()>,
    completions: Map<Seq<char>, u32>,
    path: Seq<Seq<char>>,
) -> int
    decreases path.len(),
{
    if path.len() == 0 {
        0
    } else if path_term(terms, repeatable, completions, path[0]) is Err {
        0
    } else {
        1 + termed_prefix(terms, repeatable, completions, path.drop_first())
    }
}

/// `after` is `before` with the first `k` studies of `path` queued behind it.
pub open spec fn path_queued(
    before: Seq<GodResearchQueueEntry>,
    after: Seq<GodResearchQueueEntry>,
    terms: Map<Seq<char>, GodResearchStudyTerms>,
    repeatable: Map<Seq<char>, ()>,
    completions: Map<Seq<char>, u32>,
    path: Seq<Seq<char>>,
    k: int,
) -> bool {
    &&& after.len() == before.len() + k
    &&& after.subrange(0, before.len() as int) == before
    &&& forall|i: int|
        0 <= i < k ==> entry_queued(#[trigger] after[before.len() + i], path[i], path_term(terms, repeatable, completions, path[i])->Ok_0)
}

proof fn lemma_termed_prefix(
    terms: Map<Seq<char>, GodResearchStudyTerms>,
    repeatable: Map<Seq<char>, ()>,
    completions: Map<Seq<char>, u32>,
    path: Seq<Seq<char>>,
)
    ensures
        0 <= termed_prefix(terms, repeatable, completions, path) <= path.len(),
        forall|i: int|
            0 <= i < termed_prefix(terms, repeatable, completions, path) ==> #[trigger] path_term(terms, repeatable, completions, path[i]) is Ok,
        termed_prefix(terms, repeatable, completions, path) < path.len() ==> path_term(
            terms,
            repeatable,
            completions,
            path[termed_prefix(terms, repeatable, completions, path)],
        ) is Err,
    decreases path.len(),
{
    if path.len() > 0 && path_term(terms, repeatable, completions, path[0]) is Ok {
        let rest = path.drop_first();
        lemma_termed_prefix(terms, repeatable, completions, rest);
        assert forall|i: int|
            0 <= i < termed_prefix(terms, repeatable, completions, path) implies #[trigger] path_term(terms, repeatable, completions, path[i]) is Ok by {
            if i > 0 {
                assert(path[i] == rest[i - 1]);
            }
        }
        if termed_prefix(terms, repeatable, completions, path) < path.len() {
            assert(path[termed_prefix(terms, repeatable, completions, path)] == rest[termed_prefix(terms, repeatable, completions, rest)]);
        }
    }
}

impl GodResearchQueueState {
    /// Append to `path` the studies missing for `study_id`, each after its missing prerequisites.
    fn collect_missing_path(
        &self,
        catalog: &SyntheticResearchCatalog,
        owned: &IdMap<()>,
        study_id: &StudyId,
        visiting: &mut IdMap<()>,
        path: &mut Vec<StudyId>,
        Ghost(fuel): Ghost<nat>,
    ) -> (r: Result<(), ResearchPurchaseError>)
        requires
            owned.wf(),
            old(visiting).wf(),
            old(visiting).map().dom().subset_of(catalog_ids(catalog.studies@).to_set()),
            old(visiting).map().dom().len() + fuel >= catalog_ids(catalog.studies@).to_set().len(),
        ensures
            final(visiting).wf(),
            match god_missing_path(
                catalog.studies@,
                owned.map(),
                self.entries@,
                study_id@,
                old(visiting).map().dom(),
                purchase_ids(old(path)@),
                fuel,
            ) {
                Ok(p) => r is Ok && purchase_ids(final(path)@) == p && final(visiting).map() == old(visiting).map(),
                Err(e) => r == Err::<(), ResearchPurchaseError>(e),
            },
        decreases fuel,
    {
        let ghost st = catalog.studies@;
        let ghost v0 = visiting.map();
        let ghost p0 = purchase_ids(path@);
        let ghost ids = catalog_ids(st).to_set();
        if owned.contains_key(study_id.as_str()) || self.position(study_id).is_some() {
            return Ok(());
        }
        if visiting.contains_key(study_id.as_str()) {
            return Err(ResearchPurchaseError::MalformedCatalog);
        }
        let k = match catalog.position(study_id) {
            Some(k) => k,
            None => return Err(ResearchPurchaseError::UnknownStudy),
        };
        proof {
            lemma_catalog_index(st, study_id@, k as int);
            assert(catalog_ids(st)[k as int] == study_id@);
            assert(ids.contains(study_id@));
            vstd::seq_lib::seq_to_set_is_finite(catalog_ids(st));
            lemma_entries_map_finite(old(visiting)@);
            if fuel == 0 {
                vstd::set_lib::lemma_len_subset(v0.dom(), ids);
                assert(v0.dom().len() == ids.len());
                vstd::set_lib::lemma_subset_equality(v0.dom(), ids);
                assert(false);
            }
        }
        visiting.insert(String::from_str(study_id.as_str()), ());
        let ghost v1 = v0.insert(study_id@, ());
        let d = &catalog.studies[k];
        let ghost order = prereqs_of(st, k as int);
        proof {
            assert(v1.dom() =~= v0.dom().insert(study_id@));
            assert(v1.dom().subset_of(ids));
            assert(order.subrange(0, order.len() as int) =~= order);
        }
        let n = d.prerequisites.len();
        let mut i: usize = 0;
        while i < n
            invariant
                st == catalog.studies@,
                ids == catalog_ids(st).to_set(),
                ids.finite(),
                v0 == old(visiting).map(),
                p0 == purchase_ids(old(path)@),
                god_missing_path(st, owned.map(), self.entries@, study_id@, v0.dom(), p0, fuel) == match god_missing_each(
                    st, owned.map(), self.entries@, order, v1.dom(), p0, (fuel - 1) as nat) {
                    Ok(p) => Ok(p.push(study_id@)),
                    Err(e) => Err(e),
                },
                owned.wf(),
                k < st.len(),
                *d == st[k as int],
                order == prereqs_of(st, k as int),
                n == order.len(),
                i <= n,
                fuel > 0,
                visiting.wf(),
                visiting.map() == v1,
                v1.dom().subset_of(ids),
                v1.dom() == v0.dom().insert(study_id@),
                !v0.dom().contains(study_id@),
                v0.dom().finite(),
                v0.dom().len() + fuel >= ids.len(),
                god_missing_each(st, owned.map(), self.entries@, order, v1.dom(), p0, (fuel - 1) as nat) == god_missing_each(
                    st,
                    owned.map(),
                    self.entries@,
                    order.subrange(i as int, n as int),
                    v1.dom(),
                    purchase_ids(path@),
                    (fuel - 1) as nat,
                ),
            decreases n - i,
        {
            let need = &d.prerequisites[i];
            proof {
                assert(order[i as int] == need@);
                let rest = order.subrange(i as int, n as int);
                assert(rest[0] == need@);
                assert(rest.drop_first() =~= order.subrange(i + 1, n as int));
                assert(v1.dom().len() == v0.dom().len() + 1);
            }
            let ghost cur = purchase_ids(path@);
            match self.collect_missing_path(catalog, owned, need, visiting, path, Ghost((fuel - 1) as nat)) {
                Ok(()) => {},
                Err(e) => {
                    return Err(e);
                },
            }
            i = i + 1;
        }
        proof {
            assert(order.subrange(n as int, n as int).len() == 0);
        }
        visiting.remove(study_id.as_str());
        proof {
            assert(visiting.map() =~= v0);
        }
        let ghost before_push = purchase_ids(path@);
        path.push(study_id.duplicate());
        proof {
            assert(purchase_ids(path@) =~= before_push.push(study_id@));
        }
        Ok(())
    }
}


/// What queueing `target` behind its missing prerequisites does to the queue:
/// the path search's failure, a full queue, or the path queued up to the
/// first study without terms.
pub open spec fn path_queue_result(
    studies: Seq<SyntheticStudyDescriptor>,
    owned: Map<Seq<char>, ()>,
    terms: Map<Seq<char>, GodResearchStudyTerms>,
    repeatable: Map<Seq<char>, ()>,
    completions: Map<Seq<char>, u32>,
    q0: Seq<GodResearchQueueEntry>,
    q1: Seq<GodResearchQueueEntry>,
    target: Seq<char>,
    r: Result<Seq<Seq<char>>, ResearchPurchaseError>,
) -> bool {
    match god_missing_path(studies, owned, q0, target, Set::empty(), Seq::empty(), studies.len()) {
        Err(e) => r == Err::<Seq<Seq<char>>, ResearchPurchaseError>(e) && q1 == q0,
        Ok(p) => if q0.len() + p.len() > MAX_GOD_RESEARCH_QUEUE {
            r == Err::<Seq<Seq<char>>, ResearchPurchaseError>(ResearchPurchaseError::GodQueueCapacityExceeded) && q1 == q0
        } else {
            let k = termed_prefix(terms, repeatable, completions, p);
            &&& path_queued(q0, q1, terms, repeatable, completions, p, k)
            &&& if k == p.len() {
                r == Ok::<Seq<Seq<char>>, ResearchPurchaseError>(p)
            } else {
                r == Err::<Seq<Seq<char>>, ResearchPurchaseError>(path_term(terms, repeatable, completions, p[k])->Err_0)
            }
        },
    }
}

/// A returned path read as identifiers.
pub open spec fn path_view(r: Result<Vec<StudyId>, ResearchPurchaseError>) -> Result<Seq<Seq<char>>, ResearchPurchaseError> {
    match r {
        Ok(v) => Ok(purchase_ids(v@)),
        Err(e) => Err(e),
    }
}

impl GodResearchQueueState {
    /// Queue `target` behind every missing prerequisite, at their God terms.
    fn queue_path(
        &mut self,
        catalog: &SyntheticResearchCatalog,
        terms: &GodResearchTerms,
        owned: &IdMap<()>,
        completions: &IdMap<u32>,
        target: &StudyId,
    ) -> (r: Result<Vec<StudyId>, ResearchPurchaseError>)
        requires
            owned.wf(),
            completions.wf(),
            terms.by_study.wf(),
            catalog.repeatable_studies.wf(),
        ensures
            final(self).schema_version == old(self).schema_version,
            path_queue_result(
                catalog.studies@,
                owned.map(),
                terms.by_study.map(),
                catalog.repeatable_studies.map(),
                completions.map(),
                old(self).entries@,
                final(self).entries@,
                target@,
                path_view(r),
            ),
    {
        let ghost st = catalog.studies@;
        let ghost tm = terms.by_study.map();
        let ghost rp = catalog.repeatable_studies.map();
        let ghost cm = completions.map();
        let mut visiting: IdMap<()> = IdMap::new();
        let mut path: Vec<StudyId> = Vec::new();
        proof {
            catalog_ids(st).lemma_cardinality_of_set();
            assert(visiting.map().dom() =~= Set::<Seq<char>>::empty());
            assert(purchase_ids(path@) =~= Seq::<Seq<char>>::empty());
        }
        match self.collect_missing_path(catalog, owned, target, &mut visiting, &mut path, Ghost(st.len())) {
            Ok(()) => {},
            Err(e) => return Err(e),
        }
        let ghost p = purchase_ids(path@);
        if path.len() > MAX_GOD_RESEARCH_QUEUE || self.entries.len() > MAX_GOD_RESEARCH_QUEUE - path.len() {
            return Err(ResearchPurchaseError::GodQueueCapacityExceeded);
        }
        let ghost q0 = self.entries@;
        proof {
            lemma_termed_prefix(tm, rp, cm, p);
            assert(q0.subrange(0, q0.len() as int) =~= q0);
        }
        let ghost k = termed_prefix(tm, rp, cm, p);
        let mut i: usize = 0;
        while i < path.len()
            invariant
                p == purchase_ids(path@),
                q0 == old(self).entries@,
                st == catalog.studies@,
                god_missing_path(st, owned.map(), q0, target@, Set::empty(), Seq::empty(), st.len())
                    == Ok::<Seq<Seq<char>>, ResearchPurchaseError>(p),
                self.schema_version == old(self).schema_version,
                terms.by_study.wf(),
                completions.wf(),
                catalog.repeatable_studies.wf(),
                tm == terms.by_study.map(),
                rp == catalog.repeatable_studies.map(),
                cm == completions.map(),
                k == termed_prefix(tm, rp, cm, p),
                0 <= k <= p.len(),
                forall|j: int| 0 <= j < k ==> #[trigger] path_term(tm, rp, cm, p[j]) is Ok,
                k < p.len() ==> path_term(tm, rp, cm, p[k]) is Err,
                i <= k,
                q0.len() + p.len() <= MAX_GOD_RESEARCH_QUEUE,
                path_queued(q0, self.entries@, tm, rp, cm, p, i as int),
            decreases path@.len() - i,
        {
            let id = &path[i];
            proof {
                assert(p[i as int] == id@);
            }
            let mut term = match terms.get(id) {
                Ok(t) => t,
                Err(e) => {
                    proof {
                        assert(path_term(tm, rp, cm, p[i as int]) == Err::<GodResearchStudyTerms, ResearchPurchaseError>(e));
                        assert(i == k);
                    }
                    return Err(e);
                },
            };
            if catalog.is_repeatable(id) {
                let prior: u32 = match completions.get(id.as_str()) {
                    Some(c) => *c,
                    None => 0,
                };
                proof {
                    assert(prior == completions_of(cm, id@));
                }
                term.price = match doubled_repeat_price(term.price, prior) {
                    Ok(price) => price,
                    Err(e) => {
                        proof {
                            assert(path_term(tm, rp, cm, p[i as int]) == Err::<GodResearchStudyTerms, ResearchPurchaseError>(e));
                            assert(i == k);
                        }
                        return Err(e);
                    },
                };
            }
            proof {
                assert(path_term(tm, rp, cm, p[i as int]) == Ok::<GodResearchStudyTerms, ResearchPurchaseError>(term));
            }
            let ghost before = self.entries@;
            self.entries.push(
                GodResearchQueueEntry {
                    study_id: id.duplicate(),
                    currency: term.currency,
                    frozen_price: term.price,
                    frozen_duration_game_minutes: term.duration_game_minutes,
                    completed_labor_minutes: 0,
                    frozen: false,
                },
            );
            proof {
                assert(self.entries@.subrange(0, q0.len() as int) =~= before.subrange(0, q0.len() as int));
                assert forall|j: int| 0 <= j < i + 1 implies entry_queued(
                    #[trigger] self.entries@[q0.len() + j],
                    p[j],
                    path_term(tm, rp, cm, p[j])->Ok_0,
                ) by {
                    if j < i {
                        assert(self.entries@[q0.len() + j] == before[q0.len() + j]);
                    }
                }
            }
            i = i + 1;
        }
        Ok(path)
    }
}

/// What queueing `target` did: the queue changed as `inner` reports, and the
/// version moved on only when studies were queued.
pub open spec fn target_queued(
    a: ResearchPurchaseState,
    b: ResearchPurchaseState,
    catalog: SyntheticResearchCatalog,
    terms: Map<Seq<char>, GodResearchStudyTerms>,
    target: Seq<char>,
    inner: Result<Seq<Seq<char>>, ResearchPurchaseError>,
    r: Result<Seq<Seq<char>>, ResearchPurchaseError>,
) -> bool {
    &&& path_queue_result(
        catalog.studies@,
        a.owned_studies.map(),
        terms,
        catalog.repeatable_studies.map(),
        a.repeatable_completions.map(),
        a.god_queue.entries@,
        b.god_queue.entries@,
        target,
        inner,
    )
    &&& match inner {
        Err(e) => r == inner && b.version == a.version,
        Ok(p) => if p.len() == 0 {
            r == inner && b.version == a.version
        } else {
            bumped(a, b, r, inner)
        },
    }
}

impl ResearchPurchaseState {
    /// Queue a God target and every missing prerequisite in dependency order.
    /// Nothing is spent here: only the front may freeze Notes or Void Insight.
    pub fn queue_god_target(&mut self, catalog: &SyntheticResearchCatalog, terms: &GodResearchTerms, study_id: StudyId) -> (r:
        Result<Vec<StudyId>, ResearchPurchaseError>)
        requires
            purchase_maps_wf(*old(self)),
            terms.by_study.wf(),
            catalog.repeatable_studies.wf(),
        ensures
            purchase_maps_wf(*final(self)),
            same_lanes(*old(self), *final(self)),
            !purchase_state_rules(*old(self)) ==> r == Err::<Vec<StudyId>, ResearchPurchaseError>(
                ResearchPurchaseError::MalformedPersistence,
            ) && unchanged(*old(self), *final(self)),
            purchase_state_rules(*old(self)) && !catalog_rules(*catalog) ==> r == Err::<Vec<StudyId>, ResearchPurchaseError>(
                ResearchPurchaseError::MalformedCatalog,
            ) && unchanged(*old(self), *final(self)),
            purchase_state_rules(*old(self)) && catalog_rules(*catalog) ==> exists|inner: Result<Seq<Seq<char>>, ResearchPurchaseError>|
                #[trigger] target_queued(*old(self), *final(self), *catalog, terms.by_study.map(), study_id@, inner, path_view(r)),
    {
        match self.validate() {
            Ok(()) => {},
            Err(e) => return Err(e),
        }
        match catalog.validate() {
            Ok(()) => {},
            Err(e) => return Err(e),
        }
        let ghost a = *self;
        let queued = self.god_queue.queue_path(catalog, terms, &self.owned_studies, &self.repeatable_completions, &study_id);
        let ghost inner = path_view(queued);
        let queued = match queued {
            Ok(v) => v,
            Err(e) => {
                proof {
                    assert(target_queued(a, *self, *catalog, terms.by_study.map(), study_id@, inner, inner));
                }
                return Err(e);
            },
        };
        if queued.len() != 0 {
            match self.bump_version() {
                Ok(()) => {},
                Err(e) => {
                    proof {
                        let rv = Err::<Seq<Seq<char>>, ResearchPurchaseError>(e);
                        assert(path_view(Err::<Vec<StudyId>, ResearchPurchaseError>(e)) == rv);
                        assert(target_queued(a, *self, *catalog, terms.by_study.map(), study_id@, inner, rv));
                    }
                    return Err(e);
                },
            }
        }
        proof {
            assert(target_queued(a, *self, *catalog, terms.by_study.map(), study_id@, inner, inner));
        }
        Ok(queued)
    }
}


/// Queue entry `i` needs a study of `r`.
pub open spec fn needs_any(studies: Seq<SyntheticStudyDescriptor>, q: Seq<GodResearchQueueEntry>, i: int, r: Set<Seq<char>>) -> bool {
    let pre = prereqs_of(studies, catalog_index(studies, q[i].study_id@));
    exists|p: int| 0 <= p < pre.len() && r.contains(#[trigger] pre[p])
}

/// The studies removing `target` takes with it after `k` rounds of adding
/// every queued study that needs one already taken.
pub open spec fn removal_closure(studies: Seq<SyntheticStudyDescriptor>, q: Seq<GodResearchQueueEntry>, target: Seq<char>, k: nat) -> Set<
    Seq<char>,
>
    decreases k,
{
    if k == 0 {
        Set::empty().insert(target)
    } else {
        let prev = removal_closure(studies, q, target, (k - 1) as nat);
        prev.union(
            Set::new(|x: Seq<char>| exists|i: int| 0 <= i < q.len() && (#[trigger] q[i]).study_id@ == x && needs_any(studies, q, i, prev)),
        )
    }
}

/// Everything removing `target` takes: the target and every queued study
/// that, through queued studies, needs it.
pub open spec fn removal_set(studies: Seq<SyntheticStudyDescriptor>, q: Seq<GodResearchQueueEntry>, target: Seq<char>) -> Set<Seq<char>> {
    removal_closure(studies, q, target, (q.len() + 1) as nat)
}

proof fn lemma_closure_members(studies: Seq<SyntheticStudyDescriptor>, q: Seq<GodResearchQueueEntry>, target: Seq<char>, k: nat)
    ensures
        removal_closure(studies, q, target, k).contains(target),
        forall|x: Seq<char>| #[trigger] removal_closure(studies, q, target, k).contains(x) ==> x == target || !absent_from(q, x),
    decreases k,
{
    if k > 0 {
        let prev = removal_closure(studies, q, target, (k - 1) as nat);
        lemma_closure_members(studies, q, target, (k - 1) as nat);
        assert forall|x: Seq<char>| #[trigger] removal_closure(studies, q, target, k).contains(x) implies x == target || !absent_from(q, x) by {
            if !prev.contains(x) {
                let i = choose|i: int| 0 <= i < q.len() && (#[trigger] q[i]).study_id@ == x && needs_any(studies, q, i, prev);
                assert(q[i].study_id@ == x);
            }
        }
    }
}

proof fn lemma_closure_step(studies: Seq<SyntheticStudyDescriptor>, q: Seq<GodResearchQueueEntry>, target: Seq<char>, k: nat, i: int)
    requires
        0 <= i < q.len(),
        god_ids_distinct(q),
    ensures
        removal_closure(studies, q, target, k + 1).contains(q[i].study_id@) == (removal_closure(studies, q, target, k).contains(
            q[i].study_id@,
        ) || needs_any(studies, q, i, removal_closure(studies, q, target, k))),
{
    let prev = removal_closure(studies, q, target, k);
    if removal_closure(studies, q, target, k + 1).contains(q[i].study_id@) && !prev.contains(q[i].study_id@) {
        let j = choose|j: int| 0 <= j < q.len() && (#[trigger] q[j]).study_id@ == q[i].study_id@ && needs_any(studies, q, j, prev);
        if j < i {
            assert(q[j].study_id@ != q[i].study_id@);
        } else if i < j {
            assert(q[i].study_id@ != q[j].study_id@);
        }
    }
}

proof fn lemma_closure_stays(studies: Seq<SyntheticStudyDescriptor>, q: Seq<GodResearchQueueEntry>, target: Seq<char>, k: nat, m: nat)
    requires
        k <= m,
        removal_closure(studies, q, target, k + 1) == removal_closure(studies, q, target, k),
    ensures
        removal_closure(studies, q, target, m) == removal_closure(studies, q, target, k),
    decreases m,
{
    if k < m {
        lemma_closure_stays(studies, q, target, k, (m - 1) as nat);
        assert(removal_closure(studies, q, target, m) == removal_closure(studies, q, target, k + 1));
    }
}

/// How many marks are set.
pub open spec fn count_true(s: Seq<bool>) -> nat
    decreases s.len(),
{
    if s.len() == 0 {
        0
    } else {
        count_true(s.drop_last()) + if s.last() {
            1nat
        } else {
            0nat
        }
    }
}

proof fn lemma_count_grows(a: Seq<bool>, b: Seq<bool>)
    requires
        a.len() == b.len(),
        forall|i: int| 0 <= i < a.len() && a[i] ==> b[i],
    ensures
        count_true(a) <= count_true(b) <= b.len(),
        (exists|i: int| 0 <= i < a.len() && a[i] != b[i]) ==> count_true(a) < count_true(b),
    decreases a.len(),
{
    if a.len() > 0 {
        lemma_count_grows(a.drop_last(), b.drop_last());
        if exists|i: int| 0 <= i < a.len() && a[i] != b[i] {
            let i = choose|i: int| 0 <= i < a.len() && a[i] != b[i];
            if i < a.len() - 1 {
                assert(a.drop_last()[i] != b.drop_last()[i]);
            }
        }
    }
}

impl GodResearchQueueState {
    /// Whether entry `i` needs a study marked in `marks` or `target` itself.
    fn entry_needs_marked(
        &self,
        catalog: &SyntheticResearchCatalog,
        k: usize,
        target: &StudyId,
        marks: &Vec<bool>,
        Ghost(i): Ghost<int>,
        Ghost(r): Ghost<Set<Seq<char>>>,
    ) -> (res: bool)
        requires
            0 <= i < self.entries@.len(),
            catalog_first_at(catalog.studies@, self.entries@[i].study_id@, k as int),
            marks@.len() == self.entries@.len(),
            r.contains(target@),
            forall|x: Seq<char>| #[trigger] r.contains(x) ==> x == target@ || !absent_from(self.entries@, x),
            forall|j: int| 0 <= j < self.entries@.len() ==> marks@[j] == r.contains(#[trigger] self.entries@[j].study_id@),
        ensures
            res == needs_any(catalog.studies@, self.entries@, i, r),
    {
        let ghost st = catalog.studies@;
        let ghost q = self.entries@;
        proof {
            lemma_catalog_index(st, q[i].study_id@, k as int);
        }
        let d = &catalog.studies[k];
        let ghost pre = prereqs_of(st, k as int);
        let m = d.prerequisites.len();
        let mut p: usize = 0;
        while p < m
            invariant
                st == catalog.studies@,
                q == self.entries@,
                k < st.len(),
                *d == st[k as int],
                pre == prereqs_of(st, k as int),
                0 <= i < q.len(),
                catalog_index(st, q[i].study_id@) == k as int,
                m == pre.len(),
                p <= m,
                marks@.len() == q.len(),
                r.contains(target@),
                forall|x: Seq<char>| #[trigger] r.contains(x) ==> x == target@ || !absent_from(q, x),
                forall|j: int| 0 <= j < q.len() ==> marks@[j] == r.contains(#[trigger] q[j].study_id@),
                forall|b: int| 0 <= b < p ==> !r.contains(#[trigger] pre[b]),
            decreases m - p,
        {
            let need = &d.prerequisites[p];
            proof {
                assert(pre[p as int] == need@);
            }
            if need.same(target) {
                proof {
                    assert(r.contains(pre[p as int]));
                }
                return true;
            }
            match self.position(need) {
                Some(j) => {
                    if marks[j] {
                        proof {
                            assert(r.contains(pre[p as int]));
                        }
                        return true;
                    }
                },
                None => {},
            }
            p = p + 1;
        }
        proof {
            assert(!needs_any(st, q, i, r));
        }
        false
    }

    /// Marks the entries removing `target` takes with it, which is the
    /// closure `removal_set`.
    fn removal_marks(&self, catalog: &SyntheticResearchCatalog, target: &StudyId, at: &Vec<usize>) -> (marks: Vec<bool>)
        requires
            god_ids_distinct(self.entries@),
            self.entries@.len() <= MAX_GOD_RESEARCH_QUEUE,
            at@.len() == self.entries@.len(),
            forall|i: int| 0 <= i < self.entries@.len() ==> catalog_first_at(catalog.studies@, (#[trigger] self.entries@[i]).study_id@, at@[i] as int),
        ensures
            marks@.len() == self.entries@.len(),
            forall|i: int| 0 <= i < self.entries@.len() ==> marks@[i] == removal_set(catalog.studies@, self.entries@, target@).contains(
                #[trigger] self.entries@[i].study_id@,
            ),
    {
        let ghost st = catalog.studies@;
        let ghost q = self.entries@;
        let n = self.entries.len();
        let mut marks: Vec<bool> = Vec::new();
        let mut i: usize = 0;
        while i < n
            invariant
                q == self.entries@,
                n == q.len(),
                i <= n,
                marks@.len() == i,
                forall|j: int| 0 <= j < i ==> marks@[j] == removal_closure(st, q, target@, 0).contains(#[trigger] q[j].study_id@),
            decreases n - i,
        {
            let hit = self.entries[i].study_id.same(target);
            proof {
                assert(removal_closure(st, q, target@, 0) == Set::empty().insert(target@));
            }
            marks.push(hit);
            i = i + 1;
        }
        let mut round: usize = 0;
        let mut changed = true;
        proof {
            lemma_count_grows(marks@, marks@);
        }
        while changed
            invariant
                st == catalog.studies@,
                q == self.entries@,
                n == q.len(),
                n <= MAX_GOD_RESEARCH_QUEUE,
                god_ids_distinct(q),
                at@.len() == n,
                forall|a: int| 0 <= a < n ==> catalog_first_at(st, (#[trigger] q[a]).study_id@, at@[a] as int),
                marks@.len() == n,
                forall|a: int| 0 <= a < n ==> marks@[a] == removal_closure(st, q, target@, round as nat).contains(#[trigger] q[a].study_id@),
                count_true(marks@) <= n,
                round <= count_true(marks@) + if changed { 0int } else { 1int },
                !changed ==> round >= 1 && removal_closure(st, q, target@, round as nat) == removal_closure(st, q, target@, (round - 1) as nat),
            decreases n + 1 - count_true(marks@) + if changed { 1int } else { 0int },
        {
            let ghost r = removal_closure(st, q, target@, round as nat);
            proof {
                lemma_closure_members(st, q, target@, round as nat);
            }
            let mut next: Vec<bool> = Vec::new();
            let mut any = false;
            let mut a: usize = 0;
            while a < n
                invariant
                    st == catalog.studies@,
                    q == self.entries@,
                    n == q.len(),
                    god_ids_distinct(q),
                    r == removal_closure(st, q, target@, round as nat),
                    r.contains(target@),
                    forall|x: Seq<char>| #[trigger] r.contains(x) ==> x == target@ || !absent_from(q, x),
                    at@.len() == n,
                    forall|x: int| 0 <= x < n ==> catalog_first_at(st, (#[trigger] q[x]).study_id@, at@[x] as int),
                    marks@.len() == n,
                    forall|x: int| 0 <= x < n ==> marks@[x] == r.contains(#[trigger] q[x].study_id@),
                    a <= n,
                    next@.len() == a,
                    forall|x: int| 0 <= x < a ==> next@[x] == removal_closure(st, q, target@, (round + 1) as nat).contains(#[trigger] q[x].study_id@),
                    forall|x: int| 0 <= x < a && marks@[x] ==> next@[x],
                    any == exists|x: int| 0 <= x < a && next@[x] != marks@[x],
                decreases n - a,
            {
                proof {
                    assert(catalog_first_at(st, q[a as int].study_id@, at@[a as int] as int));
                }
                let needs = self.entry_needs_marked(catalog, at[a], target, &marks, Ghost(a as int), Ghost(r));
                let now = marks[a] || needs;
                proof {
                    lemma_closure_step(st, q, target@, round as nat, a as int);
                }
                if now != marks[a] {
                    any = true;
                }
                next.push(now);
                a = a + 1;
            }
            proof {
                lemma_count_grows(marks@, next@);
                if !any {
                    lemma_closure_members(st, q, target@, (round + 1) as nat);
                    assert forall|x: Seq<char>| removal_closure(st, q, target@, (round + 1) as nat).contains(x) implies r.contains(x) by {
                        if x != target@ {
                            let k = choose|k: int| 0 <= k < q.len() && (#[trigger] q[k]).study_id@ == x;
                            assert(next@[k] == marks@[k]);
                        }
                    }
                    assert forall|x: Seq<char>| r.contains(x) implies removal_closure(st, q, target@, (round + 1) as nat).contains(x) by {}
                    assert(removal_closure(st, q, target@, (round + 1) as nat) =~= r);
                }
            }
            marks = next;
            changed = any;
            round = round + 1;
        }
        proof {
            lemma_closure_stays(st, q, target@, (round - 1) as nat, (n + 1) as nat);
        }
        marks
    }
}


/// The first `k` entries that removal keeps, in order.
pub open spec fn kept_upto(q: Seq<GodResearchQueueEntry>, r: Set<Seq<char>>, k: int) -> Seq<GodResearchQueueEntry>
    decreases k,
{
    if k <= 0 {
        Seq::empty()
    } else {
        let p = kept_upto(q, r, k - 1);
        if r.contains(q[k - 1].study_id@) {
            p
        } else {
            p.push(q[k - 1])
        }
    }
}

/// The studies among the first `k` entries that removal takes, in order.
pub open spec fn removed_upto(q: Seq<GodResearchQueueEntry>, r: Set<Seq<char>>, k: int) -> Seq<Seq<char>>
    decreases k,
{
    if k <= 0 {
        Seq::empty()
    } else {
        let p = removed_upto(q, r, k - 1);
        if r.contains(q[k - 1].study_id@) {
            p.push(q[k - 1].study_id@)
        } else {
            p
        }
    }
}

/// The frozen payments among the first `k` removed entries, in order.
pub open spec fn refunds_upto(q: Seq<GodResearchQueueEntry>, r: Set<Seq<char>>, k: int) -> Seq<(GodResearchCurrency, u64)>
    decreases k,
{
    if k <= 0 {
        Seq::empty()
    } else {
        let p = refunds_upto(q, r, k - 1);
        if r.contains(q[k - 1].study_id@) && q[k - 1].frozen {
            p.push((q[k - 1].currency, q[k - 1].frozen_price))
        } else {
            p
        }
    }
}

/// The labor of the first `k` removed entries, summed and held within `u64`.
pub open spec fn lost_upto(q: Seq<GodResearchQueueEntry>, r: Set<Seq<char>>, k: int) -> int
    decreases k,
{
    if k <= 0 {
        0
    } else {
        let p = lost_upto(q, r, k - 1);
        if r.contains(q[k - 1].study_id@) {
            if p + q[k - 1].completed_labor_minutes > u64::MAX {
                u64::MAX as int
            } else {
                p + q[k - 1].completed_labor_minutes
            }
        } else {
            p
        }
    }
}

/// The funds after refunding the first `k` removed frozen entries, or the
/// funds at the first refund that would overflow.
pub open spec fn credit_upto(f: ResearchFunds, q: Seq<GodResearchQueueEntry>, r: Set<Seq<char>>, k: int) -> Result<
    ResearchFunds,
    ResearchFunds,
>
    decreases k,
{
    if k <= 0 {
        Ok(f)
    } else {
        match credit_upto(f, q, r, k - 1) {
            Err(x) => Err(x),
            Ok(g) => {
                let e = q[k - 1];
                if r.contains(e.study_id@) && e.frozen {
                    if balance_in(g, e.currency) + e.frozen_price > u64::MAX {
                        Err(g)
                    } else {
                        Ok(with_balance(g, e.currency, (balance_in(g, e.currency) + e.frozen_price) as u64))
                    }
                } else {
                    Ok(g)
                }
            },
        }
    }
}

proof fn lemma_credit_stuck(f: ResearchFunds, q: Seq<GodResearchQueueEntry>, r: Set<Seq<char>>, k: int, m: int)
    requires
        0 <= k <= m,
        credit_upto(f, q, r, k) is Err,
    ensures
        credit_upto(f, q, r, m) == credit_upto(f, q, r, k),
    decreases m,
{
    if k < m {
        lemma_credit_stuck(f, q, r, k, m - 1);
    }
}

/// Which error, if any, refuses to start removing `target`.
pub open spec fn removal_error(studies: Seq<SyntheticStudyDescriptor>, q: Seq<GodResearchQueueEntry>, target: Seq<char>) -> Option<
    ResearchPurchaseError,
> {
    if absent_from(q, target) {
        Some(ResearchPurchaseError::GodQueueTargetNotFound)
    } else if exists|i: int| 0 <= i < q.len() && catalog_lacks(studies, #[trigger] q[i].study_id@) {
        Some(ResearchPurchaseError::MalformedCatalog)
    } else {
        None
    }
}

/// What removing `target` with its dependents does to the queue and funds.
pub open spec fn removal_done(
    studies: Seq<SyntheticStudyDescriptor>,
    owned: Map<Seq<char>, ()>,
    q0: Seq<GodResearchQueueEntry>,
    target: Seq<char>,
    f0: ResearchFunds,
    q1: Seq<GodResearchQueueEntry>,
    f1: ResearchFunds,
    res: Result<GodResearchRemoval, ResearchPurchaseError>,
) -> bool {
    match removal_error(studies, q0, target) {
        Some(e) => res == Err::<GodResearchRemoval, ResearchPurchaseError>(e) && q1 == q0 && f1 == f0,
        None => {
            let r = removal_set(studies, q0, target);
            let n = q0.len() as int;
            match credit_upto(f0, q0, r, n) {
                Err(fp) => res == Err::<GodResearchRemoval, ResearchPurchaseError>(ResearchPurchaseError::Overflow) && q1.len() == 0
                    && f1 == fp,
                Ok(fk) => {
                    &&& f1 == fk
                    &&& q1 == kept_upto(q0, r, n)
                    &&& if purchase_topological(studies, owned, q1) {
                        &&& res is Ok
                        &&& purchase_ids(res->Ok_0.removed_studies@) == removed_upto(q0, r, n)
                        &&& res->Ok_0.refunded@ == refunds_upto(q0, r, n)
                        &&& res->Ok_0.lost_labor_minutes == lost_upto(q0, r, n)
                    } else {
                        res == Err::<GodResearchRemoval, ResearchPurchaseError>(ResearchPurchaseError::GodQueuePrerequisiteOrder)
                    }
                },
            }
        },
    }
}

impl GodResearchQueueState {
    /// Remove a queued study with every queued study that needs it,
    /// refunding frozen payments and reporting the labor lost.
    fn remove_with_dependents(
        &mut self,
        catalog: &SyntheticResearchCatalog,
        owned: &IdMap<()>,
        study_id: &StudyId,
        funds: &mut ResearchFunds,
    ) -> (res: Result<GodResearchRemoval, ResearchPurchaseError>)
        requires
            owned.wf(),
            god_ids_distinct(old(self).entries@),
            old(self).entries@.len() <= MAX_GOD_RESEARCH_QUEUE,
        ensures
            final(self).schema_version == old(self).schema_version,
            removal_done(catalog.studies@, owned.map(), old(self).entries@, study_id@, *old(funds), final(self).entries@, *final(funds), res),
    {
        let ghost st = catalog.studies@;
        let ghost q = self.entries@;
        let ghost f0 = *funds;
        if self.position(study_id).is_none() {
            return Err(ResearchPurchaseError::GodQueueTargetNotFound);
        }
        let n = self.entries.len();
        let mut at: Vec<usize> = Vec::new();
        let mut i: usize = 0;
        while i < n
            invariant
                st == catalog.studies@,
                q == self.entries@,
                !absent_from(q, study_id@),
                n == q.len(),
                i <= n,
                at@.len() == i,
                forall|a: int| 0 <= a < i ==> catalog_first_at(st, (#[trigger] q[a]).study_id@, at@[a] as int),
            decreases n - i,
        {
            match catalog.position(&self.entries[i].study_id) {
                Some(k) => at.push(k),
                None => {
                    proof {
                        assert(catalog_lacks(st, q[i as int].study_id@));
                    }
                    return Err(ResearchPurchaseError::MalformedCatalog);
                },
            }
            i = i + 1;
        }
        proof {
            assert forall|a: int| 0 <= a < q.len() implies !catalog_lacks(st, #[trigger] q[a].study_id@) by {
                assert(0 <= at@[a] < st.len() && st[at@[a] as int].id@ == q[a].study_id@);
            }
        }
        proof {
            assert(removal_error(st, q, study_id@) is None);
        }
        let marks = self.removal_marks(catalog, study_id, &at);
        let ghost r = removal_set(st, q, study_id@);
        let mut kept: Vec<GodResearchQueueEntry> = Vec::new();
        let mut removed: Vec<StudyId> = Vec::new();
        let mut refunded: Vec<(GodResearchCurrency, u64)> = Vec::new();
        let mut lost: u64 = 0;
        let mut i: usize = 0;
        while i < n
            invariant
                q == self.entries@,
                q == old(self).entries@,
                f0 == *old(funds),
                st == catalog.studies@,
                r == removal_set(st, q, study_id@),
                removal_error(st, q, study_id@) is None,
                n == q.len(),
                self.schema_version == old(self).schema_version,
                marks@.len() == n,
                forall|a: int| 0 <= a < n ==> marks@[a] == r.contains(#[trigger] q[a].study_id@),
                i <= n,
                credit_upto(f0, q, r, i as int) == Ok::<ResearchFunds, ResearchFunds>(*funds),
                kept@ == kept_upto(q, r, i as int),
                purchase_ids(removed@) == removed_upto(q, r, i as int),
                refunded@ == refunds_upto(q, r, i as int),
                lost == lost_upto(q, r, i as int),
            decreases n - i,
        {
            let e = &self.entries[i];
            if marks[i] {
                if e.frozen {
                    match funds.credit(e.currency, e.frozen_price) {
                        Ok(()) => {},
                        Err(err) => {
                            proof {
                                assert(credit_upto(f0, q, r, i + 1) == Err::<ResearchFunds, ResearchFunds>(*funds));
                                lemma_credit_stuck(f0, q, r, i + 1, n as int);
                            }
                            self.entries = Vec::new();
                            proof {
                                assert(err == ResearchPurchaseError::Overflow);
                                assert(credit_upto(f0, q, r, n as int) == Err::<ResearchFunds, ResearchFunds>(*funds));
                                assert(self.entries@.len() == 0);
                                assert(removal_error(st, q, study_id@) is None);
                            }
                            return Err(err);
                        },
                    }
                    refunded.push((e.currency, e.frozen_price));
                }
                lost = lost.saturating_add(e.completed_labor_minutes);
                let ghost before = purchase_ids(removed@);
                removed.push(e.study_id.duplicate());
                proof {
                    assert(purchase_ids(removed@) =~= before.push(q[i as int].study_id@));
                }
            } else {
                kept.push(e.duplicate());
            }
            i = i + 1;
        }
        self.entries = kept;
        if !god_queue_order_is_topological(catalog, owned, &self.entries) {
            return Err(ResearchPurchaseError::GodQueuePrerequisiteOrder);
        }
        Ok(GodResearchRemoval { removed_studies: removed, refunded, lost_labor_minutes: lost })
    }
}


/// What removing `target` did: the queue and funds changed as `inner`
/// reports, and the version moved on when the removal succeeded.
pub open spec fn target_removed(
    a: ResearchPurchaseState,
    b: ResearchPurchaseState,
    catalog: SyntheticResearchCatalog,
    f0: ResearchFunds,
    f1: ResearchFunds,
    target: Seq<char>,
    inner: Result<GodResearchRemoval, ResearchPurchaseError>,
    r: Result<GodResearchRemoval, ResearchPurchaseError>,
) -> bool {
    &&& removal_done(catalog.studies@, a.owned_studies.map(), a.god_queue.entries@, target, f0, b.god_queue.entries@, f1, inner)
    &&& match inner {
        Err(e) => r == inner && b.version == a.version,
        Ok(_) => bumped(a, b, r, inner),
    }
}

impl ResearchPurchaseState {
    /// Remove a queued God study with every queued study that needs it,
    /// refunding what was frozen for them.
    pub fn remove_god_target(&mut self, catalog: &SyntheticResearchCatalog, funds: &mut ResearchFunds, study_id: &StudyId) -> (r:
        Result<GodResearchRemoval, ResearchPurchaseError>)
        requires
            purchase_maps_wf(*old(self)),
        ensures
            purchase_maps_wf(*final(self)),
            same_lanes(*old(self), *final(self)),
            !purchase_state_rules(*old(self)) ==> r == Err::<GodResearchRemoval, ResearchPurchaseError>(
                ResearchPurchaseError::MalformedPersistence,
            ) && unchanged(*old(self), *final(self)) && *final(funds) == *old(funds),
            purchase_state_rules(*old(self)) ==> exists|inner: Result<GodResearchRemoval, ResearchPurchaseError>|
                #[trigger] target_removed(*old(self), *final(self), *catalog, *old(funds), *final(funds), study_id@, inner, r),
    {
        match self.validate() {
            Ok(()) => {},
            Err(e) => return Err(e),
        }
        let ghost a = *self;
        let ghost f0 = *funds;
        let removal = match self.god_queue.remove_with_dependents(catalog, &self.owned_studies, study_id, funds) {
            Ok(v) => v,
            Err(e) => {
                proof {
                    let inner = Err::<GodResearchRemoval, ResearchPurchaseError>(e);
                    assert(target_removed(a, *self, *catalog, f0, *funds, study_id@, inner, inner));
                }
                return Err(e);
            },
        };
        let ghost inner = Ok::<GodResearchRemoval, ResearchPurchaseError>(removal);
        match self.bump_version() {
            Ok(()) => {},
            Err(e) => {
                proof {
                    assert(target_removed(a, *self, *catalog, f0, *funds, study_id@, inner, Err::<GodResearchRemoval, ResearchPurchaseError>(e)));
                }
                return Err(e);
            },
        }
        proof {
            assert(target_removed(a, *self, *catalog, f0, *funds, study_id@, inner, inner));
        }
        Ok(removal)
    }
}


/// Some finite study is unowned with every prerequisite owned.
pub open spec fn finite_frontier_open(studies: Seq<SyntheticStudyDescriptor>, repeatable: Map<Seq<char>, ()>, owned: Map<Seq<char>, ()>) -> bool {
    exists|i: int|
        0 <= i < studies.len() && !repeatable.contains_key((#[trigger] studies[i]).id@) && !owned.contains_key(studies[i].id@)
            && forall|q: int| 0 <= q < prereqs_of(studies, i).len() ==> owned.contains_key(#[trigger] prereqs_of(studies, i)[q])
}

fn owns_all(owned: &IdMap<()>, prerequisites: &Vec<StudyId>) -> (r: bool)
    requires
        owned.wf(),
    ensures
        r == forall|q: int| 0 <= q < prerequisites@.len() ==> owned.map().contains_key(#[trigger] purchase_ids(prerequisites@)[q]),
{
    let mut q: usize = 0;
    while q < prerequisites.len()
        invariant
            owned.wf(),
            q <= prerequisites@.len(),
            forall|b: int| 0 <= b < q ==> owned.map().contains_key(#[trigger] purchase_ids(prerequisites@)[b]),
        decreases prerequisites@.len() - q,
    {
        proof {
            assert(purchase_ids(prerequisites@)[q as int] == prerequisites@[q as int]@);
        }
        if !owned.contains_key(prerequisites[q].as_str()) {
            return false;
        }
        q = q + 1;
    }
    true
}

impl SyntheticResearchCatalog {
    fn has_unowned_finite_frontier(&self, progress: &ResearchPurchaseState) -> (r: bool)
        requires
            self.repeatable_studies.wf(),
            progress.owned_studies.wf(),
        ensures
            r == finite_frontier_open(self.studies@, self.repeatable_studies.map(), progress.owned_studies.map()),
    {
        let ghost st = self.studies@;
        let ghost rp = self.repeatable_studies.map();
        let ghost ow = progress.owned_studies.map();
        let mut i: usize = 0;
        while i < self.studies.len()
            invariant
                st == self.studies@,
                rp == self.repeatable_studies.map(),
                ow == progress.owned_studies.map(),
                self.repeatable_studies.wf(),
                progress.owned_studies.wf(),
                i <= st.len(),
                forall|a: int|
                    0 <= a < i ==> !(!rp.contains_key((#[trigger] st[a]).id@) && !ow.contains_key(st[a].id@) && forall|q: int|
                        0 <= q < prereqs_of(st, a).len() ==> ow.contains_key(#[trigger] prereqs_of(st, a)[q])),
            decreases st.len() - i,
        {
            let d = &self.studies[i];
            if !self.is_repeatable(&d.id) && !progress.owned_studies.contains_key(d.id.as_str()) && owns_all(
                &progress.owned_studies,
                &d.prerequisites,
            ) {
                return true;
            }
            i = i + 1;
        }
        false
    }
}

/// Which error, if any, refuses a Leader completion before the lane records it.
pub open spec fn leader_error(a: ResearchPurchaseState, catalog: SyntheticResearchCatalog, request: LeaderResearchRequest) -> Option<
    ResearchPurchaseError,
> {
    let st = catalog.studies@;
    let id = request.study_id@;
    if request.expected_research_version != a.version {
        Some(ResearchPurchaseError::StaleResearchVersion)
    } else if a.owned_studies.map().contains_key(id) {
        Some(ResearchPurchaseError::AlreadyOwned)
    } else if catalog.repeatable_studies.map().contains_key(id) && finite_frontier_open(
        st,
        catalog.repeatable_studies.map(),
        a.owned_studies.map(),
    ) {
        Some(ResearchPurchaseError::FiniteResearchRemaining)
    } else if catalog_lacks(st, id) {
        Some(ResearchPurchaseError::UnknownStudy)
    } else if !(forall|q: int|
        0 <= q < prereqs_of(st, catalog_index(st, id)).len() ==> a.owned_studies.map().contains_key(
            #[trigger] prereqs_of(st, catalog_index(st, id))[q],
        )) {
        Some(ResearchPurchaseError::NotFrontier)
    } else if duplicate_refused(request.duplicate_authorization, !absent_from(a.god_queue.entries@, id)) {
        Some(ResearchPurchaseError::LeaderDuplicateForbidden)
    } else {
        lane_record_error(a.leader_lane, request)
    }
}

/// The lane recorded the request.
pub open spec fn lane_recorded(l0: LeaderResearchLaneState, l1: LeaderResearchLaneState, request: LeaderResearchRequest) -> bool {
    &&& l1.schema_version == l0.schema_version
    &&& l1.events.map() == l0.events.map().insert(request.id@, event_for(request))
    &&& ticks_sorted(l1.committed_ticks@)
    &&& exists|p: int|
        0 <= p <= window_filter(l0.committed_ticks@, request.now_tick).len() && l1.committed_ticks@ == window_filter(
            l0.committed_ticks@,
            request.now_tick,
        ).insert(p, request.now_tick)
}

/// The completion a recorded request reports.
pub open spec fn completion_for(request: LeaderResearchRequest, overtake: Option<GodResearchRemoval>) -> LeaderResearchCompletion {
    LeaderResearchCompletion {
        study_id: request.study_id,
        duplicate_authorization: request.duplicate_authorization,
        event_kind: event_kind_of(request.duplicate_authorization),
        overtake,
    }
}

/// What a Leader completion that passed its checks did: the lane recorded
/// it, a queued copy was torn down as `removal` reports, and the study became
/// owned or counted once more.
pub open spec fn leader_completed(
    a: ResearchPurchaseState,
    b: ResearchPurchaseState,
    catalog: SyntheticResearchCatalog,
    f0: ResearchFunds,
    f1: ResearchFunds,
    request: LeaderResearchRequest,
    removal: Option<Result<GodResearchRemoval, ResearchPurchaseError>>,
    r: Result<LeaderResearchCompletion, ResearchPurchaseError>,
) -> bool {
    let id = request.study_id@;
    let queued = !absent_from(a.god_queue.entries@, id);
    &&& lane_recorded(a.leader_lane, b.leader_lane, request)
    &&& b.schema_version == a.schema_version
    &&& b.purchases@ == a.purchases@
    &&& b.automatic_quota == a.automatic_quota
    &&& b.god_queue.schema_version == a.god_queue.schema_version
    &&& (removal is Some <==> queued)
    &&& match removal {
        Some(inner) => removal_done(catalog.studies@, a.owned_studies.map(), a.god_queue.entries@, id, f0, b.god_queue.entries@, f1, inner),
        None => b.god_queue.entries@ == a.god_queue.entries@ && f1 == f0,
    }
    &&& match removal {
        Some(Err(e)) => r == Err::<LeaderResearchCompletion, ResearchPurchaseError>(e) && b.version == a.version
            && b.owned_studies.map() == a.owned_studies.map() && b.repeatable_completions.map() == a.repeatable_completions.map(),
        _ => {
        let ok = Ok::<LeaderResearchCompletion, ResearchPurchaseError>(
            completion_for(
                request,
                match removal {
                    Some(Ok(v)) => Some(v),
                    _ => None,
                },
            ),
        );
        if catalog.repeatable_studies.map().contains_key(id) {
            &&& b.owned_studies.map() == a.owned_studies.map()
            &&& if completions_of(a.repeatable_completions.map(), id) + 1 > u32::MAX {
                r == Err::<LeaderResearchCompletion, ResearchPurchaseError>(ResearchPurchaseError::Overflow)
                    && b.repeatable_completions.map() == a.repeatable_completions.map() && b.version == a.version
            } else {
                b.repeatable_completions.map() == completion_added(a.repeatable_completions.map(), id) && bumped(a, b, r, ok)
            }
        } else {
            &&& b.owned_studies.map() == a.owned_studies.map().insert(id, ())
            &&& b.repeatable_completions.map() == a.repeatable_completions.map()
            &&& bumped(a, b, r, ok)
        }
        },
    }
}

impl ResearchPurchaseState {
    /// Complete a study on the free Leader lane. It needs no ledger, queue
    /// slot, scholar or building; a queued copy of the study is torn down,
    /// refunding what was frozen for it.
    pub fn complete_leader_research(
        &mut self,
        catalog: &SyntheticResearchCatalog,
        funds: &mut ResearchFunds,
        request: LeaderResearchRequest,
    ) -> (r: Result<LeaderResearchCompletion, ResearchPurchaseError>)
        requires
            purchase_maps_wf(*old(self)),
            catalog.repeatable_studies.wf(),
        ensures
            purchase_maps_wf(*final(self)),
            !purchase_state_rules(*old(self)) ==> r == Err::<LeaderResearchCompletion, ResearchPurchaseError>(
                ResearchPurchaseError::MalformedPersistence,
            ) && unchanged(*old(self), *final(self)) && *final(funds) == *old(funds),
            purchase_state_rules(*old(self)) && !catalog_rules(*catalog) ==> r == Err::<LeaderResearchCompletion, ResearchPurchaseError>(
                ResearchPurchaseError::MalformedCatalog,
            ) && unchanged(*old(self), *final(self)) && *final(funds) == *old(funds),
            purchase_state_rules(*old(self)) && catalog_rules(*catalog) ==> match leader_error(*old(self), *catalog, request) {
                Some(e) => r == Err::<LeaderResearchCompletion, ResearchPurchaseError>(e) && unchanged(*old(self), *final(self))
                    && *final(funds) == *old(funds),
                None => exists|removal: Option<Result<GodResearchRemoval, ResearchPurchaseError>>|
                    #[trigger] leader_completed(*old(self), *final(self), *catalog, *old(funds), *final(funds), request, removal, r),
            },
    {
        let ghost a = *self;
        let ghost f0 = *funds;
        match self.validate() {
            Ok(()) => {},
            Err(e) => return Err(e),
        }
        match catalog.validate() {
            Ok(()) => {},
            Err(e) => return Err(e),
        }
        if request.expected_research_version != self.version {
            return Err(ResearchPurchaseError::StaleResearchVersion);
        }
        if self.owned_studies.contains_key(request.study_id.as_str()) {
            return Err(ResearchPurchaseError::AlreadyOwned);
        }
        let repeatable = catalog.is_repeatable(&request.study_id);
        if repeatable && catalog.has_unowned_finite_frontier(self) {
            return Err(ResearchPurchaseError::FiniteResearchRemaining);
        }
        let k = match catalog.position(&request.study_id) {
            Some(k) => k,
            None => return Err(ResearchPurchaseError::UnknownStudy),
        };
        proof {
            lemma_catalog_index(catalog.studies@, request.study_id@, k as int);
        }
        if !owns_all(&self.owned_studies, &catalog.studies[k].prerequisites) {
            proof {
                let st = catalog.studies@;
                assert(prereqs_of(st, catalog_index(st, request.study_id@)) == purchase_ids(st[k as int].prerequisites@));
                assert(!catalog_lacks(st, request.study_id@));
                assert(leader_error(a, *catalog, request) == Some(ResearchPurchaseError::NotFrontier));
            }
            return Err(ResearchPurchaseError::NotFrontier);
        }
        let queued = self.god_queue.position(&request.study_id).is_some();
        match request.duplicate_authorization.validate(queued) {
            Ok(()) => {},
            Err(e) => return Err(e),
        }
        match self.leader_lane.record(&request) {
            Ok(()) => {},
            Err(e) => return Err(e),
        }
        let ghost after_lane = *self;
        let overtake = if queued {
            match self.god_queue.remove_with_dependents(catalog, &self.owned_studies, &request.study_id, funds) {
                Ok(v) => Some(v),
                Err(e) => {
                    proof {
                        let removal = Some(Err::<GodResearchRemoval, ResearchPurchaseError>(e));
                        assert(leader_completed(a, *self, *catalog, f0, *funds, request, removal, Err::<LeaderResearchCompletion, ResearchPurchaseError>(e)));
                    }
                    return Err(e);
                },
            }
        } else {
            None
        };
        let ghost removal: Option<Result<GodResearchRemoval, ResearchPurchaseError>> = match &overtake {
            Some(v) => Some(Ok::<GodResearchRemoval, ResearchPurchaseError>(*v)),
            None => None,
        };
        if repeatable {
            match self.add_completion(&request.study_id) {
                Ok(()) => {},
                Err(e) => {
                    proof {
                        assert(leader_completed(a, *self, *catalog, f0, *funds, request, removal, Err::<LeaderResearchCompletion, ResearchPurchaseError>(e)));
                    }
                    return Err(e);
                },
            }
        } else {
            self.owned_studies.insert(String::from_str(request.study_id.as_str()), ());
        }
        match self.bump_version() {
            Ok(()) => {},
            Err(e) => {
                proof {
                    assert(leader_completed(a, *self, *catalog, f0, *funds, request, removal, Err::<LeaderResearchCompletion, ResearchPurchaseError>(e)));
                }
                return Err(e);
            },
        }
        let event_kind = LeaderResearchEventKind::from(request.duplicate_authorization);
        let completion = LeaderResearchCompletion {
            study_id: request.study_id,
            duplicate_authorization: request.duplicate_authorization,
            event_kind,
            overtake,
        };
        proof {
            assert(leader_completed(a, *self, *catalog, f0, *funds, request, removal, Ok::<LeaderResearchCompletion, ResearchPurchaseError>(completion)));
        }
        Ok(completion)
    }
}


/// Some candidate's repeatable flag disagrees with the catalog.
pub open spec fn candidates_mislabelled(candidates: Seq<LeaderResearchCandidate>, repeatable: Map<Seq<char>, ()>) -> bool {
    exists|i: int| 0 <= i < candidates.len() && (#[trigger] candidates[i]).repeatable != repeatable.contains_key(candidates[i].study_id@)
}

/// Candidate `i` may be picked: finite studies go first, the study is a catalog
/// frontier study not yet owned, and a funded queued copy needs a permit.
pub open spec fn candidate_eligible(
    a: ResearchPurchaseState,
    catalog: SyntheticResearchCatalog,
    candidates: Seq<LeaderResearchCandidate>,
    dup: LeaderDuplicateAuthorization,
    i: int,
) -> bool {
    let c = candidates[i];
    let st = catalog.studies@;
    let id = c.study_id@;
    let q = a.god_queue.entries@;
    &&& !(finite_frontier_open(st, catalog.repeatable_studies.map(), a.owned_studies.map()) && c.repeatable)
    &&& !catalog_lacks(st, id)
    &&& !a.owned_studies.map().contains_key(id)
    &&& forall|p: int|
        0 <= p < prereqs_of(st, catalog_index(st, id)).len() ==> a.owned_studies.map().contains_key(
            #[trigger] prereqs_of(st, catalog_index(st, id))[p],
        )
    &&& !(!absent_from(q, id) && q[choose|k: int| first_at(q, id, k)].frozen && dup is Absent)
}

/// A candidate's score, lowered by the estimated wait when the study is queued.
pub open spec fn candidate_rank(a: ResearchPurchaseState, c: LeaderResearchCandidate) -> int {
    let q = a.god_queue.entries@;
    let id = c.study_id@;
    let down = if absent_from(q, id) {
        0
    } else {
        let w = wait_total(q, (choose|k: int| first_at(q, id, k)) + 1);
        if w > i64::MAX {
            i64::MAX as int
        } else {
            w
        }
    };
    let t = decision_total(c.decision_inputs) - down;
    if t < i64::MIN {
        i64::MIN as int
    } else {
        t
    }
}

/// Candidate `i` ranks first: no eligible candidate scores higher, and none
/// with the same score has an earlier identifier.
pub open spec fn leader_pick(
    a: ResearchPurchaseState,
    catalog: SyntheticResearchCatalog,
    candidates: Seq<LeaderResearchCandidate>,
    dup: LeaderDuplicateAuthorization,
    i: int,
) -> bool {
    &&& 0 <= i < candidates.len()
    &&& candidate_eligible(a, catalog, candidates, dup, i)
    &&& forall|j: int|
        0 <= j < candidates.len() && candidate_eligible(a, catalog, candidates, dup, j) ==> candidate_rank(a, #[trigger] candidates[j])
            < candidate_rank(a, candidates[i]) || (candidate_rank(a, candidates[j]) == candidate_rank(a, candidates[i]) && text_le(
            candidates[i].study_id@,
            candidates[j].study_id@,
        ))
}

impl ResearchPurchaseState {
    fn candidate_checks(
        &self,
        catalog: &SyntheticResearchCatalog,
        candidate: &LeaderResearchCandidate,
        finite_available: bool,
        duplicate_authorization: LeaderDuplicateAuthorization,
        Ghost(candidates): Ghost<Seq<LeaderResearchCandidate>>,
        Ghost(i): Ghost<int>,
    ) -> (r: Option<i64>)
        requires
            purchase_maps_wf(*self),
            catalog.repeatable_studies.wf(),
            0 <= i < candidates.len(),
            candidates[i] == *candidate,
            finite_available == finite_frontier_open(catalog.studies@, catalog.repeatable_studies.map(), self.owned_studies.map()),
        ensures
            r is Some <==> candidate_eligible(*self, *catalog, candidates, duplicate_authorization, i),
            r matches Some(v) ==> v == candidate_rank(*self, *candidate),
    {
        let ghost st = catalog.studies@;
        if finite_available && candidate.repeatable {
            return None;
        }
        let k = match catalog.position(&candidate.study_id) {
            Some(k) => k,
            None => return None,
        };
        proof {
            lemma_catalog_index(st, candidate.study_id@, k as int);
        }
        if self.owned_studies.contains_key(candidate.study_id.as_str()) {
            return None;
        }
        if !owns_all(&self.owned_studies, &catalog.studies[k].prerequisites) {
            proof {
                assert(prereqs_of(st, catalog_index(st, candidate.study_id@)) == purchase_ids(st[k as int].prerequisites@));
            }
            return None;
        }
        let ghost q = self.god_queue.entries@;
        match self.god_queue.position(&candidate.study_id) {
            Some(pos) => {
                proof {
                    lemma_first_at_unique(q, candidate.study_id@, pos as int);
                }
                if self.god_queue.entries[pos].frozen && !duplicate_authorization.permits_duplicate() {
                    return None;
                }
            },
            None => {},
        }
        let down: i64 = match self.god_queue.estimated_wait_minutes(&candidate.study_id) {
            Some(w) => {
                proof {
                    let k2 = choose|k2: int| first_at(q, candidate.study_id@, k2) && w == wait_total(q, k2 + 1);
                    lemma_first_at_unique(q, candidate.study_id@, k2);
                }
                if w > i64::MAX as u64 {
                    i64::MAX
                } else {
                    w as i64
                }
            },
            None => 0,
        };
        let total = candidate.decision_inputs.total_score();
        let wide: i128 = total as i128 - down as i128;
        let score: i64 = if wide < i64::MIN as i128 {
            i64::MIN
        } else {
            wide as i64
        };
        proof {
            assert(prereqs_of(st, catalog_index(st, candidate.study_id@)) == purchase_ids(st[k as int].prerequisites@));
        }
        Some(score)
    }

    /// The Leader's pick among report-scored candidates. Funded God work is
    /// passed over unless a duplicate is authorized; queued work stays
    /// eligible but loses score by its estimated wait.
    pub fn select_leader_target(
        &self,
        catalog: &SyntheticResearchCatalog,
        candidates: &[LeaderResearchCandidate],
        duplicate_authorization: LeaderDuplicateAuthorization,
    ) -> (r: Result<Option<StudyId>, ResearchPurchaseError>)
        requires
            purchase_maps_wf(*self),
            catalog.repeatable_studies.wf(),
        ensures
            !purchase_state_rules(*self) ==> r == Err::<Option<StudyId>, ResearchPurchaseError>(
                ResearchPurchaseError::MalformedPersistence,
            ),
            purchase_state_rules(*self) && !catalog_rules(*catalog) ==> r == Err::<Option<StudyId>, ResearchPurchaseError>(
                ResearchPurchaseError::MalformedCatalog,
            ),
            purchase_state_rules(*self) && catalog_rules(*catalog) && candidates_mislabelled(
                candidates@,
                catalog.repeatable_studies.map(),
            ) ==> r == Err::<Option<StudyId>, ResearchPurchaseError>(ResearchPurchaseError::MalformedRequest),
            purchase_state_rules(*self) && catalog_rules(*catalog) && !candidates_mislabelled(
                candidates@,
                catalog.repeatable_studies.map(),
            ) ==> match r {
                Ok(None) => forall|j: int| 0 <= j < candidates@.len() ==> !candidate_eligible(*self, *catalog, candidates@, duplicate_authorization, j),
                Ok(Some(id)) => exists|i: int| leader_pick(*self, *catalog, candidates@, duplicate_authorization, i) && id@ == candidates@[i].study_id@,
                Err(_) => false,
            },
    {
        match self.validate() {
            Ok(()) => {},
            Err(e) => return Err(e),
        }
        match catalog.validate() {
            Ok(()) => {},
            Err(e) => return Err(e),
        }
        let ghost cs = candidates@;
        let n = candidates.len();
        let mut i: usize = 0;
        while i < n
            invariant
                n == cs.len(),
                cs == candidates@,
                catalog.repeatable_studies.wf(),
                purchase_state_rules(*self),
                catalog_rules(*catalog),
                i <= n,
                forall|j: int| 0 <= j < i ==> (#[trigger] cs[j]).repeatable == catalog.repeatable_studies.map().contains_key(cs[j].study_id@),
            decreases n - i,
        {
            if candidates[i].repeatable != catalog.is_repeatable(&candidates[i].study_id) {
                proof {
                    assert(candidates_mislabelled(cs, catalog.repeatable_studies.map()));
                }
                return Err(ResearchPurchaseError::MalformedRequest);
            }
            i = i + 1;
        }
        let finite_available = catalog.has_unowned_finite_frontier(self);
        let mut best: Option<(usize, i64)> = None;
        let mut i: usize = 0;
        while i < n
            invariant
                n == cs.len(),
                cs == candidates@,
                purchase_maps_wf(*self),
                catalog.repeatable_studies.wf(),
                finite_available == finite_frontier_open(catalog.studies@, catalog.repeatable_studies.map(), self.owned_studies.map()),
                i <= n,
                match best {
                    None => forall|j: int| 0 <= j < i ==> !candidate_eligible(*self, *catalog, cs, duplicate_authorization, j),
                    Some((b, v)) => {
                        &&& b < i
                        &&& candidate_eligible(*self, *catalog, cs, duplicate_authorization, b as int)
                        &&& v == candidate_rank(*self, cs[b as int])
                        &&& forall|j: int|
                            0 <= j < i && candidate_eligible(*self, *catalog, cs, duplicate_authorization, j) ==> candidate_rank(
                                *self,
                                #[trigger] cs[j],
                            ) < v || (candidate_rank(*self, cs[j]) == v && text_le(cs[b as int].study_id@, cs[j].study_id@))
                    },
                },
            decreases n - i,
        {
            match self.candidate_checks(catalog, &candidates[i], finite_available, duplicate_authorization, Ghost(cs), Ghost(i as int)) {
                None => {},
                Some(score) => {
                    let take = match best {
                        None => true,
                        Some((b, v)) => score > v || (score == v && text_less(candidates[i].study_id.as_str(), candidates[b].study_id.as_str())),
                    };
                    proof {
                        if let Some((b, v)) = best {
                            let bi = cs[b as int].study_id@;
                            let ci = cs[i as int].study_id@;
                            lemma_text_lt_total(bi, ci);
                            lemma_text_lt_asymmetric(bi, ci);
                            assert forall|j: int|
                                0 <= j < i + 1 && candidate_eligible(*self, *catalog, cs, duplicate_authorization, j) implies (if take {
                                candidate_rank(*self, #[trigger] cs[j]) < score || (candidate_rank(*self, cs[j]) == score && text_le(ci, cs[j].study_id@))
                            } else {
                                candidate_rank(*self, cs[j]) < v || (candidate_rank(*self, cs[j]) == v && text_le(bi, cs[j].study_id@))
                            }) by {
                                if j < i && take && candidate_rank(*self, cs[j]) == score {
                                    if text_lt(bi, cs[j].study_id@) {
                                        if text_lt(ci, bi) {
                                            lemma_text_lt_transitive(ci, bi, cs[j].study_id@);
                                        }
                                    }
                                }
                            }
                        }
                    }
                    if take {
                        best = Some((i, score));
                    }
                },
            }
            i = i + 1;
        }
        match best {
            None => {
                proof {
                    assert(forall|j: int| 0 <= j < candidates@.len() ==> !candidate_eligible(*self, *catalog, candidates@, duplicate_authorization, j));
                }
                Ok(None)
            },
            Some((b, _)) => {
                let id = candidates[b].study_id.duplicate();
                proof {
                    assert(leader_pick(*self, *catalog, cs, duplicate_authorization, b as int));
                }
                Ok(Some(id))
            },
        }
    }
}


/// `b` shows the same study as `a`.
pub open spec fn same_descriptor(a: SyntheticStudyDescriptor, b: SyntheticStudyDescriptor) -> bool {
    &&& b.id@ == a.id@
    &&& b.display_name@ == a.display_name@
    &&& purchase_ids(b.prerequisites@) == purchase_ids(a.prerequisites@)
    &&& b.undiscounted_price == a.undiscounted_price
    &&& b.tags@ == a.tags@
}

/// Catalog study `i` is unowned with every prerequisite owned.
pub open spec fn on_frontier(studies: Seq<SyntheticStudyDescriptor>, owned: Map<Seq<char>, ()>, i: int) -> bool {
    &&& !owned.contains_key(studies[i].id@)
    &&& forall|q: int| 0 <= q < prereqs_of(studies, i).len() ==> owned.contains_key(#[trigger] prereqs_of(studies, i)[q])
}

fn copy_ids(ids: &Vec<StudyId>) -> (r: Vec<StudyId>)
    ensures
        purchase_ids(r@) == purchase_ids(ids@),
{
    let mut r: Vec<StudyId> = Vec::new();
    let mut i: usize = 0;
    while i < ids.len()
        invariant
            i <= ids@.len(),
            r@.len() == i,
            forall|k: int| 0 <= k < i ==> (#[trigger] r@[k])@ == ids@[k]@,
        decreases ids@.len() - i,
    {
        r.push(ids[i].duplicate());
        i = i + 1;
    }
    proof {
        assert(purchase_ids(r@) =~= purchase_ids(ids@));
    }
    r
}

impl SyntheticStudyDescriptor {
    /// A copy showing the same study.
    pub fn duplicate(&self) -> (r: Self)
        ensures
            same_descriptor(*self, r),
    {
        SyntheticStudyDescriptor {
            id: self.id.duplicate(),
            display_name: self.display_name.clone(),
            prerequisites: copy_ids(&self.prerequisites),
            undiscounted_price: self.undiscounted_price,
            tags: self.tags.duplicate(),
        }
    }
}

/// `d` shows a study on the frontier of `ow`.
pub open spec fn shows_frontier_study(st: Seq<SyntheticStudyDescriptor>, ow: Map<Seq<char>, ()>, d: SyntheticStudyDescriptor) -> bool {
    exists|i: int| 0 <= i < st.len() && on_frontier(st, ow, i) && same_descriptor(#[trigger] st[i], d)
}

/// `v` lists the frontier of `owned` in identifier order: each entry shows a
/// frontier study, and every frontier study is listed.
pub open spec fn frontier_listed(st: Seq<SyntheticStudyDescriptor>, ow: Map<Seq<char>, ()>, v: Seq<SyntheticStudyDescriptor>) -> bool {
    &&& forall|a: int, b: int| 0 <= a < b < v.len() ==> text_lt((#[trigger] v[a]).id@, (#[trigger] v[b]).id@)
    &&& forall|a: int| 0 <= a < v.len() ==> shows_frontier_study(st, ow, #[trigger] v[a])
    &&& forall|i: int|
        0 <= i < st.len() && on_frontier(st, ow, i) ==> exists|a: int| 0 <= a < v.len() && (#[trigger] v[a]).id@ == (#[trigger] st[i]).id@
}

proof fn lemma_frontier_listed(st: Seq<SyntheticStudyDescriptor>, ow: Map<Seq<char>, ()>, order: Seq<usize>, v: Seq<SyntheticStudyDescriptor>)
    requires
        v.len() == order.len(),
        forall|x: int| 0 <= x < order.len() ==> (#[trigger] order[x]) < st.len() && on_frontier(st, ow, order[x] as int),
        forall|x: int, y: int| 0 <= x < y < order.len() ==> text_lt(st[(#[trigger] order[x]) as int].id@, st[(#[trigger] order[y]) as int].id@),
        forall|k: int| 0 <= k < st.len() && on_frontier(st, ow, k) ==> exists|x: int| 0 <= x < order.len() && #[trigger] order[x] == k,
        forall|x: int| 0 <= x < v.len() ==> same_descriptor(st[order[x] as int], #[trigger] v[x]),
    ensures
        frontier_listed(st, ow, v),
{
    assert forall|x: int, y: int| 0 <= x < y < v.len() implies text_lt((#[trigger] v[x]).id@, (#[trigger] v[y]).id@) by {
        assert(same_descriptor(st[order[x] as int], v[x]));
        assert(same_descriptor(st[order[y] as int], v[y]));
    }
    assert forall|x: int| 0 <= x < v.len() implies shows_frontier_study(st, ow, #[trigger] v[x]) by {
        let k = order[x] as int;
        assert(same_descriptor(st[k], v[x]));
    }
    assert forall|k: int| 0 <= k < st.len() && on_frontier(st, ow, k) implies exists|x: int|
        0 <= x < v.len() && (#[trigger] v[x]).id@ == (#[trigger] st[k]).id@ by {
        let x = choose|x: int| 0 <= x < order.len() && #[trigger] order[x] == k;
        assert(same_descriptor(st[order[x] as int], v[x]));
    }
}

impl SyntheticResearchCatalog {
    /// The catalog positions of the frontier studies, in identifier order.
    fn frontier_order(&self, progress: &ResearchPurchaseState) -> (order: Vec<usize>)
        requires
            progress.owned_studies.wf(),
            forall|x: int, y: int| 0 <= x < y < self.studies@.len() ==> (#[trigger] self.studies@[x]).id@ != (#[trigger] self.studies@[y]).id@,
        ensures
            forall|x: int|
                0 <= x < order@.len() ==> (#[trigger] order@[x]) < self.studies@.len() && on_frontier(
                    self.studies@,
                    progress.owned_studies.map(),
                    order@[x] as int,
                ),
            forall|x: int, y: int|
                0 <= x < y < order@.len() ==> text_lt(
                    self.studies@[(#[trigger] order@[x]) as int].id@,
                    self.studies@[(#[trigger] order@[y]) as int].id@,
                ),
            forall|k: int|
                0 <= k < self.studies@.len() && on_frontier(self.studies@, progress.owned_studies.map(), k) ==> exists|x: int|
                    0 <= x < order@.len() && #[trigger] order@[x] == k,
    {
        let ghost st = self.studies@;
        let ghost ow = progress.owned_studies.map();
        let n = self.studies.len();
        let mut order: Vec<usize> = Vec::new();
        let mut i: usize = 0;
        while i < n
            invariant
                st == self.studies@,
                ow == progress.owned_studies.map(),
                progress.owned_studies.wf(),
                n == st.len(),
                i <= n,
                forall|a: int| 0 <= a < order@.len() ==> (#[trigger] order@[a]) < i && on_frontier(st, ow, order@[a] as int),
                forall|a: int, b: int| 0 <= a < b < order@.len() ==> text_lt(st[(#[trigger] order@[a]) as int].id@, st[(#[trigger] order@[b]) as int].id@),
                forall|k: int| 0 <= k < i && on_frontier(st, ow, k) ==> exists|a: int| 0 <= a < order@.len() && #[trigger] order@[a] == k,
                forall|x: int, y: int| 0 <= x < y < n ==> (#[trigger] st[x]).id@ != (#[trigger] st[y]).id@,
            decreases n - i,
        {
            let d = &self.studies[i];
            if !progress.owned_studies.contains_key(d.id.as_str()) && owns_all(&progress.owned_studies, &d.prerequisites) {
                let mut p: usize = 0;
                while p < order.len() && !text_less(d.id.as_str(), self.studies[order[p]].id.as_str())
                    invariant
                        st == self.studies@,
                        n == st.len(),
                        i < n,
                        *d == st[i as int],
                        p <= order@.len(),
                        forall|a: int| 0 <= a < order@.len() ==> (#[trigger] order@[a]) < i,
                        forall|a: int| 0 <= a < p ==> !text_lt(st[i as int].id@, st[(#[trigger] order@[a]) as int].id@),
                    decreases order@.len() - p,
                {
                    p = p + 1;
                }
                let ghost before = order@;
                order.insert(p, i);
                proof {
                    assert forall|a: int| 0 <= a < p implies text_lt(st[(#[trigger] before[a]) as int].id@, st[i as int].id@) by {
                        let x = st[before[a] as int].id@;
                        let y = st[i as int].id@;
                        lemma_text_lt_total(x, y);
                        assert(x != y);
                    }
                    assert forall|a: int, b: int| 0 <= a < b < order@.len() implies text_lt(
                        st[(#[trigger] order@[a]) as int].id@,
                        st[(#[trigger] order@[b]) as int].id@,
                    ) by {
                        if b < p {
                            assert(order@[a] == before[a] && order@[b] == before[b]);
                        } else if b == p {
                            assert(order@[a] == before[a]);
                        } else if a < p {
                            assert(order@[a] == before[a] && order@[b] == before[b - 1]);
                            lemma_text_lt_transitive(st[before[a] as int].id@, st[i as int].id@, st[before[p as int] as int].id@);
                            if b - 1 > p {
                                lemma_text_lt_transitive(st[before[a] as int].id@, st[before[p as int] as int].id@, st[before[b - 1] as int].id@);
                            }
                        } else if a == p {
                            assert(order@[b] == before[b - 1]);
                            if b - 1 > p {
                                lemma_text_lt_transitive(st[i as int].id@, st[before[p as int] as int].id@, st[before[b - 1] as int].id@);
                            }
                        } else {
                            assert(order@[a] == before[a - 1] && order@[b] == before[b - 1]);
                        }
                    }
                    assert forall|k: int| 0 <= k < i + 1 && on_frontier(st, ow, k) implies exists|a: int|
                        0 <= a < order@.len() && #[trigger] order@[a] == k by {
                        if k == i {
                            assert(order@[p as int] == k);
                        } else {
                            let a = choose|a: int| 0 <= a < before.len() && #[trigger] before[a] == k;
                            if a < p {
                                assert(order@[a] == k);
                            } else {
                                assert(order@[a + 1] == k);
                            }
                        }
                    }
                    assert(prereqs_of(st, i as int) == purchase_ids(d.prerequisites@));
                }
            } else {
                proof {
                    assert(prereqs_of(st, i as int) == purchase_ids(d.prerequisites@));
                }
            }
            i = i + 1;
        }
        order
    }

    /// The unowned studies whose prerequisites are all owned, in identifier order.
    pub fn frontier(&self, progress: &ResearchPurchaseState) -> (r: Result<Vec<SyntheticStudyDescriptor>, ResearchPurchaseError>)
        requires
            self.repeatable_studies.wf(),
            purchase_maps_wf(*progress),
        ensures
            !catalog_rules(*self) ==> r == Err::<Vec<SyntheticStudyDescriptor>, ResearchPurchaseError>(
                ResearchPurchaseError::MalformedCatalog,
            ),
            catalog_rules(*self) && !purchase_state_rules(*progress) ==> r == Err::<Vec<SyntheticStudyDescriptor>, ResearchPurchaseError>(
                ResearchPurchaseError::MalformedPersistence,
            ),
            catalog_rules(*self) && purchase_state_rules(*progress) ==> r is Ok && frontier_listed(
                self.studies@,
                progress.owned_studies.map(),
                r->Ok_0@,
            ),
    {
        match self.validate() {
            Ok(()) => {},
            Err(e) => return Err(e),
        }
        match progress.validate() {
            Ok(()) => {},
            Err(e) => return Err(e),
        }
        let ghost st = self.studies@;
        let ghost ow = progress.owned_studies.map();
        let order = self.frontier_order(progress);
        let mut result: Vec<SyntheticStudyDescriptor> = Vec::new();
        let mut a: usize = 0;
        while a < order.len()
            invariant
                st == self.studies@,
                forall|x: int| 0 <= x < order@.len() ==> (#[trigger] order@[x]) < st.len(),
                a <= order@.len(),
                result@.len() == a,
                forall|x: int| 0 <= x < a ==> same_descriptor(st[order@[x] as int], #[trigger] result@[x]),
            decreases order@.len() - a,
        {
            result.push(self.studies[order[a]].duplicate());
            a = a + 1;
        }
        proof {
            lemma_frontier_listed(st, ow, order@, result@);
        }
        Ok(result)
    }
}

/// A purchase the Favor lane is asked to commit.
#[derive(Debug, Clone, PartialEq, Eq)]
pub struct CommitResearchPurchaseRequest {
    pub id: ResearchPurchaseId,
    pub colony_id: PlannerId,
    pub source: ResearchPurchaseSource,
    pub study_id: StudyId,
    pub expected_research_version: u64,
    pub expected_favor_version: u64,
    pub discount_basis_points: u16,
    pub consume_preparation: bool,
    pub now_tick: u64,
}

/// What a purchase needs from the Favor ledger: nothing, when it was already
/// committed, or a debit of `charged_price`.
#[derive(Debug, Clone, PartialEq, Eq)]
pub enum PurchasePlan {
    AlreadyCommitted { study_id: StudyId },
    Charge { undiscounted_price: Favor, charged_price: Favor, committed_research_version: u64 },
}

/// What the Favor ledger answered for a purchase's debit.
#[derive(Debug, Clone, PartialEq, Eq)]
pub struct FavorDebitRecord {
    pub favor_event_id: FavorEventId,
    pub committed_favor_version: u64,
    pub already_committed: bool,
}

/// A stored purchase matches a request: same source, study and terms.
pub open spec fn event_matches_request(e: ResearchPurchaseEvent, r: CommitResearchPurchaseRequest) -> bool {
    &&& e.source == r.source
    &&& e.study_id@ == r.study_id@
    &&& e.discount_basis_points == r.discount_basis_points
    &&& e.consumed_preparation == r.consume_preparation
}

/// The price at `discount` basis points off, rounded up.
pub open spec fn purchase_charge(price: u64, discount: u16) -> int {
    (price * (10_000 - discount) + 9_999) / 10_000
}

/// What planning a purchase answers for a valid state and catalog.
pub open spec fn purchase_plan_result(
    a: ResearchPurchaseState,
    catalog: SyntheticResearchCatalog,
    r: CommitResearchPurchaseRequest,
    res: Result<PurchasePlan, ResearchPurchaseError>,
) -> bool {
    let st = catalog.studies@;
    let id = r.study_id@;
    if a.purchases.map().contains_key(r.id@) {
        let e = a.purchases.map()[r.id@];
        if event_matches_request(e, r) {
            res matches Ok(PurchasePlan::AlreadyCommitted { study_id }) && study_id@ == e.study_id@
        } else {
            res == Err::<PurchasePlan, ResearchPurchaseError>(ResearchPurchaseError::PurchaseIdConflict)
        }
    } else if r.expected_research_version != a.version {
        res == Err::<PurchasePlan, ResearchPurchaseError>(ResearchPurchaseError::StaleResearchVersion)
    } else if !purchase_terms_ok(r.source, r.discount_basis_points, r.consume_preparation) {
        res == Err::<PurchasePlan, ResearchPurchaseError>(ResearchPurchaseError::MalformedRequest)
    } else if catalog_lacks(st, id) {
        res == Err::<PurchasePlan, ResearchPurchaseError>(ResearchPurchaseError::UnknownStudy)
    } else if a.owned_studies.map().contains_key(id) {
        res == Err::<PurchasePlan, ResearchPurchaseError>(ResearchPurchaseError::AlreadyOwned)
    } else if !(forall|q: int|
        0 <= q < prereqs_of(st, catalog_index(st, id)).len() ==> a.owned_studies.map().contains_key(
            #[trigger] prereqs_of(st, catalog_index(st, id))[q],
        )) {
        res == Err::<PurchasePlan, ResearchPurchaseError>(ResearchPurchaseError::NotFrontier)
    } else if a.version == u64::MAX {
        res == Err::<PurchasePlan, ResearchPurchaseError>(ResearchPurchaseError::Overflow)
    } else {
        let price = st[catalog_index(st, id)].undiscounted_price;
        res == Ok::<PurchasePlan, ResearchPurchaseError>(
            PurchasePlan::Charge {
                undiscounted_price: price,
                charged_price: Favor(purchase_charge(price.0, r.discount_basis_points) as u64),
                committed_research_version: (a.version + 1) as u64,
            },
        )
    }
}

impl ResearchPurchaseState {
    /// The checks and terms of a Favor purchase, before the ledger is asked:
    /// a replay of a committed purchase needs nothing, anything else that
    /// passes needs a debit of the charged price.
    pub fn plan_purchase(&self, catalog: &SyntheticResearchCatalog, request: &CommitResearchPurchaseRequest) -> (res: Result<
        PurchasePlan,
        ResearchPurchaseError,
    >)
        requires
            purchase_maps_wf(*self),
            catalog.repeatable_studies.wf(),
        ensures
            !purchase_state_rules(*self) ==> res == Err::<PurchasePlan, ResearchPurchaseError>(
                ResearchPurchaseError::MalformedPersistence,
            ),
            purchase_state_rules(*self) && !catalog_rules(*catalog) ==> res == Err::<PurchasePlan, ResearchPurchaseError>(
                ResearchPurchaseError::MalformedCatalog,
            ),
            purchase_state_rules(*self) && catalog_rules(*catalog) ==> purchase_plan_result(*self, *catalog, *request, res),
    {
        match self.validate() {
            Ok(()) => {},
            Err(e) => return Err(e),
        }
        match catalog.validate() {
            Ok(()) => {},
            Err(e) => return Err(e),
        }
        match self.purchases.get(request.id.as_str()) {
            Some(existing) => {
                if existing.source == request.source && existing.study_id.same(&request.study_id)
                    && existing.discount_basis_points == request.discount_basis_points && existing.consumed_preparation
                    == request.consume_preparation {
                    return Ok(PurchasePlan::AlreadyCommitted { study_id: existing.study_id.duplicate() });
                }
                return Err(ResearchPurchaseError::PurchaseIdConflict);
            },
            None => {},
        }
        if request.expected_research_version != self.version {
            return Err(ResearchPurchaseError::StaleResearchVersion);
        }
        let valid_terms = match request.source {
            ResearchPurchaseSource::Player => (request.discount_basis_points == 0 && !request.consume_preparation) || (
            request.discount_basis_points == PLAYER_PREPARATION_DISCOUNT_BASIS_POINTS && request.consume_preparation),
            ResearchPurchaseSource::Automatic => request.discount_basis_points == 0 && !request.consume_preparation,
        };
        if !valid_terms {
            return Err(ResearchPurchaseError::MalformedRequest);
        }
        let k = match catalog.position(&request.study_id) {
            Some(k) => k,
            None => return Err(ResearchPurchaseError::UnknownStudy),
        };
        proof {
            lemma_catalog_index(catalog.studies@, request.study_id@, k as int);
        }
        if self.owned_studies.contains_key(request.study_id.as_str()) {
            return Err(ResearchPurchaseError::AlreadyOwned);
        }
        if !owns_all(&self.owned_studies, &catalog.studies[k].prerequisites) {
            proof {
                let st = catalog.studies@;
                assert(prereqs_of(st, catalog_index(st, request.study_id@)) == purchase_ids(st[k as int].prerequisites@));
            }
            return Err(ResearchPurchaseError::NotFrontier);
        }
        if self.version == u64::MAX {
            proof {
                let st = catalog.studies@;
                assert(prereqs_of(st, catalog_index(st, request.study_id@)) == purchase_ids(st[k as int].prerequisites@));
            }
            return Err(ResearchPurchaseError::Overflow);
        }
        let price = catalog.studies[k].undiscounted_price;
        let multiplier: u128 = if request.discount_basis_points == 0 {
            10_000
        } else {
            7_500
        };
        let wide: u128 = (price.0 as u128 * multiplier + 9_999) / 10_000;
        proof {
            let st = catalog.studies@;
            assert(prereqs_of(st, catalog_index(st, request.study_id@)) == purchase_ids(st[k as int].prerequisites@));
            assert(wide <= price.0) by (nonlinear_arith)
                requires
                    wide == (price.0 as int * multiplier + 9_999) / 10_000,
                    multiplier <= 10_000,
            ;
        }
        Ok(
            PurchasePlan::Charge {
                undiscounted_price: price,
                charged_price: Favor(wide as u64),
                committed_research_version: self.version + 1,
            },
        )
    }

    /// Record a purchase the Favor ledger has debited, on the terms that
    /// planning it against `catalog` answered: the study becomes owned, the
    /// purchase is filed under its id, and the version moves to the one the
    /// plan committed. The state keeps its rules when the purchases so far are
    /// the whole version history, there is room for one more, and the study
    /// has no repeatable completions.
    pub fn record_purchase(
        &mut self,
        catalog: &SyntheticResearchCatalog,
        request: &CommitResearchPurchaseRequest,
        undiscounted_price: Favor,
        charged_price: Favor,
        committed_research_version: u64,
        debit: FavorDebitRecord,
    ) -> (r: ResearchPurchaseOutcome)
        requires
            purchase_maps_wf(*old(self)),
            purchase_state_rules(*old(self)),
            catalog_rules(*catalog),
            purchase_plan_result(
                *old(self),
                *catalog,
                *request,
                Ok(PurchasePlan::Charge { undiscounted_price, charged_price, committed_research_version }),
            ),
        ensures
            purchase_maps_wf(*final(self)),
            old(self).version == old(self).purchases@.len() && old(self).purchases@.len() < MAX_PURCHASE_EVENTS
                && !old(self).repeatable_completions.map().contains_key(request.study_id@) ==> purchase_state_rules(
                *final(self),
            ),
            final(self).owned_studies.map() == old(self).owned_studies.map().insert(request.study_id@, ()),
            final(self).purchases.map() == old(self).purchases.map().insert(
                request.id@,
                ResearchPurchaseEvent {
                    id: request.id,
                    source: request.source,
                    study_id: request.study_id,
                    undiscounted_price,
                    charged_price,
                    discount_basis_points: request.discount_basis_points,
                    consumed_preparation: request.consume_preparation,
                    favor_event_id: debit.favor_event_id,
                    committed_research_version,
                    committed_favor_version: debit.committed_favor_version,
                    committed_tick: request.now_tick,
                },
            ),
            final(self).version == committed_research_version,
            final(self).repeatable_completions@ == old(self).repeatable_completions@,
            final(self).god_queue.entries@ == old(self).god_queue.entries@,
            final(self).leader_lane.events@ == old(self).leader_lane.events@,
            final(self).leader_lane.committed_ticks@ == old(self).leader_lane.committed_ticks@,
            final(self).automatic_quota == old(self).automatic_quota,
            final(self).schema_version == old(self).schema_version,
            r == if debit.already_committed {
                ResearchPurchaseOutcome::AlreadyCommitted
            } else {
                ResearchPurchaseOutcome::Committed
            },
    {
        let event = ResearchPurchaseEvent {
            id: request.id.duplicate(),
            source: request.source,
            study_id: request.study_id.duplicate(),
            undiscounted_price,
            charged_price,
            discount_basis_points: request.discount_basis_points,
            consumed_preparation: request.consume_preparation,
            favor_event_id: debit.favor_event_id,
            committed_research_version,
            committed_favor_version: debit.committed_favor_version,
            committed_tick: request.now_tick,
        };
        let ghost before = *self;
        proof {
            lemma_purchases_rules_by_map(before);
            crate::id_map::lemma_map_len(before.purchases@);
            let st = catalog.studies@;
            let k = choose|j: int| 0 <= j < st.len() && (#[trigger] st[j]).id@ == request.study_id@;
            assert(catalog_first_at(st, request.study_id@, k));
            lemma_catalog_index(st, request.study_id@, k);
            assert(st[k].undiscounted_price == undiscounted_price);
            assert(descriptor_ok(st[k]));
            let price = undiscounted_price.0 as int;
            let d = request.discount_basis_points as int;
            assert(1 <= purchase_charge(undiscounted_price.0, request.discount_basis_points) <= price) by (nonlinear_arith)
                requires
                    price >= 1,
                    d == 0 || d == 2_500,
                    purchase_charge(undiscounted_price.0, request.discount_basis_points) == (price * (10_000 - d) + 9_999)
                        / 10_000,
            ;
        }
        self.owned_studies.insert(String::from_str(request.study_id.as_str()), ());
        self.purchases.insert(String::from_str(request.id.as_str()), event);
        self.version = committed_research_version;
        proof {
            if before.version == before.purchases@.len() && before.purchases@.len() < MAX_PURCHASE_EVENTS
                && !before.repeatable_completions.map().contains_key(request.study_id@) {
                let m = self.purchases.map();
                let m0 = before.purchases.map();
                crate::id_map::lemma_map_len(self.purchases@);
                assert(m.len() == m0.len() + 1);
                assert forall|k: Seq<char>| #[trigger] m.contains_key(k) && k != request.id@ implies m0.contains_key(k)
                    && m[k] == m0[k] by {}
                let rid = request.id@;
                let e = m[rid];
                let o = self.owned_studies.map();
                assert(e.committed_research_version == m.len());
                assert(!before.owned_studies.map().contains_key(e.study_id@));
                assert forall|k: Seq<char>| #[trigger] m.contains_key(k) implies m[k].id@ == k && 1 <= m[k].committed_research_version
                    <= m.len() && m[k].undiscounted_price.0 != 0 && m[k].charged_price.0 != 0 && purchase_terms_ok(
                    m[k].source,
                    m[k].discount_basis_points,
                    m[k].consumed_preparation,
                ) && o.contains_key(m[k].study_id@) by {
                    if k != rid {
                        assert(m0.contains_key(k));
                    } else {
                        assert(e.id@ == rid);
                        assert(e.charged_price.0 != 0);
                        assert(purchase_terms_ok(e.source, e.discount_basis_points, e.consumed_preparation));
                        assert(o.contains_key(e.study_id@));
                    }
                }
                assert forall|k1: Seq<char>, k2: Seq<char>|
                    #[trigger] m.contains_key(k1) && #[trigger] m.contains_key(k2) && k1 != k2 implies m[k1].committed_research_version
                        != m[k2].committed_research_version && m[k1].study_id@ != m[k2].study_id@ by {
                    if k1 != rid && k2 != rid {
                        assert(m0.contains_key(k1) && m0.contains_key(k2));
                    } else if k1 == rid {
                        assert(m0.contains_key(k2));
                    } else {
                        assert(m0.contains_key(k1));
                    }
                }
                assert(purchases_map_rules(*self));
                lemma_purchases_rules_by_map(*self);
                assert forall|i: int| 0 <= i < self.repeatable_completions@.len() implies !self.owned_studies.map().contains_key(
                    #[trigger] self.repeatable_completions@[i].0,
                ) by {
                    lemma_lookup_all(before.repeatable_completions@);
                    assert(before.repeatable_completions.map().contains_key(before.repeatable_completions@[i].0));
                }
            }
        }
        if debit.already_committed {
            ResearchPurchaseOutcome::AlreadyCommitted
        } else {
            ResearchPurchaseOutcome::Committed
        }
    }
}


/// The automatic lane's score of a study: its report inputs' total, or zero
/// when the reports say nothing of it.
pub open spec fn automatic_score(scores: Map<Seq<char>, AutomaticStudyScoreInputs>, id: Seq<char>) -> int {
    if scores.contains_key(id) {
        clamp_i64(
            scores[id].belief_basis_points + scores[id].posture_basis_points + scores[id].personality_basis_points
                + scores[id].dependency_basis_points + scores[id].expected_value_basis_points,
        )
    } else {
        0
    }
}

/// Catalog study `i` is on the frontier and affordable.
pub open spec fn automatic_eligible(st: Seq<SyntheticStudyDescriptor>, owned: Map<Seq<char>, ()>, balance: Favor, i: int) -> bool {
    on_frontier(st, owned, i) && st[i].undiscounted_price.0 <= balance.0
}

/// Study `i` ranks first among the eligible: no eligible study scores higher,
/// and none with the same score has an earlier identifier.
pub open spec fn automatic_pick(
    st: Seq<SyntheticStudyDescriptor>,
    owned: Map<Seq<char>, ()>,
    balance: Favor,
    scores: Map<Seq<char>, AutomaticStudyScoreInputs>,
    i: int,
) -> bool {
    &&& 0 <= i < st.len()
    &&& automatic_eligible(st, owned, balance, i)
    &&& forall|j: int|
        0 <= j < st.len() && automatic_eligible(st, owned, balance, j) ==> automatic_score(scores, (#[trigger] st[j]).id@)
            < automatic_score(scores, st[i].id@) || (automatic_score(scores, st[j].id@) == automatic_score(scores, st[i].id@)
            && text_le(st[i].id@, st[j].id@))
}

/// How far the colony's loremaster lets the automatic lane buy: before an
/// effective loremaster, or with one of effective level 1 to 5.
#[derive(Debug, Clone, Copy, PartialEq, Eq, Structural)]
pub enum AutomaticResearchCapability {
    BeforeEffectiveLoremaster,
    EffectiveLoremaster(u8),
}

/// The automatic purchases a capability allows in one rolling window.
pub open spec fn capability_quota(c: AutomaticResearchCapability) -> int {
    match c {
        AutomaticResearchCapability::BeforeEffectiveLoremaster => 1,
        AutomaticResearchCapability::EffectiveLoremaster(level) => if level <= 1 {
            1
        } else if level <= 3 {
            2
        } else if level == 4 {
            3
        } else {
            4
        },
    }
}

impl AutomaticResearchCapability {
    /// The automatic purchases allowed per rolling window: one before an
    /// effective loremaster, then one, two, two, three and four for effective
    /// levels 1 to 5.
    pub fn quota_limit(self) -> (r: usize)
        requires
            self matches AutomaticResearchCapability::EffectiveLoremaster(level) ==> 1 <= level <= 5,
        ensures
            r == capability_quota(self),
    {
        match self {
            AutomaticResearchCapability::BeforeEffectiveLoremaster => 1,
            AutomaticResearchCapability::EffectiveLoremaster(level) => if level == 1 {
                1
            } else if level <= 3 {
                2
            } else if level == 4 {
                3
            } else {
                4
            },
        }
    }
}

impl ResearchPurchaseState {
    /// The automatic lane's choice: the affordable frontier study the reports
    /// score highest, earliest identifier first on ties, while the rolling
    /// quota allows another purchase. `quota_limit` is the limit of the
    /// effective loremaster's level.
    pub fn select_automatic_purchase(
        &self,
        catalog: &SyntheticResearchCatalog,
        balance: Favor,
        scores: &IdMap<AutomaticStudyScoreInputs>,
        quota_limit: usize,
        now_tick: u64,
    ) -> (r: Result<(StudyId, i64), ResearchPurchaseError>)
        requires
            purchase_maps_wf(*self),
            catalog.repeatable_studies.wf(),
            scores.wf(),
        ensures
            !purchase_state_rules(*self) ==> r == Err::<(StudyId, i64), ResearchPurchaseError>(
                ResearchPurchaseError::MalformedPersistence,
            ),
            purchase_state_rules(*self) && !catalog_rules(*catalog) ==> r == Err::<(StudyId, i64), ResearchPurchaseError>(
                ResearchPurchaseError::MalformedCatalog,
            ),
            purchase_state_rules(*self) && catalog_rules(*catalog) && ticks_in_window(self.automatic_quota.committed_ticks@, now_tick)
                >= quota_limit ==> r == Err::<(StudyId, i64), ResearchPurchaseError>(ResearchPurchaseError::AutomaticQuotaExhausted),
            purchase_state_rules(*self) && catalog_rules(*catalog) && ticks_in_window(self.automatic_quota.committed_ticks@, now_tick)
                < quota_limit ==> match r {
                Err(e) => e == ResearchPurchaseError::NoAffordableFrontier && forall|j: int|
                    0 <= j < catalog.studies@.len() ==> !automatic_eligible(catalog.studies@, self.owned_studies.map(), balance, j),
                Ok((id, score)) => exists|i: int|
                    automatic_pick(catalog.studies@, self.owned_studies.map(), balance, scores.map(), i) && id@ == catalog.studies@[i].id@
                        && score == automatic_score(scores.map(), id@),
            },
    {
        match self.validate() {
            Ok(()) => {},
            Err(e) => return Err(e),
        }
        match catalog.validate() {
            Ok(()) => {},
            Err(e) => return Err(e),
        }
        if self.automatic_quota.used_in_window(now_tick) >= quota_limit {
            return Err(ResearchPurchaseError::AutomaticQuotaExhausted);
        }
        let ghost st = catalog.studies@;
        let ghost ow = self.owned_studies.map();
        let ghost sm = scores.map();
        let n = catalog.studies.len();
        let mut best: Option<(usize, i64)> = None;
        let mut i: usize = 0;
        while i < n
            invariant
                st == catalog.studies@,
                ow == self.owned_studies.map(),
                sm == scores.map(),
                n == st.len(),
                self.owned_studies.wf(),
                scores.wf(),
                i <= n,
                match best {
                    None => forall|j: int| 0 <= j < i ==> !automatic_eligible(st, ow, balance, j),
                    Some((b, v)) => {
                        &&& b < i
                        &&& automatic_eligible(st, ow, balance, b as int)
                        &&& v == automatic_score(sm, st[b as int].id@)
                        &&& forall|j: int|
                            0 <= j < i && automatic_eligible(st, ow, balance, j) ==> automatic_score(sm, (#[trigger] st[j]).id@) < v || (
                            automatic_score(sm, st[j].id@) == v && text_le(st[b as int].id@, st[j].id@))
                    },
                },
            decreases n - i,
        {
            let d = &catalog.studies[i];
            let eligible = !self.owned_studies.contains_key(d.id.as_str()) && owns_all(&self.owned_studies, &d.prerequisites)
                && d.undiscounted_price.0 <= balance.0;
            proof {
                assert(prereqs_of(st, i as int) == purchase_ids(d.prerequisites@));
            }
            if eligible {
                let score: i64 = match scores.get(d.id.as_str()) {
                    Some(inputs) => inputs.total_score(),
                    None => 0,
                };
                let take = match best {
                    None => true,
                    Some((b, v)) => score > v || (score == v && text_less(d.id.as_str(), catalog.studies[b].id.as_str())),
                };
                proof {
                    if let Some((b, v)) = best {
                        let bi = st[b as int].id@;
                        let ci = st[i as int].id@;
                        lemma_text_lt_total(bi, ci);
                        lemma_text_lt_asymmetric(bi, ci);
                        assert forall|j: int|
                            0 <= j < i + 1 && automatic_eligible(st, ow, balance, j) implies (if take {
                            automatic_score(sm, (#[trigger] st[j]).id@) < score || (automatic_score(sm, st[j].id@) == score && text_le(
                                ci,
                                st[j].id@,
                            ))
                        } else {
                            automatic_score(sm, st[j].id@) < v || (automatic_score(sm, st[j].id@) == v && text_le(bi, st[j].id@))
                        }) by {
                            if j < i && take && automatic_score(sm, st[j].id@) == score {
                                if text_lt(bi, st[j].id@) {
                                    if text_lt(ci, bi) {
                                        lemma_text_lt_transitive(ci, bi, st[j].id@);
                                    }
                                }
                            }
                        }
                    }
                }
                if take {
                    best = Some((i, score));
                }
            }
            i = i + 1;
        }
        match best {
            None => Err(ResearchPurchaseError::NoAffordableFrontier),
            Some((b, v)) => {
                let id = catalog.studies[b].id.duplicate();
                proof {
                    assert(automatic_pick(st, ow, balance, sm, b as int));
                }
                Ok((id, v))
            },
        }
    }
}


} // verus!
