//! The two-lane research vocabulary: command ids, Leader duplicate permits,
//! candidate scoring, God-queue entries and preparations, and the currency
//! fingerprint and error mapping used when a God study is funded.

use vstd::prelude::*;
use vstd::utf8::encode_utf8;
use crate::planner_core::{PlannerId, le_bytes_u64, planner_id_text, texts_view};
use crate::id_map::{ExactCopy, IdMap, entries_map, entries_view, keys_sorted, lemma_entries_map_finite, lemma_lookup_all, lemma_lookup_at};
use crate::text::{lemma_text_lt_total, lemma_text_lt_transitive, text_eq, text_le, text_less, text_lt};
use crate::progression_research::{
    KindView, ProgressionCatalog, ProgressionError, ResearchNotes, ResearchNotesLedger, StudyCurrency, StudyDefinition,
    StudyId, StudyKind, StudyView, VoidInsight, VoidInsightLedger, same_notes, same_void, study_view,
    CurrencyCommitOutcome, CurrencyDebitReceipt, CurrencyEventId, ResearchNotesSpendRequest, VoidDebitPurpose,
    VoidSpendRequest, MAX_CURRENCY_RECEIPTS, currency_event_id_text, kind_view, ManifestCapability, boost_study,
    built_views, is_boost_study_id, researchable_id, capability_study, lemma_boost_ids_distinct,
};

verus! {

pub const RESEARCH_AUTHORITY_SCHEMA_VERSION: u32 = 1;
pub const ROLLING_SEVEN_GAME_DAYS_MINUTES: u64 = 7 * 24 * 60;
pub const MAX_GOD_QUEUE_ENTRIES: usize = 64;
pub const MAX_RESEARCH_RECEIPTS: usize = 512;
pub const MAX_LEADER_COMMITS: usize = 32;
/// A persistence-valid preparation can only target the bounded God path.
pub const MAX_RESEARCH_REPORT_PREPARATIONS: usize = MAX_GOD_QUEUE_ENTRIES;
pub const PREPARATION_BASIS_POINTS: u16 = 2_500;
pub const OOPSIE_PERCENT_BY_EFFECTIVE_LEVEL: [u8; 5] = [25, 12, 5, 1, 0];

pub open spec fn research_command_id_text(colony_id: Seq<char>, action: Seq<char>) -> Seq<char> {
    planner_id_text("lai58-research"@, seq![colony_id, action])
}

#[derive(Debug, Clone, PartialEq, Eq, PartialOrd, Ord, Hash)]
pub struct ResearchCommandId(PlannerId);

impl ResearchCommandId {
    pub closed spec fn view(&self) -> Seq<char> {
        self.0@
    }

    pub fn derive(colony_id: &PlannerId, action: &str) -> (r: Self)
        ensures
            r@ == research_command_id_text(colony_id@, action@),
    {
        let parts: [&str; 2] = [colony_id.as_str(), action];
        let r = ResearchCommandId(PlannerId::derive("lai58-research", &parts));
        assert(texts_view(parts@) =~= seq![colony_id@, action@]);
        r
    }

    pub fn as_str(&self) -> (r: &str)
        ensures
            r@ == self@,
    {
        self.0.as_str()
    }
}

/// Which authorization, if any, let the Leader take a study the God lane holds.
#[derive(Debug, Clone, Copy, PartialEq, Eq, Structural)]
pub enum DuplicateAuthorization {
    Absent,
    CriticalVillage,
    KeyedOopsie,
}

#[derive(Debug, Clone, Copy, PartialEq, Eq, Structural)]
pub struct CriticalVillageAuthorization {
    pub report_marks_critical: bool,
    pub needed_before_tick: u64,
    pub estimated_god_completion_tick: u64,
}

#[derive(Debug, Clone, Copy, PartialEq, Eq, Structural)]
pub struct KeyedOopsieAuthorization {
    /// The effective combined expertise/Intelligence band. Values above four
    /// are intentionally perfect rather than wrapping back to a poor band.
    pub effective_level: u8,
    pub keyed_roll_percent: u8,
}

#[derive(Debug, Clone, Copy, PartialEq, Eq, Structural)]
pub enum LeaderDuplicatePermit {
    Absent,
    CriticalVillage(CriticalVillageAuthorization),
    KeyedOopsie(KeyedOopsieAuthorization),
}

/// The chance, in percent, that a Leader of `level` duplicates a God study by mistake.
pub open spec fn oopsie_percent_for(level: u8) -> u8 {
    if level == 0 {
        25
    } else if level == 1 {
        12
    } else if level == 2 {
        5
    } else if level == 3 {
        1
    } else {
        0
    }
}

/// Whether the permit lets the Leader take a study already on the God queue.
/// The authorization a permit grants.
pub open spec fn permit_kind(p: LeaderDuplicatePermit) -> DuplicateAuthorization {
    match p {
        LeaderDuplicatePermit::Absent => DuplicateAuthorization::Absent,
        LeaderDuplicatePermit::CriticalVillage(_) => DuplicateAuthorization::CriticalVillage,
        LeaderDuplicatePermit::KeyedOopsie(_) => DuplicateAuthorization::KeyedOopsie,
    }
}

pub open spec fn permit_allows_queued(p: LeaderDuplicatePermit) -> bool {
    match p {
        LeaderDuplicatePermit::Absent => false,
        LeaderDuplicatePermit::CriticalVillage(v) => v.report_marks_critical && v.needed_before_tick
            < v.estimated_god_completion_tick,
        LeaderDuplicatePermit::KeyedOopsie(v) => v.keyed_roll_percent < oopsie_percent_for(v.effective_level),
    }
}

impl LeaderDuplicatePermit {
    pub fn kind(&self) -> (r: DuplicateAuthorization)
        ensures
            r == permit_kind(*self),
            (r is Absent) == (*self is Absent),
            (r is CriticalVillage) == (*self is CriticalVillage),
            (r is KeyedOopsie) == (*self is KeyedOopsie),
    {
        match self {
            LeaderDuplicatePermit::Absent => DuplicateAuthorization::Absent,
            LeaderDuplicatePermit::CriticalVillage(_) => DuplicateAuthorization::CriticalVillage,
            LeaderDuplicatePermit::KeyedOopsie(_) => DuplicateAuthorization::KeyedOopsie,
        }
    }

    pub fn oopsie_percent(effective_level: u8) -> (r: u8)
        ensures
            r == oopsie_percent_for(effective_level),
    {
        if effective_level <= 4 {
            OOPSIE_PERCENT_BY_EFFECTIVE_LEVEL[effective_level as usize]
        } else {
            0
        }
    }

    /// A critical-village report that needs the study before the God lane can
    /// finish it, or a keyed roll under the level's oopsie chance.
    pub fn permits_queued_target(&self) -> (r: bool)
        ensures
            r == permit_allows_queued(*self),
    {
        match self {
            LeaderDuplicatePermit::Absent => false,
            LeaderDuplicatePermit::CriticalVillage(value) => value.report_marks_critical
                && value.needed_before_tick < value.estimated_god_completion_tick,
            LeaderDuplicatePermit::KeyedOopsie(value) => value.keyed_roll_percent < Self::oopsie_percent(
                value.effective_level,
            ),
        }
    }
}

#[derive(Debug, Clone, Copy, PartialEq, Eq, Structural)]
pub enum ResearchLane {
    Leader,
    God,
}

#[derive(Debug, Clone, Copy, PartialEq, Eq, Structural)]
pub struct FrozenGodTerms {
    pub currency: StudyCurrency,
    pub base_cost_micro: u64,
    pub payable_cost_micro: u64,
    pub duration_game_minutes: u64,
}

#[derive(Debug, Clone, PartialEq, Eq)]
pub struct GodResearchEntry {
    pub sequence: u64,
    pub study_id: StudyId,
    pub frozen: Option<FrozenGodTerms>,
    pub staffed_labor_minutes: u64,
}

#[derive(Debug, Clone, PartialEq, Eq)]
pub struct PreparationState {
    pub study_id: StudyId,
    pub required_labor_minutes: u64,
    pub completed_labor_minutes: u64,
}

impl PreparationState {
    pub fn complete(&self) -> (r: bool)
        ensures
            r == (self.completed_labor_minutes >= self.required_labor_minutes),
    {
        self.completed_labor_minutes >= self.required_labor_minutes
    }
}

#[derive(Debug, Clone, PartialEq, Eq)]
pub struct LeaderCommit {
    pub study_id: StudyId,
    pub committed_tick: u64,
    pub effective_loremaster_level: u8,
    pub duplicate_authorization: DuplicateAuthorization,
}

#[derive(Debug, Clone, PartialEq, Eq)]
pub struct LeaderCandidate {
    pub study_id: StudyId,
    pub report_score: i64,
    pub need_score: i64,
    pub intelligence_score: i64,
    pub personality_score: i64,
    pub research_skill_score: i64,
}

/// `a + b` held within the range of `i64`.
pub open spec fn sat_add_i64(a: int, b: int) -> int {
    if a + b > i64::MAX {
        i64::MAX as int
    } else if a + b < i64::MIN {
        i64::MIN as int
    } else {
        a + b
    }
}

/// The candidate's components summed left to right, each step saturating.
pub open spec fn candidate_score(c: LeaderCandidate) -> int {
    sat_add_i64(
        sat_add_i64(
            sat_add_i64(sat_add_i64(sat_add_i64(0, c.report_score as int), c.need_score as int), c.intelligence_score as int),
            c.personality_score as int,
        ),
        c.research_skill_score as int,
    )
}

pub(crate) fn saturating_add_i64(a: i64, b: i64) -> (r: i64)
    ensures
        r == sat_add_i64(a as int, b as int),
{
    let sum: i128 = a as i128 + b as i128;
    if sum > i64::MAX as i128 {
        i64::MAX
    } else if sum < i64::MIN as i128 {
        i64::MIN
    } else {
        sum as i64
    }
}

impl LeaderCandidate {
    pub fn score(&self) -> (r: i64)
        ensures
            r == candidate_score(*self),
    {
        let mut total: i64 = 0;
        total = saturating_add_i64(total, self.report_score);
        total = saturating_add_i64(total, self.need_score);
        total = saturating_add_i64(total, self.intelligence_score);
        total = saturating_add_i64(total, self.personality_score);
        saturating_add_i64(total, self.research_skill_score)
    }
}

#[derive(Debug, Clone, Copy, PartialEq, Eq, Structural)]
pub enum LeaderExclusionReason {
    UnknownStudy,
    AlreadyOwned,
    PrerequisiteLocked,
    RepeatableWhileFiniteRemains,
    GodQueueDuplicateForbidden,
    RollingCadenceExhausted,
}

/// How many Leader completions a rolling week allows at a Loremaster level.
pub open spec fn cadence_limit(level: u8) -> usize {
    if level <= 1 {
        1
    } else if level <= 3 {
        2
    } else if level == 4 {
        3
    } else {
        4
    }
}

/// How many Leader completions a rolling week allows at a Loremaster level.
pub fn leader_cadence_limit(effective_loremaster_level: u8) -> (r: usize)
    ensures
        r == cadence_limit(effective_loremaster_level),
{
    match effective_loremaster_level {
        0 | 1 => 1,
        2 | 3 => 2,
        4 => 3,
        _ => 4,
    }
}

#[derive(Debug, Clone, Copy, PartialEq, Eq, Structural)]
pub enum ResearchAuthorityError {
    StaleVersion,
    IdempotencyConflict,
    Backpressure,
    QueueFull,
    UnknownStudy,
    Cycle,
    NoGodFront,
    GodFrontUnfunded,
    PreparationUnavailable,
    PreparationNotRequested,
    PreparationAlreadyExists,
    PreparationMustTargetOrdinaryUnfundedFront,
    ResearchInfrastructureUnavailable,
    MalformedCommand,
    PrerequisiteLocked,
    AlreadyOwned,
    FiniteResearchRemaining,
    GodQueueDuplicateForbidden,
    LeaderCadenceExhausted,
    TargetNotQueued,
    NoOpReorder,
    GodFrontFrozen,
    GodQueuePrerequisiteOrder,
    InsufficientNotes,
    InsufficientVoid,
    LedgerVersionConflict,
    CanonicalLedgerRejected,
    ArithmeticOverflow,
    MalformedPersistence,
}

/// How a Notes ledger refusal reads at the research boundary.
pub open spec fn notes_debit_error_of(e: ProgressionError) -> ResearchAuthorityError {
    match e {
        ProgressionError::InsufficientCurrency => ResearchAuthorityError::InsufficientNotes,
        ProgressionError::ArithmeticOverflow => ResearchAuthorityError::ArithmeticOverflow,
        ProgressionError::StaleVersion => ResearchAuthorityError::LedgerVersionConflict,
        _ => ResearchAuthorityError::CanonicalLedgerRejected,
    }
}

/// How a Void ledger refusal reads at the research boundary.
pub open spec fn void_debit_error_of(e: ProgressionError) -> ResearchAuthorityError {
    match e {
        ProgressionError::InsufficientCurrency => ResearchAuthorityError::InsufficientVoid,
        ProgressionError::ArithmeticOverflow => ResearchAuthorityError::ArithmeticOverflow,
        ProgressionError::StaleVersion => ResearchAuthorityError::LedgerVersionConflict,
        _ => ResearchAuthorityError::CanonicalLedgerRejected,
    }
}

pub fn map_notes_debit_error(error: ProgressionError) -> (r: ResearchAuthorityError)
    ensures
        r == notes_debit_error_of(error),
{
    match error {
        ProgressionError::InsufficientCurrency => ResearchAuthorityError::InsufficientNotes,
        ProgressionError::ArithmeticOverflow => ResearchAuthorityError::ArithmeticOverflow,
        ProgressionError::StaleVersion => ResearchAuthorityError::LedgerVersionConflict,
        _ => ResearchAuthorityError::CanonicalLedgerRejected,
    }
}

pub fn map_void_debit_error(error: ProgressionError) -> (r: ResearchAuthorityError)
    ensures
        r == void_debit_error_of(error),
{
    match error {
        ProgressionError::InsufficientCurrency => ResearchAuthorityError::InsufficientVoid,
        ProgressionError::ArithmeticOverflow => ResearchAuthorityError::ArithmeticOverflow,
        ProgressionError::StaleVersion => ResearchAuthorityError::LedgerVersionConflict,
        _ => ResearchAuthorityError::CanonicalLedgerRejected,
    }
}

pub const FINGERPRINT_OFFSET_BASIS: u64 = 0xcbf2_9ce4_8422_2325;
pub const FINGERPRINT_PRIME: u64 = 0x0000_0100_0000_01b3;

/// One 64-bit FNV-1a step.
pub open spec fn fnv64_step(hash: u64, byte: u8) -> u64 {
    (((hash ^ (byte as u64)) as nat * FINGERPRINT_PRIME as nat) % 0x1_0000_0000_0000_0000) as u64
}

/// 64-bit FNV-1a over `bytes`, starting from `hash`.
pub open spec fn fnv64_bytes(hash: u64, bytes: Seq<u8>) -> u64
    decreases bytes.len(),
{
    if bytes.len() == 0 {
        hash
    } else {
        fnv64_step(fnv64_bytes(hash, bytes.drop_last()), bytes.last())
    }
}

pub(crate) proof fn lemma_fnv64_append(hash: u64, a: Seq<u8>, b: Seq<u8>)
    ensures
        fnv64_bytes(hash, a + b) == fnv64_bytes(fnv64_bytes(hash, a), b),
    decreases b.len(),
{
    if b.len() == 0 {
        assert(a + b =~= a);
    } else {
        lemma_fnv64_append(hash, a, b.drop_last());
        assert((a + b).drop_last() =~= a + b.drop_last());
    }
}

/// The bytes a text field contributes: its UTF-8 bytes and a closing `0xff`.
pub open spec fn fingerprint_field(text: Seq<char>) -> Seq<u8> {
    encode_utf8(text) + seq![0xffu8]
}

/// The fingerprint of a funding debit: the command id, the study id and the
/// payable amount's little-endian bytes.
pub open spec fn currency_fingerprint_of(command_id: Seq<char>, study_id: Seq<char>, payable: u64) -> u64 {
    fnv64_bytes(
        FINGERPRINT_OFFSET_BASIS,
        fingerprint_field(command_id) + fingerprint_field(study_id) + le_bytes_u64(payable),
    )
}

fn fnv64_byte(hash: u64, byte: u8) -> (r: u64)
    ensures
        r == fnv64_step(hash, byte),
{
    (hash ^ (byte as u64)).wrapping_mul(FINGERPRINT_PRIME)
}

pub(crate) fn fnv64_field(hash: u64, text: &str) -> (r: u64)
    ensures
        r == fnv64_bytes(hash, fingerprint_field(text@)),
{
    let bytes = text.as_bytes();
    let n = bytes.len();
    let mut h = hash;
    let mut j: usize = 0;
    while j < n
        invariant
            n == bytes@.len(),
            bytes@ == encode_utf8(text@),
            j <= n,
            h == fnv64_bytes(hash, bytes@.take(j as int)),
        decreases n - j,
    {
        h = fnv64_byte(h, bytes[j]);
        assert(bytes@.take(j + 1).drop_last() =~= bytes@.take(j as int));
        j = j + 1;
    }
    assert(bytes@.take(n as int) =~= bytes@);
    let r = fnv64_byte(h, 0xff);
    assert(fingerprint_field(text@).drop_last() =~= encode_utf8(text@));
    r
}

pub(crate) fn fnv64_u64(hash: u64, value: u64) -> (r: u64)
    ensures
        r == fnv64_bytes(hash, le_bytes_u64(value)),
{
    let mut h = hash;
    let mut i: u64 = 0;
    while i < 8
        invariant
            i <= 8,
            h == fnv64_bytes(hash, le_bytes_u64(value).take(i as int)),
        decreases 8 - i,
    {
        let b = ((value >> (8 * i)) & 0xff) as u8;
        assert(b == le_bytes_u64(value)[i as int]);
        h = fnv64_byte(h, b);
        assert(le_bytes_u64(value).take(i + 1).drop_last() =~= le_bytes_u64(value).take(i as int));
        i = i + 1;
    }
    assert(le_bytes_u64(value).take(8) =~= le_bytes_u64(value));
    h
}

/// The idempotency fingerprint of the debit that funds a God study.
pub fn currency_fingerprint(command_id: &ResearchCommandId, study_id: &StudyId, payable: u64) -> (r: u64)
    ensures
        r == currency_fingerprint_of(command_id@, study_id@, payable),
{
    let h1 = fnv64_field(FINGERPRINT_OFFSET_BASIS, command_id.as_str());
    let h2 = fnv64_field(h1, study_id.as_str());
    let r = fnv64_u64(h2, payable);
    proof {
        let a = fingerprint_field(command_id@);
        let b = fingerprint_field(study_id@);
        let c = le_bytes_u64(payable);
        lemma_fnv64_append(FINGERPRINT_OFFSET_BASIS, a, b);
        lemma_fnv64_append(FINGERPRINT_OFFSET_BASIS, a + b, c);
    }
    r
}

#[derive(Debug, Clone, PartialEq, Eq)]
pub enum ResearchCommandKind {
    QueueGodPath { target: StudyId },
    FundGodFront { consume_preparation: bool },
    /// Player intent only: open a zero-progress physical preparation record.
    RequestPreparation { study_id: StudyId },
    /// Authoritative physical-work receipt derived from world truth.
    PerformPreparation { study_id: StudyId, staffed_research_station: bool, scholar_alive: bool, labor_minutes: u64 },
    PerformGodLabor { staffed_research_station: bool, scholar_alive: bool, labor_minutes: u64 },
    RemoveGodTarget { study_id: StudyId },
    /// Move one queued God study immediately before another queued study;
    /// `None` moves it to the back.
    ReorderGodTarget { study_id: StudyId, before_study_id: Option<StudyId> },
    CompleteLeader {
        study_id: StudyId,
        effective_loremaster_level: u8,
        now_tick: u64,
        duplicate_permit: LeaderDuplicatePermit,
    },
}

#[derive(Debug, Clone, PartialEq, Eq)]
pub struct ResearchCommand {
    pub id: ResearchCommandId,
    pub expected_version: u64,
    pub kind: ResearchCommandKind,
}

#[derive(Debug, Clone, PartialEq, Eq)]
pub enum ResearchCommandOutcome {
    Queued { entries_added: u8 },
    Funded { payable_cost_micro: u64 },
    PreparationAdvanced { remaining_labor_minutes: u64 },
    PreparationRequested { study_id: StudyId, required_labor_minutes: u64 },
    GodLaborAdvanced { remaining_labor_minutes: u64 },
    GodStudyCompleted { study_id: StudyId },
    GodTargetRemoved {
        removed_entries: u8,
        refunded_notes_micro: u64,
        refunded_void_micro: u64,
        lost_labor_minutes: u64,
        lost_preparation_labor_minutes: u64,
    },
    GodTargetReordered { study_id: StudyId, from_index: u8, to_index: u8 },
    LeaderCompleted {
        study_id: StudyId,
        duplicate_authorization: DuplicateAuthorization,
        refunded_notes_micro: u64,
        refunded_void_micro: u64,
        lost_god_labor_minutes: u64,
        lost_preparation_labor_minutes: u64,
    },
}

#[derive(Debug, Clone, PartialEq, Eq)]
pub struct ResearchReceipt {
    pub command: ResearchCommand,
    pub outcome: ResearchCommandOutcome,
    pub committed_version: u64,
}

/// The Leader's pick among candidates, and why each other candidate was passed over.
#[derive(Debug)]
pub struct LeaderSelection {
    pub selected: Option<StudyId>,
    pub selected_duplicate_authorization: DuplicateAuthorization,
    pub excluded: IdMap<LeaderExclusionReason>,
}

/// Whether a God study's funding is frozen yet.
#[derive(Debug, Clone, Copy, PartialEq, Eq)]
pub enum GodResearchFundingReport<'a> {
    AwaitingFunding,
    Frozen(&'a FrozenGodTerms),
}

/// One God queue entry in increasing sequence order, without worker identity
/// or receipts.
#[derive(Debug, Clone, Copy, PartialEq, Eq)]
pub struct GodResearchQueueReport<'a> {
    pub sequence: u64,
    pub study_id: &'a StudyId,
    pub funding: GodResearchFundingReport<'a>,
    pub staffed_labor_minutes: u64,
}

/// A completed free-Leader decision.
#[derive(Debug, Clone, Copy, PartialEq, Eq)]
pub struct LeaderResearchDecisionReport<'a> {
    pub command_id: &'a str,
    pub study_id: &'a StudyId,
    pub committed_tick: u64,
    pub effective_loremaster_level: u8,
    pub duplicate_authorization: DuplicateAuthorization,
}

/// A preparation record's progress.
#[derive(Debug, Clone, Copy, PartialEq, Eq)]
pub struct ResearchPreparationStatusReport<'a> {
    pub study_id: &'a StudyId,
    pub required_labor_minutes: u64,
    pub completed_labor_minutes: u64,
}

/// A bounded page of report entries, marked when entries were left out.
#[derive(Debug, Clone, PartialEq, Eq)]
pub struct ResearchReportPage<T> {
    pub entries: Vec<T>,
    pub truncated: bool,
}

/// A queue entry as the Leader's reports may show it.
#[derive(Debug, Clone, PartialEq, Eq)]
pub struct ResearchQueueReport {
    pub study_id: StudyId,
    pub frozen: bool,
    pub staffed_labor_minutes: u64,
}

/// A preparation as the Leader's reports may show it.
#[derive(Debug, Clone, PartialEq, Eq)]
pub struct PreparationReport {
    pub study_id: StudyId,
    pub required_labor_minutes: u64,
    pub completed_labor_minutes: u64,
}

/// What the Leader's reports may know of the research state.
#[derive(Debug, Clone, PartialEq, Eq)]
pub struct ResearchReportProjection {
    pub version: u64,
    pub notes_balance: ResearchNotes,
    pub void_balance: VoidInsight,
    pub owned_finite: Vec<StudyId>,
    pub god_queue: Vec<ResearchQueueReport>,
    pub preparations: Vec<PreparationReport>,
}

/// Where a study stands between the God queue and the Leader lane.
#[derive(Debug, Clone, Copy, PartialEq, Eq)]
pub enum ResearchStudyCollisionReport<'a> {
    Available,
    OwnedFinite,
    GodQueued { sequence: u64, funding: GodResearchFundingReport<'a> },
    LeaderDecision(LeaderResearchDecisionReport<'a>),
}

/// How a queue entry's funding is reported.
pub open spec fn funding_report(frozen: Option<FrozenGodTerms>) -> GodResearchFundingReport<'static> {
    match frozen {
        Some(t) => GodResearchFundingReport::Frozen(&t),
        None => GodResearchFundingReport::AwaitingFunding,
    }
}

/// `report` shows the Leader commit `entry`.
pub open spec fn decision_report_is(report: LeaderResearchDecisionReport, entry: (Seq<char>, LeaderCommit)) -> bool {
    &&& report.command_id@ == entry.0
    &&& *report.study_id == entry.1.study_id
    &&& report.committed_tick == entry.1.committed_tick
    &&& report.effective_loremaster_level == entry.1.effective_loremaster_level
    &&& report.duplicate_authorization == entry.1.duplicate_authorization
}

/// The canonical two-lane research state of one colony: the funded God queue
/// with its preparations, and the free Leader lane's rolling commitments.
#[derive(Debug, PartialEq, Eq)]
pub struct ResearchAuthority {
    pub schema_version: u32,
    pub colony_id: PlannerId,
    pub version: u64,
    pub notes: ResearchNotesLedger,
    pub void: VoidInsightLedger,
    pub owned_finite: IdMap<()>,
    pub repeatable_completions: IdMap<u32>,
    pub next_queue_sequence: u64,
    /// Entries in increasing sequence order; the first is the front.
    pub god_queue: Vec<GodResearchEntry>,
    pub preparations: IdMap<PreparationState>,
    pub leader_commits: IdMap<LeaderCommit>,
    pub receipts: IdMap<ResearchReceipt>,
}

/// The rolling week's end for a commit, saturating at the largest tick.
pub open spec fn window_end(committed_tick: u64) -> int {
    if committed_tick + ROLLING_SEVEN_GAME_DAYS_MINUTES > u64::MAX {
        u64::MAX as int
    } else {
        committed_tick + ROLLING_SEVEN_GAME_DAYS_MINUTES
    }
}

/// Whether a Leader commit still counts against the rolling week at `now_tick`.
pub open spec fn commit_in_window(commit: LeaderCommit, now_tick: u64) -> bool {
    window_end(commit.committed_tick) > now_tick
}

/// The Leader commits still counted at `now_tick`.
pub open spec fn commits_in_window(commits: Seq<(Seq<char>, LeaderCommit)>, now_tick: u64) -> Seq<(Seq<char>, LeaderCommit)> {
    commits.filter(|e: (Seq<char>, LeaderCommit)| commit_in_window(e.1, now_tick))
}

/// Whether a catalog study is one of the repeatable final boost stages.
pub open spec fn study_repeatable(views: Map<Seq<char>, StudyView>, id: Seq<char>) -> bool {
    views.contains_key(id) && (views[id].kind == (KindView::BoostDuration { stage: 11 }) || views[id].kind
        == (KindView::BoostEconomy { stage: 11 }))
}

/// Which studies are repeatable is the same in every catalog: in any catalog
/// built from capabilities, exactly the stage-eleven duration and economy
/// studies are.
pub proof fn law_repeatable_studies_are_the_final_stages(
    catalog: ProgressionCatalog,
    founding: Set<Seq<char>>,
    capabilities: Seq<ManifestCapability>,
    id: Seq<char>,
)
    requires
        catalog.built_from(founding, capabilities),
    ensures
        study_repeatable(catalog.views(), id) <==> (id == boost_study(24).id || id == boost_study(25).id),
{
    let views = built_views(founding, capabilities);
    assert(catalog.views() == views);
    assert(is_boost_study_id(boost_study(24).id)) by {
        assert(boost_study(24).id == boost_study(24).id);
    }
    assert(is_boost_study_id(boost_study(25).id)) by {
        assert(boost_study(25).id == boost_study(25).id);
    }
    if is_boost_study_id(id) {
        let b = choose|b: int| 0 <= b < 26 && #[trigger] boost_study(b).id == id;
        assert(views.contains_key(id));
        assert(views[id] == boost_study(b));
        if b != 24 {
            lemma_boost_ids_distinct(b, 24);
        }
        if b != 25 {
            lemma_boost_ids_distinct(b, 25);
        }
    } else if views.contains_key(id) {
        assert(researchable_id(capabilities, id));
        assert(views.dom().contains(id));
        assert(!is_boost_study_id(id));
        let g = |k: Seq<char>|
            if is_boost_study_id(k) {
                boost_study(choose|i: int| 0 <= i < 26 && #[trigger] boost_study(i).id == k)
            } else {
                capability_study(
                    capabilities[choose|i: int|
                        0 <= i < capabilities.len() && !(#[trigger] capabilities[i]).founding_owned && capabilities[i].id@ == k],
                    founding,
                )
            };
        assert(views[id] == g(id));
    }
}

/// Whether some finite catalog study is still unowned.
pub open spec fn finite_remaining(views: Map<Seq<char>, StudyView>, owned: Set<Seq<char>>) -> bool {
    exists|k: Seq<char>| #[trigger] views.contains_key(k) && !study_repeatable(views, k) && !owned.contains(k)
}

/// Whether a queue order can be researched front to back: every study is in
/// the catalog, none repeats, and each one's prerequisites are owned or queued
/// before it.
pub open spec fn order_is_topological(views: Map<Seq<char>, StudyView>, owned: Set<Seq<char>>, ids: Seq<Seq<char>>) -> bool {
    forall|i: int|
        0 <= i < ids.len() ==> {
            &&& views.contains_key(#[trigger] ids[i])
            &&& forall|j: int| 0 <= j < i ==> ids[j] != ids[i]
            &&& forall|p: Seq<char>|
                #[trigger] views[ids[i]].prerequisites.contains(p) ==> owned.contains(p) || exists|j: int|
                    0 <= j < i && ids[j] == p
        }
}

pub open spec fn entry_ids(entries: Seq<GodResearchEntry>) -> Seq<Seq<char>> {
    entries.map_values(|e: GodResearchEntry| e.study_id@)
}

impl ResearchAuthority {
    pub fn new(colony_id: PlannerId, notes_balance: ResearchNotes, void_balance: VoidInsight) -> (r: Self)
        ensures
            r.schema_version == RESEARCH_AUTHORITY_SCHEMA_VERSION,
            r.colony_id == colony_id,
            r.version == 0,
            r.notes.partition.colony_id == colony_id,
            r.notes.balance == notes_balance,
            r.notes.version == 0,
            r.notes.spends.wf() && r.notes.spends.map().is_empty(),
            r.notes.valid(),
            r.void.partition.colony_id == colony_id,
            r.void.balance == void_balance,
            r.void.version == 0,
            r.void.spends.wf() && r.void.spends.map().is_empty(),
            r.void.valid(),
            r.owned_finite.wf() && r.owned_finite.map().is_empty(),
            r.repeatable_completions.wf() && r.repeatable_completions.map().is_empty(),
            r.next_queue_sequence == 1,
            r.god_queue@.len() == 0,
            r.preparations.wf() && r.preparations.map().is_empty(),
            r.leader_commits.wf() && r.leader_commits.map().is_empty(),
            r.receipts.wf() && r.receipts.map().is_empty(),
    {
        let mut notes = ResearchNotesLedger::new(colony_id.duplicate());
        notes.balance = notes_balance;
        let mut void = VoidInsightLedger::new(colony_id.duplicate());
        void.balance = void_balance;
        ResearchAuthority {
            schema_version: RESEARCH_AUTHORITY_SCHEMA_VERSION,
            colony_id,
            version: 0,
            notes,
            void,
            owned_finite: IdMap::new(),
            repeatable_completions: IdMap::new(),
            next_queue_sequence: 1,
            god_queue: Vec::new(),
            preparations: IdMap::new(),
            leader_commits: IdMap::new(),
            receipts: IdMap::new(),
        }
    }

    /// How many Leader completions a rolling week allows at a Loremaster level.
    pub fn leader_cadence_limit(effective_loremaster_level: u8) -> (r: usize)
        ensures
            r == cadence_limit(effective_loremaster_level),
    {
        match effective_loremaster_level {
            0 | 1 => 1,
            2 | 3 => 2,
            4 => 3,
            _ => 4,
        }
    }

    /// The front of the God queue.
    pub fn god_front(&self) -> (r: Option<&GodResearchEntry>)
        ensures
            r is Some == (self.god_queue@.len() > 0),
            r matches Some(e) ==> *e == self.god_queue@[0],
    {
        if self.god_queue.len() == 0 {
            None
        } else {
            Some(&self.god_queue[0])
        }
    }

    /// How many Leader commits still count against the rolling week at `now_tick`.
    pub fn leader_used_in_window(&self, now_tick: u64) -> (r: usize)
        ensures
            r == commits_in_window(self.leader_commits@, now_tick).len(),
    {
        let ghost all = self.leader_commits@;
        let ghost pred = |e: (Seq<char>, LeaderCommit)| commit_in_window(e.1, now_tick);
        let n = self.leader_commits.len();
        let mut count: usize = 0;
        let mut i: usize = 0;
        while i < n
            invariant
                n == all.len(),
                all == self.leader_commits@,
                i <= n,
                pred == (|e: (Seq<char>, LeaderCommit)| commit_in_window(e.1, now_tick)),
                count == all.take(i as int).filter(pred).len(),
                count <= i,
            decreases n - i,
        {
            let commit = self.leader_commits.value_at(i);
            proof {
                reveal(Seq::filter);
                let s1 = all.take(i + 1);
                assert(s1.drop_last() =~= all.take(i as int));
                assert(s1.last() == all[i as int]);
                assert(s1.filter(pred) == (if pred(s1.last()) {
                    s1.drop_last().filter(pred).push(s1.last())
                } else {
                    s1.drop_last().filter(pred)
                }));
            }
            if commit.committed_tick.saturating_add(ROLLING_SEVEN_GAME_DAYS_MINUTES) > now_tick {
                count = count + 1;
            }
            i = i + 1;
        }
        proof {
            assert(all.take(n as int) =~= all);
        }
        count
    }

    /// Whether the study is one of the repeatable final boost stages.
    pub fn is_repeatable(&self, catalog: &ProgressionCatalog, study_id: &StudyId) -> (r: bool)
        ensures
            r == study_repeatable(catalog.views(), study_id@),
    {
        match catalog.study(study_id) {
            Some(study) => match study.kind {
                StudyKind::BoostDuration { stage } => stage == 11,
                StudyKind::BoostEconomy { stage } => stage == 11,
                _ => false,
            },
            None => false,
        }
    }

    /// Whether some finite catalog study is not yet owned.
    pub fn has_unowned_finite(&self, catalog: &ProgressionCatalog) -> (r: bool)
        requires
            self.owned_finite.wf(),
        ensures
            r == finite_remaining(catalog.views(), self.owned_finite.map().dom()),
    {
        let studies = catalog.studies();
        let n = studies.len();
        let mut i: usize = 0;
        while i < n
            invariant
                n == studies@.len(),
                studies.wf(),
                studies.map().map_values(|d: StudyDefinition| study_view(d)) == catalog.views(),
                self.owned_finite.wf(),
                i <= n,
                forall|j: int|
                    0 <= j < i ==> study_repeatable(catalog.views(), #[trigger] studies@[j].0)
                        || self.owned_finite.map().dom().contains(studies@[j].0),
            decreases n - i,
        {
            let key = studies.key_at(i);
            let d = studies.value_at(i);
            proof {
                lemma_lookup_at(studies@, i as int);
                assert(catalog.views()[key@] == study_view(*d));
            }
            let repeatable = match d.kind {
                StudyKind::BoostDuration { stage } => stage == 11,
                StudyKind::BoostEconomy { stage } => stage == 11,
                _ => false,
            };
            if !repeatable && !self.owned_finite.contains_key(key.as_str()) {
                proof {
                    assert(catalog.views().contains_key(key@));
                    assert(repeatable == study_repeatable(catalog.views(), key@));
                }
                return true;
            }
            i = i + 1;
        }
        proof {
            assert forall|k: Seq<char>|
                #[trigger] catalog.views().contains_key(k) implies study_repeatable(catalog.views(), k)
                    || self.owned_finite.map().dom().contains(k) by {
                assert(studies.map().contains_key(k));
                let j = choose|j: int| 0 <= j < studies@.len() && #[trigger] studies@[j].0 == k;
            }
        }
        false
    }
}

fn queued_before(ordered: &[GodResearchEntry], end: usize, text: &str) -> (r: bool)
    requires
        end <= ordered@.len(),
    ensures
        r == exists|j: int| 0 <= j < end && #[trigger] ordered@[j].study_id@ == text@,
{
    let mut j: usize = 0;
    while j < end
        invariant
            end <= ordered@.len(),
            j <= end,
            forall|t: int| 0 <= t < j ==> #[trigger] ordered@[t].study_id@ != text@,
        decreases end - j,
    {
        if text_eq(ordered[j].study_id.as_str(), text) {
            return true;
        }
        j = j + 1;
    }
    false
}

/// Whether `ordered` can be researched front to back.
pub fn god_queue_order_is_topological(
    catalog: &ProgressionCatalog,
    owned_finite: &IdMap<()>,
    ordered: &[GodResearchEntry],
) -> (r: bool)
    requires
        owned_finite.wf(),
    ensures
        r == order_is_topological(catalog.views(), owned_finite.map().dom(), entry_ids(ordered@)),
{
    let ghost ids = entry_ids(ordered@);
    let ghost views = catalog.views();
    let ghost owned = owned_finite.map().dom();
    let n = ordered.len();
    let mut i: usize = 0;
    while i < n
        invariant
            n == ordered@.len(),
            ids == entry_ids(ordered@),
            views == catalog.views(),
            owned == owned_finite.map().dom(),
            owned_finite.wf(),
            i <= n,
            forall|a: int|
                0 <= a < i ==> {
                    &&& views.contains_key(#[trigger] ids[a])
                    &&& forall|j: int| 0 <= j < a ==> ids[j] != ids[a]
                    &&& forall|p: Seq<char>|
                        #[trigger] views[ids[a]].prerequisites.contains(p) ==> owned.contains(p) || exists|j: int|
                            0 <= j < a && ids[j] == p
                },
        decreases n - i,
    {
        let entry = &ordered[i];
        assert(ids[i as int] == entry.study_id@);
        let d = match catalog.study(&entry.study_id) {
            Some(d) => d,
            None => {
                return false;
            },
        };
        if queued_before(ordered, i, entry.study_id.as_str()) {
            proof {
                let j = choose|j: int| 0 <= j < i && #[trigger] ordered@[j].study_id@ == entry.study_id@;
                assert(ids[j] == ids[i as int]);
            }
            return false;
        }
        let m = d.prerequisites.len();
        let mut k: usize = 0;
        while k < m
            invariant
                n == ordered@.len(),
                ids == entry_ids(ordered@),
                owned == owned_finite.map().dom(),
                owned_finite.wf(),
                i < n,
                views == catalog.views(),
                views.contains_key(ids[i as int]),
                study_view(*d) == views[ids[i as int]],
                d.prerequisites.wf(),
                m == d.prerequisites@.len(),
                k <= m,
                forall|t: int|
                    0 <= t < k ==> owned.contains((#[trigger] d.prerequisites@[t]).0) || exists|j: int|
                        0 <= j < i && ids[j] == d.prerequisites@[t].0,
            decreases m - k,
        {
            let p = d.prerequisites.key_at(k);
            if !owned_finite.contains_key(p.as_str()) && !queued_before(ordered, i, p.as_str()) {
                proof {
                    lemma_lookup_all(d.prerequisites@);
                    assert(views[ids[i as int]].prerequisites.contains(p@));
                    assert forall|j: int| 0 <= j < i implies ids[j] != p@ by {
                        assert(ordered@[j].study_id@ != p@);
                    }
                }
                return false;
            }
            proof {
                if !owned.contains(p@) {
                    let j = choose|j: int| 0 <= j < i && #[trigger] ordered@[j].study_id@ == p@;
                    assert(ids[j] == p@);
                }
            }
            k = k + 1;
        }
        proof {
            assert forall|p: Seq<char>|
                #[trigger] views[ids[i as int]].prerequisites.contains(p) implies owned.contains(p) || exists|j: int|
                    0 <= j < i && ids[j] == p by {
                let t = choose|t: int| 0 <= t < m && #[trigger] d.prerequisites@[t].0 == p;
                assert(owned.contains(d.prerequisites@[t].0) || exists|j: int| 0 <= j < i && ids[j] == d.prerequisites@[t].0);
            }
            assert forall|j: int| 0 <= j < i implies ids[j] != ids[i as int] by {
                assert(ordered@[j].study_id@ != entry.study_id@);
            }
        }
        i = i + 1;
    }
    true
}

/// Why the Leader may not take study `id`, if it may not.
pub open spec fn exclusion_reason(
    views: Map<Seq<char>, StudyView>,
    owned: Set<Seq<char>>,
    queued: Seq<Seq<char>>,
    finite_left: bool,
    permit: LeaderDuplicatePermit,
    id: Seq<char>,
) -> Option<LeaderExclusionReason> {
    if !views.contains_key(id) {
        Some(LeaderExclusionReason::UnknownStudy)
    } else if owned.contains(id) {
        Some(LeaderExclusionReason::AlreadyOwned)
    } else if study_repeatable(views, id) && finite_left {
        Some(LeaderExclusionReason::RepeatableWhileFiniteRemains)
    } else if !views[id].prerequisites.subset_of(owned) {
        Some(LeaderExclusionReason::PrerequisiteLocked)
    } else if queued.contains(id) && !permit_allows_queued(permit) {
        Some(LeaderExclusionReason::GodQueueDuplicateForbidden)
    } else {
        None
    }
}

/// Whether candidate `i` ranks first: the highest score, then the smallest study id.
pub open spec fn ranks_first(candidates: Seq<LeaderCandidate>, legal: spec_fn(int) -> bool, i: int) -> bool {
    &&& 0 <= i < candidates.len()
    &&& legal(i)
    &&& forall|j: int|
        0 <= j < candidates.len() && legal(j) ==> candidate_score(#[trigger] candidates[j]) < candidate_score(candidates[i])
            || (candidate_score(candidates[j]) == candidate_score(candidates[i]) && text_le(
            candidates[i].study_id@,
            candidates[j].study_id@,
        ))
}

fn prerequisites_owned(d: &StudyDefinition, owned: &IdMap<()>) -> (r: bool)
    requires
        d.prerequisites.wf(),
        owned.wf(),
    ensures
        r == study_view(*d).prerequisites.subset_of(owned.map().dom()),
{
    let m = d.prerequisites.len();
    let mut k: usize = 0;
    while k < m
        invariant
            d.prerequisites.wf(),
            owned.wf(),
            m == d.prerequisites@.len(),
            k <= m,
            forall|t: int| 0 <= t < k ==> owned.map().dom().contains((#[trigger] d.prerequisites@[t]).0),
        decreases m - k,
    {
        let p = d.prerequisites.key_at(k);
        if !owned.contains_key(p.as_str()) {
            proof {
                lemma_lookup_all(d.prerequisites@);
                assert(study_view(*d).prerequisites.contains(p@));
            }
            return false;
        }
        k = k + 1;
    }
    proof {
        assert forall|p: Seq<char>| study_view(*d).prerequisites.contains(p) implies owned.map().dom().contains(p) by {
            let t = choose|t: int| 0 <= t < m && #[trigger] d.prerequisites@[t].0 == p;
            assert(owned.map().dom().contains(d.prerequisites@[t].0));
        }
    }
    true
}

impl ResearchAuthority {
    fn exclusion_for(
        &self,
        catalog: &ProgressionCatalog,
        study_id: &StudyId,
        finite_left: bool,
        duplicate_permit: &LeaderDuplicatePermit,
    ) -> (r: Option<LeaderExclusionReason>)
        requires
            self.owned_finite.wf(),
        ensures
            r == exclusion_reason(
                catalog.views(),
                self.owned_finite.map().dom(),
                entry_ids(self.god_queue@),
                finite_left,
                *duplicate_permit,
                study_id@,
            ),
    {
        let definition = match catalog.study(study_id) {
            Some(d) => d,
            None => {
                return Some(LeaderExclusionReason::UnknownStudy);
            },
        };
        if self.owned_finite.contains_key(study_id.as_str()) {
            return Some(LeaderExclusionReason::AlreadyOwned);
        }
        if self.is_repeatable(catalog, study_id) && finite_left {
            return Some(LeaderExclusionReason::RepeatableWhileFiniteRemains);
        }
        if !prerequisites_owned(definition, &self.owned_finite) {
            return Some(LeaderExclusionReason::PrerequisiteLocked);
        }
        let queued = queued_before(self.god_queue.as_slice(), self.god_queue.len(), study_id.as_str());
        proof {
            let ids = entry_ids(self.god_queue@);
            if queued {
                let j = choose|j: int| 0 <= j < self.god_queue@.len() && #[trigger] self.god_queue@[j].study_id@ == study_id@;
                assert(ids[j] == study_id@);
            }
            if ids.contains(study_id@) {
                let j = choose|j: int| 0 <= j < ids.len() && ids[j] == study_id@;
                assert(self.god_queue@[j].study_id@ == study_id@);
            }
        }
        if queued && !duplicate_permit.permits_queued_target() {
            return Some(LeaderExclusionReason::GodQueueDuplicateForbidden);
        }
        None
    }

    /// Why the Leader may not take study `id` now, if it may not.
    pub open spec fn leader_reason(
        &self,
        catalog: &ProgressionCatalog,
        level: u8,
        now_tick: u64,
        permit: LeaderDuplicatePermit,
        id: Seq<char>,
    ) -> Option<LeaderExclusionReason> {
        if commits_in_window(self.leader_commits@, now_tick).len() >= cadence_limit(level) {
            Some(LeaderExclusionReason::RollingCadenceExhausted)
        } else {
            exclusion_reason(
                catalog.views(),
                self.owned_finite.map().dom(),
                entry_ids(self.god_queue@),
                finite_remaining(catalog.views(), self.owned_finite.map().dom()),
                permit,
                id,
            )
        }
    }

    /// Pick the Leader's study: when the rolling week still has room, every
    /// candidate the Leader may not take is excluded with its reason, and the
    /// legal candidate with the highest score (then the smallest study id) is
    /// selected.
    pub fn select_leader_target(
        &self,
        catalog: &ProgressionCatalog,
        candidates: &[LeaderCandidate],
        effective_loremaster_level: u8,
        now_tick: u64,
        duplicate_permit: &LeaderDuplicatePermit,
    ) -> (r: LeaderSelection)
        requires
            self.owned_finite.wf(),
        ensures
            r.excluded.wf(),
            r.excluded.map() == Map::new(
                |k: Seq<char>|
                    (exists|i: int| 0 <= i < candidates@.len() && #[trigger] candidates@[i].study_id@ == k)
                        && self.leader_reason(catalog, effective_loremaster_level, now_tick, *duplicate_permit, k) is Some,
                |k: Seq<char>| self.leader_reason(catalog, effective_loremaster_level, now_tick, *duplicate_permit, k)->0,
            ),
            r.selected is None <==> forall|i: int|
                0 <= i < candidates@.len() ==> self.leader_reason(
                    catalog,
                    effective_loremaster_level,
                    now_tick,
                    *duplicate_permit,
                    (#[trigger] candidates@[i]).study_id@,
                ) is Some,
            r.selected matches Some(s) ==> exists|i: int|
                ranks_first(
                    candidates@,
                    |j: int|
                        self.leader_reason(
                            catalog,
                            effective_loremaster_level,
                            now_tick,
                            *duplicate_permit,
                            candidates@[j].study_id@,
                        ) is None,
                    i,
                ) && #[trigger] candidates@[i].study_id@ == s@,
            r.selected_duplicate_authorization == (match r.selected {
                Some(s) => if entry_ids(self.god_queue@).contains(s@) {
                    match *duplicate_permit {
                        LeaderDuplicatePermit::Absent => DuplicateAuthorization::Absent,
                        LeaderDuplicatePermit::CriticalVillage(_) => DuplicateAuthorization::CriticalVillage,
                        LeaderDuplicatePermit::KeyedOopsie(_) => DuplicateAuthorization::KeyedOopsie,
                    }
                } else {
                    DuplicateAuthorization::Absent
                },
                None => DuplicateAuthorization::Absent,
            }),
    {
        let exhausted = self.leader_used_in_window(now_tick) >= Self::leader_cadence_limit(effective_loremaster_level);
        let finite_left = if exhausted {
            false
        } else {
            self.has_unowned_finite(catalog)
        };
        let ghost legal = |j: int|
            self.leader_reason(catalog, effective_loremaster_level, now_tick, *duplicate_permit, candidates@[j].study_id@)
                is None;
        let mut excluded: IdMap<LeaderExclusionReason> = IdMap::new();
        let mut best: Option<usize> = None;
        let n = candidates.len();
        let mut i: usize = 0;
        while i < n
            invariant
                n == candidates@.len(),
                i <= n,
                self.owned_finite.wf(),
                excluded.wf(),
                exhausted == (commits_in_window(self.leader_commits@, now_tick).len() >= cadence_limit(
                    effective_loremaster_level,
                )),
                !exhausted ==> finite_left == finite_remaining(catalog.views(), self.owned_finite.map().dom()),
                legal == (|j: int|
                    self.leader_reason(
                        catalog,
                        effective_loremaster_level,
                        now_tick,
                        *duplicate_permit,
                        candidates@[j].study_id@,
                    ) is None),
                excluded.map() == Map::new(
                    |k: Seq<char>|
                        (exists|j: int| 0 <= j < i && #[trigger] candidates@[j].study_id@ == k) && self.leader_reason(
                            catalog,
                            effective_loremaster_level,
                            now_tick,
                            *duplicate_permit,
                            k,
                        ) is Some,
                    |k: Seq<char>| self.leader_reason(catalog, effective_loremaster_level, now_tick, *duplicate_permit, k)->0,
                ),
                best is None <==> forall|j: int|
                    0 <= j < i ==> self.leader_reason(
                        catalog,
                        effective_loremaster_level,
                        now_tick,
                        *duplicate_permit,
                        (#[trigger] candidates@[j]).study_id@,
                    ) is Some,
                best matches Some(b) ==> b < i && legal(b as int) && forall|j: int|
                    0 <= j < i && legal(j) ==> candidate_score(#[trigger] candidates@[j]) < candidate_score(
                        candidates@[b as int],
                    ) || (candidate_score(candidates@[j]) == candidate_score(candidates@[b as int]) && text_le(
                        candidates@[b as int].study_id@,
                        candidates@[j].study_id@,
                    )),
            decreases n - i,
        {
            let candidate = &candidates[i];
            let why = if exhausted {
                Some(LeaderExclusionReason::RollingCadenceExhausted)
            } else {
                self.exclusion_for(catalog, &candidate.study_id, finite_left, duplicate_permit)
            };
            assert(why == self.leader_reason(
                catalog,
                effective_loremaster_level,
                now_tick,
                *duplicate_permit,
                candidate.study_id@,
            ));
            assert(legal(i as int) == (why is None));
            let ghost before = excluded.map();
            match why {
                Some(reason_now) => {
                    excluded.insert(String::from_str(candidate.study_id.as_str()), reason_now);
                },
                None => {
                    let better = match best {
                        None => true,
                        Some(b) => {
                            let score = candidate.score();
                            let best_score = candidates[b].score();
                            score > best_score || (score == best_score && text_less(
                                candidate.study_id.as_str(),
                                candidates[b].study_id.as_str(),
                            ))
                        },
                    };
                    if better {
                        proof {
                            if best is Some {
                                let b = best->0;
                                assert forall|j: int|
                                    0 <= j < i + 1 && legal(j) implies candidate_score(#[trigger] candidates@[j])
                                    < candidate_score(candidates@[i as int]) || (candidate_score(candidates@[j])
                                    == candidate_score(candidates@[i as int]) && text_le(
                                    candidates@[i as int].study_id@,
                                    candidates@[j].study_id@,
                                )) by {
                                    if j < i {
                                        if candidate_score(candidates@[j]) == candidate_score(candidates@[b as int]) {
                                            if text_lt(candidates@[i as int].study_id@, candidates@[b as int].study_id@)
                                                && candidates@[b as int].study_id@ != candidates@[j].study_id@ {
                                                lemma_text_lt_transitive(
                                                    candidates@[i as int].study_id@,
                                                    candidates@[b as int].study_id@,
                                                    candidates@[j].study_id@,
                                                );
                                            }
                                        }
                                    }
                                }
                            }
                        }
                        best = Some(i);
                    } else {
                        proof {
                            let b = best->0;
                            if candidate_score(candidates@[i as int]) == candidate_score(candidates@[b as int]) {
                                lemma_text_lt_total(candidates@[i as int].study_id@, candidates@[b as int].study_id@);
                            }
                        }
                    }
                },
            }
            proof {
                let reason = |k: Seq<char>|
                    self.leader_reason(catalog, effective_loremaster_level, now_tick, *duplicate_permit, k);
                assert(excluded.map() =~= Map::new(
                    |k: Seq<char>|
                        (exists|j: int| 0 <= j < i + 1 && #[trigger] candidates@[j].study_id@ == k) && reason(k) is Some,
                    |k: Seq<char>| reason(k)->0,
                )) by {
                    assert forall|k: Seq<char>|
                        (exists|j: int| 0 <= j < i + 1 && #[trigger] candidates@[j].study_id@ == k) && reason(k) is Some
                            implies excluded.map().contains_key(k) by {
                        let j = choose|j: int| 0 <= j < i + 1 && #[trigger] candidates@[j].study_id@ == k;
                        if j < i {
                            assert(before.contains_key(k));
                        }
                    }
                    assert forall|k: Seq<char>| #[trigger] excluded.map().contains_key(k) implies excluded.map()[k] == reason(
                        k,
                    )->0 by {
                        if k != candidate.study_id@ {
                            assert(before.contains_key(k));
                        }
                    }
                }
            }
            i = i + 1;
        }
        let selected = match best {
            Some(b) => Some(candidates[b].study_id.duplicate()),
            None => None,
        };
        let selected_duplicate_authorization = match &selected {
            Some(s) => {
                let queued = queued_before(self.god_queue.as_slice(), self.god_queue.len(), s.as_str());
                proof {
                    let ids = entry_ids(self.god_queue@);
                    if queued {
                        let j = choose|j: int| 0 <= j < self.god_queue@.len() && #[trigger] self.god_queue@[j].study_id@ == s@;
                        assert(ids[j] == s@);
                    }
                    if ids.contains(s@) {
                        let j = choose|j: int| 0 <= j < ids.len() && ids[j] == s@;
                        assert(self.god_queue@[j].study_id@ == s@);
                    }
                }
                if queued {
                    duplicate_permit.kind()
                } else {
                    DuplicateAuthorization::Absent
                }
            },
            None => DuplicateAuthorization::Absent,
        };
        proof {
            if best is Some {
                let b = best->0 as int;
                assert(ranks_first(candidates@, legal, b));
            }
        }
        LeaderSelection { selected, selected_duplicate_authorization, excluded }
    }
}

/// Labor minutes a preparation takes: a quarter of the study's work, rounded up.
pub open spec fn preparation_minutes(work: u64) -> int {
    work as int / 4 + if work as int % 4 != 0 { 1int } else { 0 }
}

/// The persistence rules of the research authority against `catalog`.
pub open spec fn authority_rules(a: ResearchAuthority, views: Map<Seq<char>, StudyView>) -> bool {
    let queue = a.god_queue@;
    let ids = entry_ids(queue);
    &&& a.schema_version == RESEARCH_AUTHORITY_SCHEMA_VERSION
    &&& a.next_queue_sequence != 0
    &&& queue.len() <= MAX_GOD_QUEUE_ENTRIES
    &&& a.preparations@.len() <= MAX_RESEARCH_REPORT_PREPARATIONS
    &&& a.receipts@.len() <= MAX_RESEARCH_RECEIPTS
    &&& a.leader_commits@.len() <= MAX_LEADER_COMMITS
    &&& a.notes.partition.colony_id@ == a.colony_id@
    &&& a.void.partition.colony_id@ == a.colony_id@
    &&& forall|i: int, j: int| 0 <= i < j < queue.len() ==> #[trigger] queue[i].sequence < #[trigger] queue[j].sequence
    &&& forall|i: int| 0 <= i < queue.len() ==> views.contains_key(#[trigger] ids[i])
    &&& (queue.len() > 0 ==> queue.last().sequence < a.next_queue_sequence)
    &&& order_is_topological(views, a.owned_finite.map().dom(), ids)
    &&& forall|i: int| 0 < i < queue.len() ==> (#[trigger] queue[i]).frozen is None
    &&& forall|i: int|
        0 <= i < a.preparations@.len() ==> {
            let (key, state) = #[trigger] a.preparations@[i];
            &&& views.contains_key(key)
            &&& key == state.study_id@
            &&& views[key].kind is OrdinaryCapability
            &&& ids.contains(key)
            &&& state.required_labor_minutes == preparation_minutes(views[key].required_work_minutes)
            &&& state.required_labor_minutes != 0
            &&& state.completed_labor_minutes <= state.required_labor_minutes
        }
    &&& forall|i: int|
        0 <= i < a.receipts@.len() ==> {
            let (key, receipt) = #[trigger] a.receipts@[i];
            &&& key == receipt.command.id@
            &&& receipt.committed_version != 0
            &&& receipt.committed_version <= a.version
        }
}

fn preparation_labor(work: u64) -> (r: u64)
    ensures
        r == preparation_minutes(work),
{
    work / 4 + if work % 4 != 0 { 1 } else { 0 }
}

impl ResearchAuthority {
    /// `Ok` exactly when the authority keeps its persistence rules against `catalog`.
    pub fn validate_against(&self, catalog: &ProgressionCatalog) -> (r: Result<(), ResearchAuthorityError>)
        requires
            self.owned_finite.wf(),
            self.preparations.wf(),
            self.receipts.wf(),
        ensures
            r is Ok <==> authority_rules(*self, catalog.views()),
            r is Err ==> r == Err::<(), ResearchAuthorityError>(ResearchAuthorityError::MalformedPersistence),
    {
        let ghost views = catalog.views();
        let ghost queue = self.god_queue@;
        let ghost ids = entry_ids(queue);
        if self.schema_version != RESEARCH_AUTHORITY_SCHEMA_VERSION || self.next_queue_sequence == 0
            || self.god_queue.len() > MAX_GOD_QUEUE_ENTRIES
            || self.preparations.len() > MAX_RESEARCH_REPORT_PREPARATIONS
            || self.receipts.len() > MAX_RESEARCH_RECEIPTS || self.leader_commits.len() > MAX_LEADER_COMMITS
            || !text_eq(self.notes.partition.colony_id.as_str(), self.colony_id.as_str())
            || !text_eq(self.void.partition.colony_id.as_str(), self.colony_id.as_str()) {
            return Err(ResearchAuthorityError::MalformedPersistence);
        }
        let n = self.god_queue.len();
        let mut i: usize = 0;
        while i < n
            invariant
                n == queue.len(),
                queue == self.god_queue@,
                ids == entry_ids(queue),
                views == catalog.views(),
                i <= n,
                forall|x: int, y: int| 0 <= x < y < i ==> #[trigger] queue[x].sequence < #[trigger] queue[y].sequence,
                forall|x: int| 0 <= x < i ==> views.contains_key(#[trigger] ids[x]),
                forall|x: int| 0 < x < i ==> (#[trigger] queue[x]).frozen is None,
            decreases n - i,
        {
            let entry = &self.god_queue[i];
            if i > 0 && self.god_queue[i - 1].sequence >= entry.sequence {
                return Err(ResearchAuthorityError::MalformedPersistence);
            }
            assert(ids[i as int] == entry.study_id@);
            if catalog.study(&entry.study_id).is_none() {
                return Err(ResearchAuthorityError::MalformedPersistence);
            }
            if i > 0 && entry.frozen.is_some() {
                return Err(ResearchAuthorityError::MalformedPersistence);
            }
            proof {
                assert forall|x: int, y: int| 0 <= x < y < i + 1 implies #[trigger] queue[x].sequence < #[trigger] queue[y].sequence by {
                    if y == i && x < i - 1 {
                        assert(queue[x].sequence < queue[i - 1].sequence);
                    }
                }
            }
            i = i + 1;
        }
        if n > 0 && self.god_queue[n - 1].sequence >= self.next_queue_sequence {
            return Err(ResearchAuthorityError::MalformedPersistence);
        }
        if !god_queue_order_is_topological(catalog, &self.owned_finite, self.god_queue.as_slice()) {
            return Err(ResearchAuthorityError::MalformedPersistence);
        }
        let ghost preps = self.preparations@;
        let m = self.preparations.len();
        let mut i: usize = 0;
        while i < m
            invariant
                m == preps.len(),
                preps == self.preparations@,
                queue == self.god_queue@,
                ids == entry_ids(queue),
                views == catalog.views(),
                i <= m,
                forall|x: int|
                    0 <= x < i ==> {
                        let (key, state) = #[trigger] preps[x];
                        &&& views.contains_key(key)
                        &&& key == state.study_id@
                        &&& views[key].kind is OrdinaryCapability
                        &&& ids.contains(key)
                        &&& state.required_labor_minutes == preparation_minutes(views[key].required_work_minutes)
                        &&& state.required_labor_minutes != 0
                        &&& state.completed_labor_minutes <= state.required_labor_minutes
                    },
            decreases m - i,
        {
            let key = self.preparations.key_at(i);
            let state = self.preparations.value_at(i);
            let definition = match catalog.study(&state.study_id) {
                Some(d) => d,
                None => {
                    return Err(ResearchAuthorityError::MalformedPersistence);
                },
            };
            if !text_eq(key.as_str(), state.study_id.as_str()) {
                return Err(ResearchAuthorityError::MalformedPersistence);
            }
            let ordinary = match definition.kind {
                StudyKind::OrdinaryCapability { .. } => true,
                _ => false,
            };
            let queued = queued_before(self.god_queue.as_slice(), self.god_queue.len(), key.as_str());
            proof {
                if queued {
                    let j = choose|j: int| 0 <= j < queue.len() && #[trigger] queue[j].study_id@ == key@;
                    assert(ids[j] == key@);
                }
                if ids.contains(key@) {
                    let j = choose|j: int| 0 <= j < ids.len() && ids[j] == key@;
                    assert(queue[j].study_id@ == key@);
                }
            }
            if !ordinary || !queued || state.required_labor_minutes != preparation_labor(definition.required_work_minutes)
                || state.required_labor_minutes == 0 || state.completed_labor_minutes > state.required_labor_minutes {
                return Err(ResearchAuthorityError::MalformedPersistence);
            }
            i = i + 1;
        }
        let ghost receipts = self.receipts@;
        let c = self.receipts.len();
        let mut i: usize = 0;
        while i < c
            invariant
                c == receipts.len(),
                receipts == self.receipts@,
                i <= c,
                forall|x: int|
                    0 <= x < i ==> {
                        let (key, receipt) = #[trigger] receipts[x];
                        &&& key == receipt.command.id@
                        &&& receipt.committed_version != 0
                        &&& receipt.committed_version <= self.version
                    },
            decreases c - i,
        {
            let key = self.receipts.key_at(i);
            let receipt = self.receipts.value_at(i);
            if !text_eq(key.as_str(), receipt.command.id.as_str()) || receipt.committed_version == 0
                || receipt.committed_version > self.version {
                return Err(ResearchAuthorityError::MalformedPersistence);
            }
            i = i + 1;
        }
        Ok(())
    }

    /// Where a study stands: owned, queued for the God lane (with its funding,
    /// if frozen), decided by the Leader, or available.
    pub fn report_study_collision(&self, study_id: &StudyId) -> (r: ResearchStudyCollisionReport<'_>)
        requires
            self.owned_finite.wf(),
        ensures
            self.owned_finite.map().contains_key(study_id@) ==> r is OwnedFinite,
            !self.owned_finite.map().contains_key(study_id@) && entry_ids(self.god_queue@).contains(study_id@) ==> (r
                matches ResearchStudyCollisionReport::GodQueued { sequence, funding } && exists|i: int|
                0 <= i < self.god_queue@.len() && #[trigger] self.god_queue@[i].study_id@ == study_id@ && (forall|j: int|
                0 <= j < i ==> self.god_queue@[j].study_id@ != study_id@) && sequence == self.god_queue@[i].sequence
                && funding == funding_report(self.god_queue@[i].frozen)),
            !self.owned_finite.map().contains_key(study_id@) && !entry_ids(self.god_queue@).contains(study_id@) && (exists|
                i: int,
            | 0 <= i < self.leader_commits@.len() && #[trigger] self.leader_commits@[i].1.study_id@ == study_id@) ==> (r
                matches ResearchStudyCollisionReport::LeaderDecision(report) && exists|i: int|
                0 <= i < self.leader_commits@.len() && #[trigger] self.leader_commits@[i].1.study_id@ == study_id@
                && (forall|j: int| 0 <= j < i ==> self.leader_commits@[j].1.study_id@ != study_id@) && decision_report_is(
                report,
                self.leader_commits@[i],
            )),
            !self.owned_finite.map().contains_key(study_id@) && !entry_ids(self.god_queue@).contains(study_id@) && !(exists|
                i: int,
            | 0 <= i < self.leader_commits@.len() && #[trigger] self.leader_commits@[i].1.study_id@ == study_id@) ==> r is Available,
    {
        if self.owned_finite.contains_key(study_id.as_str()) {
            return ResearchStudyCollisionReport::OwnedFinite;
        }
        let n = self.god_queue.len();
        let mut i: usize = 0;
        while i < n
            invariant
                n == self.god_queue@.len(),
                i <= n,
                !self.owned_finite.map().contains_key(study_id@),
                forall|j: int| 0 <= j < i ==> #[trigger] self.god_queue@[j].study_id@ != study_id@,
            decreases n - i,
        {
            let entry = &self.god_queue[i];
            if text_eq(entry.study_id.as_str(), study_id.as_str()) {
                proof {
                    assert(entry_ids(self.god_queue@)[i as int] == study_id@);
                }
                let funding = match &entry.frozen {
                    Some(t) => GodResearchFundingReport::Frozen(t),
                    None => GodResearchFundingReport::AwaitingFunding,
                };
                let r = ResearchStudyCollisionReport::GodQueued { sequence: entry.sequence, funding };
                proof {
                    assert(self.god_queue@[i as int].study_id@ == study_id@);
                    assert(funding == funding_report(self.god_queue@[i as int].frozen));
                }
                return r;
            }
            i = i + 1;
        }
        proof {
            if entry_ids(self.god_queue@).contains(study_id@) {
                let j = choose|j: int| 0 <= j < n && entry_ids(self.god_queue@)[j] == study_id@;
                assert(self.god_queue@[j].study_id@ == study_id@);
            }
        }
        let c = self.leader_commits.len();
        let mut i: usize = 0;
        while i < c
            invariant
                c == self.leader_commits@.len(),
                i <= c,
                !self.owned_finite.map().contains_key(study_id@),
                !entry_ids(self.god_queue@).contains(study_id@),
                forall|j: int| 0 <= j < i ==> #[trigger] self.leader_commits@[j].1.study_id@ != study_id@,
            decreases c - i,
        {
            let commit = self.leader_commits.value_at(i);
            if text_eq(commit.study_id.as_str(), study_id.as_str()) {
                let r = ResearchStudyCollisionReport::LeaderDecision(
                    LeaderResearchDecisionReport {
                        command_id: self.leader_commits.key_at(i).as_str(),
                        study_id: &commit.study_id,
                        committed_tick: commit.committed_tick,
                        effective_loremaster_level: commit.effective_loremaster_level,
                        duplicate_authorization: commit.duplicate_authorization,
                    },
                );
                proof {
                    assert(self.leader_commits@[i as int].1.study_id@ == study_id@);
                }
                return r;
            }
            i = i + 1;
        }
        ResearchStudyCollisionReport::Available
    }
}

impl ExactCopy for () {
    fn exact_copy(&self) -> (r: Self) {
        ()
    }
}

impl ExactCopy for u32 {
    fn exact_copy(&self) -> (r: Self) {
        *self
    }
}

fn copy_opt_study(s: &Option<StudyId>) -> (r: Option<StudyId>)
    ensures
        r == *s,
{
    match s {
        Some(id) => Some(id.duplicate()),
        None => None,
    }
}

impl ExactCopy for ResearchCommandId {
    fn exact_copy(&self) -> (r: Self) {
        ResearchCommandId(self.0.duplicate())
    }
}

impl ExactCopy for ResearchCommandKind {
    fn exact_copy(&self) -> (r: Self) {
        match self {
            ResearchCommandKind::QueueGodPath { target } => ResearchCommandKind::QueueGodPath { target: target.duplicate() },
            ResearchCommandKind::FundGodFront { consume_preparation } => ResearchCommandKind::FundGodFront {
                consume_preparation: *consume_preparation,
            },
            ResearchCommandKind::RequestPreparation { study_id } => ResearchCommandKind::RequestPreparation {
                study_id: study_id.duplicate(),
            },
            ResearchCommandKind::PerformPreparation { study_id, staffed_research_station, scholar_alive, labor_minutes } =>
                ResearchCommandKind::PerformPreparation {
                study_id: study_id.duplicate(),
                staffed_research_station: *staffed_research_station,
                scholar_alive: *scholar_alive,
                labor_minutes: *labor_minutes,
            },
            ResearchCommandKind::PerformGodLabor { staffed_research_station, scholar_alive, labor_minutes } =>
                ResearchCommandKind::PerformGodLabor {
                staffed_research_station: *staffed_research_station,
                scholar_alive: *scholar_alive,
                labor_minutes: *labor_minutes,
            },
            ResearchCommandKind::RemoveGodTarget { study_id } => ResearchCommandKind::RemoveGodTarget {
                study_id: study_id.duplicate(),
            },
            ResearchCommandKind::ReorderGodTarget { study_id, before_study_id } => ResearchCommandKind::ReorderGodTarget {
                study_id: study_id.duplicate(),
                before_study_id: copy_opt_study(before_study_id),
            },
            ResearchCommandKind::CompleteLeader { study_id, effective_loremaster_level, now_tick, duplicate_permit } =>
                ResearchCommandKind::CompleteLeader {
                study_id: study_id.duplicate(),
                effective_loremaster_level: *effective_loremaster_level,
                now_tick: *now_tick,
                duplicate_permit: *duplicate_permit,
            },
        }
    }
}

impl ExactCopy for ResearchCommand {
    fn exact_copy(&self) -> (r: Self) {
        ResearchCommand { id: self.id.exact_copy(), expected_version: self.expected_version, kind: self.kind.exact_copy() }
    }
}

impl ExactCopy for ResearchCommandOutcome {
    fn exact_copy(&self) -> (r: Self) {
        match self {
            ResearchCommandOutcome::Queued { entries_added } => ResearchCommandOutcome::Queued { entries_added: *entries_added },
            ResearchCommandOutcome::Funded { payable_cost_micro } => ResearchCommandOutcome::Funded {
                payable_cost_micro: *payable_cost_micro,
            },
            ResearchCommandOutcome::PreparationAdvanced { remaining_labor_minutes } =>
                ResearchCommandOutcome::PreparationAdvanced { remaining_labor_minutes: *remaining_labor_minutes },
            ResearchCommandOutcome::PreparationRequested { study_id, required_labor_minutes } =>
                ResearchCommandOutcome::PreparationRequested {
                study_id: study_id.duplicate(),
                required_labor_minutes: *required_labor_minutes,
            },
            ResearchCommandOutcome::GodLaborAdvanced { remaining_labor_minutes } =>
                ResearchCommandOutcome::GodLaborAdvanced { remaining_labor_minutes: *remaining_labor_minutes },
            ResearchCommandOutcome::GodStudyCompleted { study_id } => ResearchCommandOutcome::GodStudyCompleted {
                study_id: study_id.duplicate(),
            },
            ResearchCommandOutcome::GodTargetRemoved {
                removed_entries,
                refunded_notes_micro,
                refunded_void_micro,
                lost_labor_minutes,
                lost_preparation_labor_minutes,
            } => ResearchCommandOutcome::GodTargetRemoved {
                removed_entries: *removed_entries,
                refunded_notes_micro: *refunded_notes_micro,
                refunded_void_micro: *refunded_void_micro,
                lost_labor_minutes: *lost_labor_minutes,
                lost_preparation_labor_minutes: *lost_preparation_labor_minutes,
            },
            ResearchCommandOutcome::GodTargetReordered { study_id, from_index, to_index } =>
                ResearchCommandOutcome::GodTargetReordered {
                study_id: study_id.duplicate(),
                from_index: *from_index,
                to_index: *to_index,
            },
            ResearchCommandOutcome::LeaderCompleted {
                study_id,
                duplicate_authorization,
                refunded_notes_micro,
                refunded_void_micro,
                lost_god_labor_minutes,
                lost_preparation_labor_minutes,
            } => ResearchCommandOutcome::LeaderCompleted {
                study_id: study_id.duplicate(),
                duplicate_authorization: *duplicate_authorization,
                refunded_notes_micro: *refunded_notes_micro,
                refunded_void_micro: *refunded_void_micro,
                lost_god_labor_minutes: *lost_god_labor_minutes,
                lost_preparation_labor_minutes: *lost_preparation_labor_minutes,
            },
        }
    }
}

impl ExactCopy for ResearchReceipt {
    fn exact_copy(&self) -> (r: Self) {
        ResearchReceipt {
            command: self.command.exact_copy(),
            outcome: self.outcome.exact_copy(),
            committed_version: self.committed_version,
        }
    }
}

impl ExactCopy for GodResearchEntry {
    fn exact_copy(&self) -> (r: Self) {
        GodResearchEntry {
            sequence: self.sequence,
            study_id: self.study_id.duplicate(),
            frozen: self.frozen,
            staffed_labor_minutes: self.staffed_labor_minutes,
        }
    }
}

impl ExactCopy for PreparationState {
    fn exact_copy(&self) -> (r: Self) {
        PreparationState {
            study_id: self.study_id.duplicate(),
            required_labor_minutes: self.required_labor_minutes,
            completed_labor_minutes: self.completed_labor_minutes,
        }
    }
}

impl ExactCopy for LeaderCommit {
    fn exact_copy(&self) -> (r: Self) {
        LeaderCommit {
            study_id: self.study_id.duplicate(),
            committed_tick: self.committed_tick,
            effective_loremaster_level: self.effective_loremaster_level,
            duplicate_authorization: self.duplicate_authorization,
        }
    }
}

fn copy_queue(queue: &Vec<GodResearchEntry>) -> (r: Vec<GodResearchEntry>)
    ensures
        r@ == queue@,
{
    let mut r: Vec<GodResearchEntry> = Vec::new();
    let n = queue.len();
    let mut i: usize = 0;
    while i < n
        invariant
            n == queue@.len(),
            i <= n,
            r@ == queue@.take(i as int),
        decreases n - i,
    {
        r.push(queue[i].exact_copy());
        assert(queue@.take(i + 1) =~= queue@.take(i as int).push(queue@[i as int]));
        i = i + 1;
    }
    assert(queue@.take(n as int) =~= queue@);
    r
}

/// Two authorities hold the same state.
pub open spec fn same_authority(a: ResearchAuthority, b: ResearchAuthority) -> bool {
    &&& a.schema_version == b.schema_version
    &&& a.colony_id == b.colony_id
    &&& a.version == b.version
    &&& same_notes(a.notes, b.notes)
    &&& same_void(a.void, b.void)
    &&& a.owned_finite@ == b.owned_finite@
    &&& a.repeatable_completions@ == b.repeatable_completions@
    &&& a.next_queue_sequence == b.next_queue_sequence
    &&& a.god_queue@ == b.god_queue@
    &&& a.preparations@ == b.preparations@
    &&& a.leader_commits@ == b.leader_commits@
    &&& a.receipts@ == b.receipts@
}

/// The maps an authority keeps are in identifier order.
pub open spec fn authority_maps_wf(a: ResearchAuthority) -> bool {
    &&& a.notes.spends.wf()
    &&& a.void.spends.wf()
    &&& a.owned_finite.wf()
    &&& a.repeatable_completions.wf()
    &&& a.preparations.wf()
    &&& a.leader_commits.wf()
    &&& a.receipts.wf()
}

impl ResearchAuthority {
    /// A copy holding the same state.
    pub fn duplicate(&self) -> (r: Self)
        ensures
            same_authority(r, *self),
            authority_maps_wf(*self) ==> authority_maps_wf(r),
    {
        ResearchAuthority {
            schema_version: self.schema_version,
            colony_id: self.colony_id.duplicate(),
            version: self.version,
            notes: self.notes.duplicate(),
            void: self.void.duplicate(),
            owned_finite: self.owned_finite.copy_entries(),
            repeatable_completions: self.repeatable_completions.copy_entries(),
            next_queue_sequence: self.next_queue_sequence,
            god_queue: copy_queue(&self.god_queue),
            preparations: self.preparations.copy_entries(),
            leader_commits: self.leader_commits.copy_entries(),
            receipts: self.receipts.copy_entries(),
        }
    }
}

/// The header fields and both ledgers are as in `b`.
pub open spec fn same_header_and_ledgers(a: ResearchAuthority, b: ResearchAuthority) -> bool {
    &&& a.schema_version == b.schema_version
    &&& a.colony_id == b.colony_id
    &&& a.version == b.version
    &&& same_notes(a.notes, b.notes)
    &&& same_void(a.void, b.void)
}

/// Why preparation work cannot target `id` at the front, if it cannot.
pub open spec fn preparation_target_error(a: ResearchAuthority, views: Map<Seq<char>, StudyView>, id: Seq<char>) -> Option<
    ResearchAuthorityError,
> {
    if a.god_queue@.len() == 0 {
        Some(ResearchAuthorityError::NoGodFront)
    } else if a.god_queue@[0].study_id@ != id || a.god_queue@[0].frozen is Some {
        Some(ResearchAuthorityError::PreparationMustTargetOrdinaryUnfundedFront)
    } else if !views.contains_key(id) {
        Some(ResearchAuthorityError::UnknownStudy)
    } else if !(views[id].kind is OrdinaryCapability) {
        Some(ResearchAuthorityError::PreparationMustTargetOrdinaryUnfundedFront)
    } else {
        None
    }
}

impl ResearchAuthority {
    fn front_targets(&self, catalog: &ProgressionCatalog, study_id: &StudyId) -> (r: Result<u64, ResearchAuthorityError>)
        ensures
            match preparation_target_error(*self, catalog.views(), study_id@) {
                Some(e) => r == Err::<u64, ResearchAuthorityError>(e),
                None => r == Ok::<u64, ResearchAuthorityError>(
                    preparation_minutes(catalog.views()[study_id@].required_work_minutes) as u64,
                ),
            },
    {
        let front = match self.god_front() {
            Some(front) => front,
            None => {
                return Err(ResearchAuthorityError::NoGodFront);
            },
        };
        if !text_eq(front.study_id.as_str(), study_id.as_str()) || front.frozen.is_some() {
            return Err(ResearchAuthorityError::PreparationMustTargetOrdinaryUnfundedFront);
        }
        let definition = match catalog.study(study_id) {
            Some(d) => d,
            None => {
                return Err(ResearchAuthorityError::UnknownStudy);
            },
        };
        match definition.kind {
            StudyKind::OrdinaryCapability { .. } => {},
            _ => {
                return Err(ResearchAuthorityError::PreparationMustTargetOrdinaryUnfundedFront);
            },
        }
        Ok(preparation_labor(definition.required_work_minutes))
    }

    /// Open a zero-progress preparation for the unfunded ordinary front study.
    fn request_preparation(&mut self, catalog: &ProgressionCatalog, study_id: &StudyId) -> (r: Result<
        ResearchCommandOutcome,
        ResearchAuthorityError,
    >)
        requires
            authority_maps_wf(*old(self)),
        ensures
            authority_maps_wf(*final(self)),
            match preparation_target_error(*old(self), catalog.views(), study_id@) {
                Some(e) => r == Err::<ResearchCommandOutcome, ResearchAuthorityError>(e),
                None => {
                    let required = preparation_minutes(catalog.views()[study_id@].required_work_minutes);
                    if old(self).preparations.map().contains_key(study_id@) {
                        r == Err::<ResearchCommandOutcome, ResearchAuthorityError>(
                            ResearchAuthorityError::PreparationAlreadyExists,
                        )
                    } else if required == 0 {
                        r == Err::<ResearchCommandOutcome, ResearchAuthorityError>(
                            ResearchAuthorityError::MalformedPersistence,
                        )
                    } else {
                        &&& r == Ok::<ResearchCommandOutcome, ResearchAuthorityError>(
                            ResearchCommandOutcome::PreparationRequested {
                                study_id: *study_id,
                                required_labor_minutes: required as u64,
                            },
                        )
                        &&& final(self).preparations.map() == old(self).preparations.map().insert(
                            study_id@,
                            PreparationState {
                                study_id: *study_id,
                                required_labor_minutes: required as u64,
                                completed_labor_minutes: 0,
                            },
                        )
                    }
                },
            },
            r is Ok ==> {
                &&& same_header_and_ledgers(*final(self), *old(self))
                &&& final(self).owned_finite@ == old(self).owned_finite@
                &&& final(self).repeatable_completions@ == old(self).repeatable_completions@
                &&& final(self).next_queue_sequence == old(self).next_queue_sequence
                &&& final(self).god_queue@ == old(self).god_queue@
                &&& final(self).leader_commits@ == old(self).leader_commits@
                &&& final(self).receipts@ == old(self).receipts@
            },
    {
        let required = match self.front_targets(catalog, study_id) {
            Ok(required) => required,
            Err(e) => {
                return Err(e);
            },
        };
        if self.preparations.contains_key(study_id.as_str()) {
            return Err(ResearchAuthorityError::PreparationAlreadyExists);
        }
        if required == 0 {
            return Err(ResearchAuthorityError::MalformedPersistence);
        }
        self.preparations.insert(
            String::from_str(study_id.as_str()),
            PreparationState { study_id: study_id.duplicate(), required_labor_minutes: required, completed_labor_minutes: 0 },
        );
        Ok(ResearchCommandOutcome::PreparationRequested { study_id: study_id.duplicate(), required_labor_minutes: required })
    }

    /// Record staffed preparation labor on the front study's preparation.
    fn perform_preparation(
        &mut self,
        catalog: &ProgressionCatalog,
        study_id: &StudyId,
        staffed_research_station: bool,
        scholar_alive: bool,
        labor_minutes: u64,
    ) -> (r: Result<ResearchCommandOutcome, ResearchAuthorityError>)
        requires
            authority_maps_wf(*old(self)),
        ensures
            authority_maps_wf(*final(self)),
            !staffed_research_station || !scholar_alive ==> r == Err::<ResearchCommandOutcome, ResearchAuthorityError>(
                ResearchAuthorityError::ResearchInfrastructureUnavailable,
            ),
            staffed_research_station && scholar_alive && labor_minutes == 0 ==> r == Err::<
                ResearchCommandOutcome,
                ResearchAuthorityError,
            >(ResearchAuthorityError::MalformedCommand),
            staffed_research_station && scholar_alive && labor_minutes != 0 ==> match preparation_target_error(
                *old(self),
                catalog.views(),
                study_id@,
            ) {
                Some(e) => r == Err::<ResearchCommandOutcome, ResearchAuthorityError>(e),
                None => {
                    let required = preparation_minutes(catalog.views()[study_id@].required_work_minutes);
                    let preps = old(self).preparations.map();
                    if !preps.contains_key(study_id@) {
                        r == Err::<ResearchCommandOutcome, ResearchAuthorityError>(
                            ResearchAuthorityError::PreparationNotRequested,
                        )
                    } else if preps[study_id@].required_labor_minutes != required {
                        r == Err::<ResearchCommandOutcome, ResearchAuthorityError>(
                            ResearchAuthorityError::MalformedPersistence,
                        )
                    } else if preps[study_id@].completed_labor_minutes >= preps[study_id@].required_labor_minutes {
                        r == Err::<ResearchCommandOutcome, ResearchAuthorityError>(
                            ResearchAuthorityError::PreparationAlreadyExists,
                        )
                    } else if preps[study_id@].completed_labor_minutes + labor_minutes > u64::MAX {
                        r == Err::<ResearchCommandOutcome, ResearchAuthorityError>(
                            ResearchAuthorityError::ArithmeticOverflow,
                        )
                    } else {
                        let completed = if preps[study_id@].completed_labor_minutes + labor_minutes < required {
                            preps[study_id@].completed_labor_minutes + labor_minutes
                        } else {
                            required
                        };
                        &&& r == Ok::<ResearchCommandOutcome, ResearchAuthorityError>(
                            ResearchCommandOutcome::PreparationAdvanced {
                                remaining_labor_minutes: (required - completed) as u64,
                            },
                        )
                        &&& final(self).preparations.map() == preps.insert(
                            study_id@,
                            PreparationState { completed_labor_minutes: completed as u64, ..preps[study_id@] },
                        )
                    }
                },
            },
            r is Ok ==> {
                &&& same_header_and_ledgers(*final(self), *old(self))
                &&& final(self).owned_finite@ == old(self).owned_finite@
                &&& final(self).repeatable_completions@ == old(self).repeatable_completions@
                &&& final(self).next_queue_sequence == old(self).next_queue_sequence
                &&& final(self).god_queue@ == old(self).god_queue@
                &&& final(self).leader_commits@ == old(self).leader_commits@
                &&& final(self).receipts@ == old(self).receipts@
            },
    {
        if !staffed_research_station || !scholar_alive {
            return Err(ResearchAuthorityError::ResearchInfrastructureUnavailable);
        }
        if labor_minutes == 0 {
            return Err(ResearchAuthorityError::MalformedCommand);
        }
        let required = match self.front_targets(catalog, study_id) {
            Ok(required) => required,
            Err(e) => {
                return Err(e);
            },
        };
        let state = match self.preparations.get(study_id.as_str()) {
            Some(state) => state,
            None => {
                return Err(ResearchAuthorityError::PreparationNotRequested);
            },
        };
        if state.required_labor_minutes != required {
            return Err(ResearchAuthorityError::MalformedPersistence);
        }
        if state.complete() {
            return Err(ResearchAuthorityError::PreparationAlreadyExists);
        }
        let total = match state.completed_labor_minutes.checked_add(labor_minutes) {
            Some(total) => total,
            None => {
                return Err(ResearchAuthorityError::ArithmeticOverflow);
            },
        };
        let completed = if total < required { total } else { required };
        let next = PreparationState {
            study_id: state.study_id.duplicate(),
            required_labor_minutes: state.required_labor_minutes,
            completed_labor_minutes: completed,
        };
        self.preparations.insert(String::from_str(study_id.as_str()), next);
        Ok(ResearchCommandOutcome::PreparationAdvanced { remaining_labor_minutes: required - completed })
    }
}

impl ResearchAuthority {
    /// Record staffed labor on the funded front study; once its duration is
    /// met the study leaves the queue and is owned (or counted, if repeatable).
    fn perform_god_labor(
        &mut self,
        catalog: &ProgressionCatalog,
        staffed_research_station: bool,
        scholar_alive: bool,
        labor_minutes: u64,
    ) -> (r: Result<ResearchCommandOutcome, ResearchAuthorityError>)
        requires
            authority_maps_wf(*old(self)),
        ensures
            authority_maps_wf(*final(self)),
            ({
                let q = old(self).god_queue@;
                let views = catalog.views();
                if !staffed_research_station || !scholar_alive {
                    r == Err::<ResearchCommandOutcome, ResearchAuthorityError>(
                        ResearchAuthorityError::ResearchInfrastructureUnavailable,
                    )
                } else if labor_minutes == 0 {
                    r == Err::<ResearchCommandOutcome, ResearchAuthorityError>(ResearchAuthorityError::MalformedCommand)
                } else if q.len() == 0 {
                    r == Err::<ResearchCommandOutcome, ResearchAuthorityError>(ResearchAuthorityError::NoGodFront)
                } else if q[0].frozen is None {
                    r == Err::<ResearchCommandOutcome, ResearchAuthorityError>(ResearchAuthorityError::GodFrontUnfunded)
                } else if q[0].staffed_labor_minutes + labor_minutes > u64::MAX {
                    r == Err::<ResearchCommandOutcome, ResearchAuthorityError>(ResearchAuthorityError::ArithmeticOverflow)
                } else {
                    let duration = q[0].frozen->0.duration_game_minutes;
                    let staffed = if q[0].staffed_labor_minutes + labor_minutes < duration {
                        q[0].staffed_labor_minutes + labor_minutes
                    } else {
                        duration as int
                    };
                    let id = q[0].study_id@;
                    let completions = old(self).repeatable_completions.map();
                    let count = if completions.contains_key(id) { completions[id] as int } else { 0int };
                    if staffed < duration {
                        &&& r == Ok::<ResearchCommandOutcome, ResearchAuthorityError>(
                            ResearchCommandOutcome::GodLaborAdvanced { remaining_labor_minutes: (duration - staffed) as u64 },
                        )
                        &&& final(self).god_queue@ == q.update(0, GodResearchEntry { staffed_labor_minutes: staffed as u64, ..q[0] })
                        &&& final(self).owned_finite.map() == old(self).owned_finite.map()
                        &&& final(self).repeatable_completions.map() == completions
                        &&& final(self).preparations.map() == old(self).preparations.map()
                    } else if study_repeatable(views, id) && count + 1 > u32::MAX {
                        r == Err::<ResearchCommandOutcome, ResearchAuthorityError>(ResearchAuthorityError::ArithmeticOverflow)
                    } else if !study_repeatable(views, id) && !views.contains_key(id) {
                        r == Err::<ResearchCommandOutcome, ResearchAuthorityError>(ResearchAuthorityError::UnknownStudy)
                    } else if !study_repeatable(views, id) && !views[id].prerequisites.subset_of(
                        old(self).owned_finite.map().dom(),
                    ) {
                        r == Err::<ResearchCommandOutcome, ResearchAuthorityError>(ResearchAuthorityError::PrerequisiteLocked)
                    } else {
                        &&& r == Ok::<ResearchCommandOutcome, ResearchAuthorityError>(
                            ResearchCommandOutcome::GodStudyCompleted { study_id: q[0].study_id },
                        )
                        &&& final(self).god_queue@ == q.subrange(1, q.len() as int)
                        &&& final(self).preparations.map() == old(self).preparations.map().remove(id)
                        &&& if study_repeatable(views, id) {
                            &&& final(self).repeatable_completions.map() == completions.insert(id, (count + 1) as u32)
                            &&& final(self).owned_finite.map() == old(self).owned_finite.map()
                        } else {
                            &&& final(self).repeatable_completions.map() == completions
                            &&& final(self).owned_finite.map() == old(self).owned_finite.map().insert(id, ())
                        }
                    }
                }
            }),
            r is Ok ==> {
                &&& same_header_and_ledgers(*final(self), *old(self))
                &&& final(self).next_queue_sequence == old(self).next_queue_sequence
                &&& final(self).leader_commits@ == old(self).leader_commits@
                &&& final(self).receipts@ == old(self).receipts@
            },
    {
        if !staffed_research_station || !scholar_alive {
            return Err(ResearchAuthorityError::ResearchInfrastructureUnavailable);
        }
        if labor_minutes == 0 {
            return Err(ResearchAuthorityError::MalformedCommand);
        }
        if self.god_queue.len() == 0 {
            return Err(ResearchAuthorityError::NoGodFront);
        }
        let terms = match self.god_queue[0].frozen {
            Some(terms) => terms,
            None => {
                return Err(ResearchAuthorityError::GodFrontUnfunded);
            },
        };
        let total = match self.god_queue[0].staffed_labor_minutes.checked_add(labor_minutes) {
            Some(total) => total,
            None => {
                return Err(ResearchAuthorityError::ArithmeticOverflow);
            },
        };
        let staffed = if total < terms.duration_game_minutes { total } else { terms.duration_game_minutes };
        if staffed < terms.duration_game_minutes {
            let entry = GodResearchEntry {
                sequence: self.god_queue[0].sequence,
                study_id: self.god_queue[0].study_id.duplicate(),
                frozen: self.god_queue[0].frozen,
                staffed_labor_minutes: staffed,
            };
            self.god_queue.set(0, entry);
            return Ok(ResearchCommandOutcome::GodLaborAdvanced { remaining_labor_minutes: terms.duration_game_minutes - staffed });
        }
        let entry = self.god_queue.remove(0);
        let study_id = entry.study_id;
        if self.is_repeatable(catalog, &study_id) {
            let count: u32 = match self.repeatable_completions.get(study_id.as_str()) {
                Some(c) => *c,
                None => 0,
            };
            if count == u32::MAX {
                return Err(ResearchAuthorityError::ArithmeticOverflow);
            }
            self.repeatable_completions.insert(String::from_str(study_id.as_str()), count + 1);
        } else {
            let definition = match catalog.study(&study_id) {
                Some(d) => d,
                None => {
                    return Err(ResearchAuthorityError::UnknownStudy);
                },
            };
            if !prerequisites_owned(definition, &self.owned_finite) {
                return Err(ResearchAuthorityError::PrerequisiteLocked);
            }
            self.owned_finite.insert(String::from_str(study_id.as_str()), ());
        }
        self.preparations.remove(study_id.as_str());
        Ok(ResearchCommandOutcome::GodStudyCompleted { study_id })
    }
}

/// The first position of `x` in `ids`.
pub open spec fn first_position(ids: Seq<Seq<char>>, x: Seq<char>) -> int {
    choose|i: int| 0 <= i < ids.len() && ids[i] == x && forall|j: int| 0 <= j < i ==> ids[j] != x
}

proof fn lemma_first_position(ids: Seq<Seq<char>>, x: Seq<char>, i: int)
    requires
        0 <= i < ids.len(),
        ids[i] == x,
        forall|j: int| 0 <= j < i ==> ids[j] != x,
    ensures
        first_position(ids, x) == i,
{
    let k = first_position(ids, x);
    assert(0 <= k < ids.len() && ids[k] == x && forall|j: int| 0 <= j < k ==> ids[j] != x);
    if k < i {
        assert(ids[k] != x);
    } else if k > i {
        assert(ids[i] != x);
    }
}

/// The queue with its entries numbered from one in order.
pub open spec fn renumbered(q: Seq<GodResearchEntry>) -> Seq<GodResearchEntry> {
    Seq::new(q.len(), |i: int| GodResearchEntry { sequence: (i + 1) as u64, ..q[i] })
}

/// The queue after moving the entry at `from` before `before` (or to the back).
pub open spec fn reordered(q: Seq<GodResearchEntry>, from: int, before: Option<Seq<char>>) -> Seq<GodResearchEntry> {
    let rest = q.remove(from);
    let to = match before {
        Some(b) => first_position(entry_ids(rest), b),
        None => rest.len() as int,
    };
    rest.insert(to, q[from])
}

pub open spec fn reorder_to(q: Seq<GodResearchEntry>, from: int, before: Option<Seq<char>>) -> int {
    match before {
        Some(b) => first_position(entry_ids(q.remove(from)), b),
        None => q.len() - 1,
    }
}

fn position_of(queue: &Vec<GodResearchEntry>, text: &str) -> (r: Option<usize>)
    ensures
        r is None <==> !entry_ids(queue@).contains(text@),
        r matches Some(i) ==> i < queue@.len() && first_position(entry_ids(queue@), text@) == i && queue@[i as int].study_id@ == text@,
{
    let ghost ids = entry_ids(queue@);
    let n = queue.len();
    let mut i: usize = 0;
    while i < n
        invariant
            n == queue@.len(),
            ids == entry_ids(queue@),
            i <= n,
            forall|j: int| 0 <= j < i ==> ids[j] != text@,
        decreases n - i,
    {
        if text_eq(queue[i].study_id.as_str(), text) {
            proof {
                lemma_first_position(ids, text@, i as int);
                assert(ids[i as int] == text@);
            }
            return Some(i);
        }
        i = i + 1;
    }
    proof {
        if ids.contains(text@) {
            let j = choose|j: int| 0 <= j < ids.len() && ids[j] == text@;
        }
    }
    None
}

/// The queue with each entry's sequence set to its position plus one.
fn renumber_queue(ordered: &Vec<GodResearchEntry>) -> (rebuilt: Vec<GodResearchEntry>)
    requires
        ordered@.len() < u64::MAX,
    ensures
        rebuilt@ == renumbered(ordered@),
{
    let n = ordered.len();
    let mut rebuilt: Vec<GodResearchEntry> = Vec::new();
    let mut i: usize = 0;
    while i < n
        invariant
            n == ordered@.len(),
            n < u64::MAX,
            i <= n,
            rebuilt@ == renumbered(ordered@).take(i as int),
        decreases n - i,
    {
        let entry = GodResearchEntry {
            sequence: i as u64 + 1,
            study_id: ordered[i].study_id.duplicate(),
            frozen: ordered[i].frozen,
            staffed_labor_minutes: ordered[i].staffed_labor_minutes,
        };
        rebuilt.push(entry);
        assert(renumbered(ordered@).take(i + 1) =~= renumbered(ordered@).take(i as int).push(renumbered(ordered@)[i as int]));
        i = i + 1;
    }
    assert(renumbered(ordered@).take(n as int) =~= renumbered(ordered@));
    rebuilt
}

impl ResearchAuthority {
    /// Move one queued God study immediately before another queued study, or
    /// to the back, keeping a funded front in place and prerequisites first.
    #[verifier::rlimit(100)]
    #[verifier::spinoff_prover]
    fn reorder_god_target(
        &mut self,
        catalog: &ProgressionCatalog,
        study_id: &StudyId,
        before_study_id: Option<&StudyId>,
    ) -> (r: Result<ResearchCommandOutcome, ResearchAuthorityError>)
        requires
            authority_maps_wf(*old(self)),
        ensures
            authority_maps_wf(*final(self)),
            reorder_god_target_answer(*old(self), *final(self), catalog, study_id, before_study_id, r),
            r is Ok ==> reorder_keeps_rest(*old(self), *final(self)),
    {
        let ghost q = self.god_queue@;
        let ghost ids = entry_ids(q);
        let from = match position_of(&self.god_queue, study_id.as_str()) {
            Some(i) => i,
            None => {
                return Err(ResearchAuthorityError::TargetNotQueued);
            },
        };
        match before_study_id {
            Some(b) => {
                if text_eq(b.as_str(), study_id.as_str()) {
                    return Err(ResearchAuthorityError::NoOpReorder);
                }
                if position_of(&self.god_queue, b.as_str()).is_none() {
                    return Err(ResearchAuthorityError::TargetNotQueued);
                }
            },
            None => {},
        }
        let ghost before = match before_study_id {
            Some(b) => Some(b@),
            None => None::<Seq<char>>,
        };
        let front_frozen = self.god_queue[0].frozen.is_some();
        let mut ordered = copy_queue(&self.god_queue);
        let moved_entry = ordered.remove(from);
        let ghost rest = ordered@;
        assert(rest == q.remove(from as int));
        let to = match before_study_id {
            Some(b) => match position_of(&ordered, b.as_str()) {
                Some(i) => i,
                None => {
                    proof {
                        let j = choose|j: int| 0 <= j < ids.len() && ids[j] == b@;
                        if j < from {
                            assert(entry_ids(rest)[j] == b@);
                        } else if j > from {
                            assert(entry_ids(rest)[j - 1] == b@);
                        } else {
                            assert(ids[from as int] == study_id@);
                        }
                    }
                    return Err(ResearchAuthorityError::TargetNotQueued);
                },
            },
            None => ordered.len(),
        };
        ordered.insert(to, moved_entry);
        proof {
            assert(ordered@ == reordered(q, from as int, before));
            assert(to == reorder_to(q, from as int, before));
        }
        let n = ordered.len();
        let mut same = true;
        let mut k: usize = 0;
        while k < n
            invariant
                n == ordered@.len(),
                n == q.len(),
                q == self.god_queue@,
                ids == entry_ids(q),
                k <= n,
                same == (forall|j: int| 0 <= j < k ==> ordered@[j].study_id@ == ids[j]),
            decreases n - k,
        {
            let equal = text_eq(ordered[k].study_id.as_str(), self.god_queue[k].study_id.as_str());
            proof {
                assert(ids[k as int] == q[k as int].study_id@);
                if !equal {
                    assert(!(ordered@[k as int].study_id@ == ids[k as int]));
                }
                if same && equal {
                    assert forall|j: int| 0 <= j < k + 1 implies ordered@[j].study_id@ == ids[j] by {
                        if j < k {
                        }
                    }
                }
            }
            if !equal {
                same = false;
            }
            k = k + 1;
        }
        if same {
            proof {
                assert(entry_ids(ordered@) =~= ids);
            }
            return Err(ResearchAuthorityError::NoOpReorder);
        }
        if front_frozen && !text_eq(ordered[0].study_id.as_str(), self.god_queue[0].study_id.as_str()) {
            return Err(ResearchAuthorityError::GodFrontFrozen);
        }
        if !god_queue_order_is_topological(catalog, &self.owned_finite, ordered.as_slice()) {
            return Err(ResearchAuthorityError::GodQueuePrerequisiteOrder);
        }
        proof {
            if entry_ids(ordered@) == ids {
                let j = choose|j: int| 0 <= j < n && !(ordered@[j].study_id@ == ids[j]);
                assert(entry_ids(ordered@)[j] == ordered@[j].study_id@);
            }
        }
        if n as u64 == u64::MAX {
            return Err(ResearchAuthorityError::ArithmeticOverflow);
        }
        if from > 255 || to > 255 {
            return Err(ResearchAuthorityError::Backpressure);
        }
        let rebuilt = renumber_queue(&ordered);
        self.god_queue = rebuilt;
        self.next_queue_sequence = n as u64 + 1;
        Ok(ResearchCommandOutcome::GodTargetReordered {
            study_id: study_id.duplicate(),
            from_index: from as u8,
            to_index: to as u8,
        })
    }
}

/// What a debit answers on a ledger with these parts, in the order the checks are made.
pub open spec fn debit_outcome_parts(
    spends: Map<Seq<char>, CurrencyDebitReceipt>,
    spends_len: nat,
    valid: bool,
    version: u64,
    balance: u64,
    id: Seq<char>,
    amount: u64,
    expected_version: u64,
    fingerprint: u64,
) -> Result<CurrencyCommitOutcome, ProgressionError> {
    if amount == 0 {
        Err(ProgressionError::MalformedRequest)
    } else if spends.contains_key(id) {
        if spends[id].amount_micro == amount && spends[id].fingerprint == fingerprint {
            if valid {
                Ok(CurrencyCommitOutcome::AlreadyCommitted)
            } else {
                Err(ProgressionError::MalformedPersistence)
            }
        } else {
            Err(ProgressionError::IdempotencyConflict)
        }
    } else if expected_version != version {
        Err(ProgressionError::StaleVersion)
    } else if spends_len >= MAX_CURRENCY_RECEIPTS {
        Err(ProgressionError::Backpressure)
    } else if version == u64::MAX {
        Err(ProgressionError::ArithmeticOverflow)
    } else if balance < amount {
        Err(ProgressionError::InsufficientCurrency)
    } else if !valid {
        Err(ProgressionError::MalformedPersistence)
    } else {
        Ok(CurrencyCommitOutcome::Committed)
    }
}

/// The spends after a committed debit filed `id` at the next version.
pub open spec fn spends_after_debit(
    before: Map<Seq<char>, CurrencyDebitReceipt>,
    after: Map<Seq<char>, CurrencyDebitReceipt>,
    id: Seq<char>,
    amount: u64,
    fingerprint: u64,
    purpose: Option<VoidDebitPurpose>,
    committed_version: u64,
) -> bool {
    &&& after.dom() == before.dom().insert(id)
    &&& after[id].id@ == id
    &&& after[id].amount_micro == amount
    &&& after[id].fingerprint == fingerprint
    &&& after[id].void_purpose == purpose
    &&& after[id].committed_version == committed_version
    &&& forall|k: Seq<char>| #[trigger] before.contains_key(k) && k != id ==> after[k] == before[k]
}

/// The Void purpose of funding a study of this kind.
pub open spec fn funding_purpose(kind: KindView) -> VoidDebitPurpose {
    if kind is HoleAxis {
        VoidDebitPurpose::HoleStudy
    } else {
        VoidDebitPurpose::BoostStudy
    }
}

pub open spec fn view_currency(kind: KindView) -> StudyCurrency {
    if kind is OrdinaryCapability {
        StudyCurrency::Notes
    } else {
        StudyCurrency::Void
    }
}

pub open spec fn god_front_event_text(colony_id: Seq<char>, command_id: Seq<char>) -> Seq<char> {
    currency_event_id_text("lai58_god_front"@, colony_id, command_id)
}

impl ResearchAuthority {
    /// Fund the front study from its ledger and freeze its terms; a complete
    /// preparation may be consumed for a quarter off a Notes study.
    #[verifier::rlimit(60)]
    fn fund_front(
        &mut self,
        catalog: &ProgressionCatalog,
        command_id: &ResearchCommandId,
        consume_preparation: bool,
    ) -> (r: Result<ResearchCommandOutcome, ResearchAuthorityError>)
        requires
            authority_maps_wf(*old(self)),
        ensures
            authority_maps_wf(*final(self)),
            fund_front_outcome(*old(self), *final(self), catalog, command_id, consume_preparation, r),
    {
        if self.god_queue.len() == 0 {
            return Err(ResearchAuthorityError::NoGodFront);
        }
        match self.god_queue[0].frozen {
            Some(terms) => {
                return Ok(ResearchCommandOutcome::Funded { payable_cost_micro: terms.payable_cost_micro });
            },
            None => {},
        }
        let study_id = self.god_queue[0].study_id.duplicate();
        let definition = match catalog.study(&study_id) {
            Some(d) => d,
            None => {
                return Err(ResearchAuthorityError::UnknownStudy);
            },
        };
        let currency = definition.currency();
        let base_cost_micro = definition.cost_micro;
        let duration_game_minutes = definition.required_work_minutes;
        let prepared = match self.preparations.get(study_id.as_str()) {
            Some(state) => state.complete(),
            None => false,
        };
        let can_consume = consume_preparation && currency == StudyCurrency::Notes && prepared;
        if consume_preparation && !can_consume {
            return Err(ResearchAuthorityError::PreparationUnavailable);
        }
        let discount = if can_consume { base_cost_micro / 4 } else { 0 };
        let payable = base_cost_micro - discount;
        let event_id = CurrencyEventId::derive("lai58_god_front", &self.colony_id, command_id.as_str());
        let fingerprint = currency_fingerprint(command_id, &study_id, payable);
        proof {
            reveal_strlit("lai58_god_front");
        }
        match currency {
            StudyCurrency::Notes => {
                let request = ResearchNotesSpendRequest {
                    id: event_id,
                    amount: ResearchNotes::from_micro(payable),
                    expected_version: self.notes.version,
                    fingerprint,
                };
                match self.notes.debit(request) {
                    Ok(_) => {},
                    Err(e) => {
                        return Err(map_notes_debit_error(e));
                    },
                }
            },
            StudyCurrency::Void => {
                let purpose = match definition.kind {
                    StudyKind::HoleAxis { .. } => VoidDebitPurpose::HoleStudy,
                    StudyKind::BoostUnlock { .. } | StudyKind::BoostDuration { .. } | StudyKind::BoostEconomy { .. } =>
                        VoidDebitPurpose::BoostStudy,
                    StudyKind::OrdinaryCapability { .. } => {
                        return Err(ResearchAuthorityError::CanonicalLedgerRejected);
                    },
                };
                let request = VoidSpendRequest {
                    id: event_id,
                    amount: VoidInsight::from_micro(payable),
                    purpose,
                    expected_version: self.void.version,
                    fingerprint,
                };
                match self.void.debit(request) {
                    Ok(_) => {},
                    Err(e) => {
                        return Err(map_void_debit_error(e));
                    },
                }
            },
        }
        if can_consume {
            self.preparations.remove(study_id.as_str());
        }
        let entry = GodResearchEntry {
            sequence: self.god_queue[0].sequence,
            study_id,
            frozen: Some(
                FrozenGodTerms { currency, base_cost_micro, payable_cost_micro: payable, duration_game_minutes },
            ),
            staffed_labor_minutes: self.god_queue[0].staffed_labor_minutes,
        };
        self.god_queue.set(0, entry);
        Ok(ResearchCommandOutcome::Funded { payable_cost_micro: payable })
    }
}

/// Queue entry `i` studies something that needs entry `j`'s study first.
pub open spec fn queue_depends(q: Seq<GodResearchEntry>, views: Map<Seq<char>, StudyView>, i: int, j: int) -> bool {
    &&& 0 <= i < q.len()
    &&& 0 <= j < q.len()
    &&& views.contains_key(q[i].study_id@)
    &&& views[q[i].study_id@].prerequisites.contains(q[j].study_id@)
}

pub open spec fn removal_step(q: Seq<GodResearchEntry>, views: Map<Seq<char>, StudyView>, p: Seq<int>, k: int) -> bool {
    queue_depends(q, views, p[k], p[k + 1])
}

/// A chain of queue entries, each needing the next.
pub open spec fn removal_path(q: Seq<GodResearchEntry>, views: Map<Seq<char>, StudyView>, p: Seq<int>) -> bool {
    &&& p.len() >= 1
    &&& 0 <= p[0] < q.len()
    &&& forall|k: int| 0 <= k < p.len() - 1 ==> #[trigger] removal_step(q, views, p, k)
}

/// Removing entry `t` also removes entry `i`: `i` needs `t`, directly or through other queued entries.
pub open spec fn removed_with(q: Seq<GodResearchEntry>, views: Map<Seq<char>, StudyView>, t: int, i: int) -> bool {
    exists|p: Seq<int>| #[trigger] removal_path(q, views, p) && p[0] == i && p.last() == t
}

/// The entries that stay when entry `t` is removed with its dependents, in order.
pub open spec fn kept_entries(q: Seq<GodResearchEntry>, views: Map<Seq<char>, StudyView>, t: int, n: int) -> Seq<GodResearchEntry>
    decreases n,
{
    if n <= 0 {
        Seq::empty()
    } else {
        kept_entries(q, views, t, n - 1) + if removed_with(q, views, t, n - 1) {
            Seq::empty()
        } else {
            seq![q[n - 1]]
        }
    }
}

/// A sum over the removed entries among the first `n`.
pub open spec fn removed_sum(
    q: Seq<GodResearchEntry>,
    views: Map<Seq<char>, StudyView>,
    t: int,
    n: int,
    f: spec_fn(GodResearchEntry) -> int,
) -> int
    decreases n,
{
    if n <= 0 {
        0
    } else {
        removed_sum(q, views, t, n - 1, f) + if removed_with(q, views, t, n - 1) {
            f(q[n - 1])
        } else {
            0
        }
    }
}

pub open spec fn refund_of(currency: StudyCurrency) -> spec_fn(GodResearchEntry) -> int {
    |e: GodResearchEntry|
        match e.frozen {
            Some(t) => if t.currency == currency {
                t.payable_cost_micro as int
            } else {
                0
            },
            None => 0,
        }
}

pub open spec fn refund_count_of(currency: StudyCurrency) -> spec_fn(GodResearchEntry) -> int {
    |e: GodResearchEntry|
        match e.frozen {
            Some(t) => if t.currency == currency {
                1int
            } else {
                0
            },
            None => 0,
        }
}

pub open spec fn labor_of() -> spec_fn(GodResearchEntry) -> int {
    |e: GodResearchEntry| e.staffed_labor_minutes as int
}

pub open spec fn preparation_labor_of(preps: Map<Seq<char>, PreparationState>) -> spec_fn(GodResearchEntry) -> int {
    |e: GodResearchEntry|
        if preps.contains_key(e.study_id@) {
            preps[e.study_id@].completed_labor_minutes as int
        } else {
            0
        }
}

pub open spec fn one_each() -> spec_fn(GodResearchEntry) -> int {
    |e: GodResearchEntry| 1int
}

/// The studies of the removed entries.
pub open spec fn removed_studies(q: Seq<GodResearchEntry>, views: Map<Seq<char>, StudyView>, t: int) -> Set<Seq<char>> {
    Set::new(|id: Seq<char>| exists|i: int| 0 <= i < q.len() && removed_with(q, views, t, i) && #[trigger] q[i].study_id@ == id)
}

proof fn lemma_path_prepend(q: Seq<GodResearchEntry>, views: Map<Seq<char>, StudyView>, p: Seq<int>, i: int)
    requires
        removal_path(q, views, p),
        queue_depends(q, views, i, p[0]),
    ensures
        removal_path(q, views, seq![i] + p),
        (seq![i] + p)[0] == i,
        (seq![i] + p).last() == p.last(),
{
    let r = seq![i] + p;
    assert forall|k: int| 0 <= k < r.len() - 1 implies #[trigger] removal_step(q, views, r, k) by {
        if k == 0 {
            assert(r[0] == i && r[1] == p[0]);
        } else {
            assert(removal_step(q, views, p, k - 1));
            assert(r[k] == p[k - 1] && r[k + 1] == p[k]);
        }
    }
}

proof fn lemma_closed_marks(q: Seq<GodResearchEntry>, views: Map<Seq<char>, StudyView>, marks: Seq<bool>, p: Seq<int>)
    requires
        marks.len() == q.len(),
        removal_path(q, views, p),
        marks[p.last()],
        forall|i: int, j: int| 0 <= i < q.len() && 0 <= j < q.len() && marks[j] && queue_depends(q, views, i, j) ==> marks[i],
    ensures
        marks[p[0]],
    decreases p.len(),
{
    if p.len() > 1 {
        let rest = p.subrange(1, p.len() as int);
        assert forall|k: int| 0 <= k < rest.len() - 1 implies #[trigger] removal_step(q, views, rest, k) by {
            assert(removal_step(q, views, p, k + 1));
            assert(rest[k] == p[k + 1] && rest[k + 1] == p[k + 2]);
        }
        assert(removal_step(q, views, p, 0));
        assert(0 <= rest[0] < q.len());
        lemma_closed_marks(q, views, marks, rest);
        assert(marks[p[1]]);
    }
}

impl ResearchAuthority {
    /// Mark entry `t` and every queued entry that needs it, directly or through others.
    fn removal_marks(&self, catalog: &ProgressionCatalog, t: usize) -> (r: Vec<bool>)
        requires
            t < self.god_queue@.len(),
        ensures
            r@.len() == self.god_queue@.len(),
            forall|i: int| 0 <= i < r@.len() ==> (r@[i] <==> removed_with(self.god_queue@, catalog.views(), t as int, i)),
    {
        let ghost q = self.god_queue@;
        let ghost views = catalog.views();
        let n = self.god_queue.len();
        let mut marks: Vec<bool> = Vec::new();
        let mut i: usize = 0;
        while i < n
            invariant
                n == q.len(),
                i <= n,
                marks@.len() == i,
                forall|k: int| 0 <= k < i ==> marks@[k] == (k == t),
            decreases n - i,
        {
            marks.push(i == t);
            i = i + 1;
        }
        proof {
            let p = seq![t as int];
            assert(removal_path(q, views, p));
            let none = Seq::new(n as nat, |k: int| false);
            lemma_filter_all_false(none);
            lemma_filter_set_true(none, t as int);
            assert(marks@ =~= none.update(t as int, true));
        }
        let mut count: usize = 1;
        let mut changed = true;
        while changed
            invariant
                n == q.len(),
                q == self.god_queue@,
                views == catalog.views(),
                t < n,
                marks@.len() == n,
                marks@[t as int],
                1 <= count <= n,
                count == marks@.filter(|b: bool| b).len(),
                forall|k: int| 0 <= k < n && marks@[k] ==> removed_with(q, views, t as int, k),
                !changed ==> forall|a: int, b: int|
                    0 <= a < n && 0 <= b < n && marks@[b] && queue_depends(q, views, a, b) ==> marks@[a],
            decreases n - count + if changed { 1int } else { 0int },
        {
            changed = false;
            let ghost start_count = count;
            let mut a: usize = 0;
            while a < n
                invariant
                    n == q.len(),
                    q == self.god_queue@,
                    views == catalog.views(),
                    t < n,
                    marks@.len() == n,
                    marks@[t as int],
                    1 <= count <= n,
                    count == marks@.filter(|b: bool| b).len(),
                    count >= start_count,
                    changed ==> count > start_count,
                    a <= n,
                    forall|k: int| 0 <= k < n && marks@[k] ==> removed_with(q, views, t as int, k),
                    !changed ==> forall|x: int, b: int|
                        0 <= x < a && 0 <= b < n && marks@[b] && queue_depends(q, views, x, b) ==> marks@[x],
                decreases n - a,
            {
                if !marks[a] {
                    let hit = self.needs_marked(catalog, a, &marks);
                    match hit {
                        Some(b) => {
                            proof {
                                let p = choose|p: Seq<int>| #[trigger] removal_path(q, views, p) && p[0] == b as int && p.last() == t as int;
                                lemma_path_prepend(q, views, p, a as int);
                                lemma_filter_set_true(marks@, a as int);
                            }
                            marks.set(a, true);
                            count = count + 1;
                            changed = true;
                        },
                        None => {},
                    }
                }
                a = a + 1;
            }
        }
        proof {
            assert forall|i: int| 0 <= i < n implies (marks@[i] <==> removed_with(q, views, t as int, i)) by {
                if removed_with(q, views, t as int, i) {
                    let p = choose|p: Seq<int>| #[trigger] removal_path(q, views, p) && p[0] == i && p.last() == t as int;
                    lemma_closed_marks(q, views, marks@, p);
                }
            }
        }
        marks
    }

    /// Some marked entry whose study entry `a` needs, if any.
    fn needs_marked(&self, catalog: &ProgressionCatalog, a: usize, marks: &Vec<bool>) -> (r: Option<usize>)
        requires
            a < self.god_queue@.len(),
            marks@.len() == self.god_queue@.len(),
        ensures
            r matches Some(b) ==> b < marks@.len() && marks@[b as int] && queue_depends(self.god_queue@, catalog.views(), a as int, b as int),
            r is None ==> forall|b: int| 0 <= b < marks@.len() && marks@[b] ==> !queue_depends(self.god_queue@, catalog.views(), a as int, b),
    {
        let definition = match catalog.study(&self.god_queue[a].study_id) {
            Some(d) => d,
            None => {
                return None;
            },
        };
        let n = self.god_queue.len();
        let mut b: usize = 0;
        while b < n
            invariant
                n == self.god_queue@.len(),
                marks@.len() == n,
                a < n,
                catalog.views().contains_key(self.god_queue@[a as int].study_id@),
                study_view(*definition) == catalog.views()[self.god_queue@[a as int].study_id@],
                definition.prerequisites.wf(),
                b <= n,
                forall|c: int| 0 <= c < b && marks@[c] ==> !queue_depends(self.god_queue@, catalog.views(), a as int, c),
            decreases n - b,
        {
            if marks[b] && definition.prerequisites.contains_key(self.god_queue[b].study_id.as_str()) {
                return Some(b);
            }
            b = b + 1;
        }
        None
    }
}

proof fn lemma_filter_all_false(s: Seq<bool>)
    requires
        forall|k: int| 0 <= k < s.len() ==> !s[k],
    ensures
        s.filter(|b: bool| b).len() == 0,
    decreases s.len(),
{
    reveal(Seq::filter);
    if s.len() > 0 {
        lemma_filter_all_false(s.drop_last());
    }
}

proof fn lemma_filter_set_true(s: Seq<bool>, i: int)
    requires
        0 <= i < s.len(),
        !s[i],
    ensures
        s.update(i, true).filter(|b: bool| b).len() == s.filter(|b: bool| b).len() + 1,
    decreases s.len(),
{
    reveal(Seq::filter);
    let t = s.update(i, true);
    if i == s.len() - 1 {
        assert(t.drop_last() =~= s.drop_last());
    } else {
        lemma_filter_set_true(s.drop_last(), i);
        assert(t.drop_last() =~= s.drop_last().update(i, true));
    }
}

/// What removing queue entries refunded and lost.
#[derive(Debug, Clone, Copy, PartialEq, Eq, Structural)]
pub struct RemovalAccounting {
    pub refunded_notes_micro: u64,
    pub refunded_void_micro: u64,
    pub lost_labor_minutes: u64,
    pub lost_preparation_labor_minutes: u64,
}

proof fn lemma_removed_sum_monotone(
    q: Seq<GodResearchEntry>,
    views: Map<Seq<char>, StudyView>,
    t: int,
    f: spec_fn(GodResearchEntry) -> int,
    i: int,
    n: int,
)
    requires
        0 <= i <= n,
        forall|e: GodResearchEntry| #[trigger] f(e) >= 0,
    ensures
        removed_sum(q, views, t, i, f) <= removed_sum(q, views, t, n, f),
        removed_sum(q, views, t, i, f) >= 0,
    decreases n,
{
    if n > 0 {
        if i == n {
            lemma_removed_sum_monotone(q, views, t, f, n - 1, n - 1);
        } else {
            lemma_removed_sum_monotone(q, views, t, f, i, n - 1);
        }
        assert(f(q[n - 1]) >= 0);
    }
}

/// Whether removing the marked entries overflows any total it keeps.
pub open spec fn removal_overflows(a: ResearchAuthority, views: Map<Seq<char>, StudyView>, t: int) -> bool {
    let q = a.god_queue@;
    let n = q.len() as int;
    let preps = a.preparations.map();
    ||| removed_sum(q, views, t, n, labor_of()) > u64::MAX
    ||| removed_sum(q, views, t, n, refund_of(StudyCurrency::Notes)) > u64::MAX
    ||| a.notes.balance.0 + removed_sum(q, views, t, n, refund_of(StudyCurrency::Notes)) > u64::MAX
    ||| a.notes.version + removed_sum(q, views, t, n, refund_count_of(StudyCurrency::Notes)) > u64::MAX
    ||| removed_sum(q, views, t, n, refund_of(StudyCurrency::Void)) > u64::MAX
    ||| a.void.balance.0 + removed_sum(q, views, t, n, refund_of(StudyCurrency::Void)) > u64::MAX
    ||| a.void.version + removed_sum(q, views, t, n, refund_count_of(StudyCurrency::Void)) > u64::MAX
    ||| removed_sum(q, views, t, n, preparation_labor_of(preps)) > u64::MAX
}

/// The preparations left once the removed studies lose theirs.
pub open spec fn preparations_without(preps: Map<Seq<char>, PreparationState>, removed: Set<Seq<char>>) -> Map<
    Seq<char>,
    PreparationState,
> {
    Map::new(|k: Seq<char>| preps.contains_key(k) && !removed.contains(k), |k: Seq<char>| preps[k])
}

/// What removing entry `t` with its dependents refunds and loses.
pub open spec fn removal_accounting(a: ResearchAuthority, views: Map<Seq<char>, StudyView>, t: int) -> RemovalAccounting {
    let q = a.god_queue@;
    let n = q.len() as int;
    RemovalAccounting {
        refunded_notes_micro: removed_sum(q, views, t, n, refund_of(StudyCurrency::Notes)) as u64,
        refunded_void_micro: removed_sum(q, views, t, n, refund_of(StudyCurrency::Void)) as u64,
        lost_labor_minutes: removed_sum(q, views, t, n, labor_of()) as u64,
        lost_preparation_labor_minutes: removed_sum(q, views, t, n, preparation_labor_of(a.preparations.map())) as u64,
    }
}

/// `b` is `a` with entry `t` and its dependents removed: the kept entries stay
/// in order, the removed studies lose their preparations, and frozen payments
/// go back to their ledgers, one ledger event each.
pub open spec fn removal_applied(a: ResearchAuthority, b: ResearchAuthority, views: Map<Seq<char>, StudyView>, t: int) -> bool {
    &&& removal_effect(a, b, views, t)
    &&& b.schema_version == a.schema_version
    &&& b.colony_id == a.colony_id
    &&& b.version == a.version
    &&& b.owned_finite@ == a.owned_finite@
    &&& b.repeatable_completions@ == a.repeatable_completions@
    &&& b.next_queue_sequence == a.next_queue_sequence
    &&& b.leader_commits@ == a.leader_commits@
    &&& b.receipts@ == a.receipts@
}

/// What the removal does to the queue, the preparations and the ledgers.
pub open spec fn removal_effect(a: ResearchAuthority, b: ResearchAuthority, views: Map<Seq<char>, StudyView>, t: int) -> bool {
    let q = a.god_queue@;
    let n = q.len() as int;
    &&& b.god_queue@ == kept_entries(q, views, t, n)
    &&& b.preparations.map() == preparations_without(a.preparations.map(), removed_studies(q, views, t))
    &&& b.notes.balance.0 == a.notes.balance.0 + removed_sum(q, views, t, n, refund_of(StudyCurrency::Notes))
    &&& b.notes.version == a.notes.version + removed_sum(q, views, t, n, refund_count_of(StudyCurrency::Notes))
    &&& b.void.balance.0 == a.void.balance.0 + removed_sum(q, views, t, n, refund_of(StudyCurrency::Void))
    &&& b.void.version == a.void.version + removed_sum(q, views, t, n, refund_count_of(StudyCurrency::Void))
    &&& b.notes.spends@ == a.notes.spends@
    &&& b.void.spends@ == a.void.spends@
    &&& b.notes.schema_version == a.notes.schema_version
    &&& b.notes.partition == a.notes.partition
    &&& b.notes.retired_work_through == a.notes.retired_work_through
    &&& b.void.schema_version == a.void.schema_version
    &&& b.void.partition == a.void.partition
    &&& b.void.credited_feed_through == a.void.credited_feed_through
}

/// The studies of the removed entries among the first `m`.
pub open spec fn removed_ids_before(q: Seq<GodResearchEntry>, views: Map<Seq<char>, StudyView>, t: int, m: int) -> Set<Seq<char>> {
    Set::new(|id: Seq<char>| exists|k: int| 0 <= k < m && removed_with(q, views, t, k) && #[trigger] q[k].study_id@ == id)
}

pub open spec fn queue_ids_distinct(q: Seq<GodResearchEntry>) -> bool {
    forall|i: int, j: int| 0 <= i < j < q.len() ==> (#[trigger] q[i]).study_id@ != (#[trigger] q[j]).study_id@
}

impl ResearchAuthority {
    /// Remove the marked entries: refund frozen payments to their ledgers, and
    /// drop the removed studies' preparations.
    #[verifier::rlimit(80)]
    fn remove_marked(&mut self, catalog: &ProgressionCatalog, t: usize, marks: &Vec<bool>) -> (r: Result<
        RemovalAccounting,
        ResearchAuthorityError,
    >)
        requires
            authority_maps_wf(*old(self)),
            t < old(self).god_queue@.len(),
            queue_ids_distinct(old(self).god_queue@),
            marks@.len() == old(self).god_queue@.len(),
            forall|i: int|
                0 <= i < marks@.len() ==> (marks@[i] <==> removed_with(old(self).god_queue@, catalog.views(), t as int, i)),
        ensures
            authority_maps_wf(*final(self)),
            if removal_overflows(*old(self), catalog.views(), t as int) {
                r == Err::<RemovalAccounting, ResearchAuthorityError>(ResearchAuthorityError::ArithmeticOverflow)
            } else {
                &&& r == Ok::<RemovalAccounting, ResearchAuthorityError>(removal_accounting(*old(self), catalog.views(), t as int))
                &&& removal_applied(*old(self), *final(self), catalog.views(), t as int)
            },
    {
        let ghost q = self.god_queue@;
        let ghost views = catalog.views();
        let ghost preps = self.preparations.map();
        let ghost old_notes = self.notes.balance.0;
        let ghost old_void = self.void.balance.0;
        let ghost old_nv = self.notes.version;
        let ghost old_vv = self.void.version;
        let ghost ti = t as int;
        let n = self.god_queue.len();
        let mut acc = RemovalAccounting {
            refunded_notes_micro: 0,
            refunded_void_micro: 0,
            lost_labor_minutes: 0,
            lost_preparation_labor_minutes: 0,
        };
        let mut kept: Vec<GodResearchEntry> = Vec::new();
        let mut i: usize = 0;
        while i < n
            invariant
                n == q.len(),
                q == self.god_queue@,
                views == catalog.views(),
                authority_maps_wf(*self),
                queue_ids_distinct(q),
                ti == t as int,
                marks@.len() == n,
                forall|k: int| 0 <= k < n ==> (marks@[k] <==> removed_with(q, views, ti, k)),
                i <= n,
                kept@ == kept_entries(q, views, ti, i as int),
                acc.lost_labor_minutes == removed_sum(q, views, ti, i as int, labor_of()),
                acc.refunded_notes_micro == removed_sum(q, views, ti, i as int, refund_of(StudyCurrency::Notes)),
                acc.refunded_void_micro == removed_sum(q, views, ti, i as int, refund_of(StudyCurrency::Void)),
                acc.lost_preparation_labor_minutes == removed_sum(q, views, ti, i as int, preparation_labor_of(preps)),
                self.notes.balance.0 == old_notes + acc.refunded_notes_micro,
                self.void.balance.0 == old_void + acc.refunded_void_micro,
                self.notes.version == old_nv + removed_sum(q, views, ti, i as int, refund_count_of(StudyCurrency::Notes)),
                self.void.version == old_vv + removed_sum(q, views, ti, i as int, refund_count_of(StudyCurrency::Void)),
                self.preparations.map() == preparations_without(
                    preps,
                    removed_ids_before(q, views, ti, i as int),
                ),
                self.schema_version == old(self).schema_version,
                self.colony_id == old(self).colony_id,
                self.version == old(self).version,
                self.owned_finite@ == old(self).owned_finite@,
                self.repeatable_completions@ == old(self).repeatable_completions@,
                self.next_queue_sequence == old(self).next_queue_sequence,
                self.leader_commits@ == old(self).leader_commits@,
                self.receipts@ == old(self).receipts@,
                self.notes.spends@ == old(self).notes.spends@,
                self.void.spends@ == old(self).void.spends@,
                self.notes.schema_version == old(self).notes.schema_version,
                self.notes.partition == old(self).notes.partition,
                self.notes.retired_work_through == old(self).notes.retired_work_through,
                self.void.schema_version == old(self).void.schema_version,
                self.void.partition == old(self).void.partition,
                self.void.credited_feed_through == old(self).void.credited_feed_through,
                old_notes == old(self).notes.balance.0,
                old_void == old(self).void.balance.0,
                old_nv == old(self).notes.version,
                old_vv == old(self).void.version,
                preps == old(self).preparations.map(),
                q == old(self).god_queue@,
            decreases n - i,
        {
            let ghost ii = i as int;
            let ghost before_preps = self.preparations.map();
            proof {
                lemma_removed_sum_monotone(q, views, ti, labor_of(), ii + 1, n as int);
                lemma_removed_sum_monotone(q, views, ti, refund_of(StudyCurrency::Notes), ii + 1, n as int);
                lemma_removed_sum_monotone(q, views, ti, refund_of(StudyCurrency::Void), ii + 1, n as int);
                lemma_removed_sum_monotone(q, views, ti, refund_count_of(StudyCurrency::Notes), ii + 1, n as int);
                lemma_removed_sum_monotone(q, views, ti, refund_count_of(StudyCurrency::Void), ii + 1, n as int);
                lemma_removed_sum_monotone(q, views, ti, preparation_labor_of(preps), ii + 1, n as int);
            }
            if !marks[i] {
                kept.push(self.god_queue[i].exact_copy());
                proof {
                    assert(kept@ =~= kept_entries(q, views, ti, ii + 1));
                    assert(removed_ids_before(q, views, ti, i + 1)
                        =~= removed_ids_before(q, views, ti, i as int));
                }
            } else {
                let entry = &self.god_queue[i];
                proof {
                    assert(removed_with(q, views, ti, ii));
                    assert(removed_sum(q, views, ti, ii + 1, labor_of()) == acc.lost_labor_minutes + entry.staffed_labor_minutes);
                }
                let labor = acc.lost_labor_minutes.checked_add(entry.staffed_labor_minutes);
                if labor.is_none() {
                    proof {
                        assert(removed_sum(q, views, ti, n as int, labor_of()) > u64::MAX);
                    }
                    return Err(ResearchAuthorityError::ArithmeticOverflow);
                }
                acc.lost_labor_minutes = labor.unwrap();
                match entry.frozen {
                    Some(terms) => {
                        match terms.currency {
                            StudyCurrency::Notes => {
                                let balance = self.notes.balance.0.checked_add(terms.payable_cost_micro);
                                if balance.is_none() {
                                    proof { assert(removed_sum(q, views, ti, ii + 1, refund_of(StudyCurrency::Notes)) == acc.refunded_notes_micro + terms.payable_cost_micro); assert(old_notes + removed_sum(q, views, ti, n as int, refund_of(StudyCurrency::Notes)) > u64::MAX); }
                                    return Err(ResearchAuthorityError::ArithmeticOverflow);
                                }
                                let balance = balance.unwrap();
                                if self.notes.version == u64::MAX {
                                    proof { assert(removed_sum(q, views, ti, ii + 1, refund_count_of(StudyCurrency::Notes)) == removed_sum(q, views, ti, ii, refund_count_of(StudyCurrency::Notes)) + 1); assert(old_nv + removed_sum(q, views, ti, n as int, refund_count_of(StudyCurrency::Notes)) > u64::MAX); }
                                    return Err(ResearchAuthorityError::ArithmeticOverflow);
                                }
                                let refunded = match acc.refunded_notes_micro.checked_add(terms.payable_cost_micro) {
                                    Some(v) => v,
                                    None => {
                                        proof { assert(removed_sum(q, views, ti, ii + 1, refund_of(StudyCurrency::Notes)) == acc.refunded_notes_micro + terms.payable_cost_micro); assert(removed_sum(q, views, ti, n as int, refund_of(StudyCurrency::Notes)) > u64::MAX); }
                                        return Err(ResearchAuthorityError::ArithmeticOverflow);
                                    },
                                };
                                self.notes.balance = ResearchNotes::from_micro(balance);
                                self.notes.version = self.notes.version + 1;
                                acc.refunded_notes_micro = refunded;
                            },
                            StudyCurrency::Void => {
                                let balance = match self.void.balance.0.checked_add(terms.payable_cost_micro) {
                                    Some(v) => v,
                                    None => {
                                        proof { assert(removed_sum(q, views, ti, ii + 1, refund_of(StudyCurrency::Void)) == acc.refunded_void_micro + terms.payable_cost_micro); assert(old_void + removed_sum(q, views, ti, n as int, refund_of(StudyCurrency::Void)) > u64::MAX); }
                                        return Err(ResearchAuthorityError::ArithmeticOverflow);
                                    },
                                };
                                if self.void.version == u64::MAX {
                                    proof { assert(removed_sum(q, views, ti, ii + 1, refund_count_of(StudyCurrency::Void)) == removed_sum(q, views, ti, ii, refund_count_of(StudyCurrency::Void)) + 1); assert(old_vv + removed_sum(q, views, ti, n as int, refund_count_of(StudyCurrency::Void)) > u64::MAX); }
                                    return Err(ResearchAuthorityError::ArithmeticOverflow);
                                }
                                let refunded = match acc.refunded_void_micro.checked_add(terms.payable_cost_micro) {
                                    Some(v) => v,
                                    None => {
                                        proof { assert(removed_sum(q, views, ti, ii + 1, refund_of(StudyCurrency::Void)) == acc.refunded_void_micro + terms.payable_cost_micro); assert(removed_sum(q, views, ti, n as int, refund_of(StudyCurrency::Void)) > u64::MAX); }
                                        return Err(ResearchAuthorityError::ArithmeticOverflow);
                                    },
                                };
                                self.void.balance = VoidInsight::from_micro(balance);
                                self.void.version = self.void.version + 1;
                                acc.refunded_void_micro = refunded;
                            },
                        }
                    },
                    None => {},
                }
                let study_text = String::from_str(self.god_queue[i].study_id.as_str());
                let removed = self.preparations.remove(study_text.as_str());
                proof {
                    assert(!(exists|k: int| 0 <= k < i && removed_with(q, views, ti, k) && #[trigger] q[k].study_id@ == q[ii].study_id@)) by {
                        if exists|k: int| 0 <= k < i && removed_with(q, views, ti, k) && #[trigger] q[k].study_id@ == q[ii].study_id@ {
                            let k = choose|k: int| 0 <= k < i && removed_with(q, views, ti, k) && #[trigger] q[k].study_id@ == q[ii].study_id@;
                            assert(q[k].study_id@ != q[ii].study_id@);
                        }
                    }
                    assert(removed is Some == preps.contains_key(q[ii].study_id@));
                }
                proof {
                    assert(removed is Some ==> removed->0 == preps[q[ii].study_id@]);
                    assert(removed_sum(q, views, ti, ii + 1, preparation_labor_of(preps)) == acc.lost_preparation_labor_minutes
                        + if removed is Some { removed->0.completed_labor_minutes as int } else { 0int });
                }
                match removed {
                    Some(state) => {
                        acc.lost_preparation_labor_minutes = match acc.lost_preparation_labor_minutes.checked_add(
                            state.completed_labor_minutes,
                        ) {
                            Some(v) => v,
                            None => {
                                proof { assert(removed_sum(q, views, ti, n as int, preparation_labor_of(preps)) > u64::MAX); }
                                return Err(ResearchAuthorityError::ArithmeticOverflow);
                            },
                        };
                    },
                    None => {},
                }
                proof {
                    assert(kept@ =~= kept_entries(q, views, ti, ii + 1));
                    assert(self.preparations.map() =~= preparations_without(
                        preps,
                        removed_ids_before(q, views, ti, i + 1),
                    )) by {
                        assert(removed_with(q, views, ti, ii));
                        assert(removed_ids_before(q, views, ti, ii + 1) =~= removed_ids_before(q, views, ti, ii).insert(q[ii].study_id@));
                    }
                }
            }
            i = i + 1;
        }
        proof {
            assert(removed_ids_before(q, views, ti, n as int)
                =~= removed_studies(q, views, ti));
        }
        self.god_queue = kept;
        Ok(acc)
    }
}

/// A study the path search stops at: owned already, or queued.
pub open spec fn path_settled(a: ResearchAuthority, id: Seq<char>) -> bool {
    a.owned_finite.map().contains_key(id) || entry_ids(a.god_queue@).contains(id)
}

pub open spec fn study_ids(s: Seq<StudyId>) -> Seq<Seq<char>> {
    s.map_values(|x: StudyId| x@)
}

/// How deep the path search may go: one level per catalog study.
pub open spec fn search_depth(catalog: ProgressionCatalog) -> nat {
    catalog.views().dom().len()
}

/// What a depth-first search from `id` makes of `path`: every missing
/// prerequisite, in identifier order and searched first, comes before the
/// study needing it. `visiting` holds the studies on the current branch.
pub open spec fn missing_path(
    a: ResearchAuthority,
    catalog: ProgressionCatalog,
    id: Seq<char>,
    visiting: Set<Seq<char>>,
    path: Seq<Seq<char>>,
    fuel: nat,
) -> Result<Seq<Seq<char>>, ResearchAuthorityError>
    decreases fuel, 0nat, 0nat,
{
    if path_settled(a, id) {
        Ok(path)
    } else if visiting.contains(id) {
        Err(ResearchAuthorityError::Cycle)
    } else if !catalog.views().contains_key(id) {
        Err(ResearchAuthorityError::UnknownStudy)
    } else if fuel == 0 {
        Err(ResearchAuthorityError::Cycle)
    } else {
        match missing_path_each(a, catalog, catalog.prerequisite_order(id), visiting.insert(id), path, (fuel - 1) as nat) {
            Ok(p) => Ok(p.push(id)),
            Err(e) => Err(e),
        }
    }
}

/// The search run from each of `ids` in turn, stopping at the first failure.
pub open spec fn missing_path_each(
    a: ResearchAuthority,
    catalog: ProgressionCatalog,
    ids: Seq<Seq<char>>,
    visiting: Set<Seq<char>>,
    path: Seq<Seq<char>>,
    fuel: nat,
) -> Result<Seq<Seq<char>>, ResearchAuthorityError>
    decreases fuel, 1nat, ids.len(),
{
    if ids.len() == 0 {
        Ok(path)
    } else {
        match missing_path(a, catalog, ids[0], visiting, path, fuel) {
            Ok(p) => missing_path_each(a, catalog, ids.drop_first(), visiting, p, fuel),
            Err(e) => Err(e),
        }
    }
}

impl ResearchAuthority {
    /// Append to `path` the studies missing for `study_id`, each after its missing prerequisites.
    fn collect_missing_path(
        &self,
        catalog: &ProgressionCatalog,
        study_id: &str,
        visiting: &mut IdMap<()>,
        path: &mut Vec<StudyId>,
        Ghost(fuel): Ghost<nat>,
    ) -> (r: Result<(), ResearchAuthorityError>)
        requires
            self.owned_finite.wf(),
            old(visiting).wf(),
            old(visiting).map().dom().subset_of(catalog.views().dom()),
            catalog.views().dom().finite(),
            old(visiting).map().dom().len() + fuel >= catalog.views().dom().len(),
        ensures
            final(visiting).wf(),
            match missing_path(*self, *catalog, study_id@, old(visiting).map().dom(), study_ids(old(path)@), fuel) {
                Ok(p) => r is Ok && study_ids(final(path)@) == p && final(visiting).map() == old(visiting).map(),
                Err(e) => r == Err::<(), ResearchAuthorityError>(e),
            },
        decreases fuel,
    {
        let ghost a = *self;
        let ghost v0 = visiting.map();
        let ghost p0 = study_ids(path@);
        if self.owned_finite.contains_key(study_id) || position_of(&self.god_queue, study_id).is_some() {
            return Ok(());
        }
        if visiting.contains_key(study_id) {
            return Err(ResearchAuthorityError::Cycle);
        }
        visiting.insert(String::from_str(study_id), ());
        let sid = StudyId::from_key(study_id);
        let definition = match catalog.study(&sid) {
            Some(d) => d,
            None => {
                return Err(ResearchAuthorityError::UnknownStudy);
            },
        };
        let ghost order = catalog.prerequisite_order(study_id@);
        let ghost v1 = v0.insert(study_id@, ());
        proof {
            lemma_entries_map_finite(old(visiting)@);
            assert(v1.dom() =~= v0.dom().insert(study_id@));
            assert(catalog.views().contains_key(study_id@));
            vstd::set_lib::lemma_len_subset(v1.dom(), catalog.views().dom());
            assert(order.subrange(0, order.len() as int) =~= order);
            assert(missing_path(a, *catalog, study_id@, v0.dom(), p0, fuel) == match missing_path_each(
                a, *catalog, order, v1.dom(), p0, (fuel - 1) as nat) {
                Ok(p) => Ok(p.push(study_id@)),
                Err(e) => Err(e),
            });
        }
        let n = definition.prerequisites.len();
        let mut k: usize = 0;
        while k < n
            invariant
                a == *self,
                v0 == old(visiting).map(),
                p0 == study_ids(old(path)@),
                missing_path(a, *catalog, study_id@, v0.dom(), p0, fuel) == match missing_path_each(
                    a, *catalog, order, v1.dom(), p0, (fuel - 1) as nat) {
                    Ok(p) => Ok(p.push(study_id@)),
                    Err(e) => Err(e),
                },
                self.owned_finite.wf(),
                n == order.len(),
                definition.prerequisites@.map_values(|e: (Seq<char>, ())| e.0) == order,
                order == catalog.prerequisite_order(study_id@),
                k <= n,
                fuel > 0,
                visiting.wf(),
                visiting.map() == v1,
                v1.dom().subset_of(catalog.views().dom()),
                catalog.views().dom().finite(),
                v1.dom().len() + (fuel - 1) >= catalog.views().dom().len(),
                missing_path_each(a, *catalog, order, v1.dom(), p0, (fuel - 1) as nat) == missing_path_each(
                    a,
                    *catalog,
                    order.subrange(k as int, n as int),
                    v1.dom(),
                    study_ids(path@),
                    (fuel - 1) as nat,
                ),
            decreases n - k,
        {
            let key = definition.prerequisites.key_at(k);
            proof {
                assert(order[k as int] == key@);
                let rest = order.subrange(k as int, n as int);
                assert(rest[0] == key@);
                assert(rest.drop_first() =~= order.subrange(k + 1, n as int));
            }
            let ghost cur = study_ids(path@);
            match self.collect_missing_path(catalog, key.as_str(), visiting, path, Ghost((fuel - 1) as nat)) {
                Ok(()) => {},
                Err(e) => {
                    proof {
                        assert(missing_path_each(a, *catalog, order.subrange(k as int, n as int), v1.dom(), cur, (fuel - 1) as nat)
                            == Err::<Seq<Seq<char>>, ResearchAuthorityError>(e));
                    }
                    return Err(e);
                },
            }
            k = k + 1;
        }
        proof {
            assert(order.subrange(n as int, n as int).len() == 0);
        }
        visiting.remove(study_id);
        proof {
            assert(visiting.map() =~= v0);
        }
        let ghost before_push = study_ids(path@);
        path.push(sid);
        proof {
            assert(study_ids(path@) =~= before_push.push(study_id@));
        }
        Ok(())
    }
}

/// The queue once `path` is appended, numbered from `start`.
pub open spec fn queue_appended(before: Seq<GodResearchEntry>, after: Seq<GodResearchEntry>, path: Seq<Seq<char>>, start: int) -> bool {
    &&& after.len() == before.len() + path.len()
    &&& after.subrange(0, before.len() as int) == before
    &&& forall|i: int|
        0 <= i < path.len() ==> {
            let e = #[trigger] after[before.len() + i];
            &&& e.sequence == start + i
            &&& e.study_id@ == path[i]
            &&& e.frozen is None
            &&& e.staffed_labor_minutes == 0
        }
}

impl ResearchAuthority {
    /// Queue `target` behind every missing prerequisite, returning how many entries were added.
    fn queue_god_path(&mut self, catalog: &ProgressionCatalog, target: &StudyId) -> (r: Result<
        usize,
        ResearchAuthorityError,
    >)
        requires
            authority_maps_wf(*old(self)),
        ensures
            authority_maps_wf(*final(self)),
            match missing_path(*old(self), *catalog, target@, Set::empty(), Seq::empty(), search_depth(*catalog)) {
                Err(e) => r == Err::<usize, ResearchAuthorityError>(e),
                Ok(p) => {
                    let len = old(self).god_queue@.len();
                    if len + p.len() > usize::MAX {
                        r == Err::<usize, ResearchAuthorityError>(ResearchAuthorityError::ArithmeticOverflow)
                    } else if len + p.len() > MAX_GOD_QUEUE_ENTRIES {
                        r == Err::<usize, ResearchAuthorityError>(ResearchAuthorityError::QueueFull)
                    } else if old(self).next_queue_sequence + p.len() > u64::MAX {
                        r == Err::<usize, ResearchAuthorityError>(ResearchAuthorityError::ArithmeticOverflow)
                    } else {
                        &&& r == Ok::<usize, ResearchAuthorityError>(p.len() as usize)
                        &&& queue_appended(old(self).god_queue@, final(self).god_queue@, p, old(self).next_queue_sequence as int)
                        &&& final(self).next_queue_sequence == old(self).next_queue_sequence + p.len()
                    }
                },
            },
            r is Ok ==> {
                &&& same_header_and_ledgers(*final(self), *old(self))
                &&& final(self).owned_finite@ == old(self).owned_finite@
                &&& final(self).repeatable_completions@ == old(self).repeatable_completions@
                &&& final(self).preparations@ == old(self).preparations@
                &&& final(self).leader_commits@ == old(self).leader_commits@
                &&& final(self).receipts@ == old(self).receipts@
            },
    {
        let mut visiting: IdMap<()> = IdMap::new();
        let mut path: Vec<StudyId> = Vec::new();
        proof {
            catalog.lemma_views_finite();
            assert(study_ids(path@) =~= Seq::<Seq<char>>::empty());
        }
        match self.collect_missing_path(catalog, target.as_str(), &mut visiting, &mut path, Ghost(search_depth(*catalog))) {
            Ok(()) => {},
            Err(e) => {
                return Err(e);
            },
        }
        let ghost p = study_ids(path@);
        let total = match self.god_queue.len().checked_add(path.len()) {
            Some(t) => t,
            None => {
                return Err(ResearchAuthorityError::ArithmeticOverflow);
            },
        };
        if total > MAX_GOD_QUEUE_ENTRIES {
            return Err(ResearchAuthorityError::QueueFull);
        }
        let ghost q0 = self.god_queue@;
        let ghost start = self.next_queue_sequence as int;
        proof {
            assert(q0.subrange(0, q0.len() as int) =~= q0);
        }
        let mut i: usize = 0;
        while i < path.len()
            invariant
                p == study_ids(path@),
                missing_path(*old(self), *catalog, target@, Set::empty(), Seq::empty(), search_depth(*catalog))
                    == Ok::<Seq<Seq<char>>, ResearchAuthorityError>(p),
                q0.len() + p.len() <= MAX_GOD_QUEUE_ENTRIES,
                q0 == old(self).god_queue@,
                start == old(self).next_queue_sequence,
                authority_maps_wf(*self),
                i <= path@.len(),
                self.next_queue_sequence == start + i,
                queue_appended(q0, self.god_queue@, p.subrange(0, i as int), start),
                same_header_and_ledgers(*self, *old(self)),
                self.owned_finite@ == old(self).owned_finite@,
                self.repeatable_completions@ == old(self).repeatable_completions@,
                self.preparations@ == old(self).preparations@,
                self.leader_commits@ == old(self).leader_commits@,
                self.receipts@ == old(self).receipts@,
                self.owned_finite == old(self).owned_finite,
            decreases path@.len() - i,
        {
            let sequence = self.next_queue_sequence;
            if sequence == u64::MAX {
                return Err(ResearchAuthorityError::ArithmeticOverflow);
            }
            self.next_queue_sequence = sequence + 1;
            let ghost before = self.god_queue@;
            self.god_queue.push(
                GodResearchEntry { sequence, study_id: path[i].duplicate(), frozen: None, staffed_labor_minutes: 0 },
            );
            proof {
                let pi = p.subrange(0, i as int);
                let pn = p.subrange(0, i + 1);
                assert(self.god_queue@.subrange(0, q0.len() as int) =~= before.subrange(0, q0.len() as int));
                assert forall|j: int| 0 <= j < pn.len() implies {
                    let e = #[trigger] self.god_queue@[q0.len() + j];
                    &&& e.sequence == start + j
                    &&& e.study_id@ == pn[j]
                    &&& e.frozen is None
                    &&& e.staffed_labor_minutes == 0
                } by {
                    if j < i {
                        assert(self.god_queue@[q0.len() + j] == before[q0.len() + j]);
                        assert(pn[j] == pi[j]);
                    } else {
                        assert(pn[j] == p[j]);
                        assert(p[j] == path@[j]@);
                    }
                }
            }
            i = i + 1;
        }
        proof {
            assert(p.subrange(0, p.len() as int) =~= p);
        }
        Ok(path.len())
    }
}

/// How many entries removing entry `t` takes with it, itself included.
pub open spec fn removed_count(q: Seq<GodResearchEntry>, views: Map<Seq<char>, StudyView>, t: int) -> int {
    removed_sum(q, views, t, q.len() as int, one_each())
}

impl ResearchAuthority {
    /// Count the marked entries.
    fn count_marked(&self, catalog: &ProgressionCatalog, t: usize, marks: &Vec<bool>) -> (r: usize)
        requires
            t < self.god_queue@.len(),
            marks@.len() == self.god_queue@.len(),
            forall|i: int|
                0 <= i < marks@.len() ==> (marks@[i] <==> removed_with(self.god_queue@, catalog.views(), t as int, i)),
        ensures
            r == removed_count(self.god_queue@, catalog.views(), t as int),
    {
        let ghost q = self.god_queue@;
        let ghost views = catalog.views();
        let n = marks.len();
        let mut count: usize = 0;
        let mut i: usize = 0;
        while i < n
            invariant
                n == q.len(),
                q == self.god_queue@,
                views == catalog.views(),
                marks@.len() == n,
                forall|k: int| 0 <= k < n ==> (marks@[k] <==> removed_with(q, views, t as int, k)),
                i <= n,
                count <= i,
                count == removed_sum(q, views, t as int, i as int, one_each()),
            decreases n - i,
        {
            if marks[i] {
                count = count + 1;
            }
            i = i + 1;
        }
        count
    }

    /// Remove a queued target with every queued study that needs it.
    fn remove_god_target(&mut self, catalog: &ProgressionCatalog, target: &StudyId) -> (r: Result<
        ResearchCommandOutcome,
        ResearchAuthorityError,
    >)
        requires
            authority_maps_wf(*old(self)),
            queue_ids_distinct(old(self).god_queue@),
        ensures
            authority_maps_wf(*final(self)),
            ({
                let q = old(self).god_queue@;
                let ids = entry_ids(q);
                let views = catalog.views();
                let t = first_position(ids, target@);
                let acc = removal_accounting(*old(self), views, t);
                if !ids.contains(target@) {
                    r == Err::<ResearchCommandOutcome, ResearchAuthorityError>(ResearchAuthorityError::TargetNotQueued)
                } else if removal_overflows(*old(self), views, t) {
                    r == Err::<ResearchCommandOutcome, ResearchAuthorityError>(ResearchAuthorityError::ArithmeticOverflow)
                } else if removed_count(q, views, t) > 255 {
                    r == Err::<ResearchCommandOutcome, ResearchAuthorityError>(ResearchAuthorityError::Backpressure)
                } else {
                    &&& r == Ok::<ResearchCommandOutcome, ResearchAuthorityError>(
                        ResearchCommandOutcome::GodTargetRemoved {
                            removed_entries: removed_count(q, views, t) as u8,
                            refunded_notes_micro: acc.refunded_notes_micro,
                            refunded_void_micro: acc.refunded_void_micro,
                            lost_labor_minutes: acc.lost_labor_minutes,
                            lost_preparation_labor_minutes: acc.lost_preparation_labor_minutes,
                        },
                    )
                    &&& removal_applied(*old(self), *final(self), views, t)
                }
            }),
    {
        let t = match position_of(&self.god_queue, target.as_str()) {
            Some(t) => t,
            None => {
                return Err(ResearchAuthorityError::TargetNotQueued);
            },
        };
        let marks = self.removal_marks(catalog, t);
        let count = self.count_marked(catalog, t, &marks);
        let removal = match self.remove_marked(catalog, t, &marks) {
            Ok(removal) => removal,
            Err(e) => {
                return Err(e);
            },
        };
        if count > 255 {
            return Err(ResearchAuthorityError::Backpressure);
        }
        Ok(
            ResearchCommandOutcome::GodTargetRemoved {
                removed_entries: count as u8,
                refunded_notes_micro: removal.refunded_notes_micro,
                refunded_void_micro: removal.refunded_void_micro,
                lost_labor_minutes: removal.lost_labor_minutes,
                lost_preparation_labor_minutes: removal.lost_preparation_labor_minutes,
            },
        )
    }
}

/// Why a Leader completion of `study_id` is refused before anything changes, if it is.
pub open spec fn leader_completion_error(
    a: ResearchAuthority,
    views: Map<Seq<char>, StudyView>,
    study_id: Seq<char>,
    level: u8,
    now_tick: u64,
    permit: LeaderDuplicatePermit,
) -> Option<ResearchAuthorityError> {
    let owned = a.owned_finite.map().dom();
    if commits_in_window(a.leader_commits@, now_tick).len() >= cadence_limit(level) {
        Some(ResearchAuthorityError::LeaderCadenceExhausted)
    } else if !views.contains_key(study_id) {
        Some(ResearchAuthorityError::UnknownStudy)
    } else if owned.contains(study_id) {
        Some(ResearchAuthorityError::AlreadyOwned)
    } else if study_repeatable(views, study_id) && finite_remaining(views, owned) {
        Some(ResearchAuthorityError::FiniteResearchRemaining)
    } else if !views[study_id].prerequisites.subset_of(owned) {
        Some(ResearchAuthorityError::PrerequisiteLocked)
    } else if entry_ids(a.god_queue@).contains(study_id) && !permit_allows_queued(permit) {
        Some(ResearchAuthorityError::GodQueueDuplicateForbidden)
    } else {
        None
    }
}

/// How many times a repeatable study has been completed.
pub open spec fn completions_of(m: Map<Seq<char>, u32>, id: Seq<char>) -> int {
    if m.contains_key(id) {
        m[id] as int
    } else {
        0
    }
}

/// Keep only the commits still inside their rolling week at `now_tick`.
fn keep_window_commits(commits: &mut IdMap<LeaderCommit>, now_tick: u64)
    requires
        old(commits).wf(),
    ensures
        final(commits).wf(),
        final(commits)@ == commits_in_window(old(commits)@, now_tick),
{
    let ghost all = commits@;
    let ghost pred = |e: (Seq<char>, LeaderCommit)| commit_in_window(e.1, now_tick);
    let entries = commits.take_entries();
    let mut kept: Vec<(String, LeaderCommit)> = Vec::new();
    let n = entries.len();
    let mut i: usize = 0;
    while i < n
        invariant
            n == all.len(),
            entries_view(entries@) == all,
            keys_sorted(all),
            pred == (|e: (Seq<char>, LeaderCommit)| commit_in_window(e.1, now_tick)),
            i <= n,
            entries_view(kept@) == all.take(i as int).filter(pred),
            keys_sorted(entries_view(kept@)),
            forall|j: int, k: int| 0 <= j < kept@.len() && i <= k < n ==> text_lt(#[trigger] entries_view(kept@)[j].0, #[trigger] all[k].0),
        decreases n - i,
    {
        let ghost before = entries_view(kept@);
        proof {
            reveal(Seq::filter);
            assert(all.take(i + 1).drop_last() =~= all.take(i as int));
            assert(all.take(i + 1).last() == all[i as int]);
            assert(entries@[i as int].0@ == all[i as int].0);
        }
        let commit = &entries[i].1;
        if commit.committed_tick.saturating_add(ROLLING_SEVEN_GAME_DAYS_MINUTES) > now_tick {
            kept.push((entries[i].0.clone(), commit.exact_copy()));
            proof {
                assert(entries_view(kept@) =~= before.push(all[i as int]));
                assert forall|j: int, k: int| 0 <= j < kept@.len() && i + 1 <= k < n implies text_lt(
                    #[trigger] entries_view(kept@)[j].0,
                    #[trigger] all[k].0,
                ) by {
                    if j < before.len() {
                        assert(entries_view(kept@)[j] == before[j]);
                    } else {
                        assert(entries_view(kept@)[j] == all[i as int]);
                    }
                }
            }
        } else {
            proof {
                assert(entries_view(kept@) =~= before);
            }
        }
        i = i + 1;
    }
    proof {
        assert(all.take(n as int) =~= all);
    }
    *commits = IdMap::from_entries(kept);
}

impl ResearchAuthority {
    /// Whether every study in `prerequisites` is owned.
    fn owns_all(&self, prerequisites: &IdMap<()>) -> (r: bool)
        requires
            self.owned_finite.wf(),
            prerequisites.wf(),
        ensures
            r == prerequisites.map().dom().subset_of(self.owned_finite.map().dom()),
    {
        let n = prerequisites.len();
        let mut k: usize = 0;
        while k < n
            invariant
                n == prerequisites@.len(),
                prerequisites.wf(),
                self.owned_finite.wf(),
                k <= n,
                forall|j: int| 0 <= j < k ==> self.owned_finite.map().contains_key(#[trigger] prerequisites@[j].0),
            decreases n - k,
        {
            if !self.owned_finite.contains_key(prerequisites.key_at(k).as_str()) {
                proof {
                    lemma_lookup_all(prerequisites@);
                    assert(prerequisites.map().dom().contains(prerequisites@[k as int].0));
                }
                return false;
            }
            k = k + 1;
        }
        proof {
            assert forall|p: Seq<char>| prerequisites.map().dom().contains(p) implies self.owned_finite.map().contains_key(p) by {
                let j = choose|j: int| 0 <= j < prerequisites@.len() && #[trigger] prerequisites@[j].0 == p;
            }
        }
        true
    }

    /// Complete a study in the free Leader lane.
    #[verifier::rlimit(100)]
    #[verifier::spinoff_prover]
    fn complete_leader(
        &mut self,
        catalog: &ProgressionCatalog,
        command_id: &ResearchCommandId,
        study_id: &StudyId,
        effective_loremaster_level: u8,
        now_tick: u64,
        duplicate_permit: &LeaderDuplicatePermit,
    ) -> (r: Result<ResearchCommandOutcome, ResearchAuthorityError>)
        requires
            authority_maps_wf(*old(self)),
            queue_ids_distinct(old(self).god_queue@),
        ensures
            authority_maps_wf(*final(self)),
            complete_leader_answer(*old(self), *final(self), catalog, command_id, study_id, effective_loremaster_level, now_tick, duplicate_permit, r),
            r is Ok ==> complete_leader_effect(*old(self), *final(self), catalog, command_id, study_id, effective_loremaster_level, now_tick, duplicate_permit),
    {
        let ghost a = *self;
        let ghost views = catalog.views();
        if self.leader_used_in_window(now_tick) >= Self::leader_cadence_limit(effective_loremaster_level) {
            return Err(ResearchAuthorityError::LeaderCadenceExhausted);
        }
        let definition = match catalog.study(study_id) {
            Some(d) => d,
            None => {
                return Err(ResearchAuthorityError::UnknownStudy);
            },
        };
        if self.owned_finite.contains_key(study_id.as_str()) {
            return Err(ResearchAuthorityError::AlreadyOwned);
        }
        let repeatable = self.is_repeatable(catalog, study_id);
        if repeatable && self.has_unowned_finite(catalog) {
            return Err(ResearchAuthorityError::FiniteResearchRemaining);
        }
        if !self.owns_all(&definition.prerequisites) {
            return Err(ResearchAuthorityError::PrerequisiteLocked);
        }
        let position = position_of(&self.god_queue, study_id.as_str());
        let queued = position.is_some();
        if queued && !duplicate_permit.permits_queued_target() {
            return Err(ResearchAuthorityError::GodQueueDuplicateForbidden);
        }
        let removal = match position {
            Some(t) => {
                let marks = self.removal_marks(catalog, t);
                match self.remove_marked(catalog, t, &marks) {
                    Ok(removal) => removal,
                    Err(e) => {
                        return Err(e);
                    },
                }
            },
            None => RemovalAccounting {
                refunded_notes_micro: 0,
                refunded_void_micro: 0,
                lost_labor_minutes: 0,
                lost_preparation_labor_minutes: 0,
            },
        };
        let ghost mid = *self;
        if repeatable {
            let completed: u32 = match self.repeatable_completions.get(study_id.as_str()) {
                Some(c) => *c,
                None => 0,
            };
            if completed == u32::MAX {
                return Err(ResearchAuthorityError::ArithmeticOverflow);
            }
            self.repeatable_completions.insert(String::from_str(study_id.as_str()), completed + 1);
        } else {
            self.owned_finite.insert(String::from_str(study_id.as_str()), ());
        }
        keep_window_commits(&mut self.leader_commits, now_tick);
        if self.leader_commits.len() >= MAX_LEADER_COMMITS {
            return Err(ResearchAuthorityError::Backpressure);
        }
        let authorization = if queued {
            duplicate_permit.kind()
        } else {
            DuplicateAuthorization::Absent
        };
        self.leader_commits.insert(
            String::from_str(command_id.as_str()),
            LeaderCommit {
                study_id: study_id.duplicate(),
                committed_tick: now_tick,
                effective_loremaster_level,
                duplicate_authorization: authorization,
            },
        );
        proof {
            assert(self.leader_commits.map().remove(command_id@) =~= entries_map(commits_in_window(a.leader_commits@, now_tick)).remove(
                command_id@,
            ));
        }
        Ok(
            ResearchCommandOutcome::LeaderCompleted {
                study_id: study_id.duplicate(),
                duplicate_authorization: authorization,
                refunded_notes_micro: removal.refunded_notes_micro,
                refunded_void_micro: removal.refunded_void_micro,
                lost_god_labor_minutes: removal.lost_labor_minutes,
                lost_preparation_labor_minutes: removal.lost_preparation_labor_minutes,
            },
        )
    }
}

pub open spec fn request_preparation_outcome(a: ResearchAuthority, b: ResearchAuthority, catalog: &ProgressionCatalog, study_id: &StudyId, r: Result<ResearchCommandOutcome, ResearchAuthorityError>) -> bool {
    &&& match preparation_target_error(a, catalog.views(), study_id@) {
        Some(e) => r == Err::<ResearchCommandOutcome, ResearchAuthorityError>(e),
        None => {
            let required = preparation_minutes(catalog.views()[study_id@].required_work_minutes);
            if a.preparations.map().contains_key(study_id@) {
                r == Err::<ResearchCommandOutcome, ResearchAuthorityError>(
                    ResearchAuthorityError::PreparationAlreadyExists,
                )
            } else if required == 0 {
                r == Err::<ResearchCommandOutcome, ResearchAuthorityError>(
                    ResearchAuthorityError::MalformedPersistence,
                )
            } else {
                &&& r == Ok::<ResearchCommandOutcome, ResearchAuthorityError>(
                    ResearchCommandOutcome::PreparationRequested {
                        study_id: *study_id,
                        required_labor_minutes: required as u64,
                    },
                )
                &&& b.preparations.map() == a.preparations.map().insert(
                    study_id@,
                    PreparationState {
                        study_id: *study_id,
                        required_labor_minutes: required as u64,
                        completed_labor_minutes: 0,
                    },
                )
            }
        },
    }
    &&& r is Ok ==> {
        &&& same_header_and_ledgers(b, a)
        &&& b.owned_finite@ == a.owned_finite@
        &&& b.repeatable_completions@ == a.repeatable_completions@
        &&& b.next_queue_sequence == a.next_queue_sequence
        &&& b.god_queue@ == a.god_queue@
        &&& b.leader_commits@ == a.leader_commits@
        &&& b.receipts@ == a.receipts@
    }
}

pub open spec fn perform_preparation_outcome(a: ResearchAuthority, b: ResearchAuthority, catalog: &ProgressionCatalog, study_id: &StudyId, staffed_research_station: bool, scholar_alive: bool, labor_minutes: u64, r: Result<ResearchCommandOutcome, ResearchAuthorityError>) -> bool {
    &&& !staffed_research_station || !scholar_alive ==> r == Err::<ResearchCommandOutcome, ResearchAuthorityError>(
        ResearchAuthorityError::ResearchInfrastructureUnavailable,
    )
    &&& staffed_research_station && scholar_alive && labor_minutes == 0 ==> r == Err::<
        ResearchCommandOutcome,
        ResearchAuthorityError,
    >(ResearchAuthorityError::MalformedCommand)
    &&& staffed_research_station && scholar_alive && labor_minutes != 0 ==> match preparation_target_error(
        a,
        catalog.views(),
        study_id@,
    ) {
        Some(e) => r == Err::<ResearchCommandOutcome, ResearchAuthorityError>(e),
        None => {
            let required = preparation_minutes(catalog.views()[study_id@].required_work_minutes);
            let preps = a.preparations.map();
            if !preps.contains_key(study_id@) {
                r == Err::<ResearchCommandOutcome, ResearchAuthorityError>(
                    ResearchAuthorityError::PreparationNotRequested,
                )
            } else if preps[study_id@].required_labor_minutes != required {
                r == Err::<ResearchCommandOutcome, ResearchAuthorityError>(
                    ResearchAuthorityError::MalformedPersistence,
                )
            } else if preps[study_id@].completed_labor_minutes >= preps[study_id@].required_labor_minutes {
                r == Err::<ResearchCommandOutcome, ResearchAuthorityError>(
                    ResearchAuthorityError::PreparationAlreadyExists,
                )
            } else if preps[study_id@].completed_labor_minutes + labor_minutes > u64::MAX {
                r == Err::<ResearchCommandOutcome, ResearchAuthorityError>(
                    ResearchAuthorityError::ArithmeticOverflow,
                )
            } else {
                let completed = if preps[study_id@].completed_labor_minutes + labor_minutes < required {
                    preps[study_id@].completed_labor_minutes + labor_minutes
                } else {
                    required
                };
                &&& r == Ok::<ResearchCommandOutcome, ResearchAuthorityError>(
                    ResearchCommandOutcome::PreparationAdvanced {
                        remaining_labor_minutes: (required - completed) as u64,
                    },
                )
                &&& b.preparations.map() == preps.insert(
                    study_id@,
                    PreparationState { completed_labor_minutes: completed as u64, ..preps[study_id@] },
                )
            }
        },
    }
    &&& r is Ok ==> {
        &&& same_header_and_ledgers(b, a)
        &&& b.owned_finite@ == a.owned_finite@
        &&& b.repeatable_completions@ == a.repeatable_completions@
        &&& b.next_queue_sequence == a.next_queue_sequence
        &&& b.god_queue@ == a.god_queue@
        &&& b.leader_commits@ == a.leader_commits@
        &&& b.receipts@ == a.receipts@
    }
}

pub open spec fn perform_god_labor_outcome(a: ResearchAuthority, b: ResearchAuthority, catalog: &ProgressionCatalog, staffed_research_station: bool, scholar_alive: bool, labor_minutes: u64, r: Result<ResearchCommandOutcome, ResearchAuthorityError>) -> bool {
    &&& ({
        let q = a.god_queue@;
        let views = catalog.views();
        if !staffed_research_station || !scholar_alive {
            r == Err::<ResearchCommandOutcome, ResearchAuthorityError>(
                ResearchAuthorityError::ResearchInfrastructureUnavailable,
            )
        } else if labor_minutes == 0 {
            r == Err::<ResearchCommandOutcome, ResearchAuthorityError>(ResearchAuthorityError::MalformedCommand)
        } else if q.len() == 0 {
            r == Err::<ResearchCommandOutcome, ResearchAuthorityError>(ResearchAuthorityError::NoGodFront)
        } else if q[0].frozen is None {
            r == Err::<ResearchCommandOutcome, ResearchAuthorityError>(ResearchAuthorityError::GodFrontUnfunded)
        } else if q[0].staffed_labor_minutes + labor_minutes > u64::MAX {
            r == Err::<ResearchCommandOutcome, ResearchAuthorityError>(ResearchAuthorityError::ArithmeticOverflow)
        } else {
            let duration = q[0].frozen->0.duration_game_minutes;
            let staffed = if q[0].staffed_labor_minutes + labor_minutes < duration {
                q[0].staffed_labor_minutes + labor_minutes
            } else {
                duration as int
            };
            let id = q[0].study_id@;
            let completions = a.repeatable_completions.map();
            let count = if completions.contains_key(id) { completions[id] as int } else { 0int };
            if staffed < duration {
                &&& r == Ok::<ResearchCommandOutcome, ResearchAuthorityError>(
                    ResearchCommandOutcome::GodLaborAdvanced { remaining_labor_minutes: (duration - staffed) as u64 },
                )
                &&& b.god_queue@ == q.update(0, GodResearchEntry { staffed_labor_minutes: staffed as u64, ..q[0] })
                &&& b.owned_finite.map() == a.owned_finite.map()
                &&& b.repeatable_completions.map() == completions
                &&& b.preparations.map() == a.preparations.map()
            } else if study_repeatable(views, id) && count + 1 > u32::MAX {
                r == Err::<ResearchCommandOutcome, ResearchAuthorityError>(ResearchAuthorityError::ArithmeticOverflow)
            } else if !study_repeatable(views, id) && !views.contains_key(id) {
                r == Err::<ResearchCommandOutcome, ResearchAuthorityError>(ResearchAuthorityError::UnknownStudy)
            } else if !study_repeatable(views, id) && !views[id].prerequisites.subset_of(
                a.owned_finite.map().dom(),
            ) {
                r == Err::<ResearchCommandOutcome, ResearchAuthorityError>(ResearchAuthorityError::PrerequisiteLocked)
            } else {
                &&& r == Ok::<ResearchCommandOutcome, ResearchAuthorityError>(
                    ResearchCommandOutcome::GodStudyCompleted { study_id: q[0].study_id },
                )
                &&& b.god_queue@ == q.subrange(1, q.len() as int)
                &&& b.preparations.map() == a.preparations.map().remove(id)
                &&& if study_repeatable(views, id) {
                    &&& b.repeatable_completions.map() == completions.insert(id, (count + 1) as u32)
                    &&& b.owned_finite.map() == a.owned_finite.map()
                } else {
                    &&& b.repeatable_completions.map() == completions
                    &&& b.owned_finite.map() == a.owned_finite.map().insert(id, ())
                }
            }
        }
    })
    &&& r is Ok ==> {
        &&& same_header_and_ledgers(b, a)
        &&& b.next_queue_sequence == a.next_queue_sequence
        &&& b.leader_commits@ == a.leader_commits@
        &&& b.receipts@ == a.receipts@
    }
}

/// What a God-target reorder answers, in the order the checks are made.
pub open spec fn reorder_god_target_answer(a: ResearchAuthority, b: ResearchAuthority, catalog: &ProgressionCatalog, study_id: &StudyId, before_study_id: Option<&StudyId>, r: Result<ResearchCommandOutcome, ResearchAuthorityError>) -> bool {
    ({
        let q = a.god_queue@;
        let ids = entry_ids(q);
        let before = match before_study_id {
            Some(b) => Some(b@),
            None => None,
        };
        let from = first_position(ids, study_id@);
        let moved = reordered(q, from, before);
        if !ids.contains(study_id@) {
            r == Err::<ResearchCommandOutcome, ResearchAuthorityError>(ResearchAuthorityError::TargetNotQueued)
        } else if before == Some(study_id@) {
            r == Err::<ResearchCommandOutcome, ResearchAuthorityError>(ResearchAuthorityError::NoOpReorder)
        } else if before matches Some(b) && !ids.contains(b) {
            r == Err::<ResearchCommandOutcome, ResearchAuthorityError>(ResearchAuthorityError::TargetNotQueued)
        } else if entry_ids(moved) == ids {
            r == Err::<ResearchCommandOutcome, ResearchAuthorityError>(ResearchAuthorityError::NoOpReorder)
        } else if q[0].frozen is Some && moved[0].study_id@ != q[0].study_id@ {
            r == Err::<ResearchCommandOutcome, ResearchAuthorityError>(ResearchAuthorityError::GodFrontFrozen)
        } else if !order_is_topological(catalog.views(), a.owned_finite.map().dom(), entry_ids(moved)) {
            r == Err::<ResearchCommandOutcome, ResearchAuthorityError>(
                ResearchAuthorityError::GodQueuePrerequisiteOrder,
            )
        } else if q.len() + 1 > u64::MAX {
            r == Err::<ResearchCommandOutcome, ResearchAuthorityError>(ResearchAuthorityError::ArithmeticOverflow)
        } else if from > 255 || reorder_to(q, from, before) > 255 {
            r == Err::<ResearchCommandOutcome, ResearchAuthorityError>(ResearchAuthorityError::Backpressure)
        } else {
            &&& r == Ok::<ResearchCommandOutcome, ResearchAuthorityError>(
                ResearchCommandOutcome::GodTargetReordered {
                    study_id: *study_id,
                    from_index: from as u8,
                    to_index: reorder_to(q, from, before) as u8,
                },
            )
            &&& b.god_queue@ == renumbered(moved)
            &&& b.next_queue_sequence == q.len() + 1
        }
    })
}

/// What a successful reorder leaves as it was.
pub open spec fn reorder_keeps_rest(a: ResearchAuthority, b: ResearchAuthority) -> bool {
    &&& same_header_and_ledgers(b, a)
    &&& b.owned_finite@ == a.owned_finite@
    &&& b.repeatable_completions@ == a.repeatable_completions@
    &&& b.preparations@ == a.preparations@
    &&& b.leader_commits@ == a.leader_commits@
    &&& b.receipts@ == a.receipts@
}

/// What a God-target reorder answers and leaves behind.
pub open spec fn reorder_god_target_outcome(a: ResearchAuthority, b: ResearchAuthority, catalog: &ProgressionCatalog, study_id: &StudyId, before_study_id: Option<&StudyId>, r: Result<ResearchCommandOutcome, ResearchAuthorityError>) -> bool {
    &&& reorder_god_target_answer(a, b, catalog, study_id, before_study_id, r)
    &&& r is Ok ==> reorder_keeps_rest(a, b)
}

pub open spec fn fund_front_outcome(a: ResearchAuthority, b: ResearchAuthority, catalog: &ProgressionCatalog, command_id: &ResearchCommandId, consume_preparation: bool, r: Result<ResearchCommandOutcome, ResearchAuthorityError>) -> bool {
    &&& ({
        let q = a.god_queue@;
        let views = catalog.views();
        let preps = a.preparations.map();
        if q.len() == 0 {
            r == Err::<ResearchCommandOutcome, ResearchAuthorityError>(ResearchAuthorityError::NoGodFront)
        } else if q[0].frozen is Some {
            &&& r == Ok::<ResearchCommandOutcome, ResearchAuthorityError>(
                ResearchCommandOutcome::Funded { payable_cost_micro: q[0].frozen->0.payable_cost_micro },
            )
            &&& same_authority(b, a)
        } else if !views.contains_key(q[0].study_id@) {
            r == Err::<ResearchCommandOutcome, ResearchAuthorityError>(ResearchAuthorityError::UnknownStudy)
        } else {
            let id = q[0].study_id@;
            let definition = views[id];
            let currency = view_currency(definition.kind);
            let can_consume = consume_preparation && currency == StudyCurrency::Notes && preps.contains_key(id)
                && preps[id].completed_labor_minutes >= preps[id].required_labor_minutes;
            let payable = (definition.cost_micro - if can_consume { definition.cost_micro / 4 } else { 0 }) as u64;
            let event = god_front_event_text(a.colony_id@, command_id@);
            let fingerprint = currency_fingerprint_of(command_id@, id, payable);
            let debit = if currency == StudyCurrency::Notes {
                debit_outcome_parts(
                    a.notes.spends.map(),
                    a.notes.spends@.len(),
                    a.notes.valid(),
                    a.notes.version,
                    a.notes.balance.0,
                    event,
                    payable,
                    a.notes.version,
                    fingerprint,
                )
            } else {
                debit_outcome_parts(
                    a.void.spends.map(),
                    a.void.spends@.len(),
                    a.void.valid(),
                    a.void.version,
                    a.void.balance.0,
                    event,
                    payable,
                    a.void.version,
                    fingerprint,
                )
            };
            if consume_preparation && !can_consume {
                r == Err::<ResearchCommandOutcome, ResearchAuthorityError>(
                    ResearchAuthorityError::PreparationUnavailable,
                )
            } else if debit is Err {
                r == Err::<ResearchCommandOutcome, ResearchAuthorityError>(
                    if currency == StudyCurrency::Notes {
                        notes_debit_error_of(debit->Err_0)
                    } else {
                        void_debit_error_of(debit->Err_0)
                    },
                )
            } else {
                let committed = debit == Ok::<CurrencyCommitOutcome, ProgressionError>(CurrencyCommitOutcome::Committed);
                &&& r == Ok::<ResearchCommandOutcome, ResearchAuthorityError>(
                    ResearchCommandOutcome::Funded { payable_cost_micro: payable },
                )
                &&& b.god_queue@ == q.update(
                    0,
                    GodResearchEntry {
                        frozen: Some(
                            FrozenGodTerms {
                                currency,
                                base_cost_micro: definition.cost_micro,
                                payable_cost_micro: payable,
                                duration_game_minutes: definition.required_work_minutes,
                            },
                        ),
                        ..q[0]
                    },
                )
                &&& b.preparations.map() == if can_consume {
                    preps.remove(id)
                } else {
                    preps
                }
                &&& if currency == StudyCurrency::Notes {
                    &&& same_void(b.void, a.void)
                    &&& if committed {
                        &&& b.notes.version == a.notes.version + 1
                        &&& b.notes.balance.0 == a.notes.balance.0 - payable
                        &&& spends_after_debit(
                            a.notes.spends.map(),
                            b.notes.spends.map(),
                            event,
                            payable,
                            fingerprint,
                            None,
                            (a.notes.version + 1) as u64,
                        )
                        &&& b.notes.schema_version == a.notes.schema_version
                        &&& b.notes.partition == a.notes.partition
                        &&& b.notes.retired_work_through == a.notes.retired_work_through
                    } else {
                        same_notes(b.notes, a.notes)
                    }
                } else {
                    &&& same_notes(b.notes, a.notes)
                    &&& if committed {
                        &&& b.void.version == a.void.version + 1
                        &&& b.void.balance.0 == a.void.balance.0 - payable
                        &&& spends_after_debit(
                            a.void.spends.map(),
                            b.void.spends.map(),
                            event,
                            payable,
                            fingerprint,
                            Some(funding_purpose(definition.kind)),
                            (a.void.version + 1) as u64,
                        )
                        &&& b.void.schema_version == a.void.schema_version
                        &&& b.void.partition == a.void.partition
                        &&& b.void.credited_feed_through == a.void.credited_feed_through
                    } else {
                        same_void(b.void, a.void)
                    }
                }
            }
        }
    })
    &&& r is Ok ==> {
        &&& b.schema_version == a.schema_version
        &&& b.colony_id == a.colony_id
        &&& b.version == a.version
        &&& b.owned_finite@ == a.owned_finite@
        &&& b.repeatable_completions@ == a.repeatable_completions@
        &&& b.next_queue_sequence == a.next_queue_sequence
        &&& b.leader_commits@ == a.leader_commits@
        &&& b.receipts@ == a.receipts@
    }
}

/// Law: funding an unfrozen God front freezes its full catalog price, or,
/// when a completed Notes preparation is consumed, the price less a quarter
/// (the 2_500 of 10_000 basis points preparation discount), and the consumed
/// preparation is gone; without consumption the preparations stay as they were.
pub proof fn law_fund_front_preparation_takes_a_quarter_off(
    a: ResearchAuthority,
    b: ResearchAuthority,
    catalog: &ProgressionCatalog,
    command_id: &ResearchCommandId,
    consume_preparation: bool,
    payable: u64,
)
    requires
        fund_front_outcome(
            a,
            b,
            catalog,
            command_id,
            consume_preparation,
            Ok::<ResearchCommandOutcome, ResearchAuthorityError>(ResearchCommandOutcome::Funded { payable_cost_micro: payable }),
        ),
        a.god_queue@.len() > 0,
        a.god_queue@[0].frozen is None,
    ensures
        ({
            let id = a.god_queue@[0].study_id@;
            let cost = catalog.views()[id].cost_micro;
            &&& catalog.views().contains_key(id)
            &&& consume_preparation ==> {
                &&& view_currency(catalog.views()[id].kind) == StudyCurrency::Notes
                &&& payable == cost - cost / 4
                &&& payable == cost - cost * 2_500 / 10_000
                &&& a.preparations.map().contains_key(id)
                &&& a.preparations.map()[id].completed_labor_minutes >= a.preparations.map()[id].required_labor_minutes
                &&& b.preparations.map() == a.preparations.map().remove(id)
            }
            &&& !consume_preparation ==> payable == cost && b.preparations.map() == a.preparations.map()
            &&& b.god_queue@[0].frozen matches Some(t) && t.payable_cost_micro == payable && t.base_cost_micro == cost
        }),
{
}

pub open spec fn remove_god_target_outcome(a: ResearchAuthority, b: ResearchAuthority, catalog: &ProgressionCatalog, target: &StudyId, r: Result<ResearchCommandOutcome, ResearchAuthorityError>) -> bool {
    &&& ({
        let q = a.god_queue@;
        let ids = entry_ids(q);
        let views = catalog.views();
        let t = first_position(ids, target@);
        let acc = removal_accounting(a, views, t);
        if !ids.contains(target@) {
            r == Err::<ResearchCommandOutcome, ResearchAuthorityError>(ResearchAuthorityError::TargetNotQueued)
        } else if removal_overflows(a, views, t) {
            r == Err::<ResearchCommandOutcome, ResearchAuthorityError>(ResearchAuthorityError::ArithmeticOverflow)
        } else if removed_count(q, views, t) > 255 {
            r == Err::<ResearchCommandOutcome, ResearchAuthorityError>(ResearchAuthorityError::Backpressure)
        } else {
            &&& r == Ok::<ResearchCommandOutcome, ResearchAuthorityError>(
                ResearchCommandOutcome::GodTargetRemoved {
                    removed_entries: removed_count(q, views, t) as u8,
                    refunded_notes_micro: acc.refunded_notes_micro,
                    refunded_void_micro: acc.refunded_void_micro,
                    lost_labor_minutes: acc.lost_labor_minutes,
                    lost_preparation_labor_minutes: acc.lost_preparation_labor_minutes,
                },
            )
            &&& removal_applied(a, b, views, t)
        }
    })
}

/// What completing a study in the Leader lane answers, in the order the checks are made.
pub open spec fn complete_leader_answer(a: ResearchAuthority, b: ResearchAuthority, catalog: &ProgressionCatalog, command_id: &ResearchCommandId, study_id: &StudyId, effective_loremaster_level: u8, now_tick: u64, duplicate_permit: &LeaderDuplicatePermit, r: Result<ResearchCommandOutcome, ResearchAuthorityError>) -> bool {
    &&& ({
        let a = a;
        let views = catalog.views();
        let id = study_id@;
        let q = a.god_queue@;
        let queued = entry_ids(q).contains(id);
        let t = first_position(entry_ids(q), id);
        let acc = if queued {
            removal_accounting(a, views, t)
        } else {
            RemovalAccounting {
                refunded_notes_micro: 0,
                refunded_void_micro: 0,
                lost_labor_minutes: 0,
                lost_preparation_labor_minutes: 0,
            }
        };
        let authorization = if queued {
            permit_kind(*duplicate_permit)
        } else {
            DuplicateAuthorization::Absent
        };
        let window = commits_in_window(a.leader_commits@, now_tick);
        let repeatable = study_repeatable(views, id);
        match leader_completion_error(a, views, id, effective_loremaster_level, now_tick, *duplicate_permit) {
            Some(e) => r == Err::<ResearchCommandOutcome, ResearchAuthorityError>(e),
            None => if queued && removal_overflows(a, views, t) {
                r == Err::<ResearchCommandOutcome, ResearchAuthorityError>(ResearchAuthorityError::ArithmeticOverflow)
            } else if repeatable && completions_of(a.repeatable_completions.map(), id) == u32::MAX {
                r == Err::<ResearchCommandOutcome, ResearchAuthorityError>(ResearchAuthorityError::ArithmeticOverflow)
            } else if window.len() >= MAX_LEADER_COMMITS {
                r == Err::<ResearchCommandOutcome, ResearchAuthorityError>(ResearchAuthorityError::Backpressure)
            } else {
                &&& r == Ok::<ResearchCommandOutcome, ResearchAuthorityError>(
                    ResearchCommandOutcome::LeaderCompleted {
                        study_id: *study_id,
                        duplicate_authorization: authorization,
                        refunded_notes_micro: acc.refunded_notes_micro,
                        refunded_void_micro: acc.refunded_void_micro,
                        lost_god_labor_minutes: acc.lost_labor_minutes,
                        lost_preparation_labor_minutes: acc.lost_preparation_labor_minutes,
                    },
                )
            },
        }
    })
}

/// What a completion in the Leader lane leaves behind when it succeeds.
pub open spec fn complete_leader_effect(a: ResearchAuthority, b: ResearchAuthority, catalog: &ProgressionCatalog, command_id: &ResearchCommandId, study_id: &StudyId, effective_loremaster_level: u8, now_tick: u64, duplicate_permit: &LeaderDuplicatePermit) -> bool {
    let views = catalog.views();
    let id = study_id@;
    let q = a.god_queue@;
    let queued = entry_ids(q).contains(id);
    let t = first_position(entry_ids(q), id);
    let authorization = if queued {
        permit_kind(*duplicate_permit)
    } else {
        DuplicateAuthorization::Absent
    };
    let window = commits_in_window(a.leader_commits@, now_tick);
    let repeatable = study_repeatable(views, id);
    &&& if queued {
        removal_effect(a, b, views, t)
    } else {
        &&& b.god_queue@ == q
        &&& b.preparations@ == a.preparations@
        &&& same_notes(b.notes, a.notes)
        &&& same_void(b.void, a.void)
    }
    &&& if repeatable {
        &&& b.owned_finite@ == a.owned_finite@
        &&& b.repeatable_completions.map() == a.repeatable_completions.map().insert(
            id,
            (completions_of(a.repeatable_completions.map(), id) + 1) as u32,
        )
    } else {
        &&& b.owned_finite.map() == a.owned_finite.map().insert(id, ())
        &&& b.repeatable_completions@ == a.repeatable_completions@
    }
    &&& b.leader_commits.map().remove(command_id@) == entries_map(window).remove(command_id@)
    &&& b.leader_commits.map().contains_key(command_id@)
    &&& b.leader_commits.map()[command_id@].study_id@ == id
    &&& b.leader_commits.map()[command_id@].committed_tick == now_tick
    &&& b.leader_commits.map()[command_id@].effective_loremaster_level == effective_loremaster_level
    &&& b.leader_commits.map()[command_id@].duplicate_authorization == authorization
    &&& b.schema_version == a.schema_version
    &&& b.colony_id == a.colony_id
    &&& b.version == a.version
    &&& b.next_queue_sequence == a.next_queue_sequence
    &&& b.receipts@ == a.receipts@
}

/// What completing a study in the Leader lane answers and leaves behind.
pub open spec fn complete_leader_outcome(a: ResearchAuthority, b: ResearchAuthority, catalog: &ProgressionCatalog, command_id: &ResearchCommandId, study_id: &StudyId, effective_loremaster_level: u8, now_tick: u64, duplicate_permit: &LeaderDuplicatePermit, r: Result<ResearchCommandOutcome, ResearchAuthorityError>) -> bool {
    &&& complete_leader_answer(a, b, catalog, command_id, study_id, effective_loremaster_level, now_tick, duplicate_permit, r)
    &&& r is Ok ==> complete_leader_effect(a, b, catalog, command_id, study_id, effective_loremaster_level, now_tick, duplicate_permit)
}

/// What queuing a God path answers and leaves.
pub open spec fn queue_command_outcome(
    a: ResearchAuthority,
    b: ResearchAuthority,
    catalog: &ProgressionCatalog,
    target: &StudyId,
    r: Result<ResearchCommandOutcome, ResearchAuthorityError>,
) -> bool {
    match missing_path(a, *catalog, target@, Set::empty(), Seq::empty(), search_depth(*catalog)) {
        Err(e) => r == Err::<ResearchCommandOutcome, ResearchAuthorityError>(e),
        Ok(p) => {
            let len = a.god_queue@.len();
            if len + p.len() > usize::MAX {
                r == Err::<ResearchCommandOutcome, ResearchAuthorityError>(ResearchAuthorityError::ArithmeticOverflow)
            } else if len + p.len() > MAX_GOD_QUEUE_ENTRIES {
                r == Err::<ResearchCommandOutcome, ResearchAuthorityError>(ResearchAuthorityError::QueueFull)
            } else if a.next_queue_sequence + p.len() > u64::MAX {
                r == Err::<ResearchCommandOutcome, ResearchAuthorityError>(ResearchAuthorityError::ArithmeticOverflow)
            } else if p.len() > 255 {
                r == Err::<ResearchCommandOutcome, ResearchAuthorityError>(ResearchAuthorityError::Backpressure)
            } else {
                &&& r == Ok::<ResearchCommandOutcome, ResearchAuthorityError>(
                    ResearchCommandOutcome::Queued { entries_added: p.len() as u8 },
                )
                &&& queue_appended(a.god_queue@, b.god_queue@, p, a.next_queue_sequence as int)
                &&& b.next_queue_sequence == a.next_queue_sequence + p.len()
                &&& same_header_and_ledgers(b, a)
                &&& b.owned_finite@ == a.owned_finite@
                &&& b.repeatable_completions@ == a.repeatable_completions@
                &&& b.preparations@ == a.preparations@
                &&& b.leader_commits@ == a.leader_commits@
                &&& b.receipts@ == a.receipts@
            }
        },
    }
}

/// What a new command answers and leaves, by its kind.
pub open spec fn command_outcome(
    a: ResearchAuthority,
    b: ResearchAuthority,
    catalog: &ProgressionCatalog,
    command: ResearchCommand,
    r: Result<ResearchCommandOutcome, ResearchAuthorityError>,
) -> bool {
    match command.kind {
        ResearchCommandKind::QueueGodPath { target } => queue_command_outcome(a, b, catalog, &target, r),
        ResearchCommandKind::FundGodFront { consume_preparation } => fund_front_outcome(
            a,
            b,
            catalog,
            &command.id,
            consume_preparation,
            r,
        ),
        ResearchCommandKind::RequestPreparation { study_id } => request_preparation_outcome(a, b, catalog, &study_id, r),
        ResearchCommandKind::PerformPreparation { study_id, staffed_research_station, scholar_alive, labor_minutes } =>
            perform_preparation_outcome(a, b, catalog, &study_id, staffed_research_station, scholar_alive, labor_minutes, r),
        ResearchCommandKind::PerformGodLabor { staffed_research_station, scholar_alive, labor_minutes } =>
            perform_god_labor_outcome(a, b, catalog, staffed_research_station, scholar_alive, labor_minutes, r),
        ResearchCommandKind::RemoveGodTarget { study_id } => remove_god_target_outcome(a, b, catalog, &study_id, r),
        ResearchCommandKind::ReorderGodTarget { study_id, before_study_id } => reorder_god_target_outcome(
            a,
            b,
            catalog,
            &study_id,
            match before_study_id {
                Some(x) => Some(&x),
                None => None,
            },
            r,
        ),
        ResearchCommandKind::CompleteLeader { study_id, effective_loremaster_level, now_tick, duplicate_permit } =>
            complete_leader_outcome(
            a,
            b,
            catalog,
            &command.id,
            &study_id,
            effective_loremaster_level,
            now_tick,
            &duplicate_permit,
            r,
        ),
    }
}

proof fn lemma_rules_ids_distinct(a: ResearchAuthority, views: Map<Seq<char>, StudyView>)
    requires
        authority_rules(a, views),
    ensures
        queue_ids_distinct(a.god_queue@),
{
    let q = a.god_queue@;
    let ids = entry_ids(q);
    assert forall|i: int, j: int| 0 <= i < j < q.len() implies (#[trigger] q[i]).study_id@ != (#[trigger] q[j]).study_id@ by {
        assert(ids[i] == q[i].study_id@ && ids[j] == q[j].study_id@);
        assert(views.contains_key(ids[j]));
    }
}

impl ResearchAuthority {
    /// Carry out a command not seen before, against a valid authority.
    fn apply_new(&mut self, catalog: &ProgressionCatalog, command: &ResearchCommand) -> (r: Result<
        ResearchCommandOutcome,
        ResearchAuthorityError,
    >)
        requires
            authority_maps_wf(*old(self)),
            authority_rules(*old(self), catalog.views()),
        ensures
            authority_maps_wf(*final(self)),
            command_outcome(*old(self), *final(self), catalog, *command, r),
    {
        proof {
            lemma_rules_ids_distinct(*self, catalog.views());
        }
        match &command.kind {
            ResearchCommandKind::QueueGodPath { target } => {
                let added = match self.queue_god_path(catalog, target) {
                    Ok(added) => added,
                    Err(e) => {
                        return Err(e);
                    },
                };
                if added > 255 {
                    return Err(ResearchAuthorityError::Backpressure);
                }
                Ok(ResearchCommandOutcome::Queued { entries_added: added as u8 })
            },
            ResearchCommandKind::FundGodFront { consume_preparation } => {
                let r = self.fund_front(catalog, &command.id, *consume_preparation);
                r
            },
            ResearchCommandKind::RequestPreparation { study_id } => {
                let r = self.request_preparation(catalog, study_id);
                r
            },
            ResearchCommandKind::PerformPreparation { study_id, staffed_research_station, scholar_alive, labor_minutes } => {
                let r = self.perform_preparation(catalog, study_id, *staffed_research_station, *scholar_alive, *labor_minutes);
                r
            },
            ResearchCommandKind::PerformGodLabor { staffed_research_station, scholar_alive, labor_minutes } => {
                let r = self.perform_god_labor(catalog, *staffed_research_station, *scholar_alive, *labor_minutes);
                r
            },
            ResearchCommandKind::RemoveGodTarget { study_id } => {
                let r = self.remove_god_target(catalog, study_id);
                r
            },
            ResearchCommandKind::ReorderGodTarget { study_id, before_study_id } => {
                let r = self.reorder_god_target(catalog, study_id, before_study_id.as_ref());
                r
            },
            ResearchCommandKind::CompleteLeader { study_id, effective_loremaster_level, now_tick, duplicate_permit } => {
                let r = self.complete_leader(
                    catalog,
                    &command.id,
                    study_id,
                    *effective_loremaster_level,
                    *now_tick,
                    duplicate_permit,
                );
                r
            },
        }
    }
}

/// Two command kinds ask for the same thing.
pub open spec fn same_command_kind(x: ResearchCommandKind, y: ResearchCommandKind) -> bool {
    match (x, y) {
        (ResearchCommandKind::QueueGodPath { target: a }, ResearchCommandKind::QueueGodPath { target: b }) => a@ == b@,
        (
            ResearchCommandKind::FundGodFront { consume_preparation: a },
            ResearchCommandKind::FundGodFront { consume_preparation: b },
        ) => a == b,
        (ResearchCommandKind::RequestPreparation { study_id: a }, ResearchCommandKind::RequestPreparation { study_id: b }) =>
            a@ == b@,
        (
            ResearchCommandKind::PerformPreparation {
                study_id: a,
                staffed_research_station: s1,
                scholar_alive: l1,
                labor_minutes: m1,
            },
            ResearchCommandKind::PerformPreparation {
                study_id: b,
                staffed_research_station: s2,
                scholar_alive: l2,
                labor_minutes: m2,
            },
        ) => a@ == b@ && s1 == s2 && l1 == l2 && m1 == m2,
        (
            ResearchCommandKind::PerformGodLabor { staffed_research_station: s1, scholar_alive: l1, labor_minutes: m1 },
            ResearchCommandKind::PerformGodLabor { staffed_research_station: s2, scholar_alive: l2, labor_minutes: m2 },
        ) => s1 == s2 && l1 == l2 && m1 == m2,
        (ResearchCommandKind::RemoveGodTarget { study_id: a }, ResearchCommandKind::RemoveGodTarget { study_id: b }) =>
            a@ == b@,
        (
            ResearchCommandKind::ReorderGodTarget { study_id: a, before_study_id: p },
            ResearchCommandKind::ReorderGodTarget { study_id: b, before_study_id: q },
        ) => a@ == b@ && match (p, q) {
            (Some(x), Some(y)) => x@ == y@,
            (None, None) => true,
            _ => false,
        },
        (
            ResearchCommandKind::CompleteLeader {
                study_id: a,
                effective_loremaster_level: l1,
                now_tick: t1,
                duplicate_permit: p1,
            },
            ResearchCommandKind::CompleteLeader {
                study_id: b,
                effective_loremaster_level: l2,
                now_tick: t2,
                duplicate_permit: p2,
            },
        ) => a@ == b@ && l1 == l2 && t1 == t2 && p1 == p2,
        _ => false,
    }
}

/// Two commands say the same thing.
pub open spec fn same_command(x: ResearchCommand, y: ResearchCommand) -> bool {
    &&& x.id@ == y.id@
    &&& x.expected_version == y.expected_version
    &&& same_command_kind(x.kind, y.kind)
}

fn same_study(a: &StudyId, b: &StudyId) -> (r: bool)
    ensures
        r == (a@ == b@),
{
    text_eq(a.as_str(), b.as_str())
}

fn commands_match(x: &ResearchCommand, y: &ResearchCommand) -> (r: bool)
    ensures
        r == same_command(*x, *y),
{
    if !text_eq(x.id.as_str(), y.id.as_str()) || x.expected_version != y.expected_version {
        return false;
    }
    match (&x.kind, &y.kind) {
        (ResearchCommandKind::QueueGodPath { target: a }, ResearchCommandKind::QueueGodPath { target: b }) => same_study(a, b),
        (
            ResearchCommandKind::FundGodFront { consume_preparation: a },
            ResearchCommandKind::FundGodFront { consume_preparation: b },
        ) => *a == *b,
        (ResearchCommandKind::RequestPreparation { study_id: a }, ResearchCommandKind::RequestPreparation { study_id: b }) =>
            same_study(a, b),
        (
            ResearchCommandKind::PerformPreparation {
                study_id: a,
                staffed_research_station: s1,
                scholar_alive: l1,
                labor_minutes: m1,
            },
            ResearchCommandKind::PerformPreparation {
                study_id: b,
                staffed_research_station: s2,
                scholar_alive: l2,
                labor_minutes: m2,
            },
        ) => same_study(a, b) && *s1 == *s2 && *l1 == *l2 && *m1 == *m2,
        (
            ResearchCommandKind::PerformGodLabor { staffed_research_station: s1, scholar_alive: l1, labor_minutes: m1 },
            ResearchCommandKind::PerformGodLabor { staffed_research_station: s2, scholar_alive: l2, labor_minutes: m2 },
        ) => *s1 == *s2 && *l1 == *l2 && *m1 == *m2,
        (ResearchCommandKind::RemoveGodTarget { study_id: a }, ResearchCommandKind::RemoveGodTarget { study_id: b }) =>
            same_study(a, b),
        (
            ResearchCommandKind::ReorderGodTarget { study_id: a, before_study_id: p },
            ResearchCommandKind::ReorderGodTarget { study_id: b, before_study_id: q },
        ) => same_study(a, b) && match (p, q) {
            (Some(u), Some(v)) => same_study(u, v),
            (None, None) => true,
            _ => false,
        },
        (
            ResearchCommandKind::CompleteLeader {
                study_id: a,
                effective_loremaster_level: l1,
                now_tick: t1,
                duplicate_permit: p1,
            },
            ResearchCommandKind::CompleteLeader {
                study_id: b,
                effective_loremaster_level: l2,
                now_tick: t2,
                duplicate_permit: p2,
            },
        ) => same_study(a, b) && *l1 == *l2 && *t1 == *t2 && *p1 == *p2,
        _ => false,
    }
}

/// `next` is `mid` committed under `receipt`: one version later, with the receipt kept.
pub open spec fn committed_with(mid: ResearchAuthority, next: ResearchAuthority, receipt: ResearchReceipt) -> bool {
    &&& next.version == mid.version + 1
    &&& receipt.committed_version == next.version
    &&& next.receipts.map() == mid.receipts.map().insert(receipt.command.id@, receipt)
    &&& authority_maps_wf(next)
    &&& next.schema_version == mid.schema_version
    &&& next.colony_id == mid.colony_id
    &&& same_notes(next.notes, mid.notes)
    &&& same_void(next.void, mid.void)
    &&& next.owned_finite@ == mid.owned_finite@
    &&& next.repeatable_completions@ == mid.repeatable_completions@
    &&& next.next_queue_sequence == mid.next_queue_sequence
    &&& next.god_queue@ == mid.god_queue@
    &&& next.preparations@ == mid.preparations@
    &&& next.leader_commits@ == mid.leader_commits@
}

/// What a new command does through `apply`, from a valid authority `a` to `f`.
pub open spec fn applied_new(
    a: ResearchAuthority,
    f: ResearchAuthority,
    catalog: &ProgressionCatalog,
    command: ResearchCommand,
    r: Result<ResearchReceipt, ResearchAuthorityError>,
) -> bool {
    exists|start: ResearchAuthority, mid: ResearchAuthority, out: Result<ResearchCommandOutcome, ResearchAuthorityError>|
        {
            &&& same_authority(start, a)
            &&& authority_maps_wf(start)
            &&& command_outcome(start, mid, catalog, command, out)
            &&& match out {
                Err(e) => r == Err::<ResearchReceipt, ResearchAuthorityError>(e),
                Ok(o) => {
                    let receipt = ResearchReceipt { command, outcome: o, committed_version: (mid.version + 1) as u64 };
                    if mid.version == u64::MAX {
                        r == Err::<ResearchReceipt, ResearchAuthorityError>(ResearchAuthorityError::ArithmeticOverflow)
                    } else {
                        ||| r == Ok::<ResearchReceipt, ResearchAuthorityError>(receipt) && committed_with(mid, f, receipt)
                            && authority_rules(f, catalog.views())
                        ||| r == Err::<ResearchReceipt, ResearchAuthorityError>(ResearchAuthorityError::MalformedPersistence)
                            && exists|next: ResearchAuthority|
                            committed_with(mid, next, receipt) && !authority_rules(next, catalog.views())
                    }
                },
            }
        }
}

/// What `apply` answers on authority `a`, leaving `f`: a malformed authority
/// is refused, a repeated command gets its first receipt back (or a conflict),
/// and a new one is checked for version and room before it is carried out.
pub open spec fn apply_outcome(
    a: ResearchAuthority,
    f: ResearchAuthority,
    catalog: &ProgressionCatalog,
    command: ResearchCommand,
    r: Result<ResearchReceipt, ResearchAuthorityError>,
) -> bool {
    let receipts = a.receipts.map();
    if !authority_rules(a, catalog.views()) {
        r == Err::<ResearchReceipt, ResearchAuthorityError>(ResearchAuthorityError::MalformedPersistence)
    } else if receipts.contains_key(command.id@) {
        if same_command(receipts[command.id@].command, command) {
            r == Ok::<ResearchReceipt, ResearchAuthorityError>(receipts[command.id@]) && f == a
        } else {
            r == Err::<ResearchReceipt, ResearchAuthorityError>(ResearchAuthorityError::IdempotencyConflict)
        }
    } else if command.expected_version != a.version {
        r == Err::<ResearchReceipt, ResearchAuthorityError>(ResearchAuthorityError::StaleVersion)
    } else if a.receipts@.len() >= MAX_RESEARCH_RECEIPTS {
        r == Err::<ResearchReceipt, ResearchAuthorityError>(ResearchAuthorityError::Backpressure)
    } else {
        applied_new(a, f, catalog, command, r)
    }
}

impl ResearchAuthority {
    /// Apply a command once: a repeated command gets its first receipt back,
    /// a new one is carried out on a copy that replaces the authority only
    /// when every step and the final validation succeed.
    pub fn apply(&mut self, catalog: &ProgressionCatalog, command: ResearchCommand) -> (r: Result<
        ResearchReceipt,
        ResearchAuthorityError,
    >)
        requires
            authority_maps_wf(*old(self)),
        ensures
            authority_maps_wf(*final(self)),
            r is Err ==> *final(self) == *old(self),
            apply_outcome(*old(self), *final(self), catalog, command, r),
    {
        if self.validate_against(catalog).is_err() {
            return Err(ResearchAuthorityError::MalformedPersistence);
        }
        match self.receipts.get(command.id.as_str()) {
            Some(receipt) => {
                if commands_match(&receipt.command, &command) {
                    return Ok(receipt.exact_copy());
                } else {
                    return Err(ResearchAuthorityError::IdempotencyConflict);
                }
            },
            None => {},
        }
        if command.expected_version != self.version {
            return Err(ResearchAuthorityError::StaleVersion);
        }
        if self.receipts.len() >= MAX_RESEARCH_RECEIPTS {
            return Err(ResearchAuthorityError::Backpressure);
        }
        let mut next = self.duplicate();
        let ghost start = next;
        proof {
            assert(authority_rules(start, catalog.views()));
        }
        let outcome = match next.apply_new(catalog, &command) {
            Ok(outcome) => outcome,
            Err(e) => {
                proof {
                    assert(command_outcome(start, next, catalog, command, Err::<ResearchCommandOutcome, ResearchAuthorityError>(e)));
                }
                return Err(e);
            },
        };
        let ghost mid = next;
        if next.version == u64::MAX {
            proof {
                assert(command_outcome(start, mid, catalog, command, Ok::<ResearchCommandOutcome, ResearchAuthorityError>(outcome)));
            }
            return Err(ResearchAuthorityError::ArithmeticOverflow);
        }
        next.version = next.version + 1;
        let receipt = ResearchReceipt { command: command.exact_copy(), outcome: outcome.exact_copy(), committed_version: next.version };
        let stored = receipt.exact_copy();
        next.receipts.insert(String::from_str(command.id.as_str()), stored);
        proof {
            assert(command_outcome(start, mid, catalog, command, Ok::<ResearchCommandOutcome, ResearchAuthorityError>(outcome)));
            assert(committed_with(mid, next, receipt));
        }
        if next.validate_against(catalog).is_err() {
            return Err(ResearchAuthorityError::MalformedPersistence);
        }
        *self = next;
        Ok(receipt)
    }
}


/// A command step that succeeds leaves the authority's version as it was;
/// only `apply` moves it.
proof fn lemma_command_keeps_version(
    a: ResearchAuthority,
    b: ResearchAuthority,
    catalog: &ProgressionCatalog,
    command: ResearchCommand,
    o: ResearchCommandOutcome,
)
    requires
        command_outcome(a, b, catalog, command, Ok::<ResearchCommandOutcome, ResearchAuthorityError>(o)),
    ensures
        b.version == a.version,
{
}

/// Law: a new command that `apply` carries out commits exactly one version,
/// the receipt names that version and the command, and the receipts gain
/// exactly that receipt under the command's identifier.
pub proof fn law_apply_commits_new_command(
    a: ResearchAuthority,
    f: ResearchAuthority,
    catalog: &ProgressionCatalog,
    command: ResearchCommand,
    receipt: ResearchReceipt,
)
    requires
        authority_maps_wf(a),
        !a.receipts.map().contains_key(command.id@),
        apply_outcome(a, f, catalog, command, Ok::<ResearchReceipt, ResearchAuthorityError>(receipt)),
    ensures
        f.version == a.version + 1,
        receipt.committed_version == f.version,
        receipt.command == command,
        f.receipts.map() == a.receipts.map().insert(command.id@, receipt),
{
    let (start, mid, out) = choose|start: ResearchAuthority, mid: ResearchAuthority, out: Result<ResearchCommandOutcome, ResearchAuthorityError>|
        {
            &&& same_authority(start, a)
            &&& authority_maps_wf(start)
            &&& command_outcome(start, mid, catalog, command, out)
            &&& match out {
                Err(e) => Ok::<ResearchReceipt, ResearchAuthorityError>(receipt) == Err::<ResearchReceipt, ResearchAuthorityError>(e),
                Ok(o) => {
                    let rc = ResearchReceipt { command, outcome: o, committed_version: (mid.version + 1) as u64 };
                    if mid.version == u64::MAX {
                        Ok::<ResearchReceipt, ResearchAuthorityError>(receipt) == Err::<ResearchReceipt, ResearchAuthorityError>(ResearchAuthorityError::ArithmeticOverflow)
                    } else {
                        ||| Ok::<ResearchReceipt, ResearchAuthorityError>(receipt) == Ok::<ResearchReceipt, ResearchAuthorityError>(rc) && committed_with(mid, f, rc)
                            && authority_rules(f, catalog.views())
                        ||| Ok::<ResearchReceipt, ResearchAuthorityError>(receipt) == Err::<ResearchReceipt, ResearchAuthorityError>(ResearchAuthorityError::MalformedPersistence)
                            && exists|next: ResearchAuthority|
                            committed_with(mid, next, rc) && !authority_rules(next, catalog.views())
                    }
                },
            }
        };
    let o = out->Ok_0;
    lemma_command_keeps_version(start, mid, catalog, command, o);
}

/// `report` shows the commit filed under its command id.
pub open spec fn shows_commit(report: LeaderResearchDecisionReport, commits: Map<Seq<char>, LeaderCommit>) -> bool {
    commits.contains_key(report.command_id@) && decision_report_is(report, (report.command_id@, commits[report.command_id@]))
}

/// Whether decision report `x` comes before `y`: earlier tick, then command id.
pub open spec fn decision_before(x: LeaderResearchDecisionReport, y: LeaderResearchDecisionReport) -> bool {
    x.committed_tick < y.committed_tick || (x.committed_tick == y.committed_tick && text_lt(x.command_id@, y.command_id@))
}

impl ResearchAuthority {
    /// The God queue entries in sequence order.
    pub fn report_god_queue(&self) -> (r: Vec<GodResearchQueueReport<'_>>)
        ensures
            r@.len() == self.god_queue@.len(),
            forall|i: int|
                0 <= i < r@.len() ==> {
                    let e = self.god_queue@[i];
                    &&& (#[trigger] r@[i]).sequence == e.sequence
                    &&& *r@[i].study_id == e.study_id
                    &&& r@[i].funding == funding_report(e.frozen)
                    &&& r@[i].staffed_labor_minutes == e.staffed_labor_minutes
                },
    {
        let mut r: Vec<GodResearchQueueReport<'_>> = Vec::new();
        let n = self.god_queue.len();
        let mut i: usize = 0;
        while i < n
            invariant
                n == self.god_queue@.len(),
                i <= n,
                r@.len() == i,
                forall|j: int|
                    0 <= j < i ==> {
                        let e = self.god_queue@[j];
                        &&& (#[trigger] r@[j]).sequence == e.sequence
                        &&& *r@[j].study_id == e.study_id
                        &&& r@[j].funding == funding_report(e.frozen)
                        &&& r@[j].staffed_labor_minutes == e.staffed_labor_minutes
                    },
            decreases n - i,
        {
            let entry = &self.god_queue[i];
            let funding = match &entry.frozen {
                Some(t) => GodResearchFundingReport::Frozen(t),
                None => GodResearchFundingReport::AwaitingFunding,
            };
            r.push(
                GodResearchQueueReport {
                    sequence: entry.sequence,
                    study_id: &entry.study_id,
                    funding,
                    staffed_labor_minutes: entry.staffed_labor_minutes,
                },
            );
            i = i + 1;
        }
        r
    }

    /// The preparations in study order, at most a page of them.
    pub fn report_preparations(&self) -> (r: ResearchReportPage<ResearchPreparationStatusReport<'_>>)
        ensures
            r.truncated == (self.preparations@.len() > MAX_RESEARCH_REPORT_PREPARATIONS),
            r.entries@.len() == if self.preparations@.len() > MAX_RESEARCH_REPORT_PREPARATIONS {
                MAX_RESEARCH_REPORT_PREPARATIONS as int
            } else {
                self.preparations@.len() as int
            },
            forall|i: int|
                0 <= i < r.entries@.len() ==> {
                    let p = self.preparations@[i].1;
                    &&& *(#[trigger] r.entries@[i]).study_id == p.study_id
                    &&& r.entries@[i].required_labor_minutes == p.required_labor_minutes
                    &&& r.entries@[i].completed_labor_minutes == p.completed_labor_minutes
                },
    {
        let n = self.preparations.len();
        let truncated = n > MAX_RESEARCH_REPORT_PREPARATIONS;
        let take = if truncated {
            MAX_RESEARCH_REPORT_PREPARATIONS
        } else {
            n
        };
        let mut entries: Vec<ResearchPreparationStatusReport<'_>> = Vec::new();
        let mut i: usize = 0;
        while i < take
            invariant
                n == self.preparations@.len(),
                take <= n,
                i <= take,
                entries@.len() == i,
                forall|j: int|
                    0 <= j < i ==> {
                        let p = self.preparations@[j].1;
                        &&& *(#[trigger] entries@[j]).study_id == p.study_id
                        &&& entries@[j].required_labor_minutes == p.required_labor_minutes
                        &&& entries@[j].completed_labor_minutes == p.completed_labor_minutes
                    },
            decreases take - i,
        {
            let state = self.preparations.value_at(i);
            entries.push(
                ResearchPreparationStatusReport {
                    study_id: &state.study_id,
                    required_labor_minutes: state.required_labor_minutes,
                    completed_labor_minutes: state.completed_labor_minutes,
                },
            );
            i = i + 1;
        }
        ResearchReportPage { entries, truncated }
    }

    /// What the Leader's reports may know: balances, owned studies, the queue
    /// and the preparations, without worker identity or receipts.
    pub fn report_safe_projection(&self) -> (r: ResearchReportProjection)
        ensures
            r.version == self.version,
            r.notes_balance == self.notes.balance,
            r.void_balance == self.void.balance,
            r.owned_finite@.len() == self.owned_finite@.len(),
            forall|i: int| 0 <= i < r.owned_finite@.len() ==> (#[trigger] r.owned_finite@[i])@ == self.owned_finite@[i].0,
            r.god_queue@.len() == self.god_queue@.len(),
            forall|i: int|
                0 <= i < r.god_queue@.len() ==> {
                    let e = self.god_queue@[i];
                    &&& (#[trigger] r.god_queue@[i]).study_id == e.study_id
                    &&& r.god_queue@[i].frozen == e.frozen is Some
                    &&& r.god_queue@[i].staffed_labor_minutes == e.staffed_labor_minutes
                },
            r.preparations@.len() == self.preparations@.len(),
            forall|i: int|
                0 <= i < r.preparations@.len() ==> {
                    let p = self.preparations@[i].1;
                    &&& (#[trigger] r.preparations@[i]).study_id == p.study_id
                    &&& r.preparations@[i].required_labor_minutes == p.required_labor_minutes
                    &&& r.preparations@[i].completed_labor_minutes == p.completed_labor_minutes
                },
    {
        let mut owned_finite: Vec<StudyId> = Vec::new();
        let mut i: usize = 0;
        while i < self.owned_finite.len()
            invariant
                i <= self.owned_finite@.len(),
                owned_finite@.len() == i,
                forall|j: int| 0 <= j < i ==> (#[trigger] owned_finite@[j])@ == self.owned_finite@[j].0,
            decreases self.owned_finite@.len() - i,
        {
            owned_finite.push(StudyId::from_key(self.owned_finite.key_at(i).as_str()));
            i = i + 1;
        }
        let mut god_queue: Vec<ResearchQueueReport> = Vec::new();
        let mut i: usize = 0;
        while i < self.god_queue.len()
            invariant
                i <= self.god_queue@.len(),
                god_queue@.len() == i,
                forall|j: int|
                    0 <= j < i ==> {
                        let e = self.god_queue@[j];
                        &&& (#[trigger] god_queue@[j]).study_id == e.study_id
                        &&& god_queue@[j].frozen == e.frozen is Some
                        &&& god_queue@[j].staffed_labor_minutes == e.staffed_labor_minutes
                    },
            decreases self.god_queue@.len() - i,
        {
            let entry = &self.god_queue[i];
            god_queue.push(
                ResearchQueueReport {
                    study_id: entry.study_id.duplicate(),
                    frozen: entry.frozen.is_some(),
                    staffed_labor_minutes: entry.staffed_labor_minutes,
                },
            );
            i = i + 1;
        }
        let mut preparations: Vec<PreparationReport> = Vec::new();
        let mut i: usize = 0;
        while i < self.preparations.len()
            invariant
                i <= self.preparations@.len(),
                preparations@.len() == i,
                forall|j: int|
                    0 <= j < i ==> {
                        let p = self.preparations@[j].1;
                        &&& (#[trigger] preparations@[j]).study_id == p.study_id
                        &&& preparations@[j].required_labor_minutes == p.required_labor_minutes
                        &&& preparations@[j].completed_labor_minutes == p.completed_labor_minutes
                    },
            decreases self.preparations@.len() - i,
        {
            let state = self.preparations.value_at(i);
            preparations.push(
                PreparationReport {
                    study_id: state.study_id.duplicate(),
                    required_labor_minutes: state.required_labor_minutes,
                    completed_labor_minutes: state.completed_labor_minutes,
                },
            );
            i = i + 1;
        }
        ResearchReportProjection {
            version: self.version,
            notes_balance: self.notes.balance,
            void_balance: self.void.balance,
            owned_finite,
            god_queue,
            preparations,
        }
    }

    /// The Leader's decisions ordered by committed tick, then command id.
    pub fn report_leader_decisions(&self) -> (r: Vec<LeaderResearchDecisionReport<'_>>)
        requires
            self.leader_commits.wf(),
        ensures
            r@.len() == self.leader_commits@.len(),
            forall|i: int, j: int| 0 <= i < j < r@.len() ==> decision_before(#[trigger] r@[i], #[trigger] r@[j]),
            forall|i: int| 0 <= i < r@.len() ==> shows_commit(#[trigger] r@[i], self.leader_commits.map()),
    {
        let ghost commits = self.leader_commits@;
        let mut r: Vec<LeaderResearchDecisionReport<'_>> = Vec::new();
        let n = self.leader_commits.len();
        let mut k: usize = 0;
        while k < n
            invariant
                n == commits.len(),
                commits == self.leader_commits@,
                crate::id_map::keys_sorted(commits),
                k <= n,
                r@.len() == k,
                forall|i: int, j: int| 0 <= i < j < r@.len() ==> decision_before(#[trigger] r@[i], #[trigger] r@[j]),
                forall|i: int| 0 <= i < r@.len() ==> shows_commit(#[trigger] r@[i], self.leader_commits.map()),
                forall|i: int| #![trigger r@[i]] 0 <= i < r@.len() ==> exists|m: int| 0 <= m < k && r@[i].command_id@ == #[trigger] commits[m].0,
            decreases n - k,
        {
            let commit = self.leader_commits.value_at(k);
            let report = LeaderResearchDecisionReport {
                command_id: self.leader_commits.key_at(k).as_str(),
                study_id: &commit.study_id,
                committed_tick: commit.committed_tick,
                effective_loremaster_level: commit.effective_loremaster_level,
                duplicate_authorization: commit.duplicate_authorization,
            };
            let ghost before = r@;
            proof {
                assert forall|i: int| 0 <= i < before.len() implies text_lt((#[trigger] before[i]).command_id@, report.command_id@) by {
                    let m = choose|m: int| 0 <= m < k && before[i].command_id@ == #[trigger] commits[m].0;
                    assert(text_lt(commits[m].0, commits[k as int].0));
                }
                crate::id_map::lemma_lookup_at(commits, k as int);
                assert(shows_commit(report, self.leader_commits.map()));
            }
            let pos = insert_decision(&mut r, report);
            proof {
                assert forall|i: int| 0 <= i < r@.len() implies shows_commit(#[trigger] r@[i], self.leader_commits.map()) by {
                    if i < pos {
                        assert(r@[i] == before[i]);
                    } else if i > pos {
                        assert(r@[i] == before[i - 1]);
                    }
                }
                assert forall|i: int| #![trigger r@[i]] 0 <= i < r@.len() implies exists|m: int| 0 <= m < k + 1 && r@[i].command_id@ == #[trigger] commits[m].0 by {
                    if i < pos {
                        assert(r@[i] == before[i]);
                    } else if i > pos {
                        assert(r@[i] == before[i - 1]);
                    } else {
                        assert(r@[i].command_id@ == commits[k as int].0);
                    }
                }
            }
            k = k + 1;
        }
        r
    }
}

/// Insert `report` after every decision of an earlier or equal tick; every
/// decision already there has a smaller command id.
fn insert_decision<'a>(r: &mut Vec<LeaderResearchDecisionReport<'a>>, report: LeaderResearchDecisionReport<'a>) -> (pos: usize)
    requires
        forall|i: int, j: int| 0 <= i < j < old(r)@.len() ==> decision_before(#[trigger] old(r)@[i], #[trigger] old(r)@[j]),
        forall|i: int| 0 <= i < old(r)@.len() ==> text_lt((#[trigger] old(r)@[i]).command_id@, report.command_id@),
    ensures
        pos <= old(r)@.len(),
        final(r)@ == old(r)@.insert(pos as int, report),
        forall|i: int, j: int| 0 <= i < j < final(r)@.len() ==> decision_before(#[trigger] final(r)@[i], #[trigger] final(r)@[j]),
{
    let ghost before = r@;
    let mut pos: usize = 0;
    while pos < r.len() && r[pos].committed_tick <= report.committed_tick
        invariant
            before == r@,
            pos <= r@.len(),
            forall|i: int| 0 <= i < pos ==> (#[trigger] r@[i]).committed_tick <= report.committed_tick,
        decreases r@.len() - pos,
    {
        pos = pos + 1;
    }
    proof {
        assert forall|i: int| pos <= i < before.len() implies (#[trigger] before[i]).committed_tick > report.committed_tick by {
            assert(before[pos as int].committed_tick > report.committed_tick);
            if i > pos {
                assert(decision_before(before[pos as int], before[i]));
            }
        }
    }
    r.insert(pos, report);
    proof {
        assert(r@ =~= before.insert(pos as int, report));
        assert forall|i: int, j: int| 0 <= i < j < r@.len() implies decision_before(#[trigger] r@[i], #[trigger] r@[j]) by {
            if j < pos {
                assert(r@[i] == before[i] && r@[j] == before[j]);
            } else if j == pos {
                assert(r@[i] == before[i]);
            } else if i < pos {
                assert(r@[i] == before[i] && r@[j] == before[j - 1]);
            } else if i == pos {
                assert(r@[j] == before[j - 1]);
            } else {
                assert(r@[i] == before[i - 1] && r@[j] == before[j - 1]);
            }
        }
    }
    pos
}

} // verus!
