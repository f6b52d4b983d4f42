//! The colony's progression authority: owned studies, the Notes and Void
//! ledgers, scholar work orders and the claims each research lane holds.
use vstd::prelude::*;
use crate::id_map::{ExactCopy, IdMap, entries_map, lemma_entries_map_finite, lemma_lookup_all, lemma_lookup_at};
use crate::planner_core::{PlannerId, le_bytes_u64};
use crate::progression_research::{
    ColonyPartitionKey, CurrencyCommitOutcome, CurrencyEventId, FundedStudy, ResearchNotesSpendRequest, VoidDebitPurpose, VoidInsight, VoidSpendRequest, debit_receipt, GodQueueClaim, KindView, LeaderDuplicateHook,
    LeaderDuplicateKind, LeaderTargetClaim, LeaderTargetDecision, PlayerPartitionKey, PreparationRecord,
    ProgressionCatalog, ProgressionError, RecipeCapabilityCheck, ResearchNotes, ResearchNotesLedger, ScholarAssignment, ScholarOrderId,
    ScholarTaskId, ScholarWorkId, ScholarWorkOrder, ScholarWorkPurpose, ScholarWorkStage, StudyCurrency, StudyId,
    StudyView, VoidInsightLedger, WorkRecoveryReason, WorkRelease, ResearchNotesCreditPayload, MAX_DRAIN_BATCH, MAX_ACTIVE_SCHOLAR_WORK, NOTES_MICRO_PER_WORK_MINUTE, MAX_LANE_CLAIMS, PROGRESSION_SCHEMA_VERSION,
    same_notes, same_void, scholar_id_text,
};
use crate::research_authority::{
    view_currency, FINGERPRINT_OFFSET_BASIS, fingerprint_field, fnv64_bytes, fnv64_field, fnv64_u64, lemma_fnv64_append,
};
use crate::text::text_eq;
use crate::research_manifest::strings_view;

verus! {

/// The colony's research progression: what it owns, its ledgers, its scholar
/// work, and which lane holds each study.
#[derive(Debug, PartialEq, Eq)]
pub struct ProgressionAuthority {
    pub schema_version: u32,
    pub partition: ColonyPartitionKey,
    pub version: u64,
    pub owned_studies: IdMap<()>,
    pub notes: ResearchNotesLedger,
    pub void: VoidInsightLedger,
    pub next_work_sequence: u64,
    pub retired_work_through: u64,
    /// The live work orders in increasing sequence order.
    pub work_orders: Vec<ScholarWorkOrder>,
    pub prepared: IdMap<PreparationRecord>,
    pub god_queued: IdMap<GodQueueClaim>,
    pub funded: IdMap<FundedStudy>,
    pub leader_targets: IdMap<LeaderTargetClaim>,
}

/// The maps a progression authority keeps are in identifier order.
pub open spec fn progression_maps_wf(a: ProgressionAuthority) -> bool {
    &&& a.owned_studies.wf()
    &&& a.notes.spends.wf()
    &&& a.void.spends.wf()
    &&& a.prepared.wf()
    &&& a.god_queued.wf()
    &&& a.funded.wf()
    &&& a.leader_targets.wf()
}

/// Two authorities hold the same state.
pub open spec fn same_progression(a: ProgressionAuthority, b: ProgressionAuthority) -> bool {
    &&& a.schema_version == b.schema_version
    &&& a.partition == b.partition
    &&& a.version == b.version
    &&& a.owned_studies@ == b.owned_studies@
    &&& same_notes(a.notes, b.notes)
    &&& same_void(a.void, b.void)
    &&& a.next_work_sequence == b.next_work_sequence
    &&& a.retired_work_through == b.retired_work_through
    &&& a.work_orders@ == b.work_orders@
    &&& a.prepared@ == b.prepared@
    &&& a.god_queued@ == b.god_queued@
    &&& a.funded@ == b.funded@
    &&& a.leader_targets@ == b.leader_targets@
}

impl ExactCopy for ScholarWorkId {
    fn exact_copy(&self) -> (r: Self) {
        ScholarWorkId { colony_id: self.colony_id.duplicate(), sequence: self.sequence }
    }
}

impl ExactCopy for ScholarAssignment {
    fn exact_copy(&self) -> (r: Self) {
        ScholarAssignment {
            scholar_id: self.scholar_id.duplicate(),
            tool_id: self.tool_id.duplicate(),
            station_id: self.station_id.duplicate(),
            location_id: self.location_id.duplicate(),
        }
    }
}

impl ExactCopy for ScholarWorkPurpose {
    fn exact_copy(&self) -> (r: Self) {
        match self {
            ScholarWorkPurpose::ProduceNotes { credit } => ScholarWorkPurpose::ProduceNotes { credit: *credit },
            ScholarWorkPurpose::PrepareStudy { study_id, player_id, frozen_base_cost, frozen_discount, frozen_payable } =>
                ScholarWorkPurpose::PrepareStudy {
                study_id: study_id.duplicate(),
                player_id: player_id.duplicate(),
                frozen_base_cost: *frozen_base_cost,
                frozen_discount: *frozen_discount,
                frozen_payable: *frozen_payable,
            },
            ScholarWorkPurpose::CompleteGodStudy { study_id } => ScholarWorkPurpose::CompleteGodStudy {
                study_id: study_id.duplicate(),
            },
        }
    }
}

impl ExactCopy for ScholarWorkOrder {
    fn exact_copy(&self) -> (r: Self) {
        ScholarWorkOrder {
            id: self.id.exact_copy(),
            order_id: self.order_id.duplicate(),
            task_id: self.task_id.duplicate(),
            assignment: self.assignment.exact_copy(),
            purpose: self.purpose.exact_copy(),
            required_work_minutes: self.required_work_minutes,
            progress_work_minutes: self.progress_work_minutes,
            stage: self.stage,
            request_fingerprint: self.request_fingerprint,
        }
    }
}

impl ExactCopy for PreparationRecord {
    fn exact_copy(&self) -> (r: Self) {
        PreparationRecord {
            study_id: self.study_id.duplicate(),
            player_id: self.player_id.duplicate(),
            completed_work_id: self.completed_work_id.exact_copy(),
            frozen_base_cost: self.frozen_base_cost,
            frozen_discount: self.frozen_discount,
            frozen_payable: self.frozen_payable,
        }
    }
}

fn copy_preparation(o: &Option<PreparationRecord>) -> (r: Option<PreparationRecord>)
    ensures
        r == *o,
{
    match o {
        Some(p) => Some(p.exact_copy()),
        None => None,
    }
}

impl ExactCopy for GodQueueClaim {
    fn exact_copy(&self) -> (r: Self) {
        GodQueueClaim {
            study_id: self.study_id.duplicate(),
            player_id: self.player_id.duplicate(),
            prepared_terms: copy_preparation(&self.prepared_terms),
        }
    }
}

impl ExactCopy for FundedStudy {
    fn exact_copy(&self) -> (r: Self) {
        FundedStudy {
            study_id: self.study_id.duplicate(),
            player_id: self.player_id.duplicate(),
            currency: self.currency,
            paid_micro: self.paid_micro,
            preparation_consumed: self.preparation_consumed,
            funding_event_id: self.funding_event_id.duplicate(),
        }
    }
}

fn copy_key(o: &Option<PlannerId>) -> (r: Option<PlannerId>)
    ensures
        r == *o,
{
    match o {
        Some(p) => Some(p.duplicate()),
        None => None,
    }
}

impl ExactCopy for LeaderTargetClaim {
    fn exact_copy(&self) -> (r: Self) {
        LeaderTargetClaim {
            study_id: self.study_id.duplicate(),
            duplicate_kind: self.duplicate_kind,
            decision_key: copy_key(&self.decision_key),
        }
    }
}

fn copy_orders(orders: &Vec<ScholarWorkOrder>) -> (r: Vec<ScholarWorkOrder>)
    ensures
        r@ == orders@,
{
    let mut r: Vec<ScholarWorkOrder> = Vec::new();
    let mut i: usize = 0;
    while i < orders.len()
        invariant
            i <= orders@.len(),
            r@ == orders@.take(i as int),
        decreases orders@.len() - i,
    {
        r.push(orders[i].exact_copy());
        assert(r@ =~= orders@.take(i + 1));
        i = i + 1;
    }
    assert(orders@.take(orders@.len() as int) =~= orders@);
    r
}

/// The bytes a work purpose contributes to its fingerprint.
pub open spec fn purpose_bytes(p: ScholarWorkPurpose) -> Seq<u8> {
    match p {
        ScholarWorkPurpose::ProduceNotes { credit } => fingerprint_field("notes"@) + le_bytes_u64(credit.0),
        ScholarWorkPurpose::PrepareStudy { study_id, player_id, frozen_base_cost, frozen_discount, frozen_payable } =>
            fingerprint_field("prepare"@) + fingerprint_field(study_id@) + fingerprint_field(player_id@) + le_bytes_u64(
            frozen_base_cost.0,
        ) + le_bytes_u64(frozen_discount.0) + le_bytes_u64(frozen_payable.0),
        ScholarWorkPurpose::CompleteGodStudy { study_id } => fingerprint_field("god_study"@) + fingerprint_field(
            study_id@,
        ),
    }
}

/// The fingerprint a work order's request carries.
pub open spec fn work_fingerprint_of(
    id: ScholarWorkId,
    assignment: ScholarAssignment,
    purpose: ScholarWorkPurpose,
    required_work_minutes: u64,
) -> u64 {
    fnv64_bytes(
        FINGERPRINT_OFFSET_BASIS,
        fingerprint_field(id.colony_id@) + le_bytes_u64(id.sequence) + fingerprint_field(assignment.scholar_id@)
            + fingerprint_field(assignment.tool_id@) + fingerprint_field(assignment.station_id@) + fingerprint_field(
            assignment.location_id@,
        ) + le_bytes_u64(required_work_minutes) + purpose_bytes(purpose),
    )
}

/// `h` is the fingerprint of `acc`, extended by a text field.
fn extend_field(h: u64, Ghost(acc): Ghost<Seq<u8>>, text: &str) -> (r: u64)
    requires
        h == fnv64_bytes(FINGERPRINT_OFFSET_BASIS, acc),
    ensures
        r == fnv64_bytes(FINGERPRINT_OFFSET_BASIS, acc + fingerprint_field(text@)),
{
    proof {
        lemma_fnv64_append(FINGERPRINT_OFFSET_BASIS, acc, fingerprint_field(text@));
    }
    fnv64_field(h, text)
}

/// `h` is the fingerprint of `acc`, extended by a number's bytes.
fn extend_u64(h: u64, Ghost(acc): Ghost<Seq<u8>>, value: u64) -> (r: u64)
    requires
        h == fnv64_bytes(FINGERPRINT_OFFSET_BASIS, acc),
    ensures
        r == fnv64_bytes(FINGERPRINT_OFFSET_BASIS, acc + le_bytes_u64(value)),
{
    proof {
        lemma_fnv64_append(FINGERPRINT_OFFSET_BASIS, acc, le_bytes_u64(value));
    }
    fnv64_u64(h, value)
}

/// The idempotency fingerprint of a scholar work request.
fn work_fingerprint(
    id: &ScholarWorkId,
    assignment: &ScholarAssignment,
    purpose: &ScholarWorkPurpose,
    required_work_minutes: u64,
) -> (r: u64)
    ensures
        r == work_fingerprint_of(*id, *assignment, *purpose, required_work_minutes),
{
    let ghost s0 = Seq::<u8>::empty();
    proof {
        assert(fnv64_bytes(FINGERPRINT_OFFSET_BASIS, s0) == FINGERPRINT_OFFSET_BASIS);
    }
    let h = extend_field(FINGERPRINT_OFFSET_BASIS, Ghost(s0), id.colony_id.as_str());
    let ghost s1 = s0 + fingerprint_field(id.colony_id@);
    let h = extend_u64(h, Ghost(s1), id.sequence);
    let ghost s2 = s1 + le_bytes_u64(id.sequence);
    let h = extend_field(h, Ghost(s2), assignment.scholar_id.as_str());
    let ghost s3 = s2 + fingerprint_field(assignment.scholar_id@);
    let h = extend_field(h, Ghost(s3), assignment.tool_id.as_str());
    let ghost s4 = s3 + fingerprint_field(assignment.tool_id@);
    let h = extend_field(h, Ghost(s4), assignment.station_id.as_str());
    let ghost s5 = s4 + fingerprint_field(assignment.station_id@);
    let h = extend_field(h, Ghost(s5), assignment.location_id.as_str());
    let ghost s6 = s5 + fingerprint_field(assignment.location_id@);
    let h = extend_u64(h, Ghost(s6), required_work_minutes);
    let ghost s7 = s6 + le_bytes_u64(required_work_minutes);
    let r = match purpose {
        ScholarWorkPurpose::ProduceNotes { credit } => {
            let h = extend_field(h, Ghost(s7), "notes");
            let ghost s8 = s7 + fingerprint_field("notes"@);
            let h = extend_u64(h, Ghost(s8), credit.0);
            proof {
                assert(s8 + le_bytes_u64(credit.0) =~= s7 + purpose_bytes(*purpose));
            }
            h
        },
        ScholarWorkPurpose::PrepareStudy { study_id, player_id, frozen_base_cost, frozen_discount, frozen_payable } => {
            let h = extend_field(h, Ghost(s7), "prepare");
            let ghost s8 = s7 + fingerprint_field("prepare"@);
            let h = extend_field(h, Ghost(s8), study_id.as_str());
            let ghost s9 = s8 + fingerprint_field(study_id@);
            let h = extend_field(h, Ghost(s9), player_id.as_str());
            let ghost s10 = s9 + fingerprint_field(player_id@);
            let h = extend_u64(h, Ghost(s10), frozen_base_cost.0);
            let ghost s11 = s10 + le_bytes_u64(frozen_base_cost.0);
            let h = extend_u64(h, Ghost(s11), frozen_discount.0);
            let ghost s12 = s11 + le_bytes_u64(frozen_discount.0);
            let h = extend_u64(h, Ghost(s12), frozen_payable.0);
            proof {
                assert(s12 + le_bytes_u64(frozen_payable.0) =~= s7 + purpose_bytes(*purpose));
            }
            h
        },
        ScholarWorkPurpose::CompleteGodStudy { study_id } => {
            let h = extend_field(h, Ghost(s7), "god_study");
            let ghost s8 = s7 + fingerprint_field("god_study"@);
            let h = extend_field(h, Ghost(s8), study_id.as_str());
            proof {
                assert(s8 + fingerprint_field(study_id@) =~= s7 + purpose_bytes(*purpose));
            }
            h
        },
    };
    proof {
        assert(s7 + purpose_bytes(*purpose) =~= fingerprint_field(id.colony_id@) + le_bytes_u64(id.sequence)
            + fingerprint_field(assignment.scholar_id@) + fingerprint_field(assignment.tool_id@) + fingerprint_field(
            assignment.station_id@,
        ) + fingerprint_field(assignment.location_id@) + le_bytes_u64(required_work_minutes) + purpose_bytes(*purpose));
    }
    r
}


/// A preparation record keeps its frozen terms and names an ordinary catalog study.
pub open spec fn preparation_ok(k: Seq<char>, rec: PreparationRecord, views: Map<Seq<char>, StudyView>) -> bool {
    &&& k == rec.study_id@
    &&& rec.frozen_base_cost.0 != 0
    &&& rec.frozen_discount.0 == rec.frozen_base_cost.0 / 4
    &&& rec.frozen_payable.0 == rec.frozen_base_cost.0 - rec.frozen_discount.0
    &&& views.contains_key(k)
    &&& views[k].kind is OrdinaryCapability
}

pub open spec fn god_claim_ok(k: Seq<char>, claim: GodQueueClaim, views: Map<Seq<char>, StudyView>) -> bool {
    k == claim.study_id@ && views.contains_key(k)
}

pub open spec fn funded_ok(k: Seq<char>, f: FundedStudy, views: Map<Seq<char>, StudyView>) -> bool {
    &&& k == f.study_id@
    &&& f.paid_micro != 0
    &&& views.contains_key(k)
    &&& view_currency(views[k].kind) == f.currency
}

pub open spec fn leader_claim_ok(k: Seq<char>, c: LeaderTargetClaim, views: Map<Seq<char>, StudyView>) -> bool {
    &&& k == c.study_id@
    &&& views.contains_key(k)
    &&& !(c.duplicate_kind == Some(LeaderDuplicateKind::KeyedOopsie) && c.decision_key is None)
}

/// How many lanes hold study `k`.
pub open spec fn lane_count(a: ProgressionAuthority, k: Seq<char>) -> int {
    (if a.owned_studies.map().contains_key(k) { 1int } else { 0 }) + (if a.prepared.map().contains_key(k) {
        1int
    } else {
        0
    }) + (if a.god_queued.map().contains_key(k) { 1int } else { 0 }) + (if a.funded.map().contains_key(k) {
        1int
    } else {
        0
    }) + (if a.leader_targets.map().contains_key(k) { 1int } else { 0 })
}

/// A study is held by one lane at most, or by two where a Leader override claims it.
pub open spec fn lanes_ok(a: ProgressionAuthority, k: Seq<char>) -> bool {
    lane_count(a, k) <= 1 || (lane_count(a, k) == 2 && a.leader_targets.map().contains_key(k)
        && a.leader_targets.map()[k].duplicate_kind is Some)
}

/// Live work order `i` holds the next sequence and a consistent request.
pub open spec fn work_order_ok(a: ProgressionAuthority, i: int) -> bool {
    let w = a.work_orders@[i];
    &&& w.id.sequence == a.retired_work_through + 1 + i
    &&& w.id.colony_id@ == a.partition.colony_id@
    &&& w.required_work_minutes != 0
    &&& w.progress_work_minutes <= w.required_work_minutes
    &&& (w.stage is Completed) == (w.progress_work_minutes == w.required_work_minutes)
    &&& w.order_id@ == scholar_id_text("progression_scholar_order"@, w.id)
    &&& w.task_id@ == scholar_id_text("progression_scholar_task"@, w.id)
    &&& w.request_fingerprint == work_fingerprint_of(w.id, w.assignment, w.purpose, w.required_work_minutes)
}

/// The persistence rules of a progression authority against a catalog.
pub open spec fn progression_rules(a: ProgressionAuthority, views: Map<Seq<char>, StudyView>) -> bool {
    let owned = a.owned_studies.map();
    let n = a.work_orders@.len();
    &&& a.schema_version == PROGRESSION_SCHEMA_VERSION
    &&& a.partition.colony_id@ == a.notes.partition.colony_id@
    &&& a.partition.colony_id@ == a.void.partition.colony_id@
    &&& n <= MAX_ACTIVE_SCHOLAR_WORK
    &&& a.prepared@.len() <= MAX_LANE_CLAIMS
    &&& a.god_queued@.len() <= MAX_LANE_CLAIMS
    &&& a.funded@.len() <= MAX_LANE_CLAIMS
    &&& a.leader_targets@.len() <= MAX_LANE_CLAIMS
    &&& a.next_work_sequence != 0
    &&& a.retired_work_through < a.next_work_sequence
    &&& a.notes.retired_work_through == a.retired_work_through
    &&& a.notes.valid()
    &&& a.void.valid()
    &&& n == a.next_work_sequence - 1 - a.retired_work_through
    &&& forall|i: int| 0 <= i < n ==> #[trigger] work_order_ok(a, i)
    &&& forall|k: Seq<char>|
        #[trigger] owned.contains_key(k) ==> views.contains_key(k) && views[k].prerequisites.subset_of(owned.dom())
    &&& forall|k: Seq<char>| #[trigger]
        a.prepared.map().contains_key(k) ==> preparation_ok(k, a.prepared.map()[k], views)
    &&& forall|k: Seq<char>| #[trigger]
        a.god_queued.map().contains_key(k) ==> god_claim_ok(k, a.god_queued.map()[k], views)
    &&& forall|k: Seq<char>| #[trigger] a.funded.map().contains_key(k) ==> funded_ok(k, a.funded.map()[k], views)
    &&& forall|k: Seq<char>| #[trigger]
        a.leader_targets.map().contains_key(k) ==> leader_claim_ok(k, a.leader_targets.map()[k], views)
    &&& forall|k: Seq<char>| #[trigger] views.contains_key(k) ==> lanes_ok(a, k)
}

/// Whether every key of `inner` is a key of `outer`.
fn keys_within(inner: &IdMap<()>, outer: &IdMap<()>) -> (r: bool)
    requires
        inner.wf(),
        outer.wf(),
    ensures
        r == inner.map().dom().subset_of(outer.map().dom()),
{
    let n = inner.len();
    let mut i: usize = 0;
    while i < n
        invariant
            n == inner@.len(),
            inner.wf(),
            outer.wf(),
            i <= n,
            forall|j: int| 0 <= j < i ==> outer.map().contains_key(#[trigger] inner@[j].0),
        decreases n - i,
    {
        if !outer.contains_key(inner.key_at(i).as_str()) {
            proof {
                lemma_lookup_at(inner@, i as int);
            }
            return false;
        }
        i = i + 1;
    }
    proof {
        assert forall|k: Seq<char>| inner.map().dom().contains(k) implies outer.map().dom().contains(k) by {
            let j = choose|j: int| 0 <= j < inner@.len() && #[trigger] inner@[j].0 == k;
        }
    }
    true
}

impl ProgressionAuthority {
    /// An identical copy.
    pub fn duplicate(&self) -> (r: Self)
        ensures
            same_progression(r, *self),
            r.partition == self.partition,
            progression_maps_wf(*self) ==> progression_maps_wf(r),
    {
        ProgressionAuthority {
            schema_version: self.schema_version,
            partition: ColonyPartitionKey { colony_id: self.partition.colony_id.duplicate() },
            version: self.version,
            owned_studies: self.owned_studies.copy_entries(),
            notes: self.notes.duplicate(),
            void: self.void.duplicate(),
            next_work_sequence: self.next_work_sequence,
            retired_work_through: self.retired_work_through,
            work_orders: copy_orders(&self.work_orders),
            prepared: self.prepared.copy_entries(),
            god_queued: self.god_queued.copy_entries(),
            funded: self.funded.copy_entries(),
            leader_targets: self.leader_targets.copy_entries(),
        }
    }

    fn owned_ok(&self, catalog: &ProgressionCatalog) -> (r: bool)
        requires
            self.owned_studies.wf(),
        ensures
            r == forall|k: Seq<char>| #[trigger]
                self.owned_studies.map().contains_key(k) ==> catalog.views().contains_key(k)
                    && catalog.views()[k].prerequisites.subset_of(self.owned_studies.map().dom()),
    {
        let n = self.owned_studies.len();
        let mut i: usize = 0;
        while i < n
            invariant
                n == self.owned_studies@.len(),
                self.owned_studies.wf(),
                i <= n,
                forall|j: int| 0 <= j < i ==> {
                    let k = #[trigger] self.owned_studies@[j].0;
                    catalog.views().contains_key(k) && catalog.views()[k].prerequisites.subset_of(
                        self.owned_studies.map().dom(),
                    )
                },
            decreases n - i,
        {
            let id = StudyId::from_key(self.owned_studies.key_at(i).as_str());
            proof {
                lemma_lookup_at(self.owned_studies@, i as int);
            }
            match catalog.study(&id) {
                Some(d) => {
                    if !keys_within(&d.prerequisites, &self.owned_studies) {
                        proof {
                            let k = self.owned_studies@[i as int].0;
                            assert(self.owned_studies.map().contains_key(k));
                            assert(!catalog.views()[k].prerequisites.subset_of(self.owned_studies.map().dom()));
                        }
                        return false;
                    }
                },
                None => {
                    proof {
                        let k = self.owned_studies@[i as int].0;
                        assert(self.owned_studies.map().contains_key(k));
                        assert(!catalog.views().contains_key(k));
                    }
                    return false;
                },
            }
            i = i + 1;
        }
        proof {
            assert forall|k: Seq<char>| #[trigger] self.owned_studies.map().contains_key(k) implies catalog.views().contains_key(k)
                && catalog.views()[k].prerequisites.subset_of(self.owned_studies.map().dom()) by {
                let j = choose|j: int| 0 <= j < self.owned_studies@.len() && #[trigger] self.owned_studies@[j].0 == k;
            }
        }
        true
    }

    fn preparations_ok(&self, catalog: &ProgressionCatalog) -> (r: bool)
        requires
            self.prepared.wf(),
        ensures
            r == forall|k: Seq<char>| #[trigger]
                self.prepared.map().contains_key(k) ==> preparation_ok(k, self.prepared.map()[k], catalog.views()),
    {
        let n = self.prepared.len();
        let mut i: usize = 0;
        while i < n
            invariant
                n == self.prepared@.len(),
                self.prepared.wf(),
                i <= n,
                forall|j: int| 0 <= j < i ==> preparation_ok(#[trigger] self.prepared@[j].0, self.prepared@[j].1, catalog.views()),
            decreases n - i,
        {
            let key = self.prepared.key_at(i);
            let rec = self.prepared.value_at(i);
            if !text_eq(key.as_str(), rec.study_id.as_str()) || rec.frozen_base_cost.0 == 0
                || rec.frozen_discount.0 != rec.frozen_base_cost.0 / 4
                || rec.frozen_payable.0 != rec.frozen_base_cost.0 - rec.frozen_discount.0 {
                proof {
                    lemma_lookup_at(self.prepared@, i as int);
                    let k = self.prepared@[i as int].0;
                    assert(self.prepared.map().contains_key(k));
                    assert(!preparation_ok(k, self.prepared.map()[k], catalog.views()));
                }
                return false;
            }
            match catalog.study(&rec.study_id) {
                Some(d) => {
                    if !d.kind.is_ordinary() {
                        proof {
                            lemma_lookup_at(self.prepared@, i as int);
                            let k = self.prepared@[i as int].0;
                            assert(self.prepared.map().contains_key(k));
                            assert(!preparation_ok(k, self.prepared.map()[k], catalog.views()));
                        }
                        return false;
                    }
                },
                None => {
                    proof {
                        lemma_lookup_at(self.prepared@, i as int);
                        let k = self.prepared@[i as int].0;
                        assert(self.prepared.map().contains_key(k));
                        assert(!preparation_ok(k, self.prepared.map()[k], catalog.views()));
                    }
                    return false;
                },
            }
            i = i + 1;
        }
        proof {
            lemma_lookup_all(self.prepared@);
            assert forall|k: Seq<char>| #[trigger] self.prepared.map().contains_key(k) implies preparation_ok(
                k,
                self.prepared.map()[k],
                catalog.views(),
            ) by {
                let j = choose|j: int| 0 <= j < self.prepared@.len() && #[trigger] self.prepared@[j].0 == k;
                lemma_lookup_at(self.prepared@, j);
            }
        }
        true
    }
}


impl ProgressionAuthority {
    fn god_claims_ok(&self, catalog: &ProgressionCatalog) -> (r: bool)
        requires
            self.god_queued.wf(),
        ensures
            r == forall|k: Seq<char>| #[trigger]
                self.god_queued.map().contains_key(k) ==> god_claim_ok(k, self.god_queued.map()[k], catalog.views()),
    {
        let n = self.god_queued.len();
        let mut i: usize = 0;
        while i < n
            invariant
                n == self.god_queued@.len(),
                self.god_queued.wf(),
                i <= n,
                forall|j: int| 0 <= j < i ==> god_claim_ok(#[trigger] self.god_queued@[j].0, self.god_queued@[j].1, catalog.views()),
            decreases n - i,
        {
            let key = self.god_queued.key_at(i);
            let claim = self.god_queued.value_at(i);
            if !text_eq(key.as_str(), claim.study_id.as_str()) || catalog.study(&claim.study_id).is_none() {
                proof {
                    lemma_lookup_at(self.god_queued@, i as int);
                    let k = self.god_queued@[i as int].0;
                    assert(self.god_queued.map().contains_key(k));
                    assert(!god_claim_ok(k, self.god_queued.map()[k], catalog.views()));
                }
                return false;
            }
            i = i + 1;
        }
        proof {
            assert forall|k: Seq<char>| #[trigger] self.god_queued.map().contains_key(k) implies god_claim_ok(
                k,
                self.god_queued.map()[k],
                catalog.views(),
            ) by {
                let j = choose|j: int| 0 <= j < self.god_queued@.len() && #[trigger] self.god_queued@[j].0 == k;
                lemma_lookup_at(self.god_queued@, j);
            }
        }
        true
    }

    fn funded_all_ok(&self, catalog: &ProgressionCatalog) -> (r: bool)
        requires
            self.funded.wf(),
        ensures
            r == forall|k: Seq<char>| #[trigger]
                self.funded.map().contains_key(k) ==> funded_ok(k, self.funded.map()[k], catalog.views()),
    {
        let n = self.funded.len();
        let mut i: usize = 0;
        while i < n
            invariant
                n == self.funded@.len(),
                self.funded.wf(),
                i <= n,
                forall|j: int| 0 <= j < i ==> funded_ok(#[trigger] self.funded@[j].0, self.funded@[j].1, catalog.views()),
            decreases n - i,
        {
            let key = self.funded.key_at(i);
            let f = self.funded.value_at(i);
            let currency_ok = match catalog.study(&f.study_id) {
                Some(d) => d.currency() == f.currency,
                None => false,
            };
            if !text_eq(key.as_str(), f.study_id.as_str()) || f.paid_micro == 0 || !currency_ok {
                proof {
                    lemma_lookup_at(self.funded@, i as int);
                    let k = self.funded@[i as int].0;
                    assert(self.funded.map().contains_key(k));
                    assert(!funded_ok(k, self.funded.map()[k], catalog.views()));
                }
                return false;
            }
            i = i + 1;
        }
        proof {
            assert forall|k: Seq<char>| #[trigger] self.funded.map().contains_key(k) implies funded_ok(
                k,
                self.funded.map()[k],
                catalog.views(),
            ) by {
                let j = choose|j: int| 0 <= j < self.funded@.len() && #[trigger] self.funded@[j].0 == k;
                lemma_lookup_at(self.funded@, j);
            }
        }
        true
    }

    fn leader_claims_ok(&self, catalog: &ProgressionCatalog) -> (r: bool)
        requires
            self.leader_targets.wf(),
        ensures
            r == forall|k: Seq<char>| #[trigger]
                self.leader_targets.map().contains_key(k) ==> leader_claim_ok(k, self.leader_targets.map()[k], catalog.views()),
    {
        let n = self.leader_targets.len();
        let mut i: usize = 0;
        while i < n
            invariant
                n == self.leader_targets@.len(),
                self.leader_targets.wf(),
                i <= n,
                forall|j: int| 0 <= j < i ==> leader_claim_ok(#[trigger] self.leader_targets@[j].0, self.leader_targets@[j].1, catalog.views()),
            decreases n - i,
        {
            let key = self.leader_targets.key_at(i);
            let c = self.leader_targets.value_at(i);
            let oopsie_without_key = match c.duplicate_kind {
                Some(LeaderDuplicateKind::KeyedOopsie) => c.decision_key.is_none(),
                _ => false,
            };
            if !text_eq(key.as_str(), c.study_id.as_str()) || catalog.study(&c.study_id).is_none() || oopsie_without_key {
                proof {
                    lemma_lookup_at(self.leader_targets@, i as int);
                    let k = self.leader_targets@[i as int].0;
                    assert(self.leader_targets.map().contains_key(k));
                    assert(!leader_claim_ok(k, self.leader_targets.map()[k], catalog.views()));
                }
                return false;
            }
            i = i + 1;
        }
        proof {
            assert forall|k: Seq<char>| #[trigger] self.leader_targets.map().contains_key(k) implies leader_claim_ok(
                k,
                self.leader_targets.map()[k],
                catalog.views(),
            ) by {
                let j = choose|j: int| 0 <= j < self.leader_targets@.len() && #[trigger] self.leader_targets@[j].0 == k;
                lemma_lookup_at(self.leader_targets@, j);
            }
        }
        true
    }

    /// Whether the live work orders are the contiguous, consistent requests the rules ask for.
    fn work_orders_ok(&self) -> (r: bool)
        requires
            self.retired_work_through < self.next_work_sequence,
            self.work_orders@.len() == self.next_work_sequence - 1 - self.retired_work_through,
        ensures
            r == forall|i: int| 0 <= i < self.work_orders@.len() ==> #[trigger] work_order_ok(*self, i),
    {
        let n = self.work_orders.len();
        let mut i: usize = 0;
        while i < n
            invariant
                n == self.work_orders@.len(),
                self.retired_work_through < self.next_work_sequence,
                n == self.next_work_sequence - 1 - self.retired_work_through,
                i <= n,
                forall|j: int| 0 <= j < i ==> #[trigger] work_order_ok(*self, j),
            decreases n - i,
        {
            let w = &self.work_orders[i];
            let expected = self.retired_work_through + 1 + i as u64;
            if w.id.sequence != expected || !text_eq(w.id.colony_id.as_str(), self.partition.colony_id.as_str())
                || w.required_work_minutes == 0 || w.progress_work_minutes > w.required_work_minutes {
                proof {
                    assert(!work_order_ok(*self, i as int));
                }
                return false;
            }
            let completed = match w.stage {
                ScholarWorkStage::Completed => true,
                _ => false,
            };
            if completed != (w.progress_work_minutes == w.required_work_minutes) {
                proof {
                    assert(!work_order_ok(*self, i as int));
                }
                return false;
            }
            let order_id = ScholarOrderId::derive(&w.id);
            let task_id = ScholarTaskId::derive(&w.id);
            if !text_eq(w.order_id.as_str(), order_id.as_str()) || !text_eq(w.task_id.as_str(), task_id.as_str())
                || w.request_fingerprint != work_fingerprint(&w.id, &w.assignment, &w.purpose, w.required_work_minutes) {
                proof {
                    assert(!work_order_ok(*self, i as int));
                }
                return false;
            }
            i = i + 1;
        }
        true
    }

    /// Whether each catalog study is held by the lanes the rules allow.
    fn lanes_all_ok(&self, catalog: &ProgressionCatalog) -> (r: bool)
        requires
            progression_maps_wf(*self),
        ensures
            r == forall|k: Seq<char>| #[trigger] catalog.views().contains_key(k) ==> lanes_ok(*self, k),
    {
        let studies = catalog.studies();
        let n = studies.len();
        let mut i: usize = 0;
        while i < n
            invariant
                n == studies@.len(),
                studies.wf(),
                studies.map().map_values(|d: crate::progression_research::StudyDefinition| crate::progression_research::study_view(d)) == catalog.views(),
                progression_maps_wf(*self),
                i <= n,
                forall|j: int| 0 <= j < i ==> lanes_ok(*self, #[trigger] studies@[j].0),
            decreases n - i,
        {
            let key = studies.key_at(i).as_str();
            let mut count: usize = 0;
            if self.owned_studies.contains_key(key) {
                count = count + 1;
            }
            if self.prepared.contains_key(key) {
                count = count + 1;
            }
            if self.god_queued.contains_key(key) {
                count = count + 1;
            }
            if self.funded.contains_key(key) {
                count = count + 1;
            }
            if self.leader_targets.contains_key(key) {
                count = count + 1;
            }
            let override_present = match self.leader_targets.get(key) {
                Some(claim) => claim.duplicate_kind.is_some(),
                None => false,
            };
            if count > 1 && !(count == 2 && override_present) {
                proof {
                    lemma_lookup_at(studies@, i as int);
                    assert(catalog.views().contains_key(studies@[i as int].0));
                }
                return false;
            }
            i = i + 1;
        }
        proof {
            assert forall|k: Seq<char>| #[trigger] catalog.views().contains_key(k) implies lanes_ok(*self, k) by {
                assert(studies.map().contains_key(k));
                let j = choose|j: int| 0 <= j < studies@.len() && #[trigger] studies@[j].0 == k;
            }
        }
        true
    }

    /// `Ok` exactly when the authority keeps its persistence rules against `catalog`.
    pub fn validate_against(&self, catalog: &ProgressionCatalog) -> (r: Result<(), ProgressionError>)
        requires
            progression_maps_wf(*self),
        ensures
            r is Ok <==> progression_rules(*self, catalog.views()),
            r is Err ==> r == Err::<(), ProgressionError>(ProgressionError::MalformedPersistence),
    {
        if self.schema_version != PROGRESSION_SCHEMA_VERSION
            || !text_eq(self.partition.colony_id.as_str(), self.notes.partition.colony_id.as_str())
            || !text_eq(self.partition.colony_id.as_str(), self.void.partition.colony_id.as_str())
            || self.work_orders.len() > MAX_ACTIVE_SCHOLAR_WORK || self.prepared.len() > MAX_LANE_CLAIMS
            || self.god_queued.len() > MAX_LANE_CLAIMS || self.funded.len() > MAX_LANE_CLAIMS
            || self.leader_targets.len() > MAX_LANE_CLAIMS || self.next_work_sequence == 0
            || self.retired_work_through >= self.next_work_sequence
            || self.notes.retired_work_through != self.retired_work_through {
            return Err(ProgressionError::MalformedPersistence);
        }
        if self.notes.validate().is_err() || self.void.validate().is_err() {
            return Err(ProgressionError::MalformedPersistence);
        }
        if self.work_orders.len() as u64 != self.next_work_sequence - 1 - self.retired_work_through {
            return Err(ProgressionError::MalformedPersistence);
        }
        if !self.owned_ok(catalog) || !self.work_orders_ok() || !self.preparations_ok(catalog) || !self.god_claims_ok(
            catalog,
        ) || !self.funded_all_ok(catalog) || !self.leader_claims_ok(catalog) || !self.lanes_all_ok(catalog) {
            return Err(ProgressionError::MalformedPersistence);
        }
        Ok(())
    }
}


/// Two authorities agree on everything the rules read; the rules do not read the version.
pub open spec fn progression_equiv(a: ProgressionAuthority, b: ProgressionAuthority) -> bool {
    &&& a.schema_version == b.schema_version
    &&& a.partition == b.partition
    &&& a.owned_studies.map() == b.owned_studies.map()
    &&& notes_equiv(a.notes, b.notes)
    &&& void_equiv(a.void, b.void)
    &&& a.next_work_sequence == b.next_work_sequence
    &&& a.retired_work_through == b.retired_work_through
    &&& orders_equiv(a.work_orders@, b.work_orders@)
    &&& a.prepared.map() == b.prepared.map()
    &&& a.god_queued.map() == b.god_queued.map()
    &&& a.funded.map() == b.funded.map()
    &&& a.leader_targets.map() == b.leader_targets.map()
}

/// Two work orders agree field by field, their derived ids by text.
pub open spec fn order_equiv(x: ScholarWorkOrder, y: ScholarWorkOrder) -> bool {
    &&& x.id == y.id
    &&& x.order_id@ == y.order_id@
    &&& x.task_id@ == y.task_id@
    &&& x.assignment == y.assignment
    &&& x.purpose == y.purpose
    &&& x.required_work_minutes == y.required_work_minutes
    &&& x.progress_work_minutes == y.progress_work_minutes
    &&& x.stage == y.stage
    &&& x.request_fingerprint == y.request_fingerprint
}

pub open spec fn orders_equiv(s: Seq<ScholarWorkOrder>, t: Seq<ScholarWorkOrder>) -> bool {
    s.len() == t.len() && forall|i: int| 0 <= i < s.len() ==> #[trigger] order_equiv(s[i], t[i])
}

/// Two Notes ledgers agree on every field and on their receipts.
pub open spec fn notes_equiv(a: ResearchNotesLedger, b: ResearchNotesLedger) -> bool {
    &&& a.schema_version == b.schema_version
    &&& a.partition == b.partition
    &&& a.version == b.version
    &&& a.balance == b.balance
    &&& a.retired_work_through == b.retired_work_through
    &&& a.spends.map() == b.spends.map()
}

/// Two Void ledgers agree on every field and on their receipts.
pub open spec fn void_equiv(a: VoidInsightLedger, b: VoidInsightLedger) -> bool {
    &&& a.schema_version == b.schema_version
    &&& a.partition == b.partition
    &&& a.version == b.version
    &&& a.balance == b.balance
    &&& a.credited_feed_through == b.credited_feed_through
    &&& a.spends.map() == b.spends.map()
}

/// Authorities that agree on what the rules read agree on the rules.
pub proof fn lemma_rules_determined(a: ProgressionAuthority, b: ProgressionAuthority, views: Map<Seq<char>, StudyView>)
    requires
        progression_maps_wf(a),
        progression_maps_wf(b),
        progression_equiv(a, b),
    ensures
        progression_rules(a, views) == progression_rules(b, views),
{
    crate::id_map::lemma_map_len(a.notes.spends@);
    crate::id_map::lemma_map_len(b.notes.spends@);
    crate::id_map::lemma_map_len(a.void.spends@);
    crate::id_map::lemma_map_len(b.void.spends@);
    crate::id_map::lemma_map_len(a.prepared@);
    crate::id_map::lemma_map_len(b.prepared@);
    crate::id_map::lemma_map_len(a.god_queued@);
    crate::id_map::lemma_map_len(b.god_queued@);
    crate::id_map::lemma_map_len(a.funded@);
    crate::id_map::lemma_map_len(b.funded@);
    crate::id_map::lemma_map_len(a.leader_targets@);
    crate::id_map::lemma_map_len(b.leader_targets@);
    assert forall|i: int| 0 <= i < a.work_orders@.len() implies work_order_ok(a, i) == work_order_ok(b, i) by {
        assert(order_equiv(a.work_orders@[i], b.work_orders@[i]));
    }
    assert forall|k: Seq<char>| lane_count(a, k) == lane_count(b, k) by {}
}

/// The capability an owned study grants, if it is an ordinary capability study.
pub open spec fn granted_by(k: Seq<char>, views: Map<Seq<char>, StudyView>) -> Set<Seq<char>> {
    Set::new(|c: Seq<char>| views.contains_key(k) && views[k].kind == (KindView::OrdinaryCapability { capability_id: c }))
}

/// The capabilities the owned studies grant.
pub open spec fn granted_capabilities(owned: Map<Seq<char>, ()>, views: Map<Seq<char>, StudyView>) -> Set<Seq<char>> {
    Set::new(|c: Seq<char>| exists|k: Seq<char>| #[trigger] owned.contains_key(k) && granted_by(k, views).contains(c))
}

/// The capabilities the first `i` owned entries grant.
pub open spec fn granted_prefix(s: Seq<(Seq<char>, ())>, i: int, views: Map<Seq<char>, StudyView>) -> Set<Seq<char>> {
    Set::new(|c: Seq<char>| exists|j: int| 0 <= j < i && #[trigger] granted_by(s[j].0, views).contains(c))
}

/// The lane conflict a new claim on `study_id` would make, if any.
pub open spec fn lane_taken(a: ProgressionAuthority, study_id: Seq<char>, allow_prepared: bool) -> bool {
    ||| a.owned_studies.map().contains_key(study_id)
    ||| !allow_prepared && a.prepared.map().contains_key(study_id)
    ||| a.god_queued.map().contains_key(study_id)
    ||| a.funded.map().contains_key(study_id)
    ||| a.leader_targets.map().contains_key(study_id)
}

/// What the Leader may do with `study_id` under `hook`.
pub open spec fn leader_decision_of(a: ProgressionAuthority, study_id: Seq<char>, hook: LeaderDuplicateHook) -> LeaderTargetDecision {
    let duplicate = a.prepared.map().contains_key(study_id) || a.god_queued.map().contains_key(study_id)
        || a.funded.map().contains_key(study_id);
    if a.owned_studies.map().contains_key(study_id) || a.leader_targets.map().contains_key(study_id) {
        LeaderTargetDecision::ChooseAnother
    } else if !duplicate {
        LeaderTargetDecision::Allowed
    } else {
        match hook {
            LeaderDuplicateHook::VillageCritical { report_marks_critical, needed_before_tick, estimated_god_completion_tick } =>
                if report_marks_critical && needed_before_tick < estimated_god_completion_tick {
                LeaderTargetDecision::VillageCriticalOverride
            } else {
                LeaderTargetDecision::ChooseAnother
            },
            LeaderDuplicateHook::KeyedOopsie { effective_level, keyed_roll_percent, .. } => if keyed_roll_percent
                < crate::research_authority::oopsie_percent_for(effective_level) {
                LeaderTargetDecision::KeyedOopsieOverride
            } else {
                LeaderTargetDecision::ChooseAnother
            },
            LeaderDuplicateHook::Absent => LeaderTargetDecision::ChooseAnother,
        }
    }
}

impl ProgressionAuthority {
    /// A fresh authority for a colony: nothing owned, empty ledgers, no work.
    pub fn new(colony_id: PlannerId) -> (r: Self)
        ensures
            r.schema_version == PROGRESSION_SCHEMA_VERSION,
            r.partition.colony_id == colony_id,
            r.version == 0,
            r.notes.partition.colony_id == colony_id,
            r.void.partition.colony_id == colony_id,
            r.notes.balance.0 == 0 && r.void.balance.0 == 0,
            r.notes.version == 0 && r.void.version == 0,
            r.notes.retired_work_through == 0,
            r.next_work_sequence == 1,
            r.retired_work_through == 0,
            r.work_orders@.len() == 0,
            progression_maps_wf(r),
            r.owned_studies.map().is_empty(),
            r.prepared.map().is_empty(),
            r.god_queued.map().is_empty(),
            r.funded.map().is_empty(),
            r.leader_targets.map().is_empty(),
    {
        ProgressionAuthority {
            schema_version: PROGRESSION_SCHEMA_VERSION,
            partition: ColonyPartitionKey { colony_id: colony_id.duplicate() },
            version: 0,
            owned_studies: IdMap::new(),
            notes: ResearchNotesLedger::new(colony_id.duplicate()),
            void: VoidInsightLedger::new(colony_id),
            next_work_sequence: 1,
            retired_work_through: 0,
            work_orders: Vec::new(),
            prepared: IdMap::new(),
            god_queued: IdMap::new(),
            funded: IdMap::new(),
            leader_targets: IdMap::new(),
        }
    }

    /// The capabilities the colony holds: its founding ones and those its owned ordinary studies grant.
    pub fn owned_capabilities(&self, catalog: &ProgressionCatalog) -> (r: IdMap<()>)
        requires
            self.owned_studies.wf(),
        ensures
            r.wf(),
            r.map().dom() == catalog.founding() + granted_capabilities(self.owned_studies.map(), catalog.views()),
    {
        let mut r: IdMap<()> = catalog.founding_capabilities().copy_entries();
        let ghost founding = catalog.founding();
        let ghost s = self.owned_studies@;
        let ghost views = catalog.views();
        proof {
            assert(granted_prefix(s, 0, views) =~= Set::<Seq<char>>::empty());
            assert(r.map().dom() =~= founding + granted_prefix(s, 0, views));
        }
        let n = self.owned_studies.len();
        let mut i: usize = 0;
        while i < n
            invariant
                n == s.len(),
                s == self.owned_studies@,
                views == catalog.views(),
                self.owned_studies.wf(),
                r.wf(),
                founding == catalog.founding(),
                i <= n,
                r.map().dom() == founding + granted_prefix(s, i as int, views),
            decreases n - i,
        {
            let id = StudyId::from_key(self.owned_studies.key_at(i).as_str());
            proof {
                assert(granted_prefix(s, i + 1, views) =~= granted_prefix(s, i as int, views) + granted_by(
                    s[i as int].0,
                    views,
                ));
            }
            match catalog.study(&id) {
                Some(d) => match &d.kind {
                    crate::progression_research::StudyKind::OrdinaryCapability { capability_id } => {
                        r.insert(String::from_str(capability_id.as_str()), ());
                        proof {
                            assert(granted_by(s[i as int].0, views) =~= set![capability_id@]);
                            assert(r.map().dom() =~= founding + granted_prefix(s, i + 1, views));
                        }
                    },
                    _ => {
                        proof {
                            assert(granted_by(s[i as int].0, views) =~= Set::<Seq<char>>::empty());
                            assert(r.map().dom() =~= founding + granted_prefix(s, i + 1, views));
                        }
                    },
                },
                None => {
                    proof {
                        assert(granted_by(s[i as int].0, views) =~= Set::<Seq<char>>::empty());
                        assert(r.map().dom() =~= founding + granted_prefix(s, i + 1, views));
                    }
                },
            }
            i = i + 1;
        }
        proof {
            lemma_lookup_all(s);
            assert forall|c: Seq<char>| #[trigger] granted_prefix(s, n as int, views).contains(c) == granted_capabilities(
                self.owned_studies.map(),
                views,
            ).contains(c) by {
                if granted_prefix(s, n as int, views).contains(c) {
                    let j = choose|j: int| 0 <= j < n && #[trigger] granted_by(s[j].0, views).contains(c);
                    lemma_lookup_at(s, j);
                    assert(self.owned_studies.map().contains_key(s[j].0));
                }
                if granted_capabilities(self.owned_studies.map(), views).contains(c) {
                    let k = choose|k: Seq<char>| #[trigger] self.owned_studies.map().contains_key(k) && granted_by(k, views).contains(c);
                    let j = choose|j: int| 0 <= j < n && #[trigger] s[j].0 == k;
                    assert(granted_by(s[j].0, views).contains(c));
                }
            }
            assert(granted_prefix(s, n as int, views) =~= granted_capabilities(self.owned_studies.map(), views));
        }
        r
    }

    /// What the Leader may do with `study_id` under `hook`.
    pub fn leader_target_decision(&self, study_id: &StudyId, hook: &LeaderDuplicateHook) -> (r: Result<
        LeaderTargetDecision,
        ProgressionError,
    >)
        requires
            progression_maps_wf(*self),
        ensures
            r == Ok::<LeaderTargetDecision, ProgressionError>(leader_decision_of(*self, study_id@, *hook)),
    {
        let key = study_id.as_str();
        let duplicate = self.prepared.contains_key(key) || self.god_queued.contains_key(key) || self.funded.contains_key(
            key,
        );
        if self.owned_studies.contains_key(key) || self.leader_targets.contains_key(key) {
            return Ok(LeaderTargetDecision::ChooseAnother);
        }
        if !duplicate {
            return Ok(LeaderTargetDecision::Allowed);
        }
        match hook {
            LeaderDuplicateHook::VillageCritical { report_marks_critical, needed_before_tick, estimated_god_completion_tick } => {
                if *report_marks_critical && *needed_before_tick < *estimated_god_completion_tick {
                    Ok(LeaderTargetDecision::VillageCriticalOverride)
                } else {
                    Ok(LeaderTargetDecision::ChooseAnother)
                }
            },
            LeaderDuplicateHook::KeyedOopsie { effective_level, keyed_roll_percent, .. } => {
                if *keyed_roll_percent < crate::research_authority::LeaderDuplicatePermit::oopsie_percent(*effective_level) {
                    Ok(LeaderTargetDecision::KeyedOopsieOverride)
                } else {
                    Ok(LeaderTargetDecision::ChooseAnother)
                }
            },
            LeaderDuplicateHook::Absent => Ok(LeaderTargetDecision::ChooseAnother),
        }
    }
}


/// `n` is `a` one version later with the lane maps replaced and everything else kept.
pub open spec fn lanes_next(
    a: ProgressionAuthority,
    n: ProgressionAuthority,
    owned: Map<Seq<char>, ()>,
    prepared: Map<Seq<char>, PreparationRecord>,
    god_queued: Map<Seq<char>, GodQueueClaim>,
    funded: Map<Seq<char>, FundedStudy>,
    leader_targets: Map<Seq<char>, LeaderTargetClaim>,
) -> bool {
    &&& progression_maps_wf(n)
    &&& n.schema_version == a.schema_version
    &&& n.partition == a.partition
    &&& n.version == a.version + 1
    &&& n.owned_studies.map() == owned
    &&& same_notes(n.notes, a.notes)
    &&& same_void(n.void, a.void)
    &&& n.next_work_sequence == a.next_work_sequence
    &&& n.retired_work_through == a.retired_work_through
    &&& n.work_orders@ == a.work_orders@
    &&& n.prepared.map() == prepared
    &&& n.god_queued.map() == god_queued
    &&& n.funded.map() == funded
    &&& n.leader_targets.map() == leader_targets
}

/// Whether replacing the lane maps keeps the rules.
pub open spec fn lanes_keep_rules(
    a: ProgressionAuthority,
    views: Map<Seq<char>, StudyView>,
    owned: Map<Seq<char>, ()>,
    prepared: Map<Seq<char>, PreparationRecord>,
    god_queued: Map<Seq<char>, GodQueueClaim>,
    funded: Map<Seq<char>, FundedStudy>,
    leader_targets: Map<Seq<char>, LeaderTargetClaim>,
) -> bool {
    exists|n: ProgressionAuthority|
        #[trigger] lanes_next(a, n, owned, prepared, god_queued, funded, leader_targets) && progression_rules(n, views)
}

impl ProgressionAuthority {
    /// Keep `next`, one version later, when it meets the rules; otherwise change nothing.
    fn commit_next(&mut self, next: ProgressionAuthority, catalog: &ProgressionCatalog) -> (r: Result<(), ProgressionError>)
        requires
            progression_maps_wf(*old(self)),
            progression_maps_wf(next),
        ensures
            progression_maps_wf(*final(self)),
            r is Err ==> *final(self) == *old(self),
            if next.version == u64::MAX {
                r == Err::<(), ProgressionError>(ProgressionError::ArithmeticOverflow)
            } else if progression_rules(next, catalog.views()) {
                &&& r is Ok
                &&& final(self).version == next.version + 1
                &&& final(self).schema_version == next.schema_version
                &&& final(self).partition == next.partition
                &&& final(self).owned_studies == next.owned_studies
                &&& final(self).notes == next.notes
                &&& final(self).void == next.void
                &&& final(self).next_work_sequence == next.next_work_sequence
                &&& final(self).retired_work_through == next.retired_work_through
                &&& final(self).work_orders == next.work_orders
                &&& final(self).prepared == next.prepared
                &&& final(self).god_queued == next.god_queued
                &&& final(self).funded == next.funded
                &&& final(self).leader_targets == next.leader_targets
            } else {
                r == Err::<(), ProgressionError>(ProgressionError::MalformedPersistence)
            },
    {
        let ghost given = next;
        let mut next = next;
        if next.version == u64::MAX {
            return Err(ProgressionError::ArithmeticOverflow);
        }
        next.version = next.version + 1;
        proof {
            lemma_rules_determined(next, given, catalog.views());
        }
        match next.validate_against(catalog) {
            Ok(()) => {},
            Err(e) => {
                return Err(e);
            },
        }
        *self = next;
        Ok(())
    }

    /// Complete a Leader target that no duplicate hold makes pending.
    pub fn complete_free_leader_target(&mut self, catalog: &ProgressionCatalog, study_id: &StudyId, expected_version: u64) -> (r:
        Result<(), ProgressionError>)
        requires
            progression_maps_wf(*old(self)),
        ensures
            progression_maps_wf(*final(self)),
            r is Err ==> *final(self) == *old(self),
            ({
                let a = *old(self);
                let id = study_id@;
                let leaders = a.leader_targets.map();
                let owned = a.owned_studies.map().insert(id, ());
                let remaining = leaders.remove(id);
                if expected_version != a.version {
                    r == Err::<(), ProgressionError>(ProgressionError::StaleVersion)
                } else if !leaders.contains_key(id) {
                    r == Err::<(), ProgressionError>(ProgressionError::StudyNotLeaderTargeted)
                } else if leaders[id].duplicate_kind is Some {
                    r == Err::<(), ProgressionError>(ProgressionError::DuplicateResolutionPending)
                } else if a.version == u64::MAX {
                    r == Err::<(), ProgressionError>(ProgressionError::ArithmeticOverflow)
                } else if lanes_keep_rules(a, catalog.views(), owned, a.prepared.map(), a.god_queued.map(), a.funded.map(), remaining) {
                    r is Ok && lanes_next(a, *final(self), owned, a.prepared.map(), a.god_queued.map(), a.funded.map(), remaining)
                } else {
                    r == Err::<(), ProgressionError>(ProgressionError::MalformedPersistence)
                }
            }),
    {
        if expected_version != self.version {
            return Err(ProgressionError::StaleVersion);
        }
        match self.leader_targets.get(study_id.as_str()) {
            Some(claim) => {
                if claim.duplicate_kind.is_some() {
                    return Err(ProgressionError::DuplicateResolutionPending);
                }
            },
            None => {
                return Err(ProgressionError::StudyNotLeaderTargeted);
            },
        }
        let ghost a = *self;
        let ghost views = catalog.views();
        let mut next = self.duplicate();
        next.leader_targets.remove(study_id.as_str());
        next.owned_studies.insert(String::from_str(study_id.as_str()), ());
        let ghost before_commit = next;
        let r = self.commit_next(next, catalog);
        proof {
            let owned = a.owned_studies.map().insert(study_id@, ());
            let remaining = a.leader_targets.map().remove(study_id@);
            if r is Ok {
                assert(lanes_next(a, *self, owned, a.prepared.map(), a.god_queued.map(), a.funded.map(), remaining));
                lemma_rules_determined(*self, before_commit, views);
            } else if a.version < u64::MAX {
                assert forall|n: ProgressionAuthority|
                    #[trigger] lanes_next(a, n, owned, a.prepared.map(), a.god_queued.map(), a.funded.map(), remaining)
                        implies !progression_rules(n, views) by {
                    assert(progression_equiv(n, before_commit));
                    lemma_rules_determined(n, before_commit, views);
                }
            }
        }
        r
    }
}


/// The hook a candidate is judged under: its own, or none.
pub open spec fn hook_for(hooks: Map<Seq<char>, LeaderDuplicateHook>, id: Seq<char>) -> LeaderDuplicateHook {
    if hooks.contains_key(id) {
        hooks[id]
    } else {
        LeaderDuplicateHook::Absent
    }
}

/// The claim a Leader target records for `hook`.
pub open spec fn leader_claim_for(study_id: StudyId, hook: LeaderDuplicateHook) -> LeaderTargetClaim {
    match hook {
        LeaderDuplicateHook::Absent => LeaderTargetClaim { study_id, duplicate_kind: None, decision_key: None },
        LeaderDuplicateHook::VillageCritical { .. } => LeaderTargetClaim {
            study_id,
            duplicate_kind: Some(LeaderDuplicateKind::VillageCritical),
            decision_key: None,
        },
        LeaderDuplicateHook::KeyedOopsie { decision_key, .. } => LeaderTargetClaim {
            study_id,
            duplicate_kind: Some(LeaderDuplicateKind::KeyedOopsie),
            decision_key: Some(decision_key),
        },
    }
}

impl ProgressionAuthority {
    /// The first candidate the Leader may take, with how it may take it.
    pub fn select_leader_target(&self, candidates: &Vec<StudyId>, hooks: &IdMap<LeaderDuplicateHook>) -> (r: Result<
        Option<(StudyId, LeaderTargetDecision)>,
        ProgressionError,
    >)
        requires
            progression_maps_wf(*self),
            hooks.wf(),
        ensures
            r is Ok,
            match r {
                Ok(Some((c, d))) => exists|i: int|
                    0 <= i < candidates@.len() && c == candidates@[i] && d == leader_decision_of(
                        *self,
                        candidates@[i]@,
                        hook_for(hooks.map(), candidates@[i]@),
                    ) && d != LeaderTargetDecision::ChooseAnother && forall|j: int|
                        0 <= j < i ==> #[trigger] leader_decision_of(*self, candidates@[j]@, hook_for(hooks.map(), candidates@[j]@))
                            == LeaderTargetDecision::ChooseAnother,
                Ok(None) => forall|j: int|
                    0 <= j < candidates@.len() ==> #[trigger] leader_decision_of(
                        *self,
                        candidates@[j]@,
                        hook_for(hooks.map(), candidates@[j]@),
                    ) == LeaderTargetDecision::ChooseAnother,
                Err(_) => false,
            },
    {
        let absent = LeaderDuplicateHook::Absent;
        let n = candidates.len();
        let mut i: usize = 0;
        while i < n
            invariant
                n == candidates@.len(),
                progression_maps_wf(*self),
                hooks.wf(),
                absent == LeaderDuplicateHook::Absent,
                i <= n,
                forall|j: int|
                    0 <= j < i ==> #[trigger] leader_decision_of(*self, candidates@[j]@, hook_for(hooks.map(), candidates@[j]@))
                        == LeaderTargetDecision::ChooseAnother,
            decreases n - i,
        {
            let candidate = &candidates[i];
            let hook = match hooks.get(candidate.as_str()) {
                Some(h) => h,
                None => &absent,
            };
            let decision = match self.leader_target_decision(candidate, hook) {
                Ok(d) => d,
                Err(e) => {
                    return Err(e);
                },
            };
            if decision != LeaderTargetDecision::ChooseAnother {
                return Ok(Some((candidate.duplicate(), decision)));
            }
            i = i + 1;
        }
        Ok(None)
    }

    /// Claim `study_id` for the Leader lane, where the lanes allow it.
    pub fn mark_leader_target(
        &mut self,
        catalog: &ProgressionCatalog,
        study_id: StudyId,
        hook: LeaderDuplicateHook,
        expected_version: u64,
    ) -> (r: Result<LeaderTargetDecision, ProgressionError>)
        requires
            progression_maps_wf(*old(self)),
        ensures
            progression_maps_wf(*final(self)),
            r is Err ==> *final(self) == *old(self),
            ({
                let a = *old(self);
                let views = catalog.views();
                let id = study_id@;
                let decision = leader_decision_of(a, id, hook);
                let leaders = a.leader_targets.map().insert(id, leader_claim_for(study_id, hook));
                if expected_version != a.version {
                    r == Err::<LeaderTargetDecision, ProgressionError>(ProgressionError::StaleVersion)
                } else if !views.contains_key(id) {
                    r == Err::<LeaderTargetDecision, ProgressionError>(ProgressionError::UnknownStudy)
                } else if !views[id].prerequisites.subset_of(a.owned_studies.map().dom()) {
                    r == Err::<LeaderTargetDecision, ProgressionError>(ProgressionError::PrerequisiteLocked)
                } else if decision == LeaderTargetDecision::ChooseAnother {
                    r == Err::<LeaderTargetDecision, ProgressionError>(ProgressionError::DuplicateLaneClaim)
                } else if a.version == u64::MAX {
                    r == Err::<LeaderTargetDecision, ProgressionError>(ProgressionError::ArithmeticOverflow)
                } else if lanes_keep_rules(a, views, a.owned_studies.map(), a.prepared.map(), a.god_queued.map(), a.funded.map(), leaders) {
                    r == Ok::<LeaderTargetDecision, ProgressionError>(decision) && lanes_next(
                        a,
                        *final(self),
                        a.owned_studies.map(),
                        a.prepared.map(),
                        a.god_queued.map(),
                        a.funded.map(),
                        leaders,
                    )
                } else {
                    r == Err::<LeaderTargetDecision, ProgressionError>(ProgressionError::MalformedPersistence)
                }
            }),
    {
        if expected_version != self.version {
            return Err(ProgressionError::StaleVersion);
        }
        let study = match catalog.study(&study_id) {
            Some(d) => d,
            None => {
                return Err(ProgressionError::UnknownStudy);
            },
        };
        if !keys_within(&study.prerequisites, &self.owned_studies) {
            return Err(ProgressionError::PrerequisiteLocked);
        }
        let decision = match self.leader_target_decision(&study_id, &hook) {
            Ok(d) => d,
            Err(e) => {
                return Err(e);
            },
        };
        if decision == LeaderTargetDecision::ChooseAnother {
            return Err(ProgressionError::DuplicateLaneClaim);
        }
        let ghost a = *self;
        let ghost views = catalog.views();
        let ghost claim = leader_claim_for(study_id, hook);
        let key = String::from_str(study_id.as_str());
        let (duplicate_kind, decision_key) = match hook {
            LeaderDuplicateHook::Absent => (None, None),
            LeaderDuplicateHook::VillageCritical { .. } => (Some(LeaderDuplicateKind::VillageCritical), None),
            LeaderDuplicateHook::KeyedOopsie { decision_key, .. } => (Some(LeaderDuplicateKind::KeyedOopsie), Some(decision_key)),
        };
        let mut next = self.duplicate();
        next.leader_targets.insert(key, LeaderTargetClaim { study_id, duplicate_kind, decision_key });
        let ghost before_commit = next;
        let r = self.commit_next(next, catalog);
        proof {
            let leaders = a.leader_targets.map().insert(claim.study_id@, claim);
            if r is Ok {
                assert(lanes_next(a, *self, a.owned_studies.map(), a.prepared.map(), a.god_queued.map(), a.funded.map(), leaders));
                lemma_rules_determined(*self, before_commit, views);
            } else if a.version < u64::MAX {
                assert forall|n: ProgressionAuthority|
                    #[trigger] lanes_next(a, n, a.owned_studies.map(), a.prepared.map(), a.god_queued.map(), a.funded.map(), leaders)
                        implies !progression_rules(n, views) by {
                    assert(progression_equiv(n, before_commit));
                    lemma_rules_determined(n, before_commit, views);
                }
            }
        }
        match r {
            Ok(()) => Ok(decision),
            Err(e) => Err(e),
        }
    }

    /// Queue `study_id` for the God lane under a player's claim, taking over that player's preparation.
    pub fn claim_god_queue(
        &mut self,
        catalog: &ProgressionCatalog,
        partition: PlayerPartitionKey,
        study_id: StudyId,
        expected_version: u64,
    ) -> (r: Result<(), ProgressionError>)
        requires
            progression_maps_wf(*old(self)),
        ensures
            progression_maps_wf(*final(self)),
            r is Err ==> *final(self) == *old(self),
            ({
                let a = *old(self);
                let views = catalog.views();
                let id = study_id@;
                let prepared = a.prepared.map();
                let terms = if prepared.contains_key(id) { Some(prepared[id]) } else { None };
                let claims = a.god_queued.map().insert(
                    id,
                    GodQueueClaim { study_id, player_id: partition.player_id, prepared_terms: terms },
                );
                if partition.colony_id@ != a.partition.colony_id@ {
                    r == Err::<(), ProgressionError>(ProgressionError::PartitionMismatch)
                } else if expected_version != a.version {
                    r == Err::<(), ProgressionError>(ProgressionError::StaleVersion)
                } else if lane_taken(a, id, true) {
                    r == Err::<(), ProgressionError>(ProgressionError::DuplicateLaneClaim)
                } else if !views.contains_key(id) {
                    r == Err::<(), ProgressionError>(ProgressionError::UnknownStudy)
                } else if !views[id].prerequisites.subset_of(a.owned_studies.map().dom()) {
                    r == Err::<(), ProgressionError>(ProgressionError::PrerequisiteLocked)
                } else if prepared.contains_key(id) && prepared[id].player_id@ != partition.player_id@ {
                    r == Err::<(), ProgressionError>(ProgressionError::PartitionMismatch)
                } else if a.version == u64::MAX {
                    r == Err::<(), ProgressionError>(ProgressionError::ArithmeticOverflow)
                } else if lanes_keep_rules(a, views, a.owned_studies.map(), prepared.remove(id), claims, a.funded.map(), a.leader_targets.map()) {
                    r is Ok && lanes_next(a, *final(self), a.owned_studies.map(), prepared.remove(id), claims, a.funded.map(), a.leader_targets.map())
                } else {
                    r == Err::<(), ProgressionError>(ProgressionError::MalformedPersistence)
                }
            }),
    {
        if !text_eq(partition.colony_id.as_str(), self.partition.colony_id.as_str()) {
            return Err(ProgressionError::PartitionMismatch);
        }
        if expected_version != self.version {
            return Err(ProgressionError::StaleVersion);
        }
        let key = study_id.as_str();
        if self.owned_studies.contains_key(key) || self.funded.contains_key(key) || self.god_queued.contains_key(key)
            || self.leader_targets.contains_key(key) {
            return Err(ProgressionError::DuplicateLaneClaim);
        }
        let study = match catalog.study(&study_id) {
            Some(d) => d,
            None => {
                return Err(ProgressionError::UnknownStudy);
            },
        };
        if !keys_within(&study.prerequisites, &self.owned_studies) {
            return Err(ProgressionError::PrerequisiteLocked);
        }
        let ghost a = *self;
        let ghost views = catalog.views();
        let mut next = self.duplicate();
        let prepared_terms = next.prepared.remove(study_id.as_str());
        let mismatch = match &prepared_terms {
            Some(p) => !text_eq(p.player_id.as_str(), partition.player_id.as_str()),
            None => false,
        };
        if mismatch {
            return Err(ProgressionError::PartitionMismatch);
        }
        let ghost claim = GodQueueClaim { study_id, player_id: partition.player_id, prepared_terms };
        let key = String::from_str(study_id.as_str());
        next.god_queued.insert(key, GodQueueClaim { study_id, player_id: partition.player_id, prepared_terms });
        let ghost before_commit = next;
        let r = self.commit_next(next, catalog);
        proof {
            let claims = a.god_queued.map().insert(claim.study_id@, claim);
            let remaining = a.prepared.map().remove(claim.study_id@);
            if r is Ok {
                assert(lanes_next(a, *self, a.owned_studies.map(), remaining, claims, a.funded.map(), a.leader_targets.map()));
                lemma_rules_determined(*self, before_commit, views);
            } else if a.version < u64::MAX {
                assert forall|n: ProgressionAuthority|
                    #[trigger] lanes_next(a, n, a.owned_studies.map(), remaining, claims, a.funded.map(), a.leader_targets.map())
                        implies !progression_rules(n, views) by {
                    assert(progression_equiv(n, before_commit));
                    lemma_rules_determined(n, before_commit, views);
                }
            }
        }
        r
    }
}


/// The idempotency fingerprint of the debit that funds a God study.
pub open spec fn funding_fingerprint_of(
    colony_id: Seq<char>,
    player_id: Seq<char>,
    study_id: Seq<char>,
    event_id: Seq<char>,
    preparation: Option<PreparationRecord>,
) -> u64 {
    fnv64_bytes(
        FINGERPRINT_OFFSET_BASIS,
        fingerprint_field(colony_id) + fingerprint_field(player_id) + fingerprint_field(study_id) + fingerprint_field(
            event_id,
        ) + match preparation {
            Some(p) => le_bytes_u64(p.completed_work_id.sequence) + le_bytes_u64(p.frozen_payable.0),
            None => Seq::<u8>::empty(),
        },
    )
}

fn funding_fingerprint(
    partition: &PlayerPartitionKey,
    study_id: &StudyId,
    event_id: &CurrencyEventId,
    preparation: &Option<PreparationRecord>,
) -> (r: u64)
    ensures
        r == funding_fingerprint_of(partition.colony_id@, partition.player_id@, study_id@, event_id@, *preparation),
{
    let ghost s0 = Seq::<u8>::empty();
    proof {
        assert(fnv64_bytes(FINGERPRINT_OFFSET_BASIS, s0) == FINGERPRINT_OFFSET_BASIS);
    }
    let h = extend_field(FINGERPRINT_OFFSET_BASIS, Ghost(s0), partition.colony_id.as_str());
    let ghost s1 = s0 + fingerprint_field(partition.colony_id@);
    let h = extend_field(h, Ghost(s1), partition.player_id.as_str());
    let ghost s2 = s1 + fingerprint_field(partition.player_id@);
    let h = extend_field(h, Ghost(s2), study_id.as_str());
    let ghost s3 = s2 + fingerprint_field(study_id@);
    let h = extend_field(h, Ghost(s3), event_id.as_str());
    let ghost s4 = s3 + fingerprint_field(event_id@);
    let r = match preparation {
        Some(p) => {
            let h = extend_u64(h, Ghost(s4), p.completed_work_id.sequence);
            let ghost s5 = s4 + le_bytes_u64(p.completed_work_id.sequence);
            let h = extend_u64(h, Ghost(s5), p.frozen_payable.0);
            proof {
                assert(s5 + le_bytes_u64(p.frozen_payable.0) =~= fingerprint_field(partition.colony_id@) + fingerprint_field(
                    partition.player_id@,
                ) + fingerprint_field(study_id@) + fingerprint_field(event_id@) + (le_bytes_u64(p.completed_work_id.sequence)
                    + le_bytes_u64(p.frozen_payable.0)));
            }
            h
        },
        None => {
            proof {
                assert(s4 =~= fingerprint_field(partition.colony_id@) + fingerprint_field(partition.player_id@)
                    + fingerprint_field(study_id@) + fingerprint_field(event_id@) + Seq::<u8>::empty());
            }
            h
        },
    };
    r
}

/// The amount a God study's funding debits.
pub open spec fn funding_amount(view: StudyView, terms: Option<PreparationRecord>) -> u64 {
    match terms {
        Some(t) => if view_currency(view.kind) == StudyCurrency::Notes {
            t.frozen_payable.0
        } else {
            view.cost_micro
        },
        None => view.cost_micro,
    }
}

/// The purpose a Void funding debit records.
pub open spec fn void_purpose_of(kind: KindView) -> VoidDebitPurpose {
    if kind is HoleAxis {
        VoidDebitPurpose::HoleStudy
    } else {
        VoidDebitPurpose::BoostStudy
    }
}

/// The Notes debit a funding makes.
pub open spec fn funding_notes_request(a: ProgressionAuthority, event: CurrencyEventId, amount: u64, fingerprint: u64) -> ResearchNotesSpendRequest {
    ResearchNotesSpendRequest { id: event, amount: ResearchNotes(amount), expected_version: a.notes.version, fingerprint }
}

/// The Void debit a funding makes.
pub open spec fn funding_void_request(
    a: ProgressionAuthority,
    event: CurrencyEventId,
    amount: u64,
    purpose: VoidDebitPurpose,
    fingerprint: u64,
) -> VoidSpendRequest {
    VoidSpendRequest { id: event, amount: VoidInsight(amount), purpose, expected_version: a.void.version, fingerprint }
}

/// `n` is `a` one version later with a study moved from the God queue to
/// funded and the ledger debit `debited` applied.
pub open spec fn funding_next(
    a: ProgressionAuthority,
    n: ProgressionAuthority,
    id: Seq<char>,
    funded: FundedStudy,
    notes_request: ResearchNotesSpendRequest,
    void_request: VoidSpendRequest,
    committed: bool,
) -> bool {
    &&& progression_maps_wf(n)
    &&& n.schema_version == a.schema_version
    &&& n.partition == a.partition
    &&& n.version == a.version + 1
    &&& n.owned_studies.map() == a.owned_studies.map()
    &&& n.next_work_sequence == a.next_work_sequence
    &&& n.retired_work_through == a.retired_work_through
    &&& n.work_orders@ == a.work_orders@
    &&& n.prepared.map() == a.prepared.map()
    &&& n.god_queued.map() == a.god_queued.map().remove(id)
    &&& n.funded.map() == a.funded.map().insert(id, funded)
    &&& n.leader_targets.map() == a.leader_targets.map()
    &&& if !committed {
        notes_equiv(n.notes, a.notes) && void_equiv(n.void, a.void)
    } else if funded.currency == StudyCurrency::Notes {
        &&& void_equiv(n.void, a.void)
        &&& n.notes.version == a.notes.version + 1
        &&& n.notes.balance.0 == a.notes.balance.0 - notes_request.amount.0
        &&& n.notes.spends.map() == a.notes.spends.map().insert(
            notes_request.id@,
            debit_receipt(notes_request.id, notes_request.amount.0, notes_request.fingerprint, None, (a.notes.version + 1) as u64),
        )
        &&& n.notes.schema_version == a.notes.schema_version
        &&& n.notes.partition == a.notes.partition
        &&& n.notes.retired_work_through == a.notes.retired_work_through
    } else {
        &&& notes_equiv(n.notes, a.notes)
        &&& n.void.version == a.void.version + 1
        &&& n.void.balance.0 == a.void.balance.0 - void_request.amount.0
        &&& n.void.spends.map() == a.void.spends.map().insert(
            void_request.id@,
            debit_receipt(
                void_request.id,
                void_request.amount.0,
                void_request.fingerprint,
                Some(void_request.purpose),
                (a.void.version + 1) as u64,
            ),
        )
        &&& n.void.schema_version == a.void.schema_version
        &&& n.void.partition == a.void.partition
        &&& n.void.credited_feed_through == a.void.credited_feed_through
    }
}

/// Whether the funded state keeps the rules.
pub open spec fn funding_keeps_rules(
    a: ProgressionAuthority,
    views: Map<Seq<char>, StudyView>,
    id: Seq<char>,
    funded: FundedStudy,
    notes_request: ResearchNotesSpendRequest,
    void_request: VoidSpendRequest,
    committed: bool,
) -> bool {
    exists|n: ProgressionAuthority|
        #[trigger] funding_next(a, n, id, funded, notes_request, void_request, committed) && progression_rules(n, views)
}

/// What funding a queued God study answers on authority `a`, leaving `f`, in
/// the order the checks are made.
pub open spec fn fund_god_study_outcome(
    a: ProgressionAuthority,
    f: ProgressionAuthority,
    catalog: &ProgressionCatalog,
    partition: PlayerPartitionKey,
    study_id: StudyId,
    funding_event_id: CurrencyEventId,
    expected_version: u64,
    r: Result<(), ProgressionError>,
) -> bool {
    let views = catalog.views();
    let id = study_id@;
    let claims = a.god_queued.map();
    let terms = claims[id].prepared_terms;
    let view = views[id];
    let currency = view_currency(view.kind);
    let amount = funding_amount(view, terms);
    let fingerprint = funding_fingerprint_of(partition.colony_id@, partition.player_id@, id, funding_event_id@, terms);
    let notes_request = funding_notes_request(a, funding_event_id, amount, fingerprint);
    let void_request = funding_void_request(a, funding_event_id, amount, void_purpose_of(view.kind), fingerprint);
    let debit = if currency == StudyCurrency::Notes {
        crate::progression_research::notes_debit_outcome(a.notes, notes_request)
    } else {
        crate::progression_research::void_debit_outcome(a.void, void_request)
    };
    let funded = FundedStudy {
        study_id,
        player_id: partition.player_id,
        currency,
        paid_micro: amount,
        preparation_consumed: terms is Some,
        funding_event_id,
    };
    let committed = debit == Ok::<CurrencyCommitOutcome, ProgressionError>(CurrencyCommitOutcome::Committed);
    if partition.colony_id@ != a.partition.colony_id@ {
        r == Err::<(), ProgressionError>(ProgressionError::PartitionMismatch)
    } else if expected_version != a.version {
        r == Err::<(), ProgressionError>(ProgressionError::StaleVersion)
    } else if !views.contains_key(id) {
        r == Err::<(), ProgressionError>(ProgressionError::UnknownStudy)
    } else if !claims.contains_key(id) {
        r == Err::<(), ProgressionError>(ProgressionError::StudyNotQueued)
    } else if claims[id].player_id@ != partition.player_id@ {
        r == Err::<(), ProgressionError>(ProgressionError::PartitionMismatch)
    } else if terms is Some && !(view.kind is OrdinaryCapability) {
        r == Err::<(), ProgressionError>(ProgressionError::PreparationIneligible)
    } else if debit is Err {
        r == Err::<(), ProgressionError>(debit->Err_0)
    } else if a.version == u64::MAX {
        r == Err::<(), ProgressionError>(ProgressionError::ArithmeticOverflow)
    } else if funding_keeps_rules(a, views, id, funded, notes_request, void_request, committed) {
        r is Ok && funding_next(a, f, id, funded, notes_request, void_request, committed)
    } else {
        r == Err::<(), ProgressionError>(ProgressionError::MalformedPersistence)
    }
}

/// Funding succeeds: the partition and version match, the study is known and
/// queued by this player, prepared terms are only used on an ordinary study,
/// the debit goes through, the version can advance and the result keeps the
/// authority's rules.
pub open spec fn fund_god_study_accepts(
    a: ProgressionAuthority,
    catalog: &ProgressionCatalog,
    partition: PlayerPartitionKey,
    study_id: StudyId,
    funding_event_id: CurrencyEventId,
    expected_version: u64,
) -> bool {
    let views = catalog.views();
    let id = study_id@;
    let claims = a.god_queued.map();
    let terms = claims[id].prepared_terms;
    let view = views[id];
    let currency = view_currency(view.kind);
    let amount = funding_amount(view, terms);
    let fingerprint = funding_fingerprint_of(partition.colony_id@, partition.player_id@, id, funding_event_id@, terms);
    let notes_request = funding_notes_request(a, funding_event_id, amount, fingerprint);
    let void_request = funding_void_request(a, funding_event_id, amount, void_purpose_of(view.kind), fingerprint);
    let debit = if currency == StudyCurrency::Notes {
        crate::progression_research::notes_debit_outcome(a.notes, notes_request)
    } else {
        crate::progression_research::void_debit_outcome(a.void, void_request)
    };
    let funded = FundedStudy {
        study_id,
        player_id: partition.player_id,
        currency,
        paid_micro: amount,
        preparation_consumed: terms is Some,
        funding_event_id,
    };
    let committed = debit == Ok::<CurrencyCommitOutcome, ProgressionError>(CurrencyCommitOutcome::Committed);
    partition.colony_id@ == a.partition.colony_id@
    && expected_version == a.version
    && views.contains_key(id)
    && claims.contains_key(id)
    && claims[id].player_id@ == partition.player_id@
    && !(terms is Some && !(view.kind is OrdinaryCapability))
    && debit is Ok
    && a.version != u64::MAX
    && funding_keeps_rules(a, views, id, funded, notes_request, void_request, committed)
}

/// Law: funding a queued God study succeeds exactly when every check passes,
/// and a refused funding leaves the authority unchanged.
pub proof fn law_fund_god_study_succeeds_iff(
    a: ProgressionAuthority,
    f: ProgressionAuthority,
    catalog: &ProgressionCatalog,
    partition: PlayerPartitionKey,
    study_id: StudyId,
    funding_event_id: CurrencyEventId,
    expected_version: u64,
    r: Result<(), ProgressionError>,
)
    requires
        fund_god_study_outcome(a, f, catalog, partition, study_id, funding_event_id, expected_version, r),
    ensures
        r is Ok <==> fund_god_study_accepts(a, catalog, partition, study_id, funding_event_id, expected_version),
{
}

impl ProgressionAuthority {
    /// Fund a player's queued God study from the ledger its kind spends,
    /// at the frozen prepared price where a preparation was taken over.
    #[verifier::rlimit(100)]
    pub fn fund_god_study(
        &mut self,
        catalog: &ProgressionCatalog,
        partition: PlayerPartitionKey,
        study_id: StudyId,
        funding_event_id: CurrencyEventId,
        expected_version: u64,
    ) -> (r: Result<(), ProgressionError>)
        requires
            progression_maps_wf(*old(self)),
        ensures
            progression_maps_wf(*final(self)),
            r is Err ==> *final(self) == *old(self),
            fund_god_study_outcome(*old(self), *final(self), catalog, partition, study_id, funding_event_id, expected_version, r),
    {
        if !text_eq(partition.colony_id.as_str(), self.partition.colony_id.as_str()) {
            return Err(ProgressionError::PartitionMismatch);
        }
        if expected_version != self.version {
            return Err(ProgressionError::StaleVersion);
        }
        let study = match catalog.study(&study_id) {
            Some(d) => d,
            None => {
                return Err(ProgressionError::UnknownStudy);
            },
        };
        match self.god_queued.get(study_id.as_str()) {
            Some(claim) => {
                if !text_eq(claim.player_id.as_str(), partition.player_id.as_str()) {
                    return Err(ProgressionError::PartitionMismatch);
                }
                if claim.prepared_terms.is_some() && !study.kind.is_ordinary() {
                    return Err(ProgressionError::PreparationIneligible);
                }
            },
            None => {
                return Err(ProgressionError::StudyNotQueued);
            },
        }
        let ghost a = *self;
        let ghost views = catalog.views();
        let mut next = self.duplicate();
        let claim = match next.god_queued.remove(study_id.as_str()) {
            Some(c) => c,
            None => {
                return Err(ProgressionError::StudyNotQueued);
            },
        };
        let fingerprint = funding_fingerprint(&partition, &study_id, &funding_event_id, &claim.prepared_terms);
        let currency = study.currency();
        let ghost void_purpose = void_purpose_of(catalog.views()[study_id@].kind);
        let amount: u64 = match &claim.prepared_terms {
            Some(record) => match currency {
                StudyCurrency::Notes => record.frozen_payable.0,
                StudyCurrency::Void => study.cost_micro,
            },
            None => study.cost_micro,
        };
        proof {
            assert(currency == view_currency(views[study_id@].kind));
            assert(amount == funding_amount(views[study_id@], a.god_queued.map()[study_id@].prepared_terms));
            assert(fingerprint == funding_fingerprint_of(partition.colony_id@, partition.player_id@, study_id@, funding_event_id@, a.god_queued.map()[study_id@].prepared_terms));
        }
        let ghost notes_request = funding_notes_request(a, funding_event_id, amount, fingerprint);
        let ghost void_request = funding_void_request(a, funding_event_id, amount, void_purpose, fingerprint);
        let outcome = match currency {
            StudyCurrency::Notes => {
                let expected_notes_version = next.notes.version;
                next.notes.debit(
                    ResearchNotesSpendRequest {
                        id: funding_event_id.duplicate(),
                        amount: ResearchNotes::from_micro(amount),
                        expected_version: expected_notes_version,
                        fingerprint,
                    },
                )
            },
            StudyCurrency::Void => {
                let expected_void_version = next.void.version;
                let purpose = match study.kind {
                    crate::progression_research::StudyKind::HoleAxis { .. } => VoidDebitPurpose::HoleStudy,
                    _ => VoidDebitPurpose::BoostStudy,
                };
                next.void.debit(
                    VoidSpendRequest {
                        id: funding_event_id.duplicate(),
                        amount: VoidInsight::from_micro(amount),
                        purpose,
                        expected_version: expected_void_version,
                        fingerprint,
                    },
                )
            },
        };
        proof {
            if currency == StudyCurrency::Notes {
                assert(outcome == crate::progression_research::notes_debit_outcome(a.notes, notes_request));
            } else {
                assert(outcome == crate::progression_research::void_debit_outcome(a.void, void_request));
            }
        }
        let committed = match outcome {
            Ok(CurrencyCommitOutcome::Committed) => true,
            Ok(_) => false,
            Err(e) => {
                return Err(e);
            },
        };
        let ghost funded = FundedStudy {
            study_id,
            player_id: partition.player_id,
            currency,
            paid_micro: amount,
            preparation_consumed: claim.prepared_terms is Some,
            funding_event_id,
        };
        let key = String::from_str(study_id.as_str());
        next.funded.insert(
            key,
            FundedStudy {
                study_id,
                player_id: partition.player_id,
                currency,
                paid_micro: amount,
                preparation_consumed: claim.prepared_terms.is_some(),
                funding_event_id,
            },
        );
        let ghost before_commit = next;
        let r = self.commit_next(next, catalog);
        proof {
            let id = funded.study_id@;
            if r is Ok {
                assert(funding_next(a, *self, id, funded, notes_request, void_request, committed));
                lemma_rules_determined(*self, before_commit, views);
                assert(funding_keeps_rules(a, views, id, funded, notes_request, void_request, committed));
            } else if a.version < u64::MAX {
                assert forall|n: ProgressionAuthority|
                    #[trigger] funding_next(a, n, id, funded, notes_request, void_request, committed)
                        implies !progression_rules(n, views) by {
                    assert(progression_equiv(n, before_commit));
                    lemma_rules_determined(n, before_commit, views);
                }
                assert(!funding_keeps_rules(a, views, id, funded, notes_request, void_request, committed));
            }
        }
        r
    }
}


/// A freshly queued work order for `id`.
pub open spec fn fresh_order_ok(
    w: ScholarWorkOrder,
    id: ScholarWorkId,
    assignment: ScholarAssignment,
    purpose: ScholarWorkPurpose,
    required_work_minutes: u64,
) -> bool {
    &&& w.id == id
    &&& w.order_id@ == scholar_id_text("progression_scholar_order"@, id)
    &&& w.task_id@ == scholar_id_text("progression_scholar_task"@, id)
    &&& w.assignment == assignment
    &&& w.purpose == purpose
    &&& w.required_work_minutes == required_work_minutes
    &&& w.progress_work_minutes == 0
    &&& w.stage == ScholarWorkStage::Queued
    &&& w.request_fingerprint == work_fingerprint_of(id, assignment, purpose, required_work_minutes)
}

/// `n` is `a` one version later with one more work order queued.
pub open spec fn queued_next(
    a: ProgressionAuthority,
    n: ProgressionAuthority,
    id: ScholarWorkId,
    assignment: ScholarAssignment,
    purpose: ScholarWorkPurpose,
    required_work_minutes: u64,
) -> bool {
    &&& progression_maps_wf(n)
    &&& n.schema_version == a.schema_version
    &&& n.partition == a.partition
    &&& n.version == a.version + 1
    &&& n.owned_studies.map() == a.owned_studies.map()
    &&& same_notes(n.notes, a.notes)
    &&& same_void(n.void, a.void)
    &&& n.next_work_sequence == a.next_work_sequence + 1
    &&& n.retired_work_through == a.retired_work_through
    &&& n.work_orders@.len() == a.work_orders@.len() + 1
    &&& n.work_orders@.subrange(0, a.work_orders@.len() as int) == a.work_orders@
    &&& fresh_order_ok(n.work_orders@.last(), id, assignment, purpose, required_work_minutes)
    &&& n.prepared.map() == a.prepared.map()
    &&& n.god_queued.map() == a.god_queued.map()
    &&& n.funded.map() == a.funded.map()
    &&& n.leader_targets.map() == a.leader_targets.map()
}

pub open spec fn queued_keeps_rules(
    a: ProgressionAuthority,
    views: Map<Seq<char>, StudyView>,
    id: ScholarWorkId,
    assignment: ScholarAssignment,
    purpose: ScholarWorkPurpose,
    required_work_minutes: u64,
) -> bool {
    exists|n: ProgressionAuthority|
        #[trigger] queued_next(a, n, id, assignment, purpose, required_work_minutes) && progression_rules(n, views)
}

/// What queuing scholar work answers and leaves.
pub open spec fn queue_work_outcome(
    a: ProgressionAuthority,
    f: ProgressionAuthority,
    views: Map<Seq<char>, StudyView>,
    colony_id: PlannerId,
    assignment: ScholarAssignment,
    purpose: ScholarWorkPurpose,
    required_work_minutes: u64,
    expected_version: u64,
    r: Result<ScholarWorkId, ProgressionError>,
) -> bool {
    let id = ScholarWorkId { colony_id, sequence: a.next_work_sequence };
    if colony_id@ != a.partition.colony_id@ {
        r == Err::<ScholarWorkId, ProgressionError>(ProgressionError::PartitionMismatch)
    } else if expected_version != a.version {
        r == Err::<ScholarWorkId, ProgressionError>(ProgressionError::StaleVersion)
    } else if required_work_minutes == 0 {
        r == Err::<ScholarWorkId, ProgressionError>(ProgressionError::MalformedRequest)
    } else if a.work_orders@.len() >= MAX_ACTIVE_SCHOLAR_WORK {
        r == Err::<ScholarWorkId, ProgressionError>(ProgressionError::Backpressure)
    } else if a.next_work_sequence == u64::MAX || a.version == u64::MAX {
        r == Err::<ScholarWorkId, ProgressionError>(ProgressionError::ArithmeticOverflow)
    } else if queued_keeps_rules(a, views, id, assignment, purpose, required_work_minutes) {
        r == Ok::<ScholarWorkId, ProgressionError>(id) && queued_next(a, f, id, assignment, purpose, required_work_minutes)
    } else {
        r == Err::<ScholarWorkId, ProgressionError>(ProgressionError::MalformedPersistence)
    }
}

/// Preparation takes a quarter of the study's work, rounded up.
pub open spec fn quarter_up(work: u64) -> u64 {
    (work / 4 + if work % 4 != 0 { 1u64 } else { 0u64 }) as u64
}

/// Whether a work purpose completes God study `id`.
pub open spec fn completes_god_study(p: ScholarWorkPurpose, id: Seq<char>) -> bool {
    match p {
        ScholarWorkPurpose::CompleteGodStudy { study_id } => study_id@ == id,
        _ => false,
    }
}

/// Whether some live work order completes God study `id`.
pub open spec fn god_work_pending(orders: Seq<ScholarWorkOrder>, id: Seq<char>) -> bool {
    exists|i: int| 0 <= i < orders.len() && completes_god_study((#[trigger] orders[i]).purpose, id)
}

impl ProgressionAuthority {
    /// Whether some live work order completes God study `study_id`.
    fn god_work_exists(&self, study_id: &StudyId) -> (r: bool)
        ensures
            r == god_work_pending(self.work_orders@, study_id@),
    {
        let n = self.work_orders.len();
        let mut i: usize = 0;
        while i < n
            invariant
                n == self.work_orders@.len(),
                i <= n,
                forall|j: int| 0 <= j < i ==> !completes_god_study((#[trigger] self.work_orders@[j]).purpose, study_id@),
            decreases n - i,
        {
            match &self.work_orders[i].purpose {
                ScholarWorkPurpose::CompleteGodStudy { study_id: candidate } => {
                    if text_eq(candidate.as_str(), study_id.as_str()) {
                        assert(completes_god_study(self.work_orders@[i as int].purpose, study_id@));
                        return true;
                    }
                },
                _ => {},
            }
            i = i + 1;
        }
        false
    }

    fn queue_work(
        &mut self,
        catalog: &ProgressionCatalog,
        partition: ColonyPartitionKey,
        assignment: ScholarAssignment,
        purpose: ScholarWorkPurpose,
        required_work_minutes: u64,
        expected_version: u64,
    ) -> (r: Result<ScholarWorkId, ProgressionError>)
        requires
            progression_maps_wf(*old(self)),
        ensures
            progression_maps_wf(*final(self)),
            r is Err ==> *final(self) == *old(self),
            queue_work_outcome(
                *old(self),
                *final(self),
                catalog.views(),
                partition.colony_id,
                assignment,
                purpose,
                required_work_minutes,
                expected_version,
                r,
            ),
    {
        if !text_eq(partition.colony_id.as_str(), self.partition.colony_id.as_str()) {
            return Err(ProgressionError::PartitionMismatch);
        }
        if expected_version != self.version {
            return Err(ProgressionError::StaleVersion);
        }
        if required_work_minutes == 0 {
            return Err(ProgressionError::MalformedRequest);
        }
        if self.work_orders.len() >= MAX_ACTIVE_SCHOLAR_WORK {
            return Err(ProgressionError::Backpressure);
        }
        let ghost a = *self;
        let ghost views = catalog.views();
        let mut next = self.duplicate();
        let id = ScholarWorkId { colony_id: partition.colony_id, sequence: next.next_work_sequence };
        let fingerprint = work_fingerprint(&id, &assignment, &purpose, required_work_minutes);
        let ghost before_push = next.work_orders@;
        next.work_orders.push(
            ScholarWorkOrder {
                id: id.exact_copy(),
                order_id: ScholarOrderId::derive(&id),
                task_id: ScholarTaskId::derive(&id),
                assignment,
                purpose,
                required_work_minutes,
                progress_work_minutes: 0,
                stage: ScholarWorkStage::Queued,
                request_fingerprint: fingerprint,
            },
        );
        if next.next_work_sequence == u64::MAX {
            return Err(ProgressionError::ArithmeticOverflow);
        }
        next.next_work_sequence = next.next_work_sequence + 1;
        proof {
            assert(next.work_orders@.subrange(0, a.work_orders@.len() as int) =~= a.work_orders@);
        }
        let ghost before_commit = next;
        let r = self.commit_next(next, catalog);
        proof {
            if r is Ok {
                assert(queued_next(a, *self, id, assignment, purpose, required_work_minutes));
                lemma_rules_determined(*self, before_commit, views);
                assert(queued_keeps_rules(a, views, id, assignment, purpose, required_work_minutes));
            } else if a.version < u64::MAX {
                assert forall|n: ProgressionAuthority|
                    #[trigger] queued_next(a, n, id, assignment, purpose, required_work_minutes)
                        implies !progression_rules(n, views) by {
                    assert forall|i: int| 0 <= i < n.work_orders@.len() implies #[trigger] order_equiv(
                        n.work_orders@[i],
                        before_commit.work_orders@[i],
                    ) by {
                        if i < a.work_orders@.len() {
                            assert(n.work_orders@[i] == n.work_orders@.subrange(0, a.work_orders@.len() as int)[i]);
                            assert(before_commit.work_orders@[i] == before_commit.work_orders@.subrange(
                                0,
                                a.work_orders@.len() as int,
                            )[i]);
                        }
                    }
                    assert(progression_equiv(n, before_commit));
                    lemma_rules_determined(n, before_commit, views);
                }
                assert(!queued_keeps_rules(a, views, id, assignment, purpose, required_work_minutes));
            }
        }
        match r {
            Ok(()) => Ok(id),
            Err(e) => Err(e),
        }
    }

    /// Queue scholar work that produces Notes, credited when it completes.
    pub fn queue_notes_work(
        &mut self,
        catalog: &ProgressionCatalog,
        partition: ColonyPartitionKey,
        assignment: ScholarAssignment,
        required_work_minutes: u64,
        expected_version: u64,
    ) -> (r: Result<ScholarWorkId, ProgressionError>)
        requires
            progression_maps_wf(*old(self)),
        ensures
            progression_maps_wf(*final(self)),
            r is Err ==> *final(self) == *old(self),
            if required_work_minutes * NOTES_MICRO_PER_WORK_MINUTE > u64::MAX {
                r == Err::<ScholarWorkId, ProgressionError>(ProgressionError::ArithmeticOverflow)
            } else {
                queue_work_outcome(
                    *old(self),
                    *final(self),
                    catalog.views(),
                    partition.colony_id,
                    assignment,
                    ScholarWorkPurpose::ProduceNotes {
                        credit: ResearchNotes((required_work_minutes * NOTES_MICRO_PER_WORK_MINUTE) as u64),
                    },
                    required_work_minutes,
                    expected_version,
                    r,
                )
            },
    {
        let credit = match required_work_minutes.checked_mul(NOTES_MICRO_PER_WORK_MINUTE) {
            Some(c) => ResearchNotes::from_micro(c),
            None => {
                return Err(ProgressionError::ArithmeticOverflow);
            },
        };
        self.queue_work(
            catalog,
            partition,
            assignment,
            ScholarWorkPurpose::ProduceNotes { credit },
            required_work_minutes,
            expected_version,
        )
    }

    /// Queue the scholar work that prepares an ordinary study at a quarter off.
    pub fn queue_preparation_work(
        &mut self,
        catalog: &ProgressionCatalog,
        partition: PlayerPartitionKey,
        assignment: ScholarAssignment,
        study_id: StudyId,
        expected_version: u64,
    ) -> (r: Result<ScholarWorkId, ProgressionError>)
        requires
            progression_maps_wf(*old(self)),
        ensures
            progression_maps_wf(*final(self)),
            r is Err ==> *final(self) == *old(self),
            ({
                let a = *old(self);
                let views = catalog.views();
                let id = study_id@;
                let base = views[id].cost_micro;
                if partition.colony_id@ != a.partition.colony_id@ {
                    r == Err::<ScholarWorkId, ProgressionError>(ProgressionError::PartitionMismatch)
                } else if lane_taken(a, id, false) {
                    r == Err::<ScholarWorkId, ProgressionError>(ProgressionError::DuplicateLaneClaim)
                } else if !views.contains_key(id) {
                    r == Err::<ScholarWorkId, ProgressionError>(ProgressionError::UnknownStudy)
                } else if !(views[id].kind is OrdinaryCapability) {
                    r == Err::<ScholarWorkId, ProgressionError>(ProgressionError::PreparationIneligible)
                } else {
                    queue_work_outcome(
                        a,
                        *final(self),
                        views,
                        partition.colony_id,
                        assignment,
                        ScholarWorkPurpose::PrepareStudy {
                            study_id,
                            player_id: partition.player_id,
                            frozen_base_cost: ResearchNotes(base),
                            frozen_discount: ResearchNotes(base / 4),
                            frozen_payable: ResearchNotes((base - base / 4) as u64),
                        },
                        quarter_up(views[id].required_work_minutes),
                        expected_version,
                        r,
                    )
                }
            }),
    {
        if !text_eq(partition.colony_id.as_str(), self.partition.colony_id.as_str()) {
            return Err(ProgressionError::PartitionMismatch);
        }
        let key = study_id.as_str();
        if self.owned_studies.contains_key(key) || self.prepared.contains_key(key) || self.god_queued.contains_key(key)
            || self.funded.contains_key(key) || self.leader_targets.contains_key(key) {
            return Err(ProgressionError::DuplicateLaneClaim);
        }
        let study = match catalog.study(&study_id) {
            Some(d) => d,
            None => {
                return Err(ProgressionError::UnknownStudy);
            },
        };
        if !study.kind.is_ordinary() {
            return Err(ProgressionError::PreparationIneligible);
        }
        let base = study.cost_micro;
        let discount = base / 4;
        let work = study.required_work_minutes;
        let required = work / 4 + if work % 4 != 0 { 1 } else { 0 };
        self.queue_work(
            catalog,
            ColonyPartitionKey { colony_id: partition.colony_id },
            assignment,
            ScholarWorkPurpose::PrepareStudy {
                study_id,
                player_id: partition.player_id,
                frozen_base_cost: ResearchNotes::from_micro(base),
                frozen_discount: ResearchNotes::from_micro(discount),
                frozen_payable: ResearchNotes::from_micro(base - discount),
            },
            required,
            expected_version,
        )
    }

    /// Queue the scholar work that completes a player's funded God study.
    pub fn queue_funded_study_work(
        &mut self,
        catalog: &ProgressionCatalog,
        partition: PlayerPartitionKey,
        assignment: ScholarAssignment,
        study_id: StudyId,
        expected_version: u64,
    ) -> (r: Result<ScholarWorkId, ProgressionError>)
        requires
            progression_maps_wf(*old(self)),
        ensures
            progression_maps_wf(*final(self)),
            r is Err ==> *final(self) == *old(self),
            ({
                let a = *old(self);
                let views = catalog.views();
                let id = study_id@;
                let funded = a.funded.map();
                if partition.colony_id@ != a.partition.colony_id@ {
                    r == Err::<ScholarWorkId, ProgressionError>(ProgressionError::PartitionMismatch)
                } else if !funded.contains_key(id) {
                    r == Err::<ScholarWorkId, ProgressionError>(ProgressionError::StudyNotFunded)
                } else if funded[id].player_id@ != partition.player_id@ {
                    r == Err::<ScholarWorkId, ProgressionError>(ProgressionError::PartitionMismatch)
                } else if god_work_pending(a.work_orders@, id) {
                    r == Err::<ScholarWorkId, ProgressionError>(ProgressionError::DuplicateLaneClaim)
                } else if !views.contains_key(id) {
                    r == Err::<ScholarWorkId, ProgressionError>(ProgressionError::UnknownStudy)
                } else {
                    queue_work_outcome(
                        a,
                        *final(self),
                        views,
                        partition.colony_id,
                        assignment,
                        ScholarWorkPurpose::CompleteGodStudy { study_id },
                        views[id].required_work_minutes,
                        expected_version,
                        r,
                    )
                }
            }),
    {
        if !text_eq(partition.colony_id.as_str(), self.partition.colony_id.as_str()) {
            return Err(ProgressionError::PartitionMismatch);
        }
        match self.funded.get(study_id.as_str()) {
            Some(f) => {
                if !text_eq(f.player_id.as_str(), partition.player_id.as_str()) {
                    return Err(ProgressionError::PartitionMismatch);
                }
            },
            None => {
                return Err(ProgressionError::StudyNotFunded);
            },
        }
        if self.god_work_exists(&study_id) {
            return Err(ProgressionError::DuplicateLaneClaim);
        }
        let required = match catalog.study(&study_id) {
            Some(d) => d.required_work_minutes,
            None => {
                return Err(ProgressionError::UnknownStudy);
            },
        };
        self.queue_work(
            catalog,
            ColonyPartitionKey { colony_id: partition.colony_id },
            assignment,
            ScholarWorkPurpose::CompleteGodStudy { study_id },
            required,
            expected_version,
        )
    }
}


/// Whether work id `x` names work id `y`.
pub open spec fn same_work_id(x: ScholarWorkId, y: ScholarWorkId) -> bool {
    x.colony_id@ == y.colony_id@ && x.sequence == y.sequence
}

/// The position of the first live work order at or after `start` with `sequence`, if any.
pub open spec fn work_position_from(orders: Seq<ScholarWorkOrder>, sequence: u64, start: int) -> Option<int>
    decreases orders.len() - start,
{
    if start < 0 || start >= orders.len() {
        None
    } else if orders[start].id.sequence == sequence {
        Some(start)
    } else {
        work_position_from(orders, sequence, start + 1)
    }
}

/// The position of the first live work order with `sequence`, if any.
pub open spec fn work_position(orders: Seq<ScholarWorkOrder>, sequence: u64) -> Option<int> {
    work_position_from(orders, sequence, 0)
}

proof fn lemma_work_position_range(orders: Seq<ScholarWorkOrder>, sequence: u64, start: int)
    ensures
        work_position_from(orders, sequence, start) matches Some(i) ==> start <= i < orders.len() && orders[i].id.sequence == sequence,
    decreases orders.len() - start,
{
    if 0 <= start < orders.len() && orders[start].id.sequence != sequence {
        lemma_work_position_range(orders, sequence, start + 1);
    }
}

/// The answer for work no live order holds.
pub open spec fn missing_work_error(a: ProgressionAuthority, id: ScholarWorkId) -> ProgressionError {
    if id.sequence <= a.retired_work_through {
        ProgressionError::RetiredReplay
    } else {
        ProgressionError::UnknownWork
    }
}

/// `n` is `a` one version later with the work orders, the owned studies, the
/// preparations and the funded studies replaced.
pub open spec fn work_next(
    a: ProgressionAuthority,
    n: ProgressionAuthority,
    orders: Seq<ScholarWorkOrder>,
    owned: Map<Seq<char>, ()>,
    prepared: Map<Seq<char>, PreparationRecord>,
    funded: Map<Seq<char>, FundedStudy>,
) -> bool {
    &&& progression_maps_wf(n)
    &&& n.schema_version == a.schema_version
    &&& n.partition == a.partition
    &&& n.version == a.version + 1
    &&& n.owned_studies.map() == owned
    &&& same_notes(n.notes, a.notes)
    &&& same_void(n.void, a.void)
    &&& n.next_work_sequence == a.next_work_sequence
    &&& n.retired_work_through == a.retired_work_through
    &&& n.work_orders@ == orders
    &&& n.prepared.map() == prepared
    &&& n.god_queued.map() == a.god_queued.map()
    &&& n.funded.map() == funded
    &&& n.leader_targets.map() == a.leader_targets.map()
}

pub open spec fn work_keeps_rules(
    a: ProgressionAuthority,
    views: Map<Seq<char>, StudyView>,
    orders: Seq<ScholarWorkOrder>,
    owned: Map<Seq<char>, ()>,
    prepared: Map<Seq<char>, PreparationRecord>,
    funded: Map<Seq<char>, FundedStudy>,
) -> bool {
    exists|n: ProgressionAuthority| #[trigger] work_next(a, n, orders, owned, prepared, funded) && progression_rules(n, views)
}

/// What moving work `id` from stage `from` to stage `to` answers and leaves.
pub open spec fn transition_outcome(
    a: ProgressionAuthority,
    f: ProgressionAuthority,
    views: Map<Seq<char>, StudyView>,
    id: ScholarWorkId,
    expected_version: u64,
    from: ScholarWorkStage,
    to: ScholarWorkStage,
    r: Result<(), ProgressionError>,
) -> bool {
    let orders = a.work_orders@;
    if id.colony_id@ != a.partition.colony_id@ {
        r == Err::<(), ProgressionError>(ProgressionError::PartitionMismatch)
    } else if expected_version != a.version {
        r == Err::<(), ProgressionError>(ProgressionError::StaleVersion)
    } else {
        match work_position(orders, id.sequence) {
            None => r == Err::<(), ProgressionError>(missing_work_error(a, id)),
            Some(i) => {
                let moved = orders.update(i, ScholarWorkOrder { stage: to, ..orders[i] });
                if !same_work_id(orders[i].id, id) || orders[i].stage != from {
                    r == Err::<(), ProgressionError>(ProgressionError::InvalidWorkStage)
                } else if a.version == u64::MAX {
                    r == Err::<(), ProgressionError>(ProgressionError::ArithmeticOverflow)
                } else if work_keeps_rules(a, views, moved, a.owned_studies.map(), a.prepared.map(), a.funded.map()) {
                    r is Ok && work_next(a, f, moved, a.owned_studies.map(), a.prepared.map(), a.funded.map())
                } else {
                    r == Err::<(), ProgressionError>(ProgressionError::MalformedPersistence)
                }
            },
        }
    }
}

impl ProgressionAuthority {
    /// Find the first live work order with `sequence`.
    fn find_work(&self, sequence: u64) -> (r: Option<usize>)
        ensures
            match work_position(self.work_orders@, sequence) {
                Some(i) => r == Some(i as usize),
                None => r is None,
            },
            r matches Some(i) ==> i < self.work_orders@.len() && self.work_orders@[i as int].id.sequence == sequence
                && work_position(self.work_orders@, sequence) == Some(i as int),
    {
        proof {
            lemma_work_position_range(self.work_orders@, sequence, 0);
        }
        let n = self.work_orders.len();
        let mut i: usize = 0;
        while i < n
            invariant
                n == self.work_orders@.len(),
                i <= n,
                work_position(self.work_orders@, sequence) == work_position_from(self.work_orders@, sequence, i as int),
            decreases n - i,
        {
            if self.work_orders[i].id.sequence == sequence {
                return Some(i);
            }
            i = i + 1;
        }
        None
    }

    fn transition_work(
        &mut self,
        catalog: &ProgressionCatalog,
        id: &ScholarWorkId,
        expected_version: u64,
        from: ScholarWorkStage,
        to: ScholarWorkStage,
    ) -> (r: Result<(), ProgressionError>)
        requires
            progression_maps_wf(*old(self)),
        ensures
            progression_maps_wf(*final(self)),
            r is Err ==> *final(self) == *old(self),
            transition_outcome(*old(self), *final(self), catalog.views(), *id, expected_version, from, to, r),
    {
        if !text_eq(id.colony_id.as_str(), self.partition.colony_id.as_str()) {
            return Err(ProgressionError::PartitionMismatch);
        }
        if expected_version != self.version {
            return Err(ProgressionError::StaleVersion);
        }
        let i = match self.find_work(id.sequence) {
            Some(i) => i,
            None => {
                return Err(
                    if id.sequence <= self.retired_work_through {
                        ProgressionError::RetiredReplay
                    } else {
                        ProgressionError::UnknownWork
                    },
                );
            },
        };
        let w = &self.work_orders[i];
        if !(text_eq(w.id.colony_id.as_str(), id.colony_id.as_str()) && w.id.sequence == id.sequence) || w.stage != from {
            return Err(ProgressionError::InvalidWorkStage);
        }
        let ghost a = *self;
        let ghost views = catalog.views();
        let mut next = self.duplicate();
        let mut moved = next.work_orders[i].exact_copy();
        moved.stage = to;
        next.work_orders.set(i, moved);
        let ghost before_commit = next;
        let r = self.commit_next(next, catalog);
        proof {
            let orders = a.work_orders@.update(i as int, ScholarWorkOrder { stage: to, ..a.work_orders@[i as int] });
            assert(before_commit.work_orders@ =~= orders);
            if r is Ok {
                assert(work_next(a, *self, orders, a.owned_studies.map(), a.prepared.map(), a.funded.map()));
                lemma_rules_determined(*self, before_commit, views);
                assert(work_keeps_rules(a, views, orders, a.owned_studies.map(), a.prepared.map(), a.funded.map()));
            } else if a.version < u64::MAX {
                assert forall|n: ProgressionAuthority|
                    #[trigger] work_next(a, n, orders, a.owned_studies.map(), a.prepared.map(), a.funded.map())
                        implies !progression_rules(n, views) by {
                    assert(progression_equiv(n, before_commit));
                    lemma_rules_determined(n, before_commit, views);
                }
                assert(!work_keeps_rules(a, views, orders, a.owned_studies.map(), a.prepared.map(), a.funded.map()));
            }
        }
        r
    }

    /// Reserve queued work for its scholar.
    pub fn reserve_work(&mut self, catalog: &ProgressionCatalog, id: &ScholarWorkId, expected_version: u64) -> (r: Result<
        (),
        ProgressionError,
    >)
        requires
            progression_maps_wf(*old(self)),
        ensures
            progression_maps_wf(*final(self)),
            r is Err ==> *final(self) == *old(self),
            transition_outcome(
                *old(self),
                *final(self),
                catalog.views(),
                *id,
                expected_version,
                ScholarWorkStage::Queued,
                ScholarWorkStage::Reserved,
                r,
            ),
    {
        self.transition_work(catalog, id, expected_version, ScholarWorkStage::Queued, ScholarWorkStage::Reserved)
    }

    /// Start reserved work.
    pub fn start_work(&mut self, catalog: &ProgressionCatalog, id: &ScholarWorkId, expected_version: u64) -> (r: Result<
        (),
        ProgressionError,
    >)
        requires
            progression_maps_wf(*old(self)),
        ensures
            progression_maps_wf(*final(self)),
            r is Err ==> *final(self) == *old(self),
            transition_outcome(
                *old(self),
                *final(self),
                catalog.views(),
                *id,
                expected_version,
                ScholarWorkStage::Reserved,
                ScholarWorkStage::Working,
                r,
            ),
    {
        self.transition_work(catalog, id, expected_version, ScholarWorkStage::Reserved, ScholarWorkStage::Working)
    }
}


/// Why completing a work purpose is refused, if it is.
pub open spec fn purpose_error(a: ProgressionAuthority, p: ScholarWorkPurpose) -> Option<ProgressionError> {
    match p {
        ScholarWorkPurpose::ProduceNotes { .. } => None,
        ScholarWorkPurpose::PrepareStudy { study_id, .. } => if lane_taken(a, study_id@, false) {
            Some(ProgressionError::DuplicateLaneClaim)
        } else {
            None
        },
        ScholarWorkPurpose::CompleteGodStudy { study_id } => if a.leader_targets.map().contains_key(study_id@) {
            Some(ProgressionError::DuplicateResolutionPending)
        } else if !a.funded.map().contains_key(study_id@) {
            Some(ProgressionError::StudyNotFunded)
        } else {
            None
        },
    }
}

/// The owned studies once a work purpose completes.
pub open spec fn purpose_owned(a: ProgressionAuthority, p: ScholarWorkPurpose) -> Map<Seq<char>, ()> {
    match p {
        ScholarWorkPurpose::CompleteGodStudy { study_id } => a.owned_studies.map().insert(study_id@, ()),
        _ => a.owned_studies.map(),
    }
}

/// The preparations once a work purpose of work `id` completes.
pub open spec fn purpose_prepared(a: ProgressionAuthority, p: ScholarWorkPurpose, id: ScholarWorkId) -> Map<
    Seq<char>,
    PreparationRecord,
> {
    match p {
        ScholarWorkPurpose::PrepareStudy { study_id, player_id, frozen_base_cost, frozen_discount, frozen_payable } =>
            a.prepared.map().insert(
            study_id@,
            PreparationRecord {
                study_id,
                player_id,
                completed_work_id: id,
                frozen_base_cost,
                frozen_discount,
                frozen_payable,
            },
        ),
        _ => a.prepared.map(),
    }
}

/// The funded studies once a work purpose completes.
pub open spec fn purpose_funded(a: ProgressionAuthority, p: ScholarWorkPurpose) -> Map<Seq<char>, FundedStudy> {
    match p {
        ScholarWorkPurpose::CompleteGodStudy { study_id } => a.funded.map().remove(study_id@),
        _ => a.funded.map(),
    }
}

/// What crediting `completed` minutes to work `id` answers and leaves.
pub open spec fn progress_outcome(
    a: ProgressionAuthority,
    f: ProgressionAuthority,
    views: Map<Seq<char>, StudyView>,
    id: ScholarWorkId,
    completed_minutes: u64,
    expected_version: u64,
    r: Result<ScholarWorkStage, ProgressionError>,
) -> bool {
    let orders = a.work_orders@;
    if id.colony_id@ != a.partition.colony_id@ {
        r == Err::<ScholarWorkStage, ProgressionError>(ProgressionError::PartitionMismatch)
    } else if expected_version != a.version {
        r == Err::<ScholarWorkStage, ProgressionError>(ProgressionError::StaleVersion)
    } else if completed_minutes == 0 {
        r == Err::<ScholarWorkStage, ProgressionError>(ProgressionError::MalformedRequest)
    } else {
        match work_position(orders, id.sequence) {
            None => r == Err::<ScholarWorkStage, ProgressionError>(missing_work_error(a, id)),
            Some(i) => {
                let w = orders[i];
                let total = w.progress_work_minutes + completed_minutes;
                let progress = if total < w.required_work_minutes { total } else { w.required_work_minutes as int };
                let done = progress == w.required_work_minutes;
                let stage = if done { ScholarWorkStage::Completed } else { ScholarWorkStage::Working };
                let moved = orders.update(
                    i,
                    ScholarWorkOrder { progress_work_minutes: progress as u64, stage, ..w },
                );
                let owned = if done { purpose_owned(a, w.purpose) } else { a.owned_studies.map() };
                let prepared = if done { purpose_prepared(a, w.purpose, id) } else { a.prepared.map() };
                let funded = if done { purpose_funded(a, w.purpose) } else { a.funded.map() };
                if !same_work_id(w.id, id) || w.stage != ScholarWorkStage::Working {
                    r == Err::<ScholarWorkStage, ProgressionError>(ProgressionError::InvalidWorkStage)
                } else if total > u64::MAX {
                    r == Err::<ScholarWorkStage, ProgressionError>(ProgressionError::ArithmeticOverflow)
                } else if done && purpose_error(a, w.purpose) is Some {
                    r == Err::<ScholarWorkStage, ProgressionError>(purpose_error(a, w.purpose)->0)
                } else if a.version == u64::MAX {
                    r == Err::<ScholarWorkStage, ProgressionError>(ProgressionError::ArithmeticOverflow)
                } else if work_keeps_rules(a, views, moved, owned, prepared, funded) {
                    r == Ok::<ScholarWorkStage, ProgressionError>(stage) && work_next(a, f, moved, owned, prepared, funded)
                } else {
                    r == Err::<ScholarWorkStage, ProgressionError>(ProgressionError::MalformedPersistence)
                }
            },
        }
    }
}

impl ProgressionAuthority {
    /// Apply what completed work of `id` was for.
    fn complete_work_purpose(&mut self, id: &ScholarWorkId, purpose: ScholarWorkPurpose) -> (r: Result<(), ProgressionError>)
        requires
            progression_maps_wf(*old(self)),
        ensures
            progression_maps_wf(*final(self)),
            match purpose_error(*old(self), purpose) {
                Some(e) => r == Err::<(), ProgressionError>(e),
                None => {
                    &&& r is Ok
                    &&& final(self).owned_studies.map() == purpose_owned(*old(self), purpose)
                    &&& final(self).prepared.map() == purpose_prepared(*old(self), purpose, *id)
                    &&& final(self).funded.map() == purpose_funded(*old(self), purpose)
                    &&& final(self).schema_version == old(self).schema_version
                    &&& final(self).partition == old(self).partition
                    &&& final(self).version == old(self).version
                    &&& final(self).notes == old(self).notes
                    &&& final(self).void == old(self).void
                    &&& final(self).next_work_sequence == old(self).next_work_sequence
                    &&& final(self).retired_work_through == old(self).retired_work_through
                    &&& final(self).work_orders == old(self).work_orders
                    &&& final(self).god_queued == old(self).god_queued
                    &&& final(self).leader_targets == old(self).leader_targets
                },
            },
    {
        match purpose {
            ScholarWorkPurpose::ProduceNotes { .. } => {},
            ScholarWorkPurpose::PrepareStudy { study_id, player_id, frozen_base_cost, frozen_discount, frozen_payable } => {
                let key = study_id.as_str();
                if self.owned_studies.contains_key(key) || self.prepared.contains_key(key) || self.god_queued.contains_key(
                    key,
                ) || self.funded.contains_key(key) || self.leader_targets.contains_key(key) {
                    return Err(ProgressionError::DuplicateLaneClaim);
                }
                let k = String::from_str(key);
                self.prepared.insert(
                    k,
                    PreparationRecord {
                        study_id,
                        player_id,
                        completed_work_id: id.exact_copy(),
                        frozen_base_cost,
                        frozen_discount,
                        frozen_payable,
                    },
                );
            },
            ScholarWorkPurpose::CompleteGodStudy { study_id } => {
                if self.leader_targets.contains_key(study_id.as_str()) {
                    return Err(ProgressionError::DuplicateResolutionPending);
                }
                match self.funded.remove(study_id.as_str()) {
                    Some(_) => {},
                    None => {
                        return Err(ProgressionError::StudyNotFunded);
                    },
                }
                self.owned_studies.insert(String::from_str(study_id.as_str()), ());
            },
        }
        Ok(())
    }

    /// Credit completed minutes to working scholar work; reaching its total completes it.
    #[verifier::rlimit(60)]
    pub fn progress_work(
        &mut self,
        catalog: &ProgressionCatalog,
        id: &ScholarWorkId,
        completed_minutes: u64,
        expected_version: u64,
    ) -> (r: Result<ScholarWorkStage, ProgressionError>)
        requires
            progression_maps_wf(*old(self)),
        ensures
            progression_maps_wf(*final(self)),
            r is Err ==> *final(self) == *old(self),
            progress_outcome(*old(self), *final(self), catalog.views(), *id, completed_minutes, expected_version, r),
    {
        if !text_eq(id.colony_id.as_str(), self.partition.colony_id.as_str()) {
            return Err(ProgressionError::PartitionMismatch);
        }
        if expected_version != self.version {
            return Err(ProgressionError::StaleVersion);
        }
        if completed_minutes == 0 {
            return Err(ProgressionError::MalformedRequest);
        }
        let i = match self.find_work(id.sequence) {
            Some(i) => i,
            None => {
                return Err(
                    if id.sequence <= self.retired_work_through {
                        ProgressionError::RetiredReplay
                    } else {
                        ProgressionError::UnknownWork
                    },
                );
            },
        };
        let w = &self.work_orders[i];
        if !(text_eq(w.id.colony_id.as_str(), id.colony_id.as_str()) && w.id.sequence == id.sequence)
            || w.stage != ScholarWorkStage::Working {
            return Err(ProgressionError::InvalidWorkStage);
        }
        let total = match w.progress_work_minutes.checked_add(completed_minutes) {
            Some(t) => t,
            None => {
                return Err(ProgressionError::ArithmeticOverflow);
            },
        };
        let ghost a = *self;
        let ghost views = catalog.views();
        let mut next = self.duplicate();
        let mut moved = next.work_orders[i].exact_copy();
        moved.progress_work_minutes = if total < moved.required_work_minutes {
            total
        } else {
            moved.required_work_minutes
        };
        let done = moved.progress_work_minutes == moved.required_work_minutes;
        if done {
            moved.stage = ScholarWorkStage::Completed;
        }
        let purpose = moved.purpose.exact_copy();
        let stage = moved.stage;
        next.work_orders.set(i, moved);
        let ghost staged = next;
        if done {
            match next.complete_work_purpose(id, purpose) {
                Ok(()) => {},
                Err(e) => {
                    return Err(e);
                },
            }
        }
        let ghost before_commit = next;
        let r = self.commit_next(next, catalog);
        proof {
            let w0 = a.work_orders@[i as int];
            let progress = if total < w0.required_work_minutes { total as int } else { w0.required_work_minutes as int };
            let orders = a.work_orders@.update(i as int, ScholarWorkOrder { progress_work_minutes: progress as u64, stage, ..w0 });
            let owned = if done { purpose_owned(a, w0.purpose) } else { a.owned_studies.map() };
            let prepared = if done { purpose_prepared(a, w0.purpose, *id) } else { a.prepared.map() };
            let funded = if done { purpose_funded(a, w0.purpose) } else { a.funded.map() };
            assert(before_commit.work_orders@ =~= orders);
            if r is Ok {
                assert(work_next(a, *self, orders, owned, prepared, funded));
                lemma_rules_determined(*self, before_commit, views);
                assert(work_keeps_rules(a, views, orders, owned, prepared, funded));
            } else if a.version < u64::MAX {
                assert forall|n: ProgressionAuthority| #[trigger] work_next(a, n, orders, owned, prepared, funded)
                    implies !progression_rules(n, views) by {
                    assert(progression_equiv(n, before_commit));
                    lemma_rules_determined(n, before_commit, views);
                }
                assert(!work_keeps_rules(a, views, orders, owned, prepared, funded));
            }
        }
        match r {
            Ok(()) => Ok(stage),
            Err(e) => Err(e),
        }
    }

    /// Cancel live work, releasing what it held.
    pub fn recover_work(
        &mut self,
        catalog: &ProgressionCatalog,
        id: &ScholarWorkId,
        reason: WorkRecoveryReason,
        expected_version: u64,
    ) -> (r: Result<WorkRelease, ProgressionError>)
        requires
            progression_maps_wf(*old(self)),
        ensures
            progression_maps_wf(*final(self)),
            r is Err ==> *final(self) == *old(self),
            ({
                let a = *old(self);
                let views = catalog.views();
                let orders = a.work_orders@;
                if id.colony_id@ != a.partition.colony_id@ {
                    r == Err::<WorkRelease, ProgressionError>(ProgressionError::PartitionMismatch)
                } else if expected_version != a.version {
                    r == Err::<WorkRelease, ProgressionError>(ProgressionError::StaleVersion)
                } else {
                    match work_position(orders, id.sequence) {
                        None => r == Err::<WorkRelease, ProgressionError>(missing_work_error(a, *id)),
                        Some(i) => {
                            let w = orders[i];
                            let moved = orders.update(i, ScholarWorkOrder { stage: ScholarWorkStage::Cancelled, ..w });
                            let release = WorkRelease {
                                work_id: *id,
                                assignment: w.assignment,
                                reason,
                                released_reservation: w.stage is Reserved || w.stage is Working,
                                lost_progress_work_minutes: w.progress_work_minutes,
                            };
                            if !same_work_id(w.id, *id) || w.stage is Completed || w.stage is Cancelled {
                                r == Err::<WorkRelease, ProgressionError>(ProgressionError::InvalidWorkStage)
                            } else if a.version == u64::MAX {
                                r == Err::<WorkRelease, ProgressionError>(ProgressionError::ArithmeticOverflow)
                            } else if work_keeps_rules(a, views, moved, a.owned_studies.map(), a.prepared.map(), a.funded.map()) {
                                r == Ok::<WorkRelease, ProgressionError>(release) && work_next(
                                    a,
                                    *final(self),
                                    moved,
                                    a.owned_studies.map(),
                                    a.prepared.map(),
                                    a.funded.map(),
                                )
                            } else {
                                r == Err::<WorkRelease, ProgressionError>(ProgressionError::MalformedPersistence)
                            }
                        },
                    }
                }
            }),
    {
        if !text_eq(id.colony_id.as_str(), self.partition.colony_id.as_str()) {
            return Err(ProgressionError::PartitionMismatch);
        }
        if expected_version != self.version {
            return Err(ProgressionError::StaleVersion);
        }
        let i = match self.find_work(id.sequence) {
            Some(i) => i,
            None => {
                return Err(
                    if id.sequence <= self.retired_work_through {
                        ProgressionError::RetiredReplay
                    } else {
                        ProgressionError::UnknownWork
                    },
                );
            },
        };
        let w = &self.work_orders[i];
        if !(text_eq(w.id.colony_id.as_str(), id.colony_id.as_str()) && w.id.sequence == id.sequence) || w.stage.terminal() {
            return Err(ProgressionError::InvalidWorkStage);
        }
        let release = WorkRelease {
            work_id: id.exact_copy(),
            assignment: w.assignment.exact_copy(),
            reason,
            released_reservation: match w.stage {
                ScholarWorkStage::Reserved | ScholarWorkStage::Working => true,
                _ => false,
            },
            lost_progress_work_minutes: w.progress_work_minutes,
        };
        let ghost a = *self;
        let ghost views = catalog.views();
        let mut next = self.duplicate();
        let mut moved = next.work_orders[i].exact_copy();
        moved.stage = ScholarWorkStage::Cancelled;
        next.work_orders.set(i, moved);
        let ghost before_commit = next;
        let r = self.commit_next(next, catalog);
        proof {
            let orders = a.work_orders@.update(
                i as int,
                ScholarWorkOrder { stage: ScholarWorkStage::Cancelled, ..a.work_orders@[i as int] },
            );
            assert(before_commit.work_orders@ =~= orders);
            if r is Ok {
                assert(work_next(a, *self, orders, a.owned_studies.map(), a.prepared.map(), a.funded.map()));
                lemma_rules_determined(*self, before_commit, views);
                assert(work_keeps_rules(a, views, orders, a.owned_studies.map(), a.prepared.map(), a.funded.map()));
            } else if a.version < u64::MAX {
                assert forall|n: ProgressionAuthority|
                    #[trigger] work_next(a, n, orders, a.owned_studies.map(), a.prepared.map(), a.funded.map())
                        implies !progression_rules(n, views) by {
                    assert(progression_equiv(n, before_commit));
                    lemma_rules_determined(n, before_commit, views);
                }
                assert(!work_keeps_rules(a, views, orders, a.owned_studies.map(), a.prepared.map(), a.funded.map()));
            }
        }
        match r {
            Ok(()) => Ok(release),
            Err(e) => Err(e),
        }
    }
}


/// The Notes a retired work order credits: those of completed Notes work.
pub open spec fn retired_credit(w: ScholarWorkOrder) -> Option<ResearchNotes> {
    match w.purpose {
        ScholarWorkPurpose::ProduceNotes { credit } => if w.stage is Completed {
            Some(credit)
        } else {
            None
        },
        _ => None,
    }
}

/// The Notes ledger once retiring work `sequence` commits.
pub open spec fn notes_after_retire(l: ResearchNotesLedger, sequence: u64, credit: Option<ResearchNotes>) -> ResearchNotesLedger {
    ResearchNotesLedger {
        retired_work_through: sequence,
        version: (l.version + 1) as u64,
        balance: ResearchNotes(
            (l.balance.0 + match credit {
                Some(c) => c.0 as int,
                None => 0int,
            }) as u64,
        ),
        ..l
    }
}

/// A Notes ledger with its counters replaced.
pub open spec fn notes_with(l: ResearchNotesLedger, version: u64, balance: u64, retired: u64) -> ResearchNotesLedger {
    ResearchNotesLedger { version, balance: ResearchNotes(balance), retired_work_through: retired, ..l }
}

/// Retire terminal work in sequence order, at most `steps` orders: the work
/// left, the retired sequence, the Notes ledger and the credits paid so far.
pub open spec fn drain_from(
    orders: Seq<ScholarWorkOrder>,
    retired: u64,
    notes: ResearchNotesLedger,
    partition: ColonyPartitionKey,
    credits: Seq<ResearchNotesCreditPayload>,
    steps: nat,
) -> Result<(Seq<ScholarWorkOrder>, u64, ResearchNotesLedger, Seq<ResearchNotesCreditPayload>), ProgressionError>
    decreases steps,
{
    if steps == 0 {
        Ok((orders, retired, notes, credits))
    } else if retired == u64::MAX {
        Err(ProgressionError::ArithmeticOverflow)
    } else {
        let sequence = (retired + 1) as u64;
        match work_position(orders, sequence) {
            None => Ok((orders, retired, notes, credits)),
            Some(i) => {
                let w = orders[i];
                if !(w.stage is Completed || w.stage is Cancelled) {
                    Ok((orders, retired, notes, credits))
                } else {
                    let credit = retired_credit(w);
                    match crate::progression_research::notes_advance_outcome(notes, sequence, credit) {
                        Err(e) => Err(e),
                        Ok(outcome) => {
                            let notes2 = if outcome == CurrencyCommitOutcome::Committed {
                                notes_after_retire(notes, sequence, credit)
                            } else {
                                notes
                            };
                            let credits2 = match credit {
                                Some(c) => credits.push(ResearchNotesCreditPayload { partition, work_id: w.id, amount: c }),
                                None => credits,
                            };
                            drain_from(orders.remove(i), sequence, notes2, partition, credits2, (steps - 1) as nat)
                        },
                    }
                }
            },
        }
    }
}

/// `n` is `a` one version later with retired work drained.
pub open spec fn drained_next(
    a: ProgressionAuthority,
    n: ProgressionAuthority,
    orders: Seq<ScholarWorkOrder>,
    retired: u64,
    notes: ResearchNotesLedger,
) -> bool {
    &&& progression_maps_wf(n)
    &&& n.schema_version == a.schema_version
    &&& n.partition == a.partition
    &&& n.version == a.version + 1
    &&& n.owned_studies.map() == a.owned_studies.map()
    &&& notes_equiv(n.notes, notes)
    &&& same_void(n.void, a.void)
    &&& n.next_work_sequence == a.next_work_sequence
    &&& n.retired_work_through == retired
    &&& n.work_orders@ == orders
    &&& n.prepared.map() == a.prepared.map()
    &&& n.god_queued.map() == a.god_queued.map()
    &&& n.funded.map() == a.funded.map()
    &&& n.leader_targets.map() == a.leader_targets.map()
}

pub open spec fn drained_keeps_rules(
    a: ProgressionAuthority,
    views: Map<Seq<char>, StudyView>,
    orders: Seq<ScholarWorkOrder>,
    retired: u64,
    notes: ResearchNotesLedger,
) -> bool {
    exists|n: ProgressionAuthority| #[trigger] drained_next(a, n, orders, retired, notes) && progression_rules(n, views)
}

impl ProgressionAuthority {
    /// Retire up to `limit` terminal work orders in sequence order, crediting
    /// the Notes that completed Notes work produced.
    #[verifier::rlimit(60)]
    pub fn drain_terminal_work(&mut self, catalog: &ProgressionCatalog, limit: usize) -> (r: Result<
        Vec<ResearchNotesCreditPayload>,
        ProgressionError,
    >)
        requires
            progression_maps_wf(*old(self)),
        ensures
            progression_maps_wf(*final(self)),
            r is Err ==> *final(self) == *old(self),
            ({
                let a = *old(self);
                let views = catalog.views();
                if limit == 0 || limit > MAX_DRAIN_BATCH {
                    r == Err::<Vec<ResearchNotesCreditPayload>, ProgressionError>(ProgressionError::CapacityExceeded)
                } else {
                    match drain_from(a.work_orders@, a.retired_work_through, a.notes, a.partition, Seq::empty(), limit as nat) {
                        Err(e) => r == Err::<Vec<ResearchNotesCreditPayload>, ProgressionError>(e),
                        Ok((orders, retired, notes, credits)) => if credits.len() == 0 && retired == a.retired_work_through {
                            r matches Ok(v) && v@.len() == 0 && *final(self) == a
                        } else if a.version == u64::MAX {
                            r == Err::<Vec<ResearchNotesCreditPayload>, ProgressionError>(ProgressionError::ArithmeticOverflow)
                        } else if drained_keeps_rules(a, views, orders, retired, notes) {
                            r matches Ok(v) && v@ == credits && drained_next(a, *final(self), orders, retired, notes)
                        } else {
                            r == Err::<Vec<ResearchNotesCreditPayload>, ProgressionError>(ProgressionError::MalformedPersistence)
                        },
                    }
                }
            }),
    {
        if limit == 0 || limit > MAX_DRAIN_BATCH {
            return Err(ProgressionError::CapacityExceeded);
        }
        let ghost a = *self;
        let ghost views = catalog.views();
        let ghost part = self.partition;
        let mut next = self.duplicate();
        let mut credits: Vec<ResearchNotesCreditPayload> = Vec::new();
        let mut k: usize = 0;
        proof {
            assert(credits@ =~= Seq::<ResearchNotesCreditPayload>::empty());
            assert(notes_with(a.notes, next.notes.version, next.notes.balance.0, next.notes.retired_work_through) == a.notes);
        }
        while k < limit
            invariant_except_break
                k <= limit,
                0 < limit <= MAX_DRAIN_BATCH,
                *self == a,
                progression_maps_wf(a),
                next.notes.schema_version == a.notes.schema_version,
                next.notes.partition == a.notes.partition,
                next.notes.spends@ == a.notes.spends@,
                next.notes.spends.wf(),
                part == a.partition,
                next.partition == a.partition,
                progression_maps_wf(next),
                next.schema_version == a.schema_version,
                next.version == a.version,
                next.owned_studies@ == a.owned_studies@,
                same_void(next.void, a.void),
                next.next_work_sequence == a.next_work_sequence,
                next.prepared@ == a.prepared@,
                next.god_queued@ == a.god_queued@,
                next.funded@ == a.funded@,
                next.leader_targets@ == a.leader_targets@,
                drain_from(a.work_orders@, a.retired_work_through, a.notes, part, Seq::empty(), limit as nat) == drain_from(
                    next.work_orders@,
                    next.retired_work_through,
                    notes_with(a.notes, next.notes.version, next.notes.balance.0, next.notes.retired_work_through),
                    part,
                    credits@,
                    (limit - k) as nat,
                ),
            ensures
                *self == a,
                progression_maps_wf(a),
                next.notes.schema_version == a.notes.schema_version,
                next.notes.partition == a.notes.partition,
                next.notes.spends@ == a.notes.spends@,
                next.notes.spends.wf(),
                part == a.partition,
                next.partition == a.partition,
                progression_maps_wf(next),
                next.schema_version == a.schema_version,
                next.version == a.version,
                next.owned_studies@ == a.owned_studies@,
                same_void(next.void, a.void),
                next.next_work_sequence == a.next_work_sequence,
                next.prepared@ == a.prepared@,
                next.god_queued@ == a.god_queued@,
                next.funded@ == a.funded@,
                next.leader_targets@ == a.leader_targets@,
                drain_from(a.work_orders@, a.retired_work_through, a.notes, part, Seq::empty(), limit as nat) == Ok::<
                    (Seq<ScholarWorkOrder>, u64, ResearchNotesLedger, Seq<ResearchNotesCreditPayload>),
                    ProgressionError,
                >(
                    (
                        next.work_orders@,
                        next.retired_work_through,
                        notes_with(a.notes, next.notes.version, next.notes.balance.0, next.notes.retired_work_through),
                        credits@,
                    ),
                ),
            decreases limit - k,
        {
            if next.retired_work_through == u64::MAX {
                return Err(ProgressionError::ArithmeticOverflow);
            }
            let sequence = next.retired_work_through + 1;
            let i = match next.find_work(sequence) {
                Some(i) => i,
                None => {
                    break;
                },
            };
            if !next.work_orders[i].stage.terminal() {
                break;
            }
            let credit = match &next.work_orders[i].purpose {
                ScholarWorkPurpose::ProduceNotes { credit } => match next.work_orders[i].stage {
                    ScholarWorkStage::Completed => Some(*credit),
                    _ => None,
                },
                _ => None,
            };
            let ghost notes_before = next.notes;
            proof {
                assert(credit == retired_credit(next.work_orders@[i as int]));
                assert(crate::progression_research::notes_advance_outcome(notes_before, sequence, credit)
                    == crate::progression_research::notes_advance_outcome(
                    notes_with(a.notes, notes_before.version, notes_before.balance.0, notes_before.retired_work_through),
                    sequence,
                    credit,
                ));
            }
            match next.notes.advance_scholar_work(sequence, credit) {
                Ok(_) => {},
                Err(e) => {
                    return Err(e);
                },
            }

            let ghost credits_before = credits@;
            match credit {
                Some(amount) => {
                    let w = &next.work_orders[i];
                    credits.push(
                        ResearchNotesCreditPayload {
                            partition: ColonyPartitionKey { colony_id: next.partition.colony_id.duplicate() },
                            work_id: w.id.exact_copy(),
                            amount,
                        },
                    );
                },
                None => {},
            }
            let ghost orders_before = next.work_orders@;
            next.work_orders.remove(i);
            next.retired_work_through = sequence;
            proof {
                assert(next.work_orders@ =~= orders_before.remove(i as int));
            }
            k = k + 1;
        }
        if credits.len() == 0 && next.retired_work_through == self.retired_work_through {
            return Ok(credits);
        }
        let ghost before_commit = next;
        let ghost orders = next.work_orders@;
        let ghost retired = next.retired_work_through;
        let ghost notes = notes_with(a.notes, next.notes.version, next.notes.balance.0, next.notes.retired_work_through);
        let r = self.commit_next(next, catalog);
        proof {
            if r is Ok {
                assert(drained_next(a, *self, orders, retired, notes));
                lemma_rules_determined(*self, before_commit, views);
                assert(drained_keeps_rules(a, views, orders, retired, notes));
            } else if a.version < u64::MAX {
                assert forall|n: ProgressionAuthority| #[trigger] drained_next(a, n, orders, retired, notes)
                    implies !progression_rules(n, views) by {
                    assert(progression_equiv(n, before_commit));
                    lemma_rules_determined(n, before_commit, views);
                }
                assert(!drained_keeps_rules(a, views, orders, retired, notes));
            }
        }
        match r {
            Ok(()) => Ok(credits),
            Err(e) => Err(e),
        }
    }
}


/// An operation on a piece of content.
#[derive(Debug, Clone, Copy, PartialEq, Eq, Structural)]
pub enum ContentOperation {
    Discover,
    Store,
    Trade,
    Process,
    Craft,
    InstallFixture,
    Augment,
    FeedHole,
}

/// The class of a piece of content in the content manifest.
#[derive(Debug, Clone, Copy, PartialEq, Eq, Structural)]
pub enum ManifestContentClass {
    Resource,
    Food,
    Item,
    Material,
    Creature,
    Station,
    Recipe,
    Augmentation,
    Fixture,
}

/// Whether an operation applies to content of a class.
pub open spec fn operation_accepts(operation: ContentOperation, class: ManifestContentClass) -> bool {
    match operation {
        ContentOperation::Discover | ContentOperation::Store | ContentOperation::Trade => true,
        ContentOperation::Process => class == ManifestContentClass::Resource || class == ManifestContentClass::Food || class
            == ManifestContentClass::Material,
        ContentOperation::Craft => class != ManifestContentClass::Creature && class != ManifestContentClass::Station,
        ContentOperation::InstallFixture => class == ManifestContentClass::Fixture,
        ContentOperation::Augment => class == ManifestContentClass::Item || class == ManifestContentClass::Augmentation,
        ContentOperation::FeedHole => class != ManifestContentClass::Creature && class != ManifestContentClass::Station
            && class != ManifestContentClass::Recipe,
    }
}

pub fn operation_accepts_class(operation: ContentOperation, class: ManifestContentClass) -> (r: bool)
    ensures
        r == operation_accepts(operation, class),
{
    match operation {
        ContentOperation::Discover | ContentOperation::Store | ContentOperation::Trade => true,
        ContentOperation::Process => match class {
            ManifestContentClass::Resource | ManifestContentClass::Food | ManifestContentClass::Material => true,
            _ => false,
        },
        ContentOperation::Craft => match class {
            ManifestContentClass::Creature | ManifestContentClass::Station => false,
            _ => true,
        },
        ContentOperation::InstallFixture => match class {
            ManifestContentClass::Fixture => true,
            _ => false,
        },
        ContentOperation::Augment => match class {
            ManifestContentClass::Item | ManifestContentClass::Augmentation => true,
            _ => false,
        },
        ContentOperation::FeedHole => match class {
            ManifestContentClass::Creature | ManifestContentClass::Station | ManifestContentClass::Recipe => false,
            _ => true,
        },
    }
}

/// Every capability in `required` is owned.
pub open spec fn all_owned(owned: Set<Seq<char>>, required: Seq<Seq<char>>) -> bool {
    forall|i: int| 0 <= i < required.len() ==> owned.contains(#[trigger] required[i])
}

/// What the content manifest says of a recipe that a recipe gate reads: the
/// station tier it needs, the capability of its bundle, its station's own
/// capability requirement (`None` when the manifest lists no such station,
/// `Some(None)` for a free station) and, for each ingredient, the
/// capabilities crafting with it requires (`None` when the manifest knows no
/// rule for it).
#[derive(Debug, Clone, PartialEq, Eq)]
pub struct RecipeFacts {
    pub station_tier: u8,
    pub bundle_capability: String,
    pub station_requirement: Option<Option<String>>,
    pub ingredient_requirements: Vec<Option<Vec<String>>>,
}

pub open spec fn requirement_view(r: Option<Vec<String>>) -> Option<Seq<Seq<char>>> {
    match r {
        Some(v) => Some(strings_view(v@)),
        None => None,
    }
}

/// The first ingredient among the first `n` that is unknown or locked.
pub open spec fn ingredients_fault(owned: Set<Seq<char>>, ingredients: Seq<Option<Vec<String>>>, n: int) -> Option<ProgressionError>
    decreases n,
{
    if n <= 0 {
        None
    } else if ingredients_fault(owned, ingredients, n - 1) is Some {
        ingredients_fault(owned, ingredients, n - 1)
    } else {
        match requirement_view(ingredients[n - 1]) {
            None => Some(ProgressionError::ManifestInvalid),
            Some(req) => if all_owned(owned, req) {
                None
            } else {
                Some(ProgressionError::CapabilityLocked)
            },
        }
    }
}

/// The recipe gate: a known recipe, the physical prerequisites in place, the
/// bundle capability owned, a known station whose capability is owned, and
/// every ingredient craftable with the owned capabilities.
pub open spec fn recipe_gate(owned: Set<Seq<char>>, check: RecipeCapabilityCheck, recipe: Option<RecipeFacts>) -> Result<(), ProgressionError> {
    match recipe {
        None => Err(ProgressionError::UnknownContent),
        Some(f) => if !check.station_exists || check.station_tier < f.station_tier || !check.physical_ingredients_ready
            || !check.tools_ready || !check.capacity_ready || !check.workers_ready {
            Err(ProgressionError::PhysicalPrerequisiteMissing)
        } else if !owned.contains(f.bundle_capability@) {
            Err(ProgressionError::CapabilityLocked)
        } else if f.station_requirement is None {
            Err(ProgressionError::ManifestInvalid)
        } else if f.station_requirement matches Some(Some(c)) && !owned.contains(c@) {
            Err(ProgressionError::CapabilityLocked)
        } else {
            match ingredients_fault(owned, f.ingredient_requirements@, f.ingredient_requirements@.len() as int) {
                Some(e) => Err(e),
                None => Ok(()),
            }
        }
    }
}

/// The operation gate: known content of a class the operation applies to,
/// with a known rule whose required capabilities are all owned.
pub open spec fn operation_gate(
    class: Option<ManifestContentClass>,
    operation: ContentOperation,
    required: Option<Vec<String>>,
    owned: Set<Seq<char>>,
) -> Result<(), ProgressionError> {
    match class {
        None => Err(ProgressionError::UnknownContent),
        Some(c) => if !operation_accepts(operation, c) {
            Err(ProgressionError::InvalidOperationClass)
        } else {
            match requirement_view(required) {
                None => Err(ProgressionError::UnknownContent),
                Some(req) => if all_owned(owned, req) {
                    Ok(())
                } else {
                    Err(ProgressionError::CapabilityLocked)
                },
            }
        },
    }
}

fn owns_all(owned: &IdMap<()>, required: &Vec<String>) -> (r: bool)
    requires
        owned.wf(),
    ensures
        r == all_owned(owned.map().dom(), strings_view(required@)),
{
    let mut i: usize = 0;
    while i < required.len()
        invariant
            owned.wf(),
            i <= required@.len(),
            forall|j: int| 0 <= j < i ==> owned.map().dom().contains((#[trigger] required@[j])@),
        decreases required@.len() - i,
    {
        if !owned.contains_key(required[i].as_str()) {
            proof {
                assert(strings_view(required@)[i as int] == required@[i as int]@);
            }
            return false;
        }
        i = i + 1;
    }
    proof {
        assert forall|j: int| 0 <= j < required@.len() implies owned.map().dom().contains(
            #[trigger] strings_view(required@)[j],
        ) by {
            assert(strings_view(required@)[j] == required@[j]@);
        }
    }
    true
}

proof fn lemma_ingredients_fault_stops(owned: Set<Seq<char>>, ingredients: Seq<Option<Vec<String>>>, k: int, n: int)
    requires
        1 <= k <= n,
        ingredients_fault(owned, ingredients, k) is Some,
    ensures
        ingredients_fault(owned, ingredients, n) == ingredients_fault(owned, ingredients, k),
    decreases n - k,
{
    if n > k {
        lemma_ingredients_fault_stops(owned, ingredients, k, n - 1);
    }
}

impl ProgressionAuthority {
    /// The capabilities the colony holds, as a set.
    pub open spec fn owned_set(&self, catalog: ProgressionCatalog) -> Set<Seq<char>> {
        catalog.founding() + granted_capabilities(self.owned_studies.map(), catalog.views())
    }

    /// Whether the colony may perform `operation` on a piece of content, given
    /// what the content manifest says of it: its class (`None` when unknown)
    /// and the capabilities the operation on it requires (`None` when the
    /// manifest knows no rule for it).
    pub fn guard_operation(
        &self,
        catalog: &ProgressionCatalog,
        class: Option<ManifestContentClass>,
        operation: ContentOperation,
        required: Option<Vec<String>>,
    ) -> (r: Result<(), ProgressionError>)
        requires
            self.owned_studies.wf(),
        ensures
            r == operation_gate(class, operation, required, self.owned_set(*catalog)),
    {
        let c = match class {
            Some(c) => c,
            None => return Err(ProgressionError::UnknownContent),
        };
        if !operation_accepts_class(operation, c) {
            return Err(ProgressionError::InvalidOperationClass);
        }
        let owned = self.owned_capabilities(catalog);
        match required {
            None => Err(ProgressionError::UnknownContent),
            Some(req) => if owns_all(&owned, &req) {
                Ok(())
            } else {
                Err(ProgressionError::CapabilityLocked)
            },
        }
    }

    /// Whether the colony may craft a recipe now: the physical checks and the
    /// capability gates of the recipe, its station and its ingredients.
    pub fn guard_recipe(
        &self,
        catalog: &ProgressionCatalog,
        check: &RecipeCapabilityCheck,
        recipe: &Option<RecipeFacts>,
    ) -> (r: Result<(), ProgressionError>)
        requires
            self.owned_studies.wf(),
        ensures
            r == recipe_gate(self.owned_set(*catalog), *check, *recipe),
    {
        let f = match recipe {
            Some(f) => f,
            None => return Err(ProgressionError::UnknownContent),
        };
        if !check.station_exists || check.station_tier < f.station_tier || !check.physical_ingredients_ready
            || !check.tools_ready || !check.capacity_ready || !check.workers_ready {
            return Err(ProgressionError::PhysicalPrerequisiteMissing);
        }
        let owned = self.owned_capabilities(catalog);
        if !owned.contains_key(f.bundle_capability.as_str()) {
            return Err(ProgressionError::CapabilityLocked);
        }
        match &f.station_requirement {
            None => return Err(ProgressionError::ManifestInvalid),
            Some(Some(c)) => {
                if !owned.contains_key(c.as_str()) {
                    return Err(ProgressionError::CapabilityLocked);
                }
            },
            Some(None) => {},
        }
        let ghost ing = f.ingredient_requirements@;
        let n = f.ingredient_requirements.len();
        proof {
            assert(recipe_gate(self.owned_set(*catalog), *check, *recipe) == match ingredients_fault(
                self.owned_set(*catalog),
                ing,
                n as int,
            ) {
                Some(e) => Err(e),
                None => Ok::<(), ProgressionError>(()),
            });
        }
        let mut i: usize = 0;
        while i < n
            invariant
                ing == f.ingredient_requirements@,
                n == ing.len(),
                i <= n,
                owned.wf(),
                owned.map().dom() == self.owned_set(*catalog),
                ingredients_fault(self.owned_set(*catalog), ing, i as int) is None,
                recipe_gate(self.owned_set(*catalog), *check, *recipe) == match ingredients_fault(
                    self.owned_set(*catalog),
                    ing,
                    n as int,
                ) {
                    Some(e) => Err(e),
                    None => Ok::<(), ProgressionError>(()),
                },
            decreases n - i,
        {
            match &f.ingredient_requirements[i] {
                None => {
                    proof {
                        lemma_ingredients_fault_stops(self.owned_set(*catalog), ing, i + 1, n as int);
                    }
                    return Err(ProgressionError::ManifestInvalid);
                },
                Some(req) => {
                    if !owns_all(&owned, req) {
                        proof {
                            lemma_ingredients_fault_stops(self.owned_set(*catalog), ing, i + 1, n as int);
                        }
                        return Err(ProgressionError::CapabilityLocked);
                    }
                },
            }
            i = i + 1;
        }
        Ok(())
    }
}

} // verus!
