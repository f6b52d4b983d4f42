//! Persistent player directive mutations: broad nudges, standing orders,
//! authority overrides and treatment requests, each bounded and versioned.

use vstd::prelude::*;
use crate::text::{is_blank, text_is_blank, text_eq, opt_text, clone_opt_text, opt_text_eq, byte_len, text_byte_len};
use crate::id_map::{IdMap, first_entry_failure, lemma_first_entry_failure_prefix,
    lemma_first_entry_failure_step, map_filter, lemma_lookup_all, lemma_lookup_at};
use crate::officers::{OfficerRole, role_debug_name};
use crate::planner_core::{PlannerId, planner_id_text};

verus! {

pub const PLAYER_DIRECTIVE_SCHEMA_VERSION: u32 = 1;
pub const MAX_STANDING_ORDERS: usize = 14;
pub const MAX_AUTHORITY_OVERRIDES: usize = 128;
pub const MAX_TREATMENT_REQUESTS: usize = 256;
pub const MAX_BROAD_NUDGES: usize = 16;

/// Canonical God-facing strategic domains.
#[derive(Debug, Clone, Copy, PartialEq, Eq, PartialOrd, Ord, Hash, Structural)]
pub enum BroadNudgeDomain {
    Survival,
    Defense,
    Hole,
    Hunting,
    Food,
    Housing,
    Construction,
    Storage,
    Research,
    Trade,
    Infrastructure,
}

pub open spec fn domain_letter(d: BroadNudgeDomain) -> char {
    match d {
        BroadNudgeDomain::Survival => 'a',
        BroadNudgeDomain::Defense => 'b',
        BroadNudgeDomain::Hole => 'c',
        BroadNudgeDomain::Hunting => 'd',
        BroadNudgeDomain::Food => 'e',
        BroadNudgeDomain::Housing => 'f',
        BroadNudgeDomain::Construction => 'g',
        BroadNudgeDomain::Storage => 'h',
        BroadNudgeDomain::Research => 'i',
        BroadNudgeDomain::Trade => 'j',
        BroadNudgeDomain::Infrastructure => 'k',
    }
}

#[derive(Debug, Clone, PartialEq, Eq, PartialOrd, Ord, Hash)]
pub struct BroadNudgeKey {
    pub domain: BroadNudgeDomain,
    pub building_kind_id: Option<String>,
}

/// The ordered map key of a nudge key: a letter for the domain, then `:` and
/// the building kind when there is one. Keys sort as the key struct does.
pub open spec fn nudge_key_text(k: BroadNudgeKey) -> Seq<char> {
    match k.building_kind_id {
        None => seq![domain_letter(k.domain)],
        Some(s) => seq![domain_letter(k.domain), ':'] + s@,
    }
}

fn domain_letter_text(d: BroadNudgeDomain) -> (r: &'static str)
    ensures
        r@ == seq![domain_letter(d)],
{
    proof {
        reveal_strlit("a"); reveal_strlit("b"); reveal_strlit("c"); reveal_strlit("d");
        reveal_strlit("e"); reveal_strlit("f"); reveal_strlit("g"); reveal_strlit("h");
        reveal_strlit("i"); reveal_strlit("j"); reveal_strlit("k");
    }
    let r = match d {
        BroadNudgeDomain::Survival => "a",
        BroadNudgeDomain::Defense => "b",
        BroadNudgeDomain::Hole => "c",
        BroadNudgeDomain::Hunting => "d",
        BroadNudgeDomain::Food => "e",
        BroadNudgeDomain::Housing => "f",
        BroadNudgeDomain::Construction => "g",
        BroadNudgeDomain::Storage => "h",
        BroadNudgeDomain::Research => "i",
        BroadNudgeDomain::Trade => "j",
        BroadNudgeDomain::Infrastructure => "k",
    };
    assert(r@ =~= seq![domain_letter(d)]);
    r
}

impl BroadNudgeKey {
    fn key_text(&self) -> (r: String)
        ensures
            r@ == nudge_key_text(*self),
    {
        let mut s = String::from_str(domain_letter_text(self.domain));
        match &self.building_kind_id {
            None => {},
            Some(id) => {
                proof { reveal_strlit(":"); }
                s.append(":");
                s.append(id.as_str());
            },
        }
        assert(s@ =~= nudge_key_text(*self));
        s
    }
}

#[derive(Debug, Clone, PartialEq, Eq)]
pub struct BroadNudgeDirective {
    pub key: BroadNudgeKey,
    pub basis_points: i16,
    pub planning_epoch: u64,
}

pub open spec fn nudge_same(a: BroadNudgeDirective, b: BroadNudgeDirective) -> bool {
    a.key.domain == b.key.domain && opt_text(a.key.building_kind_id) == opt_text(b.key.building_kind_id)
        && a.basis_points == b.basis_points && a.planning_epoch == b.planning_epoch
}

fn nudges_equal(a: &BroadNudgeDirective, b: &BroadNudgeDirective) -> (r: bool)
    ensures
        r == nudge_same(*a, *b),
{
    a.key.domain == b.key.domain && opt_text_eq(&a.key.building_kind_id, &b.key.building_kind_id)
        && a.basis_points == b.basis_points && a.planning_epoch == b.planning_epoch
}

#[derive(Debug, Clone, PartialEq, Eq, PartialOrd, Ord, Hash)]
pub struct PlayerDirectiveId(PlannerId);

pub open spec fn directive_id_text(namespace: Seq<char>, colony_id: Seq<char>, action_id: Seq<char>) -> Seq<char> {
    planner_id_text(
        seq!['p', 'l', 'a', 'y', 'e', 'r', '_', 'd', 'i', 'r', 'e', 'c', 't', 'i', 'v', 'e'],
        seq![namespace, colony_id, action_id],
    )
}

impl PlayerDirectiveId {
    pub closed spec fn view(&self) -> Seq<char> {
        self.0@
    }

    pub fn derive(namespace: &str, colony_id: &PlannerId, action_id: &str) -> (r: Self)
        ensures
            r@ == directive_id_text(namespace@, colony_id@, action_id@),
    {
        proof { reveal_strlit("player_directive"); }
        let parts: [&str; 3] = [namespace, colony_id.as_str(), action_id];
        let id = PlannerId::derive("player_directive", parts.as_slice());
        proof {
            assert(crate::planner_core::texts_view(parts@) =~= seq![namespace@, colony_id@, action_id@]);
            assert("player_directive"@ =~= seq!['p', 'l', 'a', 'y', 'e', 'r', '_', 'd', 'i', 'r', 'e', 'c', 't', 'i', 'v', 'e']);
        }
        PlayerDirectiveId(id)
    }

    pub fn as_str(&self) -> (r: &str)
        ensures
            r@ == self@,
    {
        self.0.as_str()
    }

    fn duplicate(&self) -> (r: Self)
        ensures
            r == *self,
    {
        PlayerDirectiveId(self.0.duplicate())
    }
}

#[derive(Debug, Clone, PartialEq, Eq)]
pub struct StandingOrder {
    pub id: PlayerDirectiveId,
    pub order_kind: String,
    pub domain: String,
    pub target_id: Option<String>,
    pub instruction: String,
    pub priority_basis_points: u16,
    pub expires_tick: Option<u64>,
    pub created_tick: u64,
}

pub open spec fn order_same(a: StandingOrder, b: StandingOrder) -> bool {
    &&& a.id@ == b.id@
    &&& a.order_kind@ == b.order_kind@
    &&& a.domain@ == b.domain@
    &&& opt_text(a.target_id) == opt_text(b.target_id)
    &&& a.instruction@ == b.instruction@
    &&& a.priority_basis_points == b.priority_basis_points
    &&& a.expires_tick == b.expires_tick
    &&& a.created_tick == b.created_tick
}

fn orders_equal(a: &StandingOrder, b: &StandingOrder) -> (r: bool)
    ensures
        r == order_same(*a, *b),
{
    text_eq(a.id.as_str(), b.id.as_str()) && text_eq(a.order_kind.as_str(), b.order_kind.as_str())
        && text_eq(a.domain.as_str(), b.domain.as_str()) && opt_text_eq(&a.target_id, &b.target_id)
        && text_eq(a.instruction.as_str(), b.instruction.as_str())
        && a.priority_basis_points == b.priority_basis_points && a.expires_tick == b.expires_tick
        && a.created_tick == b.created_tick
}

impl StandingOrder {
    fn duplicate(&self) -> (r: Self)
        ensures
            r == *self,
    {
        StandingOrder {
            id: self.id.duplicate(),
            order_kind: self.order_kind.clone(),
            domain: self.domain.clone(),
            target_id: clone_opt_text(&self.target_id),
            instruction: self.instruction.clone(),
            priority_basis_points: self.priority_basis_points,
            expires_tick: self.expires_tick,
            created_tick: self.created_tick,
        }
    }
}

#[derive(Debug, Clone, PartialEq, Eq)]
pub struct StandingOrderPatch {
    pub instruction: Option<String>,
    pub priority_basis_points: Option<u16>,
    pub target_id: Option<String>,
    pub clear_target: bool,
    pub expires_tick: Option<u64>,
    pub clear_expiry: bool,
}

/// The order after a patch: set fields replace, clear flags win over new values.
pub open spec fn patched_order(o: StandingOrder, p: StandingOrderPatch) -> StandingOrder {
    StandingOrder {
        instruction: match p.instruction { Some(i) => i, None => o.instruction },
        priority_basis_points: match p.priority_basis_points { Some(x) => x, None => o.priority_basis_points },
        target_id: if p.clear_target { None } else { match p.target_id { Some(t) => Some(t), None => o.target_id } },
        expires_tick: if p.clear_expiry { None } else { match p.expires_tick { Some(t) => Some(t), None => o.expires_tick } },
        ..o
    }
}

#[derive(Debug, Clone, PartialEq, Eq, PartialOrd, Ord)]
pub struct AuthorityOverrideKey {
    pub role: OfficerRole,
    pub domain: String,
    pub request_id: Option<String>,
}

pub open spec fn override_key_text(k: AuthorityOverrideKey) -> Seq<char> {
    planner_id_text(
        seq!['a', 'u', 't', 'h', 'o', 'r', 'i', 't', 'y', '_', 'o', 'v', 'e', 'r', 'r', 'i', 'd', 'e'],
        seq![role_debug_name(k.role), k.domain@, match k.request_id { Some(r) => r@, None => Seq::<char>::empty() }],
    )
}

impl AuthorityOverrideKey {
    fn stable_key(&self) -> (r: String)
        ensures
            r@ == override_key_text(*self),
    {
        proof { reveal_strlit(""); reveal_strlit("authority_override"); }
        let request: &str = match &self.request_id {
            Some(r) => r.as_str(),
            None => {
                assert(""@ =~= Seq::<char>::empty());
                ""
            },
        };
        assert(request@ == match self.request_id { Some(r) => r@, None => Seq::<char>::empty() });
        let parts: [&str; 3] = [self.role.debug_name(), self.domain.as_str(), request];
        let id = PlannerId::derive("authority_override", parts.as_slice());
        proof {
            assert(crate::planner_core::texts_view(parts@) =~= seq![role_debug_name(self.role), self.domain@, match self.request_id { Some(r) => r@, None => Seq::<char>::empty() }]);
            assert("authority_override"@ =~= seq!['a', 'u', 't', 'h', 'o', 'r', 'i', 't', 'y', '_', 'o', 'v', 'e', 'r', 'r', 'i', 'd', 'e']);
        }
        String::from_str(id.as_str())
    }
}

#[derive(Debug, Clone, PartialEq, Eq)]
pub struct TreatmentRequest {
    pub id: PlayerDirectiveId,
    pub cat_id: String,
    pub injury_id: String,
    pub treatment_kind: String,
    pub requested_tick: u64,
}

pub open spec fn treatment_same(a: TreatmentRequest, b: TreatmentRequest) -> bool {
    a.id@ == b.id@ && a.cat_id@ == b.cat_id@ && a.injury_id@ == b.injury_id@
        && a.treatment_kind@ == b.treatment_kind@ && a.requested_tick == b.requested_tick
}

fn treatments_equal(a: &TreatmentRequest, b: &TreatmentRequest) -> (r: bool)
    ensures
        r == treatment_same(*a, *b),
{
    text_eq(a.id.as_str(), b.id.as_str()) && text_eq(a.cat_id.as_str(), b.cat_id.as_str())
        && text_eq(a.injury_id.as_str(), b.injury_id.as_str())
        && text_eq(a.treatment_kind.as_str(), b.treatment_kind.as_str())
        && a.requested_tick == b.requested_tick
}

#[derive(Debug, Clone, Copy, PartialEq, Eq, Structural)]
pub enum PlayerDirectiveError {
    UnknownDirective,
    InvalidDirective,
    CapacityReached,
    IdConflict,
    VersionExhausted,
    MalformedPersistence,
}

/// A standing order needs a kind, a domain, a non-blank instruction of at most
/// 512 bytes, and an expiry (if any) after its creation tick.
pub open spec fn order_valid(o: StandingOrder) -> bool {
    &&& o.order_kind@.len() > 0
    &&& o.domain@.len() > 0
    &&& !is_blank(o.instruction@)
    &&& byte_len(o.instruction@) <= 512
    &&& !(o.expires_tick matches Some(e) && e <= o.created_tick)
}

/// A broad nudge needs a non-zero weight within ±1,500 basis points, and only
/// construction nudges may name a building kind (non-blank, at most 128 bytes).
pub open spec fn nudge_valid(d: BroadNudgeDirective) -> bool {
    &&& d.basis_points != 0
    &&& -1_500 <= d.basis_points <= 1_500
    &&& match d.key.building_kind_id {
        None => true,
        Some(id) => d.key.domain is Construction && !is_blank(id@) && byte_len(id@) <= 128,
    }
}

pub open spec fn treatment_fields_present(r: TreatmentRequest) -> bool {
    r.cat_id@.len() > 0 && r.injury_id@.len() > 0 && r.treatment_kind@.len() > 0
}

fn validate_standing_order(order: &StandingOrder) -> (r: Result<(), PlayerDirectiveError>)
    ensures
        r is Ok <==> order_valid(*order),
        r matches Err(e) ==> e == PlayerDirectiveError::InvalidDirective,
{
    if order.order_kind.as_str().is_empty() || order.domain.as_str().is_empty()
        || text_is_blank(order.instruction.as_str()) || text_byte_len(order.instruction.as_str()) > 512
    {
        return Err(PlayerDirectiveError::InvalidDirective);
    }
    if let Some(expiry) = order.expires_tick {
        if expiry <= order.created_tick {
            return Err(PlayerDirectiveError::InvalidDirective);
        }
    }
    Ok(())
}

fn validate_broad_nudge(directive: &BroadNudgeDirective) -> (r: Result<(), PlayerDirectiveError>)
    ensures
        r is Ok <==> nudge_valid(*directive),
        r matches Err(e) ==> e == PlayerDirectiveError::InvalidDirective,
{
    if directive.basis_points == 0 || directive.basis_points < -1_500 || directive.basis_points > 1_500 {
        return Err(PlayerDirectiveError::InvalidDirective);
    }
    match &directive.key.building_kind_id {
        None => Ok(()),
        Some(id) => {
            if matches!(directive.key.domain, BroadNudgeDomain::Construction) && !text_is_blank(id.as_str())
                && text_byte_len(id.as_str()) <= 128
            {
                Ok(())
            } else {
                Err(PlayerDirectiveError::InvalidDirective)
            }
        },
    }
}

pub open spec fn order_entry_check() -> spec_fn(Seq<char>, StandingOrder) -> Option<PlayerDirectiveError> {
    |k: Seq<char>, o: StandingOrder| if k != o.id@ {
        Some(PlayerDirectiveError::MalformedPersistence)
    } else if !order_valid(o) {
        Some(PlayerDirectiveError::InvalidDirective)
    } else {
        None
    }
}

pub open spec fn treatment_entry_check() -> spec_fn(Seq<char>, TreatmentRequest) -> Option<PlayerDirectiveError> {
    |k: Seq<char>, r: TreatmentRequest| if k != r.id@ || !treatment_fields_present(r) {
        Some(PlayerDirectiveError::MalformedPersistence)
    } else {
        None
    }
}

pub open spec fn nudge_entry_check() -> spec_fn(Seq<char>, BroadNudgeDirective) -> Option<PlayerDirectiveError> {
    |k: Seq<char>, d: BroadNudgeDirective| if k != nudge_key_text(d.key) || !nudge_valid(d) {
        Some(PlayerDirectiveError::MalformedPersistence)
    } else {
        None
    }
}

pub struct PlayerDirectiveState {
    pub schema_version: u32,
    pub version: u64,
    pub standing_orders: IdMap<StandingOrder>,
    pub authority_overrides: IdMap<bool>,
    pub treatment_requests: IdMap<TreatmentRequest>,
    pub broad_nudges: IdMap<BroadNudgeDirective>,
}

/// The first persistence rule the parts of a directive state break, in the
/// order they are checked.
pub open spec fn directive_parts_error(
    schema_version: u32,
    orders: Seq<(Seq<char>, StandingOrder)>,
    overrides_len: nat,
    treatments: Seq<(Seq<char>, TreatmentRequest)>,
    nudges: Seq<(Seq<char>, BroadNudgeDirective)>,
) -> Option<PlayerDirectiveError> {
    if schema_version != PLAYER_DIRECTIVE_SCHEMA_VERSION || orders.len() > MAX_STANDING_ORDERS
        || overrides_len > MAX_AUTHORITY_OVERRIDES || treatments.len() > MAX_TREATMENT_REQUESTS
        || nudges.len() > MAX_BROAD_NUDGES
    {
        Some(PlayerDirectiveError::MalformedPersistence)
    } else if first_entry_failure(orders, order_entry_check()) is Some {
        first_entry_failure(orders, order_entry_check())
    } else if first_entry_failure(treatments, treatment_entry_check()) is Some {
        first_entry_failure(treatments, treatment_entry_check())
    } else {
        first_entry_failure(nudges, nudge_entry_check())
    }
}

pub open spec fn directive_state_error(s: PlayerDirectiveState) -> Option<PlayerDirectiveError> {
    directive_parts_error(s.schema_version, s.standing_orders@, s.authority_overrides@.len(), s.treatment_requests@, s.broad_nudges@)
}

#[verifier::loop_isolation(false)]
fn validate_parts(
    schema_version: u32,
    orders: &IdMap<StandingOrder>,
    overrides_len: usize,
    treatments: &IdMap<TreatmentRequest>,
    nudges: &IdMap<BroadNudgeDirective>,
) -> (r: Result<(), PlayerDirectiveError>)
    ensures
        r is Err <==> directive_parts_error(schema_version, orders@, overrides_len as nat, treatments@, nudges@) is Some,
        r matches Err(e) ==> directive_parts_error(schema_version, orders@, overrides_len as nat, treatments@, nudges@) == Some(e),
{
    if schema_version != PLAYER_DIRECTIVE_SCHEMA_VERSION || orders.len() > MAX_STANDING_ORDERS
        || overrides_len > MAX_AUTHORITY_OVERRIDES || treatments.len() > MAX_TREATMENT_REQUESTS
        || nudges.len() > MAX_BROAD_NUDGES
    {
        return Err(PlayerDirectiveError::MalformedPersistence);
    }
    let n = orders.len();
    let mut i: usize = 0;
    while i < n
        invariant
            n == orders@.len(),
            i <= n,
            first_entry_failure(orders@.take(i as int), order_entry_check()) is None,
        decreases n - i,
    {
        proof { lemma_first_entry_failure_step(orders@, order_entry_check(), i as int); }
        let key = orders.key_at(i);
        let order = orders.value_at(i);
        if !text_eq(key.as_str(), order.id.as_str()) {
            proof { lemma_first_entry_failure_prefix(orders@, order_entry_check(), i + 1); }
            return Err(PlayerDirectiveError::MalformedPersistence);
        }
        if validate_standing_order(order).is_err() {
            proof { lemma_first_entry_failure_prefix(orders@, order_entry_check(), i + 1); }
            return Err(PlayerDirectiveError::InvalidDirective);
        }
        i = i + 1;
    }
    proof { assert(orders@.take(n as int) =~= orders@); }
    let n = treatments.len();
    let mut i: usize = 0;
    while i < n
        invariant
            n == treatments@.len(),
            i <= n,
            first_entry_failure(treatments@.take(i as int), treatment_entry_check()) is None,
        decreases n - i,
    {
        proof { lemma_first_entry_failure_step(treatments@, treatment_entry_check(), i as int); }
        let key = treatments.key_at(i);
        let request = treatments.value_at(i);
        if !text_eq(key.as_str(), request.id.as_str()) || request.cat_id.as_str().is_empty()
            || request.injury_id.as_str().is_empty() || request.treatment_kind.as_str().is_empty()
        {
            proof { lemma_first_entry_failure_prefix(treatments@, treatment_entry_check(), i + 1); }
            return Err(PlayerDirectiveError::MalformedPersistence);
        }
        i = i + 1;
    }
    proof { assert(treatments@.take(n as int) =~= treatments@); }
    let n = nudges.len();
    let mut i: usize = 0;
    while i < n
        invariant
            n == nudges@.len(),
            i <= n,
            first_entry_failure(nudges@.take(i as int), nudge_entry_check()) is None,
        decreases n - i,
    {
        proof { lemma_first_entry_failure_step(nudges@, nudge_entry_check(), i as int); }
        let key = nudges.key_at(i);
        let directive = nudges.value_at(i);
        let expected = directive.key.key_text();
        if !text_eq(key.as_str(), expected.as_str()) || validate_broad_nudge(directive).is_err() {
            proof { lemma_first_entry_failure_prefix(nudges@, nudge_entry_check(), i + 1); }
            return Err(PlayerDirectiveError::MalformedPersistence);
        }
        i = i + 1;
    }
    proof { assert(nudges@.take(n as int) =~= nudges@); }
    Ok(())
}


impl BroadNudgeDirective {
    fn duplicate(&self) -> (r: Self)
        ensures
            r == *self,
    {
        BroadNudgeDirective {
            key: BroadNudgeKey { domain: self.key.domain, building_kind_id: clone_opt_text(&self.key.building_kind_id) },
            basis_points: self.basis_points,
            planning_epoch: self.planning_epoch,
        }
    }
}

impl TreatmentRequest {
    fn duplicate(&self) -> (r: Self)
        ensures
            r == *self,
    {
        TreatmentRequest {
            id: self.id.duplicate(),
            cat_id: self.cat_id.clone(),
            injury_id: self.injury_id.clone(),
            treatment_kind: self.treatment_kind.clone(),
            requested_tick: self.requested_tick,
        }
    }
}

/// Nudges planned for a later epoch than `epoch`.
pub open spec fn has_future_nudge(s: Seq<(Seq<char>, BroadNudgeDirective)>, epoch: u64) -> bool {
    exists|i: int| 0 <= i < s.len() && (#[trigger] s[i]).1.planning_epoch > epoch
}

/// The nudges of exactly `epoch`.
pub open spec fn retained_nudges(m: Map<Seq<char>, BroadNudgeDirective>, epoch: u64) -> Map<Seq<char>, BroadNudgeDirective> {
    map_filter(m, |d: BroadNudgeDirective| d.planning_epoch == epoch)
}

/// A fresh map with only the nudges of `epoch`, in key order.
fn nudges_of_epoch(m: &IdMap<BroadNudgeDirective>, epoch: u64) -> (r: IdMap<BroadNudgeDirective>)
    requires
        m.wf(),
    ensures
        r.wf(),
        r.map() == retained_nudges(m.map(), epoch),
        r@.len() <= m@.len(),
        (r@.len() == m@.len()) <==> (forall|i: int| 0 <= i < m@.len() ==> (#[trigger] m@[i]).1.planning_epoch == epoch),
{
    let mut out: IdMap<BroadNudgeDirective> = IdMap::new();
    let n = m.len();
    let mut i: usize = 0;
    proof { lemma_lookup_all(m@); }
    while i < n
        invariant
            n == m@.len(),
            i <= n,
            m.wf(),
            out.wf(),
            out@.len() <= i,
            (out@.len() == i) <==> (forall|j: int| 0 <= j < i ==> (#[trigger] m@[j]).1.planning_epoch == epoch),
            forall|k: Seq<char>| out.map().contains_key(k) <==> (exists|j: int| 0 <= j < i && (#[trigger] m@[j]).0 == k && m@[j].1.planning_epoch == epoch),
            forall|k: Seq<char>| #[trigger] out.map().contains_key(k) ==> out.map()[k] == m.map()[k],
            forall|j: int| 0 <= j < n ==> m.map().contains_key(#[trigger] m@[j].0) && m.map()[m@[j].0] == m@[j].1,
        decreases n - i,
    {
        let d = m.value_at(i);
        if d.planning_epoch == epoch {
            let k = m.key_at(i).clone();
            let ghost before = out.map();
            proof {
                assert(!before.contains_key(k@)) by {
                    if before.contains_key(k@) {
                        let j = choose|j: int| 0 <= j < i && (#[trigger] m@[j]).0 == k@ && m@[j].1.planning_epoch == epoch;
                        assert(crate::text::text_lt(m@[j].0, m@[i as int].0));
                        crate::text::lemma_text_lt_irreflexive(k@);
                    }
                }
            }
            out.insert(k, d.duplicate());
            proof {
                assert forall|key: Seq<char>| out.map().contains_key(key) <==> (exists|j: int| 0 <= j < i + 1 && (#[trigger] m@[j]).0 == key && m@[j].1.planning_epoch == epoch) by {
                    if key == k@ {
                        assert(m@[i as int].0 == key);
                    }
                }
            }
        } else {
            proof {
                assert forall|key: Seq<char>| out.map().contains_key(key) <==> (exists|j: int| 0 <= j < i + 1 && (#[trigger] m@[j]).0 == key && m@[j].1.planning_epoch == epoch) by {
                    if exists|j: int| 0 <= j < i + 1 && (#[trigger] m@[j]).0 == key && m@[j].1.planning_epoch == epoch {
                        let j = choose|j: int| 0 <= j < i + 1 && (#[trigger] m@[j]).0 == key && m@[j].1.planning_epoch == epoch;
                        assert(j != i);
                    }
                }
            }
        }
        i = i + 1;
    }
    proof {
        assert forall|k: Seq<char>| out.map().contains_key(k) <==> retained_nudges(m.map(), epoch).contains_key(k) by {
            if m.map().contains_key(k) {
                let j = choose|j: int| 0 <= j < m@.len() && #[trigger] m@[j].0 == k;
                assert(m.map()[m@[j].0] == m@[j].1);
            }
        }
        assert(out.map() =~= retained_nudges(m.map(), epoch));
    }
    out
}

impl PlayerDirectiveState {
    pub open spec fn wf(&self) -> bool {
        &&& self.standing_orders.wf()
        &&& self.authority_overrides.wf()
        &&& self.treatment_requests.wf()
        &&& self.broad_nudges.wf()
    }

    pub fn new() -> (r: Self)
        ensures
            r.wf(),
            r.schema_version == PLAYER_DIRECTIVE_SCHEMA_VERSION,
            r.version == 0,
            r.standing_orders@.len() == 0,
            r.authority_overrides@.len() == 0,
            r.treatment_requests@.len() == 0,
            r.broad_nudges@.len() == 0,
    {
        PlayerDirectiveState {
            schema_version: PLAYER_DIRECTIVE_SCHEMA_VERSION,
            version: 0,
            standing_orders: IdMap::new(),
            authority_overrides: IdMap::new(),
            treatment_requests: IdMap::new(),
            broad_nudges: IdMap::new(),
        }
    }

    pub fn validate(&self) -> (r: Result<(), PlayerDirectiveError>)
        ensures
            r is Err <==> directive_state_error(*self) is Some,
            r matches Err(e) ==> directive_state_error(*self) == Some(e),
    {
        validate_parts(self.schema_version, &self.standing_orders, self.authority_overrides.len(),
            &self.treatment_requests, &self.broad_nudges)
    }

    fn bump_version(&mut self) -> (r: Result<(), PlayerDirectiveError>)
        ensures
            r is Err <==> old(self).version == u64::MAX,
            r matches Err(e) ==> e == PlayerDirectiveError::VersionExhausted,
            final(self).version == if r is Ok { old(self).version + 1 } else { old(self).version as int },
            final(self).schema_version == old(self).schema_version,
            final(self).standing_orders == old(self).standing_orders,
            final(self).authority_overrides == old(self).authority_overrides,
            final(self).treatment_requests == old(self).treatment_requests,
            final(self).broad_nudges == old(self).broad_nudges,
    {
        match self.version.checked_add(1) {
            Some(v) => {
                self.version = v;
                Ok(())
            },
            None => Err(PlayerDirectiveError::VersionExhausted),
        }
    }

    /// The current weight of the nudge under `key` for `planning_epoch`, or 0.
    pub fn broad_nudge_basis_points(&self, key: &BroadNudgeKey, planning_epoch: u64) -> (r: i16)
        requires
            self.wf(),
        ensures
            r == (if self.broad_nudges.map().contains_key(nudge_key_text(*key))
                && self.broad_nudges.map()[nudge_key_text(*key)].planning_epoch == planning_epoch {
                self.broad_nudges.map()[nudge_key_text(*key)].basis_points
            } else {
                0
            }),
    {
        let k = key.key_text();
        match self.broad_nudges.get(k.as_str()) {
            Some(d) => if d.planning_epoch == planning_epoch { d.basis_points } else { 0 },
            None => 0,
        }
    }

    /// Clear influences from older planning epochs; a future epoch is refused.
    #[verifier::loop_isolation(false)]
    pub fn retain_broad_nudge_epoch(&mut self, planning_epoch: u64) -> (r: Result<(), PlayerDirectiveError>)
        requires
            old(self).wf(),
        ensures
            final(self).wf(),
            final(self).schema_version == old(self).schema_version,
            final(self).standing_orders == old(self).standing_orders,
            final(self).authority_overrides == old(self).authority_overrides,
            final(self).treatment_requests == old(self).treatment_requests,
            has_future_nudge(old(self).broad_nudges@, planning_epoch) ==> r == Err::<(), PlayerDirectiveError>(PlayerDirectiveError::InvalidDirective)
                && final(self).broad_nudges == old(self).broad_nudges && final(self).version == old(self).version,
            !has_future_nudge(old(self).broad_nudges@, planning_epoch) ==> {
                let changed = final(self).broad_nudges@.len() != old(self).broad_nudges@.len();
                &&& final(self).broad_nudges.map() == retained_nudges(old(self).broad_nudges.map(), planning_epoch)
                &&& (changed && old(self).version == u64::MAX) ==> r == Err::<(), PlayerDirectiveError>(PlayerDirectiveError::VersionExhausted)
                    && final(self).version == old(self).version
                &&& !(changed && old(self).version == u64::MAX) ==> r is Ok
                    && final(self).version == old(self).version + if changed { 1int } else { 0int }
            },
    {
        let n = self.broad_nudges.len();
        let mut i: usize = 0;
        while i < n
            invariant
                n == self.broad_nudges@.len(),
                i <= n,
                forall|j: int| 0 <= j < i ==> (#[trigger] self.broad_nudges@[j]).1.planning_epoch <= planning_epoch,
            decreases n - i,
        {
            if self.broad_nudges.value_at(i).planning_epoch > planning_epoch {
                assert(has_future_nudge(self.broad_nudges@, planning_epoch));
                return Err(PlayerDirectiveError::InvalidDirective);
            }
            i = i + 1;
        }
        let kept = nudges_of_epoch(&self.broad_nudges, planning_epoch);
        let changed = kept.len() != n;
        self.broad_nudges = kept;
        if changed {
            self.bump_version()?;
        }
        Ok(())
    }

    /// Install or replace one non-stacking broad influence for the current
    /// planning epoch. Advancing the epoch clears every prior influence. The
    /// change is atomic: on any error the state is unchanged.
    #[verifier::loop_isolation(false)]
    pub fn set_broad_nudge(&mut self, directive: BroadNudgeDirective) -> (r: Result<(), PlayerDirectiveError>)
        requires
            old(self).wf(),
        ensures
            final(self).wf(),
            final(self).schema_version == old(self).schema_version,
            final(self).standing_orders == old(self).standing_orders,
            final(self).authority_overrides == old(self).authority_overrides,
            final(self).treatment_requests == old(self).treatment_requests,
            r is Err ==> final(self).broad_nudges == old(self).broad_nudges && final(self).version == old(self).version,
            !nudge_valid(directive) ==> r == Err::<(), PlayerDirectiveError>(PlayerDirectiveError::InvalidDirective),
            nudge_valid(directive) && has_future_nudge(old(self).broad_nudges@, directive.planning_epoch)
                ==> r == Err::<(), PlayerDirectiveError>(PlayerDirectiveError::InvalidDirective),
            nudge_valid(directive) && !has_future_nudge(old(self).broad_nudges@, directive.planning_epoch) ==> {
                let kept = retained_nudges(old(self).broad_nudges.map(), directive.planning_epoch);
                let changed = kept.len() != old(self).broad_nudges.map().len();
                let key = nudge_key_text(directive.key);
                let v1 = old(self).version + if changed { 1int } else { 0int };
                let same = kept.contains_key(key) && nudge_same(kept[key], directive);
                &&& (changed && old(self).version == u64::MAX) ==> r == Err::<(), PlayerDirectiveError>(PlayerDirectiveError::VersionExhausted)
                &&& !(changed && old(self).version == u64::MAX) && same ==> r is Ok
                    && final(self).broad_nudges.map() == kept && final(self).version == v1
                &&& !(changed && old(self).version == u64::MAX) && !same && !kept.contains_key(key)
                    && kept.len() >= MAX_BROAD_NUDGES ==> r == Err::<(), PlayerDirectiveError>(PlayerDirectiveError::CapacityReached)
                &&& !(changed && old(self).version == u64::MAX) && !same
                    && (kept.contains_key(key) || kept.len() < MAX_BROAD_NUDGES) ==> {
                    &&& v1 == u64::MAX ==> r == Err::<(), PlayerDirectiveError>(PlayerDirectiveError::VersionExhausted)
                    &&& v1 < u64::MAX ==> exists|next: Seq<(Seq<char>, BroadNudgeDirective)>|
                        crate::id_map::keys_sorted(next) && crate::id_map::entries_map(next) == kept.insert(key, directive)
                        && (match directive_parts_error(old(self).schema_version, old(self).standing_orders@,
                            old(self).authority_overrides@.len(), old(self).treatment_requests@, next) {
                            Some(e) => r == Err::<(), PlayerDirectiveError>(e),
                            None => r is Ok && final(self).broad_nudges@ == next && final(self).version == v1 + 1,
                        })
                }
            },
    {
        validate_broad_nudge(&directive)?;
        let n = self.broad_nudges.len();
        let mut i: usize = 0;
        while i < n
            invariant
                n == self.broad_nudges@.len(),
                i <= n,
                forall|j: int| 0 <= j < i ==> (#[trigger] self.broad_nudges@[j]).1.planning_epoch <= directive.planning_epoch,
            decreases n - i,
        {
            if self.broad_nudges.value_at(i).planning_epoch > directive.planning_epoch {
                assert(has_future_nudge(self.broad_nudges@, directive.planning_epoch));
                return Err(PlayerDirectiveError::InvalidDirective);
            }
            i = i + 1;
        }
        let mut next = nudges_of_epoch(&self.broad_nudges, directive.planning_epoch);
        proof {
            lemma_lookup_all(next@);
            lemma_lookup_all(self.broad_nudges@);
            assert(next.map().len() == next@.len()) by { crate::id_map::lemma_map_len(next@); }
            assert(self.broad_nudges.map().len() == self.broad_nudges@.len()) by { crate::id_map::lemma_map_len(self.broad_nudges@); }
        }
        let changed = next.len() != n;
        let mut version = self.version;
        if changed {
            if version == u64::MAX {
                return Err(PlayerDirectiveError::VersionExhausted);
            }
            version = version + 1;
        }
        let key = directive.key.key_text();
        let same = match next.get(key.as_str()) {
            Some(existing) => nudges_equal(existing, &directive),
            None => false,
        };
        if same {
            self.broad_nudges = next;
            self.version = version;
            return Ok(());
        }
        if !next.contains_key(key.as_str()) && next.len() >= MAX_BROAD_NUDGES {
            return Err(PlayerDirectiveError::CapacityReached);
        }
        next.insert(key, directive);
        if version == u64::MAX {
            return Err(PlayerDirectiveError::VersionExhausted);
        }
        let version = version + 1;
        validate_parts(self.schema_version, &self.standing_orders, self.authority_overrides.len(),
            &self.treatment_requests, &next)?;
        self.broad_nudges = next;
        self.version = version;
        Ok(())
    }
}


impl PlayerDirectiveState {
    /// Add a standing order within `min(slot_limit, 14)` slots. Re-sending an
    /// identical order is accepted as a no-op; a different order under the
    /// same ID is a conflict.
    pub fn create_standing_order(&mut self, order: StandingOrder, slot_limit: usize) -> (r: Result<(), PlayerDirectiveError>)
        requires
            old(self).wf(),
        ensures
            final(self).wf(),
            final(self).schema_version == old(self).schema_version,
            final(self).authority_overrides == old(self).authority_overrides,
            final(self).treatment_requests == old(self).treatment_requests,
            final(self).broad_nudges == old(self).broad_nudges,
            directive_state_error(*old(self)) matches Some(e) ==> r == Err::<(), PlayerDirectiveError>(e)
                && final(self).standing_orders == old(self).standing_orders && final(self).version == old(self).version,
            directive_state_error(*old(self)) is None ==> {
                let orders = old(self).standing_orders.map();
                let cap = if slot_limit < MAX_STANDING_ORDERS { slot_limit as int } else { MAX_STANDING_ORDERS as int };
                if orders.contains_key(order.id@) {
                    final(self).standing_orders == old(self).standing_orders && final(self).version == old(self).version
                    && (if order_same(orders[order.id@], order) { r is Ok } else { r == Err::<(), PlayerDirectiveError>(PlayerDirectiveError::IdConflict) })
                } else if old(self).standing_orders@.len() >= cap {
                    r == Err::<(), PlayerDirectiveError>(PlayerDirectiveError::CapacityReached)
                        && final(self).standing_orders == old(self).standing_orders && final(self).version == old(self).version
                } else if !order_valid(order) {
                    r == Err::<(), PlayerDirectiveError>(PlayerDirectiveError::InvalidDirective)
                        && final(self).standing_orders == old(self).standing_orders && final(self).version == old(self).version
                } else {
                    &&& final(self).standing_orders.map() == orders.insert(order.id@, order)
                    &&& old(self).version == u64::MAX ==> r == Err::<(), PlayerDirectiveError>(PlayerDirectiveError::VersionExhausted)
                        && final(self).version == old(self).version
                    &&& old(self).version < u64::MAX ==> r is Ok && final(self).version == old(self).version + 1
                }
            },
    {
        self.validate()?;
        let id = order.id.as_str();
        match self.standing_orders.get(id) {
            Some(existing) => {
                return if orders_equal(existing, &order) { Ok(()) } else { Err(PlayerDirectiveError::IdConflict) };
            },
            None => {},
        }
        let cap = if slot_limit < MAX_STANDING_ORDERS { slot_limit } else { MAX_STANDING_ORDERS };
        if self.standing_orders.len() >= cap {
            return Err(PlayerDirectiveError::CapacityReached);
        }
        validate_standing_order(&order)?;
        let key = String::from_str(order.id.as_str());
        self.standing_orders.insert(key, order);
        self.bump_version()
    }

    /// Apply a patch to the standing order with `id`.
    pub fn update_standing_order(&mut self, id: &str, patch: StandingOrderPatch) -> (r: Result<(), PlayerDirectiveError>)
        requires
            old(self).wf(),
        ensures
            final(self).wf(),
            final(self).schema_version == old(self).schema_version,
            final(self).authority_overrides == old(self).authority_overrides,
            final(self).treatment_requests == old(self).treatment_requests,
            final(self).broad_nudges == old(self).broad_nudges,
            !old(self).standing_orders.map().contains_key(id@) ==> r == Err::<(), PlayerDirectiveError>(PlayerDirectiveError::UnknownDirective)
                && final(self).standing_orders == old(self).standing_orders && final(self).version == old(self).version,
            old(self).standing_orders.map().contains_key(id@) ==> {
                let next = patched_order(old(self).standing_orders.map()[id@], patch);
                if !order_valid(next) {
                    r == Err::<(), PlayerDirectiveError>(PlayerDirectiveError::InvalidDirective)
                        && final(self).standing_orders == old(self).standing_orders && final(self).version == old(self).version
                } else {
                    &&& final(self).standing_orders.map() == old(self).standing_orders.map().insert(id@, next)
                    &&& old(self).version == u64::MAX ==> r == Err::<(), PlayerDirectiveError>(PlayerDirectiveError::VersionExhausted)
                        && final(self).version == old(self).version
                    &&& old(self).version < u64::MAX ==> r is Ok && final(self).version == old(self).version + 1
                }
            },
    {
        let mut next = match self.standing_orders.get(id) {
            Some(existing) => existing.duplicate(),
            None => return Err(PlayerDirectiveError::UnknownDirective),
        };
        match patch.instruction {
            Some(instruction) => next.instruction = instruction,
            None => {},
        }
        match patch.priority_basis_points {
            Some(priority) => next.priority_basis_points = priority,
            None => {},
        }
        if patch.clear_target {
            next.target_id = None;
        } else {
            match patch.target_id {
                Some(target) => next.target_id = Some(target),
                None => {},
            }
        }
        if patch.clear_expiry {
            next.expires_tick = None;
        } else {
            match patch.expires_tick {
                Some(expiry) => next.expires_tick = Some(expiry),
                None => {},
            }
        }
        validate_standing_order(&next)?;
        let key = String::from_str(id);
        self.standing_orders.insert(key, next);
        self.bump_version()
    }

    pub fn delete_standing_order(&mut self, id: &str) -> (r: Result<(), PlayerDirectiveError>)
        requires
            old(self).wf(),
        ensures
            final(self).wf(),
            final(self).schema_version == old(self).schema_version,
            final(self).authority_overrides == old(self).authority_overrides,
            final(self).treatment_requests == old(self).treatment_requests,
            final(self).broad_nudges == old(self).broad_nudges,
            !old(self).standing_orders.map().contains_key(id@) ==> r == Err::<(), PlayerDirectiveError>(PlayerDirectiveError::UnknownDirective)
                && final(self).standing_orders == old(self).standing_orders && final(self).version == old(self).version,
            old(self).standing_orders.map().contains_key(id@) ==> {
                &&& final(self).standing_orders.map() == old(self).standing_orders.map().remove(id@)
                &&& old(self).version == u64::MAX ==> r == Err::<(), PlayerDirectiveError>(PlayerDirectiveError::VersionExhausted)
                    && final(self).version == old(self).version
                &&& old(self).version < u64::MAX ==> r is Ok && final(self).version == old(self).version + 1
            },
    {
        if !self.standing_orders.contains_key(id) {
            return Err(PlayerDirectiveError::UnknownDirective);
        }
        self.standing_orders.remove(id);
        self.bump_version()
    }

    /// Grant or deny an officer authority override; setting the current value
    /// again changes nothing.
    pub fn set_authority_override(&mut self, key: AuthorityOverrideKey, granted: bool) -> (r: Result<(), PlayerDirectiveError>)
        requires
            old(self).wf(),
        ensures
            final(self).wf(),
            final(self).schema_version == old(self).schema_version,
            final(self).standing_orders == old(self).standing_orders,
            final(self).treatment_requests == old(self).treatment_requests,
            final(self).broad_nudges == old(self).broad_nudges,
            ({
                let k = override_key_text(key);
                let m = old(self).authority_overrides.map();
                if key.domain@.len() == 0 || byte_len(key.domain@) > 128 {
                    r == Err::<(), PlayerDirectiveError>(PlayerDirectiveError::InvalidDirective)
                        && final(self).authority_overrides == old(self).authority_overrides && final(self).version == old(self).version
                } else if !m.contains_key(k) && old(self).authority_overrides@.len() >= MAX_AUTHORITY_OVERRIDES {
                    r == Err::<(), PlayerDirectiveError>(PlayerDirectiveError::CapacityReached)
                        && final(self).authority_overrides == old(self).authority_overrides && final(self).version == old(self).version
                } else if m.contains_key(k) && m[k] == granted {
                    r is Ok && final(self).authority_overrides == old(self).authority_overrides && final(self).version == old(self).version
                } else {
                    &&& final(self).authority_overrides.map() == m.insert(k, granted)
                    &&& old(self).version == u64::MAX ==> r == Err::<(), PlayerDirectiveError>(PlayerDirectiveError::VersionExhausted)
                        && final(self).version == old(self).version
                    &&& old(self).version < u64::MAX ==> r is Ok && final(self).version == old(self).version + 1
                }
            }),
    {
        if key.domain.as_str().is_empty() || text_byte_len(key.domain.as_str()) > 128 {
            return Err(PlayerDirectiveError::InvalidDirective);
        }
        let stable_key = key.stable_key();
        if !self.authority_overrides.contains_key(stable_key.as_str()) && self.authority_overrides.len() >= MAX_AUTHORITY_OVERRIDES {
            return Err(PlayerDirectiveError::CapacityReached);
        }
        match self.authority_overrides.get(stable_key.as_str()) {
            Some(current) => if *current == granted { return Ok(()); },
            None => {},
        }
        self.authority_overrides.insert(stable_key, granted);
        self.bump_version()
    }

    /// Record a treatment request. Re-sending an identical request is a no-op;
    /// a different request under the same ID is a conflict.
    pub fn request_treatment(&mut self, request: TreatmentRequest) -> (r: Result<(), PlayerDirectiveError>)
        requires
            old(self).wf(),
        ensures
            final(self).wf(),
            final(self).schema_version == old(self).schema_version,
            final(self).standing_orders == old(self).standing_orders,
            final(self).authority_overrides == old(self).authority_overrides,
            final(self).broad_nudges == old(self).broad_nudges,
            ({
                let m = old(self).treatment_requests.map();
                if m.contains_key(request.id@) {
                    final(self).treatment_requests == old(self).treatment_requests && final(self).version == old(self).version
                    && (if treatment_same(m[request.id@], request) { r is Ok } else { r == Err::<(), PlayerDirectiveError>(PlayerDirectiveError::IdConflict) })
                } else if old(self).treatment_requests@.len() >= MAX_TREATMENT_REQUESTS || !treatment_fields_present(request) {
                    r == Err::<(), PlayerDirectiveError>(PlayerDirectiveError::CapacityReached)
                        && final(self).treatment_requests == old(self).treatment_requests && final(self).version == old(self).version
                } else {
                    &&& final(self).treatment_requests.map() == m.insert(request.id@, request)
                    &&& old(self).version == u64::MAX ==> r == Err::<(), PlayerDirectiveError>(PlayerDirectiveError::VersionExhausted)
                        && final(self).version == old(self).version
                    &&& old(self).version < u64::MAX ==> r is Ok && final(self).version == old(self).version + 1
                }
            }),
    {
        match self.treatment_requests.get(request.id.as_str()) {
            Some(existing) => {
                return if treatments_equal(existing, &request) { Ok(()) } else { Err(PlayerDirectiveError::IdConflict) };
            },
            None => {},
        }
        if self.treatment_requests.len() >= MAX_TREATMENT_REQUESTS || request.cat_id.as_str().is_empty()
            || request.injury_id.as_str().is_empty() || request.treatment_kind.as_str().is_empty()
        {
            return Err(PlayerDirectiveError::CapacityReached);
        }
        let key = String::from_str(request.id.as_str());
        self.treatment_requests.insert(key, request);
        self.bump_version()
    }
}

} // verus!
