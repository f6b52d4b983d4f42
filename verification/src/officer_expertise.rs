//! Officer expertise, appointment and succession: duty-earned expertise
//! levels, review cadence, office vacancies, appointments and the leader's
//! succession.

use vstd::prelude::*;
use crate::id_map::IdMap;
use crate::officer_requests::{OfficerRequestBook, OfficerRequestId, RequestView, adopt_all, bump, due_to_expire, evicted, expire_all, ids_view, keys_where, adoptable};
use crate::officers::{OfficerRole, role_rank};
use crate::planner_core::{PlannerId, planner_id_text};
use crate::text::{decimal, push_decimal, text_eq, text_is_empty, text_starts_with, text_less, text_lt, lemma_text_lt_irreflexive, lemma_text_lt_asymmetric, lemma_text_lt_transitive, lemma_text_lt_total};

verus! {

pub const OFFICER_INSTITUTION_SCHEMA_VERSION: u32 = 1;
pub const MAX_DUTY_RECORDS: usize = 4_096;
pub const MAX_APPOINTMENT_CANDIDATES: usize = 4_096;
pub const LEADER_SUCCESSION_GAME_HOURS: u64 = 6;
pub const PERSONAL_LEVEL_DUTY_HOURS: [u64; 5] = [0, 24, 96, 240, 480];

#[derive(Debug, Clone, Copy, PartialEq, Eq, PartialOrd, Ord, Hash, Structural)]
pub enum ExpertiseLevel {
    One,
    Two,
    Three,
    Four,
    Five,
}

/// The level as a number from one to five.
pub open spec fn level_value(level: ExpertiseLevel) -> int {
    match level {
        ExpertiseLevel::One => 1,
        ExpertiseLevel::Two => 2,
        ExpertiseLevel::Three => 3,
        ExpertiseLevel::Four => 4,
        ExpertiseLevel::Five => 5,
    }
}

/// The level with number `v`, for `1 <= v <= 5`.
pub open spec fn level_of(v: int) -> ExpertiseLevel {
    if v <= 1 {
        ExpertiseLevel::One
    } else if v == 2 {
        ExpertiseLevel::Two
    } else if v == 3 {
        ExpertiseLevel::Three
    } else if v == 4 {
        ExpertiseLevel::Four
    } else {
        ExpertiseLevel::Five
    }
}

impl ExpertiseLevel {
    /// The level's number, one to five.
    pub fn as_u8(self) -> (r: u8)
        ensures
            r == level_value(self),
    {
        match self {
            ExpertiseLevel::One => 1,
            ExpertiseLevel::Two => 2,
            ExpertiseLevel::Three => 3,
            ExpertiseLevel::Four => 4,
            ExpertiseLevel::Five => 5,
        }
    }

    /// The level with the given number; anything outside one to five is rejected.
    pub fn from_u8(value: u8) -> (r: Result<ExpertiseLevel, InstitutionError>)
        ensures
            1 <= value <= 5 ==> r == Ok::<ExpertiseLevel, InstitutionError>(level_of(value as int)),
            !(1 <= value <= 5) ==> r == Err::<ExpertiseLevel, InstitutionError>(InstitutionError::InvalidExpertiseLevel),
    {
        match value {
            1 => Ok(ExpertiseLevel::One),
            2 => Ok(ExpertiseLevel::Two),
            3 => Ok(ExpertiseLevel::Three),
            4 => Ok(ExpertiseLevel::Four),
            5 => Ok(ExpertiseLevel::Five),
            _ => Err(InstitutionError::InvalidExpertiseLevel),
        }
    }
}

#[derive(Debug, Clone, Copy, PartialEq, Eq, Structural)]
pub struct ExpertiseBonuses {
    pub workflow_operational: bool,
    pub reinforcement_operational: bool,
}

impl Default for ExpertiseBonuses {
    fn default() -> (r: Self)
        ensures
            !r.workflow_operational && !r.reinforcement_operational,
    {
        ExpertiseBonuses { workflow_operational: false, reinforcement_operational: false }
    }
}

/// Report-safe operational support for an office. A room and its required tool
/// can raise effective expertise only; they never alter the cat's persisted
/// personal duty level.
#[derive(Debug, Clone, PartialEq, Eq)]
pub struct OfficeExpertiseSupport {
    pub office_id: PlannerId,
    pub room_operational: bool,
    pub required_tool_id: Option<PlannerId>,
    pub required_tool_operational: bool,
}

impl OfficeExpertiseSupport {
    pub fn effective_bonuses(&self) -> (r: ExpertiseBonuses)
        ensures
            r.workflow_operational == self.room_operational,
            r.reinforcement_operational == (self.required_tool_id is Some && self.required_tool_operational),
    {
        ExpertiseBonuses {
            workflow_operational: self.room_operational,
            reinforcement_operational: self.required_tool_id.is_some() && self.required_tool_operational,
        }
    }
}

/// The level earned by a number of completed duty hours.
pub open spec fn level_for_hours(hours: int) -> ExpertiseLevel {
    if hours < 24 {
        ExpertiseLevel::One
    } else if hours < 96 {
        ExpertiseLevel::Two
    } else if hours < 240 {
        ExpertiseLevel::Three
    } else if hours < 480 {
        ExpertiseLevel::Four
    } else {
        ExpertiseLevel::Five
    }
}

pub fn personal_level_from_completed_duty_hours(completed_duty_hours: u64) -> (r: ExpertiseLevel)
    ensures
        r == level_for_hours(completed_duty_hours as int),
{
    if completed_duty_hours <= 23 {
        ExpertiseLevel::One
    } else if completed_duty_hours <= 95 {
        ExpertiseLevel::Two
    } else if completed_duty_hours <= 239 {
        ExpertiseLevel::Three
    } else if completed_duty_hours <= 479 {
        ExpertiseLevel::Four
    } else {
        ExpertiseLevel::Five
    }
}

/// Only whole completed hours count.
pub fn personal_level(completed_duty_minutes: u64) -> (r: ExpertiseLevel)
    ensures
        r == level_for_hours(completed_duty_minutes as int / 60),
{
    personal_level_from_completed_duty_hours(completed_duty_minutes / 60)
}

/// Each operational support raises the personal level by one, up to five.
pub open spec fn boosted_level(personal: ExpertiseLevel, bonuses: ExpertiseBonuses) -> ExpertiseLevel {
    level_of(
        level_value(personal) + (if bonuses.workflow_operational { 1int } else { 0 }) + (if bonuses.reinforcement_operational {
            1int
        } else {
            0
        }),
    )
}

/// Law: each operational office support (the workflow room, the
/// reinforcing tool) adds one level on its own, and the level never passes
/// five.
pub proof fn law_each_operational_support_adds_one_level(personal: ExpertiseLevel, bonuses: ExpertiseBonuses)
    ensures
        ({
            let sum = level_value(personal) + (if bonuses.workflow_operational { 1int } else { 0int }) + (
            if bonuses.reinforcement_operational {
                1int
            } else {
                0int
            });
            level_value(boosted_level(personal, bonuses)) == if sum > 5 { 5 } else { sum }
        }),
        bonuses.reinforcement_operational && level_value(personal) < 5 ==> level_value(
            boosted_level(personal, ExpertiseBonuses { reinforcement_operational: true, ..bonuses }),
        ) == level_value(boosted_level(personal, ExpertiseBonuses { reinforcement_operational: false, ..bonuses }))
            + 1 || level_value(boosted_level(personal, ExpertiseBonuses { reinforcement_operational: false, ..bonuses }))
            == 5,
        level_value(boosted_level(personal, ExpertiseBonuses { workflow_operational: false, reinforcement_operational: false }))
            == level_value(personal),
{
}

pub fn effective_level(personal: ExpertiseLevel, bonuses: ExpertiseBonuses) -> (r: ExpertiseLevel)
    ensures
        r == boosted_level(personal, bonuses),
{
    let value = personal.as_u8() + (if bonuses.workflow_operational { 1u8 } else { 0u8 }) + (if bonuses.reinforcement_operational {
        1u8
    } else {
        0u8
    });
    let capped = if value > 5 { 5 } else { value };
    match capped {
        1 => ExpertiseLevel::One,
        2 => ExpertiseLevel::Two,
        3 => ExpertiseLevel::Three,
        4 => ExpertiseLevel::Four,
        _ => ExpertiseLevel::Five,
    }
}

pub open spec fn cadence_minutes(level: ExpertiseLevel) -> u32 {
    match level {
        ExpertiseLevel::One => 360,
        ExpertiseLevel::Two => 180,
        ExpertiseLevel::Three => 60,
        ExpertiseLevel::Four => 30,
        ExpertiseLevel::Five => 15,
    }
}

/// How often an officer of a level reviews its domain, in game minutes.
pub fn officer_cadence_minutes(level: ExpertiseLevel) -> (r: u32)
    ensures
        r == cadence_minutes(level),
{
    match level {
        ExpertiseLevel::One => 6 * 60,
        ExpertiseLevel::Two => 3 * 60,
        ExpertiseLevel::Three => 60,
        ExpertiseLevel::Four => 30,
        ExpertiseLevel::Five => 15,
    }
}

/// The cadence in ticks: minutes times ticks per hour, divided by sixty
/// rounding up, and at least one tick.
/// More completed duty never lowers the personal level.
pub proof fn law_personal_level_monotone(hours: int, more_hours: int)
    requires
        hours <= more_hours,
    ensures
        level_value(level_for_hours(hours)) <= level_value(level_for_hours(more_hours)),
{
}

/// Supports never lower the level, raise it by at most one each, and never
/// past five.
pub proof fn law_effective_level_bounds(personal: ExpertiseLevel, bonuses: ExpertiseBonuses)
    ensures
        level_value(personal) <= level_value(boosted_level(personal, bonuses)) <= 5,
        level_value(boosted_level(personal, bonuses)) <= level_value(personal) + (if bonuses.workflow_operational {
            1int
        } else {
            0
        }) + (if bonuses.reinforcement_operational {
            1int
        } else {
            0
        }),
{
}

/// A higher level never reviews less often.
pub proof fn law_cadence_shrinks_with_level(level: ExpertiseLevel, higher: ExpertiseLevel)
    requires
        level_value(level) <= level_value(higher),
    ensures
        cadence_minutes(higher) <= cadence_minutes(level),
{
}

pub open spec fn cadence_ticks(level: ExpertiseLevel, ticks_per_game_hour: u64) -> int {
    let t = (cadence_minutes(level) * ticks_per_game_hour + 59) / 60;
    if t < 1 { 1 } else { t }
}

pub fn officer_cadence_ticks(level: ExpertiseLevel, ticks_per_game_hour: u64) -> (r: Result<u64, InstitutionError>)
    ensures
        ticks_per_game_hour == 0 ==> r == Err::<u64, InstitutionError>(InstitutionError::InvalidClock),
        ticks_per_game_hour > 0 && cadence_minutes(level) * ticks_per_game_hour > u64::MAX ==> r == Err::<
            u64,
            InstitutionError,
        >(InstitutionError::TickOverflow),
        ticks_per_game_hour > 0 && cadence_minutes(level) * ticks_per_game_hour <= u64::MAX ==> (r matches Ok(t)
            && t == cadence_ticks(level, ticks_per_game_hour)),
{
    if ticks_per_game_hour == 0 {
        return Err(InstitutionError::InvalidClock);
    }
    let cadence_minutes = officer_cadence_minutes(level) as u64;
    let product = match cadence_minutes.checked_mul(ticks_per_game_hour) {
        Some(p) => p,
        None => return Err(InstitutionError::TickOverflow),
    };
    let ticks = product / 60 + if product % 60 == 0 { 0 } else { 1 };
    assert(ticks == (product + 59) / 60);
    Ok(if ticks < 1 { 1 } else { ticks })
}

pub open spec fn candidate_limit(level: ExpertiseLevel, eligible_count: int) -> int {
    let limit = match level {
        ExpertiseLevel::One => 3,
        ExpertiseLevel::Two => 5,
        ExpertiseLevel::Three => 8,
        ExpertiseLevel::Four => 12,
        ExpertiseLevel::Five => usize::MAX as int,
    };
    if eligible_count < limit { eligible_count } else { limit }
}

/// How many eligible candidates a leader of a level can consider.
pub fn appointment_candidate_limit(level: ExpertiseLevel, eligible_count: usize) -> (r: usize)
    ensures
        r == candidate_limit(level, eligible_count as int),
{
    let limit: usize = match level {
        ExpertiseLevel::One => 3,
        ExpertiseLevel::Two => 5,
        ExpertiseLevel::Three => 8,
        ExpertiseLevel::Four => 12,
        ExpertiseLevel::Five => usize::MAX,
    };
    if eligible_count < limit {
        eligible_count
    } else {
        limit
    }
}

#[derive(Debug, Clone, PartialEq, Eq)]
pub struct AppointmentCandidate {
    pub cat_id: PlannerId,
    /// Suitability from the leader's bounded beliefs.
    pub believed_merit: i64,
    pub eligible: bool,
}

#[derive(Debug, Clone, PartialEq, Eq)]
pub struct AppointmentSelection {
    pub sampled_cat_ids: Vec<PlannerId>,
    pub selected_cat_id: PlannerId,
}

/// The first rule candidate `i` breaks: an identifier that is no planner
/// identifier, or one an earlier candidate already has.
pub open spec fn candidate_entry_error(c: Seq<AppointmentCandidate>, i: int) -> Option<InstitutionError> {
    if !planner_id_valid(c[i].cat_id@) {
        Some(InstitutionError::InvalidCandidateId)
    } else if exists|j: int| 0 <= j < i && (#[trigger] c[j]).cat_id@ == c[i].cat_id@ {
        Some(InstitutionError::DuplicateCandidate)
    } else {
        None
    }
}

/// The first rule the first `n` candidates break, in order.
pub open spec fn candidates_error(c: Seq<AppointmentCandidate>, n: int) -> Option<InstitutionError>
    decreases n,
{
    if n <= 0 {
        None
    } else if candidates_error(c, n - 1) is Some {
        candidates_error(c, n - 1)
    } else {
        candidate_entry_error(c, n - 1)
    }
}

/// How many of the first `n` candidates are eligible.
pub open spec fn eligible_count(c: Seq<AppointmentCandidate>, n: int) -> int
    decreases n,
{
    if n <= 0 {
        0
    } else {
        eligible_count(c, n - 1) + if c[n - 1].eligible { 1int } else { 0int }
    }
}

/// Candidate `j` draws ahead of candidate `i`: a lower roll, or the same roll
/// and an earlier identifier.
pub open spec fn draws_ahead(c: Seq<AppointmentCandidate>, rolls: Seq<u64>, j: int, i: int) -> bool {
    rolls[j] < rolls[i] || (rolls[j] == rolls[i] && text_lt(c[j].cat_id@, c[i].cat_id@))
}

/// How many eligible candidates among the first `n` draw ahead of candidate `i`.
pub open spec fn draw_rank(c: Seq<AppointmentCandidate>, rolls: Seq<u64>, i: int, n: int) -> int
    decreases n,
{
    if n <= 0 {
        0
    } else {
        draw_rank(c, rolls, i, n - 1) + if c[n - 1].eligible && draws_ahead(c, rolls, n - 1, i) { 1int } else { 0int }
    }
}

/// Candidate `i` is in the leader's sample: eligible, and drawn among the
/// first as many as the leader's level lets it consider.
pub open spec fn in_sample(c: Seq<AppointmentCandidate>, rolls: Seq<u64>, level: ExpertiseLevel, i: int) -> bool {
    &&& 0 <= i < c.len()
    &&& c[i].eligible
    &&& draw_rank(c, rolls, i, c.len() as int) < candidate_limit(level, eligible_count(c, c.len() as int))
}

/// Some entry of `ids` is `id`.
pub open spec fn lists_id(ids: Seq<PlannerId>, id: PlannerId) -> bool {
    exists|a: int| 0 <= a < ids.len() && ids[a] == id
}

/// Some sampled candidate has identifier `id`.
pub open spec fn sampled_from(c: Seq<AppointmentCandidate>, rolls: Seq<u64>, level: ExpertiseLevel, id: PlannerId) -> bool {
    exists|i: int| #[trigger] in_sample(c, rolls, level, i) && c[i].cat_id == id
}

/// Candidate `s` is preferred to candidate `t`: a higher believed merit, or the
/// same merit and an earlier identifier.
pub open spec fn preferred(c: Seq<AppointmentCandidate>, s: int, t: int) -> bool {
    c[s].believed_merit > c[t].believed_merit || (c[s].believed_merit == c[t].believed_merit && text_lt(
        c[s].cat_id@,
        c[t].cat_id@,
    ))
}

/// What the appointment draw answers for valid candidates: no one when none
/// is eligible, else the sampled identifiers in increasing order and the
/// sampled candidate preferred to every other one sampled.
pub open spec fn appointment_choice(
    c: Seq<AppointmentCandidate>,
    rolls: Seq<u64>,
    level: ExpertiseLevel,
    r: Option<AppointmentSelection>,
) -> bool {
    if eligible_count(c, c.len() as int) == 0 {
        r is None
    } else {
        r matches Some(sel) && {
            let ids = sel.sampled_cat_ids@;
            &&& forall|a: int, b: int| 0 <= a < b < ids.len() ==> text_lt((#[trigger] ids[a])@, (#[trigger] ids[b])@)
            &&& forall|a: int| 0 <= a < ids.len() ==> #[trigger] sampled_from(c, rolls, level, ids[a])
            &&& forall|i: int| #[trigger] in_sample(c, rolls, level, i) ==> lists_id(ids, c[i].cat_id)
            &&& exists|s: int|
                #[trigger] in_sample(c, rolls, level, s) && sel.selected_cat_id == c[s].cat_id && forall|t: int|
                    #[trigger] in_sample(c, rolls, level, t) && t != s ==> preferred(c, s, t)
        }
    }
}

proof fn lemma_eligible_count_bounds(c: Seq<AppointmentCandidate>, n: int)
    requires
        0 <= n,
    ensures
        0 <= eligible_count(c, n) <= n,
    decreases n,
{
    if n > 0 {
        lemma_eligible_count_bounds(c, n - 1);
    }
}

proof fn lemma_draw_rank_zero(c: Seq<AppointmentCandidate>, rolls: Seq<u64>, m: int, n: int)
    requires
        0 <= n,
        forall|j: int| 0 <= j < n && (#[trigger] c[j]).eligible ==> !draws_ahead(c, rolls, j, m),
    ensures
        draw_rank(c, rolls, m, n) == 0,
    decreases n,
{
    if n > 0 {
        lemma_draw_rank_zero(c, rolls, m, n - 1);
    }
}

proof fn lemma_eligible_positive(c: Seq<AppointmentCandidate>, n: int, m: int)
    requires
        0 <= m < n,
        c[m].eligible,
    ensures
        eligible_count(c, n) >= 1,
    decreases n,
{
    lemma_eligible_count_bounds(c, n - 1);
    if m < n - 1 {
        lemma_eligible_positive(c, n - 1, m);
    }
}

fn sample_flags(
    candidates: &Vec<AppointmentCandidate>,
    rolls: &Vec<u64>,
    leader_effective_level: ExpertiseLevel,
    eligible: usize,
) -> (sampled: Vec<bool>)
    requires
        rolls@.len() == candidates@.len(),
        candidates@.len() <= MAX_APPOINTMENT_CANDIDATES,
        eligible == eligible_count(candidates@, candidates@.len() as int),
    ensures
        sampled@.len() == candidates@.len(),
        forall|k: int| 0 <= k < candidates@.len() ==> sampled@[k] == in_sample(candidates@, rolls@, leader_effective_level, k),
{
    let ghost c = candidates@;
    let n = candidates.len();
    let limit = appointment_candidate_limit(leader_effective_level, eligible);
    let mut sampled: Vec<bool> = Vec::new();
    let mut i: usize = 0;
    while i < n
        invariant
            n == c.len(),
            c == candidates@,
            rolls@.len() == n,
            i <= n,
            n <= MAX_APPOINTMENT_CANDIDATES,
            limit == candidate_limit(leader_effective_level, eligible_count(c, n as int)),
            sampled@.len() == i,
            forall|k: int| 0 <= k < i ==> sampled@[k] == in_sample(c, rolls@, leader_effective_level, k),
        decreases n - i,
    {
        let mut ahead: usize = 0;
        let mut j: usize = 0;
        while j < n
            invariant
                n == c.len(),
                c == candidates@,
                rolls@.len() == n,
                i < n,
                j <= n,
                n <= MAX_APPOINTMENT_CANDIDATES,
                ahead == draw_rank(c, rolls@, i as int, j as int),
                ahead <= j,
            decreases n - j,
        {
            if candidates[j].eligible && (rolls[j] < rolls[i] || (rolls[j] == rolls[i] && text_less(
                candidates[j].cat_id.as_str(),
                candidates[i].cat_id.as_str(),
            ))) {
                ahead = ahead + 1;
            }
            j = j + 1;
        }
        sampled.push(candidates[i].eligible && ahead < limit);
        i = i + 1;
    }
    sampled
}

fn first_drawn(
    candidates: &Vec<AppointmentCandidate>,
    rolls: &Vec<u64>,
    leader_effective_level: ExpertiseLevel,
    eligible: usize,
) -> (first: usize)
    requires
        rolls@.len() == candidates@.len(),
        candidates@.len() <= MAX_APPOINTMENT_CANDIDATES,
        candidates_error(candidates@, candidates@.len() as int) is None,
        eligible == eligible_count(candidates@, candidates@.len() as int),
        eligible > 0,
    ensures
        in_sample(candidates@, rolls@, leader_effective_level, first as int),
{
    let ghost c = candidates@;
    let n = candidates.len();
    let mut first: usize = n;
    let mut i: usize = 0;
    while i < n
        invariant
            n == c.len(),
            c == candidates@,
            rolls@.len() == n,
            i <= n,
            candidates_error(c, n as int) is None,
            first <= n,
            eligible == eligible_count(c, n as int),
            eligible > 0,
            first == n ==> forall|j: int| 0 <= j < i ==> !(#[trigger] c[j]).eligible,
            first < n ==> first < i && c[first as int].eligible && forall|j: int|
                0 <= j < i && (#[trigger] c[j]).eligible && j != first ==> draws_ahead(c, rolls@, first as int, j),
        decreases n - i,
    {
        if candidates[i].eligible {
            if first == n || rolls[i] < rolls[first] || (rolls[i] == rolls[first] && text_less(
                candidates[i].cat_id.as_str(),
                candidates[first].cat_id.as_str(),
            )) {
                proof {
                    if first < n {
                        lemma_draws_ahead_order(c, rolls@, i as int, first as int);
                    }
                }
                first = i;
            } else {
                proof {
                    lemma_candidates_distinct(c, n as int, i as int, first as int);
                    lemma_draws_ahead_total(c, rolls@, i as int, first as int);
                }
            }
        }
        i = i + 1;
    }
    proof {
        if first == n {
            lemma_eligible_none(c, n as int);
            assert(false);
        }
        assert forall|j: int| 0 <= j < n && (#[trigger] c[j]).eligible implies !draws_ahead(c, rolls@, j, first as int) by {
            if j != first {
                lemma_draws_ahead_asymmetric(c, rolls@, first as int, j);
            } else {
                lemma_text_lt_irreflexive(c[j].cat_id@);
            }
        }
        lemma_draw_rank_zero(c, rolls@, first as int, n as int);
        lemma_eligible_positive(c, n as int, first as int);
        assert(in_sample(c, rolls@, leader_effective_level, first as int));
    }
    first
}

fn preferred_sampled(
    candidates: &Vec<AppointmentCandidate>,
    rolls: &Vec<u64>,
    leader_effective_level: ExpertiseLevel,
    sampled: &Vec<bool>,
    first: usize,
) -> (best: usize)
    requires
        rolls@.len() == candidates@.len(),
        candidates@.len() <= MAX_APPOINTMENT_CANDIDATES,
        candidates_error(candidates@, candidates@.len() as int) is None,
        sampled@.len() == candidates@.len(),
        forall|k: int| 0 <= k < candidates@.len() ==> sampled@[k] == in_sample(candidates@, rolls@, leader_effective_level, k),
        in_sample(candidates@, rolls@, leader_effective_level, first as int),
    ensures
        in_sample(candidates@, rolls@, leader_effective_level, best as int),
        forall|t: int|
            #[trigger] in_sample(candidates@, rolls@, leader_effective_level, t) && t != best ==> preferred(candidates@, best as int, t),
{
    let ghost c = candidates@;
    let n = candidates.len();
    let mut best: usize = first;
    let mut i: usize = 0;
    while i < n
        invariant
            n == c.len(),
            c == candidates@,
            rolls@.len() == n,
            i <= n,
            sampled@.len() == n,
            candidates_error(c, n as int) is None,
            forall|k: int| 0 <= k < n ==> sampled@[k] == in_sample(c, rolls@, leader_effective_level, k),
            best < n,
            in_sample(c, rolls@, leader_effective_level, best as int),
            forall|t: int| 0 <= t < i && #[trigger] in_sample(c, rolls@, leader_effective_level, t) && t != best ==> preferred(c, best as int, t),
        decreases n - i,
    {
        if sampled[i] && i != best {
            let better = candidates[i].believed_merit > candidates[best].believed_merit || (candidates[i].believed_merit
                == candidates[best].believed_merit && text_less(
                candidates[i].cat_id.as_str(),
                candidates[best].cat_id.as_str(),
            ));
            if better {
                proof {
                    assert forall|t: int| 0 <= t < i + 1 && #[trigger] in_sample(c, rolls@, leader_effective_level, t) && t != i
                        implies preferred(c, i as int, t) by {
                        if t != best {
                            lemma_preferred_transitive(c, i as int, best as int, t);
                        }
                    }
                }
                best = i;
            } else {
                proof {
                    lemma_candidates_distinct(c, n as int, i as int, best as int);
                    lemma_preferred_total(c, i as int, best as int);
                }
            }
        }
        i = i + 1;
    }
    best
}

fn sorted_sample_ids(
    candidates: &Vec<AppointmentCandidate>,
    rolls: &Vec<u64>,
    leader_effective_level: ExpertiseLevel,
    sampled: &Vec<bool>,
    seen: &IdMap<usize>,
) -> (sampled_cat_ids: Vec<PlannerId>)
    requires
        rolls@.len() == candidates@.len(),
        candidates@.len() <= MAX_APPOINTMENT_CANDIDATES,
        candidates_error(candidates@, candidates@.len() as int) is None,
        sampled@.len() == candidates@.len(),
        forall|k: int| 0 <= k < candidates@.len() ==> sampled@[k] == in_sample(candidates@, rolls@, leader_effective_level, k),
        seen.wf(),
        forall|k: Seq<char>| #[trigger] seen.map().contains_key(k) <==> exists|j: int|
            0 <= j < candidates@.len() && (#[trigger] candidates@[j]).cat_id@ == k,
        forall|k: Seq<char>| #[trigger] seen.map().contains_key(k) ==> seen.map()[k] < candidates@.len()
            && candidates@[seen.map()[k] as int].cat_id@ == k,
    ensures
        forall|a: int, b: int|
            0 <= a < b < sampled_cat_ids@.len() ==> text_lt((#[trigger] sampled_cat_ids@[a])@, (#[trigger] sampled_cat_ids@[b])@),
        forall|a: int| 0 <= a < sampled_cat_ids@.len() ==> #[trigger] sampled_from(candidates@, rolls@, leader_effective_level, sampled_cat_ids@[a]),
        forall|i: int|
            #[trigger] in_sample(candidates@, rolls@, leader_effective_level, i) ==> lists_id(sampled_cat_ids@, candidates@[i].cat_id),
{
    let ghost c = candidates@;
    let n = candidates.len();
    let mut sampled_cat_ids: Vec<PlannerId> = Vec::new();
    let ghost mut positions: Seq<int> = Seq::empty();
    let m = seen.len();
    let mut k: usize = 0;
    proof {
        crate::id_map::lemma_lookup_all(seen@);
    }
    while k < m
        invariant
            n == c.len(),
            c == candidates@,
            m == seen@.len(),
            k <= m,
            seen.wf(),
            sampled@.len() == n,
            forall|q: int| 0 <= q < n ==> sampled@[q] == in_sample(c, rolls@, leader_effective_level, q),
            forall|key: Seq<char>| #[trigger] seen.map().contains_key(key) <==> exists|j: int| 0 <= j < n && (#[trigger] c[j]).cat_id@ == key,
            forall|key: Seq<char>| #[trigger] seen.map().contains_key(key) ==> seen.map()[key] < n && c[seen.map()[key] as int].cat_id@ == key,
            forall|q: int| 0 <= q < m ==> seen.map().contains_key(#[trigger] seen@[q].0) && seen.map()[seen@[q].0] == seen@[q].1,
            positions.len() == sampled_cat_ids@.len(),
            forall|a: int| 0 <= a < positions.len() ==> 0 <= #[trigger] positions[a] < k,
            forall|a: int, b: int| 0 <= a < b < positions.len() ==> #[trigger] positions[a] < #[trigger] positions[b],
            forall|a: int| 0 <= a < positions.len() ==> (#[trigger] sampled_cat_ids@[a])@ == seen@[positions[a]].0,
            forall|a: int| 0 <= a < positions.len() ==> #[trigger] sampled_cat_ids@[a] == c[seen@[positions[a]].1 as int].cat_id,
            forall|a: int| 0 <= a < positions.len() ==> sampled@[seen@[#[trigger] positions[a]].1 as int],
            forall|q: int|
                0 <= q < k && sampled@[(#[trigger] seen@[q]).1 as int] ==> exists|a: int| 0 <= a < positions.len() && #[trigger] positions[a] == q,
        decreases m - k,
    {
        let index = *seen.value_at(k);
        proof {
            assert(seen.map().contains_key(seen@[k as int].0));
        }
        let ghost old_positions = positions;
        if sampled[index] {
            sampled_cat_ids.push(candidates[index].cat_id.duplicate());
            proof {
                positions = positions.push(k as int);
            }
        }
        proof {
            assert forall|q: int|
                0 <= q < k + 1 && sampled@[(#[trigger] seen@[q]).1 as int] implies exists|a: int| 0 <= a < positions.len() && #[trigger] positions[a] == q by {
                if q < k {
                    let a = choose|a: int| 0 <= a < old_positions.len() && #[trigger] old_positions[a] == q;
                    assert(positions[a] == q);
                } else {
                    assert(positions[positions.len() - 1] == q);
                }
            }
        }
        k = k + 1;
    }
    proof {
        let ids = sampled_cat_ids@;
        assert forall|a: int, b: int| 0 <= a < b < ids.len() implies text_lt((#[trigger] ids[a])@, (#[trigger] ids[b])@) by {
            assert(positions[a] < positions[b]);
            assert(text_lt(seen@[positions[a]].0, seen@[positions[b]].0));
        }
        assert forall|a: int| 0 <= a < sampled_cat_ids@.len() implies #[trigger] sampled_from(candidates@, rolls@, leader_effective_level, sampled_cat_ids@[a]) by {
            let q = positions[a];
            assert(0 <= q < m);
            assert(seen.map().contains_key(seen@[q].0));
            assert(seen.map()[seen@[q].0] == seen@[q].1);
            let i = seen@[q].1 as int;
            assert(0 <= i < n);
            assert(sampled@[i]);
            assert(in_sample(candidates@, rolls@, leader_effective_level, i) && candidates@[i].cat_id == sampled_cat_ids@[a]);
        }
        assert forall|i: int| #[trigger] in_sample(c, rolls@, leader_effective_level, i) implies lists_id(ids, c[i].cat_id) by {
            let key = c[i].cat_id@;
            assert(seen.map().contains_key(key));
            let q = choose|q: int| 0 <= q < m && #[trigger] seen@[q].0 == key;
            assert(seen.map()[seen@[q].0] == seen@[q].1);
            lemma_candidates_index(c, n as int, i, seen@[q].1 as int);
            assert(sampled@[seen@[q].1 as int]);
            let a = choose|a: int| 0 <= a < positions.len() && #[trigger] positions[a] == q;
            assert(ids[a] == c[i].cat_id);
        }
    }
    sampled_cat_ids
}

fn index_candidates(candidates: &Vec<AppointmentCandidate>) -> (r: Result<IdMap<usize>, InstitutionError>)
    requires
        candidates@.len() <= MAX_APPOINTMENT_CANDIDATES,
    ensures
        match candidates_error(candidates@, candidates@.len() as int) {
            Some(e) => r == Err::<IdMap<usize>, InstitutionError>(e),
            None => r matches Ok(seen) && {
                &&& seen.wf()
                &&& forall|k: Seq<char>| #[trigger] seen.map().contains_key(k) <==> exists|j: int|
                    0 <= j < candidates@.len() && (#[trigger] candidates@[j]).cat_id@ == k
                &&& forall|k: Seq<char>| #[trigger] seen.map().contains_key(k) ==> seen.map()[k] < candidates@.len()
                    && candidates@[seen.map()[k] as int].cat_id@ == k
            },
        },
{
    let ghost c = candidates@;
    let n = candidates.len();
    let mut seen: IdMap<usize> = IdMap::new();
    let mut i: usize = 0;
    while i < n
        invariant
            n == c.len(),
            c == candidates@,
            i <= n,
            seen.wf(),
            n <= MAX_APPOINTMENT_CANDIDATES,
            candidates_error(c, i as int) is None,
            forall|k: Seq<char>| #[trigger] seen.map().contains_key(k) <==> exists|j: int| 0 <= j < i && (#[trigger] c[j]).cat_id@ == k,
            forall|k: Seq<char>| #[trigger] seen.map().contains_key(k) ==> seen.map()[k] < i && c[seen.map()[k] as int].cat_id@ == k,
        decreases n - i,
    {
        let candidate = &candidates[i];
        if !text_starts_with(candidate.cat_id.as_str(), "planner:v1|") {
            proof {
                assert(candidate_entry_error(c, i as int) == Some(InstitutionError::InvalidCandidateId));
                lemma_candidates_error_stops(c, i as int + 1, n as int);
            }
            return Err(InstitutionError::InvalidCandidateId);
        }
        let ghost before = seen.map();
        let previous = seen.insert(String::from_str(candidate.cat_id.as_str()), i);
        if previous.is_some() {
            proof {
                let j = choose|j: int| 0 <= j < i && (#[trigger] c[j]).cat_id@ == c[i as int].cat_id@;
                assert(candidate_entry_error(c, i as int) == Some(InstitutionError::DuplicateCandidate));
                lemma_candidates_error_stops(c, i as int + 1, n as int);
            }
            return Err(InstitutionError::DuplicateCandidate);
        }
        proof {
            assert(!(exists|j: int| 0 <= j < i && (#[trigger] c[j]).cat_id@ == c[i as int].cat_id@));
            assert(candidates_error(c, i + 1) is None);
            assert forall|k: Seq<char>| #[trigger] seen.map().contains_key(k) <==> exists|j: int|
                0 <= j < i + 1 && (#[trigger] c[j]).cat_id@ == k by {
                if k == c[i as int].cat_id@ {
                    assert(c[i as int].cat_id@ == k);
                } else if seen.map().contains_key(k) {
                    assert(before.contains_key(k));
                }
            }
        }
        i = i + 1;
    }
    Ok(seen)
}

/// Choose an officer from the appointment candidates, given each candidate's
/// draw in `rolls`. Candidate identifiers must be planner identifiers and
/// distinct; the eligible ones are ranked by draw (then identifier), the
/// leader considers as many of the first as its level allows, and of those
/// picks the highest believed merit (then the earliest identifier).
pub fn select_appointment_candidate(
    colony_id: &str,
    leader_effective_level: ExpertiseLevel,
    candidates: &Vec<AppointmentCandidate>,
    rolls: &Vec<u64>,
) -> (r: Result<Option<AppointmentSelection>, InstitutionError>)
    requires
        rolls@.len() == candidates@.len(),
    ensures
        colony_id@.len() == 0 ==> r == Err::<Option<AppointmentSelection>, InstitutionError>(
            InstitutionError::InvalidColonyId,
        ),
        colony_id@.len() != 0 && candidates@.len() > MAX_APPOINTMENT_CANDIDATES ==> r == Err::<
            Option<AppointmentSelection>,
            InstitutionError,
        >(InstitutionError::CandidateCapacityExceeded),
        colony_id@.len() != 0 && candidates@.len() <= MAX_APPOINTMENT_CANDIDATES ==> match candidates_error(
            candidates@,
            candidates@.len() as int,
        ) {
            Some(e) => r == Err::<Option<AppointmentSelection>, InstitutionError>(e),
            None => r matches Ok(choice) && appointment_choice(candidates@, rolls@, leader_effective_level, choice),
        },
{
    if colony_id.unicode_len() == 0 {
        return Err(InstitutionError::InvalidColonyId);
    }
    if candidates.len() > MAX_APPOINTMENT_CANDIDATES {
        return Err(InstitutionError::CandidateCapacityExceeded);
    }
    let ghost c = candidates@;
    let n = candidates.len();
    let seen = match index_candidates(candidates) {
        Ok(seen) => seen,
        Err(e) => return Err(e),
    };
    let mut eligible: usize = 0;
    let mut i: usize = 0;
    while i < n
        invariant
            n == c.len(),
            c == candidates@,
            i <= n,
            n <= MAX_APPOINTMENT_CANDIDATES,
            eligible == eligible_count(c, i as int),
        decreases n - i,
    {
        proof {
            lemma_eligible_count_bounds(c, i as int);
        }
        if candidates[i].eligible {
            eligible = eligible + 1;
        }
        i = i + 1;
    }
    if eligible == 0 {
        return Ok(None);
    }
    let sampled = sample_flags(candidates, rolls, leader_effective_level, eligible);
    let first = first_drawn(candidates, rolls, leader_effective_level, eligible);
    let best = preferred_sampled(candidates, rolls, leader_effective_level, &sampled, first);
    let sampled_cat_ids = sorted_sample_ids(candidates, rolls, leader_effective_level, &sampled, &seen);
    let selected_cat_id = candidates[best].cat_id.duplicate();
    let selection = AppointmentSelection { sampled_cat_ids, selected_cat_id };
    proof {
        lemma_appointment_choice(c, rolls@, leader_effective_level, selection, best as int);
    }
    Ok(Some(selection))
}

proof fn lemma_appointment_choice(
    c: Seq<AppointmentCandidate>,
    rolls: Seq<u64>,
    level: ExpertiseLevel,
    sel: AppointmentSelection,
    best: int,
)
    requires
        eligible_count(c, c.len() as int) != 0,
        forall|a: int, b: int|
            0 <= a < b < sel.sampled_cat_ids@.len() ==> text_lt(
                (#[trigger] sel.sampled_cat_ids@[a])@,
                (#[trigger] sel.sampled_cat_ids@[b])@,
            ),
        forall|a: int| 0 <= a < sel.sampled_cat_ids@.len() ==> #[trigger] sampled_from(c, rolls, level, sel.sampled_cat_ids@[a]),
        forall|i: int| #[trigger] in_sample(c, rolls, level, i) ==> lists_id(sel.sampled_cat_ids@, c[i].cat_id),
        in_sample(c, rolls, level, best),
        sel.selected_cat_id == c[best].cat_id,
        forall|t: int| #[trigger] in_sample(c, rolls, level, t) && t != best ==> preferred(c, best, t),
    ensures
        appointment_choice(c, rolls, level, Some(sel)),
{
}

/// The indices of the eligible candidates among the first `m`.
pub open spec fn eligible_set(c: Seq<AppointmentCandidate>, m: int) -> Set<int> {
    Set::new(|i: int| 0 <= i < m && c[i].eligible)
}

/// The indices of the candidates in the leader's sample.
pub open spec fn sample_set(c: Seq<AppointmentCandidate>, rolls: Seq<u64>, level: ExpertiseLevel) -> Set<int> {
    Set::new(|i: int| in_sample(c, rolls, level, i))
}

proof fn lemma_eligible_set_len(c: Seq<AppointmentCandidate>, m: int)
    requires
        0 <= m,
    ensures
        eligible_set(c, m).finite(),
        eligible_set(c, m).len() == eligible_count(c, m),
    decreases m,
{
    if m == 0 {
        assert(eligible_set(c, m) =~= Set::<int>::empty());
    } else {
        lemma_eligible_set_len(c, m - 1);
        if c[m - 1].eligible {
            assert(eligible_set(c, m) =~= eligible_set(c, m - 1).insert(m - 1));
        } else {
            assert(eligible_set(c, m) =~= eligible_set(c, m - 1));
        }
    }
}

proof fn lemma_draw_order_facts(c: Seq<AppointmentCandidate>, rolls: Seq<u64>, j: int, k: int, i: int)
    ensures
        !draws_ahead(c, rolls, i, i),
        draws_ahead(c, rolls, j, k) && draws_ahead(c, rolls, k, i) ==> draws_ahead(c, rolls, j, i),
        c[j].cat_id@ != c[i].cat_id@ ==> draws_ahead(c, rolls, j, i) || draws_ahead(c, rolls, i, j),
{
    lemma_text_lt_irreflexive(c[i].cat_id@);
    if draws_ahead(c, rolls, j, k) && draws_ahead(c, rolls, k, i) {
        if rolls[j] == rolls[k] && rolls[k] == rolls[i] {
            lemma_text_lt_transitive(c[j].cat_id@, c[k].cat_id@, c[i].cat_id@);
        }
    }
    lemma_text_lt_total(c[j].cat_id@, c[i].cat_id@);
}

proof fn lemma_draw_rank_bound(c: Seq<AppointmentCandidate>, rolls: Seq<u64>, i: int, m: int)
    requires
        0 <= m,
    ensures
        0 <= draw_rank(c, rolls, i, m),
        draw_rank(c, rolls, i, m) + (if 0 <= i < m && c[i].eligible { 1int } else { 0int }) <= eligible_count(c, m),
    decreases m,
{
    if m > 0 {
        lemma_draw_rank_bound(c, rolls, i, m - 1);
        lemma_draw_order_facts(c, rolls, i, i, i);
    }
}

proof fn lemma_draw_rank_below(c: Seq<AppointmentCandidate>, rolls: Seq<u64>, i: int, k: int, m: int)
    requires
        0 <= m,
        draws_ahead(c, rolls, k, i),
    ensures
        draw_rank(c, rolls, i, m) >= draw_rank(c, rolls, k, m) + (if 0 <= k < m && c[k].eligible { 1int } else { 0int }),
    decreases m,
{
    if m > 0 {
        lemma_draw_rank_below(c, rolls, i, k, m - 1);
        lemma_draw_order_facts(c, rolls, m - 1, k, i);
        lemma_draw_order_facts(c, rolls, k, k, k);
    }
}

proof fn lemma_sample_set_len(c: Seq<AppointmentCandidate>, rolls: Seq<u64>, level: ExpertiseLevel)
    requires
        candidates_error(c, c.len() as int) is None,
    ensures
        sample_set(c, rolls, level).finite(),
        sample_set(c, rolls, level).len() == candidate_limit(level, eligible_count(c, c.len() as int)),
{
    let n = c.len() as int;
    let e = eligible_count(c, n);
    let x = eligible_set(c, n);
    let rk = |i: int| draw_rank(c, rolls, i, n);
    lemma_eligible_set_len(c, n);
    assert(vstd::relations::injective_on(rk, x)) by {
        assert forall|i1: int, i2: int| x.contains(i1) && x.contains(i2) && #[trigger] rk(i1) == #[trigger] rk(i2) implies i1 == i2 by {
            if i1 != i2 {
                lemma_candidates_distinct(c, n, i1, i2);
                lemma_draw_order_facts(c, rolls, i1, i1, i2);
                if draws_ahead(c, rolls, i1, i2) {
                    lemma_draw_rank_below(c, rolls, i2, i1, n);
                } else {
                    lemma_draw_rank_below(c, rolls, i1, i2, n);
                }
            }
        }
    }
    let y = x.map(rk);
    vstd::set_lib::lemma_map_size(x, y, rk);
    vstd::set_lib::lemma_int_range(0, e);
    assert(y.subset_of(vstd::set_lib::set_int_range(0, e))) by {
        assert forall|t: int| y.contains(t) implies vstd::set_lib::set_int_range(0, e).contains(t) by {
            let i = choose|i: int| x.contains(i) && t == rk(i);
            lemma_draw_rank_bound(c, rolls, i, n);
        }
    }
    vstd::set_lib::lemma_subset_equality(y, vstd::set_lib::set_int_range(0, e));
    let lim = candidate_limit(level, e);
    lemma_eligible_count_bounds(c, n);
    let s = sample_set(c, rolls, level);
    assert(s.subset_of(x));
    vstd::set_lib::lemma_len_subset(s, x);
    assert(vstd::relations::injective_on(rk, s));
    vstd::set_lib::lemma_int_range(0, lim);
    assert(s.map(rk) =~= vstd::set_lib::set_int_range(0, lim)) by {
        assert forall|t: int| s.map(rk).contains(t) implies vstd::set_lib::set_int_range(0, lim).contains(t) by {
            let i = choose|i: int| s.contains(i) && t == rk(i);
            lemma_draw_rank_bound(c, rolls, i, n);
        }
        assert forall|t: int| vstd::set_lib::set_int_range(0, lim).contains(t) implies s.map(rk).contains(t) by {
            assert(y.contains(t));
            let i = choose|i: int| x.contains(i) && t == rk(i);
            assert(in_sample(c, rolls, level, i));
            assert(s.contains(i));
        }
    }
    vstd::set_lib::lemma_map_size(s, s.map(rk), rk);
}

/// Law: for valid candidates, the leader's sample holds exactly as many
/// identifiers as its level lets it consider of the eligible candidates.
pub proof fn law_appointment_sample_has_limit_size(
    c: Seq<AppointmentCandidate>,
    rolls: Seq<u64>,
    level: ExpertiseLevel,
    sel: AppointmentSelection,
)
    requires
        candidates_error(c, c.len() as int) is None,
        appointment_choice(c, rolls, level, Some(sel)),
    ensures
        sel.sampled_cat_ids@.len() == candidate_limit(level, eligible_count(c, c.len() as int)),
{
    let ids = sel.sampled_cat_ids@;
    let n = c.len() as int;
    let s = sample_set(c, rolls, level);
    lemma_sample_set_len(c, rolls, level);
    let p = vstd::set_lib::set_int_range(0, ids.len() as int);
    vstd::set_lib::lemma_int_range(0, ids.len() as int);
    let g = |a: int| choose|i: int| in_sample(c, rolls, level, i) && c[i].cat_id == ids[a];
    assert forall|a: int| 0 <= a < ids.len() implies in_sample(c, rolls, level, #[trigger] g(a)) && c[g(a)].cat_id == ids[a] by {
        assert(sampled_from(c, rolls, level, ids[a]));
    }
    assert(vstd::relations::injective_on(g, p)) by {
        assert forall|a1: int, a2: int| p.contains(a1) && p.contains(a2) && #[trigger] g(a1) == #[trigger] g(a2) implies a1 == a2 by {
            if a1 < a2 {
                assert(text_lt(ids[a1]@, ids[a2]@));
                lemma_text_lt_irreflexive(ids[a1]@);
            } else if a2 < a1 {
                assert(text_lt(ids[a2]@, ids[a1]@));
                lemma_text_lt_irreflexive(ids[a2]@);
            }
        }
    }
    assert(p.map(g) =~= s) by {
        assert forall|i: int| s.contains(i) implies p.map(g).contains(i) by {
            assert(lists_id(ids, c[i].cat_id));
            let a = choose|a: int| 0 <= a < ids.len() && ids[a] == c[i].cat_id;
            assert(p.contains(a));
            let i2 = g(a);
            assert(in_sample(c, rolls, level, i2) && c[i2].cat_id == c[i].cat_id);
            lemma_candidates_index(c, n, i, i2);
        }
    }
    vstd::set_lib::lemma_map_size(p, s, g);
}

proof fn lemma_candidates_error_stops(c: Seq<AppointmentCandidate>, i: int, n: int)
    requires
        1 <= i <= n,
        candidates_error(c, i) is Some,
    ensures
        candidates_error(c, n) == candidates_error(c, i),
    decreases n - i,
{
    if i < n {
        lemma_candidates_error_stops(c, i, n - 1);
    }
}

proof fn lemma_candidates_distinct(c: Seq<AppointmentCandidate>, n: int, a: int, b: int)
    requires
        candidates_error(c, n) is None,
        0 <= a < n,
        0 <= b < n,
        a != b,
    ensures
        c[a].cat_id@ != c[b].cat_id@,
    decreases n,
{
    lemma_candidates_error_prefix(c, n);
    let hi = if a < b { b } else { a };
    let lo = if a < b { a } else { b };
    assert(candidate_entry_error(c, hi) is None);
    assert(c[lo].cat_id@ != c[hi].cat_id@);
}

proof fn lemma_candidates_error_prefix(c: Seq<AppointmentCandidate>, n: int)
    requires
        candidates_error(c, n) is None,
    ensures
        forall|i: int| 0 <= i < n ==> #[trigger] candidate_entry_error(c, i) is None,
    decreases n,
{
    if n > 0 {
        lemma_candidates_error_prefix(c, n - 1);
    }
}

proof fn lemma_candidates_index(c: Seq<AppointmentCandidate>, n: int, a: int, b: int)
    requires
        candidates_error(c, n) is None,
        0 <= a < n,
        0 <= b < n,
        c[a].cat_id@ == c[b].cat_id@,
    ensures
        a == b,
{
    if a != b {
        lemma_candidates_distinct(c, n, a, b);
    }
}

proof fn lemma_eligible_none(c: Seq<AppointmentCandidate>, n: int)
    requires
        0 <= n,
        forall|j: int| 0 <= j < n ==> !(#[trigger] c[j]).eligible,
    ensures
        eligible_count(c, n) == 0,
    decreases n,
{
    if n > 0 {
        lemma_eligible_none(c, n - 1);
    }
}

proof fn lemma_draws_ahead_order(c: Seq<AppointmentCandidate>, rolls: Seq<u64>, a: int, b: int)
    requires
        draws_ahead(c, rolls, a, b),
    ensures
        forall|j: int| #[trigger] draws_ahead(c, rolls, b, j) ==> draws_ahead(c, rolls, a, j),
{
    assert forall|j: int| #[trigger] draws_ahead(c, rolls, b, j) implies draws_ahead(c, rolls, a, j) by {
        if rolls[a] == rolls[b] && rolls[b] == rolls[j] {
            lemma_text_lt_transitive(c[a].cat_id@, c[b].cat_id@, c[j].cat_id@);
        }
    }
}

proof fn lemma_draws_ahead_total(c: Seq<AppointmentCandidate>, rolls: Seq<u64>, a: int, b: int)
    requires
        c[a].cat_id@ != c[b].cat_id@,
        !draws_ahead(c, rolls, a, b),
    ensures
        draws_ahead(c, rolls, b, a),
{
    lemma_text_lt_total(c[a].cat_id@, c[b].cat_id@);
}

proof fn lemma_draws_ahead_asymmetric(c: Seq<AppointmentCandidate>, rolls: Seq<u64>, a: int, b: int)
    requires
        draws_ahead(c, rolls, a, b),
    ensures
        !draws_ahead(c, rolls, b, a),
{
    lemma_text_lt_asymmetric(c[a].cat_id@, c[b].cat_id@);
}

proof fn lemma_preferred_transitive(c: Seq<AppointmentCandidate>, a: int, b: int, d: int)
    requires
        preferred(c, a, b),
        preferred(c, b, d),
    ensures
        preferred(c, a, d),
{
    if c[a].believed_merit == c[b].believed_merit && c[b].believed_merit == c[d].believed_merit {
        lemma_text_lt_transitive(c[a].cat_id@, c[b].cat_id@, c[d].cat_id@);
    }
}

proof fn lemma_preferred_total(c: Seq<AppointmentCandidate>, a: int, b: int)
    requires
        c[a].cat_id@ != c[b].cat_id@,
        !preferred(c, a, b),
    ensures
        preferred(c, b, a),
{
    lemma_text_lt_total(c[a].cat_id@, c[b].cat_id@);
}

#[derive(Debug, Clone, Copy, PartialEq, Eq, Structural)]
pub enum InstitutionError {
    InvalidColonyId,
    InvalidExpertiseLevel,
    CandidateCapacityExceeded,
    DutyCapacityExceeded,
    DuplicateCandidate,
    InvalidCandidateId,
    UnknownRole,
    OfficeUnavailable,
    OfficeFilled,
    OfficeVacant,
    CandidateAlreadyAppointed,
    LeaderFilled,
    LeaderVacant,
    LeaderMismatch,
    NoActiveSuccession,
    InvalidClock,
    TickOverflow,
    OccurrenceOverflow,
    DutyOverflow,
    MalformedPersistence,
}

pub open spec fn role_id(role: OfficerRole) -> Seq<char> {
    match role {
        OfficerRole::Steward => "steward"@,
        OfficerRole::Forester => "forester"@,
        OfficerRole::Farmer => "farmer"@,
        OfficerRole::Captain => "captain"@,
        OfficerRole::Loremaster => "loremaster"@,
    }
}

fn role_stable_id(role: OfficerRole) -> (r: &'static str)
    ensures
        r@ == role_id(role),
{
    match role {
        OfficerRole::Steward => "steward",
        OfficerRole::Forester => "forester",
        OfficerRole::Farmer => "farmer",
        OfficerRole::Captain => "captain",
        OfficerRole::Loremaster => "loremaster",
    }
}

fn decimal_text(n: u64) -> (r: String)
    ensures
        r@ == decimal(n as nat),
{
    let mut s = String::new();
    push_decimal(&mut s, n);
    assert(s@ =~= decimal(n as nat));
    s
}

pub open spec fn appointment_id_text(colony_id: Seq<char>, role: OfficerRole, occurrence: u64, cat_id: Seq<char>) -> Seq<char> {
    planner_id_text("officer_appointment"@, seq![colony_id, role_id(role), decimal(occurrence as nat), cat_id])
}

pub open spec fn vacancy_id_text(colony_id: Seq<char>, role: OfficerRole, occurrence: u64) -> Seq<char> {
    planner_id_text("officer_vacancy"@, seq![colony_id, role_id(role), decimal(occurrence as nat)])
}

pub open spec fn leader_vacancy_id_text(colony_id: Seq<char>, occurrence: u64) -> Seq<char> {
    planner_id_text("leader_vacancy"@, seq![colony_id, decimal(occurrence as nat)])
}

pub open spec fn leader_appointment_id_text(colony_id: Seq<char>, occurrence: u64, cat_id: Seq<char>) -> Seq<char> {
    planner_id_text("leader_appointment"@, seq![colony_id, decimal(occurrence as nat), cat_id])
}

/// Whether an identifier is a planner identifier.
pub open spec fn planner_id_valid(id: Seq<char>) -> bool {
    "planner:v1|"@.is_prefix_of(id)
}

fn is_planner_id(id: &PlannerId) -> (r: bool)
    ensures
        r == planner_id_valid(id@),
{
    text_starts_with(id.as_str(), "planner:v1|")
}

#[derive(Debug, Clone, PartialEq, Eq, PartialOrd, Ord, Hash)]
pub struct AppointmentId(PlannerId);

impl AppointmentId {
    pub closed spec fn view(&self) -> Seq<char> {
        self.0@
    }

    fn derive(colony_id: &str, role: OfficerRole, vacancy_occurrence: u64, cat_id: &PlannerId) -> (r: Self)
        ensures
            r@ == appointment_id_text(colony_id@, role, vacancy_occurrence, cat_id@),
    {
        let occurrence = decimal_text(vacancy_occurrence);
        let parts: [&str; 4] = [colony_id, role_stable_id(role), occurrence.as_str(), cat_id.as_str()];
        let r = AppointmentId(PlannerId::derive("officer_appointment", &parts));
        assert(crate::planner_core::texts_view(parts@) =~= seq![colony_id@, role_id(role), decimal(vacancy_occurrence as nat), cat_id@]);
        r
    }

    pub fn as_str(&self) -> (r: &str)
        ensures
            r@ == self@,
    {
        self.0.as_str()
    }

    /// An appointment identifier read back from persistence, unchanged.
    pub fn from_id(id: PlannerId) -> (r: Self)
        ensures
            r@ == id@,
    {
        AppointmentId(id)
    }
}

#[derive(Debug, Clone, PartialEq, Eq)]
pub struct VacancyId {
    stable_id: PlannerId,
    occurrence: u64,
}

impl VacancyId {
    pub closed spec fn view(&self) -> Seq<char> {
        self.stable_id@
    }

    pub closed spec fn occurrence_spec(&self) -> u64 {
        self.occurrence
    }

    fn derive(colony_id: &str, role: OfficerRole, occurrence: u64) -> (r: Self)
        ensures
            r@ == vacancy_id_text(colony_id@, role, occurrence),
            r.occurrence_spec() == occurrence,
    {
        let occurrence_text = decimal_text(occurrence);
        let parts: [&str; 3] = [colony_id, role_stable_id(role), occurrence_text.as_str()];
        let r = VacancyId { stable_id: PlannerId::derive("officer_vacancy", &parts), occurrence };
        assert(crate::planner_core::texts_view(parts@) =~= seq![colony_id@, role_id(role), decimal(occurrence as nat)]);
        r
    }

    pub fn occurrence(&self) -> (r: u64)
        ensures
            r == self.occurrence_spec(),
    {
        self.occurrence
    }

    pub fn as_str(&self) -> (r: &str)
        ensures
            r@ == self@,
    {
        self.stable_id.as_str()
    }
}

fn leader_vacancy_id(colony_id: &str, occurrence: u64) -> (r: PlannerId)
    ensures
        r@ == leader_vacancy_id_text(colony_id@, occurrence),
{
    let occurrence_text = decimal_text(occurrence);
    let parts: [&str; 2] = [colony_id, occurrence_text.as_str()];
    let r = PlannerId::derive("leader_vacancy", &parts);
    assert(crate::planner_core::texts_view(parts@) =~= seq![colony_id@, decimal(occurrence as nat)]);
    r
}

fn leader_appointment_id(colony_id: &str, occurrence: u64, cat_id: &PlannerId) -> (r: PlannerId)
    ensures
        r@ == leader_appointment_id_text(colony_id@, occurrence, cat_id@),
{
    let occurrence_text = decimal_text(occurrence);
    let parts: [&str; 3] = [colony_id, occurrence_text.as_str(), cat_id.as_str()];
    let r = PlannerId::derive("leader_appointment", &parts);
    assert(crate::planner_core::texts_view(parts@) =~= seq![colony_id@, decimal(occurrence as nat), cat_id@]);
    r
}


#[derive(Debug, Clone, PartialEq, Eq)]
pub struct OfficerAppointment {
    pub appointment_id: AppointmentId,
    pub cat_id: PlannerId,
    pub appointed_tick: u64,
    pub vacancy_occurrence: u64,
}

/// An appointment, with identifiers read as text.
pub struct AppointmentView {
    pub appointment_id: Seq<char>,
    pub cat_id: Seq<char>,
    pub appointed_tick: u64,
    pub vacancy_occurrence: u64,
}

pub open spec fn appointment_view(a: OfficerAppointment) -> AppointmentView {
    AppointmentView {
        appointment_id: a.appointment_id@,
        cat_id: a.cat_id@,
        appointed_tick: a.appointed_tick,
        vacancy_occurrence: a.vacancy_occurrence,
    }
}

pub open spec fn opt_appointment_view(a: Option<OfficerAppointment>) -> Option<AppointmentView> {
    match a {
        Some(a) => Some(appointment_view(a)),
        None => None,
    }
}

pub open spec fn opt_id_view(o: Option<PlannerId>) -> Option<Seq<char>> {
    match o {
        Some(id) => Some(id@),
        None => None,
    }
}

/// One office: its vacancy count, when it fell vacant, when its officer last
/// reviewed, and its current appointment.
pub struct OfficeView {
    pub vacancy_occurrence: u64,
    pub vacant_since_tick: Option<u64>,
    pub last_runtime_review_tick: Option<u64>,
    pub appointment: Option<AppointmentView>,
}

/// One office as it is persisted.
pub struct OfficeState {
    pub role: OfficerRole,
    pub vacancy_occurrence: u64,
    pub vacant_since_tick: Option<u64>,
    pub last_runtime_review_tick: Option<u64>,
    pub appointment: Option<OfficerAppointment>,
}

pub open spec fn office_view(o: OfficeState) -> OfficeView {
    OfficeView {
        vacancy_occurrence: o.vacancy_occurrence,
        vacant_since_tick: o.vacant_since_tick,
        last_runtime_review_tick: o.last_runtime_review_tick,
        appointment: opt_appointment_view(o.appointment),
    }
}

/// A never-opened office.
pub open spec fn closed_office() -> OfficeView {
    OfficeView { vacancy_occurrence: 0, vacant_since_tick: None, last_runtime_review_tick: None, appointment: None }
}

/// The duty a cat has completed in one office, as it is persisted.
pub struct DutyRecord {
    pub cat_id: PlannerId,
    pub role: OfficerRole,
    pub completed_duty_minutes: u64,
}

/// The duty a cat has completed as leader, as it is persisted.
pub struct LeaderDutyRecord {
    pub cat_id: PlannerId,
    pub completed_duty_minutes: u64,
}

/// The leader's appointment, as it is persisted.
pub struct LeaderAppointment {
    pub appointment_id: PlannerId,
    pub cat_id: PlannerId,
    pub appointed_tick: u64,
    pub vacancy_occurrence: u64,
}

pub open spec fn leader_appointment_view(a: LeaderAppointment) -> AppointmentView {
    AppointmentView {
        appointment_id: a.appointment_id@,
        cat_id: a.cat_id@,
        appointed_tick: a.appointed_tick,
        vacancy_occurrence: a.vacancy_occurrence,
    }
}

/// A leader succession, with identifiers read as text.
pub struct SuccessionView {
    pub vacancy_id: Seq<char>,
    pub vacancy_occurrence: u64,
    pub opened_tick: u64,
    pub deadline_tick: u64,
    pub ticks_per_game_hour: u64,
    pub acting_steward_id: Option<Seq<char>>,
}

#[derive(Debug, Clone, PartialEq, Eq)]
pub struct LeaderSuccession {
    vacancy_id: PlannerId,
    vacancy_occurrence: u64,
    pub opened_tick: u64,
    pub deadline_tick: u64,
    ticks_per_game_hour: u64,
    acting_steward_id: Option<PlannerId>,
}

impl LeaderSuccession {
    pub closed spec fn view(&self) -> SuccessionView {
        SuccessionView {
            vacancy_id: self.vacancy_id@,
            vacancy_occurrence: self.vacancy_occurrence,
            opened_tick: self.opened_tick,
            deadline_tick: self.deadline_tick,
            ticks_per_game_hour: self.ticks_per_game_hour,
            acting_steward_id: opt_id_view(self.acting_steward_id),
        }
    }

    fn with_acting_steward(&self, acting: Option<PlannerId>) -> (r: Self)
        ensures
            r@ == (SuccessionView { acting_steward_id: opt_id_view(acting), ..self@ }),
    {
        LeaderSuccession {
            vacancy_id: self.vacancy_id.duplicate(),
            vacancy_occurrence: self.vacancy_occurrence,
            opened_tick: self.opened_tick,
            deadline_tick: self.deadline_tick,
            ticks_per_game_hour: self.ticks_per_game_hour,
            acting_steward_id: acting,
        }
    }

    fn duplicate(&self) -> (r: Self)
        ensures
            r@ == self@,
    {
        LeaderSuccession {
            vacancy_id: self.vacancy_id.duplicate(),
            vacancy_occurrence: self.vacancy_occurrence,
            opened_tick: self.opened_tick,
            deadline_tick: self.deadline_tick,
            ticks_per_game_hour: self.ticks_per_game_hour,
            acting_steward_id: match &self.acting_steward_id {
                Some(id) => Some(id.duplicate()),
                None => None,
            },
        }
    }
}

pub open spec fn opt_succession_view(s: Option<LeaderSuccession>) -> Option<SuccessionView> {
    match s {
        Some(s) => Some(s@),
        None => None,
    }
}

/// The leader's office: its vacancy count, incumbent and open succession.
pub struct LeaderView {
    pub vacancy_occurrence: u64,
    pub incumbent: Option<AppointmentView>,
    pub succession: Option<SuccessionView>,
}

/// The leader's office, as it is persisted.
pub struct LeaderOffice {
    pub vacancy_occurrence: u64,
    pub incumbent: Option<LeaderAppointment>,
    pub succession: Option<LeaderSuccession>,
}

pub open spec fn leader_office_view(l: LeaderOffice) -> LeaderView {
    LeaderView {
        vacancy_occurrence: l.vacancy_occurrence,
        incumbent: match l.incumbent {
            Some(a) => Some(leader_appointment_view(a)),
            None => None,
        },
        succession: opt_succession_view(l.succession),
    }
}

pub open spec fn duty_key(d: DutyRecord) -> (Seq<char>, OfficerRole) {
    (d.cat_id@, d.role)
}

pub open spec fn duty_unique(s: Seq<DutyRecord>) -> bool {
    forall|i: int, j: int| 0 <= i < j < s.len() ==> duty_key(#[trigger] s[i]) != duty_key(#[trigger] s[j])
}

pub open spec fn duty_has(s: Seq<DutyRecord>, k: (Seq<char>, OfficerRole)) -> bool {
    exists|i: int| 0 <= i < s.len() && duty_key(#[trigger] s[i]) == k
}

pub open spec fn duty_map(s: Seq<DutyRecord>) -> Map<(Seq<char>, OfficerRole), u64> {
    Map::new(
        |k: (Seq<char>, OfficerRole)| duty_has(s, k),
        |k: (Seq<char>, OfficerRole)| s[choose|i: int| 0 <= i < s.len() && duty_key(#[trigger] s[i]) == k].completed_duty_minutes,
    )
}

proof fn lemma_duty_at(s: Seq<DutyRecord>, i: int)
    requires
        duty_unique(s),
        0 <= i < s.len(),
    ensures
        duty_map(s).contains_key(duty_key(s[i])),
        duty_map(s)[duty_key(s[i])] == s[i].completed_duty_minutes,
{
    let k = duty_key(s[i]);
    assert(duty_has(s, k));
    let j = choose|j: int| 0 <= j < s.len() && duty_key(#[trigger] s[j]) == k;
    if j < i {
        assert(duty_key(s[j]) != duty_key(s[i]));
    } else if j > i {
        assert(duty_key(s[i]) != duty_key(s[j]));
    }
}

proof fn lemma_duty_push(s: Seq<DutyRecord>, x: DutyRecord)
    requires
        duty_unique(s),
        !duty_map(s).contains_key(duty_key(x)),
    ensures
        duty_unique(s.push(x)),
        duty_map(s.push(x)) == duty_map(s).insert(duty_key(x), x.completed_duty_minutes),
{
    let t = s.push(x);
    assert forall|i: int, j: int| 0 <= i < j < t.len() implies duty_key(#[trigger] t[i]) != duty_key(#[trigger] t[j]) by {
        assert(t[i] == s[i]);
        if j == s.len() {
            if duty_key(s[i]) == duty_key(x) {
                assert(duty_has(s, duty_key(x)));
            }
        } else {
            assert(t[j] == s[j]);
        }
    }
    assert forall|k: (Seq<char>, OfficerRole)| duty_has(t, k) == (duty_has(s, k) || k == duty_key(x)) by {
        if duty_has(s, k) {
            let i = choose|i: int| 0 <= i < s.len() && duty_key(#[trigger] s[i]) == k;
            assert(t[i] == s[i]);
        }
        if k == duty_key(x) {
            assert(t[s.len() as int] == x);
        }
        if duty_has(t, k) {
            let i = choose|i: int| 0 <= i < t.len() && duty_key(#[trigger] t[i]) == k;
            if i < s.len() {
                assert(t[i] == s[i]);
            }
        }
    }
    assert forall|k: (Seq<char>, OfficerRole)| duty_has(t, k) implies duty_map(t)[k] == duty_map(s).insert(duty_key(x), x.completed_duty_minutes)[k] by {
        let i = choose|i: int| 0 <= i < t.len() && duty_key(#[trigger] t[i]) == k;
        lemma_duty_at(t, i);
        if i < s.len() {
            assert(t[i] == s[i]);
            lemma_duty_at(s, i);
        }
    }
    assert(duty_map(t) =~= duty_map(s).insert(duty_key(x), x.completed_duty_minutes));
}

proof fn lemma_duty_update(s: Seq<DutyRecord>, i: int, x: DutyRecord)
    requires
        duty_unique(s),
        0 <= i < s.len(),
        duty_key(x) == duty_key(s[i]),
    ensures
        duty_unique(s.update(i, x)),
        duty_map(s.update(i, x)) == duty_map(s).insert(duty_key(x), x.completed_duty_minutes),
{
    let t = s.update(i, x);
    assert forall|a: int, b: int| 0 <= a < b < t.len() implies duty_key(#[trigger] t[a]) != duty_key(#[trigger] t[b]) by {
        assert(duty_key(t[a]) == duty_key(s[a]) && duty_key(t[b]) == duty_key(s[b]));
    }
    assert forall|k: (Seq<char>, OfficerRole)| duty_has(t, k) == duty_has(s, k) by {
        if duty_has(s, k) {
            let j = choose|j: int| 0 <= j < s.len() && duty_key(#[trigger] s[j]) == k;
            assert(duty_key(t[j]) == duty_key(s[j]));
        }
        if duty_has(t, k) {
            let j = choose|j: int| 0 <= j < t.len() && duty_key(#[trigger] t[j]) == k;
            assert(duty_key(t[j]) == duty_key(s[j]));
        }
    }
    assert forall|k: (Seq<char>, OfficerRole)| duty_has(t, k) implies duty_map(t)[k] == duty_map(s).insert(duty_key(x), x.completed_duty_minutes)[k] by {
        let j = choose|j: int| 0 <= j < t.len() && duty_key(#[trigger] t[j]) == k;
        lemma_duty_at(t, j);
        if j != i {
            lemma_duty_at(s, j);
        }
    }
    assert(duty_map(t) =~= duty_map(s).insert(duty_key(x), x.completed_duty_minutes));
}

/// The colony's offices, the duty each cat has completed in each office and
/// as leader, and the leader's office.
pub struct OfficerInstitutionState {
    colony_id: String,
    offices: Vec<OfficeState>,
    duty: Vec<DutyRecord>,
    leader_duty: IdMap<u64>,
    leader: LeaderOffice,
}

/// Whether an office is held by `cat_id`.
pub open spec fn held_by(o: OfficeView, cat_id: Seq<char>) -> bool {
    o.appointment matches Some(a) && a.cat_id == cat_id
}

impl OfficerInstitutionState {
    pub closed spec fn colony(&self) -> Seq<char> {
        self.colony_id@
    }

    pub closed spec fn office(&self, role: OfficerRole) -> OfficeView {
        office_view(self.offices@[role_rank(role)])
    }

    /// Completed duty minutes per (cat, office).
    pub closed spec fn duty(&self) -> Map<(Seq<char>, OfficerRole), u64> {
        duty_map(self.duty@)
    }

    /// Completed leader duty minutes per cat.
    pub closed spec fn leader_duty(&self) -> Map<Seq<char>, u64> {
        self.leader_duty.map()
    }

    pub closed spec fn leader_view(&self) -> LeaderView {
        LeaderView {
            vacancy_occurrence: self.leader.vacancy_occurrence,
            incumbent: match self.leader.incumbent {
                Some(a) => Some(leader_appointment_view(a)),
                None => None,
            },
            succession: opt_succession_view(self.leader.succession),
        }
    }

    pub closed spec fn wf(&self) -> bool {
        &&& self.offices@.len() == 5
        &&& forall|i: int| 0 <= i < 5 ==> role_rank(#[trigger] self.offices@[i].role) == i
        &&& duty_unique(self.duty@)
        &&& self.leader_duty.wf()
    }

    /// The first office, in role order, that `cat_id` holds.
    pub open spec fn holder_role(&self, cat_id: Seq<char>) -> Option<OfficerRole> {
        if held_by(self.office(OfficerRole::Steward), cat_id) {
            Some(OfficerRole::Steward)
        } else if held_by(self.office(OfficerRole::Forester), cat_id) {
            Some(OfficerRole::Forester)
        } else if held_by(self.office(OfficerRole::Farmer), cat_id) {
            Some(OfficerRole::Farmer)
        } else if held_by(self.office(OfficerRole::Captain), cat_id) {
            Some(OfficerRole::Captain)
        } else if held_by(self.office(OfficerRole::Loremaster), cat_id) {
            Some(OfficerRole::Loremaster)
        } else {
            None
        }
    }

    /// Every office other than `role` is as in `other`.
    pub open spec fn other_offices_same(&self, other: &Self, role: OfficerRole) -> bool {
        forall|r: OfficerRole| r != role ==> #[trigger] self.office(r) == other.office(r)
    }

    pub fn new(colony_id: String) -> (r: Result<Self, InstitutionError>)
        ensures
            colony_id@.len() == 0 ==> r is Err && r->Err_0 == InstitutionError::InvalidColonyId,
            colony_id@.len() > 0 ==> (r matches Ok(s) && s.wf() && s.colony() == colony_id@
                && (forall|role: OfficerRole| #[trigger] s.office(role) == closed_office())
                && s.duty() == Map::<(Seq<char>, OfficerRole), u64>::empty()
                && s.leader_duty() == Map::<Seq<char>, u64>::empty()
                && s.leader_view() == (LeaderView { vacancy_occurrence: 0, incumbent: None, succession: None })),
    {
        if text_is_empty(colony_id.as_str()) {
            return Err(InstitutionError::InvalidColonyId);
        }
        let mut offices: Vec<OfficeState> = Vec::new();
        let mut i: usize = 0;
        while i < 5
            invariant
                i <= 5,
                offices@.len() == i,
                forall|j: int| 0 <= j < i ==> role_rank(#[trigger] offices@[j].role) == j && office_view(offices@[j]) == closed_office(),
            decreases 5 - i,
        {
            proof {
                crate::officers::law_all_roles_listed_once(OfficerRole::ALL@[i as int]);
            }
            let role = OfficerRole::ALL[i];
            assert(role_rank(role) == i) by {
                assert(role == OfficerRole::ALL@[i as int]);
                if role_rank(role) != i {
                    crate::officers::law_all_roles_listed_once(role);
                }
            }
            offices.push(OfficeState {
                role,
                vacancy_occurrence: 0,
                vacant_since_tick: None,
                last_runtime_review_tick: None,
                appointment: None,
            });
            i = i + 1;
        }
        let s = OfficerInstitutionState {
            colony_id,
            offices,
            duty: Vec::new(),
            leader_duty: IdMap::new(),
            leader: LeaderOffice { vacancy_occurrence: 0, incumbent: None, succession: None },
        };
        assert(s.duty() =~= Map::<(Seq<char>, OfficerRole), u64>::empty());
        assert forall|role: OfficerRole| #[trigger] s.office(role) == closed_office() by {
            assert(0 <= role_rank(role) < 5);
            assert(role_rank(s.offices@[role_rank(role)].role) == role_rank(role));
        }
        assert(s.leader_view() == (LeaderView { vacancy_occurrence: 0, incumbent: None, succession: None }));
        Ok(s)
    }

    fn office_ref(&self, role: OfficerRole) -> (r: &OfficeState)
        requires
            self.wf(),
        ensures
            office_view(*r) == self.office(role),
            r.role == role,
    {
        let i = role.rank() as usize;
        assert(role_rank(self.offices@[role_rank(role)].role) == role_rank(role));
        &self.offices[i]
    }

    pub fn appointment(&self, role: OfficerRole) -> (r: Option<&OfficerAppointment>)
        requires
            self.wf(),
        ensures
            r is Some == self.office(role).appointment is Some,
            r matches Some(a) ==> self.office(role).appointment == Some(appointment_view(*a)),
    {
        match &self.office_ref(role).appointment {
            Some(a) => Some(a),
            None => None,
        }
    }

    /// The open vacancy of an office and when it opened.
    pub fn vacancy(&self, role: OfficerRole) -> (r: Option<(VacancyId, Option<u64>)>)
        requires
            self.wf(),
        ensures
            r is Some == self.office(role).vacant_since_tick is Some,
            r matches Some((v, opened)) ==> v@ == vacancy_id_text(self.colony(), role, self.office(role).vacancy_occurrence)
                && v.occurrence_spec() == self.office(role).vacancy_occurrence && opened == self.office(role).vacant_since_tick,
    {
        let office = self.office_ref(role);
        match office.vacant_since_tick {
            Some(opened) => Some((VacancyId::derive(self.colony_id.as_str(), role, office.vacancy_occurrence), Some(opened))),
            None => None,
        }
    }

    pub fn officer(&self, role: OfficerRole) -> (r: Option<&PlannerId>)
        requires
            self.wf(),
        ensures
            r is Some == self.office(role).appointment is Some,
            r matches Some(id) ==> id@ == self.office(role).appointment->0.cat_id,
    {
        match &self.office_ref(role).appointment {
            Some(a) => Some(&a.cat_id),
            None => None,
        }
    }

    pub fn leader(&self) -> (r: Option<&PlannerId>)
        ensures
            r is Some == self.leader_view().incumbent is Some,
            r matches Some(id) ==> id@ == self.leader_view().incumbent->0.cat_id,
    {
        match &self.leader.incumbent {
            Some(a) => Some(&a.cat_id),
            None => None,
        }
    }

    pub fn acting_steward(&self) -> (r: Option<&PlannerId>)
        ensures
            r is Some == (self.leader_view().succession matches Some(s) && s.acting_steward_id is Some),
            r matches Some(id) ==> self.leader_view().succession->0.acting_steward_id == Some(id@),
    {
        match &self.leader.succession {
            Some(s) => match &s.acting_steward_id {
                Some(id) => Some(id),
                None => None,
            },
            None => None,
        }
    }

    pub fn leader_succession_due(&self, now_tick: u64) -> (r: bool)
        ensures
            r == (self.leader_view().succession matches Some(s) && now_tick >= s.deadline_tick),
    {
        match &self.leader.succession {
            Some(s) => now_tick >= s.deadline_tick,
            None => false,
        }
    }

    fn find_duty(&self, cat_id: &PlannerId, role: OfficerRole) -> (r: Option<usize>)
        requires
            duty_unique(self.duty@),
        ensures
            r is Some == self.duty().contains_key((cat_id@, role)),
            r matches Some(i) ==> i < self.duty@.len() && duty_key(self.duty@[i as int]) == (cat_id@, role)
                && self.duty()[(cat_id@, role)] == self.duty@[i as int].completed_duty_minutes,
    {
        let n = self.duty.len();
        let mut i: usize = 0;
        while i < n
            invariant
                n == self.duty@.len(),
                i <= n,
                duty_unique(self.duty@),
                forall|j: int| 0 <= j < i ==> duty_key(#[trigger] self.duty@[j]) != (cat_id@, role),
            decreases n - i,
        {
            if self.duty[i].role == role && text_eq(self.duty[i].cat_id.as_str(), cat_id.as_str()) {
                proof {
                    lemma_duty_at(self.duty@, i as int);
                }
                return Some(i);
            }
            i = i + 1;
        }
        None
    }

    pub fn leader_completed_duty_minutes(&self, cat_id: &PlannerId) -> (r: u64)
        requires
            self.wf(),
        ensures
            r == if self.leader_duty().contains_key(cat_id@) { self.leader_duty()[cat_id@] } else { 0 },
    {
        match self.leader_duty.get(cat_id.as_str()) {
            Some(m) => *m,
            None => 0,
        }
    }

    /// The cat's completed duty minutes in an office.
    pub open spec fn duty_minutes(&self, cat_id: Seq<char>, role: OfficerRole) -> u64 {
        if self.duty().contains_key((cat_id, role)) { self.duty()[(cat_id, role)] } else { 0 }
    }

    pub fn personal_level(&self, cat_id: &PlannerId, role: OfficerRole) -> (r: ExpertiseLevel)
        requires
            self.wf(),
        ensures
            r == level_for_hours(self.duty_minutes(cat_id@, role) as int / 60),
    {
        let minutes = match self.find_duty(cat_id, role) {
            Some(i) => self.duty[i].completed_duty_minutes,
            None => 0,
        };
        personal_level(minutes)
    }

    pub fn effective_level(&self, cat_id: &PlannerId, role: OfficerRole, bonuses: ExpertiseBonuses) -> (r: ExpertiseLevel)
        requires
            self.wf(),
        ensures
            r == boosted_level(level_for_hours(self.duty_minutes(cat_id@, role) as int / 60), bonuses),
    {
        effective_level(self.personal_level(cat_id, role), bonuses)
    }
}


#[derive(Debug, Clone, PartialEq, Eq)]
pub struct OfficerAppointmentTransition {
    pub role: OfficerRole,
    pub successor_id: PlannerId,
    pub appointed_tick: u64,
}

#[derive(Debug, Clone, PartialEq, Eq)]
pub struct LeaderTransition {
    pub successor_id: PlannerId,
    pub vacated_office: Option<OfficerRole>,
}

/// How precisely a report may state what it saw, one step per expertise level.
#[derive(Debug, Clone, Copy, PartialEq, Eq, Structural)]
pub enum ReportLevel {
    One,
    Two,
    Three,
    Four,
    Five,
}

/// What a report may say of a flow.
#[derive(Debug, Clone, Copy, PartialEq, Eq, Structural)]
pub enum ReportFlowCapability {
    Absent,
    Trend,
    CoarseObservedRange,
    NumericObservedRate,
    HighConfidenceNumericObservedRate,
}

/// A report permission surface: the precision a report may carry.
#[derive(Debug, Clone, Copy, PartialEq, Eq, Structural)]
pub struct ReportCapability {
    pub level: ReportLevel,
    pub flow: ReportFlowCapability,
}

/// The report capability of an expertise level.
pub open spec fn report_capability_of(level: ExpertiseLevel) -> ReportCapability {
    match level {
        ExpertiseLevel::One => ReportCapability { level: ReportLevel::One, flow: ReportFlowCapability::Absent },
        ExpertiseLevel::Two => ReportCapability { level: ReportLevel::Two, flow: ReportFlowCapability::Trend },
        ExpertiseLevel::Three => ReportCapability { level: ReportLevel::Three, flow: ReportFlowCapability::CoarseObservedRange },
        ExpertiseLevel::Four => ReportCapability { level: ReportLevel::Four, flow: ReportFlowCapability::NumericObservedRate },
        ExpertiseLevel::Five => ReportCapability {
            level: ReportLevel::Five,
            flow: ReportFlowCapability::HighConfidenceNumericObservedRate,
        },
    }
}

pub fn report_capability(level: ExpertiseLevel) -> (r: ReportCapability)
    ensures
        r == report_capability_of(level),
{
    match level {
        ExpertiseLevel::One => ReportCapability { level: ReportLevel::One, flow: ReportFlowCapability::Absent },
        ExpertiseLevel::Two => ReportCapability { level: ReportLevel::Two, flow: ReportFlowCapability::Trend },
        ExpertiseLevel::Three => ReportCapability { level: ReportLevel::Three, flow: ReportFlowCapability::CoarseObservedRange },
        ExpertiseLevel::Four => ReportCapability { level: ReportLevel::Four, flow: ReportFlowCapability::NumericObservedRate },
        ExpertiseLevel::Five => ReportCapability {
            level: ReportLevel::Five,
            flow: ReportFlowCapability::HighConfidenceNumericObservedRate,
        },
    }
}

/// An officer's due review: who reviews, at which effective level and report
/// capability, and the tick the review fell due.
#[derive(Debug, Clone, PartialEq, Eq)]
pub struct OfficerRuntimeReview {
    pub role: OfficerRole,
    pub officer_id: PlannerId,
    pub effective_level: ExpertiseLevel,
    pub capability: ReportCapability,
    pub due_tick: u64,
}

pub open spec fn unit_result(e: Option<InstitutionError>) -> Result<(), InstitutionError> {
    match e {
        Some(e) => Err(e),
        None => Ok(()),
    }
}

/// A freshly appointed office.
pub open spec fn appointed_office(colony_id: Seq<char>, role: OfficerRole, occurrence: u64, cat_id: Seq<char>, tick: u64) -> OfficeView {
    OfficeView {
        vacancy_occurrence: occurrence,
        vacant_since_tick: None,
        last_runtime_review_tick: None,
        appointment: Some(AppointmentView {
            appointment_id: appointment_id_text(colony_id, role, occurrence, cat_id),
            cat_id,
            appointed_tick: tick,
            vacancy_occurrence: occurrence,
        }),
    }
}

/// A vacated office: a new vacancy occurrence, open since `tick`.
pub open spec fn vacated_office(occurrence: u64, tick: u64) -> OfficeView {
    OfficeView {
        vacancy_occurrence: (occurrence + 1) as u64,
        vacant_since_tick: Some(tick),
        last_runtime_review_tick: None,
        appointment: None,
    }
}

/// The leader's new incumbent.
pub open spec fn leader_appointment(colony_id: Seq<char>, occurrence: u64, cat_id: Seq<char>, tick: u64) -> AppointmentView {
    AppointmentView {
        appointment_id: leader_appointment_id_text(colony_id, occurrence, cat_id),
        cat_id,
        appointed_tick: tick,
        vacancy_occurrence: occurrence,
    }
}

/// The succession with its acting steward replaced.
pub open spec fn with_acting(s: SuccessionView, acting: Option<Seq<char>>) -> SuccessionView {
    SuccessionView { acting_steward_id: acting, ..s }
}

impl OfficerInstitutionState {
    /// The number of stored (cat, office) duty records.
    pub closed spec fn duty_records(&self) -> nat {
        self.duty@.len()
    }

    /// The colony, duty records and leader's office are as in `other`.
    pub open spec fn same_records(&self, other: &Self) -> bool {
        &&& self.colony() == other.colony()
        &&& self.duty() == other.duty()
        &&& self.duty_records() == other.duty_records()
        &&& self.leader_duty() == other.leader_duty()
        &&& self.leader_view() == other.leader_view()
    }

    /// Put `office` in its role's place, returning the office it replaces.
    fn replace_office(&mut self, office: OfficeState) -> (r: OfficeState)
        requires
            old(self).wf(),
        ensures
            final(self).wf(),
            r.role == office.role,
            office_view(r) == old(self).office(office.role),
            final(self).office(office.role) == office_view(office),
            final(self).other_offices_same(&*old(self), office.role),
            final(self).colony_id == old(self).colony_id,
            final(self).duty == old(self).duty,
            final(self).leader_duty == old(self).leader_duty,
            final(self).leader == old(self).leader,
    {
        let i = office.role.rank() as usize;
        let ghost old_offices = self.offices@;
        let ghost role = office.role;
        assert(role_rank(old_offices[role_rank(role)].role) == role_rank(role));
        let r = self.offices.remove(i);
        self.offices.insert(i, office);
        proof {
            assert(self.offices@ == old_offices.update(i as int, office));
            assert forall|j: int| 0 <= j < 5 implies role_rank(#[trigger] self.offices@[j].role) == j by {
                if j != i {
                    assert(self.offices@[j] == old_offices[j]);
                }
            }
            assert forall|other: OfficerRole| other != role implies #[trigger] self.office(other) == old(self).office(other) by {
                assert(0 <= role_rank(other) < 5);
                if role_rank(other) == i {
                    crate::officers::law_all_roles_listed_once(other);
                    crate::officers::law_all_roles_listed_once(role);
                }
            }
        }
        r
    }

    /// Open an office for appointment. Opening an already open office keeps
    /// its original opening tick.
    pub fn open_office(&mut self, role: OfficerRole, now_tick: u64) -> (r: Result<VacancyId, InstitutionError>)
        requires
            old(self).wf(),
        ensures
            final(self).wf(),
            old(self).office(role).appointment is Some ==> r == Err::<VacancyId, InstitutionError>(InstitutionError::OfficeFilled)
                && final(self).office(role) == old(self).office(role),
            old(self).office(role).appointment is None ==> (r matches Ok(v)
                && v@ == vacancy_id_text(old(self).colony(), role, old(self).office(role).vacancy_occurrence)
                && v.occurrence_spec() == old(self).office(role).vacancy_occurrence
                && final(self).office(role) == (OfficeView {
                    vacant_since_tick: if old(self).office(role).vacant_since_tick is Some {
                        old(self).office(role).vacant_since_tick
                    } else {
                        Some(now_tick)
                    },
                    ..old(self).office(role)
                })),
            final(self).other_offices_same(&*old(self), role),
            final(self).same_records(&*old(self)),
    {
        let office = self.office_ref(role);
        if office.appointment.is_some() {
            return Err(InstitutionError::OfficeFilled);
        }
        let occurrence = office.vacancy_occurrence;
        if office.vacant_since_tick.is_none() {
            let next = OfficeState {
                role,
                vacancy_occurrence: occurrence,
                vacant_since_tick: Some(now_tick),
                last_runtime_review_tick: office.last_runtime_review_tick,
                appointment: None,
            };
            self.replace_office(next);
        }
        Ok(VacancyId::derive(self.colony_id.as_str(), role, occurrence))
    }

    /// The first office, in role order, that `cat_id` holds.
    fn find_holder(&self, cat_id: &PlannerId) -> (r: Option<OfficerRole>)
        requires
            self.wf(),
        ensures
            r == self.holder_role(cat_id@),
    {
        let mut i: usize = 0;
        while i < 5
            invariant
                self.wf(),
                i <= 5,
                forall|j: int| 0 <= j < i ==> !held_by(office_view(#[trigger] self.offices@[j]), cat_id@),
            decreases 5 - i,
        {
            let office = &self.offices[i];
            assert(role_rank(self.offices@[i as int].role) == i);
            let held = match &office.appointment {
                Some(a) => text_eq(a.cat_id.as_str(), cat_id.as_str()),
                None => false,
            };
            if held {
                proof {
                    let role = office.role;
                    assert(self.office(role) == office_view(self.offices@[i as int]));
                    assert forall|j: int| 0 <= j < i implies !held_by(self.office(#[trigger] OfficerRole::ALL@[j]), cat_id@) by {
                        crate::officers::law_all_roles_listed_once(OfficerRole::ALL@[j]);
                        assert(role_rank(self.offices@[j].role) == j);
                    }
                    crate::officers::law_all_roles_listed_once(role);
                }
                return Some(office.role);
            }
            i = i + 1;
        }
        proof {
            assert forall|role: OfficerRole| !held_by(#[trigger] self.office(role), cat_id@) by {
                assert(0 <= role_rank(role) < 5);
                assert(role_rank(self.offices@[role_rank(role)].role) == role_rank(role));
            }
            assert(!held_by(self.office(OfficerRole::Steward), cat_id@));
            assert(!held_by(self.office(OfficerRole::Forester), cat_id@));
            assert(!held_by(self.office(OfficerRole::Farmer), cat_id@));
            assert(!held_by(self.office(OfficerRole::Captain), cat_id@));
            assert(!held_by(self.office(OfficerRole::Loremaster), cat_id@));
        }
        None
    }
}


pub open spec fn appoint_error(
    s: OfficerInstitutionState,
    role: OfficerRole,
    cat_id: Seq<char>,
) -> Option<InstitutionError> {
    if !planner_id_valid(cat_id) {
        Some(InstitutionError::InvalidCandidateId)
    } else if s.office(role).appointment is Some {
        Some(InstitutionError::OfficeFilled)
    } else if (s.leader_view().incumbent matches Some(a) && a.cat_id == cat_id) || s.holder_role(cat_id) is Some {
        Some(InstitutionError::CandidateAlreadyAppointed)
    } else if s.office(role).vacant_since_tick is None {
        Some(InstitutionError::OfficeUnavailable)
    } else {
        None
    }
}

pub open spec fn vacate_error(s: OfficerInstitutionState, role: OfficerRole) -> Option<InstitutionError> {
    if s.office(role).appointment is None {
        Some(InstitutionError::OfficeVacant)
    } else if s.office(role).vacancy_occurrence == u64::MAX {
        Some(InstitutionError::OccurrenceOverflow)
    } else {
        None
    }
}

impl OfficerInstitutionState {
    /// Vacate a filled office, opening its next vacancy.
    pub fn vacate_office(&mut self, role: OfficerRole, now_tick: u64) -> (r: Result<VacancyId, InstitutionError>)
        requires
            old(self).wf(),
        ensures
            final(self).wf(),
            final(self).same_records(&*old(self)),
            final(self).other_offices_same(&*old(self), role),
            vacate_error(*old(self), role) matches Some(e) ==> r == Err::<VacancyId, InstitutionError>(e)
                && final(self).office(role) == old(self).office(role),
            vacate_error(*old(self), role) is None ==> (r matches Ok(v)
                && v@ == vacancy_id_text(old(self).colony(), role, (old(self).office(role).vacancy_occurrence + 1) as u64)
                && v.occurrence_spec() == old(self).office(role).vacancy_occurrence + 1
                && final(self).office(role) == vacated_office(old(self).office(role).vacancy_occurrence, now_tick)),
    {
        let office = self.office_ref(role);
        if office.appointment.is_none() {
            return Err(InstitutionError::OfficeVacant);
        }
        if office.vacancy_occurrence == u64::MAX {
            return Err(InstitutionError::OccurrenceOverflow);
        }
        let next_occurrence = office.vacancy_occurrence + 1;
        self.replace_office(OfficeState {
            role,
            vacancy_occurrence: next_occurrence,
            vacant_since_tick: Some(now_tick),
            last_runtime_review_tick: None,
            appointment: None,
        });
        Ok(VacancyId::derive(self.colony_id.as_str(), role, next_occurrence))
    }

    /// Choose a candidate for an open office, given each candidate's draw: the
    /// office must be vacant and open; the choice is the appointment draw of
    /// this colony.
    pub fn select_for_open_office(
        &self,
        role: OfficerRole,
        leader_effective_level: ExpertiseLevel,
        candidates: &Vec<AppointmentCandidate>,
        rolls: &Vec<u64>,
    ) -> (r: Result<Option<AppointmentSelection>, InstitutionError>)
        requires
            self.wf(),
            rolls@.len() == candidates@.len(),
        ensures
            self.office(role).appointment is Some ==> r == Err::<Option<AppointmentSelection>, InstitutionError>(
                InstitutionError::OfficeFilled,
            ),
            self.office(role).appointment is None && self.office(role).vacant_since_tick is None ==> r == Err::<
                Option<AppointmentSelection>,
                InstitutionError,
            >(InstitutionError::OfficeUnavailable),
            self.office(role).appointment is None && self.office(role).vacant_since_tick is Some ==> {
                &&& self.colony().len() == 0 ==> r == Err::<Option<AppointmentSelection>, InstitutionError>(
                    InstitutionError::InvalidColonyId,
                )
                &&& self.colony().len() != 0 && candidates@.len() > MAX_APPOINTMENT_CANDIDATES ==> r == Err::<
                    Option<AppointmentSelection>,
                    InstitutionError,
                >(InstitutionError::CandidateCapacityExceeded)
                &&& self.colony().len() != 0 && candidates@.len() <= MAX_APPOINTMENT_CANDIDATES ==> match candidates_error(
                    candidates@,
                    candidates@.len() as int,
                ) {
                    Some(e) => r == Err::<Option<AppointmentSelection>, InstitutionError>(e),
                    None => r matches Ok(choice) && appointment_choice(candidates@, rolls@, leader_effective_level, choice),
                }
            },
    {
        let office = self.office_ref(role);
        if office.appointment.is_some() {
            return Err(InstitutionError::OfficeFilled);
        }
        if office.vacant_since_tick.is_none() {
            return Err(InstitutionError::OfficeUnavailable);
        }
        select_appointment_candidate(self.colony_id.as_str(), leader_effective_level, candidates, rolls)
    }

    /// Appoint a cat to an open office. A new steward also becomes the acting
    /// steward of an open leader succession.
    pub fn appoint_officer(&mut self, role: OfficerRole, cat_id: PlannerId, now_tick: u64) -> (r: Result<
        OfficerAppointmentTransition,
        InstitutionError,
    >)
        requires
            old(self).wf(),
        ensures
            final(self).wf(),
            appoint_error(*old(self), role, cat_id@) matches Some(e) ==> r == Err::<OfficerAppointmentTransition, InstitutionError>(e)
                && *final(self) == *old(self),
            appoint_error(*old(self), role, cat_id@) is None ==> (r matches Ok(t) && t.role == role && t.successor_id@ == cat_id@
                && t.appointed_tick == now_tick
                && final(self).office(role) == appointed_office(
                    old(self).colony(),
                    role,
                    old(self).office(role).vacancy_occurrence,
                    cat_id@,
                    now_tick,
                )
                && final(self).other_offices_same(&*old(self), role)
                && final(self).colony() == old(self).colony()
                && final(self).duty() == old(self).duty()
                && final(self).duty_records() == old(self).duty_records()
                && final(self).leader_duty() == old(self).leader_duty()
                && final(self).leader_view() == if role == OfficerRole::Steward && old(self).leader_view().succession is Some {
                    LeaderView {
                        succession: Some(with_acting(old(self).leader_view().succession->0, Some(cat_id@))),
                        ..old(self).leader_view()
                    }
                } else {
                    old(self).leader_view()
                }),
    {
        if !is_planner_id(&cat_id) {
            return Err(InstitutionError::InvalidCandidateId);
        }
        let office = self.office_ref(role);
        if office.appointment.is_some() {
            return Err(InstitutionError::OfficeFilled);
        }
        let is_leader = match &self.leader.incumbent {
            Some(a) => text_eq(a.cat_id.as_str(), cat_id.as_str()),
            None => false,
        };
        if is_leader || self.find_holder(&cat_id).is_some() {
            return Err(InstitutionError::CandidateAlreadyAppointed);
        }
        if office.vacant_since_tick.is_none() {
            return Err(InstitutionError::OfficeUnavailable);
        }
        let occurrence = office.vacancy_occurrence;
        let appointment = OfficerAppointment {
            appointment_id: AppointmentId::derive(self.colony_id.as_str(), role, occurrence, &cat_id),
            cat_id: cat_id.duplicate(),
            appointed_tick: now_tick,
            vacancy_occurrence: occurrence,
        };
        self.replace_office(OfficeState {
            role,
            vacancy_occurrence: occurrence,
            vacant_since_tick: None,
            last_runtime_review_tick: None,
            appointment: Some(appointment),
        });
        let ghost mid = *self;
        if role == OfficerRole::Steward {
            let next = match &self.leader.succession {
                Some(succession) => Some(succession.with_acting_steward(Some(cat_id.duplicate()))),
                None => None,
            };
            self.leader.succession = next;
        }
        assert(self.offices == mid.offices);
        assert forall|other: OfficerRole| other != role implies #[trigger] self.office(other) == old(self).office(other) by {
            assert(self.office(other) == mid.office(other));
        }
        Ok(OfficerAppointmentTransition { role, successor_id: cat_id, appointed_tick: now_tick })
    }

    /// An officer died: their office falls vacant, and they stop acting as
    /// steward of an open succession.
    pub fn officer_died(&mut self, cat_id: &PlannerId, now_tick: u64) -> (r: Result<Option<VacancyId>, InstitutionError>)
        requires
            old(self).wf(),
        ensures
            final(self).wf(),
            old(self).holder_role(cat_id@) is None ==> (r matches Ok(None) && *final(self) == *old(self)),
            old(self).holder_role(cat_id@) matches Some(role) ==> {
                &&& old(self).office(role).vacancy_occurrence == u64::MAX ==> r == Err::<Option<VacancyId>, InstitutionError>(
                    InstitutionError::OccurrenceOverflow,
                ) && *final(self) == *old(self)
                &&& old(self).office(role).vacancy_occurrence < u64::MAX ==> (r matches Ok(Some(v))
                    && v@ == vacancy_id_text(old(self).colony(), role, (old(self).office(role).vacancy_occurrence + 1) as u64)
                    && final(self).office(role) == vacated_office(old(self).office(role).vacancy_occurrence, now_tick)
                    && final(self).other_offices_same(&*old(self), role)
                    && final(self).colony() == old(self).colony()
                    && final(self).duty() == old(self).duty()
                    && final(self).duty_records() == old(self).duty_records()
                    && final(self).leader_duty() == old(self).leader_duty()
                    && final(self).leader_view() == if old(self).leader_view().succession matches Some(s)
                        && s.acting_steward_id == Some(cat_id@) {
                        LeaderView {
                            succession: Some(with_acting(old(self).leader_view().succession->0, None)),
                            ..old(self).leader_view()
                        }
                    } else {
                        old(self).leader_view()
                    })
            },
    {
        let role = match self.find_holder(cat_id) {
            Some(role) => role,
            None => return Ok(None),
        };
        let ghost before = *self;
        if self.office_ref(role).vacancy_occurrence == u64::MAX {
            return Err(InstitutionError::OccurrenceOverflow);
        }
        let vacancy = match self.vacate_office(role, now_tick) {
            Ok(v) => v,
            Err(e) => return Err(e),
        };
        let acting = match self.acting_steward() {
            Some(id) => text_eq(id.as_str(), cat_id.as_str()),
            None => false,
        };
        let ghost mid = *self;
        if acting {
            let next = match &self.leader.succession {
                Some(succession) => Some(succession.with_acting_steward(None)),
                None => None,
            };
            self.leader.succession = next;
        }
        assert(self.offices == mid.offices);
        assert forall|other: OfficerRole| other != role implies #[trigger] self.office(other) == old(self).office(other) by {
            assert(self.office(other) == mid.office(other));
        }
        Ok(Some(vacancy))
    }
}


pub open spec fn record_duty_error(
    s: OfficerInstitutionState,
    cat_id: Seq<char>,
    role: OfficerRole,
    minutes: u64,
) -> Option<InstitutionError> {
    if !planner_id_valid(cat_id) {
        Some(InstitutionError::InvalidCandidateId)
    } else if !s.duty().contains_key((cat_id, role)) && s.duty_records() >= MAX_DUTY_RECORDS {
        Some(InstitutionError::DutyCapacityExceeded)
    } else if s.duty_minutes(cat_id, role) + minutes > u64::MAX {
        Some(InstitutionError::DutyOverflow)
    } else {
        None
    }
}

pub open spec fn record_leader_duty_error(s: OfficerInstitutionState, cat_id: Seq<char>, minutes: u64) -> Option<InstitutionError> {
    if !planner_id_valid(cat_id) {
        Some(InstitutionError::InvalidCandidateId)
    } else if !(s.leader_view().incumbent matches Some(a) && a.cat_id == cat_id) {
        Some(InstitutionError::LeaderMismatch)
    } else if !s.leader_duty().contains_key(cat_id) && s.leader_duty().len() >= MAX_DUTY_RECORDS {
        Some(InstitutionError::DutyCapacityExceeded)
    } else if (if s.leader_duty().contains_key(cat_id) { s.leader_duty()[cat_id] as int } else { 0 }) + minutes > u64::MAX {
        Some(InstitutionError::DutyOverflow)
    } else {
        None
    }
}

pub open spec fn set_founding_leader_error(s: OfficerInstitutionState, cat_id: Seq<char>) -> Option<InstitutionError> {
    if !planner_id_valid(cat_id) {
        Some(InstitutionError::InvalidCandidateId)
    } else if s.leader_view().incumbent is Some || s.leader_view().succession is Some {
        Some(InstitutionError::LeaderFilled)
    } else if s.holder_role(cat_id) is Some {
        Some(InstitutionError::CandidateAlreadyAppointed)
    } else {
        None
    }
}

pub open spec fn leader_died_error(
    s: OfficerInstitutionState,
    cat_id: Seq<char>,
    now_tick: u64,
    ticks_per_game_hour: u64,
) -> Option<InstitutionError> {
    if ticks_per_game_hour == 0 {
        Some(InstitutionError::InvalidClock)
    } else if s.leader_view().incumbent is None {
        Some(InstitutionError::LeaderVacant)
    } else if s.leader_view().incumbent->0.cat_id != cat_id {
        Some(InstitutionError::LeaderMismatch)
    } else if now_tick + LEADER_SUCCESSION_GAME_HOURS * ticks_per_game_hour > u64::MAX {
        Some(InstitutionError::TickOverflow)
    } else if s.leader_view().vacancy_occurrence == u64::MAX {
        Some(InstitutionError::OccurrenceOverflow)
    } else {
        None
    }
}

/// The succession a leader's death opens.
pub open spec fn opened_succession(
    s: OfficerInstitutionState,
    now_tick: u64,
    ticks_per_game_hour: u64,
) -> SuccessionView {
    let occurrence = (s.leader_view().vacancy_occurrence + 1) as u64;
    SuccessionView {
        vacancy_id: leader_vacancy_id_text(s.colony(), occurrence),
        vacancy_occurrence: occurrence,
        opened_tick: now_tick,
        deadline_tick: (now_tick + LEADER_SUCCESSION_GAME_HOURS * ticks_per_game_hour) as u64,
        ticks_per_game_hour,
        acting_steward_id: match s.office(OfficerRole::Steward).appointment {
            Some(a) => Some(a.cat_id),
            None => None,
        },
    }
}

pub open spec fn appoint_leader_error(s: OfficerInstitutionState, successor_id: Seq<char>) -> Option<InstitutionError> {
    if !planner_id_valid(successor_id) {
        Some(InstitutionError::InvalidCandidateId)
    } else if s.leader_view().incumbent is Some {
        Some(InstitutionError::LeaderFilled)
    } else if s.leader_view().succession is None {
        Some(InstitutionError::NoActiveSuccession)
    } else if s.holder_role(successor_id) matches Some(role) && s.office(role).vacancy_occurrence == u64::MAX {
        Some(InstitutionError::OccurrenceOverflow)
    } else {
        None
    }
}

impl OfficerInstitutionState {
    /// Add completed duty minutes to a cat's record in an office.
    pub fn record_completed_duty_minutes(&mut self, cat_id: PlannerId, role: OfficerRole, completed_minutes: u64) -> (r: Result<
        (),
        InstitutionError,
    >)
        requires
            old(self).wf(),
        ensures
            final(self).wf(),
            r == unit_result(record_duty_error(*old(self), cat_id@, role, completed_minutes)),
            r is Err ==> *final(self) == *old(self),
            r is Ok ==> final(self).duty() == old(self).duty().insert(
                (cat_id@, role),
                (old(self).duty_minutes(cat_id@, role) + completed_minutes) as u64,
            ) && final(self).duty_records() == old(self).duty_records() + if old(self).duty().contains_key((cat_id@, role)) {
                0int
            } else {
                1int
            },
            final(self).colony() == old(self).colony(),
            final(self).leader_duty() == old(self).leader_duty(),
            final(self).leader_view() == old(self).leader_view(),
            forall|other: OfficerRole| #[trigger] final(self).office(other) == old(self).office(other),
    {
        if !is_planner_id(&cat_id) {
            return Err(InstitutionError::InvalidCandidateId);
        }
        let ghost before = *self;
        match self.find_duty(&cat_id, role) {
            Some(i) => {
                let current = self.duty[i].completed_duty_minutes;
                let next = match current.checked_add(completed_minutes) {
                    Some(n) => n,
                    None => return Err(InstitutionError::DutyOverflow),
                };
                let record = DutyRecord { cat_id, role, completed_duty_minutes: next };
                proof {
                    lemma_duty_update(self.duty@, i as int, record);
                }
                self.duty.set(i, record);
            },
            None => {
                if self.duty.len() >= MAX_DUTY_RECORDS {
                    return Err(InstitutionError::DutyCapacityExceeded);
                }
                let record = DutyRecord { cat_id, role, completed_duty_minutes: completed_minutes };
                proof {
                    lemma_duty_push(self.duty@, record);
                }
                self.duty.push(record);
            },
        }
        assert(self.offices == before.offices);
        Ok(())
    }

    /// Add completed duty hours to a cat's record in an office.
    pub fn record_completed_duty_hours(&mut self, cat_id: PlannerId, role: OfficerRole, completed_hours: u64) -> (r: Result<
        (),
        InstitutionError,
    >)
        requires
            old(self).wf(),
        ensures
            final(self).wf(),
            completed_hours * 60 > u64::MAX ==> r == Err::<(), InstitutionError>(InstitutionError::DutyOverflow)
                && *final(self) == *old(self),
            completed_hours * 60 <= u64::MAX ==> r == unit_result(
                record_duty_error(*old(self), cat_id@, role, (completed_hours * 60) as u64),
            ),
            r is Err ==> *final(self) == *old(self),
            r is Ok ==> final(self).duty() == old(self).duty().insert(
                (cat_id@, role),
                (old(self).duty_minutes(cat_id@, role) + completed_hours * 60) as u64,
            ),
            final(self).colony() == old(self).colony(),
            final(self).leader_duty() == old(self).leader_duty(),
            final(self).leader_view() == old(self).leader_view(),
            forall|other: OfficerRole| #[trigger] final(self).office(other) == old(self).office(other),
    {
        let minutes = match completed_hours.checked_mul(60) {
            Some(m) => m,
            None => return Err(InstitutionError::DutyOverflow),
        };
        self.record_completed_duty_minutes(cat_id, role, minutes)
    }

    /// Add completed duty minutes to the incumbent leader's record.
    pub fn record_completed_leader_duty_minutes(&mut self, cat_id: PlannerId, completed_minutes: u64) -> (r: Result<
        (),
        InstitutionError,
    >)
        requires
            old(self).wf(),
        ensures
            final(self).wf(),
            r == unit_result(record_leader_duty_error(*old(self), cat_id@, completed_minutes)),
            r is Err ==> *final(self) == *old(self),
            r is Ok ==> final(self).leader_duty() == old(self).leader_duty().insert(
                cat_id@,
                ((if old(self).leader_duty().contains_key(cat_id@) { old(self).leader_duty()[cat_id@] as int } else { 0 })
                    + completed_minutes) as u64,
            ),
            final(self).colony() == old(self).colony(),
            final(self).duty() == old(self).duty(),
            final(self).duty_records() == old(self).duty_records(),
            final(self).leader_view() == old(self).leader_view(),
            forall|other: OfficerRole| #[trigger] final(self).office(other) == old(self).office(other),
    {
        if !is_planner_id(&cat_id) {
            return Err(InstitutionError::InvalidCandidateId);
        }
        let is_leader = match &self.leader.incumbent {
            Some(a) => text_eq(a.cat_id.as_str(), cat_id.as_str()),
            None => false,
        };
        if !is_leader {
            return Err(InstitutionError::LeaderMismatch);
        }
        proof {
            crate::id_map::lemma_map_len(self.leader_duty@);
        }
        let current = match self.leader_duty.get(cat_id.as_str()) {
            Some(m) => *m,
            None => {
                if self.leader_duty.len() >= MAX_DUTY_RECORDS {
                    return Err(InstitutionError::DutyCapacityExceeded);
                }
                0
            },
        };
        let next = match current.checked_add(completed_minutes) {
            Some(n) => n,
            None => return Err(InstitutionError::DutyOverflow),
        };
        let ghost before = *self;
        self.leader_duty.insert(String::from_str(cat_id.as_str()), next);
        assert(self.offices == before.offices);
        Ok(())
    }

    /// Seat the colony's founding leader.
    pub fn set_founding_leader(&mut self, cat_id: PlannerId, appointed_tick: u64) -> (r: Result<(), InstitutionError>)
        requires
            old(self).wf(),
        ensures
            final(self).wf(),
            r == unit_result(set_founding_leader_error(*old(self), cat_id@)),
            r is Err ==> *final(self) == *old(self),
            r is Ok ==> final(self).leader_view() == (LeaderView {
                incumbent: Some(leader_appointment(old(self).colony(), old(self).leader_view().vacancy_occurrence, cat_id@, appointed_tick)),
                ..old(self).leader_view()
            }),
            final(self).colony() == old(self).colony(),
            final(self).duty() == old(self).duty(),
            final(self).duty_records() == old(self).duty_records(),
            final(self).leader_duty() == old(self).leader_duty(),
            forall|other: OfficerRole| #[trigger] final(self).office(other) == old(self).office(other),
    {
        if !is_planner_id(&cat_id) {
            return Err(InstitutionError::InvalidCandidateId);
        }
        if self.leader.incumbent.is_some() || self.leader.succession.is_some() {
            return Err(InstitutionError::LeaderFilled);
        }
        if self.find_holder(&cat_id).is_some() {
            return Err(InstitutionError::CandidateAlreadyAppointed);
        }
        let ghost before = *self;
        let occurrence = self.leader.vacancy_occurrence;
        self.leader.incumbent = Some(LeaderAppointment {
            appointment_id: leader_appointment_id(self.colony_id.as_str(), occurrence, &cat_id),
            cat_id,
            appointed_tick,
            vacancy_occurrence: occurrence,
        });
        assert(self.offices == before.offices);
        Ok(())
    }

    /// The leader died: the office opens a succession with a deadline, and
    /// the current steward acts meanwhile.
    pub fn leader_died(&mut self, cat_id: &PlannerId, now_tick: u64, ticks_per_game_hour: u64) -> (r: Result<
        LeaderSuccession,
        InstitutionError,
    >)
        requires
            old(self).wf(),
        ensures
            final(self).wf(),
            leader_died_error(*old(self), cat_id@, now_tick, ticks_per_game_hour) matches Some(e) ==> r
                == Err::<LeaderSuccession, InstitutionError>(e) && *final(self) == *old(self),
            leader_died_error(*old(self), cat_id@, now_tick, ticks_per_game_hour) is None ==> (r matches Ok(s)
                && s@ == opened_succession(*old(self), now_tick, ticks_per_game_hour)
                && final(self).leader_view() == (LeaderView {
                    vacancy_occurrence: (old(self).leader_view().vacancy_occurrence + 1) as u64,
                    incumbent: None,
                    succession: Some(opened_succession(*old(self), now_tick, ticks_per_game_hour)),
                })),
            final(self).colony() == old(self).colony(),
            final(self).duty() == old(self).duty(),
            final(self).duty_records() == old(self).duty_records(),
            final(self).leader_duty() == old(self).leader_duty(),
            forall|other: OfficerRole| #[trigger] final(self).office(other) == old(self).office(other),
    {
        if ticks_per_game_hour == 0 {
            return Err(InstitutionError::InvalidClock);
        }
        let matches_incumbent = match &self.leader.incumbent {
            Some(a) => text_eq(a.cat_id.as_str(), cat_id.as_str()),
            None => return Err(InstitutionError::LeaderVacant),
        };
        if !matches_incumbent {
            return Err(InstitutionError::LeaderMismatch);
        }
        let duration = match LEADER_SUCCESSION_GAME_HOURS.checked_mul(ticks_per_game_hour) {
            Some(d) => d,
            None => return Err(InstitutionError::TickOverflow),
        };
        let deadline_tick = match now_tick.checked_add(duration) {
            Some(d) => d,
            None => return Err(InstitutionError::TickOverflow),
        };
        if self.leader.vacancy_occurrence == u64::MAX {
            return Err(InstitutionError::OccurrenceOverflow);
        }
        let ghost before = *self;
        let next_occurrence = self.leader.vacancy_occurrence + 1;
        let acting_steward_id = match self.officer(OfficerRole::Steward) {
            Some(id) => Some(id.duplicate()),
            None => None,
        };
        let succession = LeaderSuccession {
            vacancy_id: leader_vacancy_id(self.colony_id.as_str(), next_occurrence),
            vacancy_occurrence: next_occurrence,
            opened_tick: now_tick,
            deadline_tick,
            ticks_per_game_hour,
            acting_steward_id,
        };
        let result = succession.duplicate();
        self.leader.incumbent = None;
        self.leader.vacancy_occurrence = next_occurrence;
        self.leader.succession = Some(succession);
        assert(self.offices == before.offices);
        Ok(result)
    }

    /// Seat the successor chosen in an open succession. A successor who held
    /// an office vacates it.
    pub fn appoint_leader(&mut self, successor_id: PlannerId, now_tick: u64) -> (r: Result<LeaderTransition, InstitutionError>)
        requires
            old(self).wf(),
        ensures
            final(self).wf(),
            appoint_leader_error(*old(self), successor_id@) matches Some(e) ==> r == Err::<LeaderTransition, InstitutionError>(e)
                && *final(self) == *old(self),
            appoint_leader_error(*old(self), successor_id@) is None ==> (r matches Ok(t)
                && t.successor_id@ == successor_id@
                && t.vacated_office == old(self).holder_role(successor_id@)
                && final(self).leader_view() == (LeaderView {
                    vacancy_occurrence: old(self).leader_view().vacancy_occurrence,
                    incumbent: Some(leader_appointment(old(self).colony(), old(self).leader_view().vacancy_occurrence, successor_id@, now_tick)),
                    succession: None,
                })
                && (old(self).holder_role(successor_id@) matches Some(role) ==> final(self).office(role) == vacated_office(
                    old(self).office(role).vacancy_occurrence,
                    now_tick,
                ) && final(self).other_offices_same(&*old(self), role))
                && (old(self).holder_role(successor_id@) is None ==> forall|other: OfficerRole| #[trigger] final(self).office(other) == old(self).office(other))),
            final(self).colony() == old(self).colony(),
            final(self).duty() == old(self).duty(),
            final(self).duty_records() == old(self).duty_records(),
            final(self).leader_duty() == old(self).leader_duty(),
    {
        if !is_planner_id(&successor_id) {
            return Err(InstitutionError::InvalidCandidateId);
        }
        if self.leader.incumbent.is_some() {
            return Err(InstitutionError::LeaderFilled);
        }
        if self.leader.succession.is_none() {
            return Err(InstitutionError::NoActiveSuccession);
        }
        let vacated_office = self.find_holder(&successor_id);
        match vacated_office {
            Some(role) => {
                if self.office_ref(role).vacancy_occurrence == u64::MAX {
                    return Err(InstitutionError::OccurrenceOverflow);
                }
                let _ = self.vacate_office(role, now_tick);
            },
            None => {},
        }
        let ghost mid = *self;
        let occurrence = self.leader.vacancy_occurrence;
        self.leader.incumbent = Some(LeaderAppointment {
            appointment_id: leader_appointment_id(self.colony_id.as_str(), occurrence, &successor_id),
            cat_id: successor_id.duplicate(),
            appointed_tick: now_tick,
            vacancy_occurrence: occurrence,
        });
        self.leader.succession = None;
        assert(self.offices == mid.offices);
        assert forall|other: OfficerRole| #[trigger] self.office(other) == mid.office(other) by {}
        Ok(LeaderTransition { successor_id, vacated_office })
    }
}


/// When an officer's next review falls due and at which effective level, or
/// the error computing it; `None` when the office is vacant or the review is
/// not yet due.
pub open spec fn runtime_due(
    s: OfficerInstitutionState,
    role: OfficerRole,
    now_tick: u64,
    ticks_per_game_hour: u64,
    bonuses: ExpertiseBonuses,
) -> Result<Option<(Seq<char>, ExpertiseLevel, u64)>, InstitutionError> {
    match s.office(role).appointment {
        None => Ok(None),
        Some(a) => {
            let level = boosted_level(level_for_hours(s.duty_minutes(a.cat_id, role) as int / 60), bonuses);
            let anchor = match s.office(role).last_runtime_review_tick {
                Some(t) => t,
                None => a.appointed_tick,
            };
            if ticks_per_game_hour == 0 {
                Err(InstitutionError::InvalidClock)
            } else if cadence_minutes(level) * ticks_per_game_hour > u64::MAX {
                Err(InstitutionError::TickOverflow)
            } else if anchor + cadence_ticks(level, ticks_per_game_hour) > u64::MAX {
                Err(InstitutionError::TickOverflow)
            } else {
                let due = (anchor + cadence_ticks(level, ticks_per_game_hour)) as u64;
                if now_tick < due {
                    Ok(None)
                } else {
                    Ok(Some((a.cat_id, level, due)))
                }
            }
        },
    }
}

pub open spec fn review_view(r: Result<Option<OfficerRuntimeReview>, InstitutionError>) -> Result<
    Option<(Seq<char>, ExpertiseLevel, u64)>,
    InstitutionError,
> {
    match r {
        Ok(Some(review)) => Ok(Some((review.officer_id@, review.effective_level, review.due_tick))),
        Ok(None) => Ok(None),
        Err(e) => Err(e),
    }
}

pub open spec fn rotl5(v: u64) -> u64 {
    ((v << 5u64) | (v >> 59u64)) as u64
}

/// The version hint folded over the first `n` offices in role order.
pub open spec fn version_fold(s: OfficerInstitutionState, n: nat) -> u64
    decreases n,
{
    if n == 0 {
        0
    } else {
        let o = s.office(OfficerRole::ALL@[n - 1]);
        let appointed = match o.appointment {
            Some(a) => a.appointed_tick,
            None => 0,
        };
        vstd::wrapping::u64_specs::wrapping_add(
            vstd::wrapping::u64_specs::wrapping_add(rotl5(version_fold(s, (n - 1) as nat)), o.vacancy_occurrence),
            appointed,
        )
    }
}

impl OfficerInstitutionState {
    /// A stable aggregate of the offices for report projections.
    pub fn version_hint(&self) -> (r: u64)
        requires
            self.wf(),
        ensures
            r == version_fold(*self, 5),
    {
        let mut version: u64 = 0;
        let mut i: usize = 0;
        while i < 5
            invariant
                self.wf(),
                i <= 5,
                version == version_fold(*self, i as nat),
            decreases 5 - i,
        {
            let office = &self.offices[i];
            proof {
                crate::officers::law_all_roles_listed_once(OfficerRole::ALL@[i as int]);
                let role = OfficerRole::ALL@[i as int];
                assert(role_rank(self.offices@[i as int].role) == i);
                assert(self.office(role) == office_view(self.offices@[i as int]));
            }
            let appointed = match &office.appointment {
                Some(a) => a.appointed_tick,
                None => 0,
            };
            version = ((version << 5u64) | (version >> 59u64)).wrapping_add(office.vacancy_occurrence).wrapping_add(appointed);
            i = i + 1;
        }
        version
    }

    /// The officer's review, if it is due.
    pub fn officer_runtime_due(
        &self,
        role: OfficerRole,
        now_tick: u64,
        ticks_per_game_hour: u64,
        bonuses: ExpertiseBonuses,
    ) -> (r: Result<Option<OfficerRuntimeReview>, InstitutionError>)
        requires
            self.wf(),
        ensures
            review_view(r) == runtime_due(*self, role, now_tick, ticks_per_game_hour, bonuses),
            r matches Ok(Some(review)) ==> review.role == role && review.capability == report_capability_of(review.effective_level),
    {
        let office = self.office_ref(role);
        let appointment = match &office.appointment {
            Some(a) => a,
            None => return Ok(None),
        };
        let effective_level = self.effective_level(&appointment.cat_id, role, bonuses);
        let cadence = match officer_cadence_ticks(effective_level, ticks_per_game_hour) {
            Ok(c) => c,
            Err(e) => return Err(e),
        };
        let anchor = match office.last_runtime_review_tick {
            Some(t) => t,
            None => appointment.appointed_tick,
        };
        let due_tick = match anchor.checked_add(cadence) {
            Some(d) => d,
            None => return Err(InstitutionError::TickOverflow),
        };
        if now_tick < due_tick {
            return Ok(None);
        }
        Ok(Some(OfficerRuntimeReview {
            role,
            officer_id: appointment.cat_id.duplicate(),
            effective_level,
            capability: report_capability(effective_level),
            due_tick,
        }))
    }

    /// Complete a due review: the office records the review tick and the
    /// officer earns the cadence's duty minutes. If recording the duty fails,
    /// the review tick stays recorded and the error is returned.
    pub fn complete_officer_runtime_review(
        &mut self,
        role: OfficerRole,
        now_tick: u64,
        ticks_per_game_hour: u64,
        bonuses: ExpertiseBonuses,
    ) -> (r: Result<Option<OfficerRuntimeReview>, InstitutionError>)
        requires
            old(self).wf(),
        ensures
            final(self).wf(),
            final(self).colony() == old(self).colony(),
            final(self).leader_duty() == old(self).leader_duty(),
            final(self).leader_view() == old(self).leader_view(),
            final(self).other_offices_same(&*old(self), role),
            r matches Ok(Some(review)) ==> review.role == role && review.capability == report_capability_of(review.effective_level),
            !(runtime_due(*old(self), role, now_tick, ticks_per_game_hour, bonuses) matches Ok(Some(_))) ==> review_view(r)
                == runtime_due(*old(self), role, now_tick, ticks_per_game_hour, bonuses) && *final(self) == *old(self),
            runtime_due(*old(self), role, now_tick, ticks_per_game_hour, bonuses) matches Ok(Some((cat, level, due))) ==> {
                &&& final(self).office(role) == (OfficeView { last_runtime_review_tick: Some(due), ..old(self).office(role) })
                &&& record_duty_error(*old(self), cat, role, cadence_minutes(level) as u64) matches Some(e) ==> r == Err::<
                    Option<OfficerRuntimeReview>,
                    InstitutionError,
                >(e) && final(self).duty() == old(self).duty()
                &&& record_duty_error(*old(self), cat, role, cadence_minutes(level) as u64) is None ==> review_view(r)
                    == runtime_due(*old(self), role, now_tick, ticks_per_game_hour, bonuses) && final(self).duty()
                    == old(self).duty().insert((cat, role), (old(self).duty_minutes(cat, role) + cadence_minutes(level)) as u64)
            },
    {
        let review = match self.officer_runtime_due(role, now_tick, ticks_per_game_hour, bonuses) {
            Ok(r) => r,
            Err(e) => return Err(e),
        };
        match review {
            None => Ok(None),
            Some(review) => {
                let office = self.office_ref(role);
                let appointment = match &office.appointment {
                    Some(a) => OfficerAppointment {
                        appointment_id: AppointmentId(a.appointment_id.0.duplicate()),
                        cat_id: a.cat_id.duplicate(),
                        appointed_tick: a.appointed_tick,
                        vacancy_occurrence: a.vacancy_occurrence,
                    },
                    None => {
                        assert(false);
                        return Ok(None);
                    },
                };
                let next = OfficeState {
                    role,
                    vacancy_occurrence: office.vacancy_occurrence,
                    vacant_since_tick: office.vacant_since_tick,
                    last_runtime_review_tick: Some(review.due_tick),
                    appointment: Some(appointment),
                };
                self.replace_office(next);
                let ghost mid = *self;
                let minutes = officer_cadence_minutes(review.effective_level) as u64;
                let recorded = self.record_completed_duty_minutes(review.officer_id.duplicate(), role, minutes);
                assert forall|other: OfficerRole| other != role implies #[trigger] self.office(other) == old(self).office(other) by {
                    assert(self.office(other) == mid.office(other));
                }
                match recorded {
                    Ok(()) => Ok(Some(review)),
                    Err(e) => Err(e),
                }
            },
        }
    }
}


impl OfficerAppointmentTransition {
    /// The successor adopts every live request of the office, after due
    /// requests expire.
    pub fn adopt_requests(&self, requests: &mut OfficerRequestBook) -> (r: Vec<OfficerRequestId>)
        requires
            old(requests).wf(),
        ensures
            final(requests).wf(),
            ({
                let expired_ids = keys_where(old(requests).entries(), |x: RequestView| due_to_expire(x, self.appointed_tick));
                let mid = if expired_ids.len() > 0 {
                    evicted(expire_all(old(requests).entries(), self.appointed_tick))
                } else {
                    old(requests).entries()
                };
                let mid_version = if expired_ids.len() > 0 {
                    bump(old(requests).book_version())
                } else {
                    old(requests).book_version()
                };
                &&& ids_view(r@) == keys_where(mid, |x: RequestView| adoptable(x, self.role))
                &&& final(requests).entries() == adopt_all(mid, self.role, self.successor_id@)
                &&& final(requests).book_version() == if r@.len() > 0 { bump(mid_version) } else { mid_version }
            }),
    {
        requests.adopt_for_successor(self.role, self.successor_id.duplicate(), self.appointed_tick)
    }
}

/// The persistence rules one office keeps.
pub open spec fn office_valid(colony: Seq<char>, role: OfficerRole, o: OfficeView) -> bool {
    &&& !(o.appointment is Some && o.vacant_since_tick is Some)
    &&& !(o.appointment is None && o.vacant_since_tick is None && o.vacancy_occurrence != 0)
    &&& !(o.appointment is None && o.last_runtime_review_tick is Some)
    &&& (o.appointment matches Some(a) ==> {
        &&& a.vacancy_occurrence == o.vacancy_occurrence
        &&& planner_id_valid(a.cat_id)
        &&& a.appointment_id == appointment_id_text(colony, role, o.vacancy_occurrence, a.cat_id)
        &&& !(o.last_runtime_review_tick matches Some(t) && t < a.appointed_tick)
    })
}

/// The persistence rules of the leader's office.
pub open spec fn leader_valid(colony: Seq<char>, l: LeaderView, steward: Option<Seq<char>>, officer_cats: Set<Seq<char>>) -> bool {
    &&& (l.incumbent matches Some(a) ==> {
        &&& l.succession is None
        &&& planner_id_valid(a.cat_id)
        &&& a.vacancy_occurrence == l.vacancy_occurrence
        &&& a.appointment_id == leader_appointment_id_text(colony, l.vacancy_occurrence, a.cat_id)
        &&& !officer_cats.contains(a.cat_id)
    })
    &&& (l.succession matches Some(s) ==> {
        &&& l.incumbent is None
        &&& s.ticks_per_game_hour != 0
        &&& s.vacancy_occurrence == l.vacancy_occurrence
        &&& s.vacancy_id == leader_vacancy_id_text(colony, l.vacancy_occurrence)
        &&& s.opened_tick + LEADER_SUCCESSION_GAME_HOURS * s.ticks_per_game_hour <= u64::MAX
        &&& s.deadline_tick == s.opened_tick + LEADER_SUCCESSION_GAME_HOURS * s.ticks_per_game_hour
        &&& s.acting_steward_id == steward
    })
    &&& (l.incumbent is None && l.succession is None ==> l.vacancy_occurrence == 0)
}

/// The cats holding one of the offices (listed in role order).
pub open spec fn cats_in_office(offices: Seq<OfficeView>) -> Set<Seq<char>> {
    Set::new(|c: Seq<char>| exists|i: int| 0 <= i < 5 && held_by(#[trigger] offices[i], c))
}

/// The persistence rules of an institution with these parts; the offices are
/// listed in role order.
pub open spec fn institution_rules(
    colony: Seq<char>,
    offices: Seq<OfficeView>,
    duty: Map<(Seq<char>, OfficerRole), u64>,
    duty_records: nat,
    leader_duty: Map<Seq<char>, u64>,
    leader: LeaderView,
) -> bool {
    &&& colony.len() > 0
    &&& offices.len() == 5
    &&& duty_records <= MAX_DUTY_RECORDS
    &&& leader_duty.len() <= MAX_DUTY_RECORDS
    &&& forall|i: int| 0 <= i < 5 ==> office_valid(colony, OfficerRole::ALL@[i], #[trigger] offices[i])
    &&& forall|i: int, j: int|
        0 <= i < 5 && 0 <= j < 5 && i != j && (#[trigger] offices[i]).appointment is Some
            && (#[trigger] offices[j]).appointment is Some ==> offices[i].appointment->0.cat_id
            != offices[j].appointment->0.cat_id
    &&& leader_valid(
        colony,
        leader,
        match offices[0].appointment {
            Some(a) => Some(a.cat_id),
            None => None,
        },
        cats_in_office(offices),
    )
    &&& forall|k: (Seq<char>, OfficerRole)| #[trigger] duty.contains_key(k) ==> planner_id_valid(k.0)
    &&& forall|k: Seq<char>| #[trigger] leader_duty.contains_key(k) ==> planner_id_valid(k)
}

impl OfficerInstitutionState {
    /// The cats holding an office.
    pub open spec fn officer_cats(&self) -> Set<Seq<char>> {
        cats_in_office(self.office_seq())
    }

    /// The persistence rules of the whole institution.
    pub open spec fn valid(&self) -> bool {
        institution_rules(
            self.colony(),
            self.office_seq(),
            self.duty(),
            self.duty_records(),
            self.leader_duty(),
            self.leader_view(),
        )
    }

    /// The offices in role order.
    pub open spec fn office_seq(&self) -> Seq<OfficeView> {
        seq![
            self.office(OfficerRole::Steward),
            self.office(OfficerRole::Forester),
            self.office(OfficerRole::Farmer),
            self.office(OfficerRole::Captain),
            self.office(OfficerRole::Loremaster),
        ]
    }

    proof fn lemma_office_seq(&self)
        requires
            self.wf(),
        ensures
            self.office_seq().len() == 5,
            forall|i: int|
                0 <= i < 5 ==> #[trigger] self.office_seq()[i] == office_view(self.offices@[i]) && self.offices@[i].role
                    == OfficerRole::ALL@[i],
    {
        assert forall|i: int| 0 <= i < 5 implies #[trigger] self.office_seq()[i] == office_view(self.offices@[i])
            && self.offices@[i].role == OfficerRole::ALL@[i] by {
            let role = OfficerRole::ALL@[i];
            crate::officers::law_all_roles_listed_once(role);
            crate::officers::law_all_roles_listed_once(self.offices@[i].role);
            assert(role_rank(role) == i);
        }
    }

    fn office_ok(&self, i: usize) -> (r: bool)
        requires
            self.wf(),
            i < 5,
        ensures
            r == office_valid(self.colony(), self.offices@[i as int].role, office_view(self.offices@[i as int])),
    {
        let office = &self.offices[i];
        if (office.appointment.is_some() && office.vacant_since_tick.is_some()) || (office.appointment.is_none()
            && office.vacant_since_tick.is_none() && office.vacancy_occurrence != 0) || (office.appointment.is_none()
            && office.last_runtime_review_tick.is_some()) {
            return false;
        }
        match &office.appointment {
            Some(a) => {
                let expected = AppointmentId::derive(self.colony_id.as_str(), office.role, office.vacancy_occurrence, &a.cat_id);
                let late_review = match office.last_runtime_review_tick {
                    Some(t) => t < a.appointed_tick,
                    None => false,
                };
                a.vacancy_occurrence == office.vacancy_occurrence && is_planner_id(&a.cat_id) && text_eq(
                    a.appointment_id.as_str(),
                    expected.as_str(),
                ) && !late_review
            },
            None => true,
        }
    }

    /// `Ok` exactly when the institution keeps its persistence rules.
    pub fn validate(&self) -> (r: Result<(), InstitutionError>)
        requires
            self.wf(),
        ensures
            r is Ok <==> self.valid(),
            r is Err ==> r == Err::<(), InstitutionError>(InstitutionError::MalformedPersistence),
    {
        if text_is_empty(self.colony_id.as_str()) || self.duty.len() > MAX_DUTY_RECORDS
            || self.leader_duty.len() > MAX_DUTY_RECORDS {
            proof {
                crate::id_map::lemma_map_len(self.leader_duty@);
            }
            return Err(InstitutionError::MalformedPersistence);
        }
        proof {
            crate::id_map::lemma_map_len(self.leader_duty@);
        }
        let mut i: usize = 0;
        while i < 5
            invariant
                self.wf(),
                i <= 5,
                forall|j: int|
                    0 <= j < i ==> office_valid(
                        self.colony(),
                        (#[trigger] self.offices@[j]).role,
                        office_view(self.offices@[j]),
                    ),
                forall|a: int, b: int|
                    0 <= a < b < i && (#[trigger] self.offices@[a]).appointment is Some
                        && (#[trigger] self.offices@[b]).appointment is Some ==> self.offices@[a].appointment->0.cat_id@
                        != self.offices@[b].appointment->0.cat_id@,
            decreases 5 - i,
        {
            if !self.office_ok(i) {
                proof {
                    self.lemma_office_seq();
                    assert(self.office_seq()[i as int] == office_view(self.offices@[i as int]));
                }
                return Err(InstitutionError::MalformedPersistence);
            }
            match &self.offices[i].appointment {
                Some(appointment) => {
                    let mut j: usize = 0;
                    while j < i
                        invariant
                            self.wf(),
                            i < 5,
                            j <= i,
                            self.offices@[i as int].appointment == Some(*appointment),
                            forall|a: int|
                                0 <= a < j && (#[trigger] self.offices@[a]).appointment is Some ==> self.offices@[a].appointment->0.cat_id@
                                    != appointment.cat_id@,
                        decreases i - j,
                    {
                        match &self.offices[j].appointment {
                            Some(other) => {
                                if text_eq(other.cat_id.as_str(), appointment.cat_id.as_str()) {
                                    proof {
                                        self.lemma_office_seq();
                                        assert(self.office_seq()[j as int] == office_view(self.offices@[j as int]));
                                        assert(self.office_seq()[i as int] == office_view(self.offices@[i as int]));
                                    }
                                    return Err(InstitutionError::MalformedPersistence);
                                }
                            },
                            None => {},
                        }
                        j = j + 1;
                    }
                },
                None => {},
            }
            i = i + 1;
        }
        proof {
            self.lemma_office_seq();
            let os = self.office_seq();
            assert forall|k: int| 0 <= k < 5 implies office_valid(self.colony(), OfficerRole::ALL@[k], #[trigger] os[k]) by {
                assert(os[k] == office_view(self.offices@[k]));
            }
            assert forall|a: int, b: int|
                0 <= a < 5 && 0 <= b < 5 && a != b && (#[trigger] os[a]).appointment is Some
                    && (#[trigger] os[b]).appointment is Some implies os[a].appointment->0.cat_id
                    != os[b].appointment->0.cat_id by {
                assert(os[a] == office_view(self.offices@[a]));
                assert(os[b] == office_view(self.offices@[b]));
                if a > b {
                    assert(self.offices@[b].appointment->0.cat_id@ != self.offices@[a].appointment->0.cat_id@);
                }
            }
        }
        let ghost steward_cat = match self.office(OfficerRole::Steward).appointment {
            Some(a) => Some(a.cat_id),
            None => None,
        };
        match &self.leader.incumbent {
            Some(leader) => {
                let mut held = false;
                let mut k: usize = 0;
                while k < 5
                    invariant
                        self.wf(),
                        k <= 5,
                        held == exists|j: int|
                            0 <= j < k && (#[trigger] self.offices@[j]).appointment is Some && self.offices@[j].appointment->0.cat_id@
                                == leader.cat_id@,
                    decreases 5 - k,
                {
                    match &self.offices[k].appointment {
                        Some(a) => {
                            if text_eq(a.cat_id.as_str(), leader.cat_id.as_str()) {
                                held = true;
                            }
                        },
                        None => {},
                    }
                    k = k + 1;
                }
                proof {
                    self.lemma_office_seq();
                    let os = self.office_seq();
                    if held {
                        let j = choose|j: int|
                            0 <= j < 5 && (#[trigger] self.offices@[j]).appointment is Some && self.offices@[j].appointment->0.cat_id@
                                == leader.cat_id@;
                        assert(os[j] == office_view(self.offices@[j]));
                        assert(held_by(os[j], leader.cat_id@));
                        assert(self.officer_cats().contains(leader.cat_id@));
                    }
                    if self.officer_cats().contains(leader.cat_id@) {
                        let j = choose|j: int| 0 <= j < 5 && held_by(#[trigger] os[j], leader.cat_id@);
                        assert(os[j] == office_view(self.offices@[j]));
                    }
                }
                let expected = leader_appointment_id(self.colony_id.as_str(), self.leader.vacancy_occurrence, &leader.cat_id);
                if self.leader.succession.is_some() || !is_planner_id(&leader.cat_id) || leader.vacancy_occurrence
                    != self.leader.vacancy_occurrence || !text_eq(leader.appointment_id.as_str(), expected.as_str()) || held {
                    return Err(InstitutionError::MalformedPersistence);
                }
            },
            None => {},
        }
        match &self.leader.succession {
            Some(succession) => {
                let expected_vacancy = leader_vacancy_id(self.colony_id.as_str(), self.leader.vacancy_occurrence);
                let deadline = match LEADER_SUCCESSION_GAME_HOURS.checked_mul(succession.ticks_per_game_hour) {
                    Some(duration) => succession.opened_tick.checked_add(duration),
                    None => None,
                };
                let steward = self.officer(OfficerRole::Steward);
                let acting_matches = match (&succession.acting_steward_id, steward) {
                    (Some(a), Some(b)) => text_eq(a.as_str(), b.as_str()),
                    (None, None) => true,
                    _ => false,
                };
                if self.leader.incumbent.is_some() || succession.ticks_per_game_hour == 0 || succession.vacancy_occurrence
                    != self.leader.vacancy_occurrence || !text_eq(succession.vacancy_id.as_str(), expected_vacancy.as_str())
                    || deadline != Some(succession.deadline_tick) || !acting_matches {
                    return Err(InstitutionError::MalformedPersistence);
                }
            },
            None => {},
        }
        if self.leader.incumbent.is_none() && self.leader.succession.is_none() && self.leader.vacancy_occurrence != 0 {
            return Err(InstitutionError::MalformedPersistence);
        }
        let n = self.duty.len();
        let mut i: usize = 0;
        while i < n
            invariant
                self.wf(),
                n == self.duty@.len(),
                i <= n,
                forall|j: int| 0 <= j < i ==> planner_id_valid((#[trigger] self.duty@[j]).cat_id@),
            decreases n - i,
        {
            if !is_planner_id(&self.duty[i].cat_id) {
                proof {
                    lemma_duty_at(self.duty@, i as int);
                    let k = duty_key(self.duty@[i as int]);
                    assert(self.duty().contains_key(k));
                    assert(!planner_id_valid(k.0));
                }
                return Err(InstitutionError::MalformedPersistence);
            }
            i = i + 1;
        }
        let m = self.leader_duty.len();
        let mut i: usize = 0;
        while i < m
            invariant
                self.wf(),
                m == self.leader_duty@.len(),
                i <= m,
                forall|j: int| 0 <= j < i ==> planner_id_valid((#[trigger] self.leader_duty@[j]).0),
            decreases m - i,
        {
            let key = self.leader_duty.key_at(i);
            if !text_starts_with(key.as_str(), "planner:v1|") {
                proof {
                    crate::id_map::lemma_lookup_at(self.leader_duty@, i as int);
                }
                return Err(InstitutionError::MalformedPersistence);
            }
            i = i + 1;
        }
        proof {
            assert forall|k: (Seq<char>, OfficerRole)| #[trigger] self.duty().contains_key(k) implies planner_id_valid(k.0) by {
                let j = choose|j: int| 0 <= j < self.duty@.len() && duty_key(#[trigger] self.duty@[j]) == k;
            }
            assert forall|k: Seq<char>| #[trigger] self.leader_duty().contains_key(k) implies planner_id_valid(k) by {
                let j = choose|j: int| 0 <= j < self.leader_duty@.len() && #[trigger] self.leader_duty@[j].0 == k;
            }
        }
        Ok(())
    }
}

/// Leader duty records read as a map from cat to minutes.
pub open spec fn leader_duty_map(s: Seq<LeaderDutyRecord>) -> Map<Seq<char>, u64> {
    Map::new(
        |k: Seq<char>| exists|i: int| 0 <= i < s.len() && #[trigger] s[i].cat_id@ == k,
        |k: Seq<char>| s[choose|i: int| 0 <= i < s.len() && #[trigger] s[i].cat_id@ == k].completed_duty_minutes,
    )
}

pub open spec fn leader_duty_unique(s: Seq<LeaderDutyRecord>) -> bool {
    forall|i: int, j: int| 0 <= i < j < s.len() ==> (#[trigger] s[i]).cat_id@ != (#[trigger] s[j]).cat_id@
}

/// Whether each role has exactly one persisted office.
pub open spec fn one_office_per_role(offices: Seq<OfficeState>) -> bool {
    &&& offices.len() == 5
    &&& forall|i: int, j: int| 0 <= i < j < 5 ==> (#[trigger] offices[i]).role != (#[trigger] offices[j]).role
}

/// The persisted offices in role order.
pub open spec fn wire_office_seq(offices: Seq<OfficeState>) -> Seq<OfficeView> {
    Seq::new(
        5,
        |i: int| office_view(offices[choose|j: int| 0 <= j < 5 && (#[trigger] offices[j]).role == OfficerRole::ALL@[i]]),
    )
}

/// Whether persisted institution parts form a valid institution.
pub open spec fn wire_valid(
    schema_version: u32,
    colony_id: Seq<char>,
    offices: Seq<OfficeState>,
    duty: Seq<DutyRecord>,
    leader_duty: Seq<LeaderDutyRecord>,
    leader: LeaderOffice,
) -> bool {
    &&& schema_version == OFFICER_INSTITUTION_SCHEMA_VERSION
    &&& one_office_per_role(offices)
    &&& duty.len() <= MAX_DUTY_RECORDS
    &&& leader_duty.len() <= MAX_DUTY_RECORDS
    &&& duty_unique(duty)
    &&& leader_duty_unique(leader_duty)
    &&& institution_rules(
        colony_id,
        wire_office_seq(offices),
        duty_map(duty),
        duty.len(),
        leader_duty_map(leader_duty),
        leader_office_view(leader),
    )
}

proof fn lemma_roles_cover(offices: Seq<OfficeState>)
    requires
        one_office_per_role(offices),
    ensures
        forall|role: OfficerRole| #![trigger role_rank(role)] exists|j: int| 0 <= j < 5 && (#[trigger] offices[j]).role == role,
{
    let ranks = Seq::new(5, |i: int| role_rank(offices[i].role));
    assert forall|role: OfficerRole| #![trigger role_rank(role)] exists|j: int| 0 <= j < 5 && (#[trigger] offices[j]).role == role by {
        if !(exists|j: int| 0 <= j < 5 && (#[trigger] offices[j]).role == role) {
            let missing = role_rank(role);
            assert forall|i: int| 0 <= i < 5 implies ranks[i] != missing by {
                if ranks[i] == missing {
                    assert(offices[i].role == role);
                }
            }
            assert forall|i: int, j: int| 0 <= i < j < 5 implies ranks[i] != ranks[j] by {
                assert(offices[i].role != offices[j].role);
            }
            assert(false) by {
                assert(0 <= ranks[0] < 5 && 0 <= ranks[1] < 5 && 0 <= ranks[2] < 5 && 0 <= ranks[3] < 5 && 0 <= ranks[4] < 5);
            }
        }
    }
}

impl LeaderSuccession {
    /// A succession as it was persisted.
    pub fn persisted(
        vacancy_id: PlannerId,
        vacancy_occurrence: u64,
        opened_tick: u64,
        deadline_tick: u64,
        ticks_per_game_hour: u64,
        acting_steward_id: Option<PlannerId>,
    ) -> (r: Self)
        ensures
            r@ == (SuccessionView {
                vacancy_id: vacancy_id@,
                vacancy_occurrence,
                opened_tick,
                deadline_tick,
                ticks_per_game_hour,
                acting_steward_id: opt_id_view(acting_steward_id),
            }),
    {
        LeaderSuccession { vacancy_id, vacancy_occurrence, opened_tick, deadline_tick, ticks_per_game_hour, acting_steward_id }
    }
}

impl OfficerInstitutionState {
    /// Rebuild an institution from its persisted parts: a supported schema,
    /// one office per role, bounded duty records with unique keys, and an
    /// institution that keeps its persistence rules.
    #[verifier::rlimit(40)]
    #[verifier::spinoff_prover]
    pub fn from_wire(
        schema_version: u32,
        colony_id: String,
        offices: Vec<OfficeState>,
        duty: Vec<DutyRecord>,
        leader_duty: Vec<LeaderDutyRecord>,
        leader: LeaderOffice,
    ) -> (r: Result<Self, InstitutionError>)
        ensures
            r is Err ==> r == Err::<Self, InstitutionError>(InstitutionError::MalformedPersistence),
            r is Ok <==> wire_valid(schema_version, colony_id@, offices@, duty@, leader_duty@, leader),
            r matches Ok(s) ==> {
                &&& s.wf()
                &&& s.valid()
                &&& s.colony() == colony_id@
                &&& forall|i: int| 0 <= i < 5 ==> s.office((#[trigger] offices@[i]).role) == office_view(offices@[i])
                &&& s.duty() == duty_map(duty@)
                &&& s.leader_duty() == leader_duty_map(leader_duty@)
                &&& s.leader_view() == leader_office_view(leader)
            },
    {
        let ghost wire = offices@;
        let ghost wire_duty = duty@;
        let ghost wire_ld = leader_duty@;
        if schema_version != OFFICER_INSTITUTION_SCHEMA_VERSION || offices.len() != 5 || duty.len() > MAX_DUTY_RECORDS
            || leader_duty.len() > MAX_DUTY_RECORDS {
            return Err(InstitutionError::MalformedPersistence);
        }
        let mut a: usize = 0;
        while a < 5
            invariant
                offices@ == wire,
                wire.len() == 5,
                a <= 5,
                forall|i: int, j: int| 0 <= i < j < 5 && i < a ==> (#[trigger] wire[i]).role != (#[trigger] wire[j]).role,
            decreases 5 - a,
        {
            let mut b: usize = a + 1;
            while b < 5
                invariant
                    offices@ == wire,
                    wire.len() == 5,
                    a < 5,
                    a < b <= 5,
                    forall|i: int, j: int| 0 <= i < j < 5 && i < a ==> (#[trigger] wire[i]).role != (#[trigger] wire[j]).role,
                    forall|j: int| a < j < b ==> wire[a as int].role != (#[trigger] wire[j]).role,
                decreases 5 - b,
            {
                if offices[a].role == offices[b].role {
                    return Err(InstitutionError::MalformedPersistence);
                }
                b = b + 1;
            }
            a = a + 1;
        }
        proof {
            lemma_roles_cover(wire);
        }
        let mut remaining = offices;
        let mut ordered: Vec<OfficeState> = Vec::new();
        let mut t: usize = 0;
        while t < 5
            invariant
                one_office_per_role(wire),
                t <= 5,
                ordered@.len() == t,
                remaining@.len() == 5 - t,
                forall|x: int| 0 <= x < t ==> role_rank((#[trigger] ordered@[x]).role) == x,
                forall|x: int| 0 <= x < t ==> exists|j: int| 0 <= j < 5 && #[trigger] wire[j] == (#[trigger] ordered@[x]),
                forall|x: int| 0 <= x < remaining@.len() ==> role_rank((#[trigger] remaining@[x]).role) >= t,
                forall|x: int, y: int| 0 <= x < y < remaining@.len() ==> (#[trigger] remaining@[x]).role != (#[trigger] remaining@[y]).role,
                forall|x: int| 0 <= x < remaining@.len() ==> exists|j: int| 0 <= j < 5 && #[trigger] wire[j] == (#[trigger] remaining@[x]),
                forall|role: OfficerRole|
                    #![trigger role_rank(role)]
                    role_rank(role) >= t ==> exists|x: int| 0 <= x < remaining@.len() && (#[trigger] remaining@[x]).role == role,
            decreases 5 - t,
        {
            let mut j: usize = 0;
            while j < remaining.len() && remaining[j].role.rank() as usize != t
                invariant
                    t < 5,
                    j <= remaining@.len(),
                    forall|x: int| 0 <= x < j ==> role_rank((#[trigger] remaining@[x]).role) != t,
                decreases remaining@.len() - j,
            {
                j = j + 1;
            }
            if j == remaining.len() {
                proof {
                    crate::officers::law_all_roles_listed_once(OfficerRole::ALL@[t as int]);
                    let role = OfficerRole::ALL@[t as int];
                    assert(role_rank(role) >= t);
                    let x = choose|x: int| 0 <= x < remaining@.len() && (#[trigger] remaining@[x]).role == role;
                    assert(role_rank(remaining@[x].role) != t);
                }
                return Err(InstitutionError::MalformedPersistence);
            }
            let ghost before = remaining@;
            let office = remaining.remove(j);
            proof {
                assert(office == before[j as int]);
                assert forall|x: int| 0 <= x < remaining@.len() implies role_rank((#[trigger] remaining@[x]).role) >= t + 1 by {
                    let y = if x < j { x } else { x + 1 };
                    assert(remaining@[x] == before[y]);
                    if role_rank(before[y].role) == t {
                        crate::officers::law_all_roles_listed_once(before[y].role);
                        crate::officers::law_all_roles_listed_once(office.role);
                        assert(before[y].role == office.role);
                        if y < j {
                            assert(before[y].role != before[j as int].role);
                        } else {
                            assert(before[j as int].role != before[y].role);
                        }
                    }
                }
                assert forall|x: int, z: int| 0 <= x < z < remaining@.len() implies (#[trigger] remaining@[x]).role != (#[trigger] remaining@[z]).role by {
                    let x2 = if x < j { x } else { x + 1 };
                    let z2 = if z < j { z } else { z + 1 };
                    assert(remaining@[x] == before[x2] && remaining@[z] == before[z2]);
                }
                assert forall|x: int| 0 <= x < remaining@.len() implies exists|jj: int| 0 <= jj < 5 && #[trigger] wire[jj] == (#[trigger] remaining@[x]) by {
                    let y = if x < j { x } else { x + 1 };
                    assert(remaining@[x] == before[y]);
                }
                assert forall|role: OfficerRole|
                    #![trigger role_rank(role)]
                    role_rank(role) >= t + 1 implies exists|x: int| 0 <= x < remaining@.len() && (#[trigger] remaining@[x]).role == role by {
                    let x = choose|x: int| 0 <= x < before.len() && (#[trigger] before[x]).role == role;
                    if x < j {
                        assert(remaining@[x] == before[x]);
                    } else {
                        assert(x != j);
                        assert(remaining@[x - 1] == before[x]);
                    }
                }
            }
            ordered.push(office);
            t = t + 1;
        }
        let n = duty.len();
        let mut i: usize = 0;
        while i < n
            invariant
                duty@ == wire_duty,
                n == wire_duty.len(),
                i <= n,
                forall|x: int, y: int| 0 <= x < y < i ==> duty_key(#[trigger] wire_duty[x]) != duty_key(#[trigger] wire_duty[y]),
            decreases n - i,
        {
            let mut j: usize = 0;
            while j < i
                invariant
                    duty@ == wire_duty,
                    n == wire_duty.len(),
                    i < n,
                    j <= i,
                    forall|x: int, y: int| 0 <= x < y < i ==> duty_key(#[trigger] wire_duty[x]) != duty_key(#[trigger] wire_duty[y]),
                    forall|x: int| 0 <= x < j ==> duty_key(#[trigger] wire_duty[x]) != duty_key(wire_duty[i as int]),
                decreases i - j,
            {
                if duty[j].role == duty[i].role && text_eq(duty[j].cat_id.as_str(), duty[i].cat_id.as_str()) {
                    return Err(InstitutionError::MalformedPersistence);
                }
                j = j + 1;
            }
            i = i + 1;
        }
        let mut leader_map: IdMap<u64> = IdMap::new();
        let mut i: usize = 0;
        while i < leader_duty.len()
            invariant
                leader_duty@ == wire_ld,
                i <= wire_ld.len(),
                leader_map.wf(),
                forall|x: int, y: int| 0 <= x < y < i ==> (#[trigger] wire_ld[x]).cat_id@ != (#[trigger] wire_ld[y]).cat_id@,
                leader_map.map() == leader_duty_map(wire_ld.take(i as int)),
            decreases wire_ld.len() - i,
        {
            let record = &leader_duty[i];
            let ghost before = leader_map.map();
            let previous = leader_map.insert(String::from_str(record.cat_id.as_str()), record.completed_duty_minutes);
            if previous.is_some() {
                proof {
                    let x = choose|x: int| 0 <= x < i && #[trigger] wire_ld.take(i as int)[x].cat_id@ == record.cat_id@;
                    assert(wire_ld[x].cat_id@ == wire_ld[i as int].cat_id@);
                }
                return Err(InstitutionError::MalformedPersistence);
            }
            proof {
                let s1 = wire_ld.take(i + 1);
                assert forall|x: int, y: int| 0 <= x < y < i + 1 implies (#[trigger] wire_ld[x]).cat_id@ != (#[trigger] wire_ld[y]).cat_id@ by {
                    if y == i {
                        assert(wire_ld.take(i as int)[x] == wire_ld[x]);
                    }
                }
                assert(leader_map.map() =~= leader_duty_map(s1)) by {
                    assert forall|k: Seq<char>| leader_map.map().contains_key(k) == leader_duty_map(s1).contains_key(k) by {
                        if leader_duty_map(s1).contains_key(k) {
                            let x = choose|x: int| 0 <= x < s1.len() && #[trigger] s1[x].cat_id@ == k;
                            if x < i {
                                assert(wire_ld.take(i as int)[x] == s1[x]);
                            }
                        }
                        if before.contains_key(k) {
                            let x = choose|x: int| 0 <= x < i && #[trigger] wire_ld.take(i as int)[x].cat_id@ == k;
                            assert(s1[x] == wire_ld.take(i as int)[x]);
                        }
                        if k == record.cat_id@ {
                            assert(s1[i as int] == *record);
                        }
                    }
                    assert forall|k: Seq<char>| #[trigger] leader_map.map().contains_key(k) implies leader_map.map()[k] == leader_duty_map(s1)[k] by {
                        let x = choose|x: int| 0 <= x < s1.len() && #[trigger] s1[x].cat_id@ == k;
                        if k == record.cat_id@ {
                            if x != i {
                                assert(s1[x] == wire_ld[x]);
                            }
                        } else {
                            let y = choose|y: int| 0 <= y < i && #[trigger] wire_ld.take(i as int)[y].cat_id@ == k;
                            assert(wire_ld.take(i as int)[y] == wire_ld[y]);
                            assert(s1[x] == wire_ld[x]);
                            if x != y {
                                if x < y {
                                    assert(wire_ld[x].cat_id@ != wire_ld[y].cat_id@);
                                } else {
                                    assert(wire_ld[y].cat_id@ != wire_ld[x].cat_id@);
                                }
                            }
                        }
                    }
                }
            }
            i = i + 1;
        }
        proof {
            assert(wire_ld.take(wire_ld.len() as int) =~= wire_ld);
        }
        let state = OfficerInstitutionState {
            colony_id,
            offices: ordered,
            duty,
            leader_duty: leader_map,
            leader,
        };
        proof {
            assert(state.wf());
            state.lemma_office_seq();
            assert forall|i: int| 0 <= i < 5 implies state.office((#[trigger] wire[i]).role) == office_view(wire[i]) by {
                let rk = role_rank(wire[i].role);
                let j = choose|j: int| 0 <= j < 5 && #[trigger] wire[j] == state.offices@[rk];
                assert(role_rank(state.offices@[rk].role) == rk);
                crate::officers::law_all_roles_listed_once(wire[j].role);
                crate::officers::law_all_roles_listed_once(wire[i].role);
                if j != i {
                    if i < j {
                        assert(wire[i].role != wire[j].role);
                    } else {
                        assert(wire[j].role != wire[i].role);
                    }
                }
            }
            assert(state.office_seq() =~= wire_office_seq(wire)) by {
                assert forall|x: int| 0 <= x < 5 implies state.office_seq()[x] == wire_office_seq(wire)[x] by {
                    let j = choose|j: int| 0 <= j < 5 && (#[trigger] wire[j]).role == OfficerRole::ALL@[x];
                    assert(state.office(wire[j].role) == office_view(wire[j]));
                    assert(state.office_seq()[x] == state.office(OfficerRole::ALL@[x]));
                }
            }
        }
        match state.validate() {
            Ok(()) => Ok(state),
            Err(e) => Err(e),
        }
    }
}

} // verus!
