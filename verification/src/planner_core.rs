//! Deterministic planner foundations: versioned clock state, stable
//! length-prefixed identifiers, keyed random-stream seeds, fixed-point
//! scoring, intent lifecycles and the bounded live/terminal intent collections.

use vstd::prelude::*;
use vstd::utf8::encode_utf8;
use crate::text::{decimal, push_decimal, text_lt, text_compare, lemma_text_lt_irreflexive,
    lemma_text_lt_transitive, lemma_text_lt_total, lemma_text_lt_asymmetric};
use crate::id_map::{IdMap, keys_sorted};

verus! {

pub const PLANNER_SCHEMA_VERSION: u32 = 1;
pub const LIVE_INTENT_CAPACITY: usize = 128;
pub const TERMINAL_INTENT_CAPACITY: usize = 256;
pub const BASIS_POINTS_SCALE: i64 = 10_000;
pub const STARVATION_AGE_PER_GAME_HOUR: i64 = 100;
pub const MAX_STARVATION_AGE: i64 = 2_500;
pub const MAX_FAILED_ATTEMPTS: u8 = 5;
pub const RETRY_DELAYS_GAME_MINUTES: [u64; 5] = [15, 30, 60, 120, 240];

/// The versioned, clock-only portion of persisted planner state.
#[derive(Debug, Clone, Copy, PartialEq, Eq)]
pub struct PlannerCoreState {
    pub schema_version: u32,
    pub planning_clock: u64,
    pub planning_epoch: u64,
}

impl PlannerCoreState {
    pub fn new() -> (r: Self)
        ensures
            r.schema_version == PLANNER_SCHEMA_VERSION,
            r.planning_clock == 0,
            r.planning_epoch == 0,
    {
        PlannerCoreState { schema_version: PLANNER_SCHEMA_VERSION, planning_clock: 0, planning_epoch: 0 }
    }
}

impl Default for PlannerCoreState {
    fn default() -> (r: Self)
        ensures
            r.schema_version == PLANNER_SCHEMA_VERSION,
            r.planning_clock == 0,
            r.planning_epoch == 0,
    {
        Self::new()
    }
}

/// The fixed prefix of every planner identifier.
pub open spec fn planner_id_prefix() -> Seq<char> {
    seq!['p', 'l', 'a', 'n', 'n', 'e', 'r', ':', 'v', '1']
}

/// One encoded component: `|`, the UTF-8 byte length in decimal, `:`, the text.
pub open spec fn id_component(c: Seq<char>) -> Seq<char> {
    seq!['|'] + decimal(encode_utf8(c).len()) + seq![':'] + c
}

/// The encoded components, in order.
pub open spec fn id_components(cs: Seq<Seq<char>>) -> Seq<char>
    decreases cs.len(),
{
    if cs.len() == 0 {
        Seq::empty()
    } else {
        id_components(cs.drop_last()) + id_component(cs.last())
    }
}

/// The text of the planner ID derived from `namespace` and `components`.
pub open spec fn planner_id_text(namespace: Seq<char>, components: Seq<Seq<char>>) -> Seq<char> {
    planner_id_prefix() + id_component(namespace) + id_components(components)
}

/// The views of a slice of texts.
pub open spec fn texts_view(cs: Seq<&str>) -> Seq<Seq<char>> {
    cs.map_values(|c: &str| c@)
}

fn push_id_component(encoded: &mut String, component: &str)
    ensures
        final(encoded)@ == old(encoded)@ + id_component(component@),
{
    proof {
        reveal_strlit("|");
        reveal_strlit(":");
    }
    let ghost e0 = encoded@;
    encoded.append("|");
    assert("|"@ =~= seq!['|']);
    assert(":"@ =~= seq![':']);
    let n = component.as_bytes().len();
    assert(n as nat == encode_utf8(component@).len());
    push_decimal(encoded, n as u64);
    encoded.append(":");
    encoded.append(component);
    proof {
        assert(final(encoded)@ =~= old(encoded)@ + id_component(component@));
    }
}

/// A stable, losslessly component-encoded identifier for planner-owned data.
#[derive(Debug, Clone, PartialEq, Eq, PartialOrd, Ord, Hash)]
pub struct PlannerId(String);

impl PlannerId {
    pub closed spec fn view(&self) -> Seq<char> {
        self.0@
    }

    /// An identifier read back from its persisted text, unchanged.
    pub fn from_text(text: String) -> (r: Self)
        ensures
            r@ == text@,
    {
        PlannerId(text)
    }

    /// Build an ID without delimiter ambiguity. Component lengths are UTF-8
    /// byte lengths, so arbitrary persisted IDs remain distinct.
    pub fn derive(namespace: &str, components: &[&str]) -> (r: Self)
        ensures
            r@ == planner_id_text(namespace@, texts_view(components@)),
    {
        proof {
            reveal_strlit("planner:v1");
        }
        let mut encoded = String::from_str("planner:v1");
        assert(encoded@ =~= planner_id_prefix());
        push_id_component(&mut encoded, namespace);
        let n = components.len();
        let mut i: usize = 0;
        while i < n
            invariant
                n == components@.len(),
                i <= n,
                encoded@ == planner_id_prefix() + id_component(namespace@) + id_components(
                    texts_view(components@).take(i as int),
                ),
            decreases n - i,
        {
            push_id_component(&mut encoded, components[i]);
            proof {
                let cs = texts_view(components@);
                assert(cs.take(i + 1).drop_last() =~= cs.take(i as int));
            }
            i = i + 1;
        }
        proof {
            assert(texts_view(components@).take(n as int) =~= texts_view(components@));
        }
        PlannerId(encoded)
    }

    pub fn as_str(&self) -> (r: &str)
        ensures
            r@ == self@,
    {
        self.0.as_str()
    }

    /// An identical copy.
    pub fn duplicate(&self) -> (r: Self)
        ensures
            r@ == self@,
            r == *self,
    {
        PlannerId(self.0.clone())
    }
}

/// The text of an intent ID.
pub open spec fn intent_id_text(
    colony_id: Seq<char>,
    planning_epoch: u64,
    kind: Seq<char>,
    target_id: Seq<char>,
    occurrence_index: u32,
) -> Seq<char> {
    planner_id_text(
        seq!['i', 'n', 't', 'e', 'n', 't'],
        seq![colony_id, decimal(planning_epoch as nat), kind, target_id, decimal(occurrence_index as nat)],
    )
}

/// Stable identity for an intent occurrence in one planning epoch.
#[derive(Debug, Clone, PartialEq, Eq, PartialOrd, Ord, Hash)]
pub struct IntentId(PlannerId);

impl IntentId {
    pub closed spec fn view(&self) -> Seq<char> {
        self.0@
    }

    pub fn derive(
        colony_id: &str,
        planning_epoch: u64,
        kind: &str,
        target_id: &str,
        occurrence_index: u32,
    ) -> (r: Self)
        ensures
            r@ == intent_id_text(colony_id@, planning_epoch, kind@, target_id@, occurrence_index),
    {
        let mut epoch = String::new();
        push_decimal(&mut epoch, planning_epoch);
        let mut occurrence = String::new();
        push_decimal(&mut occurrence, occurrence_index as u64);
        proof {
            reveal_strlit("intent");
        }
        let parts: [&str; 5] = [colony_id, epoch.as_str(), kind, target_id, occurrence.as_str()];
        let id = PlannerId::derive("intent", parts.as_slice());
        proof {
            assert(texts_view(parts@) =~= seq![colony_id@, decimal(planning_epoch as nat), kind@, target_id@, decimal(occurrence_index as nat)]);
            assert("intent"@ =~= seq!['i', 'n', 't', 'e', 'n', 't']);
        }
        IntentId(id)
    }

    pub fn as_str(&self) -> (r: &str)
        ensures
            r@ == self@,
    {
        self.0.as_str()
    }

    /// An identical copy.
    pub fn duplicate(&self) -> (r: Self)
        ensures
            r@ == self@,
            r == *self,
    {
        IntentId(self.0.duplicate())
    }
}


/// Independent keyed planner streams.
#[derive(Debug, Clone, Copy, PartialEq, Eq, PartialOrd, Ord, Hash)]
pub enum PlannerRngStream {
    Omission,
    PlanningError,
    Appointment,
    Personality,
    Injury,
    Refusal,
}

pub open spec fn stream_offset(stream: PlannerRngStream) -> u32 {
    match stream {
        PlannerRngStream::Omission => 4_000_003,
        PlannerRngStream::PlanningError => 5_000_003,
        PlannerRngStream::Appointment => 6_000_003,
        PlannerRngStream::Personality => 7_000_003,
        PlannerRngStream::Injury => 8_000_003,
        PlannerRngStream::Refusal => 9_000_003,
    }
}

impl PlannerRngStream {
    pub fn fork_offset(self) -> (r: u32)
        ensures
            r == stream_offset(self),
    {
        match self {
            PlannerRngStream::Omission => 4_000_003,
            PlannerRngStream::PlanningError => 5_000_003,
            PlannerRngStream::Appointment => 6_000_003,
            PlannerRngStream::Personality => 7_000_003,
            PlannerRngStream::Injury => 8_000_003,
            PlannerRngStream::Refusal => 9_000_003,
        }
    }
}

/// `world_seed + offset` modulo 2^32.
pub open spec fn fork_seed(world_seed: u32, stream: PlannerRngStream) -> u32 {
    ((world_seed + stream_offset(stream)) % 0x1_0000_0000) as u32
}

pub fn planner_fork_seed(world_seed: u32, stream: PlannerRngStream) -> (r: u32)
    ensures
        r == fork_seed(world_seed, stream),
{
    world_seed.wrapping_add(stream.fork_offset())
}

pub const FNV_OFFSET_BASIS: u32 = 2_166_136_261;
pub const FNV_PRIME: u32 = 16_777_619;

/// One FNV-1a step.
pub open spec fn fnv_step(hash: u32, byte: u8) -> u32 {
    (((hash ^ (byte as u32)) as nat * FNV_PRIME as nat) % 0x1_0000_0000) as u32
}

/// FNV-1a over `bytes`, starting from `hash`.
pub open spec fn fnv_bytes(hash: u32, bytes: Seq<u8>) -> u32
    decreases bytes.len(),
{
    if bytes.len() == 0 {
        hash
    } else {
        fnv_step(fnv_bytes(hash, bytes.drop_last()), bytes.last())
    }
}

pub proof fn lemma_fnv_append(hash: u32, a: Seq<u8>, b: Seq<u8>)
    ensures
        fnv_bytes(hash, a + b) == fnv_bytes(fnv_bytes(hash, a), b),
    decreases b.len(),
{
    if b.len() == 0 {
        assert(a + b =~= a);
    } else {
        lemma_fnv_append(hash, a, b.drop_last());
        assert((a + b).drop_last() =~= a + b.drop_last());
    }
}

/// The eight little-endian bytes of `n`.
pub open spec fn le_bytes_u64(n: u64) -> Seq<u8> {
    Seq::new(8, |i: int| ((n >> ((8 * i) as u64)) & 0xff) as u8)
}

/// The hashed encoding of one stable input: its UTF-8 byte length as eight
/// little-endian bytes, then its UTF-8 bytes.
pub open spec fn keyed_input_bytes(input: Seq<char>) -> Seq<u8> {
    le_bytes_u64(encode_utf8(input).len() as u64) + encode_utf8(input)
}

pub open spec fn keyed_inputs_bytes(inputs: Seq<Seq<char>>) -> Seq<u8>
    decreases inputs.len(),
{
    if inputs.len() == 0 {
        Seq::empty()
    } else {
        keyed_inputs_bytes(inputs.drop_last()) + keyed_input_bytes(inputs.last())
    }
}

/// The keyed seed: FNV-1a of the inputs from the forked seed, never zero.
pub open spec fn keyed_seed(world_seed: u32, stream: PlannerRngStream, inputs: Seq<Seq<char>>) -> u32 {
    let h = fnv_bytes(fork_seed(world_seed, stream) ^ FNV_OFFSET_BASIS, keyed_inputs_bytes(inputs));
    if h < 1 { 1 } else { h }
}

fn fnv_byte(hash: u32, byte: u8) -> (r: u32)
    ensures
        r == fnv_step(hash, byte),
{
    (hash ^ (byte as u32)).wrapping_mul(FNV_PRIME)
}

fn fnv_input(hash: u32, input: &str) -> (r: u32)
    ensures
        r == fnv_bytes(hash, keyed_input_bytes(input@)),
{
    let bytes = input.as_bytes();
    let n = bytes.len();
    let len = n as u64;
    let mut h = hash;
    let mut i: u64 = 0;
    while i < 8
        invariant
            i <= 8,
            len == encode_utf8(input@).len(),
            h == fnv_bytes(hash, le_bytes_u64(len).take(i as int)),
        decreases 8 - i,
    {
        let b = ((len >> (8 * i)) & 0xff) as u8;
        assert(b == le_bytes_u64(len)[i as int]);
        h = fnv_byte(h, b);
        assert(le_bytes_u64(len).take(i + 1).drop_last() =~= le_bytes_u64(len).take(i as int));
        i = i + 1;
    }
    assert(le_bytes_u64(len).take(8) =~= le_bytes_u64(len));
    let ghost mid = h;
    let mut j: usize = 0;
    while j < n
        invariant
            n == bytes@.len(),
            bytes@ == encode_utf8(input@),
            j <= n,
            mid == fnv_bytes(hash, le_bytes_u64(len)),
            h == fnv_bytes(mid, bytes@.take(j as int)),
        decreases n - j,
    {
        h = fnv_byte(h, bytes[j]);
        assert(bytes@.take(j + 1).drop_last() =~= bytes@.take(j as int));
        j = j + 1;
    }
    proof {
        assert(bytes@.take(n as int) =~= bytes@);
        lemma_fnv_append(hash, le_bytes_u64(len), encode_utf8(input@));
    }
    h
}

/// Derive a stable seed from semantic inputs rather than collection/call order.
pub fn keyed_planner_seed(world_seed: u32, stream: PlannerRngStream, stable_inputs: &[&str]) -> (r: u32)
    ensures
        r == keyed_seed(world_seed, stream, texts_view(stable_inputs@)),
        r >= 1,
{
    let start = planner_fork_seed(world_seed, stream) ^ FNV_OFFSET_BASIS;
    let mut hash = start;
    let n = stable_inputs.len();
    let mut i: usize = 0;
    while i < n
        invariant
            n == stable_inputs@.len(),
            i <= n,
            hash == fnv_bytes(start, keyed_inputs_bytes(texts_view(stable_inputs@).take(i as int))),
        decreases n - i,
    {
        let ghost before = hash;
        hash = fnv_input(hash, stable_inputs[i]);
        proof {
            let cs = texts_view(stable_inputs@);
            assert(cs.take(i + 1).drop_last() =~= cs.take(i as int));
            lemma_fnv_append(start, keyed_inputs_bytes(cs.take(i as int)), keyed_input_bytes(cs[i as int]));
        }
        i = i + 1;
    }
    proof {
        assert(texts_view(stable_inputs@).take(n as int) =~= texts_view(stable_inputs@));
    }
    if hash < 1 { 1 } else { hash }
}

/// Signed fixed-point percentage where 10,000 is 100%.
#[derive(Debug, Clone, Copy, Default, PartialEq, Eq, PartialOrd, Ord, Hash)]
pub struct BasisPoints(pub i64);

impl BasisPoints {
    pub fn new(value: i64) -> (r: Self)
        ensures
            r.0 == value,
    {
        BasisPoints(value)
    }

    pub fn get(self) -> (r: i64)
        ensures
            r == self.0,
    {
        self.0
    }
}

/// Comparable fixed-point planner score.
#[derive(Debug, Clone, Copy, Default, PartialEq, Eq, PartialOrd, Ord, Hash)]
pub struct PlannerScore(pub i64);

impl PlannerScore {
    pub fn new(value: i64) -> (r: Self)
        ensures
            r.0 == value,
    {
        PlannerScore(value)
    }

    pub fn get(self) -> (r: i64)
        ensures
            r == self.0,
    {
        self.0
    }
}

#[derive(Debug, Clone, Copy, PartialEq, Eq)]
pub struct IntentScoreInputs {
    pub urgency: BasisPoints,
    pub strategic_weight: BasisPoints,
    pub personality_weight: BasisPoints,
    pub confidence: BasisPoints,
    pub opportunity_cost: BasisPoints,
    pub churn_penalty: BasisPoints,
    pub starvation_age: BasisPoints,
    pub temporary_player_bias: BasisPoints,
}

/// `x` clamped into `[lo, hi]`.
pub open spec fn clamp_int(x: int, lo: int, hi: int) -> int {
    if x < lo { lo } else if x > hi { hi } else { x }
}

/// `x` saturated into the `i128` range.
pub open spec fn sat128(x: int) -> int {
    clamp_int(x, i128::MIN as int, i128::MAX as int)
}

/// Division rounding toward zero, as Rust's integer division does.
pub open spec fn trunc_div(a: int, b: int) -> int {
    if a >= 0 { a / b } else { -((-a) / b) }
}

/// The planner score formula evaluated with the saturating `i128` steps.
pub open spec fn intent_score(inputs: IntentScoreInputs) -> int {
    let p1 = sat128(inputs.urgency.0 as int * inputs.strategic_weight.0 as int);
    let p2 = sat128(p1 * inputs.personality_weight.0 as int);
    let p3 = sat128(p2 * inputs.confidence.0 as int);
    let weighted = trunc_div(p3, 1_000_000_000_000);
    let s1 = sat128(weighted - inputs.opportunity_cost.0 as int);
    let s2 = sat128(s1 - inputs.churn_penalty.0 as int);
    let s3 = sat128(s2 + inputs.starvation_age.0 as int);
    let s4 = sat128(s3 + inputs.temporary_player_bias.0 as int);
    clamp_int(s4, i64::MIN as int, i64::MAX as int)
}

fn saturating_mul_i128(a: i128, b: i128) -> (r: i128)
    ensures
        r == sat128(a * b),
{
    match a.checked_mul(b) {
        Some(p) => p,
        None => {
            if (a < 0) == (b < 0) {
                assert(a * b >= 0) by (nonlinear_arith)
                    requires (a < 0) == (b < 0);
                i128::MAX
            } else {
                assert(a * b <= 0) by (nonlinear_arith)
                    requires (a < 0) != (b < 0);
                i128::MIN
            }
        },
    }
}

fn saturating_add_i128(a: i128, b: i128) -> (r: i128)
    ensures
        r == sat128(a + b),
{
    match a.checked_add(b) {
        Some(p) => p,
        None => if b > 0 { i128::MAX } else { i128::MIN },
    }
}

fn saturating_sub_i128(a: i128, b: i128) -> (r: i128)
    ensures
        r == sat128(a - b),
{
    match a.checked_sub(b) {
        Some(p) => p,
        None => if b < 0 { i128::MAX } else { i128::MIN },
    }
}

/// Apply the planner score formula with `i128` intermediates; division happens
/// only after the complete product.
pub fn score_intent(inputs: IntentScoreInputs) -> (r: PlannerScore)
    ensures
        r.0 == intent_score(inputs),
{
    let p1 = saturating_mul_i128(inputs.urgency.get() as i128, inputs.strategic_weight.get() as i128);
    let p2 = saturating_mul_i128(p1, inputs.personality_weight.get() as i128);
    let p3 = saturating_mul_i128(p2, inputs.confidence.get() as i128);
    let weighted = p3 / 1_000_000_000_000i128;
    let s1 = saturating_sub_i128(weighted, inputs.opportunity_cost.get() as i128);
    let s2 = saturating_sub_i128(s1, inputs.churn_penalty.get() as i128);
    let s3 = saturating_add_i128(s2, inputs.starvation_age.get() as i128);
    let s4 = saturating_add_i128(s3, inputs.temporary_player_bias.get() as i128);
    let clamped: i64 = if s4 < i64::MIN as i128 {
        i64::MIN
    } else if s4 > i64::MAX as i128 {
        i64::MAX
    } else {
        s4 as i64
    };
    PlannerScore::new(clamped)
}

/// Full game hours elapsed, at 100 basis points per hour, capped at 2,500.
pub open spec fn starvation_age(elapsed_ticks: u64, ticks_per_game_hour: u64) -> int {
    if ticks_per_game_hour == 0 {
        0
    } else {
        let hours = elapsed_ticks as int / ticks_per_game_hour as int;
        if hours * 100 > 2_500 { 2_500 } else { hours * 100 }
    }
}

pub fn starvation_age_basis_points(elapsed_ticks: u64, ticks_per_game_hour: u64) -> (r: BasisPoints)
    ensures
        r.0 == starvation_age(elapsed_ticks, ticks_per_game_hour),
{
    if ticks_per_game_hour == 0 {
        return BasisPoints::new(0);
    }
    let full_hours = elapsed_ticks / ticks_per_game_hour;
    let age: u64 = if full_hours > 25 { 2_500 } else { full_hours * 100 };
    BasisPoints::new(age as i64)
}


/// The exact stable tie key after score comparison.
#[derive(Debug, Clone, PartialEq, Eq, PartialOrd, Ord)]
pub struct IntentTieKey {
    pub kind: String,
    pub creation_tick: u64,
    pub intent_id: IntentId,
    pub target_id: PlannerId,
}

/// Tie keys order by kind, then creation tick, then intent ID, then target ID.
pub open spec fn tie_key_lt(a: IntentTieKey, b: IntentTieKey) -> bool {
    ||| text_lt(a.kind@, b.kind@)
    ||| a.kind@ == b.kind@ && a.creation_tick < b.creation_tick
    ||| a.kind@ == b.kind@ && a.creation_tick == b.creation_tick && text_lt(a.intent_id@, b.intent_id@)
    ||| a.kind@ == b.kind@ && a.creation_tick == b.creation_tick && a.intent_id@ == b.intent_id@
        && text_lt(a.target_id@, b.target_id@)
}

pub open spec fn tie_key_eq(a: IntentTieKey, b: IntentTieKey) -> bool {
    a.kind@ == b.kind@ && a.creation_tick == b.creation_tick && a.intent_id@ == b.intent_id@
        && a.target_id@ == b.target_id@
}

/// Execution order: higher score first, then the stable tie key.
pub open spec fn intent_before(ls: PlannerScore, lk: IntentTieKey, rs: PlannerScore, rk: IntentTieKey) -> bool {
    ls.0 > rs.0 || (ls.0 == rs.0 && tie_key_lt(lk, rk))
}

/// Compare intents in execution order: higher score first, then stable tie key.
pub fn compare_intent_priority(
    left_score: PlannerScore,
    left_key: &IntentTieKey,
    right_score: PlannerScore,
    right_key: &IntentTieKey,
) -> (r: std::cmp::Ordering)
    ensures
        r == std::cmp::Ordering::Less <==> intent_before(left_score, *left_key, right_score, *right_key),
        r == std::cmp::Ordering::Greater <==> intent_before(right_score, *right_key, left_score, *left_key),
        r == std::cmp::Ordering::Equal <==> (left_score.0 == right_score.0 && tie_key_eq(*left_key, *right_key)),
{
    proof {
        lemma_text_lt_asymmetric(left_key.kind@, right_key.kind@);
        lemma_text_lt_asymmetric(left_key.intent_id@, right_key.intent_id@);
        lemma_text_lt_asymmetric(left_key.target_id@, right_key.target_id@);
        lemma_text_lt_irreflexive(left_key.kind@);
        lemma_text_lt_irreflexive(left_key.intent_id@);
        lemma_text_lt_irreflexive(left_key.target_id@);
    }
    if left_score.get() > right_score.get() {
        return std::cmp::Ordering::Less;
    }
    if left_score.get() < right_score.get() {
        return std::cmp::Ordering::Greater;
    }
    let c = text_compare(left_key.kind.as_str(), right_key.kind.as_str());
    if c != 0 {
        return if c < 0 { std::cmp::Ordering::Less } else { std::cmp::Ordering::Greater };
    }
    if left_key.creation_tick != right_key.creation_tick {
        return if left_key.creation_tick < right_key.creation_tick {
            std::cmp::Ordering::Less
        } else {
            std::cmp::Ordering::Greater
        };
    }
    let c = text_compare(left_key.intent_id.as_str(), right_key.intent_id.as_str());
    if c != 0 {
        return if c < 0 { std::cmp::Ordering::Less } else { std::cmp::Ordering::Greater };
    }
    let c = text_compare(left_key.target_id.as_str(), right_key.target_id.as_str());
    if c < 0 {
        std::cmp::Ordering::Less
    } else if c > 0 {
        std::cmp::Ordering::Greater
    } else {
        std::cmp::Ordering::Equal
    }
}

#[derive(Debug, Clone, Copy, PartialEq, Eq, Structural)]
pub enum IntentState {
    Proposed,
    Approved,
    Reserving,
    Active,
    Succeeded,
    Blocked,
    RetryWaiting,
    Cancelled,
    Failed,
}

pub open spec fn intent_state_terminal(s: IntentState) -> bool {
    s is Succeeded || s is Cancelled || s is Failed
}

/// The intent lifecycle graph: staying put is always allowed, terminal states
/// never change, any live state may be cancelled or failed, and otherwise only
/// the listed main-path, block and retry edges exist.
pub open spec fn intent_transition_allowed(from: IntentState, to: IntentState) -> bool {
    if from == to {
        true
    } else if intent_state_terminal(from) {
        false
    } else if to is Cancelled || to is Failed {
        true
    } else {
        match (from, to) {
            (IntentState::Proposed, IntentState::Approved) => true,
            (IntentState::Proposed, IntentState::Blocked) => true,
            (IntentState::Approved, IntentState::Reserving) => true,
            (IntentState::Approved, IntentState::Blocked) => true,
            (IntentState::Approved, IntentState::RetryWaiting) => true,
            (IntentState::Reserving, IntentState::Active) => true,
            (IntentState::Reserving, IntentState::Blocked) => true,
            (IntentState::Reserving, IntentState::RetryWaiting) => true,
            (IntentState::Active, IntentState::Succeeded) => true,
            (IntentState::Active, IntentState::Blocked) => true,
            (IntentState::Active, IntentState::RetryWaiting) => true,
            (IntentState::Blocked, IntentState::Approved) => true,
            (IntentState::Blocked, IntentState::Reserving) => true,
            (IntentState::Blocked, IntentState::RetryWaiting) => true,
            (IntentState::RetryWaiting, IntentState::Approved) => true,
            (IntentState::RetryWaiting, IntentState::Reserving) => true,
            (IntentState::RetryWaiting, IntentState::Blocked) => true,
            _ => false,
        }
    }
}

impl IntentState {
    pub fn is_terminal(self) -> (r: bool)
        ensures
            r == intent_state_terminal(self),
    {
        matches!(self, IntentState::Succeeded | IntentState::Cancelled | IntentState::Failed)
    }

    pub fn can_transition_to(self, next: Self) -> (r: bool)
        ensures
            r == intent_transition_allowed(self, next),
    {
        if self == next {
            return true;
        }
        if self.is_terminal() {
            return false;
        }
        if matches!(next, IntentState::Cancelled | IntentState::Failed) {
            return true;
        }
        match (self, next) {
            (IntentState::Proposed, IntentState::Approved) => true,
            (IntentState::Proposed, IntentState::Blocked) => true,
            (IntentState::Approved, IntentState::Reserving) => true,
            (IntentState::Approved, IntentState::Blocked) => true,
            (IntentState::Approved, IntentState::RetryWaiting) => true,
            (IntentState::Reserving, IntentState::Active) => true,
            (IntentState::Reserving, IntentState::Blocked) => true,
            (IntentState::Reserving, IntentState::RetryWaiting) => true,
            (IntentState::Active, IntentState::Succeeded) => true,
            (IntentState::Active, IntentState::Blocked) => true,
            (IntentState::Active, IntentState::RetryWaiting) => true,
            (IntentState::Blocked, IntentState::Approved) => true,
            (IntentState::Blocked, IntentState::Reserving) => true,
            (IntentState::Blocked, IntentState::RetryWaiting) => true,
            (IntentState::RetryWaiting, IntentState::Approved) => true,
            (IntentState::RetryWaiting, IntentState::Reserving) => true,
            (IntentState::RetryWaiting, IntentState::Blocked) => true,
            _ => false,
        }
    }
}

/// A terminal intent can never move to a different state.
pub proof fn law_terminal_intents_never_resurrect(from: IntentState, to: IntentState)
    requires
        intent_state_terminal(from),
        to != from,
    ensures
        !intent_transition_allowed(from, to),
{
}

#[derive(Debug, Clone, Copy, PartialEq, Eq, Structural)]
pub struct IntentLifecycle {
    pub state: IntentState,
    pub retry_count: u8,
    pub next_retry_tick: Option<u64>,
    pub terminal_tick: Option<u64>,
}

#[derive(Debug, Clone, Copy, PartialEq, Eq, Structural)]
pub struct InvalidIntentTransition {
    pub from: IntentState,
    pub to: IntentState,
}

impl IntentLifecycle {
    pub fn proposed() -> (r: Self)
        ensures
            r.state == IntentState::Proposed,
            r.retry_count == 0,
            r.next_retry_tick is None,
            r.terminal_tick is None,
    {
        IntentLifecycle {
            state: IntentState::Proposed,
            retry_count: 0,
            next_retry_tick: None,
            terminal_tick: None,
        }
    }

    /// Move to `next` at `transition_tick`. Entering a terminal state records
    /// the tick and clears any scheduled retry; a forbidden move changes nothing.
    pub fn transition(&mut self, next: IntentState, transition_tick: u64) -> (r: Result<(), InvalidIntentTransition>)
        ensures
            r is Ok <==> intent_transition_allowed(old(self).state, next),
            r matches Err(e) ==> e.from == old(self).state && e.to == next && *final(self) == *old(self),
            r is Ok && old(self).state == next ==> *final(self) == *old(self),
            r is Ok && old(self).state != next ==> *final(self) == (if intent_state_terminal(next) {
                IntentLifecycle { state: next, terminal_tick: Some(transition_tick), next_retry_tick: None, ..*old(self) }
            } else {
                IntentLifecycle { state: next, ..*old(self) }
            }),
    {
        if !self.state.can_transition_to(next) {
            return Err(InvalidIntentTransition { from: self.state, to: next });
        }
        if self.state == next {
            return Ok(());
        }
        self.state = next;
        if next.is_terminal() {
            self.terminal_tick = Some(transition_tick);
            self.next_retry_tick = None;
        }
        Ok(())
    }
}

impl Default for IntentLifecycle {
    fn default() -> (r: Self)
        ensures
            r == (IntentLifecycle { state: IntentState::Proposed, retry_count: 0, next_retry_tick: None, terminal_tick: None }),
    {
        Self::proposed()
    }
}

#[derive(Debug, Clone, Copy, PartialEq, Eq, Structural)]
pub enum FailureDisposition {
    RetryAt(u64),
    TerminalFailure,
}

/// The delay table entry for the `failed_attempt`-th failure (1-based).
pub open spec fn retry_delay(failed_attempt: u8) -> Option<u64> {
    if failed_attempt == 1 { Some(15) }
    else if failed_attempt == 2 { Some(30) }
    else if failed_attempt == 3 { Some(60) }
    else if failed_attempt == 4 { Some(120) }
    else if failed_attempt == 5 { Some(240) }
    else { None }
}

pub fn retry_delay_game_minutes(failed_attempt: u8) -> (r: Option<u64>)
    ensures
        r == retry_delay(failed_attempt),
{
    if failed_attempt == 0 || failed_attempt > 5 {
        return None;
    }
    let table: [u64; 5] = RETRY_DELAYS_GAME_MINUTES;
    let index = (failed_attempt - 1) as usize;
    Some(table[index])
}

pub open spec fn sat_u64(x: int) -> u64 {
    if x > u64::MAX { u64::MAX } else { x as u64 }
}

/// No failure yet: none; the fifth or later failure is terminal; otherwise
/// retry after the scheduled delay, all arithmetic saturating.
pub open spec fn failure_outcome(failed_attempt: u8, current_tick: u64, ticks_per_game_minute: u64) -> Option<FailureDisposition> {
    if failed_attempt == 0 {
        None
    } else if failed_attempt >= MAX_FAILED_ATTEMPTS {
        Some(FailureDisposition::TerminalFailure)
    } else {
        let delay = sat_u64(retry_delay(failed_attempt)->0 as int * ticks_per_game_minute as int);
        Some(FailureDisposition::RetryAt(sat_u64(current_tick as int + delay as int)))
    }
}

/// Law: no failure schedules nothing, the fifth or later failure is terminal,
/// and the n-th failure below the limit schedules a retry 15 game minutes
/// after the first failure, doubling with each further failure (15, 30, 60,
/// 120), measured in ticks and saturating at the largest tick.
pub proof fn law_retry_delay_doubles_with_each_failure(failed_attempt: u8, current_tick: u64, ticks_per_game_minute: u64)
    ensures
        failed_attempt == 0 ==> failure_outcome(failed_attempt, current_tick, ticks_per_game_minute) is None,
        failed_attempt >= 5 ==> failure_outcome(failed_attempt, current_tick, ticks_per_game_minute) == Some(
            FailureDisposition::TerminalFailure,
        ),
        1 <= failed_attempt < 5 ==> ({
            let ticks = current_tick as int + 15 * vstd::arithmetic::power2::pow2((failed_attempt - 1) as nat) * ticks_per_game_minute as int;
            failure_outcome(failed_attempt, current_tick, ticks_per_game_minute) == Some(
                FailureDisposition::RetryAt(if ticks > u64::MAX { u64::MAX } else { ticks as u64 }),
            )
        }),
{
    if 1 <= failed_attempt < 5 {
        vstd::arithmetic::power2::lemma2_to64();
        let d = retry_delay(failed_attempt)->0 as int;
        assert(d == 15 * vstd::arithmetic::power2::pow2((failed_attempt - 1) as nat));
        assert(d * ticks_per_game_minute as int >= 0) by (nonlinear_arith)
            requires
                d >= 0,
        ;
    }
}

pub fn failure_disposition(failed_attempt: u8, current_tick: u64, ticks_per_game_minute: u64) -> (r: Option<FailureDisposition>)
    ensures
        r == failure_outcome(failed_attempt, current_tick, ticks_per_game_minute),
{
    if failed_attempt == 0 {
        return None;
    }
    if failed_attempt >= MAX_FAILED_ATTEMPTS {
        return Some(FailureDisposition::TerminalFailure);
    }
    let minutes = match retry_delay_game_minutes(failed_attempt) {
        Some(m) => m,
        None => 0,
    };
    let delay = match minutes.checked_mul(ticks_per_game_minute) {
        Some(d) => d,
        None => u64::MAX,
    };
    Some(FailureDisposition::RetryAt(current_tick.saturating_add(delay)))
}


/// Minimal interface needed to enforce live/history bounds without owning the
/// richer intent schema.
pub trait IntentCollectionRecord {
    /// The record's intent identifier.
    spec fn record_id(&self) -> Seq<char>;

    /// The record's completion tick.
    spec fn record_terminal_tick(&self) -> Option<u64>;

    fn intent_id(&self) -> (r: &IntentId)
        ensures
            r@ == self.record_id();

    fn terminal_tick(&self) -> (r: Option<u64>)
        ensures
            r == self.record_terminal_tick();
}

/// An intent record: its identifier, its completion tick once it is done, and
/// whatever the planner keeps with it.
#[derive(Debug, Clone, PartialEq, Eq)]
pub struct IntentRecord<P> {
    pub id: IntentId,
    pub terminal_tick: Option<u64>,
    pub payload: P,
}

impl<P> IntentCollectionRecord for IntentRecord<P> {
    open spec fn record_id(&self) -> Seq<char> {
        self.id@
    }

    open spec fn record_terminal_tick(&self) -> Option<u64> {
        self.terminal_tick
    }

    fn intent_id(&self) -> (r: &IntentId) {
        &self.id
    }

    fn terminal_tick(&self) -> (r: Option<u64>) {
        self.terminal_tick
    }
}

/// Canonical completion order: completion tick (absent first), then stable ID.
pub open spec fn completion_lt<T: IntentCollectionRecord>(a: T, b: T) -> bool {
    let ta = a.record_terminal_tick();
    let tb = b.record_terminal_tick();
    ||| ta is None && tb is Some
    ||| ta is Some && tb is Some && ta->0 < tb->0
    ||| ta == tb && text_lt(a.record_id(), b.record_id())
}

pub open spec fn completion_sorted<T: IntentCollectionRecord>(s: Seq<T>) -> bool {
    forall|i: int, j: int| 0 <= i < j < s.len() ==> completion_lt(#[trigger] s[i], #[trigger] s[j])
}

pub proof fn lemma_completion_lt_transitive<T: IntentCollectionRecord>(a: T, b: T, c: T)
    requires
        completion_lt(a, b),
        completion_lt(b, c),
    ensures
        completion_lt(a, c),
{
    if a.record_terminal_tick() == b.record_terminal_tick() && b.record_terminal_tick() == c.record_terminal_tick() {
        lemma_text_lt_transitive(a.record_id(), b.record_id(), c.record_id());
    }
}

pub proof fn lemma_completion_lt_irreflexive<T: IntentCollectionRecord>(a: T)
    ensures
        !completion_lt(a, a),
{
    lemma_text_lt_irreflexive(a.record_id());
}

/// The persisted shape of a live record: keyed by the record's own ID.
pub open spec fn live_keys_match<T: IntentCollectionRecord>(m: Map<Seq<char>, T>) -> bool {
    forall|k: Seq<char>| #[trigger] m.contains_key(k) ==> m[k].record_id() == k
}

/// No two records share a stable ID.
pub open spec fn ids_unique<T: IntentCollectionRecord>(s: Seq<T>) -> bool {
    forall|i: int, j: int| 0 <= i < s.len() && 0 <= j < s.len() && i != j ==> (#[trigger] s[i]).record_id() != (#[trigger] s[j]).record_id()
}

pub struct BoundedIntentCollections<T> {
    live_intents: IdMap<T>,
    terminal_intents: Vec<T>,
}

#[derive(Debug, Clone, PartialEq, Eq)]
pub struct TerminalInsertOutcome<T> {
    pub replaced: Option<T>,
    pub evicted: Option<T>,
}

#[derive(Debug, Clone, PartialEq, Eq)]
pub struct NonTerminalHistoryError<T>(pub T);

/// What a terminal insertion does before eviction: drop the record with the
/// same ID (if any, at index `i`) and place the new record at index `p`.
pub open spec fn terminal_step<T: IntentCollectionRecord>(
    old: Seq<T>,
    intent: T,
    replaced: Option<T>,
    i: int,
    p: int,
    before_evict: Seq<T>,
) -> bool {
    let rest = if replaced is Some { old.remove(i) } else { old };
    &&& (replaced is Some ==> 0 <= i < old.len() && old[i] == replaced->0 && old[i].record_id() == intent.record_id())
    &&& (replaced is None ==> forall|j: int| 0 <= j < old.len() ==> (#[trigger] old[j]).record_id() != intent.record_id())
    &&& 0 <= p <= rest.len()
    &&& before_evict == rest.insert(p, intent)
}

pub open spec fn with_evicted<T>(kept: Seq<T>, evicted: Option<T>) -> Seq<T> {
    match evicted {
        Some(e) => seq![e] + kept,
        None => kept,
    }
}


/// Remove the record with `id`, if present, keeping the history canonical.
fn terminal_remove_id<T: IntentCollectionRecord>(v: &mut Vec<T>, id: &IntentId) -> (r: Option<T>)
    requires
        completion_sorted(old(v)@),
        ids_unique(old(v)@),
        forall|i: int| 0 <= i < old(v)@.len() ==> (#[trigger] old(v)@[i]).record_terminal_tick() is Some,
    ensures
        completion_sorted(final(v)@),
        ids_unique(final(v)@),
        forall|i: int| 0 <= i < final(v)@.len() ==> (#[trigger] final(v)@[i]).record_terminal_tick() is Some,
        forall|j: int| 0 <= j < final(v)@.len() ==> (#[trigger] final(v)@[j]).record_id() != id@,
        r is None ==> final(v)@ == old(v)@ && forall|j: int| 0 <= j < old(v)@.len() ==> (#[trigger] old(v)@[j]).record_id() != id@,
        r is Some ==> exists|i: int| 0 <= i < old(v)@.len() && old(v)@[i] == r->0 && old(v)@[i].record_id() == id@ && final(v)@ == old(v)@.remove(i),
{
    let ghost s0 = v@;
    let n = v.len();
    let mut i: usize = 0;
    let mut found = false;
    while i < n && !found
        invariant
            n == s0.len(),
            v@ == s0,
            i <= n,
            forall|j: int| 0 <= j < i ==> (#[trigger] s0[j]).record_id() != id@,
            found ==> i < n && s0[i as int].record_id() == id@,
        decreases n - i + (if found { 0int } else { 1int }),
    {
        if text_compare(v[i].intent_id().as_str(), id.as_str()) == 0 {
            found = true;
        } else {
            i = i + 1;
        }
    }
    if !found {
        return None;
    }
    let x = v.remove(i);
    proof {
        let wi = i as int;
        let s1 = v@;
        assert(s1 == s0.remove(wi));
        assert forall|a: int, b: int| 0 <= a < b < s1.len() implies completion_lt(#[trigger] s1[a], #[trigger] s1[b]) by {
            if a < wi && b < wi {
                assert(s1[a] == s0[a] && s1[b] == s0[b]);
            } else if a < wi {
                assert(s1[a] == s0[a] && s1[b] == s0[b + 1]);
            } else {
                assert(s1[a] == s0[a + 1] && s1[b] == s0[b + 1]);
            }
        }
        assert forall|a: int, b: int| 0 <= a < s1.len() && 0 <= b < s1.len() && a != b implies (#[trigger] s1[a]).record_id() != (#[trigger] s1[b]).record_id() by {
            let a0 = if a < wi { a } else { a + 1 };
            let b0 = if b < wi { b } else { b + 1 };
            assert(s1[a] == s0[a0] && s1[b] == s0[b0]);
        }
        assert forall|j: int| 0 <= j < s1.len() implies (#[trigger] s1[j]).record_id() != id@ by {
            let j0 = if j < wi { j } else { j + 1 };
            assert(s1[j] == s0[j0]);
        }
        assert forall|j: int| 0 <= j < s1.len() implies (#[trigger] s1[j]).record_terminal_tick() is Some by {
            let j0 = if j < wi { j } else { j + 1 };
            assert(s1[j] == s0[j0]);
        }
    }
    Some(x)
}

/// Insert `x` at its place in canonical completion order.
fn terminal_insert_sorted<T: IntentCollectionRecord>(v: &mut Vec<T>, x: T)
    requires
        completion_sorted(old(v)@),
        ids_unique(old(v)@),
        forall|i: int| 0 <= i < old(v)@.len() ==> (#[trigger] old(v)@[i]).record_terminal_tick() is Some,
        forall|j: int| 0 <= j < old(v)@.len() ==> (#[trigger] old(v)@[j]).record_id() != x.record_id(),
        x.record_terminal_tick() is Some,
    ensures
        completion_sorted(final(v)@),
        ids_unique(final(v)@),
        forall|i: int| 0 <= i < final(v)@.len() ==> (#[trigger] final(v)@[i]).record_terminal_tick() is Some,
        exists|p: int| 0 <= p <= old(v)@.len() && final(v)@ == old(v)@.insert(p, x),
{
    let ghost s1 = v@;
    let m = v.len();
    let tick = x.terminal_tick();
    let id = x.intent_id().duplicate();
    let mut q: usize = 0;
    let mut done = false;
    while q < m && !done
        invariant
            m == s1.len(),
            v@ == s1,
            q <= m,
            forall|j: int| 0 <= j < q ==> completion_lt(#[trigger] s1[j], x),
            done ==> q < m && !completion_lt(s1[q as int], x),
            tick == x.record_terminal_tick(),
            tick is Some,
            id@ == x.record_id(),
        decreases m - q + (if done { 0int } else { 1int }),
    {
        let t = v[q].terminal_tick();
        let before = match (t, tick) {
            (None, _) => true,
            (Some(a), Some(b)) => a < b || (a == b && text_compare(v[q].intent_id().as_str(), id.as_str()) < 0),
            (Some(_), None) => false,
        };
        if !before {
            done = true;
        } else {
            q = q + 1;
        }
    }
    v.insert(q, x);
    proof {
        let s2 = v@;
        assert(s2 == s1.insert(q as int, x));
        assert forall|j: int| q <= j < s1.len() implies completion_lt(x, #[trigger] s1[j]) by {
            let y = s1[q as int];
            assert(!completion_lt(y, x));
            assert(y.record_id() != x.record_id());
            lemma_text_lt_total(y.record_id(), x.record_id());
            assert(completion_lt(x, y));
            if j > q {
                lemma_completion_lt_transitive(x, y, s1[j]);
            }
        }
        assert forall|a: int, b: int| 0 <= a < b < s2.len() implies completion_lt(#[trigger] s2[a], #[trigger] s2[b]) by {
            if b < q {
                assert(s2[a] == s1[a] && s2[b] == s1[b]);
            } else if b == q {
                assert(s2[a] == s1[a]);
            } else if a < q {
                assert(s2[a] == s1[a] && s2[b] == s1[b - 1]);
                lemma_completion_lt_transitive(s1[a], x, s1[b - 1]);
            } else if a == q {
                assert(s2[b] == s1[b - 1]);
            } else {
                assert(s2[a] == s1[a - 1] && s2[b] == s1[b - 1]);
            }
        }
        assert forall|a: int, b: int| 0 <= a < s2.len() && 0 <= b < s2.len() && a != b implies (#[trigger] s2[a]).record_id() != (#[trigger] s2[b]).record_id() by {
            if a != q && b != q {
                let a1 = if a < q { a } else { a - 1 };
                let b1 = if b < q { b } else { b - 1 };
                assert(s2[a] == s1[a1] && s2[b] == s1[b1]);
            } else if a == q {
                let b1 = if b < q { b } else { b - 1 };
                assert(s2[b] == s1[b1]);
            } else {
                let a1 = if a < q { a } else { a - 1 };
                assert(s2[a] == s1[a1]);
            }
        }
        assert forall|j: int| 0 <= j < s2.len() implies (#[trigger] s2[j]).record_terminal_tick() is Some by {
            if j < q {
                assert(s2[j] == s1[j]);
            } else if j > q {
                assert(s2[j] == s1[j - 1]);
            }
        }
    }
}

impl<T: IntentCollectionRecord> BoundedIntentCollections<T> {
    /// Live records in stable-ID order.
    pub closed spec fn live(&self) -> Seq<(Seq<char>, T)> {
        self.live_intents@
    }

    pub closed spec fn live_map(&self) -> Map<Seq<char>, T> {
        self.live_intents.map()
    }

    /// Terminal records in canonical completion order.
    pub closed spec fn terminal(&self) -> Seq<T> {
        self.terminal_intents@
    }

    pub closed spec fn wf(&self) -> bool {
        &&& self.live_intents.wf()
        &&& self.live_intents@.len() <= LIVE_INTENT_CAPACITY
        &&& live_keys_match(self.live_intents.map())
        &&& self.terminal_intents@.len() <= TERMINAL_INTENT_CAPACITY
        &&& completion_sorted(self.terminal_intents@)
        &&& forall|i: int| 0 <= i < self.terminal_intents@.len() ==> (#[trigger] self.terminal_intents@[i]).record_terminal_tick() is Some
        &&& ids_unique(self.terminal_intents@)
    }

    /// What a well-formed collection holds: at most the live capacity of live
    /// records filed under their own identifiers, and at most the history
    /// capacity of completed records, each with a completion tick and a distinct
    /// identifier, in canonical completion order.
    pub proof fn lemma_wf_bounds(&self)
        requires
            self.wf(),
        ensures
            self.live().len() <= LIVE_INTENT_CAPACITY,
            keys_sorted(self.live()),
            live_keys_match(self.live_map()),
            self.terminal().len() <= TERMINAL_INTENT_CAPACITY,
            completion_sorted(self.terminal()),
            forall|i: int| 0 <= i < self.terminal().len() ==> (#[trigger] self.terminal()[i]).record_terminal_tick() is Some,
            ids_unique(self.terminal()),
    {
    }

    pub proof fn lemma_live_consistent(&self)
        requires
            self.wf(),
        ensures
            keys_sorted(self.live()),
            self.live_map() == crate::id_map::entries_map(self.live()),
            live_keys_match(self.live_map()),
    {
    }

    pub fn new() -> (r: Self)
        ensures
            r.wf(),
            r.live().len() == 0,
            r.terminal().len() == 0,
    {
        BoundedIntentCollections { live_intents: IdMap::new(), terminal_intents: Vec::new() }
    }

    pub fn live_len(&self) -> (r: usize)
        ensures
            r == self.live().len(),
    {
        self.live_intents.len()
    }

    pub fn terminal_len(&self) -> (r: usize)
        ensures
            r == self.terminal().len(),
    {
        self.terminal_intents.len()
    }

    /// Live records in stable-ID order.
    pub fn live_intents(&self) -> (r: Vec<&T>)
        ensures
            r@.len() == self.live().len(),
            forall|i: int| 0 <= i < r@.len() ==> *r@[i] == self.live()[i].1,
    {
        let mut out: Vec<&T> = Vec::new();
        let n = self.live_intents.len();
        let mut i: usize = 0;
        while i < n
            invariant
                n == self.live().len(),
                i <= n,
                out@.len() == i,
                forall|j: int| 0 <= j < i ==> *out@[j] == self.live()[j].1,
            decreases n - i,
        {
            out.push(self.live_intents.value_at(i));
            i = i + 1;
        }
        out
    }

    /// Terminal records in canonical completion order.
    pub fn terminal_intents(&self) -> (r: &[T])
        ensures
            r@ == self.terminal(),
    {
        self.terminal_intents.as_slice()
    }

    /// Insert in stable-ID order. Replacing the same intent is allowed at cap;
    /// a distinct 129th live intent is returned untouched.
    pub fn insert_live(&mut self, intent: T) -> (r: Result<Option<T>, T>)
        requires
            old(self).wf(),
        ensures
            final(self).wf(),
            final(self).terminal() == old(self).terminal(),
            r is Err <==> (!old(self).live_map().contains_key(intent.record_id())
                && old(self).live().len() >= LIVE_INTENT_CAPACITY),
            r matches Err(x) ==> x == intent && final(self).live() == old(self).live(),
            r matches Ok(prev) ==> final(self).live_map() == old(self).live_map().insert(intent.record_id(), intent)
                && prev is Some == old(self).live_map().contains_key(intent.record_id())
                && (prev matches Some(p) ==> p == old(self).live_map()[intent.record_id()]),
    {
        let id = intent.intent_id().duplicate();
        if !self.live_intents.contains_key(id.as_str()) && self.live_intents.len() >= LIVE_INTENT_CAPACITY {
            return Err(intent);
        }
        let key = String::from_str(id.as_str());
        let ghost old_map = self.live_intents.map();
        let prev = self.live_intents.insert(key, intent);
        proof {
            assert forall|k: Seq<char>| #[trigger] self.live_intents.map().contains_key(k) implies self.live_intents.map()[k].record_id() == k by {
                if k != intent.record_id() {
                    assert(old_map.contains_key(k));
                }
            }
        }
        Ok(prev)
    }

    pub fn remove_live(&mut self, id: &IntentId) -> (r: Option<T>)
        requires
            old(self).wf(),
        ensures
            final(self).wf(),
            final(self).terminal() == old(self).terminal(),
            final(self).live_map() == old(self).live_map().remove(id@),
            r is Some == old(self).live_map().contains_key(id@),
            r matches Some(x) ==> x == old(self).live_map()[id@],
    {
        let ghost old_map = self.live_intents.map();
        let r = self.live_intents.remove(id.as_str());
        proof {
            assert forall|k: Seq<char>| #[trigger] self.live_intents.map().contains_key(k) implies self.live_intents.map()[k].record_id() == k by {
                assert(old_map.contains_key(k));
            }
        }
        r
    }

    /// Add one terminal record, deduplicate by stable ID, and evict by oldest
    /// completion tick then stable ID.
    pub fn push_terminal(&mut self, intent: T) -> (r: Result<TerminalInsertOutcome<T>, NonTerminalHistoryError<T>>)
        requires
            old(self).wf(),
        ensures
            final(self).wf(),
            r is Err <==> intent.record_terminal_tick() is None,
            r matches Err(e) ==> e.0 == intent && final(self).live() == old(self).live()
                && final(self).terminal() == old(self).terminal(),
            r matches Ok(o) ==> {
                &&& final(self).live_map() == old(self).live_map().remove(intent.record_id())
                &&& exists|i: int, p: int| terminal_step(old(self).terminal(), intent, o.replaced, i, p,
                    with_evicted(final(self).terminal(), o.evicted))
                &&& completion_sorted(with_evicted(final(self).terminal(), o.evicted))
                &&& (o.evicted is Some <==> with_evicted(final(self).terminal(), o.evicted).len() > TERMINAL_INTENT_CAPACITY)
            },
    {
        if intent.terminal_tick().is_none() {
            return Err(NonTerminalHistoryError(intent));
        }
        let id = intent.intent_id().duplicate();
        let ghost old_map = self.live_intents.map();
        self.live_intents.remove(id.as_str());
        proof {
            assert forall|k: Seq<char>| #[trigger] self.live_intents.map().contains_key(k) implies self.live_intents.map()[k].record_id() == k by {
                assert(old_map.contains_key(k));
            }
        }
        let ghost s0 = self.terminal_intents@;
        let replaced = terminal_remove_id(&mut self.terminal_intents, &id);
        let ghost s1 = self.terminal_intents@;
        terminal_insert_sorted(&mut self.terminal_intents, intent);
        let ghost s2 = self.terminal_intents@;
        let ghost wi: int = if replaced is Some {
            choose|i: int| 0 <= i < s0.len() && s0[i] == replaced->0 && s0[i].record_id() == id@ && s1 == s0.remove(i)
        } else { 0 };
        let ghost wp: int = choose|p: int| 0 <= p <= s1.len() && s2 == s1.insert(p, intent);
        proof {
            assert(terminal_step(s0, intent, replaced, wi, wp, s2));
        }
        let evicted = if self.terminal_intents.len() > TERMINAL_INTENT_CAPACITY {
            Some(self.terminal_intents.remove(0))
        } else {
            None
        };
        proof {
            let kept = self.terminal_intents@;
            assert(with_evicted(kept, evicted) =~= s2);
            assert forall|a: int, b: int| 0 <= a < b < kept.len() implies completion_lt(#[trigger] kept[a], #[trigger] kept[b]) by {
                if evicted is Some {
                    assert(kept[a] == s2[a + 1] && kept[b] == s2[b + 1]);
                } else {
                    assert(kept[a] == s2[a] && kept[b] == s2[b]);
                }
            }
            assert forall|a: int, b: int| 0 <= a < kept.len() && 0 <= b < kept.len() && a != b implies (#[trigger] kept[a]).record_id() != (#[trigger] kept[b]).record_id() by {
                if evicted is Some {
                    assert(kept[a] == s2[a + 1] && kept[b] == s2[b + 1]);
                } else {
                    assert(kept[a] == s2[a] && kept[b] == s2[b]);
                }
            }
            assert forall|j: int| 0 <= j < kept.len() implies (#[trigger] kept[j]).record_terminal_tick() is Some by {
                if evicted is Some {
                    assert(kept[j] == s2[j + 1]);
                } else {
                    assert(kept[j] == s2[j]);
                }
            }
        }
        proof {
            assert(terminal_step(s0, intent, replaced, wi, wp, with_evicted(self.terminal_intents@, evicted)));
            assert(with_evicted(self.terminal_intents@, evicted) == s2);
            assert(completion_sorted(with_evicted(self.terminal_intents@, evicted)));
            assert(evicted is Some <==> with_evicted(self.terminal_intents@, evicted).len() > TERMINAL_INTENT_CAPACITY);
            assert(self.live_intents.map() == old(self).live_intents.map().remove(intent.record_id()));
            assert(terminal_step(old(self).terminal(), intent, replaced, wi, wp, with_evicted(self.terminal(), evicted)));
        }
        Ok(TerminalInsertOutcome { replaced, evicted })
    }
}


/// Why persisted intent collections were refused.
#[derive(Debug, Clone, Copy, PartialEq, Eq, Structural)]
pub enum PersistedIntentsError {
    LiveCapacityExceeded,
    LiveKeyMismatch,
    LiveContainsTerminal,
    TerminalCapacityExceeded,
    TerminalContainsNonterminal,
    TerminalDuplicateIds,
    IdInBothCollections,
    TerminalNotCanonical,
}

pub open spec fn live_key_mismatch<T: IntentCollectionRecord>(live: Seq<(Seq<char>, T)>) -> bool {
    exists|i: int| 0 <= i < live.len() && (#[trigger] live[i]).0 != live[i].1.record_id()
}

pub open spec fn live_has_terminal<T: IntentCollectionRecord>(live: Seq<(Seq<char>, T)>) -> bool {
    exists|i: int| 0 <= i < live.len() && (#[trigger] live[i]).1.record_terminal_tick() is Some
}

pub open spec fn history_has_nonterminal<T: IntentCollectionRecord>(terminal: Seq<T>) -> bool {
    exists|i: int| 0 <= i < terminal.len() && (#[trigger] terminal[i]).record_terminal_tick() is None
}

pub open spec fn live_overlaps_history<T: IntentCollectionRecord>(live: Seq<(Seq<char>, T)>, terminal: Seq<T>) -> bool {
    exists|i: int, j: int| 0 <= i < live.len() && 0 <= j < terminal.len() && (#[trigger] live[i]).0 == (#[trigger] terminal[j]).record_id()
}

pub open spec fn adjacent_in_order<T: IntentCollectionRecord>(terminal: Seq<T>) -> bool {
    forall|i: int| 0 <= i < terminal.len() - 1 ==> completion_lt(#[trigger] terminal[i], terminal[i + 1])
}

/// The first check that persisted collections fail, in the order they are checked.
pub open spec fn persisted_intents_error<T: IntentCollectionRecord>(live: Seq<(Seq<char>, T)>, terminal: Seq<T>) -> Option<PersistedIntentsError> {
    if live.len() > LIVE_INTENT_CAPACITY {
        Some(PersistedIntentsError::LiveCapacityExceeded)
    } else if live_key_mismatch(live) {
        Some(PersistedIntentsError::LiveKeyMismatch)
    } else if live_has_terminal(live) {
        Some(PersistedIntentsError::LiveContainsTerminal)
    } else if terminal.len() > TERMINAL_INTENT_CAPACITY {
        Some(PersistedIntentsError::TerminalCapacityExceeded)
    } else if history_has_nonterminal(terminal) {
        Some(PersistedIntentsError::TerminalContainsNonterminal)
    } else if !ids_unique(terminal) {
        Some(PersistedIntentsError::TerminalDuplicateIds)
    } else if live_overlaps_history(live, terminal) {
        Some(PersistedIntentsError::IdInBothCollections)
    } else if !adjacent_in_order(terminal) {
        Some(PersistedIntentsError::TerminalNotCanonical)
    } else {
        None
    }
}

proof fn lemma_adjacent_sorted<T: IntentCollectionRecord>(s: Seq<T>)
    requires
        adjacent_in_order(s),
    ensures
        completion_sorted(s),
{
    assert forall|i: int, j: int| 0 <= i < j < s.len() implies completion_lt(#[trigger] s[i], #[trigger] s[j]) by {
        lemma_adjacent_sorted_from(s, i, j);
    }
}

proof fn lemma_adjacent_sorted_from<T: IntentCollectionRecord>(s: Seq<T>, i: int, j: int)
    requires
        adjacent_in_order(s),
        0 <= i < j < s.len(),
    ensures
        completion_lt(s[i], s[j]),
    decreases j - i,
{
    if j > i + 1 {
        lemma_adjacent_sorted_from(s, i, j - 1);
        lemma_completion_lt_transitive(s[i], s[j - 1], s[j]);
    }
}

impl<T: IntentCollectionRecord> BoundedIntentCollections<T> {
    #[verifier::loop_isolation(false)]
    /// Accept persisted collections only when they satisfy every bound and
    /// canonical-order rule, reporting the first rule that fails.
    pub fn from_persisted(live_intents: IdMap<T>, terminal_intents: Vec<T>) -> (r: Result<Self, PersistedIntentsError>)
        requires
            live_intents.wf(),
        ensures
            r is Err <==> persisted_intents_error(live_intents@, terminal_intents@) is Some,
            r matches Err(e) ==> persisted_intents_error(live_intents@, terminal_intents@) == Some(e),
            r matches Ok(c) ==> c.wf() && c.live() == live_intents@ && c.terminal() == terminal_intents@,
    {
        let live = live_intents;
        let term = terminal_intents;
        if live.len() > LIVE_INTENT_CAPACITY {
            return Err(PersistedIntentsError::LiveCapacityExceeded);
        }
        let n = live.len();
        let mut i: usize = 0;
        while i < n
            invariant
                n == live@.len(),
                i <= n,
                forall|j: int| 0 <= j < i ==> (#[trigger] live@[j]).0 == live@[j].1.record_id(),
            decreases n - i,
        {
            if text_compare(live.key_at(i).as_str(), live.value_at(i).intent_id().as_str()) != 0 {
                assert(live@[i as int].0 != live@[i as int].1.record_id());
                return Err(PersistedIntentsError::LiveKeyMismatch);
            }
            i = i + 1;
        }
        let mut i: usize = 0;
        while i < n
            invariant
                n == live@.len(),
                i <= n,
                forall|j: int| 0 <= j < i ==> (#[trigger] live@[j]).1.record_terminal_tick() is None,
            decreases n - i,
        {
            if live.value_at(i).terminal_tick().is_some() {
                assert(live@[i as int].1.record_terminal_tick() is Some);
                return Err(PersistedIntentsError::LiveContainsTerminal);
            }
            i = i + 1;
        }
        if term.len() > TERMINAL_INTENT_CAPACITY {
            return Err(PersistedIntentsError::TerminalCapacityExceeded);
        }
        let m = term.len();
        let mut i: usize = 0;
        while i < m
            invariant
                m == term@.len(),
                i <= m,
                forall|j: int| 0 <= j < i ==> (#[trigger] term@[j]).record_terminal_tick() is Some,
            decreases m - i,
        {
            if term[i].terminal_tick().is_none() {
                assert(term@[i as int].record_terminal_tick() is None);
                return Err(PersistedIntentsError::TerminalContainsNonterminal);
            }
            i = i + 1;
        }
        let mut a: usize = 0;
        while a < m
            invariant
                m == term@.len(),
                a <= m,
                forall|x: int, y: int| 0 <= x < a && 0 <= y < m && x != y ==> (#[trigger] term@[x]).record_id() != (#[trigger] term@[y]).record_id(),
            decreases m - a,
        {
            let mut b: usize = 0;
            while b < m
                invariant
                    m == term@.len(),
                    a < m,
                    b <= m,
                    forall|x: int, y: int| 0 <= x < a && 0 <= y < m && x != y ==> (#[trigger] term@[x]).record_id() != (#[trigger] term@[y]).record_id(),
                    forall|y: int| 0 <= y < b && y != a ==> term@[a as int].record_id() != (#[trigger] term@[y]).record_id(),
                decreases m - b,
            {
                if a != b && text_compare(term[a].intent_id().as_str(), term[b].intent_id().as_str()) == 0 {
                    assert(term@[a as int].record_id() == term@[b as int].record_id());
                    assert(!ids_unique(term@));
                    return Err(PersistedIntentsError::TerminalDuplicateIds);
                }
                b = b + 1;
            }
            a = a + 1;
        }
        let mut i: usize = 0;
        while i < n
            invariant
                n == live@.len(),
                m == term@.len(),
                i <= n,
                forall|x: int, y: int| 0 <= x < i && 0 <= y < m ==> (#[trigger] live@[x]).0 != (#[trigger] term@[y]).record_id(),
            decreases n - i,
        {
            let mut j: usize = 0;
            while j < m
                invariant
                    n == live@.len(),
                    m == term@.len(),
                    i < n,
                    j <= m,
                    forall|x: int, y: int| 0 <= x < i && 0 <= y < m ==> (#[trigger] live@[x]).0 != (#[trigger] term@[y]).record_id(),
                    forall|y: int| 0 <= y < j ==> live@[i as int].0 != (#[trigger] term@[y]).record_id(),
                decreases m - j,
            {
                if text_compare(live.key_at(i).as_str(), term[j].intent_id().as_str()) == 0 {
                    assert(live@[i as int].0 == term@[j as int].record_id());
                    return Err(PersistedIntentsError::IdInBothCollections);
                }
                j = j + 1;
            }
            i = i + 1;
        }
        let mut i: usize = 1;
        while i < m
            invariant
                m == term@.len(),
                1 <= i,
                i <= m || m == 0,
                forall|j: int| 0 <= j < i - 1 && j < m - 1 ==> completion_lt(#[trigger] term@[j], term@[j + 1]),
                forall|j: int| 0 <= j < m ==> (#[trigger] term@[j]).record_terminal_tick() is Some,
            decreases m - i,
        {
            let ta = term[i - 1].terminal_tick();
            let tb = term[i].terminal_tick();
            let ok = match (ta, tb) {
                (Some(x), Some(y)) => x < y || (x == y && text_compare(term[i - 1].intent_id().as_str(), term[i].intent_id().as_str()) < 0),
                _ => false,
            };
            if !ok {
                proof {
                    assert(!completion_lt(term@[i - 1], term@[(i - 1) + 1]));
                    assert(!adjacent_in_order(term@));
                }
                return Err(PersistedIntentsError::TerminalNotCanonical);
            }
            i = i + 1;
        }
        proof {
            assert(adjacent_in_order(term@));
            lemma_adjacent_sorted(term@);
            assert forall|k: Seq<char>| #[trigger] live.map().contains_key(k) implies live.map()[k].record_id() == k by {
                let j = choose|j: int| 0 <= j < live@.len() && #[trigger] live@[j].0 == k;
                crate::id_map::lemma_lookup_at(live@, j);
            }
        }
        Ok(BoundedIntentCollections { live_intents: live, terminal_intents: term })
    }
}

/// A well-formed collection with no completed live record and no record both
/// live and completed reloads from its persisted parts unchanged:
/// `from_persisted` accepts them and gives back the same live records and
/// history.
pub proof fn lemma_collections_reload<T: IntentCollectionRecord>(c: BoundedIntentCollections<T>)
    requires
        c.wf(),
        !live_has_terminal(c.live()),
        !live_overlaps_history(c.live(), c.terminal()),
    ensures
        persisted_intents_error(c.live(), c.terminal()) is None,
{
    c.lemma_wf_bounds();
    c.lemma_live_consistent();
    let live = c.live();
    crate::id_map::lemma_lookup_all(live);
    if live_key_mismatch(live) {
        let i = choose|i: int| 0 <= i < live.len() && (#[trigger] live[i]).0 != live[i].1.record_id();
        assert(c.live_map().contains_key(live[i].0));
    }
    let t = c.terminal();
    assert(!history_has_nonterminal(t)) by {
        if history_has_nonterminal(t) {
            let i = choose|i: int| 0 <= i < t.len() && (#[trigger] t[i]).record_terminal_tick() is None;
            assert(t[i].record_terminal_tick() is Some);
        }
    }
    assert(adjacent_in_order(t)) by {
        assert forall|i: int| 0 <= i < t.len() - 1 implies completion_lt(#[trigger] t[i], t[i + 1]) by {
            assert(completion_lt(t[i], t[i + 1]));
        }
    }
}

} // verus!
