use cat_sim::planner_core::{
    compare_intent_priority, failure_disposition, keyed_planner_seed, retry_delay_game_minutes,
    score_intent, starvation_age_basis_points, BasisPoints, BoundedIntentCollections,
    FailureDisposition, IntentCollectionRecord, IntentId, IntentLifecycle, IntentRecord, IntentScoreInputs,
    IntentState, IntentTieKey, InvalidIntentTransition, NonTerminalHistoryError,
    PersistedIntentsError, PlannerCoreState, PlannerId, PlannerRngStream, PlannerScore,
    LIVE_INTENT_CAPACITY, PLANNER_SCHEMA_VERSION, RETRY_DELAYS_GAME_MINUTES,
    TERMINAL_INTENT_CAPACITY,
};
use cat_sim::id_map::IdMap;

type TestIntent = IntentRecord<u32>;

fn test_intent(kind: &str, occurrence: u32, terminal_tick: Option<u64>) -> TestIntent {
    TestIntent {
        id: IntentId::derive("colony-1", 7, kind, "target", occurrence),
        terminal_tick,
        payload: occurrence,
    }
}

#[test]
fn planner_contract_exposes_version_and_bounds() {
    assert_eq!(PLANNER_SCHEMA_VERSION, 1);
    assert_eq!(LIVE_INTENT_CAPACITY, 128);
    assert_eq!(TERMINAL_INTENT_CAPACITY, 256);
    let state = PlannerCoreState::new();
    assert_eq!(state.schema_version, 1);
    assert_eq!(state.planning_clock, 0);
    assert_eq!(state.planning_epoch, 0);
}

#[test]
fn stable_intent_ids_are_input_keyed_and_unambiguous() {
    let first = IntentId::derive("colony:1", 7, "build", "den:west", 0);
    let twin = IntentId::derive("colony:1", 7, "build", "den:west", 0);
    let delimiter_collision = IntentId::derive("colony", 7, "1:build", "den:west", 0);

    assert_eq!(first, twin);
    assert_ne!(first, delimiter_collision);
    assert_ne!(first, IntentId::derive("colony:1", 8, "build", "den:west", 0));
    assert_ne!(first, IntentId::derive("colony:1", 7, "build", "den:west", 1));
}

#[test]
fn planner_id_text_is_length_prefixed() {
    let id = PlannerId::derive("target", &["a", "bc"]);
    assert_eq!(id.as_str(), "planner:v1|6:target|1:a|2:bc");
    let intent = IntentId::derive("c", 12, "k", "t", 3);
    assert_eq!(intent.as_str(), "planner:v1|6:intent|1:c|2:12|1:k|1:t|1:3");
    let multibyte = PlannerId::derive("é", &[]);
    assert_eq!(multibyte.as_str(), "planner:v1|2:é");
}

#[test]
fn planner_rng_streams_are_keyed_twins_and_isolated() {
    let key = ["colony-1", "leader", "food", "review-7"];
    let omission = keyed_planner_seed(42, PlannerRngStream::Omission, &key);
    let omission_twin = keyed_planner_seed(42, PlannerRngStream::Omission, &key);
    let appointment = keyed_planner_seed(42, PlannerRngStream::Appointment, &key);

    assert_eq!(omission, omission_twin);
    assert_ne!(omission, appointment);
    assert_eq!(
        omission,
        keyed_planner_seed(42, PlannerRngStream::Omission, &key),
        "drawing another stream must not advance an omission chain"
    );
    assert_eq!(PlannerRngStream::Omission.fork_offset(), 4_000_003);
    assert_eq!(PlannerRngStream::Injury.fork_offset(), 8_000_003);
    assert_ne!(
        keyed_planner_seed(42, PlannerRngStream::Omission, &["ab", "c"]),
        keyed_planner_seed(42, PlannerRngStream::Omission, &["a", "bc"]),
        "length-prefixing must distinguish stable-key partitions"
    );
}

#[test]
fn keyed_seed_is_fnv1a_over_length_prefixed_bytes() {
    // No inputs: the forked seed xor the FNV offset basis.
    let expected = (42u32.wrapping_add(4_000_003)) ^ 2_166_136_261;
    assert_eq!(keyed_planner_seed(42, PlannerRngStream::Omission, &[]), expected.max(1));
    // One empty input hashes eight zero bytes.
    let mut h = expected;
    for _ in 0..8 {
        h = h.wrapping_mul(16_777_619);
    }
    assert_eq!(keyed_planner_seed(42, PlannerRngStream::Omission, &[""]), h.max(1));
}

#[test]
fn score_uses_basis_points_without_floating_point() {
    let score = score_intent(IntentScoreInputs {
        urgency: BasisPoints::new(8_000),
        strategic_weight: BasisPoints::new(12_500),
        personality_weight: BasisPoints::new(9_000),
        confidence: BasisPoints::new(7_500),
        opportunity_cost: BasisPoints::new(500),
        churn_penalty: BasisPoints::new(250),
        starvation_age: BasisPoints::new(1_000),
        temporary_player_bias: BasisPoints::new(1_500),
    });
    assert_eq!(score, PlannerScore::new(8_500));

    let saturated = score_intent(IntentScoreInputs {
        urgency: BasisPoints::new(i64::MAX),
        strategic_weight: BasisPoints::new(i64::MAX),
        personality_weight: BasisPoints::new(i64::MAX),
        confidence: BasisPoints::new(i64::MAX),
        opportunity_cost: BasisPoints::new(0),
        churn_penalty: BasisPoints::new(0),
        starvation_age: BasisPoints::new(i64::MAX),
        temporary_player_bias: BasisPoints::new(i64::MAX),
    });
    assert_eq!(saturated, PlannerScore::new(i64::MAX));
}

#[test]
fn negative_weighted_score_truncates_toward_zero() {
    let score = score_intent(IntentScoreInputs {
        urgency: BasisPoints::new(-1),
        strategic_weight: BasisPoints::new(10_000),
        personality_weight: BasisPoints::new(10_000),
        confidence: BasisPoints::new(5_000),
        opportunity_cost: BasisPoints::new(0),
        churn_penalty: BasisPoints::new(0),
        starvation_age: BasisPoints::new(0),
        temporary_player_bias: BasisPoints::new(0),
    });
    assert_eq!(score.get(), 0);
}

#[test]
fn starvation_aging_counts_only_full_hours_and_caps_at_twenty_five_points() {
    assert_eq!(starvation_age_basis_points(59, 60), BasisPoints::new(0));
    assert_eq!(starvation_age_basis_points(60, 60), BasisPoints::new(100));
    assert_eq!(starvation_age_basis_points(25 * 60, 60), BasisPoints::new(2_500));
    assert_eq!(starvation_age_basis_points(u64::MAX, 60), BasisPoints::new(2_500));
    assert_eq!(starvation_age_basis_points(100, 0), BasisPoints::new(0));
}

#[test]
fn priority_ties_sort_by_kind_creation_intent_then_target() {
    let id_a = IntentId::derive("colony-1", 1, "build", "a", 0);
    let id_b = IntentId::derive("colony-1", 1, "build", "a", 1);
    let target_a = PlannerId::derive("target", &["a"]);
    let target_b = PlannerId::derive("target", &["b"]);
    let mut entries = [
        (
            PlannerScore::new(500),
            IntentTieKey { kind: "water".to_owned(), creation_tick: 1, intent_id: id_a.clone(), target_id: target_a.clone() },
        ),
        (
            PlannerScore::new(500),
            IntentTieKey { kind: "build".to_owned(), creation_tick: 2, intent_id: id_a.clone(), target_id: target_a.clone() },
        ),
        (
            PlannerScore::new(500),
            IntentTieKey { kind: "build".to_owned(), creation_tick: 1, intent_id: id_b, target_id: target_a },
        ),
        (
            PlannerScore::new(600),
            IntentTieKey { kind: "water".to_owned(), creation_tick: 99, intent_id: id_a, target_id: target_b },
        ),
    ];
    entries.reverse();
    entries.sort_by(|left, right| compare_intent_priority(left.0, &left.1, right.0, &right.1));

    assert_eq!(entries[0].0, PlannerScore::new(600));
    assert_eq!(entries[1].1.kind, "build");
    assert_eq!(entries[1].1.creation_tick, 1);
    assert_eq!(entries[2].1.kind, "build");
    assert_eq!(entries[2].1.creation_tick, 2);
    assert_eq!(entries[3].1.kind, "water");
}

#[test]
fn lifecycle_allows_main_path_blocks_and_retry_but_never_resurrects_terminal_work() {
    let mut lifecycle = IntentLifecycle::proposed();
    lifecycle.transition(IntentState::Approved, 1).unwrap();
    lifecycle.transition(IntentState::Reserving, 2).unwrap();
    lifecycle.transition(IntentState::Blocked, 3).unwrap();
    lifecycle.transition(IntentState::RetryWaiting, 4).unwrap();
    lifecycle.transition(IntentState::Reserving, 5).unwrap();
    lifecycle.transition(IntentState::Active, 6).unwrap();
    lifecycle.transition(IntentState::Succeeded, 7).unwrap();

    assert_eq!(lifecycle.terminal_tick, Some(7));
    assert_eq!(lifecycle.next_retry_tick, None);
    assert_eq!(
        lifecycle.transition(IntentState::Approved, 8),
        Err(InvalidIntentTransition { from: IntentState::Succeeded, to: IntentState::Approved })
    );
    assert_eq!(lifecycle.terminal_tick, Some(7));
}

#[test]
fn live_collection_rejects_only_a_distinct_intent_past_the_cap() {
    let mut collections = BoundedIntentCollections::new();
    for occurrence in 0..LIVE_INTENT_CAPACITY as u32 {
        collections.insert_live(test_intent("live", occurrence, None)).unwrap();
    }

    let ids = collections
        .live_intents()
        .into_iter()
        .map(|intent| intent.id.clone())
        .collect::<Vec<_>>();
    assert!(ids.windows(2).all(|pair| pair[0] < pair[1]));
    let rejected = collections.insert_live(test_intent("overflow", 0, None)).unwrap_err();
    assert_eq!(rejected.payload, 0);
    assert_eq!(collections.live_len(), LIVE_INTENT_CAPACITY);

    let mut replacement = test_intent("live", 0, None);
    replacement.payload = 999;
    let replaced = collections.insert_live(replacement).unwrap().unwrap();
    assert_eq!(replaced.payload, 0);
    assert_eq!(collections.live_len(), LIVE_INTENT_CAPACITY);
}

fn persisted(live: Vec<TestIntent>, keys: Vec<&IntentId>, terminal: Vec<TestIntent>) -> Result<BoundedIntentCollections<TestIntent>, PersistedIntentsError> {
    let mut map = IdMap::new();
    for (intent, key) in live.into_iter().zip(keys) {
        map.insert(key.as_str().to_owned(), intent);
    }
    BoundedIntentCollections::from_persisted(map, terminal)
}

#[test]
fn bounded_collections_reject_malformed_persisted_state() {
    let oversized: Vec<TestIntent> = (0..=LIVE_INTENT_CAPACITY as u32).map(|o| test_intent("loaded", o, None)).collect();
    let keys: Vec<IntentId> = oversized.iter().map(|i| i.id.clone()).collect();
    assert_eq!(
        persisted(oversized, keys.iter().collect(), Vec::new()).err(),
        Some(PersistedIntentsError::LiveCapacityExceeded)
    );

    let terminal_live = test_intent("terminal-live", 0, Some(1));
    let key = terminal_live.id.clone();
    assert_eq!(
        persisted(vec![terminal_live], vec![&key], Vec::new()).err(),
        Some(PersistedIntentsError::LiveContainsTerminal)
    );

    let oversized_history = (0..=TERMINAL_INTENT_CAPACITY as u32)
        .map(|o| test_intent("history", o, Some(o as u64)))
        .collect();
    assert_eq!(
        persisted(Vec::new(), Vec::new(), oversized_history).err(),
        Some(PersistedIntentsError::TerminalCapacityExceeded)
    );
    assert_eq!(
        persisted(Vec::new(), Vec::new(), vec![test_intent("nonterminal-history", 0, None)]).err(),
        Some(PersistedIntentsError::TerminalContainsNonterminal)
    );
    let duplicate = test_intent("duplicate", 0, Some(1));
    assert_eq!(
        persisted(Vec::new(), Vec::new(), vec![duplicate.clone(), duplicate]).err(),
        Some(PersistedIntentsError::TerminalDuplicateIds)
    );
    let overlap_live = test_intent("overlap", 0, None);
    let overlap_terminal = test_intent("overlap", 0, Some(1));
    let key = overlap_live.id.clone();
    assert_eq!(
        persisted(vec![overlap_live], vec![&key], vec![overlap_terminal]).err(),
        Some(PersistedIntentsError::IdInBothCollections)
    );
    assert_eq!(
        persisted(Vec::new(), Vec::new(), vec![test_intent("ordered", 1, Some(2)), test_intent("ordered", 0, Some(1))]).err(),
        Some(PersistedIntentsError::TerminalNotCanonical)
    );
    let keyed_as = test_intent("key", 0, None);
    let record_b = test_intent("record", 0, None);
    assert_eq!(
        persisted(vec![record_b], vec![&keyed_as.id], Vec::new()).err(),
        Some(PersistedIntentsError::LiveKeyMismatch)
    );

    let live = test_intent("live", 0, None);
    let key = live.id.clone();
    let restored = persisted(vec![live.clone()], vec![&key], vec![test_intent("done", 0, Some(10))]).unwrap();
    assert_eq!(restored.live_len(), 1);
    assert_eq!(restored.terminal_len(), 1);
    assert_eq!(*restored.live_intents()[0], live);
}

#[test]
fn terminal_history_evicts_oldest_completion_then_stable_id() {
    let mut collections = BoundedIntentCollections::new();
    for occurrence in 0..254 {
        collections
            .push_terminal(test_intent("recent", occurrence, Some(100 + occurrence as u64)))
            .unwrap();
    }
    let oldest_a = test_intent("oldest", 0, Some(10));
    let oldest_b = test_intent("oldest", 1, Some(10));
    let expected_evicted = oldest_a.id.clone().min(oldest_b.id.clone());
    collections.push_terminal(oldest_a).unwrap();
    collections.push_terminal(oldest_b).unwrap();

    let outcome = collections.push_terminal(test_intent("newest", 0, Some(10_000))).unwrap();
    assert_eq!(collections.terminal_len(), TERMINAL_INTENT_CAPACITY);
    assert_eq!(outcome.evicted.unwrap().id, expected_evicted);
    assert!(collections
        .terminal_intents()
        .windows(2)
        .all(|pair| (pair[0].terminal_tick, &pair[0].id) <= (pair[1].terminal_tick, &pair[1].id)));
}

#[test]
fn terminal_history_rejects_live_records_and_deduplicates_stable_ids() {
    let mut collections = BoundedIntentCollections::new();
    let live = test_intent("one", 0, None);
    assert_eq!(collections.push_terminal(live.clone()), Err(NonTerminalHistoryError(live)));

    let first = test_intent("one", 0, Some(10));
    collections.push_terminal(first.clone()).unwrap();
    let mut replacement = first.clone();
    replacement.terminal_tick = Some(20);
    let outcome = collections.push_terminal(replacement).unwrap();
    assert_eq!(outcome.replaced, Some(first));
    assert_eq!(collections.terminal_len(), 1);
    assert_eq!(collections.terminal_intents()[0].terminal_tick, Some(20));
}

#[test]
fn pushing_terminal_removes_the_live_record() {
    let mut collections = BoundedIntentCollections::new();
    collections.insert_live(test_intent("x", 0, None)).unwrap();
    collections.push_terminal(test_intent("x", 0, Some(5))).unwrap();
    assert_eq!(collections.live_len(), 0);
    assert_eq!(collections.terminal_len(), 1);
    let id = test_intent("x", 0, None).id;
    assert_eq!(collections.remove_live(&id), None);
}

#[test]
fn retry_schedule_and_terminal_failure_are_exact() {
    assert_eq!(RETRY_DELAYS_GAME_MINUTES, [15, 30, 60, 120, 240]);
    assert_eq!(retry_delay_game_minutes(1), Some(15));
    assert_eq!(retry_delay_game_minutes(5), Some(240));
    assert_eq!(retry_delay_game_minutes(6), None);
    assert_eq!(failure_disposition(1, 1_000, 60), Some(FailureDisposition::RetryAt(1_900)));
    assert_eq!(failure_disposition(5, 1_000, 60), Some(FailureDisposition::TerminalFailure));
    assert_eq!(failure_disposition(0, 1_000, 60), None);
    assert_eq!(
        failure_disposition(4, u64::MAX - 1, u64::MAX),
        Some(FailureDisposition::RetryAt(u64::MAX))
    );
}
