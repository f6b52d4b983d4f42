use cat_sim::planner_core::PlannerId;
use cat_sim::progression_research::{
    ManifestCapability, ManifestFacts, ProgressionCatalog, ProgressionError, ResearchNotes, StudyId, VoidInsight,
};
use cat_sim::research_authority::{
    currency_fingerprint, god_queue_order_is_topological, map_notes_debit_error, map_void_debit_error,
    CriticalVillageAuthorization, DuplicateAuthorization, FrozenGodTerms, GodResearchEntry, KeyedOopsieAuthorization,
    LeaderCandidate, LeaderCommit, LeaderDuplicatePermit, LeaderExclusionReason, PreparationState,
    ResearchAuthority, ResearchAuthorityError, ResearchCommandId, ResearchStudyCollisionReport,
};
use cat_sim::progression_research::StudyCurrency;


fn manifest_facts(founding: &[&str], derived_capability_total: usize) -> ManifestFacts {
    ManifestFacts {
        manifest_valid: true,
        required_founding: founding.iter().map(|f| f.to_string()).collect(),
        free_founding_resources: vec!["logs".to_string(), "stone".to_string()],
        derived_capability_total,
    }
}

fn colony() -> PlannerId {
    PlannerId::derive("research-test", &["colony"])
}

fn sid(text: &str) -> StudyId {
    StudyId::from_capability(&text.to_string())
}

fn capability(id: &str, order: u32, prerequisites: &[&str]) -> ManifestCapability {
    ManifestCapability {
        id: id.to_string(),
        display_name: id.to_string(),
        order,
        founding_owned: false,
        prerequisites: prerequisites.iter().map(|p| p.to_string()).collect(),
    }
}

fn catalog() -> ProgressionCatalog {
    let mut capabilities = vec![
        capability("plank_processing", 3, &[]),
        capability("masonry", 4, &["plank_processing"]),
        capability("weaving", 5, &[]),
    ];
    let mut order = 10;
    for axis in ["width", "depth", "darkness"] {
        for level in 1..=10 {
            capabilities.push(capability(&format!("black_hole_{axis}_{level:02}"), order, &[]));
            order += 1;
        }
    }
    ProgressionCatalog::from_capabilities(&Vec::new(), &capabilities, &manifest_facts(&[], 33)).expect("catalog")
}

fn authority() -> ResearchAuthority {
    ResearchAuthority::new(colony(), ResearchNotes::from_micro(1_000_000), VoidInsight::from_micro(0))
}

fn entry(sequence: u64, study: &str) -> GodResearchEntry {
    GodResearchEntry { sequence, study_id: sid(study), frozen: None, staffed_labor_minutes: 0 }
}

fn candidate(study: &str, score: i64) -> LeaderCandidate {
    LeaderCandidate {
        study_id: sid(study),
        report_score: score,
        need_score: 0,
        intelligence_score: 0,
        personality_score: 0,
        research_skill_score: 0,
    }
}

#[test]
fn permits_follow_the_oopsie_table_and_critical_timing() {
    assert_eq!(LeaderDuplicatePermit::oopsie_percent(0), 25);
    assert_eq!(LeaderDuplicatePermit::oopsie_percent(3), 1);
    assert_eq!(LeaderDuplicatePermit::oopsie_percent(4), 0);
    assert_eq!(LeaderDuplicatePermit::oopsie_percent(9), 0);
    assert!(!LeaderDuplicatePermit::Absent.permits_queued_target());
    let critical = |marked: bool, needed: u64| {
        LeaderDuplicatePermit::CriticalVillage(CriticalVillageAuthorization {
            report_marks_critical: marked,
            needed_before_tick: needed,
            estimated_god_completion_tick: 100,
        })
    };
    assert!(critical(true, 99).permits_queued_target());
    assert!(!critical(true, 100).permits_queued_target());
    assert!(!critical(false, 10).permits_queued_target());
    let oopsie = |level: u8, roll: u8| {
        LeaderDuplicatePermit::KeyedOopsie(KeyedOopsieAuthorization { effective_level: level, keyed_roll_percent: roll })
    };
    assert!(oopsie(1, 11).permits_queued_target());
    assert!(!oopsie(1, 12).permits_queued_target());
    assert!(!oopsie(7, 0).permits_queued_target());
    assert_eq!(oopsie(1, 1).kind(), DuplicateAuthorization::KeyedOopsie);
    assert_eq!(critical(true, 1).kind(), DuplicateAuthorization::CriticalVillage);
}

#[test]
fn candidate_scores_saturate_left_to_right() {
    let mut c = candidate("weaving", i64::MAX);
    c.need_score = 5;
    c.intelligence_score = -10;
    assert_eq!(c.score(), i64::MAX - 10);
    let mut d = candidate("weaving", 3);
    d.need_score = 4;
    d.personality_score = -2;
    d.research_skill_score = 1;
    assert_eq!(d.score(), 6);
}

#[test]
fn cadence_limits_and_preparation_completion_are_exact() {
    assert_eq!(ResearchAuthority::leader_cadence_limit(0), 1);
    assert_eq!(ResearchAuthority::leader_cadence_limit(3), 2);
    assert_eq!(ResearchAuthority::leader_cadence_limit(4), 3);
    assert_eq!(ResearchAuthority::leader_cadence_limit(200), 4);
    let state = PreparationState { study_id: sid("weaving"), required_labor_minutes: 2, completed_labor_minutes: 2 };
    assert!(state.complete());
}

#[test]
fn new_authority_is_valid_and_empty() {
    let catalog = catalog();
    let state = authority();
    assert_eq!(state.validate_against(&catalog), Ok(()));
    assert!(state.god_front().is_none());
    assert_eq!(state.leader_used_in_window(0), 0);
    assert!(state.has_unowned_finite(&catalog));
    assert!(state.is_repeatable(&catalog, &sid("divine_duration_11")));
    assert!(!state.is_repeatable(&catalog, &sid("divine_duration_10")));
    assert!(matches!(state.report_study_collision(&sid("weaving")), ResearchStudyCollisionReport::Available));
}

#[test]
fn queue_order_must_follow_prerequisites() {
    let catalog = catalog();
    let state = authority();
    let good = [entry(1, "plank_processing"), entry(2, "masonry")];
    let bad = [entry(1, "masonry"), entry(2, "plank_processing")];
    let repeated = [entry(1, "weaving"), entry(2, "weaving")];
    let unknown = [entry(1, "not_a_study")];
    assert!(god_queue_order_is_topological(&catalog, &state.owned_finite, &good));
    assert!(!god_queue_order_is_topological(&catalog, &state.owned_finite, &bad));
    assert!(!god_queue_order_is_topological(&catalog, &state.owned_finite, &repeated));
    assert!(!god_queue_order_is_topological(&catalog, &state.owned_finite, &unknown));
}

#[test]
fn validation_rejects_out_of_order_queues_and_late_frozen_terms() {
    let catalog = catalog();
    let mut state = authority();
    state.god_queue = vec![entry(1, "plank_processing"), entry(2, "masonry")];
    state.next_queue_sequence = 3;
    assert_eq!(state.validate_against(&catalog), Ok(()));
    state.god_queue[1].frozen = Some(FrozenGodTerms {
        currency: StudyCurrency::Notes,
        base_cost_micro: 1,
        payable_cost_micro: 1,
        duration_game_minutes: 1,
    });
    assert_eq!(state.validate_against(&catalog), Err(ResearchAuthorityError::MalformedPersistence));
    state.god_queue[1].frozen = None;
    state.next_queue_sequence = 2;
    assert_eq!(state.validate_against(&catalog), Err(ResearchAuthorityError::MalformedPersistence));
    state.next_queue_sequence = 3;
    state.god_queue.swap(0, 1);
    assert_eq!(state.validate_against(&catalog), Err(ResearchAuthorityError::MalformedPersistence));
}

#[test]
fn leader_selection_excludes_with_reasons_and_picks_the_best_score() {
    let catalog = catalog();
    let mut state = authority();
    state.owned_finite.insert("weaving".to_string(), ());
    state.god_queue = vec![entry(1, "plank_processing")];
    state.next_queue_sequence = 2;
    let candidates = [
        candidate("weaving", 50),
        candidate("masonry", 40),
        candidate("plank_processing", 90),
        candidate("divine_economy_11", 80),
        candidate("black_hole_width_01", 10),
        candidate("black_hole_depth_01", 10),
        candidate("unknown_study", 100),
    ];
    let selection = state.select_leader_target(&catalog, &candidates, 2, 0, &LeaderDuplicatePermit::Absent);
    assert_eq!(selection.selected, Some(sid("black_hole_depth_01")));
    assert_eq!(selection.selected_duplicate_authorization, DuplicateAuthorization::Absent);
    assert_eq!(selection.excluded.get("weaving"), Some(&LeaderExclusionReason::AlreadyOwned));
    assert_eq!(selection.excluded.get("masonry"), Some(&LeaderExclusionReason::PrerequisiteLocked));
    assert_eq!(
        selection.excluded.get("plank_processing"),
        Some(&LeaderExclusionReason::GodQueueDuplicateForbidden)
    );
    assert_eq!(
        selection.excluded.get("divine_economy_11"),
        Some(&LeaderExclusionReason::RepeatableWhileFiniteRemains)
    );
    assert_eq!(selection.excluded.get("unknown_study"), Some(&LeaderExclusionReason::UnknownStudy));
    assert_eq!(selection.excluded.len(), 5);

    let permit = LeaderDuplicatePermit::KeyedOopsie(KeyedOopsieAuthorization { effective_level: 0, keyed_roll_percent: 3 });
    let selection = state.select_leader_target(&catalog, &candidates, 2, 0, &permit);
    assert_eq!(selection.selected, Some(sid("plank_processing")));
    assert_eq!(selection.selected_duplicate_authorization, DuplicateAuthorization::KeyedOopsie);
}

#[test]
fn leader_selection_stops_when_the_rolling_week_is_spent() {
    let catalog = catalog();
    let mut state = authority();
    state.leader_commits.insert(
        "command".to_string(),
        LeaderCommit {
            study_id: sid("weaving"),
            committed_tick: 100,
            effective_loremaster_level: 0,
            duplicate_authorization: DuplicateAuthorization::Absent,
        },
    );
    assert_eq!(state.leader_used_in_window(100 + 7 * 24 * 60 - 1), 1);
    assert_eq!(state.leader_used_in_window(100 + 7 * 24 * 60), 0);
    let candidates = [candidate("masonry", 1)];
    let selection = state.select_leader_target(&catalog, &candidates, 1, 200, &LeaderDuplicatePermit::Absent);
    assert_eq!(selection.selected, None);
    assert_eq!(selection.excluded.get("masonry"), Some(&LeaderExclusionReason::RollingCadenceExhausted));
    assert!(matches!(
        state.report_study_collision(&sid("weaving")),
        ResearchStudyCollisionReport::LeaderDecision(report) if report.command_id == "command"
    ));
}

#[test]
fn funding_fingerprints_depend_on_every_input() {
    let command = ResearchCommandId::derive(&colony(), "fund");
    let other = ResearchCommandId::derive(&colony(), "fund-again");
    let base = currency_fingerprint(&command, &sid("weaving"), 500);
    assert_eq!(base, currency_fingerprint(&command, &sid("weaving"), 500));
    assert_ne!(base, currency_fingerprint(&other, &sid("weaving"), 500));
    assert_ne!(base, currency_fingerprint(&command, &sid("masonry"), 500));
    assert_ne!(base, currency_fingerprint(&command, &sid("weaving"), 501));
}

#[test]
fn ledger_refusals_map_to_research_errors() {
    assert_eq!(map_notes_debit_error(ProgressionError::InsufficientCurrency), ResearchAuthorityError::InsufficientNotes);
    assert_eq!(map_void_debit_error(ProgressionError::InsufficientCurrency), ResearchAuthorityError::InsufficientVoid);
    assert_eq!(map_notes_debit_error(ProgressionError::StaleVersion), ResearchAuthorityError::LedgerVersionConflict);
    assert_eq!(map_void_debit_error(ProgressionError::ArithmeticOverflow), ResearchAuthorityError::ArithmeticOverflow);
    assert_eq!(
        map_notes_debit_error(ProgressionError::IdempotencyConflict),
        ResearchAuthorityError::CanonicalLedgerRejected
    );
}

#[test]
fn repeatable_studies_are_the_same_in_every_catalog() {
    let first = catalog();
    let mut capabilities = vec![
        ManifestCapability {
            id: "logging".to_string(),
            display_name: "Logging".to_string(),
            order: 0,
            founding_owned: true,
            prerequisites: Vec::new(),
        },
        capability("plank_processing", 3, &["logging"]),
        capability("divine_economy_11", 7, &[]),
    ];
    let mut order = 10;
    for axis in ["width", "depth", "darkness"] {
        for level in 1..=10 {
            capabilities.push(capability(&format!("black_hole_{axis}_{level:02}"), order, &[]));
            order += 1;
        }
    }
    let second =
        ProgressionCatalog::from_capabilities(&vec!["logging".to_string()], &capabilities, &manifest_facts(&["logging"], 33))
            .expect("second catalog");
    let state = authority();
    for id in ["divine_duration_11", "divine_economy_11", "divine_economy_10", "plank_processing", "weaving", "logging"] {
        assert_eq!(state.is_repeatable(&first, &sid(id)), state.is_repeatable(&second, &sid(id)), "{id}");
    }
    assert!(state.is_repeatable(&second, &sid("divine_economy_11")));
    assert!(!state.is_repeatable(&second, &sid("plank_processing")));
}
