use cat_sim::planner_core::PlannerId;
use cat_sim::progression_research::{ManifestCapability, ManifestFacts, ProgressionCatalog, ResearchNotes, StudyId, VoidInsight};
use cat_sim::research_authority::{
    CriticalVillageAuthorization, DuplicateAuthorization, LeaderDuplicatePermit, ResearchAuthority,
    ResearchAuthorityError, ResearchCommand, ResearchCommandId, ResearchCommandKind, ResearchCommandOutcome,
};


fn manifest_facts(founding: &[&str], derived_capability_total: usize) -> ManifestFacts {
    ManifestFacts {
        manifest_valid: true,
        required_founding: founding.iter().map(|f| f.to_string()).collect(),
        free_founding_resources: vec!["logs".to_string(), "stone".to_string()],
        derived_capability_total,
    }
}

fn capability(id: &str, order: u32, prerequisites: &[&str]) -> ManifestCapability {
    ManifestCapability {
        id: id.to_string(),
        display_name: id.to_string(),
        order,
        founding_owned: false,
        prerequisites: prerequisites.iter().map(|p| p.to_string()).collect(),
    }
}

fn catalog() -> ProgressionCatalog {
    let mut capabilities = vec![
        ManifestCapability {
            id: "logging".to_string(),
            display_name: "Logging".to_string(),
            order: 0,
            founding_owned: true,
            prerequisites: Vec::new(),
        },
        capability("apiary", 1, &[]),
        capability("archery", 2, &[]),
        capability("astronomy", 3, &[]),
        capability("plank_processing", 4, &["logging"]),
        capability("masonry", 5, &["plank_processing", "apiary"]),
        capability("quarrying", 6, &["masonry"]),
    ];
    let mut order = 10;
    for axis in ["width", "depth", "darkness"] {
        for level in 1..=10 {
            capabilities.push(capability(&format!("black_hole_{axis}_{level:02}"), order, &[]));
            order += 1;
        }
    }
    ProgressionCatalog::from_capabilities(&vec!["logging".to_string()], &capabilities, &manifest_facts(&["logging"], 37))
        .expect("catalog")
}

fn colony() -> PlannerId {
    PlannerId::derive("research-reorder-test", &["colony"])
}

fn authority() -> ResearchAuthority {
    ResearchAuthority::new(colony(), ResearchNotes::from_micro(u64::MAX / 4), VoidInsight::from_micro(u64::MAX / 4))
}

fn command(state: &ResearchAuthority, action: &str, kind: ResearchCommandKind) -> ResearchCommand {
    ResearchCommand { id: ResearchCommandId::derive(&colony(), action), expected_version: state.version, kind }
}

fn independent_roots(catalog: &ProgressionCatalog) -> Vec<StudyId> {
    let studies = catalog.studies();
    let mut roots = Vec::new();
    for i in 0..studies.len() {
        let study = studies.value_at(i);
        if study.prerequisites.len() == 0 && roots.len() < 3 {
            roots.push(study.id.duplicate());
        }
    }
    roots
}

fn queued_ids(state: &ResearchAuthority) -> Vec<StudyId> {
    state.god_queue.iter().map(|entry| entry.study_id.duplicate()).collect()
}

#[test]
fn god_reorder_is_atomic_idempotent_and_preserves_every_entry_fact() {
    let catalog = catalog();
    let roots = independent_roots(&catalog);
    assert_eq!(roots.len(), 3);
    let mut state = authority();
    for (index, target) in roots.iter().enumerate() {
        let request =
            command(&state, &format!("queue-{index}"), ResearchCommandKind::QueueGodPath { target: target.duplicate() });
        state.apply(&catalog, request).expect("queue independent root");
    }
    let request_preparation = command(
        &state,
        "request-front-preparation",
        ResearchCommandKind::RequestPreparation { study_id: roots[0].duplicate() },
    );
    state.apply(&catalog, request_preparation).expect("open zero-progress preparation");
    let fund = command(&state, "fund-front", ResearchCommandKind::FundGodFront { consume_preparation: false });
    state.apply(&catalog, fund).expect("fund front");
    let second = state.god_queue.iter_mut().find(|entry| entry.study_id == roots[1]).expect("second root queued");
    second.staffed_labor_minutes = 7;
    let mut frozen_before: Vec<(String, Option<_>, u64)> = state
        .god_queue
        .iter()
        .map(|entry| (entry.study_id.as_str().to_string(), entry.frozen.clone(), entry.staffed_labor_minutes))
        .collect();
    frozen_before.sort_by(|a, b| a.0.cmp(&b.0));
    let preparations_before = state.preparations.clone();
    let reorder = command(
        &state,
        "reorder-third-before-second",
        ResearchCommandKind::ReorderGodTarget {
            study_id: roots[2].duplicate(),
            before_study_id: Some(roots[1].duplicate()),
        },
    );
    let receipt = state.apply(&catalog, reorder.clone()).expect("reorder independent roots");
    assert!(matches!(
        receipt.outcome,
        ResearchCommandOutcome::GodTargetReordered { from_index: 2, to_index: 1, .. }
    ));
    assert_eq!(queued_ids(&state), vec![roots[0].duplicate(), roots[2].duplicate(), roots[1].duplicate()]);
    assert_eq!(state.god_queue.iter().map(|entry| entry.sequence).collect::<Vec<_>>(), vec![1, 2, 3]);
    assert_eq!(state.next_queue_sequence, 4);
    let mut frozen_after: Vec<(String, Option<_>, u64)> = state
        .god_queue
        .iter()
        .map(|entry| (entry.study_id.as_str().to_string(), entry.frozen.clone(), entry.staffed_labor_minutes))
        .collect();
    frozen_after.sort_by(|a, b| a.0.cmp(&b.0));
    assert_eq!(frozen_after, frozen_before);
    assert_eq!(state.preparations, preparations_before);
    assert_eq!(state.apply(&catalog, reorder).expect("exact replay returns receipt"), receipt);
}

#[test]
fn god_reorder_rejects_noop_unknown_prerequisite_and_frozen_front_moves() {
    let catalog = catalog();
    let roots = independent_roots(&catalog);
    assert_eq!(roots.len(), 3);
    let mut roots_state = authority();
    for (index, target) in roots.iter().enumerate() {
        let request = command(
            &roots_state,
            &format!("roots-{index}"),
            ResearchCommandKind::QueueGodPath { target: target.duplicate() },
        );
        roots_state.apply(&catalog, request).expect("queue independent root");
    }
    let before = roots_state.duplicate();
    assert_eq!(
        roots_state
            .apply(
                &catalog,
                command(
                    &roots_state,
                    "noop",
                    ResearchCommandKind::ReorderGodTarget {
                        study_id: roots[1].duplicate(),
                        before_study_id: Some(roots[2].duplicate()),
                    },
                ),
            )
            .expect_err("same relative position is a no-op"),
        ResearchAuthorityError::NoOpReorder
    );
    assert_eq!(roots_state, before);
    assert_eq!(
        roots_state
            .apply(
                &catalog,
                command(
                    &roots_state,
                    "unknown-before",
                    ResearchCommandKind::ReorderGodTarget {
                        study_id: roots[1].duplicate(),
                        before_study_id: Some(StudyId::from_capability(&"not_queued".to_string())),
                    },
                ),
            )
            .expect_err("unknown relative target"),
        ResearchAuthorityError::TargetNotQueued
    );

    let studies = catalog.studies();
    let mut dependent = None;
    for i in 0..studies.len() {
        if dependent.is_none() && studies.value_at(i).prerequisites.len() != 0 {
            dependent = Some(studies.value_at(i).id.duplicate());
        }
    }
    let dependent = dependent.expect("catalog has a dependent study");
    let mut dependency_state = authority();
    dependency_state
        .apply(
            &catalog,
            command(
                &dependency_state,
                "dependent-path",
                ResearchCommandKind::QueueGodPath { target: dependent.duplicate() },
            ),
        )
        .expect("queue dependent path");
    let prerequisite = dependency_state
        .god_queue
        .iter()
        .find(|entry| entry.study_id != dependent)
        .expect("queued prerequisite")
        .study_id
        .duplicate();
    assert_eq!(
        dependency_state
            .apply(
                &catalog,
                command(
                    &dependency_state,
                    "invalid-topology",
                    ResearchCommandKind::ReorderGodTarget {
                        study_id: dependent.duplicate(),
                        before_study_id: Some(prerequisite.duplicate()),
                    },
                ),
            )
            .expect_err("dependent cannot precede prerequisite"),
        ResearchAuthorityError::GodQueuePrerequisiteOrder
    );
    dependency_state
        .apply(
            &catalog,
            command(&dependency_state, "fund-prerequisite", ResearchCommandKind::FundGodFront { consume_preparation: false }),
        )
        .expect("fund front");
    let funded_front = dependency_state.god_front().expect("funded front remains queued").study_id.duplicate();
    assert_eq!(
        dependency_state
            .apply(
                &catalog,
                command(
                    &dependency_state,
                    "move-before-frozen",
                    ResearchCommandKind::ReorderGodTarget { study_id: dependent, before_study_id: Some(funded_front) },
                ),
            )
            .expect_err("funded front cannot move"),
        ResearchAuthorityError::GodFrontFrozen
    );
}

fn sid(text: &str) -> StudyId {
    StudyId::from_capability(&text.to_string())
}

#[test]
fn queue_god_path_queues_missing_prerequisites_first() {
    let catalog = catalog();
    let mut state = authority();
    let receipt = state
        .apply(&catalog, command(&state, "quarry", ResearchCommandKind::QueueGodPath { target: sid("quarrying") }))
        .expect("queue path");
    assert_eq!(receipt.outcome, ResearchCommandOutcome::Queued { entries_added: 4 });
    assert_eq!(receipt.committed_version, 1);
    assert_eq!(queued_ids(&state), vec![sid("apiary"), sid("plank_processing"), sid("masonry"), sid("quarrying")]);
    assert_eq!(state.version, 1);
    assert_eq!(state.next_queue_sequence, 5);
    let again = state
        .apply(&catalog, command(&state, "quarry-again", ResearchCommandKind::QueueGodPath { target: sid("quarrying") }))
        .expect("already queued");
    assert_eq!(again.outcome, ResearchCommandOutcome::Queued { entries_added: 0 });
}

#[test]
fn queue_god_path_rejects_unknown_studies_without_change() {
    let catalog = catalog();
    let mut state = authority();
    let before = state.duplicate();
    assert_eq!(
        state.apply(&catalog, command(&state, "unknown", ResearchCommandKind::QueueGodPath { target: sid("nowhere") })),
        Err(ResearchAuthorityError::UnknownStudy)
    );
    assert_eq!(state, before);
}

#[test]
fn replayed_commands_return_their_receipt_and_conflicts_are_refused() {
    let catalog = catalog();
    let mut state = authority();
    let first = command(&state, "queue", ResearchCommandKind::QueueGodPath { target: sid("apiary") });
    let receipt = state.apply(&catalog, first.clone()).expect("queue");
    assert_eq!(state.apply(&catalog, first).expect("replay"), receipt);
    assert_eq!(state.version, 1);
    let conflicting = ResearchCommand {
        id: ResearchCommandId::derive(&colony(), "queue"),
        expected_version: 1,
        kind: ResearchCommandKind::QueueGodPath { target: sid("archery") },
    };
    assert_eq!(state.apply(&catalog, conflicting), Err(ResearchAuthorityError::IdempotencyConflict));
    let stale = ResearchCommand {
        id: ResearchCommandId::derive(&colony(), "stale"),
        expected_version: 0,
        kind: ResearchCommandKind::QueueGodPath { target: sid("archery") },
    };
    assert_eq!(state.apply(&catalog, stale), Err(ResearchAuthorityError::StaleVersion));
}

#[test]
fn removing_a_target_takes_its_dependents_and_refunds_frozen_payment() {
    let catalog = catalog();
    let mut state = authority();
    state
        .apply(&catalog, command(&state, "quarry", ResearchCommandKind::QueueGodPath { target: sid("quarrying") }))
        .expect("queue path");
    state
        .apply(&catalog, command(&state, "fund", ResearchCommandKind::FundGodFront { consume_preparation: false }))
        .expect("fund apiary");
    let balance_after_funding = state.notes.balance;
    let receipt = state
        .apply(&catalog, command(&state, "remove", ResearchCommandKind::RemoveGodTarget { study_id: sid("apiary") }))
        .expect("remove apiary");
    assert_eq!(
        receipt.outcome,
        ResearchCommandOutcome::GodTargetRemoved {
            removed_entries: 3,
            refunded_notes_micro: 20_000,
            refunded_void_micro: 0,
            lost_labor_minutes: 0,
            lost_preparation_labor_minutes: 0,
        }
    );
    assert_eq!(queued_ids(&state), vec![sid("plank_processing")]);
    assert_eq!(state.notes.balance.0, balance_after_funding.0 + 20_000);
    assert_eq!(
        state.apply(&catalog, command(&state, "remove-again", ResearchCommandKind::RemoveGodTarget { study_id: sid("apiary") })),
        Err(ResearchAuthorityError::TargetNotQueued)
    );
}

#[test]
fn leader_completion_owns_the_study_and_spends_cadence() {
    let catalog = catalog();
    let mut state = authority();
    let leader = |state: &ResearchAuthority, action: &str, study: &str, tick: u64| {
        command(
            state,
            action,
            ResearchCommandKind::CompleteLeader {
                study_id: sid(study),
                effective_loremaster_level: 1,
                now_tick: tick,
                duplicate_permit: LeaderDuplicatePermit::Absent,
            },
        )
    };
    let receipt = state.apply(&catalog, leader(&state, "archery", "archery", 100)).expect("complete archery");
    assert!(matches!(
        receipt.outcome,
        ResearchCommandOutcome::LeaderCompleted { duplicate_authorization: DuplicateAuthorization::Absent, .. }
    ));
    assert!(state.owned_finite.contains_key("archery"));
    assert_eq!(state.leader_used_in_window(100), 1);
    assert_eq!(
        state.apply(&catalog, leader(&state, "apiary", "apiary", 200)),
        Err(ResearchAuthorityError::LeaderCadenceExhausted)
    );
    assert_eq!(
        state.apply(&catalog, leader(&state, "archery-again", "archery", 100 + 7 * 24 * 60)),
        Err(ResearchAuthorityError::AlreadyOwned)
    );
    assert_eq!(
        state.apply(&catalog, leader(&state, "masonry", "masonry", 100 + 7 * 24 * 60)),
        Err(ResearchAuthorityError::PrerequisiteLocked)
    );
}

#[test]
fn leader_takes_a_queued_study_only_with_a_permit() {
    let catalog = catalog();
    let mut state = authority();
    state
        .apply(&catalog, command(&state, "queue", ResearchCommandKind::QueueGodPath { target: sid("apiary") }))
        .expect("queue apiary");
    let complete = |state: &ResearchAuthority, action: &str, permit: LeaderDuplicatePermit| {
        command(
            state,
            action,
            ResearchCommandKind::CompleteLeader {
                study_id: sid("apiary"),
                effective_loremaster_level: 5,
                now_tick: 10,
                duplicate_permit: permit,
            },
        )
    };
    assert_eq!(
        state.apply(&catalog, complete(&state, "no-permit", LeaderDuplicatePermit::Absent)),
        Err(ResearchAuthorityError::GodQueueDuplicateForbidden)
    );
    let permit = LeaderDuplicatePermit::CriticalVillage(CriticalVillageAuthorization {
        report_marks_critical: true,
        needed_before_tick: 5,
        estimated_god_completion_tick: 50,
    });
    let receipt = state.apply(&catalog, complete(&state, "critical", permit)).expect("critical duplicate");
    assert!(matches!(
        receipt.outcome,
        ResearchCommandOutcome::LeaderCompleted {
            duplicate_authorization: DuplicateAuthorization::CriticalVillage,
            ..
        }
    ));
    assert!(state.god_queue.is_empty());
    assert!(state.owned_finite.contains_key("apiary"));
}
