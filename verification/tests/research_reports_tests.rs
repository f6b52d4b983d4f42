use cat_sim::planner_core::PlannerId;
use cat_sim::progression_research::{ManifestCapability, ManifestFacts, ProgressionCatalog, ResearchNotes, StudyId, VoidInsight};
use cat_sim::research_authority::{
    DuplicateAuthorization, GodResearchFundingReport, LeaderDuplicatePermit, ResearchAuthority, ResearchCommand,
    ResearchCommandId, ResearchCommandKind, ResearchCommandOutcome, ResearchStudyCollisionReport,
};


fn manifest_facts(founding: &[&str], derived_capability_total: usize) -> ManifestFacts {
    ManifestFacts {
        manifest_valid: true,
        required_founding: founding.iter().map(|f| f.to_string()).collect(),
        free_founding_resources: vec!["logs".to_string(), "stone".to_string()],
        derived_capability_total,
    }
}

fn capability(id: &str, order: u32, prerequisites: &[&str]) -> ManifestCapability {
    ManifestCapability {
        id: id.to_string(),
        display_name: id.to_string(),
        order,
        founding_owned: false,
        prerequisites: prerequisites.iter().map(|p| p.to_string()).collect(),
    }
}

fn catalog() -> ProgressionCatalog {
    let mut capabilities = vec![
        ManifestCapability {
            id: "logging".to_string(),
            display_name: "Logging".to_string(),
            order: 0,
            founding_owned: true,
            prerequisites: Vec::new(),
        },
        capability("apiary", 1, &[]),
        capability("archery", 2, &[]),
        capability("astronomy", 3, &[]),
        capability("plank_processing", 4, &["logging"]),
        capability("masonry", 5, &["plank_processing", "apiary"]),
    ];
    let mut order = 10;
    for axis in ["width", "depth", "darkness"] {
        for level in 1..=10 {
            capabilities.push(capability(&format!("black_hole_{axis}_{level:02}"), order, &[]));
            order += 1;
        }
    }
    ProgressionCatalog::from_capabilities(&vec!["logging".to_string()], &capabilities, &manifest_facts(&["logging"], 36))
        .expect("catalog")
}

fn colony() -> PlannerId {
    PlannerId::derive("research-report-test", &["colony"])
}

fn authority() -> ResearchAuthority {
    ResearchAuthority::new(colony(), ResearchNotes::from_micro(u64::MAX / 4), VoidInsight::from_micro(u64::MAX / 4))
}

fn command(state: &ResearchAuthority, action: &str, kind: ResearchCommandKind) -> ResearchCommand {
    ResearchCommand { id: ResearchCommandId::derive(&colony(), action), expected_version: state.version, kind }
}

fn sid(text: &str) -> StudyId {
    StudyId::from_capability(&text.to_string())
}

fn complete_leader(state: &ResearchAuthority, action: &str, study: &str, tick: u64, level: u8) -> ResearchCommand {
    command(
        state,
        action,
        ResearchCommandKind::CompleteLeader {
            study_id: sid(study),
            effective_loremaster_level: level,
            now_tick: tick,
            duplicate_permit: LeaderDuplicatePermit::Absent,
        },
    )
}

#[test]
fn god_queue_report_lists_entries_in_sequence_with_funding_state() {
    let catalog = catalog();
    let mut state = authority();
    assert!(state.report_god_queue().is_empty());
    state
        .apply(&catalog, command(&state, "masonry", ResearchCommandKind::QueueGodPath { target: sid("masonry") }))
        .expect("queue path");
    state
        .apply(&catalog, command(&state, "fund", ResearchCommandKind::FundGodFront { consume_preparation: false }))
        .expect("fund front");
    let report = state.report_god_queue();
    assert_eq!(report.len(), 3);
    let studies: Vec<StudyId> = report.iter().map(|entry| entry.study_id.duplicate()).collect();
    assert_eq!(studies, vec![sid("apiary"), sid("plank_processing"), sid("masonry")]);
    assert!(report[0].sequence < report[1].sequence && report[1].sequence < report[2].sequence);
    assert!(matches!(report[0].funding, GodResearchFundingReport::Frozen(_)));
    assert_eq!(report[1].funding, GodResearchFundingReport::AwaitingFunding);
    assert_eq!(report[2].funding, GodResearchFundingReport::AwaitingFunding);
    assert_eq!(report[0].staffed_labor_minutes, 0);
}

#[test]
fn preparation_report_and_projection_show_requested_preparation() {
    let catalog = catalog();
    let mut state = authority();
    state
        .apply(&catalog, command(&state, "apiary", ResearchCommandKind::QueueGodPath { target: sid("apiary") }))
        .expect("queue apiary");
    let receipt = state
        .apply(&catalog, command(&state, "prepare", ResearchCommandKind::RequestPreparation { study_id: sid("apiary") }))
        .expect("request preparation");
    let required = match receipt.outcome {
        ResearchCommandOutcome::PreparationRequested { required_labor_minutes, .. } => required_labor_minutes,
        other => panic!("unexpected outcome {other:?}"),
    };
    assert!(required > 0);
    let page = state.report_preparations();
    assert!(!page.truncated);
    assert_eq!(page.entries.len(), 1);
    assert_eq!(*page.entries[0].study_id, sid("apiary"));
    assert_eq!(page.entries[0].required_labor_minutes, required);
    assert_eq!(page.entries[0].completed_labor_minutes, 0);

    let projection = state.report_safe_projection();
    assert_eq!(projection.version, state.version);
    assert_eq!(projection.notes_balance, state.notes.balance);
    assert_eq!(projection.void_balance, state.void.balance);
    assert_eq!(projection.god_queue.len(), 1);
    assert_eq!(projection.god_queue[0].study_id, sid("apiary"));
    assert!(!projection.god_queue[0].frozen);
    assert_eq!(projection.preparations.len(), 1);
    assert_eq!(projection.preparations[0].required_labor_minutes, required);
    assert!(projection.owned_finite.is_empty());
}

#[test]
fn leader_decision_report_orders_by_tick() {
    let catalog = catalog();
    let mut state = authority();
    assert!(state.report_leader_decisions().is_empty());
    state.apply(&catalog, complete_leader(&state, "zeta", "archery", 100, 3)).expect("archery");
    state.apply(&catalog, complete_leader(&state, "alpha", "astronomy", 200, 3)).expect("astronomy");
    let decisions = state.report_leader_decisions();
    assert_eq!(decisions.len(), 2);
    assert_eq!(*decisions[0].study_id, sid("archery"));
    assert_eq!(decisions[0].committed_tick, 100);
    assert_eq!(*decisions[1].study_id, sid("astronomy"));
    assert_eq!(decisions[1].committed_tick, 200);
    assert_eq!(decisions[0].effective_loremaster_level, 3);
    assert_eq!(decisions[0].duplicate_authorization, DuplicateAuthorization::Absent);
    match state.report_study_collision(&sid("archery")) {
        ResearchStudyCollisionReport::OwnedFinite => {}
        other => panic!("unexpected collision report {other:?}"),
    }
}
