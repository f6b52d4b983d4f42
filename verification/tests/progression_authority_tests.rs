use cat_sim::planner_core::PlannerId;
use cat_sim::progression_authority::{ContentOperation, ManifestContentClass, RecipeFacts};
use cat_sim::progression_research::{
    ColonyPartitionKey, CurrencyEventId, LeaderDuplicateHook, LeaderTargetDecision, ManifestCapability, ManifestFacts,
    PlayerPartitionKey, ProgressionAuthority, RecipeCapabilityCheck, ProgressionCatalog, ProgressionError, ScholarAssignment,
    ScholarWorkStage, StudyId, WorkRecoveryReason,
};


fn manifest_facts(founding: &[&str], derived_capability_total: usize) -> ManifestFacts {
    ManifestFacts {
        manifest_valid: true,
        required_founding: founding.iter().map(|f| f.to_string()).collect(),
        free_founding_resources: vec!["logs".to_string(), "stone".to_string()],
        derived_capability_total,
    }
}

fn capability(id: &str, order: u32, prerequisites: &[&str]) -> ManifestCapability {
    ManifestCapability {
        id: id.to_string(),
        display_name: id.to_string(),
        order,
        founding_owned: false,
        prerequisites: prerequisites.iter().map(|p| p.to_string()).collect(),
    }
}

fn catalog() -> ProgressionCatalog {
    let mut capabilities = vec![
        ManifestCapability {
            id: "logging".to_string(),
            display_name: "Logging".to_string(),
            order: 0,
            founding_owned: true,
            prerequisites: Vec::new(),
        },
        capability("apiary", 1, &[]),
        capability("archery", 2, &[]),
        capability("plank_processing", 4, &["logging"]),
        capability("masonry", 5, &["plank_processing", "apiary"]),
    ];
    let mut order = 10;
    for axis in ["width", "depth", "darkness"] {
        for level in 1..=10 {
            capabilities.push(capability(&format!("black_hole_{axis}_{level:02}"), order, &[]));
            order += 1;
        }
    }
    ProgressionCatalog::from_capabilities(&vec!["logging".to_string()], &capabilities, &manifest_facts(&["logging"], 35))
        .expect("catalog")
}

fn colony() -> PlannerId {
    PlannerId::derive("progression-authority-test", &["colony"])
}

fn player() -> PlayerPartitionKey {
    PlayerPartitionKey { colony_id: colony(), player_id: PlannerId::derive("player", &["one"]) }
}

fn assignment() -> ScholarAssignment {
    ScholarAssignment {
        scholar_id: PlannerId::derive("scholar", &["ada"]),
        tool_id: PlannerId::derive("tool", &["quill"]),
        station_id: PlannerId::derive("station", &["desk"]),
        location_id: PlannerId::derive("location", &["library"]),
    }
}

fn sid(text: &str) -> StudyId {
    StudyId::from_capability(&text.to_string())
}

#[test]
fn scholar_notes_work_runs_to_completion_and_drains_its_credit() {
    let catalog = catalog();
    let mut state = ProgressionAuthority::new(colony());
    state.validate_against(&catalog).expect("fresh authority is valid");
    let partition = ColonyPartitionKey { colony_id: colony() };
    let id = state.queue_notes_work(&catalog, partition, assignment(), 30, 0).expect("queue notes work");
    assert_eq!(id.sequence, 1);
    assert_eq!(state.version, 1);
    assert_eq!(state.next_work_sequence, 2);
    assert_eq!(state.progress_work(&catalog, &id, 5, 1), Err(ProgressionError::InvalidWorkStage));
    state.reserve_work(&catalog, &id, 1).expect("reserve");
    state.start_work(&catalog, &id, 2).expect("start");
    assert_eq!(state.progress_work(&catalog, &id, 10, 3), Ok(ScholarWorkStage::Working));
    assert_eq!(state.progress_work(&catalog, &id, 50, 4), Ok(ScholarWorkStage::Completed));
    assert_eq!(state.work_orders[0].progress_work_minutes, 30);
    let credits = state.drain_terminal_work(&catalog, 10).expect("drain");
    assert_eq!(credits.len(), 1);
    assert_eq!(credits[0].amount.0, 30_000);
    assert_eq!(credits[0].work_id.sequence, 1);
    assert_eq!(state.notes.balance.0, 30_000);
    assert_eq!(state.retired_work_through, 1);
    assert!(state.work_orders.is_empty());
    assert_eq!(state.version, 6);
    assert_eq!(state.drain_terminal_work(&catalog, 10).expect("nothing left").len(), 0);
    assert_eq!(state.version, 6);
    assert_eq!(state.drain_terminal_work(&catalog, 0), Err(ProgressionError::CapacityExceeded));
    assert_eq!(state.reserve_work(&catalog, &id, 6), Err(ProgressionError::RetiredReplay));
}

#[test]
fn god_study_is_claimed_funded_worked_and_owned() {
    let catalog = catalog();
    let mut state = ProgressionAuthority::new(colony());
    let partition = ColonyPartitionKey { colony_id: colony() };
    let notes = state.queue_notes_work(&catalog, partition, assignment(), 30, 0).expect("queue");
    state.reserve_work(&catalog, &notes, 1).expect("reserve");
    state.start_work(&catalog, &notes, 2).expect("start");
    state.progress_work(&catalog, &notes, 30, 3).expect("complete");
    state.drain_terminal_work(&catalog, 1).expect("drain");
    assert_eq!(state.version, 5);
    state.claim_god_queue(&catalog, player(), sid("apiary"), 5).expect("claim apiary");
    assert_eq!(state.claim_god_queue(&catalog, player(), sid("apiary"), 6), Err(ProgressionError::DuplicateLaneClaim));
    assert_eq!(state.claim_god_queue(&catalog, player(), sid("masonry"), 6), Err(ProgressionError::PrerequisiteLocked));
    let event = CurrencyEventId::derive("fund", &colony(), "apiary");
    state.fund_god_study(&catalog, player(), sid("apiary"), event, 6).expect("fund apiary");
    assert_eq!(state.notes.balance.0, 10_000);
    assert!(state.funded.contains_key("apiary"));
    assert!(!state.god_queued.contains_key("apiary"));
    let work = state.queue_funded_study_work(&catalog, player(), assignment(), sid("apiary"), 7).expect("queue god work");
    assert_eq!(
        state.queue_funded_study_work(&catalog, player(), assignment(), sid("apiary"), 8),
        Err(ProgressionError::DuplicateLaneClaim)
    );
    state.reserve_work(&catalog, &work, 8).expect("reserve");
    state.start_work(&catalog, &work, 9).expect("start");
    assert_eq!(state.progress_work(&catalog, &work, 61, 10), Ok(ScholarWorkStage::Completed));
    assert!(state.owned_studies.contains_key("apiary"));
    assert!(!state.funded.contains_key("apiary"));
    let caps = state.owned_capabilities(&catalog);
    assert!(caps.contains_key("apiary"));
    assert!(caps.contains_key("logging"));
    state.validate_against(&catalog).expect("still valid");
}

#[test]
fn leader_targets_follow_the_lane_rules() {
    let catalog = catalog();
    let mut state = ProgressionAuthority::new(colony());
    assert_eq!(
        state.leader_target_decision(&sid("archery"), &LeaderDuplicateHook::Absent),
        Ok(LeaderTargetDecision::Allowed)
    );
    assert_eq!(
        state.mark_leader_target(&catalog, sid("masonry"), LeaderDuplicateHook::Absent, 0),
        Err(ProgressionError::PrerequisiteLocked)
    );
    assert_eq!(
        state.mark_leader_target(&catalog, sid("archery"), LeaderDuplicateHook::Absent, 0),
        Ok(LeaderTargetDecision::Allowed)
    );
    assert_eq!(
        state.leader_target_decision(&sid("archery"), &LeaderDuplicateHook::Absent),
        Ok(LeaderTargetDecision::ChooseAnother)
    );
    state.claim_god_queue(&catalog, player(), sid("apiary"), 1).expect("claim apiary");
    let critical = LeaderDuplicateHook::VillageCritical {
        report_marks_critical: true,
        needed_before_tick: 5,
        estimated_god_completion_tick: 50,
    };
    assert_eq!(
        state.leader_target_decision(&sid("apiary"), &critical),
        Ok(LeaderTargetDecision::VillageCriticalOverride)
    );
    let oopsie = LeaderDuplicateHook::KeyedOopsie {
        decision_key: PlannerId::derive("roll", &["1"]),
        effective_level: 0,
        keyed_roll_percent: 30,
    };
    assert_eq!(state.leader_target_decision(&sid("apiary"), &oopsie), Ok(LeaderTargetDecision::ChooseAnother));
    let candidates = vec![sid("archery"), sid("apiary"), sid("plank_processing")];
    let hooks = cat_sim::id_map::IdMap::new();
    assert_eq!(
        state.select_leader_target(&candidates, &hooks),
        Ok(Some((sid("plank_processing"), LeaderTargetDecision::Allowed)))
    );
    state.complete_free_leader_target(&catalog, &sid("archery"), 2).expect("complete archery");
    assert!(state.owned_studies.contains_key("archery"));
    assert!(!state.leader_targets.contains_key("archery"));
    assert_eq!(
        state.complete_free_leader_target(&catalog, &sid("archery"), 3),
        Err(ProgressionError::StudyNotLeaderTargeted)
    );
}

#[test]
fn work_requests_are_checked_before_anything_changes() {
    let catalog = catalog();
    let mut state = ProgressionAuthority::new(colony());
    let partition = ColonyPartitionKey { colony_id: colony() };
    let other = ColonyPartitionKey { colony_id: PlannerId::derive("other", &["colony"]) };
    assert_eq!(state.queue_notes_work(&catalog, other, assignment(), 30, 0), Err(ProgressionError::PartitionMismatch));
    assert_eq!(
        state.queue_notes_work(&catalog, partition.clone(), assignment(), 30, 4),
        Err(ProgressionError::StaleVersion)
    );
    assert_eq!(
        state.queue_notes_work(&catalog, partition.clone(), assignment(), 0, 0),
        Err(ProgressionError::MalformedRequest)
    );
    assert_eq!(
        state.queue_notes_work(&catalog, partition.clone(), assignment(), u64::MAX, 0),
        Err(ProgressionError::ArithmeticOverflow)
    );
    assert_eq!(state.version, 0);
    let id = state.queue_preparation_work(&catalog, player(), assignment(), sid("archery"), 0).expect("prepare");
    state.reserve_work(&catalog, &id, 1).expect("reserve");
    let release = state.recover_work(&catalog, &id, WorkRecoveryReason::ScholarDied, 2).expect("recover");
    assert!(release.released_reservation);
    assert_eq!(release.lost_progress_work_minutes, 0);
    assert_eq!(state.work_orders[0].stage, ScholarWorkStage::Cancelled);
    assert_eq!(
        state.recover_work(&catalog, &id, WorkRecoveryReason::ScholarDied, 3),
        Err(ProgressionError::InvalidWorkStage)
    );
    assert_eq!(
        state.queue_preparation_work(&catalog, player(), assignment(), sid("black_hole_width_01"), 3),
        Err(ProgressionError::PreparationIneligible)
    );
}

fn ready_check() -> RecipeCapabilityCheck {
    RecipeCapabilityCheck {
        recipe_id: "planks".to_string(),
        station_exists: true,
        station_tier: 2,
        physical_ingredients_ready: true,
        tools_ready: true,
        capacity_ready: true,
        workers_ready: true,
    }
}

fn recipe(bundle: &str, station: Option<Option<&str>>, ingredients: Vec<Option<Vec<&str>>>) -> Option<RecipeFacts> {
    Some(RecipeFacts {
        station_tier: 2,
        bundle_capability: bundle.to_string(),
        station_requirement: station.map(|s| s.map(|c| c.to_string())),
        ingredient_requirements: ingredients
            .into_iter()
            .map(|i| i.map(|caps| caps.into_iter().map(|c| c.to_string()).collect()))
            .collect(),
    })
}

#[test]
fn recipe_gate_checks_physical_state_then_capabilities() {
    let catalog = catalog();
    let state = ProgressionAuthority::new(colony());
    let check = ready_check();
    assert_eq!(state.guard_recipe(&catalog, &check, &None), Err(ProgressionError::UnknownContent));
    let ok = recipe("logging", Some(None), vec![Some(vec!["logging"]), Some(vec![])]);
    assert_eq!(state.guard_recipe(&catalog, &check, &ok), Ok(()));
    let low = RecipeCapabilityCheck { station_tier: 1, ..ready_check() };
    assert_eq!(state.guard_recipe(&catalog, &low, &ok), Err(ProgressionError::PhysicalPrerequisiteMissing));
    let idle = RecipeCapabilityCheck { workers_ready: false, ..ready_check() };
    assert_eq!(state.guard_recipe(&catalog, &idle, &ok), Err(ProgressionError::PhysicalPrerequisiteMissing));
    let locked = recipe("masonry", Some(None), vec![]);
    assert_eq!(state.guard_recipe(&catalog, &check, &locked), Err(ProgressionError::CapabilityLocked));
    let no_station = recipe("logging", None, vec![]);
    assert_eq!(state.guard_recipe(&catalog, &check, &no_station), Err(ProgressionError::ManifestInvalid));
    let locked_station = recipe("logging", Some(Some("masonry")), vec![]);
    assert_eq!(state.guard_recipe(&catalog, &check, &locked_station), Err(ProgressionError::CapabilityLocked));
    let unknown_ingredient = recipe("logging", Some(Some("logging")), vec![Some(vec!["logging"]), None, Some(vec!["masonry"])]);
    assert_eq!(state.guard_recipe(&catalog, &check, &unknown_ingredient), Err(ProgressionError::ManifestInvalid));
    let locked_ingredient = recipe("logging", Some(None), vec![Some(vec!["masonry"]), None]);
    assert_eq!(state.guard_recipe(&catalog, &check, &locked_ingredient), Err(ProgressionError::CapabilityLocked));
}

#[test]
fn operation_gate_checks_class_then_capabilities() {
    let catalog = catalog();
    let state = ProgressionAuthority::new(colony());
    assert_eq!(
        state.guard_operation(&catalog, None, ContentOperation::Store, Some(vec![])),
        Err(ProgressionError::UnknownContent)
    );
    assert_eq!(
        state.guard_operation(&catalog, Some(ManifestContentClass::Creature), ContentOperation::Craft, Some(vec![])),
        Err(ProgressionError::InvalidOperationClass)
    );
    assert_eq!(
        state.guard_operation(&catalog, Some(ManifestContentClass::Fixture), ContentOperation::InstallFixture, None),
        Err(ProgressionError::UnknownContent)
    );
    assert_eq!(
        state.guard_operation(
            &catalog,
            Some(ManifestContentClass::Material),
            ContentOperation::Process,
            Some(vec!["logging".to_string()])
        ),
        Ok(())
    );
    assert_eq!(
        state.guard_operation(
            &catalog,
            Some(ManifestContentClass::Item),
            ContentOperation::Augment,
            Some(vec!["logging".to_string(), "masonry".to_string()])
        ),
        Err(ProgressionError::CapabilityLocked)
    );
    assert_eq!(
        state.guard_operation(&catalog, Some(ManifestContentClass::Recipe), ContentOperation::FeedHole, Some(vec![])),
        Err(ProgressionError::InvalidOperationClass)
    );
}
