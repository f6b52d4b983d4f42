use cat_sim::id_map::IdMap;
use cat_sim::research_purchase::{
    AutomaticResearchCapability, AutomaticStudyScoreInputs, Favor, GodResearchCurrency, GodResearchFundOutcome, GodResearchLaborOutcome,
    GodResearchStudyTerms, GodResearchTerms, GodResearchWorkAuthorization, LeaderDuplicateAuthorization,
    LeaderDuplicateAuthorizationWire, LeaderResearchDecisionInputs, LeaderResearchEventKind, LeaderResearchLaneState,
    LeaderResearchCandidate, LeaderResearchRequest, ResearchFunds, ResearchPurchaseId,
    CommitResearchPurchaseRequest, FavorDebitRecord, FavorEventId, PurchasePlan, ResearchPurchaseOutcome, ResearchPurchaseSource, ResearchPurchaseError, ResearchPurchaseState, StudyId, SyntheticResearchCatalog,
    SyntheticStudyDescriptor,
};

fn study(name: &str, prerequisites: &[&str]) -> SyntheticStudyDescriptor {
    let mut prereqs: Vec<StudyId> = prerequisites.iter().map(|p| StudyId::derive(p)).collect();
    prereqs.sort();
    SyntheticStudyDescriptor {
        id: StudyId::derive(name),
        display_name: name.to_string(),
        prerequisites: prereqs,
        undiscounted_price: Favor::from_micro_favor(1_000_000),
        tags: IdMap::new(),
    }
}

fn catalog() -> SyntheticResearchCatalog {
    SyntheticResearchCatalog::new(vec![
        study("apiary", &[]),
        study("masonry", &["apiary"]),
        study("quarrying", &["masonry"]),
        study("archery", &[]),
    ])
}

fn terms() -> GodResearchTerms {
    let mut by_study = IdMap::new();
    for (name, price) in [("apiary", 100u64), ("masonry", 200), ("quarrying", 300), ("archery", 50)] {
        by_study.insert(
            StudyId::derive(name).as_str().to_string(),
            GodResearchStudyTerms { currency: GodResearchCurrency::Notes, price, duration_game_minutes: 60 },
        );
    }
    GodResearchTerms { by_study }
}

fn queued_names(state: &ResearchPurchaseState) -> Vec<StudyId> {
    state.god_queue.entries().iter().map(|entry| entry.study_id.duplicate()).collect()
}

#[test]
fn catalog_validation_accepts_a_dag_and_refuses_a_cycle() {
    assert_eq!(catalog().validate(), Ok(()));
    let cyclic = SyntheticResearchCatalog::new(vec![study("alpha", &["beta"]), study("beta", &["alpha"])]);
    assert_eq!(cyclic.validate(), Err(ResearchPurchaseError::MalformedCatalog));
    let unknown = SyntheticResearchCatalog::new(vec![study("alpha", &["ghost"])]);
    assert_eq!(unknown.validate(), Err(ResearchPurchaseError::MalformedCatalog));
    let empty = SyntheticResearchCatalog::new(Vec::new());
    assert_eq!(empty.validate(), Err(ResearchPurchaseError::MalformedCatalog));
}

#[test]
fn god_target_queues_missing_prerequisites_first() {
    let catalog = catalog();
    let mut state = ResearchPurchaseState::new();
    let queued = state.queue_god_target(&catalog, &terms(), StudyId::derive("quarrying")).expect("queue");
    let expected = vec![StudyId::derive("apiary"), StudyId::derive("masonry"), StudyId::derive("quarrying")];
    assert_eq!(queued, expected);
    assert_eq!(queued_names(&state), expected);
    assert_eq!(state.version, 1);
    let again = state.queue_god_target(&catalog, &terms(), StudyId::derive("masonry")).expect("already queued");
    assert!(again.is_empty());
    assert_eq!(state.version, 1);
    assert_eq!(
        state.queue_god_target(&catalog, &terms(), StudyId::derive("unknown")),
        Err(ResearchPurchaseError::UnknownStudy)
    );
}

#[test]
fn funding_and_labor_complete_the_front() {
    let catalog = catalog();
    let mut state = ResearchPurchaseState::new();
    state.queue_god_target(&catalog, &terms(), StudyId::derive("masonry")).expect("queue");
    let mut funds = ResearchFunds { notes: 150, void_insight: 0 };
    assert_eq!(state.fund_god_front(&mut funds), Ok(GodResearchFundOutcome::Funded));
    assert_eq!(funds.notes, 50);
    assert_eq!(state.fund_god_front(&mut funds), Ok(GodResearchFundOutcome::AlreadyFunded));
    let work = GodResearchWorkAuthorization { completed_research_station: true, staffed_scholar_alive: true };
    assert_eq!(
        state.record_god_research_labor(&catalog, work, 20),
        Ok(GodResearchLaborOutcome::Advanced { remaining_labor_minutes: 40 })
    );
    assert_eq!(
        state.record_god_research_labor(&catalog, work, 100),
        Ok(GodResearchLaborOutcome::Completed(StudyId::derive("apiary")))
    );
    assert!(state.owned_studies.contains_key(StudyId::derive("apiary").as_str()));
    assert_eq!(queued_names(&state), vec![StudyId::derive("masonry")]);
    assert_eq!(state.fund_god_front(&mut funds), Err(ResearchPurchaseError::InsufficientGodFunds));
    assert_eq!(
        state.record_god_research_labor(&catalog, work, 10),
        Err(ResearchPurchaseError::GodFrontNotFunded)
    );
    let idle = GodResearchWorkAuthorization { completed_research_station: true, staffed_scholar_alive: false };
    assert_eq!(
        state.record_god_research_labor(&catalog, idle, 10),
        Err(ResearchPurchaseError::GodResearchInfrastructureUnavailable)
    );
}

#[test]
fn reorder_keeps_prerequisites_ahead() {
    let catalog = catalog();
    let mut state = ResearchPurchaseState::new();
    state.queue_god_target(&catalog, &terms(), StudyId::derive("masonry")).expect("queue masonry");
    state.queue_god_target(&catalog, &terms(), StudyId::derive("archery")).expect("queue archery");
    assert_eq!(
        state.reorder_god_target(&catalog, &StudyId::derive("masonry"), 0),
        Err(ResearchPurchaseError::GodQueuePrerequisiteOrder)
    );
    state.reorder_god_target(&catalog, &StudyId::derive("archery"), 0).expect("archery to front");
    assert_eq!(
        queued_names(&state),
        vec![StudyId::derive("archery"), StudyId::derive("apiary"), StudyId::derive("masonry")]
    );
    assert_eq!(
        state.reorder_god_target(&catalog, &StudyId::derive("archery"), 5),
        Err(ResearchPurchaseError::GodQueueTargetNotFound)
    );
}

#[test]
fn scores_saturate_and_quota_follows_level() {
    let inputs = AutomaticStudyScoreInputs {
        belief_basis_points: i64::MAX,
        posture_basis_points: 1,
        personality_basis_points: 0,
        dependency_basis_points: 0,
        expected_value_basis_points: 0,
    };
    assert_eq!(inputs.total_score(), i64::MAX);
    let decision = LeaderResearchDecisionInputs {
        report_score: 5,
        need_score: -2,
        intelligence_score: 3,
        personality_score: 0,
        research_skill_score: 1,
    };
    assert_eq!(decision.total_score(), 7);
    assert_eq!(LeaderResearchLaneState::quota_limit(0), 1);
    assert_eq!(LeaderResearchLaneState::quota_limit(3), 2);
    assert_eq!(LeaderResearchLaneState::quota_limit(4), 3);
    assert_eq!(LeaderResearchLaneState::quota_limit(9), 4);
    assert_eq!(LeaderResearchLaneState::new().used_in_window(10), 0);
}

#[test]
fn duplicate_authorization_kinds_and_odds() {
    assert_eq!(LeaderDuplicateAuthorization::oopsie_percent(0), 25);
    assert_eq!(LeaderDuplicateAuthorization::oopsie_percent(3), 1);
    assert_eq!(LeaderDuplicateAuthorization::oopsie_percent(7), 0);
    let emergency = LeaderDuplicateAuthorization::Emergency {
        report_indicates_urgent_need: true,
        needed_before_tick: 5,
        estimated_god_completion_tick: 10,
    };
    assert!(emergency.permits_duplicate());
    assert!(!LeaderDuplicateAuthorization::Absent.permits_duplicate());
    assert_eq!(LeaderResearchEventKind::from(emergency), LeaderResearchEventKind::IntentionalEmergencyOverride);
    assert_eq!(LeaderDuplicateAuthorizationWire::from(emergency), LeaderDuplicateAuthorizationWire::Emergency);
    let terms = GodResearchStudyTerms { currency: GodResearchCurrency::Notes, price: 1, duration_game_minutes: 10 };
    assert_eq!(terms.preparation_labor_minutes(), 3);
    assert_eq!(terms.validate(), Ok(()));
}

#[test]
fn removing_a_target_takes_its_dependents_and_refunds_the_front() {
    let catalog = catalog();
    let mut state = ResearchPurchaseState::new();
    state.queue_god_target(&catalog, &terms(), StudyId::derive("quarrying")).expect("queue");
    state.queue_god_target(&catalog, &terms(), StudyId::derive("archery")).expect("queue archery");
    let mut funds = ResearchFunds { notes: 1_000, void_insight: 0 };
    state.fund_god_front(&mut funds).expect("fund apiary");
    assert_eq!(funds.notes, 900);
    let version = state.version;
    let removal = state.remove_god_target(&catalog, &mut funds, &StudyId::derive("apiary")).expect("remove");
    assert_eq!(
        removal.removed_studies,
        vec![StudyId::derive("apiary"), StudyId::derive("masonry"), StudyId::derive("quarrying")]
    );
    assert_eq!(removal.refunded, vec![(GodResearchCurrency::Notes, 100)]);
    assert_eq!(removal.lost_labor_minutes, 0);
    assert_eq!(funds.notes, 1_000);
    assert_eq!(queued_names(&state), vec![StudyId::derive("archery")]);
    assert_eq!(state.version, version + 1);
    assert_eq!(
        state.remove_god_target(&catalog, &mut funds, &StudyId::derive("apiary")),
        Err(ResearchPurchaseError::GodQueueTargetNotFound)
    );
}

fn leader_request(state: &ResearchPurchaseState, action: &str, study: &str, level: u8, tick: u64, authorization: LeaderDuplicateAuthorization) -> LeaderResearchRequest {
    let colony = cat_sim::planner_core::PlannerId::derive("purchase-test", &["colony"]);
    LeaderResearchRequest {
        id: ResearchPurchaseId::derive("leader", &colony, action),
        study_id: StudyId::derive(study),
        expected_research_version: state.version,
        effective_loremaster_level: level,
        now_tick: tick,
        duplicate_authorization: authorization,
    }
}

#[test]
fn leader_completion_owns_the_study_and_overtakes_the_queue_only_when_authorized() {
    let catalog = catalog();
    let mut state = ResearchPurchaseState::new();
    let mut funds = ResearchFunds { notes: 1_000, void_insight: 0 };
    let done = state
        .complete_leader_research(&catalog, &mut funds, leader_request(&state, "archery", "archery", 5, 10, LeaderDuplicateAuthorization::Absent))
        .expect("archery");
    assert_eq!(done.event_kind, LeaderResearchEventKind::StandardUnlock);
    assert!(done.overtake.is_none());
    assert!(state.owned_studies.contains_key(StudyId::derive("archery").as_str()));
    assert_eq!(state.leader_lane.used_in_window(10), 1);
    assert_eq!(
        state.complete_leader_research(&catalog, &mut funds, leader_request(&state, "masonry", "masonry", 5, 11, LeaderDuplicateAuthorization::Absent)),
        Err(ResearchPurchaseError::NotFrontier)
    );
    state.queue_god_target(&catalog, &terms(), StudyId::derive("apiary")).expect("queue apiary");
    state.fund_god_front(&mut funds).expect("fund apiary");
    assert_eq!(
        state.complete_leader_research(&catalog, &mut funds, leader_request(&state, "apiary", "apiary", 5, 12, LeaderDuplicateAuthorization::Absent)),
        Err(ResearchPurchaseError::LeaderDuplicateForbidden)
    );
    let emergency = LeaderDuplicateAuthorization::Emergency {
        report_indicates_urgent_need: true,
        needed_before_tick: 20,
        estimated_god_completion_tick: 90,
    };
    let done = state
        .complete_leader_research(&catalog, &mut funds, leader_request(&state, "apiary-now", "apiary", 5, 12, emergency))
        .expect("emergency duplicate");
    assert_eq!(done.event_kind, LeaderResearchEventKind::IntentionalEmergencyOverride);
    let overtake = done.overtake.expect("queued copy removed");
    assert_eq!(overtake.removed_studies, vec![StudyId::derive("apiary")]);
    assert_eq!(overtake.refunded, vec![(GodResearchCurrency::Notes, 100)]);
    assert_eq!(funds.notes, 1_000);
    assert!(state.god_queue.entries().is_empty());
    assert_eq!(
        state.complete_leader_research(&catalog, &mut funds, leader_request(&state, "stale", "masonry", 1, 13, LeaderDuplicateAuthorization::Absent)),
        Err(ResearchPurchaseError::AutomaticQuotaExhausted)
    );
}

fn candidate(study: &str, score: i64, repeatable: bool) -> LeaderResearchCandidate {
    LeaderResearchCandidate {
        study_id: StudyId::derive(study),
        decision_inputs: LeaderResearchDecisionInputs { report_score: score, ..Default::default() },
        repeatable,
    }
}

#[test]
fn leader_selection_prefers_the_best_eligible_candidate() {
    let catalog = catalog();
    let mut state = ResearchPurchaseState::new();
    let candidates = vec![candidate("apiary", 10, false), candidate("archery", 20, false), candidate("masonry", 99, false)];
    assert_eq!(
        state.select_leader_target(&catalog, &candidates, LeaderDuplicateAuthorization::Absent),
        Ok(Some(StudyId::derive("archery")))
    );
    state.queue_god_target(&catalog, &terms(), StudyId::derive("archery")).expect("queue archery");
    let mut funds = ResearchFunds { notes: 1_000, void_insight: 0 };
    state.fund_god_front(&mut funds).expect("fund archery");
    assert_eq!(
        state.select_leader_target(&catalog, &candidates, LeaderDuplicateAuthorization::Absent),
        Ok(Some(StudyId::derive("apiary")))
    );
    let oopsie = LeaderDuplicateAuthorization::Oopsie { effective_expertise_intelligence_level: 0, keyed_roll_percent: 3 };
    let only_archery = vec![candidate("archery", 20, false)];
    assert_eq!(state.select_leader_target(&catalog, &only_archery, LeaderDuplicateAuthorization::Absent), Ok(None));
    assert_eq!(state.select_leader_target(&catalog, &only_archery, oopsie), Ok(Some(StudyId::derive("archery"))));
    assert_eq!(state.select_leader_target(&catalog, &candidates, oopsie), Ok(Some(StudyId::derive("apiary"))));
    assert_eq!(
        state.select_leader_target(&catalog, &vec![candidate("apiary", 1, true)], LeaderDuplicateAuthorization::Absent),
        Err(ResearchPurchaseError::MalformedRequest)
    );
    assert_eq!(
        state.select_leader_target(&catalog, &vec![candidate("masonry", 1, false)], LeaderDuplicateAuthorization::Absent),
        Ok(None)
    );
}

#[test]
fn frontier_lists_unowned_studies_with_owned_prerequisites() {
    let catalog = catalog();
    let mut state = ResearchPurchaseState::new();
    let names = |v: &Vec<SyntheticStudyDescriptor>| v.iter().map(|d| d.display_name.clone()).collect::<Vec<_>>();
    let mut expected = vec![("apiary", StudyId::derive("apiary")), ("archery", StudyId::derive("archery"))];
    expected.sort_by(|a, b| a.1.cmp(&b.1));
    let expected_names: Vec<String> = expected.iter().map(|e| e.0.to_string()).collect();
    assert_eq!(names(&catalog.frontier(&state).expect("frontier")), expected_names);
    state.owned_studies.insert(StudyId::derive("apiary").as_str().to_string(), ());
    let after = catalog.frontier(&state).expect("frontier");
    let mut expected = vec![("archery", StudyId::derive("archery")), ("masonry", StudyId::derive("masonry"))];
    expected.sort_by(|a, b| a.1.cmp(&b.1));
    let expected_names: Vec<String> = expected.iter().map(|e| e.0.to_string()).collect();
    assert_eq!(names(&after), expected_names);
    let broken = SyntheticResearchCatalog::new(Vec::new());
    assert_eq!(broken.frontier(&state).err(), Some(ResearchPurchaseError::MalformedCatalog));
}

fn purchase_request(state: &ResearchPurchaseState, action: &str, study: &str, discount: u16, prepared: bool) -> CommitResearchPurchaseRequest {
    let colony = cat_sim::planner_core::PlannerId::derive("purchase-test", &["colony"]);
    CommitResearchPurchaseRequest {
        id: ResearchPurchaseId::derive("player", &colony, action),
        colony_id: colony,
        source: ResearchPurchaseSource::Player,
        study_id: StudyId::derive(study),
        expected_research_version: state.version,
        expected_favor_version: 0,
        discount_basis_points: discount,
        consume_preparation: prepared,
        now_tick: 5,
    }
}

#[test]
fn purchases_are_planned_then_recorded_and_replays_need_no_charge() {
    let catalog = catalog();
    let mut state = ResearchPurchaseState::new();
    let request = purchase_request(&state, "buy-apiary", "apiary", 2_500, true);
    let plan = state.plan_purchase(&catalog, &request).expect("plan");
    let (undiscounted, charged, version) = match plan {
        PurchasePlan::Charge { undiscounted_price, charged_price, committed_research_version } => {
            (undiscounted_price, charged_price, committed_research_version)
        }
        other => panic!("unexpected plan {other:?}"),
    };
    assert_eq!(undiscounted, Favor::from_micro_favor(1_000_000));
    assert_eq!(charged, Favor::from_micro_favor(750_000));
    assert_eq!(version, 1);
    let debit = FavorDebitRecord {
        favor_event_id: FavorEventId::from_planner_id(cat_sim::planner_core::PlannerId::derive("favor", &["apiary"])),
        committed_favor_version: 1,
        already_committed: false,
    };
    assert_eq!(state.record_purchase(&catalog, &request, undiscounted, charged, version, debit), ResearchPurchaseOutcome::Committed);
    assert_eq!(state.version, 1);
    assert!(state.owned_studies.contains_key(StudyId::derive("apiary").as_str()));
    assert!(matches!(state.plan_purchase(&catalog, &request), Ok(PurchasePlan::AlreadyCommitted { .. })));
    let next = purchase_request(&state, "buy-next", "archery", 0, false);
    assert!(!matches!(state.plan_purchase(&catalog, &next), Err(ResearchPurchaseError::MalformedPersistence)));
    let conflicting = CommitResearchPurchaseRequest { study_id: StudyId::derive("archery"), ..request.clone() };
    assert_eq!(state.plan_purchase(&catalog, &conflicting), Err(ResearchPurchaseError::PurchaseIdConflict));
    let bad_terms = purchase_request(&state, "bad", "archery", 2_500, false);
    assert_eq!(state.plan_purchase(&catalog, &bad_terms), Err(ResearchPurchaseError::MalformedRequest));
    let locked = purchase_request(&state, "quarry", "quarrying", 0, false);
    assert_eq!(state.plan_purchase(&catalog, &locked), Err(ResearchPurchaseError::NotFrontier));
    let stale = CommitResearchPurchaseRequest { expected_research_version: 0, ..purchase_request(&state, "stale", "archery", 0, false) };
    assert_eq!(state.plan_purchase(&catalog, &stale), Err(ResearchPurchaseError::StaleResearchVersion));
}

#[test]
fn automatic_selection_takes_the_best_affordable_frontier_study() {
    let catalog = catalog();
    let state = ResearchPurchaseState::new();
    let mut scores = IdMap::new();
    scores.insert(
        StudyId::derive("archery").as_str().to_string(),
        AutomaticStudyScoreInputs { belief_basis_points: 50, ..Default::default() },
    );
    let (pick, score) = state
        .select_automatic_purchase(&catalog, Favor::from_micro_favor(1_000_000), &scores, 1, 10)
        .expect("pick");
    assert_eq!(pick, StudyId::derive("archery"));
    assert_eq!(score, 50);
    assert_eq!(
        state.select_automatic_purchase(&catalog, Favor::from_micro_favor(10), &scores, 1, 10),
        Err(ResearchPurchaseError::NoAffordableFrontier)
    );
    assert_eq!(
        state.select_automatic_purchase(&catalog, Favor::from_micro_favor(1_000_000), &scores, 0, 10),
        Err(ResearchPurchaseError::AutomaticQuotaExhausted)
    );
}

#[test]
fn automatic_quota_grows_with_the_effective_loremaster_level() {
    assert_eq!(AutomaticResearchCapability::BeforeEffectiveLoremaster.quota_limit(), 1);
    let limits: Vec<usize> =
        (1..=5).map(|level| AutomaticResearchCapability::EffectiveLoremaster(level).quota_limit()).collect();
    assert_eq!(limits, vec![1, 2, 2, 3, 4]);
}
