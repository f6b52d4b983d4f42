use cat_sim::authority::{AuthorityActor, AuthorityDecision, AuthorityDenial, AuthorityDomain};
use cat_sim::id_map::IdMap;
use cat_sim::officer_expertise::ExpertiseLevel;
use cat_sim::officer_requests::{
    structured_request_budget, Confidence, OfficerRequest, OfficerRequestBook, OfficerRequestDraft,
    OfficerRequestError, OfficerRequestId, OfficerRequestPayload, OfficerRequestState, RequestBudget,
    RequestInsert, RequestKind, RequestLifetime, RequestedSpaceKind, TypedOfficerRequestDraft,
    OFFICER_REQUEST_BOOK_SCHEMA_VERSION,
};
use cat_sim::officers::OfficerRole;
use cat_sim::planner_core::{BasisPoints, PlannerId};

fn pid(name: &str) -> PlannerId {
    PlannerId::derive("test", &[name])
}

fn officer() -> AuthorityActor {
    AuthorityActor::Officer { cat_id: pid("forester"), role: OfficerRole::Forester }
}

fn draft(target: &str, urgency: i64) -> OfficerRequestDraft {
    OfficerRequestDraft {
        source_domain: AuthorityDomain::Forestry,
        target_domain: AuthorityDomain::Building,
        kind: RequestKind::Building,
        target_id: pid(target),
        quantity: 2,
        base_urgency: BasisPoints(urgency),
        rationale_id: pid("rationale"),
        evidence_ids: IdMap::new(),
        report_ids: IdMap::new(),
        confidence: Confidence(100),
        estimated_resource_cost: 10,
        estimated_labor_ticks: 30,
    }
}

fn propose(book: &mut OfficerRequestBook, target: &str, urgency: i64, tick: u64) -> Result<RequestInsert, OfficerRequestError> {
    book.propose_structured(
        &officer(),
        AuthorityDecision::Allowed,
        true,
        pid("colony"),
        pid("forester"),
        OfficerRole::Forester,
        draft(target, urgency),
        structured_request_budget(ExpertiseLevel::One),
        tick,
        60,
    )
}

fn id_of(insert: RequestInsert) -> OfficerRequestId {
    match insert {
        RequestInsert::Inserted(id) | RequestInsert::Merged(id) | RequestInsert::DuplicateId(id) => id,
    }
}

#[test]
fn lifetimes_budgets_and_transitions_are_exact() {
    assert_eq!(RequestKind::Survival.lifetime(), RequestLifetime::Survival);
    assert_eq!(RequestKind::Operational.lifetime(), RequestLifetime::Standard);
    assert_eq!(RequestKind::Trade.lifetime(), RequestLifetime::Strategic);
    assert_eq!(RequestLifetime::Strategic.game_hours(), 168);
    assert_eq!(structured_request_budget(ExpertiseLevel::Three), RequestBudget { resource_limit: 100, labor_tick_limit: 360 });
    assert!(structured_request_budget(ExpertiseLevel::One).covers(25, 60));
    assert!(!structured_request_budget(ExpertiseLevel::One).covers(-1, 0));
    assert!(OfficerRequestState::Proposed.can_transition_to(OfficerRequestState::Expired));
    assert!(OfficerRequestState::Accepted.can_transition_to(OfficerRequestState::Fulfilled));
    assert!(!OfficerRequestState::Rejected.can_transition_to(OfficerRequestState::Accepted));
    assert!(OfficerRequestState::Expired.is_terminal());
    assert!(!OfficerRequestState::Accepted.is_terminal());
}

#[test]
fn request_ids_encode_each_component() {
    let id = OfficerRequestId::derive(&pid("c"), &pid("o"), RequestKind::ActiveDefense, &pid("t"), 3);
    assert!(id.as_str().starts_with("planner:v1|15:officer_request|"));
    assert!(id.as_str().ends_with("|14:active_defense|21:planner:v1|4:test|1:t|1:3"));
}

#[test]
fn proposals_insert_then_merge_duplicates() {
    let mut book = OfficerRequestBook::new();
    let first = id_of(propose(&mut book, "hut", 100, 0).expect("insert"));
    let again = propose(&mut book, "hut", 400, 5).expect("merge");
    assert_eq!(again, RequestInsert::Merged(first.clone()));
    let request = book.get(&first).expect("stored");
    assert_eq!(request.base_urgency, BasisPoints(400));
    assert_eq!(request.expiry_tick, 168 * 60);
    assert_eq!(book.iter().len(), 1);
    assert_eq!(book.version, 2);
    assert_eq!(book.schema_version, OFFICER_REQUEST_BOOK_SCHEMA_VERSION);
}

#[test]
fn proposals_check_actor_authority_and_budget() {
    let mut book = OfficerRequestBook::new();
    let wrong = AuthorityActor::Officer { cat_id: pid("farmer"), role: OfficerRole::Farmer };
    let result = book.propose_structured(
        &wrong,
        AuthorityDecision::Allowed,
        true,
        pid("colony"),
        pid("forester"),
        OfficerRole::Forester,
        draft("hut", 0),
        structured_request_budget(ExpertiseLevel::One),
        0,
        60,
    );
    assert_eq!(result, Err(OfficerRequestError::ActorMismatch));
    let denied = book.propose_structured(
        &officer(),
        AuthorityDecision::Denied(AuthorityDenial(7)),
        true,
        pid("colony"),
        pid("forester"),
        OfficerRole::Forester,
        draft("hut", 0),
        structured_request_budget(ExpertiseLevel::One),
        0,
        60,
    );
    assert_eq!(denied, Err(OfficerRequestError::AuthorityDenied(AuthorityDenial(7))));
    let mut expensive = draft("hut", 0);
    expensive.estimated_resource_cost = 26;
    let over = book.propose_structured(
        &officer(),
        AuthorityDecision::Allowed,
        true,
        pid("colony"),
        pid("forester"),
        OfficerRole::Forester,
        expensive,
        structured_request_budget(ExpertiseLevel::One),
        0,
        60,
    );
    assert_eq!(over, Err(OfficerRequestError::BudgetExceeded));
    let unowned = book.propose_structured(
        &officer(),
        AuthorityDecision::Allowed,
        false,
        pid("colony"),
        pid("forester"),
        OfficerRole::Forester,
        draft("hut", 0),
        structured_request_budget(ExpertiseLevel::One),
        0,
        60,
    );
    assert_eq!(unowned, Err(OfficerRequestError::MalformedPersistence));
    assert_eq!(book.iter().len(), 0);
}

#[test]
fn typed_payloads_are_validated_and_distinguish_requests() {
    let mut book = OfficerRequestBook::new();
    let typed = |cells: u16| TypedOfficerRequestDraft {
        request: draft("space", 0),
        payload: OfficerRequestPayload::Space { kind: RequestedSpaceKind::Workshop, required_cells: cells },
    };
    let bad = book.propose_typed(
        &officer(),
        AuthorityDecision::Allowed,
        true,
        pid("colony"),
        pid("forester"),
        OfficerRole::Forester,
        typed(0),
        structured_request_budget(ExpertiseLevel::One),
        0,
        60,
    );
    assert_eq!(bad, Err(OfficerRequestError::MalformedPersistence));
    for cells in [4, 6] {
        let inserted = book
            .propose_typed(
                &officer(),
                AuthorityDecision::Allowed,
                true,
                pid("colony"),
                pid("forester"),
                OfficerRole::Forester,
                typed(cells),
                structured_request_budget(ExpertiseLevel::One),
                0,
                60,
            )
            .expect("insert");
        assert!(matches!(inserted, RequestInsert::Inserted(_)));
    }
    assert_eq!(book.iter().len(), 2);
}

#[test]
fn decisions_move_requests_through_their_lifecycle() {
    let mut book = OfficerRequestBook::new();
    let id = id_of(propose(&mut book, "hut", 0, 0).expect("insert"));
    let small = RequestBudget { resource_limit: 5, labor_tick_limit: 100 };
    assert_eq!(book.accept(&id, AuthorityDecision::Allowed, small, 1), Err(OfficerRequestError::BudgetExceeded));
    book.accept(&id, AuthorityDecision::Allowed, structured_request_budget(ExpertiseLevel::Five), 1).expect("accept");
    assert_eq!(book.reject(&id, AuthorityDecision::Allowed, 2), Err(OfficerRequestError::InvalidTransition));
    book.fulfill(&id, AuthorityDecision::Allowed, 3).expect("fulfill");
    let request = book.get(&id).expect("kept");
    assert_eq!(request.state, OfficerRequestState::Fulfilled);
    assert_eq!(request.terminal_tick, Some(3));
    let missing = OfficerRequestId::derive(&pid("c"), &pid("o"), RequestKind::Trade, &pid("t"), 0);
    assert_eq!(book.supersede(&missing, AuthorityDecision::Allowed, 4), Err(OfficerRequestError::MissingRequest));
}

#[test]
fn dependencies_refuse_cycles() {
    let mut book = OfficerRequestBook::new();
    let a = id_of(propose(&mut book, "a", 0, 0).expect("a"));
    let b = id_of(propose(&mut book, "b", 0, 0).expect("b"));
    let c = id_of(propose(&mut book, "c", 0, 0).expect("c"));
    assert_eq!(book.add_dependency(&a, &a), Err(OfficerRequestError::DependencyCycle));
    book.add_dependency(&a, &b).expect("a needs b");
    book.add_dependency(&b, &c).expect("b needs c");
    assert_eq!(book.add_dependency(&c, &a), Err(OfficerRequestError::DependencyCycle));
    book.add_dependency(&a, &c).expect("a needs c directly too");
}

#[test]
fn expiry_and_successor_adoption_follow_stable_id_order() {
    let mut book = OfficerRequestBook::new();
    let early = id_of(propose(&mut book, "early", 0, 0).expect("early"));
    let late = id_of(propose(&mut book, "late", 0, 1_000_000).expect("late"));
    let expired = book.expire_due(168 * 60);
    assert_eq!(expired, vec![early.clone()]);
    assert_eq!(book.get(&early).map(|r| r.state), Some(OfficerRequestState::Expired));
    assert!(book.expire_due(168 * 60).is_empty());
    let adopted = book.adopt_for_successor(OfficerRole::Forester, pid("heir"), 168 * 60);
    assert_eq!(adopted, vec![late.clone()]);
    assert_eq!(book.get(&late).and_then(|r| r.adopted_by_officer_id.clone()), Some(pid("heir")));
}

#[test]
fn urgency_ages_by_full_hours_while_proposed() {
    let request = OfficerRequest::proposed(
        OfficerRequestId::derive(&pid("c"), &pid("o"), RequestKind::Research, &pid("t"), 0),
        pid("c"),
        pid("o"),
        OfficerRole::Loremaster,
        true,
        AuthorityDomain::Research,
        AuthorityDomain::Research,
        RequestKind::Research,
        pid("t"),
        1,
        pid("why"),
        100,
        60,
    )
    .expect("proposed");
    assert_eq!(request.effective_urgency(100 + 59, 60), BasisPoints(0));
    assert_eq!(request.effective_urgency(100 + 120, 60), BasisPoints(200));
    assert_eq!(request.effective_urgency(100 + 60 * 100, 60), BasisPoints(2_500));
    assert_eq!(request.effective_urgency(0, 60), BasisPoints(0));
    assert_eq!(
        OfficerRequest::proposed(
            OfficerRequestId::derive(&pid("c"), &pid("o"), RequestKind::Research, &pid("t"), 0),
            pid("c"),
            pid("o"),
            OfficerRole::Loremaster,
            true,
            AuthorityDomain::Research,
            AuthorityDomain::Research,
            RequestKind::Research,
            pid("t"),
            1,
            pid("why"),
            u64::MAX,
            60,
        )
        .err(),
        Some(OfficerRequestError::TickOverflow)
    );
}

#[test]
fn expired_ids_come_in_ascending_order() {
    let mut book = OfficerRequestBook::new();
    let mut ids = Vec::new();
    for target in ["pier", "dock", "kiln", "barn"] {
        ids.push(id_of(propose(&mut book, target, 0, 0).expect("propose")));
    }
    let expired = book.expire_due(168 * 60);
    ids.sort();
    assert_eq!(expired, ids);
    assert!(expired.windows(2).all(|pair| pair[0] < pair[1]));
}

#[test]
fn expiry_before_the_due_tick_changes_nothing() {
    let mut book = OfficerRequestBook::new();
    let id = id_of(propose(&mut book, "mill", 0, 0).expect("propose"));
    let version = book.version;
    assert!(book.expire_due(168 * 60 - 1).is_empty());
    assert_eq!(book.version, version);
    assert_eq!(book.get(&id).expect("kept").state, OfficerRequestState::Proposed);
    assert_eq!(book.expire_due(168 * 60), vec![id.clone()]);
    let expired = book.get(&id).expect("kept");
    assert_eq!(expired.state, OfficerRequestState::Expired);
    assert_eq!(expired.terminal_tick, Some(168 * 60));
    assert_eq!(book.version, version + 1);
}
