use cat_sim::officer_expertise::{
    select_appointment_candidate, AppointmentCandidate,
    appointment_candidate_limit, effective_level, officer_cadence_minutes, officer_cadence_ticks,
    personal_level, personal_level_from_completed_duty_hours, ExpertiseBonuses, ExpertiseLevel,
    InstitutionError, OfficeExpertiseSupport, OfficerInstitutionState, MAX_DUTY_RECORDS, OfficerRuntimeReview,
    report_capability, ReportCapability, ReportFlowCapability, ReportLevel,
};
use cat_sim::officers::OfficerRole;
use cat_sim::planner_core::PlannerId;

fn cat(name: &str) -> PlannerId {
    PlannerId::derive("cat", &[name])
}

fn no_bonus() -> ExpertiseBonuses {
    ExpertiseBonuses { workflow_operational: false, reinforcement_operational: false }
}

#[test]
fn personal_level_counts_only_whole_duty_hours() {
    assert_eq!(personal_level_from_completed_duty_hours(0), ExpertiseLevel::One);
    assert_eq!(personal_level_from_completed_duty_hours(23), ExpertiseLevel::One);
    assert_eq!(personal_level_from_completed_duty_hours(24), ExpertiseLevel::Two);
    assert_eq!(personal_level_from_completed_duty_hours(96), ExpertiseLevel::Three);
    assert_eq!(personal_level_from_completed_duty_hours(240), ExpertiseLevel::Four);
    assert_eq!(personal_level_from_completed_duty_hours(479), ExpertiseLevel::Four);
    assert_eq!(personal_level_from_completed_duty_hours(480), ExpertiseLevel::Five);
    assert_eq!(personal_level(24 * 60 - 1), ExpertiseLevel::One);
    assert_eq!(personal_level(24 * 60), ExpertiseLevel::Two);
}

#[test]
fn support_raises_effective_level_up_to_five() {
    let support = OfficeExpertiseSupport {
        office_id: cat("office"),
        room_operational: true,
        required_tool_id: Some(cat("tool")),
        required_tool_operational: true,
    };
    let bonuses = support.effective_bonuses();
    assert!(bonuses.workflow_operational && bonuses.reinforcement_operational);
    assert_eq!(effective_level(ExpertiseLevel::One, bonuses), ExpertiseLevel::Three);
    assert_eq!(effective_level(ExpertiseLevel::Four, bonuses), ExpertiseLevel::Five);
    assert_eq!(effective_level(ExpertiseLevel::Two, no_bonus()), ExpertiseLevel::Two);
    let toolless = OfficeExpertiseSupport { required_tool_id: None, ..support };
    assert!(!toolless.effective_bonuses().reinforcement_operational);
    assert_eq!(ExpertiseLevel::from_u8(3), Ok(ExpertiseLevel::Three));
    assert_eq!(ExpertiseLevel::from_u8(6), Err(InstitutionError::InvalidExpertiseLevel));
    assert_eq!(ExpertiseLevel::Five.as_u8(), 5);
}

#[test]
fn cadence_shortens_with_expertise_and_rounds_ticks_up() {
    assert_eq!(officer_cadence_minutes(ExpertiseLevel::One), 360);
    assert_eq!(officer_cadence_minutes(ExpertiseLevel::Five), 15);
    assert_eq!(officer_cadence_ticks(ExpertiseLevel::Three, 60), Ok(60));
    assert_eq!(officer_cadence_ticks(ExpertiseLevel::Five, 1), Ok(1));
    assert_eq!(officer_cadence_ticks(ExpertiseLevel::Four, 7), Ok(4));
    assert_eq!(officer_cadence_ticks(ExpertiseLevel::One, 0), Err(InstitutionError::InvalidClock));
    assert_eq!(officer_cadence_ticks(ExpertiseLevel::One, u64::MAX), Err(InstitutionError::TickOverflow));
    assert_eq!(appointment_candidate_limit(ExpertiseLevel::One, 10), 3);
    assert_eq!(appointment_candidate_limit(ExpertiseLevel::Four, 10), 10);
    assert_eq!(appointment_candidate_limit(ExpertiseLevel::Five, 4_000), 4_000);
}

#[test]
fn offices_open_fill_and_vacate_with_new_occurrences() {
    let mut state = OfficerInstitutionState::new("colony-1".to_string()).expect("state");
    assert!(OfficerInstitutionState::new(String::new()).is_err());
    let forester = cat("forester");
    assert_eq!(
        state.appoint_officer(OfficerRole::Forester, forester.clone(), 5),
        Err(InstitutionError::OfficeUnavailable)
    );
    let vacancy = state.open_office(OfficerRole::Forester, 10).expect("open");
    assert_eq!(vacancy.occurrence(), 0);
    assert_eq!(vacancy.as_str(), "planner:v1|15:officer_vacancy|8:colony-1|8:forester|1:0");
    assert_eq!(state.vacancy(OfficerRole::Forester).map(|(_, opened)| opened), Some(Some(10)));
    let transition = state.appoint_officer(OfficerRole::Forester, forester.clone(), 20).expect("appoint");
    assert_eq!(transition.role, OfficerRole::Forester);
    assert_eq!(transition.appointed_tick, 20);
    assert_eq!(state.officer(OfficerRole::Forester), Some(&forester));
    assert_eq!(state.open_office(OfficerRole::Forester, 30).err(), Some(InstitutionError::OfficeFilled));
    state.open_office(OfficerRole::Farmer, 20).expect("open farmer");
    assert_eq!(
        state.appoint_officer(OfficerRole::Farmer, forester.clone(), 21),
        Err(InstitutionError::CandidateAlreadyAppointed)
    );
    let next = state.officer_died(&forester, 40).expect("death").expect("vacancy");
    assert_eq!(next.occurrence(), 1);
    assert_eq!(state.officer(OfficerRole::Forester), None);
    assert_eq!(state.officer_died(&forester, 41), Ok(None));
}

#[test]
fn duty_minutes_accumulate_into_personal_levels_within_capacity() {
    let mut state = OfficerInstitutionState::new("colony-1".to_string()).expect("state");
    let scout = cat("scout");
    state.record_completed_duty_hours(scout.clone(), OfficerRole::Captain, 23).expect("record");
    assert_eq!(state.personal_level(&scout, OfficerRole::Captain), ExpertiseLevel::One);
    state.record_completed_duty_minutes(scout.clone(), OfficerRole::Captain, 60).expect("record");
    assert_eq!(state.personal_level(&scout, OfficerRole::Captain), ExpertiseLevel::Two);
    assert_eq!(state.personal_level(&scout, OfficerRole::Farmer), ExpertiseLevel::One);
    assert_eq!(
        state.record_completed_duty_minutes(scout.clone(), OfficerRole::Captain, u64::MAX),
        Err(InstitutionError::DutyOverflow)
    );
    let unprefixed = PlannerId::derive("cat", &["x"]);
    assert!(unprefixed.as_str().starts_with("planner:v1|"));
    assert_eq!(
        state.effective_level(&scout, OfficerRole::Captain, ExpertiseBonuses { workflow_operational: true, reinforcement_operational: false }),
        ExpertiseLevel::Three
    );
    assert!(MAX_DUTY_RECORDS >= 1);
}

#[test]
fn leader_succession_opens_with_deadline_and_acting_steward() {
    let mut state = OfficerInstitutionState::new("colony-1".to_string()).expect("state");
    let leader = cat("leader");
    let steward = cat("steward");
    state.set_founding_leader(leader.clone(), 0).expect("found");
    assert_eq!(state.set_founding_leader(steward.clone(), 0), Err(InstitutionError::LeaderFilled));
    state.open_office(OfficerRole::Steward, 1).expect("open");
    state.appoint_officer(OfficerRole::Steward, steward.clone(), 2).expect("appoint");
    state.record_completed_leader_duty_minutes(leader.clone(), 90).expect("duty");
    assert_eq!(state.leader_completed_duty_minutes(&leader), 90);
    assert_eq!(
        state.record_completed_leader_duty_minutes(steward.clone(), 1),
        Err(InstitutionError::LeaderMismatch)
    );
    assert_eq!(state.leader_died(&steward, 10, 60).err(), Some(InstitutionError::LeaderMismatch));
    let succession = state.leader_died(&leader, 10, 60).expect("succession");
    assert_eq!(succession.opened_tick, 10);
    assert_eq!(succession.deadline_tick, 10 + 6 * 60);
    assert_eq!(state.acting_steward(), Some(&steward));
    assert!(!state.leader_succession_due(369));
    assert!(state.leader_succession_due(370));
    let transition = state.appoint_leader(steward.clone(), 400).expect("leader");
    assert_eq!(transition.vacated_office, Some(OfficerRole::Steward));
    assert_eq!(state.leader(), Some(&steward));
    assert_eq!(state.officer(OfficerRole::Steward), None);
    assert_eq!(state.acting_steward(), None);
}

#[test]
fn runtime_reviews_fall_due_on_cadence_and_earn_duty() {
    let mut state = OfficerInstitutionState::new("colony-1".to_string()).expect("state");
    let farmer = cat("farmer");
    state.open_office(OfficerRole::Farmer, 0).expect("open");
    state.appoint_officer(OfficerRole::Farmer, farmer.clone(), 100).expect("appoint");
    assert_eq!(state.officer_runtime_due(OfficerRole::Farmer, 459, 60, no_bonus()), Ok(None));
    let review = state
        .complete_officer_runtime_review(OfficerRole::Farmer, 460, 60, no_bonus())
        .expect("review")
        .expect("due");
    assert_eq!(review.due_tick, 460);
    assert_eq!(review.effective_level, ExpertiseLevel::One);
    assert_eq!(state.personal_level(&farmer, OfficerRole::Farmer), ExpertiseLevel::One);
    assert_eq!(state.officer_runtime_due(OfficerRole::Farmer, 461, 60, no_bonus()), Ok(None));
    assert_eq!(state.officer_runtime_due(OfficerRole::Captain, 10_000, 60, no_bonus()), Ok(None));
    let hint = state.version_hint();
    assert_eq!(hint, state.version_hint());
}

#[test]
fn runtime_review_carries_the_report_capability_of_its_level() {
    let mut state = OfficerInstitutionState::new("c".to_string()).expect("state");
    let captain = cat("a");
    state.open_office(OfficerRole::Captain, 0).expect("open");
    state.appoint_officer(OfficerRole::Captain, captain.clone(), 0).expect("appoint");
    assert_eq!(state.officer_runtime_due(OfficerRole::Captain, 359, 60, no_bonus()), Ok(None));
    assert_eq!(
        state.officer_runtime_due(OfficerRole::Captain, 360, 60, no_bonus()),
        Ok(Some(OfficerRuntimeReview {
            role: OfficerRole::Captain,
            officer_id: captain.clone(),
            effective_level: ExpertiseLevel::One,
            capability: report_capability(ExpertiseLevel::One),
            due_tick: 360,
        }))
    );
    assert_eq!(
        report_capability(ExpertiseLevel::Three),
        ReportCapability { level: ReportLevel::Three, flow: ReportFlowCapability::CoarseObservedRange }
    );
    assert_eq!(state.officer_runtime_due(OfficerRole::Farmer, 360, 60, no_bonus()), Ok(None));
}

fn candidate(name: &str, merit: i64, eligible: bool) -> AppointmentCandidate {
    AppointmentCandidate { cat_id: cat(name), believed_merit: merit, eligible }
}

#[test]
fn appointment_draw_samples_by_roll_and_picks_highest_merit() {
    let candidates = vec![
        candidate("ada", 10, true),
        candidate("bea", 90, true),
        candidate("cid", 50, true),
        candidate("dot", 99, false),
        candidate("eve", 70, true),
    ];
    // Level one considers the three eligible candidates drawn first.
    let rolls = vec![5, 40, 1, 0, 3];
    let selection = select_appointment_candidate("colony-1", ExpertiseLevel::One, &candidates, &rolls)
        .expect("draw")
        .expect("selection");
    let mut expected = vec![cat("ada"), cat("cid"), cat("eve")];
    expected.sort();
    assert_eq!(selection.sampled_cat_ids, expected);
    assert_eq!(selection.selected_cat_id, cat("eve"));
    // Level five considers every eligible candidate.
    let all = select_appointment_candidate("colony-1", ExpertiseLevel::Five, &candidates, &rolls)
        .expect("draw")
        .expect("selection");
    assert_eq!(all.sampled_cat_ids.len(), 4);
    assert_eq!(all.selected_cat_id, cat("bea"));
}

#[test]
fn appointment_draw_breaks_ties_by_identifier() {
    let candidates = vec![candidate("zed", 40, true), candidate("amy", 40, true), candidate("kit", 10, true)];
    let rolls = vec![7, 7, 7];
    let selection = select_appointment_candidate("colony-1", ExpertiseLevel::One, &candidates, &rolls)
        .expect("draw")
        .expect("selection");
    assert_eq!(selection.selected_cat_id, cat("amy"));
    let two = vec![candidate("zed", 40, true), candidate("amy", 40, true), candidate("kit", 10, true), candidate("bob", 1, true)];
    let two_rolls = vec![7, 7, 7, 7];
    let sample = select_appointment_candidate("colony-1", ExpertiseLevel::One, &two, &two_rolls)
        .expect("draw")
        .expect("selection");
    let mut drawn = vec![cat("zed"), cat("amy"), cat("kit"), cat("bob")];
    drawn.sort();
    drawn.truncate(3);
    assert_eq!(sample.sampled_cat_ids, drawn);
}

#[test]
fn appointment_draw_rejects_bad_candidate_lists() {
    let rolls = vec![1, 2];
    assert_eq!(
        select_appointment_candidate("", ExpertiseLevel::One, &vec![candidate("a", 1, true), candidate("b", 1, true)], &rolls),
        Err(InstitutionError::InvalidColonyId)
    );
    let bad = AppointmentCandidate { cat_id: PlannerId::from_text("cat-a".to_string()), believed_merit: 1, eligible: true };
    assert_eq!(
        select_appointment_candidate("colony-1", ExpertiseLevel::One, &vec![candidate("a", 1, true), bad], &rolls),
        Err(InstitutionError::InvalidCandidateId)
    );
    assert_eq!(
        select_appointment_candidate("colony-1", ExpertiseLevel::One, &vec![candidate("a", 1, true), candidate("a", 2, false)], &rolls),
        Err(InstitutionError::DuplicateCandidate)
    );
    assert_eq!(
        select_appointment_candidate("colony-1", ExpertiseLevel::One, &vec![candidate("a", 1, false), candidate("b", 1, false)], &rolls),
        Ok(None)
    );
    let many: Vec<AppointmentCandidate> = (0..=4_096).map(|i| candidate(&format!("c{i}"), 0, true)).collect();
    let many_rolls = vec![0; many.len()];
    assert_eq!(
        select_appointment_candidate("colony-1", ExpertiseLevel::One, &many, &many_rolls),
        Err(InstitutionError::CandidateCapacityExceeded)
    );
}

#[test]
fn open_offices_alone_take_appointment_draws() {
    let mut state = OfficerInstitutionState::new("colony-1".to_string()).expect("state");
    let candidates = vec![candidate("ada", 10, true)];
    let rolls = vec![3];
    assert_eq!(
        state.select_for_open_office(OfficerRole::Forester, ExpertiseLevel::One, &candidates, &rolls),
        Err(InstitutionError::OfficeUnavailable)
    );
    state.open_office(OfficerRole::Forester, 10).expect("open");
    let selection = state
        .select_for_open_office(OfficerRole::Forester, ExpertiseLevel::One, &candidates, &rolls)
        .expect("draw")
        .expect("selection");
    assert_eq!(selection.selected_cat_id, cat("ada"));
    state.appoint_officer(OfficerRole::Forester, cat("ada"), 11).expect("appoint");
    assert_eq!(
        state.select_for_open_office(OfficerRole::Forester, ExpertiseLevel::One, &candidates, &rolls),
        Err(InstitutionError::OfficeFilled)
    );
}

#[test]
fn appointment_sample_holds_as_many_as_the_level_allows() {
    let names = ["ann", "ben", "cal", "dee", "eli", "fay", "gus"];
    let candidates: Vec<AppointmentCandidate> =
        names.iter().enumerate().map(|(i, name)| candidate(name, i as i64, *name != "cal")).collect();
    let rolls = vec![9, 3, 3, 7, 1, 3, 0];
    for (level, expected) in [
        (ExpertiseLevel::One, 3),
        (ExpertiseLevel::Two, 5),
        (ExpertiseLevel::Three, 6),
        (ExpertiseLevel::Four, 6),
        (ExpertiseLevel::Five, 6),
    ] {
        let selection = select_appointment_candidate("colony-1", level, &candidates, &rolls)
            .expect("draw")
            .expect("selection");
        assert_eq!(selection.sampled_cat_ids.len(), expected);
        assert_eq!(selection.sampled_cat_ids.len(), appointment_candidate_limit(level, 6));
        assert!(selection.sampled_cat_ids.windows(2).all(|pair| pair[0] < pair[1]));
    }
}
