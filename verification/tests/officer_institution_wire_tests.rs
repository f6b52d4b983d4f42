use cat_sim::officer_expertise::{
    AppointmentId, DutyRecord, InstitutionError, LeaderDutyRecord, LeaderOffice, OfficeState, OfficerAppointment,
    OfficerInstitutionState, OFFICER_INSTITUTION_SCHEMA_VERSION,
};
use cat_sim::officers::OfficerRole;
use cat_sim::planner_core::PlannerId;

fn cat(name: &str) -> PlannerId {
    PlannerId::derive("cat", &[name])
}

fn wire_offices(state: &OfficerInstitutionState) -> Vec<OfficeState> {
    OfficerRole::ALL
        .iter()
        .map(|role| {
            let appointment = state.appointment(*role).cloned();
            OfficeState {
                role: *role,
                vacancy_occurrence: appointment.as_ref().map(|a| a.vacancy_occurrence).unwrap_or(0),
                vacant_since_tick: None,
                last_runtime_review_tick: None,
                appointment,
            }
        })
        .collect()
}

fn empty_leader() -> LeaderOffice {
    LeaderOffice { vacancy_occurrence: 0, incumbent: None, succession: None }
}

fn appointed_state() -> OfficerInstitutionState {
    let mut state = OfficerInstitutionState::new("colony".to_string()).expect("colony");
    state.open_office(OfficerRole::Steward, 5).expect("open steward");
    state.appoint_officer(OfficerRole::Steward, cat("ash"), 10).expect("steward");
    state.open_office(OfficerRole::Forester, 6).expect("open forester");
    state.appoint_officer(OfficerRole::Forester, cat("birch"), 11).expect("forester");
    state
}

fn duty(name: &str, role: OfficerRole, minutes: u64) -> DutyRecord {
    DutyRecord { cat_id: cat(name), role, completed_duty_minutes: minutes }
}

#[test]
fn a_persisted_institution_restores_offices_and_duty() {
    let state = appointed_state();
    assert_eq!(state.validate(), Ok(()));
    let mut offices = wire_offices(&state);
    offices.reverse();
    let restored = OfficerInstitutionState::from_wire(
        OFFICER_INSTITUTION_SCHEMA_VERSION,
        "colony".to_string(),
        offices,
        vec![duty("ash", OfficerRole::Steward, 120)],
        vec![LeaderDutyRecord { cat_id: cat("ash"), completed_duty_minutes: 30 }],
        empty_leader(),
    )
    .expect("valid institution");
    assert_eq!(restored.officer(OfficerRole::Steward), Some(&cat("ash")));
    assert_eq!(restored.officer(OfficerRole::Forester), Some(&cat("birch")));
    assert_eq!(restored.officer(OfficerRole::Farmer), None);
    assert_eq!(restored.leader_completed_duty_minutes(&cat("ash")), 30);
    assert_eq!(restored.validate(), Ok(()));
}

#[test]
fn persisted_institutions_reject_malformed_parts() {
    let state = appointed_state();
    let attempt = |schema: u32, offices: Vec<OfficeState>, duty: Vec<DutyRecord>, leader_duty: Vec<LeaderDutyRecord>| {
        OfficerInstitutionState::from_wire(schema, "colony".to_string(), offices, duty, leader_duty, empty_leader()).err()
    };
    let malformed = Some(InstitutionError::MalformedPersistence);
    assert_eq!(attempt(2, wire_offices(&state), Vec::new(), Vec::new()), malformed);
    let mut four = wire_offices(&state);
    four.pop();
    assert_eq!(attempt(1, four, Vec::new(), Vec::new()), malformed);
    let mut repeated = wire_offices(&state);
    repeated[4].role = OfficerRole::Farmer;
    assert_eq!(attempt(1, repeated, Vec::new(), Vec::new()), malformed);
    assert_eq!(
        attempt(
            1,
            wire_offices(&state),
            vec![duty("ash", OfficerRole::Steward, 1), duty("ash", OfficerRole::Steward, 2)],
            Vec::new()
        ),
        malformed
    );
    let twice = vec![
        LeaderDutyRecord { cat_id: cat("ash"), completed_duty_minutes: 1 },
        LeaderDutyRecord { cat_id: cat("ash"), completed_duty_minutes: 2 },
    ];
    assert_eq!(attempt(1, wire_offices(&state), Vec::new(), twice), malformed);
    let foreign = vec![DutyRecord {
        cat_id: PlannerId::from_text("not-a-planner-id".to_string()),
        role: OfficerRole::Farmer,
        completed_duty_minutes: 1,
    }];
    assert_eq!(attempt(1, wire_offices(&state), foreign, Vec::new()), malformed);
}

#[test]
fn persisted_institutions_reject_inconsistent_appointments() {
    let state = appointed_state();
    let mut doubled = wire_offices(&state);
    let ash = doubled[0].appointment.clone();
    doubled[1].appointment = ash;
    assert_eq!(
        OfficerInstitutionState::from_wire(1, "colony".to_string(), doubled, Vec::new(), Vec::new(), empty_leader()).err(),
        Some(InstitutionError::MalformedPersistence)
    );
    let mut forged = wire_offices(&state);
    forged[2].vacancy_occurrence = 1;
    forged[2].appointment = Some(OfficerAppointment {
        appointment_id: AppointmentId::from_id(cat("forged")),
        cat_id: cat("cedar"),
        appointed_tick: 3,
        vacancy_occurrence: 1,
    });
    assert_eq!(
        OfficerInstitutionState::from_wire(1, "colony".to_string(), forged, Vec::new(), Vec::new(), empty_leader()).err(),
        Some(InstitutionError::MalformedPersistence)
    );
    let mut stale_vacancy = wire_offices(&state);
    stale_vacancy[3].vacancy_occurrence = 4;
    assert_eq!(
        OfficerInstitutionState::from_wire(1, "colony".to_string(), stale_vacancy, Vec::new(), Vec::new(), empty_leader())
            .err(),
        Some(InstitutionError::MalformedPersistence)
    );
    let mut late_review = wire_offices(&state);
    late_review[0].last_runtime_review_tick = Some(1);
    assert_eq!(
        OfficerInstitutionState::from_wire(1, "colony".to_string(), late_review, Vec::new(), Vec::new(), empty_leader())
            .err(),
        Some(InstitutionError::MalformedPersistence)
    );
    let leader = LeaderOffice { vacancy_occurrence: 2, incumbent: None, succession: None };
    assert_eq!(
        OfficerInstitutionState::from_wire(1, "colony".to_string(), wire_offices(&state), Vec::new(), Vec::new(), leader)
            .err(),
        Some(InstitutionError::MalformedPersistence)
    );
}
