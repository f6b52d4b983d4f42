use cat_sim::prosthetics::{
    BodyPart, FitAuthorization, FitSiteKind, ProstheticError, ProstheticId, ProstheticLedger,
    ProstheticLocation, ProstheticMaterial, RepairAuthorization, METAL_DURABILITY_MINUTES,
    PROSTHETIC_FUNCTION_CAP_BASIS_POINTS, WOODEN_DURABILITY_MINUTES,
};

const LEFT_FORELEG: BodyPart = BodyPart(3);

fn wooden_id(serial: u64) -> ProstheticId {
    ProstheticId::derive("colony-1", "left_foreleg", ProstheticMaterial::Wooden, serial)
}

fn fit(cat: &'static str) -> FitAuthorization<'static> {
    FitAuthorization {
        colony_id: "colony-1",
        cat_id: cat,
        part: LEFT_FORELEG,
        reservation_id: "res-1",
        fitter_id: "fitter-1",
        fitter_capable: true,
        patient_consents: true,
        site_id: "clinic-1",
        site_kind: FitSiteKind::Treatment,
        site_reachable: true,
    }
}

fn ledger_with(id: &ProstheticId) -> ProstheticLedger {
    let mut ledger = ProstheticLedger::new();
    ledger
        .register(id.clone(), ProstheticMaterial::Wooden, LEFT_FORELEG, "colony-1".to_string())
        .expect("register");
    ledger
}

#[test]
fn derived_ids_are_length_prefixed_planner_ids() {
    let id = wooden_id(7);
    assert_eq!(id.as_str(), "planner:v1|10:prosthetic|8:colony-1|12:left_foreleg|6:wooden|1:7");
}

#[test]
fn material_constants_are_exact() {
    assert_eq!(ProstheticMaterial::Wooden.stable_id(), "wooden");
    assert_eq!(ProstheticMaterial::Metal.stable_id(), "metal");
    assert_eq!(ProstheticMaterial::Wooden.restoration_basis_points(), 5_000);
    assert_eq!(ProstheticMaterial::Metal.restoration_basis_points(), 7_500);
    assert_eq!(ProstheticMaterial::Wooden.max_durability_minutes(), WOODEN_DURABILITY_MINUTES);
    assert_eq!(ProstheticMaterial::Metal.max_durability_minutes(), METAL_DURABILITY_MINUTES);
    assert_eq!(WOODEN_DURABILITY_MINUTES, 360 * 60);
    assert_eq!(METAL_DURABILITY_MINUTES, 1_080 * 60);
}

#[test]
fn registration_rejects_foreign_duplicate_and_ownerless_items() {
    let id = wooden_id(1);
    let mut ledger = ledger_with(&id);
    assert_eq!(ledger.item_count(), 1);
    assert_eq!(ledger.remaining_durability_minutes(&id), Some(WOODEN_DURABILITY_MINUTES));
    assert_eq!(
        ledger.register(id.clone(), ProstheticMaterial::Wooden, LEFT_FORELEG, "colony-1".to_string()),
        Err(ProstheticError::DuplicateId)
    );
    let other = wooden_id(2);
    assert_eq!(
        ledger.register(other, ProstheticMaterial::Wooden, LEFT_FORELEG, String::new()),
        Err(ProstheticError::InvalidAuthorization)
    );
    assert_eq!(ledger.item_count(), 1);
}

#[test]
fn fitting_reserves_then_fits_and_unfitting_returns_to_inventory() {
    let id = wooden_id(1);
    let mut ledger = ledger_with(&id);
    assert_eq!(ledger.begin_fitting(&id, false, fit("cat-1")), Err(ProstheticError::PartNotMissing));
    let mut refused = fit("cat-1");
    refused.patient_consents = false;
    assert_eq!(ledger.begin_fitting(&id, true, refused), Err(ProstheticError::PatientRefused));
    ledger.begin_fitting(&id, true, fit("cat-1")).expect("reserve");
    assert!(matches!(ledger.location(&id), Some(ProstheticLocation::FittingReservation { .. })));
    assert!(!ledger.trade_eligible(&id));
    ledger.complete_fitting(&id).expect("fit");
    assert_eq!(ledger.fitted_item("cat-1", LEFT_FORELEG), Some(&id));
    ledger.unfit(&id).expect("unfit");
    assert_eq!(ledger.fitted_item("cat-1", LEFT_FORELEG), None);
    assert_eq!(
        ledger.location(&id),
        Some(&ProstheticLocation::Inventory { colony_id: "colony-1".to_string() })
    );
}

#[test]
fn one_slot_holds_one_item() {
    let first = wooden_id(1);
    let second = wooden_id(2);
    let mut ledger = ledger_with(&first);
    ledger
        .register(second.clone(), ProstheticMaterial::Wooden, LEFT_FORELEG, "colony-1".to_string())
        .expect("register second");
    ledger.begin_fitting(&first, true, fit("cat-1")).expect("reserve");
    ledger.complete_fitting(&first).expect("fit");
    assert_eq!(ledger.begin_fitting(&second, true, fit("cat-1")), Err(ProstheticError::SlotOccupied));
}

#[test]
fn wear_breaks_the_item_and_repair_restores_it() {
    let id = wooden_id(1);
    let mut ledger = ledger_with(&id);
    ledger.begin_fitting(&id, true, fit("cat-1")).expect("reserve");
    ledger.complete_fitting(&id).expect("fit");
    assert_eq!(ledger.record_affected_work("cat-1", LEFT_FORELEG, 60), 60);
    assert_eq!(ledger.remaining_durability_minutes(&id), Some(WOODEN_DURABILITY_MINUTES - 60));
    assert_eq!(ledger.record_affected_work("cat-2", LEFT_FORELEG, 60), 0);
    assert_eq!(
        ledger.record_affected_work("cat-1", LEFT_FORELEG, u64::MAX),
        WOODEN_DURABILITY_MINUTES - 60
    );
    assert_eq!(ledger.remaining_durability_minutes(&id), Some(0));
    assert_eq!(ledger.complete_rehabilitation_stage(&id), Err(ProstheticError::Broken));
    ledger.unfit(&id).expect("unfit");
    let repair = RepairAuthorization {
        colony_id: "colony-1",
        reservation_id: "repair-1",
        workshop_id: "workshop-1",
        workshop_reachable: true,
        finite_inputs_authorized: true,
    };
    ledger.begin_repair(&id, repair).expect("reserve repair");
    ledger.complete_repair(&id).expect("repair");
    assert_eq!(ledger.remaining_durability_minutes(&id), Some(WOODEN_DURABILITY_MINUTES));
    assert_eq!(ledger.begin_repair(&id, repair), Err(ProstheticError::NotBroken));
}

#[test]
fn restored_function_adds_rehabilitation_and_adaptation_under_the_cap() {
    let id = wooden_id(1);
    let mut ledger = ledger_with(&id);
    assert_eq!(ledger.effective_part_function_basis_points(0, true, "cat-1", LEFT_FORELEG, 0), 0);
    ledger.begin_fitting(&id, true, fit("cat-1")).expect("reserve");
    ledger.complete_fitting(&id).expect("fit");
    assert_eq!(ledger.effective_part_function_basis_points(0, true, "cat-1", LEFT_FORELEG, 0), 5_000);
    ledger.complete_rehabilitation_stage(&id).expect("stage");
    ledger.complete_rehabilitation_stage(&id).expect("stage");
    assert_eq!(ledger.effective_part_function_basis_points(0, true, "cat-1", LEFT_FORELEG, 300), 5_700);
    assert_eq!(ledger.effective_part_function_basis_points(0, true, "cat-1", LEFT_FORELEG, -50), 5_400);
    assert_eq!(
        ledger.effective_part_function_basis_points(0, true, "cat-1", LEFT_FORELEG, 9_000),
        PROSTHETIC_FUNCTION_CAP_BASIS_POINTS
    );
    assert_eq!(ledger.effective_part_function_basis_points(8_000, false, "cat-1", LEFT_FORELEG, 0), 8_000);
}

#[test]
fn death_recovers_fitted_items_in_part_order() {
    let foreleg = wooden_id(1);
    let hindleg = ProstheticId::derive("colony-1", "left_hindleg", ProstheticMaterial::Metal, 2);
    let mut ledger = ledger_with(&foreleg);
    ledger
        .register(hindleg.clone(), ProstheticMaterial::Metal, BodyPart(1), "colony-1".to_string())
        .expect("register");
    let mut hind = fit("cat-1");
    hind.part = BodyPart(1);
    ledger.begin_fitting(&foreleg, true, fit("cat-1")).expect("reserve");
    ledger.complete_fitting(&foreleg).expect("fit");
    ledger.begin_fitting(&hindleg, true, hind).expect("reserve");
    ledger.complete_fitting(&hindleg).expect("fit");
    let recovered = ledger.recover_from_death("cat-1");
    assert_eq!(recovered, vec![hindleg.clone(), foreleg.clone()]);
    assert_eq!(ledger.fitted_item("cat-1", LEFT_FORELEG), None);
    assert!(ledger.trade_eligible(&foreleg));
    assert!(ledger.recover_from_death("cat-1").is_empty());
}

#[test]
fn trade_round_trip_and_delivery() {
    let id = wooden_id(1);
    let mut ledger = ledger_with(&id);
    assert_eq!(ledger.begin_trade(&id, ""), Err(ProstheticError::InvalidAuthorization));
    ledger.begin_trade(&id, "caravan-1").expect("load");
    assert_eq!(ledger.cancel_reservation(&id), Err(ProstheticError::NotReserved));
    ledger.cancel_trade(&id).expect("unload");
    assert!(ledger.trade_eligible(&id));
    ledger.begin_trade(&id, "caravan-1").expect("load");
    ledger.complete_trade(&id, "colony-2").expect("deliver");
    assert_eq!(
        ledger.location(&id),
        Some(&ProstheticLocation::Inventory { colony_id: "colony-2".to_string() })
    );
    assert_eq!(ledger.begin_fitting(&id, true, fit("cat-1")), Err(ProstheticError::WrongOwner));
    let ids = ledger.item_ids();
    assert_eq!(ids, vec![&id]);
    assert_eq!(ledger.items().len(), 1);
    assert_eq!(ledger.item(&id).map(|item| item.material), Some(ProstheticMaterial::Wooden));
}
