use cat_sim::planner_core::PlannerId;
use cat_sim::progression_research::{
    parse_hole_axis, ColonyPartitionKey, CurrencyCommitOutcome, CurrencyEventId, HoleAxis, HoleVoidCreditPayload,
    ManifestCapability, ManifestFacts, ProgressionCatalog, ProgressionError, ResearchNotes, ResearchNotesLedger,
    ResearchNotesSpendRequest, StudyId, StudyKind, VoidDebitPurpose, VoidInsight, VoidInsightLedger,
    VoidSpendRequest, MAX_STUDIES,
};


fn manifest_facts(founding: &[&str], derived_capability_total: usize) -> ManifestFacts {
    ManifestFacts {
        manifest_valid: true,
        required_founding: founding.iter().map(|f| f.to_string()).collect(),
        free_founding_resources: vec!["logs".to_string(), "stone".to_string()],
        derived_capability_total,
    }
}

fn colony() -> PlannerId {
    PlannerId::derive("progression-test", &["colony"])
}

fn event(action: &str) -> CurrencyEventId {
    CurrencyEventId::derive("test", &colony(), action)
}

fn notes_request(action: &str, micro: u64, version: u64, fingerprint: u64) -> ResearchNotesSpendRequest {
    ResearchNotesSpendRequest {
        id: event(action),
        amount: ResearchNotes::from_micro(micro),
        expected_version: version,
        fingerprint,
    }
}

fn funded_notes() -> ResearchNotesLedger {
    let mut ledger = ResearchNotesLedger::new(colony());
    ledger.balance = ResearchNotes::from_micro(5_000_000);
    ledger
}

#[test]
fn fixed_amounts_convert_whole_units_and_check_overflow() {
    assert_eq!(ResearchNotes::from_whole(3), Some(ResearchNotes::from_micro(3_000_000)));
    assert_eq!(ResearchNotes::from_whole(u64::MAX), None);
    assert_eq!(ResearchNotes::one().micro(), 1_000_000);
    assert_eq!(VoidInsight::zero().micro(), 0);
    assert_eq!(
        ResearchNotes::from_micro(u64::MAX).checked_add(ResearchNotes::one()),
        Err(ProgressionError::ArithmeticOverflow)
    );
    assert_eq!(
        VoidInsight::from_micro(1).checked_sub(VoidInsight::from_micro(2)),
        Err(ProgressionError::InsufficientCurrency)
    );
    assert_eq!(
        VoidInsight::from_micro(5).checked_sub(VoidInsight::from_micro(2)),
        Ok(VoidInsight::from_micro(3))
    );
}

#[test]
fn notes_debit_commits_once_and_replays_as_already_committed() {
    let mut ledger = funded_notes();
    assert!(ledger.validate().is_ok());
    assert_eq!(ledger.debit(notes_request("buy", 2_000_000, 0, 7)), Ok(CurrencyCommitOutcome::Committed));
    assert_eq!(ledger.balance, ResearchNotes::from_micro(3_000_000));
    assert_eq!(ledger.version, 1);
    assert_eq!(ledger.spends.len(), 1);
    assert_eq!(ledger.debit(notes_request("buy", 2_000_000, 0, 7)), Ok(CurrencyCommitOutcome::AlreadyCommitted));
    assert_eq!(ledger.balance, ResearchNotes::from_micro(3_000_000));
    assert_eq!(ledger.version, 1);
    assert_eq!(ledger.debit(notes_request("buy", 2_000_000, 0, 8)), Err(ProgressionError::IdempotencyConflict));
    assert_eq!(ledger.debit(notes_request("buy", 1_000_000, 1, 7)), Err(ProgressionError::IdempotencyConflict));
}

#[test]
fn notes_debit_rejects_zero_stale_and_overdrawn_spends_without_change() {
    let mut ledger = funded_notes();
    assert_eq!(ledger.debit(notes_request("zero", 0, 0, 1)), Err(ProgressionError::MalformedRequest));
    assert_eq!(ledger.debit(notes_request("stale", 1, 3, 1)), Err(ProgressionError::StaleVersion));
    assert_eq!(ledger.debit(notes_request("big", 6_000_000, 0, 1)), Err(ProgressionError::InsufficientCurrency));
    assert_eq!(ledger.version, 0);
    assert_eq!(ledger.balance, ResearchNotes::from_micro(5_000_000));
    assert_eq!(ledger.spends.len(), 0);
}

#[test]
fn notes_debit_applies_backpressure_at_the_receipt_cap() {
    let mut ledger = ResearchNotesLedger::new(colony());
    ledger.balance = ResearchNotes::from_micro(u64::MAX);
    for index in 0..512u64 {
        let action = format!("spend-{index}");
        assert_eq!(
            ledger.debit(notes_request(&action, 1, index, index)),
            Ok(CurrencyCommitOutcome::Committed)
        );
    }
    assert_eq!(ledger.debit(notes_request("one-more", 1, 512, 0)), Err(ProgressionError::Backpressure));
}

#[test]
fn notes_debit_refuses_a_malformed_persisted_ledger() {
    let mut ledger = funded_notes();
    ledger.schema_version = 9;
    assert_eq!(ledger.validate(), Err(ProgressionError::MalformedPersistence));
    assert_eq!(ledger.debit(notes_request("buy", 1, 0, 1)), Err(ProgressionError::MalformedPersistence));
    assert_eq!(ledger.balance, ResearchNotes::from_micro(5_000_000));
}

#[test]
fn scholar_work_retires_in_sequence_and_credits_once() {
    let mut ledger = ResearchNotesLedger::new(colony());
    assert_eq!(ledger.advance_scholar_work(2, None), Err(ProgressionError::NonCanonicalSequence));
    assert_eq!(
        ledger.advance_scholar_work(1, Some(ResearchNotes::from_micro(60_000))),
        Ok(CurrencyCommitOutcome::Committed)
    );
    assert_eq!(ledger.balance, ResearchNotes::from_micro(60_000));
    assert_eq!(
        ledger.advance_scholar_work(1, Some(ResearchNotes::from_micro(60_000))),
        Ok(CurrencyCommitOutcome::RetiredReplay)
    );
    assert_eq!(ledger.balance, ResearchNotes::from_micro(60_000));
    assert_eq!(
        ledger.advance_scholar_work(2, Some(ResearchNotes::zero())),
        Err(ProgressionError::MalformedRequest)
    );
    assert_eq!(ledger.advance_scholar_work(2, None), Ok(CurrencyCommitOutcome::Committed));
    assert_eq!(ledger.retired_work_through, 2);
    assert_eq!(ledger.version, 2);
}

#[test]
fn void_feed_credits_in_order_and_retires_replays() {
    let mut ledger = VoidInsightLedger::new(colony());
    let payload = |sequence: u64, micro: u64| HoleVoidCreditPayload {
        partition: ColonyPartitionKey { colony_id: colony() },
        feed_sequence: sequence,
        amount: VoidInsight::from_micro(micro),
    };
    assert_eq!(ledger.credit_hole_feed(payload(2, 10)), Err(ProgressionError::NonCanonicalSequence));
    assert_eq!(ledger.credit_hole_feed(payload(1, 0)), Err(ProgressionError::PartitionMismatch));
    assert_eq!(ledger.credit_hole_feed(payload(1, 4_000_000)), Ok(CurrencyCommitOutcome::Committed));
    assert_eq!(ledger.credit_hole_feed(payload(1, 4_000_000)), Ok(CurrencyCommitOutcome::RetiredReplay));
    assert_eq!(ledger.balance, VoidInsight::from_micro(4_000_000));
    let other = HoleVoidCreditPayload {
        partition: ColonyPartitionKey { colony_id: PlannerId::derive("progression-test", &["other"]) },
        feed_sequence: 2,
        amount: VoidInsight::from_micro(1),
    };
    assert_eq!(ledger.credit_hole_feed(other), Err(ProgressionError::PartitionMismatch));
    assert_eq!(ledger.credited_feed_through, 1);
    assert_eq!(ledger.version, 1);
}

#[test]
fn void_debit_records_its_purpose_and_is_idempotent() {
    let mut ledger = VoidInsightLedger::new(colony());
    ledger.balance = VoidInsight::from_micro(10_000_000);
    let request = VoidSpendRequest {
        id: event("hole"),
        amount: VoidInsight::from_micro(3_000_000),
        purpose: VoidDebitPurpose::HoleStudy,
        expected_version: 0,
        fingerprint: 11,
    };
    assert_eq!(ledger.debit(request.clone()), Ok(CurrencyCommitOutcome::Committed));
    assert_eq!(ledger.debit(request), Ok(CurrencyCommitOutcome::AlreadyCommitted));
    assert_eq!(ledger.balance, VoidInsight::from_micro(7_000_000));
    let receipt = ledger.spends.get(event("hole").as_str()).expect("receipt");
    assert_eq!(receipt.void_purpose, Some(VoidDebitPurpose::HoleStudy));
    assert_eq!(receipt.committed_version, 1);
}

#[test]
fn hole_axis_ids_name_two_character_levels_one_to_ten() {
    let study = |text: &str| StudyId::from_capability(&text.to_string());
    assert_eq!(parse_hole_axis(&study("black_hole_width_05")), Some((HoleAxis::Width, 5)));
    assert_eq!(parse_hole_axis(&study("black_hole_depth_10")), Some((HoleAxis::Depth, 10)));
    assert_eq!(parse_hole_axis(&study("black_hole_darkness_01")), Some((HoleAxis::Darkness, 1)));
    assert_eq!(parse_hole_axis(&study("black_hole_width_+7")), Some((HoleAxis::Width, 7)));
    assert_eq!(parse_hole_axis(&study("black_hole_width_5")), None);
    assert_eq!(parse_hole_axis(&study("black_hole_width_11")), None);
    assert_eq!(parse_hole_axis(&study("black_hole_width_00")), None);
    assert_eq!(parse_hole_axis(&study("black_hole_width_x1")), None);
    assert_eq!(parse_hole_axis(&study("plank_processing")), None);
}

fn capability(id: &str, order: u32, prerequisites: &[&str]) -> ManifestCapability {
    ManifestCapability {
        id: id.to_string(),
        display_name: id.to_string(),
        order,
        founding_owned: false,
        prerequisites: prerequisites.iter().map(|p| p.to_string()).collect(),
    }
}

fn manifest_capabilities() -> Vec<ManifestCapability> {
    let mut capabilities = vec![
        ManifestCapability {
            id: "logging".to_string(),
            display_name: "Logging".to_string(),
            order: 0,
            founding_owned: true,
            prerequisites: Vec::new(),
        },
        capability("plank_processing", 3, &["logging"]),
        capability("masonry", 4, &["plank_processing"]),
    ];
    let mut order = 10;
    for axis in ["width", "depth", "darkness"] {
        for level in 1..=10 {
            capabilities.push(capability(&format!("black_hole_{axis}_{level:02}"), order, &[]));
            order += 1;
        }
    }
    capabilities
}

#[test]
fn catalog_derives_studies_costs_and_boosts_from_capabilities() {
    let founding = vec!["logging".to_string()];
    let catalog = ProgressionCatalog::from_capabilities(&founding, &manifest_capabilities(), &manifest_facts(&["logging"], 33))
        .expect("catalog");
    assert_eq!(catalog.derived_study_total(), 2 + 30 + 4 + 22);
    assert_eq!(catalog.derived_capability_study_total(), 32);
    assert_eq!(catalog.hole_axis_studies().len(), 30);
    assert_eq!(catalog.boost_unlock_studies().len(), 4);
    assert!(catalog.founding_capabilities().contains_key("logging"));
    let plank = catalog.study(&StudyId::from_capability(&"plank_processing".to_string())).expect("plank");
    assert_eq!(plank.cost_micro, 40_000);
    assert_eq!(plank.required_work_minutes, 63);
    assert_eq!(plank.prerequisites.len(), 0);
    let masonry = catalog.study(&StudyId::from_capability(&"masonry".to_string())).expect("masonry");
    assert!(masonry.prerequisites.contains_key("plank_processing"));
    let hole = catalog.study(&StudyId::from_capability(&"black_hole_depth_03".to_string())).expect("hole");
    assert_eq!(hole.kind, StudyKind::HoleAxis { axis: HoleAxis::Depth, level: 3 });
    assert_eq!(hole.cost_micro, 3_000_000);
    let economy = catalog.study(&StudyId::from_capability(&"divine_economy_11".to_string())).expect("economy");
    assert_eq!(economy.kind, StudyKind::BoostEconomy { stage: 11 });
    assert_eq!(economy.cost_micro, 33_000_000);
    assert_eq!(economy.required_work_minutes, 660);
    assert!(economy.prerequisites.contains_key("divine_economy_10"));
    let boost = catalog.study(&StudyId::from_capability(&"divine_boost_fleet_paws".to_string())).expect("boost");
    assert_eq!(boost.display_name, "FleetPaws");
    assert_eq!(boost.order, 10_001);
    let duration = catalog.study(&StudyId::from_capability(&"divine_duration_01".to_string())).expect("duration");
    assert_eq!(duration.display_name, "divine_duration 1");
    assert_eq!(duration.order, 10_004);
}

#[test]
fn catalog_rejects_malformed_capability_sets() {
    let founding = vec!["logging".to_string()];
    let mut missing_plank = manifest_capabilities();
    missing_plank.retain(|c| c.id != "plank_processing" && c.id != "masonry");
    assert_eq!(
        ProgressionCatalog::from_capabilities(&founding, &missing_plank, &manifest_facts(&["logging"], 31)),
        Err(ProgressionError::ManifestInvalid)
    );
    let mut missing_level = manifest_capabilities();
    missing_level.retain(|c| c.id != "black_hole_width_07");
    assert_eq!(
        ProgressionCatalog::from_capabilities(&founding, &missing_level, &manifest_facts(&["logging"], 32)),
        Err(ProgressionError::ManifestInvalid)
    );
    let mut duplicate = manifest_capabilities();
    duplicate.push(capability("masonry", 9, &[]));
    assert_eq!(ProgressionCatalog::from_capabilities(&founding, &duplicate, &manifest_facts(&["logging"], 34)),
        Err(ProgressionError::ManifestInvalid));
    assert_eq!(
        ProgressionCatalog::from_capabilities(&Vec::new(), &manifest_capabilities(), &manifest_facts(&["logging"], 33)),
        Err(ProgressionError::ManifestInvalid)
    );
    let too_many: Vec<ManifestCapability> =
        (0..=MAX_STUDIES).map(|index| capability(&format!("cap_{index}"), 1, &[])).collect();
    assert_eq!(ProgressionCatalog::from_capabilities(&founding, &too_many, &manifest_facts(&["logging"], 258)),
        Err(ProgressionError::CapacityExceeded));
}

#[test]
fn catalog_rejects_manifests_whose_own_facts_disagree() {
    let founding = vec!["logging".to_string()];
    let capabilities = manifest_capabilities();
    let mut invalid = manifest_facts(&["logging"], 33);
    invalid.manifest_valid = false;
    assert_eq!(
        ProgressionCatalog::from_capabilities(&founding, &capabilities, &invalid),
        Err(ProgressionError::ManifestInvalid)
    );
    let too_many: Vec<ManifestCapability> =
        (0..=MAX_STUDIES).map(|index| capability(&format!("cap_{index}"), 1, &[])).collect();
    assert_eq!(
        ProgressionCatalog::from_capabilities(&founding, &too_many, &invalid),
        Err(ProgressionError::ManifestInvalid)
    );
    assert_eq!(
        ProgressionCatalog::from_capabilities(&founding, &capabilities, &manifest_facts(&["logging", "fishing"], 33)),
        Err(ProgressionError::ManifestInvalid)
    );
    assert_eq!(
        ProgressionCatalog::from_capabilities(&founding, &capabilities, &manifest_facts(&[], 33)),
        Err(ProgressionError::ManifestInvalid)
    );
    let mut no_stone = manifest_facts(&["logging"], 33);
    no_stone.free_founding_resources = vec!["logs".to_string()];
    assert_eq!(
        ProgressionCatalog::from_capabilities(&founding, &capabilities, &no_stone),
        Err(ProgressionError::ManifestInvalid)
    );
    let mut no_logs = manifest_facts(&["logging"], 33);
    no_logs.free_founding_resources = vec!["stone".to_string(), "clay".to_string()];
    assert_eq!(
        ProgressionCatalog::from_capabilities(&founding, &capabilities, &no_logs),
        Err(ProgressionError::ManifestInvalid)
    );
    assert_eq!(
        ProgressionCatalog::from_capabilities(&founding, &capabilities, &manifest_facts(&["logging"], 32)),
        Err(ProgressionError::ManifestInvalid)
    );
    assert_eq!(
        ProgressionCatalog::from_capabilities(&founding, &capabilities, &manifest_facts(&["logging"], 34)),
        Err(ProgressionError::ManifestInvalid)
    );
    let repeated = vec!["logging".to_string(), "logging".to_string()];
    let catalog = ProgressionCatalog::from_capabilities(&repeated, &capabilities, &manifest_facts(&["logging"], 33));
    assert!(catalog.is_ok());
}
