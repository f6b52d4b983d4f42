use cat_sim::research_manifest::{
    build_manifest, is_obsolete_stable_id, CatalogNodeFacts, ManifestEffect, ManifestEffectHandler, ManifestStudy,
    ManifestStudySource, ManifestTrack, ResearchManifest, ResearchManifestError, TrackFault,
};

const TRACKS: [&str; 14] = [
    "logistics",
    "construction",
    "scholarship",
    "governance",
    "welfare",
    "exploration",
    "defense_doctrine",
    "combat_doctrine",
    "storage",
    "agriculture",
    "water_management",
    "craftsmanship",
    "trade",
    "resilience",
];
const SUFFIXES: [&str; 11] = [
    "basics",
    "coordination",
    "standards",
    "instruments",
    "training",
    "networks",
    "specialization",
    "optimization",
    "resilience",
    "excellence",
    "mastery",
];

fn node(id: &str, prerequisites: &[&str], cost_units: u64, target: &str) -> CatalogNodeFacts {
    CatalogNodeFacts {
        id: id.to_string(),
        name: id.replace('_', " "),
        prerequisites: prerequisites.iter().map(|p| p.to_string()).collect(),
        cost_units,
        payloads: vec![ManifestEffect::CatalogPayload {
            handler: ManifestEffectHandler::CatalogModifyEffect,
            target_id: target.to_string(),
        }],
    }
}

fn modifier_source() -> Vec<CatalogNodeFacts> {
    let mut nodes = Vec::new();
    for track in TRACKS {
        for (index, suffix) in SUFFIXES.iter().enumerate() {
            let id = format!("{track}_{suffix}");
            let previous = if index == 0 { Vec::new() } else { vec![format!("{track}_{}", SUFFIXES[index - 1])] };
            let previous: Vec<&str> = previous.iter().map(|p| p.as_str()).collect();
            nodes.push(node(&id, &previous, index as u64 + 1, track));
        }
    }
    nodes
}

fn manifest() -> ResearchManifest {
    build_manifest(&modifier_source()).expect("manifest")
}

#[test]
fn built_manifest_derives_its_totals() {
    let manifest = manifest();
    assert_eq!(manifest.study_count(), 154 + 44 + 20 + 8 + 44);
    let totals = manifest.validate_lai58_graph().expect("graph");
    assert_eq!(totals, manifest.graph_totals());
    assert_eq!(totals.projected_node_count, 270);
    assert_eq!(totals.raw_node_count, 116);
    assert_eq!(totals.track_count, 14);
    assert_eq!(totals.and_junction_count, 62);
    assert_eq!(totals.curated_junction_count, 8);
    for (index, study) in manifest.studies().iter().enumerate() {
        assert_eq!(study.order_index, index);
    }
}

#[test]
fn global_modifier_tracks_end_in_a_doubled_repeatable_terminal() {
    let manifest = manifest();
    let track = manifest.global_modifier_track_studies("storage");
    assert_eq!(track.len(), 11);
    for (index, study) in track.iter().enumerate() {
        assert_eq!(study.stage, Some(index as u8 + 1));
        assert_eq!(study.repeatable_terminal, index == 10);
    }
    assert_eq!(track[9].cost_units, 10);
    assert_eq!(track[10].cost_units, 20);
    assert_eq!(manifest.repeat_cost_units("storage_mastery", 0), Ok(20));
    assert_eq!(manifest.repeat_cost_units("storage_mastery", 3), Ok(160));
    assert_eq!(
        manifest.repeat_cost_units("storage_mastery", 64),
        Err(ResearchManifestError::MalformedRepeatable("storage_mastery".to_string()))
    );
    assert_eq!(
        manifest.repeat_cost_units("storage_basics", 0),
        Err(ResearchManifestError::MalformedRepeatable("storage_basics".to_string()))
    );
    assert_eq!(
        manifest.repeat_cost_units("missing", 0),
        Err(ResearchManifestError::MalformedRepeatable("missing".to_string()))
    );
}

#[test]
fn additive_tracks_chain_eleven_stages() {
    let manifest = manifest();
    let economy = manifest.track_studies(ManifestTrack::DivineEconomy);
    assert_eq!(economy.len(), 11);
    assert_eq!(economy[0].stable_id, "divine_economy_stage_01");
    assert_eq!(economy[0].prerequisites, vec!["void_insight_studies".to_string()]);
    assert_eq!(economy[4].prerequisites, vec!["divine_economy_stage_04".to_string()]);
    assert_eq!(economy[10].effects, vec![ManifestEffect::DivineEconomy { stage: 11, discount_basis_points: 3_300 }]);
    assert_eq!(economy[2].display_name, "Divine Economy Stage 03");
    let administration = manifest.track_studies(ManifestTrack::Administration);
    assert_eq!(
        administration[2].effects,
        vec![ManifestEffect::Administration { stage: 3, standing_order_slots: 6, strategic_intent_slots: 5 }]
    );
    let duration = manifest.track_studies(ManifestTrack::DivineDuration);
    assert_eq!(duration[9].effects, vec![ManifestEffect::DivineDuration { stage: 10, max_duration_game_hours: 21 }]);
    assert_eq!(ManifestTrack::Rehabilitation.root_prerequisite(), "prosthetic_rehabilitation");
    assert_eq!(ManifestTrack::DivineDuration.stable_prefix(), "divine_duration");
    assert_eq!(ManifestTrack::Administration.display_name(), "Administration");
}

#[test]
fn every_study_is_reachable_and_the_frontier_needs_nothing() {
    let manifest = manifest();
    let reachable = manifest.reachable_study_ids();
    assert_eq!(reachable.len(), manifest.study_count());
    let frontier = manifest.starting_frontier_ids();
    assert_eq!(frontier.len(), 14 + 3);
    assert_eq!(frontier[0], "logistics_basics");
    assert!(frontier.contains(&"typed_food_handling"));
    assert!(frontier.contains(&"governance_foundations"));
    assert!(frontier.contains(&"plank_processing"));
}

#[test]
fn building_studies_grant_only_their_permits() {
    let manifest = manifest();
    let homes = manifest.building_permit_ids("family_homes");
    assert_eq!(homes.len(), 1);
    assert!(homes.contains_key("family_home"));
    assert_eq!(manifest.building_permit_ids("cookhouse").len(), 1);
    assert_eq!(manifest.building_permit_ids("apple_ecology").len(), 0);
    assert_eq!(manifest.building_permit_ids("missing").len(), 0);
    let fishing = manifest.get("fishing_hut").expect("fishing hut");
    assert_eq!(
        fishing.effects,
        vec![ManifestEffect::CatalogPayload {
            handler: ManifestEffectHandler::CatalogUnlockBuilding,
            target_id: "fishing_hut".to_string(),
        }]
    );
    assert!(manifest.get("shrine").is_none());
}

#[test]
fn obsolete_source_studies_are_removed_and_their_prerequisites_promoted() {
    assert!(is_obsolete_stable_id("Shrine_Lore"));
    assert!(is_obsolete_stable_id("den_stores"));
    assert!(is_obsolete_stable_id("dry_food"));
    assert!(!is_obsolete_stable_id("storage_basics"));
    let mut source = modifier_source();
    source.push(node("old_favor_rites", &["logistics_basics", "trade_basics"], 3, "rites"));
    source.push(node("coin_counting", &["old_favor_rites"], 3, "counting"));
    source.push(node("ledger_keeping", &["coin_counting", "storage_basics"], 4, "ledgers"));
    source.push(node("dockyards", &["logistics_basics"], 2, "generic_food_stock"));
    let manifest = build_manifest(&source).expect("manifest");
    assert!(manifest.get("old_favor_rites").is_none());
    assert!(manifest.get("coin_counting").is_none());
    assert!(manifest.get("dockyards").is_none());
    let ledger = manifest.get("ledger_keeping").expect("ledger keeping");
    assert_eq!(
        ledger.prerequisites,
        vec!["logistics_basics".to_string(), "storage_basics".to_string(), "trade_basics".to_string()]
    );
    assert_eq!(ledger.cost_units, 4);
}

#[test]
fn builds_refuse_cycles_and_missing_tracks() {
    let mut source = modifier_source();
    source.push(node("shrine_a", &["shrine_b"], 1, "a"));
    source.push(node("shrine_b", &["shrine_a"], 1, "b"));
    source.push(node("river_works", &["shrine_a"], 1, "river"));
    assert_eq!(
        build_manifest(&source).err(),
        Some(ResearchManifestError::CycleOrUnreachable { visited: 0, total: 157 })
    );
    assert_eq!(
        build_manifest(&Vec::new()).err(),
        Some(ResearchManifestError::MalformedGlobalModifierTrack("logistics".to_string()))
    );
    let mut zero_cost = modifier_source();
    zero_cost.push(node("free_lunch", &[], 0, "lunch"));
    let manifest = build_manifest(&zero_cost).expect("manifest");
    assert_eq!(manifest.get("free_lunch").expect("free lunch").cost_units, 1);
}

fn study(id: &str, order_index: usize, prerequisites: &[&str]) -> ManifestStudy {
    ManifestStudy {
        stable_id: id.to_string(),
        display_name: id.to_uppercase(),
        prerequisites: prerequisites.iter().map(|p| p.to_string()).collect(),
        source: ManifestStudySource::CurrentCatalog,
        stage: None,
        cost_units: 1,
        repeatable_terminal: false,
        order_index,
        effects: vec![ManifestEffect::CatalogPayload {
            handler: ManifestEffectHandler::CatalogUnlockCapability,
            target_id: id.to_string(),
        }],
    }
}

fn manifest_studies() -> Vec<ManifestStudy> {
    manifest().studies().to_vec()
}

#[test]
fn from_studies_orders_by_index_and_checks_the_rules() {
    let mut studies = manifest_studies();
    studies.reverse();
    let reordered = ResearchManifest::from_studies(studies).expect("reordered");
    assert_eq!(reordered.studies(), manifest().studies());
    assert_eq!(ResearchManifest::from_studies(Vec::new()).err(), Some(ResearchManifestError::EmptyManifest));
    let mut duplicate = manifest_studies();
    duplicate.push(study("logistics_basics", 999, &[]));
    assert_eq!(
        ResearchManifest::from_studies(duplicate).err(),
        Some(ResearchManifestError::DuplicateStableId("logistics_basics".to_string()))
    );
    let mut repeated_order = manifest_studies();
    repeated_order.push(study("new_study", 3, &[]));
    assert_eq!(ResearchManifest::from_studies(repeated_order).err(), Some(ResearchManifestError::DuplicateOrderIndex(3)));
    let mut missing = manifest_studies();
    missing.push(study("new_study", 999, &["nowhere"]));
    assert_eq!(
        ResearchManifest::from_studies(missing).err(),
        Some(ResearchManifestError::MissingPrerequisite {
            study_id: "new_study".to_string(),
            prerequisite: "nowhere".to_string()
        })
    );
    let mut deprecated = manifest_studies();
    deprecated.push(study("purse_strings", 999, &[]));
    assert_eq!(
        ResearchManifest::from_studies(deprecated).err(),
        Some(ResearchManifestError::DeprecatedStudyPresent("purse_strings".to_string()))
    );
    let mut cycle = manifest_studies();
    cycle.push(study("left", 998, &["right"]));
    cycle.push(study("right", 999, &["left"]));
    assert_eq!(
        ResearchManifest::from_studies(cycle).err(),
        Some(ResearchManifestError::CycleOrUnreachable { visited: 270, total: 272 })
    );
    let mut own = manifest_studies();
    own.push(study("selfish", 999, &["selfish"]));
    assert_eq!(
        ResearchManifest::from_studies(own).err(),
        Some(ResearchManifestError::SelfPrerequisite("selfish".to_string()))
    );
    let mut twice = manifest_studies();
    twice.push(study("twice", 999, &["trade_basics", "trade_basics"]));
    assert_eq!(
        ResearchManifest::from_studies(twice).err(),
        Some(ResearchManifestError::DuplicatePrerequisite {
            study_id: "twice".to_string(),
            prerequisite: "trade_basics".to_string()
        })
    );
    let mut short = manifest_studies();
    short.retain(|s| s.stable_id != "rehabilitation_stage_07");
    assert_eq!(
        ResearchManifest::from_studies(short).err(),
        Some(ResearchManifestError::MalformedTrack { track: ManifestTrack::Rehabilitation, reason: TrackFault::WrongStageCount })
    );
    let mut blank = manifest_studies();
    blank.push(study(" ", 999, &[]));
    assert_eq!(ResearchManifest::from_studies(blank).err(), Some(ResearchManifestError::BlankStudyIdentity));
}

#[test]
fn the_graph_rules_are_separate_from_the_manifest_rules() {
    let mut studies = manifest_studies();
    studies.retain(|s| !s.stable_id.starts_with("welfare_"));
    let manifest = ResearchManifest::from_studies(studies).expect("still a manifest");
    assert_eq!(
        manifest.validate_lai58_graph().err(),
        Some(ResearchManifestError::WrongGlobalTrackCount { expected: 14, actual: 13 })
    );
    assert_eq!(manifest.graph_totals().track_count, 13);
}
