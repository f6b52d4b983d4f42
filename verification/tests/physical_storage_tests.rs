use cat_sim::physical_storage::{
    ContainerKind, PhysicalContainer, PhysicalStorageError, StorageCompatibility, StorageLot,
    StorageTile, VisibleStorageSlot, WorkshopInputZoneLink, CURRENT_PHYSICAL_STORAGE_VERSION,
    VISIBLE_SLOTS_PER_STORAGE_TILE,
};
use cat_sim::spatial::{Rect, TaskFootprint, TilePoint};

fn lot(id: &str, content_id: &str, compatibility: StorageCompatibility) -> StorageLot {
    StorageLot {
        lot_id: id.to_owned(),
        content_id: content_id.to_owned(),
        compatibility,
        units: 4,
        quality_band: 2,
        produced_at_ms: 10,
        expires_at_ms: None,
        provenance_id: "source:test".to_owned(),
        reserved_units: 0,
    }
}

#[test]
fn catalog_capacities_and_compatibility_are_exact() {
    assert_eq!(ContainerKind::Basket.lot_capacity(), 4);
    assert_eq!(ContainerKind::Barrel.lot_capacity(), 8);
    assert_eq!(ContainerKind::Crate.lot_capacity(), 8);
    assert_eq!(ContainerKind::Chest.lot_capacity(), 16);
    assert_eq!(ContainerKind::Rack.lot_capacity(), 8);
    assert!(ContainerKind::Basket.accepts(StorageCompatibility::Food));
    assert!(ContainerKind::Barrel.accepts(StorageCompatibility::Liquid));
    assert!(ContainerKind::Crate.accepts(StorageCompatibility::BulkMaterial));
    assert!(ContainerKind::Chest.accepts(StorageCompatibility::UniqueItem));
    assert!(ContainerKind::Rack.accepts(StorageCompatibility::Weapon));
    assert!(!ContainerKind::Rack.accepts(StorageCompatibility::Food));
}

#[test]
fn barrel_preserves_lots_but_rejects_mixed_content() {
    let mut barrel = PhysicalContainer::new("container:barrel", ContainerKind::Barrel);
    barrel.insert(lot("lot:water:a", "water", StorageCompatibility::Liquid)).expect("first water lot");
    barrel.insert(lot("lot:water:b", "water", StorageCompatibility::Liquid)).expect("second water lot");
    assert_eq!(
        barrel.insert(lot("lot:broth", "broth", StorageCompatibility::Liquid)),
        Err(PhysicalStorageError::MixedContent)
    );
    assert_eq!(barrel.fullness_slots(), (2, 8));
    assert_eq!(barrel.validate(), Ok(()));
}

#[test]
fn lot_and_container_validation_report_the_first_broken_rule() {
    let mut bad = lot("  ", "water", StorageCompatibility::Liquid);
    assert_eq!(bad.validate(), Err(PhysicalStorageError::EmptyStableId));
    bad.lot_id = "lot".to_owned();
    bad.reserved_units = 5;
    assert_eq!(bad.validate(), Err(PhysicalStorageError::InvalidLotQuantity));
    bad.reserved_units = 0;
    bad.expires_at_ms = Some(9);
    assert_eq!(bad.validate(), Err(PhysicalStorageError::ExpiryBeforeProduction));

    let mut rack = PhysicalContainer::new("container:rack", ContainerKind::Rack);
    assert_eq!(
        rack.insert(lot("lot:apple", "apple", StorageCompatibility::Food)),
        Err(PhysicalStorageError::IncompatibleLot { lot_id: "lot:apple".to_owned() })
    );
    rack.insert(lot("lot:spear", "spear", StorageCompatibility::Weapon)).unwrap();
    assert_eq!(
        rack.insert(lot("lot:spear", "spear", StorageCompatibility::Weapon)),
        Err(PhysicalStorageError::DuplicateLot { lot_id: "lot:spear".to_owned() })
    );
    assert!(rack.remove("lot:spear").is_some());
    assert!(rack.remove("lot:spear").is_none());
}

#[test]
fn one_container_occupies_one_of_four_visible_tile_slots() {
    let mut tile = StorageTile::new(TilePoint { x: 7, y: 8 });
    tile.insert(VisibleStorageSlot::Container {
        container: PhysicalContainer::new("container:basket", ContainerKind::Basket),
    })
    .expect("container slot");
    for ordinal in 0..3 {
        tile.insert(VisibleStorageSlot::LooseLot {
            loose_lot: lot(&format!("lot:{ordinal}"), "apple", StorageCompatibility::Food),
        })
        .expect("loose slot");
    }
    assert_eq!(tile.slots.len(), VISIBLE_SLOTS_PER_STORAGE_TILE);
    assert_eq!(
        tile.insert(VisibleStorageSlot::LooseLot {
            loose_lot: lot("lot:overflow", "apple", StorageCompatibility::Food),
        }),
        Err(PhysicalStorageError::TileFull)
    );
    assert_eq!(tile.validate(), Ok(()));
    assert!(tile.remove("lot:1").is_some());
    assert_eq!(tile.slots.len(), 3);
}

#[test]
fn workshop_input_zone_must_be_adjacent_and_outside_full_footprint() {
    let workshop = TaskFootprint::rectangular(Rect::try_new(TilePoint { x: 4, y: 4 }, 3, 3).expect("workshop"));
    let adjacent = WorkshopInputZoneLink {
        version: CURRENT_PHYSICAL_STORAGE_VERSION,
        workshop_id: "building:workshop".to_owned(),
        workshop_footprint: workshop.clone(),
        storage_zone_id: "zone:input".to_owned(),
        storage_footprint: TaskFootprint::rectangular(
            Rect::try_new(TilePoint { x: 7, y: 4 }, 2, 3).expect("adjacent zone"),
        ),
    };
    adjacent.validate().expect("adjacent zone is valid");

    let overlapping = WorkshopInputZoneLink {
        storage_footprint: TaskFootprint::rectangular(
            Rect::try_new(TilePoint { x: 6, y: 4 }, 2, 2).expect("overlap"),
        ),
        ..adjacent.clone()
    };
    assert_eq!(overlapping.validate(), Err(PhysicalStorageError::StorageOverlapsWorkshop));

    let distant = WorkshopInputZoneLink {
        storage_footprint: TaskFootprint::rectangular(
            Rect::try_new(TilePoint { x: 9, y: 4 }, 1, 1).expect("distant"),
        ),
        ..adjacent
    };
    assert_eq!(distant.validate(), Err(PhysicalStorageError::StorageNotAdjacent));
}
