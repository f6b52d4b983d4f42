use cat_sim::quality_lots::{
    BulkLotKey, LotLocation, LotProvenance, PhysicalLot, QualityBand, QualityLotError, QualityLotLedger,
};

fn bulk_lot(id: &str, content: &str, quantity: u32) -> PhysicalLot {
    PhysicalLot {
        id: id.to_string(),
        key: BulkLotKey::new(content.to_string(), QualityBand::Common),
        provenance: LotProvenance { origin: "harvest".to_string(), created_tick: 1 },
        quantity,
        location: LotLocation::Stockpile("store".to_string()),
        reservation: None,
    }
}

#[test]
fn total_bulk_quantity_sums_every_lot() {
    let ledger = QualityLotLedger::new(
        vec![bulk_lot("lot-a", "food.bread", 7), bulk_lot("lot-b", "wood.log", 5), bulk_lot("lot-c", "stone", u32::MAX)],
        Vec::new(),
    )
    .expect("ledger");
    assert!(ledger.lots().len() <= u32::MAX as usize);
    assert_eq!(ledger.total_bulk_quantity(), 12 + u64::from(u32::MAX));
    let empty = QualityLotLedger::new(Vec::new(), Vec::new()).expect("empty ledger");
    assert_eq!(empty.total_bulk_quantity(), 0);
}

#[test]
fn debiting_lots_lowers_the_total_by_the_debited_quantity() {
    let mut ledger = QualityLotLedger::new(
        vec![bulk_lot("lot-a", "food.bread", 7), bulk_lot("lot-b", "wood.log", 5)],
        Vec::new(),
    )
    .expect("ledger");
    let before = ledger.total_bulk_quantity();
    ledger.debit_lots(&[("lot-a".to_string(), 3), ("lot-b".to_string(), 5)]).expect("debit");
    assert_eq!(ledger.total_bulk_quantity(), before - 8);
    assert_eq!(ledger.lots().len(), 1);
    assert_eq!(
        ledger.debit_lots(&[("lot-a".to_string(), 5)]),
        Err(QualityLotError::InvalidDebitQuantity)
    );
    assert_eq!(ledger.total_bulk_quantity(), 4);
}

#[test]
fn debits_shrink_each_named_lot_and_leave_the_others() {
    let mut ledger = QualityLotLedger::new(
        vec![bulk_lot("lot-a", "food.bread", 7), bulk_lot("lot-b", "wood.log", 5), bulk_lot("lot-c", "stone", 2)],
        Vec::new(),
    )
    .expect("ledger");
    ledger.debit_lots(&[("lot-a".to_string(), 3), ("lot-b".to_string(), 5)]).expect("debit");
    assert_eq!(ledger.lot(&"lot-a".to_string()).map(|lot| lot.quantity), Some(4));
    assert!(ledger.lot(&"lot-b".to_string()).is_none());
    assert_eq!(ledger.lot(&"lot-c".to_string()).map(|lot| lot.quantity), Some(2));
    assert_eq!(
        ledger.debit_lots(&[("lot-a".to_string(), 1), ("lot-a".to_string(), 1)]),
        Err(QualityLotError::DuplicateDebitLotId("lot-a".to_string()))
    );
    assert_eq!(
        ledger.debit_lots(&[("lot-z".to_string(), 1)]),
        Err(QualityLotError::MissingLot("lot-z".to_string()))
    );
    assert_eq!(ledger.debit_lots(&[("lot-c".to_string(), 0)]), Err(QualityLotError::InvalidDebitQuantity));
    assert_eq!(ledger.lot(&"lot-a".to_string()).map(|lot| lot.quantity), Some(4));
    assert_eq!(ledger.total_bulk_quantity(), 6);
}
