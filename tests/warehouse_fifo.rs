use economy_sim::money::ApproximateMoney;
use economy_sim::ware::{Ware, WareAmount};
use economy_sim::warehouse::{Warehouse, WarehouseBatch, WarehouseEntry};

#[test]
fn unknown_ware_has_zero_stock() {
    let wh = Warehouse::new();
    assert_eq!(wh.ware_amount(Ware::Apple), WareAmount::new(Ware::Apple, 0));
}

#[test]
fn full_removal_returns_weighted_average() {
    let mut wh = Warehouse::new();
    wh.insert_ware(WareAmount::new(Ware::Water, 10), ApproximateMoney(100));
    wh.insert_ware(WareAmount::new(Ware::Water, 30), ApproximateMoney(200));
    wh.insert_ware(WareAmount::new(Ware::Water, 60), ApproximateMoney(500));
    assert_eq!(wh.ware_amount(Ware::Water).amount(), 100);
    // (10*100 + 30*200 + 60*500) / 100 = 370
    assert_eq!(wh.remove_ware(WareAmount::new(Ware::Water, 100)), ApproximateMoney(370));
    assert_eq!(wh.ware_amount(Ware::Water).amount(), 0);
}

#[test]
fn partial_removal_takes_oldest_first() {
    let mut wh = Warehouse::new();
    wh.insert_ware(WareAmount::new(Ware::Seed, 4), ApproximateMoney(10));
    wh.insert_ware(WareAmount::new(Ware::Seed, 4), ApproximateMoney(20));
    wh.insert_ware(WareAmount::new(Ware::Seed, 2), ApproximateMoney(90));
    // The first six items: four at 10, two at 20.
    assert_eq!(wh.remove_ware(WareAmount::new(Ware::Seed, 6)), ApproximateMoney(13));
    // The rest: two at 20 and two at 90, exactly the newest batches.
    assert_eq!(wh.remove_ware(WareAmount::new(Ware::Seed, 4)), ApproximateMoney(55));
}

#[test]
fn partial_removal_splits_head_batch() {
    let mut wh = Warehouse::new();
    wh.insert_ware(WareAmount::new(Ware::Apple, 5), ApproximateMoney(7));
    assert_eq!(wh.remove_ware(WareAmount::new(Ware::Apple, 2)), ApproximateMoney(7));
    assert_eq!(wh.ware_amount(Ware::Apple).amount(), 3);
    assert_eq!(wh.wares[2].batches.len(), 1);
    assert_eq!(wh.wares[2].batches[0].amount, 3);
}

#[test]
fn inserting_nothing_adds_no_batch() {
    let mut wh = Warehouse::new();
    wh.insert_ware(WareAmount::new(Ware::Apple, 0), ApproximateMoney(7));
    assert_eq!(wh.wares[2].batches.len(), 0);
}

#[test]
fn drain_returns_batches_by_ware_then_age() {
    let mut wh = Warehouse::new();
    wh.insert_ware(WareAmount::new(Ware::Apple, 1), ApproximateMoney(1));
    wh.insert_ware(WareAmount::new(Ware::Water, 2), ApproximateMoney(2));
    wh.insert_ware(WareAmount::new(Ware::Water, 3), ApproximateMoney(3));
    let drained = wh.drain();
    assert_eq!(
        drained,
        vec![
            WarehouseBatch { ware: Ware::Water, amount: 2, sourcing_cost_per_item: ApproximateMoney(2) },
            WarehouseBatch { ware: Ware::Water, amount: 3, sourcing_cost_per_item: ApproximateMoney(3) },
            WarehouseBatch { ware: Ware::Apple, amount: 1, sourcing_cost_per_item: ApproximateMoney(1) },
        ]
    );
    assert_eq!(drained[0].ware(), Ware::Water);
    assert_eq!(drained[1].amount(), 3);
    assert_eq!(drained[2].sourcing_cost_per_item(), ApproximateMoney(1));
    assert_eq!(wh.ware_amount(Ware::Water).amount(), 0);
    assert_eq!(wh.ware_amount(Ware::Apple).amount(), 0);
}

#[test]
fn entry_keeps_total_and_queue() {
    let mut e = WarehouseEntry::new(4, ApproximateMoney(10));
    assert!(!e.is_empty());
    e.insert(6, ApproximateMoney(20));
    assert_eq!(e.ware_amount(Ware::Seed), WareAmount::new(Ware::Seed, 10));
    assert_eq!(e.remove(10), ApproximateMoney(16));
    assert!(e.is_empty());
    let batch = WarehouseEntry::new(2, ApproximateMoney(5)).batches[0].into_batch(Ware::Seed);
    assert_eq!(batch, WarehouseBatch { ware: Ware::Seed, amount: 2, sourcing_cost_per_item: ApproximateMoney(5) });
}

#[test]
fn default_warehouse_is_empty() {
    let wh = Warehouse::default();
    assert_eq!(wh.ware_amount(Ware::Seed).amount(), 0);
    assert_eq!(wh.wares.len(), 3);
}
