use economy_sim::consumer::{isqrt, Consumer, RATIO_SCALE};
use economy_sim::factory::FactoryId;
use economy_sim::market::Market;
use economy_sim::money::Money;
use economy_sim::ware::{Ware, WareAmount};
use rand::SeedableRng;
use rand_xoshiro::Xoshiro256PlusPlus;

#[test]
fn integer_square_root() {
    assert_eq!(isqrt(0), 0);
    assert_eq!(isqrt(1), 1);
    assert_eq!(isqrt(15), 3);
    assert_eq!(isqrt(16), 4);
    assert_eq!(isqrt(1_000_000_000_000), 1_000_000);
    assert_eq!(isqrt(u128::MAX), u64::MAX);
}

#[test]
fn empty_market_lowers_fulfilment_within_unit_range() {
    let mut consumer = Consumer::new(WareAmount::new(Ware::Apple, 100), Money(11), 900_000);
    assert_eq!(consumer.fulfilment(), RATIO_SCALE);
    let mut market = Market::new();
    market.sort_offers(&mut Xoshiro256PlusPlus::seed_from_u64(3));
    consumer.consume(&mut market);
    let f = consumer.fulfilment();
    assert!(f < RATIO_SCALE);
    assert_eq!(f, 910_000);
    consumer.consume(&mut market);
    assert!(consumer.fulfilment() < f);
}

#[test]
fn consumer_buys_its_target_at_target_price() {
    let mut consumer = Consumer::new(WareAmount::new(Ware::Apple, 10), Money(4), 900_000);
    let mut market = Market::new();
    market.offer(Ware::Apple, 50, Money(4), FactoryId(2));
    market.sort_offers(&mut Xoshiro256PlusPlus::seed_from_u64(3));
    consumer.consume(&mut market);
    assert_eq!(market.offers[2][0].amount, 40);
    assert_eq!(market.owed_to(FactoryId(2)), 40);
    assert_eq!(consumer.fulfilment(), RATIO_SCALE);
}

#[test]
fn higher_price_shrinks_demand() {
    // Price four times the target: each item takes up twice the demand.
    let mut consumer = Consumer::new(WareAmount::new(Ware::Apple, 10), Money(1), 500_000);
    let mut market = Market::new();
    market.offer(Ware::Apple, 50, Money(4), FactoryId(2));
    market.sort_offers(&mut Xoshiro256PlusPlus::seed_from_u64(3));
    consumer.consume(&mut market);
    assert_eq!(market.offers[2][0].amount, 45);
}

#[test]
fn consumer_wanting_nothing_buys_nothing() {
    let mut consumer = Consumer::new(WareAmount::new(Ware::Apple, 0), Money(4), 900_000);
    let mut market = Market::new();
    market.offer(Ware::Apple, 50, Money(4), FactoryId(2));
    market.sort_offers(&mut Xoshiro256PlusPlus::seed_from_u64(3));
    consumer.consume(&mut market);
    assert_eq!(market.offers[2][0].amount, 50);
    assert_eq!(consumer.fulfilment(), RATIO_SCALE);
}

#[test]
fn free_target_price_stops_at_once() {
    let mut consumer = Consumer::new(WareAmount::new(Ware::Apple, 10), Money(0), 0);
    let mut market = Market::new();
    market.offer(Ware::Apple, 50, Money(4), FactoryId(2));
    market.sort_offers(&mut Xoshiro256PlusPlus::seed_from_u64(3));
    consumer.consume(&mut market);
    assert_eq!(market.offers[2][0].amount, 50);
    // With no decay the fulfilment drops by the whole unmet share, then is pulled fully back to one.
    assert_eq!(consumer.fulfilment(), RATIO_SCALE);
}
