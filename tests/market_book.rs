use economy_sim::factory::FactoryId;
use economy_sim::market::{sort_by_price_descending, Credit, Market, MarketOffer};
use economy_sim::money::{ApproximateMoney, Money, COST_SCALE};
use economy_sim::ware::{Ware, WareAmount};
use economy_sim::warehouse::Warehouse;
use rand::SeedableRng;
use rand_xoshiro::Xoshiro256PlusPlus;

fn sorted_market(offers: &[(u64, u64, usize)]) -> Market {
    let mut market = Market::new();
    for &(amount, price, factory) in offers {
        market.offer(Ware::Water, amount, Money(price), FactoryId(factory));
    }
    let mut rng = Xoshiro256PlusPlus::seed_from_u64(7);
    market.sort_offers(&mut rng);
    market
}

#[test]
fn sort_orders_prices_descending_and_current_price_is_minimum() {
    let market = sorted_market(&[(1, 5, 0), (2, 3, 1), (3, 9, 2), (4, 3, 3), (5, 7, 4)]);
    let book = &market.offers[0];
    assert_eq!(book.len(), 5);
    for i in 1..book.len() {
        assert!(book[i - 1].price_per_item >= book[i].price_per_item);
    }
    assert_eq!(market.current_price(Ware::Water), Some(Money(3)));
    assert_eq!(market.current_price(Ware::Apple), None);
}

#[test]
fn offer_of_nothing_is_still_appended() {
    let mut market = Market::new();
    market.offer(Ware::Seed, 0, Money(3), FactoryId(0));
    assert_eq!(market.offers[1].len(), 1);
    assert_eq!(market.offers[1][0].amount, 0);
    assert!(!market.market_offers_sorted);
}

#[test]
fn buy_passes_over_an_empty_cheapest_offer() {
    let mut market = sorted_market(&[(5, 4, 0), (0, 1, 1)]);
    assert_eq!(market.current_price(Ware::Water), Some(Money(1)));
    let mut wh = Warehouse::new();
    let mut money = Money(100);
    assert_eq!(market.buy(WareAmount::new(Ware::Water, 3), &mut wh, &mut money), 3);
    assert_eq!(money, Money(88));
    assert_eq!(market.offers[0].len(), 1);
    assert_eq!(market.offers[0][0].amount, 2);
}

#[test]
fn consume_drops_an_empty_cheapest_offer() {
    let mut market = sorted_market(&[(5, 4, 0), (0, 1, 1)]);
    assert_eq!(market.consume_at_current_price(WareAmount::new(Ware::Water, 3)), 0);
    assert_eq!(market.current_price(Ware::Water), Some(Money(4)));
    assert_eq!(market.consume_at_current_price(WareAmount::new(Ware::Water, 3)), 3);
}

#[test]
fn stable_sort_keeps_order_of_equal_prices() {
    let offer = |f: usize, p: u64| MarketOffer { source_factory: FactoryId(f), amount: 1, price_per_item: Money(p) };
    let sorted = sort_by_price_descending(vec![offer(0, 2), offer(1, 5), offer(2, 2), offer(3, 5)]);
    assert_eq!(sorted, vec![offer(1, 5), offer(3, 5), offer(0, 2), offer(2, 2)]);
}

#[test]
fn equal_prices_are_picked_cheapest_about_equally_often() {
    let mut first = 0;
    let trials = 2000;
    for seed in 0..trials {
        let mut market = Market::new();
        market.offer(Ware::Apple, 1, Money(4), FactoryId(0));
        market.offer(Ware::Apple, 1, Money(4), FactoryId(1));
        let mut rng = Xoshiro256PlusPlus::seed_from_u64(seed);
        market.sort_offers(&mut rng);
        if market.offers[2][1].source_factory == FactoryId(0) {
            first += 1;
        }
    }
    assert!(first > 850 && first < 1150, "factory 0 was cheapest {first} times of {trials}");
}

#[test]
fn total_price_walks_cheapest_first_without_buying() {
    let market = sorted_market(&[(2, 5, 0), (3, 2, 1), (10, 9, 2)]);
    assert_eq!(market.total_price(WareAmount::new(Ware::Water, 4)), (4, Money(3 * 2 + 5)));
    assert_eq!(market.total_price(WareAmount::new(Ware::Water, 100)), (15, Money(6 + 10 + 90)));
    assert_eq!(market.total_price(WareAmount::new(Ware::Seed, 4)), (0, Money(0)));
    assert_eq!(market.quote(WareAmount::new(Ware::Water, 3)), (3, 6));
    assert_eq!(market.offers[0].len(), 3);
}

#[test]
fn buy_spends_exactly_what_it_credits_and_never_overspends() {
    let mut market = sorted_market(&[(2, 5, 0), (3, 2, 1), (10, 9, 2)]);
    let mut wh = Warehouse::new();
    let mut money = Money(20);
    let bought = market.buy(WareAmount::new(Ware::Water, 10), &mut wh, &mut money);
    // 3 at 2 (6), 2 at 5 (10), then 4 left buys nothing at 9.
    assert_eq!(bought, 5);
    assert_eq!(money, Money(4));
    let credited: u64 = market.money_transactions.iter().map(|c| c.amount.0).sum();
    assert_eq!(credited, 16);
    assert_eq!(
        market.money_transactions,
        vec![
            Credit { factory: FactoryId(1), amount: Money(6) },
            Credit { factory: FactoryId(0), amount: Money(10) },
        ]
    );
    assert_eq!(wh.ware_amount(Ware::Water).amount(), 5);
    // Average cost 16 / 5 = 3.2 per item.
    assert_eq!(wh.wares[0].batches[0].sourcing_cost_per_item, ApproximateMoney(16 * COST_SCALE / 5));
    assert_eq!(market.current_price(Ware::Water), Some(Money(9)));
}

#[test]
fn buy_stops_when_money_runs_out_mid_offer() {
    let mut market = sorted_market(&[(10, 3, 0)]);
    let mut wh = Warehouse::new();
    let mut money = Money(10);
    assert_eq!(market.buy(WareAmount::new(Ware::Water, 10), &mut wh, &mut money), 3);
    assert_eq!(money, Money(1));
    assert_eq!(market.offers[0][0].amount, 7);
}

#[test]
fn buy_from_empty_book_changes_nothing() {
    let mut market = sorted_market(&[]);
    let mut wh = Warehouse::new();
    let mut money = Money(10);
    assert_eq!(market.buy(WareAmount::new(Ware::Apple, 10), &mut wh, &mut money), 0);
    assert_eq!(money, Money(10));
    assert_eq!(wh.ware_amount(Ware::Apple).amount(), 0);
    assert!(market.money_transactions.is_empty());
}

#[test]
fn consume_takes_only_from_the_cheapest_offer() {
    let mut market = sorted_market(&[(2, 5, 0), (3, 2, 1)]);
    assert_eq!(market.consume_at_current_price(WareAmount::new(Ware::Water, 10)), 3);
    assert_eq!(market.money_transactions, vec![Credit { factory: FactoryId(1), amount: Money(6) }]);
    assert_eq!(market.consume_at_current_price(WareAmount::new(Ware::Water, 1)), 1);
    assert_eq!(market.offers[0][0].amount, 1);
    assert_eq!(market.consume_at_current_price(WareAmount::new(Ware::Seed, 1)), 0);
}

#[test]
fn transfer_money_pays_out_one_factory() {
    let mut market = sorted_market(&[(2, 5, 0), (3, 2, 1)]);
    market.consume_at_current_price(WareAmount::new(Ware::Water, 3));
    market.consume_at_current_price(WareAmount::new(Ware::Water, 2));
    assert_eq!(market.owed_to(FactoryId(1)), 6);
    assert_eq!(market.owed_to(FactoryId(0)), 10);
    let mut money = Money(1);
    market.transfer_money(&mut money, FactoryId(0));
    assert_eq!(money, Money(11));
    assert_eq!(market.money_transactions, vec![Credit { factory: FactoryId(1), amount: Money(6) }]);
    market.transfer_money(&mut money, FactoryId(0));
    assert_eq!(money, Money(11));
}
