use economy_sim::factory::{Factory, FactoryId};
use economy_sim::market::Market;
use economy_sim::money::{ApproximateMoney, Money, COST_SCALE};
use economy_sim::recipe::{ProductionRate, Recipe};
use economy_sim::template::FactoryTemplate;
use economy_sim::time::DateTime;
use economy_sim::ware::{Ware, WareAmount};
use rand::SeedableRng;
use rand_xoshiro::Xoshiro256PlusPlus;

fn factory(inputs: Vec<WareAmount>, outputs: Vec<WareAmount>, rate: u64, wages: u64, money: u64) -> Factory {
    let template = FactoryTemplate::new(Recipe::new(inputs, outputs, ProductionRate::new(rate)), Money(wages));
    Factory::new(template, Money(money))
}

#[test]
fn zero_input_recipe_produces_one_hour_at_wages_over_units() {
    let mut f = factory(vec![], vec![WareAmount::new(Ware::Apple, 1)], 10, 100, 1_000_000);
    assert!(f.can_produce(DateTime::from_hours(1)));
    f.produce(DateTime::from_hours(1));
    assert_eq!(f.money(), Money(1_000_000 - 100));
    assert_eq!(f.output_storage.ware_amount(Ware::Apple).amount(), 10);
    assert_eq!(f.output_storage.wares[2].batches[0].sourcing_cost_per_item, ApproximateMoney(10 * COST_SCALE));
}

#[test]
fn production_is_limited_by_the_scarcest_input() {
    let mut f = factory(vec![WareAmount::new(Ware::Water, 2)], vec![WareAmount::new(Ware::Apple, 1)], 5, 50, 1000);
    f.input_storage.insert_ware(WareAmount::new(Ware::Water, 6), ApproximateMoney(3 * COST_SCALE));
    f.produce_one_hour();
    assert_eq!(f.output_storage.ware_amount(Ware::Apple).amount(), 3);
    assert_eq!(f.input_storage.ware_amount(Ware::Water).amount(), 0);
    assert_eq!(f.money(), Money(950));
    // (50 wages + 6 water at 3) / 3 apples
    assert_eq!(f.output_storage.wares[2].batches[0].sourcing_cost_per_item, ApproximateMoney(68 * COST_SCALE / 3));
}

#[test]
fn production_is_limited_by_affordable_hours() {
    let mut f = factory(vec![], vec![WareAmount::new(Ware::Seed, 1)], 10, 100, 250);
    f.produce(DateTime::from_hours(5));
    assert_eq!(f.output_storage.ware_amount(Ware::Seed).amount(), 20);
    assert_eq!(f.money(), Money(50));
}

#[test]
fn no_application_changes_nothing() {
    let mut f = factory(vec![], vec![WareAmount::new(Ware::Seed, 1)], 10, 100, 99);
    f.produce_one_hour();
    assert_eq!(f.money(), Money(99));
    assert_eq!(f.output_storage.ware_amount(Ware::Seed).amount(), 0);
}

#[test]
fn zero_wages_allow_full_rate() {
    let mut f = factory(vec![], vec![WareAmount::new(Ware::Water, 10)], 100, 0, 0);
    f.produce_one_hour();
    assert_eq!(f.output_storage.ware_amount(Ware::Water).amount(), 1000);
    assert_eq!(f.output_storage.wares[0].batches[0].sourcing_cost_per_item, ApproximateMoney(0));
}

#[test]
fn reuse_moves_own_output_into_inputs() {
    let mut f = factory(vec![WareAmount::new(Ware::Seed, 1)], vec![WareAmount::new(Ware::Seed, 2)], 1, 10, 100);
    f.output_storage.insert_ware(WareAmount::new(Ware::Seed, 5), ApproximateMoney(4 * COST_SCALE));
    f.reuse_inputs();
    assert_eq!(f.input_storage.ware_amount(Ware::Seed).amount(), 1);
    assert_eq!(f.output_storage.ware_amount(Ware::Seed).amount(), 4);
    assert_eq!(f.input_storage.wares[1].batches[0].sourcing_cost_per_item, ApproximateMoney(4 * COST_SCALE));
    f.reuse_inputs();
    assert_eq!(f.input_storage.ware_amount(Ware::Seed).amount(), 1);
}

#[test]
fn offers_are_priced_at_cost_rounded_up() {
    let mut f = factory(vec![], vec![WareAmount::new(Ware::Water, 1)], 1, 0, 0);
    f.output_storage.insert_ware(WareAmount::new(Ware::Water, 3), ApproximateMoney(10 * COST_SCALE + COST_SCALE / 2));
    f.output_storage.insert_ware(WareAmount::new(Ware::Water, 2), ApproximateMoney(7 * COST_SCALE));
    let mut market = Market::new();
    f.offer_outputs(&mut market, FactoryId(4));
    assert_eq!(f.output_storage.ware_amount(Ware::Water).amount(), 0);
    let book = &market.offers[0];
    assert_eq!(book.len(), 2);
    assert_eq!((book[0].amount, book[0].price_per_item, book[0].source_factory), (3, Money(11), FactoryId(4)));
    assert_eq!((book[1].amount, book[1].price_per_item), (2, Money(7)));
}

fn market_with(offers: &[(Ware, u64, u64)]) -> Market {
    let mut market = Market::new();
    for (i, &(w, amount, price)) in offers.iter().enumerate() {
        market.offer(w, amount, Money(price), FactoryId(100 + i));
    }
    market.sort_offers(&mut Xoshiro256PlusPlus::seed_from_u64(1));
    market
}

fn plan_cost(f: &Factory, market: &Market, t: u64) -> u128 {
    let mut total = 0u128;
    for input in f.template.recipe.inputs() {
        let stock = f.input_storage.ware_amount(input.ware()).amount();
        let missing = (input.amount() * t).saturating_sub(stock);
        total += market.quote(WareAmount::new(input.ware(), missing)).1;
    }
    total
}

#[test]
fn buy_target_matches_a_linear_scan() {
    let offers = [(Ware::Water, 30, 1), (Ware::Water, 50, 3), (Ware::Seed, 4, 10), (Ware::Seed, 4, 25)];
    for money in [0u64, 5, 40, 90, 150, 260, 400, 1000] {
        for stock in [0u64, 7] {
            let mut f = factory(
                vec![WareAmount::new(Ware::Water, 10), WareAmount::new(Ware::Seed, 1)],
                vec![WareAmount::new(Ware::Apple, 1)],
                8,
                16,
                money,
            );
            f.input_storage.insert_ware(WareAmount::new(Ware::Water, stock), ApproximateMoney(0));
            let market = market_with(&offers);
            let budget = money.saturating_sub(16) as u128;
            let expected = (0..=8).filter(|&t| plan_cost(&f, &market, t) <= budget).max().unwrap();
            assert_eq!(f.buy_target(&market), expected, "money {money}, stock {stock}");
        }
    }
}

#[test]
fn buy_inputs_buys_for_the_target_and_pays_exactly() {
    let mut f = factory(vec![WareAmount::new(Ware::Water, 10)], vec![WareAmount::new(Ware::Apple, 1)], 4, 4, 54);
    let mut market = market_with(&[(Ware::Water, 100, 1)]);
    // Budget 50 buys the water for four applications (40) but not more.
    assert_eq!(f.buy_target(&market), 4);
    f.buy_inputs(&mut market);
    assert_eq!(f.input_storage.ware_amount(Ware::Water).amount(), 40);
    assert_eq!(f.money(), Money(14));
    assert_eq!(market.owed_to(FactoryId(100)), 40);
}

#[test]
fn buy_inputs_without_inputs_does_nothing() {
    let mut f = factory(vec![], vec![WareAmount::new(Ware::Apple, 1)], 4, 4, 54);
    let mut market = market_with(&[(Ware::Water, 100, 1)]);
    f.buy_inputs(&mut market);
    assert_eq!(f.money(), Money(54));
    assert_eq!(market.offers[0][0].amount, 100);
}

#[test]
fn collect_money_takes_what_is_owed() {
    let mut f = factory(vec![], vec![WareAmount::new(Ware::Apple, 1)], 1, 0, 5);
    let mut market = market_with(&[(Ware::Water, 10, 2)]);
    market.consume_at_current_price(WareAmount::new(Ware::Water, 4));
    f.collect_money(&mut market, FactoryId(100));
    assert_eq!(f.money(), Money(13));
    assert!(market.money_transactions.is_empty());
}

#[test]
fn can_produce_rejects_overflowing_runs() {
    let f = factory(vec![], vec![WareAmount::new(Ware::Apple, 2)], u64::MAX, 0, 0);
    assert!(!f.can_produce(DateTime::from_hours(1)));
    let g = factory(vec![], vec![WareAmount::new(Ware::Apple, 2)], 10, 0, 0);
    assert!(g.can_produce(DateTime::from_hours(1000)));
}

#[test]
fn repeated_input_ware_counts_its_total_need() {
    let mut f = factory(
        vec![WareAmount::new(Ware::Water, 2), WareAmount::new(Ware::Water, 3)],
        vec![WareAmount::new(Ware::Apple, 1)],
        5,
        0,
        0,
    );
    f.input_storage.insert_ware(WareAmount::new(Ware::Water, 11), ApproximateMoney(COST_SCALE));
    f.produce_one_hour();
    assert_eq!(f.output_storage.ware_amount(Ware::Apple).amount(), 2);
    assert_eq!(f.input_storage.ware_amount(Ware::Water).amount(), 1);
    assert_eq!(f.template.recipe.merged_inputs(), vec![WareAmount::new(Ware::Water, 5)]);
}
