use economy_sim::money::{per_item, ApproximateMoney, Money, COST_SCALE};
use economy_sim::recipe::{ProductionRate, Recipe};
use economy_sim::factory::FactoryId;
use economy_sim::market::Market;
use economy_sim::template::{EstimatedProfitMargin, FactoryTemplate};
use rand::SeedableRng;
use rand_xoshiro::Xoshiro256PlusPlus;
use economy_sim::time::DateTime;
use economy_sim::ware::{Ware, WareAmount};

#[test]
fn money_checked_add_and_saturating_sub() {
    assert_eq!(Money(3).checked_add(Money(4)), Some(Money(7)));
    assert_eq!(Money(u64::MAX).checked_add(Money(1)), None);
    assert_eq!(Money(10).saturating_sub(Money(3)), Money(7));
    assert_eq!(Money(3).saturating_sub(Money(10)), Money(0));
    assert_eq!(Money::from(42).raw(), 42);
}

#[test]
fn approximate_money_rounds_up_to_whole_units() {
    assert_eq!(ApproximateMoney(0).ceil_money(), Money(0));
    assert_eq!(ApproximateMoney(COST_SCALE).ceil_money(), Money(1));
    assert_eq!(ApproximateMoney(COST_SCALE + 1).ceil_money(), Money(2));
    assert_eq!(ApproximateMoney(10 * COST_SCALE + COST_SCALE / 3).ceil_money(), Money(11));
    assert_eq!(ApproximateMoney::from_money(Money(5)), Some(ApproximateMoney(5 * COST_SCALE)));
    assert_eq!(ApproximateMoney::from_money(Money(u64::MAX)), None);
}

#[test]
fn per_item_divides_and_saturates() {
    assert_eq!(per_item(100, 10), ApproximateMoney(10));
    assert_eq!(per_item(101, 10), ApproximateMoney(10));
    assert_eq!(per_item(u128::MAX, 1), ApproximateMoney(u64::MAX));
}

#[test]
fn ware_amount_arithmetic() {
    let w = WareAmount::new(Ware::Seed, 7);
    assert_eq!(w.ware(), Ware::Seed);
    assert_eq!(w.amount(), 7);
    assert_eq!(w.with_amount(3), WareAmount::new(Ware::Seed, 3));
    assert_eq!(w.checked_mul(3), Some(WareAmount::new(Ware::Seed, 21)));
    assert_eq!(w.checked_mul(u64::MAX), None);
    assert_eq!(WareAmount::new(Ware::Seed, 22).div_amount(&w), 3);
    assert!(!Ware::Water.is_countable());
    assert!(Ware::Apple.is_countable());
    assert_eq!(Ware::Apple.name(), "apple");
    assert_eq!(Ware::from_index(1), Ware::Seed);
    assert_eq!(Ware::Apple.to_index(), 2);
}

#[test]
fn date_time_steps() {
    let mut t = DateTime::from_hours(5);
    t.increment();
    assert_eq!(t.into_hours(), 6);
    assert_eq!(t.saturating_sub(DateTime::from_hours(2)), DateTime::from_hours(4));
    assert_eq!(t.saturating_sub(DateTime::from_hours(9)), DateTime::from_hours(0));
}

#[test]
fn recipe_and_template_accessors() {
    let recipe = Recipe::new(
        vec![WareAmount::new(Ware::Water, 100), WareAmount::new(Ware::Seed, 1)],
        vec![WareAmount::new(Ware::Apple, 10), WareAmount::new(Ware::Seed, 2)],
        ProductionRate::new(10),
    );
    assert_eq!(recipe.rate().per_hour(), 10);
    assert_eq!(recipe.inputs().len(), 2);
    assert_eq!(recipe.outputs()[0], WareAmount::new(Ware::Apple, 10));
    assert_eq!(recipe.output_amount(), 12);
    assert_eq!(ProductionRate::new(4).applications_in(DateTime::from_hours(3)), Some(12));
    assert_eq!(ProductionRate::new(u64::MAX).applications_in(DateTime::from_hours(2)), None);
    let template = FactoryTemplate::new(recipe, Money(100));
    assert_eq!(template.hourly_wages(), Money(100));
    assert_eq!(template.recipe().rate().per_hour(), 10);
}

fn orchard() -> FactoryTemplate {
    FactoryTemplate::new(
        Recipe::new(
            vec![WareAmount::new(Ware::Water, 100), WareAmount::new(Ware::Seed, 1)],
            vec![WareAmount::new(Ware::Apple, 10), WareAmount::new(Ware::Seed, 2)],
            ProductionRate::new(10),
        ),
        Money(100),
    )
}

fn priced(prices: &[(Ware, u64)]) -> Market {
    let mut market = Market::new();
    for &(ware, price) in prices {
        market.offer(ware, 5, Money(price + 1), FactoryId(0));
        market.offer(ware, 5, Money(price), FactoryId(1));
    }
    market.sort_offers(&mut Xoshiro256PlusPlus::seed_from_u64(9));
    market
}

#[test]
fn profit_margin_at_cheapest_prices() {
    let market = priced(&[(Ware::Water, 1), (Ware::Seed, 3), (Ware::Apple, 20)]);
    // Expenses: 100 wages + (100 * 1 + 1 * 3) * 10; income: (10 * 20 + 2 * 3) * 10.
    assert_eq!(
        orchard().estimated_profit_margin(&market),
        EstimatedProfitMargin::Margin { hourly_income: 2060, hourly_expenses: 1130 }
    );
}

#[test]
fn profit_margin_reports_missing_prices() {
    let no_water = priced(&[(Ware::Seed, 3), (Ware::Apple, 20)]);
    assert_eq!(orchard().estimated_profit_margin(&no_water), EstimatedProfitMargin::MissingInput);
    let no_apples = priced(&[(Ware::Water, 1), (Ware::Seed, 3)]);
    assert_eq!(orchard().estimated_profit_margin(&no_apples), EstimatedProfitMargin::MissingOutput);
}
