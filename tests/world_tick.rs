use economy_sim::consumer::Consumer;
use economy_sim::factory::{Factory, FactoryId};
use economy_sim::money::Money;
use economy_sim::recipe::{ProductionRate, Recipe};
use economy_sim::template::FactoryTemplate;
use economy_sim::time::DateTime;
use economy_sim::ware::{Ware, WareAmount};
use economy_sim::world::{SimulationError, World};
use rand::SeedableRng;
use rand_xoshiro::Xoshiro256PlusPlus;

fn factory(inputs: Vec<WareAmount>, outputs: Vec<WareAmount>, rate: u64, wages: u64, money: u64) -> Factory {
    let template = FactoryTemplate::new(Recipe::new(inputs, outputs, ProductionRate::new(rate)), Money(wages));
    Factory::new(template, Money(money))
}

fn stock(world: &World, ware: Ware) -> u64 {
    let mut total = 0;
    for id in world.factory_ids() {
        let f = world.factory(id);
        total += f.input_storage.ware_amount(ware).amount() + f.output_storage.ware_amount(ware).amount();
    }
    let book = &world.market().offers[ware.to_index()];
    total + book.iter().map(|o| o.amount).sum::<u64>()
}

fn money(world: &World) -> u64 {
    let ids = world.factory_ids();
    let balances: u64 = ids.iter().map(|&id| world.factory(id).money().raw()).sum();
    let owed: u128 = ids.iter().map(|&id| world.market().owed_to(id)).sum();
    balances + owed as u64
}

#[test]
fn tick_without_consumers_conserves_money_but_wages() {
    let mut world = World::new(
        vec![
            factory(vec![], vec![WareAmount::new(Ware::Water, 10)], 1, 10, 1000),
            factory(vec![WareAmount::new(Ware::Water, 5)], vec![WareAmount::new(Ware::Apple, 1)], 1, 10, 1000),
        ],
        vec![],
    );
    let mut rng = Xoshiro256PlusPlus::seed_from_u64(11);
    assert_eq!(money(&world), 2000);
    assert_eq!(world.advance_hour(&mut rng), Ok(()));
    assert_eq!(world.time(), DateTime::from_hours(1));
    // Only the water works in the first hour: ten units for one hour's wages.
    assert_eq!(money(&world), 2000 - 10);
    assert_eq!(stock(&world, Ware::Water), 10);
    assert_eq!(world.factory(FactoryId(1)).input_storage.ware_amount(Ware::Water).amount(), 5);
    assert_eq!(world.factory(FactoryId(0)).money(), Money(995));
    let apples_before = stock(&world, Ware::Apple);
    assert_eq!(world.advance_hour(&mut rng), Ok(()));
    // Both work in the second hour: two hours of wages leave the economy.
    assert_eq!(money(&world), 2000 - 30);
    assert_eq!(stock(&world, Ware::Water), 15);
    assert_eq!(stock(&world, Ware::Apple), apples_before + 1);
}

#[test]
fn world_runs_the_orchard_with_a_consumer() {
    let mut world = World::new(
        vec![
            factory(vec![], vec![WareAmount::new(Ware::Water, 10)], 100, 100, 10_000),
            factory(vec![], vec![WareAmount::new(Ware::Seed, 1)], 1, 100, 10_000),
            factory(
                vec![WareAmount::new(Ware::Water, 100), WareAmount::new(Ware::Seed, 1)],
                vec![WareAmount::new(Ware::Apple, 10), WareAmount::new(Ware::Seed, 2)],
                10,
                100,
                10_000,
            ),
        ],
        vec![Consumer::new(WareAmount::new(Ware::Apple, 100), Money(11), 900_000)],
    );
    let ids = world.factory_ids();
    assert_eq!(ids, vec![FactoryId(0), FactoryId(1), FactoryId(2)]);
    let mut rng = Xoshiro256PlusPlus::seed_from_u64(5);
    assert_eq!(world.advance_time(DateTime::from_hours(10), &mut rng), Ok(()));
    assert_eq!(world.time().into_hours(), 10);
    assert_eq!(world.consumers().len(), 1);
    assert!(world.market().market_offers_sorted);
}

#[test]
fn clock_overflow_is_reported() {
    let mut world = World::new(vec![], vec![]);
    world.time = DateTime::from_hours(u64::MAX);
    let mut rng = Xoshiro256PlusPlus::seed_from_u64(5);
    assert_eq!(world.advance_hour(&mut rng), Err(SimulationError::ClockOverflow));
}

#[test]
fn ware_nobody_makes_never_grows() {
    let mut orchard = factory(
        vec![WareAmount::new(Ware::Seed, 1)],
        vec![WareAmount::new(Ware::Apple, 1)],
        2,
        2,
        1000,
    );
    orchard.input_storage.insert_ware(WareAmount::new(Ware::Seed, 5), economy_sim::money::ApproximateMoney(0));
    let mut world = World::new(vec![orchard], vec![]);
    let mut rng = Xoshiro256PlusPlus::seed_from_u64(2);
    let mut seeds = stock(&world, Ware::Seed);
    assert_eq!(seeds, 5);
    for _ in 0..4 {
        assert_eq!(world.advance_hour(&mut rng), Ok(()));
        let now = stock(&world, Ware::Seed);
        assert!(now <= seeds);
        seeds = now;
    }
    assert_eq!(seeds, 0);
    assert_eq!(stock(&world, Ware::Apple), 5);
}
