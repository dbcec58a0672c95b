use vstd::prelude::*;

use crate::market::Market;
use crate::money::Money;
use crate::recipe::Recipe;
use crate::ware::WareAmount;

verus! {

/// The fixed description of a factory: its recipe and what an hour of work costs.
#[derive(Debug)]
pub struct FactoryTemplate {
    pub recipe: Recipe,
    pub hourly_wages: Money,
}

/// How a template would fare at current market prices. The margin is the
/// ratio of `hourly_income` to `hourly_expenses`: above one is a profit.
#[derive(Debug, Clone, Copy, PartialEq, Eq, Structural)]
pub enum EstimatedProfitMargin {
    Margin { hourly_income: u128, hourly_expenses: u128 },
    MissingInput,
    MissingOutput,
}

/// Every listed ware has an offer on the market.
pub open spec fn all_priced(s: Seq<WareAmount>, market: Market) -> bool {
    forall|i: int| 0 <= i < s.len() ==> market.book((#[trigger] s[i]).ware).len() > 0
}

/// The value of a list of ware amounts at the market's cheapest prices.
pub open spec fn market_value(s: Seq<WareAmount>, market: Market) -> nat
    decreases s.len(),
{
    if s.len() == 0 {
        0
    } else {
        market_value(s.drop_last(), market) + (s.last().amount as nat) * (market.book(
            s.last().ware,
        ).last().price_per_item.0 as nat)
    }
}

/// `x`, or the largest `u128` where `x` is larger.
pub open spec fn saturate(x: nat) -> nat {
    if x > u128::MAX {
        u128::MAX as nat
    } else {
        x
    }
}

fn saturating_product(a: u128, b: u128) -> (r: u128)
    ensures
        r == saturate((a as nat) * (b as nat)),
{
    match a.checked_mul(b) {
        Some(p) => p,
        None => u128::MAX,
    }
}

/// Whether some ware of `s` has no offer.
fn find_unpriced(s: &[WareAmount], market: &Market) -> (r: bool)
    requires
        market.wf(),
        market.market_offers_sorted,
    ensures
        r == !all_priced(s@, *market),
{
    let mut i: usize = 0;
    while i < s.len()
        invariant
            market.wf(),
            market.market_offers_sorted,
            i <= s@.len(),
            forall|j: int| 0 <= j < i ==> market.book((#[trigger] s@[j]).ware).len() > 0,
        decreases s@.len() - i,
    {
        if market.current_price(s[i].ware).is_none() {
            return true;
        }
        i = i + 1;
    }
    false
}

/// The value of `s` at the cheapest prices, saturating.
fn value_at(s: &[WareAmount], market: &Market) -> (r: u128)
    requires
        market.wf(),
        market.market_offers_sorted,
        all_priced(s@, *market),
    ensures
        r == saturate(market_value(s@, *market)),
{
    let mut total: u128 = 0;
    let mut i: usize = 0;
    while i < s.len()
        invariant
            market.wf(),
            market.market_offers_sorted,
            all_priced(s@, *market),
            i <= s@.len(),
            total == saturate(market_value(s@.take(i as int), *market)),
        decreases s@.len() - i,
    {
        let item = s[i];
        let price = match market.current_price(item.ware) {
            Some(p) => p.0,
            None => 0,
        };
        proof {
            assert(s@.take(i + 1).drop_last() == s@.take(i as int));
            assert(market.book(s@[i as int].ware).len() > 0);
            assert((item.amount as nat) * (price as nat) <= (u64::MAX as nat) * (u64::MAX as nat)) by (nonlinear_arith)
                requires
                    item.amount <= u64::MAX,
                    price <= u64::MAX,
            ;
        }
        total = total.saturating_add((item.amount as u128) * (price as u128));
        i = i + 1;
    }
    proof {
        assert(s@.take(i as int) == s@);
    }
    total
}

impl FactoryTemplate {
    /// The recipe runs at a positive rate, and the hourly wages split evenly
    /// over the applications of one hour.
    pub open spec fn wf(&self) -> bool {
        &&& self.recipe.rate.per_hour > 0
        &&& self.hourly_wages.0 % self.recipe.rate.per_hour == 0
    }

    pub fn new(recipe: Recipe, hourly_wages: Money) -> (r: Self)
        requires
            recipe.rate.per_hour > 0,
            hourly_wages.0 % recipe.rate.per_hour == 0,
        ensures
            r.recipe == recipe,
            r.hourly_wages == hourly_wages,
            r.wf(),
    {
        FactoryTemplate { recipe, hourly_wages }
    }

    pub fn recipe(&self) -> (r: &Recipe)
        ensures
            r == &self.recipe,
    {
        &self.recipe
    }

    /// Income and expenses of one hour at the market's cheapest prices, or
    /// which side lacks a price: inputs are checked first.
    pub fn estimated_profit_margin(&self, market: &Market) -> (r: EstimatedProfitMargin)
        requires
            market.wf(),
            market.market_offers_sorted,
        ensures
            !all_priced(self.recipe.inputs@, *market) ==> r == EstimatedProfitMargin::MissingInput,
            all_priced(self.recipe.inputs@, *market) && !all_priced(self.recipe.outputs@, *market) ==> r
                == EstimatedProfitMargin::MissingOutput,
            all_priced(self.recipe.inputs@, *market) && all_priced(self.recipe.outputs@, *market) ==> r == (
            EstimatedProfitMargin::Margin {
                hourly_income: saturate(
                    saturate(market_value(self.recipe.outputs@, *market)) * (self.recipe.rate.per_hour as nat),
                ) as u128,
                hourly_expenses: saturate(
                    (self.hourly_wages.0 as nat) + saturate(
                        saturate(market_value(self.recipe.inputs@, *market)) * (self.recipe.rate.per_hour as nat),
                    ),
                ) as u128,
            }),
    {
        if find_unpriced(self.recipe.inputs(), market) {
            return EstimatedProfitMargin::MissingInput;
        }
        if find_unpriced(self.recipe.outputs(), market) {
            return EstimatedProfitMargin::MissingOutput;
        }
        let rate = self.recipe.rate.per_hour as u128;
        let inputs = saturating_product(value_at(self.recipe.inputs(), market), rate);
        let hourly_expenses = (self.hourly_wages.0 as u128).saturating_add(inputs);
        let hourly_income = saturating_product(value_at(self.recipe.outputs(), market), rate);
        EstimatedProfitMargin::Margin { hourly_income, hourly_expenses }
    }

    pub fn hourly_wages(&self) -> (r: Money)
        ensures
            r == self.hourly_wages,
    {
        self.hourly_wages
    }
}

} // verus!
