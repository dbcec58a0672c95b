use vstd::prelude::*;

use crate::market::{book_total, credits_total, min_nat, others, owed, purchase, quote_cost, Market, MarketOffer, Purchase};
use crate::money::{ceil_div, per_item, unit_cost, ApproximateMoney, Money, COST_SCALE};
use crate::recipe::total_amount;
use crate::recipe::{distinct_wares, lemma_merged_distinct, merged};
use crate::template::FactoryTemplate;
use crate::time::DateTime;
use crate::ware::{Ware, WareAmount};
use crate::warehouse::{stock_total, tagged, take_cost, take_rest, PartialWarehouseBatch, Warehouse, WarehouseBatch};

verus! {

/// The stable handle of a factory within a world.
#[derive(Debug, Clone, Copy, PartialEq, Eq, Structural, PartialOrd, Ord, Hash)]
pub struct FactoryId(pub usize);

impl From<usize> for FactoryId {
    fn from(value: usize) -> (r: Self)
        ensures
            r.0 == value,
    {
        FactoryId(value)
    }
}

impl vstd::std_specs::convert::FromSpecImpl<usize> for FactoryId {
    open spec fn obeys_from_spec() -> bool {
        true
    }

    open spec fn from_spec(v: usize) -> FactoryId {
        FactoryId(v)
    }
}

/// A production site: a template, stores for inputs and outputs, and a balance.
#[derive(Debug)]
pub struct Factory {
    pub template: FactoryTemplate,
    pub input_storage: Warehouse,
    pub output_storage: Warehouse,
    pub money: Money,
}

/// How many applications the stock allows, starting from `apps` and going
/// through the inputs in order: where an input falls short, the count drops to
/// what its stock covers.
pub open spec fn input_limit(inputs: Seq<WareAmount>, wh: Warehouse, apps: nat) -> nat
    decreases inputs.len(),
{
    if inputs.len() == 0 {
        apps
    } else {
        let a = input_limit(inputs.drop_last(), wh, apps);
        let i = inputs.last();
        if i.amount > 0 && wh.stock(i.ware) < i.amount * a {
            wh.stock(i.ware) / (i.amount as nat)
        } else {
            a
        }
    }
}

/// At most `apps` applications, and no more whole hours of them than the balance pays for.
pub open spec fn wage_limit(money: nat, wages: nat, per_hour: nat, apps: nat) -> nat {
    if wages == 0 || apps <= per_hour * (money / wages) {
        apps
    } else {
        per_hour * (money / wages)
    }
}

/// The quantity of ware `w` that one application needs.
pub open spec fn input_need(inputs: Seq<WareAmount>, w: Ware) -> nat
    decreases inputs.len(),
{
    if inputs.len() == 0 {
        0
    } else {
        input_need(inputs.drop_last(), w) + if inputs.last().ware == w {
            inputs.last().amount as nat
        } else {
            0
        }
    }
}

/// The sourcing cost, in fixed-point steps, of the inputs that `apps`
/// applications use, each input taken oldest stock first.
pub open spec fn inputs_cost(inputs: Seq<WareAmount>, wh: Warehouse, apps: nat) -> nat
    decreases inputs.len(),
{
    if inputs.len() == 0 {
        0
    } else {
        let i = inputs.last();
        let need = (i.amount as nat) * apps;
        inputs_cost(inputs.drop_last(), wh, apps) + if need == 0 {
            0
        } else {
            (take_cost(wh.batches(i.ware), need) / need) * need
        }
    }
}

/// The batches of ware `w` that `apps` applications add to the output store, in recipe order.
pub open spec fn output_batches(outputs: Seq<WareAmount>, w: Ware, apps: nat, cost: u64) -> Seq<
    PartialWarehouseBatch,
>
    decreases outputs.len(),
{
    if outputs.len() == 0 {
        Seq::empty()
    } else {
        let o = outputs.last();
        output_batches(outputs.drop_last(), w, apps, cost) + if o.ware == w && o.amount * apps > 0 {
            seq![PartialWarehouseBatch { sourcing_cost_per_item: ApproximateMoney(cost), amount: (o.amount * apps) as u64 }]
        } else {
            Seq::empty()
        }
    }
}

/// How much to move from `output` stock into `input` stock to meet `need`:
/// what is missing, as far as the output holds and the input has room.
pub open spec fn transfer_amount(input: nat, output: nat, need: nat) -> nat {
    let missing = if need > input { (need - input) as nat } else { 0 };
    let t = min_nat(missing, output);
    if t > u64::MAX - input { (u64::MAX - input) as nat } else { t }
}

/// The market offer made for a batch of output.
pub open spec fn offer_for(b: WarehouseBatch, id: FactoryId) -> MarketOffer {
    MarketOffer {
        source_factory: id,
        amount: b.amount,
        price_per_item: Money(ceil_div(b.sourcing_cost_per_item.0 as nat, COST_SCALE as nat) as u64),
    }
}

/// The offers of ware `w` made for a list of batches, in order.
pub open spec fn offers_of(bs: Seq<WarehouseBatch>, w: Ware, id: FactoryId) -> Seq<MarketOffer>
    decreases bs.len(),
{
    if bs.len() == 0 {
        Seq::empty()
    } else {
        let b = bs.last();
        if b.ware == w {
            offers_of(bs.drop_last(), w, id).push(offer_for(b, id))
        } else {
            offers_of(bs.drop_last(), w, id)
        }
    }
}

/// What `input` lacks in `wh` for `t` applications, limited to the room left in the store.
pub open spec fn shortfall(input: WareAmount, wh: Warehouse, t: nat) -> nat {
    let required = input.amount * t;
    let missing = if required > wh.stock(input.ware) { (required - wh.stock(input.ware)) as nat } else { 0 };
    min_nat(missing, (u64::MAX - wh.stock(input.ware)) as nat)
}

/// The balance left after buying, input by input, each input's shortfall for
/// `t` applications from the books of `market`, starting with `money`.
pub open spec fn money_after_buying(inputs: Seq<WareAmount>, wh: Warehouse, market: Market, money: nat, t: nat) -> nat
    decreases inputs.len(),
{
    if inputs.len() == 0 {
        money
    } else {
        let m = money_after_buying(inputs.drop_last(), wh, market, money, t);
        (m - purchase(market.book(inputs.last().ware), shortfall(inputs.last(), wh, t), m).spent) as nat
    }
}

/// The cost at the current books of buying, for every input, its shortfall for `t` applications.
pub open spec fn plan_cost(inputs: Seq<WareAmount>, wh: Warehouse, market: Market, t: nat) -> nat
    decreases inputs.len(),
{
    if inputs.len() == 0 {
        0
    } else {
        plan_cost(inputs.drop_last(), wh, market, t) + quote_cost(
            market.book(inputs.last().ware),
            shortfall(inputs.last(), wh, t),
        )
    }
}

impl Factory {
    pub open spec fn wf(&self) -> bool {
        &&& self.template.wf()
        &&& self.input_storage.wf()
        &&& self.output_storage.wf()
    }

    /// The recipe's inputs, each ware once with its quantities summed.
    pub open spec fn inputs(&self) -> Seq<WareAmount> {
        merged(self.template.recipe.inputs@)
    }

    pub open spec fn outputs(&self) -> Seq<WareAmount> {
        self.template.recipe.outputs@
    }

    pub open spec fn per_hour(&self) -> nat {
        self.template.recipe.rate.per_hour as nat
    }

    pub open spec fn wages(&self) -> nat {
        self.template.hourly_wages.0 as nat
    }

    /// How many recipe applications a run of `duration` performs: bounded by
    /// the rate, by the scarcest input and by the whole hours the balance pays for.
    pub open spec fn applications(&self, duration: DateTime) -> nat {
        wage_limit(
            self.money.0 as nat,
            self.wages(),
            self.per_hour(),
            input_limit(self.inputs(), self.input_storage, self.per_hour() * (duration.hours as nat)),
        )
    }

    /// What the factory holds of ware `w`, inputs and outputs together.
    pub open spec fn ware_held(&self, w: Ware) -> nat {
        self.input_storage.stock(w) + self.output_storage.stock(w)
    }

    /// Whether the recipe yields some of ware `w`.
    pub open spec fn makes(&self, w: Ware) -> bool {
        exists|i: int| 0 <= i < self.outputs().len() && (#[trigger] self.outputs()[i]).ware == w && self.outputs()[i].amount > 0
    }

    /// The wages a run of `duration` pays: the hourly wages for every hour begun.
    pub open spec fn wages_for(&self, duration: DateTime) -> nat {
        let apps = self.applications(duration);
        if apps == 0 {
            0
        } else {
            self.wages() * ceil_div(apps, self.per_hour())
        }
    }

    /// Running for `duration` stays within the integer range: the number of
    /// applications, the units produced, and the output stock they land in.
    pub open spec fn produce_fits(&self, duration: DateTime) -> bool {
        let most = self.per_hour() * duration.hours;
        &&& most <= u64::MAX
        &&& total_amount(self.outputs()) * most <= u64::MAX
        &&& forall|w: Ware| #[trigger] self.output_storage.stock(w) + total_amount(self.outputs()) * most <= u64::MAX
    }

    pub fn new(template: FactoryTemplate, starting_money: Money) -> (r: Self)
        requires
            template.wf(),
        ensures
            r.wf(),
            r.template == template,
            r.money == starting_money,
            forall|w: Ware| #[trigger] r.input_storage.batches(w).len() == 0 && r.output_storage.batches(w).len() == 0,
    {
        Factory { template, input_storage: Warehouse::new(), output_storage: Warehouse::new(), money: starting_money }
    }

    pub fn money(&self) -> (r: Money)
        ensures
            r == self.money,
    {
        self.money
    }

    /// Whether [`Factory::produce`] may run for `duration`.
    pub fn can_produce(&self, duration: DateTime) -> (r: bool)
        requires
            self.wf(),
        ensures
            r == self.produce_fits(duration),
    {
        let r = self.template.recipe.rate.per_hour;
        proof {
            lemma_mul_u64_fits(r, duration.hours);
        }
        let most = (r as u128) * (duration.hours as u128);
        if most > u64::MAX as u128 {
            return false;
        }
        let total = self.template.recipe.output_amount();
        proof {
            assert(total_amount(self.outputs()) <= self.outputs().len() * (u64::MAX as nat)) by {
                lemma_total_amount_bound(self.outputs());
            }
        }
        if total > u64::MAX as u128 {
            proof {
                assert(total_amount(self.outputs()) * most > u64::MAX || most == 0) by (nonlinear_arith)
                    requires
                        total_amount(self.outputs()) > u64::MAX,
                ;
            }
            if most == 0 {
                proof {
                    assert(total_amount(self.outputs()) * most == 0) by (nonlinear_arith)
                        requires
                            most == 0,
                    ;
                }
                return self.stocks_fit(0);
            }
            return false;
        }
        proof {
            lemma_mul_u64_fits(total as u64, most as u64);
        }
        let units = total * most;
        if units > u64::MAX as u128 {
            return false;
        }
        self.stocks_fit(units as u64)
    }

    fn stocks_fit(&self, extra: u64) -> (r: bool)
        requires
            self.wf(),
        ensures
            r == forall|w: Ware| #[trigger] self.output_storage.stock(w) + extra <= u64::MAX,
    {
        let a = self.output_storage.ware_amount(Ware::Water).amount;
        let b = self.output_storage.ware_amount(Ware::Seed).amount;
        let c = self.output_storage.ware_amount(Ware::Apple).amount;
        let r = a <= u64::MAX - extra && b <= u64::MAX - extra && c <= u64::MAX - extra;
        proof {
            if r {
                assert forall|w: Ware| #[trigger] self.output_storage.stock(w) + extra <= u64::MAX by {
                    match w {
                        Ware::Water => {},
                        Ware::Seed => {},
                        Ware::Apple => {},
                    }
                }
            }
        }
        r
    }

    /// Runs the recipe for `duration`: as many applications as the rate, the
    /// scarcest input and the affordable whole hours allow. Pays the wages for
    /// the hours begun, takes the inputs oldest stock first, and stores the
    /// outputs at one per-item cost: wages plus input costs over the units made.
    /// With no application possible nothing changes.
    pub fn produce(&mut self, duration: DateTime)
        requires
            old(self).wf(),
            old(self).produce_fits(duration),
        ensures
            final(self).wf(),
            final(self).template == old(self).template,
            final(self).money.0 == old(self).money.0 - old(self).wages_for(duration),
            forall|w: Ware| !old(self).makes(w) ==> #[trigger] final(self).ware_held(w) <= old(self).ware_held(w),
            ({
                let apps = old(self).applications(duration);
                let hours = ceil_div(apps, old(self).per_hour());
                let wages = old(self).wages() * hours;
                let cost = unit_cost(
                    min_nat(
                        wages * (COST_SCALE as nat) + inputs_cost(old(self).inputs(), old(self).input_storage, apps),
                        u128::MAX as nat,
                    ),
                    total_amount(old(self).outputs()) * apps,
                );
                if apps == 0 {
                    &&& final(self).money == old(self).money
                    &&& final(self).input_storage == old(self).input_storage
                    &&& final(self).output_storage == old(self).output_storage
                } else {
                    &&& final(self).money.0 == old(self).money.0 - wages
                    &&& forall|w: Ware| #[trigger] final(self).input_storage.batches(w) == take_rest(
                        old(self).input_storage.batches(w),
                        input_need(old(self).inputs(), w) * apps,
                    )
                    &&& forall|w: Ware| #[trigger] final(self).output_storage.batches(w) == old(
                        self,
                    ).output_storage.batches(w) + output_batches(old(self).outputs(), w, apps, cost)
                }
            }),
    {
        let per_hour = self.template.recipe.rate.per_hour;
        let most = per_hour * duration.hours;
        let mut apps = self.input_applications(most);
        let ghost limit = apps as nat;
        let wages_per_hour = self.template.hourly_wages.0;
        if wages_per_hour > 0 {
            let affordable_hours = self.money.0 / wages_per_hour;
            proof {
                lemma_mul_u64_fits(affordable_hours, per_hour);
            }
            let cap = (affordable_hours as u128) * (per_hour as u128);
            if (apps as u128) > cap {
                apps = cap as u64;
            }
            proof {
                let c = cap as int;
                let h = affordable_hours as int;
                let r = per_hour as int;
                assert(c == r * h) by (nonlinear_arith)
                    requires
                        c == h * r,
                ;
            }
        }
        if apps == 0 {
            return;
        }
        proof {
            lemma_hours_affordable(apps as nat, per_hour as nat, self.money.0 as nat, wages_per_hour as nat);
        }
        let hours = if apps % per_hour == 0 {
            apps / per_hour
        } else {
            apps / per_hour + 1
        };
        proof {
            lemma_input_limit(self.inputs(), self.input_storage, most as nat);
            assert forall|i: int| 0 <= i < self.inputs().len() implies (#[trigger] self.inputs()[i]).amount * apps
                <= self.input_storage.stock(self.inputs()[i].ware) by {
                let m = self.inputs()[i].amount as int;
                assert(m * apps <= m * limit) by (nonlinear_arith)
                    requires
                        apps <= limit,
                        m >= 0,
                ;
            }
            assert(total_amount(self.outputs()) * apps <= total_amount(self.outputs()) * most) by (nonlinear_arith)
                requires
                    apps <= most,
            ;
        }
        let wages = wages_per_hour * hours;
        self.money.0 = self.money.0 - wages;
        let base = (wages as u128) * (COST_SCALE as u128);
        let total_cost = self.consume_inputs(apps, base);
        let units = self.template.recipe.output_amount() * (apps as u128);
        let cost = if units > 0 {
            per_item(total_cost, units)
        } else {
            ApproximateMoney(0)
        };
        proof {
            if units == 0 {
                lemma_no_output_batches(self.outputs(), apps as nat, cost.0, unit_cost(
                    min_nat(
                        (wages as nat) * (COST_SCALE as nat) + inputs_cost(old(self).inputs(), old(self).input_storage, apps as nat),
                        u128::MAX as nat,
                    ),
                    0,
                ));
            }
        }
        let ghost mid = *self;
        self.store_outputs(apps, cost);
        proof {
            assert forall|w: Ware| !old(self).makes(w) implies #[trigger] self.ware_held(w) <= old(self).ware_held(w) by {
                lemma_take_rest_shrinks(old(self).input_storage.batches(w), input_need(old(self).inputs(), w) * (apps as nat));
                assert forall|i: int| 0 <= i < self.outputs().len() && (#[trigger] self.outputs()[i]).ware == w implies self.outputs()[i].amount == 0 by {
                    if self.outputs()[i].amount > 0 {
                        assert(old(self).makes(w));
                    }
                }
                lemma_no_batches_of_unmade(self.outputs(), w, apps as nat, cost.0);
                assert(mid.output_storage.batches(w) + Seq::<PartialWarehouseBatch>::empty() == mid.output_storage.batches(w));
            }
        }
    }

    pub fn produce_one_hour(&mut self)
        requires
            old(self).wf(),
            old(self).produce_fits(DateTime { hours: 1 }),
        ensures
            final(self).wf(),
            final(self).template == old(self).template,
            final(self).money.0 == old(self).money.0 - old(self).wages_for(DateTime { hours: 1 }),
            forall|w: Ware| !old(self).makes(w) ==> #[trigger] final(self).ware_held(w) <= old(self).ware_held(w),
    {
        self.produce(DateTime::from_hours(1));
    }

    /// Moves from the output store to the input store what the next hour's
    /// production lacks of each input, as far as the output store holds it,
    /// at the cost it was produced at.
    pub fn reuse_inputs(&mut self)
        requires
            old(self).wf(),
        ensures
            final(self).wf(),
            final(self).template == old(self).template,
            final(self).money == old(self).money,
            forall|w: Ware| #[trigger]
                final(self).reused_to(*old(self), w, input_need(old(self).inputs(), w) * old(self).per_hour()),
            forall|w: Ware| #[trigger] final(self).ware_held(w) == old(self).ware_held(w),
    {
        let per_hour = self.template.recipe.rate.per_hour;
        let ghost start = *self;
        let ghost inputs_s = self.inputs();
        let inputs = self.template.recipe.merged_inputs();
        let mut j: usize = 0;
        proof {
            lemma_merged_distinct(self.template.recipe.inputs@);
            assert(inputs_s.take(0) == Seq::<WareAmount>::empty());
            assert forall|w: Ware| #[trigger] self.reused_to(start, w, input_need(inputs_s.take(0), w) * (per_hour as nat)) by {
                assert(input_need(inputs_s.take(0), w) == 0);
                assert(input_need(inputs_s.take(0), w) * (per_hour as nat) == 0);
                assert(take_rest(start.output_storage.batches(w), 0) == start.output_storage.batches(w));
            }
        }
        while j < inputs.len()
            invariant
                self.wf(),
                self.template == start.template,
                self.money == start.money,
                start.wf(),
                inputs_s == self.inputs(),
                inputs@ == inputs_s,
                distinct_wares(inputs_s),
                per_hour == self.template.recipe.rate.per_hour,
                j <= inputs_s.len(),
                forall|w: Ware| #[trigger] self.reused_to(start, w, input_need(inputs_s.take(j as int), w) * (per_hour as nat)),
            decreases inputs_s.len() - j,
        {
            let input = inputs[j];
            proof {
                assert(inputs_s.take(j + 1).drop_last() == inputs_s.take(j as int));
                lemma_need_before(inputs_s, j as int);
                assert(inputs_s[j as int] == input);
                lemma_mul_u64_fits(input.amount, per_hour);
                assert(take_rest(start.output_storage.batches(input.ware), 0) == start.output_storage.batches(input.ware));
                assert(self.reused_to(start, input.ware, input_need(inputs_s.take(j as int), input.ware) * (per_hour as nat)));
                assert(input_need(inputs_s.take(j as int), input.ware) * (per_hour as nat) == 0);
                assert(self.reused_to(start, input.ware, 0));
            }
            let ghost before = *self;
            let required = (input.amount as u128) * (per_hour as u128);
            let available = self.input_storage.ware_amount(input.ware).amount;
            let missing = if required > available as u128 {
                required - available as u128
            } else {
                0
            };
            let reusable = self.output_storage.ware_amount(input.ware).amount;
            let mut transfer = if missing < reusable as u128 {
                missing as u64
            } else {
                reusable
            };
            if transfer > u64::MAX - available {
                transfer = u64::MAX - available;
            }
            if transfer > 0 {
                let cost = self.output_storage.remove_ware(WareAmount::new(input.ware, transfer));
                self.input_storage.insert_ware(WareAmount::new(input.ware, transfer), cost);
            }
            proof {
                assert forall|w: Ware| #[trigger] self.reused_to(start, w, input_need(inputs_s.take(j + 1), w) * (per_hour as nat)) by {
                    if w != input.ware {
                        assert(input_need(inputs_s.take(j + 1), w) == input_need(inputs_s.take(j as int), w));
                        assert(before.reused_to(start, w, input_need(inputs_s.take(j as int), w) * (per_hour as nat)));
                    } else {
                        assert(input_need(inputs_s.take(j + 1), w) == input.amount);
                    }
                }
            }
            j = j + 1;
        }
        proof {
            assert(inputs_s.take(j as int) == inputs_s);
            assert forall|w: Ware| #[trigger] self.ware_held(w) == start.ware_held(w) by {
                let need = input_need(inputs_s, w) * (per_hour as nat);
                assert(self.reused_to(start, w, need));
                let t = transfer_amount(start.input_storage.stock(w), start.output_storage.stock(w), need);
                let src = start.output_storage.batches(w);
                assert(start.output_storage.wares@[w.index() as int].wf());
                crate::warehouse::lemma_take_within_stock(src, t);
                if t > 0 {
                    crate::warehouse::lemma_stock_total_push(
                        start.input_storage.batches(w),
                        PartialWarehouseBatch { sourcing_cost_per_item: ApproximateMoney((take_cost(src, t) / t) as u64), amount: t as u64 },
                    );
                }
            }
        }
    }

    /// Empties the output store onto the market, each batch offered at its
    /// sourcing cost rounded up to a whole currency unit.
    pub fn offer_outputs(&mut self, market: &mut Market, factory_id: FactoryId)
        requires
            old(self).wf(),
            old(market).wf(),
        ensures
            final(self).wf(),
            final(self).template == old(self).template,
            final(self).money == old(self).money,
            final(self).input_storage == old(self).input_storage,
            forall|w: Ware| #[trigger] final(self).output_storage.batches(w).len() == 0,
            final(market).wf(),
            final(market).credits() == old(market).credits(),
            final(market).market_offers_sorted ==> old(market).market_offers_sorted,
            forall|w: Ware| #[trigger] final(market).book(w) == old(market).book(w) + offers_of(
                old(self).output_storage.contents(),
                w,
                factory_id,
            ),
            forall|w: Ware| #[trigger] final(self).ware_held(w) + book_total(final(market).book(w))
                == old(self).ware_held(w) + book_total(old(market).book(w)),
    {
        let batches = self.output_storage.drain();
        let mut j: usize = 0;
        let ghost m0 = *market;
        proof {
            assert(batches@.take(0) == Seq::<WarehouseBatch>::empty());
            assert forall|w: Ware| #[trigger] market.book(w) == m0.book(w) + offers_of(batches@.take(0), w, factory_id) by {
                assert(m0.book(w) + Seq::<MarketOffer>::empty() == m0.book(w));
            }
        }
        while j < batches.len()
            invariant
                market.wf(),
                market.credits() == m0.credits(),
                market.market_offers_sorted ==> m0.market_offers_sorted,
                j <= batches@.len(),
                forall|w: Ware| #[trigger] market.book(w) == m0.book(w) + offers_of(batches@.take(j as int), w, factory_id),
            decreases batches@.len() - j,
        {
            let b = batches[j];
            let ghost before = *market;
            market.offer(b.ware, b.amount, b.sourcing_cost_per_item.ceil_money(), factory_id);
            proof {
                assert(batches@.take(j + 1).drop_last() == batches@.take(j as int));
                assert(batches@.take(j + 1).last() == b);
                assert forall|w: Ware| #[trigger] market.book(w) == m0.book(w) + offers_of(batches@.take(j + 1), w, factory_id) by {
                    assert(before.book(w) == m0.book(w) + offers_of(batches@.take(j as int), w, factory_id));
                    if w == b.ware {
                        assert(m0.book(w) + offers_of(batches@.take(j as int), w, factory_id).push(offer_for(b, factory_id))
                            == (m0.book(w) + offers_of(batches@.take(j as int), w, factory_id)).push(offer_for(b, factory_id)));
                    } else {
                        assert(offers_of(batches@.take(j + 1), w, factory_id) == offers_of(batches@.take(j as int), w, factory_id));
                    }
                }
            }
            j = j + 1;
        }
        proof {
            assert(batches@.take(j as int) == batches@);
            assert forall|w: Ware| #[trigger] self.ware_held(w) + book_total(market.book(w))
                == old(self).ware_held(w) + book_total(old(market).book(w)) by {
                lemma_offers_of_contents(old(self).output_storage, w, factory_id);
                lemma_book_total_concat(old(market).book(w), offers_of(old(self).output_storage.contents(), w, factory_id));
                assert(self.output_storage.stock(w) == 0);
            }
        }
    }

    /// Moves what the market owes this factory into its balance.
    pub fn collect_money(&mut self, market: &mut Market, factory_id: FactoryId)
        requires
            old(self).money.0 + owed(old(market).credits(), factory_id) <= u64::MAX,
        ensures
            final(self).money.0 == old(self).money.0 + owed(old(market).credits(), factory_id),
            final(self).template == old(self).template,
            final(self).input_storage == old(self).input_storage,
            final(self).output_storage == old(self).output_storage,
            final(market).credits() == others(old(market).credits(), factory_id),
            final(market).offers@ == old(market).offers@,
            final(market).market_offers_sorted == old(market).market_offers_sorted,
    {
        market.transfer_money(&mut self.money, factory_id);
    }

    /// After the reuse step, ware `w` moved from the output store to the input
    /// store as `transfer_amount` says for a requirement of `need` items; the
    /// rest of `before` is unchanged for `w`.
    pub open spec fn reused_to(&self, before: Factory, w: Ware, need: nat) -> bool {
        let t = transfer_amount(before.input_storage.stock(w), before.output_storage.stock(w), need);
        let src = before.output_storage.batches(w);
        &&& self.output_storage.batches(w) == take_rest(src, t)
        &&& t == 0 ==> self.input_storage.batches(w) == before.input_storage.batches(w)
        &&& t > 0 ==> self.input_storage.batches(w) == before.input_storage.batches(w).push(
            PartialWarehouseBatch { sourcing_cost_per_item: ApproximateMoney((take_cost(src, t) / t) as u64), amount: t as u64 },
        )
    }

    /// What the factory can spend on inputs while keeping one hour's wages.
    pub open spec fn input_budget(&self) -> nat {
        if self.money.0 >= self.template.hourly_wages.0 {
            (self.money.0 - self.template.hourly_wages.0) as nat
        } else {
            0
        }
    }

    /// The cost at the current book of topping every input up to `t` applications' worth.
    pub open spec fn plan_cost_at(&self, market: Market, t: nat) -> nat {
        plan_cost(self.inputs(), self.input_storage, market, t)
    }

    /// The target the input purchase aims at: the most applications, up to
    /// one hour's worth, whose missing inputs fit the budget at the current books.
    pub open spec fn best_target(&self, market: Market) -> nat {
        choose|t: nat|
            t <= self.per_hour() && self.plan_cost_at(market, t) <= self.input_budget() && forall|t2: nat|
                t < t2 <= self.per_hour() ==> #[trigger] self.plan_cost_at(market, t2) > self.input_budget()
    }

    /// The purchase made for input `j` when buying for `t` applications, after
    /// the inputs before it were bought.
    pub open spec fn input_purchase(&self, market: Market, j: int, t: nat) -> Purchase {
        let inputs = self.inputs();
        purchase(
            market.book(inputs[j].ware),
            shortfall(inputs[j], self.input_storage, t),
            money_after_buying(inputs.take(j), self.input_storage, market, self.money.0 as nat, t),
        )
    }

    /// `after` and `after_market` show the purchase for input `j` of `self`
    /// at the books of `market`: the book it bought from, and the batch stored.
    pub open spec fn bought_as_planned(&self, market: Market, after: Factory, after_market: Market, j: int, t: nat) -> bool {
        let w = self.inputs()[j].ware;
        let p = self.input_purchase(market, j, t);
        &&& after_market.book(w) == p.book
        &&& p.bought == 0 ==> after.input_storage.batches(w) == self.input_storage.batches(w)
        &&& p.bought > 0 ==> after.input_storage.batches(w) == self.input_storage.batches(w).push(
            PartialWarehouseBatch {
                sourcing_cost_per_item: ApproximateMoney(unit_cost(p.spent * (COST_SCALE as nat), p.bought)),
                amount: p.bought as u64,
            },
        )
    }

    /// `after` and `after_market` hold ware `w` as `self` and `market` did:
    /// the same book and the same input batches.
    pub open spec fn keeps_ware(&self, market: Market, after: Factory, after_market: Market, w: Ware) -> bool {
        &&& after_market.book(w) == market.book(w)
        &&& after.input_storage.batches(w) == self.input_storage.batches(w)
    }

    /// Whether topping the inputs up for `t` applications costs at most `budget`.
    fn plan_fits(&self, market: &Market, t: u64, budget: u64) -> (r: bool)
        requires
            self.wf(),
            market.wf(),
        ensures
            r == (self.plan_cost_at(*market, t as nat) <= budget),
    {
        let inputs = self.template.recipe.merged_inputs();
        let mut total: u128 = 0;
        let mut j: usize = 0;
        while j < inputs.len()
            invariant
                self.wf(),
                market.wf(),
                inputs@ == self.inputs(),
                j <= inputs@.len(),
                total == plan_cost(inputs@.take(j as int), self.input_storage, *market, t as nat),
                total <= budget,
            decreases inputs@.len() - j,
        {
            let input = inputs[j];
            let missing = self.shortfall(input, t);
            let (_, cost) = market.quote(WareAmount::new(input.ware, missing));
            proof {
                assert(inputs@.take(j + 1).drop_last() == inputs@.take(j as int));
                crate::market::lemma_quote_cost_bound(market.book(input.ware), missing as nat);
                lemma_mul_u64_fits(missing, u64::MAX);
            }
            if cost > (budget as u128) - total {
                proof {
                    lemma_plan_cost_prefix(inputs@, self.input_storage, *market, t as nat, j + 1);
                }
                return false;
            }
            total = total + cost;
            j = j + 1;
        }
        proof {
            assert(inputs@.take(j as int) == inputs@);
        }
        true
    }

    /// What input `input` lacks for `t` applications, limited to the room left in the store.
    fn shortfall(&self, input: WareAmount, t: u64) -> (r: u64)
        requires
            self.wf(),
        ensures
            r == shortfall(input, self.input_storage, t as nat),
    {
        let available = self.input_storage.ware_amount(input.ware).amount;
        proof {
            lemma_mul_u64_fits(input.amount, t);
        }
        let required = (input.amount as u128) * (t as u128);
        let missing = if required > available as u128 {
            required - available as u128
        } else {
            0
        };
        let room = u64::MAX - available;
        if missing > room as u128 {
            room
        } else {
            missing as u64
        }
    }

    /// The largest number of applications, up to one hour's worth, whose
    /// missing inputs the book can supply for at most [`Factory::input_budget`].
    /// Found by binary search, which is sound because the cost grows with the target.
    pub fn buy_target(&self, market: &Market) -> (r: u64)
        requires
            self.wf(),
            market.wf(),
        ensures
            r <= self.per_hour(),
            self.plan_cost_at(*market, r as nat) <= self.input_budget(),
            forall|t: nat| r < t <= self.per_hour() ==> #[trigger] self.plan_cost_at(*market, t) > self.input_budget(),
            r == self.best_target(*market),
    {
        let budget = self.money.saturating_sub(self.template.hourly_wages).0;
        let mut left: u64 = 0;
        let mut right: u64 = self.template.recipe.rate.per_hour;
        let mut ceil_middle = false;
        proof {
            lemma_plan_cost_zero(self.inputs(), self.input_storage, *market);
        }
        while left < right
            invariant
                self.wf(),
                market.wf(),
                budget == self.input_budget(),
                left <= right <= self.per_hour(),
                self.plan_cost_at(*market, left as nat) <= budget,
                forall|t: nat| right < t <= self.per_hour() ==> #[trigger] self.plan_cost_at(*market, t) > budget,
            decreases 2 * (right - left) + if ceil_middle { 0int } else { 1int },
        {
            let middle = if ceil_middle {
                left + (right - left) / 2 + (right - left) % 2
            } else {
                left + (right - left) / 2
            };
            ceil_middle = !ceil_middle;
            if self.plan_fits(market, middle, budget) {
                left = middle;
            } else {
                proof {
                    assert forall|t: nat| middle <= t <= self.per_hour() implies #[trigger] self.plan_cost_at(*market, t) > budget by {
                        lemma_plan_cost_monotonic(self.inputs(), self.input_storage, *market, middle as nat, t);
                    }
                }
                right = middle - 1;
            }
        }
        proof {
            let b = self.best_target(*market);
            assert(left <= self.per_hour() && self.plan_cost_at(*market, left as nat) <= self.input_budget());
            if b < left {
                assert(self.plan_cost_at(*market, left as nat) > self.input_budget());
            }
            if b > left {
                assert(self.plan_cost_at(*market, b) > self.input_budget());
            }
        }
        left
    }

    /// Buys, for every input, what is missing for [`Factory::buy_target`]
    /// applications, cheapest offers first and within the balance.
    pub fn buy_inputs(&mut self, market: &mut Market)
        requires
            old(self).wf(),
            old(market).wf(),
            old(market).market_offers_sorted,
        ensures
            final(self).wf(),
            final(market).wf(),
            final(market).market_offers_sorted,
            final(self).template == old(self).template,
            final(self).output_storage == old(self).output_storage,
            final(self).money.0 <= old(self).money.0,
            credits_total(final(market).credits()) == credits_total(old(market).credits()) + (old(self).money.0
                - final(self).money.0),
            old(self).inputs().len() == 0 ==> final(self).money == old(self).money && *final(market) == *old(market)
                && final(self).input_storage == old(self).input_storage,
            forall|w: Ware| #[trigger] final(self).ware_held(w) + book_total(final(market).book(w))
                == old(self).ware_held(w) + book_total(old(market).book(w)),
            final(self).money.0 == money_after_buying(
                old(self).inputs(),
                old(self).input_storage,
                *old(market),
                old(self).money.0 as nat,
                old(self).best_target(*old(market)),
            ),
            forall|j: int|
                0 <= j < old(self).inputs().len() ==> #[trigger] old(self).bought_as_planned(
                    *old(market),
                    *final(self),
                    *final(market),
                    j,
                    old(self).best_target(*old(market)),
                ),
            forall|w: Ware|
                (forall|j: int| 0 <= j < old(self).inputs().len() ==> (#[trigger] old(self).inputs()[j]).ware != w)
                    ==> #[trigger] old(self).keeps_ware(*old(market), *final(self), *final(market), w),
    {
        let inputs = self.template.recipe.merged_inputs();
        if inputs.len() == 0 {
            return;
        }
        let target = self.buy_target(market);
        let ghost credits0 = credits_total(market.credits());
        let ghost money0 = self.money.0;
        let ghost f0 = *self;
        let ghost m0 = *market;
        let ghost inputs_s = self.inputs();
        let mut j: usize = 0;
        proof {
            assert(inputs_s.take(0) == Seq::<WareAmount>::empty());
        }
        while j < inputs.len()
            invariant
                self.wf(),
                market.wf(),
                market.market_offers_sorted,
                inputs@ == inputs_s,
                distinct_wares(inputs_s),
                self.template == old(self).template,
                self.output_storage == old(self).output_storage,
                self.money.0 <= money0,
                money0 == old(self).money.0,
                credits0 == credits_total(old(market).credits()),
                credits_total(market.credits()) == credits0 + (money0 - self.money.0),
                forall|w: Ware| #[trigger] self.ware_held(w) + book_total(market.book(w))
                    == old(self).ware_held(w) + book_total(old(market).book(w)),
                f0 == *old(self),
                m0 == *old(market),
                inputs_s == f0.inputs(),
                target == f0.best_target(m0),
                j <= inputs_s.len(),
                self.money.0 == money_after_buying(inputs_s.take(j as int), f0.input_storage, m0, money0 as nat, target as nat),
                forall|k: int| 0 <= k < j ==> #[trigger] f0.bought_as_planned(m0, *self, *market, k, target as nat),
                forall|w: Ware|
                    (forall|k: int| 0 <= k < j ==> (#[trigger] inputs_s[k]).ware != w) ==> #[trigger] f0.keeps_ware(
                        m0,
                        *self,
                        *market,
                        w,
                    ),
            decreases inputs@.len() - j,
        {
            let input = inputs[j];
            proof {
                assert(inputs_s[j as int] == input);
                assert forall|k: int| 0 <= k < j implies (#[trigger] inputs_s[k]).ware != input.ware by {
                    assert(distinct_wares(inputs_s));
                }
                assert(f0.keeps_ware(m0, *self, *market, input.ware));
                assert(market.book(input.ware) == m0.book(input.ware));
                assert(self.input_storage.batches(input.ware) == f0.input_storage.batches(input.ware));
                assert(inputs_s.take(j + 1).drop_last() == inputs_s.take(j as int));
                assert(inputs_s.take(j + 1).last() == input);
            }
            let missing = self.shortfall(input, target);
            let ghost f_before = *self;
            let ghost m_before = *market;
            let ghost p = crate::market::purchase(market.book(input.ware), missing as nat, self.money.0 as nat);
            market.buy(WareAmount::new(input.ware, missing), &mut self.input_storage, &mut self.money);
            proof {
                assert forall|w: Ware| #[trigger] self.ware_held(w) + book_total(market.book(w))
                    == f_before.ware_held(w) + book_total(m_before.book(w)) by {
                    if w == input.ware {
                        crate::market::lemma_purchase_moves_items(m_before.book(w), missing as nat, f_before.money.0 as nat);
                        if p.bought > 0 {
                            crate::warehouse::lemma_stock_total_push(
                                f_before.input_storage.batches(w),
                                PartialWarehouseBatch {
                                    sourcing_cost_per_item: ApproximateMoney(unit_cost(p.spent * (COST_SCALE as nat), p.bought)),
                                    amount: p.bought as u64,
                                },
                            );
                        }
                    }
                }
                assert(p == f0.input_purchase(m0, j as int, target as nat));
                assert(f0.bought_as_planned(m0, *self, *market, j as int, target as nat));
                assert forall|k: int| 0 <= k < j + 1 implies #[trigger] f0.bought_as_planned(m0, *self, *market, k, target as nat) by {
                    if k < j {
                        assert(f0.bought_as_planned(m0, f_before, m_before, k, target as nat));
                        assert(inputs_s[k].ware != input.ware);
                    }
                }

            }
            j = j + 1;
            proof {
                assert forall|w: Ware|
                    (forall|k: int| 0 <= k < j ==> (#[trigger] inputs_s[k]).ware != w) implies #[trigger] f0.keeps_ware(
                        m0,
                        *self,
                        *market,
                        w,
                    ) by {
                    assert(inputs_s[j - 1].ware != w);
                    assert forall|k: int| 0 <= k < j - 1 implies (#[trigger] inputs_s[k]).ware != w by {}
                    assert(market.book(w) == m_before.book(w));
                    assert(self.input_storage.batches(w) == f_before.input_storage.batches(w));
                    assert(f0.keeps_ware(m0, f_before, m_before, w));
                }
            }
        }
        proof {
            assert(inputs_s.take(j as int) == inputs_s);
        }
    }

    /// The applications that the input stock allows, starting from `most`.
    fn input_applications(&self, most: u64) -> (r: u64)
        requires
            self.wf(),
        ensures
            r == input_limit(self.inputs(), self.input_storage, most as nat),
            r <= most,
    {
        let inputs = self.template.recipe.merged_inputs();
        let mut apps = most;
        let mut j: usize = 0;
        while j < inputs.len()
            invariant
                self.wf(),
                inputs@ == self.inputs(),
                j <= inputs@.len(),
                apps <= most,
                apps == input_limit(inputs@.take(j as int), self.input_storage, most as nat),
            decreases inputs@.len() - j,
        {
            let input = inputs[j];
            let available = self.input_storage.ware_amount(input.ware).amount;
            proof {
                assert(inputs@.take(j + 1).drop_last() == inputs@.take(j as int));
                lemma_mul_u64_fits(input.amount, apps);
            }
            if input.amount > 0 && (available as u128) < (input.amount as u128) * (apps as u128) {
                proof {
                    let a = available as int;
                    let m = input.amount as int;
                    let p = apps as int;
                    assert(a / m <= p) by (nonlinear_arith)
                        requires
                            m > 0,
                            a < m * p,
                            a >= 0,
                    ;
                }
                apps = available / input.amount;
            }
            j = j + 1;
        }
        proof {
            assert(inputs@.take(j as int) == inputs@);
        }
        apps
    }

    /// Takes what `apps` applications need out of the input store; returns
    /// `base` plus their sourcing cost, saturating.
    fn consume_inputs(&mut self, apps: u64, base: u128) -> (r: u128)
        requires
            old(self).wf(),
            forall|i: int|
                0 <= i < old(self).inputs().len() ==> (#[trigger] old(self).inputs()[i]).amount * apps
                    <= old(self).input_storage.stock(old(self).inputs()[i].ware),
        ensures
            final(self).wf(),
            final(self).template == old(self).template,
            final(self).money == old(self).money,
            final(self).output_storage == old(self).output_storage,
            forall|w: Ware| #[trigger] final(self).input_storage.batches(w) == take_rest(
                old(self).input_storage.batches(w),
                input_need(old(self).inputs(), w) * (apps as nat),
            ),
            r == min_nat((base as nat) + inputs_cost(old(self).inputs(), old(self).input_storage, apps as nat), u128::MAX as nat),
    {
        let ghost wh0 = self.input_storage;
        let ghost inputs_s = self.inputs();
        let inputs = self.template.recipe.merged_inputs();
        let mut total = base;
        let mut j: usize = 0;
        proof {
            assert(inputs_s.take(0) == Seq::<WareAmount>::empty());
            assert forall|w: Ware| #[trigger] self.input_storage.batches(w) == take_rest(
                wh0.batches(w),
                input_need(inputs_s.take(0), w) * (apps as nat),
            ) by {
                assert(input_need(inputs_s.take(0), w) == 0);
                assert(input_need(inputs_s.take(0), w) * (apps as nat) == 0);
                assert(take_rest(wh0.batches(w), 0) == wh0.batches(w));
            }
        }
        while j < inputs.len()
            invariant
                self.wf(),
                self.template == old(self).template,
                self.money == old(self).money,
                self.output_storage == old(self).output_storage,
                inputs_s == self.inputs(),
                inputs@ == inputs_s,
                distinct_wares(inputs_s),
                j <= inputs_s.len(),
                forall|i: int| 0 <= i < inputs_s.len() ==> (#[trigger] inputs_s[i]).amount * apps <= wh0.stock(inputs_s[i].ware),
                forall|w: Ware| #[trigger] self.input_storage.batches(w) == take_rest(
                    wh0.batches(w),
                    input_need(inputs_s.take(j as int), w) * (apps as nat),
                ),
                total == min_nat((base as nat) + inputs_cost(inputs_s.take(j as int), wh0, apps as nat), u128::MAX as nat),
            decreases inputs_s.len() - j,
        {
            let input = inputs[j];
            proof {
                assert(inputs_s.take(j + 1).drop_last() == inputs_s.take(j as int));
                lemma_need_before(inputs_s, j as int);
                lemma_mul_u64_fits(input.amount, apps);
                assert(inputs_s[j as int] == input);
                assert(take_rest(wh0.batches(input.ware), 0) == wh0.batches(input.ware));
                assert(self.input_storage.batches(input.ware) == wh0.batches(input.ware));
            }
            let need = (input.amount as u128) * (apps as u128);
            if need > 0 {
                let need = need as u64;
                let avg = self.input_storage.remove_ware(WareAmount::new(input.ware, need));
                proof {
                    lemma_mul_u64_fits(avg.0, need);
                }
                let part = (avg.0 as u128) * (need as u128);
                total = total.saturating_add(part);
            }
            proof {
                assert forall|w: Ware| #[trigger] self.input_storage.batches(w) == take_rest(
                    wh0.batches(w),
                    input_need(inputs_s.take(j + 1), w) * (apps as nat),
                ) by {
                    if w != input.ware {
                        assert(input_need(inputs_s.take(j + 1), w) == input_need(inputs_s.take(j as int), w));
                    } else {
                        assert(input_need(inputs_s.take(j + 1), w) == input.amount);
                        assert(take_rest(wh0.batches(w), 0) == wh0.batches(w));
                    }
                }
            }
            j = j + 1;
        }
        proof {
            assert(inputs_s.take(j as int) == inputs_s);
        }
        total
    }

    /// Adds `apps` applications' worth of every output to the output store, at `cost` per item.
    fn store_outputs(&mut self, apps: u64, cost: ApproximateMoney)
        requires
            old(self).wf(),
            forall|w: Ware| #[trigger] old(self).output_storage.stock(w) + total_amount(old(self).outputs()) * apps <= u64::MAX,
        ensures
            final(self).wf(),
            final(self).template == old(self).template,
            final(self).money == old(self).money,
            final(self).input_storage == old(self).input_storage,
            forall|w: Ware| #[trigger] final(self).output_storage.batches(w) == old(self).output_storage.batches(w)
                + output_batches(old(self).outputs(), w, apps as nat, cost.0),
    {
        let ghost wh0 = self.output_storage;
        let ghost outputs_s = self.outputs();
        let mut j: usize = 0;
        proof {
            assert(outputs_s.take(0) == Seq::<WareAmount>::empty());
            assert forall|w: Ware| #[trigger] wh0.batches(w) + output_batches(outputs_s.take(0), w, apps as nat, cost.0) == wh0.batches(w) by {
                assert(wh0.batches(w) + Seq::<PartialWarehouseBatch>::empty() == wh0.batches(w));
            }
        }
        while j < self.template.recipe.outputs.len()
            invariant
                self.wf(),
                self.template == old(self).template,
                self.money == old(self).money,
                self.input_storage == old(self).input_storage,
                outputs_s == self.outputs(),
                j <= outputs_s.len(),
                forall|w: Ware| #[trigger] wh0.stock(w) + total_amount(outputs_s) * apps <= u64::MAX,
                forall|w: Ware| #[trigger] self.output_storage.batches(w) == wh0.batches(w)
                    + output_batches(outputs_s.take(j as int), w, apps as nat, cost.0),
                forall|w: Ware| #[trigger] self.output_storage.stock(w) <= wh0.stock(w) + total_amount(outputs_s.take(j as int)) * apps,
            decreases outputs_s.len() - j,
        {
            let output = self.template.recipe.outputs[j];
            let ghost before = self.output_storage;
            proof {
                assert(outputs_s.take(j + 1).drop_last() == outputs_s.take(j as int));
                lemma_total_amount_prefix(outputs_s, j + 1);
                assert(total_amount(outputs_s.take(j + 1)) * apps == total_amount(outputs_s.take(j as int)) * apps
                    + output.amount * apps) by (nonlinear_arith)
                    requires
                        total_amount(outputs_s.take(j + 1)) == total_amount(outputs_s.take(j as int)) + output.amount,
                ;
                assert(total_amount(outputs_s.take(j + 1)) * apps <= total_amount(outputs_s) * apps) by (nonlinear_arith)
                    requires
                        total_amount(outputs_s.take(j + 1)) <= total_amount(outputs_s),
                ;
                assert(before.stock(output.ware) + output.amount * apps <= u64::MAX);
            }
            let amount = output.amount * apps;
            self.output_storage.insert_ware(WareAmount::new(output.ware, amount), cost);
            proof {
                assert forall|w: Ware| #[trigger] self.output_storage.batches(w) == wh0.batches(w)
                    + output_batches(outputs_s.take(j + 1), w, apps as nat, cost.0) by {
                    if w == output.ware && amount > 0 {
                        crate::warehouse::lemma_stock_total_push(
                            before.batches(w),
                            PartialWarehouseBatch { sourcing_cost_per_item: cost, amount },
                        );
                    }
                    assert(wh0.batches(w) + output_batches(outputs_s.take(j as int), w, apps as nat, cost.0)
                        + Seq::<PartialWarehouseBatch>::empty() == wh0.batches(w) + output_batches(outputs_s.take(j as int), w, apps as nat, cost.0));
                }
                assert forall|w: Ware| #[trigger] self.output_storage.stock(w) <= wh0.stock(w) + total_amount(
                    outputs_s.take(j + 1),
                ) * apps by {
                    assert(before.stock(w) <= wh0.stock(w) + total_amount(outputs_s.take(j as int)) * apps);
                    if w == output.ware && amount > 0 {
                        crate::warehouse::lemma_stock_total_push(
                            before.batches(w),
                            PartialWarehouseBatch { sourcing_cost_per_item: cost, amount },
                        );
                    }
                }
            }
            j = j + 1;
        }
        proof {
            assert(outputs_s.take(j as int) == outputs_s);
        }
    }
}

proof fn lemma_mul_u64_fits(a: u64, b: u64)
    ensures
        (a as nat) * (b as nat) <= u128::MAX,
{
    assert((a as nat) * (b as nat) <= (u64::MAX as nat) * (u64::MAX as nat)) by (nonlinear_arith)
        requires
            a <= u64::MAX,
            b <= u64::MAX,
    ;
}

proof fn lemma_total_amount_bound(s: Seq<WareAmount>)
    ensures
        total_amount(s) <= s.len() * (u64::MAX as nat),
    decreases s.len(),
{
    if s.len() > 0 {
        lemma_total_amount_bound(s.drop_last());
        assert((s.len() - 1) * (u64::MAX as nat) + (u64::MAX as nat) == s.len() * (u64::MAX as nat)) by (nonlinear_arith);
    }
}

proof fn lemma_total_amount_prefix(s: Seq<WareAmount>, j: int)
    requires
        0 <= j <= s.len(),
    ensures
        total_amount(s.take(j)) <= total_amount(s),
    decreases s.len(),
{
    if j < s.len() {
        assert(s.take(j) == s.drop_last().take(j));
        lemma_total_amount_prefix(s.drop_last(), j);
    } else {
        assert(s.take(j) == s);
    }
}

proof fn lemma_need_absent(s: Seq<WareAmount>, w: Ware)
    requires
        forall|i: int| 0 <= i < s.len() ==> (#[trigger] s[i]).ware != w,
    ensures
        input_need(s, w) == 0,
    decreases s.len(),
{
    if s.len() > 0 {
        lemma_need_absent(s.drop_last(), w);
    }
}

/// With each ware listed once, the inputs before position `j` need none of the ware at `j`.
proof fn lemma_need_before(s: Seq<WareAmount>, j: int)
    requires
        distinct_wares(s),
        0 <= j < s.len(),
    ensures
        input_need(s.take(j), s[j].ware) == 0,
{
    lemma_need_absent(s.take(j), s[j].ware);
}

/// With no units produced, no output batch is stored, whatever the cost.
proof fn lemma_no_output_batches(outputs: Seq<WareAmount>, apps: nat, c1: u64, c2: u64)
    requires
        total_amount(outputs) * apps == 0,
    ensures
        forall|w: Ware| #[trigger] output_batches(outputs, w, apps, c1) == output_batches(outputs, w, apps, c2),
    decreases outputs.len(),
{
    if outputs.len() > 0 {
        let o = outputs.last();
        assert(total_amount(outputs) == total_amount(outputs.drop_last()) + o.amount);
        assert(total_amount(outputs.drop_last()) * apps == 0 && o.amount * apps == 0) by (nonlinear_arith)
            requires
                (total_amount(outputs.drop_last()) + o.amount) * apps == 0,
        ;
        lemma_no_output_batches(outputs.drop_last(), apps, c1, c2);
        assert forall|w: Ware| #[trigger] output_batches(outputs, w, apps, c1) == output_batches(outputs, w, apps, c2) by {
            assert(output_batches(outputs.drop_last(), w, apps, c1) == output_batches(outputs.drop_last(), w, apps, c2));
        }
    }
}

/// Whole hours begun for `apps` applications fit in what the balance pays for.
proof fn lemma_hours_affordable(apps: nat, per_hour: nat, money: nat, wages: nat)
    requires
        per_hour > 0,
        wages > 0 ==> apps <= per_hour * (money / wages),
    ensures
        wages * ceil_div(apps, per_hour) <= money || wages == 0,
        ceil_div(apps, per_hour) <= apps,
{
    vstd::arithmetic::div_mod::lemma_fundamental_div_mod(apps as int, per_hour as int);
    assert(ceil_div(apps, per_hour) <= apps) by (nonlinear_arith)
        requires
            per_hour > 0,
            apps == per_hour * (apps / per_hour) + apps % per_hour,
            0 <= apps % per_hour < per_hour,
            ceil_div(apps, per_hour) == if apps % per_hour == 0 { apps / per_hour } else { apps / per_hour + 1 },
    ;
    if wages > 0 {
        let k = money / wages;
        vstd::arithmetic::div_mod::lemma_fundamental_div_mod(money as int, wages as int);
        assert(ceil_div(apps, per_hour) <= k) by (nonlinear_arith)
            requires
                per_hour > 0,
                apps <= per_hour * k,
                apps == per_hour * (apps / per_hour) + apps % per_hour,
                0 <= apps % per_hour < per_hour,
                ceil_div(apps, per_hour) == if apps % per_hour == 0 { apps / per_hour } else { apps / per_hour + 1 },
        ;
        assert(wages * ceil_div(apps, per_hour) <= wages * k) by (nonlinear_arith)
            requires
                ceil_div(apps, per_hour) <= k,
        ;
        assert(wages * k <= money) by (nonlinear_arith)
            requires
                money == wages * k + money % wages,
                money % wages >= 0,
        ;
    }
}

/// The applications the stock allows need no more of any input than is in stock.
proof fn lemma_input_limit(inputs: Seq<WareAmount>, wh: Warehouse, apps: nat)
    ensures
        input_limit(inputs, wh, apps) <= apps,
        forall|i: int|
            0 <= i < inputs.len() ==> (#[trigger] inputs[i]).amount * input_limit(inputs, wh, apps) <= wh.stock(
                inputs[i].ware,
            ),
    decreases inputs.len(),
{
    if inputs.len() > 0 {
        let s = inputs.drop_last();
        lemma_input_limit(s, wh, apps);
        let a = input_limit(s, wh, apps);
        let l = input_limit(inputs, wh, apps);
        let last = inputs.last();
        if last.amount > 0 && wh.stock(last.ware) < last.amount * a {
            let st = wh.stock(last.ware) as int;
            let m = last.amount as int;
            assert(st / m <= a && m * (st / m) <= st) by (nonlinear_arith)
                requires
                    m > 0,
                    st < m * a,
                    st >= 0,
            ;
        }
        assert forall|i: int| 0 <= i < inputs.len() implies (#[trigger] inputs[i]).amount * l <= wh.stock(
            inputs[i].ware,
        ) by {
            if i < inputs.len() - 1 {
                assert(inputs[i] == s[i]);
                let m = inputs[i].amount as int;
                assert(m * l <= m * a) by (nonlinear_arith)
                    requires
                        l <= a,
                        m >= 0,
                ;
            } else {
                if last.amount == 0 {
                    assert(last.amount * l == 0) by (nonlinear_arith)
                        requires
                            last.amount == 0,
                    ;
                }
            }
        }
    }
}

proof fn lemma_plan_cost_prefix(inputs: Seq<WareAmount>, wh: Warehouse, market: Market, t: nat, j: int)
    requires
        0 <= j <= inputs.len(),
    ensures
        plan_cost(inputs.take(j), wh, market, t) <= plan_cost(inputs, wh, market, t),
    decreases inputs.len(),
{
    if j < inputs.len() {
        assert(inputs.take(j) == inputs.drop_last().take(j));
        lemma_plan_cost_prefix(inputs.drop_last(), wh, market, t, j);
    } else {
        assert(inputs.take(j) == inputs);
    }
}

proof fn lemma_plan_cost_zero(inputs: Seq<WareAmount>, wh: Warehouse, market: Market)
    ensures
        plan_cost(inputs, wh, market, 0) == 0,
    decreases inputs.len(),
{
    if inputs.len() > 0 {
        lemma_plan_cost_zero(inputs.drop_last(), wh, market);
        assert(inputs.last().amount * 0 == 0);
    }
}

/// Topping the inputs up for more applications never costs less.
pub proof fn lemma_plan_cost_monotonic(inputs: Seq<WareAmount>, wh: Warehouse, market: Market, t1: nat, t2: nat)
    requires
        t1 <= t2,
    ensures
        plan_cost(inputs, wh, market, t1) <= plan_cost(inputs, wh, market, t2),
    decreases inputs.len(),
{
    if inputs.len() > 0 {
        lemma_plan_cost_monotonic(inputs.drop_last(), wh, market, t1, t2);
        let i = inputs.last();
        assert(i.amount * t1 <= i.amount * t2) by (nonlinear_arith)
            requires
                t1 <= t2,
        ;
        crate::market::lemma_quote_cost_monotonic(market.book(i.ware), shortfall(i, wh, t1), shortfall(i, wh, t2));
    }
}

proof fn lemma_take_rest_shrinks(s: Seq<PartialWarehouseBatch>, n: nat)
    ensures
        stock_total(take_rest(s, n)) <= stock_total(s),
    decreases s.len(),
{
    if n == 0 || s.len() == 0 {
    } else if n < s[0].amount {
        assert(take_rest(s, n).drop_first() == s.drop_first());
    } else {
        lemma_take_rest_shrinks(s.drop_first(), (n - s[0].amount) as nat);
    }
}

proof fn lemma_no_batches_of_unmade(outputs: Seq<WareAmount>, w: Ware, apps: nat, cost: u64)
    requires
        forall|i: int| 0 <= i < outputs.len() && (#[trigger] outputs[i]).ware == w ==> outputs[i].amount == 0,
    ensures
        output_batches(outputs, w, apps, cost) == Seq::<PartialWarehouseBatch>::empty(),
    decreases outputs.len(),
{
    if outputs.len() > 0 {
        let o = outputs.last();
        assert(outputs[outputs.len() - 1] == o);
        if o.ware == w {
            assert(o.amount * apps == 0);
        }
        lemma_no_batches_of_unmade(outputs.drop_last(), w, apps, cost);
        assert(Seq::<PartialWarehouseBatch>::empty() + Seq::<PartialWarehouseBatch>::empty() == Seq::<PartialWarehouseBatch>::empty());
    }
}

proof fn lemma_stock_total_last(s: Seq<PartialWarehouseBatch>)
    requires
        s.len() > 0,
    ensures
        stock_total(s) == stock_total(s.drop_last()) + s.last().amount,
    decreases s.len(),
{
    if s.len() > 1 {
        lemma_stock_total_last(s.drop_first());
        assert(s.drop_first().drop_last() == s.drop_last().drop_first());
        assert(s.drop_first().last() == s.last());
        assert(s.drop_last()[0] == s[0]);
        assert(stock_total(s.drop_last()) == s.drop_last()[0].amount + stock_total(s.drop_last().drop_first()));
    } else {
        assert(s.drop_last().len() == 0);
        assert(s.drop_first().len() == 0);
        assert(s.last() == s[0]);
        assert(stock_total(s.drop_first()) == 0);
    }
}

proof fn lemma_offers_of_concat(a: Seq<WarehouseBatch>, b: Seq<WarehouseBatch>, w: Ware, id: FactoryId)
    ensures
        offers_of(a + b, w, id) == offers_of(a, w, id) + offers_of(b, w, id),
    decreases b.len(),
{
    if b.len() == 0 {
        assert(a + b == a);
        assert(offers_of(a, w, id) + Seq::<MarketOffer>::empty() == offers_of(a, w, id));
    } else {
        assert((a + b).drop_last() == a + b.drop_last());
        lemma_offers_of_concat(a, b.drop_last(), w, id);
    }
}

proof fn lemma_offers_of_tagged(v: Ware, s: Seq<PartialWarehouseBatch>, w: Ware, id: FactoryId)
    requires
        crate::warehouse::all_positive(s),
    ensures
        v != w ==> offers_of(tagged(v, s), w, id) == Seq::<MarketOffer>::empty(),
        v == w ==> book_total(offers_of(tagged(v, s), w, id)) == stock_total(s),
    decreases s.len(),
{
    if s.len() > 0 {
        assert(tagged(v, s).drop_last() == tagged(v, s.drop_last()));
        assert(crate::warehouse::all_positive(s.drop_last())) by {
            assert forall|i: int| 0 <= i < s.drop_last().len() implies #[trigger] s.drop_last()[i].amount > 0 by {
                assert(s.drop_last()[i] == s[i]);
            }
        }
        assert(s[s.len() - 1].amount > 0);
        lemma_offers_of_tagged(v, s.drop_last(), w, id);
        lemma_stock_total_last(s);
        let t = tagged(v, s);
        assert(t.last() == WarehouseBatch { ware: v, amount: s.last().amount, sourcing_cost_per_item: s.last().sourcing_cost_per_item });
        if v == w {
            let o = offers_of(t, w, id);
            assert(o == offers_of(t.drop_last(), w, id).push(offer_for(t.last(), id)));
            assert(o.drop_last() == offers_of(t.drop_last(), w, id));
        }
    }
}

proof fn lemma_book_total_concat(a: Seq<MarketOffer>, b: Seq<MarketOffer>)
    ensures
        book_total(a + b) == book_total(a) + book_total(b),
    decreases b.len(),
{
    if b.len() == 0 {
        assert(a + b == a);
    } else {
        assert((a + b).drop_last() == a + b.drop_last());
        lemma_book_total_concat(a, b.drop_last());
    }
}

/// The offers made from a warehouse's contents hold, ware by ware, exactly its stock.
proof fn lemma_offers_of_contents(wh: Warehouse, w: Ware, id: FactoryId)
    requires
        wh.wf(),
    ensures
        book_total(offers_of(wh.contents(), w, id)) == wh.stock(w),
{
    let bw = wh.batches(Ware::Water);
    let bs = wh.batches(Ware::Seed);
    let ba = wh.batches(Ware::Apple);
    assert(wh.wares@[0].wf() && wh.wares@[1].wf() && wh.wares@[2].wf());
    lemma_offers_of_concat(tagged(Ware::Water, bw) + tagged(Ware::Seed, bs), tagged(Ware::Apple, ba), w, id);
    lemma_offers_of_concat(tagged(Ware::Water, bw), tagged(Ware::Seed, bs), w, id);
    lemma_offers_of_tagged(Ware::Water, bw, w, id);
    lemma_offers_of_tagged(Ware::Seed, bs, w, id);
    lemma_offers_of_tagged(Ware::Apple, ba, w, id);
    let ow = offers_of(tagged(Ware::Water, bw), w, id);
    let os = offers_of(tagged(Ware::Seed, bs), w, id);
    let oa = offers_of(tagged(Ware::Apple, ba), w, id);
    lemma_book_total_concat(ow + os, oa);
    lemma_book_total_concat(ow, os);
    assert(book_total(Seq::<MarketOffer>::empty()) == 0);
}

} // verus!
