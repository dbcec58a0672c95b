use vstd::prelude::*;

use crate::consumer::Consumer;
use crate::factory::{Factory, FactoryId};
use crate::market::{book_total, credits_total, owed, Market};
use crate::ware::Ware;
use crate::time::DateTime;
use general_stable_vec::implementation::option_vec::OptionStableVec;
use rand_xoshiro::Xoshiro256PlusPlus;

verus! {

#[verifier::external_type_specification]
#[verifier::external_body]
#[verifier::reject_recursive_types(Index)]
#[verifier::reject_recursive_types(Data)]
pub struct ExOptionStableVec<Index, Data>(OptionStableVec<Index, Data>);

/// The factories held in a stable vector, by slot index.
pub uninterp spec fn slots(v: OptionStableVec<usize, Factory>) -> Map<usize, Factory>;

/// Relies on `OptionStableVec`'s `From<Vec<_>>`, which collects the elements
/// into the slots numbered by their position, leaving no free slot.
#[verifier::external_body]
fn slots_from_vec(v: Vec<Factory>) -> (r: OptionStableVec<usize, Factory>)
    ensures
        slots(r) == Map::new(|i: usize| (i as int) < v@.len(), |i: usize| v@[i as int]),
{
    OptionStableVec::from(v)
}

/// Relies on `StableVec::iter_indices`, which walks the occupied slots in
/// increasing order.
#[verifier::external_body]
fn slot_indices(v: &OptionStableVec<usize, Factory>) -> (r: Vec<usize>)
    ensures
        forall|i: int, j: int| 0 <= i < j < r@.len() ==> r@[i] < r@[j],
        forall|k: usize| slots(*v).contains_key(k) <==> r@.contains(k),
{
    general_stable_vec::interface::StableVec::iter_indices(v).collect()
}

/// Relies on `StableVecAccess::get`, which finds the element of an occupied slot.
#[verifier::external_body]
fn slot(v: &OptionStableVec<usize, Factory>, k: usize) -> (r: &Factory)
    requires
        slots(*v).contains_key(k),
    ensures
        *r == slots(*v)[k],
{
    general_stable_vec::interface::StableVecAccess::get(v, k).unwrap()
}

/// Relies on `StableVecAccess::get_mut`, which lends out the element of an
/// occupied slot and leaves every other slot alone.
#[verifier::external_body]
fn slot_mut(v: &mut OptionStableVec<usize, Factory>, k: usize) -> (r: &mut Factory)
    requires
        slots(*old(v)).contains_key(k),
    ensures
        *r == slots(*old(v))[k],
        slots(*final(v)) == slots(*old(v)).insert(k, *final(r)),
{
    general_stable_vec::interface::StableVecAccess::get_mut(v, k).unwrap()
}

/// The sum of `f` over the factories whose handle is below `n` and lies in `s`.
pub open spec fn sum_in(m: Map<usize, Factory>, n: nat, f: spec_fn(Factory) -> nat, s: Set<usize>) -> nat
    decreases n,
{
    if n == 0 {
        0
    } else {
        let k = (n - 1) as usize;
        sum_in(m, (n - 1) as nat, f, s) + if m.contains_key(k) && s.contains(k) && n - 1 <= usize::MAX {
            f(m[k])
        } else {
            0
        }
    }
}

/// One more than the largest handle.
pub open spec fn handle_bound() -> nat {
    usize::MAX as nat + 1
}

/// The sum of `f` over all factories.
pub open spec fn sum_all(m: Map<usize, Factory>, f: spec_fn(Factory) -> nat) -> nat {
    sum_in(m, handle_bound(), f, m.dom())
}

/// A factory's balance.
pub open spec fn balance(f: Factory) -> nat {
    f.money.0 as nat
}

/// The wages a factory pays when it produces for one hour.
pub open spec fn wage_cost(f: Factory) -> nat {
    f.wages_for(DateTime { hours: 1 })
}

proof fn lemma_sum_update(m: Map<usize, Factory>, n: nat, f: spec_fn(Factory) -> nat, s: Set<usize>, k: usize, v: Factory)
    requires
        m.contains_key(k),
        n <= handle_bound(),
    ensures
        sum_in(m.insert(k, v), n, f, s) + (if k < n && s.contains(k) { f(m[k]) } else { 0 }) == sum_in(m, n, f, s)
            + (if k < n && s.contains(k) { f(v) } else { 0 }),
    decreases n,
{
    if n > 0 {
        lemma_sum_update(m, (n - 1) as nat, f, s, k, v);
    }
}

proof fn lemma_sum_add(m: Map<usize, Factory>, n: nat, f: spec_fn(Factory) -> nat, s: Set<usize>, k: usize)
    requires
        m.contains_key(k),
        !s.contains(k),
        n <= handle_bound(),
    ensures
        sum_in(m, n, f, s.insert(k)) == sum_in(m, n, f, s) + (if k < n { f(m[k]) } else { 0 }),
    decreases n,
{
    if n > 0 {
        lemma_sum_add(m, (n - 1) as nat, f, s, k);
    }
}

proof fn lemma_sum_contains(m: Map<usize, Factory>, n: nat, f: spec_fn(Factory) -> nat, s: Set<usize>, k: usize)
    requires
        m.contains_key(k),
        s.contains(k),
        k < n,
    ensures
        f(m[k]) <= sum_in(m, n, f, s),
    decreases n,
{
    if k < n - 1 {
        lemma_sum_contains(m, (n - 1) as nat, f, s, k);
    }
}

proof fn lemma_sum_empty(m: Map<usize, Factory>, n: nat, f: spec_fn(Factory) -> nat)
    ensures
        sum_in(m, n, f, Set::empty()) == 0,
    decreases n,
{
    if n > 0 {
        lemma_sum_empty(m, (n - 1) as nat, f);
    }
}

proof fn lemma_sum_same_keys(m1: Map<usize, Factory>, m2: Map<usize, Factory>, n: nat, f: spec_fn(Factory) -> nat, s1: Set<usize>, s2: Set<usize>)
    requires
        m1.dom() == m2.dom(),
        forall|k: usize| m1.contains_key(k) ==> (s1.contains(k) <==> s2.contains(k)),
        forall|k: usize| m1.contains_key(k) && s1.contains(k) ==> f(m1[k]) == f(m2[k]),
    ensures
        sum_in(m1, n, f, s1) == sum_in(m2, n, f, s2),
    decreases n,
{
    if n > 0 {
        lemma_sum_same_keys(m1, m2, (n - 1) as nat, f, s1, s2);
    }
}

/// A fatal arithmetic overflow that stopped a tick part way.
#[derive(Debug, Clone, Copy, PartialEq, Eq, Structural)]
pub enum SimulationError {
    /// The clock cannot advance any further.
    ClockOverflow,
    /// A factory's production would exceed the integer range.
    ProductionOverflow(FactoryId),
    /// A factory's balance would exceed the integer range.
    BalanceOverflow(FactoryId),
}

/// The whole economy: factories by stable handle, consumers in order, one
/// market and the clock.
#[derive(Debug)]
pub struct World {
    pub factories: OptionStableVec<usize, Factory>,
    pub consumers: Vec<Consumer>,
    pub market: Market,
    pub time: DateTime,
}

impl World {
    pub open spec fn factory_map(&self) -> Map<usize, Factory> {
        slots(self.factories)
    }

    /// Money held by the factories plus money the market owes them.
    pub open spec fn money_in_circulation(&self) -> nat {
        sum_all(self.factory_map(), |f: Factory| balance(f)) + credits_total(self.market.credits())
    }

    /// Every factory can run an hour within the integer range.
    pub open spec fn all_produce_fit(&self) -> bool {
        forall|k: usize| #[trigger] self.factory_map().contains_key(k) ==> self.factory_map()[k].produce_fits(DateTime { hours: 1 })
    }

    /// A tick stops at factory `id` for production overflow: the clock can
    /// advance, `id` is the factory with the smallest handle whose hour of
    /// production does not fit the integer range.
    pub open spec fn production_overflows_at(&self, id: FactoryId) -> bool {
        &&& self.time.hours < u64::MAX
        &&& self.factory_map().contains_key(id.0)
        &&& !self.factory_map()[id.0].produce_fits(DateTime { hours: 1 })
        &&& forall|k: usize|
            #[trigger] self.factory_map().contains_key(k) && k < id.0 ==> self.factory_map()[k].produce_fits(
                DateTime { hours: 1 },
            )
    }

    /// All of ware `w` that factories hold or the market offers.
    pub open spec fn ware_in_economy(&self, w: Ware) -> nat {
        sum_all(self.factory_map(), |f: Factory| f.ware_held(w)) + book_total(self.market.book(w))
    }

    /// No factory's recipe yields ware `w`.
    pub open spec fn made_by_none(&self, w: Ware) -> bool {
        forall|k: usize| #[trigger] self.factory_map().contains_key(k) ==> !self.factory_map()[k].makes(w)
    }

    /// The wages all factories pay for producing in the coming hour.
    pub open spec fn wage_bill(&self) -> nat {
        sum_all(self.factory_map(), |f: Factory| wage_cost(f))
    }

    pub open spec fn wf(&self) -> bool {
        &&& self.market.wf()
        &&& forall|k: usize| #[trigger] self.factory_map().contains_key(k) ==> self.factory_map()[k].wf()
        &&& forall|i: int| 0 <= i < self.consumers@.len() ==> (#[trigger] self.consumers@[i]).wf()
    }

    /// A world at hour zero with an empty market; factory `i` of the list gets handle `i`.
    pub fn new(factories: Vec<Factory>, consumers: Vec<Consumer>) -> (r: Self)
        requires
            forall|i: int| 0 <= i < factories@.len() ==> (#[trigger] factories@[i]).wf(),
            forall|i: int| 0 <= i < consumers@.len() ==> (#[trigger] consumers@[i]).wf(),
        ensures
            r.wf(),
            r.time.hours == 0,
            r.consumers@ == consumers@,
            r.factory_map() == Map::new(|i: usize| (i as int) < factories@.len(), |i: usize| factories@[i as int]),
    {
        let r = World { factories: slots_from_vec(factories), consumers, market: Market::new(), time: DateTime::from_hours(0) };
        proof {
            assert forall|k: usize| #[trigger] r.factory_map().contains_key(k) implies r.factory_map()[k].wf() by {
                assert(factories@[k as int].wf());
            }
        }
        r
    }

    /// The handles of all factories, in increasing order.
    pub fn factory_ids(&self) -> (r: Vec<FactoryId>)
        ensures
            forall|i: int, j: int| 0 <= i < j < r@.len() ==> r@[i].0 < r@[j].0,
            forall|k: usize| self.factory_map().contains_key(k) <==> r@.contains(FactoryId(k)),
    {
        let ids = slot_indices(&self.factories);
        let mut out: Vec<FactoryId> = Vec::new();
        let mut i: usize = 0;
        while i < ids.len()
            invariant
                i <= ids@.len(),
                out@.len() == i,
                forall|j: int| 0 <= j < i ==> #[trigger] out@[j] == FactoryId(ids@[j]),
            decreases ids@.len() - i,
        {
            out.push(FactoryId(ids[i]));
            i = i + 1;
        }
        proof {
            assert forall|k: usize| self.factory_map().contains_key(k) <==> out@.contains(FactoryId(k)) by {
                if self.factory_map().contains_key(k) {
                    assert(ids@.contains(k));
                    let j = choose|j: int| 0 <= j < ids@.len() && ids@[j] == k;
                    assert(out@[j] == FactoryId(k));
                    assert(out@.contains(FactoryId(k)));
                }
                if out@.contains(FactoryId(k)) {
                    let j = choose|j: int| 0 <= j < out@.len() && out@[j] == FactoryId(k);
                    assert(ids@[j] == k);
                    assert(ids@.contains(k));
                }
            }
        }
        out
    }

    pub fn factory(&self, id: FactoryId) -> (r: &Factory)
        requires
            self.factory_map().contains_key(id.0),
        ensures
            *r == self.factory_map()[id.0],
    {
        slot(&self.factories, id.0)
    }

    pub fn consumers(&self) -> (r: &[Consumer])
        ensures
            r@ == self.consumers@,
    {
        self.consumers.as_slice()
    }

    pub fn market(&self) -> (r: &Market)
        ensures
            r == &self.market,
    {
        &self.market
    }

    /// Advances the world by one hour: the clock, then every factory produces,
    /// reuses what it can of its outputs and offers the rest, the market sorts
    /// its books (shuffling ties with `rng`), factories buy inputs in handle
    /// order, consumers consume in order, and factories collect what they are
    /// owed. An overflow stops the tick with an error. Without consumers, the
    /// money held by factories and owed by the market shrinks by exactly the
    /// wages of the hour.
    pub fn advance_hour(&mut self, rng: &mut Xoshiro256PlusPlus) -> (r: Result<(), SimulationError>)
        requires
            old(self).wf(),
        ensures
            final(self).wf(),
            final(self).factory_map().dom() == old(self).factory_map().dom(),
            final(self).consumers@.len() == old(self).consumers@.len(),
            r is Ok ==> final(self).time.hours == old(self).time.hours + 1,
            r is Ok ==> final(self).market.market_offers_sorted,
            r == Err::<(), SimulationError>(SimulationError::ClockOverflow) <==> old(self).time.hours == u64::MAX,
            r is Ok && old(self).consumers@.len() == 0 ==> final(self).money_in_circulation() + old(self).wage_bill()
                == old(self).money_in_circulation(),
            r is Ok && old(self).consumers@.len() == 0 ==> forall|w: Ware|
                old(self).made_by_none(w) ==> #[trigger] final(self).ware_in_economy(w) <= old(self).ware_in_economy(w),
            r == Err::<(), SimulationError>(SimulationError::ClockOverflow) ==> final(self).time == old(self).time,
            forall|id: FactoryId|
                #[trigger] old(self).production_overflows_at(id) <==> r == Err::<(), SimulationError>(
                    SimulationError::ProductionOverflow(id),
                ),
            r matches Err(SimulationError::ProductionOverflow(id)) ==> final(self).factory_map().contains_key(id.0)
                && final(self).factory_map()[id.0] == old(self).factory_map()[id.0],
            r matches Err(SimulationError::BalanceOverflow(id)) ==> final(self).factory_map().contains_key(id.0)
                && final(self).factory_map()[id.0].money.0 + owed(final(self).market.credits(), id) > u64::MAX,
            old(self).time.hours < u64::MAX && old(self).all_produce_fit() && old(self).consumers@.len() == 0
                && old(self).money_in_circulation() <= u64::MAX ==> r is Ok,
            r is Ok ==> forall|k: usize|
                #[trigger] final(self).factory_map().contains_key(k) ==> owed(final(self).market.credits(), FactoryId(k))
                    == 0,
    {
        if self.time.hours == u64::MAX {
            return Err(SimulationError::ClockOverflow);
        }
        self.time.increment();
        assert(self.factories == old(self).factories);
        assert(self.market == old(self).market);
        assert(self.consumers == old(self).consumers);
        assert(self.factory_map() == old(self).factory_map());
        assert(self.wf());
        let ids = slot_indices(&self.factories);
        let ghost dom0 = self.factory_map().dom();
        let ghost m0 = self.factory_map();
        let ghost done: Set<usize> = Set::empty();
        let mut i: usize = 0;
        proof {
            assert(sum_in(m0, handle_bound(), |f: Factory| wage_cost(f), done) == 0) by {
                lemma_sum_same_keys(m0, m0, handle_bound(), |f: Factory| wage_cost(f), done, Set::empty());
                lemma_sum_empty(m0, handle_bound(), |f: Factory| wage_cost(f));
            }
        }
        while i < ids.len()
            invariant
                self.wf(),
                self.factory_map().dom() == dom0,
                dom0 == old(self).factory_map().dom(),
                m0 == old(self).factory_map(),
                self.market == old(self).market,
                self.consumers == old(self).consumers,
                self.time.hours == old(self).time.hours + 1,
                forall|k: usize| dom0.contains(k) <==> ids@.contains(k),
                forall|a: int, b: int| 0 <= a < b < ids@.len() ==> ids@[a] < ids@[b],
                i <= ids@.len(),
                forall|k: usize| done.contains(k) <==> exists|a: int| 0 <= a < i && ids@[a] == k,
                forall|k: usize| dom0.contains(k) && !done.contains(k) ==> self.factory_map()[k] == m0[k],
                sum_all(self.factory_map(), |f: Factory| balance(f)) + sum_in(m0, handle_bound(), |f: Factory| wage_cost(f), done)
                    == sum_all(m0, |f: Factory| balance(f)),
                forall|k: usize| #[trigger] dom0.contains(k) ==> self.factory_map()[k].template == m0[k].template,
                forall|w: Ware| old(self).made_by_none(w) ==> #[trigger] self.ware_in_economy(w) <= old(self).ware_in_economy(w),
                forall|a: int| 0 <= a < i ==> #[trigger] m0[ids@[a]].produce_fits(DateTime { hours: 1 }),
                old(self).time.hours < u64::MAX,
            decreases ids@.len() - i,
        {
            let id = ids[i];
            let ghost before = self.factory_map();
            let ghost before_w = *self;
            proof {
                assert(ids@.contains(id));
                assert(self.factory_map().contains_key(id));
                if done.contains(id) {
                    let a = choose|a: int| 0 <= a < i && ids@[a] == id;
                    assert(ids@[a] < ids@[i as int]);
                }
            }
            if !slot(&self.factories, id).can_produce(DateTime::from_hours(1)) {
                proof {
                    assert(self.factory_map()[id] == m0[id]);
                    assert forall|k: usize| #[trigger] m0.contains_key(k) && k < id implies m0[k].produce_fits(
                        DateTime { hours: 1 },
                    ) by {
                        assert(ids@.contains(k));
                        let a = choose|a: int| 0 <= a < ids@.len() && ids@[a] == k;
                        if a >= i {
                            if a > i {
                                assert(ids@[i as int] < ids@[a]);
                            }
                        }
                    }
                    assert(old(self).production_overflows_at(FactoryId(id)));
                    assert forall|id2: FactoryId| #[trigger] old(self).production_overflows_at(id2) implies id2 == FactoryId(id) by {
                        if id2.0 < id {
                            assert(m0.contains_key(id2.0));
                        } else if id2.0 > id {
                            assert(m0.contains_key(id));
                        }
                    }
                }
                return Err(SimulationError::ProductionOverflow(FactoryId(id)));
            }
            let factory = slot_mut(&mut self.factories, id);
            factory.produce_one_hour();
            proof {
                let after = self.factory_map();
                let bal = |f: Factory| balance(f);
                let wc = |f: Factory| wage_cost(f);
                assert(after == before.insert(id, after[id]));
                lemma_sum_update(before, handle_bound(), bal, before.dom(), id, after[id]);
                lemma_sum_same_keys(before.insert(id, after[id]), after, handle_bound(), bal, before.dom(), after.dom());
                lemma_sum_same_keys(before, before, handle_bound(), bal, before.dom(), before.dom());
                lemma_sum_add(m0, handle_bound(), wc, done, id);
                assert(balance(after[id]) + wage_cost(m0[id]) == balance(m0[id]));
                assert forall|w: Ware| old(self).made_by_none(w) implies #[trigger] self.ware_in_economy(w) <= old(self).ware_in_economy(w) by {
                    let held = |f: Factory| f.ware_held(w);
                    assert(m0.contains_key(id));
                    assert(!m0[id].makes(w));
                    assert(before[id].ware_held(w) >= after[id].ware_held(w));
                    lemma_sum_update(before, handle_bound(), held, before.dom(), id, after[id]);
                    lemma_sum_same_keys(before.insert(id, after[id]), after, handle_bound(), held, before.dom(), after.dom());
                    assert(before_w.ware_in_economy(w) <= old(self).ware_in_economy(w));
                }
                done = done.insert(id);
                assert forall|k: usize| done.contains(k) <==> exists|a: int| 0 <= a < i + 1 && ids@[a] == k by {
                    if k == id {
                        assert(ids@[i as int] == k);
                    }
                }
            }
            i = i + 1;
        }
        proof {
            lemma_sum_same_keys(m0, m0, handle_bound(), |f: Factory| wage_cost(f), done, m0.dom());
            assert forall|k: usize| #[trigger] old(self).factory_map().contains_key(k) implies old(
                self,
            ).factory_map()[k].produce_fits(DateTime { hours: 1 }) by {
                assert(ids@.contains(k));
                let a = choose|a: int| 0 <= a < ids@.len() && ids@[a] == k;
                assert(m0[ids@[a]].produce_fits(DateTime { hours: 1 }));
            }
            assert(old(self).all_produce_fit());
        }
        let ghost after_produce = self.money_in_circulation();
        assert(after_produce <= old(self).money_in_circulation());
        let ghost snap = *self;
        i = 0;
        while i < ids.len()
            invariant
                self.wf(),
                self.factory_map().dom() == dom0,
                dom0 == old(self).factory_map().dom(),
                self.consumers == old(self).consumers,
                self.time.hours == old(self).time.hours + 1,
                forall|k: usize| dom0.contains(k) <==> ids@.contains(k),
                self.money_in_circulation() == after_produce,
                after_produce <= old(self).money_in_circulation(),
                old(self).all_produce_fit(),
                forall|w: Ware| #[trigger] self.ware_in_economy(w) == snap.ware_in_economy(w),
            decreases ids@.len() - i,
        {
            let id = ids[i];
            let ghost before = *self;
            proof {
                assert(ids@.contains(id));
                assert(self.factory_map().contains_key(id));
            }
            let factory = slot_mut(&mut self.factories, id);
            factory.reuse_inputs();
            factory.offer_outputs(&mut self.market, FactoryId(id));
            proof {
                self.lemma_one_factory_changed(before, id);
                self.lemma_one_factory_changed_wares(before, id);
            }
            i = i + 1;
        }
        let ghost before_sort = *self;
        self.market.sort_offers(rng);
        proof {
            assert forall|w: Ware| #[trigger] self.ware_in_economy(w) == snap.ware_in_economy(w) by {
                crate::market::lemma_book_total_permutation(self.market.book(w), before_sort.market.book(w));
                assert(before_sort.ware_in_economy(w) == snap.ware_in_economy(w));
            }
        }
        i = 0;
        while i < ids.len()
            invariant
                self.wf(),
                self.market.market_offers_sorted,
                self.factory_map().dom() == dom0,
                dom0 == old(self).factory_map().dom(),
                self.consumers == old(self).consumers,
                self.time.hours == old(self).time.hours + 1,
                forall|k: usize| dom0.contains(k) <==> ids@.contains(k),
                self.money_in_circulation() == after_produce,
                after_produce <= old(self).money_in_circulation(),
                old(self).all_produce_fit(),
                forall|w: Ware| #[trigger] self.ware_in_economy(w) == snap.ware_in_economy(w),
            decreases ids@.len() - i,
        {
            let id = ids[i];
            let ghost before = *self;
            proof {
                assert(ids@.contains(id));
                assert(self.factory_map().contains_key(id));
            }
            let factory = slot_mut(&mut self.factories, id);
            factory.buy_inputs(&mut self.market);
            proof {
                self.lemma_one_factory_changed(before, id);
                self.lemma_one_factory_changed_wares(before, id);
            }
            i = i + 1;
        }
        let ghost before_consumers = *self;
        let mut c: usize = 0;
        while c < self.consumers.len()
            invariant
                self.wf(),
                self.market.market_offers_sorted,
                self.factory_map().dom() == dom0,
                dom0 == old(self).factory_map().dom(),
                self.consumers@.len() == old(self).consumers@.len(),
                self.time.hours == old(self).time.hours + 1,
                forall|k: usize| dom0.contains(k) <==> ids@.contains(k),
                old(self).consumers@.len() == 0 ==> *self == before_consumers,
                before_consumers.money_in_circulation() <= old(self).money_in_circulation(),
                old(self).all_produce_fit(),
            decreases self.consumers@.len() - c,
        {
            let ghost before = self.consumers@;
            self.consumers[c].consume(&mut self.market);
            proof {
                assert forall|j: int| 0 <= j < self.consumers@.len() implies (#[trigger] self.consumers@[j]).wf() by {
                    if j != c {
                        assert(self.consumers@[j] == before[j]);
                    }
                }
            }
            c = c + 1;
        }
        let ghost after_consumers = self.money_in_circulation();
        let ghost before_collect = *self;
        assert(old(self).consumers@.len() == 0 ==> after_consumers <= old(self).money_in_circulation());
        i = 0;
        while i < ids.len()
            invariant
                self.wf(),
                self.market.market_offers_sorted,
                self.factory_map().dom() == dom0,
                dom0 == old(self).factory_map().dom(),
                self.consumers@.len() == old(self).consumers@.len(),
                self.time.hours == old(self).time.hours + 1,
                forall|k: usize| dom0.contains(k) <==> ids@.contains(k),
                self.money_in_circulation() == after_consumers,
                forall|w: Ware| #[trigger] self.ware_in_economy(w) == before_collect.ware_in_economy(w),
                old(self).consumers@.len() == 0 ==> after_consumers <= old(self).money_in_circulation(),
                old(self).all_produce_fit(),
                i <= ids@.len(),
                forall|a: int| 0 <= a < i ==> owed(self.market.credits(), FactoryId(#[trigger] ids@[a])) == 0,
            decreases ids@.len() - i,
        {
            let id = ids[i];
            let ghost before = *self;
            proof {
                assert(ids@.contains(id));
                assert(self.factory_map().contains_key(id));
            }
            let owed_now = self.market.owed_to(FactoryId(id));
            if owed_now > (u64::MAX - slot(&self.factories, id).money.0) as u128 {
                proof {
                    let m = self.factory_map();
                    lemma_sum_contains(m, handle_bound(), |f: Factory| balance(f), m.dom(), id);
                    crate::market::lemma_owed_within_total(self.market.credits(), FactoryId(id));
                    assert(m[id].money.0 + owed(self.market.credits(), FactoryId(id)) <= self.money_in_circulation());
                }
                return Err(SimulationError::BalanceOverflow(FactoryId(id)));
            }
            let factory = slot_mut(&mut self.factories, id);
            factory.collect_money(&mut self.market, FactoryId(id));
            proof {
                crate::market::lemma_payout_conserves(before.market.credits(), FactoryId(id));
                assert forall|a: int| 0 <= a < i + 1 implies owed(self.market.credits(), FactoryId(#[trigger] ids@[a])) == 0 by {
                    crate::market::lemma_owed_after_payout(before.market.credits(), FactoryId(id), FactoryId(ids@[a]));
                }
                self.lemma_one_factory_changed(before, id);
                self.lemma_one_factory_changed_wares(before, id);
                assert forall|w: Ware| #[trigger] self.market.book(w) == before.market.book(w) by {}
            }
            i = i + 1;
        }
        proof {
            assert forall|k: usize| #[trigger] self.factory_map().contains_key(k) implies owed(self.market.credits(), FactoryId(k))
                == 0 by {
                assert(ids@.contains(k));
                let a = choose|a: int| 0 <= a < ids@.len() && ids@[a] == k;
                assert(owed(self.market.credits(), FactoryId(ids@[a])) == 0);
            }
        }
        Ok(())
    }

    /// Where only factory `id` and the market changed, the quantity of each
    /// ware in the economy changes by what that factory and the books gained together.
    proof fn lemma_one_factory_changed_wares(&self, before: World, id: usize)
        requires
            before.factory_map().contains_key(id),
            self.factory_map() == before.factory_map().insert(id, self.factory_map()[id]),
        ensures
            forall|w: Ware| #[trigger] self.ware_in_economy(w) + before.factory_map()[id].ware_held(w) + book_total(before.market.book(w))
                == before.ware_in_economy(w) + self.factory_map()[id].ware_held(w) + book_total(self.market.book(w)),
    {
        assert forall|w: Ware| #[trigger] self.ware_in_economy(w) + before.factory_map()[id].ware_held(w) + book_total(before.market.book(w))
            == before.ware_in_economy(w) + self.factory_map()[id].ware_held(w) + book_total(self.market.book(w)) by {
            let m = before.factory_map();
            let after = self.factory_map();
            let held = |f: Factory| f.ware_held(w);
            lemma_sum_update(m, handle_bound(), held, m.dom(), id, after[id]);
            lemma_sum_same_keys(m.insert(id, after[id]), after, handle_bound(), held, m.dom(), after.dom());
        }
    }

    /// Where only factory `id` and the market changed, the money in
    /// circulation changes by what that factory and the ledger gained together.
    proof fn lemma_one_factory_changed(&self, before: World, id: usize)
        requires
            before.factory_map().contains_key(id),
            self.factory_map() == before.factory_map().insert(id, self.factory_map()[id]),
        ensures
            self.money_in_circulation() + balance(before.factory_map()[id]) + credits_total(before.market.credits())
                == before.money_in_circulation() + balance(self.factory_map()[id]) + credits_total(self.market.credits()),
    {
        let m = before.factory_map();
        let after = self.factory_map();
        let bal = |f: Factory| balance(f);
        lemma_sum_update(m, handle_bound(), bal, m.dom(), id, after[id]);
        lemma_sum_same_keys(m.insert(id, after[id]), after, handle_bound(), bal, m.dom(), after.dom());
    }

    /// Advances the world hour by hour for `time`, stopping at the first error.
    pub fn advance_time(&mut self, time: DateTime, rng: &mut Xoshiro256PlusPlus) -> (r: Result<(), SimulationError>)
        requires
            old(self).wf(),
        ensures
            final(self).wf(),
            r is Ok ==> final(self).time.hours == old(self).time.hours + time.hours,
            r == Err::<(), SimulationError>(SimulationError::ClockOverflow) ==> final(self).time.hours == u64::MAX,
            r matches Err(SimulationError::ProductionOverflow(id)) ==> final(self).factory_map().contains_key(id.0)
                && !final(self).factory_map()[id.0].produce_fits(DateTime { hours: 1 }),
            r matches Err(SimulationError::BalanceOverflow(id)) ==> final(self).factory_map().contains_key(id.0)
                && final(self).factory_map()[id.0].money.0 + owed(final(self).market.credits(), id) > u64::MAX,
            r is Ok ==> forall|k: usize|
                #[trigger] final(self).factory_map().contains_key(k) && time.hours > 0 ==> owed(
                    final(self).market.credits(),
                    FactoryId(k),
                ) == 0,
    {
        let mut h: u64 = 0;
        while h < time.hours
            invariant
                self.wf(),
                h <= time.hours,
                self.time.hours == old(self).time.hours + h,
                h > 0 ==> forall|k: usize|
                    #[trigger] self.factory_map().contains_key(k) ==> owed(self.market.credits(), FactoryId(k)) == 0,
            decreases time.hours - h,
        {
            let ghost before = *self;
            let step = self.advance_hour(rng);
            match step {
                Ok(()) => {},
                Err(e) => {
                    proof {
                        if let SimulationError::ProductionOverflow(id) = e {
                            assert(before.production_overflows_at(id));
                        }
                    }
                    return Err(e);
                },
            }
            h = h + 1;
        }
        Ok(())
    }

    pub fn time(&self) -> (r: DateTime)
        ensures
            r == self.time,
    {
        self.time
    }
}

} // verus!
