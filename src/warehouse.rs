use vstd::prelude::*;

use crate::money::ApproximateMoney;
use crate::ware::{Ware, WareAmount, WARE_KINDS};

verus! {

/// A quantity of one ware held in stock, tagged with what one item cost to source.
#[derive(Debug, Clone, Copy, PartialEq, Eq, Structural)]
pub struct PartialWarehouseBatch {
    pub sourcing_cost_per_item: ApproximateMoney,
    pub amount: u64,
}

/// The stock of one ware: a queue of batches, oldest first, and their total quantity.
#[derive(Debug)]
pub struct WarehouseEntry {
    pub total_amount: u64,
    pub batches: Vec<PartialWarehouseBatch>,
}

/// A batch taken out of a warehouse, together with its ware.
#[derive(Debug, Clone, Copy, PartialEq, Eq, Structural)]
pub struct WarehouseBatch {
    pub ware: Ware,
    pub amount: u64,
    pub sourcing_cost_per_item: ApproximateMoney,
}

/// Inventory costed first-in-first-out: one [`WarehouseEntry`] per kind of ware,
/// at the ware's index.
#[derive(Debug)]
pub struct Warehouse {
    pub wares: Vec<WarehouseEntry>,
}

/// Total quantity held in a queue of batches.
pub open spec fn stock_total(s: Seq<PartialWarehouseBatch>) -> nat
    decreases s.len(),
{
    if s.len() == 0 {
        0
    } else {
        s[0].amount as nat + stock_total(s.drop_first())
    }
}

/// Total sourcing cost of a queue of batches, in fixed-point steps.
pub open spec fn stock_value(s: Seq<PartialWarehouseBatch>) -> nat
    decreases s.len(),
{
    if s.len() == 0 {
        0
    } else {
        (s[0].amount as nat) * (s[0].sourcing_cost_per_item.0 as nat) + stock_value(s.drop_first())
    }
}

/// Every batch in the queue holds at least one item.
pub open spec fn all_positive(s: Seq<PartialWarehouseBatch>) -> bool {
    forall|i: int| 0 <= i < s.len() ==> #[trigger] s[i].amount > 0
}

/// What taking `n` items from the front of the queue costs, in fixed-point steps.
pub open spec fn take_cost(s: Seq<PartialWarehouseBatch>, n: nat) -> nat
    decreases s.len(),
{
    if n == 0 || s.len() == 0 {
        0
    } else if n < s[0].amount {
        n * (s[0].sourcing_cost_per_item.0 as nat)
    } else {
        (s[0].amount as nat) * (s[0].sourcing_cost_per_item.0 as nat) + take_cost(s.drop_first(), (n - s[0].amount) as nat)
    }
}

/// The queue left after taking `n` items from its front.
pub open spec fn take_rest(s: Seq<PartialWarehouseBatch>, n: nat) -> Seq<PartialWarehouseBatch>
    decreases s.len(),
{
    if n == 0 || s.len() == 0 {
        s
    } else if n < s[0].amount {
        s.update(
            0,
            PartialWarehouseBatch {
                sourcing_cost_per_item: s[0].sourcing_cost_per_item,
                amount: (s[0].amount - n) as u64,
            },
        )
    } else {
        take_rest(s.drop_first(), (n - s[0].amount) as nat)
    }
}

/// A queue of batches tagged with their ware.
pub open spec fn tagged(w: Ware, s: Seq<PartialWarehouseBatch>) -> Seq<WarehouseBatch> {
    s.map_values(
        |b: PartialWarehouseBatch|
            WarehouseBatch { ware: w, amount: b.amount, sourcing_cost_per_item: b.sourcing_cost_per_item },
    )
}

proof fn lemma_take_cost_bound(s: Seq<PartialWarehouseBatch>, n: nat)
    ensures
        take_cost(s, n) <= n * (u64::MAX as nat),
    decreases s.len(),
{
    if n == 0 || s.len() == 0 {
    } else if n < s[0].amount {
        let c = s[0].sourcing_cost_per_item.0 as nat;
        assert(n * c <= n * (u64::MAX as nat)) by (nonlinear_arith)
            requires
                c <= u64::MAX,
        ;
    } else {
        let a = s[0].amount as nat;
        let c = s[0].sourcing_cost_per_item.0 as nat;
        lemma_take_cost_bound(s.drop_first(), (n - a) as nat);
        assert(a * c + (n - a) * (u64::MAX as nat) <= n * (u64::MAX as nat)) by (nonlinear_arith)
            requires
                c <= u64::MAX,
                a <= n,
        ;
    }
}

pub(crate) proof fn lemma_take_within_stock(s: Seq<PartialWarehouseBatch>, n: nat)
    requires
        all_positive(s),
        n <= stock_total(s),
    ensures
        all_positive(take_rest(s, n)),
        stock_total(take_rest(s, n)) == stock_total(s) - n,
    decreases s.len(),
{
    if n == 0 || s.len() == 0 {
    } else if n < s[0].amount {
        let r = take_rest(s, n);
        assert(r.drop_first() == s.drop_first());
    } else {
        assert(all_positive(s.drop_first())) by {
            assert forall|i: int| 0 <= i < s.drop_first().len() implies #[trigger] s.drop_first()[i].amount > 0 by {
                assert(s.drop_first()[i] == s[i + 1]);
            }
        }
        lemma_take_within_stock(s.drop_first(), (n - s[0].amount) as nat);
    }
}

pub(crate) proof fn lemma_stock_total_push(s: Seq<PartialWarehouseBatch>, b: PartialWarehouseBatch)
    ensures
        stock_total(s.push(b)) == stock_total(s) + b.amount,
        stock_value(s.push(b)) == stock_value(s) + b.amount * b.sourcing_cost_per_item.0,
    decreases s.len(),
{
    if s.len() == 0 {
        assert(s.push(b).drop_first() == s);
    } else {
        assert(s.push(b).drop_first() == s.drop_first().push(b));
        lemma_stock_total_push(s.drop_first(), b);
    }
}

impl PartialWarehouseBatch {
    pub fn into_batch(self, ware: Ware) -> (r: WarehouseBatch)
        ensures
            r == (WarehouseBatch { ware, amount: self.amount, sourcing_cost_per_item: self.sourcing_cost_per_item }),
    {
        WarehouseBatch { ware, amount: self.amount, sourcing_cost_per_item: self.sourcing_cost_per_item }
    }
}

impl WarehouseBatch {
    pub fn ware(&self) -> (r: Ware)
        ensures
            r == self.ware,
    {
        self.ware
    }

    pub fn amount(&self) -> (r: u64)
        ensures
            r == self.amount,
    {
        self.amount
    }

    pub fn sourcing_cost_per_item(&self) -> (r: ApproximateMoney)
        ensures
            r == self.sourcing_cost_per_item,
    {
        self.sourcing_cost_per_item
    }
}

impl WarehouseEntry {
    /// The recorded total matches the batches, and no batch is empty.
    pub open spec fn wf(&self) -> bool {
        &&& self.total_amount == stock_total(self.batches@)
        &&& all_positive(self.batches@)
    }

    /// An entry holding one batch (none, if `amount` is zero).
    pub fn new(amount: u64, sourcing_cost_per_item: ApproximateMoney) -> (r: Self)
        ensures
            r.wf(),
            amount == 0 ==> r.batches@ == Seq::<PartialWarehouseBatch>::empty(),
            amount > 0 ==> r.batches@ == seq![PartialWarehouseBatch { sourcing_cost_per_item, amount }],
    {
        let mut r = WarehouseEntry { total_amount: 0, batches: Vec::new() };
        r.insert(amount, sourcing_cost_per_item);
        r
    }

    pub fn ware_amount(&self, ware: Ware) -> (r: WareAmount)
        ensures
            r.ware == ware,
            r.amount == self.total_amount,
    {
        WareAmount::new(ware, self.total_amount)
    }

    pub fn is_empty(&self) -> (r: bool)
        ensures
            r == (self.total_amount == 0),
    {
        self.total_amount == 0
    }

    /// Appends a batch at the back of the queue.
    pub fn insert(&mut self, amount: u64, sourcing_cost_per_item: ApproximateMoney)
        requires
            old(self).wf(),
            old(self).total_amount + amount <= u64::MAX,
        ensures
            final(self).wf(),
            amount == 0 ==> final(self).batches@ == old(self).batches@,
            amount > 0 ==> final(self).batches@ == old(self).batches@.push(
                PartialWarehouseBatch { sourcing_cost_per_item, amount },
            ),
    {
        if amount > 0 {
            let b = PartialWarehouseBatch { sourcing_cost_per_item, amount };
            proof {
                lemma_stock_total_push(self.batches@, b);
            }
            self.total_amount = self.total_amount + amount;
            self.batches.push(b);
        }
    }

    /// Takes `amount` items from the front of the queue and returns their
    /// average sourcing cost per item (rounded down to a fixed-point step).
    pub fn remove(&mut self, amount: u64) -> (r: ApproximateMoney)
        requires
            old(self).wf(),
            0 < amount <= old(self).total_amount,
        ensures
            final(self).wf(),
            final(self).batches@ == take_rest(old(self).batches@, amount as nat),
            r.0 == take_cost(old(self).batches@, amount as nat) / (amount as nat),
    {
        let ghost start = self.batches@;
        proof {
            lemma_take_cost_bound(start, amount as nat);
            lemma_take_within_stock(start, amount as nat);
        }
        self.total_amount = self.total_amount - amount;
        let mut remaining = amount;
        let mut total_cost: u128 = 0;
        while remaining > 0
            invariant
                all_positive(self.batches@),
                self.total_amount + amount == stock_total(start),
                remaining <= stock_total(self.batches@),
                take_rest(start, amount as nat) == take_rest(self.batches@, remaining as nat),
                total_cost + take_cost(self.batches@, remaining as nat) == take_cost(start, amount as nat),
                take_cost(start, amount as nat) <= amount * (u64::MAX as nat),
                amount * (u64::MAX as nat) <= u128::MAX,
            decreases remaining,
        {
            let batch = self.batches[0];
            let cost = batch.sourcing_cost_per_item.0;
            let ghost s = self.batches@;
            if remaining >= batch.amount {
                proof {
                    assert(all_positive(s.drop_first())) by {
                        assert forall|i: int| 0 <= i < s.drop_first().len() implies #[trigger] s.drop_first()[i].amount
                            > 0 by {
                            assert(s.drop_first()[i] == s[i + 1]);
                        }
                    }
                }
                assert(take_cost(s, remaining as nat) == (batch.amount as nat) * (cost as nat) + take_cost(
                    s.drop_first(),
                    (remaining - batch.amount) as nat,
                ));
                assert((cost as nat) * (batch.amount as nat) == (batch.amount as nat) * (cost as nat)) by (nonlinear_arith);
                self.batches.remove(0);
                assert(self.batches@ == s.drop_first());
                total_cost = total_cost + (cost as u128) * (batch.amount as u128);
                remaining = remaining - batch.amount;
            } else {
                let rest = PartialWarehouseBatch { sourcing_cost_per_item: batch.sourcing_cost_per_item, amount: batch.amount - remaining };
                assert(take_cost(s, remaining as nat) == (remaining as nat) * (cost as nat));
                assert((cost as nat) * (remaining as nat) == (remaining as nat) * (cost as nat)) by (nonlinear_arith);
                self.batches.set(0, rest);
                proof {
                    assert(self.batches@.drop_first() == s.drop_first());
                    assert(take_rest(self.batches@, 0) == self.batches@);
                }
                total_cost = total_cost + (cost as u128) * (remaining as u128);
                remaining = 0;
            }
        }
        proof {
            assert(take_rest(self.batches@, 0) == self.batches@);
            assert(self.batches@ == take_rest(start, amount as nat));
            lemma_take_within_stock(start, amount as nat);
            vstd::arithmetic::div_mod::lemma_div_is_ordered(
                total_cost as int,
                amount * (u64::MAX as int),
                amount as int,
            );
            vstd::arithmetic::div_mod::lemma_div_multiples_vanish(u64::MAX as int, amount as int);
        }
        ApproximateMoney((total_cost / (amount as u128)) as u64)
    }
}

impl Warehouse {
    /// One well-formed entry per kind of ware.
    pub open spec fn wf(&self) -> bool {
        &&& self.wares@.len() == WARE_KINDS
        &&& forall|i: int| 0 <= i < WARE_KINDS ==> (#[trigger] self.wares@[i]).wf()
    }

    /// The batches of one ware, oldest first.
    pub open spec fn batches(&self, w: Ware) -> Seq<PartialWarehouseBatch> {
        self.wares@[w.index() as int].batches@
    }

    /// The quantity of one ware in stock.
    pub open spec fn stock(&self, w: Ware) -> nat {
        stock_total(self.batches(w))
    }

    /// Every ware but `w` keeps its batches.
    pub open spec fn others_unchanged(&self, before: Warehouse, w: Ware) -> bool {
        forall|v: Ware| v != w ==> #[trigger] self.batches(v) == before.batches(v)
    }

    /// Everything in stock, ware by ware in index order, each ware's batches oldest first.
    pub open spec fn contents(&self) -> Seq<WarehouseBatch> {
        tagged(Ware::Water, self.batches(Ware::Water)) + tagged(Ware::Seed, self.batches(Ware::Seed))
            + tagged(Ware::Apple, self.batches(Ware::Apple))
    }

    pub fn new() -> (r: Self)
        ensures
            r.wf(),
            forall|w: Ware| #[trigger] r.batches(w) == Seq::<PartialWarehouseBatch>::empty(),
    {
        let mut wares: Vec<WarehouseEntry> = Vec::new();
        let mut i: usize = 0;
        while i < WARE_KINDS
            invariant
                i <= WARE_KINDS,
                wares@.len() == i,
                forall|j: int| 0 <= j < i ==> (#[trigger] wares@[j]).wf() && wares@[j].batches@.len() == 0,
            decreases WARE_KINDS - i,
        {
            wares.push(WarehouseEntry { total_amount: 0, batches: Vec::new() });
            i = i + 1;
        }
        let r = Warehouse { wares };
        assert forall|w: Ware| #[trigger] r.batches(w) == Seq::<PartialWarehouseBatch>::empty() by {
            assert(w.index() < WARE_KINDS);
        }
        r
    }

    /// The quantity of `ware` in stock (zero for a ware never stored).
    pub fn ware_amount(&self, ware: Ware) -> (r: WareAmount)
        requires
            self.wf(),
        ensures
            r.ware == ware,
            r.amount == self.stock(ware),
    {
        let i = ware.to_index();
        self.wares[i].ware_amount(ware)
    }

    /// Appends a batch of `ware_amount` at `sourcing_cost_per_item` behind the
    /// older stock of that ware. An empty amount leaves the warehouse as it is.
    pub fn insert_ware(&mut self, ware_amount: WareAmount, sourcing_cost_per_item: ApproximateMoney)
        requires
            old(self).wf(),
            old(self).stock(ware_amount.ware) + ware_amount.amount <= u64::MAX,
        ensures
            final(self).wf(),
            final(self).others_unchanged(*old(self), ware_amount.ware),
            ware_amount.amount == 0 ==> final(self).batches(ware_amount.ware) == old(self).batches(
                ware_amount.ware,
            ),
            ware_amount.amount > 0 ==> final(self).batches(ware_amount.ware) == old(self).batches(
                ware_amount.ware,
            ).push(PartialWarehouseBatch { sourcing_cost_per_item, amount: ware_amount.amount }),
    {
        let i = ware_amount.ware.to_index();
        self.wares[i].insert(ware_amount.amount, sourcing_cost_per_item);
        proof {
            assert forall|v: Ware| v != ware_amount.ware implies #[trigger] self.batches(v) == old(self).batches(v) by {
                assert(v.index() != ware_amount.ware.index());
            }
        }
    }

    /// Takes `ware_amount` from the oldest stock of its ware first and returns
    /// the average sourcing cost per item of what was taken.
    pub fn remove_ware(&mut self, ware_amount: WareAmount) -> (r: ApproximateMoney)
        requires
            old(self).wf(),
            0 < ware_amount.amount <= old(self).stock(ware_amount.ware),
        ensures
            final(self).wf(),
            final(self).others_unchanged(*old(self), ware_amount.ware),
            final(self).batches(ware_amount.ware) == take_rest(
                old(self).batches(ware_amount.ware),
                ware_amount.amount as nat,
            ),
            r.0 == take_cost(old(self).batches(ware_amount.ware), ware_amount.amount as nat)
                / (ware_amount.amount as nat),
    {
        let i = ware_amount.ware.to_index();
        let r = self.wares[i].remove(ware_amount.amount);
        proof {
            assert forall|v: Ware| v != ware_amount.ware implies #[trigger] self.batches(v) == old(self).batches(v) by {
                assert(v.index() != ware_amount.ware.index());
            }
        }
        r
    }

    /// Empties the warehouse and returns what it held, ware by ware in index
    /// order, each ware's batches oldest first.
    pub fn drain(&mut self) -> (r: Vec<WarehouseBatch>)
        requires
            old(self).wf(),
        ensures
            final(self).wf(),
            r@ == old(self).contents(),
            forall|w: Ware| #[trigger] final(self).batches(w) == Seq::<PartialWarehouseBatch>::empty(),
    {
        let mut out: Vec<WarehouseBatch> = Vec::new();
        let mut i: usize = 0;
        while i < WARE_KINDS
            invariant
                self.wf(),
                0 <= i <= WARE_KINDS,
                out@ == drained_prefix(*self, i as nat),
            decreases WARE_KINDS - i,
        {
            let ware = Ware::from_index(i);
            let mut j: usize = 0;
            let ghost before = out@;
            while j < self.wares[i].batches.len()
                invariant
                    self.wf(),
                    i < WARE_KINDS,
                    ware.index() == i,
                    ware == Ware::spec_from_index(i as nat),
                    before == drained_prefix(*self, i as nat),
                    j <= self.wares@[i as int].batches@.len(),
                    out@ == before + tagged(ware, self.wares@[i as int].batches@.subrange(0, j as int)),
                decreases self.wares@[i as int].batches@.len() - j,
            {
                let b = self.wares[i].batches[j];
                out.push(b.into_batch(ware));
                proof {
                    let s = self.wares@[i as int].batches@;
                    assert(tagged(ware, s.subrange(0, j + 1)) == tagged(ware, s.subrange(0, j as int)).push(
                        WarehouseBatch { ware, amount: b.amount, sourcing_cost_per_item: b.sourcing_cost_per_item },
                    ));
                }
                j = j + 1;
            }
            proof {
                assert(self.wares@[i as int].batches@.subrange(0, j as int) == self.wares@[i as int].batches@);
            }
            i = i + 1;
        }
        proof {
            reveal_with_fuel(drained_prefix, 4);
            assert(Ware::spec_from_index(0) == Ware::Water);
            assert(drained_prefix(*self, 0) + tagged(Ware::Water, self.batches(Ware::Water)) == tagged(Ware::Water, self.batches(Ware::Water)));
            assert(out@ == self.contents());
        }
        *self = Warehouse::new();
        out
    }
}

/// The contents of the first `k` ware kinds of a warehouse, in index order.
pub open spec fn drained_prefix(w: Warehouse, k: nat) -> Seq<WarehouseBatch>
    decreases k,
{
    if k == 0 {
        Seq::empty()
    } else {
        drained_prefix(w, (k - 1) as nat) + tagged(
            Ware::spec_from_index((k - 1) as nat),
            w.wares@[k - 1].batches@,
        )
    }
}

proof fn lemma_positive_drop_first(s: Seq<PartialWarehouseBatch>)
    requires
        all_positive(s),
        s.len() > 0,
    ensures
        all_positive(s.drop_first()),
        stock_total(s) > 0,
{
    assert forall|i: int| 0 <= i < s.drop_first().len() implies #[trigger] s.drop_first()[i].amount > 0 by {
        assert(s.drop_first()[i] == s[i + 1]);
    }
    assert(s[0].amount > 0);
}

proof fn lemma_empty_when_nothing_in_stock(s: Seq<PartialWarehouseBatch>)
    requires
        all_positive(s),
        stock_total(s) == 0,
    ensures
        s.len() == 0,
{
    if s.len() > 0 {
        lemma_positive_drop_first(s);
    }
}

/// Taking the whole stock out of a queue costs exactly the sum of
/// quantity × cost over all its batches: the average cost returned by a full
/// removal is the quantity-weighted average of the costs the batches came in at.
pub proof fn lemma_fifo_total_removal(s: Seq<PartialWarehouseBatch>)
    requires
        all_positive(s),
    ensures
        take_cost(s, stock_total(s)) == stock_value(s),
        take_rest(s, stock_total(s)) == Seq::<PartialWarehouseBatch>::empty(),
    decreases s.len(),
{
    if s.len() > 0 {
        lemma_positive_drop_first(s);
        let rest = s.drop_first();
        if stock_total(rest) == 0 {
            lemma_empty_when_nothing_in_stock(rest);
        }
        lemma_fifo_total_removal(rest);
    }
}

/// Taking `n` items and then the remainder costs, together, exactly the value
/// of the whole stock; and what is left after the first removal is the stock's
/// newest part: the oldest `k` batches are gone, batch `k` has shrunk, and all
/// later batches are untouched.
pub proof fn lemma_fifo_partial_removal(s: Seq<PartialWarehouseBatch>, n: nat)
    requires
        all_positive(s),
        n < stock_total(s),
    ensures
        take_cost(s, n) + take_cost(take_rest(s, n), (stock_total(s) - n) as nat) == stock_value(s),
        exists|k: int|
            0 <= k < s.len() && stock_total(s.take(k)) <= n < stock_total(s.take(k + 1)) && take_rest(s, n)
                == seq![
                PartialWarehouseBatch {
                    sourcing_cost_per_item: s[k].sourcing_cost_per_item,
                    amount: (stock_total(s.take(k + 1)) - n) as u64,
                },
            ] + s.skip(k + 1),
{
    lemma_take_within_stock(s, n);
    lemma_take_value(s, n);
    lemma_fifo_total_removal(take_rest(s, n));
    lemma_fifo_shape(s, n);
}

proof fn lemma_take_value(s: Seq<PartialWarehouseBatch>, n: nat)
    requires
        all_positive(s),
        n <= stock_total(s),
    ensures
        take_cost(s, n) + stock_value(take_rest(s, n)) == stock_value(s),
    decreases s.len(),
{
    if n == 0 || s.len() == 0 {
    } else if n < s[0].amount {
        let r = take_rest(s, n);
        assert(r.drop_first() == s.drop_first());
        let a = s[0].amount as nat;
        let c = s[0].sourcing_cost_per_item.0 as nat;
        assert(n * c + ((a - n) as nat) * c == a * c) by (nonlinear_arith)
            requires
                n < a,
        ;
    } else {
        lemma_positive_drop_first(s);
        lemma_take_value(s.drop_first(), (n - s[0].amount) as nat);
    }
}

proof fn lemma_stock_total_take(s: Seq<PartialWarehouseBatch>, j: int)
    requires
        0 <= j < s.len(),
    ensures
        stock_total(s.take(j + 1)) == s[0].amount + stock_total(s.drop_first().take(j)),
{
    assert(s.take(j + 1).drop_first() == s.drop_first().take(j));
}

proof fn lemma_fifo_shape(s: Seq<PartialWarehouseBatch>, n: nat)
    requires
        all_positive(s),
        n < stock_total(s),
    ensures
        exists|k: int|
            0 <= k < s.len() && stock_total(s.take(k)) <= n < stock_total(s.take(k + 1)) && take_rest(s, n)
                == seq![
                PartialWarehouseBatch {
                    sourcing_cost_per_item: s[k].sourcing_cost_per_item,
                    amount: (stock_total(s.take(k + 1)) - n) as u64,
                },
            ] + s.skip(k + 1),
    decreases s.len(),
{
    lemma_positive_drop_first(s);
    let a = s[0].amount as nat;
    assert(s.take(0) == Seq::<PartialWarehouseBatch>::empty());
    lemma_stock_total_take(s, 0);
    assert(s.drop_first().take(0) == Seq::<PartialWarehouseBatch>::empty());
    if n < a {
        let b = PartialWarehouseBatch { sourcing_cost_per_item: s[0].sourcing_cost_per_item, amount: (a - n) as u64 };
        if n == 0 {
            assert(s.update(0, b) == s);
        }
        assert(take_rest(s, n) == seq![b] + s.skip(1));
        assert(0 <= 0 < s.len() && stock_total(s.take(0)) <= n < stock_total(s.take(1)));
    } else {
        let rest = s.drop_first();
        let m = (n - a) as nat;
        lemma_fifo_shape(rest, m);
        let k2 = choose|k: int|
            0 <= k < rest.len() && stock_total(rest.take(k)) <= m < stock_total(rest.take(k + 1)) && take_rest(
                rest,
                m,
            ) == seq![
                PartialWarehouseBatch {
                    sourcing_cost_per_item: rest[k].sourcing_cost_per_item,
                    amount: (stock_total(rest.take(k + 1)) - m) as u64,
                },
            ] + rest.skip(k + 1);
        lemma_stock_total_take(s, k2);
        lemma_stock_total_take(s, k2 + 1);
        assert(rest.skip(k2 + 1) == s.skip(k2 + 2));
        assert(rest[k2] == s[k2 + 1]);
        let k = k2 + 1;
        assert(0 <= k < s.len() && stock_total(s.take(k)) <= n < stock_total(s.take(k + 1)));
    }
}

impl Default for Warehouse {
    fn default() -> (r: Self)
        ensures
            r.wf(),
            forall|w: Ware| #[trigger] r.batches(w) == Seq::<PartialWarehouseBatch>::empty(),
    {
        Warehouse::new()
    }
}

} // verus!
