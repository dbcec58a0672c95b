use vstd::prelude::*;

use crate::factory::FactoryId;
use crate::money::{per_item, unit_cost, ApproximateMoney, Money, COST_SCALE};
use crate::ware::{Ware, WareAmount, WARE_KINDS};
use crate::warehouse::{PartialWarehouseBatch, Warehouse};
use rand_xoshiro::Xoshiro256PlusPlus;

verus! {

broadcast use vstd::seq_lib::group_to_multiset_ensures;

#[verifier::external_type_specification]
#[verifier::external_body]
pub struct ExXoshiro256PlusPlus(Xoshiro256PlusPlus);

/// A standing offer to sell `amount` items of a ware at a fixed price each.
#[derive(Debug, Clone, Copy, PartialEq, Eq, Structural)]
pub struct MarketOffer {
    pub source_factory: FactoryId,
    pub amount: u64,
    pub price_per_item: Money,
}

/// Money the market owes a factory for one of its sales.
#[derive(Debug, Clone, Copy, PartialEq, Eq, Structural)]
pub struct Credit {
    pub factory: FactoryId,
    pub amount: Money,
}

/// The clearing venue: one book of sell offers per ware (the cheapest offer at
/// the end once sorted) and a ledger of credits owed to selling factories.
#[derive(Debug)]
pub struct Market {
    pub market_offers_sorted: bool,
    pub offers: Vec<Vec<MarketOffer>>,
    pub money_transactions: Vec<Credit>,
}

/// Prices never rise from the head of the book to its tail.
pub open spec fn sorted_desc(s: Seq<MarketOffer>) -> bool {
    forall|i: int, j: int| 0 <= i < j < s.len() ==> s[i].price_per_item.0 >= s[j].price_per_item.0
}

pub open spec fn min_nat(a: nat, b: nat) -> nat {
    if a <= b {
        a
    } else {
        b
    }
}

/// Quantity available when buying up to `n` items, cheapest (last) offers first.
pub open spec fn quote_amount(s: Seq<MarketOffer>, n: nat) -> nat
    decreases s.len(),
{
    if n == 0 || s.len() == 0 {
        0
    } else {
        let k = min_nat(s.last().amount as nat, n);
        k + quote_amount(s.drop_last(), (n - k) as nat)
    }
}

/// Cost of buying up to `n` items, cheapest (last) offers first.
pub open spec fn quote_cost(s: Seq<MarketOffer>, n: nat) -> nat
    decreases s.len(),
{
    if n == 0 || s.len() == 0 {
        0
    } else {
        let k = min_nat(s.last().amount as nat, n);
        k * (s.last().price_per_item.0 as nat) + quote_cost(s.drop_last(), (n - k) as nat)
    }
}

/// How many items at `price` a balance of `m` pays for; a free offer is never
/// limited by money.
pub open spec fn affordable(m: nat, price: nat) -> nat {
    if price == 0 {
        u64::MAX as nat
    } else {
        m / price
    }
}

/// The outcome of a purchase: items bought, money spent, the book left behind
/// and the credits owed to the sellers, in the order the offers were taken.
pub struct Purchase {
    pub bought: nat,
    pub spent: nat,
    pub book: Seq<MarketOffer>,
    pub paid: Seq<Credit>,
}

/// The offer `o` after `k` of its items were sold.
pub open spec fn reduced(o: MarketOffer, k: nat) -> MarketOffer {
    MarketOffer { source_factory: o.source_factory, amount: (o.amount - k) as u64, price_per_item: o.price_per_item }
}

/// Buying up to `n` items with a balance of `m`: take from the cheapest offer
/// as much as is wanted, offered and affordable, and go on until one of them
/// runs out. An offer with nothing left is passed over.
pub open spec fn purchase(s: Seq<MarketOffer>, n: nat, m: nat) -> Purchase
    decreases n, s.len(),
{
    if n == 0 || s.len() == 0 {
        Purchase { bought: 0, spent: 0, book: s, paid: Seq::empty() }
    } else if s.last().amount == 0 {
        purchase(s.drop_last(), n, m)
    } else {
        let o = s.last();
        let p = o.price_per_item.0 as nat;
        let k = min_nat(min_nat(o.amount as nat, n), affordable(m, p));
        if k == 0 {
            Purchase { bought: 0, spent: 0, book: s, paid: Seq::empty() }
        } else {
            let rest = if k == o.amount {
                s.drop_last()
            } else {
                s.drop_last().push(reduced(o, k))
            };
            let r = purchase(rest, (n - k) as nat, (m - k * p) as nat);
            Purchase {
                bought: k + r.bought,
                spent: k * p + r.spent,
                book: r.book,
                paid: seq![Credit { factory: o.source_factory, amount: Money((k * p) as u64) }] + r.paid,
            }
        }
    }
}

/// The sum of a list of credits.
pub open spec fn credits_total(c: Seq<Credit>) -> nat
    decreases c.len(),
{
    if c.len() == 0 {
        0
    } else {
        credits_total(c.drop_last()) + c.last().amount.0 as nat
    }
}

/// What the ledger owes one factory.
pub open spec fn owed(c: Seq<Credit>, f: FactoryId) -> nat
    decreases c.len(),
{
    if c.len() == 0 {
        0
    } else {
        owed(c.drop_last(), f) + if c.last().factory == f {
            c.last().amount.0 as nat
        } else {
            0
        }
    }
}

/// The ledger without the credits of one factory, in order.
pub open spec fn others(c: Seq<Credit>, f: FactoryId) -> Seq<Credit>
    decreases c.len(),
{
    if c.len() == 0 {
        c
    } else if c.last().factory == f {
        others(c.drop_last(), f)
    } else {
        others(c.drop_last(), f).push(c.last())
    }
}

/// Relies on rand's `SliceRandom::shuffle`, which reorders the slice in place
/// (uniformly at random) and neither adds nor drops an element.
#[verifier::external_body]
fn shuffle_offers(offers: &mut Vec<MarketOffer>, rng: &mut Xoshiro256PlusPlus)
    ensures
        final(offers)@.to_multiset() == old(offers)@.to_multiset(),
{
    rand::seq::SliceRandom::shuffle(offers.as_mut_slice(), rng)
}

/// Orders offers by price, highest first, keeping offers of equal price in
/// the order they came in.
pub fn sort_by_price_descending(v: Vec<MarketOffer>) -> (r: Vec<MarketOffer>)
    ensures
        r@.to_multiset() == v@.to_multiset(),
        sorted_desc(r@),
        exists|pos: Seq<int>| #[trigger] keeps_ties_in_order(v@, r@, pos),
{
    let mut out: Vec<MarketOffer> = Vec::new();
    let ghost mut pos: Seq<int> = Seq::empty();
    let mut i: usize = 0;
    while i < v.len()
        invariant
            i <= v@.len(),
            sorted_desc(out@),
            out@.to_multiset() == v@.take(i as int).to_multiset(),
            keeps_ties_in_order(v@, out@, pos),
            forall|k: int| 0 <= k < pos.len() ==> #[trigger] pos[k] < i,
        decreases v@.len() - i,
    {
        let o = v[i];
        let mut j: usize = 0;
        while j < out.len() && out[j].price_per_item.0 >= o.price_per_item.0
            invariant
                j <= out@.len(),
                forall|k: int| 0 <= k < j ==> out@[k].price_per_item.0 >= o.price_per_item.0,
            decreases out@.len() - j,
        {
            j = j + 1;
        }
        let ghost before = out@;
        let ghost pos_before = pos;
        out.insert(j, o);
        proof {
            pos = pos.insert(j as int, i as int);
            assert(v@.take(i + 1) == v@.take(i as int).push(o));
            assert forall|a: int, b: int| 0 <= a < b < out@.len() implies out@[a].price_per_item.0
                >= out@[b].price_per_item.0 by {
                if b < j {
                } else if b == j {
                } else if a < j {
                    assert(before[j as int].price_per_item.0 < o.price_per_item.0);
                } else if a == j {
                    assert(before[j as int].price_per_item.0 < o.price_per_item.0);
                } else {
                }
            }
            assert forall|k: int| 0 <= k < out@.len() implies 0 <= #[trigger] pos[k] < v@.len() && out@[k] == v@[pos[k]] by {
                if k < j {
                    assert(pos[k] == pos_before[k]);
                } else if k > j {
                    assert(pos[k] == pos_before[k - 1]);
                }
            }
            assert forall|a: int, b: int| 0 <= a < b < out@.len() implies #[trigger] pos[a] != #[trigger] pos[b] && (
            out@[a].price_per_item == out@[b].price_per_item ==> pos[a] < pos[b]) by {
                if b < j {
                } else if b == j {
                    assert(pos_before[a] < i);
                } else if a < j {
                    assert(pos[b] == pos_before[b - 1]);
                    assert(before[j as int].price_per_item.0 < o.price_per_item.0);
                    if a != j && out@[a].price_per_item == out@[b].price_per_item {
                        assert(out@[a].price_per_item.0 >= o.price_per_item.0);
                        assert(sorted_desc(before));
                        assert(before[b - 1].price_per_item.0 <= before[j as int].price_per_item.0);
                    }
                } else if a == j {
                    assert(pos[b] == pos_before[b - 1]);
                    assert(pos_before[b - 1] < i);
                    assert(before[j as int].price_per_item.0 < o.price_per_item.0);
                    assert(before[b - 1].price_per_item.0 <= before[j as int].price_per_item.0);
                } else {
                    assert(pos[a] == pos_before[a - 1]);
                    assert(pos[b] == pos_before[b - 1]);
                }
            }
            assert forall|k: int| 0 <= k < pos.len() implies #[trigger] pos[k] < i + 1 by {
                if k < j {
                    assert(pos[k] == pos_before[k]);
                } else if k > j {
                    assert(pos[k] == pos_before[k - 1]);
                }
            }
        }
        i = i + 1;
    }
    proof {
        assert(v@.take(i as int) == v@);
    }
    out
}

/// `pos` says where each offer of `sorted` came from in `s`: each position
/// once, and offers of equal price in the order they had in `s`.
pub open spec fn keeps_ties_in_order(s: Seq<MarketOffer>, sorted: Seq<MarketOffer>, pos: Seq<int>) -> bool {
    &&& pos.len() == sorted.len()
    &&& forall|k: int| 0 <= k < sorted.len() ==> 0 <= #[trigger] pos[k] < s.len() && sorted[k] == s[pos[k]]
    &&& forall|a: int, b: int|
        0 <= a < b < sorted.len() ==> #[trigger] pos[a] != #[trigger] pos[b] && (sorted[a].price_per_item
            == sorted[b].price_per_item ==> pos[a] < pos[b])
}

/// The quantity on offer in a book.
pub open spec fn book_total(s: Seq<MarketOffer>) -> nat
    decreases s.len(),
{
    if s.len() == 0 {
        0
    } else {
        book_total(s.drop_last()) + s.last().amount as nat
    }
}

proof fn lemma_book_total_remove(s: Seq<MarketOffer>, i: int)
    requires
        0 <= i < s.len(),
    ensures
        book_total(s) == book_total(s.remove(i)) + s[i].amount,
    decreases s.len(),
{
    if i < s.len() - 1 {
        lemma_book_total_remove(s.drop_last(), i);
        assert(s.remove(i).drop_last() == s.drop_last().remove(i));
        assert(s.remove(i).last() == s.last());
    } else {
        assert(s.remove(i) == s.drop_last());
    }
}

/// Reordering a book keeps the quantity on offer.
pub proof fn lemma_book_total_permutation(s1: Seq<MarketOffer>, s2: Seq<MarketOffer>)
    requires
        s1.to_multiset() == s2.to_multiset(),
    ensures
        book_total(s1) == book_total(s2),
    decreases s1.len(),
{
    vstd::seq_lib::to_multiset_len(s1);
    vstd::seq_lib::to_multiset_len(s2);
    if s1.len() > 0 {
        let o = s1.last();
        assert(s1.drop_last().push(o) == s1);
        vstd::seq_lib::to_multiset_build(s1.drop_last(), o);
        assert(s2.to_multiset().count(o) > 0);
        vstd::seq_lib::to_multiset_contains(s2, o);
        let i = choose|i: int| 0 <= i < s2.len() && s2[i] == o;
        vstd::seq_lib::to_multiset_remove(s2, i);
        assert(s1.drop_last().to_multiset() =~= s2.remove(i).to_multiset());
        lemma_book_total_permutation(s1.drop_last(), s2.remove(i));
        lemma_book_total_remove(s2, i);
    }
}

/// A purchase moves items off the book: what is bought plus what stays on
/// offer is what was on offer.
pub proof fn lemma_purchase_moves_items(s: Seq<MarketOffer>, n: nat, m: nat)
    ensures
        book_total(purchase(s, n, m).book) + purchase(s, n, m).bought == book_total(s),
    decreases n, s.len(),
{
    if n == 0 || s.len() == 0 {
    } else if s.last().amount == 0 {
        lemma_purchase_moves_items(s.drop_last(), n, m);
    } else {
        let o = s.last();
        let p = o.price_per_item.0 as nat;
        let k = min_nat(min_nat(o.amount as nat, n), affordable(m, p));
        if k > 0 {
            let rest = if k == o.amount {
                s.drop_last()
            } else {
                s.drop_last().push(reduced(o, k))
            };
            lemma_purchase_moves_items(rest, (n - k) as nat, (m - k * p) as nat);
            if k != o.amount {
                assert(rest.drop_last() == s.drop_last());
            }
        }
    }
}

/// Paying out one factory's credits moves money and makes none: what it is
/// owed plus what the ledger keeps is what the ledger held.
pub proof fn lemma_payout_conserves(c: Seq<Credit>, f: FactoryId)
    ensures
        credits_total(others(c, f)) + owed(c, f) == credits_total(c),
    decreases c.len(),
{
    if c.len() > 0 {
        lemma_payout_conserves(c.drop_last(), f);
        if c.last().factory != f {
            assert(others(c, f).drop_last() == others(c.drop_last(), f));
        }
    }
}

/// No factory is owed more than the ledger holds.
pub proof fn lemma_owed_within_total(c: Seq<Credit>, f: FactoryId)
    ensures
        owed(c, f) <= credits_total(c),
    decreases c.len(),
{
    if c.len() > 0 {
        lemma_owed_within_total(c.drop_last(), f);
    }
}

/// After paying out factory `f`, the ledger owes `f` nothing and every other
/// factory what it was owed before.
pub proof fn lemma_owed_after_payout(c: Seq<Credit>, f: FactoryId, g: FactoryId)
    ensures
        owed(others(c, f), g) == if g == f {
            0
        } else {
            owed(c, g)
        },
    decreases c.len(),
{
    if c.len() > 0 {
        lemma_owed_after_payout(c.drop_last(), f, g);
        if c.last().factory != f {
            assert(others(c, f).drop_last() == others(c.drop_last(), f));
        }
    }
}

pub(crate) proof fn lemma_quote_cost_bound(s: Seq<MarketOffer>, n: nat)
    ensures
        quote_cost(s, n) <= n * (u64::MAX as nat),
        quote_amount(s, n) <= n,
    decreases s.len(),
{
    if n == 0 || s.len() == 0 {
    } else {
        let k = min_nat(s.last().amount as nat, n);
        let p = s.last().price_per_item.0 as nat;
        lemma_quote_cost_bound(s.drop_last(), (n - k) as nat);
        assert(k * p + ((n - k) as nat) * (u64::MAX as nat) <= n * (u64::MAX as nat)) by (nonlinear_arith)
            requires
                p <= u64::MAX,
                k <= n,
        ;
    }
}

/// Buying more never costs less.
pub proof fn lemma_quote_cost_monotonic(s: Seq<MarketOffer>, n: nat, m: nat)
    requires
        n <= m,
    ensures
        quote_cost(s, n) <= quote_cost(s, m),
    decreases s.len(),
{
    if n == 0 || s.len() == 0 {
    } else {
        let a = s.last().amount as nat;
        let p = s.last().price_per_item.0 as nat;
        let kn = min_nat(a, n);
        let km = min_nat(a, m);
        if n >= a {
            lemma_quote_cost_monotonic(s.drop_last(), (n - a) as nat, (m - a) as nat);
        } else {
            assert(kn * p <= km * p) by (nonlinear_arith)
                requires
                    kn <= km,
            ;
            if km == a {
                lemma_quote_cost_monotonic(s.drop_last(), 0, (m - km) as nat);
            }
        }
    }
}

/// The credits a purchase leaves in the ledger add up to exactly what the
/// buyer paid, and the buyer never pays more than its balance.
pub proof fn lemma_purchase_pays_exactly(s: Seq<MarketOffer>, n: nat, m: nat)
    requires
        m <= u64::MAX,
    ensures
        credits_total(purchase(s, n, m).paid) == purchase(s, n, m).spent,
        purchase(s, n, m).spent <= m,
        purchase(s, n, m).bought <= n,
    decreases n, s.len(),
{
    if n == 0 || s.len() == 0 {
    } else if s.last().amount == 0 {
        lemma_purchase_pays_exactly(s.drop_last(), n, m);
    } else {
        let o = s.last();
        let p = o.price_per_item.0 as nat;
        let k = min_nat(min_nat(o.amount as nat, n), affordable(m, p));
        if k > 0 {
            lemma_affordable(m, p, k);
            let rest = if k == o.amount {
                s.drop_last()
            } else {
                s.drop_last().push(reduced(o, k))
            };
            lemma_purchase_pays_exactly(rest, (n - k) as nat, (m - k * p) as nat);
            let head = seq![Credit { factory: o.source_factory, amount: Money((k * p) as u64) }];
            lemma_credits_total_concat(head, purchase(rest, (n - k) as nat, (m - k * p) as nat).paid);
            assert(head.drop_last() == Seq::<Credit>::empty());
            assert(k * p <= u64::MAX);
            assert(head.last().amount.0 == k * p);
            assert(credits_total(head) == credits_total(head.drop_last()) + head.last().amount.0);
        }
    }
}

proof fn lemma_purchase_step(s: Seq<MarketOffer>, n: nat, m: nat, k: nat)
    requires
        n > 0,
        s.len() > 0,
        k > 0,
        k == min_nat(min_nat(s.last().amount as nat, n), affordable(m, s.last().price_per_item.0 as nat)),
    ensures
        ({
            let o = s.last();
            let p = o.price_per_item.0 as nat;
            let rest = if k == o.amount {
                s.drop_last()
            } else {
                s.drop_last().push(reduced(o, k))
            };
            let r = purchase(rest, (n - k) as nat, (m - k * p) as nat);
            &&& purchase(s, n, m).bought == k + r.bought
            &&& purchase(s, n, m).spent == k * p + r.spent
            &&& purchase(s, n, m).book == r.book
            &&& purchase(s, n, m).paid == seq![Credit { factory: o.source_factory, amount: Money((k * p) as u64) }] + r.paid
        }),
{
}

proof fn lemma_affordable(m: nat, p: nat, k: nat)
    requires
        k <= affordable(m, p),
        m <= u64::MAX,
    ensures
        k * p <= m,
{
    if p > 0 {
        vstd::arithmetic::div_mod::lemma_fundamental_div_mod(m as int, p as int);
        assert(k * p <= (m / p) * p) by (nonlinear_arith)
            requires
                k <= m / p,
        ;
        assert((m / p) * p <= m) by (nonlinear_arith)
            requires
                m == p * (m / p) + m % p,
                m % p >= 0,
        ;
    }
}

proof fn lemma_credits_total_concat(a: Seq<Credit>, b: Seq<Credit>)
    ensures
        credits_total(a + b) == credits_total(a) + credits_total(b),
    decreases b.len(),
{
    if b.len() == 0 {
        assert(a + b == a);
    } else {
        assert((a + b).drop_last() == a + b.drop_last());
        lemma_credits_total_concat(a, b.drop_last());
    }
}

impl Market {
    /// One book per ware, no empty offer, and every book sorted while the
    /// market says it is.
    pub open spec fn wf(&self) -> bool {
        &&& self.offers@.len() == WARE_KINDS
        &&& self.market_offers_sorted ==> forall|i: int|
            0 <= i < WARE_KINDS ==> sorted_desc(#[trigger] self.offers@[i]@)
    }

    /// The offers for one ware; the cheapest is last once sorted.
    pub open spec fn book(&self, w: Ware) -> Seq<MarketOffer> {
        self.offers@[w.index() as int]@
    }

    pub open spec fn credits(&self) -> Seq<Credit> {
        self.money_transactions@
    }

    /// Every book but that of `w` is as in `before`.
    pub open spec fn other_books_unchanged(&self, before: Market, w: Ware) -> bool {
        forall|v: Ware| v != w ==> #[trigger] self.book(v) == before.book(v)
    }

    /// An empty market, not yet sorted.
    pub fn new() -> (r: Self)
        ensures
            r.wf(),
            !r.market_offers_sorted,
            r.credits() == Seq::<Credit>::empty(),
            forall|w: Ware| #[trigger] r.book(w) == Seq::<MarketOffer>::empty(),
    {
        let mut offers: Vec<Vec<MarketOffer>> = Vec::new();
        let mut i: usize = 0;
        while i < WARE_KINDS
            invariant
                i <= WARE_KINDS,
                offers@.len() == i,
                forall|j: int| 0 <= j < i ==> (#[trigger] offers@[j])@.len() == 0,
            decreases WARE_KINDS - i,
        {
            offers.push(Vec::new());
            i = i + 1;
        }
        let r = Market { market_offers_sorted: false, offers, money_transactions: Vec::new() };
        assert forall|w: Ware| #[trigger] r.book(w) == Seq::<MarketOffer>::empty() by {
            assert(w.index() < WARE_KINDS);
        }
        r
    }

    /// Puts a sell offer at the end of the book of `ware`, whatever its
    /// quantity. The books count as unsorted afterwards.
    pub fn offer(&mut self, ware: Ware, amount: u64, price_per_item: Money, source_factory: FactoryId)
        requires
            old(self).wf(),
        ensures
            final(self).wf(),
            !final(self).market_offers_sorted,
            final(self).credits() == old(self).credits(),
            final(self).other_books_unchanged(*old(self), ware),
            final(self).book(ware) == old(self).book(ware).push(MarketOffer { source_factory, amount, price_per_item }),
    {
        self.market_offers_sorted = false;
        let i = ware.to_index();
        self.offers[i].push(MarketOffer { source_factory, amount, price_per_item });
        proof {
            assert forall|v: Ware| v != ware implies #[trigger] self.book(v) == old(self).book(v) by {
                assert(v.index() != ware.index());
            }
        }
    }

    /// Shuffles each book, then orders it by price, highest first, keeping the
    /// shuffled order among equal prices: ties are broken at random and the
    /// cheapest offer ends up last.
    pub fn sort_offers(&mut self, rng: &mut Xoshiro256PlusPlus)
        requires
            old(self).wf(),
        ensures
            final(self).wf(),
            final(self).market_offers_sorted,
            final(self).credits() == old(self).credits(),
            forall|w: Ware|
                sorted_desc(#[trigger] final(self).book(w)) && final(self).book(w).to_multiset()
                    == old(self).book(w).to_multiset(),
    {
        let mut i: usize = 0;
        while i < WARE_KINDS
            invariant
                i <= WARE_KINDS,
                self.offers@.len() == WARE_KINDS,
                self.money_transactions@ == old(self).money_transactions@,
                forall|j: int| 0 <= j < i ==> sorted_desc(#[trigger] self.offers@[j]@),
                forall|j: int|
                    0 <= j < WARE_KINDS ==> (#[trigger] self.offers@[j])@.to_multiset()
                        == old(self).offers@[j]@.to_multiset(),
            decreases WARE_KINDS - i,
        {
            let mut list: Vec<MarketOffer> = Vec::new();
            std::mem::swap(&mut list, &mut self.offers[i]);
            shuffle_offers(&mut list, rng);
            let mut sorted = sort_by_price_descending(list);
            std::mem::swap(&mut sorted, &mut self.offers[i]);
            i = i + 1;
        }
        self.market_offers_sorted = true;
    }

    /// The price of the cheapest offer for `ware`, which is the lowest price on its book.
    pub fn current_price(&self, ware: Ware) -> (r: Option<Money>)
        requires
            self.wf(),
            self.market_offers_sorted,
        ensures
            self.book(ware).len() == 0 ==> r.is_none(),
            self.book(ware).len() > 0 ==> r == Some(self.book(ware).last().price_per_item),
            r matches Some(p) ==> forall|k: int|
                0 <= k < self.book(ware).len() ==> p.0 <= #[trigger] self.book(ware)[k].price_per_item.0,
    {
        let i = ware.to_index();
        let len = self.offers[i].len();
        if len == 0 {
            None
        } else {
            proof {
                assert(sorted_desc(self.offers@[i as int]@));
            }
            Some(self.offers[i][len - 1].price_per_item)
        }
    }

    /// How much of `ware_amount` the book could deliver and what it would cost,
    /// cheapest offers first, without touching the book. The cost is exact and
    /// may exceed what [`Money`] holds.
    pub fn quote(&self, ware_amount: WareAmount) -> (r: (u64, u128))
        requires
            self.wf(),
        ensures
            r.0 == quote_amount(self.book(ware_amount.ware), ware_amount.amount as nat),
            r.1 == quote_cost(self.book(ware_amount.ware), ware_amount.amount as nat),
    {
        let i = ware_amount.ware.to_index();
        let ghost book = self.book(ware_amount.ware);
        let n = ware_amount.amount;
        let mut remaining = n;
        let mut amount: u64 = 0;
        let mut cost: u128 = 0;
        let mut j = self.offers[i].len();
        proof {
            assert(book.subrange(0, j as int) == book);
            lemma_quote_cost_bound(book, n as nat);
        }
        while j > 0 && remaining > 0
            invariant
                self.wf(),
                i == ware_amount.ware.index(),
                book == self.offers@[i as int]@,
                j <= book.len(),
                remaining <= n,
                amount + remaining == n,
                amount + quote_amount(book.subrange(0, j as int), remaining as nat) == quote_amount(book, n as nat),
                cost + quote_cost(book.subrange(0, j as int), remaining as nat) == quote_cost(book, n as nat),
                quote_cost(book, n as nat) <= n * (u64::MAX as nat),
                n * (u64::MAX as nat) <= u128::MAX,
            decreases j,
        {
            let o = self.offers[i][j - 1];
            let k = if o.amount < remaining {
                o.amount
            } else {
                remaining
            };
            proof {
                let s = book.subrange(0, j as int);
                assert(s.drop_last() == book.subrange(0, j - 1));
                assert(s.last() == o);
                assert((k as nat) * (o.price_per_item.0 as nat) == (o.price_per_item.0 as nat) * (k as nat)) by (nonlinear_arith);
            }
            cost = cost + (o.price_per_item.0 as u128) * (k as u128);
            amount = amount + k;
            remaining = remaining - k;
            j = j - 1;
        }
        (amount, cost)
    }

    /// How much of `ware_amount` the book could deliver and its total price,
    /// cheapest offers first, without touching the book.
    pub fn total_price(&self, ware_amount: WareAmount) -> (r: (u64, Money))
        requires
            self.wf(),
            self.market_offers_sorted,
            quote_cost(self.book(ware_amount.ware), ware_amount.amount as nat) <= u64::MAX,
        ensures
            r.0 == quote_amount(self.book(ware_amount.ware), ware_amount.amount as nat),
            r.1.0 == quote_cost(self.book(ware_amount.ware), ware_amount.amount as nat),
    {
        let (amount, cost) = self.quote(ware_amount);
        (amount, Money(cost as u64))
    }

    /// Buys up to `ware_amount` from the cheapest offers first, never spending
    /// more than `money` holds, and stores what was bought in `output_warehouse`
    /// at its average purchase cost. Each payment is owed to the seller.
    /// Returns the quantity bought.
    #[verifier::rlimit(50)]
    pub fn buy(&mut self, ware_amount: WareAmount, output_warehouse: &mut Warehouse, money: &mut Money) -> (r: u64)
        requires
            old(self).wf(),
            old(self).market_offers_sorted,
            old(output_warehouse).wf(),
            old(output_warehouse).stock(ware_amount.ware) + ware_amount.amount <= u64::MAX,
        ensures
            ({
                let p = purchase(old(self).book(ware_amount.ware), ware_amount.amount as nat, old(money).0 as nat);
                &&& r == p.bought
                &&& final(money).0 == old(money).0 - p.spent
                &&& final(self).book(ware_amount.ware) == p.book
                &&& final(self).credits() == old(self).credits() + p.paid
                &&& p.bought == 0 ==> final(output_warehouse).batches(ware_amount.ware)
                    == old(output_warehouse).batches(ware_amount.ware)
                &&& p.bought > 0 ==> final(output_warehouse).batches(ware_amount.ware)
                    == old(output_warehouse).batches(ware_amount.ware).push(
                    PartialWarehouseBatch {
                        sourcing_cost_per_item: ApproximateMoney(
                            unit_cost(p.spent * (COST_SCALE as nat), p.bought),
                        ),
                        amount: p.bought as u64,
                    },
                )
            }),
            final(self).wf(),
            final(self).market_offers_sorted,
            final(self).other_books_unchanged(*old(self), ware_amount.ware),
            final(output_warehouse).wf(),
            final(output_warehouse).others_unchanged(*old(output_warehouse), ware_amount.ware),
            credits_total(final(self).credits()) == credits_total(old(self).credits()) + (old(money).0
                - final(money).0),
    {
        let i = ware_amount.ware.to_index();
        let n = ware_amount.amount;
        let ghost m0 = money.0 as nat;
        let ghost book0 = self.book(ware_amount.ware);
        let ghost credits0 = self.credits();
        let ghost p0 = purchase(book0, n as nat, m0);
        let ghost paid: Seq<Credit> = Seq::empty();
        let mut remaining = n;
        let mut spent: u64 = 0;
        proof {
            lemma_purchase_pays_exactly(book0, n as nat, m0);
            assert(credits0 + paid == credits0);
        }
        while remaining > 0
            invariant
                self.wf(),
                self.market_offers_sorted,
                i == ware_amount.ware.index(),
                self.other_books_unchanged(*old(self), ware_amount.ware),
                remaining <= n,
                m0 <= u64::MAX,
                spent + money.0 == m0,
                p0.bought == (n - remaining) + purchase(self.book(ware_amount.ware), remaining as nat, money.0 as nat).bought,
                p0.spent == spent + purchase(self.book(ware_amount.ware), remaining as nat, money.0 as nat).spent,
                p0.book == purchase(self.book(ware_amount.ware), remaining as nat, money.0 as nat).book,
                self.credits() == credits0 + paid,
                p0.paid == paid + purchase(self.book(ware_amount.ware), remaining as nat, money.0 as nat).paid,
            ensures
                purchase(self.book(ware_amount.ware), remaining as nat, money.0 as nat) == (Purchase {
                    bought: 0,
                    spent: 0,
                    book: self.book(ware_amount.ware),
                    paid: Seq::empty(),
                }),
            decreases remaining, self.offers@[i as int]@.len(),
        {
            let ghost before_offers = self.offers@;
            let ghost snap = *self;
            let len = self.offers[i].len();
            if len == 0 {
                break;
            }
            let o = self.offers[i][len - 1];
            if o.amount == 0 {
                let ghost s = self.book(ware_amount.ware);
                self.offers[i].pop();
                proof {
                    assert(s.last() == o);
                    assert(self.book(ware_amount.ware) == s.drop_last());
                    assert forall|v: Ware| v != ware_amount.ware implies #[trigger] self.book(v) == old(self).book(v) by {
                        assert(v.index() != ware_amount.ware.index());
                        assert(self.offers@[v.index() as int] == before_offers[v.index() as int]);
                        assert(snap.book(v) == old(self).book(v));
                    }
                    let b = self.offers@[i as int]@;
                    assert(sorted_desc(b));
                }
                continue;
            }
            let price = o.price_per_item.0;
            let afford = if price == 0 {
                u64::MAX
            } else {
                money.0 / price
            };
            let mut k = if o.amount < remaining {
                o.amount
            } else {
                remaining
            };
            if afford < k {
                k = afford;
            }
            if k == 0 {
                proof {
                    assert(self.book(ware_amount.ware).last() == o);
                }
                break;
            }
            let ghost s = self.book(ware_amount.ware);
            let ghost m = money.0 as nat;
            proof {
                lemma_affordable(money.0 as nat, price as nat, k as nat);
                lemma_purchase_step(s, remaining as nat, m, k as nat);
            }
            let cost = k * price;
            assert(cost <= money.0);
            spent = spent + cost;
            money.0 = money.0 - cost;
            let credit = Credit { factory: o.source_factory, amount: Money(cost) };
            self.money_transactions.push(credit);
            if k == o.amount {
                self.offers[i].pop();
                proof {
                    assert(self.book(ware_amount.ware) == s.drop_last());
                }
            } else {
                self.offers[i].set(
                    len - 1,
                    MarketOffer { source_factory: o.source_factory, amount: o.amount - k, price_per_item: o.price_per_item },
                );
                proof {
                    assert(self.book(ware_amount.ware) == s.drop_last().push(reduced(o, k as nat)));
                }
            }
            remaining = remaining - k;
            proof {
                assert forall|v: Ware| v != ware_amount.ware implies #[trigger] self.book(v) == old(self).book(v) by {
                    assert(v.index() != ware_amount.ware.index());
                    assert(self.offers@[v.index() as int] == before_offers[v.index() as int]);
                    assert(snap.book(v) == old(self).book(v));
                }
                let rest = purchase(self.book(ware_amount.ware), remaining as nat, money.0 as nat).paid;
                assert(paid + (seq![credit] + rest) == paid.push(credit) + rest);
                assert(self.credits() == credits0 + paid.push(credit));
                paid = paid.push(credit);
                let b = self.offers@[i as int]@;
                assert(sorted_desc(b));
            }
        }
        proof {
            assert(self.credits() == credits0 + p0.paid);
            lemma_credits_total_concat(credits0, p0.paid);
        }
        let bought = n - remaining;
        if bought > 0 {
            let cost_per_item = per_item((spent as u128) * (COST_SCALE as u128), bought as u128);
            output_warehouse.insert_ware(WareAmount::new(ware_amount.ware, bought), cost_per_item);
        }
        bought
    }

    /// Sells a consumer up to `ware_amount` from the single cheapest offer, at
    /// that offer's price, and owes the payment to its seller. Returns the
    /// quantity taken.
    pub fn consume_at_current_price(&mut self, ware_amount: WareAmount) -> (r: u64)
        requires
            old(self).wf(),
            old(self).market_offers_sorted,
            old(self).book(ware_amount.ware).len() > 0 ==> min_nat(
                ware_amount.amount as nat,
                old(self).book(ware_amount.ware).last().amount as nat,
            ) * (old(self).book(ware_amount.ware).last().price_per_item.0 as nat) <= u64::MAX,
        ensures
            final(self).wf(),
            final(self).market_offers_sorted,
            final(self).other_books_unchanged(*old(self), ware_amount.ware),
            ({
                let s = old(self).book(ware_amount.ware);
                let o = s.last();
                let k = min_nat(o.amount as nat, ware_amount.amount as nat);
                if s.len() == 0 || ware_amount.amount == 0 {
                    &&& r == 0
                    &&& final(self).book(ware_amount.ware) == s
                    &&& final(self).credits() == old(self).credits()
                } else {
                    &&& r == k
                    &&& final(self).book(ware_amount.ware) == if k == o.amount {
                        s.drop_last()
                    } else {
                        s.drop_last().push(reduced(o, k))
                    }
                    &&& final(self).credits() == old(self).credits().push(
                        Credit { factory: o.source_factory, amount: Money((k * o.price_per_item.0) as u64) },
                    )
                }
            }),
    {
        let i = ware_amount.ware.to_index();
        let len = self.offers[i].len();
        if len == 0 || ware_amount.amount == 0 {
            return 0;
        }
        let ghost s = self.book(ware_amount.ware);
        let o = self.offers[i][len - 1];
        let k = if o.amount < ware_amount.amount {
            o.amount
        } else {
            ware_amount.amount
        };
        proof {
            assert(s.last() == o);
            assert(k as nat == min_nat(ware_amount.amount as nat, o.amount as nat));
        }
        let cost = k * o.price_per_item.0;
        proof {
            assert(s.last() == o);
        }
        self.money_transactions.push(Credit { factory: o.source_factory, amount: Money(cost) });
        if k == o.amount {
            self.offers[i].pop();
            proof {
                assert(self.book(ware_amount.ware) == s.drop_last());
            }
        } else {
            self.offers[i].set(
                len - 1,
                MarketOffer { source_factory: o.source_factory, amount: o.amount - k, price_per_item: o.price_per_item },
            );
            proof {
                assert(self.book(ware_amount.ware) == s.drop_last().push(reduced(o, k as nat)));
            }
        }
        proof {
            assert forall|v: Ware| v != ware_amount.ware implies #[trigger] self.book(v) == old(self).book(v) by {
                assert(v.index() != ware_amount.ware.index());
            }
            let b = self.offers@[i as int]@;
            assert(sorted_desc(b));
        }
        k
    }

    /// What the ledger owes `factory_id`.
    pub fn owed_to(&self, factory_id: FactoryId) -> (r: u128)
        ensures
            r == owed(self.credits(), factory_id),
    {
        let ghost c = self.credits();
        let mut total: u128 = 0;
        let mut j: usize = 0;
        while j < self.money_transactions.len()
            invariant
                c == self.credits(),
                j <= c.len(),
                total == owed(c.take(j as int), factory_id),
                total <= j * (u64::MAX as nat),
            decreases c.len() - j,
        {
            let t = self.money_transactions[j];
            proof {
                assert(c.take(j + 1).drop_last() == c.take(j as int));
                assert(j * (u64::MAX as nat) + (u64::MAX as nat) == (j + 1) * (u64::MAX as nat)) by (nonlinear_arith);
                assert((j + 1) * (u64::MAX as nat) <= (usize::MAX as nat) * (u64::MAX as nat)) by (nonlinear_arith)
                    requires
                        j + 1 <= usize::MAX,
                ;
            }
            if t.factory == factory_id {
                total = total + t.amount.0 as u128;
            }
            j = j + 1;
        }
        proof {
            assert(c.take(j as int) == c);
        }
        total
    }

    /// Pays everything the ledger owes `factory_id` into `money` and clears
    /// those credits; the credits of other factories stay, in order.
    pub fn transfer_money(&mut self, money: &mut Money, factory_id: FactoryId)
        requires
            old(money).0 + owed(old(self).credits(), factory_id) <= u64::MAX,
        ensures
            final(money).0 == old(money).0 + owed(old(self).credits(), factory_id),
            final(self).credits() == others(old(self).credits(), factory_id),
            final(self).offers@ == old(self).offers@,
            final(self).market_offers_sorted == old(self).market_offers_sorted,
    {
        let ghost c = self.credits();
        let mut kept: Vec<Credit> = Vec::new();
        let mut total: u64 = 0;
        let mut j: usize = 0;
        while j < self.money_transactions.len()
            invariant
                c == self.credits(),
                j <= c.len(),
                total == owed(c.take(j as int), factory_id),
                kept@ == others(c.take(j as int), factory_id),
                old(money).0 + owed(c, factory_id) <= u64::MAX,
            decreases c.len() - j,
        {
            let t = self.money_transactions[j];
            proof {
                assert(c.take(j + 1).drop_last() == c.take(j as int));
                lemma_owed_prefix(c, j + 1, factory_id);
            }
            if t.factory == factory_id {
                total = total + t.amount.0;
            } else {
                kept.push(t);
            }
            j = j + 1;
        }
        proof {
            assert(c.take(j as int) == c);
        }
        money.0 = money.0 + total;
        self.money_transactions = kept;
    }
}

proof fn lemma_owed_prefix(c: Seq<Credit>, i: int, f: FactoryId)
    requires
        0 <= i <= c.len(),
    ensures
        owed(c.take(i), f) <= owed(c, f),
    decreases c.len(),
{
    if i < c.len() {
        assert(c.take(i) == c.drop_last().take(i));
        lemma_owed_prefix(c.drop_last(), i, f);
    } else {
        assert(c.take(i) == c);
    }
}

impl Default for Market {
    fn default() -> (r: Self)
        ensures
            r.wf(),
            !r.market_offers_sorted,
            r.credits() == Seq::<Credit>::empty(),
            forall|w: Ware| #[trigger] r.book(w) == Seq::<MarketOffer>::empty(),
    {
        Market::new()
    }
}

} // verus!
