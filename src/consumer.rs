use vstd::prelude::*;

use crate::market::{min_nat, reduced, Credit, Market, MarketOffer};
use crate::money::Money;
use crate::ware::WareAmount;

verus! {

/// Number of fixed-point steps in a ratio of one (fulfilment, decay, and the
/// demand counted per item).
pub const RATIO_SCALE: u64 = 1_000_000;

/// Lower bound on a consumer's remaining demand, in fixed-point steps of an item.
const DEMAND_FLOOR: i128 = -10_000_000_000_000_000;

/// A source of demand for one ware, with no stock and no balance of its own.
/// `fulfilment` and `decay` are ratios in steps of [`RATIO_SCALE`].
#[derive(Debug, Clone, Copy, PartialEq, Eq, Structural)]
pub struct Consumer {
    pub target_ware_amount: WareAmount,
    pub target_price: Money,
    pub fulfilment: u64,
    pub decay: u64,
}

/// The integer square root: the largest `r` with `r * r <= n`.
pub open spec fn is_isqrt(n: nat, r: nat) -> bool {
    r * r <= n < (r + 1) * (r + 1)
}

/// The integer square root of `n`.
pub fn isqrt(n: u128) -> (r: u64)
    ensures
        is_isqrt(n as nat, r as nat),
{
    let mut lo: u128 = 0;
    let mut hi: u128 = 0x1_0000_0000_0000_0000;
    proof {
        assert((u64::MAX as nat + 1) * (u64::MAX as nat + 1) > u128::MAX) by (nonlinear_arith);
    }
    while hi - lo > 1
        invariant
            lo < hi <= 0x1_0000_0000_0000_0000,
            lo * lo <= n,
            (n as nat) < (hi as nat) * (hi as nat),
        decreases hi - lo,
    {
        let mid = lo + (hi - lo) / 2;
        proof {
            assert(mid * mid <= u128::MAX) by (nonlinear_arith)
                requires
                    mid < 0x1_0000_0000_0000_0000,
            ;
        }
        if mid * mid <= n {
            lo = mid;
        } else {
            hi = mid;
        }
    }
    lo as u64
}

/// How strongly a consumer's demand is raised after poor fulfilment: the
/// fulfilment itself once it is full, else halfway between it and one.
pub open spec fn adjustment(f: nat) -> nat {
    if f < RATIO_SCALE {
        f / 2 + (RATIO_SCALE / 2) as nat
    } else {
        f
    }
}

/// Demand at the start of a round, in steps of an item.
pub open spec fn initial_demand(raw: nat, f: nat) -> nat {
    raw * (RATIO_SCALE as nat) * (RATIO_SCALE as nat) / adjustment(f)
}

/// Demand an item takes up at `price` (in steps of an item): the square root
/// of the price over the target price.
pub open spec fn demand_per_item(price: nat, target_price: nat, r: nat) -> bool {
    is_isqrt(price * (RATIO_SCALE as nat) * (RATIO_SCALE as nat) / target_price, r)
}

/// The most items at `price` whose total fits in [`Money`].
pub open spec fn payable(price: nat) -> nat {
    if price == 0 {
        u64::MAX as nat
    } else {
        (u64::MAX as nat) / price
    }
}

/// Items to ask for: the remaining demand over the demand per item, rounded
/// to nearest, and never more than is payable.
pub open spec fn ask(demand: int, per_item: nat, price: nat) -> nat {
    if per_item == 0 {
        payable(price)
    } else {
        let q = ((2 * demand + per_item) / (2 * per_item as int)) as nat;
        if q <= payable(price) {
            q
        } else {
            payable(price)
        }
    }
}

/// Division rounding toward zero.
pub open spec fn trunc_div(a: int, b: int) -> int {
    if a >= 0 {
        a / b
    } else {
        -((-a) / b)
    }
}

/// The outcome of one consumption round: remaining demand, the book left
/// behind and the credits owed to the sellers.
pub struct Consumption {
    pub demand: int,
    pub book: Seq<MarketOffer>,
    pub paid: Seq<Credit>,
}

/// A consumption round on the book `s` with `demand` left: while demand
/// remains, take from the cheapest offer the asked quantity at its price.
pub open spec fn consumption(s: Seq<MarketOffer>, demand: int, target_price: nat) -> Consumption
    decreases s.len(), s.last().amount,
{
    if demand <= 0 || s.len() == 0 || target_price == 0 {
        Consumption { demand, book: s, paid: Seq::empty() }
    } else {
        let o = s.last();
        let p = o.price_per_item.0 as nat;
        let dpi = choose|r: nat| demand_per_item(p, target_price, r);
        let n = ask(demand, dpi, p);
        if n == 0 {
            Consumption { demand, book: s, paid: Seq::empty() }
        } else {
            let k = if o.amount <= n {
                o.amount as nat
            } else {
                n
            };
            let rest = if k == o.amount {
                s.drop_last()
            } else {
                s.drop_last().push(reduced(o, k))
            };
            let r = consumption(rest, demand - dpi * k, target_price);
            Consumption {
                demand: r.demand,
                book: r.book,
                paid: seq![Credit { factory: o.source_factory, amount: Money((k * p) as u64) }] + r.paid,
            }
        }
    }
}

/// The fulfilment after a round that started with `start` demand and ended
/// with `left`, for a consumer wanting `raw` items: first lowered by the
/// unmet share of the raw target, then drawn back toward one, both at the
/// rate `1 - decay`; kept within `u64`.
pub open spec fn next_fulfilment(f: nat, decay: nat, raw: nat, start: int, left: int) -> nat {
    let s = RATIO_SCALE as int;
    let deficit = left - start + raw * s;
    let lowered = if raw == 0 {
        f as int
    } else {
        f - trunc_div((s - decay) * deficit, raw * s)
    };
    let pulled = (decay * lowered + (s - decay) * s) / s;
    if pulled < 0 {
        0
    } else if pulled > u64::MAX {
        u64::MAX as nat
    } else {
        pulled as nat
    }
}

impl Consumer {
    /// Decay is a ratio of at most one.
    pub open spec fn wf(&self) -> bool {
        self.decay <= RATIO_SCALE
    }

    /// A consumer that starts fully satisfied.
    pub fn new(target_ware_amount: WareAmount, target_price: Money, decay: u64) -> (r: Self)
        requires
            decay <= RATIO_SCALE,
        ensures
            r.wf(),
            r.target_ware_amount == target_ware_amount,
            r.target_price == target_price,
            r.decay == decay,
            r.fulfilment == RATIO_SCALE,
    {
        Consumer { target_ware_amount, target_price, fulfilment: RATIO_SCALE, decay }
    }

    /// One consumption round: starting from the target quantity, raised after
    /// poor fulfilment, repeatedly take from the cheapest offer what the
    /// remaining demand asks at that price (demand per item is the square root
    /// of price over target price), until demand, offers or the asked quantity
    /// run out; then update the fulfilment from the unmet demand. Payments are
    /// owed to the sellers; the consumer pays nothing itself.
    pub fn consume(&mut self, market: &mut Market)
        requires
            old(self).wf(),
            old(market).wf(),
            old(market).market_offers_sorted,
        ensures
            final(self).wf(),
            final(self).target_ware_amount == old(self).target_ware_amount,
            final(self).target_price == old(self).target_price,
            final(self).decay == old(self).decay,
            final(market).wf(),
            final(market).market_offers_sorted,
            final(market).other_books_unchanged(*old(market), old(self).target_ware_amount.ware),
            ({
                let w = old(self).target_ware_amount.ware;
                let raw = old(self).target_ware_amount.amount as nat;
                let start = initial_demand(raw, old(self).fulfilment as nat);
                let c = consumption(old(market).book(w), start as int, old(self).target_price.0 as nat);
                &&& final(market).book(w) == c.book
                &&& final(market).credits() == old(market).credits() + c.paid
                &&& final(self).fulfilment == next_fulfilment(
                    old(self).fulfilment as nat,
                    old(self).decay as nat,
                    raw,
                    start as int,
                    c.demand,
                )
            }),
    {
        let w = self.target_ware_amount.ware;
        let raw = self.target_ware_amount.amount;
        let tp = self.target_price.0;
        let f = self.fulfilment;
        let adj: u64 = if f < RATIO_SCALE {
            f / 2 + RATIO_SCALE / 2
        } else {
            f
        };
        let sq = (RATIO_SCALE as u128) * (RATIO_SCALE as u128);
        proof {
            assert((raw as nat) * (sq as nat) <= u128::MAX) by (nonlinear_arith)
                requires
                    raw <= u64::MAX,
                    sq == 1_000_000_000_000u128,
            ;
            assert((raw as nat) * (RATIO_SCALE as nat) * (RATIO_SCALE as nat) == (raw as nat) * (sq as nat)) by (nonlinear_arith)
                requires
                    sq == (RATIO_SCALE as nat) * (RATIO_SCALE as nat),
            ;
            vstd::arithmetic::div_mod::lemma_div_is_ordered_by_denominator(((raw as nat) * (sq as nat)) as int, (RATIO_SCALE / 2) as int, adj as int);
            vstd::arithmetic::div_mod::lemma_div_is_ordered(((raw as nat) * (sq as nat)) as int, ((u64::MAX as nat) * (sq as nat)) as int, (RATIO_SCALE / 2) as int);
        }
        let start = (raw as u128) * sq / (adj as u128);
        proof {
            assert(start <= (u64::MAX as nat) * (sq as nat) / ((RATIO_SCALE / 2) as nat));
            assert(start <= 0x20_0000_0000_0000_0000_0000);
            assert((u64::MAX as nat) * (sq as nat) == 500_000 * ((u64::MAX as nat) * 2_000_000));
            vstd::arithmetic::div_mod::lemma_div_multiples_vanish((u64::MAX as int) * 2_000_000, 500_000);
        }
        let ghost book0 = market.book(w);
        let ghost credits0 = market.credits();
        let ghost c0 = consumption(book0, start as int, tp as nat);
        assert(start < 0x1_0000_0000_0000_0000_0000_0000);
        let ghost paid: Seq<Credit> = Seq::empty();
        let mut demand: i128 = start as i128;
        proof {
            assert(credits0 + paid == credits0);
        }
        while demand > 0
            invariant
                market.wf(),
                market.market_offers_sorted,
                market.other_books_unchanged(*old(market), w),
                DEMAND_FLOOR <= demand <= start,
                start <= 0x20_0000_0000_0000_0000_0000,
                sq == 1_000_000_000_000u128,
                market.credits() == credits0 + paid,
                c0.demand == consumption(market.book(w), demand as int, tp as nat).demand,
                c0.book == consumption(market.book(w), demand as int, tp as nat).book,
                c0.paid == paid + consumption(market.book(w), demand as int, tp as nat).paid,
            ensures
                consumption(market.book(w), demand as int, tp as nat) == (Consumption {
                    demand: demand as int,
                    book: market.book(w),
                    paid: Seq::empty(),
                }),
                DEMAND_FLOOR <= demand <= start,
            decreases market.book(w).len(), market.book(w).last().amount,
        {
            if tp == 0 {
                break;
            }
            let price = match market.current_price(w) {
                None => {
                    break;
                },
                Some(p) => p.0,
            };
            let ghost s = market.book(w);
            let ghost snap = *market;
            proof {
                assert((price as nat) * (sq as nat) <= u128::MAX) by (nonlinear_arith)
                    requires
                        price <= u64::MAX,
                        sq == 1_000_000_000_000u128,
                ;
                assert((price as nat) * (RATIO_SCALE as nat) * (RATIO_SCALE as nat) == (price as nat) * (sq as nat)) by (nonlinear_arith)
                    requires
                        sq == (RATIO_SCALE as nat) * (RATIO_SCALE as nat),
                ;
            }
            let radicand = (price as u128) * sq / (tp as u128);
            let dpi = isqrt(radicand);
            proof {
                assert(demand_per_item(price as nat, tp as nat, dpi as nat));
                lemma_isqrt_unique(
                    (price as nat) * (RATIO_SCALE as nat) * (RATIO_SCALE as nat) / (tp as nat),
                    dpi as nat,
                );
                assert((choose|r: nat| demand_per_item(price as nat, tp as nat, r)) == dpi);
                vstd::arithmetic::div_mod::lemma_div_is_ordered_by_denominator(((price as nat) * (sq as nat)) as int, 1, tp as int);
                assert((price as nat) * (sq as nat) <= (u64::MAX as nat) * 1_000_000_000_000) by (nonlinear_arith)
                    requires
                        price <= u64::MAX,
                        sq == 1_000_000_000_000u128,
                ;
                lemma_isqrt_bound(radicand, dpi);
            }
            let cap: u64 = if price == 0 {
                u64::MAX
            } else {
                u64::MAX / price
            };
            let n: u64 = if dpi == 0 {
                cap
            } else {
                let q = (2 * (demand as u128) + dpi as u128) / (2 * dpi as u128);
                if q > cap as u128 {
                    cap
                } else {
                    q as u64
                }
            };
            if n == 0 {
                break;
            }
            proof {
                if price > 0 {
                    vstd::arithmetic::div_mod::lemma_fundamental_div_mod(u64::MAX as int, price as int);
                    assert((n as nat) * (price as nat) <= u64::MAX) by (nonlinear_arith)
                        requires
                            n <= u64::MAX / price,
                            u64::MAX == price * (u64::MAX / price) + u64::MAX % price,
                            u64::MAX % price >= 0,
                    ;
                }
                if dpi > 0 {
                    lemma_round_share(demand as int, dpi as int, n as int);
                }
            }
            proof {
                let c = min_nat(n as nat, market.book(w).last().amount as nat);
                assert(c * (price as nat) <= (n as nat) * (price as nat)) by (nonlinear_arith)
                    requires
                        c <= n,
                ;
                assert(market.book(w).last().price_per_item.0 == price);
            }
            let k = market.consume_at_current_price(WareAmount::new(w, n));
            proof {
                assert(dpi as int * k as int <= dpi as int * n as int) by (nonlinear_arith)
                    requires
                        k <= n,
                        dpi >= 0,
                ;
                assert(dpi as int * k as int <= 0x10_0000_0000_0000 * 0x1_0000_0000_0000_0000) by (nonlinear_arith)
                    requires
                        k <= u64::MAX,
                        dpi <= 0x10_0000_0000_0000,
                ;
            }
            let used = (dpi as i128) * (k as i128);
            demand = demand - used;
            proof {
                let o = s.last();
                assert(snap.book(w).last() == o);
                let credit = Credit { factory: o.source_factory, amount: Money((k as nat * price as nat) as u64) };
                let rest = consumption(market.book(w), demand as int, tp as nat).paid;
                assert(paid + (seq![credit] + rest) == paid.push(credit) + rest);
                paid = paid.push(credit);
            }
        }
        let s = RATIO_SCALE as i128;
        let d = self.decay as i128;
        let deficit: i128 = demand - (start as i128) + (raw as i128) * s;
        proof {
            assert(deficit <= (raw as int) * 1_000_000);
            assert(deficit >= DEMAND_FLOOR - 0x20_0000_0000_0000_0000_0000);
            assert(0 <= s - d <= 1_000_000);
            let di = deficit as int;
            let sd = (s - d) as int;
            assert(sd * di <= 1_000_000 * 0x40_0000_0000_0000_0000_0000) by (nonlinear_arith)
                requires
                    0 <= sd <= 1_000_000,
                    -0x40_0000_0000_0000_0000_0000 <= di <= 0x40_0000_0000_0000_0000_0000,
            ;
            assert(sd * di >= -1_000_000 * 0x40_0000_0000_0000_0000_0000) by (nonlinear_arith)
                requires
                    0 <= sd <= 1_000_000,
                    -0x40_0000_0000_0000_0000_0000 <= di <= 0x40_0000_0000_0000_0000_0000,
            ;
            assert(sd * di <= sd * ((raw as int) * 1_000_000)) by (nonlinear_arith)
                requires
                    0 <= sd,
                    di <= (raw as int) * 1_000_000,
            ;
        }
        let lowered: i128 = if raw == 0 {
            f as i128
        } else {
            let num = (s - d) * deficit;
            let den = (raw as i128) * s;
            let share = if num >= 0 {
                num / den
            } else {
                -((-num) / den)
            };
            proof {
                let sd = (s - d) as int;
                let rs = (raw as int) * 1_000_000;
                if num >= 0 {
                    vstd::arithmetic::div_mod::lemma_div_is_ordered(num as int, sd * rs, rs);
                    vstd::arithmetic::div_mod::lemma_div_multiples_vanish(sd, rs);
                    assert(sd * rs == rs * sd) by (nonlinear_arith);
                    assert(share <= sd);
                } else {
                    vstd::arithmetic::div_mod::lemma_div_is_ordered_by_denominator((-num) as int, 1, rs);
                }
                assert(share >= -1_000_000 * 0x40_0000_0000_0000_0000_0000);
            }
            f as i128 - share
        };
        proof {
            let li = lowered as int;
            let di = d as int;
            assert(li >= di - 1_000_000);
            assert(li <= 0x1_0000_0000_0000_0000 + 1_000_000 * 0x40_0000_0000_0000_0000_0000);
            assert(di * li <= 1_000_000 * (0x1_0000_0000_0000_0000 + 1_000_000 * 0x40_0000_0000_0000_0000_0000)) by (nonlinear_arith)
                requires
                    0 <= di <= 1_000_000,
                    li <= 0x1_0000_0000_0000_0000 + 1_000_000 * 0x40_0000_0000_0000_0000_0000,
                    li >= -1_000_000,
            ;
            assert(di * li + (1_000_000 - di) * 1_000_000 >= 0) by (nonlinear_arith)
                requires
                    0 <= di <= 1_000_000,
                    li >= di - 1_000_000,
            ;
        }
        let pulled = (d * lowered + (s - d) * s) / s;
        self.fulfilment = if pulled > u64::MAX as i128 {
            u64::MAX
        } else {
            pulled as u64
        };
    }

    pub fn fulfilment(&self) -> (r: u64)
        ensures
            r == self.fulfilment,
    {
        self.fulfilment
    }
}

/// Facing an empty book, a consumer that was close enough to satisfied
/// (fulfilment above one minus decay, and at most one) ends strictly less
/// satisfied, and its fulfilment stays between zero and one.
pub proof fn lemma_empty_book_lowers_fulfilment(f: nat, decay: nat, raw: nat, target_price: nat)
    requires
        f <= RATIO_SCALE,
        decay < RATIO_SCALE,
        f + decay > RATIO_SCALE,
        raw > 0,
    ensures
        ({
            let start = initial_demand(raw, f) as int;
            let c = consumption(Seq::empty(), start, target_price);
            let next = next_fulfilment(f, decay, raw, start, c.demand);
            &&& c.book == Seq::<MarketOffer>::empty()
            &&& next < f
            &&& next <= RATIO_SCALE
        }),
{
    let s = RATIO_SCALE as int;
    let d = decay as int;
    let start = initial_demand(raw, f) as int;
    let rs = (raw as int) * s;
    assert(rs > 0) by (nonlinear_arith)
        requires
            raw > 0,
            s == 1_000_000,
            rs == (raw as int) * s,
    ;
    vstd::arithmetic::div_mod::lemma_div_multiples_vanish(s - d, rs);
    assert((s - d) * rs == rs * (s - d)) by (nonlinear_arith);
    assert(trunc_div((s - d) * rs, rs) == s - d);
    let lowered = f - (s - d);
    let num = d * lowered + (s - d) * s;
    assert(num < s * f && num >= 0 && num <= s * s) by (nonlinear_arith)
        requires
            lowered == f - (s - d),
            num == d * lowered + (s - d) * s,
            0 <= d < s,
            f <= s,
            f > s - d,
    ;
    vstd::arithmetic::div_mod::lemma_div_is_ordered(num, s * s, s);
    vstd::arithmetic::div_mod::lemma_div_multiples_vanish(s, s);
    vstd::arithmetic::div_mod::lemma_fundamental_div_mod(num, s);
    assert(num / s < f as int) by (nonlinear_arith)
        requires
            num < s * f,
            num == s * (num / s) + num % s,
            num % s >= 0,
            s > 0,
    ;
}

proof fn lemma_isqrt_unique(n: nat, a: nat)
    requires
        is_isqrt(n, a),
    ensures
        forall|r: nat| is_isqrt(n, r) ==> r == a,
{
    assert forall|r: nat| is_isqrt(n, r) implies r == a by {
        if r < a {
            assert((r + 1) * (r + 1) <= a * a) by (nonlinear_arith)
                requires
                    r + 1 <= a,
            ;
        } else if r > a {
            assert((a + 1) * (a + 1) <= r * r) by (nonlinear_arith)
                requires
                    a + 1 <= r,
            ;
        }
    }
}

proof fn lemma_isqrt_bound(n: u128, r: u64)
    requires
        is_isqrt(n as nat, r as nat),
        n <= (u64::MAX as nat) * 1_000_000_000_000,
    ensures
        r <= 0x10_0000_0000_0000,
{
    if r > 0x10_0000_0000_0000 {
        assert((r as nat) * (r as nat) > (u64::MAX as nat) * 1_000_000_000_000) by (nonlinear_arith)
            requires
                r > 0x10_0000_0000_0000,
        ;
    }
}

/// Asking for at most the rounded share of `demand` takes up at most half a
/// share more than the demand.
proof fn lemma_round_share(demand: int, dpi: int, n: int)
    requires
        demand > 0,
        dpi > 0,
        0 <= n <= (2 * demand + dpi) / (2 * dpi),
    ensures
        2 * (dpi * n) <= 2 * demand + dpi,
{
    let q = (2 * demand + dpi) / (2 * dpi);
    vstd::arithmetic::div_mod::lemma_fundamental_div_mod(2 * demand + dpi, 2 * dpi);
    assert(2 * (dpi * n) <= 2 * dpi * q) by (nonlinear_arith)
        requires
            n <= q,
            dpi > 0,
    ;
}

} // verus!
