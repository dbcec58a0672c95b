use vstd::prelude::*;

verus! {

/// Number of fixed-point steps in one whole currency unit of an [`ApproximateMoney`].
pub const COST_SCALE: u64 = 1_000_000;

/// An exact, non-negative amount of currency.
#[derive(Debug, Clone, Copy, PartialEq, Eq, Structural, PartialOrd, Ord, Hash)]
pub struct Money(pub u64);

/// A per-item cost with a fractional part, in fixed point: the value is
/// `self.0 / COST_SCALE` currency units. Used for weighted-average bookkeeping.
#[derive(Debug, Clone, Copy, PartialEq, Eq, Structural, Hash)]
pub struct ApproximateMoney(pub u64);

impl Money {
    pub fn raw(&self) -> (r: u64)
        ensures
            r == self.0,
    {
        self.0
    }

    pub fn checked_add(self, rhs: Self) -> (r: Option<Self>)
        ensures
            self.0 + rhs.0 <= u64::MAX ==> r == Some(Money((self.0 + rhs.0) as u64)),
            self.0 + rhs.0 > u64::MAX ==> r.is_none(),
    {
        match self.0.checked_add(rhs.0) {
            Some(v) => Some(Money(v)),
            None => None,
        }
    }

    pub fn saturating_sub(self, rhs: Self) -> (r: Self)
        ensures
            r.0 == if self.0 >= rhs.0 { self.0 - rhs.0 } else { 0 },
    {
        if self.0 >= rhs.0 {
            Money(self.0 - rhs.0)
        } else {
            Money(0)
        }
    }
}

impl From<u64> for Money {
    fn from(value: u64) -> (r: Self)
        ensures
            r.0 == value,
    {
        Money(value)
    }
}

impl vstd::std_specs::convert::FromSpecImpl<u64> for Money {
    open spec fn obeys_from_spec() -> bool {
        true
    }

    open spec fn from_spec(v: u64) -> Money {
        Money(v)
    }
}

impl ApproximateMoney {
    /// The amount in fixed-point steps.
    pub fn raw(&self) -> (r: u64)
        ensures
            r == self.0,
    {
        self.0
    }

    /// The exact value of a whole amount of money; `None` where it does not fit.
    pub fn from_money(m: Money) -> (r: Option<ApproximateMoney>)
        ensures
            m.0 * COST_SCALE <= u64::MAX ==> r == Some(ApproximateMoney((m.0 * COST_SCALE) as u64)),
            m.0 * COST_SCALE > u64::MAX ==> r.is_none(),
    {
        match m.0.checked_mul(COST_SCALE) {
            Some(v) => Some(ApproximateMoney(v)),
            None => None,
        }
    }

    /// Rounds up to the next whole currency unit.
    pub fn ceil_money(self) -> (r: Money)
        ensures
            r.0 == ceil_div(self.0 as nat, COST_SCALE as nat),
    {
        let q = self.0 / COST_SCALE;
        if self.0 % COST_SCALE == 0 {
            Money(q)
        } else {
            Money(q + 1)
        }
    }
}

/// The per-item share of a total cost, saturating at the largest representable cost.
pub open spec fn unit_cost(total: nat, units: nat) -> u64
    recommends
        units > 0,
{
    if total / units > u64::MAX {
        u64::MAX
    } else {
        (total / units) as u64
    }
}

/// The per-item share of `total` fixed-point steps spread over `units` items.
pub fn per_item(total: u128, units: u128) -> (r: ApproximateMoney)
    requires
        units > 0,
    ensures
        r.0 == unit_cost(total as nat, units as nat),
{
    let q = total / units;
    if q > u64::MAX as u128 {
        ApproximateMoney(u64::MAX)
    } else {
        ApproximateMoney(q as u64)
    }
}

/// `a / b` rounded up.
pub open spec fn ceil_div(a: nat, b: nat) -> nat
    recommends
        b > 0,
{
    if a % b == 0 {
        a / b
    } else {
        a / b + 1
    }
}

} // verus!
