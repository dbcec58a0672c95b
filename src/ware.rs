use vstd::prelude::*;

verus! {

/// The kinds of commodity traded in the economy.
#[derive(Debug, Clone, Copy, PartialEq, Eq, Structural, PartialOrd, Ord, Hash)]
pub enum Ware {
    Water,
    Seed,
    Apple,
}

/// How many kinds of [`Ware`] there are.
pub const WARE_KINDS: usize = 3;

/// A quantity of one ware.
#[derive(Debug, Clone, Copy, PartialEq, Eq, Structural, PartialOrd, Ord, Hash)]
pub struct WareAmount {
    pub ware: Ware,
    pub amount: u64,
}

impl Ware {
    /// The position of the ware in the fixed order water, seed, apple.
    pub open spec fn index(self) -> nat {
        match self {
            Ware::Water => 0,
            Ware::Seed => 1,
            Ware::Apple => 2,
        }
    }

    pub open spec fn spec_from_index(i: nat) -> Ware {
        if i == 0 {
            Ware::Water
        } else if i == 1 {
            Ware::Seed
        } else {
            Ware::Apple
        }
    }

    pub fn to_index(&self) -> (r: usize)
        ensures
            r == self.index(),
            r < WARE_KINDS,
    {
        match self {
            Ware::Water => 0,
            Ware::Seed => 1,
            Ware::Apple => 2,
        }
    }

    pub fn from_index(i: usize) -> (r: Ware)
        requires
            i < WARE_KINDS,
        ensures
            r == Ware::spec_from_index(i as nat),
            r.index() == i,
    {
        if i == 0 {
            Ware::Water
        } else if i == 1 {
            Ware::Seed
        } else {
            Ware::Apple
        }
    }

    /// Whether this ware is countable in the English grammatical sense.
    pub fn is_countable(&self) -> (r: bool)
        ensures
            r == !(*self is Water),
    {
        match self {
            Ware::Water => false,
            Ware::Seed | Ware::Apple => true,
        }
    }

    pub fn name(&self) -> (r: &'static str) {
        match self {
            Ware::Water => "water",
            Ware::Seed => "seed",
            Ware::Apple => "apple",
        }
    }
}

impl WareAmount {
    pub fn new(ware: Ware, amount: u64) -> (r: Self)
        ensures
            r.ware == ware,
            r.amount == amount,
    {
        WareAmount { ware, amount }
    }

    pub fn ware(&self) -> (r: Ware)
        ensures
            r == self.ware,
    {
        self.ware
    }

    pub fn amount(&self) -> (r: u64)
        ensures
            r == self.amount,
    {
        self.amount
    }

    /// The same ware in another quantity.
    pub fn with_amount(&self, amount: u64) -> (r: Self)
        ensures
            r.ware == self.ware,
            r.amount == amount,
    {
        WareAmount { ware: self.ware, amount }
    }

    /// Scales the quantity; `None` where the product does not fit.
    pub fn checked_mul(&self, factor: u64) -> (r: Option<Self>)
        ensures
            self.amount * factor <= u64::MAX ==> r == Some(
                WareAmount { ware: self.ware, amount: (self.amount * factor) as u64 },
            ),
            self.amount * factor > u64::MAX ==> r.is_none(),
    {
        match self.amount.checked_mul(factor) {
            Some(a) => Some(WareAmount { ware: self.ware, amount: a }),
            None => None,
        }
    }

    /// How many times `unit` fits into this amount (rounded down).
    pub fn div_amount(&self, unit: &WareAmount) -> (r: u64)
        requires
            self.ware == unit.ware,
            unit.amount > 0,
        ensures
            r == self.amount / unit.amount,
    {
        self.amount / unit.amount
    }
}

} // verus!
