use vstd::prelude::*;

use crate::time::DateTime;
use crate::ware::{Ware, WareAmount};

verus! {

/// The inputs consumed and outputs produced by one application of a recipe,
/// and how many applications can run per hour.
#[derive(Debug)]
pub struct Recipe {
    pub inputs: Vec<WareAmount>,
    pub outputs: Vec<WareAmount>,
    pub rate: ProductionRate,
}

/// The maximum number of recipe applications per hour.
#[derive(Debug, Clone, Copy, PartialEq, Eq, Structural)]
pub struct ProductionRate {
    pub per_hour: u64,
}

/// The sum of the quantities of a list of ware amounts.
pub open spec fn total_amount(s: Seq<WareAmount>) -> nat
    decreases s.len(),
{
    if s.len() == 0 {
        0
    } else {
        total_amount(s.drop_last()) + s.last().amount as nat
    }
}

/// No two entries name the same ware.
pub open spec fn distinct_wares(s: Seq<WareAmount>) -> bool {
    forall|i: int, j: int| 0 <= i < s.len() && 0 <= j < s.len() && i != j ==> s[i].ware != s[j].ware
}

/// Some entry names ware `w`.
pub open spec fn lists_ware(s: Seq<WareAmount>, w: Ware) -> bool {
    exists|i: int| 0 <= i < s.len() && #[trigger] s[i].ware == w
}

/// `a + b`, or the largest `u64` where the sum is larger.
pub open spec fn saturating_sum(a: u64, b: u64) -> u64 {
    if a + b > u64::MAX {
        u64::MAX
    } else {
        (a + b) as u64
    }
}

/// `m` with `a` more of ware `w` wherever it is listed.
pub open spec fn add_to_ware(m: Seq<WareAmount>, w: Ware, a: u64) -> Seq<WareAmount> {
    m.map_values(
        |x: WareAmount|
            if x.ware == w {
                WareAmount { ware: w, amount: saturating_sum(x.amount, a) }
            } else {
                x
            },
    )
}

/// A list of ware amounts with each ware once, in order of first mention,
/// its quantities summed (saturating).
pub open spec fn merged(s: Seq<WareAmount>) -> Seq<WareAmount>
    decreases s.len(),
{
    if s.len() == 0 {
        Seq::empty()
    } else {
        let m = merged(s.drop_last());
        let l = s.last();
        if lists_ware(m, l.ware) {
            add_to_ware(m, l.ware, l.amount)
        } else {
            m.push(l)
        }
    }
}

/// Merging lists each ware once.
pub proof fn lemma_merged_distinct(s: Seq<WareAmount>)
    ensures
        distinct_wares(merged(s)),
    decreases s.len(),
{
    if s.len() > 0 {
        lemma_merged_distinct(s.drop_last());
        let m = merged(s.drop_last());
        let l = s.last();
        if lists_ware(m, l.ware) {
            let r = add_to_ware(m, l.ware, l.amount);
            assert forall|i: int, j: int| 0 <= i < r.len() && 0 <= j < r.len() && i != j implies r[i].ware != r[j].ware by {
                assert(r[i].ware == m[i].ware && r[j].ware == m[j].ware);
            }
        } else {
            let r = m.push(l);
            assert forall|i: int, j: int| 0 <= i < r.len() && 0 <= j < r.len() && i != j implies r[i].ware != r[j].ware by {
                if i == m.len() as int {
                    assert(m[j].ware != l.ware);
                } else if j == m.len() as int {
                    assert(m[i].ware != l.ware);
                }
            }
        }
    }
}

impl Recipe {
    /// The inputs with each ware once, in order of first mention, the
    /// quantities of repeated wares summed (saturating).
    pub fn merged_inputs(&self) -> (r: Vec<WareAmount>)
        ensures
            r@ == merged(self.inputs@),
            distinct_wares(r@),
    {
        let mut out: Vec<WareAmount> = Vec::new();
        let mut j: usize = 0;
        proof {
            assert(self.inputs@.take(0) == Seq::<WareAmount>::empty());
        }
        while j < self.inputs.len()
            invariant
                j <= self.inputs@.len(),
                out@ == merged(self.inputs@.take(j as int)),
                distinct_wares(out@),
            decreases self.inputs@.len() - j,
        {
            let x = self.inputs[j];
            proof {
                assert(self.inputs@.take(j + 1).drop_last() == self.inputs@.take(j as int));
                assert(self.inputs@.take(j + 1).last() == x);
            }
            let mut k: usize = 0;
            while k < out.len() && out[k].ware != x.ware
                invariant
                    k <= out@.len(),
                    forall|i: int| 0 <= i < k ==> out@[i].ware != x.ware,
                decreases out@.len() - k,
            {
                k = k + 1;
            }
            let ghost before = out@;
            if k < out.len() {
                let old_amount = out[k].amount;
                let total = if old_amount > u64::MAX - x.amount {
                    u64::MAX
                } else {
                    old_amount + x.amount
                };
                out.set(k, WareAmount { ware: x.ware, amount: total });
                proof {
                    assert(lists_ware(before, x.ware));
                    assert(out@ == add_to_ware(before, x.ware, x.amount));
                }
            } else {
                out.push(x);
                proof {
                    assert(!lists_ware(before, x.ware));
                }
            }
            j = j + 1;
        }
        proof {
            assert(self.inputs@.take(j as int) == self.inputs@);
        }
        out
    }

    pub fn new(inputs: Vec<WareAmount>, outputs: Vec<WareAmount>, rate: ProductionRate) -> (r: Self)
        ensures
            r.inputs@ == inputs@,
            r.outputs@ == outputs@,
            r.rate == rate,
    {
        Recipe { inputs, outputs, rate }
    }

    pub fn rate(&self) -> (r: ProductionRate)
        ensures
            r == self.rate,
    {
        self.rate
    }

    pub fn inputs(&self) -> (r: &[WareAmount])
        ensures
            r@ == self.inputs@,
    {
        self.inputs.as_slice()
    }

    pub fn outputs(&self) -> (r: &[WareAmount])
        ensures
            r@ == self.outputs@,
    {
        self.outputs.as_slice()
    }

    /// Units of output produced by one application, over all output wares.
    pub fn output_amount(&self) -> (r: u128)
        ensures
            r == total_amount(self.outputs@),
    {
        let mut sum: u128 = 0;
        let mut i: usize = 0;
        while i < self.outputs.len()
            invariant
                i <= self.outputs@.len(),
                sum == total_amount(self.outputs@.subrange(0, i as int)),
                sum <= i * (u64::MAX as nat),
            decreases self.outputs@.len() - i,
        {
            proof {
                assert(self.outputs@.subrange(0, i + 1).drop_last() == self.outputs@.subrange(0, i as int));
            }
            sum = sum + self.outputs[i].amount as u128;
            i = i + 1;
        }
        proof {
            assert(self.outputs@.subrange(0, i as int) == self.outputs@);
        }
        sum
    }
}

impl ProductionRate {
    pub fn new(per_hour: u64) -> (r: Self)
        ensures
            r.per_hour == per_hour,
    {
        ProductionRate { per_hour }
    }

    pub fn per_hour(&self) -> (r: u64)
        ensures
            r == self.per_hour,
    {
        self.per_hour
    }

    /// The number of applications that fit into a duration; `None` where it does not fit.
    pub fn applications_in(&self, duration: DateTime) -> (r: Option<u64>)
        ensures
            self.per_hour * duration.hours <= u64::MAX ==> r == Some((self.per_hour * duration.hours) as u64),
            self.per_hour * duration.hours > u64::MAX ==> r.is_none(),
    {
        self.per_hour.checked_mul(duration.hours)
    }
}

} // verus!
