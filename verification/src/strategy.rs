//! Allocation rules for rebalancing a portfolio.

use vstd::prelude::*;
use crate::symbol::Symbol;

verus! {

/// The equal-weight rule: every symbol quoted in a bar gets the same share of the
/// portfolio.
#[derive(Clone, Copy, Debug, PartialEq, Eq, Structural)]
pub struct EqualWeight;

impl EqualWeight {
    /// For a bar of quoted prices, each symbol in quoting order together with the number
    /// of equal shares the portfolio is split into; the weight of each symbol is one
    /// such share. A bar without quotes allocates nothing.
    pub fn equal_shares(&self, prices: &[(Symbol, i64)]) -> (shares: Vec<(Symbol, usize)>)
        ensures
            shares@.len() == prices@.len(),
            forall|i: int|
                0 <= i < shares@.len() ==> #[trigger] shares@[i] == (prices@[i].0, prices@.len() as usize),
    {
        let n = prices.len();
        let mut shares: Vec<(Symbol, usize)> = Vec::new();
        let mut i: usize = 0;
        while i < n
            invariant
                i <= n,
                n == prices@.len(),
                shares@.len() == i,
                forall|k: int| 0 <= k < i ==> #[trigger] shares@[k] == (prices@[k].0, n),
            decreases n - i,
        {
            shares.push((prices[i].0, n));
            i += 1;
        }
        shares
    }
}

} // verus!
