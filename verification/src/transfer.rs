//! One payment of a settlement plan.

use vstd::prelude::*;

verus! {

/// A payment of `amt` from `from` to `to`. While a planner works, `amt` may
/// carry a sign; `normalise` turns the payment so that `amt` is not negative.
#[derive(Debug, PartialEq, Eq)]
pub struct Transfer<T> {
    pub from: T,
    pub to: T,
    pub amt: isize,
}

impl<T> Transfer<T> {
    /// Turns a payment of a negative amount into the payment of the opposite
    /// amount in the opposite direction; any other payment is left as it is.
    pub fn normalise(&mut self)
        requires
            old(self).amt > isize::MIN,
        ensures
            old(self).amt < 0 ==> final(self).from == old(self).to && final(self).to == old(
                self,
            ).from && final(self).amt == -old(self).amt,
            old(self).amt >= 0 ==> *final(self) == *old(self),
    {
        if self.amt < 0 {
            std::mem::swap(&mut self.from, &mut self.to);
            self.amt = -self.amt;
        }
    }
}

} // verus!
