//! Block production statistics of one address.
use vstd::prelude::*;

verus! {

/// A rational number `numer / denom`.
#[derive(Clone, Copy, Debug, PartialEq, Eq)]
pub struct Ratio {
    pub numer: u64,
    pub denom: u64,
}

impl Ratio {
    /// The ratio `numer / denom`.
    pub fn new(numer: u64, denom: u64) -> (r: Ratio)
        requires
            denom > 0,
        ensures
            r.numer == numer,
            r.denom == denom,
    {
        Ratio { numer, denom }
    }
}

/// Relies on num's `Ratio` ordering: `a / b <= c / d` compared exactly, with no
/// overflow, for non-zero denominators (`Ratio::new` panics on a zero one).
#[verifier::external_body]
fn ratio_le(a: u128, b: u128, c: u128, d: u128) -> (r: bool)
    requires
        b > 0,
        d > 0,
    ensures
        r == (a * d <= c * b),
{
    num::rational::Ratio::new(a, b) <= num::rational::Ratio::new(c, d)
}

/// Block production statistics.
#[derive(Clone, Copy, Debug, Default, PartialEq, Eq)]
pub struct ProductionStats {
    /// Number of successfully created blocks
    pub block_success_count: u64,
    /// Number of blocks missed
    pub block_failure_count: u64,
}

/// Whether `stats` has a share of missed blocks of at most `numer / denom`,
/// where an address without any opportunity yet is satisfying.
pub open spec fn satisfies(stats: ProductionStats, numer: u64, denom: u64) -> bool {
    let total = stats.block_success_count + stats.block_failure_count;
    total == 0 || stats.block_failure_count * denom <= numer * total
}

/// Adds two counters, capped at `u64::MAX`.
pub open spec fn sat_add(a: u64, b: u64) -> u64 {
    if a + b > u64::MAX {
        u64::MAX
    } else {
        (a + b) as u64
    }
}

impl ProductionStats {
    /// Whether the share of missed blocks is at most `max_miss_ratio`.
    pub fn is_satisfying(&self, max_miss_ratio: &Ratio) -> (r: bool)
        requires
            max_miss_ratio.denom > 0,
        ensures
            r == satisfies(*self, max_miss_ratio.numer, max_miss_ratio.denom),
    {
        let opportunities_count = self.block_success_count as u128
            + self.block_failure_count as u128;
        if opportunities_count == 0 {
            return true;
        }
        ratio_le(
            self.block_failure_count as u128,
            opportunities_count,
            max_miss_ratio.numer as u128,
            max_miss_ratio.denom as u128,
        )
    }

    /// Adds the counters of `stats` to these, saturating at `u64::MAX`.
    pub fn extend(&mut self, stats: &ProductionStats)
        ensures
            final(self).block_success_count == sat_add(
                old(self).block_success_count,
                stats.block_success_count,
            ),
            final(self).block_failure_count == sat_add(
                old(self).block_failure_count,
                stats.block_failure_count,
            ),
    {
        self.block_success_count = self.block_success_count.saturating_add(
            stats.block_success_count,
        );
        self.block_failure_count = self.block_failure_count.saturating_add(
            stats.block_failure_count,
        );
    }
}

} // verus!
