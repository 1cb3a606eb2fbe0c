//! Block heights and the identifiers their coinbases mint.

use vstd::arithmetic::div_mod::lemma_fundamental_div_mod;
use vstd::arithmetic::mul::lemma_mul_inequality;
use vstd::prelude::*;

use crate::epoch::epoch_starting_ordinal;
use crate::epoch::lemma_starting_ordinal_le_supply;
use crate::epoch::subsidy_of_epoch;
use crate::epoch::Epoch;
use crate::ordinal::Ordinal;

verus! {

/// Per-block subsidy at height `h`.
pub open spec fn subsidy_of_height(h: nat) -> nat {
    subsidy_of_epoch(h / 210_000)
}

/// The identifier of the first satoshi minted by the block at height `h`:
/// the epoch's starting identifier plus the emission of the earlier blocks
/// of that epoch.
pub open spec fn height_starting_ordinal(h: nat) -> nat {
    epoch_starting_ordinal(h / 210_000) + (h % 210_000) * subsidy_of_epoch(h / 210_000)
}

/// A block's starting ordinal stays within the supply.
pub proof fn lemma_height_starting_ordinal_le_supply(h: nat)
    ensures
        height_starting_ordinal(h) <= Ordinal::SUPPLY,
{
    let e = h / 210_000;
    lemma_starting_ordinal_le_supply((e + 1) as nat);
    lemma_mul_inequality((h % 210_000) as int, 210_000, subsidy_of_epoch(e) as int);
    assert(epoch_starting_ordinal((e + 1) as nat) == epoch_starting_ordinal(e) + 210_000
        * subsidy_of_epoch(e));
}

/// While a block still mints, everything it mints stays within the supply.
pub proof fn lemma_height_block_within_supply(h: nat)
    requires
        subsidy_of_height(h) >= 1,
    ensures
        height_starting_ordinal(h) + subsidy_of_height(h) <= Ordinal::SUPPLY,
{
    let e = h / 210_000;
    let s = subsidy_of_epoch(e) as int;
    lemma_starting_ordinal_le_supply((e + 1) as nat);
    vstd::arithmetic::div_mod::lemma_mod_bound(h as int, 210_000);
    lemma_mul_inequality((h % 210_000) as int + 1, 210_000, s);
    assert((h % 210_000) as int * s + s == ((h % 210_000) as int + 1) * s) by (nonlinear_arith);
    assert(epoch_starting_ordinal((e + 1) as nat) == epoch_starting_ordinal(e) + 210_000
        * subsidy_of_epoch(e));
}

/// A block height.
#[derive(Clone, Copy, Debug, PartialEq, Eq, Structural, Hash)]
pub struct Height(pub u64);

impl Height {
    /// The height itself.
    pub fn n(self) -> (r: u64)
        ensures
            r == self.0,
    {
        self.0
    }

    /// Per-block subsidy at this height, in satoshis.
    pub fn subsidy(self) -> (s: u64)
        ensures
            s == subsidy_of_height(self.0 as nat),
    {
        Epoch(self.0 / crate::SUBSIDY_HALVING_INTERVAL).subsidy()
    }

    /// The identifier of the first satoshi this block mints.
    pub fn starting_ordinal(self) -> (r: Ordinal)
        ensures
            r.0 == height_starting_ordinal(self.0 as nat),
            r.0 <= Ordinal::SUPPLY,
    {
        let epoch = Epoch(self.0 / crate::SUBSIDY_HALVING_INTERVAL);
        let start = epoch.starting_ordinal();
        let offset = self.0 % crate::SUBSIDY_HALVING_INTERVAL;
        let subsidy = epoch.subsidy();
        proof {
            lemma_height_starting_ordinal_le_supply(self.0 as nat);
            lemma_mul_inequality(
                offset as int,
                210_000,
                subsidy_of_epoch((self.0 / 210_000) as nat) as int,
            );
        }
        Ordinal(start.0 + offset * subsidy)
    }

    /// The offset of this height within its difficulty period.
    pub fn period_offset(self) -> (r: u64)
        ensures
            r == (self.0 as nat) % 2016,
    {
        self.0 % crate::DIFFCHANGE_INTERVAL
    }
}

} // verus!
