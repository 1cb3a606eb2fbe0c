//! The subsidy schedule: each epoch of `SUBSIDY_HALVING_INTERVAL` blocks
//! emits a per-block subsidy that halves from epoch to epoch, and every
//! identifier is numbered by issuance order, so each epoch owns a contiguous
//! block of identifiers starting at `epoch_starting_ordinal`.

use vstd::arithmetic::div_mod::lemma_basic_div;
use vstd::arithmetic::div_mod::lemma_div_denominator;
use vstd::arithmetic::div_mod::lemma_div_non_zero;
use vstd::arithmetic::div_mod::lemma_div_nonincreasing;
use vstd::arithmetic::power2::lemma2_to64;
use vstd::arithmetic::power2::lemma_pow2_pos;
use vstd::arithmetic::power2::lemma_pow2_strictly_increases;
use vstd::arithmetic::power2::lemma_pow2_unfold;
use vstd::arithmetic::power2::pow2;
use vstd::bits::lemma_u64_shr_is_div;
use vstd::prelude::*;

use crate::height::Height;
use crate::ordinal::Ordinal;

verus! {

/// The first epoch whose subsidy is zero: after 33 halvings nothing is left.
pub const FIRST_POST_SUBSIDY_EPOCH: u64 = 33;

/// Per-block subsidy of epoch `e`: fifty coins, halved once per epoch.
pub open spec fn subsidy_of_epoch(e: nat) -> nat
    decreases e,
{
    if e == 0 {
        50 * 100_000_000
    } else {
        subsidy_of_epoch((e - 1) as nat) / 2
    }
}

/// The identifier of the first satoshi minted in epoch `e`: everything the
/// previous epochs emitted, at 210,000 blocks per epoch.
pub open spec fn epoch_starting_ordinal(e: nat) -> nat
    decreases e,
{
    if e == 0 {
        0
    } else {
        epoch_starting_ordinal((e - 1) as nat) + 210_000 * subsidy_of_epoch((e - 1) as nat)
    }
}

/// The epoch that contains identifier `n`, scanning from epoch `e`.
pub open spec fn epoch_scan(n: nat, e: nat) -> nat
    decreases 33 - e,
{
    if e >= 33 {
        33
    } else if n < epoch_starting_ordinal((e + 1) as nat) {
        e
    } else {
        epoch_scan(n, (e + 1) as nat)
    }
}

/// The epoch that contains identifier `n`.
pub open spec fn epoch_of_ordinal(n: nat) -> nat {
    epoch_scan(n, 0)
}

/// The subsidy halves down to the closed form `(50 coins) / 2^e`.
pub proof fn lemma_subsidy_closed(e: nat)
    ensures
        subsidy_of_epoch(e) == (5_000_000_000 as nat) / pow2(e),
    decreases e,
{
    if e == 0 {
        assert(pow2(0) == 1) by {
            lemma2_to64();
        }
    } else {
        lemma_subsidy_closed((e - 1) as nat);
        lemma_pow2_unfold(e);
        lemma_pow2_pos((e - 1) as nat);
        lemma_div_denominator(5_000_000_000, pow2((e - 1) as nat) as int, 2);
        assert(pow2((e - 1) as nat) * 2 == 2 * pow2((e - 1) as nat));
    }
}

/// From the first post-subsidy epoch on, the subsidy is zero.
pub proof fn lemma_subsidy_zero(e: nat)
    requires
        e >= 33,
    ensures
        subsidy_of_epoch(e) == 0,
{
    lemma_subsidy_closed(e);
    assert(pow2(33) == 0x200000000) by {
        lemma2_to64();
        lemma_pow2_unfold(33);
    }
    if e > 33 {
        lemma_pow2_strictly_increases(33, e);
    }
    lemma_basic_div(5_000_000_000, pow2(e) as int);
}

/// While the subsidy lasts it is positive and at most fifty coins.
pub proof fn lemma_subsidy_bounds(e: nat)
    requires
        e < 33,
    ensures
        1 <= subsidy_of_epoch(e) <= 5_000_000_000,
{
    lemma_subsidy_closed(e);
    assert(pow2(32) == 0x100000000) by {
        lemma2_to64();
    }
    if e < 32 {
        lemma_pow2_strictly_increases(e, 32);
    }
    lemma_pow2_pos(e);
    lemma_div_non_zero(5_000_000_000, pow2(e) as int);
    lemma_div_nonincreasing(5_000_000_000, pow2(e) as int);
}

/// Starting ordinals are monotone in the epoch number.
pub proof fn lemma_starting_ordinal_mono(a: nat, b: nat)
    requires
        a <= b,
    ensures
        epoch_starting_ordinal(a) <= epoch_starting_ordinal(b),
    decreases b - a,
{
    if a < b {
        lemma_starting_ordinal_mono(a, (b - 1) as nat);
    }
}

/// Total issuance: summing every epoch's emission gives the full supply.
/// This is the supply identity, here stated as: the identifier at which the
/// first subsidy-free epoch would start is exactly `Ordinal::SUPPLY`.
#[verifier::rlimit(100)]
pub proof fn lemma_supply_identity()
    ensures
        epoch_starting_ordinal(33) == Ordinal::SUPPLY,
{
    assert(epoch_starting_ordinal(0) == 0);
    assert(subsidy_of_epoch(0) == 5000000000);
    assert(epoch_starting_ordinal(1) == 1050000000000000);
    assert(subsidy_of_epoch(1) == 2500000000);
    assert(epoch_starting_ordinal(2) == 1575000000000000);
    assert(subsidy_of_epoch(2) == 1250000000);
    assert(epoch_starting_ordinal(3) == 1837500000000000);
    assert(subsidy_of_epoch(3) == 625000000);
    assert(epoch_starting_ordinal(4) == 1968750000000000);
    assert(subsidy_of_epoch(4) == 312500000);
    assert(epoch_starting_ordinal(5) == 2034375000000000);
    assert(subsidy_of_epoch(5) == 156250000);
    assert(epoch_starting_ordinal(6) == 2067187500000000);
    assert(subsidy_of_epoch(6) == 78125000);
    assert(epoch_starting_ordinal(7) == 2083593750000000);
    assert(subsidy_of_epoch(7) == 39062500);
    assert(epoch_starting_ordinal(8) == 2091796875000000);
    assert(subsidy_of_epoch(8) == 19531250);
    assert(epoch_starting_ordinal(9) == 2095898437500000);
    assert(subsidy_of_epoch(9) == 9765625);
    assert(epoch_starting_ordinal(10) == 2097949218750000);
    assert(subsidy_of_epoch(10) == 4882812);
    assert(epoch_starting_ordinal(11) == 2098974609270000);
    assert(subsidy_of_epoch(11) == 2441406);
    assert(epoch_starting_ordinal(12) == 2099487304530000);
    assert(subsidy_of_epoch(12) == 1220703);
    assert(epoch_starting_ordinal(13) == 2099743652160000);
    assert(subsidy_of_epoch(13) == 610351);
    assert(epoch_starting_ordinal(14) == 2099871825870000);
    assert(subsidy_of_epoch(14) == 305175);
    assert(epoch_starting_ordinal(15) == 2099935912620000);
    assert(subsidy_of_epoch(15) == 152587);
    assert(epoch_starting_ordinal(16) == 2099967955890000);
    assert(subsidy_of_epoch(16) == 76293);
    assert(epoch_starting_ordinal(17) == 2099983977420000);
    assert(subsidy_of_epoch(17) == 38146);
    assert(epoch_starting_ordinal(18) == 2099991988080000);
    assert(subsidy_of_epoch(18) == 19073);
    assert(epoch_starting_ordinal(19) == 2099995993410000);
    assert(subsidy_of_epoch(19) == 9536);
    assert(epoch_starting_ordinal(20) == 2099997995970000);
    assert(subsidy_of_epoch(20) == 4768);
    assert(epoch_starting_ordinal(21) == 2099998997250000);
    assert(subsidy_of_epoch(21) == 2384);
    assert(epoch_starting_ordinal(22) == 2099999497890000);
    assert(subsidy_of_epoch(22) == 1192);
    assert(epoch_starting_ordinal(23) == 2099999748210000);
    assert(subsidy_of_epoch(23) == 596);
    assert(epoch_starting_ordinal(24) == 2099999873370000);
    assert(subsidy_of_epoch(24) == 298);
    assert(epoch_starting_ordinal(25) == 2099999935950000);
    assert(subsidy_of_epoch(25) == 149);
    assert(epoch_starting_ordinal(26) == 2099999967240000);
    assert(subsidy_of_epoch(26) == 74);
    assert(epoch_starting_ordinal(27) == 2099999982780000);
    assert(subsidy_of_epoch(27) == 37);
    assert(epoch_starting_ordinal(28) == 2099999990550000);
    assert(subsidy_of_epoch(28) == 18);
    assert(epoch_starting_ordinal(29) == 2099999994330000);
    assert(subsidy_of_epoch(29) == 9);
    assert(epoch_starting_ordinal(30) == 2099999996220000);
    assert(subsidy_of_epoch(30) == 4);
    assert(epoch_starting_ordinal(31) == 2099999997060000);
    assert(subsidy_of_epoch(31) == 2);
    assert(epoch_starting_ordinal(32) == 2099999997480000);
    assert(subsidy_of_epoch(32) == 1);
    assert(epoch_starting_ordinal(33) == 2099999997690000);
}

/// Every starting ordinal lies within the supply, and from the first
/// post-subsidy epoch on it equals the supply.
pub proof fn lemma_starting_ordinal_le_supply(e: nat)
    ensures
        epoch_starting_ordinal(e) <= Ordinal::SUPPLY,
        e >= 33 ==> epoch_starting_ordinal(e) == Ordinal::SUPPLY,
    decreases e,
{
    lemma_supply_identity();
    if e <= 33 {
        lemma_starting_ordinal_mono(e, 33);
    } else {
        lemma_starting_ordinal_le_supply((e - 1) as nat);
        lemma_subsidy_zero((e - 1) as nat);
    }
}

/// An epoch number, the halving index of a block height.
#[derive(Clone, Copy, Debug, PartialEq, Eq, Structural, Hash)]
pub struct Epoch(pub u64);

impl Epoch {
    /// The epoch number itself.
    pub fn n(self) -> (r: u64)
        ensures
            r == self.0,
    {
        self.0
    }

    /// Per-block subsidy of this epoch, in satoshis.
    pub fn subsidy(self) -> (s: u64)
        ensures
            s == subsidy_of_epoch(self.0 as nat),
    {
        if self.0 < FIRST_POST_SUBSIDY_EPOCH {
            proof {
                lemma_u64_shr_is_div(5_000_000_000u64, self.0);
                lemma_subsidy_closed(self.0 as nat);
            }
            5_000_000_000u64 >> self.0
        } else {
            proof {
                lemma_subsidy_zero(self.0 as nat);
            }
            0
        }
    }

    /// The identifier of the first satoshi this epoch mints.
    pub fn starting_ordinal(self) -> (r: Ordinal)
        ensures
            r.0 == epoch_starting_ordinal(self.0 as nat),
            r.0 <= Ordinal::SUPPLY,
    {
        let e: u64 = if self.0 > FIRST_POST_SUBSIDY_EPOCH {
            proof {
                lemma_starting_ordinal_le_supply(self.0 as nat);
                lemma_starting_ordinal_le_supply(33);
            }
            FIRST_POST_SUBSIDY_EPOCH
        } else {
            self.0
        };
        assert(epoch_starting_ordinal(e as nat) == epoch_starting_ordinal(self.0 as nat));
        let mut i: u64 = 0;
        let mut sum: u64 = 0;
        while i < e
            invariant
                i <= e <= 33,
                sum == epoch_starting_ordinal(i as nat),
                sum <= Ordinal::SUPPLY,
            decreases e - i,
        {
            let s = Epoch(i).subsidy();
            proof {
                lemma_starting_ordinal_le_supply((i + 1) as nat);
            }
            sum = sum + 210_000 * s;
            i = i + 1;
        }
        proof {
            lemma_starting_ordinal_le_supply(e as nat);
        }
        Ordinal(sum)
    }

    /// The height of the first block of this epoch.
    pub fn starting_height(self) -> (h: Height)
        requires
            self.0 <= u64::MAX / crate::SUBSIDY_HALVING_INTERVAL,
        ensures
            h.0 == self.0 * crate::SUBSIDY_HALVING_INTERVAL,
    {
        proof {
            vstd::arithmetic::mul::lemma_mul_inequality(
                self.0 as int,
                (u64::MAX / crate::SUBSIDY_HALVING_INTERVAL) as int,
                crate::SUBSIDY_HALVING_INTERVAL as int,
            );
            vstd::arithmetic::div_mod::lemma_fundamental_div_mod(
                u64::MAX as int,
                crate::SUBSIDY_HALVING_INTERVAL as int,
            );
        }
        Height(self.0 * crate::SUBSIDY_HALVING_INTERVAL)
    }
}

} // verus!
