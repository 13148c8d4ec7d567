//! How many units each block issues, and where their numbers start.

use vstd::prelude::*;
use vstd::arithmetic::div_mod::lemma_basic_div;
use vstd::arithmetic::div_mod::lemma_div_denominator;
use vstd::arithmetic::div_mod::lemma_fundamental_div_mod;
use vstd::arithmetic::div_mod::lemma_fundamental_div_mod_converse;
use vstd::arithmetic::power2::lemma2_to64;
use vstd::arithmetic::power2::lemma2_to64_rest;
use vstd::arithmetic::power2::lemma_pow2_pos;
use vstd::arithmetic::power2::lemma_pow2_strictly_increases;
use vstd::arithmetic::power2::lemma_pow2_unfold;
use vstd::arithmetic::power2::pow2;
use vstd::bits::lemma_u64_shr_is_div;
use crate::units::UnitRange;

verus! {

/// The issuance of a ledger: each block of the first `interval` blocks
/// issues `initial` units, and after every `interval` blocks the amount
/// halves, rounded down.
#[derive(Copy, Clone, Debug, PartialEq, Eq)]
pub struct Schedule {
    pub initial: u64,
    pub interval: u64,
}

impl Schedule {
    /// No more than this many units are ever issued.
    pub open spec fn supply_bound(self) -> nat {
        2 * (self.interval as nat * self.initial as nat)
    }

    /// The amount halves after a positive number of blocks, and every unit
    /// number fits in 64 bits.
    pub open spec fn valid(self) -> bool {
        self.interval > 0 && self.supply_bound() <= u64::MAX
    }

    /// What each block issues once the amount has halved `epoch` times.
    pub open spec fn epoch_subsidy(self, epoch: nat) -> nat {
        self.initial as nat / pow2(epoch)
    }

    /// What the block at `height` issues.
    pub open spec fn subsidy_at(self, height: nat) -> nat {
        self.epoch_subsidy(height / self.interval as nat)
    }

    /// The number of the first unit that the block at `height` issues: as
    /// many as all blocks below it have issued. So the ranges issued follow
    /// each other from 0 without a gap.
    pub open spec fn first_unit(self, height: nat) -> nat
        decreases height,
    {
        if height == 0 {
            0
        } else {
            self.first_unit((height - 1) as nat) + self.subsidy_at((height - 1) as nat)
        }
    }

    /// A schedule, where `initial` and `interval` make a valid one.
    pub fn new(initial: u64, interval: u64) -> (schedule: Option<Schedule>)
        ensures
            match schedule {
                Some(s) => s == (Schedule { initial, interval }) && s.valid(),
                None => !(Schedule { initial, interval }).valid(),
            },
    {
        if interval == 0 {
            return None;
        }
        match interval.checked_mul(initial) {
            None => None,
            Some(product) => match product.checked_mul(2) {
                None => None,
                Some(_) => Some(Schedule { initial, interval }),
            },
        }
    }

    /// Units are issued in rising order: a block starts no lower than any
    /// block below it ends.
    pub proof fn lemma_first_unit_rises(self, lower: nat, higher: nat)
        requires
            lower <= higher,
        ensures
            self.first_unit(lower) <= self.first_unit(higher),
            lower < higher ==> self.first_unit(lower + 1) <= self.first_unit(higher),
        decreases higher,
    {
        if lower < higher {
            self.lemma_first_unit_rises(lower, (higher - 1) as nat);
            if lower + 1 < higher {
                self.lemma_first_unit_rises(lower + 1, (higher - 1) as nat);
            }
        }
    }

    /// Within one epoch every block issues the same.
    pub proof fn lemma_within_epoch(self, epoch: nat, blocks: nat)
        requires
            self.valid(),
            blocks <= self.interval,
        ensures
            self.first_unit(epoch * self.interval as nat + blocks) == self.first_unit(
                epoch * self.interval as nat,
            ) + blocks * self.epoch_subsidy(epoch),
        decreases blocks,
    {
        let base = epoch * self.interval as nat;
        let each = self.epoch_subsidy(epoch);
        if blocks == 0 {
            assert(blocks * each == 0) by (nonlinear_arith)
                requires
                    blocks == 0,
            ;
        } else {
            let fewer = (blocks - 1) as nat;
            self.lemma_within_epoch(epoch, fewer);
            lemma_fundamental_div_mod_converse(
                (base + fewer) as int,
                self.interval as int,
                epoch as int,
                fewer as int,
            );
            assert(self.subsidy_at(base + fewer) == each);
            assert(blocks * each == fewer * each + each) by (nonlinear_arith)
                requires
                    blocks == fewer + 1,
            ;
        }
    }

    /// Each halving at least halves what a block issues.
    pub proof fn lemma_halving(self, epoch: nat)
        ensures
            2 * self.epoch_subsidy(epoch + 1) <= self.epoch_subsidy(epoch),
    {
        lemma_pow2_pos(epoch);
        lemma_pow2_unfold(epoch + 1);
        lemma_div_denominator(self.initial as int, pow2(epoch) as int, 2);
        assert(pow2(epoch) * 2 == pow2(epoch + 1));
    }

    /// What has been issued before an epoch, with twice what the epoch
    /// issues, stays within the bound.
    pub proof fn lemma_epoch_bound(self, epoch: nat)
        requires
            self.valid(),
        ensures
            self.first_unit(epoch * self.interval as nat) + 2 * (self.interval as nat
                * self.epoch_subsidy(epoch)) <= self.supply_bound(),
        decreases epoch,
    {
        let span = self.interval as nat;
        if epoch == 0 {
            lemma2_to64();
            assert(0 * span == 0);
            assert(self.epoch_subsidy(0) == self.initial as nat);
        } else {
            let before = (epoch - 1) as nat;
            self.lemma_epoch_bound(before);
            self.lemma_within_epoch(before, span);
            self.lemma_halving(before);
            assert(before * span + span == epoch * span) by (nonlinear_arith)
                requires
                    epoch == before + 1,
            ;
            let was = self.epoch_subsidy(before);
            let now = self.epoch_subsidy(epoch);
            assert(span * was + 2 * (span * now) <= 2 * (span * was)) by (nonlinear_arith)
                requires
                    2 * now <= was,
            ;
        }
    }

    /// After 64 halvings nothing is issued.
    pub proof fn lemma_exhausted(self, height: nat)
        requires
            self.valid(),
            height >= 64 * self.interval as nat,
        ensures
            self.first_unit(height) == self.first_unit(64 * self.interval as nat),
            self.subsidy_at(height) == 0,
        decreases height,
    {
        let span = self.interval as nat;
        lemma_fundamental_div_mod(height as int, span as int);
        let epoch = height / span;
        assert(epoch >= 64) by (nonlinear_arith)
            requires
                height >= 64 * span,
                height == span * epoch + height % span,
                0 <= height % span < span,
                span > 0,
        ;
        lemma2_to64_rest();
        if epoch > 64 {
            lemma_pow2_strictly_increases(64, epoch);
        }
        lemma_basic_div(self.initial as int, pow2(epoch) as int);
        if height > 64 * span {
            self.lemma_exhausted((height - 1) as nat);
        }
    }

    /// What the block at `height` issues.
    pub fn subsidy(&self, height: u64) -> (amount: u64)
        requires
            self.valid(),
        ensures
            amount == self.subsidy_at(height as nat),
            amount <= self.initial,
    {
        let epoch = height / self.interval;
        proof {
            lemma_pow2_pos(epoch as nat);
            assert(self.initial as nat / pow2(epoch as nat) <= self.initial) by (nonlinear_arith)
                requires
                    pow2(epoch as nat) > 0,
            ;
        }
        if epoch < 64 {
            proof {
                lemma_u64_shr_is_div(self.initial, epoch);
            }
            self.initial >> epoch
        } else {
            proof {
                lemma2_to64_rest();
                if epoch > 64 {
                    lemma_pow2_strictly_increases(64, epoch as nat);
                }
                lemma_basic_div(self.initial as int, pow2(epoch as nat) as int);
            }
            0
        }
    }

    /// The number of the first unit that the block at `height` issues.
    pub fn starting_unit(&self, height: u64) -> (unit: u64)
        requires
            self.valid(),
        ensures
            unit == self.first_unit(height as nat),
            unit + self.subsidy_at(height as nat) <= self.supply_bound(),
    {
        let epoch = height / self.interval;
        let blocks = height % self.interval;
        let full: u64 = if epoch < 64 {
            epoch
        } else {
            64
        };
        let ghost span = self.interval as nat;
        let mut total: u64 = 0;
        let mut e: u64 = 0;
        proof {
            self.lemma_epoch_bound(0);
            assert(0 * span == 0);
        }
        while e < full
            invariant
                self.valid(),
                span == self.interval as nat,
                e <= full <= 64,
                total == self.first_unit(e as nat * span),
            decreases full - e,
        {
            proof {
                self.lemma_epoch_bound(e as nat);
                self.lemma_within_epoch(e as nat, span);
                lemma_u64_shr_is_div(self.initial, e);
                assert(e as nat * span + span == (e + 1) as nat * span) by (nonlinear_arith);
            }
            total = total + self.interval * (self.initial >> e);
            e = e + 1;
        }
        proof {
            lemma_fundamental_div_mod(height as int, self.interval as int);
            assert(span * epoch as nat == epoch as nat * span) by (nonlinear_arith);
        }
        if epoch < 64 {
            proof {
                self.lemma_epoch_bound(epoch as nat);
                self.lemma_within_epoch(epoch as nat, blocks as nat);
                lemma_u64_shr_is_div(self.initial, epoch);
                let each = self.epoch_subsidy(epoch as nat);
                assert(blocks as nat * each + each <= span * each) by (nonlinear_arith)
                    requires
                        blocks as nat + 1 <= span,
                ;
                assert(self.subsidy_at(height as nat) == each) by {
                    lemma_fundamental_div_mod_converse(
                        height as int,
                        self.interval as int,
                        epoch as int,
                        blocks as int,
                    );
                }
            }
            total = total + blocks * (self.initial >> epoch);
        } else {
            proof {
                assert(height as nat >= 64 * span) by (nonlinear_arith)
                    requires
                        height as nat == span * epoch as nat + blocks as nat,
                        epoch >= 64,
                ;
                self.lemma_exhausted(height as nat);
                self.lemma_epoch_bound(64);
                assert(span * 0 == 0);
            }
        }
        total
    }

    /// The units that the block at `height` issues.
    pub fn issued(&self, height: u64) -> (range: UnitRange)
        requires
            self.valid(),
        ensures
            range.start == self.first_unit(height as nat),
            range.end == self.first_unit(height as nat + 1),
            range.start <= range.end,
    {
        let start = self.starting_unit(height);
        let amount = self.subsidy(height);
        UnitRange { start, end: start + amount }
    }
}

} // verus!
