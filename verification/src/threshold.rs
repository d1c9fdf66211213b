//! The threshold sampler: a first pass adds up the capped weights of the
//! rows, a second pass accepts each row on its own, with a probability in
//! proportion to its capped weight.
//!
//! All numbers are exact. A weight is a count of units, of which `unit` make
//! the weight one. A draw `d` stands for the number `d / 2^32`, which lies in
//! the half-open interval from zero to one.
//!
//! With `n` rows wanted, the capped weight of a row is its weight, or the
//! `n`-th part of one where the weight is above that. The threshold of a row
//! is `n` times its capped weight over the sum of all capped weights, or one
//! where that is more. To stay with whole numbers, a capped weight is held as
//! its mass: the capped weight times `n`, in units. Over the total of the
//! masses, the threshold of a row is `n` times its mass.

use crate::binary64::{law_larger_numbers_hold_more_units, Binary64};
use crate::error::SampleError;
use crate::selection::{Selection, Standing};
use csv::StringRecord;
use vstd::prelude::*;

verus! {

/// The number of values that a draw can take.
pub const DRAWS: u64 = 0x1_0000_0000;

/// The capped weight of a row, times `n`, in units. A weight `w` with
/// `w * n` above one is cut down to the `n`-th part of one, so that no row
/// asks for more than a whole place in the sample.
pub open spec fn capped_mass(weight: u64, n: u32, unit: u32) -> nat {
    if weight * n > unit {
        unit as nat
    } else {
        (weight * n) as nat
    }
}

/// The sum of the capped masses of the rows with the given weights.
pub open spec fn total_mass(weights: Seq<u64>, n: u32, unit: u32) -> nat
    decreases weights.len(),
{
    if weights.len() == 0 {
        0
    } else {
        total_mass(weights.drop_last(), n, unit) + capped_mass(weights.last(), n, unit)
    }
}

/// The probability with which a row is accepted, times `total`: its
/// threshold is its capped mass times `n` over the total, and at most one.
pub open spec fn chance(weight: u64, n: u32, unit: u32, total: nat) -> nat {
    if capped_mass(weight, n, unit) * n > total {
        total
    } else {
        (capped_mass(weight, n, unit) * n) as nat
    }
}

/// Whether a row is accepted: whether its draw lies below its threshold,
/// that is `draw / 2^32 < chance / total`.
pub open spec fn accepts(weight: u64, draw: u32, n: u32, unit: u32, total: nat) -> bool {
    draw * total < chance(weight, n, unit, total) * DRAWS
}

/// The expected number of accepted rows, times `total`: the sum of the
/// chances of the rows.
pub open spec fn expected_count(weights: Seq<u64>, n: u32, unit: u32, total: nat) -> nat
    decreases weights.len(),
{
    if weights.len() == 0 {
        0
    } else {
        expected_count(weights.drop_last(), n, unit, total) + chance(
            weights.last(),
            n,
            unit,
            total,
        )
    }
}

fn mass_of(weight: u64, n: u32, unit: u32) -> (out: u64)
    ensures
        out == capped_mass(weight, n, unit),
        out <= unit,
{
    assert(weight * n <= 0xffff_ffff_ffff_ffff * 0xffff_ffff) by (nonlinear_arith)
        requires
            weight <= 0xffff_ffff_ffff_ffff,
            n <= 0xffff_ffff,
    ;
    let product: u128 = (weight as u128) * (n as u128);
    if product > unit as u128 {
        unit as u64
    } else {
        product as u64
    }
}

/// The first pass: the sum of the capped masses of the rows seen so far.
pub struct Normalizer {
    selection: Selection,
    n: u32,
    unit: u32,
    total: u128,
    seen: usize,
    weights: Ghost<Seq<u64>>,
}

/// The second pass: the total that the first pass found, by which every
/// row's threshold is set.
pub struct ThresholdSampler {
    selection: Selection,
    n: u32,
    unit: u32,
    total: u128,
    expected: u128,
    decided: usize,
    weights: Ghost<Seq<u64>>,
}

impl Normalizer {
    /// The identifiers forced in and out.
    pub closed spec fn selection(&self) -> Selection {
        self.selection
    }

    /// The number of rows wanted.
    pub closed spec fn wanted(&self) -> u32 {
        self.n
    }

    /// The number of units that make the weight one.
    pub closed spec fn unit(&self) -> u32 {
        self.unit
    }

    /// The weights of the rows counted so far: those that were not excluded.
    pub closed spec fn weights(&self) -> Seq<u64> {
        self.weights@
    }

    /// The invariant of the first pass: the total is the sum of the capped
    /// masses of the rows counted.
    pub closed spec fn wf(&self) -> bool {
        &&& self.n >= 1
        &&& self.unit >= 1
        &&& self.seen == self.weights@.len()
        &&& self.total == total_mass(self.weights@, self.n, self.unit)
        &&& self.total <= self.seen * self.unit
    }

    /// The start of the first pass, for a sample of about `n` rows.
    pub fn new(selection: Selection, n: u32, unit: u32) -> (out: Normalizer)
        requires
            n >= 1,
            unit >= 1,
        ensures
            out.wf(),
            out.selection() == selection,
            out.wanted() == n,
            out.unit() == unit,
            out.weights() == Seq::<u64>::empty(),
    {
        Normalizer { selection, n, unit, total: 0, seen: 0, weights: Ghost(Seq::empty()) }
    }

    /// Tells how a row stands with the lists of this pass.
    pub fn standing(&self, record: &StringRecord) -> (out: Option<Standing>)
        ensures
            out == self.selection().standing_of(*record),
    {
        self.selection.standing(record)
    }

    /// Counts one row in: its capped mass is added to the total, unless the
    /// row is excluded. Tells whether the row was counted.
    pub fn observe(&mut self, record: &StringRecord, weight: u64) -> (out: Result<
        bool,
        SampleError,
    >)
        requires
            old(self).wf(),
            old(self).weights().len() < usize::MAX,
        ensures
            final(self).wf(),
            final(self).selection() == old(self).selection(),
            final(self).wanted() == old(self).wanted(),
            final(self).unit() == old(self).unit(),
            match old(self).selection().standing_of(*record) {
                None => {
                    &&& out == Err::<bool, SampleError>(SampleError::NoIdentifier)
                    &&& final(self).weights() == old(self).weights()
                },
                Some(Standing::Excluded) => {
                    &&& out == Ok::<bool, SampleError>(false)
                    &&& final(self).weights() == old(self).weights()
                },
                Some(_) => {
                    &&& out == Ok::<bool, SampleError>(true)
                    &&& final(self).weights() == old(self).weights().push(weight)
                },
            },
    {
        match self.selection.standing(record) {
            None => Err(SampleError::NoIdentifier),
            Some(Standing::Excluded) => Ok(false),
            Some(_) => {
                let mass: u64 = mass_of(weight, self.n, self.unit);
                proof {
                    assert(self.weights@.push(weight).drop_last() =~= self.weights@);
                    assert(self.seen * self.unit + self.unit == (self.seen + 1) * self.unit)
                        by (nonlinear_arith);
                    assert(self.seen * self.unit <= 0xffff_ffff_ffff_ffff * 0xffff_ffff)
                        by (nonlinear_arith)
                        requires
                            self.seen <= 0xffff_ffff_ffff_ffff,
                            self.unit <= 0xffff_ffff,
                    ;
                }
                self.total = self.total + mass as u128;
                self.seen = self.seen + 1;
                self.weights = Ghost(self.weights@.push(weight));
                Ok(true)
            },
        }
    }

    /// Ends the first pass. A total of zero leaves every threshold
    /// undefined and is an error.
    pub fn finish(self) -> (out: Result<ThresholdSampler, SampleError>)
        requires
            self.wf(),
        ensures
            match out {
                Ok(sampler) => {
                    &&& total_mass(self.weights(), self.wanted(), self.unit()) > 0
                    &&& sampler.wf()
                    &&& sampler.selection() == self.selection()
                    &&& sampler.wanted() == self.wanted()
                    &&& sampler.unit() == self.unit()
                    &&& sampler.total() == total_mass(self.weights(), self.wanted(), self.unit())
                    &&& sampler.weights() == Seq::<u64>::empty()
                },
                Err(error) => {
                    &&& total_mass(self.weights(), self.wanted(), self.unit()) == 0
                    &&& error == SampleError::DegenerateNormalization
                },
            },
    {
        if self.total == 0 {
            Err(SampleError::DegenerateNormalization)
        } else {
            proof {
                assert(self.seen * self.unit <= 0xffff_ffff_ffff_ffff * 0xffff_ffff)
                    by (nonlinear_arith)
                    requires
                        self.seen <= 0xffff_ffff_ffff_ffff,
                        self.unit <= 0xffff_ffff,
                ;
            }
            Ok(
                ThresholdSampler {
                    selection: self.selection,
                    n: self.n,
                    unit: self.unit,
                    total: self.total,
                    expected: 0,
                    decided: 0,
                    weights: Ghost(Seq::empty()),
                },
            )
        }
    }
}

impl ThresholdSampler {
    /// The identifiers forced in and out.
    pub closed spec fn selection(&self) -> Selection {
        self.selection
    }

    /// The number of rows wanted.
    pub closed spec fn wanted(&self) -> u32 {
        self.n
    }

    /// The number of units that make the weight one.
    pub closed spec fn unit(&self) -> u32 {
        self.unit
    }

    /// The sum of the capped masses that the first pass found.
    pub closed spec fn total(&self) -> nat {
        self.total as nat
    }

    /// The weights of the rows decided so far: those that were not excluded.
    pub closed spec fn weights(&self) -> Seq<u64> {
        self.weights@
    }

    /// The invariant of the second pass: the total is not zero, and the
    /// expected count is the sum of the chances of the rows decided.
    pub closed spec fn wf(&self) -> bool {
        &&& self.n >= 1
        &&& self.unit >= 1
        &&& 0 < self.total <= 0xffff_ffff_ffff_ffff * 0xffff_ffff
        &&& self.decided == self.weights@.len()
        &&& self.expected == expected_count(self.weights@, self.n, self.unit, self.total as nat)
        &&& self.expected <= self.decided * (0xffff_ffff * 0xffff_ffff)
    }

    /// Tells how a row stands with the lists of this pass.
    pub fn standing(&self, record: &StringRecord) -> (out: Option<Standing>)
        ensures
            out == self.selection().standing_of(*record),
    {
        self.selection.standing(record)
    }

    /// The expected number of accepted rows among those decided so far,
    /// times the total: the sum of their chances.
    pub fn expected(&self) -> (out: u128)
        requires
            self.wf(),
        ensures
            out == expected_count(self.weights(), self.wanted(), self.unit(), self.total()),
    {
        self.expected
    }

    /// The sum of the capped masses that the first pass found.
    pub fn normalizer(&self) -> (out: u128)
        ensures
            out == self.total(),
    {
        self.total
    }

    /// Decides on one row of the second pass: an excluded row is never
    /// accepted, another row exactly when its draw lies below its threshold.
    pub fn decide(&mut self, record: &StringRecord, weight: u64, draw: u32) -> (out: Result<
        bool,
        SampleError,
    >)
        requires
            old(self).wf(),
            old(self).weights().len() < usize::MAX,
        ensures
            final(self).wf(),
            final(self).selection() == old(self).selection(),
            final(self).wanted() == old(self).wanted(),
            final(self).unit() == old(self).unit(),
            final(self).total() == old(self).total(),
            match old(self).selection().standing_of(*record) {
                None => {
                    &&& out == Err::<bool, SampleError>(SampleError::NoIdentifier)
                    &&& final(self).weights() == old(self).weights()
                },
                Some(Standing::Excluded) => {
                    &&& out == Ok::<bool, SampleError>(false)
                    &&& final(self).weights() == old(self).weights()
                },
                Some(_) => {
                    &&& out == Ok::<bool, SampleError>(
                        accepts(
                            weight,
                            draw,
                            old(self).wanted(),
                            old(self).unit(),
                            old(self).total(),
                        ),
                    )
                    &&& final(self).weights() == old(self).weights().push(weight)
                },
            },
    {
        match self.selection.standing(record) {
            None => Err(SampleError::NoIdentifier),
            Some(Standing::Excluded) => Ok(false),
            Some(_) => {
                let mass: u64 = mass_of(weight, self.n, self.unit);
                assert(mass * self.n <= 0xffff_ffff * 0xffff_ffff) by (nonlinear_arith)
                    requires
                        mass <= 0xffff_ffff,
                        self.n <= 0xffff_ffff,
                ;
                let asked: u128 = (mass as u128) * (self.n as u128);
                let chance: u128 = if asked > self.total {
                    self.total
                } else {
                    asked
                };
                assert(chance * DRAWS <= 0xffff_ffff * 0xffff_ffff * 0x1_0000_0000)
                    by (nonlinear_arith)
                    requires
                        chance <= 0xffff_ffff * 0xffff_ffff,
                ;
                assert(draw * self.total <= 0xffff_ffff * (0xffff_ffff_ffff_ffff * 0xffff_ffff))
                    by (nonlinear_arith)
                    requires
                        draw <= 0xffff_ffff,
                        self.total <= 0xffff_ffff_ffff_ffff * 0xffff_ffff,
                ;
                proof {
                    assert(self.weights@.push(weight).drop_last() =~= self.weights@);
                    assert(self.decided * (0xffff_ffff * 0xffff_ffff) + 0xffff_ffff * 0xffff_ffff
                        == (self.decided + 1) * (0xffff_ffff * 0xffff_ffff)) by (nonlinear_arith);
                    assert(self.decided * (0xffff_ffff * 0xffff_ffff) <= 0xffff_ffff_ffff_ffff * (
                    0xffff_ffff * 0xffff_ffff)) by (nonlinear_arith)
                        requires
                            self.decided <= 0xffff_ffff_ffff_ffff,
                    ;
                }
                self.expected = self.expected + chance;
                self.decided = self.decided + 1;
                self.weights = Ghost(self.weights@.push(weight));
                Ok((draw as u128) * self.total < chance * (DRAWS as u128))
            },
        }
    }
}

/// A heavier row has no smaller capped mass.
proof fn lemma_capped_mass_grows(lighter: u64, heavier: u64, n: u32, unit: u32)
    requires
        lighter <= heavier,
    ensures
        capped_mass(lighter, n, unit) <= capped_mass(heavier, n, unit),
{
    assert(lighter * n <= heavier * n) by (nonlinear_arith)
        requires
            lighter <= heavier,
    ;
}

/// Raising the weight of one row, all else unchanged, never lowers the
/// probability with which it is accepted, and with its draw unchanged never
/// turns its acceptance into a rejection. `others` is the capped mass of the
/// other rows; the probability of a row is its chance over the total.
pub proof fn law_heavier_rows_are_likelier(
    lighter: u64,
    heavier: u64,
    others: nat,
    draw: u32,
    n: u32,
    unit: u32,
)
    requires
        lighter <= heavier,
        n >= 1,
    ensures
        ({
            let low = others + capped_mass(lighter, n, unit);
            let high = others + capped_mass(heavier, n, unit);
            &&& chance(lighter, n, unit, low) * high <= chance(heavier, n, unit, high) * low
            &&& accepts(lighter, draw, n, unit, low) ==> accepts(heavier, draw, n, unit, high)
        }),
{
    lemma_capped_mass_grows(lighter, heavier, n, unit);
    let c1 = capped_mass(lighter, n, unit) as int;
    let c2 = capped_mass(heavier, n, unit) as int;
    let r = others as int;
    let low = r + c1;
    let high = r + c2;
    let odds_low = chance(lighter, n, unit, low as nat) as int;
    let odds_high = chance(heavier, n, unit, high as nat) as int;
    let d = draw as int;
    let m = n as int;
    assert(odds_low <= low && odds_low <= c1 * m);
    assert(c1 <= c1 * m) by (nonlinear_arith)
        requires
            m >= 1,
            c1 >= 0,
    ;
    if c2 * m > high {
        assert(odds_low * high <= high * low) by (nonlinear_arith)
            requires
                odds_low <= low,
                high >= 0,
        ;
    } else {
        assert(c1 * m * high <= c2 * m * low) by (nonlinear_arith)
            requires
                0 <= c1 <= c2,
                r >= 0,
                m >= 1,
                low == r + c1,
                high == r + c2,
        ;
        assert(odds_low * high <= c1 * m * high) by (nonlinear_arith)
            requires
                odds_low <= c1 * m,
                high >= 0,
        ;
    }
    assert(odds_low * high <= odds_high * low);
    if accepts(lighter, draw, n, unit, low as nat) {
        assert(d * low < odds_low * DRAWS);
        assert(low > 0) by (nonlinear_arith)
            requires
                d * low < odds_low * DRAWS,
                odds_low <= low,
                d >= 0,
                low >= 0,
        ;
        assert(d * high < odds_high * DRAWS) by (nonlinear_arith)
            requires
                d * low < odds_low * DRAWS,
                odds_low * high <= odds_high * low,
                low > 0,
                high >= low,
                d >= 0,
                odds_low >= 0,
                odds_high >= 0,
        ;
    }
}

/// The same of weights given as numbers: of two rows, the one whose weight
/// is the larger number is accepted with no smaller probability, and wherever
/// the other is accepted at the same draw.
pub proof fn law_larger_weights_are_likelier(
    lighter: Binary64,
    heavier: Binary64,
    others: nat,
    draw: u32,
    n: u32,
    unit: u32,
)
    requires
        !lighter.is_nan(),
        !heavier.is_nan(),
        lighter.rank() <= heavier.rank(),
        n >= 1,
    ensures
        ({
            let light = lighter.units(unit);
            let heavy = heavier.units(unit);
            let low = others + capped_mass(light, n, unit);
            let high = others + capped_mass(heavy, n, unit);
            &&& chance(light, n, unit, low) * high <= chance(heavy, n, unit, high) * low
            &&& accepts(light, draw, n, unit, low) ==> accepts(heavy, draw, n, unit, high)
        }),
{
    law_larger_numbers_hold_more_units(lighter, heavier, unit);
    law_heavier_rows_are_likelier(lighter.units(unit), heavier.units(unit), others, draw, n, unit);
}

/// The chances of the rows add up to no more than `n` times their capped
/// masses, whatever the total.
proof fn lemma_expected_count_bound(weights: Seq<u64>, n: u32, unit: u32, total: nat)
    ensures
        expected_count(weights, n, unit, total) <= n * total_mass(weights, n, unit),
    decreases weights.len(),
{
    if weights.len() > 0 {
        lemma_expected_count_bound(weights.drop_last(), n, unit, total);
        let rest = total_mass(weights.drop_last(), n, unit) as int;
        let mass = capped_mass(weights.last(), n, unit) as int;
        assert(n * (rest + mass) == n * rest + mass * n) by (nonlinear_arith);
    }
}

/// Where no row's threshold is cut down to one, the chances add up to
/// exactly `n` times the capped masses.
proof fn lemma_expected_count_exact(weights: Seq<u64>, n: u32, unit: u32, total: nat)
    requires
        forall|i: int|
            0 <= i < weights.len() ==> capped_mass(#[trigger] weights[i], n, unit) * n <= total,
    ensures
        expected_count(weights, n, unit, total) == n * total_mass(weights, n, unit),
    decreases weights.len(),
{
    if weights.len() > 0 {
        let front = weights.drop_last();
        assert forall|i: int| 0 <= i < front.len() implies capped_mass(
            #[trigger] front[i],
            n,
            unit,
        ) * n <= total by {
            assert(front[i] == weights[i]);
        }
        lemma_expected_count_exact(front, n, unit, total);
        let rest = total_mass(front, n, unit) as int;
        let mass = capped_mass(weights.last(), n, unit) as int;
        assert(weights.last() == weights[weights.len() - 1]);
        assert(n * (rest + mass) == n * rest + mass * n) by (nonlinear_arith);
    } else {
        assert(n * 0 == 0);
    }
}

/// The expected size of the sample: with the total of the first pass, the
/// expected number of accepted rows is at most `n`, and exactly `n` where no
/// row's threshold is cut down to one. The expected number is the sum of the
/// chances over the total.
pub proof fn law_expected_size(weights: Seq<u64>, n: u32, unit: u32)
    ensures
        ({
            let total = total_mass(weights, n, unit);
            &&& expected_count(weights, n, unit, total) <= n * total
            &&& (forall|i: int|
                0 <= i < weights.len() ==> capped_mass(#[trigger] weights[i], n, unit) * n
                    <= total) ==> expected_count(weights, n, unit, total) == n * total
        }),
{
    let total = total_mass(weights, n, unit);
    lemma_expected_count_bound(weights, n, unit, total);
    if forall|i: int|
        0 <= i < weights.len() ==> capped_mass(#[trigger] weights[i], n, unit) * n <= total {
        lemma_expected_count_exact(weights, n, unit, total);
    }
}

} // verus!
