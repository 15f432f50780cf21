//! Fixed-point gain arithmetic for the mixer. A channel's volume is kept in
//! hundredths of a percent (so 100% is 10_000) and its stereo balance in
//! hundredths of a unit (so the conceptual range [-1, 1] is [-100, 100]).
//! Every gain is an exact rational `num / den`; samples are scaled integers.

use vstd::prelude::*;

verus! {

/// Volume unit: stored value 10_000 means a linear multiplier of 1.
pub const VOL_DEN: i64 = 10_000;

/// Balance unit: stored value 100 means 1.
pub const BAL_DEN: i64 = 100;

/// Largest storable volume: 10_000.00 percent.
pub const VOL_MAX: i64 = 1_000_000;

/// Largest storable balance magnitude: 100.00 units.
pub const BAL_MAX: i64 = 10_000;

/// Largest sample magnitude the mixer accepts.
pub const SAMPLE_MAX: i64 = 1_000_000_000_000;

/// `VOL_DEN * VOL_DEN`, the denominator of a combined volume gain.
pub const VOL_DEN2: i128 = 100_000_000;

/// `VOL_MAX * VOL_MAX`, the largest numerator of a combined volume gain.
pub const VOL_NUM2: i128 = 1_000_000_000_000;

/// `BAL_DEN * BAL_DEN`, the denominator of a combined balance component.
pub const BAL_DEN2: i128 = 10_000;

/// `(BAL_DEN + BAL_MAX)^2`, the largest magnitude of a combined balance
/// component's numerator.
pub const BAL_NUM2: i128 = 102_010_000;

/// `VOL_NUM2 * BAL_NUM2`, the largest numerator magnitude the sample path
/// accepts.
pub const MIX_NUM_MAX: i128 = 102_010_000_000_000_000_000;

/// `VOL_DEN2 * BAL_DEN2`, the largest denominator the sample path accepts.
pub const MIX_DEN_MAX: i128 = 1_000_000_000_000;

/// An exact rational linear gain.
#[derive(Clone, Copy, PartialEq, Eq, Structural, Debug)]
pub struct Gain {
    pub num: i128,
    pub den: i128,
}

impl Gain {
    /// One channel's volume gain: at most `VOL_MAX / VOL_DEN`.
    pub open spec fn vol1_wf(&self) -> bool {
        &&& self.den == VOL_DEN
        &&& 0 <= self.num <= VOL_MAX
    }

    /// A volume gain, single or the product of two (bus mixing combines the
    /// input's and the output's volume).
    pub open spec fn volg_wf(&self) -> bool {
        &&& (self.den == VOL_DEN || self.den == VOL_DEN2)
        &&& 0 <= self.num <= VOL_NUM2
    }

    /// One channel's balance component: magnitude at most
    /// `(BAL_DEN + BAL_MAX) / BAL_DEN`.
    pub open spec fn bal1_wf(&self) -> bool {
        &&& self.den == BAL_DEN
        &&& -(BAL_DEN + BAL_MAX) <= self.num <= BAL_DEN + BAL_MAX
    }

    /// A balance component, single or the product of two.
    pub open spec fn balg_wf(&self) -> bool {
        &&& (self.den == BAL_DEN || self.den == BAL_DEN2)
        &&& -BAL_NUM2 <= self.num <= BAL_NUM2
    }

    /// A gain the sample path accepts: any product of a (possibly combined)
    /// volume gain and a (possibly combined) balance component, or such a
    /// volume gain alone.
    pub open spec fn mix_wf(&self) -> bool {
        &&& 0 < self.den <= MIX_DEN_MAX
        &&& -MIX_NUM_MAX <= self.num <= MIX_NUM_MAX
    }
}

/// Every volume gain is accepted by the sample path.
pub proof fn lemma_vol_gain_mixes(g: Gain)
    requires
        g.volg_wf(),
    ensures
        g.mix_wf(),
{
}

/// The linear multiplier of a stored volume: `vol / 10_000`, which is
/// `percent / 100`.
pub open spec fn spec_vol_gain(vol: int) -> Gain {
    Gain { num: vol as i128, den: VOL_DEN as i128 }
}

/// The pair of left/right multipliers of a stored balance `b`:
/// `(1 + b, 1 - b)` in balance units of 100.
pub open spec fn spec_bal_pair(b: int) -> (Gain, Gain) {
    (
        Gain { num: (BAL_DEN + b) as i128, den: BAL_DEN as i128 },
        Gain { num: (BAL_DEN - b) as i128, den: BAL_DEN as i128 },
    )
}

pub fn vol_gain(vol: i64) -> (g: Gain)
    requires
        0 <= vol <= VOL_MAX,
    ensures
        g == spec_vol_gain(vol as int),
        g.vol1_wf(),
        g.volg_wf(),
{
    Gain { num: vol as i128, den: VOL_DEN as i128 }
}

pub fn bal_pair(b: i64) -> (p: (Gain, Gain))
    requires
        -BAL_MAX <= b <= BAL_MAX,
    ensures
        p == spec_bal_pair(b as int),
        p.0.bal1_wf() && p.0.balg_wf(),
        p.1.bal1_wf() && p.1.balg_wf(),
{
    (
        Gain { num: (BAL_DEN + b) as i128, den: BAL_DEN as i128 },
        Gain { num: (BAL_DEN - b) as i128, den: BAL_DEN as i128 },
    )
}

/// The two balance multipliers always sum to exactly 2 (as rationals over the
/// common denominator), and balance 0 gives the unit pair (1, 1).
pub proof fn lemma_balance_pair(b: int)
    requires
        -BAL_MAX <= b <= BAL_MAX,
    ensures
        spec_bal_pair(b).0.num == BAL_DEN + b,
        spec_bal_pair(b).1.num == BAL_DEN - b,
        spec_bal_pair(b).0.den == BAL_DEN && spec_bal_pair(b).1.den == BAL_DEN,
        spec_bal_pair(b).0.num + spec_bal_pair(b).1.num == 2 * BAL_DEN,
        b == 0 ==> spec_bal_pair(b).0.num == BAL_DEN && spec_bal_pair(b).1.num == BAL_DEN,
{
}

/// The exact product of two rational gains.
pub open spec fn spec_gain_mul(a: Gain, b: Gain) -> Gain {
    Gain { num: (a.num * b.num) as i128, den: (a.den * b.den) as i128 }
}

/// Multiply a (possibly combined) volume gain with a (possibly combined)
/// balance component: the exact gain one buffer contribution is scaled by.
pub fn gain_mul(a: Gain, b: Gain) -> (r: Gain)
    requires
        a.volg_wf(),
        b.balg_wf(),
    ensures
        r == spec_gain_mul(a, b),
        r.mix_wf(),
{
    proof {
        lemma_mul_bounds(a.num as int, VOL_NUM2 as int, b.num as int, BAL_NUM2 as int);
        lemma_mul_bounds(a.den as int, VOL_DEN2 as int, b.den as int, BAL_DEN2 as int);
        assert(VOL_NUM2 * BAL_NUM2 == MIX_NUM_MAX) by (nonlinear_arith);
        assert(VOL_DEN2 * BAL_DEN2 == MIX_DEN_MAX) by (nonlinear_arith);
        assert(a.den * b.den > 0) by (nonlinear_arith)
            requires
                a.den > 0,
                b.den > 0,
        ;
    }
    Gain { num: a.num * b.num, den: a.den * b.den }
}

/// Combine the volume gains of an input channel and of the output bus it
/// feeds.
pub fn vol_mul(a: Gain, b: Gain) -> (r: Gain)
    requires
        a.vol1_wf(),
        b.vol1_wf(),
    ensures
        r == spec_gain_mul(a, b),
        r.volg_wf(),
{
    proof {
        lemma_mul_bounds(a.num as int, VOL_MAX as int, b.num as int, VOL_MAX as int);
        assert((VOL_MAX as int) * (VOL_MAX as int) == VOL_NUM2) by (nonlinear_arith);
        assert((VOL_DEN as int) * (VOL_DEN as int) == VOL_DEN2) by (nonlinear_arith);
        assert(a.num * b.num >= 0) by (nonlinear_arith)
            requires
                a.num >= 0,
                b.num >= 0,
        ;
    }
    Gain { num: a.num * b.num, den: a.den * b.den }
}

/// Combine one balance component of an input channel and of the output bus
/// it feeds.
pub fn bal_mul(a: Gain, b: Gain) -> (r: Gain)
    requires
        a.bal1_wf(),
        b.bal1_wf(),
    ensures
        r == spec_gain_mul(a, b),
        r.balg_wf(),
{
    proof {
        lemma_mul_bounds(a.num as int, BAL_DEN + BAL_MAX, b.num as int, BAL_DEN + BAL_MAX);
        assert(((BAL_DEN + BAL_MAX) as int) * ((BAL_DEN + BAL_MAX) as int) == BAL_NUM2)
            by (nonlinear_arith);
        assert(((BAL_DEN) as int) * ((BAL_DEN) as int) == BAL_DEN2) by (nonlinear_arith);
    }
    Gain { num: a.num * b.num, den: a.den * b.den }
}

/// Magnitude bound of a product from magnitude bounds of its factors.
proof fn lemma_mul_bounds(a: int, ma: int, b: int, mb: int)
    requires
        -ma <= a <= ma,
        -mb <= b <= mb,
        0 <= ma,
        0 <= mb,
    ensures
        -(ma * mb) <= a * b <= ma * mb,
{
    assert(-(ma * mb) <= a * b <= ma * mb) by (nonlinear_arith)
        requires
            -ma <= a <= ma,
            -mb <= b <= mb,
            0 <= ma,
            0 <= mb,
    ;
}

/// Truncating division (round toward zero), for a positive divisor.
pub open spec fn div_trunc(p: int, d: int) -> int {
    if p >= 0 {
        p / d
    } else {
        -((-p) / d)
    }
}

/// Clamp to the representable sample range.
pub open spec fn clip_i64(v: int) -> int {
    if v > i64::MAX as int {
        i64::MAX as int
    } else if v < i64::MIN as int {
        i64::MIN as int
    } else {
        v
    }
}

/// One accumulation step of the mixer: add sample `s` scaled by `g` onto the
/// accumulator, saturating at the sample type's bounds.
pub open spec fn spec_scaled_add(acc: int, s: int, g: Gain) -> int {
    clip_i64(acc + div_trunc(s * g.num, g.den as int))
}

/// Add `s * g` onto `acc`, truncating the scaled value toward zero and
/// saturating the sum at the i64 bounds.
pub fn apply_gain_add(acc: i64, s: i64, g: Gain) -> (r: i64)
    requires
        g.mix_wf(),
        -SAMPLE_MAX <= s <= SAMPLE_MAX,
    ensures
        r == spec_scaled_add(acc as int, s as int, g),
{
    proof {
        lemma_mul_bounds(s as int, SAMPLE_MAX as int, g.num as int, MIX_NUM_MAX as int);
        assert((SAMPLE_MAX as int) * (MIX_NUM_MAX as int) < 0x7fff_ffff_ffff_ffff_ffff_ffff_ffff_ffff)
            by (nonlinear_arith);
    }
    let p: i128 = (s as i128) * g.num;
    let q: i128 = if p >= 0 {
        proof {
            lemma_div_bound(p as int, g.den as int);
        }
        p / g.den
    } else {
        proof {
            lemma_div_bound((-p) as int, g.den as int);
        }
        -((-p) / g.den)
    };
    let sum: i128 = (acc as i128) + q;
    if sum > (i64::MAX as i128) {
        i64::MAX
    } else if sum < (i64::MIN as i128) {
        i64::MIN
    } else {
        sum as i64
    }
}

/// For nonnegative `p` and positive `d`, the quotient is between 0 and `p`.
proof fn lemma_div_bound(p: int, d: int)
    requires
        p >= 0,
        d > 0,
    ensures
        0 <= p / d <= p,
{
    assert(0 <= p / d <= p) by (nonlinear_arith)
        requires
            p >= 0,
            d > 0,
    ;
}

} // verus!
