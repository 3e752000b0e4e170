//! From a buffer of samples to a loudness reading.
//!
//! The level of a buffer is the root mean square of its samples on a decibel
//! scale that is shifted to suit a gaming overlay: full scale reads 100, and
//! silence reads 0.
use crate::convert::of_int;
use crate::single::Single;
use vstd::prelude::*;

verus! {

/// The pattern of 0, the bottom of the scale.
pub const SILENCE_DB: u32 = 0x0000_0000;

/// The pattern of 120, the top of the scale.
pub const TOP_DB: u32 = 0x42f0_0000;

/// The pattern of 100, the reading at full scale.
pub const FULL_SCALE_DB: u32 = 0x42c8_0000;

/// The pattern of 20, decibels per decade of amplitude.
pub const DB_PER_DECADE: u32 = 0x41a0_0000;

/// The pattern of 1, the amplitude at full scale.
pub const FULL_SCALE: u32 = 0x3f80_0000;

/// The pattern of 2, the amplitude from which on a buffer counts as clipping.
pub const CLIPPING: u32 = 0x4000_0000;

/// The sum of the squares of the samples, added from the first to the last.
pub open spec fn square_sum(samples: Seq<Single>) -> Single
    decreases samples.len(),
{
    if samples.len() == 0 {
        Single { bits: 0 }
    } else {
        square_sum(samples.drop_last()).plus(samples.last().times(samples.last()))
    }
}

/// The root mean square of a buffer.
pub open spec fn root_mean_square(samples: Seq<Single>) -> Single {
    square_sum(samples).over(of_int(samples.len() as int)).root()
}

/// A reading, or the amplitude whose decimal logarithm is still needed for it.
#[derive(Clone, Copy, Debug, PartialEq, Eq, Structural)]
pub enum Level {
    /// The reading in dB.
    Reading(Single),
    /// The reading is [`db_from_log10`] of the decimal logarithm of this amplitude.
    LogOf(Single),
}

/// The level of a buffer: silence for one that is empty or whose amplitude is not
/// above zero, the top of the scale for one that clips, at twice full scale or more, and
/// else the logarithmic reading of its amplitude.
pub open spec fn level(samples: Seq<Single>) -> Level {
    let amplitude = root_mean_square(samples);
    if samples.len() == 0 || (!amplitude.is_nan() && amplitude.rank() <= 0) {
        Level::Reading(Single { bits: SILENCE_DB })
    } else if !amplitude.is_nan() && !amplitude.below(Single { bits: CLIPPING }) {
        Level::Reading(Single { bits: TOP_DB })
    } else {
        Level::LogOf(amplitude)
    }
}

/// `20 * log + 100`, held within the scale.
pub open spec fn reading(log: Single) -> Single {
    (Single { bits: DB_PER_DECADE }).fused(log, Single { bits: FULL_SCALE_DB }).clamped(
        Single { bits: SILENCE_DB },
        Single { bits: TOP_DB },
    )
}

/// Computes the root mean square of a buffer of normalised samples and places it
/// on the decibel scale, up to the logarithm.
pub fn rms_to_db(samples: &[Single]) -> (r: Level)
    ensures
        r == level(samples@),
{
    let n: usize = samples.len();
    if n == 0 {
        return Level::Reading(Single { bits: SILENCE_DB });
    }
    let mut sum: Single = Single { bits: 0 };
    let mut i: usize = 0;
    while i < n
        invariant
            i <= n,
            n == samples@.len(),
            sum == square_sum(samples@.take(i as int)),
        decreases n - i,
    {
        let x: Single = samples[i];
        sum = sum.add(x.mul(x));
        proof {
            assert(samples@.take(i + 1).drop_last() == samples@.take(i as int));
        }
        i = i + 1;
    }
    proof {
        assert(samples@.take(n as int) == samples@);
    }
    let amplitude: Single = sum.div(Single::from_usize(n)).sqrt();
    let zero: Single = Single { bits: 0 };
    if !amplitude.is_a_nan() && !zero.is_below(amplitude) {
        Level::Reading(Single { bits: SILENCE_DB })
    } else if !amplitude.is_a_nan() && !amplitude.is_below(Single { bits: CLIPPING }) {
        Level::Reading(Single { bits: TOP_DB })
    } else {
        Level::LogOf(amplitude)
    }
}

/// The reading for an amplitude with the decimal logarithm `log`.
pub fn db_from_log10(log: Single) -> (r: Single)
    ensures
        r == reading(log),
{
    (Single { bits: DB_PER_DECADE }).mul_add(log, Single { bits: FULL_SCALE_DB }).clamp(
        Single { bits: SILENCE_DB },
        Single { bits: TOP_DB },
    )
}

} // verus!
