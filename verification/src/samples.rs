//! Samples of the formats that input devices deliver.
use crate::convert::narrowed;
use crate::convert::of_int;
use crate::level::FULL_SCALE;
use crate::single::Single;
use vstd::prelude::*;

verus! {

/// The sample format of an input device.
#[derive(Clone, Copy, Debug, PartialEq, Eq, Structural)]
pub enum SampleFormat {
    F64,
    I32,
    F32,
    I16,
    U16,
    /// A format that is not read.
    Other,
}

impl SampleFormat {
    /// Whether samples of this format are read.
    pub open spec fn supported(self) -> bool {
        self != SampleFormat::Other
    }

    /// Whether samples of this format are read.
    pub fn is_supported(self) -> (r: bool)
        ensures
            r == self.supported(),
    {
        match self {
            SampleFormat::Other => false,
            _ => true,
        }
    }
}

/// The pattern of -1, full scale below zero.
pub const NEGATIVE_FULL_SCALE: u32 = 0xbf80_0000;

/// A signed 16-bit sample as a fraction of full scale. The lowest one has no
/// counterpart above zero, and is held at full scale.
pub open spec fn fraction_i16(s: i16) -> Single {
    of_int(s as int).over(of_int(i16::MAX as int)).clamped(
        Single { bits: NEGATIVE_FULL_SCALE },
        Single { bits: FULL_SCALE },
    )
}

/// A signed 32-bit sample as a fraction of full scale.
pub open spec fn fraction_i32(s: i32) -> Single {
    of_int(s as int).over(of_int(i32::MAX as int))
}

/// An unsigned 16-bit sample, whose middle is silence, as a fraction of full scale.
pub open spec fn fraction_u16(s: u16) -> Single {
    of_int(s as int).minus(of_int(0x8000)).over(of_int(0x8000))
}

/// Normalises signed 16-bit samples.
pub fn normalise_i16(data: &[i16]) -> (r: Vec<Single>)
    ensures
        r@ == data@.map_values(|s: i16| fraction_i16(s)),
{
    let scale: Single = Single::from_i32(i16::MAX as i32);
    let low: Single = Single { bits: NEGATIVE_FULL_SCALE };
    let high: Single = Single { bits: FULL_SCALE };
    let mut r: Vec<Single> = Vec::new();
    let mut i: usize = 0;
    while i < data.len()
        invariant
            i <= data@.len(),
            scale == of_int(i16::MAX as int),
            low.bits == NEGATIVE_FULL_SCALE,
            high.bits == FULL_SCALE,
            r@.len() == i,
            forall|j: int| 0 <= j < i ==> #[trigger] r@[j] == fraction_i16(data@[j]),
        decreases data@.len() - i,
    {
        r.push(Single::from_i32(data[i] as i32).div(scale).clamp(low, high));
        i = i + 1;
    }
    r
}

/// Normalises signed 32-bit samples.
pub fn normalise_i32(data: &[i32]) -> (r: Vec<Single>)
    ensures
        r@ == data@.map_values(|s: i32| fraction_i32(s)),
{
    let scale: Single = Single::from_i32(i32::MAX);
    let mut r: Vec<Single> = Vec::new();
    let mut i: usize = 0;
    while i < data.len()
        invariant
            i <= data@.len(),
            scale == of_int(i32::MAX as int),
            r@.len() == i,
            forall|j: int| 0 <= j < i ==> #[trigger] r@[j] == fraction_i32(data@[j]),
        decreases data@.len() - i,
    {
        r.push(Single::from_i32(data[i]).div(scale));
        i = i + 1;
    }
    r
}

/// Normalises unsigned 16-bit samples.
pub fn normalise_u16(data: &[u16]) -> (r: Vec<Single>)
    ensures
        r@ == data@.map_values(|s: u16| fraction_u16(s)),
{
    let middle: Single = Single::from_i32(0x8000);
    let mut r: Vec<Single> = Vec::new();
    let mut i: usize = 0;
    while i < data.len()
        invariant
            i <= data@.len(),
            middle == of_int(0x8000),
            r@.len() == i,
            forall|j: int| 0 <= j < i ==> #[trigger] r@[j] == fraction_u16(data@[j]),
        decreases data@.len() - i,
    {
        r.push(Single::from_i32(data[i] as i32).sub(middle).div(middle));
        i = i + 1;
    }
    r
}

/// Narrows binary64 samples, given by their patterns.
pub fn normalise_double(data: &[u64]) -> (r: Vec<Single>)
    ensures
        r@ == data@.map_values(|bits: u64| narrowed(bits)),
{
    let mut r: Vec<Single> = Vec::new();
    let mut i: usize = 0;
    while i < data.len()
        invariant
            i <= data@.len(),
            r@.len() == i,
            forall|j: int| 0 <= j < i ==> #[trigger] r@[j] == narrowed(data@[j]),
        decreases data@.len() - i,
    {
        r.push(Single::from_double(data[i]));
        i = i + 1;
    }
    r
}

} // verus!
