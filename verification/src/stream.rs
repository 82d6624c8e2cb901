//! Choosing the input stream configuration: among the ranges of
//! configurations that a device supports, the first one that delivers
//! single-precision samples at the wanted rate on enough channels.

use vstd::prelude::*;

verus! {

/// The sample formats a device can deliver.
#[derive(Clone, Copy, Debug)]
pub enum SampleKind {
    /// Signed 16-bit integers.
    Int16,
    /// Unsigned 16-bit integers.
    Uint16,
    /// Single-precision values.
    Single,
}

/// One range of stream configurations that a device supports.
#[derive(Clone, Copy, Debug)]
pub struct StreamRange {
    pub channels: u16,
    pub min_sample_rate: u32,
    pub max_sample_rate: u32,
    pub kind: SampleKind,
}

/// A range suits when it delivers single-precision samples, covers the
/// sample rate, and has at least the wanted number of channels.
pub open spec fn suits(range: StreamRange, sample_rate: u32, min_channels: usize) -> bool {
    &&& range.kind is Single
    &&& range.min_sample_rate <= sample_rate
    &&& range.max_sample_rate >= sample_rate
    &&& range.channels >= min_channels
}

/// Whether a range suits.
pub fn range_suits(range: &StreamRange, sample_rate: u32, min_channels: usize) -> (yes: bool)
    ensures
        yes == suits(*range, sample_rate, min_channels),
{
    let single = match range.kind {
        SampleKind::Single => true,
        _ => false,
    };
    single && range.min_sample_rate <= sample_rate && range.max_sample_rate >= sample_rate
        && (range.channels as usize) >= min_channels
}

/// Finds the first range that suits. `None` means that the device offers no
/// configuration the monitor can run on.
pub fn select_stream(ranges: &Vec<StreamRange>, sample_rate: u32, min_channels: usize) -> (chosen:
    Option<usize>)
    ensures
        match chosen {
            Some(place) => {
                &&& place < ranges@.len()
                &&& suits(ranges@[place as int], sample_rate, min_channels)
                &&& forall|k: int|
                    0 <= k < place ==> !suits(#[trigger] ranges@[k], sample_rate, min_channels)
            },
            None => forall|k: int|
                0 <= k < ranges@.len() ==> !suits(#[trigger] ranges@[k], sample_rate, min_channels),
        },
{
    let mut i: usize = 0;
    while i < ranges.len()
        invariant
            i <= ranges@.len(),
            forall|k: int| 0 <= k < i ==> !suits(#[trigger] ranges@[k], sample_rate, min_channels),
        decreases ranges@.len() - i,
    {
        if range_suits(&ranges[i], sample_rate, min_channels) {
            return Some(i);
        }
        i += 1;
    }
    None
}

} // verus!
