//! Period windows: the samples of one channel that a period boundary handed
//! out, and the measurement that is made of them.

use vstd::prelude::*;
use crate::record::{lemma_record_map, record_map, recorded_all, Measurement, Record};

verus! {

/// The samples of one channel that a period boundary handed out.
pub struct ChannelWindow {
    pub name: String,
    pub samples: Vec<u32>,
}

/// The word of the level zero.
pub const SILENCE: u32 = 0;

/// The level of a window: a window without samples has the level zero,
/// whatever was computed for it; any other window has the computed level.
pub open spec fn window_level(samples: Seq<u32>, computed: u32) -> u32 {
    if samples.len() == 0 {
        SILENCE
    } else {
        computed
    }
}

impl ChannelWindow {
    /// Makes the channel's measurement for the period from the level that
    /// was computed over the window's samples. A window without samples
    /// measures zero.
    pub fn measurement(&self, computed: u32) -> (measured: Measurement)
        ensures
            measured.name == self.name,
            measured.level == window_level(self.samples@, computed),
    {
        let level = if self.samples.len() == 0 {
            SILENCE
        } else {
            computed
        };
        Measurement { name: self.name.clone(), level }
    }
}

/// The measurements of one period: for each window, in order, the window's
/// name with the level of the window.
pub open spec fn period_measurements(windows: Seq<ChannelWindow>, computed: Seq<u32>) -> Seq<
    Measurement,
> {
    Seq::new(
        windows.len(),
        |j: int|
            Measurement {
                name: windows[j].name,
                level: window_level(windows[j].samples@, computed[j]),
            },
    )
}

/// Makes the record of one period from its windows and the levels computed
/// over them, one level for each window in the windows' order. The record
/// has an entry for every window's name; a window without samples is
/// recorded at zero. `None` means that the levels do not match the windows
/// in number.
pub fn measure_period(windows: &Vec<ChannelWindow>, computed: &Vec<u32>) -> (record: Option<
    Record,
>)
    ensures
        record is Some <==> computed@.len() == windows@.len(),
        record is Some ==> {
            &&& record->0.wf()
            &&& record->0@ == record_map(period_measurements(windows@, computed@))
            &&& record->0.entries() == recorded_all(period_measurements(windows@, computed@))
            &&& forall|j: int|
                0 <= j < windows@.len() ==> record->0@.contains_key((#[trigger] windows@[j]).name@)
        },
{
    if computed.len() != windows.len() {
        return None;
    }
    let mut measurements: Vec<Measurement> = Vec::new();
    let mut j: usize = 0;
    while j < windows.len()
        invariant
            j <= windows@.len(),
            computed@.len() == windows@.len(),
            measurements@ == period_measurements(windows@, computed@).take(j as int),
        decreases windows@.len() - j,
    {
        let measured = windows[j].measurement(computed[j]);
        measurements.push(measured);
        proof {
            assert(measurements@ =~= period_measurements(windows@, computed@).take(j + 1));
        }
        j += 1;
    }
    proof {
        let all = period_measurements(windows@, computed@);
        assert(all.take(windows@.len() as int) =~= all);
        lemma_record_map(all);
        assert forall|k: int| 0 <= k < windows@.len() implies record_map(all).contains_key(
            (#[trigger] windows@[k]).name@,
        ) by {
            assert(all[k].name@ == windows@[k].name@);
        }
    }
    Some(Record::from_measurements(&measurements))
}

} // verus!
