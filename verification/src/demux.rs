//! The channel buffers of the audio callback: one period buffer for each
//! monitored channel, filled from interleaved batches and drained together
//! at each period boundary.

use std::collections::HashMap;
use vstd::prelude::*;
use crate::channels::{Channel, ChannelTable};
use crate::ring::{SampleRing, MAX_RING_CAPACITY};
use crate::window::ChannelWindow;
use crate::routing::{
    lemma_routed_ignores_other_channels, lemma_routed_step, lemma_sample_is_routed, routed,
};

verus! {

broadcast use vstd::std_specs::hash::group_hash_axioms;

/// One monitored channel and its period buffer.
struct ChannelSlot {
    index: usize,
    name: String,
    ring: SampleRing,
}

/// What one channel's buffer holds: the channel's stream position, its
/// display name, and the samples buffered for it, oldest first.
pub struct BufferState {
    pub index: usize,
    pub name: Seq<char>,
    pub samples: Seq<u32>,
}

impl BufferState {
    /// The same channel holding other samples.
    pub open spec fn with_samples(self, samples: Seq<u32>) -> BufferState {
        BufferState { index: self.index, name: self.name, samples }
    }
}

/// What a buffer holds after `arrived` samples were offered to it one by
/// one: it takes them in order until it is full and refuses the rest.
pub open spec fn filled(held: Seq<u32>, arrived: Seq<u32>, capacity: nat) -> Seq<u32> {
    if held.len() + arrived.len() <= capacity {
        held + arrived
    } else {
        (held + arrived).take(capacity as int)
    }
}

/// What a channel's buffer holds after a batch of `total` interleaved
/// channels has been routed: what it held before, then the batch's samples
/// for its stream position, as far as the buffer has room.
pub open spec fn after_batch(state: BufferState, data: Seq<u32>, total: int, capacity: nat) -> Seq<
    u32,
> {
    filled(state.samples, routed(data, total, state.index as int), capacity)
}

/// A batch ends a period when some buffer is full after the batch has
/// brought it at least one sample.
pub open spec fn ends_period(
    buffers: Seq<BufferState>,
    data: Seq<u32>,
    total: int,
    capacity: nat,
) -> bool {
    exists|j: int|
        0 <= j < buffers.len() && routed(data, total, (#[trigger] buffers[j]).index as int).len()
            > 0 && after_batch(buffers[j], data, total, capacity).len() == capacity
}

/// The empty buffer of a channel.
pub open spec fn empty_buffer(channel: Channel) -> BufferState {
    BufferState { index: channel.index, name: channel.name@, samples: Seq::empty() }
}

/// The period buffers of all monitored channels.
pub struct ChannelBuffers {
    slots: Vec<ChannelSlot>,
    lookup: HashMap<usize, usize>,
    capacity: usize,
}

impl ChannelBuffers {
    /// The state of each buffer, in the order of the channel table that the
    /// buffers were made from.
    pub closed spec fn buffers(&self) -> Seq<BufferState> {
        Seq::new(
            self.slots@.len(),
            |j: int|
                BufferState {
                    index: self.slots@[j].index,
                    name: self.slots@[j].name@,
                    samples: self.slots@[j].ring.items(),
                },
        )
    }

    /// The number of samples in one period, which is each buffer's capacity.
    pub closed spec fn capacity(&self) -> nat {
        self.capacity as nat
    }

    /// The invariant of the buffers.
    pub closed spec fn wf(&self) -> bool {
        &&& forall|j: int|
            0 <= j < self.slots@.len() ==> {
                &&& (#[trigger] self.slots@[j]).ring.wf()
                &&& self.slots@[j].ring.limit() == self.capacity
                &&& self.lookup@.contains_key(self.slots@[j].index)
                &&& self.lookup@[self.slots@[j].index] == j
            }
        &&& forall|index: usize| #[trigger]
            self.lookup@.contains_key(index) ==> {
                &&& self.lookup@[index] < self.slots@.len()
                &&& self.slots@[self.lookup@[index] as int].index == index
            }
    }

    /// The channel at a stream position has a buffer.
    pub open spec fn monitors(&self, index: usize) -> bool {
        exists|j: int| 0 <= j < self.buffers().len() && (#[trigger] self.buffers()[j]).index == index
    }

    /// What the invariant gives: no buffer holds more than a period, and no
    /// two buffers belong to the same stream position.
    pub proof fn lemma_wf(&self)
        requires
            self.wf(),
        ensures
            forall|j: int|
                0 <= j < self.buffers().len() ==> (#[trigger] self.buffers()[j]).samples.len()
                    <= self.capacity(),
            forall|i: int, j: int|
                0 <= i < j < self.buffers().len() ==> (#[trigger] self.buffers()[i]).index != (
                #[trigger] self.buffers()[j]).index,
    {
        assert forall|i: int, j: int| 0 <= i < j < self.buffers().len() implies (
        #[trigger] self.buffers()[i]).index != (#[trigger] self.buffers()[j]).index by {
            assert(self.lookup@[self.slots@[i].index] == i);
            assert(self.lookup@[self.slots@[j].index] == j);
        }
        assert forall|j: int| 0 <= j < self.buffers().len() implies (
        #[trigger] self.buffers()[j]).samples.len() <= self.capacity() by {
            assert(self.slots@[j].ring.wf());
        }
    }

    /// Makes an empty buffer of `capacity` samples for each channel of the
    /// table, or returns `None` when no buffer of that capacity can be made.
    pub fn new(table: &ChannelTable, capacity: usize) -> (made: Option<ChannelBuffers>)
        requires
            table.wf(),
        ensures
            made is Some <==> capacity <= MAX_RING_CAPACITY,
            made is Some ==> {
                &&& made->0.wf()
                &&& made->0.capacity() == capacity
                &&& made->0.buffers() == table.entries().map_values(
                    |channel: Channel| empty_buffer(channel),
                )
            },
    {
        if capacity > MAX_RING_CAPACITY {
            return None;
        }
        let mut slots: Vec<ChannelSlot> = Vec::new();
        let mut lookup: HashMap<usize, usize> = HashMap::new();
        let n = table.len();
        let mut j: usize = 0;
        while j < n
            invariant
                table.wf(),
                capacity <= MAX_RING_CAPACITY,
                n == table.entries().len(),
                j <= n,
                slots@.len() == j,
                forall|k: int|
                    0 <= k < j ==> {
                        &&& (#[trigger] slots@[k]).index == table.entries()[k].index
                        &&& slots@[k].name@ == table.entries()[k].name@
                        &&& slots@[k].ring.items() == Seq::<u32>::empty()
                        &&& slots@[k].ring.wf()
                        &&& slots@[k].ring.limit() == capacity
                        &&& lookup@.contains_key(slots@[k].index)
                        &&& lookup@[slots@[k].index] == k
                    },
                forall|index: usize| #[trigger]
                    lookup@.contains_key(index) ==> {
                        &&& lookup@[index] < slots@.len()
                        &&& slots@[lookup@[index] as int].index == index
                    },
            decreases n - j,
        {
            let channel = table.channel(j);
            let ghost earlier = lookup@;
            proof {
                if earlier.contains_key(channel.index) {
                    let k = earlier[channel.index] as int;
                    assert(slots@[k].index == table.entries()[k].index);
                    assert(table.entries()[k].index != table.entries()[j as int].index);
                }
            }
            lookup.insert(channel.index, j);
            slots.push(
                ChannelSlot {
                    index: channel.index,
                    name: channel.name.clone(),
                    ring: SampleRing::with_capacity(capacity),
                },
            );
            j += 1;
        }
        let made = ChannelBuffers { slots, lookup, capacity };
        proof {
            assert(made.buffers() =~= table.entries().map_values(
                |channel: Channel| empty_buffer(channel),
            ));
        }
        Some(made)
    }

    /// The number of monitored channels.
    pub fn len(&self) -> (n: usize)
        ensures
            n == self.buffers().len(),
    {
        self.slots.len()
    }

    /// The number of samples in one period.
    pub fn period_samples(&self) -> (n: usize)
        ensures
            n == self.capacity(),
    {
        self.capacity
    }

    /// The place of the buffer for a stream position, if the position is
    /// monitored.
    pub fn route(&self, index: usize) -> (place: Option<usize>)
        requires
            self.wf(),
        ensures
            match place {
                Some(p) => p < self.buffers().len() && self.buffers()[p as int].index == index,
                None => !self.monitors(index),
            },
    {
        match self.lookup.get(&index) {
            Some(place) => Some(*place),
            None => {
                proof {
                    if self.monitors(index) {
                        let j = choose|j: int|
                            0 <= j < self.buffers().len() && (#[trigger] self.buffers()[j]).index
                                == index;
                        assert(self.lookup@.contains_key(self.slots@[j].index));
                    }
                }
                None
            },
        }
    }

    /// Offers one sample to the buffer at a place. A buffer with room takes
    /// it; a full buffer refuses it. Returns whether the buffer is full
    /// afterwards.
    pub fn offer(&mut self, place: usize, sample: u32) -> (full: bool)
        requires
            old(self).wf(),
            place < old(self).buffers().len(),
        ensures
            final(self).wf(),
            final(self).capacity() == old(self).capacity(),
            final(self).buffers() == old(self).buffers().update(
                place as int,
                old(self).buffers()[place as int].with_samples(
                    filled(
                        old(self).buffers()[place as int].samples,
                        seq![sample],
                        old(self).capacity(),
                    ),
                ),
            ),
            full == (final(self).buffers()[place as int].samples.len() == final(self).capacity()),
    {
        let _ = self.slots[place].ring.push(sample);
        let full = self.slots[place].ring.is_full();
        proof {
            let held = old(self).slots@[place as int].ring.items();
            assert(old(self).slots@[place as int].ring.wf());
            assert(held + seq![sample] =~= held.push(sample));
            if held.len() == self.capacity {
                assert((held + seq![sample]).take(self.capacity as int) =~= held);
            }
            assert forall|j: int| 0 <= j < self.slots@.len() implies {
                &&& (#[trigger] self.slots@[j]).ring.wf()
                &&& self.slots@[j].ring.limit() == self.capacity
                &&& self.lookup@.contains_key(self.slots@[j].index)
                &&& self.lookup@[self.slots@[j].index] == j
            } by {
                if j != place {
                    assert(self.slots@[j] == old(self).slots@[j]);
                }
            }
            assert(self.buffers() =~= old(self).buffers().update(
                place as int,
                old(self).buffers()[place as int].with_samples(
                    filled(
                        old(self).buffers()[place as int].samples,
                        seq![sample],
                        old(self).capacity(),
                    ),
                ),
            ));
        }
        full
    }

    /// Routes one batch of interleaved samples into the buffers. The sample
    /// at position `i` of the batch belongs to stream position `i mod total`;
    /// it is offered to that position's buffer, or discarded when the
    /// position is not monitored. Returns whether some buffer was found full
    /// after a sample was offered to it, which marks a period boundary.
    pub fn demux(&mut self, data: &[u32], total: usize) -> (any_full: bool)
        requires
            old(self).wf(),
            total > 0,
        ensures
            final(self).wf(),
            final(self).capacity() == old(self).capacity(),
            final(self).buffers().len() == old(self).buffers().len(),
            forall|j: int|
                0 <= j < old(self).buffers().len() ==> (#[trigger] final(self).buffers()[j]) == old(
                    self,
                ).buffers()[j].with_samples(
                    after_batch(old(self).buffers()[j], data@, total as int, old(self).capacity()),
                ),
            any_full == ends_period(old(self).buffers(), data@, total as int, old(self).capacity()),
    {
        let mut any_full = false;
        let mut i: usize = 0;
        proof {
            self.lemma_wf();
            assert forall|j: int| 0 <= j < self.buffers().len() implies (
            #[trigger] self.buffers()[j]) == self.buffers()[j].with_samples(
                filled(
                    self.buffers()[j].samples,
                    routed(data@.take(0), total as int, self.buffers()[j].index as int),
                    self.capacity(),
                ),
            ) by {
                let held = self.buffers()[j].samples;
                let none = routed(data@.take(0), total as int, self.buffers()[j].index as int);
                assert(held + none =~= held);
            }
        }
        while i < data.len()
            invariant
                self.wf(),
                total > 0,
                i <= data.len(),
                self.capacity() == old(self).capacity(),
                self.buffers().len() == old(self).buffers().len(),
                forall|j: int|
                    0 <= j < old(self).buffers().len() ==> (#[trigger] old(
                        self,
                    ).buffers()[j]).samples.len() <= old(self).capacity(),
                forall|a: int, b: int|
                    0 <= a < b < old(self).buffers().len() ==> (#[trigger] old(
                        self,
                    ).buffers()[a]).index != (#[trigger] old(self).buffers()[b]).index,
                forall|j: int|
                    0 <= j < old(self).buffers().len() ==> (#[trigger] self.buffers()[j]) == old(
                        self,
                    ).buffers()[j].with_samples(
                        filled(
                            old(self).buffers()[j].samples,
                            routed(
                                data@.take(i as int),
                                total as int,
                                old(self).buffers()[j].index as int,
                            ),
                            old(self).capacity(),
                        ),
                    ),
                any_full == exists|j: int|
                    0 <= j < old(self).buffers().len() && routed(
                        data@.take(i as int),
                        total as int,
                        (#[trigger] old(self).buffers()[j]).index as int,
                    ).len() > 0 && self.buffers()[j].samples.len() == old(self).capacity(),
            decreases data.len() - i,
        {
            let ghost before = *self;
            let ghost flagged = any_full;
            let channel = i % total;
            let sample = data[i];
            let place = self.route(channel);
            let mut pushed_full = false;
            if let Some(p) = place {
                pushed_full = self.offer(p, sample);
                if pushed_full {
                    any_full = true;
                }
            }
            proof {
                let cap = old(self).capacity();
                assert forall|j: int| 0 <= j < old(self).buffers().len() implies {
                    let start = old(self).buffers()[j];
                    let seen = routed(data@.take(i as int), total as int, start.index as int);
                    let next = routed(data@.take(i + 1), total as int, start.index as int);
                    &&& (#[trigger] self.buffers()[j]) == start.with_samples(
                        filled(start.samples, next, cap),
                    )
                    &&& (seen.len() > 0 && before.buffers()[j].samples.len() == cap ==> next.len()
                        > 0 && self.buffers()[j].samples.len() == cap)
                    &&& (next.len() > 0 && self.buffers()[j].samples.len() == cap ==> (seen.len()
                        > 0 && before.buffers()[j].samples.len() == cap) || (place == Some(
                        j as usize,
                    ) && pushed_full))
                } by {
                    let start = old(self).buffers()[j];
                    let seen = routed(data@.take(i as int), total as int, start.index as int);
                    let next = routed(data@.take(i + 1), total as int, start.index as int);
                    lemma_routed_step(data@, total as int, start.index as int, i as int);
                    assert(before.buffers()[j] == start.with_samples(
                        filled(start.samples, seen, cap),
                    ));
                    if start.index == channel {
                        assert(place == Some(j as usize)) by {
                            let p = place->0;
                            assert(before.buffers()[p as int].index == channel);
                            assert(old(self).buffers()[p as int].index == channel);
                        }
                        assert(next == seen.push(sample));
                        let held = filled(start.samples, seen, cap);
                        assert(start.samples + next =~= (start.samples + seen).push(sample));
                        assert(filled(held, seq![sample], cap) =~= filled(
                            start.samples,
                            next,
                            cap,
                        )) by {
                            if start.samples.len() + seen.len() < cap {
                                assert(held + seq![sample] =~= (start.samples + seen).push(
                                    sample,
                                ));
                            } else {
                                assert(held.len() == cap);
                                assert((held + seq![sample]).take(cap as int) =~= held);
                                assert((start.samples + next).take(cap as int) =~= (start.samples
                                    + seen).take(cap as int));
                            }
                        }
                    } else {
                        assert(next == seen);
                        if let Some(p) = place {
                            assert(before.buffers()[p as int].index == channel);
                            assert(p != j);
                        }
                        assert(self.buffers()[j] == before.buffers()[j]);
                    }
                }
                let ghost now = *self;
                assert(any_full == exists|j: int|
                    0 <= j < old(self).buffers().len() && routed(
                        data@.take(i + 1),
                        total as int,
                        (#[trigger] old(self).buffers()[j]).index as int,
                    ).len() > 0 && now.buffers()[j].samples.len() == cap) by {
                    if flagged {
                        let j = choose|j: int|
                            0 <= j < old(self).buffers().len() && routed(
                                data@.take(i as int),
                                total as int,
                                (#[trigger] old(self).buffers()[j]).index as int,
                            ).len() > 0 && before.buffers()[j].samples.len() == cap;
                        assert(self.buffers()[j].samples.len() == cap);
                    }
                    if pushed_full {
                        let p = place->0 as int;
                        assert(before.buffers()[p].index == channel);
                        lemma_routed_step(data@, total as int, channel as int, i as int);
                        assert(self.buffers()[p].samples.len() == cap);
                    }
                }
            }
            i += 1;
        }
        proof {
            assert(data@.take(data.len() as int) =~= data@);
            let cap = old(self).capacity();
            if any_full {
                let j = choose|j: int|
                    0 <= j < old(self).buffers().len() && routed(
                        data@,
                        total as int,
                        (#[trigger] old(self).buffers()[j]).index as int,
                    ).len() > 0 && self.buffers()[j].samples.len() == cap;
                assert(after_batch(old(self).buffers()[j], data@, total as int, cap).len() == cap);
            }
            if ends_period(old(self).buffers(), data@, total as int, cap) {
                let j = choose|j: int|
                    0 <= j < old(self).buffers().len() && routed(
                        data@,
                        total as int,
                        (#[trigger] old(self).buffers()[j]).index as int,
                    ).len() > 0 && after_batch(old(self).buffers()[j], data@, total as int, cap).len()
                        == cap;
                assert(self.buffers()[j].samples.len() == cap);
            }
        }
        any_full
    }

    /// Empties every buffer and hands out what each held, one window for
    /// each monitored channel in the order of the buffers.
    pub fn drain(&mut self) -> (windows: Vec<ChannelWindow>)
        requires
            old(self).wf(),
        ensures
            final(self).wf(),
            final(self).capacity() == old(self).capacity(),
            final(self).buffers().len() == old(self).buffers().len(),
            windows@.len() == old(self).buffers().len(),
            forall|j: int|
                0 <= j < old(self).buffers().len() ==> (#[trigger] final(self).buffers()[j]) == old(
                    self,
                ).buffers()[j].with_samples(Seq::empty()),
            forall|j: int|
                0 <= j < old(self).buffers().len() ==> {
                    &&& (#[trigger] windows@[j]).name@ == old(self).buffers()[j].name
                    &&& windows@[j].samples@ == old(self).buffers()[j].samples
                },
    {
        let mut windows: Vec<ChannelWindow> = Vec::new();
        let mut j: usize = 0;
        while j < self.slots.len()
            invariant
                self.wf(),
                j <= self.slots@.len(),
                self.capacity() == old(self).capacity(),
                self.buffers().len() == old(self).buffers().len(),
                self.slots@.len() == self.buffers().len(),
                windows@.len() == j,
                forall|k: int|
                    0 <= k < j ==> (#[trigger] self.buffers()[k]) == old(
                        self,
                    ).buffers()[k].with_samples(Seq::empty()),
                forall|k: int|
                    0 <= k < j ==> {
                        &&& (#[trigger] windows@[k]).name@ == old(self).buffers()[k].name
                        &&& windows@[k].samples@ == old(self).buffers()[k].samples
                    },
                forall|k: int|
                    j <= k < self.buffers().len() ==> (#[trigger] self.buffers()[k]) == old(
                        self,
                    ).buffers()[k],
            decreases self.slots@.len() - j,
        {
            let ghost before = *self;
            assert(self.slots@[j as int].ring.wf());
            let samples = self.slots[j].ring.drain();
            let name = self.slots[j].name.clone();
            windows.push(ChannelWindow { name, samples });
            proof {
                assert forall|k: int| 0 <= k < self.slots@.len() implies {
                    &&& (#[trigger] self.slots@[k]).ring.wf()
                    &&& self.slots@[k].ring.limit() == self.capacity
                    &&& self.lookup@.contains_key(self.slots@[k].index)
                    &&& self.lookup@[self.slots@[k].index] == k
                } by {
                    if k != j {
                        assert(self.slots@[k] == before.slots@[k]);
                    }
                }
                assert forall|k: int| 0 <= k < self.buffers().len() && k != j implies (
                #[trigger] self.buffers()[k]) == before.buffers()[k] by {
                    assert(self.slots@[k] == before.slots@[k]);
                }
                assert(before.buffers()[j as int] == old(self).buffers()[j as int]);
            }
            j += 1;
        }
        windows
    }

    /// Takes one batch from the audio callback: routes it into the buffers
    /// and, when the batch ends a period, drains every buffer and returns
    /// the period's windows.
    pub fn ingest(&mut self, data: &[u32], total: usize) -> (period: Option<Vec<ChannelWindow>>)
        requires
            old(self).wf(),
            total > 0,
        ensures
            final(self).wf(),
            final(self).capacity() == old(self).capacity(),
            final(self).buffers().len() == old(self).buffers().len(),
            period is Some <==> ends_period(
                old(self).buffers(),
                data@,
                total as int,
                old(self).capacity(),
            ),
            period is None ==> forall|j: int|
                0 <= j < old(self).buffers().len() ==> (#[trigger] final(self).buffers()[j]) == old(
                    self,
                ).buffers()[j].with_samples(
                    after_batch(old(self).buffers()[j], data@, total as int, old(self).capacity()),
                ),
            period is Some ==> forall|j: int|
                0 <= j < old(self).buffers().len() ==> (#[trigger] final(self).buffers()[j]) == old(
                    self,
                ).buffers()[j].with_samples(Seq::empty()),
            period is Some ==> period->0@.len() == old(self).buffers().len() && forall|j: int|
                0 <= j < old(self).buffers().len() ==> {
                    &&& (#[trigger] period->0@[j]).name@ == old(self).buffers()[j].name
                    &&& period->0@[j].samples@ == after_batch(
                        old(self).buffers()[j],
                        data@,
                        total as int,
                        old(self).capacity(),
                    )
                },
    {
        if self.demux(data, total) {
            let ghost routed_in = *self;
            let windows = self.drain();
            proof {
                assert forall|j: int| 0 <= j < old(self).buffers().len() implies (
                #[trigger] self.buffers()[j]) == old(self).buffers()[j].with_samples(
                    Seq::empty(),
                ) by {
                    assert(self.buffers()[j] == routed_in.buffers()[j].with_samples(Seq::empty()));
                }
                assert forall|j: int| 0 <= j < old(self).buffers().len() implies {
                    &&& (#[trigger] windows@[j]).name@ == old(self).buffers()[j].name
                    &&& windows@[j].samples@ == after_batch(
                        old(self).buffers()[j],
                        data@,
                        total as int,
                        old(self).capacity(),
                    )
                } by {
                    assert(windows@[j].samples@ == routed_in.buffers()[j].samples);
                }
            }
            Some(windows)
        } else {
            None
        }
    }
}

/// Routing by position: the sample at position `i` of a batch goes to the
/// buffer of stream position `i mod total`, behind what the buffer held and
/// behind the batch's earlier samples for that position, provided the buffer
/// still has room for it.
pub proof fn lemma_sample_lands_in_its_buffer(
    state: BufferState,
    data: Seq<u32>,
    total: int,
    capacity: nat,
    i: int,
)
    requires
        total > 0,
        0 <= i < data.len(),
        state.index == i % total,
        state.samples.len() + i / total < capacity,
    ensures
        state.samples.len() + i / total < after_batch(state, data, total, capacity).len(),
        after_batch(state, data, total, capacity)[state.samples.len() + i / total] == data[i],
{
    lemma_sample_is_routed(data, total, i);
}

/// Discarding without trace: the sample at position `i` of a batch has no
/// effect on the buffer of any stream position other than `i mod total`. A
/// sample whose position is not monitored therefore changes no buffer.
pub proof fn lemma_sample_leaves_other_buffers(
    state: BufferState,
    data: Seq<u32>,
    total: int,
    capacity: nat,
    i: int,
    other: u32,
)
    requires
        total > 0,
        0 <= i < data.len(),
        state.index != i % total,
    ensures
        after_batch(state, data.update(i, other), total, capacity) == after_batch(
            state,
            data,
            total,
            capacity,
        ),
{
    lemma_routed_ignores_other_channels(data, total, state.index as int, i, other);
}

} // verus!
