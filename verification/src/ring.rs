//! One channel's period buffer: a fixed-capacity first-in first-out ring of
//! sample words, kept in a `ringbuf` ring buffer.
//!
//! The ring buffer comes as two halves that share their storage. This module
//! keeps both halves of one ring in a `SampleRing` and is the only place
//! that touches them; what is claimed of `ringbuf` here is taken on trust.

use vstd::prelude::*;

verus! {

/// The writing half of a `ringbuf` ring buffer.
#[verifier::external_type_specification]
#[verifier::external_body]
#[verifier::reject_recursive_types(T)]
pub struct ExProducer<T>(ringbuf::Producer<T>);

/// The reading half of a `ringbuf` ring buffer.
#[verifier::external_type_specification]
#[verifier::external_body]
#[verifier::reject_recursive_types(T)]
pub struct ExConsumer<T>(ringbuf::Consumer<T>);

/// The samples that a ring holds, oldest first. The ring is given by its two
/// halves; the name is only ever applied to the two halves of one ring, as a
/// `SampleRing` holds them.
pub uninterp spec fn ring_items(prod: ringbuf::Producer<u32>, cons: ringbuf::Consumer<u32>) -> Seq<u32>;

/// The capacity that the ring behind a writing half was made with, which is
/// what `ringbuf::Producer::capacity` reports of it.
pub uninterp spec fn ring_limit(prod: ringbuf::Producer<u32>) -> nat;

/// The largest capacity a ring can be made with: its storage, one slot more
/// than the capacity at four bytes a slot, has to stay within the largest
/// allocation the machine allows.
pub const MAX_RING_CAPACITY: usize = usize::MAX / 8 - 1;

/// Both halves of one ring buffer of sample words. Nothing else holds either
/// half, so the ring changes only through the methods of this type.
pub struct SampleRing {
    prod: ringbuf::Producer<u32>,
    cons: ringbuf::Consumer<u32>,
}

impl SampleRing {
    /// The buffered samples, oldest first.
    pub closed spec fn items(&self) -> Seq<u32> {
        ring_items(self.prod, self.cons)
    }

    /// The number of samples the ring can hold.
    pub closed spec fn limit(&self) -> nat {
        ring_limit(self.prod)
    }

    /// The invariant of a ring: it never holds more than its capacity.
    pub open spec fn wf(&self) -> bool {
        self.items().len() <= self.limit()
    }

    /// Whether the ring holds as many samples as its capacity.
    pub open spec fn full(&self) -> bool {
        self.items().len() == self.limit()
    }

    /// Makes an empty ring for `capacity` samples.
    pub fn with_capacity(capacity: usize) -> (ring: SampleRing)
        requires
            capacity <= MAX_RING_CAPACITY,
        ensures
            ring.wf(),
            ring.items() == Seq::<u32>::empty(),
            ring.limit() == capacity,
    {
        ring_new(capacity)
    }

    /// Appends a sample unless the ring is full; a full ring refuses the
    /// sample and stays as it is. Returns whether the sample was taken.
    pub fn push(&mut self, sample: u32) -> (accepted: bool)
        requires
            old(self).wf(),
        ensures
            final(self).wf(),
            final(self).limit() == old(self).limit(),
            accepted == !old(self).full(),
            final(self).items() == if accepted {
                old(self).items().push(sample)
            } else {
                old(self).items()
            },
    {
        ring_push(self, sample)
    }

    /// Whether the ring is full.
    pub fn is_full(&self) -> (full: bool)
        ensures
            full == self.full(),
    {
        ring_is_full(self)
    }

    /// Takes every sample out of the ring, oldest first.
    pub fn drain(&mut self) -> (samples: Vec<u32>)
        requires
            old(self).wf(),
        ensures
            final(self).wf(),
            final(self).limit() == old(self).limit(),
            final(self).items() == Seq::<u32>::empty(),
            samples@ == old(self).items(),
    {
        let mut samples: Vec<u32> = Vec::new();
        loop
            invariant
                self.wf(),
                self.limit() == old(self).limit(),
                samples@ + self.items() == old(self).items(),
            ensures
                self.items().len() == 0,
            decreases self.items().len(),
        {
            match ring_pop(self) {
                Some(sample) => {
                    samples.push(sample);
                },
                None => {
                    break ;
                },
            }
        }
        assert(self.items() =~= Seq::<u32>::empty());
        assert(samples@ =~= samples@ + self.items());
        samples
    }
}

/// Calls `ringbuf::RingBuffer::new` and `split`: the new ring is empty and
/// has the capacity asked for. The storage is `capacity + 1` slots of four
/// bytes, which the bound keeps allocatable.
#[verifier::external_body]
fn ring_new(capacity: usize) -> (ring: SampleRing)
    requires
        capacity <= usize::MAX / 8 - 1,
    ensures
        ring_items(ring.prod, ring.cons) == Seq::<u32>::empty(),
        ring_limit(ring.prod) == capacity,
{
    let (prod, cons) = ringbuf::RingBuffer::new(capacity).split();
    SampleRing { prod, cons }
}

/// Calls `ringbuf::Producer::push`: a ring with room takes the sample at its
/// end; a full ring is left as it is and the sample is refused.
#[verifier::external_body]
fn ring_push(ring: &mut SampleRing, sample: u32) -> (accepted: bool)
    ensures
        ring_limit(final(ring).prod) == ring_limit(old(ring).prod),
        accepted == (ring_items(old(ring).prod, old(ring).cons).len() < ring_limit(old(ring).prod)),
        ring_items(final(ring).prod, final(ring).cons) == if accepted {
            ring_items(old(ring).prod, old(ring).cons).push(sample)
        } else {
            ring_items(old(ring).prod, old(ring).cons)
        },
{
    ring.prod.push(sample).is_ok()
}

/// Calls `ringbuf::Producer::is_full`: true when the ring holds as many
/// samples as its capacity.
#[verifier::external_body]
fn ring_is_full(ring: &SampleRing) -> (full: bool)
    ensures
        full == (ring_items(ring.prod, ring.cons).len() == ring_limit(ring.prod)),
{
    ring.prod.is_full()
}

/// Calls `ringbuf::Consumer::pop`: takes the oldest sample out of the ring,
/// or returns `None` and changes nothing when the ring is empty.
#[verifier::external_body]
fn ring_pop(ring: &mut SampleRing) -> (sample: Option<u32>)
    ensures
        ring_limit(final(ring).prod) == ring_limit(old(ring).prod),
        sample == if ring_items(old(ring).prod, old(ring).cons).len() > 0 {
            Some(ring_items(old(ring).prod, old(ring).cons).first())
        } else {
            None::<u32>
        },
        ring_items(final(ring).prod, final(ring).cons) == if ring_items(
            old(ring).prod,
            old(ring).cons,
        ).len() > 0 {
            ring_items(old(ring).prod, old(ring).cons).drop_first()
        } else {
            ring_items(old(ring).prod, old(ring).cons)
        },
{
    ring.cons.pop()
}

} // verus!
