//! The handoff from the audio callback to the history: a single-slot
//! `crossbeam` channel that the callback never waits on.
//!
//! What is claimed of `crossbeam` here is taken on trust.

use vstd::prelude::*;
use crate::record::Record;

verus! {

/// The sending side of a `crossbeam` channel.
#[verifier::external_type_specification]
#[verifier::external_body]
#[verifier::reject_recursive_types(T)]
pub struct ExSender<T>(crossbeam::channel::Sender<T>);

/// The receiving side of a `crossbeam` channel.
#[verifier::external_type_specification]
#[verifier::external_body]
#[verifier::reject_recursive_types(T)]
pub struct ExReceiver<T>(crossbeam::channel::Receiver<T>);

/// The number of records the handoff channel holds for the consumer.
pub const HANDOFF_SLOTS: usize = 1;

/// The capacity that the channel behind a sender was made with, which is
/// what `crossbeam::channel::Sender::capacity` reports of it.
pub uninterp spec fn sender_capacity(sender: crossbeam::channel::Sender<Record>) -> Option<usize>;

/// What became of a record that was offered to the channel.
#[derive(Clone, Copy, Debug)]
pub enum SendOutcome {
    /// The channel took the record.
    Sent,
    /// The channel still holds a record that the consumer has not collected.
    Full,
    /// The receiving side is gone.
    Disconnected,
}

/// What the audio callback does after offering a record.
#[derive(Clone, Copy, Debug)]
pub enum ProducerStep {
    /// Go on with the next batch.
    Continue,
    /// The consumer is gone for good: the monitor has to stop.
    Abort,
}

/// What came of offering a record: what the channel did with it, and what
/// the audio callback does next.
#[derive(Clone, Copy, Debug)]
pub struct Delivery {
    pub outcome: SendOutcome,
    pub step: ProducerStep,
}

/// Calls `crossbeam::channel::bounded`: makes a channel that holds at most
/// `slots` records. The bound keeps to capacities that the call serves
/// without a large allocation.
#[verifier::external_body]
fn bounded_channel(slots: usize) -> (ends: (
    crossbeam::channel::Sender<Record>,
    crossbeam::channel::Receiver<Record>,
))
    requires
        slots <= 1,
    ensures
        sender_capacity(ends.0) == Some(slots),
{
    crossbeam::channel::bounded(slots)
}

/// Calls `crossbeam::channel::Sender::try_send`, which returns at once: the
/// record is taken, or refused because the channel is full, or refused
/// because the receiving side is gone. Which of the three it is depends on
/// the consumer, so nothing is claimed of the outcome.
#[verifier::external_body]
fn try_send_record(sender: &crossbeam::channel::Sender<Record>, record: Record) -> (outcome:
    SendOutcome) {
    match sender.try_send(record) {
        Ok(()) => SendOutcome::Sent,
        Err(crossbeam::channel::TrySendError::Full(_)) => SendOutcome::Full,
        Err(crossbeam::channel::TrySendError::Disconnected(_)) => SendOutcome::Disconnected,
    }
}

/// The step that follows an outcome: a record that was sent, or dropped on a
/// full channel, lets the callback go on; a channel without its receiver
/// stops the monitor.
pub open spec fn step_after(outcome: SendOutcome) -> ProducerStep {
    match outcome {
        SendOutcome::Sent => ProducerStep::Continue,
        SendOutcome::Full => ProducerStep::Continue,
        SendOutcome::Disconnected => ProducerStep::Abort,
    }
}

/// Decides what the audio callback does after offering a record.
pub fn after_send(outcome: SendOutcome) -> (step: ProducerStep)
    ensures
        step == step_after(outcome),
{
    match outcome {
        SendOutcome::Sent => ProducerStep::Continue,
        SendOutcome::Full => ProducerStep::Continue,
        SendOutcome::Disconnected => ProducerStep::Abort,
    }
}

/// Makes the handoff channel: a single slot between the audio callback and
/// the consumer.
pub fn handoff_channel() -> (ends: (
    crossbeam::channel::Sender<Record>,
    crossbeam::channel::Receiver<Record>,
))
    ensures
        sender_capacity(ends.0) == Some(HANDOFF_SLOTS),
{
    bounded_channel(HANDOFF_SLOTS)
}

/// Offers a record to the consumer without waiting. The record is dropped
/// when the slot is taken; the callback is told to stop when the consumer is
/// gone. What the channel does with the record depends on the consumer; the
/// step is the one that follows from it.
pub fn hand_off(sender: &crossbeam::channel::Sender<Record>, record: Record) -> (delivery:
    Delivery)
    ensures
        delivery.step == step_after(delivery.outcome),
{
    let outcome = try_send_record(sender, record);
    Delivery { outcome, step: after_send(outcome) }
}

} // verus!
