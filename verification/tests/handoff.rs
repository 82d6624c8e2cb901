use alapi::handoff::{
    after_send, hand_off, handoff_channel, ProducerStep, SendOutcome, HANDOFF_SLOTS,
};
use alapi::record::Record;

fn record_with(level: u32) -> Record {
    let mut record = Record::new();
    record.insert("left".to_string(), level);
    record
}

#[test]
fn the_handoff_has_a_single_slot() {
    assert_eq!(HANDOFF_SLOTS, 1);
    let (sender, receiver) = handoff_channel();
    assert_eq!(sender.capacity(), Some(1));
    assert_eq!(receiver.capacity(), Some(1));
    assert!(receiver.is_empty());
}

#[test]
fn a_record_sent_into_the_empty_slot_arrives() {
    let (sender, receiver) = handoff_channel();
    let delivery = hand_off(&sender, record_with(5));
    assert!(matches!(delivery.outcome, SendOutcome::Sent));
    assert!(matches!(delivery.step, ProducerStep::Continue));
    let got = receiver.try_recv().unwrap();
    assert_eq!(got.get(&"left".to_string()), Some(5));
    assert!(receiver.try_recv().is_err());
}

#[test]
fn a_record_sent_into_the_taken_slot_is_dropped() {
    let (sender, receiver) = handoff_channel();
    assert!(matches!(hand_off(&sender, record_with(1)).outcome, SendOutcome::Sent));
    let second = hand_off(&sender, record_with(2));
    assert!(matches!(second.outcome, SendOutcome::Full));
    assert!(matches!(second.step, ProducerStep::Continue));
    assert!(matches!(hand_off(&sender, record_with(3)).step, ProducerStep::Continue));
    assert_eq!(receiver.len(), 1);
    let got = receiver.try_recv().unwrap();
    assert_eq!(got.get(&"left".to_string()), Some(1));
    assert!(receiver.try_recv().is_err());
    assert!(matches!(hand_off(&sender, record_with(4)).outcome, SendOutcome::Sent));
    assert_eq!(receiver.try_recv().unwrap().get(&"left".to_string()), Some(4));
}

#[test]
fn a_send_without_a_consumer_stops_the_producer() {
    let (sender, receiver) = handoff_channel();
    drop(receiver);
    let delivery = hand_off(&sender, record_with(1));
    assert!(matches!(delivery.outcome, SendOutcome::Disconnected));
    assert!(matches!(delivery.step, ProducerStep::Abort));
}

#[test]
fn only_a_lost_consumer_stops_the_producer() {
    assert!(matches!(after_send(SendOutcome::Sent), ProducerStep::Continue));
    assert!(matches!(after_send(SendOutcome::Full), ProducerStep::Continue));
    assert!(matches!(after_send(SendOutcome::Disconnected), ProducerStep::Abort));
}
