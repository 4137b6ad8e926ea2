use std::cmp::Ordering;

use secagg_sim::common::{Address, Incrementable};
use secagg_sim::message::{Message, MessageType};
use secagg_sim::queue::insert_in_order;

#[test]
fn message_pings_are_handled_at_the_same_time() {
    let addr: Address = 0;
    let a = Message::new(MessageType::RequestData, 0, addr, 0, addr.increment(None));
    let b = Message::new(MessageType::RequestData, 0, addr, 0, addr.increment(None));

    assert!(a.cmp(&b) == Ordering::Equal);
}

#[test]
fn message_pings_are_handled_first() {
    let addr: Address = 0;
    let a = Message::new(MessageType::RequestData, 0, addr, 0, addr.increment(None));
    let b = Message::new(MessageType::SendData, 0, addr, 0, addr.increment(None));

    assert!(a.cmp(&b) == Ordering::Greater);
}

#[test]
fn earlier_arrival_comes_first_whatever_the_priority() {
    let a = Message::new(MessageType::SendData, 0, 0, 5, 1);
    let b = Message::new(MessageType::Stop, 0, 0, 6, 1);
    assert!(a.cmp(&b) == Ordering::Greater);
    assert!(b.cmp(&a) == Ordering::Less);
    assert!(b.comes_after(&a));
    assert!(!a.comes_after(&b));
}

#[test]
fn priorities_of_each_kind() {
    assert_eq!(MessageType::Stop.priority(), 255);
    assert_eq!(MessageType::OpenChannel.priority(), 255);
    assert_eq!(MessageType::ConfirmChannel.priority(), 255);
    assert_eq!(MessageType::RequestData.priority(), 1);
    assert_eq!(MessageType::SendData.priority(), 0);
    assert_eq!(MessageType::ConfirmHealth.priority(), 0);
    assert_eq!(MessageType::ScheduleHealthCheck.name(), "ScheduleHealthCheck");
}

#[test]
fn increment_moves_addresses() {
    let a: Address = 7;
    assert_eq!(a.increment(None), 8);
    assert_eq!(a.increment(Some(5)), 12);
}

#[test]
fn queue_keeps_delivery_order_and_emission_order() {
    let mut q: Vec<Message> = Vec::new();
    insert_in_order(&mut q, Message::new(MessageType::SendData, 0, 1, 10, 0));
    insert_in_order(&mut q, Message::new(MessageType::ConfirmHealth, 0, 2, 10, 0));
    insert_in_order(&mut q, Message::new(MessageType::RequestData, 0, 3, 10, 0));
    insert_in_order(&mut q, Message::new(MessageType::OpenChannel, 0, 4, 10, 0));
    insert_in_order(&mut q, Message::new(MessageType::ConfirmHealth, 0, 5, 3, 0));
    let order: Vec<Address> = q.iter().rev().map(|m| m.emitter).collect();
    // Earliest first; at one instant the higher priority first; at one rank,
    // the earlier insertion first.
    assert_eq!(order, vec![5, 4, 3, 1, 2]);
}

#[test]
fn timeouts_come_back_to_the_emitter() {
    let m = Message::new_timeout(MessageType::ScheduleHealthCheck, 9, 100, 1100);
    assert_eq!((m.emitter, m.receiver, m.departure_time, m.arrival_time), (9, 9, 100, 1100));
    assert!(!m.delivered);
    assert_eq!(m.work, 0);
    assert!(m.content.data.is_none());
}
