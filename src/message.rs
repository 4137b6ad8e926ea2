use std::cmp::Ordering;
use vstd::prelude::*;

use crate::common::Address;
use crate::shares::Share;

verus! {

/// The closed set of message kinds.
#[derive(Clone, Copy, Debug, PartialEq, Eq, Structural)]
pub enum MessageType {
    Stop,
    RequestData,
    PrepareData,
    SendData,
    ScheduleHealthCheck,
    RequestHealth,
    ConfirmHealth,
    OpenChannel,
    ConfirmChannel,
}

/// Rank of a message kind among messages that arrive at the same instant:
/// higher ranks are delivered first.
pub open spec fn priority_of(t: MessageType) -> u8 {
    match t {
        MessageType::Stop => 255,
        MessageType::OpenChannel => 255,
        MessageType::ConfirmChannel => 255,
        MessageType::RequestData => 1,
        _ => 0,
    }
}

/// Name of a message kind, as written in traces.
pub open spec fn message_type_name(t: MessageType) -> Seq<char> {
    match t {
        MessageType::Stop => "Stop"@,
        MessageType::RequestData => "RequestData"@,
        MessageType::PrepareData => "PrepareData"@,
        MessageType::SendData => "SendData"@,
        MessageType::ScheduleHealthCheck => "ScheduleHealthCheck"@,
        MessageType::RequestHealth => "RequestHealth"@,
        MessageType::ConfirmHealth => "ConfirmHealth"@,
        MessageType::OpenChannel => "OpenChannel"@,
        MessageType::ConfirmChannel => "ConfirmChannel"@,
    }
}

impl MessageType {
    /// Rank among messages that arrive at the same instant.
    pub fn priority(self) -> (r: u8)
        ensures
            r == priority_of(self),
    {
        match self {
            MessageType::Stop => 255,
            MessageType::OpenChannel => 255,
            MessageType::ConfirmChannel => 255,
            MessageType::RequestData => 1,
            _ => 0,
        }
    }

    /// The kind's name.
    pub fn name(self) -> (r: &'static str)
        ensures
            r@ == message_type_name(self),
    {
        match self {
            MessageType::Stop => "Stop",
            MessageType::RequestData => "RequestData",
            MessageType::PrepareData => "PrepareData",
            MessageType::SendData => "SendData",
            MessageType::ScheduleHealthCheck => "ScheduleHealthCheck",
            MessageType::RequestHealth => "RequestHealth",
            MessageType::ConfirmHealth => "ConfirmHealth",
            MessageType::OpenChannel => "OpenChannel",
            MessageType::ConfirmChannel => "ConfirmChannel",
        }
    }
}

/// Payload of a message.
#[derive(Debug)]
pub struct MessageContent {
    pub data: Option<Share>,
    pub target_node: Option<Address>,
}

impl MessageContent {
    /// A payload with neither data nor target.
    pub fn empty() -> (r: MessageContent)
        ensures
            r.data is None,
            r.target_node is None,
    {
        MessageContent { data: None, target_node: None }
    }

    /// A copy of this payload.
    pub fn copy(&self) -> (r: MessageContent)
        ensures
            r == *self,
    {
        let data = match &self.data {
            Some(s) => Some(s.copy()),
            None => None,
        };
        MessageContent { data, target_node: self.target_node }
    }
}

/// A timed event from an emitter to a receiver.
#[derive(Debug)]
pub struct Message {
    /// Set once the receiver has processed the message.
    pub delivered: bool,
    pub departure_time: u64,
    pub emitter: Address,
    pub arrival_time: u64,
    pub receiver: Address,
    pub message_type: MessageType,
    /// Time the receiver spent handling the message.
    pub work: u64,
    pub content: MessageContent,
}

/// A fresh, undelivered message with an empty payload.
pub open spec fn fresh_message(
    message_type: MessageType,
    departure_time: u64,
    emitter: Address,
    arrival_time: u64,
    receiver: Address,
) -> Message {
    Message {
        delivered: false,
        departure_time,
        emitter,
        arrival_time,
        receiver,
        message_type,
        work: 0,
        content: MessageContent { data: None, target_node: None },
    }
}

/// Whether `a` is delivered after `b`: it arrives later, or at the same instant
/// with a lower priority.
pub open spec fn comes_after(a: Message, b: Message) -> bool {
    a.arrival_time > b.arrival_time || (a.arrival_time == b.arrival_time && priority_of(
        a.message_type,
    ) < priority_of(b.message_type))
}

/// Whether `a` and `b` are due at the same rank: same instant, same priority.
pub open spec fn same_rank(a: Message, b: Message) -> bool {
    a.arrival_time == b.arrival_time && priority_of(a.message_type) == priority_of(b.message_type)
}

impl Message {
    /// A message sent at `departure_time` that reaches `receiver` at `arrival_time`.
    pub fn new(
        message_type: MessageType,
        departure_time: u64,
        emitter: Address,
        arrival_time: u64,
        receiver: Address,
    ) -> (r: Message)
        ensures
            r == fresh_message(message_type, departure_time, emitter, arrival_time, receiver),
    {
        Message {
            delivered: false,
            departure_time,
            emitter,
            arrival_time,
            receiver,
            message_type,
            work: 0,
            content: MessageContent::empty(),
        }
    }

    /// A message that a node sends to itself, to wake up at `arrival_time`.
    pub fn new_timeout(
        message_type: MessageType,
        emitter: Address,
        departure_time: u64,
        arrival_time: u64,
    ) -> (r: Message)
        ensures
            r == fresh_message(message_type, departure_time, emitter, arrival_time, emitter),
    {
        Message::new(message_type, departure_time, emitter, arrival_time, emitter)
    }

    /// A copy of this message.
    pub fn copy(&self) -> (r: Message)
        ensures
            r == *self,
    {
        Message {
            delivered: self.delivered,
            departure_time: self.departure_time,
            emitter: self.emitter,
            arrival_time: self.arrival_time,
            receiver: self.receiver,
            message_type: self.message_type,
            work: self.work,
            content: self.content.copy(),
        }
    }

    /// Whether `self` is delivered after `other`.
    pub fn comes_after(&self, other: &Message) -> (r: bool)
        ensures
            r == comes_after(*self, *other),
    {
        self.arrival_time > other.arrival_time || (self.arrival_time == other.arrival_time
            && self.message_type.priority() < other.message_type.priority())
    }

    /// Delivery order: `Greater` when `self` is delivered first (it arrives
    /// earlier, or at the same instant with a higher priority), `Less` when
    /// `other` is, `Equal` when both share arrival time and priority.
    pub fn cmp(&self, other: &Message) -> (r: Ordering)
        ensures
            r == Ordering::Greater <==> comes_after(*other, *self),
            r == Ordering::Less <==> comes_after(*self, *other),
            r == Ordering::Equal <==> same_rank(*self, *other),
    {
        if self.arrival_time < other.arrival_time {
            Ordering::Greater
        } else if self.arrival_time > other.arrival_time {
            Ordering::Less
        } else {
            let mine = self.message_type.priority();
            let theirs = other.message_type.priority();
            if mine > theirs {
                Ordering::Greater
            } else if mine == theirs {
                Ordering::Equal
            } else {
                Ordering::Less
            }
        }
    }
}

} // verus!
