use vstd::prelude::*;

use crate::message::Message;
use crate::run::{clamp_time, RunSettings};

verus! {

/// The trace of a run and its summary metrics.
#[derive(Debug)]
pub struct Recording {
    pub settings: RunSettings,
    /// Arrival time of the last recorded message.
    pub total_latency: u64,
    /// Sum of the work of the recorded messages (saturating).
    pub total_work: u64,
    /// Number of recorded messages that carry data (saturating).
    pub total_bandwidth: u64,
    pub initial_contributors: usize,
    pub final_contributors: usize,
    /// The recorded messages, in order, when the full trace is kept.
    pub sent_messages: Vec<Message>,
    pub full_export: bool,
}

/// `post` is `pre` after recording `msg`.
pub open spec fn recorded(pre: Recording, msg: Message, post: Recording) -> bool {
    &&& post.settings == pre.settings
    &&& post.full_export == pre.full_export
    &&& post.initial_contributors == pre.initial_contributors
    &&& post.final_contributors == pre.final_contributors
    &&& post.total_latency == msg.arrival_time
    &&& post.total_work == clamp_time(pre.total_work + msg.work)
    &&& post.total_bandwidth == if msg.content.data is Some {
        clamp_time(pre.total_bandwidth + 1)
    } else {
        pre.total_bandwidth
    }
    &&& post.sent_messages@ == if pre.full_export {
        pre.sent_messages@.push(msg)
    } else {
        pre.sent_messages@
    }
}

impl Recording {
    /// An empty recording.
    pub fn new(settings: RunSettings, full_export: bool) -> (r: Recording)
        ensures
            r.settings == settings,
            r.full_export == full_export,
            r.total_latency == 0,
            r.total_work == 0,
            r.total_bandwidth == 0,
            r.initial_contributors == 0,
            r.final_contributors == 0,
            r.sent_messages@.len() == 0,
    {
        Recording {
            settings,
            total_latency: 0,
            total_work: 0,
            total_bandwidth: 0,
            initial_contributors: 0,
            final_contributors: 0,
            sent_messages: Vec::new(),
            full_export,
        }
    }

    /// Adds a handled message to the metrics, and to the trace when the full
    /// trace is kept.
    pub fn record(&mut self, msg: &Message)
        ensures
            recorded(*old(self), *msg, *final(self)),
    {
        if self.full_export {
            self.sent_messages.push(msg.copy());
        }
        self.total_work = self.total_work.saturating_add(msg.work);
        self.total_latency = msg.arrival_time;
        if msg.content.data.is_some() {
            self.total_bandwidth = self.total_bandwidth.saturating_add(1);
        }
    }
}

} // verus!
