//! Network events handed from the receive path to the endpoint logic,
//! and the receive-side latency simulation: a rolled delay holds an event
//! back until its delivery time.

use vstd::prelude::*;
use crate::registry::PeerAddr;
use crate::transport::{Message, SimLatencyRollResult, sorted_u64};

verus! {

/// What the receive path reports upward.
pub enum NetworkEvent {
    /// A payload arrived from a peer at the given time (milliseconds).
    Message(PeerAddr, Vec<u8>, u64),
    /// A new peer was heard from for the first time.
    Connected(PeerAddr),
    /// A peer was dropped for idleness.
    Disconnected(PeerAddr),
    /// A receive call failed; the text describes the error.
    RecvError(String),
    /// A send to this peer failed; the undelivered message rides along.
    SendError(PeerAddr, String, Message),
}

/// Events held back by the receive-side latency simulation, positionally
/// paired with their sorted delivery times.
pub struct SimLatencyReceiveQueue {
    pub sim_latency_delayed: Vec<NetworkEvent>,
    pub sim_latency_delivery_times: Vec<u64>,
}

/// How many leading delivery times have passed at `now_ms`.
pub open spec fn count_due(times: Seq<u64>, now_ms: u64) -> int
    decreases times.len(),
{
    if times.len() == 0 || times[0] > now_ms {
        0
    } else {
        1 + count_due(times.drop_first(), now_ms)
    }
}

impl SimLatencyReceiveQueue {
    /// One delivery time per held event, sorted.
    pub open spec fn wf(&self) -> bool {
        &&& self.sim_latency_delayed@.len() == self.sim_latency_delivery_times@.len()
        &&& sorted_u64(self.sim_latency_delivery_times@)
    }

    /// An empty queue.
    pub fn new() -> (r: SimLatencyReceiveQueue)
        ensures
            r.wf(),
            r.sim_latency_delayed@.len() == 0,
    {
        SimLatencyReceiveQueue { sim_latency_delayed: Vec::new(), sim_latency_delivery_times: Vec::new() }
    }

    /// Passes a received event through the receive profile's roll: handed
    /// back for immediate delivery, dropped, or held until the rolled
    /// delivery time.
    pub fn send_with_sim_latency(&mut self, event: NetworkEvent, roll: SimLatencyRollResult) -> (now: Option<
        NetworkEvent,
    >)
        requires
            old(self).wf(),
        ensures
            final(self).wf(),
            roll is NoOp ==> now == Some(event) && final(self).sim_latency_delayed
                == old(self).sim_latency_delayed,
            roll is Drop ==> now is None && final(self).sim_latency_delayed
                == old(self).sim_latency_delayed,
            roll matches SimLatencyRollResult::Delay(t) ==> {
                &&& now is None
                &&& final(self).sim_latency_delayed@ == old(self).sim_latency_delayed@.push(event)
            },
    {
        match roll {
            SimLatencyRollResult::NoOp => Some(event),
            SimLatencyRollResult::Drop => None,
            SimLatencyRollResult::Delay(t) => {
                let idx = self.first_later_time(t);
                self.sim_latency_delivery_times.insert(idx, t);
                proof {
                    lemma_sorted_insert_times(
                        old(self).sim_latency_delivery_times@,
                        idx as int,
                        t,
                    );
                }
                self.sim_latency_delayed.push(event);
                None
            },
        }
    }

    fn first_later_time(&self, t: u64) -> (idx: usize)
        ensures
            0 <= idx <= self.sim_latency_delivery_times@.len(),
            forall|j: int| 0 <= j < idx ==> #[trigger] self.sim_latency_delivery_times@[j] <= t,
            idx < self.sim_latency_delivery_times@.len()
                ==> self.sim_latency_delivery_times@[idx as int] > t,
    {
        let mut i: usize = 0;
        while i < self.sim_latency_delivery_times.len()
            invariant
                i <= self.sim_latency_delivery_times@.len(),
                forall|j: int| 0 <= j < i ==> #[trigger] self.sim_latency_delivery_times@[j] <= t,
            decreases self.sim_latency_delivery_times@.len() - i,
        {
            if self.sim_latency_delivery_times[i] > t {
                return i;
            }
            i = i + 1;
        }
        i
    }

    /// Releases the events whose delivery time has passed, oldest first.
    /// Times are sorted, so the due events are exactly the front of the
    /// queue.
    pub fn process_sim_latency(&mut self, now_ms: u64) -> (released: Vec<NetworkEvent>)
        requires
            old(self).wf(),
        ensures
            final(self).wf(),
            ({
                let c = count_due(old(self).sim_latency_delivery_times@, now_ms);
                &&& released@ == old(self).sim_latency_delayed@.take(c)
                &&& final(self).sim_latency_delayed@ == old(self).sim_latency_delayed@.skip(c)
                &&& final(self).sim_latency_delivery_times@ == old(
                    self,
                ).sim_latency_delivery_times@.skip(c)
            }),
    {
        let ghost all_events = self.sim_latency_delayed@;
        let ghost all_times = self.sim_latency_delivery_times@;
        let ghost total = count_due(all_times, now_ms);
        proof {
            lemma_count_due_bounds(all_times, now_ms);
        }
        let mut released: Vec<NetworkEvent> = Vec::new();
        let ghost mut i: int = 0;
        loop
            invariant
                0 <= i <= all_times.len(),
                all_events.len() == all_times.len(),
                self.sim_latency_delayed@ == all_events.skip(i),
                self.sim_latency_delivery_times@ == all_times.skip(i),
                released@ == all_events.take(i),
                total == i + count_due(all_times.skip(i), now_ms),
                i <= total,
            ensures
                i == total,
                self.sim_latency_delayed@ == all_events.skip(i),
                self.sim_latency_delivery_times@ == all_times.skip(i),
                released@ == all_events.take(i),
            decreases all_times.len() - i,
        {
            proof {
                lemma_count_due_bounds(all_times.skip(i), now_ms);
            }
            if self.sim_latency_delivery_times.len() == 0 {
                break ;
            }
            let t = self.sim_latency_delivery_times[0];
            if t > now_ms {
                break ;
            }
            proof {
                assert(count_due(all_times.skip(i), now_ms) == 1 + count_due(
                    all_times.skip(i).drop_first(),
                    now_ms,
                ));
                assert(all_times.skip(i).drop_first() =~= all_times.skip(i + 1));
            }
            self.sim_latency_delivery_times.remove(0);
            let ev = self.sim_latency_delayed.remove(0);
            released.push(ev);
            proof {
                assert(self.sim_latency_delayed@ =~= all_events.skip(i + 1));
                assert(self.sim_latency_delivery_times@ =~= all_times.skip(i + 1));
                assert(released@ =~= all_events.take(i + 1));
                assert(i < all_times.len());
                i = i + 1;
            }
        }
        released
    }
}

/// `count_due` counts a prefix: it never exceeds the length, and it is 0
/// on an empty or not-yet-due front.
proof fn lemma_count_due_bounds(times: Seq<u64>, now_ms: u64)
    ensures
        0 <= count_due(times, now_ms) <= times.len(),
        times.len() > 0 && times[0] <= now_ms ==> count_due(times, now_ms) >= 1,
        times.len() == 0 || times[0] > now_ms ==> count_due(times, now_ms) == 0,
    decreases times.len(),
{
    if times.len() > 0 && times[0] <= now_ms {
        lemma_count_due_bounds(times.drop_first(), now_ms);
    }
}

/// Inserting `t` after everything at most `t` and before anything greater
/// keeps the times sorted.
proof fn lemma_sorted_insert_times(s: Seq<u64>, idx: int, t: u64)
    requires
        sorted_u64(s),
        0 <= idx <= s.len(),
        forall|j: int| 0 <= j < idx ==> #[trigger] s[j] <= t,
        idx < s.len() ==> s[idx] > t,
    ensures
        sorted_u64(s.insert(idx, t)),
{
    let s2 = s.insert(idx, t);
    assert forall|i: int, j: int|
        0 <= i < j < s2.len() implies #[trigger] s2[i] <= #[trigger] s2[j] by {
        if i == idx && j > idx {
            assert(s2[j] == s[j - 1]);
            assert(s[idx] <= s[j - 1] || idx == j - 1);
        } else if i < idx && j > idx {
            assert(s2[i] == s[i] && s2[j] == s[j - 1]);
        } else if i > idx && j > idx {
            assert(s2[i] == s[i - 1] && s2[j] == s[j - 1]);
        }
    }
}

} // verus!
