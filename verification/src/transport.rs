//! The send side of the transport: a queue of outgoing datagrams with an
//! optional latency/loss profile. A profiled send rolls per packet: pass,
//! drop, or delay to a release time. Release times are kept sorted and
//! paired with the queue by position, so datagrams still leave in send
//! order; `drain_messages_to_send` hands back the due ones.
//!
//! Also here: the client's heartbeat timer, which enqueues a zero-length
//! datagram on a fixed cadence so the server's liveness timer stays fresh.

use vstd::prelude::*;
use crate::consts::HEARTBEAT_TICK_RATE_MS;
use crate::registry::PeerAddr;
use crate::rng::thread_gen_range_u32;
use vstd::slice::slice_to_vec;

verus! {

/// One outgoing datagram.
pub struct Message {
    /// The destination to send the message to.
    pub destination: PeerAddr,
    /// The serialized payload itself.
    pub payload: Vec<u8>,
}

impl Message {
    /// Creates and returns a new Message, copying the payload.
    pub fn new(destination: PeerAddr, payload: &[u8]) -> (r: Message)
        ensures
            r.destination == destination,
            r.payload@ == payload@,
    {
        Message { destination, payload: slice_to_vec(payload) }
    }
}

/// Base delay and jitter width of one direction's latency simulation.
#[derive(Clone, Copy, PartialEq, Eq, Structural, Debug)]
pub struct SimLatency {
    pub base_ms: u32,
    pub jitter_stddev_ms: u32,
}

impl Default for SimLatency {
    fn default() -> (r: SimLatency)
        ensures
            r.base_ms == 0 && r.jitter_stddev_ms == 0,
    {
        SimLatency { base_ms: 0, jitter_stddev_ms: 0 }
    }
}

/// Loss probability of one direction, in thousandths; 1000 drops all.
#[derive(Clone, Copy, PartialEq, Eq, Structural, Debug)]
pub struct SimLoss {
    pub loss_permille: u32,
}

impl Default for SimLoss {
    fn default() -> (r: SimLoss)
        ensures
            r.loss_permille == 0,
    {
        SimLoss { loss_permille: 0 }
    }
}

/// One direction's full simulation profile.
#[derive(Clone, Copy, PartialEq, Eq, Structural, Debug)]
pub struct SimLatencySetting {
    pub latency: SimLatency,
    pub loss: SimLoss,
}

impl Default for SimLatencySetting {
    fn default() -> (r: SimLatencySetting)
        ensures
            r == (SimLatencySetting {
                latency: SimLatency { base_ms: 0, jitter_stddev_ms: 0 },
                loss: SimLoss { loss_permille: 0 },
            }),
    {
        SimLatencySetting {
            latency: SimLatency { base_ms: 0, jitter_stddev_ms: 0 },
            loss: SimLoss { loss_permille: 0 },
        }
    }
}

/// Both directions' profiles.
#[derive(Clone, Copy, PartialEq, Eq, Structural, Debug)]
pub struct SimLatencySettings {
    pub send: SimLatencySetting,
    pub receive: SimLatencySetting,
}

impl Default for SimLatencySettings {
    fn default() -> (r: SimLatencySettings)
        ensures
            !r.send.spec_is_set(),
            !r.receive.spec_is_set(),
            r.send.loss.loss_permille == 0 && r.receive.loss.loss_permille == 0,
    {
        SimLatencySettings { send: SimLatencySetting::default(), receive: SimLatencySetting::default() }
    }
}

/// What one profiled roll decided for one packet.
#[derive(Clone, Copy, PartialEq, Eq, Structural, Debug)]
pub enum SimLatencyRollResult {
    /// No profile set: the packet passes untouched.
    NoOp,
    /// The packet is lost.
    Drop,
    /// The packet is held until this release time (milliseconds).
    Delay(u64),
}

impl SimLatencySetting {
    /// Whether any of the profile's knobs is set.
    pub open spec fn spec_is_set(&self) -> bool {
        self.latency.base_ms != 0 || self.latency.jitter_stddev_ms != 0 || self.loss.loss_permille
            != 0
    }

    pub fn is_set(&self) -> (r: bool)
        ensures
            r == self.spec_is_set(),
    {
        self.latency.base_ms != 0 || self.latency.jitter_stddev_ms != 0 || self.loss.loss_permille
            != 0
    }

    /// Rolls one packet's fate. The loss roll is drawn from `rng`; the
    /// delay, when one applies, is `now_ms` plus the sampled latency
    /// `latency_sample_ms` (base plus jitter, drawn by the caller from a
    /// normal distribution and clamped at zero here). With no profile set
    /// the result is `NoOp`; with `loss_permille` at 0 nothing is ever
    /// dropped, at 1000 or more everything is.
    pub fn roll(
        &self,
        rng: &mut rand::rngs::ThreadRng,
        latency_sample_ms: i64,
        now_ms: u64,
    ) -> (r: SimLatencyRollResult)
        ensures
            roll_consistent(*self, r),
            !self.spec_is_set() ==> r == SimLatencyRollResult::NoOp,
            self.loss.loss_permille == 0 ==> !(r is Drop),
            self.spec_is_set() && self.loss.loss_permille >= 1000 ==> r
                == SimLatencyRollResult::Drop,
            r matches SimLatencyRollResult::Delay(t) ==> t == delay_until(
                now_ms,
                latency_sample_ms,
                self.latency,
            ),
    {
        if !self.is_set() {
            return SimLatencyRollResult::NoOp;
        }
        if self.loss.loss_permille > 0 {
            let draw = thread_gen_range_u32(rng, 0, 999);
            if draw < self.loss.loss_permille {
                return SimLatencyRollResult::Drop;
            }
        }
        if self.latency.base_ms > 0 || self.latency.jitter_stddev_ms > 0 {
            if latency_sample_ms > 0 {
                let extra = latency_sample_ms as u64;
                if now_ms > u64::MAX - extra {
                    return SimLatencyRollResult::Delay(u64::MAX);
                }
                return SimLatencyRollResult::Delay(now_ms + extra);
            }
            return SimLatencyRollResult::Delay(now_ms);
        }
        SimLatencyRollResult::Delay(now_ms)
    }
}

/// The release time a delay roll produces: `now` plus the positive part
/// of the sampled latency, saturating.
pub open spec fn delay_until(now_ms: u64, latency_sample_ms: i64, latency: SimLatency) -> u64 {
    if latency.base_ms > 0 || latency.jitter_stddev_ms > 0 {
        if latency_sample_ms > 0 {
            if now_ms + latency_sample_ms > u64::MAX {
                u64::MAX
            } else {
                (now_ms + latency_sample_ms) as u64
            }
        } else {
            now_ms
        }
    } else {
        now_ms
    }
}

/// A roll a given profile can produce: `NoOp` exactly when no profile is
/// set.
pub open spec fn roll_consistent(setting: SimLatencySetting, r: SimLatencyRollResult) -> bool {
    (r is NoOp <==> !setting.spec_is_set())
}

/// Which queued messages a drain takes.
pub enum MessageFilter {
    /// Every due message.
    All,
    /// None at all.
    Nothing,
    /// Only due messages whose payload equals this one.
    PayloadIs(Vec<u8>),
}

/// Whether `m` passes `f`.
pub open spec fn filter_matches(f: MessageFilter, m: Message) -> bool {
    match f {
        MessageFilter::All => true,
        MessageFilter::Nothing => false,
        MessageFilter::PayloadIs(p) => m.payload@ == p@,
    }
}

fn message_matches(f: &MessageFilter, m: &Message) -> (r: bool)
    ensures
        r == filter_matches(*f, *m),
{
    match f {
        MessageFilter::All => true,
        MessageFilter::Nothing => false,
        MessageFilter::PayloadIs(p) => bytes_eq(m.payload.as_slice(), p.as_slice()),
    }
}

fn bytes_eq(a: &[u8], b: &[u8]) -> (r: bool)
    ensures
        r == (a@ == b@),
{
    if a.len() != b.len() {
        assert(a@.len() != b@.len());
        return false;
    }
    let mut i: usize = 0;
    while i < a.len()
        invariant
            i <= a@.len(),
            a@.len() == b@.len(),
            forall|j: int| 0 <= j < i ==> a@[j] == b@[j],
        decreases a@.len() - i,
    {
        if a[i] != b[i] {
            return false;
        }
        i = i + 1;
    }
    proof {
        assert(a@ =~= b@);
    }
    true
}

/// Nondecreasing sequence of release times.
pub open spec fn sorted_u64(s: Seq<u64>) -> bool {
    forall|i: int, j: int| 0 <= i < j < s.len() ==> #[trigger] s[i] <= #[trigger] s[j]
}

/// Owner of the queue of messages to be sent, and the interface through
/// which the rest of the endpoint sends.
pub struct Transport {
    pub messages: Vec<Message>,
    /// Sorted release times, positionally paired with `messages` while
    /// the send profile is set. Sorting the times rather than the
    /// messages keeps departures in send order; a packet may leave under
    /// a delay rolled for a neighbour.
    pub sim_send_times: Vec<u64>,
    pub sim_send_settings: SimLatencySetting,
}

impl Transport {
    /// The queue invariant: with a profile set, one release time per
    /// message, sorted; without, no release times at all.
    pub open spec fn wf(&self) -> bool {
        &&& (self.sim_send_settings.spec_is_set() ==> {
            &&& self.sim_send_times@.len() == self.messages@.len()
            &&& sorted_u64(self.sim_send_times@)
        })
        &&& (!self.sim_send_settings.spec_is_set() ==> self.sim_send_times@.len() == 0)
    }

    /// Creates a new `Transport` with the given send profile.
    pub fn new(sim_send_settings: SimLatencySetting) -> (r: Transport)
        ensures
            r.wf(),
            r.messages@.len() == 0,
            r.sim_send_times@.len() == 0,
            r.sim_send_settings == sim_send_settings,
    {
        Transport { messages: Vec::new(), sim_send_times: Vec::new(), sim_send_settings }
    }

    /// Returns true if there are messages enqueued to be sent.
    pub fn has_messages(&self) -> (r: bool)
        ensures
            r == (self.messages@.len() > 0),
    {
        self.messages.len() > 0
    }

    /// Returns a reference to the owned messages.
    pub fn get_messages(&self) -> (r: &Vec<Message>)
        ensures
            r == &self.messages,
    {
        &self.messages
    }

    /// Enqueues a payload for `destination` under an already-rolled fate:
    /// a dropped packet vanishes, a passed one joins the queue, a delayed
    /// one joins the queue with its release time slotted into the sorted
    /// list.
    pub fn send(&mut self, destination: PeerAddr, payload: &[u8], roll: SimLatencyRollResult)
        requires
            old(self).wf(),
            roll_consistent(old(self).sim_send_settings, roll),
        ensures
            final(self).wf(),
            final(self).sim_send_settings == old(self).sim_send_settings,
            roll is Drop ==> final(self).messages == old(self).messages && final(self).sim_send_times == old(self).sim_send_times,
            !(roll is Drop) ==> {
                &&& final(self).messages@.len() == old(self).messages@.len() + 1
                &&& final(self).messages@.subrange(0, old(self).messages@.len() as int) == old(
                    self,
                ).messages@
                &&& final(self).messages@.last().destination == destination
                &&& final(self).messages@.last().payload@ == payload@
            },
            roll matches SimLatencyRollResult::Delay(t) ==> exists|idx: int|
                0 <= idx <= old(self).sim_send_times@.len() && final(self).sim_send_times@
                    == #[trigger] old(self).sim_send_times@.insert(idx, t),
            roll is NoOp ==> final(self).sim_send_times == old(self).sim_send_times,
    {
        match roll {
            SimLatencyRollResult::NoOp => {},
            SimLatencyRollResult::Drop => {
                return ;
            },
            SimLatencyRollResult::Delay(t) => {
                let idx = self.first_later_index(t);
                self.sim_send_times.insert(idx, t);
                proof {
                    lemma_sorted_insert(old(self).sim_send_times@, idx as int, t);
                }
            },
        }
        let message = Message::new(destination, payload);
        self.messages.push(message);
        proof {
            assert(self.messages@.subrange(0, old(self).messages@.len() as int) =~= old(
                self,
            ).messages@);
        }
    }

    /// First position whose release time lies after `t`; times before it
    /// are at most `t`.
    fn first_later_index(&self, t: u64) -> (idx: usize)
        ensures
            0 <= idx <= self.sim_send_times@.len(),
            forall|j: int| 0 <= j < idx ==> #[trigger] self.sim_send_times@[j] <= t,
            idx < self.sim_send_times@.len() ==> self.sim_send_times@[idx as int] > t,
    {
        let mut i: usize = 0;
        while i < self.sim_send_times.len()
            invariant
                i <= self.sim_send_times@.len(),
                forall|j: int| 0 <= j < i ==> #[trigger] self.sim_send_times@[j] <= t,
            decreases self.sim_send_times@.len() - i,
        {
            if self.sim_send_times[i] > t {
                return i;
            }
            i = i + 1;
        }
        i
    }

    /// Drains and returns the due messages that pass the filter: with a
    /// profile set, those whose positional release time has passed; with
    /// none, every match. Send order is preserved on both sides of the
    /// split.
    #[verifier::loop_isolation(false)]
    pub fn drain_messages_to_send(&mut self, filter: &MessageFilter, now_ms: u64) -> (drained: Vec<
        Message,
    >)
        requires
            old(self).wf(),
        ensures
            final(self).wf(),
            final(self).sim_send_settings == old(self).sim_send_settings,
            drained@ == drain_take_indices(*old(self), *filter, now_ms).map_values(
                |k: int| old(self).messages@[k],
            ),
            final(self).messages@ == drain_keep_indices(*old(self), *filter, now_ms).map_values(
                |k: int| old(self).messages@[k],
            ),
            old(self).sim_send_settings.spec_is_set() ==> final(self).sim_send_times@
                == drain_keep_indices(*old(self), *filter, now_ms).map_values(
                |k: int| old(self).sim_send_times@[k],
            ),
            drained@.len() + final(self).messages@.len() == old(self).messages@.len(),
    {
        let using_send_sim = self.sim_send_settings.is_set();
        let ghost all_msgs = self.messages@;
        let ghost all_times = self.sim_send_times@;
        let ghost take = drain_take_pred(*old(self), *filter, now_ms);
        let ghost indices = Seq::new(all_msgs.len() as nat, |k: int| k);
        let mut drained: Vec<Message> = Vec::new();
        let mut kept: Vec<Message> = Vec::new();
        let mut kept_times: Vec<u64> = Vec::new();
        let n = self.messages.len();
        proof {
            reveal(Seq::filter);
            assert(indices.take(0).filter(take) =~= Seq::<int>::empty());
            assert(indices.take(0).filter(|k2: int| !take(k2)) =~= Seq::<int>::empty());
        }
        let mut k: usize = 0;
        while k < n
            invariant
                k <= n,
                n == all_msgs.len(),
                self.messages@ == all_msgs.skip(k as int),
                using_send_sim ==> self.sim_send_times@ == all_times.skip(k as int),
                !using_send_sim ==> self.sim_send_times@.len() == 0,
                self.sim_send_settings == old(self).sim_send_settings,
                using_send_sim == old(self).sim_send_settings.spec_is_set(),
                drained@ == indices.take(k as int).filter(take).map_values(
                    |k2: int| all_msgs[k2],
                ),
                kept@ == indices.take(k as int).filter(|k2: int| !take(k2)).map_values(
                    |k2: int| all_msgs[k2],
                ),
                using_send_sim ==> kept_times@ == indices.take(k as int).filter(
                    |k2: int| !take(k2),
                ).map_values(|k2: int| all_times[k2]),
                !using_send_sim ==> kept_times@.len() == 0,
                drained@.len() + kept@.len() == k,
            decreases n - k,
        {
            proof {
                reveal(Seq::filter);
                assert(indices.take(k + 1).drop_last() =~= indices.take(k as int));
                assert(indices.take(k + 1).last() == k as int);
                assert(all_msgs.skip(k as int)[0] == all_msgs[k as int]);
            }
            let m = self.messages.remove(0);
            proof {
                assert(self.messages@ =~= all_msgs.skip(k + 1));
            }
            let matched = message_matches(filter, &m);
            if using_send_sim {
                proof {
                    assert(all_times.skip(k as int)[0] == all_times[k as int]);
                }
                let t = self.sim_send_times.remove(0);
                proof {
                    assert(self.sim_send_times@ =~= all_times.skip(k + 1));
                }
                if t <= now_ms && matched {
                    drained.push(m);
                    proof {
                        assert(take(k as int));
                        assert(drained@ =~= indices.take(k + 1).filter(take).map_values(
                            |k2: int| all_msgs[k2],
                        ));
                        assert(kept@ =~= indices.take(k + 1).filter(
                            |k2: int| !take(k2),
                        ).map_values(|k2: int| all_msgs[k2]));
                        assert(kept_times@ =~= indices.take(k + 1).filter(
                            |k2: int| !take(k2),
                        ).map_values(|k2: int| all_times[k2]));
                    }
                } else {
                    kept.push(m);
                    kept_times.push(t);
                    proof {
                        assert(!take(k as int));
                        assert(drained@ =~= indices.take(k + 1).filter(take).map_values(
                            |k2: int| all_msgs[k2],
                        ));
                        assert(kept@ =~= indices.take(k + 1).filter(
                            |k2: int| !take(k2),
                        ).map_values(|k2: int| all_msgs[k2]));
                        assert(kept_times@ =~= indices.take(k + 1).filter(
                            |k2: int| !take(k2),
                        ).map_values(|k2: int| all_times[k2]));
                    }
                }
            } else {
                if matched {
                    drained.push(m);
                    proof {
                        assert(take(k as int));
                        assert(drained@ =~= indices.take(k + 1).filter(take).map_values(
                            |k2: int| all_msgs[k2],
                        ));
                        assert(kept@ =~= indices.take(k + 1).filter(
                            |k2: int| !take(k2),
                        ).map_values(|k2: int| all_msgs[k2]));
                    }
                } else {
                    kept.push(m);
                    proof {
                        assert(!take(k as int));
                        assert(drained@ =~= indices.take(k + 1).filter(take).map_values(
                            |k2: int| all_msgs[k2],
                        ));
                        assert(kept@ =~= indices.take(k + 1).filter(
                            |k2: int| !take(k2),
                        ).map_values(|k2: int| all_msgs[k2]));
                    }
                }
            }
            k = k + 1;
        }
        self.messages = kept;
        self.sim_send_times = kept_times;
        proof {
            assert(indices.take(n as int) =~= indices);
            if old(self).sim_send_settings.spec_is_set() {
                assert(all_times.len() == all_msgs.len());
                lemma_indices_filter_increasing(all_msgs.len() as int, |k2: int| !take(k2));
                let keepi = indices.filter(|k2: int| !take(k2));
                assert forall|i: int, j: int|
                    0 <= i < j < kept_times@.len() implies #[trigger] kept_times@[i]
                    <= #[trigger] kept_times@[j] by {
                    assert(0 <= keepi[i] < all_msgs.len());
                    assert(0 <= keepi[j] < all_msgs.len());
                    assert(keepi[i] < keepi[j]);
                    assert(kept_times@[i] == all_times[keepi[i]]);
                    assert(kept_times@[j] == all_times[keepi[j]]);
                }
            }
        }
        drained
    }
}

/// The per-position predicate a drain uses: the release time has passed
/// (always true without a profile) and the filter matches.
pub open spec fn drain_take_pred(t: Transport, filter: MessageFilter, now_ms: u64) -> spec_fn(
    int,
) -> bool {
    |k: int|
        (if t.sim_send_settings.spec_is_set() {
            t.sim_send_times@[k] <= now_ms
        } else {
            true
        }) && filter_matches(filter, t.messages@[k])
}

/// The queue positions a drain removes, in order.
pub open spec fn drain_take_indices(t: Transport, filter: MessageFilter, now_ms: u64) -> Seq<int> {
    Seq::new(t.messages@.len() as nat, |k: int| k).filter(drain_take_pred(t, filter, now_ms))
}

/// The queue positions a drain keeps, in order.
pub open spec fn drain_keep_indices(t: Transport, filter: MessageFilter, now_ms: u64) -> Seq<int> {
    Seq::new(t.messages@.len() as nat, |k: int| k).filter(
        |k: int| !(drain_take_pred(t, filter, now_ms)(k)),
    )
}

/// Filtering the index sequence `0..n` keeps it strictly increasing and
/// within range.
proof fn lemma_indices_filter_increasing(n: int, pred: spec_fn(int) -> bool)
    requires
        0 <= n,
    ensures
        ({
            let f = Seq::new(n as nat, |k: int| k).filter(pred);
            &&& forall|i: int, j: int| 0 <= i < j < f.len() ==> #[trigger] f[i] < #[trigger] f[j]
            &&& forall|i: int| 0 <= i < f.len() ==> 0 <= #[trigger] f[i] < n
        }),
    decreases n,
{
    reveal(Seq::filter);
    let s = Seq::new(n as nat, |k: int| k);
    if n == 0 {
        assert(s =~= Seq::<int>::empty());
    } else {
        lemma_indices_filter_increasing(n - 1, pred);
        let sp = Seq::new((n - 1) as nat, |k: int| k);
        assert(s.drop_last() =~= sp);
        assert(s.last() == n - 1);
        let f = s.filter(pred);
        let fp = sp.filter(pred);
        assert forall|i: int| 0 <= i < f.len() implies 0 <= #[trigger] f[i] < n by {
            if pred(n - 1) {
                assert(f == fp.push(n - 1));
                if i < f.len() - 1 {
                    assert(f[i] == fp[i]);
                }
            } else {
                assert(f == fp);
            }
        }
        assert forall|i: int, j: int| 0 <= i < j < f.len() implies #[trigger] f[i] < #[trigger] f[j] by {
            if pred(n - 1) {
                assert(f == fp.push(n - 1));
                if j < f.len() - 1 {
                    assert(f[i] == fp[i] && f[j] == fp[j]);
                } else {
                    assert(f[j] == n - 1);
                    if i < f.len() - 1 {
                        assert(f[i] == fp[i]);
                        assert(0 <= fp[i] < n - 1);
                    }
                }
            } else {
                assert(f == fp);
            }
        }
    }
}

/// Inserting `t` where everything before is at most `t` and the next
/// element is greater keeps the sequence sorted.
proof fn lemma_sorted_insert(s: Seq<u64>, idx: int, t: u64)
    requires
        sorted_u64(s),
        0 <= idx <= s.len(),
        forall|j: int| 0 <= j < idx ==> #[trigger] s[j] <= t,
        idx < s.len() ==> s[idx] > t,
    ensures
        sorted_u64(s.insert(idx, t)),
{
    let s2 = s.insert(idx, t);
    assert forall|i: int, j: int| 0 <= i < j < s2.len() implies #[trigger] s2[i] <= #[trigger] s2[j] by {
        if i < idx && j < idx {
        } else if i < idx && j == idx {
        } else if i == idx && j > idx {
            assert(s2[j] == s[j - 1]);
            assert(s[idx] <= s[j - 1] || idx == j - 1);
        } else if i < idx && j > idx {
            assert(s2[i] == s[i] && s2[j] == s[j - 1]);
        } else if i > idx && j > idx {
            assert(s2[i] == s[i - 1] && s2[j] == s[j - 1]);
        }
    }
}

// ------------------------------------------------------------- heartbeat --

/// Repeating timer driving the client's heartbeat.
pub struct HeartbeatTimer {
    pub period_ms: u64,
    pub elapsed_ms: u64,
}

impl HeartbeatTimer {
    /// A fresh timer with the default heartbeat cadence.
    pub fn new() -> (r: HeartbeatTimer)
        ensures
            r.period_ms == HEARTBEAT_TICK_RATE_MS,
            r.elapsed_ms == 0,
    {
        HeartbeatTimer { period_ms: HEARTBEAT_TICK_RATE_MS, elapsed_ms: 0 }
    }

    /// Advances the timer; returns true when the period just elapsed. A
    /// firing timer keeps the overshoot, so the cadence does not drift.
    pub fn tick(&mut self, delta_ms: u64) -> (fired: bool)
        requires
            old(self).period_ms > 0,
            old(self).elapsed_ms < old(self).period_ms,
            delta_ms <= u64::MAX - old(self).elapsed_ms,
        ensures
            final(self).period_ms == old(self).period_ms,
            fired <==> old(self).elapsed_ms + delta_ms >= old(self).period_ms,
            fired ==> final(self).elapsed_ms == (old(self).elapsed_ms + delta_ms) % (old(
                self,
            ).period_ms as int),
            !fired ==> final(self).elapsed_ms == old(self).elapsed_ms + delta_ms,
            final(self).elapsed_ms < final(self).period_ms,
    {
        let total = self.elapsed_ms + delta_ms;
        if total >= self.period_ms {
            self.elapsed_ms = total % self.period_ms;
            true
        } else {
            self.elapsed_ms = total;
            false
        }
    }
}

/// The heartbeat step run each client tick: when the timer fires, a
/// zero-length datagram to the server joins the send queue (subject to
/// the same send profile as everything else). The server refreshes the
/// peer's liveness on receiving it.
pub fn auto_heartbeat_system(
    timer: &mut HeartbeatTimer,
    delta_ms: u64,
    remote_addr: PeerAddr,
    transport: &mut Transport,
    roll: SimLatencyRollResult,
) -> (fired: bool)
    requires
        old(timer).period_ms > 0,
        old(timer).elapsed_ms < old(timer).period_ms,
        delta_ms <= u64::MAX - old(timer).elapsed_ms,
        old(transport).wf(),
        roll_consistent(old(transport).sim_send_settings, roll),
    ensures
        final(transport).wf(),
        fired <==> old(timer).elapsed_ms + delta_ms >= old(timer).period_ms,
        fired && !(roll is Drop) ==> {
            &&& final(transport).messages@.len() == old(transport).messages@.len() + 1
            &&& final(transport).messages@.last().payload@ == Seq::<u8>::empty()
            &&& final(transport).messages@.last().destination == remote_addr
        },
        !fired ==> final(transport).messages == old(transport).messages,
{
    let fired = timer.tick(delta_ms);
    if fired {
        let empty: Vec<u8> = Vec::new();
        transport.send(remote_addr, empty.as_slice(), roll);
        proof {
            if !(roll is Drop) {
                assert(transport.messages@.last().payload@ =~= Seq::<u8>::empty());
            }
        }
    }
    fired
}

} // verus!
