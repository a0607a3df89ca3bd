//! The server's connection registry: which peers are live, and when each
//! was last heard from. Any datagram from a peer (a zero-length heartbeat
//! included) refreshes its timestamp; a sweep each tick removes every peer
//! that has been silent longer than the idle timeout.

use vstd::prelude::*;
use vstd::pervasive::VecAdditionalExecFns;
use crate::consts::IDLE_TIMEOUT_MS;

verus! {

/// A peer's address: IPv4 host and UDP port, as plain values.
#[derive(Clone, Copy, PartialEq, Eq, Structural, Debug, Hash)]
pub struct PeerAddr {
    pub ip: u32,
    pub port: u16,
}

impl PeerAddr {
    pub fn new(ip: u32, port: u16) -> (r: PeerAddr)
        ensures
            r.ip == ip && r.port == port,
    {
        PeerAddr { ip, port }
    }
}

/// Whether some entry of `s` carries address `a`.
pub open spec fn has_addr(s: Seq<(PeerAddr, u64)>, a: PeerAddr) -> bool {
    exists|i: int| 0 <= i < s.len() && (#[trigger] s[i]).0 == a
}

/// No address occurs twice.
pub open spec fn addrs_unique(s: Seq<(PeerAddr, u64)>) -> bool {
    forall|i: int, j: int|
        0 <= i < s.len() && 0 <= j < s.len() && i != j ==> (#[trigger] s[i]).0 != (
        #[trigger] s[j]).0
}

/// An entry silent past the timeout at time `now_ms`.
pub open spec fn entry_expired(e: (PeerAddr, u64), idle_timeout_ms: u64, now_ms: u64) -> bool {
    e.1 + idle_timeout_ms < now_ms
}

/// Live connections and their last-activity times, milliseconds.
pub struct NetworkResource {
    pub connections: Vec<(PeerAddr, u64)>,
    pub idle_timeout_ms: u64,
}

impl NetworkResource {
    /// The registry's invariant: one entry per peer.
    pub open spec fn wf(&self) -> bool {
        addrs_unique(self.connections@)
    }

    /// An empty registry with the default idle timeout.
    pub fn new() -> (r: NetworkResource)
        ensures
            r.wf(),
            r.connections@.len() == 0,
            r.idle_timeout_ms == IDLE_TIMEOUT_MS,
    {
        NetworkResource { connections: Vec::new(), idle_timeout_ms: IDLE_TIMEOUT_MS }
    }

    /// Records a datagram from `addr` at `now_ms`: refreshes the peer's
    /// last-activity time, or registers it. Returns true exactly when the
    /// peer is new — the caller then raises a connected event. A heartbeat
    /// refreshes liveness through here like any other datagram.
    #[verifier::loop_isolation(false)]
    pub fn note_activity(&mut self, addr: PeerAddr, now_ms: u64) -> (is_new: bool)
        requires
            old(self).wf(),
        ensures
            final(self).wf(),
            final(self).idle_timeout_ms == old(self).idle_timeout_ms,
            is_new <==> !has_addr(old(self).connections@, addr),
            is_new ==> final(self).connections@ == old(self).connections@.push((addr, now_ms)),
            !is_new ==> {
                exists|i: int|
                    {
                        &&& 0 <= i < old(self).connections@.len()
                        &&& (#[trigger] old(self).connections@[i]).0 == addr
                        &&& final(self).connections@ == old(self).connections@.update(
                            i,
                            (addr, now_ms),
                        )
                    }
            },
            has_addr(final(self).connections@, addr),
    {
        let n = self.connections.len();
        let mut i: usize = 0;
        while i < n
            invariant
                i <= n,
                forall|j: int| 0 <= j < i ==> (#[trigger] self.connections@[j]).0 != addr,
                self == old(self),
            decreases n - i,
        {
            if self.connections[i].0.ip == addr.ip && self.connections[i].0.port == addr.port {
                let entry = (addr, now_ms);
                self.connections.set(i, entry);
                proof {
                    assert((old(self).connections@[i as int]).0 == addr);
                    assert((self.connections@[i as int]).0 == addr);
                    assert(has_addr(old(self).connections@, addr));
                }
                return false;
            }
            i = i + 1;
        }
        proof {
            assert(!has_addr(self.connections@, addr));
        }
        self.connections.push((addr, now_ms));
        proof {
            let s = self.connections@;
            assert((s[s.len() - 1]).0 == addr);
            assert forall|i2: int, j2: int|
                0 <= i2 < s.len() && 0 <= j2 < s.len() && i2 != j2 implies (#[trigger] s[i2]).0 != (
            #[trigger] s[j2]).0 by {
                if i2 < s.len() - 1 && j2 < s.len() - 1 {
                    assert((old(self).connections@[i2]).0 != (old(self).connections@[j2]).0);
                }
            }
        }
        true
    }

    /// The idle-timeout sweep: removes every peer whose last activity lies
    /// more than the idle timeout before `now_ms`, and returns their
    /// addresses (the caller raises disconnected events and despawns their
    /// entities). Survivors keep their times and order.
    #[verifier::loop_isolation(false)]
    pub fn sweep_idle(&mut self, now_ms: u64) -> (removed: Vec<PeerAddr>)
        requires
            old(self).wf(),
        ensures
            final(self).wf(),
            final(self).idle_timeout_ms == old(self).idle_timeout_ms,
            final(self).connections@ == old(self).connections@.filter(
                |e: (PeerAddr, u64)| !entry_expired(e, old(self).idle_timeout_ms, now_ms),
            ),
            removed@ == old(self).connections@.filter(
                |e: (PeerAddr, u64)| entry_expired(e, old(self).idle_timeout_ms, now_ms),
            ).map_values(|e: (PeerAddr, u64)| e.0),
    {
        let ghost keep_pred = |e: (PeerAddr, u64)|
            !entry_expired(e, old(self).idle_timeout_ms, now_ms);
        let ghost drop_pred = |e: (PeerAddr, u64)|
            entry_expired(e, old(self).idle_timeout_ms, now_ms);
        let ghost all = self.connections@;
        let timeout = self.idle_timeout_ms;
        let mut kept: Vec<(PeerAddr, u64)> = Vec::new();
        let mut removed: Vec<PeerAddr> = Vec::new();
        let n = self.connections.len();
        proof {
            reveal(Seq::filter);
            assert(all.take(0).filter(keep_pred) =~= Seq::<(PeerAddr, u64)>::empty());
            assert(all.take(0).filter(drop_pred) =~= Seq::<(PeerAddr, u64)>::empty());
        }
        let mut i: usize = 0;
        while i < n
            invariant
                i <= n,
                self == old(self),
                timeout == old(self).idle_timeout_ms,
                kept@ == all.take(i as int).filter(keep_pred),
                removed@ == all.take(i as int).filter(drop_pred).map_values(
                    |e: (PeerAddr, u64)| e.0,
                ),
            decreases n - i,
        {
            let e = self.connections[i];
            proof {
                reveal(Seq::filter);
                assert(all.take(i + 1).drop_last() =~= all.take(i as int));
                assert(all.take(i + 1).last() == e);
            }
            let is_expired: bool = now_ms > timeout && e.1 < now_ms - timeout;
            if is_expired {
                removed.push(e.0);
                proof {
                    reveal(Seq::filter);
                    assert(drop_pred(e) && !keep_pred(e));
                    assert(removed@ =~= all.take(i + 1).filter(drop_pred).map_values(
                        |e2: (PeerAddr, u64)| e2.0,
                    ));
                    assert(kept@ =~= all.take(i + 1).filter(keep_pred));
                }
            } else {
                kept.push(e);
                proof {
                    reveal(Seq::filter);
                    assert(keep_pred(e) && !drop_pred(e));
                    assert(removed@ =~= all.take(i + 1).filter(drop_pred).map_values(
                        |e2: (PeerAddr, u64)| e2.0,
                    ));
                    assert(kept@ =~= all.take(i + 1).filter(keep_pred));
                }
            }
            i = i + 1;
        }
        proof {
            assert(all.take(n as int) =~= all);
            lemma_filter_unique(all, keep_pred);
        }
        self.connections = kept;
        removed
    }
}

/// Filtering keeps distinct addresses distinct.
proof fn lemma_filter_unique(s: Seq<(PeerAddr, u64)>, pred: spec_fn((PeerAddr, u64)) -> bool)
    requires
        addrs_unique(s),
    ensures
        addrs_unique(s.filter(pred)),
    decreases s.len(),
{
    reveal(Seq::filter);
    if s.len() > 0 {
        lemma_filter_unique(s.drop_last(), pred);
        let f = s.filter(pred);
        let fd = s.drop_last().filter(pred);
        assert forall|i: int, j: int|
            0 <= i < f.len() && 0 <= j < f.len() && i != j implies (#[trigger] f[i]).0 != (
        #[trigger] f[j]).0 by {
            s.lemma_filter_len(pred);
            s.drop_last().lemma_filter_len(pred);
            if pred(s.last()) {
                assert(f == fd.push(s.last()));
                if i < f.len() - 1 && j < f.len() - 1 {
                    assert(f[i] == fd[i] && f[j] == fd[j]);
                } else {
                    let k = if i < f.len() - 1 {
                        i
                    } else {
                        j
                    };
                    assert(f[k] == fd[k]);
                    assert(fd.contains(fd[k]));
                    s.drop_last().lemma_filter_contains_rev(pred, fd[k]);
                    let m = choose|m: int|
                        0 <= m < s.drop_last().len() && s.drop_last()[m] == fd[k];
                    assert(s[m] == fd[k]);
                    assert(s[s.len() - 1] == s.last());
                }
            } else {
                assert(f == fd);
            }
        }
    }
}

} // verus!
