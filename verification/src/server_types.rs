//! Server-side bookkeeping: per-connection state, the jitter buffer's two
//! states, and the `NetId` mint.

use vstd::prelude::*;
use crate::registry::PeerAddr;
use crate::types::{NetId, PingData, PlayerInputData};

verus! {

/// One input as the server received it, with the ingest wall-clock time
/// in milliseconds.
#[derive(Clone, Copy, PartialEq, Eq, Structural, Debug)]
pub struct ReceivedPlayerInput {
    pub data: PlayerInputData,
    pub time_received: u64,
}

/// The two states of a connection's jitter buffer.
#[derive(Clone, Copy, PartialEq, Eq, Structural, Debug)]
pub enum NetInputState {
    Buffering,
    Playing,
}

impl Default for NetInputState {
    fn default() -> (r: NetInputState)
        ensures
            r == NetInputState::Buffering,
    {
        NetInputState::Buffering
    }
}

/// A connection's buffered inputs and pending pings.
pub struct NetInput {
    pub input_state: NetInputState,
    pub inputs: Vec<ReceivedPlayerInput>,
    pub pings: Vec<PingData>,
}

impl Default for NetInput {
    fn default() -> (r: NetInput)
        ensures
            r.input_state == NetInputState::Buffering,
            r.inputs@ == Seq::<ReceivedPlayerInput>::empty(),
            r.pings@ == Seq::<PingData>::empty(),
    {
        NetInput { input_state: NetInputState::Buffering, inputs: Vec::new(), pings: Vec::new() }
    }
}

/// A connected player: its address, the two entities spawned for it, the
/// last input sequence applied to its paddle, and its player index.
#[derive(Clone, Copy, PartialEq, Eq, Structural, Debug)]
pub struct NetConnection {
    pub addr: PeerAddr,
    pub paddle_net_id: NetId,
    pub ball_net_id: NetId,
    pub last_applied_input: u32,
    pub player_index: u8,
}

/// All connected players, and the next player index to hand out. Indices
/// are never recycled.
pub struct NetConnections {
    pub entries: Vec<(NetConnection, NetInput)>,
    pub next_player_index: u8,
}

impl Default for NetConnections {
    fn default() -> (r: NetConnections)
        ensures
            r.entries@.len() == 0,
            r.next_player_index == 0,
    {
        NetConnections { entries: Vec::new(), next_player_index: 0 }
    }
}

/// Mints `NetId`s, counting up from 1: `NetId(0)` stays reserved for the
/// score singleton, and no id is ever reused.
pub struct NetIdGenerator {
    pub next_id: u16,
}

impl NetIdGenerator {
    /// The next id this generator will hand out.
    pub open spec fn spec_next(&self) -> u16 {
        self.next_id
    }

    /// Ids already handed out all lie below the mark, and 0 never is.
    pub open spec fn minted(&self, id: NetId) -> bool {
        1 <= id.0 < self.next_id
    }
}

impl Default for NetIdGenerator {
    fn default() -> (r: NetIdGenerator)
        ensures
            r.spec_next() == 1,
    {
        NetIdGenerator { next_id: 1 }
    }
}

impl NetIdGenerator {
    /// Hands out the next id, never 0 and never one minted before.
    pub fn next(&mut self) -> (r: NetId)
        requires
            1 <= old(self).spec_next() < u16::MAX,
        ensures
            r.0 == old(self).spec_next(),
            final(self).spec_next() == old(self).spec_next() + 1,
            final(self).minted(r),
            forall|id: NetId| old(self).minted(id) ==> #[trigger] final(self).minted(id),
            !old(self).minted(r),
    {
        let next = self.next_id;
        self.next_id = self.next_id + 1;
        NetId(next)
    }
}

} // verus!
