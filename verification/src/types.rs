//! Data model of the wire protocol: entities, inputs and the two packet
//! families. Coordinates are fixed-point milli-units (see `consts`).

use vstd::prelude::*;

verus! {

/// A 2D point or vector in milli-units.
#[derive(Clone, Copy, PartialEq, Eq, Structural, Debug)]
pub struct Vec2I {
    pub x: i32,
    pub y: i32,
}

impl Vec2I {
    pub fn new(x: i32, y: i32) -> (r: Vec2I)
        ensures
            r.x == x && r.y == y,
    {
        Vec2I { x, y }
    }
}

/// Server-minted stable identifier of a networked entity. `NetId(0)` is
/// reserved for the score singleton.
#[derive(Clone, Copy, PartialEq, Eq, Structural, Debug, Hash)]
pub struct NetId(pub u16);

/// Server-minted index of a connected player; never recycled.
#[derive(Clone, Copy, PartialEq, Eq, Structural, Debug, Hash)]
pub struct NetPlayerIndex(pub u8);

/// The two key bits of `PlayerInputData::key_mask`.
#[derive(Clone, Copy, PartialEq, Eq, Structural, Debug)]
pub enum NetKey {
    Left,
    Right,
}

/// Bit set in a key mask while the left key is held.
pub const KEY_MASK_LEFT: u8 = 1;
/// Bit set in a key mask while the right key is held.
pub const KEY_MASK_RIGHT: u8 = 2;

/// One sampled client input.
#[derive(Clone, Copy, PartialEq, Eq, Structural, Debug)]
pub struct PlayerInputData {
    /// Bit 0 = left held, bit 1 = right held.
    pub key_mask: u8,
    /// The server frame the client believes it is predicting from.
    pub simulating_frame: u32,
    /// Client-local monotonic sequence number.
    pub sequence: u32,
}

impl Default for PlayerInputData {
    fn default() -> (r: PlayerInputData)
        ensures
            r.key_mask == 0 && r.simulating_frame == 0 && r.sequence == 0,
    {
        PlayerInputData { key_mask: 0, simulating_frame: 0, sequence: 0 }
    }
}

/// Round-trip time probe; echoed verbatim by the server.
#[derive(Clone, Copy, PartialEq, Eq, Structural, Debug)]
pub struct PingData {
    pub ping_id: u32,
}

impl Default for PingData {
    fn default() -> (r: PingData)
        ensures
            r.ping_id == 0,
    {
        PingData { ping_id: 0 }
    }
}

/// Everything a client may say to the server.
#[derive(Clone, Copy, PartialEq, Eq, Structural, Debug)]
pub enum ClientToServerPacket {
    Input(PlayerInputData),
    Ping(PingData),
}

/// Snapshot payload of a paddle.
#[derive(Clone, Copy, PartialEq, Eq, Structural, Debug)]
pub struct NetPaddleData {
    pub pos: Vec2I,
    pub player_index: NetPlayerIndex,
}

/// Snapshot payload of a brick.
#[derive(Clone, Copy, PartialEq, Eq, Structural, Debug)]
pub struct NetBrickData {
    pub pos: Vec2I,
}

/// Snapshot payload of a ball. Velocity is milli-units per tick.
#[derive(Clone, Copy, PartialEq, Eq, Structural, Debug)]
pub struct NetBallData {
    pub pos: Vec2I,
    pub velocity: Vec2I,
    pub player_index: NetPlayerIndex,
}

/// Snapshot payload of the score singleton.
#[derive(Clone, Copy, PartialEq, Eq, Structural, Debug)]
pub struct NetScoreData {
    pub score: u32,
}

/// Tagged payload of one snapshot entity.
#[derive(Clone, Copy, PartialEq, Eq, Structural, Debug)]
pub enum NetEntityType {
    Paddle(NetPaddleData),
    Brick(NetBrickData),
    Ball(NetBallData),
    Score(NetScoreData),
}

/// One entity of a snapshot.
#[derive(Clone, Copy, PartialEq, Eq, Structural, Debug)]
pub struct NetEntity {
    pub entity_type: NetEntityType,
    pub net_id: NetId,
}

/// A full world snapshot, broadcast every server tick.
#[derive(Clone, PartialEq, Eq, Debug)]
pub struct NetWorldStateData {
    pub frame: u32,
    pub entities: Vec<NetEntity>,
}

impl Default for NetWorldStateData {
    fn default() -> (r: NetWorldStateData)
        ensures
            r.frame == 0 && r.entities@ == Seq::<NetEntity>::empty(),
    {
        NetWorldStateData { frame: 0, entities: Vec::new() }
    }
}

/// Everything the server may say to a client.
#[derive(Clone, PartialEq, Eq, Debug)]
pub enum ServerToClientPacket {
    WorldState(NetWorldStateData),
    Pong(PingData),
}

/// Spec-level model of a snapshot: the entity vector as a sequence.
pub struct WorldStateModel {
    pub frame: u32,
    pub entities: Seq<NetEntity>,
}

impl View for NetWorldStateData {
    type V = WorldStateModel;

    open spec fn view(&self) -> WorldStateModel {
        WorldStateModel { frame: self.frame, entities: self.entities@ }
    }
}

/// Spec-level model of a server-to-client packet.
pub enum ServerToClientModel {
    WorldState(WorldStateModel),
    Pong(PingData),
}

impl View for ServerToClientPacket {
    type V = ServerToClientModel;

    open spec fn view(&self) -> ServerToClientModel {
        match *self {
            ServerToClientPacket::WorldState(w) => ServerToClientModel::WorldState(w@),
            ServerToClientPacket::Pong(d) => ServerToClientModel::Pong(d),
        }
    }
}

/// Every `net_id` occurs at most once in the sequence.
pub open spec fn net_ids_unique(entities: Seq<NetEntity>) -> bool {
    forall|i: int, j: int|
        0 <= i < entities.len() && 0 <= j < entities.len() && i != j
            ==> (#[trigger] entities[i]).net_id != (#[trigger] entities[j]).net_id
}

} // verus!
