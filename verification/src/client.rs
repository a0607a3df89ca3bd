//! The client: snapshot intake, entity lifecycle sync, interpolation, and
//! input prediction with server reconciliation. The client never invents
//! entities: its local set is driven entirely by diffing the latest
//! snapshot's ids against what it has spawned.

use vstd::prelude::*;
use vstd::pervasive::VecAdditionalExecFns;
use crate::codec::{
    dec_server_to_client, decode_server_to_client, enc_client_to_server, encode_client_to_server,
};
use crate::consts::{PADDLE_STEP, PING_INTERVAL_MS, POS_LIMIT};
use crate::header::{header_acceptable, parse_header};
use crate::registry::PeerAddr;
use crate::sim::{
    apply_velocity, check_single_ball_collision, move_paddle, replay_paddle_x, vel_wf,
    ColliderRect, WallLocation,
};
use crate::transport::{SimLatencyRollResult, Transport, roll_consistent};
use crate::types::{
    ClientToServerPacket, NetEntity, NetEntityType, NetId, NetPlayerIndex, NetWorldStateData,
    PingData, PlayerInputData, ServerToClientModel, ServerToClientPacket, Vec2I,
};

verus! {

/// A snapshot as received: the decoded world plus the two header fields
/// that rode in front of it.
pub struct ClientWorldState {
    pub world: NetWorldStateData,
    pub last_applied_input: u32,
    pub local_client_index: u8,
}

impl ClientWorldState {
    /// Wraps a decoded snapshot with its header fields.
    pub fn new(world: NetWorldStateData, last_applied_input: u32, local_client_index: u8) -> (r:
        ClientWorldState)
        ensures
            r.world == world,
            r.last_applied_input == last_applied_input,
            r.local_client_index == local_client_index,
    {
        ClientWorldState { world, last_applied_input, local_client_index }
    }

    /// Looks an entity up by its id: the first match, or `None` when the
    /// snapshot does not carry the id.
    pub fn get_by_net_id(&self, net_id: &NetId) -> (r: Option<&NetEntity>)
        ensures
            match r {
                Some(e) => exists|i: int|
                    {
                        &&& 0 <= i < self.world.entities@.len()
                        &&& *e == #[trigger] self.world.entities@[i]
                        &&& e.net_id == *net_id
                        &&& forall|j: int|
                            0 <= j < i ==> (#[trigger] self.world.entities@[j]).net_id != *net_id
                    },
                None => forall|i: int|
                    0 <= i < self.world.entities@.len() ==> (
                    #[trigger] self.world.entities@[i]).net_id != *net_id,
            },
    {
        let n = self.world.entities.len();
        let mut i: usize = 0;
        while i < n
            invariant
                i <= n,
                n == self.world.entities@.len(),
                forall|j: int|
                    0 <= j < i ==> (#[trigger] self.world.entities@[j]).net_id != *net_id,
            decreases n - i,
        {
            if self.world.entities[i].net_id.0 == net_id.0 {
                return Some(&self.world.entities[i]);
            }
            i = i + 1;
        }
        None
    }
}

/// The client's snapshot pipeline state.
pub struct WorldStates {
    /// Snapshots in arrival order, oldest first.
    pub states: Vec<ClientWorldState>,
    pub interp_started: bool,
    /// Arrival times (milliseconds) of snapshots received in the last
    /// second, for the starvation check.
    pub received_per_sec: Vec<u64>,
    pub interpolating_from: Option<u32>,
    pub interpolating_to: Option<u32>,
}

impl Default for WorldStates {
    fn default() -> (r: WorldStates)
        ensures
            r.states@.len() == 0,
            !r.interp_started,
            r.received_per_sec@.len() == 0,
            r.interpolating_from is None,
            r.interpolating_to is None,
    {
        WorldStates {
            states: Vec::new(),
            interp_started: false,
            received_per_sec: Vec::new(),
            interpolating_from: None,
            interpolating_to: None,
        }
    }
}

/// Outstanding ping probes and their send times.
pub struct PingState {
    pub last_sent_time_ms: u64,
    pub next_ping_id: u32,
    pub ping_send_times: Vec<(u32, u64)>,
    pub pongs: Vec<PingData>,
}

impl PingState {
    /// The state before any ping was sent.
    pub fn new() -> (r: PingState)
        ensures
            r.last_sent_time_ms == 0,
            r.next_ping_id == 1,
            r.ping_send_times@.len() == 0,
            r.pongs@.len() == 0,
    {
        PingState {
            last_sent_time_ms: 0,
            next_ping_id: 1,
            ping_send_times: Vec::new(),
            pongs: Vec::new(),
        }
    }
}

/// Inputs produced locally and not yet acknowledged by the server.
pub struct UnAckedPlayerInputs {
    pub inputs: Vec<PlayerInputData>,
}

impl Default for UnAckedPlayerInputs {
    fn default() -> (r: UnAckedPlayerInputs)
        ensures
            r.inputs@.len() == 0,
    {
        UnAckedPlayerInputs { inputs: Vec::new() }
    }
}

/// Whether a locally spawned entity is driven by prediction (local
/// inputs, reconciled on acknowledgment) or by interpolation between
/// snapshots.
#[derive(Clone, Copy, PartialEq, Eq, Structural, Debug)]
pub enum EntityMode {
    Predicted,
    Interpolated,
}

/// What kind of thing a local entity mirrors.
#[derive(Clone, Copy, PartialEq, Eq, Structural, Debug)]
pub enum ClientEntityKind {
    Paddle,
    Brick,
    Ball,
}

/// One locally spawned entity mirroring a snapshot entity.
#[derive(Clone, Copy, PartialEq, Eq, Structural, Debug)]
pub struct ClientEntity {
    pub net_id: NetId,
    pub kind: ClientEntityKind,
    pub mode: EntityMode,
    pub player: NetPlayerIndex,
    /// Current transform (the predicted one for predicted entities).
    pub pos: Vec2I,
    /// Velocity; meaningful for balls.
    pub vel: Vec2I,
    /// Interpolation endpoints for interpolated entities.
    pub interp_from: Vec2I,
    pub interp_to: Vec2I,
}

/// The client's local world: spawned entities and the score mirror.
pub struct ClientGame {
    pub entities: Vec<ClientEntity>,
    pub score: u32,
}

/// Each locally spawned entity mirrors one `NetId`.
pub open spec fn game_ids_unique(entities: Seq<ClientEntity>) -> bool {
    forall|i: int, j: int|
        0 <= i < entities.len() && 0 <= j < entities.len() && i != j ==> (
        #[trigger] entities[i]).net_id != (#[trigger] entities[j]).net_id
}

impl ClientGame {
    /// The local world's invariant: one entity per id, in-range geometry.
    pub open spec fn wf(&self) -> bool {
        &&& game_ids_unique(self.entities@)
        &&& (forall|i: int|
            0 <= i < self.entities@.len() ==> {
                &&& -POS_LIMIT <= (#[trigger] self.entities@[i]).pos.x <= POS_LIMIT
                &&& -POS_LIMIT <= self.entities@[i].pos.y <= POS_LIMIT
                &&& vel_wf(self.entities@[i].vel)
            })
    }

    /// An empty local world.
    pub fn new() -> (r: ClientGame)
        ensures
            r.wf(),
            r.entities@.len() == 0,
            r.score == 0,
    {
        ClientGame { entities: Vec::new(), score: 0 }
    }

    /// Whether some local entity carries `id`.
    pub open spec fn spec_has_id(&self, id: NetId) -> bool {
        exists|i: int| 0 <= i < self.entities@.len() && (#[trigger] self.entities@[i]).net_id == id
    }

    fn find_index(&self, id: NetId) -> (r: Option<usize>)
        ensures
            match r {
                Some(i) => i < self.entities@.len() && self.entities@[i as int].net_id == id,
                None => !self.spec_has_id(id),
            },
    {
        let n = self.entities.len();
        let mut i: usize = 0;
        while i < n
            invariant
                i <= n,
                n == self.entities@.len(),
                forall|j: int| 0 <= j < i ==> (#[trigger] self.entities@[j]).net_id != id,
            decreases n - i,
        {
            if self.entities[i].net_id.0 == id.0 {
                return Some(i);
            }
            i = i + 1;
        }
        None
    }
}

// ---------------------------------------------------------------- intake --

/// One received datagram, client side: datagrams shorter than header plus
/// one byte or with a bad magic tag are discarded; a decoded snapshot
/// joins the queue together with its arrival time; a decoded pong joins
/// the pong list; undecodable bodies are discarded.
pub fn client_handle_packet(
    world_states: &mut WorldStates,
    ping_state: &mut PingState,
    payload: &[u8],
    now_ms: u64,
)
    ensures
        final(world_states).interp_started == old(world_states).interp_started,
        final(world_states).interpolating_from == old(world_states).interpolating_from,
        final(world_states).interpolating_to == old(world_states).interpolating_to,
        final(ping_state).last_sent_time_ms == old(ping_state).last_sent_time_ms,
        final(ping_state).next_ping_id == old(ping_state).next_ping_id,
        final(ping_state).ping_send_times == old(ping_state).ping_send_times,
        !header_acceptable(payload@) ==> final(world_states).states == old(world_states).states
            && final(world_states).received_per_sec == old(world_states).received_per_sec && final(ping_state).pongs == old(ping_state).pongs,
        header_acceptable(payload@) ==> {
            let lai = crate::header::u32_from_be(payload@[4], payload@[5], payload@[6], payload@[7]);
            let idx = payload@[8];
            match dec_server_to_client(payload@.skip(crate::consts::HEADER_LEN as int), 0) {
                Some((ServerToClientModel::WorldState(wsm), _)) => {
                    &&& final(world_states).states@.len() == old(world_states).states@.len() + 1
                    &&& final(world_states).states@.subrange(
                        0,
                        old(world_states).states@.len() as int,
                    ) == old(world_states).states@
                    &&& final(world_states).states@.last().world@ == wsm
                    &&& final(world_states).states@.last().last_applied_input == lai
                    &&& final(world_states).states@.last().local_client_index == idx
                    &&& final(world_states).received_per_sec@ == old(world_states).received_per_sec@.push(now_ms)
                    &&& final(ping_state).pongs == old(ping_state).pongs
                },
                Some((ServerToClientModel::Pong(p), _)) => {
                    &&& final(ping_state).pongs@ == old(ping_state).pongs@.push(p)
                    &&& final(world_states).states == old(world_states).states
                    &&& final(world_states).received_per_sec == old(world_states).received_per_sec
                },
                None => final(world_states).states == old(world_states).states && final(world_states).received_per_sec == old(world_states).received_per_sec && final(ping_state).pongs
                    == old(ping_state).pongs,
            }
        },
{
    let header = match parse_header(payload) {
        Some(h) => h,
        None => {
            return ;
        },
    };
    let (last_applied_input, local_client_index) = header;
    let body = vstd::slice::slice_subrange(payload, crate::consts::HEADER_LEN, payload.len());
    proof {
        assert(body@ =~= payload@.skip(crate::consts::HEADER_LEN as int));
    }
    match decode_server_to_client(body) {
        Some((ServerToClientPacket::WorldState(ws), _)) => {
            world_states.states.push(
                ClientWorldState::new(ws, last_applied_input, local_client_index),
            );
            world_states.received_per_sec.push(now_ms);
            proof {
                assert(world_states.states@.subrange(0, old(world_states).states@.len() as int)
                    =~= old(world_states).states@);
            }
        },
        Some((ServerToClientPacket::Pong(p), _)) => {
            ping_state.pongs.push(p);
        },
        None => {},
    }
}

// ------------------------------------------------------------- lifecycle --

/// The mode a snapshot entity is spawned in, per the prediction rule: the
/// recipient's own paddle and ball are predicted, everything else is
/// interpolated; a switch forces everything to interpolated.
pub open spec fn spawn_mode(
    t: NetEntityType,
    local_client_index: u8,
    disable_prediction: bool,
) -> EntityMode {
    if disable_prediction {
        EntityMode::Interpolated
    } else {
        match t {
            NetEntityType::Paddle(d) => if d.player_index.0 == local_client_index {
                EntityMode::Predicted
            } else {
                EntityMode::Interpolated
            },
            NetEntityType::Ball(d) => if d.player_index.0 == local_client_index {
                EntityMode::Predicted
            } else {
                EntityMode::Interpolated
            },
            _ => EntityMode::Interpolated,
        }
    }
}

/// The local entity freshly spawned for a snapshot entity.
pub open spec fn spawned_entity(
    e: NetEntity,
    local_client_index: u8,
    disable_prediction: bool,
) -> ClientEntity {
    match e.entity_type {
        NetEntityType::Paddle(d) => ClientEntity {
            net_id: e.net_id,
            kind: ClientEntityKind::Paddle,
            mode: spawn_mode(e.entity_type, local_client_index, disable_prediction),
            player: d.player_index,
            pos: d.pos,
            vel: Vec2I { x: 0, y: 0 },
            interp_from: d.pos,
            interp_to: d.pos,
        },
        NetEntityType::Brick(d) => ClientEntity {
            net_id: e.net_id,
            kind: ClientEntityKind::Brick,
            mode: EntityMode::Interpolated,
            player: NetPlayerIndex(0),
            pos: d.pos,
            vel: Vec2I { x: 0, y: 0 },
            interp_from: d.pos,
            interp_to: d.pos,
        },
        NetEntityType::Ball(d) => ClientEntity {
            net_id: e.net_id,
            kind: ClientEntityKind::Ball,
            mode: spawn_mode(e.entity_type, local_client_index, disable_prediction),
            player: d.player_index,
            pos: d.pos,
            vel: d.velocity,
            interp_from: d.pos,
            interp_to: d.pos,
        },
        NetEntityType::Score(d) => ClientEntity {
            net_id: e.net_id,
            kind: ClientEntityKind::Brick,
            mode: EntityMode::Interpolated,
            player: NetPlayerIndex(0),
            pos: Vec2I { x: 0, y: 0 },
            vel: Vec2I { x: 0, y: 0 },
            interp_from: Vec2I { x: 0, y: 0 },
            interp_to: Vec2I { x: 0, y: 0 },
        },
    }
}

/// In-range geometry of one snapshot entity, as the client requires
/// before mirroring it.
pub open spec fn entity_geometry_ok(e: NetEntity) -> bool {
    match e.entity_type {
        NetEntityType::Paddle(d) => -POS_LIMIT <= d.pos.x <= POS_LIMIT && -POS_LIMIT <= d.pos.y
            <= POS_LIMIT,
        NetEntityType::Brick(d) => -POS_LIMIT <= d.pos.x <= POS_LIMIT && -POS_LIMIT <= d.pos.y
            <= POS_LIMIT,
        NetEntityType::Ball(d) => -POS_LIMIT <= d.pos.x <= POS_LIMIT && -POS_LIMIT <= d.pos.y
            <= POS_LIMIT && vel_wf(d.velocity),
        NetEntityType::Score(_) => true,
    }
}

/// Syncs the local entity set against a snapshot and mirrors its score:
/// every snapshot id not yet spawned is spawned (classified by the
/// prediction rule; the score singleton only updates the score), and
/// every local entity absent from the snapshot is despawned. Afterwards
/// the local ids are exactly the snapshot's entity ids the client mirrors.
#[verifier::loop_isolation(false)]
pub fn sync_net_ids_if_needed_and_update_score(
    game: &mut ClientGame,
    ws: &ClientWorldState,
    disable_prediction: bool,
)
    requires
        old(game).wf(),
        forall|i: int|
            0 <= i < ws.world.entities@.len() ==> entity_geometry_ok(
                #[trigger] ws.world.entities@[i],
            ),
    ensures
        final(game).wf(),
        // Every surviving or spawned local entity's id is in the snapshot.
        forall|k: int|
            0 <= k < final(game).entities@.len() ==> exists|i: int|
                0 <= i < ws.world.entities@.len() && (#[trigger] ws.world.entities@[i]).net_id == (
                #[trigger] final(game).entities@[k]).net_id,
        // Every non-score snapshot entity is locally mirrored.
        forall|i: int|
            0 <= i < ws.world.entities@.len() && !((#[trigger] ws.world.entities@[i]).entity_type
                is Score) ==> final(game).spec_has_id(ws.world.entities@[i].net_id),
        // Every local entity either survives from before or was spawned
        // from a snapshot entity, classified by the prediction rule.
        forall|k: int|
            0 <= k < final(game).entities@.len() ==> old(game).entities@.contains(
                #[trigger] final(game).entities@[k],
            ) || exists|i: int|
                0 <= i < ws.world.entities@.len() && #[trigger] final(game).entities@[k]
                    == spawned_entity(
                    ws.world.entities@[i],
                    ws.local_client_index,
                    disable_prediction,
                ),
        // The score mirrors the snapshot's score singleton, if any came.
        (forall|i: int|
            0 <= i < ws.world.entities@.len() ==> !((#[trigger] ws.world.entities@[i]).entity_type
                is Score)) ==> final(game).score == old(game).score,
        forall|i: int|
            0 <= i < ws.world.entities@.len() && score_of(
                (#[trigger] ws.world.entities@[i]).entity_type,
            ) is Some && (forall|j: int|
                i < j < ws.world.entities@.len() ==> score_of(
                    (#[trigger] ws.world.entities@[j]).entity_type,
                ) is None) ==> Some(final(game).score) == score_of(
                ws.world.entities@[i].entity_type,
            ),
{
    let n = ws.world.entities.len();
    let mut i: usize = 0;
    while i < n
        invariant
            i <= n,
            n == ws.world.entities@.len(),
            game.wf(),
            forall|k: int|
                0 <= k < game.entities@.len() ==> old(game).spec_has_id(
                    (#[trigger] game.entities@[k]).net_id,
                ) || exists|i2: int|
                    0 <= i2 < n && (#[trigger] ws.world.entities@[i2]).net_id
                        == game.entities@[k].net_id,
            forall|k: int|
                0 <= k < game.entities@.len() ==> old(game).entities@.contains(
                    #[trigger] game.entities@[k],
                ) || exists|i2: int|
                    0 <= i2 < n && #[trigger] game.entities@[k] == spawned_entity(
                        ws.world.entities@[i2],
                        ws.local_client_index,
                        disable_prediction,
                    ),
            game.entities@.subrange(0, old(game).entities@.len() as int) == old(game).entities@,
            game.entities@.len() >= old(game).entities@.len(),
            forall|i2: int|
                0 <= i2 < i && !((#[trigger] ws.world.entities@[i2]).entity_type is Score)
                    ==> game.spec_has_id(ws.world.entities@[i2].net_id),
            (forall|i2: int|
                0 <= i2 < i ==> !((#[trigger] ws.world.entities@[i2]).entity_type is Score))
                ==> game.score == old(game).score,
            forall|i2: int|
                0 <= i2 < i && score_of((#[trigger] ws.world.entities@[i2]).entity_type)
                    is Some && (forall|j: int|
                    i2 < j < i ==> score_of((#[trigger] ws.world.entities@[j]).entity_type)
                        is None) ==> Some(game.score) == score_of(
                    ws.world.entities@[i2].entity_type,
                ),
        decreases n - i,
    {
        let ghost head_entities = game.entities@;
        let ghost head_score = game.score;
        let e = &ws.world.entities[i];
        match e.entity_type {
            NetEntityType::Score(d) => {
                game.score = d.score;
            },
            _ => {
                match game.find_index(e.net_id) {
                    Some(_) => {},
                    None => {
                        let spawned = spawn_client_entity(
                            e,
                            ws.local_client_index,
                            disable_prediction,
                        );
                        let ghost before = game.entities@;
                        game.entities.push(spawned);
                        proof {
                            assert(game.entities@.last().net_id == e.net_id);
                            assert forall|a: int, b: int|
                                0 <= a < game.entities@.len() && 0 <= b < game.entities@.len()
                                    && a != b implies (#[trigger] game.entities@[a]).net_id != (
                            #[trigger] game.entities@[b]).net_id by {
                                if a < before.len() && b < before.len() {
                                    assert(game.entities@[a] == before[a]);
                                    assert(game.entities@[b] == before[b]);
                                } else if a < before.len() {
                                    assert(game.entities@[a] == before[a]);
                                } else if b < before.len() {
                                    assert(game.entities@[b] == before[b]);
                                }
                            }
                        }
                    },
                }
            },
        }
        proof {
            assert forall|i2: int|
                0 <= i2 < i + 1 && !((#[trigger] ws.world.entities@[i2]).entity_type is Score)
                    implies game.spec_has_id(ws.world.entities@[i2].net_id) by {
                let id = ws.world.entities@[i2].net_id;
                if i2 < i {
                    let k2 = choose|k2: int|
                        0 <= k2 < head_entities.len() && (#[trigger] head_entities[k2]).net_id
                            == id;
                    assert(game.entities@[k2] == head_entities[k2]);
                } else {
                    if game.entities@.len() > head_entities.len() {
                        assert(game.entities@.last().net_id == id);
                    }
                }
            }
        }
        i = i + 1;
    }
    // Despawn anything the snapshot no longer carries.
    let ghost mid = game.entities@;
    let mut kept: Vec<ClientEntity> = Vec::new();
    let m = game.entities.len();
    let mut k: usize = 0;
    while k < m
        invariant
            k <= m,
            m == game.entities@.len(),
            mid == game.entities@,
            game.wf(),
            n == ws.world.entities@.len(),
            forall|a: int|
                0 <= a < kept@.len() ==> exists|b: int|
                    0 <= b < k && #[trigger] kept@[a] == #[trigger] mid[b],
            forall|a: int|
                0 <= a < kept@.len() ==> exists|i2: int|
                    0 <= i2 < n && (#[trigger] ws.world.entities@[i2]).net_id == (
                    #[trigger] kept@[a]).net_id,
            forall|b: int|
                0 <= b < k && (exists|i2: int|
                    0 <= i2 < n && (#[trigger] ws.world.entities@[i2]).net_id == (
                    #[trigger] mid[b]).net_id) ==> exists|a: int|
                    0 <= a < kept@.len() && #[trigger] kept@[a] == mid[b],
            game_ids_unique(kept@),
            forall|a: int|
                0 <= a < kept@.len() ==> {
                    &&& -POS_LIMIT <= (#[trigger] kept@[a]).pos.x <= POS_LIMIT
                    &&& -POS_LIMIT <= kept@[a].pos.y <= POS_LIMIT
                    &&& vel_wf(kept@[a].vel)
                },
        decreases m - k,
    {
        let ent = self_entity_at(&game.entities, k);
        let ghost kept_before = kept@;
        let in_snapshot = snapshot_has_id(ws, ent.net_id);
        if in_snapshot {
            kept.push(ent);
            proof {
                assert forall|a: int, b: int|
                    0 <= a < kept@.len() && 0 <= b < kept@.len() && a != b implies (
                #[trigger] kept@[a]).net_id != (#[trigger] kept@[b]).net_id by {
                    if a < kept_before.len() && b < kept_before.len() {
                        assert(kept@[a] == kept_before[a] && kept@[b] == kept_before[b]);
                    } else {
                        let y = if a < kept_before.len() {
                            a
                        } else {
                            b
                        };
                        assert(kept@[y] == kept_before[y]);
                        let b2 = choose|b2: int|
                            0 <= b2 < k && #[trigger] kept_before[y] == mid[b2];
                        assert(mid[b2].net_id != mid[k as int].net_id);
                    }
                }
            }
        }
        proof {
            assert forall|b: int|
                0 <= b < k + 1 && (exists|i2: int|
                    0 <= i2 < n && (#[trigger] ws.world.entities@[i2]).net_id == (
                    #[trigger] mid[b]).net_id) implies exists|a: int|
                    0 <= a < kept@.len() && #[trigger] kept@[a] == mid[b] by {
                if b == k {
                    assert(in_snapshot);
                    assert(kept@[kept@.len() - 1] == mid[b]);
                } else {
                    let a = choose|a: int|
                        0 <= a < kept_before.len() && #[trigger] kept_before[a] == mid[b];
                    assert(kept@[a] == kept_before[a]);
                }
            }
        }
        k = k + 1;
    }
    game.entities = kept;
    proof {
        assert forall|i2: int|
            0 <= i2 < n && !((#[trigger] ws.world.entities@[i2]).entity_type is Score) implies
            game.spec_has_id(ws.world.entities@[i2].net_id) by {
            let b = choose|b: int|
                0 <= b < mid.len() && (#[trigger] mid[b]).net_id == ws.world.entities@[i2].net_id;
            assert(exists|a: int| 0 <= a < kept@.len() && #[trigger] kept@[a] == mid[b]);
        }
    }
}

fn self_entity_at(entities: &Vec<ClientEntity>, k: usize) -> (r: ClientEntity)
    requires
        k < entities@.len(),
    ensures
        r == entities@[k as int],
{
    entities[k]
}

fn snapshot_has_id(ws: &ClientWorldState, id: NetId) -> (r: bool)
    ensures
        r == exists|i: int|
            0 <= i < ws.world.entities@.len() && (#[trigger] ws.world.entities@[i]).net_id == id,
{
    let n = ws.world.entities.len();
    let mut i: usize = 0;
    while i < n
        invariant
            i <= n,
            n == ws.world.entities@.len(),
            forall|j: int| 0 <= j < i ==> (#[trigger] ws.world.entities@[j]).net_id != id,
        decreases n - i,
    {
        if ws.world.entities[i].net_id.0 == id.0 {
            return true;
        }
        i = i + 1;
    }
    false
}

fn spawn_client_entity(e: &NetEntity, local_client_index: u8, disable_prediction: bool) -> (r:
    ClientEntity)
    ensures
        r == spawned_entity(*e, local_client_index, disable_prediction),
        r.net_id == e.net_id,
{
    match &e.entity_type {
        NetEntityType::Paddle(d) => ClientEntity {
            net_id: e.net_id,
            kind: ClientEntityKind::Paddle,
            mode: if !disable_prediction && d.player_index.0 == local_client_index {
                EntityMode::Predicted
            } else {
                EntityMode::Interpolated
            },
            player: d.player_index,
            pos: d.pos,
            vel: Vec2I { x: 0, y: 0 },
            interp_from: d.pos,
            interp_to: d.pos,
        },
        NetEntityType::Brick(d) => ClientEntity {
            net_id: e.net_id,
            kind: ClientEntityKind::Brick,
            mode: EntityMode::Interpolated,
            player: NetPlayerIndex(0),
            pos: d.pos,
            vel: Vec2I { x: 0, y: 0 },
            interp_from: d.pos,
            interp_to: d.pos,
        },
        NetEntityType::Ball(d) => ClientEntity {
            net_id: e.net_id,
            kind: ClientEntityKind::Ball,
            mode: if !disable_prediction && d.player_index.0 == local_client_index {
                EntityMode::Predicted
            } else {
                EntityMode::Interpolated
            },
            player: d.player_index,
            pos: d.pos,
            vel: d.velocity,
            interp_from: d.pos,
            interp_to: d.pos,
        },
        NetEntityType::Score(_) => ClientEntity {
            net_id: e.net_id,
            kind: ClientEntityKind::Brick,
            mode: EntityMode::Interpolated,
            player: NetPlayerIndex(0),
            pos: Vec2I { x: 0, y: 0 },
            vel: Vec2I { x: 0, y: 0 },
            interp_from: Vec2I { x: 0, y: 0 },
            interp_to: Vec2I { x: 0, y: 0 },
        },
    }
}

/// The score value a snapshot entity carries, if it is the singleton.
pub open spec fn score_of(t: NetEntityType) -> Option<u32> {
    match t {
        NetEntityType::Score(d) => Some(d.score),
        _ => None,
    }
}

/// The position a snapshot entity dictates, or `None` for the score.
pub open spec fn net_entity_pos(t: NetEntityType) -> Option<Vec2I> {
    match t {
        NetEntityType::Paddle(d) => Some(d.pos),
        NetEntityType::Brick(d) => Some(d.pos),
        NetEntityType::Ball(d) => Some(d.pos),
        NetEntityType::Score(_) => None,
    }
}

/// Steps interpolation one snapshot forward: for every locally known
/// interpolated entity that the snapshot carries, the old target becomes
/// the source and the snapshot position the new target. Predicted
/// entities and entities the snapshot misses are untouched.
#[verifier::loop_isolation(false)]
pub fn apply_world_state(game: &mut ClientGame, to_state: &ClientWorldState)
    requires
        old(game).wf(),
    ensures
        final(game).wf(),
        final(game).score == old(game).score,
        final(game).entities@.len() == old(game).entities@.len(),
        forall|k: int|
            0 <= k < final(game).entities@.len() ==> {
                let e0 = old(game).entities@[k];
                let e1 = #[trigger] final(game).entities@[k];
                &&& e1.net_id == e0.net_id
                &&& e1.kind == e0.kind
                &&& e1.mode == e0.mode
                &&& e1.player == e0.player
                &&& e1.pos == e0.pos
                &&& e1.vel == e0.vel
                &&& (match first_entity_with(to_state.world.entities@, e0.net_id) {
                    Some(ne) if e0.mode is Interpolated && net_entity_pos(ne.entity_type)
                        is Some => {
                        &&& e1.interp_from == e0.interp_to
                        &&& Some(e1.interp_to) == net_entity_pos(ne.entity_type)
                    },
                    _ => e1.interp_from == e0.interp_from && e1.interp_to == e0.interp_to,
                })
            },
{
    let n = to_state.world.entities.len();
    let m = game.entities.len();
    let mut k: usize = 0;
    while k < m
        invariant
            k <= m,
            m == game.entities@.len(),
            game.entities@.len() == old(game).entities@.len(),
            game.score == old(game).score,
            game.wf(),
            forall|k2: int|
                k <= k2 < m ==> #[trigger] game.entities@[k2] == old(game).entities@[k2],
            forall|k2: int|
                0 <= k2 < k ==> {
                    let e0 = old(game).entities@[k2];
                    let e1 = #[trigger] game.entities@[k2];
                    &&& e1.net_id == e0.net_id
                    &&& e1.kind == e0.kind
                    &&& e1.mode == e0.mode
                    &&& e1.player == e0.player
                    &&& e1.pos == e0.pos
                    &&& e1.vel == e0.vel
                    &&& (match first_entity_with(to_state.world.entities@, e0.net_id) {
                        Some(ne) if e0.mode is Interpolated && net_entity_pos(ne.entity_type)
                            is Some => {
                            &&& e1.interp_from == e0.interp_to
                            &&& Some(e1.interp_to) == net_entity_pos(ne.entity_type)
                        },
                        _ => e1.interp_from == e0.interp_from && e1.interp_to == e0.interp_to,
                    })
                },
        decreases m - k,
    {
        let mut ent = self_entity_at(&game.entities, k);
        let is_interpolated = match ent.mode {
            EntityMode::Interpolated => true,
            EntityMode::Predicted => false,
        };
        if is_interpolated {
            match to_state.get_by_net_id(&ent.net_id) {
                Some(ne) => {
                    proof {
                        lemma_first_entity_with(to_state.world.entities@, ent.net_id);
                    }
                    let newpos: Option<Vec2I> = match &ne.entity_type {
                        NetEntityType::Paddle(d) => Some(d.pos),
                        NetEntityType::Brick(d) => Some(d.pos),
                        NetEntityType::Ball(d) => Some(d.pos),
                        NetEntityType::Score(_) => None,
                    };
                    match newpos {
                        Some(p) => {
                            ent.interp_from = ent.interp_to;
                            ent.interp_to = p;
                            set_entity_at(&mut game.entities, k, ent);
                        },
                        None => {},
                    }
                },
                None => {
                    proof {
                        lemma_first_entity_with(to_state.world.entities@, ent.net_id);
                    }
                },
            }
        }
        k = k + 1;
    }
}

fn set_entity_at(entities: &mut Vec<ClientEntity>, k: usize, e: ClientEntity)
    requires
        k < old(entities)@.len(),
    ensures
        final(entities)@ == old(entities)@.update(k as int, e),
{
    entities.set(k, e);
}

/// The first snapshot entity carrying `id`.
pub open spec fn first_entity_with(entities: Seq<NetEntity>, id: NetId) -> Option<NetEntity>
    decreases entities.len(),
{
    if entities.len() == 0 {
        None
    } else if entities[0].net_id == id {
        Some(entities[0])
    } else {
        first_entity_with(entities.drop_first(), id)
    }
}

/// Index form of `first_entity_with`: it returns the entity at the first
/// matching index, or `None` when no index matches.
pub proof fn lemma_first_entity_with(entities: Seq<NetEntity>, id: NetId)
    ensures
        (forall|i: int| 0 <= i < entities.len() ==> (#[trigger] entities[i]).net_id != id)
            <==> first_entity_with(entities, id) is None,
        forall|i: int|
            (0 <= i < entities.len() && (#[trigger] entities[i]).net_id == id && (forall|j: int|
                0 <= j < i ==> (#[trigger] entities[j]).net_id != id)) ==> first_entity_with(
                entities,
                id,
            ) == Some(entities[i]),
    decreases entities.len(),
{
    if entities.len() > 0 && entities[0].net_id != id {
        lemma_first_entity_with(entities.drop_first(), id);
        assert forall|i: int|
            (0 <= i < entities.len() && (#[trigger] entities[i]).net_id == id && (forall|j: int|
                0 <= j < i ==> (#[trigger] entities[j]).net_id != id)) implies first_entity_with(
            entities,
            id,
        ) == Some(entities[i]) by {
            assert(entities.drop_first()[i - 1] == entities[i]);
            assert forall|j: int|
                0 <= j < i - 1 implies (#[trigger] entities.drop_first()[j]).net_id != id by {
                assert(entities.drop_first()[j] == entities[j + 1]);
            }
        }
        if forall|i: int| 0 <= i < entities.len() ==> (#[trigger] entities[i]).net_id != id {
            assert forall|i: int|
                0 <= i < entities.drop_first().len() implies (
            #[trigger] entities.drop_first()[i]).net_id != id by {
                assert(entities.drop_first()[i] == entities[i + 1]);
            }
        }
        if first_entity_with(entities, id) is None {
            assert forall|i: int|
                0 <= i < entities.len() implies (#[trigger] entities[i]).net_id != id by {
                if i > 0 {
                    assert(entities.drop_first()[i - 1] == entities[i]);
                }
            }
        }
    }
}

/// Syncs the entity set and then steps interpolation, the per-snapshot
/// application pipeline.
pub fn update_map_and_apply_world_state(
    game: &mut ClientGame,
    to_state: &ClientWorldState,
    disable_prediction: bool,
)
    requires
        old(game).wf(),
        forall|i: int|
            0 <= i < to_state.world.entities@.len() ==> entity_geometry_ok(
                #[trigger] to_state.world.entities@[i],
            ),
    ensures
        state_applied(*old(game), *final(game), *to_state, disable_prediction),
{
    sync_net_ids_if_needed_and_update_score(game, to_state, disable_prediction);
    let ghost g1 = *game;
    apply_world_state(game, to_state);
    proof {
        assert forall|i: int|
            0 <= i < to_state.world.entities@.len() && !((
            #[trigger] to_state.world.entities@[i]).entity_type is Score) implies game.spec_has_id(
            to_state.world.entities@[i].net_id,
        ) by {
            let id = to_state.world.entities@[i].net_id;
            assert(g1.spec_has_id(id));
            let k = choose|k: int|
                0 <= k < g1.entities@.len() && (#[trigger] g1.entities@[k]).net_id == id;
            assert(game.entities@[k].net_id == id);
        }
        assert forall|k: int| 0 <= k < game.entities@.len() implies exists|i: int|
            0 <= i < to_state.world.entities@.len() && (
            #[trigger] to_state.world.entities@[i]).net_id == (
            #[trigger] game.entities@[k]).net_id by {
            assert(game.entities@[k].net_id == g1.entities@[k].net_id);
        }
    }
}

// ------------------------------------------------------------------ tick --

/// Exec check of `entity_geometry_ok` over a whole snapshot.
pub fn entities_geometry_ok(entities: &Vec<NetEntity>) -> (r: bool)
    ensures
        r == forall|i: int|
            0 <= i < entities@.len() ==> entity_geometry_ok(#[trigger] entities@[i]),
{
    let n = entities.len();
    let mut i: usize = 0;
    while i < n
        invariant
            i <= n,
            n == entities@.len(),
            forall|j: int| 0 <= j < i ==> entity_geometry_ok(#[trigger] entities@[j]),
        decreases n - i,
    {
        let e = &entities[i];
        let ok = match &e.entity_type {
            NetEntityType::Paddle(d) => -POS_LIMIT <= d.pos.x && d.pos.x <= POS_LIMIT && -POS_LIMIT
                <= d.pos.y && d.pos.y <= POS_LIMIT,
            NetEntityType::Brick(d) => -POS_LIMIT <= d.pos.x && d.pos.x <= POS_LIMIT && -POS_LIMIT
                <= d.pos.y && d.pos.y <= POS_LIMIT,
            NetEntityType::Ball(d) => -POS_LIMIT <= d.pos.x && d.pos.x <= POS_LIMIT && -POS_LIMIT
                <= d.pos.y && d.pos.y <= POS_LIMIT && -crate::consts::VEL_LIMIT <= d.velocity.x
                && d.velocity.x <= crate::consts::VEL_LIMIT && -crate::consts::VEL_LIMIT
                <= d.velocity.y && d.velocity.y <= crate::consts::VEL_LIMIT,
            NetEntityType::Score(_) => true,
        };
        if !ok {
            return false;
        }
        i = i + 1;
    }
    true
}

/// Every queued snapshot's geometry is in range (enforced at intake).
pub open spec fn states_validated(states: Seq<ClientWorldState>) -> bool {
    forall|s: int|
        0 <= s < states.len() ==> forall|i: int|
            0 <= i < (#[trigger] states[s]).world.entities@.len() ==> entity_geometry_ok(
                #[trigger] states[s].world.entities@[i],
            )
}

/// Arrival times left once entries more than a second old have been
/// dropped from the front.
pub open spec fn pruned_times(rps: Seq<u64>, now_ms: u64) -> Seq<u64>
    decreases rps.len(),
{
    if rps.len() == 0 || !(now_ms > rps[0] && now_ms - rps[0] > 1000) {
        rps
    } else {
        pruned_times(rps.drop_first(), now_ms)
    }
}

/// Whether every recent arrival is still younger than the interpolation
/// delay: the tick then freezes rather than advance.
pub open spec fn starved_on_delay(rps: Seq<u64>, now_ms: u64) -> bool {
    rps.len() > 0 && rps[0] <= now_ms && now_ms - rps[0] < crate::consts::INTERP_DELAY_MS
}

/// The queue once this tick's consumed snapshot is popped: the front
/// leaves when interpolation was already running; the bootstrap tick
/// keeps it.
pub open spec fn popped_queue(ws: WorldStates) -> Seq<ClientWorldState> {
    if ws.interp_started {
        ws.states@.skip(1)
    } else {
        ws.states@
    }
}

/// Whether this tick freezes instead of advancing: every arrival in the
/// pruned window is younger than the interpolation delay.
pub open spec fn tick_frozen(ws: WorldStates, now_ms: u64) -> bool {
    starved_on_delay(pruned_times(ws.received_per_sec@, now_ms), now_ms)
}

/// The snapshot queue drained down to the expected buffer length.
pub open spec fn drained_queue(q: Seq<ClientWorldState>) -> Seq<ClientWorldState> {
    if q.len() > crate::consts::EXPECTED_SNAPSHOT_BUFFER {
        q.skip(q.len() - crate::consts::EXPECTED_SNAPSHOT_BUFFER)
    } else {
        q
    }
}

/// What applying one snapshot leaves of the local world: the score
/// mirrors the snapshot's last score singleton (or stays), every local
/// id is a snapshot id, and every non-score snapshot entity is locally
/// mirrored.
pub open spec fn state_applied(
    g0: ClientGame,
    g1: ClientGame,
    ws: ClientWorldState,
    disable_prediction: bool,
) -> bool {
    &&& g1.wf()
    &&& (forall|i: int|
        0 <= i < ws.world.entities@.len() && score_of(
            (#[trigger] ws.world.entities@[i]).entity_type,
        ) is Some && (forall|j: int|
            i < j < ws.world.entities@.len() ==> score_of(
                (#[trigger] ws.world.entities@[j]).entity_type,
            ) is None) ==> Some(g1.score) == score_of(ws.world.entities@[i].entity_type))
    &&& ((forall|i: int|
        0 <= i < ws.world.entities@.len() ==> !((#[trigger] ws.world.entities@[i]).entity_type
            is Score)) ==> g1.score == g0.score)
    &&& (forall|k: int|
        0 <= k < g1.entities@.len() ==> exists|i: int|
            0 <= i < ws.world.entities@.len() && (#[trigger] ws.world.entities@[i]).net_id == (
            #[trigger] g1.entities@[k]).net_id)
    &&& (forall|i: int|
        0 <= i < ws.world.entities@.len() && !((#[trigger] ws.world.entities@[i]).entity_type
            is Score) ==> g1.spec_has_id(ws.world.entities@[i].net_id))
}

/// One fixed-rate client tick of the snapshot pipeline, in order: prune the receive-rate window and the pong list; with fewer
/// than two queued snapshots, starve (change nothing else). Otherwise
/// advance: pop the consumed snapshot (or bootstrap on the first run),
/// drain the queue down to the expected buffer, and apply the next
/// snapshot(s) to the local world, recording the frames interpolation now
/// runs between.
#[verifier::loop_isolation(false)]
#[verifier::rlimit(100)]
#[verifier::spinoff_prover]
pub fn tick_simulation(
    game: &mut ClientGame,
    world_states: &mut WorldStates,
    ping_state: &mut PingState,
    disable_prediction: bool,
    now_ms: u64,
)
    requires
        old(game).wf(),
        states_validated(old(world_states).states@),
    ensures
        final(game).wf(),
        final(ping_state).pongs@.len() == 0,
        states_validated(final(world_states).states@),
        final(world_states).received_per_sec@ == pruned_times(
            old(world_states).received_per_sec@,
            now_ms,
        ),
        old(world_states).states@.len() < 2 ==> {
            &&& *final(game) == *old(game)
            &&& final(world_states).states == old(world_states).states
            &&& final(world_states).interp_started == old(world_states).interp_started
            &&& final(world_states).interpolating_from == old(world_states).interpolating_from
            &&& final(world_states).interpolating_to == old(world_states).interpolating_to
        },
        old(world_states).states@.len() >= 2 ==> final(world_states).interp_started,
        // When interpolation was already running, the popped snapshot's
        // frame becomes the new "from" pointer.
        old(world_states).states@.len() >= 2 && old(world_states).interp_started ==> final(world_states).interpolating_from == Some(old(world_states).states@[0].world.frame),
        final(world_states).states@.len() <= old(world_states).states@.len(),
        // The advance itself: the consumed snapshot is popped, the queue
        // drained to the expected buffer, and the next snapshot(s) are
        // applied to the local world — unless every recent arrival is
        // younger than the interpolation delay, which freezes the tick.
        old(world_states).states@.len() >= 2 && tick_frozen(*old(world_states), now_ms) ==> ({
            let q1 = popped_queue(*old(world_states));
            &&& final(world_states).states@ == q1
            &&& *final(game) == *old(game)
            &&& final(world_states).interpolating_to == old(world_states).interpolating_to
        }),
        old(world_states).states@.len() >= 2 && !tick_frozen(*old(world_states), now_ms)
            ==> final(world_states).states@ == drained_queue(popped_queue(*old(world_states))),
        old(world_states).states@.len() >= 2 && !tick_frozen(*old(world_states), now_ms) && old(
            world_states,
        ).interp_started ==> ({
            let q2 = drained_queue(popped_queue(*old(world_states)));
            &&& state_applied(*old(game), *final(game), q2[0], disable_prediction)
            &&& final(world_states).interpolating_to == Some(q2[0].world.frame)
        }),
        old(world_states).states@.len() >= 2 && !tick_frozen(*old(world_states), now_ms) && !old(
            world_states,
        ).interp_started ==> ({
            let q2 = drained_queue(popped_queue(*old(world_states)));
            &&& (exists|mid: ClientGame|
                state_applied(*old(game), mid, q2[0], disable_prediction)
                    && #[trigger] state_applied(mid, *final(game), q2[1], disable_prediction))
            &&& final(world_states).interpolating_from == Some(q2[0].world.frame)
            &&& final(world_states).interpolating_to == Some(q2[1].world.frame)
        }),
{
    // Prune arrival times older than one second.
    loop
        invariant
            game == old(game),
            world_states.states == old(world_states).states,
            world_states.interp_started == old(world_states).interp_started,
            world_states.interpolating_from == old(world_states).interpolating_from,
            world_states.interpolating_to == old(world_states).interpolating_to,
            pruned_times(old(world_states).received_per_sec@, now_ms) == pruned_times(
                world_states.received_per_sec@,
                now_ms,
            ),
        decreases world_states.received_per_sec@.len(),
    {
        if world_states.received_per_sec.len() == 0 {
            break ;
        }
        let entry = world_states.received_per_sec[0];
        if now_ms > entry && now_ms - entry > 1000 {
            let ghost before = world_states.received_per_sec@;
            world_states.received_per_sec.remove(0);
            proof {
                assert(world_states.received_per_sec@ =~= before.drop_first());
            }
        } else {
            break ;
        }
    }
    proof {
        assert(world_states.received_per_sec@ == pruned_times(
            old(world_states).received_per_sec@,
            now_ms,
        ));
    }
    ping_state.pongs = Vec::new();
    if world_states.states.len() < 2 {
        return ;
    }
    let ghost q1 = if old(world_states).interp_started {
        old(world_states).states@.skip(1)
    } else {
        old(world_states).states@
    };
    let mut bootstrap_first_state = false;
    if world_states.interp_started {
        let from_frame = world_states.states[0].world.frame;
        world_states.interpolating_from = Some(from_frame);
        world_states.states.remove(0);
        proof {
            assert(world_states.states@ =~= q1);
            assert(states_validated(world_states.states@)) by {
                assert forall|s: int|
                    0 <= s < world_states.states@.len() implies forall|i: int|
                        0 <= i < (#[trigger] world_states.states@[s]).world.entities@.len()
                            ==> entity_geometry_ok(
                            #[trigger] world_states.states@[s].world.entities@[i],
                        ) by {
                    assert(world_states.states@[s] == old(world_states).states@[s + 1]);
                }
            }
        }
    } else {
        world_states.interp_started = true;
        bootstrap_first_state = true;
    }
    // Starved on interpolation delay: all arrivals too fresh.
    if world_states.received_per_sec.len() > 0 {
        let front = world_states.received_per_sec[0];
        if now_ms >= front && now_ms - front < crate::consts::INTERP_DELAY_MS {
            return ;
        }
    }
    proof {
        assert(!starved_on_delay(
            pruned_times(old(world_states).received_per_sec@, now_ms),
            now_ms,
        ));
    }
    // Drain the queue down to the expected buffer length.
    while world_states.states.len() > crate::consts::EXPECTED_SNAPSHOT_BUFFER
        invariant
            game == old(game),
            states_validated(world_states.states@),
            world_states.states@.len() <= q1.len(),
            world_states.interp_started,
            world_states.received_per_sec@ == pruned_times(
                old(world_states).received_per_sec@,
                now_ms,
            ),
            q1.len() <= old(world_states).states@.len(),
            drained_queue(world_states.states@) == drained_queue(q1),
            world_states.interpolating_from == (if old(world_states).interp_started {
                Some(old(world_states).states@[0].world.frame)
            } else {
                old(world_states).interpolating_from
            }),
            world_states.interpolating_to == old(world_states).interpolating_to,
        decreases world_states.states@.len(),
    {
        let ghost before = world_states.states@;
        world_states.states.remove(0);
        proof {
            assert(world_states.states@ =~= before.drop_first());
            assert(drained_queue(before) =~= drained_queue(before.drop_first())) by {
                if before.len() - 1 > crate::consts::EXPECTED_SNAPSHOT_BUFFER {
                    assert(drained_queue(before.drop_first()) =~= before.drop_first().skip(
                        before.len() - 1 - crate::consts::EXPECTED_SNAPSHOT_BUFFER,
                    ));
                    assert(before.drop_first().skip(
                        before.len() - 1 - crate::consts::EXPECTED_SNAPSHOT_BUFFER,
                    ) =~= before.skip(before.len() - crate::consts::EXPECTED_SNAPSHOT_BUFFER));
                } else {
                    assert(drained_queue(before.drop_first()) =~= before.drop_first());
                    assert(before.drop_first() =~= before.skip(
                        before.len() - crate::consts::EXPECTED_SNAPSHOT_BUFFER,
                    ));
                }
            }
            assert(states_validated(world_states.states@)) by {
                assert forall|s: int|
                    0 <= s < world_states.states@.len() implies forall|i: int|
                        0 <= i < (#[trigger] world_states.states@[s]).world.entities@.len()
                            ==> entity_geometry_ok(
                            #[trigger] world_states.states@[s].world.entities@[i],
                        ) by {
                    assert(world_states.states@[s] == before[s + 1]);
                }
            }
        }
    }
    proof {
        assert(world_states.states@ == drained_queue(q1));
        assert(world_states.states@.len() >= 1);
        if bootstrap_first_state {
            assert(q1.len() >= 2);
            assert(world_states.states@.len() >= 2);
        }
    }
    if bootstrap_first_state && world_states.states.len() < 2 {
        return ;
    }
    if world_states.states.len() == 0 {
        return ;
    }
    if bootstrap_first_state {
        let from_frame = world_states.states[0].world.frame;
        apply_queued_state(game, world_states, 0, disable_prediction);
        world_states.interpolating_from = Some(from_frame);
        let ghost g_mid = *game;
        let to_frame = world_states.states[1].world.frame;
        apply_queued_state(game, world_states, 1, disable_prediction);
        world_states.interpolating_to = Some(to_frame);
        proof {
            let q2x = drained_queue(popped_queue(*old(world_states)));
            assert(q2x == drained_queue(q1));
            assert(world_states.states@ == q2x);
            assert(state_applied(*old(game), g_mid, q2x[0], disable_prediction));
            assert(state_applied(g_mid, *game, q2x[1], disable_prediction));
            assert(world_states.interpolating_from == Some(q2x[0].world.frame));
            assert(world_states.interpolating_to == Some(q2x[1].world.frame));
        }
    } else {
        let to_frame = world_states.states[0].world.frame;
        apply_queued_state(game, world_states, 0, disable_prediction);
        world_states.interpolating_to = Some(to_frame);
    }
}

/// Applies the queued snapshot at `idx` to the local world.
fn apply_queued_state(
    game: &mut ClientGame,
    world_states: &mut WorldStates,
    idx: usize,
    disable_prediction: bool,
)
    requires
        old(game).wf(),
        idx < old(world_states).states@.len(),
        states_validated(old(world_states).states@),
    ensures
        final(game).wf(),
        state_applied(
            *old(game),
            *final(game),
            old(world_states).states@[idx as int],
            disable_prediction,
        ),
        final(world_states).states == old(world_states).states,
        final(world_states).interp_started == old(world_states).interp_started,
        final(world_states).interpolating_from == old(world_states).interpolating_from,
        final(world_states).interpolating_to == old(world_states).interpolating_to,
        final(world_states).received_per_sec == old(world_states).received_per_sec,
{
    let state_ref = &world_states.states[idx];
    update_map_and_apply_world_state(game, state_ref, disable_prediction);
}

// --------------------------------------------------------- reconciliation --

/// The colliders a reconciliation replay runs balls against: the four
/// walls, every interpolated brick (carrying its id, so predicted hits
/// are scored once), every paddle. Anything whose box would leave the
/// coordinate range is skipped.
#[verifier::loop_isolation(false)]
fn reconcile_colliders(game: &ClientGame) -> (cs: Vec<ColliderRect>)
    requires
        game.wf(),
    ensures
        crate::sim::colliders_wf(cs@),
        cs@.len() <= 4 + game.entities@.len(),
        forall|c: int|
            0 <= c < cs@.len() ==> ((#[trigger] cs@[c]).brick_net_id matches Some(id) ==> exists|
                k: int,
            | 0 <= k < game.entities@.len() && (#[trigger] game.entities@[k]).net_id == id),
{
    let mut cs: Vec<ColliderRect> = Vec::new();
    cs.push(WallLocation::Left.collider());
    cs.push(WallLocation::Right.collider());
    cs.push(WallLocation::Bottom.collider());
    cs.push(WallLocation::Top.collider());
    let n = game.entities.len();
    let mut k: usize = 0;
    while k < n
        invariant
            k <= n,
            n == game.entities@.len(),
            crate::sim::colliders_wf(cs@),
            cs@.len() <= 4 + k,
            forall|c: int|
                0 <= c < cs@.len() ==> ((#[trigger] cs@[c]).brick_net_id matches Some(id)
                    ==> exists|k2: int|
                    0 <= k2 < game.entities@.len() && (#[trigger] game.entities@[k2]).net_id
                        == id),
        decreases n - k,
    {
        let e = self_entity_at(&game.entities, k);
        let half: Option<(Vec2I, Option<NetId>)> = match (e.kind, e.mode) {
            (ClientEntityKind::Paddle, _) => Some(
                (
                    Vec2I {
                        x: crate::consts::PADDLE_SIZE_X / 2,
                        y: crate::consts::PADDLE_SIZE_Y / 2,
                    },
                    None,
                ),
            ),
            (ClientEntityKind::Brick, EntityMode::Interpolated) => Some(
                (
                    Vec2I {
                        x: crate::consts::BRICK_SIZE_X / 2,
                        y: crate::consts::BRICK_SIZE_Y / 2,
                    },
                    Some(e.net_id),
                ),
            ),
            _ => None,
        };
        match half {
            Some((h, brick_id)) => {
                let fits = e.pos.x >= -POS_LIMIT + h.x && e.pos.x <= POS_LIMIT - h.x && e.pos.y
                    >= -POS_LIMIT + h.y && e.pos.y <= POS_LIMIT - h.y;
                if fits {
                    cs.push(ColliderRect { center: e.pos, half: h, brick_net_id: brick_id });
                }
            },
            None => {},
        }
        k = k + 1;
    }
    cs
}

/// Client-side reconciliation. The latest snapshot's acknowledgment
/// discards every input the server has consumed; when nothing remains
/// unacknowledged — in particular whenever the acknowledgment covers
/// every outstanding sequence — the predicted transforms are left
/// exactly as they were. Otherwise every predicted entity is rolled back
/// to the authoritative snapshot and the surviving inputs are replayed
/// in order: each one moves the predicted paddles one clamped step and
/// integrates the predicted balls, which then bounce off the frozen
/// collider set (scoring predicted brick hits at most once each).
#[verifier::loop_isolation(false)]
#[verifier::rlimit(100)]
pub fn reconcile_and_update_predictions(
    game: &mut ClientGame,
    unacked: &mut UnAckedPlayerInputs,
    world_states: &WorldStates,
) -> (mispredicts: usize)
    requires
        old(game).wf(),
        states_validated(world_states.states@),
        old(game).score + 2 * old(game).entities@.len() + 4 <= u32::MAX,
    ensures
        final(game).wf(),
        final(game).score >= old(game).score,
        // The mispredict count is diagnostic: transforms saved before
        // rollback, compared just before the final input's replay. A
        // tick that replays nothing reports none.
        world_states.states@.len() == 0 || final(unacked).inputs@.len() == 0 ==> mispredicts
            == 0,
        world_states.states@.len() == 0 ==> *final(game) == *old(game) && final(unacked).inputs
            == old(unacked).inputs,
        world_states.states@.len() > 0 ==> final(unacked).inputs@ == old(
            unacked,
        ).inputs@.filter(
            |inp: PlayerInputData| inp.sequence
                > world_states.states@.last().last_applied_input,
        ),
        // Reconciliation idempotence: a snapshot acknowledging every
        // outstanding input leaves the predicted transforms unchanged.
        world_states.states@.len() > 0 && (forall|j: int|
            0 <= j < old(unacked).inputs@.len() ==> (#[trigger] old(unacked).inputs@[j]).sequence
                <= world_states.states@.last().last_applied_input) ==> *final(game) == *old(game),
        // Replay: each predicted paddle ends exactly at the snapshot
        // position advanced by the surviving inputs; predicted balls keep
        // the speed the snapshot gave them; interpolated entities do not
        // move.
        world_states.states@.len() > 0 && final(unacked).inputs@.len() > 0 ==> {
            let latest = world_states.states@.last();
            let kept = final(unacked).inputs@;
            &&& final(game).entities@.len() == old(game).entities@.len()
            &&& (forall|k: int|
                0 <= k < final(game).entities@.len() ==> {
                    let e0 = old(game).entities@[k];
                    let e1 = #[trigger] final(game).entities@[k];
                    &&& e1.net_id == e0.net_id
                    &&& e1.kind == e0.kind
                    &&& e1.mode == e0.mode
                    &&& e1.player == e0.player
                    &&& e1.interp_from == e0.interp_from
                    &&& e1.interp_to == e0.interp_to
                    &&& (e0.mode is Interpolated ==> e1 == e0)
                    &&& (e0.mode is Predicted && e0.kind is Paddle ==> (
                    match first_entity_with(latest.world.entities@, e0.net_id) {
                        Some(ne) => ne.entity_type matches NetEntityType::Paddle(d) ==> {
                            &&& e1.pos.x == replay_paddle_x(
                                d.pos.x as int,
                                PADDLE_STEP as int,
                                kept,
                            )
                            &&& e1.pos.y == d.pos.y
                        },
                        None => e1.pos.x == replay_paddle_x(
                            e0.pos.x as int,
                            PADDLE_STEP as int,
                            kept,
                        ) && e1.pos.y == e0.pos.y,
                    }))
                    &&& (e0.mode is Predicted && e0.kind is Ball ==> (
                    match first_entity_with(latest.world.entities@, e0.net_id) {
                        Some(ne) => ne.entity_type matches NetEntityType::Ball(d)
                            ==> crate::sim::speed_sq(e1.vel) == crate::sim::speed_sq(d.velocity)
                                && ball_pos_replay(d.pos, d.velocity, e1.pos, kept),
                        None => crate::sim::speed_sq(e1.vel) == crate::sim::speed_sq(e0.vel)
                            && ball_pos_replay(e0.pos, e0.vel, e1.pos, kept),
                    }))
                })
        },
{
    if world_states.states.len() == 0 {
        return 0;
    }
    let latest_idx = world_states.states.len() - 1;
    let ack = world_states.states[latest_idx].last_applied_input;
    proof {
        assert(world_states.states@[latest_idx as int] == world_states.states@.last());
    }
    // Discard acknowledged inputs.
    let ghost all_inputs = unacked.inputs@;
    let ghost keep_pred = |inp: PlayerInputData| inp.sequence > ack;
    let mut kept_inputs: Vec<PlayerInputData> = Vec::new();
    let ni = unacked.inputs.len();
    proof {
        reveal(Seq::filter);
        assert(all_inputs.take(0).filter(keep_pred) =~= Seq::<PlayerInputData>::empty());
    }
    let mut j: usize = 0;
    while j < ni
        invariant
            j <= ni,
            ni == all_inputs.len(),
            unacked.inputs@ == all_inputs,
            kept_inputs@ == all_inputs.take(j as int).filter(keep_pred),
        decreases ni - j,
    {
        let inp = unacked.inputs[j];
        proof {
            reveal(Seq::filter);
            assert(all_inputs.take(j + 1).drop_last() =~= all_inputs.take(j as int));
            assert(all_inputs.take(j + 1).last() == inp);
        }
        if inp.sequence > ack {
            kept_inputs.push(inp);
        }
        proof {
            assert(kept_inputs@ =~= all_inputs.take(j + 1).filter(keep_pred));
        }
        j = j + 1;
    }
    proof {
        assert(all_inputs.take(ni as int) =~= all_inputs);
    }
    let nkept = kept_inputs.len();
    unacked.inputs = kept_inputs;
    proof {
        if nkept > 0 {
            all_inputs.lemma_filter_pred(keep_pred, 0);
            let first = all_inputs.filter(keep_pred)[0];
            assert(all_inputs.filter(keep_pred).contains(first));
            all_inputs.lemma_filter_contains_rev(keep_pred, first);
            let j2 = choose|j2: int| 0 <= j2 < all_inputs.len() && all_inputs[j2] == first;
            assert(all_inputs[j2].sequence > ack);
        }
    }
    if nkept == 0 {
        return 0;
    }
    // Saved transforms for the mispredict report (compared once the
    // replay has caught back up to the final, not-yet-applied input).
    let originals = positions_of(&game.entities);
    let mut mispredicts: usize = 0;
    // Rollback every predicted entity to the authoritative snapshot.
    let ghost g0 = *game;
    let m = game.entities.len();
    let mut k: usize = 0;
    while k < m
        invariant
            k <= m,
            m == game.entities@.len(),
            game.entities@.len() == g0.entities@.len(),
            game.score == g0.score,
            game.wf(),
            states_validated(world_states.states@),
            latest_idx == world_states.states@.len() - 1,
            forall|k2: int|
                k <= k2 < m ==> #[trigger] game.entities@[k2] == g0.entities@[k2],
            forall|k2: int|
                0 <= k2 < k ==> rolled_back(
                    (#[trigger] game.entities@[k2]),
                    g0.entities@[k2],
                    world_states.states@.last(),
                ),
        decreases m - k,
    {
        let mut ent = self_entity_at(&game.entities, k);
        let is_predicted = match ent.mode {
            EntityMode::Predicted => true,
            EntityMode::Interpolated => false,
        };
        if is_predicted {
            match world_states.states[latest_idx].get_by_net_id(&ent.net_id) {
                Some(ne) => {
                    proof {
                        lemma_first_entity_with(
                            world_states.states@[latest_idx as int].world.entities@,
                            ent.net_id,
                        );
                    }
                    match &ne.entity_type {
                        NetEntityType::Paddle(d) => {
                            ent.pos = d.pos;
                            proof {
                                let es = world_states.states@[latest_idx as int].world.entities@;
                                let wi = choose|wi: int|
                                    0 <= wi < es.len() && #[trigger] es[wi] == *ne;
                                assert(entity_geometry_ok(es[wi]));
                            }
                            set_entity_at(&mut game.entities, k, ent);
                        },
                        NetEntityType::Ball(d) => {
                            ent.pos = d.pos;
                            ent.vel = d.velocity;
                            proof {
                                let es = world_states.states@[latest_idx as int].world.entities@;
                                let wi = choose|wi: int|
                                    0 <= wi < es.len() && #[trigger] es[wi] == *ne;
                                assert(entity_geometry_ok(es[wi]));
                            }
                            set_entity_at(&mut game.entities, k, ent);
                        },
                        _ => {},
                    }
                },
                None => {
                    proof {
                        lemma_first_entity_with(
                            world_states.states@[latest_idx as int].world.entities@,
                            ent.net_id,
                        );
                    }
                },
            }
        }
        k = k + 1;
    }
    let ghost g_rb = *game;
    // Replay the surviving inputs in order.
    proof {
        assert(unacked.inputs@.take(0) =~= Seq::<PlayerInputData>::empty());
        assert forall|k2: int|
            0 <= k2 < game.entities@.len() implies replayed(
            (#[trigger] game.entities@[k2]),
            g_rb.entities@[k2],
            unacked.inputs@.take(0),
        ) by {
            let e = g_rb.entities@[k2];
            assert(ball_pos_trace_ok(e.pos, e.vel, e.pos, Seq::empty(), Seq::empty()));
            assert(ball_pos_replay(e.pos, e.vel, e.pos, Seq::empty()));
        }
    }
    let mut ignore: Vec<NetId> = Vec::new();
    let mut ji: usize = 0;
    while ji < nkept
        invariant
            ji <= nkept,
            nkept == unacked.inputs@.len(),
            game.entities@.len() == g_rb.entities@.len(),
            game.wf(),
            ignore@.no_duplicates(),
            forall|id: NetId| #[trigger] ignore@.contains(id) ==> g_rb.spec_has_id(id),
            game.score as int == g_rb.score + ignore@.len(),
            g_rb.score == old(game).score,
            g_rb.entities@.len() == old(game).entities@.len(),
            old(game).score + 2 * old(game).entities@.len() + 4 <= u32::MAX,
            forall|k2: int|
                0 <= k2 < game.entities@.len() ==> replayed(
                    (#[trigger] game.entities@[k2]),
                    g_rb.entities@[k2],
                    unacked.inputs@.take(ji as int),
                ),
        decreases nkept - ji,
    {
        if ji + 1 == nkept {
            let current = positions_of(&game.entities);
            proof {
                assert(originals@.len() == current@.len());
            }
            mispredicts = detect_mispredicts(&originals, &current);
        }
        let input = unacked.inputs[ji];
        // Move predicted paddles and integrate predicted balls.
        let m2 = game.entities.len();
        let mut k2: usize = 0;
        while k2 < m2
            invariant
                k2 <= m2,
                m2 == game.entities@.len(),
                game.entities@.len() == g_rb.entities@.len(),
                game.wf(),
                game.score as int == g_rb.score + ignore@.len(),
                ji < nkept,
                nkept == unacked.inputs@.len(),
                input == unacked.inputs@[ji as int],
                forall|k3: int|
                    0 <= k3 < k2 ==> replayed_step(
                        (#[trigger] game.entities@[k3]),
                        g_rb.entities@[k3],
                        unacked.inputs@.take(ji as int),
                        input,
                    ),
                forall|k3: int|
                    k2 <= k3 < m2 ==> replayed(
                        (#[trigger] game.entities@[k3]),
                        g_rb.entities@[k3],
                        unacked.inputs@.take(ji as int),
                    ),
            decreases m2 - k2,
        {
            let mut ent = self_entity_at(&game.entities, k2);
            let is_predicted = match ent.mode {
                EntityMode::Predicted => true,
                EntityMode::Interpolated => false,
            };
            if is_predicted {
                match ent.kind {
                    ClientEntityKind::Paddle => {
                        proof {
                            lemma_replay_snoc_input(
                                g_rb.entities@[k2 as int].pos.x as int,
                                unacked.inputs@.take(ji as int),
                                input,
                            );
                            assert(unacked.inputs@.take(ji + 1) =~= unacked.inputs@.take(
                                ji as int,
                            ).push(input));
                        }
                        move_paddle(PADDLE_STEP, &mut ent.pos, &input);
                        set_entity_at(&mut game.entities, k2, ent);
                    },
                    ClientEntityKind::Ball => {
                        let ghost pos_before = ent.pos;
                        let vel = ent.vel;
                        apply_velocity(&mut ent.pos, &vel);
                        set_entity_at(&mut game.entities, k2, ent);
                        proof {
                            let done = unacked.inputs@.take(ji as int);
                            assert(unacked.inputs@.take(ji + 1) =~= done.push(input));
                            let erb = g_rb.entities@[k2 as int];
                            let vels_old = choose|vels_old: Seq<Vec2I>|
                                #[trigger] ball_pos_trace_ok(
                                    erb.pos,
                                    erb.vel,
                                    pos_before,
                                    done,
                                    vels_old,
                                );
                            let vels_new = vels_old.push(vel);
                            assert(vels_new.drop_last() =~= vels_old);
                            assert(integrate_fold(erb.pos, vels_new) == step_integrated(
                                pos_before,
                                vel,
                            ));
                            assert(game.entities@[k2 as int].pos == step_integrated(
                                pos_before,
                                vel,
                            ));
                            if done.len() == 0 {
                                assert(vels_new[0] == vel);
                                assert(vel == erb.vel);
                            }
                            assert(ball_pos_trace_ok(
                                erb.pos,
                                erb.vel,
                                game.entities@[k2 as int].pos,
                                done.push(input),
                                vels_new,
                            ));
                            assert(ball_pos_replay(
                                erb.pos,
                                erb.vel,
                                game.entities@[k2 as int].pos,
                                done.push(input),
                            ));
                        }
                    },
                    ClientEntityKind::Brick => {},
                }
            }
            proof {
                assert(unacked.inputs@.take(ji + 1) =~= unacked.inputs@.take(ji as int).push(
                    input,
                ));
            }
            k2 = k2 + 1;
        }
        proof {
            assert(unacked.inputs@.take(ji + 1) =~= unacked.inputs@.take(ji as int).push(input));
            assert forall|k4: int|
                0 <= k4 < game.entities@.len() implies replayed(
                (#[trigger] game.entities@[k4]),
                g_rb.entities@[k4],
                unacked.inputs@.take(ji + 1),
            ) by {}
        }
        // Collide predicted balls against the frozen collider set.
        let colliders = reconcile_colliders(&game);
        let m3 = game.entities.len();
        let mut k3: usize = 0;
        while k3 < m3
            invariant
                k3 <= m3,
                m3 == game.entities@.len(),
                game.entities@.len() == g_rb.entities@.len(),
                game.wf(),
                crate::sim::colliders_wf(colliders@),
                forall|c: int|
                    0 <= c < colliders@.len() ==> ((#[trigger] colliders@[c]).brick_net_id
                        matches Some(id) ==> g_rb.spec_has_id(id)),
                ignore@.no_duplicates(),
                forall|id: NetId| #[trigger] ignore@.contains(id) ==> g_rb.spec_has_id(id),
                game.score as int == g_rb.score + ignore@.len(),
                g_rb.score == old(game).score,
                g_rb.entities@.len() == old(game).entities@.len(),
                old(game).score + 2 * old(game).entities@.len() + 4 <= u32::MAX,
                colliders@.len() <= 4 + game.entities@.len(),
                ji < nkept,
                nkept == unacked.inputs@.len(),
                forall|k4: int|
                    0 <= k4 < m3 ==> replayed(
                        (#[trigger] game.entities@[k4]),
                        g_rb.entities@[k4],
                        unacked.inputs@.take(ji + 1),
                    ),
            decreases m3 - k3,
        {
            let mut ent = self_entity_at(&game.entities, k3);
            let is_predicted_ball = match (ent.kind, ent.mode) {
                (ClientEntityKind::Ball, EntityMode::Predicted) => true,
                _ => false,
            };
            if is_predicted_ball {
                proof {
                    lemma_ids_bound(ignore@, g_rb.entities@);
                }
                let pos = ent.pos;
                let ghost ignore_before = ignore@;
                check_single_ball_collision(
                    &mut game.score,
                    &colliders,
                    &pos,
                    &mut ent.vel,
                    &mut ignore,
                );
                set_entity_at(&mut game.entities, k3, ent);
                proof {
                    assert forall|id: NetId| #[trigger] ignore@.contains(id) implies
                        g_rb.spec_has_id(id) by {
                        if !ignore_before.contains(id) {
                            let c = choose|c: int|
                                0 <= c < colliders@.len() && (
                                #[trigger] colliders@[c]).brick_net_id == Some(id);
                        }
                    }
                }
            }
            k3 = k3 + 1;
        }
        ji = ji + 1;
        proof {
            assert forall|k4: int|
                0 <= k4 < game.entities@.len() implies replayed(
                (#[trigger] game.entities@[k4]),
                g_rb.entities@[k4],
                unacked.inputs@.take(ji as int),
            ) by {}
        }
    }
    proof {
        assert(unacked.inputs@.take(nkept as int) =~= unacked.inputs@);
    }
    mispredicts
}

/// The transforms of all local entities, in entity order.
fn positions_of(entities: &Vec<ClientEntity>) -> (r: Vec<Vec2I>)
    ensures
        r@ == entities@.map_values(|e: ClientEntity| e.pos),
{
    let n = entities.len();
    let mut out: Vec<Vec2I> = Vec::new();
    let mut i: usize = 0;
    while i < n
        invariant
            i <= n,
            n == entities@.len(),
            out@ == entities@.take(i as int).map_values(|e: ClientEntity| e.pos),
        decreases n - i,
    {
        let e = self_entity_at(entities, i);
        out.push(e.pos);
        proof {
            assert(out@ =~= entities@.take(i + 1).map_values(|e2: ClientEntity| e2.pos));
        }
        i = i + 1;
    }
    proof {
        assert(entities@.take(n as int) =~= entities@);
    }
    out
}

/// Pigeonhole for the collision budget: distinct already-hit ids all name
/// local entities, so there are at most as many as entities.
proof fn lemma_ids_bound(ids: Seq<NetId>, entities: Seq<ClientEntity>)
    requires
        ids.no_duplicates(),
        game_ids_unique(entities),
        forall|id: NetId| #[trigger] ids.contains(id) ==> exists|k: int|
            0 <= k < entities.len() && (#[trigger] entities[k]).net_id == id,
    ensures
        ids.len() <= entities.len(),
{
    let pool = entities.map_values(|e: ClientEntity| e.net_id);
    assert(pool.no_duplicates()) by {
        assert forall|a: int, b: int|
            0 <= a < pool.len() && 0 <= b < pool.len() && a != b implies pool[a] != pool[b] by {
            assert(entities[a].net_id != entities[b].net_id);
        }
    }
    ids.unique_seq_to_set();
    pool.unique_seq_to_set();
    assert(ids.to_set() <= pool.to_set()) by {
        assert forall|id: NetId| ids.to_set().contains(id) implies pool.to_set().contains(id) by {
            assert(ids.contains(id));
            let k = choose|k: int|
                0 <= k < entities.len() && (#[trigger] entities[k]).net_id == id;
            assert(pool[k] == id);
            assert(pool.contains(id));
        }
    }
    vstd::set_lib::lemma_len_subset(ids.to_set(), pool.to_set());
}

/// `lemma_replay_snoc` restated for the reconciliation replay.
proof fn lemma_replay_snoc_input(x: int, s: Seq<PlayerInputData>, e: PlayerInputData)
    ensures
        replay_paddle_x(x, PADDLE_STEP as int, s.push(e)) == crate::sim::moved_paddle_x(
            replay_paddle_x(x, PADDLE_STEP as int, s),
            PADDLE_STEP as int,
            e.key_mask,
        ),
{
    crate::server::lemma_replay_snoc(x, PADDLE_STEP as int, s, e);
}

/// What rollback leaves of one entity: predicted entities take the
/// snapshot's transform (and velocity, for balls) when the snapshot
/// carries their id; everything else is untouched.
pub open spec fn rolled_back(e1: ClientEntity, e0: ClientEntity, latest: ClientWorldState) -> bool {
    &&& e1.net_id == e0.net_id
    &&& e1.kind == e0.kind
    &&& e1.mode == e0.mode
    &&& e1.player == e0.player
    &&& e1.interp_from == e0.interp_from
    &&& e1.interp_to == e0.interp_to
    &&& (e0.mode is Interpolated ==> e1 == e0)
    &&& (e0.mode is Predicted ==> match first_entity_with(latest.world.entities@, e0.net_id) {
        Some(ne) => match ne.entity_type {
            NetEntityType::Paddle(d) => e1.pos == d.pos && e1.vel == e0.vel,
            NetEntityType::Ball(d) => e1.pos == d.pos && e1.vel == d.velocity,
            _ => e1 == e0,
        },
        None => e1 == e0,
    })
}

/// One clamped integration step of a ball position.
pub open spec fn step_integrated(p: Vec2I, v: Vec2I) -> Vec2I {
    Vec2I {
        x: crate::sim::integrated(p.x as int, v.x as int) as i32,
        y: crate::sim::integrated(p.y as int, v.y as int) as i32,
    }
}

/// A position advanced by one integration step per velocity, in order.
pub open spec fn integrate_fold(p: Vec2I, vels: Seq<Vec2I>) -> Vec2I
    decreases vels.len(),
{
    if vels.len() == 0 {
        p
    } else {
        step_integrated(integrate_fold(p, vels.drop_last()), vels.last())
    }
}

/// `vels` witnesses a ball's replay from `p0`/`v0` to `p1`: one velocity
/// per input, the first being the rolled-back velocity itself, all of the
/// rolled-back speed (collisions only reflect), and `p1` the fold of one
/// integration step per velocity.
pub open spec fn ball_pos_trace_ok(
    p0: Vec2I,
    v0: Vec2I,
    p1: Vec2I,
    inputs: Seq<PlayerInputData>,
    vels: Seq<Vec2I>,
) -> bool {
    &&& vels.len() == inputs.len()
    &&& (inputs.len() > 0 ==> vels[0] == v0)
    &&& (forall|j: int|
        0 <= j < vels.len() ==> crate::sim::speed_sq(#[trigger] vels[j]) == crate::sim::speed_sq(
            v0,
        ))
    &&& p1 == integrate_fold(p0, vels)
}

/// A predicted ball's replayed position: one integration step per input,
/// the first with the rolled-back velocity, the rest with reflections of
/// it.
pub open spec fn ball_pos_replay(
    p0: Vec2I,
    v0: Vec2I,
    p1: Vec2I,
    inputs: Seq<PlayerInputData>,
) -> bool {
    exists|vels: Seq<Vec2I>| #[trigger] ball_pos_trace_ok(p0, v0, p1, inputs, vels)
}

/// What the replay has made of one entity after some inputs: predicted
/// paddles sit at the replayed x, predicted balls keep their rolled-back
/// speed and step one integration per input, and everything else is
/// untouched.
pub open spec fn replayed(e1: ClientEntity, erb: ClientEntity, inputs: Seq<PlayerInputData>) -> bool {
    &&& (inputs.len() == 0 ==> e1 == erb)
    &&& e1.net_id == erb.net_id
    &&& e1.kind == erb.kind
    &&& e1.mode == erb.mode
    &&& e1.player == erb.player
    &&& e1.interp_from == erb.interp_from
    &&& e1.interp_to == erb.interp_to
    &&& (erb.mode is Interpolated ==> e1 == erb)
    &&& (erb.mode is Predicted && erb.kind is Paddle ==> e1.pos.x == replay_paddle_x(
        erb.pos.x as int,
        PADDLE_STEP as int,
        inputs,
    ) && e1.pos.y == erb.pos.y && e1.vel == erb.vel)
    &&& (erb.mode is Predicted && erb.kind is Ball ==> crate::sim::speed_sq(e1.vel)
        == crate::sim::speed_sq(erb.vel) && ball_pos_replay(erb.pos, erb.vel, e1.pos, inputs))
    &&& (erb.kind is Brick ==> e1 == erb)
}

/// Mid-iteration form of `replayed`: the movement step for this input has
/// run, the collision pass possibly not yet.
pub open spec fn replayed_step(
    e1: ClientEntity,
    erb: ClientEntity,
    done: Seq<PlayerInputData>,
    current: PlayerInputData,
) -> bool {
    replayed(e1, erb, done.push(current))
}


/// How many saved transforms differ from the current ones, pairwise.
pub open spec fn mismatch_count(originals: Seq<Vec2I>, current: Seq<Vec2I>) -> int
    decreases originals.len(),
{
    if originals.len() == 0 {
        0
    } else {
        (if originals.last() == current[originals.len() - 1] {
            0int
        } else {
            1int
        }) + mismatch_count(originals.drop_last(), current)
    }
}

/// Compares the transforms predicted entities had before reconciliation
/// to what rollback and replay made of them: the count of mispredicted
/// entries (the already-corrected transforms stand; this is diagnostic).
#[verifier::loop_isolation(false)]
pub fn detect_mispredicts(originals: &Vec<Vec2I>, current: &Vec<Vec2I>) -> (mispredicted: usize)
    requires
        originals@.len() == current@.len(),
    ensures
        mispredicted == mismatch_count(originals@, current@),
        mispredicted == 0 <==> originals@ =~= current@,
{
    let n = originals.len();
    let mut count: usize = 0;
    let mut i: usize = 0;
    while i < n
        invariant
            i <= n,
            n == originals@.len(),
            count == mismatch_count(originals@.take(i as int), current@.take(i as int)),
            count <= i,
            count == 0 <==> originals@.take(i as int) =~= current@.take(i as int),
        decreases n - i,
    {
        proof {
            assert(originals@.take(i + 1).drop_last() =~= originals@.take(i as int));
            assert(originals@.take(i + 1).last() == originals@[i as int]);
            assert(current@.take(i + 1)[i as int] == current@[i as int]);
            lemma_mismatch_prefix(originals@, current@, i as int);
        }
        let a = originals[i];
        let b = current[i];
        if a.x != b.x || a.y != b.y {
            count = count + 1;
        }
        i = i + 1;
    }
    proof {
        assert(originals@.take(n as int) =~= originals@);
        assert(current@.take(n as int) =~= current@);
    }
    count
}

/// One unfolding step of `mismatch_count` over growing prefixes.
proof fn lemma_mismatch_prefix(originals: Seq<Vec2I>, current: Seq<Vec2I>, i: int)
    requires
        0 <= i < originals.len(),
        originals.len() == current.len(),
    ensures
        mismatch_count(originals.take(i + 1), current.take(i + 1)) == mismatch_count(
            originals.take(i),
            current.take(i),
        ) + (if originals[i] == current[i] {
            0int
        } else {
            1int
        }),
    decreases i,
{
    assert(originals.take(i + 1).drop_last() =~= originals.take(i));
    assert(originals.take(i + 1).last() == originals[i]);
    assert(mismatch_count(originals.take(i + 1), current.take(i + 1)) == (if originals[i]
        == current.take(i + 1)[i] {
        0int
    } else {
        1int
    }) + mismatch_count(originals.take(i), current.take(i + 1)));
    lemma_mismatch_same_prefix(originals.take(i), current.take(i + 1), current.take(i));
}

/// `mismatch_count` reads only the first `|originals|` entries of the
/// current transforms.
proof fn lemma_mismatch_same_prefix(originals: Seq<Vec2I>, c1: Seq<Vec2I>, c2: Seq<Vec2I>)
    requires
        originals.len() <= c1.len(),
        originals.len() <= c2.len(),
        forall|k: int| 0 <= k < originals.len() ==> c1[k] == c2[k],
    ensures
        mismatch_count(originals, c1) == mismatch_count(originals, c2),
    decreases originals.len(),
{
    if originals.len() > 0 {
        lemma_mismatch_same_prefix(originals.drop_last(), c1, c2);
    }
}

// ------------------------------------------------------------ input send --

/// The client's input-send step, gated on interpolation having begun:
/// builds this tick's input from the held keys, appends it to the
/// unacknowledged FIFO, and enqueues it for the server. Returns the sent
/// input, or `None` while not yet simulating against a known frame.
pub fn send_input(
    world_states: &WorldStates,
    unacked: &mut UnAckedPlayerInputs,
    transport: &mut Transport,
    key_mask: u8,
    frame_counter: u32,
    remote_addr: PeerAddr,
    roll: SimLatencyRollResult,
) -> (sent: Option<PlayerInputData>)
    requires
        old(transport).wf(),
        roll_consistent(old(transport).sim_send_settings, roll),
    ensures
        final(transport).wf(),
        sent is None <==> world_states.interpolating_from is None,
        world_states.interpolating_from is None ==> final(unacked).inputs == old(unacked).inputs
            && final(transport).messages == old(transport).messages,
        world_states.interpolating_from matches Some(sim_frame) ==> {
            let input = PlayerInputData {
                key_mask,
                simulating_frame: sim_frame,
                sequence: frame_counter,
            };
            &&& sent == Some(input)
            &&& final(unacked).inputs@ == old(unacked).inputs@.push(input)
            &&& (!(roll is Drop) ==> {
                &&& final(transport).messages@.len() == old(transport).messages@.len() + 1
                &&& final(transport).messages@.last().destination == remote_addr
                &&& final(transport).messages@.last().payload@ == enc_client_to_server(
                    ClientToServerPacket::Input(input),
                )
            })
            &&& (roll is Drop ==> final(transport).messages == old(transport).messages)
        },
{
    let sim_frame = match world_states.interpolating_from {
        Some(f) => f,
        None => {
            return None;
        },
    };
    let input = PlayerInputData {
        key_mask,
        simulating_frame: sim_frame,
        sequence: frame_counter,
    };
    unacked.inputs.push(input);
    let packet = ClientToServerPacket::Input(input);
    let buf = encode_client_to_server(&packet);
    transport.send(remote_addr, buf.as_slice(), roll);
    Some(input)
}

/// The client's ping step: at most one probe per `PING_INTERVAL_MS`. A
/// due probe takes the next ping id, records its send time, and enqueues
/// a ping packet. Returns the sent id, if one went out.
pub fn ping_server(
    ping_state: &mut PingState,
    transport: &mut Transport,
    remote_addr: PeerAddr,
    now_ms: u64,
    roll: SimLatencyRollResult,
) -> (sent: Option<u32>)
    requires
        old(transport).wf(),
        roll_consistent(old(transport).sim_send_settings, roll),
        old(ping_state).next_ping_id < u32::MAX,
    ensures
        final(transport).wf(),
        now_ms < old(ping_state).last_sent_time_ms + PING_INTERVAL_MS ==> {
            &&& sent is None
            &&& *final(ping_state) == *old(ping_state)
            &&& final(transport).messages == old(transport).messages
        },
        now_ms >= old(ping_state).last_sent_time_ms + PING_INTERVAL_MS ==> {
            &&& sent == Some(old(ping_state).next_ping_id)
            &&& final(ping_state).next_ping_id == old(ping_state).next_ping_id + 1
            &&& final(ping_state).last_sent_time_ms == now_ms
            &&& final(ping_state).ping_send_times@ == old(ping_state).ping_send_times@.push(
                (old(ping_state).next_ping_id, now_ms),
            )
            &&& (!(roll is Drop) ==> final(transport).messages@.len() == old(
                transport,
            ).messages@.len() + 1 && final(transport).messages@.last().payload@
                == enc_client_to_server(
                ClientToServerPacket::Ping(PingData { ping_id: old(ping_state).next_ping_id }),
            ))
        },
{
    if now_ms < ping_state.last_sent_time_ms || now_ms - ping_state.last_sent_time_ms
        < PING_INTERVAL_MS {
        proof {
            assert(now_ms < old(ping_state).last_sent_time_ms + PING_INTERVAL_MS);
        }
        return None;
    }
    ping_state.last_sent_time_ms = now_ms;
    let ping_id = ping_state.next_ping_id;
    ping_state.ping_send_times.push((ping_id, now_ms));
    ping_state.next_ping_id = ping_state.next_ping_id + 1;
    let packet = ClientToServerPacket::Ping(PingData { ping_id });
    let buf = encode_client_to_server(&packet);
    transport.send(remote_addr, buf.as_slice(), roll);
    Some(ping_id)
}

/// One received datagram, client side of the receive path: a zero-length
/// heartbeat is discarded; anything else becomes a message event, passed
/// through the receive profile's roll (delivered now, held, or dropped).
pub fn client_receive_datagram(
    queue: &mut crate::events::SimLatencyReceiveQueue,
    receive_setting: &crate::transport::SimLatencySetting,
    rng: &mut rand::rngs::ThreadRng,
    latency_sample_ms: i64,
    addr: PeerAddr,
    payload: Vec<u8>,
    now_ms: u64,
) -> (out: Option<crate::events::NetworkEvent>)
    requires
        old(queue).wf(),
    ensures
        final(queue).wf(),
        payload@.len() == 0 ==> out is None && final(queue).sim_latency_delayed == old(
            queue,
        ).sim_latency_delayed,
        // With the receive profile unset, every nonempty datagram is
        // delivered immediately as a message event.
        !receive_setting.spec_is_set() && payload@.len() > 0 ==> out == Some(
            crate::events::NetworkEvent::Message(addr, payload, now_ms),
        ),
{
    if payload.len() == 0 {
        return None;
    }
    let roll = receive_setting.roll(rng, latency_sample_ms, now_ms);
    queue.send_with_sim_latency(
        crate::events::NetworkEvent::Message(addr, payload, now_ms),
        roll,
    )
}

// ----------------------------------------------------------------- render --

/// Linear interpolation of one coordinate at `alpha_milli`/1000 of the
/// way from `from` to `to`, rounding toward `from`.
pub open spec fn lerp_coord(from: int, to: int, alpha_milli: int) -> int {
    if to >= from {
        from + ((to - from) * alpha_milli) / 1000
    } else {
        from - ((from - to) * alpha_milli) / 1000
    }
}

/// The displayed position between two interpolation endpoints, at the
/// given fraction of the fixed tick already elapsed (in thousandths).
pub fn interpolated_position(from: &Vec2I, to: &Vec2I, alpha_milli: u32) -> (r: Vec2I)
    requires
        alpha_milli <= 1000,
    ensures
        r.x == lerp_coord(from.x as int, to.x as int, alpha_milli as int),
        r.y == lerp_coord(from.y as int, to.y as int, alpha_milli as int),
{
    Vec2I {
        x: lerp_one(from.x, to.x, alpha_milli),
        y: lerp_one(from.y, to.y, alpha_milli),
    }
}

fn lerp_one(from: i32, to: i32, alpha_milli: u32) -> (r: i32)
    requires
        alpha_milli <= 1000,
    ensures
        r == lerp_coord(from as int, to as int, alpha_milli as int),
{
    if to >= from {
        let diff: u64 = (to as i64 - from as i64) as u64;
        proof {
            assert(diff <= 0xffff_ffff);
            assert(diff * alpha_milli <= diff * 1000 && 0 <= diff * alpha_milli)
                by (nonlinear_arith)
                requires
                    alpha_milli <= 1000,
                    0 <= diff,
            ;
            assert(diff * 1000 <= 0xffff_ffff * 1000) by (nonlinear_arith)
                requires
                    0 <= diff <= 0xffff_ffff,
            ;
        }
        let scaled: u64 = (diff * alpha_milli as u64) / 1000;
        proof {
            assert(scaled <= diff) by (nonlinear_arith)
                requires
                    scaled == (diff * alpha_milli as u64) / 1000,
                    diff * alpha_milli as u64 <= diff * 1000,
                    0 <= diff,
            ;
        }
        (from as i64 + scaled as i64) as i32
    } else {
        let diff: u64 = (from as i64 - to as i64) as u64;
        proof {
            assert(diff <= 0xffff_ffff);
            assert(diff * alpha_milli <= diff * 1000 && 0 <= diff * alpha_milli)
                by (nonlinear_arith)
                requires
                    alpha_milli <= 1000,
                    0 <= diff,
            ;
            assert(diff * 1000 <= 0xffff_ffff * 1000) by (nonlinear_arith)
                requires
                    0 <= diff <= 0xffff_ffff,
            ;
        }
        let scaled: u64 = (diff * alpha_milli as u64) / 1000;
        proof {
            assert(scaled <= diff) by (nonlinear_arith)
                requires
                    scaled == (diff * alpha_milli as u64) / 1000,
                    diff * alpha_milli as u64 <= diff * 1000,
                    0 <= diff,
            ;
        }
        (from as i64 - scaled as i64) as i32
    }
}

} // verus!
