//! The authoritative server: its world, the per-tick pipeline, and the
//! snapshot broadcast. Each tick runs, in order: frame increment, receive
//! (events handed in by the socket loop), idle sweep, connection events,
//! input playback, ball integration, collisions, broadcast.

use vstd::prelude::*;
use vstd::pervasive::VecAdditionalExecFns;
use crate::codec::{decode_client_to_server, dec_client_to_server, enc_server_to_client, encode_server_to_client};
use crate::consts::{
    BALL_INITIAL_VX, BALL_INITIAL_VY, BALL_START_X, BALL_START_Y, PADDLE_LEFT_BOUND,
    PADDLE_RIGHT_BOUND, PADDLE_SIZE_X, PADDLE_SIZE_Y, PADDLE_STEP, PADDLE_Y, POS_LIMIT,
    BRICK_SIZE_X, BRICK_SIZE_Y,
};
use crate::events::NetworkEvent;
use crate::header::{frame_packet, header_bytes};
use crate::input_buffer::consume_inputs;
use crate::registry::{NetworkResource, PeerAddr};
use crate::rng::chacha8_gen_range_i32;
use crate::server_types::{
    NetConnection, NetConnections, NetIdGenerator, NetInput, ReceivedPlayerInput,
};
use crate::sim::{
    apply_velocity, brick_layout, check_single_ball_collision, contains_net_id, move_paddle,
    replay_paddle_x, vel_wf, ColliderRect, CollidePass, WallLocation,
};
use crate::transport::{SimLatencyRollResult, Transport, roll_consistent};
use crate::types::{
    ClientToServerPacket, NetBallData, NetBrickData, NetEntity, NetEntityType, NetId,
    NetPaddleData, NetPlayerIndex, NetScoreData, NetWorldStateData, PingData, PlayerInputData,
    ServerToClientModel, ServerToClientPacket, Vec2I, WorldStateModel, net_ids_unique,
};

verus! {

/// A paddle in the authoritative world.
#[derive(Clone, Copy, PartialEq, Eq, Structural, Debug)]
pub struct PaddleEnt {
    pub net_id: NetId,
    pub player: NetPlayerIndex,
    pub pos: Vec2I,
}

/// A ball in the authoritative world.
#[derive(Clone, Copy, PartialEq, Eq, Structural, Debug)]
pub struct BallEnt {
    pub net_id: NetId,
    pub player: NetPlayerIndex,
    pub pos: Vec2I,
    pub vel: Vec2I,
}

/// A brick in the authoritative world.
#[derive(Clone, Copy, PartialEq, Eq, Structural, Debug)]
pub struct BrickEnt {
    pub net_id: NetId,
    pub pos: Vec2I,
}

/// The authoritative world: entities, score, frame counter, connections,
/// and the id mint.
pub struct ServerWorld {
    pub frame_counter: u32,
    pub score: u32,
    pub net_id_gen: NetIdGenerator,
    pub paddles: Vec<PaddleEnt>,
    pub balls: Vec<BallEnt>,
    pub bricks: Vec<BrickEnt>,
    pub connections: NetConnections,
}

/// A position comfortably inside the coordinate range, so a box of game
/// size around it stays within range.
pub open spec fn pos_mild(p: Vec2I) -> bool {
    -500_000_000 <= p.x <= 500_000_000 && -500_000_000 <= p.y <= 500_000_000
}

/// A position within the coordinate range the integrator keeps.
pub open spec fn pos_bounded(p: Vec2I) -> bool {
    -POS_LIMIT <= p.x <= POS_LIMIT && -POS_LIMIT <= p.y <= POS_LIMIT
}

impl ServerWorld {
    /// The world invariant. Every entity carries a distinct minted id
    /// (`NetId(0)` stays free for the score), entity counts stay below
    /// the id space, geometry stays in range, and paddles sit on the
    /// paddle row inside their band.
    pub open spec fn wf(&self) -> bool {
        &&& 1 <= self.net_id_gen.next_id
        &&& (forall|i: int|
            0 <= i < self.paddles@.len() ==> self.net_id_gen.minted(
                (#[trigger] self.paddles@[i]).net_id,
            ))
        &&& (forall|i: int|
            0 <= i < self.balls@.len() ==> self.net_id_gen.minted(
                (#[trigger] self.balls@[i]).net_id,
            ))
        &&& (forall|i: int|
            0 <= i < self.bricks@.len() ==> self.net_id_gen.minted(
                (#[trigger] self.bricks@[i]).net_id,
            ))
        &&& (forall|i: int, j: int|
            0 <= i < self.paddles@.len() && 0 <= j < self.paddles@.len() && i != j ==> (
            #[trigger] self.paddles@[i]).net_id != (#[trigger] self.paddles@[j]).net_id)
        &&& (forall|i: int, j: int|
            0 <= i < self.balls@.len() && 0 <= j < self.balls@.len() && i != j ==> (
            #[trigger] self.balls@[i]).net_id != (#[trigger] self.balls@[j]).net_id)
        &&& (forall|i: int, j: int|
            0 <= i < self.bricks@.len() && 0 <= j < self.bricks@.len() && i != j ==> (
            #[trigger] self.bricks@[i]).net_id != (#[trigger] self.bricks@[j]).net_id)
        &&& (forall|i: int, j: int|
            0 <= i < self.paddles@.len() && 0 <= j < self.balls@.len() ==> (
            #[trigger] self.paddles@[i]).net_id != (#[trigger] self.balls@[j]).net_id)
        &&& (forall|i: int, j: int|
            0 <= i < self.paddles@.len() && 0 <= j < self.bricks@.len() ==> (
            #[trigger] self.paddles@[i]).net_id != (#[trigger] self.bricks@[j]).net_id)
        &&& (forall|i: int, j: int|
            0 <= i < self.balls@.len() && 0 <= j < self.bricks@.len() ==> (
            #[trigger] self.balls@[i]).net_id != (#[trigger] self.bricks@[j]).net_id)
        &&& self.paddles@.len() + self.balls@.len() + self.bricks@.len() <= self.net_id_gen.next_id
            - 1
        &&& (forall|i: int|
            0 <= i < self.paddles@.len() ==> {
                &&& PADDLE_LEFT_BOUND <= (#[trigger] self.paddles@[i]).pos.x
                    <= PADDLE_RIGHT_BOUND
                &&& self.paddles@[i].pos.y == PADDLE_Y
            })
        &&& (forall|i: int|
            0 <= i < self.balls@.len() ==> pos_bounded((#[trigger] self.balls@[i]).pos) && vel_wf(
                self.balls@[i].vel,
            ))
        &&& (forall|i: int| 0 <= i < self.bricks@.len() ==> pos_mild((#[trigger] self.bricks@[i]).pos))
        &&& (forall|i: int|
            0 <= i < self.connections.entries@.len() ==> self.net_id_gen.minted(
                (#[trigger] self.connections.entries@[i]).0.paddle_net_id,
            ) && self.net_id_gen.minted(self.connections.entries@[i].0.ball_net_id))
        &&& (forall|i: int, j: int|
            0 <= i < self.connections.entries@.len() && 0 <= j < self.connections.entries@.len()
                && i != j ==> (#[trigger] self.connections.entries@[i]).0.paddle_net_id != (
            #[trigger] self.connections.entries@[j]).0.paddle_net_id
                && self.connections.entries@[i].0.ball_net_id
                != self.connections.entries@[j].0.ball_net_id)
    }

    /// The snapshot the server broadcasts this frame, as a spec value:
    /// bricks, then balls, then paddles, then the score singleton under
    /// `NetId(0)`.
    pub open spec fn snapshot_model(&self) -> WorldStateModel {
        WorldStateModel {
            frame: self.frame_counter,
            entities: self.bricks@.map_values(|b: BrickEnt| brick_entity(b)) + self.balls@.map_values(
                |b: BallEnt| ball_entity(b),
            ) + self.paddles@.map_values(|p: PaddleEnt| paddle_entity(p)) + seq![
                score_entity(self.score),
            ],
        }
    }
}

/// A brick as its snapshot entity.
pub open spec fn brick_entity(b: BrickEnt) -> NetEntity {
    NetEntity { entity_type: NetEntityType::Brick(NetBrickData { pos: b.pos }), net_id: b.net_id }
}

/// A ball as its snapshot entity.
pub open spec fn ball_entity(b: BallEnt) -> NetEntity {
    NetEntity {
        entity_type: NetEntityType::Ball(
            NetBallData { pos: b.pos, velocity: b.vel, player_index: b.player },
        ),
        net_id: b.net_id,
    }
}

/// A paddle as its snapshot entity.
pub open spec fn paddle_entity(p: PaddleEnt) -> NetEntity {
    NetEntity {
        entity_type: NetEntityType::Paddle(NetPaddleData { pos: p.pos, player_index: p.player }),
        net_id: p.net_id,
    }
}

/// The score singleton as its snapshot entity, under the reserved id.
pub open spec fn score_entity(score: u32) -> NetEntity {
    NetEntity { entity_type: NetEntityType::Score(NetScoreData { score }), net_id: NetId(0) }
}

/// Every snapshot the server builds names each `NetId` once: the world's
/// entity ids are distinct and minted from 1 up, and the score singleton
/// takes the reserved 0.
pub proof fn lemma_snapshot_ids_unique(w: &ServerWorld)
    requires
        w.wf(),
    ensures
        net_ids_unique(w.snapshot_model().entities),
{
    let es = w.snapshot_model().entities;
    let nb = w.bricks@.len() as int;
    let nl = w.balls@.len() as int;
    let np = w.paddles@.len() as int;
    assert forall|i: int, j: int|
        0 <= i < es.len() && 0 <= j < es.len() && i != j implies (#[trigger] es[i]).net_id != (
    #[trigger] es[j]).net_id by {
        assert(es.len() == nb + nl + np + 1);
        if i < nb {
            assert(es[i] == brick_entity(w.bricks@[i]));
        } else if i < nb + nl {
            assert(es[i] == ball_entity(w.balls@[i - nb]));
        } else if i < nb + nl + np {
            assert(es[i] == paddle_entity(w.paddles@[i - nb - nl]));
        } else {
            assert(es[i] == score_entity(w.score));
        }
        if j < nb {
            assert(es[j] == brick_entity(w.bricks@[j]));
        } else if j < nb + nl {
            assert(es[j] == ball_entity(w.balls@[j - nb]));
        } else if j < nb + nl + np {
            assert(es[j] == paddle_entity(w.paddles@[j - nb - nl]));
        } else {
            assert(es[j] == score_entity(w.score));
        }
    }
}

/// Builds the world the server starts with: frame 0, score 0, no
/// players, and the full brick grid, each brick under a fresh id.
pub fn setup() -> (w: ServerWorld)
    ensures
        w.wf(),
        w.frame_counter == 0,
        w.score == 0,
        w.paddles@.len() == 0,
        w.balls@.len() == 0,
        w.connections.entries@.len() == 0,
        w.connections.next_player_index == 0,
        w.bricks@.len() == crate::sim::N_BRICK_ROWS * crate::sim::N_BRICK_COLS,
        forall|k: int|
            0 <= k < w.bricks@.len() ==> (#[trigger] w.bricks@[k]).pos == crate::sim::brick_pos(
                k / crate::sim::N_BRICK_COLS as int,
                k % crate::sim::N_BRICK_COLS as int,
            ),
{
    let positions = brick_layout();
    let mut gen = NetIdGenerator::default();
    let mut bricks: Vec<BrickEnt> = Vec::new();
    let mut k: usize = 0;
    proof {
        assert(positions@.len() == 56);
    }
    while k < positions.len()
        invariant
            k <= positions@.len(),
            positions@.len() == 56,
            forall|j: int|
                0 <= j < positions@.len() ==> #[trigger] positions@[j] == crate::sim::brick_pos(
                    j / crate::sim::N_BRICK_COLS as int,
                    j % crate::sim::N_BRICK_COLS as int,
                ),
            bricks@.len() == k,
            gen.next_id == 1 + k,
            forall|j: int| 0 <= j < k ==> (#[trigger] bricks@[j]).net_id.0 == 1 + j,
            forall|j: int| 0 <= j < k ==> (#[trigger] bricks@[j]).pos == positions@[j],
            forall|j: int| 0 <= j < k ==> gen.minted((#[trigger] bricks@[j]).net_id),
        decreases positions@.len() - k,
    {
        let id = gen.next();
        bricks.push(BrickEnt { net_id: id, pos: positions[k] });
        k = k + 1;
    }
    proof {
        assert forall|j: int| 0 <= j < bricks@.len() implies pos_mild(
            (#[trigger] bricks@[j]).pos,
        ) by {
            assert(bricks@[j].pos == crate::sim::brick_pos(j / 8, j % 8));
            assert(0 <= j / 8 < 7 && 0 <= j % 8 < 8) by (nonlinear_arith)
                requires
                    0 <= j < 56,
            ;
        }
    }
    ServerWorld {
        frame_counter: 0,
        score: 0,
        net_id_gen: gen,
        paddles: Vec::new(),
        balls: Vec::new(),
        bricks,
        connections: NetConnections::default(),
    }
}

// ------------------------------------------------- connection lifecycle --

/// No two connection entries carry the same address.
pub open spec fn conn_addrs_unique(entries: Seq<(NetConnection, NetInput)>) -> bool {
    forall|i: int, j: int|
        0 <= i < entries.len() && 0 <= j < entries.len() && i != j ==> (#[trigger] entries[i]).0.addr
            != (#[trigger] entries[j]).0.addr
}

/// Whether some connection entry carries `addr`.
pub open spec fn has_connection(w: &ServerWorld, addr: PeerAddr) -> bool {
    exists|i: int|
        0 <= i < w.connections.entries@.len() && (#[trigger] w.connections.entries@[i]).0.addr
            == addr
}

fn entry_mut(entries: &mut Vec<(NetConnection, NetInput)>, i: usize) -> (e: &mut (
    NetConnection,
    NetInput,
))
    requires
        i < old(entries)@.len(),
    ensures
        *e == old(entries)@[i as int],
        final(entries)@ == old(entries)@.update(i as int, *final(e)),
{
    &mut entries[i]
}

fn paddle_mut(paddles: &mut Vec<PaddleEnt>, i: usize) -> (p: &mut PaddleEnt)
    requires
        i < old(paddles)@.len(),
    ensures
        *p == old(paddles)@[i as int],
        final(paddles)@ == old(paddles)@.update(i as int, *final(p)),
{
    &mut paddles[i]
}

fn find_connection_index(entries: &Vec<(NetConnection, NetInput)>, addr: PeerAddr) -> (r: Option<
    usize,
>)
    ensures
        match r {
            Some(i) => i < entries@.len() && entries@[i as int].0.addr == addr && forall|j: int|
                0 <= j < i ==> (#[trigger] entries@[j]).0.addr != addr,
            None => forall|i: int| 0 <= i < entries@.len() ==> (#[trigger] entries@[i]).0.addr != addr,
        },
{
    let mut i: usize = 0;
    while i < entries.len()
        invariant
            i <= entries@.len(),
            forall|j: int| 0 <= j < i ==> (#[trigger] entries@[j]).0.addr != addr,
        decreases entries@.len() - i,
    {
        if entries[i].0.addr.ip == addr.ip && entries[i].0.addr.port == addr.port {
            return Some(i);
        }
        i = i + 1;
    }
    None
}

fn find_paddle_index(paddles: &Vec<PaddleEnt>, id: NetId) -> (r: Option<usize>)
    ensures
        match r {
            Some(i) => i < paddles@.len() && paddles@[i as int].net_id == id,
            None => forall|i: int| 0 <= i < paddles@.len() ==> (#[trigger] paddles@[i]).net_id != id,
        },
{
    let mut i: usize = 0;
    while i < paddles.len()
        invariant
            i <= paddles@.len(),
            forall|j: int| 0 <= j < i ==> (#[trigger] paddles@[j]).net_id != id,
        decreases paddles@.len() - i,
    {
        if paddles[i].net_id.0 == id.0 {
            return Some(i);
        }
        i = i + 1;
    }
    None
}

fn find_ball_index(balls: &Vec<BallEnt>, id: NetId) -> (r: Option<usize>)
    ensures
        match r {
            Some(i) => i < balls@.len() && balls@[i as int].net_id == id,
            None => forall|i: int| 0 <= i < balls@.len() ==> (#[trigger] balls@[i]).net_id != id,
        },
{
    let mut i: usize = 0;
    while i < balls.len()
        invariant
            i <= balls@.len(),
            forall|j: int| 0 <= j < i ==> (#[trigger] balls@[j]).net_id != id,
        decreases balls@.len() - i,
    {
        if balls[i].net_id.0 == id.0 {
            return Some(i);
        }
        i = i + 1;
    }
    None
}

/// Spawns the entities and connection entry for a newly heard peer: a
/// paddle at a random x on the paddle row, a ball at the canonical start
/// with the canonical velocity, and a fresh player index.
fn spawn_player(w: &mut ServerWorld, rng: &mut rand_chacha::ChaCha8Rng, addr: PeerAddr)
    requires
        old(w).wf(),
        old(w).net_id_gen.next_id <= 0xfffd,
        old(w).connections.next_player_index < u8::MAX,
    ensures
        final(w).wf(),
        final(w).frame_counter == old(w).frame_counter,
        final(w).score == old(w).score,
        final(w).bricks == old(w).bricks,
        final(w).net_id_gen.next_id == old(w).net_id_gen.next_id + 2,
        final(w).connections.next_player_index == old(w).connections.next_player_index + 1,
        final(w).paddles@.len() == old(w).paddles@.len() + 1,
        final(w).paddles@.subrange(0, old(w).paddles@.len() as int) == old(w).paddles@,
        ({
            let p = final(w).paddles@.last();
            &&& p.net_id.0 == old(w).net_id_gen.next_id
            &&& p.player.0 == old(w).connections.next_player_index
            &&& PADDLE_LEFT_BOUND <= p.pos.x <= PADDLE_RIGHT_BOUND
            &&& p.pos.y == PADDLE_Y
        }),
        final(w).balls@ == old(w).balls@.push(
            BallEnt {
                net_id: NetId((old(w).net_id_gen.next_id + 1) as u16),
                player: NetPlayerIndex(old(w).connections.next_player_index),
                pos: Vec2I { x: BALL_START_X, y: BALL_START_Y },
                vel: Vec2I { x: BALL_INITIAL_VX, y: BALL_INITIAL_VY },
            },
        ),
        final(w).connections.entries@.len() == old(w).connections.entries@.len() + 1,
        final(w).connections.entries@.subrange(0, old(w).connections.entries@.len() as int) == old(
            w,
        ).connections.entries@,
        ({
            let e = final(w).connections.entries@.last();
            &&& e.0.addr == addr
            &&& e.0.paddle_net_id.0 == old(w).net_id_gen.next_id
            &&& e.0.ball_net_id.0 == old(w).net_id_gen.next_id + 1
            &&& e.0.last_applied_input == 0
            &&& e.0.player_index == old(w).connections.next_player_index
            &&& e.1.input_state == crate::server_types::NetInputState::Buffering
            &&& e.1.inputs@.len() == 0
            &&& e.1.pings@.len() == 0
        }),
{
    let next_player = NetPlayerIndex(w.connections.next_player_index);
    let paddle_x = chacha8_gen_range_i32(rng, PADDLE_LEFT_BOUND, PADDLE_RIGHT_BOUND);
    let paddle_id = w.net_id_gen.next();
    let ball_id = w.net_id_gen.next();
    let paddle = PaddleEnt {
        net_id: paddle_id,
        player: next_player,
        pos: Vec2I { x: paddle_x, y: PADDLE_Y },
    };
    let ball = BallEnt {
        net_id: ball_id,
        player: next_player,
        pos: Vec2I { x: BALL_START_X, y: BALL_START_Y },
        vel: Vec2I { x: BALL_INITIAL_VX, y: BALL_INITIAL_VY },
    };
    w.paddles.push(paddle);
    w.balls.push(ball);
    let conn = NetConnection {
        addr,
        paddle_net_id: paddle_id,
        ball_net_id: ball_id,
        last_applied_input: 0,
        player_index: next_player.0,
    };
    w.connections.entries.push((conn, NetInput::default()));
    w.connections.next_player_index = w.connections.next_player_index + 1;
    proof {
        assert(w.paddles@.subrange(0, old(w).paddles@.len() as int) =~= old(w).paddles@);
        assert(w.connections.entries@.subrange(0, old(w).connections.entries@.len() as int) =~= old(
            w,
        ).connections.entries@);
        assert(w.paddles@.last() == paddle);
        assert(w.balls@ =~= old(w).balls@.push(ball));
    }
}

/// Tears down the state of a departed peer: its connection entry leaves
/// the table and its paddle and ball are despawned. A peer with no entry
/// changes nothing. Everything else — bricks, score, frame, the other
/// players — stays as it was.
pub fn handle_client_disconnected(w: &mut ServerWorld, addr: PeerAddr)
    requires
        old(w).wf(),
    ensures
        final(w).wf(),
        final(w).frame_counter == old(w).frame_counter,
        final(w).score == old(w).score,
        final(w).bricks == old(w).bricks,
        final(w).net_id_gen == old(w).net_id_gen,
        final(w).connections.next_player_index == old(w).connections.next_player_index,
        final(w).paddles@.len() <= old(w).paddles@.len(),
        final(w).balls@.len() <= old(w).balls@.len(),
        final(w).connections.entries@.len() <= old(w).connections.entries@.len(),
        !has_connection(old(w), addr) ==> final(w).paddles == old(w).paddles && final(w).balls
            == old(w).balls && final(w).connections.entries == old(w).connections.entries,
        has_connection(old(w), addr) ==> exists|i: int|
            {
                &&& 0 <= i < old(w).connections.entries@.len()
                &&& (#[trigger] old(w).connections.entries@[i]).0.addr == addr
                &&& final(w).connections.entries@ == old(w).connections.entries@.remove(i)
                &&& (forall|k: int|
                    0 <= k < final(w).paddles@.len() ==> (#[trigger] final(w).paddles@[k]).net_id
                        != old(w).connections.entries@[i].0.paddle_net_id)
                &&& (forall|k: int|
                    0 <= k < final(w).balls@.len() ==> (#[trigger] final(w).balls@[k]).net_id
                        != old(w).connections.entries@[i].0.ball_net_id)
                &&& removed_exactly_paddle(
                    old(w).paddles@,
                    final(w).paddles@,
                    old(w).connections.entries@[i].0.paddle_net_id,
                )
                &&& removed_exactly_ball(
                    old(w).balls@,
                    final(w).balls@,
                    old(w).connections.entries@[i].0.ball_net_id,
                )
            },
        forall|a: PeerAddr| !has_connection(old(w), a) ==> !#[trigger] has_connection(final(w), a),
{
    let idx = match find_connection_index(&w.connections.entries, addr) {
        Some(i) => i,
        None => {
            proof {
                assert(!has_connection(w, addr));
            }
            return ;
        },
    };
    let conn = w.connections.entries[idx].0;
    w.connections.entries.remove(idx);
    let ghost entries1 = w.connections.entries@;
    match find_paddle_index(&w.paddles, conn.paddle_net_id) {
        Some(pj) => {
            w.paddles.remove(pj);
            proof {
                assert forall|k: int|
                    0 <= k < w.paddles@.len() implies (#[trigger] w.paddles@[k]).net_id
                    != conn.paddle_net_id by {
                    if k < pj {
                        assert(w.paddles@[k] == old(w).paddles@[k]);
                    } else {
                        assert(w.paddles@[k] == old(w).paddles@[k + 1]);
                    }
                }
            }
        },
        None => {},
    }
    match find_ball_index(&w.balls, conn.ball_net_id) {
        Some(bj) => {
            w.balls.remove(bj);
            proof {
                assert forall|k: int|
                    0 <= k < w.balls@.len() implies (#[trigger] w.balls@[k]).net_id
                    != conn.ball_net_id by {
                    if k < bj {
                        assert(w.balls@[k] == old(w).balls@[k]);
                    } else {
                        assert(w.balls@[k] == old(w).balls@[k + 1]);
                    }
                }
            }
        },
        None => {},
    }
    proof {
        assert forall|k: int|
            0 <= k < w.paddles@.len() implies old(w).paddles@.contains(
            #[trigger] w.paddles@[k],
        ) by {
            lemma_remove_keeps_elements(old(w).paddles@, w.paddles@, k);
        }
        assert forall|k: int|
            0 <= k < w.balls@.len() implies old(w).balls@.contains(#[trigger] w.balls@[k]) by {
            lemma_remove_keeps_elements_ball(old(w).balls@, w.balls@, k);
        }
        assert(w.wf()) by {
            lemma_wf_after_removals(old(w), w);
        }
        assert forall|a: PeerAddr| !has_connection(old(w), a) implies !#[trigger] has_connection(
            w,
            a,
        ) by {
            if has_connection(w, a) {
                let i = choose|i: int|
                    0 <= i < w.connections.entries@.len() && (
                    #[trigger] w.connections.entries@[i]).0.addr == a;
                if i < idx {
                    assert(old(w).connections.entries@[i].0.addr == a);
                } else {
                    assert(old(w).connections.entries@[i + 1].0.addr == a);
                }
            }
        }
    }
}

/// One event's whole effect on the world, as `handle_network_event`
/// guarantees it.
pub open spec fn event_step(w0: ServerWorld, w1: ServerWorld, event: NetworkEvent) -> bool {
    &&& w1.frame_counter == w0.frame_counter
    &&& w1.score == w0.score
    &&& w1.bricks == w0.bricks
    &&& w1.net_id_gen.next_id <= w0.net_id_gen.next_id + 2
    &&& w0.connections.next_player_index <= w1.connections.next_player_index
        <= w0.connections.next_player_index + 1
    &&& w1.paddles@.len() <= w0.paddles@.len() + 1
    &&& (conn_addrs_unique(w0.connections.entries@) ==> conn_addrs_unique(
        w1.connections.entries@,
    ))
    &&& (forall|a: PeerAddr|
        !has_connection(&w0, a) && !(event matches NetworkEvent::Connected(x) && x == a)
            ==> !#[trigger] has_connection(&w1, a))
    &&& (event matches NetworkEvent::Connected(addr) ==> (has_connection(&w0, addr) ==> w1
        == w0))
    &&& (event matches NetworkEvent::Connected(addr) ==> !has_connection(&w0, addr) ==> {
        &&& w1.connections.entries@.len() == w0.connections.entries@.len() + 1
        &&& w1.connections.entries@.subrange(0, w0.connections.entries@.len() as int)
            == w0.connections.entries@
        &&& ({
            let e = w1.connections.entries@.last();
            &&& e.0.addr == addr
            &&& e.0.paddle_net_id.0 == w0.net_id_gen.next_id
            &&& e.0.ball_net_id.0 == w0.net_id_gen.next_id + 1
            &&& e.0.last_applied_input == 0
            &&& e.0.player_index == w0.connections.next_player_index
            &&& e.1.input_state == crate::server_types::NetInputState::Buffering
            &&& e.1.inputs@.len() == 0
            &&& e.1.pings@.len() == 0
        })
        &&& w1.paddles@.len() == w0.paddles@.len() + 1
        &&& w1.paddles@.subrange(0, w0.paddles@.len() as int) == w0.paddles@
        &&& ({
            let p = w1.paddles@.last();
            &&& p.net_id.0 == w0.net_id_gen.next_id
            &&& p.player.0 == w0.connections.next_player_index
            &&& PADDLE_LEFT_BOUND <= p.pos.x <= PADDLE_RIGHT_BOUND
            &&& p.pos.y == PADDLE_Y
        })
        &&& w1.balls@ == w0.balls@.push(
            BallEnt {
                net_id: NetId((w0.net_id_gen.next_id + 1) as u16),
                player: NetPlayerIndex(w0.connections.next_player_index),
                pos: Vec2I { x: BALL_START_X, y: BALL_START_Y },
                vel: Vec2I { x: BALL_INITIAL_VX, y: BALL_INITIAL_VY },
            },
        )
        &&& w1.connections.next_player_index == w0.connections.next_player_index + 1
        &&& w1.net_id_gen.next_id == w0.net_id_gen.next_id + 2
    })
    &&& (event matches NetworkEvent::Disconnected(addr) ==> disconnect_effect(w0, w1, addr))
    &&& (event matches NetworkEvent::SendError(addr, _, _) ==> disconnect_effect(w0, w1, addr))
    &&& (event matches NetworkEvent::Message(addr, payload, recv_ms) ==> message_effect(
        w0,
        w1,
        addr,
        payload@,
        recv_ms,
    ))
    &&& (event is RecvError ==> w1 == w0)
}

/// One event's effect on the world. A first datagram spawns the peer's
/// paddle, ball and connection entry; a departure (idle timeout or send
/// failure) tears them down; a payload is decoded and lands in the
/// addressed connection's input or ping queue; anything undecodable, and
/// any receive error, changes nothing.
pub fn handle_network_event(
    w: &mut ServerWorld,
    rng: &mut rand_chacha::ChaCha8Rng,
    event: &NetworkEvent,
)
    requires
        old(w).wf(),
        old(w).net_id_gen.next_id <= 0xfffd,
        old(w).connections.next_player_index < u8::MAX,
    ensures
        final(w).wf(),
        event_step(*old(w), *final(w), *event),
{
    match event {
        NetworkEvent::Connected(addr) => {
            match find_connection_index(&w.connections.entries, *addr) {
                Some(_) => {
                    proof {
                        assert(has_connection(old(w), *addr));
                    }
                },
                None => {
                    proof {
                        assert(!has_connection(old(w), *addr));
                    }
                    spawn_player(w, rng, *addr);
                    proof {
                        let es0 = old(w).connections.entries@;
                        let es1 = w.connections.entries@;
                        assert forall|a: PeerAddr|
                            !has_connection(old(w), a) && !(a == *addr) implies !has_connection(
                            w,
                            a,
                        ) by {
                            if has_connection(w, a) {
                                let i = choose|i: int|
                                    0 <= i < es1.len() && (#[trigger] es1[i]).0.addr == a;
                                if i < es0.len() {
                                    assert(es1.subrange(0, es0.len() as int)[i] == es1[i]);
                                    assert(es0[i].0.addr == a);
                                } else {
                                    assert(es1[i] == es1.last());
                                }
                            }
                        }
                        if conn_addrs_unique(es0) {
                            assert forall|i: int, j: int|
                                0 <= i < es1.len() && 0 <= j < es1.len() && i != j implies (
                            #[trigger] es1[i]).0.addr != (#[trigger] es1[j]).0.addr by {
                                if i < es0.len() {
                                    assert(es1.subrange(0, es0.len() as int)[i] == es1[i]);
                                    assert(es1[i] == es0[i]);
                                } else {
                                    assert(es1[i] == es1.last());
                                }
                                if j < es0.len() {
                                    assert(es1.subrange(0, es0.len() as int)[j] == es1[j]);
                                    assert(es1[j] == es0[j]);
                                } else {
                                    assert(es1[j] == es1.last());
                                }
                                if i < es0.len() && j < es0.len() {
                                } else if i < es0.len() {
                                    assert(!has_connection(old(w), es1[j].0.addr));
                                    assert(es0[i].0.addr != es1[j].0.addr);
                                } else if j < es0.len() {
                                    assert(!has_connection(old(w), es1[i].0.addr));
                                    assert(es0[j].0.addr != es1[i].0.addr);
                                }
                            }
                        }
                    }
                },
            }
        },
        NetworkEvent::Disconnected(addr) => {
            handle_client_disconnected(w, *addr);
            proof {
                lemma_entries_shrink_unique(old(w).connections.entries@, w.connections.entries@);
            }
        },
        NetworkEvent::SendError(addr, _text, _msg) => {
            handle_client_disconnected(w, *addr);
            proof {
                lemma_entries_shrink_unique(old(w).connections.entries@, w.connections.entries@);
            }
        },
        NetworkEvent::Message(addr, payload, recv_ms) => {
            let idx = match find_connection_index(&w.connections.entries, *addr) {
                Some(i) => i,
                None => {
                    return ;
                },
            };
            match decode_client_to_server(payload.as_slice()) {
                Some((ClientToServerPacket::Input(d), _)) => {
                    let e = entry_mut(&mut w.connections.entries, idx);
                    e.1.inputs.push(ReceivedPlayerInput { data: d, time_received: *recv_ms });
                },
                Some((ClientToServerPacket::Ping(p), _)) => {
                    let e = entry_mut(&mut w.connections.entries, idx);
                    e.1.pings.push(p);
                },
                None => {},
            }
            proof {
                assert forall|k: int|
                    0 <= k < w.connections.entries@.len() implies (
                #[trigger] w.connections.entries@[k]).0.addr == old(
                    w,
                ).connections.entries@[k].0.addr by {}
            }
        },
        NetworkEvent::RecvError(_text) => {},
    }
}

/// What tearing down a departed peer leaves behind: its entry gone and
/// its two entities despawned when it was known, nothing changed when it
/// was not, and never a new connection.
pub open spec fn disconnect_effect(w0: ServerWorld, w1: ServerWorld, addr: PeerAddr) -> bool {
    &&& (!has_connection(&w0, addr) ==> w1.paddles == w0.paddles && w1.balls == w0.balls
        && w1.connections.entries == w0.connections.entries)
    &&& (has_connection(&w0, addr) ==> exists|i: int|
        {
            &&& 0 <= i < w0.connections.entries@.len()
            &&& (#[trigger] w0.connections.entries@[i]).0.addr == addr
            &&& w1.connections.entries@ == w0.connections.entries@.remove(i)
            &&& (forall|k: int|
                0 <= k < w1.paddles@.len() ==> (#[trigger] w1.paddles@[k]).net_id
                    != w0.connections.entries@[i].0.paddle_net_id)
            &&& (forall|k: int|
                0 <= k < w1.balls@.len() ==> (#[trigger] w1.balls@[k]).net_id
                    != w0.connections.entries@[i].0.ball_net_id)
            &&& removed_exactly_paddle(
                w0.paddles@,
                w1.paddles@,
                w0.connections.entries@[i].0.paddle_net_id,
            )
            &&& removed_exactly_ball(
                w0.balls@,
                w1.balls@,
                w0.connections.entries@[i].0.ball_net_id,
            )
        })
    &&& (forall|a: PeerAddr| !has_connection(&w0, a) ==> !#[trigger] has_connection(&w1, a))
}

/// What one decoded datagram leaves behind: an input or ping appended to
/// the first entry with the sender's address; everything else untouched.
pub open spec fn message_effect(
    w0: ServerWorld,
    w1: ServerWorld,
    addr: PeerAddr,
    payload: Seq<u8>,
    recv_ms: u64,
) -> bool {
    &&& w1.paddles == w0.paddles
    &&& w1.balls == w0.balls
    &&& w1.net_id_gen == w0.net_id_gen
    &&& w1.connections.next_player_index == w0.connections.next_player_index
    &&& (!has_connection(&w0, addr) ==> w1.connections.entries == w0.connections.entries)
    &&& (has_connection(&w0, addr) ==> exists|i: int|
        {
            &&& 0 <= i < w0.connections.entries@.len()
            &&& (#[trigger] w0.connections.entries@[i]).0.addr == addr
            &&& (forall|j: int| 0 <= j < i ==> (#[trigger] w0.connections.entries@[j]).0.addr != addr)
            &&& match dec_client_to_server(payload, 0) {
                Some((ClientToServerPacket::Input(d), _)) => {
                    let e0 = w0.connections.entries@[i];
                    let e1 = w1.connections.entries@[i];
                    &&& w1.connections.entries@ == w0.connections.entries@.update(i, e1)
                    &&& e1.0 == e0.0
                    &&& e1.1.input_state == e0.1.input_state
                    &&& e1.1.pings == e0.1.pings
                    &&& e1.1.inputs@ == e0.1.inputs@.push(
                        ReceivedPlayerInput { data: d, time_received: recv_ms },
                    )
                },
                Some((ClientToServerPacket::Ping(p), _)) => {
                    let e0 = w0.connections.entries@[i];
                    let e1 = w1.connections.entries@[i];
                    &&& w1.connections.entries@ == w0.connections.entries@.update(i, e1)
                    &&& e1.0 == e0.0
                    &&& e1.1.input_state == e0.1.input_state
                    &&& e1.1.inputs == e0.1.inputs
                    &&& e1.1.pings@ == e0.1.pings@.push(p)
                },
                None => w1.connections.entries == w0.connections.entries,
            }
        })
}


// --------------------------------------------------------- input playback --

/// Replaying one more input moves the replayed position one more step.
pub proof fn lemma_replay_snoc(x: int, step: int, s: Seq<PlayerInputData>, e: PlayerInputData)
    ensures
        replay_paddle_x(x, step, s.push(e)) == crate::sim::moved_paddle_x(
            replay_paddle_x(x, step, s),
            step,
            e.key_mask,
        ),
    decreases s.len(),
{
    if s.len() == 0 {
        assert(s.push(e)[0] == e);
        assert(s.push(e).drop_first() =~= Seq::<PlayerInputData>::empty());
        assert(replay_paddle_x(x, step, s.push(e)) == replay_paddle_x(
            crate::sim::moved_paddle_x(x, step, e.key_mask),
            step,
            Seq::<PlayerInputData>::empty(),
        ));
        assert(replay_paddle_x(x, step, s) == x);
    } else {
        assert(s.push(e)[0] == s[0]);
        assert(s.push(e).drop_first() =~= s.drop_first().push(e));
        assert(replay_paddle_x(x, step, s.push(e)) == replay_paddle_x(
            crate::sim::moved_paddle_x(x, step, s[0].key_mask),
            step,
            s.drop_first().push(e),
        ));
        assert(replay_paddle_x(x, step, s) == replay_paddle_x(
            crate::sim::moved_paddle_x(x, step, s[0].key_mask),
            step,
            s.drop_first(),
        ));
        lemma_replay_snoc(crate::sim::moved_paddle_x(x, step, s[0].key_mask), step, s.drop_first(), e);
    }
}

/// One connection's tick of input playback: the jitter buffer releases
/// its FIFO prefix (at least one input while Playing and fed), each
/// released input moves the paddle one clamped step, and the last
/// released sequence number becomes the acknowledged input.
#[verifier::loop_isolation(false)]
pub fn process_connection_input(
    conn: &mut NetConnection,
    input: &mut NetInput,
    paddle_pos: &mut Vec2I,
    now_ms: u64,
)
    ensures
        final(conn).addr == old(conn).addr,
        final(conn).paddle_net_id == old(conn).paddle_net_id,
        final(conn).ball_net_id == old(conn).ball_net_id,
        final(conn).player_index == old(conn).player_index,
        final(input).pings == old(input).pings,
        final(paddle_pos).y == old(paddle_pos).y,
        !crate::input_buffer::should_consume(
            old(input).input_state,
            old(input).inputs@,
            now_ms,
        ) ==> {
            &&& *final(paddle_pos) == *old(paddle_pos)
            &&& final(conn).last_applied_input == old(conn).last_applied_input
            &&& final(input).inputs == old(input).inputs
            &&& final(input).input_state == (
            if old(input).input_state is Playing && old(input).inputs@.len() == 0 {
                crate::server_types::NetInputState::Buffering
            } else {
                old(input).input_state
            })
        },
        crate::input_buffer::should_consume(
            old(input).input_state,
            old(input).inputs@,
            now_ms,
        ) ==> {
            let cnt = crate::input_buffer::consume_count(old(input).inputs@.len() as int);
            let played = old(input).inputs@.take(cnt).map_values(
                |r: ReceivedPlayerInput| r.data,
            );
            &&& final(paddle_pos).x == replay_paddle_x(
                old(paddle_pos).x as int,
                PADDLE_STEP as int,
                played,
            )
            &&& PADDLE_LEFT_BOUND <= final(paddle_pos).x <= PADDLE_RIGHT_BOUND
            &&& final(input).inputs@ == old(input).inputs@.skip(cnt)
            &&& final(input).inputs@.len() < crate::consts::BUFFER_LEN
            &&& final(conn).last_applied_input == old(input).inputs@[cnt - 1].data.sequence
            &&& final(input).input_state == crate::server_types::NetInputState::Playing
        },
{
    let consumed = consume_inputs(input, now_ms);
    if consumed.len() == 0 {
        return ;
    }
    let ghost played = consumed@.map_values(|r: ReceivedPlayerInput| r.data);
    let mut k: usize = 0;
    while k < consumed.len()
        invariant
            k <= consumed@.len(),
            paddle_pos.y == old(paddle_pos).y,
            paddle_pos.x as int == replay_paddle_x(
                old(paddle_pos).x as int,
                PADDLE_STEP as int,
                played.take(k as int),
            ),
            k > 0 ==> PADDLE_LEFT_BOUND <= paddle_pos.x <= PADDLE_RIGHT_BOUND,
        decreases consumed@.len() - k,
    {
        proof {
            assert(played.take(k + 1) =~= played.take(k as int).push(played[k as int]));
            lemma_replay_snoc(
                old(paddle_pos).x as int,
                PADDLE_STEP as int,
                played.take(k as int),
                played[k as int],
            );
        }
        move_paddle(PADDLE_STEP, paddle_pos, &consumed[k].data);
        k = k + 1;
    }
    proof {
        assert(played.take(consumed@.len() as int) =~= played);
        assert(played =~= old(input).inputs@.take(consumed@.len() as int).map_values(
            |r: ReceivedPlayerInput| r.data,
        ));
    }
    conn.last_applied_input = consumed[consumed.len() - 1].data.sequence;
    proof {
        let cnt = crate::input_buffer::consume_count(old(input).inputs@.len() as int);
        assert(consumed@[cnt - 1] == old(input).inputs@.take(cnt)[cnt - 1]);
    }
}

/// Paddle x after one tick of playback from queue state `inp` at
/// `now_ms`: the replay of the released FIFO prefix, or unchanged when
/// the buffer does not consume.
pub open spec fn played_x(x0: int, inp: NetInput, now_ms: u64) -> int {
    if crate::input_buffer::should_consume(inp.input_state, inp.inputs@, now_ms) {
        replay_paddle_x(
            x0,
            PADDLE_STEP as int,
            inp.inputs@.take(crate::input_buffer::consume_count(inp.inputs@.len() as int)).map_values(
                |r: ReceivedPlayerInput| r.data,
            ),
        )
    } else {
        x0
    }
}

/// A paddle after one tick of playback driven by queue state `inp`.
pub open spec fn paddle_after_playback(p: PaddleEnt, inp: NetInput, now_ms: u64) -> PaddleEnt {
    PaddleEnt {
        net_id: p.net_id,
        player: p.player,
        pos: Vec2I { x: played_x(p.pos.x as int, inp, now_ms) as i32, y: p.pos.y },
    }
}

/// One connection entry after one tick of playback: while the buffer
/// holds back (Buffering too young or empty), queue and acknowledgment
/// are untouched, with Playing starving back to Buffering on an empty
/// queue; when it releases, the FIFO prefix of `consume_count` inputs
/// leaves, the queue ends below `BUFFER_LEN`, the last released sequence
/// becomes the acknowledgment, and the state is Playing. Identity and
/// pings never change.
pub open spec fn conn_playback(
    e0: (NetConnection, NetInput),
    e1: (NetConnection, NetInput),
    now_ms: u64,
) -> bool {
    &&& e1.0.addr == e0.0.addr
    &&& e1.0.paddle_net_id == e0.0.paddle_net_id
    &&& e1.0.ball_net_id == e0.0.ball_net_id
    &&& e1.0.player_index == e0.0.player_index
    &&& e1.1.pings == e0.1.pings
    &&& if crate::input_buffer::should_consume(e0.1.input_state, e0.1.inputs@, now_ms) {
        let cnt = crate::input_buffer::consume_count(e0.1.inputs@.len() as int);
        &&& e1.0.last_applied_input == e0.1.inputs@[cnt - 1].data.sequence
        &&& e1.1.inputs@ == e0.1.inputs@.skip(cnt)
        &&& e1.1.inputs@.len() < crate::consts::BUFFER_LEN
        &&& e1.1.input_state == crate::server_types::NetInputState::Playing
    } else {
        &&& e1.0.last_applied_input == e0.0.last_applied_input
        &&& e1.1.inputs == e0.1.inputs
        &&& e1.1.input_state == (
        if e0.1.input_state is Playing && e0.1.inputs@.len() == 0 {
            crate::server_types::NetInputState::Buffering
        } else {
            e0.1.input_state
        })
    }
}

/// The input stage's whole effect: each entry satisfies `conn_playback`,
/// each paddle owned by an entry moves to `paddle_after_playback` of that
/// entry's queue, every other paddle — and everything else in the world —
/// stays as it was.
pub open spec fn input_stage(w0: ServerWorld, w1: ServerWorld, now_ms: u64) -> bool {
    &&& w1.frame_counter == w0.frame_counter
    &&& w1.score == w0.score
    &&& w1.bricks == w0.bricks
    &&& w1.balls == w0.balls
    &&& w1.net_id_gen == w0.net_id_gen
    &&& w1.connections.next_player_index == w0.connections.next_player_index
    &&& w1.connections.entries@.len() == w0.connections.entries@.len()
    &&& w1.paddles@.len() == w0.paddles@.len()
    &&& (forall|i: int|
        0 <= i < w1.connections.entries@.len() ==> conn_playback(
            w0.connections.entries@[i],
            #[trigger] w1.connections.entries@[i],
            now_ms,
        ))
    &&& (forall|i: int|
        0 <= i < w0.connections.entries@.len() ==> (exists|pj: int|
            {
                &&& 0 <= pj < w0.paddles@.len()
                &&& (#[trigger] w0.paddles@[pj]).net_id == (
                #[trigger] w0.connections.entries@[i]).0.paddle_net_id
                &&& w1.paddles@[pj] == paddle_after_playback(
                    w0.paddles@[pj],
                    w0.connections.entries@[i].1,
                    now_ms,
                )
            }) || (forall|pj: int|
            0 <= pj < w0.paddles@.len() ==> (#[trigger] w0.paddles@[pj]).net_id != (
            #[trigger] w0.connections.entries@[i]).0.paddle_net_id))
    &&& (forall|k: int|
        0 <= k < w0.paddles@.len() && (forall|i: int|
            0 <= i < w0.connections.entries@.len() ==> (
            #[trigger] w0.connections.entries@[i]).0.paddle_net_id != w0.paddles@[k].net_id)
            ==> #[trigger] w1.paddles@[k] == w0.paddles@[k])
}

/// The server's input stage: every connection's jitter buffer takes one
/// tick, and its released inputs play into its own paddle in FIFO order
/// (`input_stage` spells the whole effect out).
#[verifier::loop_isolation(false)]
#[verifier::rlimit(60)]
pub fn process_input(w: &mut ServerWorld, now_ms: u64)
    requires
        old(w).wf(),
    ensures
        final(w).wf(),
        input_stage(*old(w), *final(w), now_ms),
{
    let n = w.connections.entries.len();
    let mut i: usize = 0;
    while i < n
        invariant
            i <= n,
            n == w.connections.entries@.len(),
            w.wf(),
            w.frame_counter == old(w).frame_counter,
            w.score == old(w).score,
            w.bricks == old(w).bricks,
            w.balls == old(w).balls,
            w.net_id_gen == old(w).net_id_gen,
            w.connections.next_player_index == old(w).connections.next_player_index,
            w.connections.entries@.len() == old(w).connections.entries@.len(),
            w.paddles@.len() == old(w).paddles@.len(),
            forall|j: int|
                i <= j < n ==> #[trigger] w.connections.entries@[j] == old(
                    w,
                ).connections.entries@[j],
            forall|j: int|
                0 <= j < i ==> conn_playback(
                    old(w).connections.entries@[j],
                    #[trigger] w.connections.entries@[j],
                    now_ms,
                ),
            forall|k: int|
                0 <= k < w.paddles@.len() ==> (#[trigger] w.paddles@[k]).net_id == old(
                    w,
                ).paddles@[k].net_id,
            forall|k: int|
                0 <= k < old(w).paddles@.len() ==> (exists|i2: int|
                    {
                        &&& 0 <= i2 < i
                        &&& (#[trigger] old(w).connections.entries@[i2]).0.paddle_net_id == old(
                            w,
                        ).paddles@[k].net_id
                        &&& w.paddles@[k] == paddle_after_playback(
                            old(w).paddles@[k],
                            old(w).connections.entries@[i2].1,
                            now_ms,
                        )
                    }) || ((forall|i2: int|
                    0 <= i2 < i ==> (#[trigger] old(w).connections.entries@[i2]).0.paddle_net_id
                        != old(w).paddles@[k].net_id) && #[trigger] w.paddles@[k] == old(
                    w,
                ).paddles@[k]),
        decreases n - i,
    {
        let conn_copy = w.connections.entries[i].0;
        proof {
            assert(w.connections.entries@[i as int] == old(w).connections.entries@[i as int]);
        }
        let paddle_idx = find_paddle_index(&w.paddles, conn_copy.paddle_net_id);
        let ghost w_head = *w;
        match paddle_idx {
            Some(pj) => {
                proof {
                    // No earlier entry owns this paddle (entry paddle ids
                    // are distinct), so it still holds its original state.
                    assert(w.paddles@[pj as int] == old(w).paddles@[pj as int]) by {
                        if exists|i2: int|
                            {
                                &&& 0 <= i2 < i
                                &&& (#[trigger] old(
                                    w,
                                ).connections.entries@[i2]).0.paddle_net_id == old(
                                    w,
                                ).paddles@[pj as int].net_id
                                &&& w.paddles@[pj as int] == paddle_after_playback(
                                    old(w).paddles@[pj as int],
                                    old(w).connections.entries@[i2].1,
                                    now_ms,
                                )
                            } {
                            let i2 = choose|i2: int|
                                {
                                    &&& 0 <= i2 < i
                                    &&& (#[trigger] old(
                                        w,
                                    ).connections.entries@[i2]).0.paddle_net_id == old(
                                        w,
                                    ).paddles@[pj as int].net_id
                                    &&& w.paddles@[pj as int] == paddle_after_playback(
                                        old(w).paddles@[pj as int],
                                        old(w).connections.entries@[i2].1,
                                        now_ms,
                                    )
                                };
                            assert(old(w).connections.entries@[i2].0.paddle_net_id == old(
                                w,
                            ).connections.entries@[i as int].0.paddle_net_id);
                            assert(false);
                        }
                    }
                }
                let conns = &mut w.connections;
                let paddles = &mut w.paddles;
                let e = entry_mut(&mut conns.entries, i);
                let p = paddle_mut(paddles, pj);
                let mut pos = p.pos;
                process_connection_input(&mut e.0, &mut e.1, &mut pos, now_ms);
                p.pos = pos;
                proof {
                    assert(w.paddles@[pj as int] == paddle_after_playback(
                        old(w).paddles@[pj as int],
                        old(w).connections.entries@[i as int].1,
                        now_ms,
                    ));
                    assert forall|k: int|
                        0 <= k < old(w).paddles@.len() && k != pj implies #[trigger] w.paddles@[k]
                        == w_head.paddles@[k] by {}
                }
            },
            None => {
                let conns = &mut w.connections;
                let e = entry_mut(&mut conns.entries, i);
                let mut scratch = Vec2I { x: 0, y: 0 };
                process_connection_input(&mut e.0, &mut e.1, &mut scratch, now_ms);
            },
        }
        proof {
            assert(conn_playback(
                old(w).connections.entries@[i as int],
                w.connections.entries@[i as int],
                now_ms,
            ));
            assert forall|k: int|
                0 <= k < old(w).paddles@.len() implies (exists|i2: int|
                {
                    &&& 0 <= i2 < i + 1
                    &&& (#[trigger] old(w).connections.entries@[i2]).0.paddle_net_id == old(
                        w,
                    ).paddles@[k].net_id
                    &&& w.paddles@[k] == paddle_after_playback(
                        old(w).paddles@[k],
                        old(w).connections.entries@[i2].1,
                        now_ms,
                    )
                }) || ((forall|i2: int|
                0 <= i2 < i + 1 ==> (#[trigger] old(w).connections.entries@[i2]).0.paddle_net_id
                    != old(w).paddles@[k].net_id) && #[trigger] w.paddles@[k] == old(
                w,
            ).paddles@[k]) by {
                match paddle_idx {
                    Some(pj) => {
                        if k == pj {
                        } else {
                            assert(w.paddles@[k] == w_head.paddles@[k]);
                            assert(old(w).paddles@[k].net_id != conn_copy.paddle_net_id) by {
                                if old(w).paddles@[k].net_id == conn_copy.paddle_net_id {
                                    assert(old(w).paddles@[pj as int].net_id
                                        == conn_copy.paddle_net_id);
                                    assert(old(w).wf());
                                }
                            }
                        }
                    },
                    None => {
                        assert(w.paddles@[k].net_id == old(w).paddles@[k].net_id);
                        assert(old(w).paddles@[k].net_id != conn_copy.paddle_net_id);
                    },
                }
            }
        }
        i = i + 1;
    }
}

/// The integration stage's whole effect: every ball advanced one step by
/// its own velocity, nothing else changed.
pub open spec fn integration_effect(w0: ServerWorld, w1: ServerWorld) -> bool {
    &&& w1.frame_counter == w0.frame_counter
    &&& w1.score == w0.score
    &&& w1.bricks == w0.bricks
    &&& w1.paddles == w0.paddles
    &&& w1.net_id_gen == w0.net_id_gen
    &&& w1.connections.entries@ == w0.connections.entries@
    &&& w1.connections.next_player_index == w0.connections.next_player_index
    &&& w1.balls@.len() == w0.balls@.len()
    &&& (forall|k: int|
        0 <= k < w1.balls@.len() ==> {
            let b0 = w0.balls@[k];
            let b1 = #[trigger] w1.balls@[k];
            &&& b1.net_id == b0.net_id
            &&& b1.player == b0.player
            &&& b1.vel == b0.vel
            &&& b1.pos.x == crate::sim::integrated(b0.pos.x as int, b0.vel.x as int)
            &&& b1.pos.y == crate::sim::integrated(b0.pos.y as int, b0.vel.y as int)
        })
}

/// The ball integration stage: every ball advances by its per-tick
/// velocity (clamped to the coordinate range); nothing else changes.
#[verifier::loop_isolation(false)]
pub fn apply_velocity_to_balls(w: &mut ServerWorld)
    requires
        old(w).wf(),
    ensures
        final(w).wf(),
        integration_effect(*old(w), *final(w)),
{
    let n = w.balls.len();
    let mut k: usize = 0;
    while k < n
        invariant
            k <= n,
            n == w.balls@.len(),
            w.balls@.len() == old(w).balls@.len(),
            w.frame_counter == old(w).frame_counter,
            w.score == old(w).score,
            w.bricks == old(w).bricks,
            w.paddles == old(w).paddles,
            w.net_id_gen == old(w).net_id_gen,
            w.connections.entries@ == old(w).connections.entries@,
            w.connections.next_player_index == old(w).connections.next_player_index,
            forall|j: int|
                k <= j < n ==> #[trigger] w.balls@[j] == old(w).balls@[j],
            forall|j: int|
                0 <= j < k ==> {
                    let b0 = old(w).balls@[j];
                    let b1 = #[trigger] w.balls@[j];
                    &&& b1.net_id == b0.net_id
                    &&& b1.player == b0.player
                    &&& b1.vel == b0.vel
                    &&& b1.pos.x == crate::sim::integrated(b0.pos.x as int, b0.vel.x as int)
                    &&& b1.pos.y == crate::sim::integrated(b0.pos.y as int, b0.vel.y as int)
                },
        decreases n - k,
    {
        let mut ball = w.balls[k];
        let vel = ball.vel;
        apply_velocity(&mut ball.pos, &vel);
        w.balls.set(k, ball);
        k = k + 1;
    }
    proof {
        assert(w.wf()) by {
            assert forall|i: int| 0 <= i < w.balls@.len() implies pos_bounded(
                (#[trigger] w.balls@[i]).pos,
            ) && vel_wf(w.balls@[i].vel) by {
                assert(old(w).wf());
            }
        }
    }
}


// -------------------------------------------------------------- collisions --

/// Distinct values drawn from a duplicate-free pool number at most the
/// pool.
proof fn lemma_distinct_members_bound(dels: Seq<NetId>, pool: Seq<NetId>)
    requires
        dels.no_duplicates(),
        pool.no_duplicates(),
        forall|e: NetId| dels.contains(e) ==> #[trigger] pool.contains(e),
    ensures
        dels.len() <= pool.len(),
{
    dels.unique_seq_to_set();
    pool.unique_seq_to_set();
    assert(dels.to_set() <= pool.to_set()) by {
        assert forall|e: NetId| dels.to_set().contains(e) implies pool.to_set().contains(e) by {
            assert(dels.contains(e));
        }
    }
    vstd::set_lib::lemma_len_subset(dels.to_set(), pool.to_set());
}

/// Every element of a filtered sequence sits in the original.
proof fn lemma_brick_filter_element(s: Seq<BrickEnt>, pred: spec_fn(BrickEnt) -> bool, k: int)
    requires
        0 <= k < s.filter(pred).len(),
    ensures
        s.contains(s.filter(pred)[k]),
        pred(s.filter(pred)[k]),
{
    s.lemma_filter_pred(pred, k);
    assert(s.filter(pred).contains(s.filter(pred)[k]));
    s.lemma_filter_contains_rev(pred, s.filter(pred)[k]);
}

/// A wall as the collision stage freezes it.
pub open spec fn wall_collider_of(loc: WallLocation) -> ColliderRect {
    ColliderRect {
        center: crate::sim::wall_position(loc),
        half: Vec2I {
            x: (crate::sim::wall_size(loc).x / 2) as i32,
            y: (crate::sim::wall_size(loc).y / 2) as i32,
        },
        brick_net_id: None,
    }
}

/// A brick as the collision stage freezes it.
pub open spec fn brick_collider(b: BrickEnt) -> ColliderRect {
    ColliderRect {
        center: b.pos,
        half: Vec2I { x: (BRICK_SIZE_X / 2) as i32, y: (BRICK_SIZE_Y / 2) as i32 },
        brick_net_id: Some(b.net_id),
    }
}

/// A paddle as the collision stage freezes it.
pub open spec fn paddle_collider(p: PaddleEnt) -> ColliderRect {
    ColliderRect {
        center: p.pos,
        half: Vec2I { x: (PADDLE_SIZE_X / 2) as i32, y: (PADDLE_SIZE_Y / 2) as i32 },
        brick_net_id: None,
    }
}

/// The frozen per-tick collider list: the four walls, every brick, every
/// paddle, in that order. Deletions within the tick never change it.
pub open spec fn frozen_colliders(w: ServerWorld) -> Seq<ColliderRect> {
    seq![
        wall_collider_of(WallLocation::Left),
        wall_collider_of(WallLocation::Right),
        wall_collider_of(WallLocation::Bottom),
        wall_collider_of(WallLocation::Top),
    ] + w.bricks@.map_values(|b: BrickEnt| brick_collider(b)) + w.paddles@.map_values(
        |p: PaddleEnt| paddle_collider(p),
    )
}

/// Score and slated deletions after the first `k` balls have run against
/// the frozen colliders, threading the shared deletion list from ball to
/// ball (a brick one ball removed cannot be hit again by the next).
pub open spec fn pass_before_ball(
    cs: Seq<ColliderRect>,
    balls: Seq<BallEnt>,
    k: int,
    score0: int,
) -> (int, Seq<NetId>)
    decreases k,
{
    if k <= 0 {
        (score0, Seq::empty())
    } else {
        let prev = pass_before_ball(cs, balls, k - 1, score0);
        let out = crate::sim::collide_upto(
            cs,
            cs.len() as int,
            balls[k - 1].pos,
            crate::consts::BALL_RADIUS as int,
            CollidePass { score: prev.0, vel: balls[k - 1].vel, dels: prev.1 },
        );
        (out.score, out.dels)
    }
}

/// The collision stage's whole effect: score grows by exactly the
/// bricks removed, the brick list is filtered by the removed ids, each
/// ball's velocity is the collision fold over the frozen colliders
/// (threading the shared deletion list ball by ball), and nothing else
/// changes.
pub open spec fn collision_outcome(w0: ServerWorld, w1: ServerWorld, deleted: Seq<NetId>) -> bool {
    &&& w1.frame_counter == w0.frame_counter
    &&& w1.paddles == w0.paddles
    &&& w1.net_id_gen == w0.net_id_gen
    &&& w1.connections.entries@ == w0.connections.entries@
    &&& w1.connections.next_player_index == w0.connections.next_player_index
    &&& w1.score >= w0.score
    &&& w1.score as int == w0.score + deleted.len()
    &&& w1.bricks@ == w0.bricks@.filter((|b: BrickEnt| !deleted.contains(b.net_id)))
    &&& w1.balls@.len() == w0.balls@.len()
    &&& (forall|k: int|
        0 <= k < w1.balls@.len() ==> {
            let b0 = w0.balls@[k];
            let b1 = #[trigger] w1.balls@[k];
            &&& b1.net_id == b0.net_id
            &&& b1.player == b0.player
            &&& b1.pos == b0.pos
            &&& crate::sim::speed_sq(b1.vel) == crate::sim::speed_sq(b0.vel)
        })
    &&& ({
        let cs = frozen_colliders(w0);
        &&& (forall|k: int|
            0 <= k < w1.balls@.len() ==> (#[trigger] w1.balls@[k]).vel
                == crate::sim::collide_upto(
                cs,
                cs.len() as int,
                w0.balls@[k].pos,
                crate::consts::BALL_RADIUS as int,
                CollidePass {
                    score: pass_before_ball(cs, w0.balls@, k, w0.score as int).0,
                    vel: w0.balls@[k].vel,
                    dels: pass_before_ball(cs, w0.balls@, k, w0.score as int).1,
                },
            ).vel)
        &&& w1.score as int == pass_before_ball(
            cs,
            w0.balls@,
            w0.balls@.len() as int,
            w0.score as int,
        ).0
        &&& deleted == pass_before_ball(cs, w0.balls@, w0.balls@.len() as int, w0.score as int).1
    })
}

/// The collision stage. Colliders are frozen up front — the four walls,
/// every brick, every paddle — and each ball runs against them in order:
/// its velocity reflects off whatever it overlaps, hit bricks are slated
/// for deletion and score one point each. Slated bricks are then removed.
/// The score never drops (it grows by exactly the bricks removed), and no
/// ball changes speed.
#[verifier::loop_isolation(false)]
pub fn check_for_collisions(w: &mut ServerWorld) -> (deleted: Vec<NetId>)
    requires
        old(w).wf(),
        old(w).score + 2 * old(w).bricks@.len() + old(w).paddles@.len() + 4 <= u32::MAX,
    ensures
        final(w).wf(),
        collision_outcome(*old(w), *final(w), deleted@),
{
    let ghost old_score = w.score;
    let nb = w.bricks.len();
    let np = w.paddles.len();
    let mut colliders: Vec<ColliderRect> = Vec::new();
    colliders.push(WallLocation::Left.collider());
    colliders.push(WallLocation::Right.collider());
    colliders.push(WallLocation::Bottom.collider());
    colliders.push(WallLocation::Top.collider());
    let mut j: usize = 0;
    while j < nb
        invariant
            j <= nb,
            nb == w.bricks@.len(),
            w == old(w),
            colliders@.len() == 4 + j,
            colliders@[0] == wall_collider_of(WallLocation::Left),
            colliders@[1] == wall_collider_of(WallLocation::Right),
            colliders@[2] == wall_collider_of(WallLocation::Bottom),
            colliders@[3] == wall_collider_of(WallLocation::Top),
            forall|c: int|
                0 <= c < 4 ==> (#[trigger] colliders@[c]).brick_net_id is None,
            forall|c: int|
                4 <= c < colliders@.len() ==> #[trigger] colliders@[c] == brick_collider(
                    w.bricks@[c - 4],
                ),
            crate::sim::colliders_wf(colliders@),
        decreases nb - j,
    {
        let b = w.bricks[j];
        colliders.push(
            ColliderRect {
                center: b.pos,
                half: Vec2I { x: BRICK_SIZE_X / 2, y: BRICK_SIZE_Y / 2 },
                brick_net_id: Some(b.net_id),
            },
        );
        j = j + 1;
    }
    let mut j2: usize = 0;
    while j2 < np
        invariant
            j2 <= np,
            np == w.paddles@.len(),
            nb == w.bricks@.len(),
            w == old(w),
            colliders@.len() == 4 + nb + j2,
            colliders@[0] == wall_collider_of(WallLocation::Left),
            colliders@[1] == wall_collider_of(WallLocation::Right),
            colliders@[2] == wall_collider_of(WallLocation::Bottom),
            colliders@[3] == wall_collider_of(WallLocation::Top),
            forall|c: int|
                0 <= c < 4 ==> (#[trigger] colliders@[c]).brick_net_id is None,
            forall|c: int|
                4 <= c < 4 + nb ==> #[trigger] colliders@[c] == brick_collider(
                    w.bricks@[c - 4],
                ),
            forall|c: int|
                4 + nb <= c < colliders@.len() ==> #[trigger] colliders@[c] == paddle_collider(
                    w.paddles@[c - 4 - nb],
                ),
            crate::sim::colliders_wf(colliders@),
        decreases np - j2,
    {
        let p = w.paddles[j2];
        colliders.push(
            ColliderRect {
                center: p.pos,
                half: Vec2I { x: PADDLE_SIZE_X / 2, y: PADDLE_SIZE_Y / 2 },
                brick_net_id: None,
            },
        );
        j2 = j2 + 1;
    }
    proof {
        assert(colliders@ =~= frozen_colliders(*old(w)));
    }
    let ghost brick_ids = w.bricks@.map_values(|b: BrickEnt| b.net_id);
    proof {
        assert(brick_ids.no_duplicates()) by {
            assert forall|a: int, b: int|
                0 <= a < brick_ids.len() && 0 <= b < brick_ids.len() && a != b implies
                brick_ids[a] != brick_ids[b] by {
                assert(w.bricks@[a].net_id != w.bricks@[b].net_id);
            }
        }
    }
    let mut deleted: Vec<NetId> = Vec::new();
    let nballs = w.balls.len();
    let mut bi: usize = 0;
    while bi < nballs
        invariant
            bi <= nballs,
            nballs == w.balls@.len(),
            w.balls@.len() == old(w).balls@.len(),
            w.frame_counter == old(w).frame_counter,
            w.paddles == old(w).paddles,
            w.bricks == old(w).bricks,
            w.net_id_gen == old(w).net_id_gen,
            w.connections.entries@ == old(w).connections.entries@,
            w.connections.next_player_index == old(w).connections.next_player_index,
            colliders@.len() == 4 + nb + np,
            crate::sim::colliders_wf(colliders@),
            colliders@ == frozen_colliders(*old(w)),
            forall|c: int|
                4 <= c < 4 + nb ==> (#[trigger] colliders@[c]).brick_net_id == Some(
                    w.bricks@[c - 4].net_id,
                ),
            forall|c: int|
                0 <= c < colliders@.len() && !(4 <= c < 4 + nb) ==> (
                #[trigger] colliders@[c]).brick_net_id is None,
            forall|k: int|
                bi <= k < w.balls@.len() ==> #[trigger] w.balls@[k] == old(w).balls@[k],
            w.score as int == pass_before_ball(
                colliders@,
                old(w).balls@,
                bi as int,
                old_score as int,
            ).0,
            deleted@ == pass_before_ball(colliders@, old(w).balls@, bi as int, old_score as int).1,
            forall|k: int|
                0 <= k < bi ==> (#[trigger] w.balls@[k]).vel == crate::sim::collide_upto(
                    colliders@,
                    colliders@.len() as int,
                    old(w).balls@[k].pos,
                    crate::consts::BALL_RADIUS as int,
                    CollidePass {
                        score: pass_before_ball(
                            colliders@,
                            old(w).balls@,
                            k,
                            old_score as int,
                        ).0,
                        vel: old(w).balls@[k].vel,
                        dels: pass_before_ball(colliders@, old(w).balls@, k, old_score as int).1,
                    },
                ).vel,
            deleted@.no_duplicates(),
            forall|id: NetId| #[trigger] deleted@.contains(id) ==> brick_ids.contains(id),
            w.score as int == old_score + deleted@.len(),
            forall|k: int|
                0 <= k < w.balls@.len() ==> {
                    let b0 = old(w).balls@[k];
                    let b1 = #[trigger] w.balls@[k];
                    &&& b1.net_id == b0.net_id
                    &&& b1.player == b0.player
                    &&& b1.pos == b0.pos
                    &&& crate::sim::vel_wf(b1.vel)
                    &&& crate::sim::speed_sq(b1.vel) == crate::sim::speed_sq(b0.vel)
                },
        decreases nballs - bi,
    {
        proof {
            lemma_distinct_members_bound(deleted@, brick_ids);
        }
        let mut ball = w.balls[bi];
        let pos = ball.pos;
        let ghost dels_before = deleted@;
        let ghost score_before = w.score;
        check_single_ball_collision(&mut w.score, &colliders, &pos, &mut ball.vel, &mut deleted);
        w.balls.set(bi, ball);
        proof {
            let cs = colliders@;
            let balls0 = old(w).balls@;
            let prev = pass_before_ball(cs, balls0, bi as int, old_score as int);
            let end = crate::sim::collide_upto(
                cs,
                cs.len() as int,
                balls0[bi as int].pos,
                crate::consts::BALL_RADIUS as int,
                CollidePass { score: prev.0, vel: balls0[bi as int].vel, dels: prev.1 },
            );
            assert(w.score as int == end.score && deleted@ == end.dels && w.balls@[bi as int].vel
                == end.vel);
            assert(pass_before_ball(cs, balls0, bi + 1, old_score as int) == (
                end.score,
                end.dels,
            ));
            assert forall|id: NetId| #[trigger] deleted@.contains(id) implies brick_ids.contains(
                id,
            ) by {
                if !dels_before.contains(id) {
                    let c = choose|c: int|
                        0 <= c < colliders@.len() && (#[trigger] colliders@[c]).brick_net_id
                            == Some(id);
                    assert(4 <= c < 4 + nb);
                    assert(w.bricks@[c - 4].net_id == id);
                    assert(brick_ids[c - 4] == id);
                }
            }
        }
        bi = bi + 1;
    }
    proof {
        lemma_distinct_members_bound(deleted@, brick_ids);
    }
    let ghost keep = (|b: BrickEnt| !deleted@.contains(b.net_id));
    let ghost all_bricks = w.bricks@;
    let mut kept: Vec<BrickEnt> = Vec::new();
    proof {
        reveal(Seq::filter);
        assert(all_bricks.take(0).filter(keep) =~= Seq::<BrickEnt>::empty());
    }
    let mut r: usize = 0;
    while r < nb
        invariant
            r <= nb,
            nb == w.bricks@.len(),
            w.bricks == old(w).bricks,
            all_bricks == w.bricks@,
            kept@ == all_bricks.take(r as int).filter(keep),
        decreases nb - r,
    {
        let b = w.bricks[r];
        proof {
            reveal(Seq::filter);
            assert(all_bricks.take(r + 1).drop_last() =~= all_bricks.take(r as int));
            assert(all_bricks.take(r + 1).last() == b);
        }
        if !contains_net_id(&deleted, b.net_id) {
            kept.push(b);
        }
        proof {
            assert(kept@ =~= all_bricks.take(r + 1).filter(keep));
        }
        r = r + 1;
    }
    proof {
        assert(all_bricks.take(nb as int) =~= all_bricks);
    }
    w.bricks = kept;
    proof {
        assert forall|k: int| 0 <= k < w.bricks@.len() implies all_bricks.contains(
            #[trigger] w.bricks@[k],
        ) by {
            lemma_brick_filter_element(all_bricks, keep, k);
        }
        assert(w.wf()) by {
            assert forall|i: int, j3: int|
                0 <= i < w.bricks@.len() && 0 <= j3 < w.bricks@.len() && i != j3 implies (
            #[trigger] w.bricks@[i]).net_id != (#[trigger] w.bricks@[j3]).net_id by {
                lemma_brick_filter_unique_pair(all_bricks, keep, i, j3);
            }
            assert forall|i: int|
                0 <= i < w.bricks@.len() implies w.net_id_gen.minted(
                (#[trigger] w.bricks@[i]).net_id,
            ) && pos_mild(w.bricks@[i].pos) by {
                let oi = choose|oi: int|
                    0 <= oi < all_bricks.len() && all_bricks[oi] == w.bricks@[i];
                assert(old(w).wf());
            }
            assert forall|i: int, j3: int|
                0 <= i < w.paddles@.len() && 0 <= j3 < w.bricks@.len() implies (
            #[trigger] w.paddles@[i]).net_id != (#[trigger] w.bricks@[j3]).net_id by {
                let oj = choose|oj: int|
                    0 <= oj < all_bricks.len() && all_bricks[oj] == w.bricks@[j3];
                assert(old(w).paddles@[i].net_id != old(w).bricks@[oj].net_id);
            }
            assert forall|i: int, j3: int|
                0 <= i < w.balls@.len() && 0 <= j3 < w.bricks@.len() implies (
            #[trigger] w.balls@[i]).net_id != (#[trigger] w.bricks@[j3]).net_id by {
                let oj = choose|oj: int|
                    0 <= oj < all_bricks.len() && all_bricks[oj] == w.bricks@[j3];
                assert(old(w).balls@[i].net_id != old(w).bricks@[oj].net_id);
            }
            all_bricks.lemma_filter_len(keep);
        }
    }
    deleted
}

/// Distinct bricks stay distinct through a filter.
proof fn lemma_brick_filter_unique_pair(
    s: Seq<BrickEnt>,
    pred: spec_fn(BrickEnt) -> bool,
    i: int,
    j: int,
)
    requires
        forall|a: int, b: int|
            0 <= a < s.len() && 0 <= b < s.len() && a != b ==> (#[trigger] s[a]).net_id != (
            #[trigger] s[b]).net_id,
        0 <= i < s.filter(pred).len(),
        0 <= j < s.filter(pred).len(),
        i != j,
    ensures
        (s.filter(pred)[i]).net_id != (s.filter(pred)[j]).net_id,
    decreases s.len(),
{
    reveal(Seq::filter);
    if s.len() > 0 {
        let f = s.filter(pred);
        let fd = s.drop_last().filter(pred);
        s.lemma_filter_len(pred);
        s.drop_last().lemma_filter_len(pred);
        if pred(s.last()) {
            assert(f == fd.push(s.last()));
            if i < f.len() - 1 && j < f.len() - 1 {
                assert(f[i] == fd[i] && f[j] == fd[j]);
                lemma_brick_filter_unique_pair(s.drop_last(), pred, i, j);
            } else {
                let k = if i < f.len() - 1 {
                    i
                } else {
                    j
                };
                assert(f[k] == fd[k]);
                assert(fd.contains(fd[k]));
                s.drop_last().lemma_filter_contains_rev(pred, fd[k]);
                let m = choose|m: int| 0 <= m < s.drop_last().len() && s.drop_last()[m] == fd[k];
                assert(s[m] == fd[k]);
                assert(s[s.len() - 1] == s.last());
            }
        } else {
            assert(f == fd);
            lemma_brick_filter_unique_pair(s.drop_last(), pred, i, j);
        }
    }
}


// --------------------------------------------------------------- broadcast --

fn conn_at(entries: &Vec<(NetConnection, NetInput)>, i: usize) -> (r: NetConnection)
    requires
        i < entries@.len(),
    ensures
        r == entries@[i as int].0,
{
    entries[i].0
}

fn ping_at(entries: &Vec<(NetConnection, NetInput)>, i: usize, j: usize) -> (r: PingData)
    requires
        i < entries@.len(),
        j < entries@[i as int].1.pings@.len(),
    ensures
        r == entries@[i as int].1.pings@[j as int],
{
    entries[i].1.pings[j]
}

fn pings_len(entries: &Vec<(NetConnection, NetInput)>, i: usize) -> (r: usize)
    requires
        i < entries@.len(),
    ensures
        r == entries@[i as int].1.pings@.len(),
{
    entries[i].1.pings.len()
}

/// The message sent to connection `c`: its per-client header in front of
/// the shared body.
pub open spec fn framed_for(c: NetConnection, body: Seq<u8>) -> Seq<u8> {
    header_bytes(c.last_applied_input, c.player_index) + body
}

/// Sends one framed pong per queued ping of one connection.
#[verifier::loop_isolation(false)]
fn send_pongs(
    transport: &mut Transport,
    rng: &mut rand::rngs::ThreadRng,
    latency_sample_ms: i64,
    now_ms: u64,
    conn: NetConnection,
    pings: &Vec<PingData>,
    Ghost(entries0): Ghost<Seq<(NetConnection, NetInput)>>,
    Ghost(body_spec): Ghost<Seq<u8>>,
    Ghost(ei): Ghost<int>,
)
    requires
        old(transport).wf(),
        0 <= ei < entries0.len(),
        entries0[ei].0 == conn,
        entries0[ei].1.pings@ == pings@,
    ensures
        final(transport).wf(),
        final(transport).sim_send_settings == old(transport).sim_send_settings,
        final(transport).messages@.len() >= old(transport).messages@.len(),
        final(transport).messages@.subrange(0, old(transport).messages@.len() as int) == old(
            transport,
        ).messages@,
        forall|k4: int|
            old(transport).messages@.len() <= k4 < final(transport).messages@.len()
                ==> broadcast_message(#[trigger] final(transport).messages@[k4], entries0, body_spec),
        // With no send profile, exactly one pong per queued ping goes
        // out, in queue order.
        !old(transport).sim_send_settings.spec_is_set() ==> {
            &&& final(transport).messages@.len() == old(transport).messages@.len() + pings@.len()
            &&& forall|j: int|
                0 <= j < pings@.len() ==> msg_model(
                    #[trigger] final(transport).messages@[old(transport).messages@.len() + j],
                ) == (conn.addr, framed_for(
                    conn,
                    enc_server_to_client(ServerToClientModel::Pong(pings@[j])),
                ))
        },
{
    let npings = pings.len();
    let mut pj: usize = 0;
    while pj < npings
        invariant
            pj <= npings,
            npings == pings@.len(),
            transport.wf(),
            transport.sim_send_settings == old(transport).sim_send_settings,
            transport.messages@.len() >= old(transport).messages@.len(),
            transport.messages@.subrange(0, old(transport).messages@.len() as int) == old(
                transport,
            ).messages@,
            forall|k4: int|
                old(transport).messages@.len() <= k4 < transport.messages@.len()
                    ==> broadcast_message(#[trigger] transport.messages@[k4], entries0, body_spec),
            !old(transport).sim_send_settings.spec_is_set() ==> {
                &&& transport.messages@.len() == old(transport).messages@.len() + pj
                &&& forall|j: int|
                    0 <= j < pj ==> msg_model(
                        #[trigger] transport.messages@[old(transport).messages@.len() + j],
                    ) == (conn.addr, framed_for(
                        conn,
                        enc_server_to_client(ServerToClientModel::Pong(pings@[j])),
                    ))
            },
        decreases npings - pj,
    {
        let ping = pings[pj];
        let pong_packet = ServerToClientPacket::Pong(ping);
        let pong_body = encode_server_to_client(&pong_packet);
        let pong_buf = frame_packet(conn.last_applied_input, conn.player_index, pong_body.as_slice());
        let ghost msgs_before = transport.messages@;
        let setting = transport.sim_send_settings;
        let roll = setting.roll(rng, latency_sample_ms, now_ms);
        transport.send(conn.addr, pong_buf.as_slice(), roll);
        proof {
            assert(transport.messages@.subrange(0, old(transport).messages@.len() as int)
                =~= old(transport).messages@);
            if !(roll is Drop) {
                assert(transport.messages@.last().payload@ == framed_for(
                    entries0[ei].0,
                    enc_server_to_client(ServerToClientModel::Pong(ping)),
                ));
                assert(entries0[ei].1.pings@.contains(ping)) by {
                    assert(entries0[ei].1.pings@[pj as int] == ping);
                }
                assert(broadcast_message(transport.messages@.last(), entries0, body_spec));
            }
            assert forall|k4: int|
                old(transport).messages@.len() <= k4 < transport.messages@.len() implies
                broadcast_message(#[trigger] transport.messages@[k4], entries0, body_spec) by {
                if k4 < msgs_before.len() {
                    assert(transport.messages@[k4] == msgs_before[k4]);
                }
            }
            if !old(transport).sim_send_settings.spec_is_set() {
                assert forall|j: int|
                    0 <= j < pj + 1 implies msg_model(
                    #[trigger] transport.messages@[old(transport).messages@.len() + j],
                ) == (conn.addr, framed_for(
                    conn,
                    enc_server_to_client(ServerToClientModel::Pong(pings@[j])),
                )) by {
                    if j < pj {
                        assert(transport.messages@[old(transport).messages@.len() + j]
                            == msgs_before[old(transport).messages@.len() + j]);
                    } else {
                        assert(transport.messages@.last().payload@ == framed_for(
                            conn,
                            enc_server_to_client(ServerToClientModel::Pong(ping)),
                        ));
                    }
                }
            }
        }
        pj = pj + 1;
    }
}

/// An appended-to queue keeps every message it already had.
proof fn lemma_prefix_elem(a: Seq<crate::transport::Message>, b: Seq<crate::transport::Message>, k: int)
    requires
        b.len() >= a.len(),
        b.subrange(0, a.len() as int) == a,
        0 <= k < a.len(),
    ensures
        b[k] == a[k],
{
    assert(b.subrange(0, a.len() as int)[k] == b[k]);
}

/// Sends the framed snapshot body to one connection.
#[verifier::loop_isolation(false)]
fn send_snapshot_to(
    transport: &mut Transport,
    rng: &mut rand::rngs::ThreadRng,
    latency_sample_ms: i64,
    now_ms: u64,
    conn: NetConnection,
    body: &Vec<u8>,
    Ghost(entries0): Ghost<Seq<(NetConnection, NetInput)>>,
    Ghost(body_spec): Ghost<Seq<u8>>,
    Ghost(ei): Ghost<int>,
)
    requires
        old(transport).wf(),
        0 <= ei < entries0.len(),
        entries0[ei].0 == conn,
        body@ == body_spec,
    ensures
        final(transport).wf(),
        final(transport).sim_send_settings == old(transport).sim_send_settings,
        final(transport).messages@.len() >= old(transport).messages@.len(),
        final(transport).messages@.subrange(0, old(transport).messages@.len() as int) == old(
            transport,
        ).messages@,
        forall|k4: int|
            old(transport).messages@.len() <= k4 < final(transport).messages@.len()
                ==> broadcast_message(#[trigger] final(transport).messages@[k4], entries0, body_spec),
        !old(transport).sim_send_settings.spec_is_set() ==> {
            &&& final(transport).messages@.len() == old(transport).messages@.len() + 1
            &&& final(transport).messages@.last().destination == conn.addr
            &&& final(transport).messages@.last().payload@ == framed_for(conn, body_spec)
        },
{
    let buf = frame_packet(conn.last_applied_input, conn.player_index, body.as_slice());
    let setting = transport.sim_send_settings;
    let roll = setting.roll(rng, latency_sample_ms, now_ms);
    transport.send(conn.addr, buf.as_slice(), roll);
    proof {
        assert(transport.messages@.subrange(0, old(transport).messages@.len() as int) =~= old(
            transport,
        ).messages@);
        if !(roll is Drop) {
            assert(transport.messages@.last().payload@ == framed_for(entries0[ei].0, body_spec));
            assert(broadcast_message(transport.messages@.last(), entries0, body_spec));
        }
    }
}

/// Some datagram in `msgs` at or after `lo` is the framed snapshot body
/// for connection `i` of `entries`.
pub open spec fn snapshot_delivered(
    msgs: Seq<crate::transport::Message>,
    lo: int,
    entries: Seq<(NetConnection, NetInput)>,
    i: int,
    body: Seq<u8>,
) -> bool {
    exists|k: int|
        {
            &&& lo <= k < msgs.len()
            &&& (#[trigger] msgs[k]).destination == entries[i].0.addr
            &&& msgs[k].payload@ == framed_for(entries[i].0, body)
        }
}

/// A delivered snapshot stays delivered as the queue grows.
proof fn lemma_delivered_monotone(
    a: Seq<crate::transport::Message>,
    b: Seq<crate::transport::Message>,
    lo: int,
    entries: Seq<(NetConnection, NetInput)>,
    i: int,
    body: Seq<u8>,
)
    requires
        0 <= lo,
        snapshot_delivered(a, lo, entries, i, body),
        b.len() >= a.len(),
        b.subrange(0, a.len() as int) == a,
    ensures
        snapshot_delivered(b, lo, entries, i, body),
{
    let k = choose|k: int|
        {
            &&& lo <= k < a.len()
            &&& (#[trigger] a[k]).destination == entries[i].0.addr
            &&& a[k].payload@ == framed_for(entries[i].0, body)
        };
    lemma_prefix_elem(a, b, k);
    assert(b[k].destination == entries[i].0.addr);
}

/// The broadcast stage's whole effect on world and transport: only ping
/// queues empty on the world side; the transport keeps its queue as a
/// prefix and gains only legitimate broadcast datagrams — with no send
/// profile, exactly the framed snapshot and pong echoes per connection.
pub open spec fn broadcast_outcome(
    w0: ServerWorld,
    w1: ServerWorld,
    t0: Transport,
    t1: Transport,
) -> bool {
    &&& w1.frame_counter == w0.frame_counter
    &&& w1.score == w0.score
    &&& w1.net_id_gen == w0.net_id_gen
    &&& w1.paddles == w0.paddles
    &&& w1.balls == w0.balls
    &&& w1.bricks == w0.bricks
    &&& w1.connections.next_player_index == w0.connections.next_player_index
    &&& w1.connections.entries@.len() == w0.connections.entries@.len()
    &&& (forall|i: int|
        0 <= i < w1.connections.entries@.len() ==> {
            &&& (#[trigger] w1.connections.entries@[i]).0 == w0.connections.entries@[i].0
            &&& w1.connections.entries@[i].1.input_state == w0.connections.entries@[i].1.input_state
            &&& w1.connections.entries@[i].1.inputs == w0.connections.entries@[i].1.inputs
        })
    &&& (w0.connections.entries@.len() > 0 ==> forall|i: int|
        0 <= i < w1.connections.entries@.len() ==> (
        #[trigger] w1.connections.entries@[i]).1.pings@.len() == 0)
    &&& (w0.connections.entries@.len() == 0 ==> t1.messages == t0.messages && w1 == w0)
    &&& t1.sim_send_settings == t0.sim_send_settings
    &&& t1.messages@.len() >= t0.messages@.len()
    &&& t1.messages@.subrange(0, t0.messages@.len() as int) == t0.messages@
    &&& ({
        let body = enc_server_to_client(ServerToClientModel::WorldState(w0.snapshot_model()));
        let entries = w0.connections.entries@;
        &&& (forall|k: int|
            t0.messages@.len() <= k < t1.messages@.len() ==> broadcast_message(
                #[trigger] t1.messages@[k],
                entries,
                body,
            ))
        &&& (!t0.sim_send_settings.spec_is_set() ==> forall|i: int|
            0 <= i < entries.len() ==> #[trigger] snapshot_delivered(
                t1.messages@,
                t0.messages@.len() as int,
                entries,
                i,
                body,
            ))
        &&& (!t0.sim_send_settings.spec_is_set() ==> t1.messages@.skip(
            t0.messages@.len() as int,
        ).map_values(|m: crate::transport::Message| msg_model(m)) == expected_broadcast(
            entries,
            body,
        ))
    })
}

/// The broadcast stage. The snapshot body — frame, every brick, ball and
/// paddle, and the score singleton under `NetId(0)` — is serialized once;
/// each connection receives it behind its own header (its acknowledged
/// input and player index), followed by a pong for every ping it had
/// queued, and its ping queue empties. Every enqueued datagram is one of
/// exactly those, and with no send profile set, every connection's
/// snapshot datagram is enqueued. With no connections nothing is sent.
#[verifier::loop_isolation(false)]
#[verifier::rlimit(100)]
#[verifier::spinoff_prover]
pub fn broadcast_world_state(
    w: &mut ServerWorld,
    transport: &mut Transport,
    rng: &mut rand::rngs::ThreadRng,
    latency_sample_ms: i64,
    now_ms: u64,
)
    requires
        old(w).wf(),
        old(transport).wf(),
    ensures
        final(w).wf(),
        final(transport).wf(),
        broadcast_outcome(*old(w), *final(w), *old(transport), *final(transport)),
{
    if w.connections.entries.len() == 0 {
        proof {
            assert(transport.messages@.subrange(0, old(transport).messages@.len() as int)
                =~= old(transport).messages@);
            assert(expected_broadcast(old(w).connections.entries@, enc_server_to_client(
                ServerToClientModel::WorldState(old(w).snapshot_model()),
            )) =~= Seq::<(PeerAddr, Seq<u8>)>::empty());
            assert(transport.messages@.skip(old(transport).messages@.len() as int)
                =~= Seq::<crate::transport::Message>::empty());
            assert(transport.messages@.skip(old(transport).messages@.len() as int).map_values(
                |m: crate::transport::Message| msg_model(m),
            ) =~= Seq::<(PeerAddr, Seq<u8>)>::empty());
        }
        return ;
    }
    let ghost body_spec = enc_server_to_client(
        ServerToClientModel::WorldState(old(w).snapshot_model()),
    );
    let ghost entries0 = old(w).connections.entries@;
    let body = build_snapshot_body(w);
    proof {
        assert(body@ == body_spec);
    }
    let n = w.connections.entries.len();
    proof {
        assert(entries0.take(0) =~= Seq::<(NetConnection, NetInput)>::empty());
        assert(transport.messages@.skip(old(transport).messages@.len() as int)
            =~= Seq::<crate::transport::Message>::empty());
        assert(transport.messages@.skip(old(transport).messages@.len() as int).map_values(
            |m: crate::transport::Message| msg_model(m),
        ) =~= expected_broadcast(entries0.take(0), body_spec));
    }
    let mut i: usize = 0;
    while i < n
        invariant
            i <= n,
            n == w.connections.entries@.len(),
            w.connections.entries@.len() == entries0.len(),
            w.frame_counter == old(w).frame_counter,
            w.score == old(w).score,
            w.net_id_gen == old(w).net_id_gen,
            w.paddles == old(w).paddles,
            w.balls == old(w).balls,
            w.bricks == old(w).bricks,
            w.connections.next_player_index == old(w).connections.next_player_index,
            body@ == body_spec,
            forall|i2: int|
                0 <= i2 < entries0.len() ==> {
                    &&& (#[trigger] w.connections.entries@[i2]).0 == entries0[i2].0
                    &&& w.connections.entries@[i2].1.input_state == entries0[i2].1.input_state
                    &&& w.connections.entries@[i2].1.inputs == entries0[i2].1.inputs
                },
            forall|i2: int|
                0 <= i2 < i ==> (#[trigger] w.connections.entries@[i2]).1.pings@.len() == 0,
            forall|i2: int|
                i <= i2 < entries0.len() ==> (#[trigger] w.connections.entries@[i2]).1.pings
                    == entries0[i2].1.pings,
            transport.wf(),
            transport.sim_send_settings == old(transport).sim_send_settings,
            transport.messages@.len() >= old(transport).messages@.len(),
            transport.messages@.subrange(0, old(transport).messages@.len() as int) == old(
                transport,
            ).messages@,
            forall|k4: int|
                old(transport).messages@.len() <= k4 < transport.messages@.len()
                    ==> broadcast_message(#[trigger] transport.messages@[k4], entries0, body_spec),
            !old(transport).sim_send_settings.spec_is_set() ==> forall|i2: int|
                0 <= i2 < i ==> #[trigger] snapshot_delivered(
                    transport.messages@,
                    old(transport).messages@.len() as int,
                    entries0,
                    i2,
                    body_spec,
                ),
            !old(transport).sim_send_settings.spec_is_set() ==> transport.messages@.skip(
                old(transport).messages@.len() as int,
            ).map_values(|m: crate::transport::Message| msg_model(m)) == expected_broadcast(
                entries0.take(i as int),
                body_spec,
            ),
        decreases n - i,
    {
        let conn = conn_at(&w.connections.entries, i);
        let ghost msgs_head = transport.messages@;
        send_snapshot_to(
            transport,
            rng,
            latency_sample_ms,
            now_ms,
            conn,
            &body,
            Ghost(entries0),
            Ghost(body_spec),
            Ghost(i as int),
        );
        let ghost msgs_snap = transport.messages@;
        let pings = pings_clone(&w.connections.entries, i);
        send_pongs(
            transport,
            rng,
            latency_sample_ms,
            now_ms,
            conn,
            &pings,
            Ghost(entries0),
            Ghost(body_spec),
            Ghost(i as int),
        );
        proof {
            assert forall|k4: int| 0 <= k4 < msgs_snap.len() implies transport.messages@[k4]
                == msgs_snap[k4] by {
                lemma_prefix_elem(msgs_snap, transport.messages@, k4);
            }
            assert forall|k4: int| 0 <= k4 < msgs_head.len() implies msgs_snap[k4]
                == msgs_head[k4] by {
                lemma_prefix_elem(msgs_head, msgs_snap, k4);
            }
            assert(transport.messages@.subrange(0, old(transport).messages@.len() as int) =~= old(
                transport,
            ).messages@);
            assert forall|k4: int|
                old(transport).messages@.len() <= k4 < transport.messages@.len() implies
                broadcast_message(#[trigger] transport.messages@[k4], entries0, body_spec) by {
                if k4 < msgs_head.len() {
                    assert(transport.messages@[k4] == msgs_head[k4]);
                } else if k4 < msgs_snap.len() {
                    assert(transport.messages@[k4] == msgs_snap[k4]);
                }
            }
            if !old(transport).sim_send_settings.spec_is_set() {
                let lo = old(transport).messages@.len() as int;
                let model = |m: crate::transport::Message| msg_model(m);
                let prev = expected_broadcast(entries0.take(i as int), body_spec);
                let pings_i = entries0[i as int].1.pings@;
                assert(entries0.take(i + 1).drop_last() =~= entries0.take(i as int));
                assert(entries0.take(i + 1).last() == entries0[i as int]);
                assert(msgs_head.skip(lo).map_values(model) == prev);
                assert(msgs_snap.len() == msgs_head.len() + 1);
                assert(transport.messages@.len() == msgs_snap.len() + pings_i.len());
                assert(prev.len() == msgs_head.len() - lo);
                assert(expected_broadcast(entries0.take(i + 1), body_spec) == prev
                    + expected_entry_msgs(entries0[i as int], body_spec));
                assert(expected_entry_msgs(entries0[i as int], body_spec).len() == 1
                    + pings_i.len());
                assert(expected_broadcast(entries0.take(i + 1), body_spec).len()
                    == transport.messages@.len() - lo);
                assert forall|idx: int|
                    0 <= idx < transport.messages@.len() - lo implies #[trigger] transport.messages@.skip(
                    lo,
                ).map_values(model)[idx] == expected_broadcast(entries0.take(i + 1), body_spec)[idx] by {
                    let exp = expected_broadcast(entries0.take(i + 1), body_spec);
                    assert(transport.messages@.skip(lo)[idx] == transport.messages@[lo + idx]);
                    assert(transport.messages@.skip(lo).map_values(model)[idx] == model(
                        transport.messages@[lo + idx],
                    ));
                    assert(exp == prev + expected_entry_msgs(entries0[i as int], body_spec));
                    if idx < prev.len() {
                        assert(transport.messages@[lo + idx] == msgs_head[lo + idx]);
                        assert(msgs_head.skip(lo).map_values(model)[idx] == model(
                            msgs_head[lo + idx],
                        ));
                        assert(exp[idx] == prev[idx]);
                    } else if idx == prev.len() {
                        assert(transport.messages@[lo + idx] == msgs_snap[msgs_snap.len() - 1]);
                        assert(model(msgs_snap.last()) == (
                            entries0[i as int].0.addr,
                            framed_for(entries0[i as int].0, body_spec),
                        ));
                        assert(exp[idx] == expected_entry_msgs(entries0[i as int], body_spec)[0]);
                    } else {
                        let j = idx - prev.len() - 1;
                        assert(msg_model(transport.messages@[msgs_snap.len() + j]) == (
                            entries0[i as int].0.addr,
                            framed_for(
                                entries0[i as int].0,
                                enc_server_to_client(ServerToClientModel::Pong(pings_i[j])),
                            ),
                        ));
                        assert(exp[idx] == expected_entry_msgs(entries0[i as int], body_spec)[1
                            + j]);
                        assert(expected_entry_msgs(entries0[i as int], body_spec)[1 + j] == (
                            entries0[i as int].0.addr,
                            framed_for(
                                entries0[i as int].0,
                                enc_server_to_client(ServerToClientModel::Pong(pings_i[j])),
                            ),
                        ));
                    }
                }
                assert(transport.messages@.skip(lo).map_values(model) =~= expected_broadcast(
                    entries0.take(i + 1),
                    body_spec,
                ));
                assert forall|i2: int| 0 <= i2 < i + 1 implies #[trigger] snapshot_delivered(
                    transport.messages@,
                    old(transport).messages@.len() as int,
                    entries0,
                    i2,
                    body_spec,
                ) by {
                    if i2 == i {
                        let k5 = msgs_snap.len() - 1;
                        assert(msgs_snap[k5].destination == entries0[i as int].0.addr);
                        assert(snapshot_delivered(
                            msgs_snap,
                            old(transport).messages@.len() as int,
                            entries0,
                            i as int,
                            body_spec,
                        ));
                        lemma_delivered_monotone(
                            msgs_snap,
                            transport.messages@,
                            old(transport).messages@.len() as int,
                            entries0,
                            i as int,
                            body_spec,
                        );
                    } else {
                        lemma_delivered_monotone(
                            msgs_head,
                            msgs_snap,
                            old(transport).messages@.len() as int,
                            entries0,
                            i2,
                            body_spec,
                        );
                        lemma_delivered_monotone(
                            msgs_snap,
                            transport.messages@,
                            old(transport).messages@.len() as int,
                            entries0,
                            i2,
                            body_spec,
                        );
                    }
                }
            }
        }
        let conns = &mut w.connections;
        let e = entry_mut(&mut conns.entries, i);
        e.1.pings = Vec::new();
        i = i + 1;
    }
    proof {
        assert(w.wf()) by {
            assert(old(w).wf());
        }
        assert(entries0.take(n as int) =~= entries0);
    }
}

fn pings_clone(entries: &Vec<(NetConnection, NetInput)>, i: usize) -> (r: Vec<PingData>)
    requires
        i < entries@.len(),
    ensures
        r@ == entries@[i as int].1.pings@,
{
    let n = pings_len(entries, i);
    let mut out: Vec<PingData> = Vec::new();
    let mut j: usize = 0;
    while j < n
        invariant
            j <= n,
            n == entries@[i as int].1.pings@.len(),
            i < entries@.len(),
            out@ == entries@[i as int].1.pings@.take(j as int),
        decreases n - j,
    {
        let p = ping_at(entries, i, j);
        out.push(p);
        proof {
            assert(out@ =~= entries@[i as int].1.pings@.take(j + 1));
        }
        j = j + 1;
    }
    proof {
        assert(entries@[i as int].1.pings@.take(n as int) =~= entries@[i as int].1.pings@);
    }
    out
}

/// Serializes this frame's snapshot body once, for all clients.
fn build_snapshot_body(w: &ServerWorld) -> (r: Vec<u8>)
    requires
        w.wf(),
    ensures
        r@ == enc_server_to_client(ServerToClientModel::WorldState(w.snapshot_model())),
{
    let mut entities: Vec<NetEntity> = Vec::new();
    let nb = w.bricks.len();
    let mut k: usize = 0;
    while k < nb
        invariant
            k <= nb,
            nb == w.bricks@.len(),
            entities@ == w.bricks@.take(k as int).map_values(|b: BrickEnt| brick_entity(b)),
        decreases nb - k,
    {
        let b = w.bricks[k];
        entities.push(
            NetEntity {
                entity_type: NetEntityType::Brick(NetBrickData { pos: b.pos }),
                net_id: b.net_id,
            },
        );
        proof {
            assert(entities@ =~= w.bricks@.take(k + 1).map_values(
                |b2: BrickEnt| brick_entity(b2),
            ));
        }
        k = k + 1;
    }
    let nl = w.balls.len();
    let mut k2: usize = 0;
    while k2 < nl
        invariant
            k2 <= nl,
            nb == w.bricks@.len(),
            nl == w.balls@.len(),
            entities@ == w.bricks@.map_values(|b: BrickEnt| brick_entity(b)) + w.balls@.take(
                k2 as int,
            ).map_values(|b: BallEnt| ball_entity(b)),
        decreases nl - k2,
    {
        proof {
            assert(w.bricks@.take(nb as int) =~= w.bricks@);
        }
        let b = w.balls[k2];
        entities.push(
            NetEntity {
                entity_type: NetEntityType::Ball(
                    NetBallData { pos: b.pos, velocity: b.vel, player_index: b.player },
                ),
                net_id: b.net_id,
            },
        );
        proof {
            assert(entities@ =~= w.bricks@.map_values(|b2: BrickEnt| brick_entity(b2))
                + w.balls@.take(k2 + 1).map_values(|b2: BallEnt| ball_entity(b2)));
        }
        k2 = k2 + 1;
    }
    let np = w.paddles.len();
    let mut k3: usize = 0;
    while k3 < np
        invariant
            k3 <= np,
            nb == w.bricks@.len(),
            nl == w.balls@.len(),
            np == w.paddles@.len(),
            entities@ == w.bricks@.map_values(|b: BrickEnt| brick_entity(b)) + w.balls@.map_values(
                |b: BallEnt| ball_entity(b),
            ) + w.paddles@.take(k3 as int).map_values(|p: PaddleEnt| paddle_entity(p)),
        decreases np - k3,
    {
        proof {
            assert(w.balls@.take(nl as int) =~= w.balls@);
        }
        let p = w.paddles[k3];
        entities.push(
            NetEntity {
                entity_type: NetEntityType::Paddle(
                    NetPaddleData { pos: p.pos, player_index: p.player },
                ),
                net_id: p.net_id,
            },
        );
        proof {
            assert(entities@ =~= w.bricks@.map_values(|b2: BrickEnt| brick_entity(b2))
                + w.balls@.map_values(|b2: BallEnt| ball_entity(b2)) + w.paddles@.take(
                k3 + 1,
            ).map_values(|p2: PaddleEnt| paddle_entity(p2)));
        }
        k3 = k3 + 1;
    }
    entities.push(
        NetEntity {
            entity_type: NetEntityType::Score(NetScoreData { score: w.score }),
            net_id: NetId(0),
        },
    );
    proof {
        assert(w.paddles@.take(np as int) =~= w.paddles@);
        assert(entities@ =~= w.snapshot_model().entities);
        assert(entities@.len() <= 0xffff_ffff);
    }
    let packet = ServerToClientPacket::WorldState(
        NetWorldStateData { frame: w.frame_counter, entities },
    );
    let body = encode_server_to_client(&packet);
    proof {
        assert(packet@ == ServerToClientModel::WorldState(w.snapshot_model()));
    }
    body
}

/// A queued datagram reduced to what the wire sees: destination and bytes.
pub open spec fn msg_model(m: crate::transport::Message) -> (PeerAddr, Seq<u8>) {
    (m.destination, m.payload@)
}

/// The datagrams one connection receives in a broadcast: its framed
/// snapshot, then one framed pong per queued ping, in queue order.
pub open spec fn expected_entry_msgs(e: (NetConnection, NetInput), body: Seq<u8>) -> Seq<
    (PeerAddr, Seq<u8>),
> {
    seq![(e.0.addr, framed_for(e.0, body))] + e.1.pings@.map_values(
        |p: PingData| (e.0.addr, framed_for(e.0, enc_server_to_client(ServerToClientModel::Pong(p)))),
    )
}

/// All datagrams of one broadcast, connection by connection.
pub open spec fn expected_broadcast(
    entries: Seq<(NetConnection, NetInput)>,
    body: Seq<u8>,
) -> Seq<(PeerAddr, Seq<u8>)>
    decreases entries.len(),
{
    if entries.len() == 0 {
        Seq::empty()
    } else {
        expected_broadcast(entries.drop_last(), body) + expected_entry_msgs(entries.last(), body)
    }
}

/// A datagram the broadcast may enqueue: for some connection, either the
/// framed snapshot body or a framed pong of one of its queued pings.
pub open spec fn broadcast_message(
    m: crate::transport::Message,
    entries: Seq<(NetConnection, NetInput)>,
    body: Seq<u8>,
) -> bool {
    exists|i: int|
        {
            &&& 0 <= i < entries.len()
            &&& m.destination == (#[trigger] entries[i]).0.addr
            &&& (m.payload@ == framed_for(entries[i].0, body) || exists|p: PingData|
                entries[i].1.pings@.contains(p) && m.payload@ == framed_for(
                    entries[i].0,
                    enc_server_to_client(ServerToClientModel::Pong(p)),
                ))
        }
}

/// An entry table that lost at most one entry keeps distinct addresses
/// distinct.
proof fn lemma_entries_shrink_unique(
    es0: Seq<(NetConnection, NetInput)>,
    es1: Seq<(NetConnection, NetInput)>,
)
    requires
        es0 == es1 || exists|j: int| 0 <= j < es0.len() && es1 == #[trigger] es0.remove(j),
    ensures
        conn_addrs_unique(es0) ==> conn_addrs_unique(es1),
{
    if es0 != es1 && conn_addrs_unique(es0) {
        let j = choose|j: int| 0 <= j < es0.len() && es1 == #[trigger] es0.remove(j);
        es0.remove_ensures(j);
        assert forall|a: int, b: int|
            0 <= a < es1.len() && 0 <= b < es1.len() && a != b implies (#[trigger] es1[a]).0.addr
            != (#[trigger] es1[b]).0.addr by {
            let oa = if a < j {
                a
            } else {
                a + 1
            };
            let ob = if b < j {
                b
            } else {
                b + 1
            };
            assert(es1[a] == es0[oa] && es1[b] == es0[ob]);
        }
    }
}


// ------------------------------------------------------------------ tick --

/// One sweep tear-down: the disconnect effect, leaving score, frame,
/// bricks, the id mint and the player counter alone.
pub open spec fn disconnect_step(w0: ServerWorld, w1: ServerWorld, a: PeerAddr) -> bool {
    &&& disconnect_effect(w0, w1, a)
    &&& w1.frame_counter == w0.frame_counter
    &&& w1.score == w0.score
    &&& w1.bricks == w0.bricks
    &&& w1.net_id_gen == w0.net_id_gen
    &&& w1.connections.next_player_index == w0.connections.next_player_index
}

/// `trace` carries the worlds a run of sweep tear-downs steps through:
/// from `w0`, one `disconnect_step` per address, ending at `w1`.
pub open spec fn disconnect_trace_ok(
    w0: ServerWorld,
    addrs: Seq<PeerAddr>,
    trace: Seq<ServerWorld>,
    w1: ServerWorld,
) -> bool {
    &&& trace.len() == addrs.len() + 1
    &&& trace[0] == w0
    &&& trace.last() == w1
    &&& (forall|j: int|
        0 <= j < addrs.len() ==> disconnect_step(#[trigger] trace[j], trace[j + 1], addrs[j]))
}

/// The sweep tear-downs lead from `w0` to `w1`, one step per address.
pub open spec fn disconnect_chain(w0: ServerWorld, addrs: Seq<PeerAddr>, w1: ServerWorld) -> bool {
    exists|trace: Seq<ServerWorld>| #[trigger] disconnect_trace_ok(w0, addrs, trace, w1)
}

/// `trace` carries the worlds a run of events steps through: from `w0`,
/// one `event_step` per event, ending at `w1`.
pub open spec fn events_trace_ok(
    w0: ServerWorld,
    events: Seq<NetworkEvent>,
    trace: Seq<ServerWorld>,
    w1: ServerWorld,
) -> bool {
    &&& trace.len() == events.len() + 1
    &&& trace[0] == w0
    &&& trace.last() == w1
    &&& (forall|j: int|
        0 <= j < events.len() ==> event_step(#[trigger] trace[j], trace[j + 1], events[j]))
}

/// The events lead from `w0` to `w1`, one step per event, in order.
pub open spec fn events_chain(w0: ServerWorld, events: Seq<NetworkEvent>, w1: ServerWorld) -> bool {
    exists|trace: Seq<ServerWorld>| #[trigger] events_trace_ok(w0, events, trace, w1)
}

/// Whether some event announces `a` as newly connected.
pub open spec fn events_connect(events: Seq<NetworkEvent>, a: PeerAddr) -> bool {
    exists|i: int|
        0 <= i < events.len() && ((#[trigger] events[i]) matches NetworkEvent::Connected(x) && x
            == a)
}

/// One authoritative server tick, in the fixed order: advance the frame,
/// sweep idle peers (tearing their entities down), apply the received
/// network events, play buffered inputs into paddles, integrate balls,
/// collide (removing hit bricks and scoring), and broadcast the snapshot.
/// The score never drops across a tick, and a peer that was already
/// silent past the idle timeout is gone by the end of it — registry and
/// world both — unless an event of this very tick announced it anew.
/// Returns the addresses dropped by the sweep.
#[verifier::loop_isolation(false)]
#[verifier::rlimit(100)]
#[verifier::spinoff_prover]
pub fn server_tick(
    w: &mut ServerWorld,
    net: &mut NetworkResource,
    transport: &mut Transport,
    spawn_rng: &mut rand_chacha::ChaCha8Rng,
    roll_rng: &mut rand::rngs::ThreadRng,
    latency_sample_ms: i64,
    events: &Vec<NetworkEvent>,
    now_ms: u64,
) -> (disconnected: Vec<PeerAddr>)
    requires
        old(w).wf(),
        old(net).wf(),
        old(transport).wf(),
        conn_addrs_unique(old(w).connections.entries@),
        old(w).frame_counter < u32::MAX,
        old(w).net_id_gen.next_id + 2 * events@.len() <= u16::MAX,
        old(w).connections.next_player_index + events@.len() < 256,
        old(w).score + 2 * old(w).bricks@.len() + old(w).paddles@.len() + events@.len() + 4
            <= u32::MAX,
    ensures
        final(w).wf(),
        final(net).wf(),
        final(transport).wf(),
        conn_addrs_unique(final(w).connections.entries@),
        final(w).frame_counter == old(w).frame_counter + 1,
        final(w).score >= old(w).score,
        final(w).bricks@.len() <= old(w).bricks@.len(),
        // Player indices are never recycled across a tick.
        final(w).connections.next_player_index >= old(w).connections.next_player_index,
        disconnected@ == old(net).connections@.filter(
            |e: (PeerAddr, u64)| crate::registry::entry_expired(e, old(net).idle_timeout_ms, now_ms),
        ).map_values(|e: (PeerAddr, u64)| e.0),
        final(net).connections@ == old(net).connections@.filter(
            |e: (PeerAddr, u64)| !crate::registry::entry_expired(
                e,
                old(net).idle_timeout_ms,
                now_ms,
            ),
        ),
        forall|a: PeerAddr|
            disconnected@.contains(a) && !events_connect(events@, a) ==> !#[trigger] has_connection(
                final(w),
                a,
            ),
        // The tick pipeline itself, stage by stage: from the frame-bumped
        // world, the sweep tear-downs, then every event in order, then
        // input playback, ball integration, the collision pass, and
        // finally the broadcast into the transport.
        ({
            let w_start = ServerWorld {
                frame_counter: (old(w).frame_counter + 1) as u32,
                ..*old(w)
            };
            exists|w_dc: ServerWorld|
                #[trigger] disconnect_chain(w_start, disconnected@, w_dc) && (exists|
                    w_ev: ServerWorld,
                |
                    #[trigger] events_chain(w_dc, events@, w_ev) && (exists|w_pi: ServerWorld|
                        #[trigger] input_stage(w_ev, w_pi, now_ms) && (exists|w_av: ServerWorld|
                            #[trigger] integration_effect(w_pi, w_av) && (exists|
                                w_co: ServerWorld,
                                dels: Seq<NetId>,
                            |
                                #[trigger] collision_outcome(w_av, w_co, dels)
                                    && broadcast_outcome(
                                    w_co,
                                    *final(w),
                                    *old(transport),
                                    *final(transport),
                                )))))
        }),
{
    w.frame_counter = w.frame_counter + 1;
    let ghost w_start = *w;
    proof {
        assert(w_start == ServerWorld {
            frame_counter: (old(w).frame_counter + 1) as u32,
            ..*old(w)
        });
    }
    let disconnected = net.sweep_idle(now_ms);
    let ghost mut dc_trace: Seq<ServerWorld> = seq![w_start];
    proof {
        assert(disconnected@.take(0) =~= Seq::<PeerAddr>::empty());
    }
    let nd = disconnected.len();
    let mut di: usize = 0;
    while di < nd
        invariant
            di <= nd,
            nd == disconnected@.len(),
            w.wf(),
            conn_addrs_unique(w.connections.entries@),
            w.frame_counter == old(w).frame_counter + 1,
            w.score == old(w).score,
            w.bricks == old(w).bricks,
            w.net_id_gen == old(w).net_id_gen,
            w.connections.next_player_index == old(w).connections.next_player_index,
            w.paddles@.len() <= old(w).paddles@.len(),
            forall|j: int|
                0 <= j < di ==> !#[trigger] has_connection(w, disconnected@[j]),
            forall|a: PeerAddr| !has_connection(old(w), a) ==> !#[trigger] has_connection(w, a),
            disconnect_trace_ok(w_start, disconnected@.take(di as int), dc_trace, *w),
        decreases nd - di,
    {
        let a = disconnected[di];
        let ghost w_mid = *w;
        handle_client_disconnected(w, a);
        proof {
            assert(disconnect_step(w_mid, *w, a));
            dc_trace = dc_trace.push(*w);
            assert(disconnect_trace_ok(w_start, disconnected@.take(di + 1), dc_trace, *w)) by {
                assert(disconnected@.take(di + 1) =~= disconnected@.take(di as int).push(a));
                assert(dc_trace.drop_last() =~= dc_trace.subrange(0, dc_trace.len() - 1));
                assert forall|j: int|
                    0 <= j < disconnected@.take(di + 1).len() implies disconnect_step(
                    #[trigger] dc_trace[j],
                    dc_trace[j + 1],
                    disconnected@.take(di + 1)[j],
                ) by {
                    if j < di {
                        assert(dc_trace[j] == dc_trace.drop_last()[j]);
                        assert(dc_trace[j + 1] == dc_trace.drop_last()[j + 1]);
                    }
                }
            }
            lemma_entries_shrink_unique(w_mid.connections.entries@, w.connections.entries@);
            assert(!has_connection(w, a)) by {
                if has_connection(w, a) {
                    let i = choose|i: int|
                        0 <= i < w.connections.entries@.len() && (
                        #[trigger] w.connections.entries@[i]).0.addr == a;
                    if has_connection(&w_mid, a) {
                        let i0 = choose|i0: int|
                            {
                                &&& 0 <= i0 < w_mid.connections.entries@.len()
                                &&& (#[trigger] w_mid.connections.entries@[i0]).0.addr == a
                                &&& w.connections.entries@ == w_mid.connections.entries@.remove(
                                    i0,
                                )
                            };
                        w_mid.connections.entries@.remove_ensures(i0);
                        let oi = if i < i0 {
                            i
                        } else {
                            i + 1
                        };
                        assert(w.connections.entries@[i] == w_mid.connections.entries@[oi]);
                        assert(oi != i0);
                        assert(conn_addrs_unique(w_mid.connections.entries@));
                        assert(w_mid.connections.entries@[oi].0.addr != w_mid.connections.entries@[
                            i0].0.addr);
                    }
                }
            }
            assert forall|j: int| 0 <= j < di + 1 implies !#[trigger] has_connection(
                w,
                disconnected@[j],
            ) by {
                if j < di {
                    assert(!has_connection(&w_mid, disconnected@[j]));
                }
            }
        }
        di = di + 1;
    }
    proof {
        assert(disconnected@.take(nd as int) =~= disconnected@);
        assert(disconnect_chain(w_start, disconnected@, *w)) by {
            assert(disconnect_trace_ok(w_start, disconnected@, dc_trace, *w));
        }
    }
    let ghost w_dc = *w;
    let ghost mut ev_trace: Seq<ServerWorld> = seq![w_dc];
    proof {
        assert(events@.take(0) =~= Seq::<NetworkEvent>::empty());
    }
    let ne = events.len();
    let mut ei: usize = 0;
    while ei < ne
        invariant
            ei <= ne,
            ne == events@.len(),
            w.wf(),
            conn_addrs_unique(w.connections.entries@),
            w.frame_counter == old(w).frame_counter + 1,
            w.score == old(w).score,
            w.bricks == old(w).bricks,
            w.net_id_gen.next_id <= old(w).net_id_gen.next_id + 2 * ei,
            w.connections.next_player_index <= old(w).connections.next_player_index + ei,
            w.connections.next_player_index >= old(w).connections.next_player_index,
            w.paddles@.len() <= old(w).paddles@.len() + ei,
            forall|a: PeerAddr|
                disconnected@.contains(a) && !events_connect(events@.take(ei as int), a)
                    ==> !#[trigger] has_connection(w, a),
            events_trace_ok(w_dc, events@.take(ei as int), ev_trace, *w),
        decreases ne - ei,
    {
        let event_ref = &events[ei];
        let ghost w_mid = *w;
        handle_network_event(w, spawn_rng, event_ref);
        proof {
            assert(event_step(w_mid, *w, events@[ei as int]));
            ev_trace = ev_trace.push(*w);
            assert(events_trace_ok(w_dc, events@.take(ei + 1), ev_trace, *w)) by {
                assert(events@.take(ei + 1) =~= events@.take(ei as int).push(events@[ei as int]));
                assert forall|j: int|
                    0 <= j < events@.take(ei + 1).len() implies event_step(
                    #[trigger] ev_trace[j],
                    ev_trace[j + 1],
                    events@.take(ei + 1)[j],
                ) by {
                    if j < ei {
                        assert(ev_trace[j] == ev_trace.drop_last()[j]);
                        assert(ev_trace[j + 1] == ev_trace.drop_last()[j + 1]);
                    }
                }
            }
            assert forall|a: PeerAddr|
                disconnected@.contains(a) && !events_connect(events@.take(ei + 1), a) implies !(
            #[trigger] has_connection(w, a)) by {
                assert(!events_connect(events@.take(ei as int), a)) by {
                    if events_connect(events@.take(ei as int), a) {
                        let j = choose|j: int|
                            0 <= j < events@.take(ei as int).len() && ((#[trigger] events@.take(
                                ei as int,
                            )[j]) matches NetworkEvent::Connected(x) && x == a);
                        assert(events@.take(ei + 1)[j] == events@.take(ei as int)[j]);
                    }
                }
                assert(!has_connection(&w_mid, a));
                assert(!(events@[ei as int] matches NetworkEvent::Connected(x) && x == a)) by {
                    if events@[ei as int] matches NetworkEvent::Connected(x) && x == a {
                        assert(events@.take(ei + 1)[ei as int] == events@[ei as int]);
                    }
                }
            }
        }
        ei = ei + 1;
    }
    proof {
        assert(events@.take(ne as int) =~= events@);
        assert(events_chain(w_dc, events@, *w)) by {
            assert(events_trace_ok(w_dc, events@, ev_trace, *w));
        }
    }
    let ghost w_ev = *w;
    process_input(w, now_ms);
    proof {
        lemma_addr_stable_unique_and_absent(w_ev, *w);
    }
    let ghost w_pi = *w;
    apply_velocity_to_balls(w);
    let ghost w_av = *w;
    let removed_bricks = check_for_collisions(w);
    let ghost w_co = *w;
    broadcast_world_state(w, transport, roll_rng, latency_sample_ms, now_ms);
    proof {
        assert(disconnect_chain(w_start, disconnected@, w_dc));
        assert(events_chain(w_dc, events@, w_ev));
        assert(input_stage(w_ev, w_pi, now_ms));
        assert(integration_effect(w_pi, w_av));
        assert(collision_outcome(w_av, w_co, removed_bricks@));
        assert(broadcast_outcome(w_co, *w, *old(transport), *transport));
        lemma_addr_stable_unique_and_absent(w_pi, *w);
        assert(events@.take(events@.len() as int) =~= events@);
        assert forall|a: PeerAddr|
            disconnected@.contains(a) && !events_connect(events@, a) implies !(
        #[trigger] has_connection(w, a)) by {
            assert(!has_connection(&w_ev, a));
            assert(!has_connection(&w_pi, a));
        }
    }
    disconnected
}

/// Input playback neither reorders connections nor changes their
/// addresses, so uniqueness and absence of an address both carry over.
proof fn lemma_addr_stable_unique_and_absent(w0: ServerWorld, w1: ServerWorld)
    requires
        w0.connections.entries@.len() == w1.connections.entries@.len(),
        forall|i: int|
            0 <= i < w1.connections.entries@.len() ==> (
            #[trigger] w1.connections.entries@[i]).0.addr == w0.connections.entries@[i].0.addr,
    ensures
        conn_addrs_unique(w0.connections.entries@) ==> conn_addrs_unique(
            w1.connections.entries@,
        ),
        forall|a: PeerAddr| !has_connection(&w0, a) ==> !#[trigger] has_connection(&w1, a),
{
    if conn_addrs_unique(w0.connections.entries@) {
        assert forall|i: int, j: int|
            0 <= i < w1.connections.entries@.len() && 0 <= j < w1.connections.entries@.len() && i
                != j implies (#[trigger] w1.connections.entries@[i]).0.addr != (
        #[trigger] w1.connections.entries@[j]).0.addr by {}
    }
    assert forall|a: PeerAddr| !has_connection(&w0, a) implies !#[trigger] has_connection(
        &w1,
        a,
    ) by {
        if has_connection(&w1, a) {
            let i = choose|i: int|
                0 <= i < w1.connections.entries@.len() && (
                #[trigger] w1.connections.entries@[i]).0.addr == a;
            assert(w0.connections.entries@[i].0.addr == a);
        }
    }
}



/// Stamps the per-client header over the first bytes of an already
/// serialized datagram: the magic tag, this connection's acknowledged
/// input, its player index. This is how one snapshot body serves every
/// client, rewritten five bytes at a time.
#[verifier::loop_isolation(false)]
pub fn write_header(buf: &mut Vec<u8>, conn: &NetConnection)
    requires
        old(buf)@.len() >= crate::consts::HEADER_LEN,
    ensures
        final(buf)@.len() == old(buf)@.len(),
        final(buf)@.subrange(0, crate::consts::HEADER_LEN as int) == header_bytes(
            conn.last_applied_input,
            conn.player_index,
        ),
        final(buf)@.skip(crate::consts::HEADER_LEN as int) == old(buf)@.skip(
            crate::consts::HEADER_LEN as int,
        ),
{
    let header = frame_packet(conn.last_applied_input, conn.player_index, &[]);
    let mut i: usize = 0;
    while i < crate::consts::HEADER_LEN
        invariant
            i <= crate::consts::HEADER_LEN,
            buf@.len() == old(buf)@.len(),
            header@ == header_bytes(conn.last_applied_input, conn.player_index),
            header@.len() == crate::consts::HEADER_LEN,
            forall|j: int| 0 <= j < i ==> #[trigger] buf@[j] == header@[j],
            forall|j: int|
                i <= j < buf@.len() ==> #[trigger] buf@[j] == old(buf)@[j],
        decreases crate::consts::HEADER_LEN - i,
    {
        let b = header[i];
        buf.set(i, b);
        i = i + 1;
    }
    proof {
        assert(buf@.subrange(0, crate::consts::HEADER_LEN as int) =~= header_bytes(
            conn.last_applied_input,
            conn.player_index,
        ));
        assert(buf@.skip(crate::consts::HEADER_LEN as int) =~= old(buf)@.skip(
            crate::consts::HEADER_LEN as int,
        ));
    }
}

// --------------------------------------------------------------- receive --

/// One received datagram, server side: the sender's liveness entry is
/// refreshed (or created, raising a connected event) whatever the payload
/// holds — a zero-length heartbeat refreshes liveness and is otherwise
/// discarded; anything else becomes a message event. Each produced event
/// passes the receive profile's roll: delivered now (returned), held in
/// the delay queue, or dropped.
pub fn server_receive_datagram(
    net: &mut NetworkResource,
    queue: &mut crate::events::SimLatencyReceiveQueue,
    receive_setting: &crate::transport::SimLatencySetting,
    rng: &mut rand::rngs::ThreadRng,
    latency_sample_ms: i64,
    addr: PeerAddr,
    payload: Vec<u8>,
    now_ms: u64,
) -> (out: Vec<NetworkEvent>)
    requires
        old(net).wf(),
        old(queue).wf(),
    ensures
        final(net).wf(),
        final(queue).wf(),
        final(net).idle_timeout_ms == old(net).idle_timeout_ms,
        // Liveness refresh: the sender is registered as active at `now_ms`,
        // heartbeat or not.
        exists|i: int|
            0 <= i < final(net).connections@.len() && #[trigger] final(net).connections@[i] == (
                addr,
                now_ms,
            ),
        out@.len() <= 2,
        // A heartbeat only refreshes: it never surfaces as a message.
        forall|i: int|
            0 <= i < out@.len() ==> ((#[trigger] out@[i]) is Connected || out@[i] is Message),
        payload@.len() == 0 ==> forall|i: int| 0 <= i < out@.len() ==> (#[trigger] out@[i])
            is Connected,
        // With the receive profile unset nothing is rolled away: a
        // connected event comes exactly when the address is new, and a
        // message event exactly when the payload is nonempty.
        !receive_setting.spec_is_set() ==> {
            let was_new = !crate::registry::has_addr(old(net).connections@, addr);
            &&& out@.len() == (if was_new {
                1int
            } else {
                0int
            }) + (if payload@.len() > 0 {
                1int
            } else {
                0int
            })
            &&& (was_new ==> out@[0] == NetworkEvent::Connected(addr))
            &&& (payload@.len() > 0 ==> out@.last() == NetworkEvent::Message(
                addr,
                payload,
                now_ms,
            ))
        },
{
    let mut out: Vec<NetworkEvent> = Vec::new();
    let is_new = net.note_activity(addr, now_ms);
    if is_new {
        let roll = receive_setting.roll(rng, latency_sample_ms, now_ms);
        match queue.send_with_sim_latency(NetworkEvent::Connected(addr), roll) {
            Some(e) => {
                out.push(e);
            },
            None => {},
        }
    }
    if payload.len() == 0 {
        return out;
    }
    let roll = receive_setting.roll(rng, latency_sample_ms, now_ms);
    match queue.send_with_sim_latency(NetworkEvent::Message(addr, payload, now_ms), roll) {
        Some(e) => {
            out.push(e);
        },
        None => {},
    }
    out
}

/// The departed peer's paddle left and nothing else did: either the one
/// paddle carrying `id` was removed (everything else keeps its place) or
/// no paddle carried `id` and the list is untouched.
pub open spec fn removed_exactly_paddle(olds: Seq<PaddleEnt>, news: Seq<PaddleEnt>, id: NetId) -> bool {
    (exists|pj: int|
        0 <= pj < olds.len() && (#[trigger] olds[pj]).net_id == id && news == olds.remove(pj)) || (
    news == olds && forall|k: int| 0 <= k < olds.len() ==> (#[trigger] olds[k]).net_id != id)
}

/// Ball counterpart of `removed_exactly_paddle`.
pub open spec fn removed_exactly_ball(olds: Seq<BallEnt>, news: Seq<BallEnt>, id: NetId) -> bool {
    (exists|bj: int|
        0 <= bj < olds.len() && (#[trigger] olds[bj]).net_id == id && news == olds.remove(bj)) || (
    news == olds && forall|k: int| 0 <= k < olds.len() ==> (#[trigger] olds[k]).net_id != id)
}

/// A paddle or ball list after removals is a subsequence of the old one.
proof fn lemma_remove_keeps_elements(olds: Seq<PaddleEnt>, news: Seq<PaddleEnt>, k: int)
    requires
        0 <= k < news.len(),
        olds == news || exists|j: int| 0 <= j < olds.len() && news == #[trigger] olds.remove(j),
    ensures
        olds.contains(news[k]),
{
    if olds != news {
        let j = choose|j: int| 0 <= j < olds.len() && news == #[trigger] olds.remove(j);
        olds.remove_ensures(j);
        if k < j {
            assert(olds[k] == news[k]);
        } else {
            assert(olds[k + 1] == news[k]);
        }
    } else {
        assert(olds[k] == news[k]);
    }
}

proof fn lemma_remove_keeps_elements_ball(olds: Seq<BallEnt>, news: Seq<BallEnt>, k: int)
    requires
        0 <= k < news.len(),
        olds == news || exists|j: int| 0 <= j < olds.len() && news == #[trigger] olds.remove(j),
    ensures
        olds.contains(news[k]),
{
    if olds != news {
        let j = choose|j: int| 0 <= j < olds.len() && news == #[trigger] olds.remove(j);
        olds.remove_ensures(j);
        if k < j {
            assert(olds[k] == news[k]);
        } else {
            assert(olds[k + 1] == news[k]);
        }
    } else {
        assert(olds[k] == news[k]);
    }
}

/// Removing entities keeps the world invariant.
proof fn lemma_wf_after_removals(w0: &ServerWorld, w1: &ServerWorld)
    requires
        w0.wf(),
        w1.net_id_gen == w0.net_id_gen,
        w1.bricks == w0.bricks,
        w1.paddles@ == w0.paddles@ || exists|j: int|
            0 <= j < w0.paddles@.len() && w1.paddles@ == #[trigger] w0.paddles@.remove(j),
        w1.balls@ == w0.balls@ || exists|j: int|
            0 <= j < w0.balls@.len() && w1.balls@ == #[trigger] w0.balls@.remove(j),
        w1.connections.entries@ == w0.connections.entries@ || exists|j: int|
            0 <= j < w0.connections.entries@.len() && w1.connections.entries@
                == #[trigger] w0.connections.entries@.remove(j),
    ensures
        w1.wf(),
{
    if w1.connections.entries@ != w0.connections.entries@ {
        let j = choose|j: int|
            0 <= j < w0.connections.entries@.len() && w1.connections.entries@
                == #[trigger] w0.connections.entries@.remove(j);
        w0.connections.entries@.remove_ensures(j);
        assert forall|a: int, b: int|
            0 <= a < w1.connections.entries@.len() && 0 <= b < w1.connections.entries@.len() && a
                != b implies (#[trigger] w1.connections.entries@[a]).0.paddle_net_id != (
        #[trigger] w1.connections.entries@[b]).0.paddle_net_id
            && w1.connections.entries@[a].0.ball_net_id
            != w1.connections.entries@[b].0.ball_net_id by {
            let oa = if a < j {
                a
            } else {
                a + 1
            };
            let ob = if b < j {
                b
            } else {
                b + 1
            };
            assert(w1.connections.entries@[a] == w0.connections.entries@[oa]
                && w1.connections.entries@[b] == w0.connections.entries@[ob]);
        }
        assert forall|a: int|
            0 <= a < w1.connections.entries@.len() implies w1.net_id_gen.minted(
            (#[trigger] w1.connections.entries@[a]).0.paddle_net_id,
        ) && w1.net_id_gen.minted(w1.connections.entries@[a].0.ball_net_id) by {
            let oa = if a < j {
                a
            } else {
                a + 1
            };
            assert(w1.connections.entries@[a] == w0.connections.entries@[oa]);
        }
    }
    assert(w1.paddles@.len() <= w0.paddles@.len());
    assert(w1.balls@.len() <= w0.balls@.len());
    assert forall|k: int| 0 <= k < w1.paddles@.len() implies w0.paddles@.contains(
        #[trigger] w1.paddles@[k],
    ) by {
        lemma_remove_keeps_elements(w0.paddles@, w1.paddles@, k);
    }
    assert forall|k: int| 0 <= k < w1.balls@.len() implies w0.balls@.contains(
        #[trigger] w1.balls@[k],
    ) by {
        lemma_remove_keeps_elements_ball(w0.balls@, w1.balls@, k);
    }
    if w1.paddles@ != w0.paddles@ {
        let j = choose|j: int|
            0 <= j < w0.paddles@.len() && w1.paddles@ == #[trigger] w0.paddles@.remove(j);
        w0.paddles@.remove_ensures(j);
        assert forall|i: int, k: int|
            0 <= i < w1.paddles@.len() && 0 <= k < w1.paddles@.len() && i != k implies (
        #[trigger] w1.paddles@[i]).net_id != (#[trigger] w1.paddles@[k]).net_id by {
            let oi = if i < j {
                i
            } else {
                i + 1
            };
            let ok = if k < j {
                k
            } else {
                k + 1
            };
            assert(w1.paddles@[i] == w0.paddles@[oi] && w1.paddles@[k] == w0.paddles@[ok]);
        }
    }
    if w1.balls@ != w0.balls@ {
        let j = choose|j: int|
            0 <= j < w0.balls@.len() && w1.balls@ == #[trigger] w0.balls@.remove(j);
        w0.balls@.remove_ensures(j);
        assert forall|i: int, k: int|
            0 <= i < w1.balls@.len() && 0 <= k < w1.balls@.len() && i != k implies (
        #[trigger] w1.balls@[i]).net_id != (#[trigger] w1.balls@[k]).net_id by {
            let oi = if i < j {
                i
            } else {
                i + 1
            };
            let ok = if k < j {
                k
            } else {
                k + 1
            };
            assert(w1.balls@[i] == w0.balls@[oi] && w1.balls@[k] == w0.balls@[ok]);
        }
    }
    assert forall|i: int, j2: int|
        0 <= i < w1.paddles@.len() && 0 <= j2 < w1.balls@.len() implies (
    #[trigger] w1.paddles@[i]).net_id != (#[trigger] w1.balls@[j2]).net_id by {
        let pi = choose|pi: int|
            0 <= pi < w0.paddles@.len() && w0.paddles@[pi] == w1.paddles@[i];
        let bi = choose|bi: int| 0 <= bi < w0.balls@.len() && w0.balls@[bi] == w1.balls@[j2];
        assert(w0.paddles@[pi].net_id != w0.balls@[bi].net_id);
    }
    assert forall|i: int, j2: int|
        0 <= i < w1.paddles@.len() && 0 <= j2 < w1.bricks@.len() implies (
    #[trigger] w1.paddles@[i]).net_id != (#[trigger] w1.bricks@[j2]).net_id by {
        let pi = choose|pi: int|
            0 <= pi < w0.paddles@.len() && w0.paddles@[pi] == w1.paddles@[i];
        assert(w0.paddles@[pi].net_id != w0.bricks@[j2].net_id);
    }
    assert forall|i: int, j2: int|
        0 <= i < w1.balls@.len() && 0 <= j2 < w1.bricks@.len() implies (
    #[trigger] w1.balls@[i]).net_id != (#[trigger] w1.bricks@[j2]).net_id by {
        let bi = choose|bi: int| 0 <= bi < w0.balls@.len() && w0.balls@[bi] == w1.balls@[i];
        assert(w0.balls@[bi].net_id != w0.bricks@[j2].net_id);
    }
    assert forall|k: int| 0 <= k < w1.paddles@.len() implies w1.net_id_gen.minted(
        (#[trigger] w1.paddles@[k]).net_id,
    ) && PADDLE_LEFT_BOUND <= w1.paddles@[k].pos.x <= PADDLE_RIGHT_BOUND && w1.paddles@[k].pos.y
        == PADDLE_Y by {
        let pi = choose|pi: int| 0 <= pi < w0.paddles@.len() && w0.paddles@[pi] == w1.paddles@[k];
        assert(w0.wf());
    }
    assert forall|k: int| 0 <= k < w1.balls@.len() implies w1.net_id_gen.minted(
        (#[trigger] w1.balls@[k]).net_id,
    ) && pos_bounded(w1.balls@[k].pos) && vel_wf(w1.balls@[k].vel) by {
        let bi = choose|bi: int| 0 <= bi < w0.balls@.len() && w0.balls@[bi] == w1.balls@[k];
        assert(w0.wf());
    }
}

} // verus!
