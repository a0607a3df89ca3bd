//! Server pipeline: setup, connect, tick, snapshot broadcast, idle
//! timeout, and liveness refresh.

use breakout_netcode::codec::{decode_server_to_client, encode_client_to_server};
use breakout_netcode::consts::{
    BALL_INITIAL_VX, BALL_INITIAL_VY, IDLE_TIMEOUT_MS, PADDLE_LEFT_BOUND, PADDLE_RIGHT_BOUND,
    PADDLE_Y,
};
use breakout_netcode::events::NetworkEvent;
use breakout_netcode::header::{frame_packet, parse_header};
use breakout_netcode::registry::{NetworkResource, PeerAddr};
use breakout_netcode::server::{server_receive_datagram, server_tick, setup, write_header};
use breakout_netcode::server_types::NetConnection;
use breakout_netcode::transport::{MessageFilter, SimLatencySetting, Transport};
use breakout_netcode::types::{
    ClientToServerPacket, NetEntityType, PlayerInputData, ServerToClientPacket, Vec2I,
    KEY_MASK_LEFT,
};
use rand::SeedableRng;

fn client_addr() -> PeerAddr {
    PeerAddr { ip: 0x7f00_0001, port: 40_001 }
}

struct Harness {
    world: breakout_netcode::server::ServerWorld,
    net: NetworkResource,
    transport: Transport,
    spawn_rng: rand_chacha::ChaCha8Rng,
}

fn harness() -> Harness {
    Harness {
        world: setup(),
        net: NetworkResource::new(),
        transport: Transport::new(SimLatencySetting::default()),
        spawn_rng: rand_chacha::ChaCha8Rng::seed_from_u64(1337),
    }
}

fn tick(h: &mut Harness, events: &Vec<NetworkEvent>, now_ms: u64) -> Vec<PeerAddr> {
    let mut roll_rng = rand::thread_rng();
    server_tick(
        &mut h.world,
        &mut h.net,
        &mut h.transport,
        &mut h.spawn_rng,
        &mut roll_rng,
        0,
        events,
        now_ms,
    )
}

#[test]
fn setup_builds_the_brick_field() {
    let world = setup();
    assert_eq!(world.bricks.len(), 56);
    assert_eq!(world.paddles.len(), 0);
    assert_eq!(world.balls.len(), 0);
    assert_eq!(world.score, 0);
    assert_eq!(world.frame_counter, 0);
}

#[test]
fn connect_spawns_paddle_ball_and_first_snapshot() {
    let mut h = harness();
    let addr = client_addr();
    let events = vec![NetworkEvent::Connected(addr)];
    tick(&mut h, &events, 0);

    // One paddle for player 0, on the paddle row, inside the band.
    assert_eq!(h.world.paddles.len(), 1);
    let paddle = h.world.paddles[0];
    assert_eq!(paddle.player.0, 0);
    assert_eq!(paddle.pos.y, PADDLE_Y);
    assert!(PADDLE_LEFT_BOUND <= paddle.pos.x && paddle.pos.x <= PADDLE_RIGHT_BOUND);

    // One ball spawned at the canonical start with the canonical
    // velocity; the same tick's integration stage has already advanced
    // it one step.
    assert_eq!(h.world.balls.len(), 1);
    let ball = h.world.balls[0];
    assert_eq!(ball.player.0, 0);
    assert_eq!(
        ball.pos,
        Vec2I { x: 0 + BALL_INITIAL_VX, y: -50_000 + BALL_INITIAL_VY }
    );
    assert_eq!(ball.vel, Vec2I { x: BALL_INITIAL_VX, y: BALL_INITIAL_VY });

    // The broadcast datagram decodes to a snapshot with 56 bricks, the
    // paddle, the ball and a zero score, each id unique.
    let sent = h.transport.drain_messages_to_send(&MessageFilter::All, 0);
    assert_eq!(sent.len(), 1);
    assert_eq!(sent[0].destination, addr);
    let (last_applied, player_index) = parse_header(&sent[0].payload).unwrap();
    assert_eq!(last_applied, 0);
    assert_eq!(player_index, 0);
    let body = &sent[0].payload[breakout_netcode::consts::HEADER_LEN..];
    let (packet, _) = decode_server_to_client(body).unwrap();
    let ws = match packet {
        ServerToClientPacket::WorldState(ws) => ws,
        _ => panic!("expected a snapshot"),
    };
    let mut bricks = 0;
    let mut balls = 0;
    let mut paddles = 0;
    let mut score = None;
    for e in &ws.entities {
        match &e.entity_type {
            NetEntityType::Brick(_) => bricks += 1,
            NetEntityType::Ball(_) => balls += 1,
            NetEntityType::Paddle(_) => paddles += 1,
            NetEntityType::Score(d) => score = Some(d.score),
        }
    }
    assert_eq!((bricks, balls, paddles), (56, 1, 1));
    assert_eq!(score, Some(0));
    let mut ids: Vec<u16> = ws.entities.iter().map(|e| e.net_id.0).collect();
    ids.sort();
    ids.dedup();
    assert_eq!(ids.len(), ws.entities.len());
}

#[test]
fn inputs_move_the_paddle_after_buffering() {
    let mut h = harness();
    let addr = client_addr();
    tick(&mut h, &vec![NetworkEvent::Connected(addr)], 0);
    let x0 = h.world.paddles[0].pos.x;

    // Feed Left inputs as message events, then tick past the buffer
    // delay so the jitter buffer reaches Playing and consumes them.
    let mut now = 0u64;
    for seq in 1..=6u32 {
        now += 17;
        let input = ClientToServerPacket::Input(PlayerInputData {
            key_mask: KEY_MASK_LEFT,
            simulating_frame: 0,
            sequence: seq,
        });
        let payload = encode_client_to_server(&input);
        let events = vec![NetworkEvent::Message(addr, payload, now)];
        tick(&mut h, &events, now);
    }
    // Give the buffer time to open and play everything out.
    for _ in 0..10 {
        now += 17;
        tick(&mut h, &vec![], now);
    }
    let paddle = h.world.paddles[0];
    assert!(paddle.pos.x < x0);
    // Six Left inputs consumed: exactly six steps, clamped at the band.
    let expected = (x0 - 6 * breakout_netcode::consts::PADDLE_STEP).max(PADDLE_LEFT_BOUND);
    assert_eq!(paddle.pos.x, expected);
    // The last consumed sequence is acknowledged.
    assert_eq!(h.world.connections.entries[0].0.last_applied_input, 6);
}

#[test]
fn idle_peer_is_dropped_and_despawned() {
    let mut h = harness();
    let addr = client_addr();
    tick(&mut h, &vec![NetworkEvent::Connected(addr)], 0);
    // Record its liveness as of t=0.
    let mut queue = breakout_netcode::events::SimLatencyReceiveQueue::new();
    let setting = SimLatencySetting::default();
    let mut rng = rand::thread_rng();
    server_receive_datagram(&mut h.net, &mut queue, &setting, &mut rng, 0, addr, vec![], 0);
    let paddle_id = h.world.connections.entries[0].0.paddle_net_id;
    let ball_id = h.world.connections.entries[0].0.ball_net_id;

    // Quiet past the timeout: the sweep drops the peer and despawns both
    // entities; the next snapshot carries neither id.
    let disconnected = tick(&mut h, &vec![], IDLE_TIMEOUT_MS + 2);
    assert_eq!(disconnected, vec![addr]);
    assert_eq!(h.world.connections.entries.len(), 0);
    assert!(h.world.paddles.iter().all(|p| p.net_id != paddle_id));
    assert!(h.world.balls.iter().all(|b| b.net_id != ball_id));
    assert_eq!(h.net.connections.len(), 0);
}

#[test]
fn heartbeat_refreshes_liveness() {
    let mut net = NetworkResource::new();
    let mut queue = breakout_netcode::events::SimLatencyReceiveQueue::new();
    let setting = SimLatencySetting::default();
    let mut rng = rand::thread_rng();
    let addr = client_addr();

    // First (empty) datagram registers the peer.
    let out = server_receive_datagram(&mut net, &mut queue, &setting, &mut rng, 0, addr, vec![], 100);
    assert_eq!(net.connections.len(), 1);
    assert_eq!(net.connections[0], (addr, 100));
    // It produced a connected event but no message event.
    assert!(matches!(out.as_slice(), [NetworkEvent::Connected(_)]));

    // A zero-length heartbeat much later still refreshes the timestamp
    // and produces no message event.
    let out = server_receive_datagram(
        &mut net, &mut queue, &setting, &mut rng, 0, addr, vec![], 4_000,
    );
    assert_eq!(net.connections.len(), 1);
    assert_eq!(net.connections[0], (addr, 4_000));
    assert!(out.is_empty());

    // So the sweep at t=5s keeps the peer.
    let removed = net.sweep_idle(5_000);
    assert!(removed.is_empty());
    assert_eq!(net.connections.len(), 1);
}

#[test]
fn score_never_drops_across_ticks() {
    let mut h = harness();
    let addr = client_addr();
    tick(&mut h, &vec![NetworkEvent::Connected(addr)], 0);
    let mut last_score = h.world.score;
    let mut now = 0u64;
    // Long enough for the ball to cross the arena and hit bricks.
    for _ in 0..600 {
        now += 17;
        tick(&mut h, &vec![], now);
        assert!(h.world.score >= last_score);
        last_score = h.world.score;
    }
    assert_eq!(h.world.frame_counter, 601);
}

#[test]
fn write_header_overwrites_only_the_header() {
    let body = vec![0xAAu8; 6];
    let mut buf = frame_packet(1, 1, &body);
    let conn = NetConnection {
        addr: client_addr(),
        paddle_net_id: breakout_netcode::types::NetId(3),
        ball_net_id: breakout_netcode::types::NetId(4),
        last_applied_input: 0x0102_0304,
        player_index: 7,
    };
    write_header(&mut buf, &conn);
    let (last_applied, player_index) = parse_header(&buf).unwrap();
    assert_eq!(last_applied, 0x0102_0304);
    assert_eq!(player_index, 7);
    assert_eq!(&buf[breakout_netcode::consts::HEADER_LEN..], body.as_slice());
}
