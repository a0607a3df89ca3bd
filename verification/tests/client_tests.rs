//! Client pipeline: packet intake, snapshot application, interpolation,
//! prediction and reconciliation.

use breakout_netcode::client::{
    client_handle_packet, detect_mispredicts, interpolated_position,
    reconcile_and_update_predictions, send_input, tick_simulation, ClientGame, ClientWorldState,
    EntityMode, PingState, UnAckedPlayerInputs, WorldStates,
};
use breakout_netcode::codec::encode_server_to_client;
use breakout_netcode::consts::PADDLE_STEP;
use breakout_netcode::header::frame_packet;
use breakout_netcode::registry::PeerAddr;
use breakout_netcode::transport::{MessageFilter, SimLatencyRollResult, SimLatencySetting, Transport};
use breakout_netcode::types::{
    NetBallData, NetEntity, NetEntityType, NetId, NetPaddleData, NetPlayerIndex, NetScoreData,
    NetWorldStateData, PlayerInputData, ServerToClientPacket, Vec2I, KEY_MASK_LEFT,
};

fn server_addr() -> PeerAddr {
    PeerAddr { ip: 0x7f00_0001, port: 7001 }
}

fn paddle_entity(id: u16, player: u8, x: i32) -> NetEntity {
    NetEntity {
        entity_type: NetEntityType::Paddle(NetPaddleData {
            pos: Vec2I { x, y: -240_000 },
            player_index: NetPlayerIndex(player),
        }),
        net_id: NetId(id),
    }
}

fn ball_entity(id: u16, player: u8, pos: Vec2I, vel: Vec2I) -> NetEntity {
    NetEntity {
        entity_type: NetEntityType::Ball(NetBallData {
            pos,
            velocity: vel,
            player_index: NetPlayerIndex(player),
        }),
        net_id: NetId(id),
    }
}

fn score_entity(score: u32) -> NetEntity {
    NetEntity {
        entity_type: NetEntityType::Score(NetScoreData { score }),
        net_id: NetId(0),
    }
}

fn snapshot(frame: u32, entities: Vec<NetEntity>, last_applied_input: u32) -> ClientWorldState {
    ClientWorldState::new(
        NetWorldStateData { frame, entities },
        last_applied_input,
        0,
    )
}

#[test]
fn packet_intake_accepts_framed_snapshots_only() {
    let mut world_states = WorldStates::default();
    let mut ping_state = PingState::new();

    let ws = NetWorldStateData {
        frame: 3,
        entities: vec![paddle_entity(1, 0, 0), score_entity(0)],
    };
    let body = encode_server_to_client(&ServerToClientPacket::WorldState(ws));
    let framed = frame_packet(17, 0, &body);
    client_handle_packet(&mut world_states, &mut ping_state, &framed, 500);
    assert_eq!(world_states.states.len(), 1);
    assert_eq!(world_states.states[0].world.frame, 3);
    assert_eq!(world_states.states[0].last_applied_input, 17);
    assert_eq!(world_states.received_per_sec, vec![500]);

    // A mangled magic tag is dropped.
    let mut bad = framed.clone();
    bad[0] = 0;
    client_handle_packet(&mut world_states, &mut ping_state, &bad, 501);
    assert_eq!(world_states.states.len(), 1);

    // Too short to carry a body: dropped.
    let short = frame_packet(17, 0, &[]);
    client_handle_packet(&mut world_states, &mut ping_state, &short, 502);
    assert_eq!(world_states.states.len(), 1);
}

#[test]
fn snapshot_application_spawns_updates_and_despawns() {
    let mut game = ClientGame::new();
    let mut world_states = WorldStates::default();
    let mut ping_state = PingState::new();
    world_states.states.push(snapshot(
        10,
        vec![paddle_entity(1, 0, 0), paddle_entity(2, 1, 5_000), score_entity(2)],
        0,
    ));
    world_states.states.push(snapshot(
        11,
        vec![paddle_entity(1, 0, 1_000), score_entity(3)],
        0,
    ));
    tick_simulation(&mut game, &mut world_states, &mut ping_state, false, 10_000);
    assert!(world_states.interp_started);
    // Both snapshots applied on bootstrap: entity 2 was despawned by the
    // second one, entity 1 survives; the score mirrors the latest.
    assert_eq!(game.entities.len(), 1);
    assert_eq!(game.entities[0].net_id, NetId(1));
    assert_eq!(game.score, 3);
    assert_eq!(world_states.interpolating_from, Some(10));
    assert_eq!(world_states.interpolating_to, Some(11));
    // Own paddle is predicted.
    assert!(matches!(game.entities[0].mode, EntityMode::Predicted));
    // A foreign paddle would have been interpolated; spawn one and check.
    let mut game2 = ClientGame::new();
    let mut ws2 = WorldStates::default();
    ws2.states.push(snapshot(1, vec![paddle_entity(4, 3, 0)], 0));
    ws2.states.push(snapshot(2, vec![paddle_entity(4, 3, 2_000)], 0));
    let mut ping2 = PingState::new();
    tick_simulation(&mut game2, &mut ws2, &mut ping2, false, 10_000);
    assert!(matches!(game2.entities[0].mode, EntityMode::Interpolated));
}

#[test]
fn starved_queue_changes_nothing() {
    let mut game = ClientGame::new();
    let mut world_states = WorldStates::default();
    let mut ping_state = PingState::new();
    world_states.states.push(snapshot(1, vec![paddle_entity(1, 0, 0)], 0));
    tick_simulation(&mut game, &mut world_states, &mut ping_state, false, 10_000);
    assert_eq!(game.entities.len(), 0);
    assert_eq!(world_states.states.len(), 1);
    assert!(!world_states.interp_started);
    assert_eq!(world_states.interpolating_to, None);
}

#[test]
fn interpolation_midpoint_between_snapshots() {
    // A paddle advancing one unit (1000 milli) per frame, displayed at
    // overstep one half: previous snapshot position plus half a unit.
    let mut game = ClientGame::new();
    let mut world_states = WorldStates::default();
    let mut ping_state = PingState::new();
    world_states.states.push(snapshot(1, vec![paddle_entity(4, 9, 7_000)], 0));
    world_states.states.push(snapshot(2, vec![paddle_entity(4, 9, 8_000)], 0));
    tick_simulation(&mut game, &mut world_states, &mut ping_state, false, 10_000);
    let e = game.entities[0];
    assert_eq!(e.interp_from, Vec2I { x: 7_000, y: -240_000 });
    assert_eq!(e.interp_to, Vec2I { x: 8_000, y: -240_000 });
    let shown = interpolated_position(&e.interp_from, &e.interp_to, 500);
    assert_eq!(shown, Vec2I { x: 7_500, y: -240_000 });
}

fn reconcile_setup() -> (ClientGame, WorldStates) {
    let mut game = ClientGame::new();
    let mut world_states = WorldStates::default();
    let mut ping_state = PingState::new();
    world_states.states.push(snapshot(1, vec![paddle_entity(1, 0, 0), score_entity(0)], 0));
    world_states.states.push(snapshot(2, vec![paddle_entity(1, 0, 0), score_entity(0)], 0));
    tick_simulation(&mut game, &mut world_states, &mut ping_state, false, 10_000);
    (game, world_states)
}

#[test]
fn reconciliation_replays_unacked_inputs() {
    let (mut game, mut world_states) = reconcile_setup();
    // The server acknowledges 101 of 100..=102; the snapshot paddle sits
    // at x = 0.
    world_states.states.push(snapshot(3, vec![paddle_entity(1, 0, 0), score_entity(0)], 101));
    let mut unacked = UnAckedPlayerInputs::default();
    for seq in 100..=102u32 {
        unacked.inputs.push(PlayerInputData {
            key_mask: KEY_MASK_LEFT,
            simulating_frame: 1,
            sequence: seq,
        });
    }
    let mispredicts = reconcile_and_update_predictions(&mut game, &mut unacked, &world_states);
    // Only 102 survives; the replay agreed with the earlier prediction.
    assert_eq!(mispredicts, 0);
    assert_eq!(unacked.inputs.len(), 1);
    assert_eq!(unacked.inputs[0].sequence, 102);
    // The predicted paddle equals the snapshot paddle advanced by that
    // one remaining input.
    assert_eq!(game.entities[0].pos.x, 0 - PADDLE_STEP);
    assert_eq!(game.entities[0].pos.y, -240_000);
}

#[test]
fn reconciliation_is_idempotent_when_fully_acked() {
    let (mut game, mut world_states) = reconcile_setup();
    world_states.states.push(snapshot(3, vec![paddle_entity(1, 0, 4_000), score_entity(0)], 500));
    let before = game.entities.clone();
    let mut unacked = UnAckedPlayerInputs::default();
    for seq in 498..=500u32 {
        unacked.inputs.push(PlayerInputData {
            key_mask: KEY_MASK_LEFT,
            simulating_frame: 1,
            sequence: seq,
        });
    }
    reconcile_and_update_predictions(&mut game, &mut unacked, &world_states);
    assert!(unacked.inputs.is_empty());
    assert_eq!(game.entities, before);
}

#[test]
fn reconciled_ball_keeps_snapshot_speed() {
    let mut game = ClientGame::new();
    let mut world_states = WorldStates::default();
    let mut ping_state = PingState::new();
    let ball = ball_entity(2, 0, Vec2I { x: 0, y: -50_000 }, Vec2I { x: 4_714, y: -4_714 });
    world_states.states.push(snapshot(1, vec![ball, score_entity(0)], 0));
    world_states.states.push(snapshot(2, vec![ball, score_entity(0)], 0));
    tick_simulation(&mut game, &mut world_states, &mut ping_state, false, 10_000);
    world_states.states.push(snapshot(3, vec![ball, score_entity(0)], 0));
    let mut unacked = UnAckedPlayerInputs::default();
    unacked.inputs.push(PlayerInputData { key_mask: 0, simulating_frame: 1, sequence: 1 });
    reconcile_and_update_predictions(&mut game, &mut unacked, &world_states);
    let v = game.entities[0].vel;
    assert_eq!(
        (v.x as i64) * (v.x as i64) + (v.y as i64) * (v.y as i64),
        4_714i64 * 4_714 * 2
    );
    // The ball advanced one integration step from the snapshot position.
    assert_eq!(game.entities[0].pos, Vec2I { x: 4_714, y: -54_714 });
}

#[test]
fn input_send_is_gated_on_interpolation() {
    let mut world_states = WorldStates::default();
    let mut unacked = UnAckedPlayerInputs::default();
    let mut transport = Transport::new(SimLatencySetting::default());

    // Before interpolation starts, nothing is sent.
    let sent = send_input(
        &world_states,
        &mut unacked,
        &mut transport,
        KEY_MASK_LEFT,
        1,
        server_addr(),
        SimLatencyRollResult::NoOp,
    );
    assert!(sent.is_none());
    assert!(unacked.inputs.is_empty());
    assert!(!transport.has_messages());

    // Once simulating against a known frame, the input goes out and
    // lands in the unacknowledged FIFO.
    world_states.interpolating_from = Some(41);
    let sent = send_input(
        &world_states,
        &mut unacked,
        &mut transport,
        KEY_MASK_LEFT,
        42,
        server_addr(),
        SimLatencyRollResult::NoOp,
    );
    let input = sent.unwrap();
    assert_eq!(input.sequence, 42);
    assert_eq!(input.simulating_frame, 41);
    assert_eq!(unacked.inputs.len(), 1);
    let drained = transport.drain_messages_to_send(&MessageFilter::All, 0);
    assert_eq!(drained.len(), 1);
    assert_eq!(drained[0].destination, server_addr());
}

#[test]
fn loss_starves_the_client_and_unacked_grows() {
    // With every server datagram lost, the client receives nothing: its
    // snapshot queue starves below two and every tick's input stays
    // unacknowledged.
    let mut game = ClientGame::new();
    let mut world_states = WorldStates::default();
    let mut ping_state = PingState::new();
    let mut unacked = UnAckedPlayerInputs::default();
    let mut transport = Transport::new(SimLatencySetting::default());
    world_states.interpolating_from = Some(1);
    for frame in 0..50u32 {
        tick_simulation(&mut game, &mut world_states, &mut ping_state, false, frame as u64 * 17);
        send_input(
            &world_states,
            &mut unacked,
            &mut transport,
            0,
            frame,
            server_addr(),
            SimLatencyRollResult::NoOp,
        );
        reconcile_and_update_predictions(&mut game, &mut unacked, &world_states);
    }
    assert_eq!(world_states.states.len(), 0);
    assert_eq!(game.entities.len(), 0);
    assert_eq!(unacked.inputs.len(), 50);
}

#[test]
fn mispredict_detection_counts_differences() {
    let a = vec![Vec2I { x: 0, y: 0 }, Vec2I { x: 5, y: 5 }, Vec2I { x: 9, y: 9 }];
    let same = a.clone();
    assert_eq!(detect_mispredicts(&a, &same), 0);
    let mut moved = a.clone();
    moved[1].x = 6;
    assert_eq!(detect_mispredicts(&a, &moved), 1);
    moved[2].y = 0;
    assert_eq!(detect_mispredicts(&a, &moved), 2);
}

#[test]
fn mispredicts_are_reported_by_the_replay() {
    // The local paddle sits far from where the authoritative snapshot
    // plus replay puts it: one mispredict is reported.
    let (mut game, mut world_states) = reconcile_setup();
    game.entities[0].pos.x = 7_777;
    world_states.states.push(snapshot(3, vec![paddle_entity(1, 0, 0), score_entity(0)], 100));
    let mut unacked = UnAckedPlayerInputs::default();
    for seq in 101..=102u32 {
        unacked.inputs.push(PlayerInputData {
            key_mask: KEY_MASK_LEFT,
            simulating_frame: 1,
            sequence: seq,
        });
    }
    let mispredicts = reconcile_and_update_predictions(&mut game, &mut unacked, &world_states);
    assert_eq!(mispredicts, 1);
    // Replay of two Left inputs from the snapshot position.
    assert_eq!(game.entities[0].pos.x, -2 * PADDLE_STEP);
}
