//! Simulation primitives: paddle clamp, reflection, integration, the
//! jitter buffer, and the brick grid.

use breakout_netcode::consts::{
    BALL_RADIUS, BUFFER_DELAY_MS, BUFFER_LEN, PADDLE_LEFT_BOUND, PADDLE_RIGHT_BOUND, PADDLE_STEP,
};
use breakout_netcode::input_buffer::consume_inputs;
use breakout_netcode::server_types::{NetInput, NetInputState, ReceivedPlayerInput};
use breakout_netcode::sim::{
    apply_velocity, ball_collision, brick_layout, check_single_ball_collision, move_paddle,
    ColliderRect, CollisionSide, WallLocation,
};
use breakout_netcode::types::{NetId, PlayerInputData, Vec2I, KEY_MASK_LEFT, KEY_MASK_RIGHT};

fn input_with_mask(key_mask: u8) -> PlayerInputData {
    PlayerInputData { key_mask, simulating_frame: 0, sequence: 0 }
}

#[test]
fn paddle_moves_left_deterministically() {
    // Holding Left for ten ticks from x = 0 covers ten steps exactly,
    // monotonically, without reaching the clamp.
    let mut pos = Vec2I { x: 0, y: -240_000 };
    let mut previous = pos.x;
    for _ in 0..10 {
        move_paddle(PADDLE_STEP, &mut pos, &input_with_mask(KEY_MASK_LEFT));
        assert!(pos.x < previous);
        previous = pos.x;
    }
    assert_eq!(pos.x, -10 * PADDLE_STEP);
    assert_eq!(pos.x, -83_330);
    assert_eq!(pos.y, -240_000);
}

#[test]
fn paddle_clamps_at_bounds() {
    let mut pos = Vec2I { x: PADDLE_LEFT_BOUND + 1, y: 0 };
    move_paddle(PADDLE_STEP, &mut pos, &input_with_mask(KEY_MASK_LEFT));
    assert_eq!(pos.x, PADDLE_LEFT_BOUND);
    let mut pos = Vec2I { x: PADDLE_RIGHT_BOUND - 1, y: 0 };
    move_paddle(PADDLE_STEP, &mut pos, &input_with_mask(KEY_MASK_RIGHT));
    assert_eq!(pos.x, PADDLE_RIGHT_BOUND);
    // Both keys held cancel out.
    let mut pos = Vec2I { x: 1234, y: 0 };
    move_paddle(PADDLE_STEP, &mut pos, &input_with_mask(KEY_MASK_LEFT | KEY_MASK_RIGHT));
    assert_eq!(pos.x, 1234);
}

#[test]
fn ball_reflects_and_keeps_speed() {
    // A ball moving down-right into a brick from above: bottom hit, the
    // downward component flips.
    let brick = ColliderRect {
        center: Vec2I { x: 0, y: 0 },
        half: Vec2I { x: 50_000, y: 15_000 },
        brick_net_id: Some(NetId(7)),
    };
    let colliders = vec![brick];
    let mut score = 0u32;
    let ball_pos = Vec2I { x: 0, y: 25_000 };
    let mut vel = Vec2I { x: 4_714, y: -4_714 };
    let mut deleted: Vec<NetId> = Vec::new();
    check_single_ball_collision(&mut score, &colliders, &ball_pos, &mut vel, &mut deleted);
    assert_eq!(vel, Vec2I { x: 4_714, y: 4_714 });
    assert_eq!(score, 1);
    assert_eq!(deleted, vec![NetId(7)]);
    // Speed squared is preserved.
    let speed_before = 4_714i64 * 4_714 + 4_714 * 4_714;
    let speed_after = (vel.x as i64) * (vel.x as i64) + (vel.y as i64) * (vel.y as i64);
    assert_eq!(speed_before, speed_after);
}

#[test]
fn ball_collision_sides() {
    let center = Vec2I { x: 0, y: 0 };
    let half = Vec2I { x: 10_000, y: 10_000 };
    // Approaching from the left: left side.
    let r = ball_collision(&Vec2I { x: -20_000, y: 0 }, BALL_RADIUS, &center, &half);
    assert_eq!(r, Some(CollisionSide::Left));
    let r = ball_collision(&Vec2I { x: 20_000, y: 0 }, BALL_RADIUS, &center, &half);
    assert_eq!(r, Some(CollisionSide::Right));
    let r = ball_collision(&Vec2I { x: 0, y: 20_000 }, BALL_RADIUS, &center, &half);
    assert_eq!(r, Some(CollisionSide::Top));
    let r = ball_collision(&Vec2I { x: 0, y: -20_000 }, BALL_RADIUS, &center, &half);
    assert_eq!(r, Some(CollisionSide::Bottom));
    // Far away: no hit.
    let r = ball_collision(&Vec2I { x: 100_000, y: 0 }, BALL_RADIUS, &center, &half);
    assert_eq!(r, None);
}

#[test]
fn velocity_integration_is_exact() {
    let mut pos = Vec2I { x: 100, y: -50_000 };
    apply_velocity(&mut pos, &Vec2I { x: 4_714, y: -4_714 });
    assert_eq!(pos, Vec2I { x: 4_814, y: -54_714 });
}

#[test]
fn brick_grid_shape() {
    let bricks = brick_layout();
    assert_eq!(bricks.len(), 56);
    assert_eq!(bricks[0], Vec2I { x: -367_500, y: 45_000 });
    assert_eq!(bricks[1], Vec2I { x: -262_500, y: 45_000 });
    assert_eq!(bricks[8], Vec2I { x: -367_500, y: 80_000 });
    assert_eq!(bricks[55], Vec2I { x: 367_500, y: 255_000 });
}

#[test]
fn wall_geometry() {
    assert_eq!(WallLocation::Left.position(), Vec2I { x: -450_000, y: 0 });
    assert_eq!(WallLocation::Top.size(), Vec2I { x: 910_000, y: 10_000 });
    let c = WallLocation::Bottom.collider();
    assert_eq!(c.center, Vec2I { x: 0, y: -300_000 });
    assert!(c.brick_net_id.is_none());
}

fn buffered_input(sequence: u32, time_received: u64) -> ReceivedPlayerInput {
    ReceivedPlayerInput {
        data: PlayerInputData { key_mask: 0, simulating_frame: 0, sequence },
        time_received,
    }
}

#[test]
fn jitter_buffer_waits_while_buffering() {
    // Empty queue: stays Buffering, consumes nothing.
    let mut net_input = NetInput::default();
    let consumed = consume_inputs(&mut net_input, 1_000);
    assert_eq!(consumed.len(), 0);
    assert!(matches!(net_input.input_state, NetInputState::Buffering));

    // Oldest input still inside the delay window: stays Buffering.
    net_input.inputs.push(buffered_input(1, 1_000));
    let consumed = consume_inputs(&mut net_input, 1_000 + BUFFER_DELAY_MS - 1);
    assert_eq!(consumed.len(), 0);
    assert!(matches!(net_input.input_state, NetInputState::Buffering));
    assert_eq!(net_input.inputs.len(), 1);

    // Delay elapsed: transitions to Playing and consumes the input.
    let consumed = consume_inputs(&mut net_input, 1_000 + BUFFER_DELAY_MS);
    assert_eq!(consumed.len(), 1);
    assert_eq!(consumed[0].data.sequence, 1);
    assert!(matches!(net_input.input_state, NetInputState::Playing));
    assert_eq!(net_input.inputs.len(), 0);
}

#[test]
fn jitter_buffer_consumes_one_per_tick_and_drains_backlog() {
    let mut net_input = NetInput::default();
    net_input.input_state = NetInputState::Playing;
    // A modest queue: exactly one input consumed.
    for s in 0..3u32 {
        net_input.inputs.push(buffered_input(s, 0));
    }
    let consumed = consume_inputs(&mut net_input, 10_000);
    assert_eq!(consumed.len(), 1);
    assert_eq!(net_input.inputs.len(), 2);

    // A backlog beyond the target: drained down below BUFFER_LEN.
    let mut net_input = NetInput::default();
    net_input.input_state = NetInputState::Playing;
    for s in 0..10u32 {
        net_input.inputs.push(buffered_input(s, 0));
    }
    let consumed = consume_inputs(&mut net_input, 10_000);
    assert_eq!(consumed.len(), 10 - (BUFFER_LEN - 1));
    assert_eq!(net_input.inputs.len(), BUFFER_LEN - 1);
    // FIFO order.
    assert_eq!(consumed[0].data.sequence, 0);
    assert_eq!(consumed.last().unwrap().data.sequence, consumed.len() as u32 - 1);
}

#[test]
fn jitter_buffer_starves_back_to_buffering() {
    let mut net_input = NetInput::default();
    net_input.input_state = NetInputState::Playing;
    let consumed = consume_inputs(&mut net_input, 10_000);
    assert_eq!(consumed.len(), 0);
    assert!(matches!(net_input.input_state, NetInputState::Buffering));
}
