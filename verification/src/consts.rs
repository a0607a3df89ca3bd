//! Tuning constants, shared verbatim by server and client.
//!
//! Distances are in milli-units: one thousandth of a world unit (with the
//! default 2D camera one world unit is one pixel). Times are in
//! milliseconds unless the name says otherwise. Velocities are in
//! milli-units per simulation tick, so integration is a plain addition.

use vstd::prelude::*;

verus! {

/// Big-endian magic tag that opens every server-to-client datagram.
pub const WORLD_PACKET_HEADER_TAG: u32 = 0xba11_ba11;
/// Header bytes: 4 (tag) + 4 (last applied input) + 1 (client index).
pub const HEADER_LEN: usize = 9;
/// Largest datagram either side will frame; no fragmentation is done.
pub const ETHERNET_MTU: usize = 1500;

/// Fixed simulation rate, both ends.
pub const TICK_RATE_HZ: u64 = 60;
/// One tick in microseconds (1_000_000 / TICK_RATE_HZ, rounded down).
pub const TICK_US: u64 = 16_666;
/// Jitter allowance folded into the buffering delays.
pub const MIN_JITTER_US: u64 = 6_000;

/// How long the server's input buffer delays playback: five ticks plus the
/// jitter allowance, in microseconds.
pub const BUFFER_DELAY_US: u64 = 5 * TICK_US + MIN_JITTER_US;
/// Same delay in whole milliseconds, for wall-clock comparisons.
pub const BUFFER_DELAY_MS: u64 = BUFFER_DELAY_US / 1000;
/// Target input-queue length: 1 + floor(BUFFER_DELAY_US / TICK_US).
pub const BUFFER_LEN: usize = 6;

/// Client-side interpolation delay in microseconds.
pub const INTERP_DELAY_US: u64 = TICK_US + MIN_JITTER_US;
/// Same delay in whole milliseconds.
pub const INTERP_DELAY_MS: u64 = INTERP_DELAY_US / 1000;
/// Target snapshot-queue length: 2 + round(INTERP_DELAY_US / TICK_US).
pub const EXPECTED_SNAPSHOT_BUFFER: usize = 3;

/// A client heartbeats this often when it has nothing else to say.
pub const HEARTBEAT_TICK_RATE_MS: u64 = 2_000;
/// A peer silent for longer than this is disconnected by the server.
pub const IDLE_TIMEOUT_MS: u64 = 5_000;
/// A client pings at most once per this interval.
pub const PING_INTERVAL_MS: u64 = 250;

// Arena geometry, milli-units.
pub const WALL_THICKNESS: i32 = 10_000;
pub const LEFT_WALL: i32 = -450_000;
pub const RIGHT_WALL: i32 = 450_000;
pub const BOTTOM_WALL: i32 = -300_000;
pub const TOP_WALL: i32 = 300_000;

pub const PADDLE_SIZE_X: i32 = 120_000;
pub const PADDLE_SIZE_Y: i32 = 20_000;
pub const PADDLE_PADDING: i32 = 10_000;
/// Leftmost reachable paddle centre:
/// LEFT_WALL + WALL_THICKNESS / 2 + PADDLE_SIZE_X / 2 + PADDLE_PADDING.
pub const PADDLE_LEFT_BOUND: i32 = -375_000;
/// Rightmost reachable paddle centre, mirrored.
pub const PADDLE_RIGHT_BOUND: i32 = 375_000;
/// Horizontal paddle speed: 500 units/s, so per tick 500_000 / 60.
pub const PADDLE_STEP: i32 = 8_333;
pub const GAP_BETWEEN_PADDLE_AND_FLOOR: i32 = 60_000;
/// Paddles sit on this row: BOTTOM_WALL + GAP_BETWEEN_PADDLE_AND_FLOOR.
pub const PADDLE_Y: i32 = -240_000;

pub const BALL_DIAMETER: i32 = 30_000;
pub const BALL_RADIUS: i32 = 15_000;
pub const BALL_START_X: i32 = 0;
pub const BALL_START_Y: i32 = -50_000;
/// Canonical initial ball velocity: 400 units/s along normalize(0.5, -0.5),
/// i.e. 400_000 * sqrt(1/2) per second, divided by the tick rate.
pub const BALL_INITIAL_VX: i32 = 4_714;
pub const BALL_INITIAL_VY: i32 = -4_714;

pub const BRICK_SIZE_X: i32 = 100_000;
pub const BRICK_SIZE_Y: i32 = 30_000;
pub const GAP_BETWEEN_PADDLE_AND_BRICKS: i32 = 270_000;
pub const GAP_BETWEEN_BRICKS: i32 = 5_000;
pub const GAP_BETWEEN_BRICKS_AND_CEILING: i32 = 20_000;
pub const GAP_BETWEEN_BRICKS_AND_SIDES: i32 = 20_000;

/// Positions are kept inside this symmetric range so that every coordinate
/// fits a wire i32 and every integration step fits i64 arithmetic.
pub const POS_LIMIT: i32 = 1_000_000_000;
/// Velocity components are bounded by this (per tick), far above any speed
/// the game produces.
pub const VEL_LIMIT: i32 = 1_000_000;

} // verus!
