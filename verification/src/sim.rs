//! Deterministic simulation primitives: paddle movement, ball kinematics,
//! circle/AABB collision with reflection, and the brick grid. The same code
//! runs on the server (authoritative) and on the client (prediction).

use vstd::prelude::*;
use crate::consts::{
    BALL_RADIUS, BOTTOM_WALL, BRICK_SIZE_X, BRICK_SIZE_Y, GAP_BETWEEN_BRICKS, LEFT_WALL,
    PADDLE_LEFT_BOUND, PADDLE_RIGHT_BOUND, POS_LIMIT, RIGHT_WALL, TOP_WALL, VEL_LIMIT,
    WALL_THICKNESS,
};
use crate::types::{KEY_MASK_LEFT, KEY_MASK_RIGHT, NetId, PlayerInputData, Vec2I};

verus! {

/// Clamp of `v` to `[lo, hi]`, assuming `lo <= hi`.
pub open spec fn clamp_spec(v: int, lo: int, hi: int) -> int {
    if v < lo {
        lo
    } else if v > hi {
        hi
    } else {
        v
    }
}

/// Direction encoded by a key mask: -1 (left), 0, or 1 (right).
pub open spec fn key_dir(mask: u8) -> int {
    (if mask & KEY_MASK_LEFT != 0 { -1int } else { 0int })
        + (if mask & KEY_MASK_RIGHT != 0 { 1int } else { 0int })
}

/// Paddle x after one movement step of size `step` under `mask`.
pub open spec fn moved_paddle_x(x: int, step: int, mask: u8) -> int {
    clamp_spec(x + key_dir(mask) * step, PADDLE_LEFT_BOUND as int, PADDLE_RIGHT_BOUND as int)
}

/// Moves a paddle one step along x by the held keys and clamps it to the
/// reachable band; y is untouched. `step` is the distance covered in one
/// tick (`PADDLE_STEP` in the real loop).
pub fn move_paddle(step: i32, paddle_pos: &mut Vec2I, input: &PlayerInputData)
    requires
        0 <= step,
    ensures
        final(paddle_pos).x == moved_paddle_x(old(paddle_pos).x as int, step as int, input.key_mask),
        final(paddle_pos).y == old(paddle_pos).y,
        PADDLE_LEFT_BOUND <= final(paddle_pos).x <= PADDLE_RIGHT_BOUND,
{
    let mut direction: i64 = 0;
    if input.key_mask & KEY_MASK_LEFT != 0 {
        direction = direction - 1;
    }
    if input.key_mask & KEY_MASK_RIGHT != 0 {
        direction = direction + 1;
    }
    let unclamped: i64 = paddle_pos.x as i64 + direction * step as i64;
    let clamped: i64 = if unclamped < PADDLE_LEFT_BOUND as i64 {
        PADDLE_LEFT_BOUND as i64
    } else if unclamped > PADDLE_RIGHT_BOUND as i64 {
        PADDLE_RIGHT_BOUND as i64
    } else {
        unclamped
    };
    paddle_pos.x = clamped as i32;
}

/// Paddle x after replaying a run of inputs in order, each moving one
/// step. Shared by the server's input playback and the client's
/// reconciliation replay.
pub open spec fn replay_paddle_x(x: int, step: int, inputs: Seq<PlayerInputData>) -> int
    decreases inputs.len(),
{
    if inputs.len() == 0 {
        x
    } else {
        replay_paddle_x(moved_paddle_x(x, step, inputs[0].key_mask), step, inputs.drop_first())
    }
}

// ------------------------------------------------------------ kinematics --

/// One integration step, clamped to the coordinate range the wire format
/// carries: `p + v`, held inside `[-POS_LIMIT, POS_LIMIT]` per axis.
pub open spec fn integrated(p: int, v: int) -> int {
    clamp_spec(p + v, -POS_LIMIT as int, POS_LIMIT as int)
}

/// Advances a position by one tick's velocity (velocities are per-tick).
pub fn apply_velocity(pos: &mut Vec2I, vel: &Vec2I)
    ensures
        final(pos).x == integrated(old(pos).x as int, vel.x as int),
        final(pos).y == integrated(old(pos).y as int, vel.y as int),
{
    pos.x = add_clamped(pos.x, vel.x);
    pos.y = add_clamped(pos.y, vel.y);
}

fn add_clamped(p: i32, v: i32) -> (r: i32)
    ensures
        r == integrated(p as int, v as int),
{
    let sum: i64 = p as i64 + v as i64;
    if sum < -POS_LIMIT as i64 {
        -POS_LIMIT
    } else if sum > POS_LIMIT as i64 {
        POS_LIMIT
    } else {
        sum as i32
    }
}

// -------------------------------------------------------------- collision --

/// The side of an axis-aligned box that a ball hit.
#[derive(Clone, Copy, PartialEq, Eq, Structural, Debug)]
pub enum CollisionSide {
    Left,
    Right,
    Top,
    Bottom,
}

/// Squared length of a velocity, the quantity reflection preserves.
pub open spec fn speed_sq(v: Vec2I) -> int {
    (v.x as int) * (v.x as int) + (v.y as int) * (v.y as int)
}

/// Circle-versus-AABB test: `Some(side)` when the ball overlaps the box,
/// where `side` is the axis of the larger offset from the closest box
/// point to the ball's centre; `None` otherwise.
pub open spec fn ball_collision_spec(
    ball_center: Vec2I,
    radius: int,
    box_center: Vec2I,
    box_half: Vec2I,
) -> Option<CollisionSide> {
    let cx = clamp_spec(
        ball_center.x as int,
        box_center.x - box_half.x,
        box_center.x + box_half.x,
    );
    let cy = clamp_spec(
        ball_center.y as int,
        box_center.y - box_half.y,
        box_center.y + box_half.y,
    );
    let ox = ball_center.x - cx;
    let oy = ball_center.y - cy;
    if ox * ox + oy * oy > radius * radius {
        None
    } else if abs_spec(ox) > abs_spec(oy) {
        if ox < 0 {
            Some(CollisionSide::Left)
        } else {
            Some(CollisionSide::Right)
        }
    } else if oy > 0 {
        Some(CollisionSide::Top)
    } else {
        Some(CollisionSide::Bottom)
    }
}

/// Absolute value.
pub open spec fn abs_spec(v: int) -> int {
    if v < 0 {
        -v
    } else {
        v
    }
}

/// Detects a collision between a ball and an axis-aligned box; the
/// returned side is the one the ball hit.
pub fn ball_collision(ball_center: &Vec2I, radius: i32, box_center: &Vec2I, box_half: &Vec2I) -> (r:
    Option<CollisionSide>)
    requires
        0 <= radius <= POS_LIMIT,
        0 <= box_half.x,
        0 <= box_half.y,
        -POS_LIMIT <= ball_center.x <= POS_LIMIT,
        -POS_LIMIT <= ball_center.y <= POS_LIMIT,
        -POS_LIMIT <= box_center.x - box_half.x,
        box_center.x + box_half.x <= POS_LIMIT,
        -POS_LIMIT <= box_center.y - box_half.y,
        box_center.y + box_half.y <= POS_LIMIT,
    ensures
        r == ball_collision_spec(*ball_center, radius as int, *box_center, *box_half),
{
    let lox: i64 = box_center.x as i64 - box_half.x as i64;
    let hix: i64 = box_center.x as i64 + box_half.x as i64;
    let loy: i64 = box_center.y as i64 - box_half.y as i64;
    let hiy: i64 = box_center.y as i64 + box_half.y as i64;
    let cx: i64 = if (ball_center.x as i64) < lox {
        lox
    } else if (ball_center.x as i64) > hix {
        hix
    } else {
        ball_center.x as i64
    };
    let cy: i64 = if (ball_center.y as i64) < loy {
        loy
    } else if (ball_center.y as i64) > hiy {
        hiy
    } else {
        ball_center.y as i64
    };
    let ox: i64 = ball_center.x as i64 - cx;
    let oy: i64 = ball_center.y as i64 - cy;
    proof {
        assert(-2_000_000_000 <= ox <= 2_000_000_000);
        assert(-2_000_000_000 <= oy <= 2_000_000_000);
        assert(0 <= ox * ox <= 4_000_000_000_000_000_000) by (nonlinear_arith)
            requires
                -2_000_000_000 <= ox <= 2_000_000_000,
        ;
        assert(0 <= oy * oy <= 4_000_000_000_000_000_000) by (nonlinear_arith)
            requires
                -2_000_000_000 <= oy <= 2_000_000_000,
        ;
        assert(0 <= (radius as i64) * (radius as i64) <= 1_000_000_000_000_000_000)
            by (nonlinear_arith)
            requires
                0 <= radius as i64 <= 1_000_000_000,
        ;
    }
    if ox * ox + oy * oy > (radius as i64) * (radius as i64) {
        return None;
    }
    let ax: i64 = if ox < 0 {
        -ox
    } else {
        ox
    };
    let ay: i64 = if oy < 0 {
        -oy
    } else {
        oy
    };
    if ax > ay {
        if ox < 0 {
            Some(CollisionSide::Left)
        } else {
            Some(CollisionSide::Right)
        }
    } else if oy > 0 {
        Some(CollisionSide::Top)
    } else {
        Some(CollisionSide::Bottom)
    }
}

/// A velocity after hitting `side`: the component pointing into the
/// obstacle is negated, the other kept (this is what keeps a ball from
/// sticking inside a bar).
pub open spec fn reflected(side: CollisionSide, v: Vec2I) -> Vec2I {
    match side {
        CollisionSide::Left => if v.x > 0 {
            Vec2I { x: (-v.x as int) as i32, y: v.y }
        } else {
            v
        },
        CollisionSide::Right => if v.x < 0 {
            Vec2I { x: (-v.x as int) as i32, y: v.y }
        } else {
            v
        },
        CollisionSide::Top => if v.y < 0 {
            Vec2I { x: v.x, y: (-v.y as int) as i32 }
        } else {
            v
        },
        CollisionSide::Bottom => if v.y > 0 {
            Vec2I { x: v.x, y: (-v.y as int) as i32 }
        } else {
            v
        },
    }
}

/// Reflection preserves speed: the squared magnitude of a velocity is
/// unchanged by bouncing off any side.
pub proof fn lemma_reflection_preserves_speed(side: CollisionSide, v: Vec2I)
    requires
        -VEL_LIMIT <= v.x <= VEL_LIMIT,
        -VEL_LIMIT <= v.y <= VEL_LIMIT,
    ensures
        speed_sq(reflected(side, v)) == speed_sq(v),
{
    let x = v.x as int;
    let y = v.y as int;
    assert((-x) * (-x) == x * x) by (nonlinear_arith);
    assert((-y) * (-y) == y * y) by (nonlinear_arith);
    assert(((-x) as i32) as int == -x);
    assert(((-y) as i32) as int == -y);
}

/// One collider of the frozen per-tick snapshot: an axis-aligned box,
/// carrying its brick's `NetId` when hitting it should remove it.
#[derive(Clone, Copy, PartialEq, Eq, Structural, Debug)]
pub struct ColliderRect {
    pub center: Vec2I,
    pub half: Vec2I,
    /// `Some(id)` for a brick (deleted on hit, scoring a point);
    /// `None` for walls and paddles.
    pub brick_net_id: Option<NetId>,
}

/// Geometric well-formedness of a collider list: boxes lie inside the
/// coordinate range the simulation keeps positions in.
pub open spec fn colliders_wf(cs: Seq<ColliderRect>) -> bool {
    forall|i: int|
        0 <= i < cs.len() ==> {
            &&& 0 <= (#[trigger] cs[i]).half.x
            &&& 0 <= cs[i].half.y
            &&& -POS_LIMIT <= cs[i].center.x - cs[i].half.x
            &&& cs[i].center.x + cs[i].half.x <= POS_LIMIT
            &&& -POS_LIMIT <= cs[i].center.y - cs[i].half.y
            &&& cs[i].center.y + cs[i].half.y <= POS_LIMIT
        }
}

/// A velocity within the range the simulation keeps.
pub open spec fn vel_wf(v: Vec2I) -> bool {
    -VEL_LIMIT <= v.x <= VEL_LIMIT && -VEL_LIMIT <= v.y <= VEL_LIMIT
}

/// The state threaded through one ball's collision pass: the score so far
/// (widened to `int`), the ball's velocity, and the bricks slated for
/// deletion.
pub struct CollidePass {
    pub score: int,
    pub vel: Vec2I,
    pub dels: Seq<NetId>,
}

/// Effect of testing one collider: a brick already slated for deletion is
/// skipped; on a hit, a brick is slated and scores a point, and the
/// velocity reflects off the hit side.
pub open spec fn collide_one(st: CollidePass, c: ColliderRect, ball_pos: Vec2I, radius: int)
    -> CollidePass {
    if c.brick_net_id matches Some(id) && st.dels.contains(id) {
        st
    } else {
        match ball_collision_spec(ball_pos, radius, c.center, c.half) {
            None => st,
            Some(side) => CollidePass {
                score: if c.brick_net_id is Some {
                    st.score + 1
                } else {
                    st.score
                },
                vel: reflected(side, st.vel),
                dels: match c.brick_net_id {
                    Some(id) => st.dels.push(id),
                    None => st.dels,
                },
            },
        }
    }
}

/// The pass state after the first `k` colliders.
pub open spec fn collide_upto(
    cs: Seq<ColliderRect>,
    k: int,
    ball_pos: Vec2I,
    radius: int,
    st0: CollidePass,
) -> CollidePass
    decreases k,
{
    if k <= 0 {
        st0
    } else {
        collide_one(collide_upto(cs, k - 1, ball_pos, radius, st0), cs[k - 1], ball_pos, radius)
    }
}

/// Across a collision pass the score never drops, the velocity keeps its
/// speed and stays in range, and already-slated bricks stay slated.
pub proof fn lemma_collide_upto_invariants(
    cs: Seq<ColliderRect>,
    k: int,
    ball_pos: Vec2I,
    radius: int,
    st0: CollidePass,
)
    requires
        vel_wf(st0.vel),
        k <= cs.len(),
    ensures
        collide_upto(cs, k, ball_pos, radius, st0).score >= st0.score,
        vel_wf(collide_upto(cs, k, ball_pos, radius, st0).vel),
        speed_sq(collide_upto(cs, k, ball_pos, radius, st0).vel) == speed_sq(st0.vel),
        forall|id: NetId|
            st0.dels.contains(id) ==> #[trigger] collide_upto(
                cs,
                k,
                ball_pos,
                radius,
                st0,
            ).dels.contains(id),
        st0.dels.no_duplicates() ==> collide_upto(cs, k, ball_pos, radius, st0).dels.no_duplicates(),
        forall|id: NetId|
            #[trigger] collide_upto(cs, k, ball_pos, radius, st0).dels.contains(id)
                ==> st0.dels.contains(id) || exists|c: int|
                0 <= c < k && (#[trigger] cs[c]).brick_net_id == Some(id),
        collide_upto(cs, k, ball_pos, radius, st0).score <= st0.score + (collide_upto(
            cs,
            k,
            ball_pos,
            radius,
            st0,
        ).dels.len() - st0.dels.len()),
        collide_upto(cs, k, ball_pos, radius, st0).score - st0.score == collide_upto(
            cs,
            k,
            ball_pos,
            radius,
            st0,
        ).dels.len() - st0.dels.len(),
    decreases k,
{
    if k > 0 {
        lemma_collide_upto_invariants(cs, k - 1, ball_pos, radius, st0);
        let prev = collide_upto(cs, k - 1, ball_pos, radius, st0);
        let c = cs[k - 1];
        let cur = collide_one(prev, c, ball_pos, radius);
        if !(c.brick_net_id matches Some(id) && prev.dels.contains(id)) {
            match ball_collision_spec(ball_pos, radius, c.center, c.half) {
                None => {},
                Some(side) => {
                    lemma_reflection_preserves_speed(side, prev.vel);
                    assert forall|id: NetId| prev.dels.contains(id) implies #[trigger] collide_one(
                        prev,
                        c,
                        ball_pos,
                        radius,
                    ).dels.contains(id) by {
                        match c.brick_net_id {
                            Some(bid) => {
                                let i = choose|i: int|
                                    0 <= i < prev.dels.len() && prev.dels[i] == id;
                                assert(prev.dels.push(bid)[i] == id);
                            },
                            None => {},
                        }
                    }
                    match c.brick_net_id {
                        Some(bid) => {
                            assert(cur.dels == prev.dels.push(bid));
                            assert(!prev.dels.contains(bid));
                            if st0.dels.no_duplicates() {
                                assert forall|i: int, j: int|
                                    0 <= i < cur.dels.len() && 0 <= j < cur.dels.len() && i
                                    != j implies cur.dels[i] != cur.dels[j] by {
                                    if i < prev.dels.len() && j < prev.dels.len() {
                                    } else if i < prev.dels.len() {
                                        assert(cur.dels[j] == bid);
                                        assert(cur.dels[i] == prev.dels[i]);
                                    } else {
                                        assert(cur.dels[i] == bid);
                                        assert(cur.dels[j] == prev.dels[j]);
                                    }
                                }
                            }
                            assert forall|id: NetId| #[trigger] cur.dels.contains(id) implies
                                st0.dels.contains(id) || exists|ci: int|
                                0 <= ci < k && (#[trigger] cs[ci]).brick_net_id == Some(id) by {
                                let i = choose|i: int|
                                    0 <= i < cur.dels.len() && cur.dels[i] == id;
                                if i < prev.dels.len() {
                                    assert(prev.dels.contains(id));
                                } else {
                                    assert(id == bid);
                                    assert((cs[k - 1]).brick_net_id == Some(id));
                                }
                            }
                        },
                        None => {},
                    }
                },
            }
        }
        assert forall|id: NetId| #[trigger] cur.dels.contains(id) implies st0.dels.contains(id)
            || exists|ci: int| 0 <= ci < k && (#[trigger] cs[ci]).brick_net_id == Some(id) by {
            if prev.dels.contains(id) || cur.dels == prev.dels {
                assert(prev.dels.contains(id));
            }
        }
    }
}

/// Runs one ball against the frozen collider list, in order: reflects the
/// ball's velocity off everything it overlaps, slates hit bricks for
/// deletion and scores a point for each. The result is exactly the fold
/// of `collide_one` over the list.
#[verifier::loop_isolation(false)]
pub fn check_single_ball_collision(
    score: &mut u32,
    colliders: &Vec<ColliderRect>,
    ball_pos: &Vec2I,
    ball_velocity: &mut Vec2I,
    entities_to_delete: &mut Vec<NetId>,
)
    requires
        colliders_wf(colliders@),
        vel_wf(*old(ball_velocity)),
        -POS_LIMIT <= ball_pos.x <= POS_LIMIT,
        -POS_LIMIT <= ball_pos.y <= POS_LIMIT,
        old(score) + colliders@.len() <= u32::MAX,
    ensures
        ({
            let end = collide_upto(
                colliders@,
                colliders@.len() as int,
                *ball_pos,
                BALL_RADIUS as int,
                CollidePass {
                    score: *old(score) as int,
                    vel: *old(ball_velocity),
                    dels: old(entities_to_delete)@,
                },
            );
            &&& *final(score) as int == end.score
            &&& *final(ball_velocity) == end.vel
            &&& final(entities_to_delete)@ == end.dels
        }),
        *final(score) >= *old(score),
        vel_wf(*final(ball_velocity)),
        speed_sq(*final(ball_velocity)) == speed_sq(*old(ball_velocity)),
        old(entities_to_delete)@.no_duplicates() ==> final(entities_to_delete)@.no_duplicates(),
        forall|id: NetId|
            #[trigger] final(entities_to_delete)@.contains(id) ==> old(
                entities_to_delete,
            )@.contains(id) || exists|c: int|
                0 <= c < colliders@.len() && (#[trigger] colliders@[c]).brick_net_id == Some(id),
        *final(score) - *old(score) == final(entities_to_delete)@.len() - old(
            entities_to_delete,
        )@.len(),
{
    let ghost st0 = CollidePass {
        score: *old(score) as int,
        vel: *old(ball_velocity),
        dels: old(entities_to_delete)@,
    };
    let mut i: usize = 0;
    while i < colliders.len()
        invariant
            i <= colliders@.len(),
            colliders_wf(colliders@),
            old(score) + colliders@.len() <= u32::MAX,
            ({
                let st = collide_upto(colliders@, i as int, *ball_pos, BALL_RADIUS as int, st0);
                &&& *score as int == st.score
                &&& *ball_velocity == st.vel
                &&& entities_to_delete@ == st.dels
            }),
            *score as int <= st0.score + i,
            vel_wf(*ball_velocity),
        decreases colliders@.len() - i,
    {
        proof {
            lemma_collide_upto_invariants(colliders@, i as int, *ball_pos, BALL_RADIUS as int, st0);
        }
        let c = colliders[i];
        let skip_hit = match c.brick_net_id {
            Some(id) => contains_net_id(entities_to_delete, id),
            None => false,
        };
        if !skip_hit {
            let hit = ball_collision(ball_pos, BALL_RADIUS, &c.center, &c.half);
            match hit {
                None => {},
                Some(side) => {
                    match c.brick_net_id {
                        Some(id) => {
                            entities_to_delete.push(id);
                            *score = *score + 1;
                        },
                        None => {},
                    }
                    reflect_velocity(ball_velocity, side);
                },
            }
        }
        proof {
            assert(collide_upto(colliders@, i + 1, *ball_pos, BALL_RADIUS as int, st0)
                == collide_one(
                collide_upto(colliders@, i as int, *ball_pos, BALL_RADIUS as int, st0),
                colliders@[i as int],
                *ball_pos,
                BALL_RADIUS as int,
            ));
        }
        i = i + 1;
    }
    proof {
        lemma_collide_upto_invariants(
            colliders@,
            colliders@.len() as int,
            *ball_pos,
            BALL_RADIUS as int,
            st0,
        );
    }
}

pub fn contains_net_id(v: &Vec<NetId>, id: NetId) -> (r: bool)
    ensures
        r == v@.contains(id),
{
    let mut i: usize = 0;
    while i < v.len()
        invariant
            i <= v@.len(),
            forall|j: int| 0 <= j < i ==> v@[j] != id,
        decreases v@.len() - i,
    {
        if v[i].0 == id.0 {
            return true;
        }
        i = i + 1;
    }
    false
}

fn reflect_velocity(v: &mut Vec2I, side: CollisionSide)
    requires
        vel_wf(*old(v)),
    ensures
        *final(v) == reflected(side, *old(v)),
{
    match side {
        CollisionSide::Left => if v.x > 0 {
            v.x = -v.x;
        },
        CollisionSide::Right => if v.x < 0 {
            v.x = -v.x;
        },
        CollisionSide::Top => if v.y < 0 {
            v.y = -v.y;
        },
        CollisionSide::Bottom => if v.y > 0 {
            v.y = -v.y;
        },
    }
}

// -------------------------------------------------------- arena geometry --

/// The four arena walls.
#[derive(Clone, Copy, PartialEq, Eq, Structural, Debug)]
pub enum WallLocation {
    Left,
    Right,
    Bottom,
    Top,
}

impl WallLocation {
    /// Centre of this wall.
    pub fn position(&self) -> (r: Vec2I)
        ensures
            r == wall_position(*self),
    {
        match self {
            WallLocation::Left => Vec2I { x: LEFT_WALL, y: 0 },
            WallLocation::Right => Vec2I { x: RIGHT_WALL, y: 0 },
            WallLocation::Bottom => Vec2I { x: 0, y: BOTTOM_WALL },
            WallLocation::Top => Vec2I { x: 0, y: TOP_WALL },
        }
    }

    /// Width and height of this wall; side walls span the arena height
    /// plus the wall thickness, so corners close.
    pub fn size(&self) -> (r: Vec2I)
        ensures
            r == wall_size(*self),
    {
        match self {
            WallLocation::Left | WallLocation::Right => Vec2I {
                x: WALL_THICKNESS,
                y: (TOP_WALL - BOTTOM_WALL) + WALL_THICKNESS,
            },
            WallLocation::Bottom | WallLocation::Top => Vec2I {
                x: (RIGHT_WALL - LEFT_WALL) + WALL_THICKNESS,
                y: WALL_THICKNESS,
            },
        }
    }

    /// This wall as a collider box.
    pub fn collider(&self) -> (r: ColliderRect)
        ensures
            r.center == wall_position(*self),
            r.half.x == wall_size(*self).x / 2,
            r.half.y == wall_size(*self).y / 2,
            r.brick_net_id is None,
    {
        let size = self.size();
        ColliderRect {
            center: self.position(),
            half: Vec2I { x: size.x / 2, y: size.y / 2 },
            brick_net_id: None,
        }
    }
}

/// Centre of a wall.
pub open spec fn wall_position(w: WallLocation) -> Vec2I {
    match w {
        WallLocation::Left => Vec2I { x: LEFT_WALL, y: 0 },
        WallLocation::Right => Vec2I { x: RIGHT_WALL, y: 0 },
        WallLocation::Bottom => Vec2I { x: 0, y: BOTTOM_WALL },
        WallLocation::Top => Vec2I { x: 0, y: TOP_WALL },
    }
}

/// Size of a wall.
pub open spec fn wall_size(w: WallLocation) -> Vec2I {
    match w {
        WallLocation::Left | WallLocation::Right => Vec2I {
            x: WALL_THICKNESS,
            y: ((TOP_WALL - BOTTOM_WALL) + WALL_THICKNESS) as i32,
        },
        WallLocation::Bottom | WallLocation::Top => Vec2I {
            x: ((RIGHT_WALL - LEFT_WALL) + WALL_THICKNESS) as i32,
            y: WALL_THICKNESS,
        },
    }
}

// ------------------------------------------------------------ brick grid --

/// Rows of bricks that fit the space above the paddles.
pub const N_BRICK_ROWS: usize = 7;
/// Columns of bricks that fit the arena width.
pub const N_BRICK_COLS: usize = 8;
/// Centre x of the leftmost brick column.
pub const BRICK_OFFSET_X: i32 = -367_500;
/// Centre y of the bottom brick row.
pub const BRICK_OFFSET_Y: i32 = 45_000;

/// Centre of the brick at `row`, `col`.
pub open spec fn brick_pos(row: int, col: int) -> Vec2I {
    Vec2I {
        x: (BRICK_OFFSET_X + col * (BRICK_SIZE_X + GAP_BETWEEN_BRICKS)) as i32,
        y: (BRICK_OFFSET_Y + row * (BRICK_SIZE_Y + GAP_BETWEEN_BRICKS)) as i32,
    }
}

/// Lays out the brick grid, row by row from the bottom, each row left to
/// right.
pub fn brick_layout() -> (r: Vec<Vec2I>)
    ensures
        r@.len() == N_BRICK_ROWS * N_BRICK_COLS,
        forall|k: int|
            0 <= k < r@.len() ==> #[trigger] r@[k] == brick_pos(
                k / N_BRICK_COLS as int,
                k % N_BRICK_COLS as int,
            ),
{
    let mut out: Vec<Vec2I> = Vec::new();
    let total: usize = N_BRICK_ROWS * N_BRICK_COLS;
    let mut k: usize = 0;
    while k < total
        invariant
            k <= total,
            total == N_BRICK_ROWS * N_BRICK_COLS,
            out@.len() == k,
            forall|j: int|
                0 <= j < k ==> #[trigger] out@[j] == brick_pos(
                    j / N_BRICK_COLS as int,
                    j % N_BRICK_COLS as int,
                ),
        decreases total - k,
    {
        let row: usize = k / N_BRICK_COLS;
        let col: usize = k % N_BRICK_COLS;
        let x: i32 = BRICK_OFFSET_X + (col as i32) * (BRICK_SIZE_X + GAP_BETWEEN_BRICKS);
        let y: i32 = BRICK_OFFSET_Y + (row as i32) * (BRICK_SIZE_Y + GAP_BETWEEN_BRICKS);
        proof {
            assert(k < 56);
            assert((k as int) / 8 < 7 && (k as int) % 8 < 8) by (nonlinear_arith)
                requires
                    0 <= k < 56,
            ;
        }
        out.push(Vec2I { x, y });
        k = k + 1;
    }
    out
}

} // verus!
