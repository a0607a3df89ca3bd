//! Binary packet codec.
//!
//! The wire form is a compact canonical encoding: unsigned integers are
//! variable-length (one byte below 251, else a marker byte followed by the
//! little-endian 16- or 32-bit value), coordinates are 32-bit little-endian
//! with a sign bias, vectors are length-prefixed, and enum variants carry a
//! small tag. Every encoder has a spec-level mirror, every decoder returns
//! exactly what its spec-level mirror returns, and the round-trip lemmas
//! prove that decoding an encoding yields the original packet.

use vstd::prelude::*;
use vstd::bytes::{
    lemma_auto_spec_u16_to_from_le_bytes, lemma_auto_spec_u32_to_from_le_bytes,
    spec_u16_from_le_bytes, spec_u16_to_le_bytes, spec_u32_from_le_bytes, spec_u32_to_le_bytes,
    u16_from_le_bytes, u16_to_le_bytes, u32_from_le_bytes, u32_to_le_bytes,
};
use vstd::slice::slice_subrange;
use crate::types::{
    ClientToServerPacket, NetBallData, NetBrickData, NetEntity, NetEntityType, NetId,
    NetPaddleData, NetPlayerIndex, NetScoreData, NetWorldStateData, PingData, PlayerInputData,
    ServerToClientModel, ServerToClientPacket, Vec2I, WorldStateModel,
};

verus! {

/// A decoder result with its resume position widened to `int`, for
/// comparing exec results against the spec-level decoders.
pub open spec fn lift_pos<T>(r: Option<(T, usize)>) -> Option<(T, int)> {
    match r {
        Some((v, p)) => Some((v, p as int)),
        None => None,
    }
}

// ---------------------------------------------------------------- bytes --

/// Encoding of a raw byte.
pub open spec fn enc_byte(x: u8) -> Seq<u8> {
    seq![x]
}

/// Spec mirror of reading one raw byte.
pub open spec fn dec_byte(s: Seq<u8>, pos: int) -> Option<(u8, int)> {
    if 0 <= pos < s.len() {
        Some((s[pos], pos + 1))
    } else {
        None
    }
}

pub fn write_byte(out: &mut Vec<u8>, x: u8)
    ensures
        final(out)@ == old(out)@ + enc_byte(x),
{
    out.push(x);
    assert(out@ =~= old(out)@ + enc_byte(x));
}

pub fn read_byte(s: &[u8], pos: usize) -> (r: Option<(u8, usize)>)
    ensures
        lift_pos(r) == dec_byte(s@, pos as int),
{
    if pos < s.len() {
        Some((s[pos], pos + 1))
    } else {
        None
    }
}

proof fn lemma_dec_enc_byte(s: Seq<u8>, pos: int, x: u8)
    requires
        0 <= pos,
        pos + 1 <= s.len(),
        s.subrange(pos, pos + 1) == enc_byte(x),
    ensures
        dec_byte(s, pos) == Some((x, pos + 1)),
{
    assert(s[pos] == s.subrange(pos, pos + 1)[0]);
}

// --------------------------------------------------- variable-width u32 --

/// Variable-length encoding of a `u32`: values below 251 take one byte;
/// larger values take a marker byte (251 or 252) plus the little-endian
/// 16- or 32-bit form.
pub open spec fn enc_var_u32(x: u32) -> Seq<u8> {
    if x < 251 {
        seq![x as u8]
    } else if x <= 0xffff {
        seq![251u8] + spec_u16_to_le_bytes(x as u16)
    } else {
        seq![252u8] + spec_u32_to_le_bytes(x)
    }
}

/// Spec mirror of reading a variable-length `u32`.
pub open spec fn dec_var_u32(s: Seq<u8>, pos: int) -> Option<(u32, int)> {
    if 0 <= pos < s.len() {
        let b0 = s[pos];
        if b0 < 251 {
            Some((b0 as u32, pos + 1))
        } else if b0 == 251 {
            if pos + 3 <= s.len() {
                Some((spec_u16_from_le_bytes(s.subrange(pos + 1, pos + 3)) as u32, pos + 3))
            } else {
                None
            }
        } else if b0 == 252 {
            if pos + 5 <= s.len() {
                Some((spec_u32_from_le_bytes(s.subrange(pos + 1, pos + 5)), pos + 5))
            } else {
                None
            }
        } else {
            None
        }
    } else {
        None
    }
}

pub fn write_var_u32(out: &mut Vec<u8>, x: u32)
    ensures
        final(out)@ == old(out)@ + enc_var_u32(x),
{
    if x < 251 {
        out.push(x as u8);
        assert(out@ =~= old(out)@ + enc_var_u32(x));
    } else if x <= 0xffff {
        out.push(251);
        let mut b = u16_to_le_bytes(x as u16);
        out.append(&mut b);
        assert(out@ =~= old(out)@ + enc_var_u32(x));
    } else {
        out.push(252);
        let mut b = u32_to_le_bytes(x);
        out.append(&mut b);
        assert(out@ =~= old(out)@ + enc_var_u32(x));
    }
}

pub fn read_var_u32(s: &[u8], pos: usize) -> (r: Option<(u32, usize)>)
    ensures
        lift_pos(r) == dec_var_u32(s@, pos as int),
{
    if pos >= s.len() {
        return None;
    }
    let b0 = s[pos];
    if b0 < 251 {
        Some((b0 as u32, pos + 1))
    } else if b0 == 251 {
        if s.len() - pos >= 3 {
            let v = u16_from_le_bytes(slice_subrange(s, pos + 1, pos + 3));
            Some((v as u32, pos + 3))
        } else {
            None
        }
    } else if b0 == 252 {
        if s.len() - pos >= 5 {
            let v = u32_from_le_bytes(slice_subrange(s, pos + 1, pos + 5));
            Some((v, pos + 5))
        } else {
            None
        }
    } else {
        None
    }
}

proof fn lemma_dec_enc_var_u32(s: Seq<u8>, pos: int, x: u32)
    requires
        0 <= pos,
        pos + enc_var_u32(x).len() <= s.len(),
        s.subrange(pos, pos + enc_var_u32(x).len() as int) == enc_var_u32(x),
    ensures
        dec_var_u32(s, pos) == Some((x, pos + enc_var_u32(x).len() as int)),
{
    lemma_auto_spec_u16_to_from_le_bytes();
    lemma_auto_spec_u32_to_from_le_bytes();
    let e = enc_var_u32(x);
    assert(s[pos] == s.subrange(pos, pos + e.len() as int)[0]);
    if x < 251 {
    } else if x <= 0xffff {
        assert(s.subrange(pos + 1, pos + 3) =~= e.subrange(1, 3));
        assert(e.subrange(1, 3) =~= spec_u16_to_le_bytes(x as u16));
    } else {
        assert(s.subrange(pos + 1, pos + 5) =~= e.subrange(1, 5));
        assert(e.subrange(1, 5) =~= spec_u32_to_le_bytes(x));
    }
}

// ------------------------------------------------------------ biased i32 --

/// The sign bias applied to coordinates before the little-endian encoding.
pub open spec fn i32_biased(x: i32) -> u32 {
    (x + 0x8000_0000) as u32
}

/// Inverse of `i32_biased`.
pub open spec fn i32_unbiased(u: u32) -> i32 {
    (u - 0x8000_0000) as i32
}

/// Encoding of a coordinate: bias to unsigned, then 4 bytes little-endian.
pub open spec fn enc_i32x(x: i32) -> Seq<u8> {
    spec_u32_to_le_bytes(i32_biased(x))
}

/// Spec mirror of reading a coordinate.
pub open spec fn dec_i32x(s: Seq<u8>, pos: int) -> Option<(i32, int)> {
    if 0 <= pos && pos + 4 <= s.len() {
        Some((i32_unbiased(spec_u32_from_le_bytes(s.subrange(pos, pos + 4))), pos + 4))
    } else {
        None
    }
}

pub proof fn lemma_enc_i32x_len(x: i32)
    ensures
        enc_i32x(x).len() == 4,
{
    lemma_auto_spec_u32_to_from_le_bytes();
}

pub fn write_i32x(out: &mut Vec<u8>, x: i32)
    ensures
        final(out)@ == old(out)@ + enc_i32x(x),
{
    let biased: u32 = ((x as i64) + 0x8000_0000i64) as u32;
    assert(biased == i32_biased(x));
    let mut b = u32_to_le_bytes(biased);
    out.append(&mut b);
    assert(out@ =~= old(out)@ + enc_i32x(x));
}

pub fn read_i32x(s: &[u8], pos: usize) -> (r: Option<(i32, usize)>)
    ensures
        lift_pos(r) == dec_i32x(s@, pos as int),
{
    if pos < s.len() && s.len() - pos >= 4 {
        let u = u32_from_le_bytes(slice_subrange(s, pos, pos + 4));
        let v: i32 = ((u as i64) - 0x8000_0000i64) as i32;
        assert(v == i32_unbiased(u));
        Some((v, pos + 4))
    } else {
        assert(dec_i32x(s@, pos as int) is None);
        None
    }
}

proof fn lemma_dec_enc_i32x(s: Seq<u8>, pos: int, x: i32)
    requires
        0 <= pos,
        pos + 4 <= s.len(),
        s.subrange(pos, pos + 4) == enc_i32x(x),
    ensures
        dec_i32x(s, pos) == Some((x, pos + 4)),
{
    lemma_auto_spec_u32_to_from_le_bytes();
    let u = i32_biased(x);
    assert(spec_u32_to_le_bytes(u).len() == 4);
    assert(spec_u32_from_le_bytes(spec_u32_to_le_bytes(u)) == u);
    assert(spec_u32_from_le_bytes(s.subrange(pos, pos + 4)) == u);
    assert(u == x + 0x8000_0000);
    assert(i32_unbiased(u) == x);
}

// ------------------------------------------------------- shared helpers --

/// When `s` carries `e1 + e2` at `pos`, it carries `e1` at `pos` and `e2`
/// right behind it.
proof fn lemma_parts2(s: Seq<u8>, pos: int, e1: Seq<u8>, e2: Seq<u8>)
    requires
        0 <= pos,
        pos + e1.len() + e2.len() <= s.len(),
        s.subrange(pos, pos + e1.len() + e2.len()) == e1 + e2,
    ensures
        s.subrange(pos, pos + e1.len() as int) == e1,
        s.subrange(pos + e1.len() as int, pos + e1.len() + e2.len()) == e2,
{
    assert forall|k: int| 0 <= k < e1.len() implies s.subrange(
        pos,
        pos + e1.len() as int,
    )[k] == e1[k] by {
        assert(s.subrange(pos, pos + e1.len() + e2.len())[k] == (e1 + e2)[k]);
    }
    assert(s.subrange(pos, pos + e1.len() as int) =~= e1);
    assert forall|k: int| 0 <= k < e2.len() implies s.subrange(
        pos + e1.len() as int,
        pos + e1.len() + e2.len(),
    )[k] == e2[k] by {
        assert(s.subrange(pos, pos + e1.len() + e2.len())[e1.len() + k] == (e1 + e2)[e1.len()
            + k]);
        assert((e1 + e2)[e1.len() + k] == e2[k]);
    }
    assert(s.subrange(pos + e1.len() as int, pos + e1.len() + e2.len()) =~= e2);
}

// ----------------------------------------------------------- composites --

/// Encoding of a 2D vector: x then y.
pub open spec fn enc_vec2(v: Vec2I) -> Seq<u8> {
    enc_i32x(v.x) + enc_i32x(v.y)
}

/// Spec mirror of reading a 2D vector.
pub open spec fn dec_vec2(s: Seq<u8>, pos: int) -> Option<(Vec2I, int)> {
    match dec_i32x(s, pos) {
        None => None,
        Some((x, p1)) => match dec_i32x(s, p1) {
            None => None,
            Some((y, p2)) => Some((Vec2I { x, y }, p2)),
        },
    }
}

pub fn write_vec2(out: &mut Vec<u8>, v: &Vec2I)
    ensures
        final(out)@ == old(out)@ + enc_vec2(*v),
{
    write_i32x(out, v.x);
    write_i32x(out, v.y);
    assert(out@ =~= old(out)@ + enc_vec2(*v));
}

pub fn read_vec2(s: &[u8], pos: usize) -> (r: Option<(Vec2I, usize)>)
    ensures
        lift_pos(r) == dec_vec2(s@, pos as int),
{
    match read_i32x(s, pos) {
        None => None,
        Some((x, p1)) => match read_i32x(s, p1) {
            None => None,
            Some((y, p2)) => Some((Vec2I { x, y }, p2)),
        },
    }
}

proof fn lemma_dec_enc_vec2(s: Seq<u8>, pos: int, v: Vec2I)
    requires
        0 <= pos,
        pos + enc_vec2(v).len() <= s.len(),
        s.subrange(pos, pos + enc_vec2(v).len() as int) == enc_vec2(v),
    ensures
        enc_vec2(v).len() == 8,
        dec_vec2(s, pos) == Some((v, pos + 8)),
{
    lemma_enc_i32x_len(v.x);
    lemma_enc_i32x_len(v.y);
    lemma_parts2(s, pos, enc_i32x(v.x), enc_i32x(v.y));
    lemma_dec_enc_i32x(s, pos, v.x);
    lemma_dec_enc_i32x(s, pos + 4, v.y);
}

/// Encoding of one sampled input: key mask, simulating frame, sequence.
pub open spec fn enc_input(d: PlayerInputData) -> Seq<u8> {
    enc_byte(d.key_mask) + enc_var_u32(d.simulating_frame) + enc_var_u32(d.sequence)
}

/// Spec mirror of reading one sampled input.
pub open spec fn dec_input(s: Seq<u8>, pos: int) -> Option<(PlayerInputData, int)> {
    match dec_byte(s, pos) {
        None => None,
        Some((mask, p1)) => match dec_var_u32(s, p1) {
            None => None,
            Some((frame, p2)) => match dec_var_u32(s, p2) {
                None => None,
                Some((sequence, p3)) => Some(
                    (
                        PlayerInputData {
                            key_mask: mask,
                            simulating_frame: frame,
                            sequence: sequence,
                        },
                        p3,
                    ),
                ),
            },
        },
    }
}

pub fn write_input(out: &mut Vec<u8>, d: &PlayerInputData)
    ensures
        final(out)@ == old(out)@ + enc_input(*d),
{
    write_byte(out, d.key_mask);
    write_var_u32(out, d.simulating_frame);
    write_var_u32(out, d.sequence);
    assert(out@ =~= old(out)@ + enc_input(*d));
}

pub fn read_input(s: &[u8], pos: usize) -> (r: Option<(PlayerInputData, usize)>)
    ensures
        lift_pos(r) == dec_input(s@, pos as int),
{
    match read_byte(s, pos) {
        None => None,
        Some((mask, p1)) => match read_var_u32(s, p1) {
            None => None,
            Some((frame, p2)) => match read_var_u32(s, p2) {
                None => None,
                Some((sequence, p3)) => Some(
                    (
                        PlayerInputData {
                            key_mask: mask,
                            simulating_frame: frame,
                            sequence: sequence,
                        },
                        p3,
                    ),
                ),
            },
        },
    }
}

proof fn lemma_dec_enc_input(s: Seq<u8>, pos: int, d: PlayerInputData)
    requires
        0 <= pos,
        pos + enc_input(d).len() <= s.len(),
        s.subrange(pos, pos + enc_input(d).len() as int) == enc_input(d),
    ensures
        dec_input(s, pos) == Some((d, pos + enc_input(d).len() as int)),
{
    let e1 = enc_byte(d.key_mask);
    let e2 = enc_var_u32(d.simulating_frame);
    let e3 = enc_var_u32(d.sequence);
    assert(enc_input(d) == (e1 + e2) + e3);
    assert(s.subrange(pos, pos + (e1 + e2).len() + e3.len()) == (e1 + e2) + e3);
    lemma_parts2(s, pos, e1 + e2, e3);
    lemma_parts2(s, pos, e1, e2);
    lemma_dec_enc_byte(s, pos, d.key_mask);
    lemma_dec_enc_var_u32(s, pos + 1, d.simulating_frame);
    lemma_dec_enc_var_u32(s, pos + 1 + e2.len(), d.sequence);
}

/// Encoding of a ping probe.
pub open spec fn enc_ping(d: PingData) -> Seq<u8> {
    enc_var_u32(d.ping_id)
}

/// Spec mirror of reading a ping probe.
pub open spec fn dec_ping(s: Seq<u8>, pos: int) -> Option<(PingData, int)> {
    match dec_var_u32(s, pos) {
        None => None,
        Some((ping_id, p1)) => Some((PingData { ping_id }, p1)),
    }
}

pub fn write_ping(out: &mut Vec<u8>, d: &PingData)
    ensures
        final(out)@ == old(out)@ + enc_ping(*d),
{
    write_var_u32(out, d.ping_id);
}

pub fn read_ping(s: &[u8], pos: usize) -> (r: Option<(PingData, usize)>)
    ensures
        lift_pos(r) == dec_ping(s@, pos as int),
{
    match read_var_u32(s, pos) {
        None => None,
        Some((ping_id, p1)) => Some((PingData { ping_id }, p1)),
    }
}

proof fn lemma_dec_enc_ping(s: Seq<u8>, pos: int, d: PingData)
    requires
        0 <= pos,
        pos + enc_ping(d).len() <= s.len(),
        s.subrange(pos, pos + enc_ping(d).len() as int) == enc_ping(d),
    ensures
        dec_ping(s, pos) == Some((d, pos + enc_ping(d).len() as int)),
{
    lemma_dec_enc_var_u32(s, pos, d.ping_id);
}

/// Encoding of the payload of one snapshot entity, with its variant tag.
pub open spec fn enc_entity_type(t: NetEntityType) -> Seq<u8> {
    match t {
        NetEntityType::Paddle(d) => enc_var_u32(0) + (enc_vec2(d.pos) + enc_byte(
            d.player_index.0,
        )),
        NetEntityType::Brick(d) => enc_var_u32(1) + enc_vec2(d.pos),
        NetEntityType::Ball(d) => enc_var_u32(2) + ((enc_vec2(d.pos) + enc_vec2(d.velocity))
            + enc_byte(d.player_index.0)),
        NetEntityType::Score(d) => enc_var_u32(3) + enc_var_u32(d.score),
    }
}

/// Spec mirror of reading one snapshot entity payload.
pub open spec fn dec_entity_type(s: Seq<u8>, pos: int) -> Option<(NetEntityType, int)> {
    match dec_var_u32(s, pos) {
        None => None,
        Some((tag, p1)) => if tag == 0 {
            match dec_vec2(s, p1) {
                None => None,
                Some((pos2, p2)) => match dec_byte(s, p2) {
                    None => None,
                    Some((pi, p3)) => Some(
                        (
                            NetEntityType::Paddle(
                                NetPaddleData { pos: pos2, player_index: NetPlayerIndex(pi) },
                            ),
                            p3,
                        ),
                    ),
                },
            }
        } else if tag == 1 {
            match dec_vec2(s, p1) {
                None => None,
                Some((pos2, p2)) => Some((NetEntityType::Brick(NetBrickData { pos: pos2 }), p2)),
            }
        } else if tag == 2 {
            match dec_vec2(s, p1) {
                None => None,
                Some((pos2, p2)) => match dec_vec2(s, p2) {
                    None => None,
                    Some((vel, p3)) => match dec_byte(s, p3) {
                        None => None,
                        Some((pi, p4)) => Some(
                            (
                                NetEntityType::Ball(
                                    NetBallData {
                                        pos: pos2,
                                        velocity: vel,
                                        player_index: NetPlayerIndex(pi),
                                    },
                                ),
                                p4,
                            ),
                        ),
                    },
                },
            }
        } else if tag == 3 {
            match dec_var_u32(s, p1) {
                None => None,
                Some((score, p2)) => Some((NetEntityType::Score(NetScoreData { score }), p2)),
            }
        } else {
            None
        },
    }
}

pub fn write_entity_type(out: &mut Vec<u8>, t: &NetEntityType)
    ensures
        final(out)@ == old(out)@ + enc_entity_type(*t),
{
    match t {
        NetEntityType::Paddle(d) => {
            write_var_u32(out, 0);
            write_vec2(out, &d.pos);
            write_byte(out, d.player_index.0);
        },
        NetEntityType::Brick(d) => {
            write_var_u32(out, 1);
            write_vec2(out, &d.pos);
        },
        NetEntityType::Ball(d) => {
            write_var_u32(out, 2);
            write_vec2(out, &d.pos);
            write_vec2(out, &d.velocity);
            write_byte(out, d.player_index.0);
        },
        NetEntityType::Score(d) => {
            write_var_u32(out, 3);
            write_var_u32(out, d.score);
        },
    }
    assert(out@ =~= old(out)@ + enc_entity_type(*t));
}

pub fn read_entity_type(s: &[u8], pos: usize) -> (r: Option<(NetEntityType, usize)>)
    ensures
        lift_pos(r) == dec_entity_type(s@, pos as int),
{
    match read_var_u32(s, pos) {
        None => None,
        Some((tag, p1)) => if tag == 0 {
            match read_vec2(s, p1) {
                None => None,
                Some((pos2, p2)) => match read_byte(s, p2) {
                    None => None,
                    Some((pi, p3)) => Some(
                        (
                            NetEntityType::Paddle(
                                NetPaddleData { pos: pos2, player_index: NetPlayerIndex(pi) },
                            ),
                            p3,
                        ),
                    ),
                },
            }
        } else if tag == 1 {
            match read_vec2(s, p1) {
                None => None,
                Some((pos2, p2)) => Some((NetEntityType::Brick(NetBrickData { pos: pos2 }), p2)),
            }
        } else if tag == 2 {
            match read_vec2(s, p1) {
                None => None,
                Some((pos2, p2)) => match read_vec2(s, p2) {
                    None => None,
                    Some((vel, p3)) => match read_byte(s, p3) {
                        None => None,
                        Some((pi, p4)) => Some(
                            (
                                NetEntityType::Ball(
                                    NetBallData {
                                        pos: pos2,
                                        velocity: vel,
                                        player_index: NetPlayerIndex(pi),
                                    },
                                ),
                                p4,
                            ),
                        ),
                    },
                },
            }
        } else if tag == 3 {
            match read_var_u32(s, p1) {
                None => None,
                Some((score, p2)) => Some((NetEntityType::Score(NetScoreData { score }), p2)),
            }
        } else {
            None
        },
    }
}

proof fn lemma_dec_enc_entity_type(s: Seq<u8>, pos: int, t: NetEntityType)
    requires
        0 <= pos,
        pos + enc_entity_type(t).len() <= s.len(),
        s.subrange(pos, pos + enc_entity_type(t).len() as int) == enc_entity_type(t),
    ensures
        dec_entity_type(s, pos) == Some((t, pos + enc_entity_type(t).len() as int)),
{
    match t {
        NetEntityType::Paddle(d) => {
            let e1 = enc_var_u32(0);
            let e2 = enc_vec2(d.pos);
            let e3 = enc_byte(d.player_index.0);
            lemma_parts2(s, pos, e1, e2 + e3);
            lemma_dec_enc_var_u32(s, pos, 0);
            lemma_parts2(s, pos + 1, e2, e3);
            lemma_dec_enc_vec2(s, pos + 1, d.pos);
            lemma_dec_enc_byte(s, pos + 9, d.player_index.0);
        },
        NetEntityType::Brick(d) => {
            let e1 = enc_var_u32(1);
            let e2 = enc_vec2(d.pos);
            lemma_parts2(s, pos, e1, e2);
            lemma_dec_enc_var_u32(s, pos, 1);
            lemma_dec_enc_vec2(s, pos + 1, d.pos);
        },
        NetEntityType::Ball(d) => {
            let e1 = enc_var_u32(2);
            let e2 = enc_vec2(d.pos);
            let e3 = enc_vec2(d.velocity);
            let e4 = enc_byte(d.player_index.0);
            lemma_parts2(s, pos, e1, (e2 + e3) + e4);
            lemma_dec_enc_var_u32(s, pos, 2);
            lemma_parts2(s, pos + 1, e2 + e3, e4);
            lemma_parts2(s, pos + 1, e2, e3);
            lemma_dec_enc_vec2(s, pos + 1, d.pos);
            lemma_dec_enc_vec2(s, pos + 9, d.velocity);
            lemma_dec_enc_byte(s, pos + 17, d.player_index.0);
        },
        NetEntityType::Score(d) => {
            let e1 = enc_var_u32(3);
            let e2 = enc_var_u32(d.score);
            lemma_parts2(s, pos, e1, e2);
            lemma_dec_enc_var_u32(s, pos, 3);
            lemma_dec_enc_var_u32(s, pos + 1, d.score);
        },
    }
}

/// Encoding of one snapshot entity: payload, then its `NetId`.
pub open spec fn enc_entity(e: NetEntity) -> Seq<u8> {
    enc_entity_type(e.entity_type) + enc_var_u32(e.net_id.0 as u32)
}

/// Spec mirror of reading one snapshot entity.
pub open spec fn dec_entity(s: Seq<u8>, pos: int) -> Option<(NetEntity, int)> {
    match dec_entity_type(s, pos) {
        None => None,
        Some((t, p1)) => match dec_var_u32(s, p1) {
            None => None,
            Some((nid, p2)) => if nid <= 0xffff {
                Some((NetEntity { entity_type: t, net_id: NetId(nid as u16) }, p2))
            } else {
                None
            },
        },
    }
}

pub fn write_entity(out: &mut Vec<u8>, e: &NetEntity)
    ensures
        final(out)@ == old(out)@ + enc_entity(*e),
{
    write_entity_type(out, &e.entity_type);
    write_var_u32(out, e.net_id.0 as u32);
    assert(out@ =~= old(out)@ + enc_entity(*e));
}

pub fn read_entity(s: &[u8], pos: usize) -> (r: Option<(NetEntity, usize)>)
    ensures
        lift_pos(r) == dec_entity(s@, pos as int),
{
    match read_entity_type(s, pos) {
        None => None,
        Some((t, p1)) => match read_var_u32(s, p1) {
            None => None,
            Some((nid, p2)) => if nid <= 0xffff {
                Some((NetEntity { entity_type: t, net_id: NetId(nid as u16) }, p2))
            } else {
                None
            },
        },
    }
}

proof fn lemma_dec_enc_entity(s: Seq<u8>, pos: int, e: NetEntity)
    requires
        0 <= pos,
        pos + enc_entity(e).len() <= s.len(),
        s.subrange(pos, pos + enc_entity(e).len() as int) == enc_entity(e),
    ensures
        dec_entity(s, pos) == Some((e, pos + enc_entity(e).len() as int)),
{
    let e1 = enc_entity_type(e.entity_type);
    let e2 = enc_var_u32(e.net_id.0 as u32);
    lemma_parts2(s, pos, e1, e2);
    lemma_dec_enc_entity_type(s, pos, e.entity_type);
    lemma_dec_enc_var_u32(s, pos + e1.len(), e.net_id.0 as u32);
}

// ---------------------------------------------------------- entity list --

/// Encoding of a run of entities, first to last.
pub open spec fn enc_entity_seq(es: Seq<NetEntity>) -> Seq<u8>
    decreases es.len(),
{
    if es.len() == 0 {
        Seq::empty()
    } else {
        enc_entity(es[0]) + enc_entity_seq(es.drop_first())
    }
}

/// Spec mirror of reading `n` entities in a row.
pub open spec fn dec_entity_seq(s: Seq<u8>, pos: int, n: nat) -> Option<(Seq<NetEntity>, int)>
    decreases n,
{
    if n == 0 {
        Some((Seq::empty(), pos))
    } else {
        match dec_entity(s, pos) {
            None => None,
            Some((e, p1)) => match dec_entity_seq(s, p1, (n - 1) as nat) {
                None => None,
                Some((rest, p2)) => Some((seq![e] + rest, p2)),
            },
        }
    }
}

pub fn write_entity_seq(out: &mut Vec<u8>, es: &Vec<NetEntity>, from: usize)
    requires
        from <= es.len(),
    ensures
        final(out)@ == old(out)@ + enc_entity_seq(es@.skip(from as int)),
    decreases es.len() - from,
{
    if from < es.len() {
        write_entity(out, &es[from]);
        write_entity_seq(out, es, from + 1);
        proof {
            let tail = es@.skip(from as int);
            assert(tail[0] == es@[from as int]);
            assert(tail.drop_first() =~= es@.skip(from as int + 1));
            assert(enc_entity_seq(tail) == enc_entity(es@[from as int]) + enc_entity_seq(
                es@.skip(from as int + 1),
            ));
            assert(out@ =~= old(out)@ + enc_entity_seq(tail));
        }
    } else {
        proof {
            assert(es@.skip(from as int) =~= Seq::<NetEntity>::empty());
            assert(out@ =~= old(out)@ + enc_entity_seq(es@.skip(from as int)));
        }
    }
}

pub fn read_entity_seq(s: &[u8], pos: usize, n: u32) -> (r: Option<(Vec<NetEntity>, usize)>)
    ensures
        match r {
            Some((v, p)) => dec_entity_seq(s@, pos as int, n as nat) == Some((v@, p as int)),
            None => dec_entity_seq(s@, pos as int, n as nat) is None,
        },
    decreases n,
{
    if n == 0 {
        Some((Vec::new(), pos))
    } else {
        match read_entity(s, pos) {
            None => None,
            Some((e, p1)) => match read_entity_seq(s, p1, n - 1) {
                None => None,
                Some((mut v, p2)) => {
                    let ghost rest = v@;
                    v.insert(0, e);
                    proof {
                        assert(v@ =~= seq![e] + rest);
                    }
                    Some((v, p2))
                },
            },
        }
    }
}

proof fn lemma_dec_enc_entity_seq(s: Seq<u8>, pos: int, es: Seq<NetEntity>)
    requires
        0 <= pos,
        pos + enc_entity_seq(es).len() <= s.len(),
        s.subrange(pos, pos + enc_entity_seq(es).len() as int) == enc_entity_seq(es),
    ensures
        dec_entity_seq(s, pos, es.len()) == Some((es, pos + enc_entity_seq(es).len() as int)),
    decreases es.len(),
{
    if es.len() == 0 {
        assert(es =~= Seq::<NetEntity>::empty());
    } else {
        let e1 = enc_entity(es[0]);
        let e2 = enc_entity_seq(es.drop_first());
        lemma_parts2(s, pos, e1, e2);
        lemma_dec_enc_entity(s, pos, es[0]);
        lemma_dec_enc_entity_seq(s, pos + e1.len(), es.drop_first());
        assert(seq![es[0]] + es.drop_first() =~= es);
    }
}

// ------------------------------------------------------------ snapshots --

/// Encoding of a full snapshot: frame, entity count, entities.
pub open spec fn enc_world_state(w: WorldStateModel) -> Seq<u8> {
    enc_var_u32(w.frame) + enc_var_u32(w.entities.len() as u32) + enc_entity_seq(w.entities)
}

/// Spec mirror of reading a full snapshot.
pub open spec fn dec_world_state(s: Seq<u8>, pos: int) -> Option<(WorldStateModel, int)> {
    match dec_var_u32(s, pos) {
        None => None,
        Some((frame, p1)) => match dec_var_u32(s, p1) {
            None => None,
            Some((n, p2)) => match dec_entity_seq(s, p2, n as nat) {
                None => None,
                Some((es, p3)) => Some((WorldStateModel { frame, entities: es }, p3)),
            },
        },
    }
}

pub fn write_world_state(out: &mut Vec<u8>, w: &NetWorldStateData)
    requires
        w.entities@.len() <= 0xffff_ffff,
    ensures
        final(out)@ == old(out)@ + enc_world_state(w@),
{
    write_var_u32(out, w.frame);
    write_var_u32(out, w.entities.len() as u32);
    write_entity_seq(out, &w.entities, 0);
    proof {
        assert(w.entities@.skip(0) =~= w.entities@);
        assert(out@ =~= old(out)@ + enc_world_state(w@));
    }
}

pub fn read_world_state(s: &[u8], pos: usize) -> (r: Option<(NetWorldStateData, usize)>)
    ensures
        match r {
            Some((w, p)) => dec_world_state(s@, pos as int) == Some((w@, p as int)),
            None => dec_world_state(s@, pos as int) is None,
        },
{
    match read_var_u32(s, pos) {
        None => None,
        Some((frame, p1)) => match read_var_u32(s, p1) {
            None => None,
            Some((n, p2)) => match read_entity_seq(s, p2, n) {
                None => None,
                Some((es, p3)) => Some((NetWorldStateData { frame, entities: es }, p3)),
            },
        },
    }
}

proof fn lemma_dec_enc_world_state(s: Seq<u8>, pos: int, w: WorldStateModel)
    requires
        0 <= pos,
        w.entities.len() <= 0xffff_ffff,
        pos + enc_world_state(w).len() <= s.len(),
        s.subrange(pos, pos + enc_world_state(w).len() as int) == enc_world_state(w),
    ensures
        dec_world_state(s, pos) == Some((w, pos + enc_world_state(w).len() as int)),
{
    let e1 = enc_var_u32(w.frame);
    let e2 = enc_var_u32(w.entities.len() as u32);
    let e3 = enc_entity_seq(w.entities);
    assert(enc_world_state(w) == (e1 + e2) + e3);
    assert(s.subrange(pos, pos + (e1 + e2).len() + e3.len()) == (e1 + e2) + e3);
    lemma_parts2(s, pos, e1 + e2, e3);
    lemma_parts2(s, pos, e1, e2);
    lemma_dec_enc_var_u32(s, pos, w.frame);
    lemma_dec_enc_var_u32(s, pos + e1.len(), w.entities.len() as u32);
    lemma_dec_enc_entity_seq(s, pos + e1.len() + e2.len(), w.entities);
    assert((w.entities.len() as u32) as nat == w.entities.len());
}

// -------------------------------------------------------------- packets --

/// Encoding of a client-to-server packet: variant tag, then payload.
pub open spec fn enc_client_to_server(p: ClientToServerPacket) -> Seq<u8> {
    match p {
        ClientToServerPacket::Input(d) => enc_var_u32(0) + enc_input(d),
        ClientToServerPacket::Ping(d) => enc_var_u32(1) + enc_ping(d),
    }
}

/// Spec mirror of reading a client-to-server packet.
pub open spec fn dec_client_to_server(s: Seq<u8>, pos: int) -> Option<(
    ClientToServerPacket,
    int,
)> {
    match dec_var_u32(s, pos) {
        None => None,
        Some((tag, p1)) => if tag == 0 {
            match dec_input(s, p1) {
                None => None,
                Some((d, p2)) => Some((ClientToServerPacket::Input(d), p2)),
            }
        } else if tag == 1 {
            match dec_ping(s, p1) {
                None => None,
                Some((d, p2)) => Some((ClientToServerPacket::Ping(d), p2)),
            }
        } else {
            None
        },
    }
}

/// Encoding of a server-to-client packet: variant tag, then payload.
pub open spec fn enc_server_to_client(p: ServerToClientModel) -> Seq<u8> {
    match p {
        ServerToClientModel::WorldState(w) => enc_var_u32(0) + enc_world_state(w),
        ServerToClientModel::Pong(d) => enc_var_u32(1) + enc_ping(d),
    }
}

/// Spec mirror of reading a server-to-client packet.
pub open spec fn dec_server_to_client(s: Seq<u8>, pos: int) -> Option<(ServerToClientModel, int)> {
    match dec_var_u32(s, pos) {
        None => None,
        Some((tag, p1)) => if tag == 0 {
            match dec_world_state(s, p1) {
                None => None,
                Some((w, p2)) => Some((ServerToClientModel::WorldState(w), p2)),
            }
        } else if tag == 1 {
            match dec_ping(s, p1) {
                None => None,
                Some((d, p2)) => Some((ServerToClientModel::Pong(d), p2)),
            }
        } else {
            None
        },
    }
}

/// Serializes a client-to-server packet.
pub fn encode_client_to_server(p: &ClientToServerPacket) -> (r: Vec<u8>)
    ensures
        r@ == enc_client_to_server(*p),
{
    let mut out: Vec<u8> = Vec::new();
    match p {
        ClientToServerPacket::Input(d) => {
            write_var_u32(&mut out, 0);
            write_input(&mut out, d);
        },
        ClientToServerPacket::Ping(d) => {
            write_var_u32(&mut out, 1);
            write_ping(&mut out, d);
        },
    }
    assert(out@ =~= enc_client_to_server(*p));
    out
}

/// Parses a client-to-server packet; returns it with the number of bytes
/// consumed, or `None` on any malformed input.
pub fn decode_client_to_server(s: &[u8]) -> (r: Option<(ClientToServerPacket, usize)>)
    ensures
        lift_pos(r) == dec_client_to_server(s@, 0),
{
    match read_var_u32(s, 0) {
        None => None,
        Some((tag, p1)) => if tag == 0 {
            match read_input(s, p1) {
                None => None,
                Some((d, p2)) => Some((ClientToServerPacket::Input(d), p2)),
            }
        } else if tag == 1 {
            match read_ping(s, p1) {
                None => None,
                Some((d, p2)) => Some((ClientToServerPacket::Ping(d), p2)),
            }
        } else {
            None
        },
    }
}

/// Serializes a server-to-client packet.
pub fn encode_server_to_client(p: &ServerToClientPacket) -> (r: Vec<u8>)
    requires
        p matches ServerToClientPacket::WorldState(w) ==> w.entities@.len() <= 0xffff_ffff,
    ensures
        r@ == enc_server_to_client(p@),
{
    let mut out: Vec<u8> = Vec::new();
    match p {
        ServerToClientPacket::WorldState(w) => {
            write_var_u32(&mut out, 0);
            write_world_state(&mut out, w);
        },
        ServerToClientPacket::Pong(d) => {
            write_var_u32(&mut out, 1);
            write_ping(&mut out, d);
        },
    }
    assert(out@ =~= enc_server_to_client(p@));
    out
}

/// Parses a server-to-client packet; returns it with the number of bytes
/// consumed, or `None` on any malformed input.
pub fn decode_server_to_client(s: &[u8]) -> (r: Option<(ServerToClientPacket, usize)>)
    ensures
        match r {
            Some((p, n)) => dec_server_to_client(s@, 0) == Some((p@, n as int)),
            None => dec_server_to_client(s@, 0) is None,
        },
{
    match read_var_u32(s, 0) {
        None => None,
        Some((tag, p1)) => if tag == 0 {
            match read_world_state(s, p1) {
                None => None,
                Some((w, p2)) => Some((ServerToClientPacket::WorldState(w), p2)),
            }
        } else if tag == 1 {
            match read_ping(s, p1) {
                None => None,
                Some((d, p2)) => Some((ServerToClientPacket::Pong(d), p2)),
            }
        } else {
            None
        },
    }
}

// ------------------------------------------------------------ round trip --

/// Codec round trip, client-to-server family: decoding an encoded packet
/// yields the packet back, having consumed exactly its bytes.
pub proof fn lemma_client_to_server_round_trip(p: ClientToServerPacket)
    ensures
        dec_client_to_server(enc_client_to_server(p), 0) == Some(
            (p, enc_client_to_server(p).len() as int),
        ),
{
    let s = enc_client_to_server(p);
    assert(s.subrange(0, s.len() as int) =~= s);
    match p {
        ClientToServerPacket::Input(d) => {
            lemma_parts2(s, 0, enc_var_u32(0), enc_input(d));
            lemma_dec_enc_var_u32(s, 0, 0);
            lemma_dec_enc_input(s, 1, d);
        },
        ClientToServerPacket::Ping(d) => {
            lemma_parts2(s, 0, enc_var_u32(1), enc_ping(d));
            lemma_dec_enc_var_u32(s, 0, 1);
            lemma_dec_enc_ping(s, 1, d);
        },
    }
}

/// Codec round trip, server-to-client family: decoding an encoded packet
/// yields the packet back, having consumed exactly its bytes. A snapshot's
/// entity count must fit the 32-bit length prefix.
pub proof fn lemma_server_to_client_round_trip(p: ServerToClientModel)
    requires
        p matches ServerToClientModel::WorldState(w) ==> w.entities.len() <= 0xffff_ffff,
    ensures
        dec_server_to_client(enc_server_to_client(p), 0) == Some(
            (p, enc_server_to_client(p).len() as int),
        ),
{
    let s = enc_server_to_client(p);
    assert(s.subrange(0, s.len() as int) =~= s);
    match p {
        ServerToClientModel::WorldState(w) => {
            lemma_parts2(s, 0, enc_var_u32(0), enc_world_state(w));
            lemma_dec_enc_var_u32(s, 0, 0);
            lemma_dec_enc_world_state(s, 1, w);
        },
        ServerToClientModel::Pong(d) => {
            lemma_parts2(s, 0, enc_var_u32(1), enc_ping(d));
            lemma_dec_enc_var_u32(s, 0, 1);
            lemma_dec_enc_ping(s, 1, d);
        },
    }
}

} // verus!
