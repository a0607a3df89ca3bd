//! The fixed 9-byte header that opens every server-to-client datagram:
//! a big-endian magic tag, the acknowledged input sequence, and the
//! recipient's player index. The body follows unchanged, so the server can
//! serialize one snapshot and stamp a per-client header on each copy.

use vstd::prelude::*;
use vstd::slice::{slice_subrange, slice_to_vec};
use crate::consts::{HEADER_LEN, WORLD_PACKET_HEADER_TAG};

verus! {

/// Big-endian byte form of a `u32`.
pub open spec fn be_bytes_u32(x: u32) -> Seq<u8> {
    seq![
        (x >> 24) as u8,
        ((x >> 16) & 0xff) as u8,
        ((x >> 8) & 0xff) as u8,
        (x & 0xff) as u8,
    ]
}

/// The `u32` carried by four big-endian bytes.
pub open spec fn u32_from_be(b0: u8, b1: u8, b2: u8, b3: u8) -> u32 {
    ((b0 as u32) << 24) | ((b1 as u32) << 16) | ((b2 as u32) << 8) | (b3 as u32)
}

/// Reassembling the four big-endian bytes of `x` gives `x` back.
pub proof fn lemma_be_bytes_u32_round_trip(x: u32)
    ensures
        u32_from_be(
            be_bytes_u32(x)[0],
            be_bytes_u32(x)[1],
            be_bytes_u32(x)[2],
            be_bytes_u32(x)[3],
        ) == x,
{
    let b0 = (x >> 24) as u8;
    let b1 = ((x >> 16) & 0xff) as u8;
    let b2 = ((x >> 8) & 0xff) as u8;
    let b3 = (x & 0xff) as u8;
    assert((((x >> 24) as u8 as u32) << 24) | ((((x >> 16) & 0xff) as u8 as u32) << 16) | ((((x
        >> 8) & 0xff) as u8 as u32) << 8) | ((x & 0xff) as u8 as u32) == x) by (bit_vector);
    assert(((b0 as u32) << 24) | ((b1 as u32) << 16) | ((b2 as u32) << 8) | (b3 as u32) == x);
}

/// The header in front of a body sent to one client: magic tag, that
/// client's last applied input sequence, that client's player index.
pub open spec fn header_bytes(last_applied_input: u32, player_index: u8) -> Seq<u8> {
    be_bytes_u32(WORLD_PACKET_HEADER_TAG) + be_bytes_u32(last_applied_input) + seq![player_index]
}

fn push_be_u32(out: &mut Vec<u8>, x: u32)
    ensures
        final(out)@ == old(out)@ + be_bytes_u32(x),
{
    proof {
        assert(x >> 24 < 256 && (x >> 16) & 0xff < 256 && (x >> 8) & 0xff < 256 && x & 0xff
            < 256) by (bit_vector);
    }
    out.push((x >> 24) as u8);
    out.push(((x >> 16) & 0xff) as u8);
    out.push(((x >> 8) & 0xff) as u8);
    out.push((x & 0xff) as u8);
    assert(out@ =~= old(out)@ + be_bytes_u32(x));
}

/// Frames one datagram for one client: the 9-byte header, then the body.
/// Bytes 0..4 are the big-endian magic tag, bytes 4..8 the big-endian
/// acknowledged input sequence, byte 8 the recipient's player index.
pub fn frame_packet(last_applied_input: u32, player_index: u8, body: &[u8]) -> (r: Vec<u8>)
    ensures
        r@ == header_bytes(last_applied_input, player_index) + body@,
        r@.len() == HEADER_LEN + body@.len(),
        r@.subrange(0, 4) == be_bytes_u32(WORLD_PACKET_HEADER_TAG),
        r@.subrange(4, 8) == be_bytes_u32(last_applied_input),
        r@[8] == player_index,
        r@.skip(HEADER_LEN as int) == body@,
{
    let mut out: Vec<u8> = Vec::new();
    push_be_u32(&mut out, WORLD_PACKET_HEADER_TAG);
    push_be_u32(&mut out, last_applied_input);
    out.push(player_index);
    let mut copy = slice_to_vec(body);
    out.append(&mut copy);
    proof {
        assert(out@ =~= header_bytes(last_applied_input, player_index) + body@);
        assert(out@.subrange(0, 4) =~= be_bytes_u32(WORLD_PACKET_HEADER_TAG));
        assert(out@.subrange(4, 8) =~= be_bytes_u32(last_applied_input));
        assert(out@.skip(HEADER_LEN as int) =~= body@);
    }
    out
}

/// What a client accepts: at least one body byte behind the header, and
/// the magic tag in front.
pub open spec fn header_acceptable(s: Seq<u8>) -> bool {
    s.len() >= HEADER_LEN + 1 && s.subrange(0, 4) == be_bytes_u32(WORLD_PACKET_HEADER_TAG)
}

/// Splits a received datagram into the header fields and the body offset.
/// Datagrams shorter than header plus one body byte, or with a mismatched
/// magic tag, are rejected.
pub fn parse_header(s: &[u8]) -> (r: Option<(u32, u8)>)
    ensures
        r is Some <==> header_acceptable(s@),
        r matches Some((last_applied_input, player_index)) ==> {
            &&& last_applied_input == u32_from_be(s@[4], s@[5], s@[6], s@[7])
            &&& player_index == s@[8]
        },
{
    if s.len() < HEADER_LEN + 1 {
        return None;
    }
    let tag = read_be_u32(s, 0);
    proof {
        lemma_be_bytes_u32_round_trip(WORLD_PACKET_HEADER_TAG);
        if s@.subrange(0, 4) == be_bytes_u32(WORLD_PACKET_HEADER_TAG) {
            assert(s@[0] == be_bytes_u32(WORLD_PACKET_HEADER_TAG)[0]);
            assert(s@[1] == be_bytes_u32(WORLD_PACKET_HEADER_TAG)[1]);
            assert(s@[2] == be_bytes_u32(WORLD_PACKET_HEADER_TAG)[2]);
            assert(s@[3] == be_bytes_u32(WORLD_PACKET_HEADER_TAG)[3]);
        }
    }
    if tag != WORLD_PACKET_HEADER_TAG {
        proof {
            if header_acceptable(s@) {
                assert(s@[0] == s@.subrange(0, 4)[0]);
                assert(s@[1] == s@.subrange(0, 4)[1]);
                assert(s@[2] == s@.subrange(0, 4)[2]);
                assert(s@[3] == s@.subrange(0, 4)[3]);
            }
        }
        return None;
    }
    proof {
        lemma_byte_split(s@, tag);
    }
    let last_applied_input = read_be_u32(s, 4);
    let player_index = s[8];
    Some((last_applied_input, player_index))
}

/// When the first four bytes of `s` reassemble to the magic tag, `s`
/// starts with the tag's byte form.
proof fn lemma_byte_split(s: Seq<u8>, tag: u32)
    requires
        s.len() >= 4,
        tag == u32_from_be(s[0], s[1], s[2], s[3]),
        tag == WORLD_PACKET_HEADER_TAG,
    ensures
        s.subrange(0, 4) == be_bytes_u32(WORLD_PACKET_HEADER_TAG),
{
    let b0 = s[0];
    let b1 = s[1];
    let b2 = s[2];
    let b3 = s[3];
    assert(((b0 as u32) << 24) | ((b1 as u32) << 16) | ((b2 as u32) << 8) | (b3 as u32)
        == 0xba11_ba11u32 ==> b0 == 0xbau8 && b1 == 0x11u8 && b2 == 0xbau8 && b3
        == 0x11u8) by (bit_vector);
    assert((0xba11_ba11u32 >> 24) as u8 == 0xbau8 && ((0xba11_ba11u32 >> 16) & 0xff) as u8
        == 0x11u8 && ((0xba11_ba11u32 >> 8) & 0xff) as u8 == 0xbau8 && (0xba11_ba11u32
        & 0xff) as u8 == 0x11u8) by (bit_vector);
    assert(s.subrange(0, 4) =~= be_bytes_u32(WORLD_PACKET_HEADER_TAG));
}

/// Reads four big-endian bytes at `pos`.
fn read_be_u32(s: &[u8], pos: usize) -> (r: u32)
    requires
        pos + 4 <= s@.len(),
    ensures
        r == u32_from_be(s@[pos as int], s@[pos as int + 1], s@[pos as int + 2], s@[pos as int
            + 3]),
{
    let b0 = s[pos];
    let b1 = s[pos + 1];
    let b2 = s[pos + 2];
    let b3 = s[pos + 3];
    proof {
        assert(((b0 as u32) << 24) <= 0xff00_0000 && ((b1 as u32) << 16) <= 0xff_0000 && ((
        b2 as u32) << 8) <= 0xff00) by (bit_vector);
    }
    ((b0 as u32) << 24) | ((b1 as u32) << 16) | ((b2 as u32) << 8) | (b3 as u32)
}

/// The header round trip: a framed packet is accepted by `parse_header`
/// and hands back exactly the fields it was stamped with.
pub proof fn lemma_header_round_trip(last_applied_input: u32, player_index: u8, body: Seq<u8>)
    requires
        body.len() >= 1,
    ensures
        header_acceptable(header_bytes(last_applied_input, player_index) + body),
        ({
            let s = header_bytes(last_applied_input, player_index) + body;
            &&& u32_from_be(s[4], s[5], s[6], s[7]) == last_applied_input
            &&& s[8] == player_index
            &&& s.skip(HEADER_LEN as int) == body
        }),
{
    let s = header_bytes(last_applied_input, player_index) + body;
    assert(s.subrange(0, 4) =~= be_bytes_u32(WORLD_PACKET_HEADER_TAG));
    lemma_be_bytes_u32_round_trip(last_applied_input);
    assert(s[4] == be_bytes_u32(last_applied_input)[0]);
    assert(s[5] == be_bytes_u32(last_applied_input)[1]);
    assert(s[6] == be_bytes_u32(last_applied_input)[2]);
    assert(s[7] == be_bytes_u32(last_applied_input)[3]);
    assert(s.skip(HEADER_LEN as int) =~= body);
}

} // verus!
