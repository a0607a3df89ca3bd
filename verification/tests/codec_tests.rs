//! Codec round trips over concrete packets, and the header layout.

use breakout_netcode::codec::{
    decode_client_to_server, decode_server_to_client, encode_client_to_server,
    encode_server_to_client, read_i32x, read_var_u32, write_i32x, write_var_u32,
};
use breakout_netcode::consts::{HEADER_LEN, WORLD_PACKET_HEADER_TAG};
use breakout_netcode::header::{frame_packet, parse_header};
use breakout_netcode::types::{
    ClientToServerPacket, NetBallData, NetBrickData, NetEntity, NetEntityType, NetId,
    NetPaddleData, NetPlayerIndex, NetScoreData, NetWorldStateData, PingData, PlayerInputData,
    ServerToClientPacket, Vec2I,
};

#[test]
fn var_u32_round_trip_edges() {
    for x in [0u32, 1, 250, 251, 252, 65535, 65536, 0xdead_beef, u32::MAX] {
        let mut buf = Vec::new();
        write_var_u32(&mut buf, x);
        let (y, end) = read_var_u32(&buf, 0).unwrap();
        assert_eq!(y, x);
        assert_eq!(end, buf.len());
    }
}

#[test]
fn i32_round_trip_edges() {
    for x in [0i32, 1, -1, 83_333, -83_333, i32::MAX, i32::MIN] {
        let mut buf = Vec::new();
        write_i32x(&mut buf, x);
        let (y, end) = read_i32x(&buf, 0).unwrap();
        assert_eq!(y, x);
        assert_eq!(end, 4);
    }
}

#[test]
fn client_packet_round_trip() {
    let input = ClientToServerPacket::Input(PlayerInputData {
        key_mask: 0b01,
        simulating_frame: 7_000_000,
        sequence: 300,
    });
    let bytes = encode_client_to_server(&input);
    let (decoded, used) = decode_client_to_server(&bytes).unwrap();
    assert_eq!(decoded, input);
    assert_eq!(used, bytes.len());

    let ping = ClientToServerPacket::Ping(PingData { ping_id: 99_999 });
    let bytes = encode_client_to_server(&ping);
    let (decoded, used) = decode_client_to_server(&bytes).unwrap();
    assert_eq!(decoded, ping);
    assert_eq!(used, bytes.len());
}

fn sample_world() -> NetWorldStateData {
    NetWorldStateData {
        frame: 60_000,
        entities: vec![
            NetEntity {
                entity_type: NetEntityType::Brick(NetBrickData {
                    pos: Vec2I { x: -367_500, y: 45_000 },
                }),
                net_id: NetId(1),
            },
            NetEntity {
                entity_type: NetEntityType::Ball(NetBallData {
                    pos: Vec2I { x: 0, y: -50_000 },
                    velocity: Vec2I { x: 4_714, y: -4_714 },
                    player_index: NetPlayerIndex(0),
                }),
                net_id: NetId(58),
            },
            NetEntity {
                entity_type: NetEntityType::Paddle(NetPaddleData {
                    pos: Vec2I { x: -120_000, y: -240_000 },
                    player_index: NetPlayerIndex(0),
                }),
                net_id: NetId(57),
            },
            NetEntity {
                entity_type: NetEntityType::Score(NetScoreData { score: 3 }),
                net_id: NetId(0),
            },
        ],
    }
}

#[test]
fn server_packet_round_trip() {
    let snapshot = ServerToClientPacket::WorldState(sample_world());
    let bytes = encode_server_to_client(&snapshot);
    let (decoded, used) = decode_server_to_client(&bytes).unwrap();
    assert_eq!(decoded, snapshot);
    assert_eq!(used, bytes.len());

    let pong = ServerToClientPacket::Pong(PingData { ping_id: 4 });
    let bytes = encode_server_to_client(&pong);
    let (decoded, used) = decode_server_to_client(&bytes).unwrap();
    assert_eq!(decoded, pong);
    assert_eq!(used, bytes.len());
}

#[test]
fn decode_rejects_garbage() {
    assert!(decode_client_to_server(&[]).is_none());
    assert!(decode_client_to_server(&[9]).is_none());
    assert!(decode_server_to_client(&[2, 0, 0]).is_none());
}

#[test]
fn header_layout() {
    let body = encode_server_to_client(&ServerToClientPacket::Pong(PingData { ping_id: 1 }));
    let framed = frame_packet(0x1234_5678, 5, &body);
    // Bytes 0..4: big-endian magic.
    assert_eq!(&framed[0..4], &[0xba, 0x11, 0xba, 0x11]);
    assert_eq!(
        u32::from_be_bytes([framed[0], framed[1], framed[2], framed[3]]),
        WORLD_PACKET_HEADER_TAG
    );
    // Bytes 4..8: big-endian last applied input.
    assert_eq!(&framed[4..8], &[0x12, 0x34, 0x56, 0x78]);
    // Byte 8: the recipient's player index.
    assert_eq!(framed[8], 5);
    // The body follows unchanged.
    assert_eq!(&framed[HEADER_LEN..], body.as_slice());
}

#[test]
fn header_parse_round_trip() {
    let body = [1u8, 2, 3];
    let framed = frame_packet(424_242, 9, &body);
    let (last_applied_input, player_index) = parse_header(&framed).unwrap();
    assert_eq!(last_applied_input, 424_242);
    assert_eq!(player_index, 9);
}

#[test]
fn header_rejects_bad_magic_and_short_packets() {
    let body = [1u8, 2, 3];
    let mut framed = frame_packet(1, 0, &body);
    framed[0] = 0x00;
    assert!(parse_header(&framed).is_none());
    // Header alone, no body byte: too short.
    let short = frame_packet(1, 0, &[]);
    assert!(parse_header(&short).is_none());
}
