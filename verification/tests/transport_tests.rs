//! Send-queue behaviour: enqueueing, draining with filters, the loss
//! roll, and the heartbeat cadence.

use breakout_netcode::registry::PeerAddr;
use breakout_netcode::transport::{
    auto_heartbeat_system, HeartbeatTimer, MessageFilter, SimLatency, SimLatencyRollResult,
    SimLatencySetting, SimLoss, Transport,
};

fn test_addr() -> PeerAddr {
    // 127.0.0.1:3000
    PeerAddr { ip: 0x7f00_0001, port: 3000 }
}

fn heartbeat_payload() -> &'static [u8] {
    b""
}

fn test_payload() -> &'static [u8] {
    b"test"
}

fn create_test_transport() -> Transport {
    Transport::new(SimLatencySetting::default())
}

#[test]
fn test_send() {
    let mut transport = create_test_transport();

    transport.send(test_addr(), test_payload(), SimLatencyRollResult::NoOp);

    let packet = &transport.get_messages()[0];

    assert_eq!(transport.get_messages().len(), 1);
    assert_eq!(packet.payload, test_payload());
}

#[test]
fn test_has_messages() {
    let mut transport = create_test_transport();
    assert_eq!(transport.has_messages(), false);
    transport.send(test_addr(), test_payload(), SimLatencyRollResult::NoOp);
    assert_eq!(transport.has_messages(), true);
}

#[test]
fn test_drain_only_heartbeat_messages() {
    let mut transport = create_test_transport();

    let addr = test_addr();
    transport.send(addr, test_payload(), SimLatencyRollResult::NoOp);
    transport.send(addr, heartbeat_payload(), SimLatencyRollResult::NoOp);
    transport.send(addr, test_payload(), SimLatencyRollResult::NoOp);
    transport.send(addr, heartbeat_payload(), SimLatencyRollResult::NoOp);
    transport.send(addr, test_payload(), SimLatencyRollResult::NoOp);

    let heartbeat_filter = MessageFilter::PayloadIs(heartbeat_payload().to_vec());
    assert_eq!(transport.drain_messages_to_send(&heartbeat_filter, 0).len(), 2);
    // validate removal
    assert_eq!(transport.drain_messages_to_send(&heartbeat_filter, 0).len(), 0);
    assert_eq!(transport.drain_messages_to_send(&MessageFilter::Nothing, 0).len(), 0);
    assert_eq!(transport.drain_messages_to_send(&MessageFilter::All, 0).len(), 3);
    // validate removal
    assert_eq!(transport.drain_messages_to_send(&MessageFilter::All, 0).len(), 0);
}

#[test]
fn delayed_messages_wait_for_release_time() {
    let mut transport = Transport::new(SimLatencySetting {
        latency: SimLatency { base_ms: 50, jitter_stddev_ms: 0 },
        loss: SimLoss { loss_permille: 0 },
    });
    transport.send(test_addr(), b"a", SimLatencyRollResult::Delay(150));
    transport.send(test_addr(), b"b", SimLatencyRollResult::Delay(120));

    // Not due yet.
    assert_eq!(transport.drain_messages_to_send(&MessageFilter::All, 100).len(), 0);
    // One release slot due: send order preserved, "a" leaves first.
    let first = transport.drain_messages_to_send(&MessageFilter::All, 130);
    assert_eq!(first.len(), 1);
    assert_eq!(first[0].payload, b"a");
    // The later slot.
    let second = transport.drain_messages_to_send(&MessageFilter::All, 200);
    assert_eq!(second.len(), 1);
    assert_eq!(second[0].payload, b"b");
}

#[test]
fn full_loss_drops_every_packet() {
    let setting = SimLatencySetting {
        latency: SimLatency { base_ms: 0, jitter_stddev_ms: 0 },
        loss: SimLoss { loss_permille: 1000 },
    };
    let mut rng = rand::thread_rng();
    let mut transport = Transport::new(setting);
    for _ in 0..20 {
        let roll = setting.roll(&mut rng, 0, 0);
        assert!(matches!(roll, SimLatencyRollResult::Drop));
        transport.send(test_addr(), test_payload(), roll);
    }
    assert_eq!(transport.has_messages(), false);
    assert_eq!(transport.drain_messages_to_send(&MessageFilter::All, 1000).len(), 0);
}

#[test]
fn no_profile_rolls_noop() {
    let setting = SimLatencySetting::default();
    let mut rng = rand::thread_rng();
    let roll = setting.roll(&mut rng, 25, 10);
    assert!(matches!(roll, SimLatencyRollResult::NoOp));
}

#[test]
fn latency_profile_rolls_delay_with_sample() {
    let setting = SimLatencySetting {
        latency: SimLatency { base_ms: 40, jitter_stddev_ms: 5 },
        loss: SimLoss { loss_permille: 0 },
    };
    let mut rng = rand::thread_rng();
    let roll = setting.roll(&mut rng, 42, 1000);
    assert!(matches!(roll, SimLatencyRollResult::Delay(1042)));
    // A non-positive sample releases immediately.
    let roll = setting.roll(&mut rng, -3, 1000);
    assert!(matches!(roll, SimLatencyRollResult::Delay(1000)));
}

#[test]
fn heartbeat_fires_on_cadence() {
    let mut timer = HeartbeatTimer::new();
    let mut transport = create_test_transport();
    let addr = test_addr();

    // 1999 ms in: nothing yet.
    let fired = auto_heartbeat_system(
        &mut timer,
        1999,
        addr,
        &mut transport,
        SimLatencyRollResult::NoOp,
    );
    assert!(!fired);
    assert!(!transport.has_messages());

    // One more millisecond: the heartbeat goes out, and it is empty.
    let fired = auto_heartbeat_system(
        &mut timer,
        1,
        addr,
        &mut transport,
        SimLatencyRollResult::NoOp,
    );
    assert!(fired);
    let drained = transport.drain_messages_to_send(&MessageFilter::All, 0);
    assert_eq!(drained.len(), 1);
    assert_eq!(drained[0].payload.len(), 0);
    assert_eq!(drained[0].destination, addr);
}
