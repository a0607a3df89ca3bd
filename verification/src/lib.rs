//! Authoritative client-server netcode core for a cooperative multi-paddle
//! Breakout game.
//!
//! The crate covers the wire protocol (packet codec and the fixed world-state
//! header), the server's connection registry, jitter-absorbing input buffer
//! and simulation tick, and the client's snapshot interpolation and
//! prediction/reconciliation pipeline. Geometry runs on fixed-point
//! coordinates: positions and velocities are integers counted in
//! thousandths of a world unit, so every step of the simulation is exact
//! and deterministic on both ends of the connection.
//!
//! Socket I/O, rendering and wall-clock access live outside the crate; the
//! functions here take plain values (peer keys, millisecond timestamps,
//! received datagrams) and return plain values (datagrams to send, events).

pub mod consts;
pub mod types;
pub mod codec;
pub mod header;
pub mod sim;
pub mod server_types;
pub mod input_buffer;
pub mod registry;
pub mod events;
pub mod transport;
pub mod rng;
pub mod server;
pub mod client;
