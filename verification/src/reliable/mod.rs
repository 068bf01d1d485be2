//! Sliding-window reliable channel over BLE GATT.
//!
//! GATT writes without response and notifications may be lost. The channel
//! splits datagrams into fragments, numbers them modulo 16, keeps up to
//! six in flight, acknowledges cumulatively what arrived in order, keeps what
//! arrived ahead of its turn, and sends the oldest unacknowledged fragment
//! again when a timer runs out.
//!
//! `wire` is the format of messages, `reassembly` what becomes of datagrams,
//! `rto` and `stats` timing and telemetry. `model` says what each event makes
//! of a channel, `state` and `channel` implement it, and `send_loop` decides
//! what the sending task does. `upkeep` shows that the invariant holds at all
//! times; `receiving` and `sending` say of the fields alone what events do, and
//! `delivery`, `handover` and `sampling` what follows.

pub mod channel;
pub mod delivery;
pub mod handover;
pub mod model;
pub mod reassembly;
pub mod receiving;
pub mod rto;
pub mod sampling;
pub mod send_loop;
pub mod sending;
pub mod state;
pub mod stats;
pub mod upkeep;
pub mod wire;
