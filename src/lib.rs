//! Software emulation of an I2C slave device on two bit-banged GPIO lines.
//!
//! The library holds the protocol engine as a pure state machine: it is fed
//! the level changes seen on SDA and SCL and answers with what to do on SDA.
//! Driving the pins and running the observer threads is left to the caller.
//!
//! - `pin_thread`: the events, one level change on SDA or SCL, and the
//!   observer step that reports them.
//! - `framing`: START, STOP and bytes out of events.
//! - `bit_layer`: the engine, its transition function and `BitLayer::step`.
//! - `protocol`: the register file the engine serves, as a trait and a
//!   growable in-memory implementation.
//! - `run`: the transition function folded over a sequence of events.
//! - `laws`: what a run over whole write and read transactions does.
use vstd::prelude::*;

pub mod bit_layer;
pub mod error;
pub mod framing;
pub mod laws;
pub mod pin_thread;
pub mod protocol;
pub mod run;
pub mod rw_bit;

pub use bit_layer::{AfterAck, BitLayer, EngineState, SdaCommand};
pub use error::{Error, HardwareError, PinError};
pub use framing::{ByteAssembler, ReadType};
pub use pin_thread::{Message, PinType};
pub use protocol::{validate_address_7b, I2CProtocol, ProtocolImplementation};
pub use rw_bit::{ReadWriteBit, RWBit};

verus! {

} // verus!
