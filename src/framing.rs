//! Framing: how level changes on SDA and SCL make START, STOP and bytes.
use vstd::prelude::*;
use crate::pin_thread::{is_high, Message, PinType};

verus! {

/// What a run of events on the bus amounts to once it is complete.
#[derive(Clone, Copy, PartialEq, Eq, Structural, Debug)]
pub enum ReadType {
    /// SDA fell while SCL was high: START or repeated START.
    Start,
    /// SDA rose while SCL was high: STOP.
    Stop,
    /// Eight data bits, most significant first.
    Data(u8),
}

/// The bits of a byte sampled so far, most significant first.
#[derive(Clone, Copy, PartialEq, Eq, Structural, Debug)]
pub struct ByteAssembler {
    pub value: u8,
    pub bits: u8,
}

/// An assembler that has not sampled any bit.
pub open spec fn empty_assembler() -> ByteAssembler {
    ByteAssembler { value: 0, bits: 0 }
}

/// An SDA falling edge while SCL is high.
pub open spec fn is_start(m: Message, other: u8) -> bool {
    m.pin_type == PinType::Sda && !is_high(m.value) && is_high(other)
}

/// An SDA rising edge while SCL is high.
pub open spec fn is_stop(m: Message, other: u8) -> bool {
    m.pin_type == PinType::Sda && is_high(m.value) && is_high(other)
}

/// A rising edge of SCL: the moment SDA is sampled.
pub open spec fn is_scl_rising(m: Message) -> bool {
    m.pin_type == PinType::Scl && is_high(m.value)
}

/// A falling edge of SCL: the moment SDA may change.
pub open spec fn is_scl_falling(m: Message) -> bool {
    m.pin_type == PinType::Scl && !is_high(m.value)
}

/// The bit that a sampled level stands for.
pub open spec fn level_bit(level: u8) -> u8 {
    if is_high(level) {
        1
    } else {
        0
    }
}

/// `value` with one more bit shifted in at the low end.
pub open spec fn shift_in(value: u8, bit: u8) -> u8 {
    ((value << 1u8) | bit) as u8
}

/// How one event advances the assembler. `other` is the level of the other
/// line, read when the event was taken. A framing condition drops the bits
/// collected so far; the eighth sampled bit completes a byte.
pub open spec fn receive_spec(acc: ByteAssembler, m: Message, other: u8) -> (ByteAssembler, Option<ReadType>) {
    if is_start(m, other) {
        (empty_assembler(), Some(ReadType::Start))
    } else if is_stop(m, other) {
        (empty_assembler(), Some(ReadType::Stop))
    } else if is_scl_rising(m) {
        let v = shift_in(acc.value, level_bit(other));
        if acc.bits >= 7 {
            (empty_assembler(), Some(ReadType::Data(v)))
        } else {
            (ByteAssembler { value: v, bits: (acc.bits + 1) as u8 }, None)
        }
    } else {
        (acc, None)
    }
}

/// A change of SDA while SCL is high is a framing condition, never data:
/// falling is START, rising is STOP, and the bits sampled so far are dropped.
pub proof fn lemma_sda_edge_with_scl_high_is_framing(acc: ByteAssembler, m: Message, other: u8)
    requires
        m.pin_type == PinType::Sda,
        is_high(other),
    ensures
        receive_spec(acc, m, other) == (empty_assembler(), Some(
            if is_high(m.value) {
                ReadType::Stop
            } else {
                ReadType::Start
            },
        )),
{
}

impl ByteAssembler {
    /// An assembler that has not sampled any bit.
    pub fn new() -> (r: ByteAssembler)
        ensures
            r == empty_assembler(),
    {
        ByteAssembler { value: 0, bits: 0 }
    }

    /// Whether the assembler is in a state it can reach: fewer than eight bits.
    pub open spec fn wf(self) -> bool {
        self.bits < 8
    }

    /// Feeds one event; returns the assembler after it and the START, STOP
    /// or byte that the event completed, if any.
    pub fn receive(self, message: Message, other_level: u8) -> (r: (ByteAssembler, Option<ReadType>))
        ensures
            r == receive_spec(self, message, other_level),
            self.wf() ==> r.0.wf(),
    {
        match message.pin_type {
            PinType::Sda => {
                if other_level != 0 {
                    if message.value == 0 {
                        (ByteAssembler::new(), Some(ReadType::Start))
                    } else {
                        (ByteAssembler::new(), Some(ReadType::Stop))
                    }
                } else {
                    (self, None)
                }
            },
            PinType::Scl => {
                if message.value != 0 {
                    let bit: u8 = if other_level != 0 { 1 } else { 0 };
                    let v: u8 = (self.value << 1u8) | bit;
                    if self.bits >= 7 {
                        (ByteAssembler::new(), Some(ReadType::Data(v)))
                    } else {
                        (ByteAssembler { value: v, bits: self.bits + 1 }, None)
                    }
                } else {
                    (self, None)
                }
            },
        }
    }
}

} // verus!
