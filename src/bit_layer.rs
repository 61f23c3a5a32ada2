//! The protocol engine: the I2C slave state machine, fed one level change
//! at a time.
use vstd::prelude::*;
use crate::error::Error;
use crate::framing::{
    empty_assembler, is_scl_falling, is_scl_rising, is_start, is_stop, receive_spec,
    ByteAssembler, ReadType,
};
use crate::pin_thread::{is_high, Message, PinType};
use crate::protocol::{stored_after_write, I2CProtocol};
use crate::rw_bit::{split_address_and_rw, RWBit};
use crate::run::{
    apply_event, lemma_run_append, lemma_run_results_append, lemma_run_results_single,
    lemma_run_single, matches_snapshot, run, run_results, snapshot_of, transition_at, Event,
};

verus! {

/// Where the engine goes once an acknowledge bit has been sent.
#[derive(Clone, Copy, PartialEq, Eq, Structural, Debug)]
pub enum AfterAck {
    /// The address byte of a write was acknowledged: the register pointer follows.
    RegisterPointer,
    /// The register pointer or a data byte was acknowledged: data follows.
    Data,
    /// The address byte of a read was acknowledged: the slave sends. This
    /// acknowledge, after a REPEATED START, is driven like every other one,
    /// on the SCL falling edge after the eighth bit, rather than at once: SDA
    /// then changes only while SCL is low. Its second falling edge puts bit 7
    /// of the first byte onto SDA in place of releasing it, so the byte
    /// starts on time.
    Serve,
}

/// The framing state of the engine.
#[derive(Clone, Copy, PartialEq, Eq, Structural, Debug)]
pub enum EngineState {
    /// Waiting for START.
    Idle,
    /// Sampling the address byte: seven address bits and the R/W bit.
    AwaitAddress(ByteAssembler),
    /// The master writes to us: sampling the register pointer byte.
    AddressMatchedWrite(ByteAssembler),
    /// Sampling data bytes for the current register.
    WritingRegisters(ByteAssembler),
    /// Sending an acknowledge bit: SDA is pulled low on the first SCL falling
    /// edge and let go (or given the first data bit) on the second.
    Ack { next: AfterAck, driven: bool },
    /// Sending `byte`: on each SCL falling edge the next of the `remaining`
    /// bits goes onto SDA; with none left SDA is released.
    WriteBit { byte: u8, remaining: u8 },
    /// A byte was sent: waiting for the master's ACK or NACK.
    AddressMatchedRead,
    /// The master ended a read with NACK: waiting for STOP or a new START.
    ReadDone,
}

/// What the engine asks of SDA after an event.
#[derive(Clone, Copy, PartialEq, Eq, Structural, Debug)]
pub enum SdaCommand {
    /// Leave SDA as it is.
    Keep,
    /// Drive SDA low.
    DriveLow,
    /// Let SDA go high through the pull-up.
    Release,
}

/// The outcome of one event, as a mathematical value.
pub struct Transition {
    pub state: EngineState,
    pub current_register: Option<usize>,
    pub command: SdaCommand,
    /// The register write that the event completes, if any.
    pub write: Option<(usize, u8)>,
    /// Whether the event is a framing condition where only data may stand.
    pub violation: bool,
}

/// Bit `index` of `byte`, counting from the least significant one.
pub open spec fn bit_of(byte: u8, index: u8) -> u8 {
    if index < 8 {
        (byte >> index) & 1u8
    } else {
        1
    }
}

/// The SDA command that puts bit `index` of `byte` on the open-drain line.
pub open spec fn bit_command(byte: u8, index: u8) -> SdaCommand {
    if bit_of(byte, index) == 0 {
        SdaCommand::DriveLow
    } else {
        SdaCommand::Release
    }
}

/// The register after `r`; the pointer wraps around at the top.
pub open spec fn next_register(r: usize) -> usize {
    if r == usize::MAX {
        0
    } else {
        (r + 1) as usize
    }
}

/// A transition to `state` that gives `command` and writes nothing.
pub open spec fn go(state: EngineState, cur: Option<usize>, command: SdaCommand) -> Transition {
    Transition { state, current_register: cur, command, write: None, violation: false }
}

/// The engine after the address byte `byte` was sampled.
pub open spec fn on_address(byte: u8, cur: Option<usize>, claims: spec_fn(u8) -> bool) -> Transition {
    if !claims(byte / 2) {
        go(EngineState::Idle, None, SdaCommand::Keep)
    } else if byte % 2 == 0 {
        go(EngineState::Ack { next: AfterAck::RegisterPointer, driven: false }, cur, SdaCommand::Keep)
    } else if cur is Some {
        go(EngineState::Ack { next: AfterAck::Serve, driven: false }, cur, SdaCommand::Keep)
    } else {
        go(EngineState::Idle, None, SdaCommand::Keep)
    }
}

/// How the engine answers one event. `other` is the level of the other line
/// read when the event was taken; `claims` and `stored` are the register
/// protocol's view before the event.
pub open spec fn transition(
    state: EngineState,
    cur: Option<usize>,
    m: Message,
    other: u8,
    claims: spec_fn(u8) -> bool,
    stored: spec_fn(usize) -> u8,
) -> Transition {
    match state {
        EngineState::Idle => {
            if is_start(m, other) {
                go(EngineState::AwaitAddress(empty_assembler()), None, SdaCommand::Keep)
            } else {
                go(state, cur, SdaCommand::Keep)
            }
        },
        EngineState::AwaitAddress(acc) => {
            let (a, unit) = receive_spec(acc, m, other);
            match unit {
                None => go(EngineState::AwaitAddress(a), cur, SdaCommand::Keep),
                Some(ReadType::Start) => go(EngineState::AwaitAddress(a), cur, SdaCommand::Keep),
                Some(ReadType::Stop) => go(EngineState::Idle, None, SdaCommand::Keep),
                Some(ReadType::Data(byte)) => on_address(byte, cur, claims),
            }
        },
        EngineState::AddressMatchedWrite(acc) => {
            let (a, unit) = receive_spec(acc, m, other);
            match unit {
                None => go(EngineState::AddressMatchedWrite(a), cur, SdaCommand::Keep),
                Some(ReadType::Data(byte)) => go(
                    EngineState::Ack { next: AfterAck::Data, driven: false },
                    Some(byte as usize),
                    SdaCommand::Keep,
                ),
                _ => Transition {
                    state: EngineState::Idle,
                    current_register: None,
                    command: SdaCommand::Keep,
                    write: None,
                    violation: true,
                },
            }
        },
        EngineState::WritingRegisters(acc) => {
            let (a, unit) = receive_spec(acc, m, other);
            match unit {
                None => go(EngineState::WritingRegisters(a), cur, SdaCommand::Keep),
                Some(ReadType::Start) => go(EngineState::AwaitAddress(a), cur, SdaCommand::Keep),
                Some(ReadType::Stop) => go(EngineState::Idle, None, SdaCommand::Keep),
                Some(ReadType::Data(byte)) => match cur {
                    Some(c) => Transition {
                        state: EngineState::Ack { next: AfterAck::Data, driven: false },
                        current_register: Some(next_register(c)),
                        command: SdaCommand::Keep,
                        write: Some((c, byte)),
                        violation: false,
                    },
                    None => go(EngineState::Ack { next: AfterAck::Data, driven: false }, cur, SdaCommand::Keep),
                },
            }
        },
        EngineState::Ack { next, driven } => {
            if !is_scl_falling(m) {
                go(state, cur, SdaCommand::Keep)
            } else if !driven {
                go(EngineState::Ack { next, driven: true }, cur, SdaCommand::DriveLow)
            } else {
                match next {
                    AfterAck::RegisterPointer => go(
                        EngineState::AddressMatchedWrite(empty_assembler()),
                        cur,
                        SdaCommand::Release,
                    ),
                    AfterAck::Data => go(
                        EngineState::WritingRegisters(empty_assembler()),
                        cur,
                        SdaCommand::Release,
                    ),
                    AfterAck::Serve => match cur {
                        Some(c) => go(
                            EngineState::WriteBit { byte: stored(c), remaining: 7 },
                            cur,
                            bit_command(stored(c), 7),
                        ),
                        None => go(EngineState::Idle, None, SdaCommand::Release),
                    },
                }
            }
        },
        EngineState::WriteBit { byte, remaining } => {
            if !is_scl_falling(m) {
                go(state, cur, SdaCommand::Keep)
            } else if remaining > 0 {
                go(
                    EngineState::WriteBit { byte, remaining: (remaining - 1) as u8 },
                    cur,
                    bit_command(byte, (remaining - 1) as u8),
                )
            } else {
                go(EngineState::AddressMatchedRead, cur, SdaCommand::Release)
            }
        },
        EngineState::AddressMatchedRead => {
            if !is_scl_rising(m) {
                go(state, cur, SdaCommand::Keep)
            } else if !is_high(other) && cur is Some {
                let n = next_register(cur->0);
                go(EngineState::WriteBit { byte: stored(n), remaining: 8 }, Some(n), SdaCommand::Keep)
            } else {
                go(EngineState::ReadDone, cur, SdaCommand::Keep)
            }
        },
        EngineState::ReadDone => {
            if is_start(m, other) {
                go(EngineState::AwaitAddress(empty_assembler()), cur, SdaCommand::Keep)
            } else if is_stop(m, other) {
                go(EngineState::Idle, None, SdaCommand::Keep)
            } else {
                go(state, cur, SdaCommand::Keep)
            }
        },
    }
}

/// The engine's invariant: a register pointer is set in every state that
/// reads or writes through it, none is set while idle, and the counters
/// stay in range.
pub open spec fn frame_wf(state: EngineState, cur: Option<usize>) -> bool {
    match state {
        EngineState::Idle => cur is None,
        EngineState::AwaitAddress(a) => a.wf(),
        EngineState::AddressMatchedWrite(a) => a.wf(),
        EngineState::WritingRegisters(a) => a.wf() && cur is Some,
        EngineState::Ack { next, driven } => next != AfterAck::RegisterPointer ==> cur is Some,
        EngineState::WriteBit { byte, remaining } => remaining <= 8 && cur is Some,
        EngineState::AddressMatchedRead => cur is Some,
        EngineState::ReadDone => true,
    }
}

/// Every transition keeps the invariant.
pub proof fn lemma_transition_wf(
    state: EngineState,
    cur: Option<usize>,
    m: Message,
    other: u8,
    claims: spec_fn(u8) -> bool,
    stored: spec_fn(usize) -> u8,
)
    requires
        frame_wf(state, cur),
    ensures
        frame_wf(
            transition(state, cur, m, other, claims, stored).state,
            transition(state, cur, m, other, claims, stored).current_register,
        ),
{
}

/// The slave changes SDA only on a falling edge of SCL, so SDA is stable
/// whenever SCL is high; and a change of SDA while SCL is high is never taken
/// as a data bit.
pub proof fn lemma_sda_changes_only_while_scl_low(
    state: EngineState,
    cur: Option<usize>,
    m: Message,
    other: u8,
    claims: spec_fn(u8) -> bool,
    stored: spec_fn(usize) -> u8,
)
    ensures
        transition(state, cur, m, other, claims, stored).command != SdaCommand::Keep ==> is_scl_falling(m),
        m.pin_type == PinType::Sda && is_high(other) ==> transition(state, cur, m, other, claims, stored).write is None,
{
}

/// A change of SDA seen while SCL is low changes nothing, in any state:
/// the engine ignores such events, whether the master or the slave itself
/// made them, and whether or not an observer reports them.
pub proof fn lemma_sda_while_scl_low_is_ignored(
    state: EngineState,
    cur: Option<usize>,
    m: Message,
    other: u8,
    claims: spec_fn(u8) -> bool,
    stored: spec_fn(usize) -> u8,
)
    requires
        m.pin_type == PinType::Sda,
        !is_high(other),
    ensures
        transition(state, cur, m, other, claims, stored) == go(state, cur, SdaCommand::Keep),
{
}

/// Whether `after` is the register protocol `before` with `write` applied.
pub open spec fn applies_write<P: I2CProtocol>(before: P, after: P, write: Option<(usize, u8)>) -> bool {
    match write {
        None => after == before,
        Some((register, data)) => {
            &&& forall|a: u8| #[trigger] after.claims(a) == before.claims(a)
            &&& forall|j: usize| #[trigger] after.keeps_writes(j) == before.keeps_writes(j)
            &&& forall|j: usize|
                #[trigger] after.stored(j) == stored_after_write(
                    before.stored(j),
                    j,
                    register,
                    data,
                    before.keeps_writes(register),
                )
        },
    }
}

/// What `step` hands back for a transition.
pub open spec fn step_result(t: Transition) -> Result<SdaCommand, Error> {
    if t.violation {
        Err(Error::UnexpectedSdaEdge)
    } else {
        Ok(t.command)
    }
}

/// A software I2C slave: the framing state machine over a register protocol.
pub struct BitLayer<P: I2CProtocol> {
    implementation: P,
    state: EngineState,
    current_register: Option<usize>,
    sda_num: u8,
    scl_num: u8,
}

impl<P: I2CProtocol> BitLayer<P> {
    pub closed spec fn spec_implementation(&self) -> P {
        self.implementation
    }

    pub closed spec fn spec_state(&self) -> EngineState {
        self.state
    }

    pub closed spec fn spec_current_register(&self) -> Option<usize> {
        self.current_register
    }

    pub closed spec fn spec_sda_num(&self) -> u8 {
        self.sda_num
    }

    pub closed spec fn spec_scl_num(&self) -> u8 {
        self.scl_num
    }

    /// The engine's invariant.
    pub open spec fn wf(&self) -> bool {
        frame_wf(self.spec_state(), self.spec_current_register())
    }

    /// The transition that `m` with the other line at `other` makes from here.
    pub open spec fn transition_on(&self, m: Message, other: u8) -> Transition {
        transition(
            self.spec_state(),
            self.spec_current_register(),
            m,
            other,
            |a: u8| self.spec_implementation().claims(a),
            |j: usize| self.spec_implementation().stored(j),
        )
    }

    /// `after` is this engine once `m` was handled, and `r` what was answered.
    pub open spec fn steps_to(&self, after: Self, m: Message, other: u8, r: Result<SdaCommand, Error>) -> bool {
        let t = self.transition_on(m, other);
        &&& after.spec_state() == t.state
        &&& after.spec_current_register() == t.current_register
        &&& applies_write(self.spec_implementation(), after.spec_implementation(), t.write)
        &&& after.spec_sda_num() == self.spec_sda_num()
        &&& after.spec_scl_num() == self.spec_scl_num()
        &&& r == step_result(t)
    }

    /// An engine over `implementation` on the given SDA and SCL pins, waiting
    /// for START with no current register.
    pub fn new(implementation: P, sda_num: u8, scl_num: u8) -> (r: Self)
        ensures
            r.spec_implementation() == implementation,
            r.spec_state() == EngineState::Idle,
            r.spec_current_register() == None::<usize>,
            r.spec_sda_num() == sda_num,
            r.spec_scl_num() == scl_num,
            r.wf(),
    {
        BitLayer { implementation, state: EngineState::Idle, current_register: None, sda_num, scl_num }
    }
}


/// The SDA command for bit `index` of `byte`.
fn bit_level(byte: u8, index: u8) -> (r: SdaCommand)
    ensures
        r == bit_command(byte, index),
{
    let bit: u8 = if index < 8 { (byte >> index) & 1 } else { 1 };
    if bit == 0 {
        SdaCommand::DriveLow
    } else {
        SdaCommand::Release
    }
}

/// The register after `r`, wrapping around at the top.
fn advance_register(r: usize) -> (n: usize)
    ensures
        n == next_register(r),
{
    if r == usize::MAX {
        0
    } else {
        r + 1
    }
}

impl<P: I2CProtocol> BitLayer<P> {
    /// The register protocol.
    pub fn implementation(&self) -> (r: &P)
        ensures
            *r == self.spec_implementation(),
    {
        &self.implementation
    }

    /// The framing state.
    pub fn state(&self) -> (r: EngineState)
        ensures
            r == self.spec_state(),
    {
        self.state
    }

    /// The register pointer, if one is set.
    pub fn current_register(&self) -> (r: Option<usize>)
        ensures
            r == self.spec_current_register(),
    {
        self.current_register
    }

    /// The GPIO number of SDA.
    pub fn sda_num(&self) -> (r: u8)
        ensures
            r == self.spec_sda_num(),
    {
        self.sda_num
    }

    /// The GPIO number of SCL.
    pub fn scl_num(&self) -> (r: u8)
        ensures
            r == self.spec_scl_num(),
    {
        self.scl_num
    }

    /// Gives the register protocol back.
    pub fn into_implementation(self) -> (r: P)
        ensures
            r == self.spec_implementation(),
    {
        self.implementation
    }

    /// Handles one event: the new `message` on a line, with `other_level` the
    /// level of the other line read right after it. Returns what to do with
    /// SDA, or `UnexpectedSdaEdge` where START or STOP came in place of the
    /// register pointer (the engine is then back in `Idle`).
    pub fn step(&mut self, message: Message, other_level: u8) -> (r: Result<SdaCommand, Error>)
        ensures
            old(self).steps_to(*final(self), message, other_level, r),
            old(self).wf() ==> final(self).wf(),
    {
        proof {
            if self.wf() {
                lemma_transition_wf(
                    self.state,
                    self.current_register,
                    message,
                    other_level,
                    |a: u8| self.implementation.claims(a),
                    |j: usize| self.implementation.stored(j),
                );
            }
        }
        match self.state {
            EngineState::Idle => {
                if message.pin_type == PinType::Sda && message.value == 0 && other_level != 0 {
                    self.state = EngineState::AwaitAddress(ByteAssembler::new());
                    self.current_register = None;
                }
                Ok(SdaCommand::Keep)
            },
            EngineState::AwaitAddress(_) | EngineState::AddressMatchedWrite(_)
            | EngineState::WritingRegisters(_) => self.read_data_or_signal(message, other_level),
            EngineState::Ack { .. } => self.ack(message),
            EngineState::WriteBit { .. } => self.write_byte(message),
            EngineState::AddressMatchedRead => self.check_ack(message, other_level),
            EngineState::ReadDone => {
                if message.pin_type == PinType::Sda && other_level != 0 {
                    if message.value == 0 {
                        self.state = EngineState::AwaitAddress(ByteAssembler::new());
                    } else {
                        self.state = EngineState::Idle;
                        self.current_register = None;
                    }
                }
                Ok(SdaCommand::Keep)
            },
        }
    }

    /// Feeds an event to the byte being sampled and acts on what it completes.
    fn read_data_or_signal(&mut self, message: Message, other_level: u8) -> (r: Result<SdaCommand, Error>)
        requires
            old(self).spec_state() is AwaitAddress || old(self).spec_state() is AddressMatchedWrite
                || old(self).spec_state() is WritingRegisters,
        ensures
            old(self).steps_to(*final(self), message, other_level, r),
    {
        let acc = match self.state {
            EngineState::AwaitAddress(a) => a,
            EngineState::AddressMatchedWrite(a) => a,
            EngineState::WritingRegisters(a) => a,
            _ => ByteAssembler::new(),
        };
        let (next, unit) = acc.receive(message, other_level);
        match self.state {
            EngineState::AwaitAddress(_) => match unit {
                None => {
                    self.state = EngineState::AwaitAddress(next);
                },
                Some(ReadType::Start) => {
                    self.state = EngineState::AwaitAddress(next);
                },
                Some(ReadType::Stop) => {
                    self.state = EngineState::Idle;
                    self.current_register = None;
                },
                Some(ReadType::Data(byte)) => {
                    let (address, rw) = split_address_and_rw(byte);
                    if !self.implementation.check_address(address) {
                        self.state = EngineState::Idle;
                        self.current_register = None;
                    } else if rw == RWBit::SlaveWrite {
                        self.state = EngineState::Ack { next: AfterAck::RegisterPointer, driven: false };
                    } else if self.current_register.is_some() {
                        self.state = EngineState::Ack { next: AfterAck::Serve, driven: false };
                    } else {
                        self.state = EngineState::Idle;
                        self.current_register = None;
                    }
                },
            },
            EngineState::AddressMatchedWrite(_) => match unit {
                None => {
                    self.state = EngineState::AddressMatchedWrite(next);
                },
                Some(ReadType::Data(byte)) => {
                    self.state = EngineState::Ack { next: AfterAck::Data, driven: false };
                    self.current_register = Some(byte as usize);
                },
                _ => {
                    self.state = EngineState::Idle;
                    self.current_register = None;
                    return Err(Error::UnexpectedSdaEdge);
                },
            },
            _ => match unit {
                None => {
                    self.state = EngineState::WritingRegisters(next);
                },
                Some(ReadType::Start) => {
                    self.state = EngineState::AwaitAddress(next);
                },
                Some(ReadType::Stop) => {
                    self.state = EngineState::Idle;
                    self.current_register = None;
                },
                Some(ReadType::Data(byte)) => {
                    self.state = EngineState::Ack { next: AfterAck::Data, driven: false };
                    if let Some(c) = self.current_register {
                        self.implementation.set_register(c, byte);
                        self.current_register = Some(advance_register(c));
                    }
                },
            },
        }
        Ok(SdaCommand::Keep)
    }

    /// Sends the acknowledge bit: SDA low on the first SCL falling edge, and on
    /// the second SDA is released, or given the first bit of the byte to send.
    fn ack(&mut self, message: Message) -> (r: Result<SdaCommand, Error>)
        requires
            old(self).spec_state() is Ack,
        ensures
            forall|other: u8| old(self).steps_to(*final(self), message, other, r),
    {
        let (next, driven) = match self.state {
            EngineState::Ack { next, driven } => (next, driven),
            _ => (AfterAck::Data, false),
        };
        if message.pin_type != PinType::Scl || message.value != 0 {
            return Ok(SdaCommand::Keep);
        }
        if !driven {
            self.state = EngineState::Ack { next, driven: true };
            return Ok(SdaCommand::DriveLow);
        }
        match next {
            AfterAck::RegisterPointer => {
                self.state = EngineState::AddressMatchedWrite(ByteAssembler::new());
                Ok(SdaCommand::Release)
            },
            AfterAck::Data => {
                self.state = EngineState::WritingRegisters(ByteAssembler::new());
                Ok(SdaCommand::Release)
            },
            AfterAck::Serve => match self.current_register {
                Some(c) => {
                    let byte = self.implementation.get_register(c);
                    self.state = EngineState::WriteBit { byte, remaining: 7 };
                    Ok(bit_level(byte, 7))
                },
                None => {
                    self.state = EngineState::Idle;
                    Ok(SdaCommand::Release)
                },
            },
        }
    }

    /// Puts the next bit of the byte being sent onto SDA at each SCL falling
    /// edge, and releases SDA after the last one.
    fn write_byte(&mut self, message: Message) -> (r: Result<SdaCommand, Error>)
        requires
            old(self).spec_state() is WriteBit,
        ensures
            forall|other: u8| old(self).steps_to(*final(self), message, other, r),
    {
        let (byte, remaining) = match self.state {
            EngineState::WriteBit { byte, remaining } => (byte, remaining),
            _ => (0, 0),
        };
        if message.pin_type != PinType::Scl || message.value != 0 {
            return Ok(SdaCommand::Keep);
        }
        if remaining > 0 {
            self.state = EngineState::WriteBit { byte, remaining: remaining - 1 };
            Ok(bit_level(byte, remaining - 1))
        } else {
            self.state = EngineState::AddressMatchedRead;
            Ok(SdaCommand::Release)
        }
    }

    /// Samples the master's answer to a sent byte on the SCL rising edge:
    /// ACK moves on to the next register, NACK ends the read.
    fn check_ack(&mut self, message: Message, other_level: u8) -> (r: Result<SdaCommand, Error>)
        requires
            old(self).spec_state() is AddressMatchedRead,
        ensures
            old(self).steps_to(*final(self), message, other_level, r),
    {
        if message.pin_type != PinType::Scl || message.value == 0 {
            return Ok(SdaCommand::Keep);
        }
        match self.current_register {
            Some(c) => {
                if other_level == 0 {
                    let n = advance_register(c);
                    let byte = self.implementation.get_register(n);
                    self.state = EngineState::WriteBit { byte, remaining: 8 };
                    self.current_register = Some(n);
                } else {
                    self.state = EngineState::ReadDone;
                }
            },
            None => {
                self.state = EngineState::ReadDone;
            },
        }
        Ok(SdaCommand::Keep)
    }
}


impl<P: I2CProtocol> BitLayer<P> {
    /// Handles `events` in order, as `step` does one at a time, and returns
    /// the answers in the same order. The engine ends where `run` from its
    /// snapshot ends, and the answers are exactly `run_results`: the run's
    /// command for each event, or `UnexpectedSdaEdge` where that event is a
    /// framing condition in place of the register pointer.
    pub fn feed(&mut self, events: &Vec<(Message, u8)>) -> (r: Vec<Result<SdaCommand, Error>>)
        ensures
            ({
                let claims = |a: u8| old(self).spec_implementation().claims(a);
                let keeps = |j: usize| old(self).spec_implementation().keeps_writes(j);
                let ran = run(snapshot_of(*old(self)), claims, keeps, events@);
                &&& matches_snapshot(*final(self), ran.0)
                &&& forall|a: u8| #[trigger] final(self).spec_implementation().claims(a) == old(self).spec_implementation().claims(a)
                &&& forall|j: usize| #[trigger] final(self).spec_implementation().keeps_writes(j) == old(self).spec_implementation().keeps_writes(j)
                &&& r@ == run_results(snapshot_of(*old(self)), claims, keeps, events@)
            }),
            final(self).spec_sda_num() == old(self).spec_sda_num(),
            final(self).spec_scl_num() == old(self).spec_scl_num(),
            old(self).wf() ==> final(self).wf(),
    {
        let ghost start = *self;
        let ghost claims = |a: u8| start.spec_implementation().claims(a);
        let ghost keeps = |j: usize| start.spec_implementation().keeps_writes(j);
        let mut out: Vec<Result<SdaCommand, Error>> = Vec::new();
        let mut i: usize = 0;
        proof {
            reveal_with_fuel(run, 1);
            reveal_with_fuel(run_results, 1);
            assert(events@.take(0) =~= Seq::<Event>::empty());
        }
        while i < events.len()
            invariant
                start == *old(self),
                claims == (|a: u8| start.spec_implementation().claims(a)),
                keeps == (|j: usize| start.spec_implementation().keeps_writes(j)),
                0 <= i <= events@.len(),
                out@.len() == i,
                matches_snapshot(*self, run(snapshot_of(start), claims, keeps, events@.take(i as int)).0),
                forall|a: u8| #[trigger] self.implementation.claims(a) == start.spec_implementation().claims(a),
                forall|j: usize| #[trigger] self.implementation.keeps_writes(j) == start.spec_implementation().keeps_writes(j),
                out@ == run_results(snapshot_of(start), claims, keeps, events@.take(i as int)),
                self.sda_num == start.sda_num,
                self.scl_num == start.scl_num,
                start.wf() ==> self.wf(),
            decreases events@.len() - i,
        {
            let (message, other_level) = events[i];
            let ghost before = *self;
            let ghost prefix = events@.take(i as int);
            let ghost ran = run(snapshot_of(start), claims, keeps, prefix);
            let answer = self.step(message, other_level);
            proof {
                let e = events@[i as int];
                assert(e == (message, other_level));
                assert(events@.take(i + 1) =~= prefix + seq![e]);
                lemma_run_append(snapshot_of(start), claims, keeps, prefix, seq![e]);
                lemma_run_single(ran.0, claims, keeps, e);
                lemma_run_results_append(snapshot_of(start), claims, keeps, prefix, seq![e]);
                lemma_run_results_single(ran.0, claims, keeps, e);
                let t1 = before.transition_on(message, other_level);
                let t2 = transition_at(ran.0, claims, e);
                assert((|a: u8| before.implementation.claims(a)) =~= claims);
                assert((|j: usize| before.implementation.stored(j)) =~= (|j: usize| ran.0.registers[j]));
                assert(t1 == t2);
                let next = apply_event(ran.0, claims, keeps, e);
                assert forall|j: usize| #[trigger] self.implementation.stored(j) == next.registers[j] by {
                    assert(before.implementation.stored(j) == ran.0.registers[j]);
                    match t1.write {
                        Some((reg, d)) => {
                            assert(before.implementation.keeps_writes(reg) == keeps(reg));
                            assert(ran.0.registers[reg] == before.implementation.stored(reg));
                        },
                        None => {},
                    }
                }
            }
            out.push(answer);
            i = i + 1;
        }
        proof {
            assert(events@.take(events@.len() as int) =~= events@);
        }
        out
    }
}

} // verus!
