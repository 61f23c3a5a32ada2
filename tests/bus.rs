use i2c_emulation::{
    validate_address_7b, BitLayer, ByteAssembler, EngineState, Error, HardwareError,
    I2CProtocol, Message, PinError, PinType, ProtocolImplementation, RWBit, ReadType,
    ReadWriteBit, SdaCommand,
};
use i2c_emulation::pin_thread::observe;
use i2c_emulation::rw_bit::split_address_and_rw;

/// A master and the wired-AND bus between it and the engine.
struct Bus {
    engine: BitLayer<ProtocolImplementation>,
    scl: u8,
    master_sda: u8,
    slave_low: bool,
    drove_low: bool,
    errors: usize,
}

impl Bus {
    fn new(address: u8, registers: Vec<u8>) -> Bus {
        Bus {
            engine: BitLayer::new(ProtocolImplementation::new(address, registers), 6, 5),
            scl: 1,
            master_sda: 1,
            slave_low: false,
            drove_low: false,
            errors: 0,
        }
    }

    fn sda(&self) -> u8 {
        if self.master_sda == 1 && !self.slave_low {
            1
        } else {
            0
        }
    }

    fn feed(&mut self, pin_type: PinType, value: u8, other: u8) {
        let before = self.sda();
        match self.engine.step(Message::new(pin_type, value), other) {
            Ok(SdaCommand::Keep) => {}
            Ok(SdaCommand::DriveLow) => {
                self.slave_low = true;
                self.drove_low = true;
            }
            Ok(SdaCommand::Release) => self.slave_low = false,
            Err(Error::UnexpectedSdaEdge) => self.errors += 1,
            Err(_) => panic!("unexpected error"),
        }
        let after = self.sda();
        if after != before {
            let scl = self.scl;
            self.feed(PinType::Sda, after, scl);
        }
    }

    fn set_scl(&mut self, v: u8) {
        self.scl = v;
        let sda = self.sda();
        self.feed(PinType::Scl, v, sda);
    }

    fn set_sda(&mut self, v: u8) {
        let before = self.sda();
        self.master_sda = v;
        let after = self.sda();
        if after != before {
            let scl = self.scl;
            self.feed(PinType::Sda, after, scl);
        }
    }

    fn start(&mut self) {
        self.set_sda(0);
    }

    fn repeated_start(&mut self) {
        self.set_scl(0);
        self.set_sda(1);
        self.set_scl(1);
        self.set_sda(0);
    }

    fn stop(&mut self) {
        self.set_scl(0);
        self.set_sda(0);
        self.set_scl(1);
        self.set_sda(1);
    }

    /// Clocks out `byte` and returns whether the slave acknowledged it.
    fn write_byte(&mut self, byte: u8) -> bool {
        for i in (0..8).rev() {
            self.set_scl(0);
            self.set_sda((byte >> i) & 1);
            self.set_scl(1);
        }
        self.set_scl(0);
        self.set_sda(1);
        self.set_scl(1);
        self.sda() == 0
    }

    /// Clocks in one byte from the slave and answers with ACK or NACK.
    fn read_byte(&mut self, ack: bool) -> u8 {
        let mut value = 0u8;
        for _ in 0..8 {
            self.set_scl(0);
            self.set_sda(1);
            self.set_scl(1);
            value = (value << 1) | self.sda();
        }
        self.set_scl(0);
        self.set_sda(if ack { 0 } else { 1 });
        self.set_scl(1);
        value
    }

    fn registers(&self) -> Vec<u8> {
        self.engine.implementation().registers().clone()
    }
}

#[test]
fn write_two_registers() {
    let mut bus = Bus::new(0x42, vec![0, 0, 0, 0]);
    bus.start();
    assert!(bus.write_byte(0x84));
    assert!(bus.write_byte(0x01));
    assert!(bus.write_byte(0xAA));
    assert!(bus.write_byte(0xBB));
    bus.stop();
    assert_eq!(bus.registers(), vec![0, 0xAA, 0xBB, 0]);
    assert_eq!(bus.engine.state(), EngineState::Idle);
    assert_eq!(bus.engine.current_register(), None);
    assert_eq!(bus.errors, 0);
}

#[test]
fn read_two_registers() {
    let mut bus = Bus::new(0x42, vec![0x10, 0x20, 0x30, 0x40]);
    bus.start();
    assert!(bus.write_byte(0x84));
    assert!(bus.write_byte(0x02));
    bus.repeated_start();
    assert!(bus.write_byte(0x85));
    assert_eq!(bus.read_byte(true), 0x30);
    assert_eq!(bus.read_byte(false), 0x40);
    bus.stop();
    assert_eq!(bus.registers(), vec![0x10, 0x20, 0x30, 0x40]);
    assert_eq!(bus.engine.state(), EngineState::Idle);
    assert_eq!(bus.engine.current_register(), None);
}

#[test]
fn address_mismatch() {
    let mut bus = Bus::new(0x42, vec![1, 2, 3]);
    bus.start();
    assert!(!bus.write_byte(0x20));
    assert_eq!(bus.engine.state(), EngineState::Idle);
    assert!(!bus.write_byte(0x01));
    assert!(!bus.write_byte(0x55));
    bus.stop();
    assert!(!bus.drove_low);
    assert_eq!(bus.registers(), vec![1, 2, 3]);
    assert_eq!(bus.engine.state(), EngineState::Idle);
}

#[test]
fn repeated_start_mid_write() {
    let mut bus = Bus::new(0x42, vec![0, 0, 0]);
    bus.start();
    assert!(bus.write_byte(0x84));
    assert!(bus.write_byte(0x00));
    assert!(bus.write_byte(0xFF));
    bus.repeated_start();
    assert!(bus.write_byte(0x85));
    // The pointer moved on to register 1 after the write.
    assert_eq!(bus.engine.current_register(), Some(1));
    assert_eq!(bus.read_byte(false), 0x00);
    bus.stop();
    assert_eq!(bus.registers(), vec![0xFF, 0, 0]);
    assert_eq!(bus.engine.state(), EngineState::Idle);
}

#[test]
fn stop_after_register_pointer() {
    let mut bus = Bus::new(0x42, vec![9, 9]);
    bus.start();
    assert!(bus.write_byte(0x84));
    assert!(bus.write_byte(0x07));
    assert_eq!(bus.engine.current_register(), Some(7));
    bus.stop();
    assert_eq!(bus.engine.current_register(), None);
    assert_eq!(bus.engine.state(), EngineState::Idle);
    assert_eq!(bus.registers(), vec![9, 9]);
    assert_eq!(bus.errors, 0);
}

#[test]
fn back_to_back_transactions() {
    let mut bus = Bus::new(0x42, vec![0, 0, 0, 0]);
    bus.start();
    assert!(bus.write_byte(0x84));
    assert!(bus.write_byte(0x00));
    assert!(bus.write_byte(0x11));
    bus.stop();
    let after_first = bus.registers();
    assert_eq!(after_first, vec![0x11, 0, 0, 0]);
    bus.start();
    assert!(bus.write_byte(0x84));
    assert!(bus.write_byte(0x02));
    assert!(bus.write_byte(0x22));
    assert!(bus.write_byte(0x33));
    bus.stop();

    let mut alone = Bus::new(0x42, after_first);
    alone.start();
    assert!(alone.write_byte(0x84));
    assert!(alone.write_byte(0x02));
    assert!(alone.write_byte(0x22));
    assert!(alone.write_byte(0x33));
    alone.stop();
    assert_eq!(bus.registers(), alone.registers());
    assert_eq!(bus.registers(), vec![0x11, 0, 0x22, 0x33]);
    assert_eq!(bus.engine.state(), alone.engine.state());
}

#[test]
fn write_then_read_round_trip() {
    let mut bus = Bus::new(0x42, vec![0, 0, 0]);
    bus.start();
    assert!(bus.write_byte(0x84));
    assert!(bus.write_byte(0x01));
    assert!(bus.write_byte(0x5A));
    bus.stop();
    bus.start();
    assert!(bus.write_byte(0x84));
    assert!(bus.write_byte(0x01));
    bus.repeated_start();
    assert!(bus.write_byte(0x85));
    assert_eq!(bus.read_byte(false), 0x5A);
    bus.stop();
}

#[test]
fn write_past_end_extends_registers() {
    let mut bus = Bus::new(0x42, vec![1, 2]);
    bus.start();
    assert!(bus.write_byte(0x84));
    assert!(bus.write_byte(0x02));
    assert!(bus.write_byte(0x77));
    bus.stop();
    assert_eq!(bus.registers(), vec![1, 2, 0x77]);
}

#[test]
fn read_past_end_gives_zero() {
    let mut bus = Bus::new(0x42, vec![0xAB]);
    bus.start();
    assert!(bus.write_byte(0x84));
    assert!(bus.write_byte(0x00));
    bus.repeated_start();
    assert!(bus.write_byte(0x85));
    assert_eq!(bus.read_byte(true), 0xAB);
    assert_eq!(bus.read_byte(true), 0x00);
    assert_eq!(bus.read_byte(false), 0x00);
    bus.stop();
    assert_eq!(bus.registers(), vec![0xAB]);
}

#[test]
fn read_without_register_pointer_is_declined() {
    let mut bus = Bus::new(0x42, vec![0x10]);
    bus.start();
    assert!(!bus.write_byte(0x85));
    assert_eq!(bus.engine.state(), EngineState::Idle);
    assert!(!bus.drove_low);
}

#[test]
fn framing_in_register_slot_is_reported() {
    let mut bus = Bus::new(0x42, vec![0, 0]);
    bus.start();
    assert!(bus.write_byte(0x84));
    bus.repeated_start();
    assert_eq!(bus.errors, 1);
    assert_eq!(bus.engine.state(), EngineState::Idle);
    assert_eq!(bus.engine.current_register(), None);
}

#[test]
fn stop_in_register_slot_is_reported() {
    let mut bus = Bus::new(0x42, vec![0, 0]);
    bus.start();
    assert!(bus.write_byte(0x84));
    bus.stop();
    assert_eq!(bus.errors, 1);
    assert_eq!(bus.engine.state(), EngineState::Idle);
}

#[test]
fn reserved_address_zero_never_matches() {
    let p = ProtocolImplementation::new(0, vec![]);
    assert!(!p.check_address(0));
    let mut bus = Bus::new(0, vec![5]);
    bus.start();
    assert!(!bus.write_byte(0x00));
    assert_eq!(bus.registers(), vec![5]);
}

#[test]
fn protocol_registers() {
    let mut p = ProtocolImplementation::new(0x42, vec![0xAA, 0xBB, 0xAA]);
    assert!(p.check_address(0x42));
    assert!(!p.check_address(0x43));
    assert_eq!(p.get_register(1), 0xBB);
    assert_eq!(p.get_register(3), 0);
    p.set_register(3, 7);
    assert_eq!(p.registers(), &vec![0xAA, 0xBB, 0xAA, 7]);
    p.set_register(5, 9);
    assert_eq!(p.registers(), &vec![0xAA, 0xBB, 0xAA, 7, 0, 9]);
    p.set_register(0, 1);
    assert_eq!(p.get_register(0), 1);
}

#[test]
fn address_validation() {
    assert!(!validate_address_7b(0x00));
    assert!(!validate_address_7b(0x08));
    assert!(validate_address_7b(0x09));
    assert!(validate_address_7b(0x42));
    assert!(validate_address_7b(0x55));
    assert!(validate_address_7b(0x77));
    assert!(!validate_address_7b(0x78));
    assert!(!validate_address_7b(0x80));
    assert!(!validate_address_7b(0xFF));
}

#[test]
fn rw_bit_conversions() {
    assert_eq!(RWBit::from(0), RWBit::SlaveWrite);
    assert_eq!(RWBit::from(1), RWBit::SlaveRead);
    assert_eq!(RWBit::from(2), RWBit::SlaveRead);
    assert_eq!(ReadWriteBit::from_value(0x84), RWBit::SlaveWrite);
    assert_eq!(ReadWriteBit::from_value(0x85), RWBit::SlaveRead);
    assert_eq!(split_address_and_rw(0x85), (0x42, RWBit::SlaveRead));
    assert_eq!(split_address_and_rw(0x84), (0x42, RWBit::SlaveWrite));
    assert_eq!(RWBit::SlaveRead.name(), "SlaveRead");
    assert_eq!(RWBit::SlaveWrite.name(), "SlaveWrite");
}

#[test]
fn assembler_collects_bits_msb_first() {
    let mut acc = ByteAssembler::new();
    let bits = [1u8, 0, 1, 1, 0, 0, 1, 0];
    for (i, b) in bits.iter().enumerate() {
        let (next, unit) = acc.receive(Message::new(PinType::Scl, 0), 1);
        assert_eq!(unit, None);
        assert_eq!(next, acc);
        let (next, unit) = acc.receive(Message::new(PinType::Scl, 1), *b);
        if i < 7 {
            assert_eq!(unit, None);
            acc = next;
        } else {
            assert_eq!(unit, Some(ReadType::Data(0b1011_0010)));
            assert_eq!(next, ByteAssembler::new());
        }
    }
}

#[test]
fn assembler_framing_conditions() {
    let acc = ByteAssembler { value: 3, bits: 2 };
    assert_eq!(acc.receive(Message::new(PinType::Sda, 0), 1), (ByteAssembler::new(), Some(ReadType::Start)));
    assert_eq!(acc.receive(Message::new(PinType::Sda, 1), 1), (ByteAssembler::new(), Some(ReadType::Stop)));
    assert_eq!(acc.receive(Message::new(PinType::Sda, 1), 0), (acc, None));
}

#[test]
fn error_descriptions() {
    assert_eq!(Error::UnexpectedSdaEdge.description(), "Unexpected sda edge");
    assert_eq!(Error::Generic("PinError: busy".to_string()).description(), "PinError: busy");
    let pin = PinError::new("no such pin".to_string());
    assert_eq!(pin.description(), "no such pin");
    let hw = HardwareError::from(pin);
    assert_eq!(hw.description(), "no such pin");
    match Error::from(hw) {
        Error::Generic(d) => assert_eq!(d, "no such pin"),
        _ => panic!("expected a generic error"),
    }
}

#[test]
fn pin_names() {
    assert_eq!(PinType::Sda.name(), "sda");
    assert_eq!(PinType::Scl.name(), "scl");
    let m = Message::new(PinType::Scl, 1);
    assert_eq!(m.pin_type, PinType::Scl);
    assert_eq!(m.value, 1);
}

#[test]
fn engine_keeps_pin_numbers() {
    let engine = BitLayer::new(ProtocolImplementation::new(0x42, vec![]), 6, 5);
    assert_eq!(engine.sda_num(), 6);
    assert_eq!(engine.scl_num(), 5);
    assert_eq!(engine.state(), EngineState::Idle);
    assert_eq!(engine.current_register(), None);
}

fn ev(pin_type: PinType, value: u8, other: u8) -> (Message, u8) {
    (Message::new(pin_type, value), other)
}

#[test]
fn feed_runs_events_in_order() {
    let mut engine = BitLayer::new(ProtocolImplementation::new(0x42, vec![0, 0]), 6, 5);
    let mut events = vec![ev(PinType::Sda, 0, 1), ev(PinType::Scl, 0, 0)];
    // 0x84: the address 0x42 with the write bit.
    for i in (0..8).rev() {
        let b = (0x84u8 >> i) & 1;
        events.push(ev(PinType::Sda, b, 0));
        events.push(ev(PinType::Scl, 1, b));
        events.push(ev(PinType::Scl, 0, b));
    }
    let answers = engine.feed(&events);
    assert_eq!(answers.len(), events.len());
    for a in &answers[..answers.len() - 1] {
        assert!(matches!(a, Ok(SdaCommand::Keep)));
    }
    assert!(matches!(answers[answers.len() - 1], Ok(SdaCommand::DriveLow)));
    assert!(matches!(engine.state(), EngineState::Ack { .. }));
    let answers = engine.feed(&vec![ev(PinType::Scl, 1, 0), ev(PinType::Scl, 0, 0)]);
    assert!(matches!(answers[0], Ok(SdaCommand::Keep)));
    assert!(matches!(answers[1], Ok(SdaCommand::Release)));
    assert_eq!(engine.state(), EngineState::AddressMatchedWrite(ByteAssembler::new()));
}

#[test]
fn feed_reports_framing_in_register_slot() {
    let mut engine = BitLayer::new(ProtocolImplementation::new(0x42, vec![]), 6, 5);
    let mut events = vec![ev(PinType::Sda, 0, 1), ev(PinType::Scl, 0, 0)];
    for i in (0..8).rev() {
        let b = (0x84u8 >> i) & 1;
        events.push(ev(PinType::Sda, b, 0));
        events.push(ev(PinType::Scl, 1, b));
        events.push(ev(PinType::Scl, 0, b));
    }
    events.push(ev(PinType::Scl, 1, 0));
    events.push(ev(PinType::Scl, 0, 0));
    // STOP in place of the register pointer.
    events.push(ev(PinType::Sda, 0, 0));
    events.push(ev(PinType::Scl, 1, 0));
    events.push(ev(PinType::Sda, 1, 1));
    let answers = engine.feed(&events);
    assert!(matches!(answers[answers.len() - 1], Err(Error::UnexpectedSdaEdge)));
    assert_eq!(engine.state(), EngineState::Idle);
    assert_eq!(engine.current_register(), None);
    let p = engine.into_implementation();
    assert_eq!(p.registers(), &Vec::<u8>::new());
}

#[test]
fn stop_resets_from_every_listening_state() {
    // While sampling the address byte.
    let mut bus = Bus::new(0x42, vec![0, 0]);
    bus.start();
    bus.set_scl(0);
    bus.set_sda(1);
    bus.set_scl(1);
    bus.set_scl(0);
    bus.set_sda(0);
    bus.set_scl(1);
    bus.set_sda(1);
    assert_eq!(bus.engine.state(), EngineState::Idle);
    assert_eq!(bus.engine.current_register(), None);

    // In the middle of a data byte.
    let mut bus = Bus::new(0x42, vec![0, 0]);
    bus.start();
    assert!(bus.write_byte(0x84));
    assert!(bus.write_byte(0x01));
    bus.set_scl(0);
    bus.set_sda(1);
    bus.set_scl(1);
    bus.stop();
    assert_eq!(bus.engine.state(), EngineState::Idle);
    assert_eq!(bus.engine.current_register(), None);
    assert_eq!(bus.registers(), vec![0, 0]);

    // After a read that the master ended with NACK.
    let mut bus = Bus::new(0x42, vec![7, 8]);
    bus.start();
    assert!(bus.write_byte(0x84));
    assert!(bus.write_byte(0x01));
    bus.repeated_start();
    assert!(bus.write_byte(0x85));
    assert_eq!(bus.read_byte(false), 8);
    assert_eq!(bus.engine.state(), EngineState::ReadDone);
    assert_eq!(bus.engine.current_register(), Some(1));
    bus.stop();
    assert_eq!(bus.engine.state(), EngineState::Idle);
    assert_eq!(bus.engine.current_register(), None);
}

#[test]
fn slave_changes_sda_only_while_scl_low() {
    // Bring the engine to the acknowledge of a read, then check each answer.
    let mut bus = Bus::new(0x42, vec![0x0F]);
    bus.start();
    assert!(bus.write_byte(0x84));
    assert!(bus.write_byte(0x00));
    bus.repeated_start();
    assert!(bus.write_byte(0x85));
    let state = bus.engine.state();
    assert!(matches!(state, EngineState::Ack { driven: true, .. }));
    // A rising SCL edge never gets a command.
    assert!(matches!(bus.engine.step(Message::new(PinType::Scl, 1), 0), Ok(SdaCommand::Keep)));
    // The falling edge puts bit 7 of 0x0F (a 0) onto SDA.
    assert!(matches!(bus.engine.step(Message::new(PinType::Scl, 0), 0), Ok(SdaCommand::DriveLow)));
    // Its own change of SDA, seen while SCL is low, changes nothing.
    assert!(matches!(bus.engine.step(Message::new(PinType::Sda, 0), 0), Ok(SdaCommand::Keep)));
    assert_eq!(bus.engine.state(), EngineState::WriteBit { byte: 0x0F, remaining: 7 });
}

#[test]
fn observer_reports_each_change_once() {
    let reads = [1u8, 1, 0, 0, 0, 1, 0, 0, 1, 1];
    let mut last = 1u8;
    let mut sent = Vec::new();
    for level in reads.iter() {
        let (remembered, message) = observe(PinType::Sda, last, *level);
        assert_eq!(remembered, *level);
        last = remembered;
        if let Some(m) = message {
            sent.push(m);
        }
    }
    assert_eq!(
        sent,
        vec![
            Message::new(PinType::Sda, 0),
            Message::new(PinType::Sda, 1),
            Message::new(PinType::Sda, 0),
            Message::new(PinType::Sda, 1),
        ]
    );
    assert_eq!(observe(PinType::Scl, 0, 0), (0, None));
    assert_eq!(observe(PinType::Scl, 0, 1), (1, Some(Message::new(PinType::Scl, 1))));
}

#[test]
fn write_at_length_extends_by_one() {
    let mut p = ProtocolImplementation::new(0x42, vec![0x10, 0x20]);
    p.set_register(2, 0x99);
    assert_eq!(p.registers(), &vec![0x10, 0x20, 0x99]);
    assert_eq!(p.address, 0x42);
    p.set_register(usize::MAX, 0x01);
    assert_eq!(p.registers(), &vec![0x10, 0x20, 0x99]);
}

#[test]
fn low_and_high_addresses_are_answered() {
    let p = ProtocolImplementation::new(0x05, vec![]);
    assert!(p.check_address(0x05));
    assert!(!p.check_address(0x06));
    let p = ProtocolImplementation::new(0x7A, vec![]);
    assert!(p.check_address(0x7A));
    let mut bus = Bus::new(0x05, vec![0, 0]);
    bus.start();
    assert!(bus.write_byte(0x0A));
    assert!(bus.write_byte(0x01));
    assert!(bus.write_byte(0x33));
    bus.stop();
    assert_eq!(bus.registers(), vec![0, 0x33]);
}
