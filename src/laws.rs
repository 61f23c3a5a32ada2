//! What the engine does over whole transactions.
//!
//! The transactions are written as the events that a master produces on the
//! wire, one bit at a time; the laws below state what a run over them ends in.
use vstd::prelude::*;
use crate::bit_layer::{bit_command, bit_of, frame_wf, lemma_sda_while_scl_low_is_ignored, next_register, AfterAck, EngineState, SdaCommand};
use crate::framing::{
    empty_assembler, is_scl_falling, is_start, is_stop, level_bit, receive_spec, shift_in, ByteAssembler,
    ReadType,
};
use crate::pin_thread::{is_high, Message, PinType};
use crate::run::{
    apply_event, lemma_run2, lemma_run3, lemma_run_append, lemma_run_length, lemma_run_single, registers_after,
    run, transition_at, Event, Snapshot,
};

verus! {

/// An event: `value` is the new level on `pin_type`, `other` the level of the other line.
pub open spec fn ev(pin_type: PinType, value: u8, other: u8) -> Event {
    (Message { pin_type, value }, other)
}

/// START: SDA falls while SCL is high, then SCL falls.
pub open spec fn start_condition() -> Seq<Event> {
    seq![ev(PinType::Sda, 0, 1), ev(PinType::Scl, 0, 0)]
}

/// One bit sent by the master: SDA takes the bit while SCL is low, SCL rises
/// (the bit is sampled) and falls again.
pub open spec fn master_bit(b: u8) -> Seq<Event> {
    seq![ev(PinType::Sda, b, 0), ev(PinType::Scl, 1, b), ev(PinType::Scl, 0, b)]
}

/// The first `k` bits of `x` sent by the master, most significant first.
pub open spec fn master_bits(x: u8, k: nat) -> Seq<Event>
    decreases k,
{
    if k == 0 {
        Seq::empty()
    } else {
        master_bits(x, (k - 1) as nat) + master_bit(bit_of(x, (8 - k) as u8))
    }
}

/// The byte `x` sent by the master.
pub open spec fn master_byte(x: u8) -> Seq<Event> {
    master_bits(x, 8)
}

/// The ninth clock, during which the slave holds SDA low: SCL rises and falls.
pub open spec fn ack_clock() -> Seq<Event> {
    seq![ev(PinType::Scl, 1, 0), ev(PinType::Scl, 0, 0)]
}

/// STOP after a bit: SDA goes low while SCL is low, SCL rises, then SDA rises.
pub open spec fn stop_condition() -> Seq<Event> {
    seq![ev(PinType::Sda, 0, 0), ev(PinType::Scl, 1, 0), ev(PinType::Sda, 1, 1)]
}

/// REPEATED START after a bit: SDA is let go while SCL is low, SCL rises, SDA
/// falls while SCL is high, then SCL falls.
pub open spec fn repeated_start() -> Seq<Event> {
    seq![ev(PinType::Sda, 1, 0), ev(PinType::Scl, 1, 1), ev(PinType::Sda, 0, 1), ev(PinType::Scl, 0, 0)]
}

/// `n` commands that leave SDA alone.
pub open spec fn keeps_n(n: nat) -> Seq<SdaCommand> {
    Seq::new(n, |i: int| SdaCommand::Keep)
}

/// Whether the engine is sampling a byte in `state`.
pub open spec fn receiving(state: EngineState) -> bool {
    state is AwaitAddress || state is AddressMatchedWrite || state is WritingRegisters
}

/// `state` with its byte assembler replaced by `a`.
pub open spec fn with_acc(state: EngineState, a: ByteAssembler) -> EngineState {
    match state {
        EngineState::AwaitAddress(_) => EngineState::AwaitAddress(a),
        EngineState::AddressMatchedWrite(_) => EngineState::AddressMatchedWrite(a),
        EngineState::WritingRegisters(_) => EngineState::WritingRegisters(a),
        _ => state,
    }
}

/// The upper `k` bits of `x`, as an assembler holds them after `k` bits.
pub open spec fn prefix_value(x: u8, k: nat) -> u8 {
    if k == 0 {
        0
    } else {
        x >> ((8 - k) as u8)
    }
}

pub open spec fn prefix_acc(x: u8, k: nat) -> ByteAssembler {
    ByteAssembler { value: prefix_value(x, k), bits: k as u8 }
}

proof fn lemma_prefix_step(x: u8, k: nat)
    requires
        1 <= k <= 8,
    ensures
        shift_in(prefix_value(x, (k - 1) as nat), level_bit(bit_of(x, (8 - k) as u8))) == prefix_value(x, k),
        bit_of(x, (8 - k) as u8) <= 1,
{
    let i: u8 = (8 - k) as u8;
    assert((x >> i) & 1u8 <= 1u8) by (bit_vector);
    if k == 1 {
        assert(((((0u8 << 1u8) | ((x >> 7u8) & 1u8)) as u8) == x >> 7u8)) by (bit_vector);
    } else {
        assert(i < 7);
        assert(((((x >> ((i + 1) as u8)) << 1u8) | ((x >> i) & 1u8)) as u8) == x >> i) by (bit_vector)
            requires
                i < 7u8,
        ;
        assert((8 - (k - 1)) as u8 == (i + 1) as u8);
    }
}

/// After `k < 8` bits of `x` the assembler holds the upper `k` bits; nothing
/// else changes and SDA is left alone.
proof fn lemma_master_bits(
    s: Snapshot,
    claims: spec_fn(u8) -> bool,
    keeps: spec_fn(usize) -> bool,
    x: u8,
    k: nat,
)
    requires
        receiving(s.state),
        s.state == with_acc(s.state, empty_assembler()),
        k <= 7,
    ensures
        run(s, claims, keeps, master_bits(x, k)).0 == (Snapshot { state: with_acc(s.state, prefix_acc(x, k)), ..s }),
        run(s, claims, keeps, master_bits(x, k)).1 == keeps_n(3 * k),
    decreases k,
{
    if k == 0 {
        assert(prefix_acc(x, 0) == empty_assembler());
        assert(keeps_n(0) =~= Seq::<SdaCommand>::empty());
    } else {
        let k1 = (k - 1) as nat;
        lemma_master_bits(s, claims, keeps, x, k1);
        let b = bit_of(x, (8 - k) as u8);
        lemma_run_append(s, claims, keeps, master_bits(x, k1), master_bit(b));
        let s1 = Snapshot { state: with_acc(s.state, prefix_acc(x, k1)), ..s };
        lemma_run3(s1, claims, keeps, ev(PinType::Sda, b, 0), ev(PinType::Scl, 1, b), ev(PinType::Scl, 0, b));
        lemma_prefix_step(x, k);
        let e1 = ev(PinType::Sda, b, 0);
        let s2 = apply_event(s1, claims, keeps, e1);
        assert(s2 == s1);
        let e2 = ev(PinType::Scl, 1, b);
        let s3 = apply_event(s2, claims, keeps, e2);
        assert(s3 == (Snapshot { state: with_acc(s.state, prefix_acc(x, k)), ..s }));
        assert(keeps_n(3 * k1) + seq![SdaCommand::Keep, SdaCommand::Keep, SdaCommand::Keep] =~= keeps_n(3 * k));
    }
}


/// The eighth bit of `x` completes the byte: the run over `x` is the run over
/// its first seven bits, then over the last one.
proof fn lemma_master_byte(s: Snapshot, claims: spec_fn(u8) -> bool, keeps: spec_fn(usize) -> bool, x: u8)
    requires
        receiving(s.state),
        s.state == with_acc(s.state, empty_assembler()),
    ensures
        ({
            let s7 = Snapshot { state: with_acc(s.state, prefix_acc(x, 7)), ..s };
            let r7 = run(s7, claims, keeps, master_bit(bit_of(x, 0)));
            &&& run(s, claims, keeps, master_byte(x)).0 == r7.0
            &&& run(s, claims, keeps, master_byte(x)).1 == keeps_n(21) + r7.1
            &&& receive_spec(prefix_acc(x, 7), Message { pin_type: PinType::Scl, value: 1 }, bit_of(x, 0))
                == (empty_assembler(), Some(ReadType::Data(x)))
        }),
{
    lemma_master_bits(s, claims, keeps, x, 7);
    assert(master_byte(x) == master_bits(x, 7) + master_bit(bit_of(x, 0)));
    lemma_run_append(s, claims, keeps, master_bits(x, 7), master_bit(bit_of(x, 0)));
    lemma_prefix_step(x, 8);
    assert(x >> 0u8 == x) by (bit_vector);
}

/// The commands of a byte whose last bit completes a transition that pulls
/// SDA low on the following SCL falling edge.
pub open spec fn acked_byte_commands() -> Seq<SdaCommand> {
    keeps_n(23).push(SdaCommand::DriveLow)
}

proof fn lemma_keeps_acked(c: Seq<SdaCommand>)
    requires
        c == seq![SdaCommand::Keep, SdaCommand::Keep, SdaCommand::DriveLow],
    ensures
        keeps_n(21) + c == acked_byte_commands(),
{
    assert(keeps_n(21) + c =~= acked_byte_commands());
}

/// START from idle: the engine samples an address byte, with no register pointer.
proof fn lemma_start(s: Snapshot, claims: spec_fn(u8) -> bool, keeps: spec_fn(usize) -> bool)
    requires
        s.state is Idle,
    ensures
        run(s, claims, keeps, start_condition()).0 == (Snapshot {
            state: EngineState::AwaitAddress(empty_assembler()),
            current_register: None,
            ..s
        }),
        run(s, claims, keeps, start_condition()).1 == keeps_n(2),
{
    lemma_run2(s, claims, keeps, ev(PinType::Sda, 0, 1), ev(PinType::Scl, 0, 0));
    assert(keeps_n(2) =~= seq![SdaCommand::Keep, SdaCommand::Keep]);
}

/// A claimed address with the write bit is acknowledged: SDA is pulled low
/// on the SCL falling edge after the eighth bit.
proof fn lemma_address_byte(
    s: Snapshot,
    claims: spec_fn(u8) -> bool,
    keeps: spec_fn(usize) -> bool,
    addr: u8,
    read: bool,
)
    requires
        s.state == EngineState::AwaitAddress(empty_assembler()),
        addr < 128,
        claims(addr),
        read ==> s.current_register is Some,
    ensures
        run(s, claims, keeps, master_byte(address_byte(addr, read))).0 == (Snapshot {
            state: EngineState::Ack {
                next: if read {
                    AfterAck::Serve
                } else {
                    AfterAck::RegisterPointer
                },
                driven: true,
            },
            ..s
        }),
        run(s, claims, keeps, master_byte(address_byte(addr, read))).1 == acked_byte_commands(),
{
    let x = address_byte(addr, read);
    lemma_master_byte(s, claims, keeps, x);
    let s7 = Snapshot { state: with_acc(s.state, prefix_acc(x, 7)), ..s };
    let b = bit_of(x, 0);
    lemma_run3(s7, claims, keeps, ev(PinType::Sda, b, 0), ev(PinType::Scl, 1, b), ev(PinType::Scl, 0, b));
    assert(x / 2 == addr && (x % 2 == 1) == read);
    let s8 = apply_event(apply_event(s7, claims, keeps, ev(PinType::Sda, b, 0)), claims, keeps, ev(PinType::Scl, 1, b));
    assert(s8.state == EngineState::Ack {
        next: if read { AfterAck::Serve } else { AfterAck::RegisterPointer },
        driven: false,
    });
    lemma_keeps_acked(run(s7, claims, keeps, master_bit(b)).1);
}

/// The first byte of a transfer to `addr`: the address with the R/W bit.
pub open spec fn address_byte(addr: u8, read: bool) -> u8 {
    if read {
        (addr * 2 + 1) as u8
    } else {
        (addr * 2) as u8
    }
}

/// The ninth clock of a write ends the acknowledge: SDA is let go and the
/// next byte is sampled.
proof fn lemma_ack_clock(s: Snapshot, claims: spec_fn(u8) -> bool, keeps: spec_fn(usize) -> bool, next: AfterAck)
    requires
        s.state == (EngineState::Ack { next, driven: true }),
        next != AfterAck::Serve,
    ensures
        run(s, claims, keeps, ack_clock()).0 == (Snapshot {
            state: if next == AfterAck::Data {
                EngineState::WritingRegisters(empty_assembler())
            } else {
                EngineState::AddressMatchedWrite(empty_assembler())
            },
            ..s
        }),
        run(s, claims, keeps, ack_clock()).1 == seq![SdaCommand::Keep, SdaCommand::Release],
{
    lemma_run2(s, claims, keeps, ev(PinType::Scl, 1, 0), ev(PinType::Scl, 0, 0));
}

/// The register pointer byte is taken as the current register and acknowledged.
proof fn lemma_register_byte(s: Snapshot, claims: spec_fn(u8) -> bool, keeps: spec_fn(usize) -> bool, reg: u8)
    requires
        s.state == EngineState::AddressMatchedWrite(empty_assembler()),
    ensures
        run(s, claims, keeps, master_byte(reg)).0 == (Snapshot {
            state: EngineState::Ack { next: AfterAck::Data, driven: true },
            current_register: Some(reg as usize),
            ..s
        }),
        run(s, claims, keeps, master_byte(reg)).1 == acked_byte_commands(),
{
    lemma_master_byte(s, claims, keeps, reg);
    let s7 = Snapshot { state: with_acc(s.state, prefix_acc(reg, 7)), ..s };
    let b = bit_of(reg, 0);
    lemma_run3(s7, claims, keeps, ev(PinType::Sda, b, 0), ev(PinType::Scl, 1, b), ev(PinType::Scl, 0, b));
    lemma_keeps_acked(run(s7, claims, keeps, master_bit(b)).1);
}

/// A data byte is written to the current register, which moves on, and acknowledged.
proof fn lemma_data_byte(s: Snapshot, claims: spec_fn(u8) -> bool, keeps: spec_fn(usize) -> bool, d: u8)
    requires
        s.state == EngineState::WritingRegisters(empty_assembler()),
        s.current_register is Some,
    ensures
        run(s, claims, keeps, master_byte(d)).0 == (Snapshot {
            state: EngineState::Ack { next: AfterAck::Data, driven: true },
            current_register: Some(next_register(s.current_register->0)),
            registers: registers_after(s.registers, keeps, Some((s.current_register->0, d))),
        }),
        run(s, claims, keeps, master_byte(d)).1 == acked_byte_commands(),
{
    lemma_master_byte(s, claims, keeps, d);
    let s7 = Snapshot { state: with_acc(s.state, prefix_acc(d, 7)), ..s };
    let b = bit_of(d, 0);
    lemma_run3(s7, claims, keeps, ev(PinType::Sda, b, 0), ev(PinType::Scl, 1, b), ev(PinType::Scl, 0, b));
    lemma_keeps_acked(run(s7, claims, keeps, master_bit(b)).1);
}

/// STOP while sampling bytes or after a finished read: idle, with no register pointer.
proof fn lemma_stop(s: Snapshot, claims: spec_fn(u8) -> bool, keeps: spec_fn(usize) -> bool)
    requires
        s.state == EngineState::WritingRegisters(empty_assembler()) || s.state == EngineState::AwaitAddress(
            empty_assembler(),
        ) || s.state is ReadDone,
    ensures
        run(s, claims, keeps, stop_condition()).0 == (Snapshot {
            state: EngineState::Idle,
            current_register: None,
            ..s
        }),
        run(s, claims, keeps, stop_condition()).1 == keeps_n(3),
{
    lemma_run3(s, claims, keeps, ev(PinType::Sda, 0, 0), ev(PinType::Scl, 1, 0), ev(PinType::Sda, 1, 1));
    assert(keeps_n(3) =~= seq![SdaCommand::Keep, SdaCommand::Keep, SdaCommand::Keep]);
}


/// Data bytes sent by the master, each followed by the acknowledge clock.
pub open spec fn data_bytes(data: Seq<u8>) -> Seq<Event>
    decreases data.len(),
{
    if data.len() == 0 {
        Seq::empty()
    } else {
        master_byte(data[0]) + ack_clock() + data_bytes(data.drop_first())
    }
}

/// A complete write transaction: START, the address with the write bit, the
/// register pointer, the data bytes, STOP; the slave acknowledges each byte.
pub open spec fn write_transaction(addr: u8, reg: u8, data: Seq<u8>) -> Seq<Event> {
    write_head(addr, reg) + data_bytes(data) + stop_condition()
}

/// The register file after `data` was written from register `c` on: one
/// write per byte, in order, to `c`, the register after it and so on (the
/// pointer wrapping around at the top), each applied as the register file
/// applies a write: kept where `keeps` holds, dropped elsewhere.
pub open spec fn write_all(registers: Map<usize, u8>, keeps: spec_fn(usize) -> bool, c: usize, data: Seq<u8>) -> Map<usize, u8>
    decreases data.len(),
{
    if data.len() == 0 {
        registers
    } else {
        write_all(registers_after(registers, keeps, Some((c, data[0]))), keeps, next_register(c), data.drop_first())
    }
}

/// Where the writes do not reach past the top register, writing `data` from
/// register `c` on changes no register outside `c .. c + data.len()`, and
/// where every write is kept, register `c + i` then holds `data[i]`.
pub proof fn lemma_write_all(registers: Map<usize, u8>, keeps: spec_fn(usize) -> bool, c: usize, data: Seq<u8>)
    requires
        c + data.len() <= usize::MAX + 1,
    ensures
        forall|j: usize| (j < c || j >= c + data.len()) ==> #[trigger] write_all(registers, keeps, c, data)[j] == registers[j],
        (forall|i: int| 0 <= i < data.len() ==> #[trigger] keeps((c + i) as usize)) ==> forall|i: int|
            0 <= i < data.len() ==> #[trigger] write_all(registers, keeps, c, data)[(c + i) as usize] == data[i],
    decreases data.len(),
{
    if data.len() > 0 {
        let tail = data.drop_first();
        let regs1 = registers_after(registers, keeps, Some((c, data[0])));
        if data.len() == 1 {
            assert(tail.len() == 0);
            reveal_with_fuel(write_all, 2);
            assert(write_all(registers, keeps, c, data) == regs1);
        } else {
            assert(c < usize::MAX);
            assert(next_register(c) == c + 1);
            lemma_write_all(regs1, keeps, next_register(c), tail);
            let w = write_all(registers, keeps, c, data);
            assert(w == write_all(regs1, keeps, next_register(c), tail));
            assert(w[c] == regs1[c]);
            if forall|i: int| 0 <= i < data.len() ==> #[trigger] keeps((c + i) as usize) {
                assert forall|i: int| 0 <= i < tail.len() implies #[trigger] keeps((next_register(c) + i) as usize) by {
                    assert(keeps((c + (i + 1)) as usize));
                }
                assert forall|i: int| 0 <= i < data.len() implies #[trigger] w[(c + i) as usize] == data[i] by {
                    if i > 0 {
                        assert(tail[i - 1] == data[i]);
                        assert(w[(next_register(c) + (i - 1)) as usize] == tail[i - 1]);
                    } else {
                        assert(keeps((c + 0) as usize));
                    }
                }
            }
        }
    }
}

/// Data bytes in a write: each goes to the current register, which moves on.
proof fn lemma_data_bytes(s: Snapshot, claims: spec_fn(u8) -> bool, keeps: spec_fn(usize) -> bool, data: Seq<u8>)
    requires
        s.state == EngineState::WritingRegisters(empty_assembler()),
        s.current_register is Some,
    ensures
        run(s, claims, keeps, data_bytes(data)).0 == (Snapshot {
            state: EngineState::WritingRegisters(empty_assembler()),
            current_register: Some(register_after(s.current_register->0, data.len())),
            registers: write_all(s.registers, keeps, s.current_register->0, data),
        }),
    decreases data.len(),
{
    let c = s.current_register->0;
    if data.len() == 0 {
        reveal_with_fuel(run, 1);
    } else {
        let tail = data.drop_first();
        let unit = master_byte(data[0]) + ack_clock();
        lemma_run_append(s, claims, keeps, master_byte(data[0]), ack_clock());
        lemma_data_byte(s, claims, keeps, data[0]);
        let s1 = run(s, claims, keeps, master_byte(data[0])).0;
        lemma_ack_clock(s1, claims, keeps, AfterAck::Data);
        let s2 = run(s, claims, keeps, unit).0;
        lemma_data_bytes(s2, claims, keeps, tail);
        lemma_run_append(s, claims, keeps, unit, data_bytes(tail));
        lemma_register_after_next(c, tail.len());
    }
}

/// The head of a write transaction, up to and including the register
/// pointer and its acknowledge.
pub open spec fn write_head(addr: u8, reg: u8) -> Seq<Event> {
    start_condition() + master_byte(address_byte(addr, false)) + ack_clock() + master_byte(reg)
        + ack_clock()
}

proof fn lemma_write_head(s: Snapshot, claims: spec_fn(u8) -> bool, keeps: spec_fn(usize) -> bool, addr: u8, reg: u8)
    requires
        s.state is Idle,
        addr < 128,
        claims(addr),
    ensures
        run(s, claims, keeps, write_head(addr, reg)).0 == (Snapshot {
            state: EngineState::WritingRegisters(empty_assembler()),
            current_register: Some(reg as usize),
            registers: s.registers,
        }),
{
    let p1 = start_condition();
    let p2 = p1 + master_byte(address_byte(addr, false));
    let p3 = p2 + ack_clock();
    let p4 = p3 + master_byte(reg);
    lemma_start(s, claims, keeps);
    let s1 = run(s, claims, keeps, p1).0;
    lemma_address_byte(s1, claims, keeps, addr, false);
    lemma_run_append(s, claims, keeps, p1, master_byte(address_byte(addr, false)));
    let s2 = run(s, claims, keeps, p2).0;
    lemma_ack_clock(s2, claims, keeps, AfterAck::RegisterPointer);
    lemma_run_append(s, claims, keeps, p2, ack_clock());
    let s3 = run(s, claims, keeps, p3).0;
    lemma_register_byte(s3, claims, keeps, reg);
    lemma_run_append(s, claims, keeps, p3, master_byte(reg));
    let s4 = run(s, claims, keeps, p4).0;
    lemma_ack_clock(s4, claims, keeps, AfterAck::Data);
    lemma_run_append(s, claims, keeps, p4, ack_clock());
}

/// A complete write transaction to a claimed address, of any length, makes
/// exactly the writes of its data bytes, in order, from the register pointer
/// on, and nothing else: the register file ends as `write_all` gives it. The
/// engine ends idle with no register pointer. Where the writes do not reach
/// past the top register, every other register stays as it was, and where
/// the register file keeps those writes, register `reg + i` holds `data[i]`.
pub proof fn lemma_write_transaction(
    s: Snapshot,
    claims: spec_fn(u8) -> bool,
    keeps: spec_fn(usize) -> bool,
    addr: u8,
    reg: u8,
    data: Seq<u8>,
)
    requires
        s.state is Idle,
        addr < 128,
        claims(addr),
    ensures
        ({
            let r = run(s, claims, keeps, write_transaction(addr, reg, data)).0;
            &&& r.state is Idle
            &&& r.current_register is None
            &&& r.registers == write_all(s.registers, keeps, reg as usize, data)
            &&& reg + data.len() <= usize::MAX + 1 ==> forall|j: usize|
                (j < reg || j >= reg + data.len()) ==> #[trigger] r.registers[j] == s.registers[j]
            &&& reg + data.len() <= usize::MAX + 1 && (forall|i: int| 0 <= i < data.len() ==> #[trigger] keeps((reg + i) as usize))
                ==> forall|i: int| 0 <= i < data.len() ==> #[trigger] r.registers[(reg + i) as usize] == data[i]
        }),
{
    let p5 = write_head(addr, reg);
    let p6 = p5 + data_bytes(data);
    lemma_write_head(s, claims, keeps, addr, reg);
    let s5 = run(s, claims, keeps, p5).0;
    lemma_data_bytes(s5, claims, keeps, data);
    lemma_run_append(s, claims, keeps, p5, data_bytes(data));
    let s6 = run(s, claims, keeps, p6).0;
    lemma_stop(s6, claims, keeps);
    lemma_run_append(s, claims, keeps, p6, stop_condition());
    if reg + data.len() <= usize::MAX + 1 {
        lemma_write_all(s.registers, keeps, reg as usize, data);
    }
}

/// REPEATED START after a data byte of a write: the engine samples a new
/// address byte and keeps the register pointer.
proof fn lemma_repeated_start(s: Snapshot, claims: spec_fn(u8) -> bool, keeps: spec_fn(usize) -> bool)
    requires
        s.state == EngineState::WritingRegisters(empty_assembler()),
    ensures
        run(s, claims, keeps, repeated_start()).0 == (Snapshot {
            state: EngineState::AwaitAddress(empty_assembler()),
            ..s
        }),
        run(s, claims, keeps, repeated_start()).1 == keeps_n(4),
{
    let e1 = ev(PinType::Sda, 1, 0);
    let e2 = ev(PinType::Scl, 1, 1);
    let e3 = ev(PinType::Sda, 0, 1);
    let e4 = ev(PinType::Scl, 0, 0);
    assert(repeated_start() =~= seq![e1, e2, e3] + seq![e4]);
    lemma_run3(s, claims, keeps, e1, e2, e3);
    lemma_run_append(s, claims, keeps, seq![e1, e2, e3], seq![e4]);
    lemma_run_single(run(s, claims, keeps, seq![e1, e2, e3]).0, claims, keeps, e4);
    assert(keeps_n(4) =~= seq![SdaCommand::Keep, SdaCommand::Keep, SdaCommand::Keep] + seq![SdaCommand::Keep]);
}

/// `j` clocks of the master while the slave sends: SCL rises and falls.
pub open spec fn slave_clocks(j: nat) -> Seq<Event>
    decreases j,
{
    if j == 0 {
        Seq::empty()
    } else {
        slave_clocks((j - 1) as nat) + seq![ev(PinType::Scl, 1, 1), ev(PinType::Scl, 0, 1)]
    }
}

/// The commands over `j` clocks while sending `b` with `m` bits left: SDA is
/// left alone on each rising edge and takes the next bit on each falling edge.
pub open spec fn sent_bits_commands(b: u8, m: u8, j: nat) -> Seq<SdaCommand> {
    Seq::new(2 * j, |i: int| if i % 2 == 0 {
        SdaCommand::Keep
    } else {
        bit_command(b, (m - 1 - i / 2) as u8)
    })
}

proof fn lemma_slave_clocks(
    s: Snapshot,
    claims: spec_fn(u8) -> bool,
    keeps: spec_fn(usize) -> bool,
    b: u8,
    m: u8,
    j: nat,
)
    requires
        s.state == (EngineState::WriteBit { byte: b, remaining: m }),
        j <= m,
    ensures
        run(s, claims, keeps, slave_clocks(j)).0 == (Snapshot {
            state: EngineState::WriteBit { byte: b, remaining: (m - j) as u8 },
            ..s
        }),
        run(s, claims, keeps, slave_clocks(j)).1 == sent_bits_commands(b, m, j),
    decreases j,
{
    if j == 0 {
        assert(sent_bits_commands(b, m, 0) =~= Seq::<SdaCommand>::empty());
    } else {
        let j1 = (j - 1) as nat;
        lemma_slave_clocks(s, claims, keeps, b, m, j1);
        let e1 = ev(PinType::Scl, 1, 1);
        let e2 = ev(PinType::Scl, 0, 1);
        lemma_run_append(s, claims, keeps, slave_clocks(j1), seq![e1, e2]);
        let s1 = run(s, claims, keeps, slave_clocks(j1)).0;
        lemma_run2(s1, claims, keeps, e1, e2);
        assert(sent_bits_commands(b, m, j1) + seq![SdaCommand::Keep, bit_command(b, (m - j) as u8)]
            =~= sent_bits_commands(b, m, j));
    }
}

/// The commands while the slave sends `b` after its bit 7 is on SDA: bits 6
/// to 0 on the falling edges, then SDA is let go for the master's answer.
pub open spec fn sent_byte_commands(b: u8) -> Seq<SdaCommand> {
    sent_bits_commands(b, 7, 7) + seq![SdaCommand::Keep, SdaCommand::Release]
}

proof fn lemma_sent_byte(s: Snapshot, claims: spec_fn(u8) -> bool, keeps: spec_fn(usize) -> bool, b: u8)
    requires
        s.state == (EngineState::WriteBit { byte: b, remaining: 7 }),
    ensures
        run(s, claims, keeps, slave_clocks(8)).0 == (Snapshot { state: EngineState::AddressMatchedRead, ..s }),
        run(s, claims, keeps, slave_clocks(8)).1 == sent_byte_commands(b),
{
    lemma_slave_clocks(s, claims, keeps, b, 7, 7);
    let e1 = ev(PinType::Scl, 1, 1);
    let e2 = ev(PinType::Scl, 0, 1);
    lemma_run_append(s, claims, keeps, slave_clocks(7), seq![e1, e2]);
    lemma_run2(run(s, claims, keeps, slave_clocks(7)).0, claims, keeps, e1, e2);
}

/// The master's answer to a sent byte: SDA low (ACK) or high (NACK) while SCL
/// is low, SCL rises (the answer is sampled) and falls.
pub open spec fn master_ack(level: u8) -> Seq<Event> {
    seq![ev(PinType::Sda, level, 0), ev(PinType::Scl, 1, level), ev(PinType::Scl, 0, level)]
}

/// The master reads `n + 1` bytes, acknowledging all but the last.
pub open spec fn reads(n: nat) -> Seq<Event>
    decreases n,
{
    if n == 0 {
        slave_clocks(8) + master_ack(1)
    } else {
        slave_clocks(8) + master_ack(0) + reads((n - 1) as nat)
    }
}

/// The register `i` places after `c`: `c + i`, the pointer wrapping around
/// at the top as the engine moves it.
pub open spec fn register_after(c: usize, i: nat) -> usize
    decreases i,
{
    if i == 0 {
        c
    } else {
        next_register(register_after(c, (i - 1) as nat))
    }
}

/// Moving on once and then `i` places is moving on `i + 1` places.
pub proof fn lemma_register_after_next(c: usize, i: nat)
    ensures
        register_after(next_register(c), i) == register_after(c, i + 1),
    decreases i,
{
    reveal_with_fuel(register_after, 2);
    if i > 0 {
        lemma_register_after_next(c, (i - 1) as nat);
    }
}

/// Where it does not reach past the top, the register `i` places after `c` is `c + i`.
pub proof fn lemma_register_after_no_wrap(c: usize, i: nat)
    requires
        c + i <= usize::MAX,
    ensures
        register_after(c, i) == c + i,
    decreases i,
{
    if i > 0 {
        lemma_register_after_no_wrap(c, (i - 1) as nat);
    }
}

/// The commands while `n + 1` bytes are read from register `c` on: each byte
/// is sent, and after each ACK bit 7 of the next register goes onto SDA.
pub open spec fn read_commands(registers: Map<usize, u8>, c: usize, n: nat) -> Seq<SdaCommand>
    decreases n,
{
    if n == 0 {
        sent_byte_commands(registers[c]) + keeps_n(3)
    } else {
        sent_byte_commands(registers[c]) + seq![
            SdaCommand::Keep,
            SdaCommand::Keep,
            bit_command(registers[next_register(c)], 7),
        ] + read_commands(registers, next_register(c), (n - 1) as nat)
    }
}

proof fn lemma_reads(s: Snapshot, claims: spec_fn(u8) -> bool, keeps: spec_fn(usize) -> bool, n: nat)
    requires
        s.current_register is Some,
        s.state == (EngineState::WriteBit { byte: s.registers[s.current_register->0], remaining: 7 }),
    ensures
        run(s, claims, keeps, reads(n)).0 == (Snapshot {
            state: EngineState::ReadDone,
            current_register: Some(register_after(s.current_register->0, n)),
            ..s
        }),
        run(s, claims, keeps, reads(n)).1 == read_commands(s.registers, s.current_register->0, n),
    decreases n,
{
    let c = s.current_register->0;
    lemma_sent_byte(s, claims, keeps, s.registers[c]);
    let s1 = run(s, claims, keeps, slave_clocks(8)).0;
    if n == 0 {
        lemma_run_append(s, claims, keeps, slave_clocks(8), master_ack(1));
        lemma_run3(s1, claims, keeps, ev(PinType::Sda, 1, 0), ev(PinType::Scl, 1, 1), ev(PinType::Scl, 0, 1));
        assert(keeps_n(3) =~= seq![SdaCommand::Keep, SdaCommand::Keep, SdaCommand::Keep]);
    } else {
        lemma_run_append(s, claims, keeps, slave_clocks(8), master_ack(0));
        lemma_run3(s1, claims, keeps, ev(PinType::Sda, 0, 0), ev(PinType::Scl, 1, 0), ev(PinType::Scl, 0, 0));
        let s2 = run(s, claims, keeps, slave_clocks(8) + master_ack(0)).0;
        assert(s2 == Snapshot {
            state: EngineState::WriteBit { byte: s.registers[next_register(c)], remaining: 7 },
            current_register: Some(next_register(c)),
            ..s
        });
        lemma_reads(s2, claims, keeps, (n - 1) as nat);
        lemma_register_after_next(c, (n - 1) as nat);
        lemma_run_append(s, claims, keeps, slave_clocks(8) + master_ack(0), reads((n - 1) as nat));
        assert(reads(n) == slave_clocks(8) + master_ack(0) + reads((n - 1) as nat));
    }
}

/// A complete read transaction: START, the address with the write bit, the
/// register pointer, REPEATED START, the address with the read bit, then
/// `n + 1` bytes read by the master, which acknowledges all but the last, and STOP.
pub open spec fn read_transaction(addr: u8, reg: u8, n: nat) -> Seq<Event> {
    start_condition() + master_byte(address_byte(addr, false)) + ack_clock() + master_byte(reg)
        + ack_clock() + repeated_start() + master_byte(address_byte(addr, true)) + ack_clock()
        + reads(n) + stop_condition()
}

/// The commands over a complete read transaction: the three address and
/// pointer bytes are acknowledged, then bit 7 of register `reg` goes onto SDA
/// on the falling edge that ends the acknowledge, and the bytes of registers
/// `reg` to `reg + n` follow (the pointer wrapping around at the top).
pub open spec fn read_transaction_commands(registers: Map<usize, u8>, reg: u8, n: nat) -> Seq<SdaCommand> {
    keeps_n(2) + acked_byte_commands() + seq![SdaCommand::Keep, SdaCommand::Release]
        + acked_byte_commands() + seq![SdaCommand::Keep, SdaCommand::Release] + keeps_n(4)
        + acked_byte_commands() + seq![SdaCommand::Keep, bit_command(registers[reg as usize], 7)]
        + read_commands(registers, reg as usize, n) + keeps_n(3)
}

/// In a complete read transaction from a claimed address, the slave drives
/// onto SDA exactly the bytes of registers `reg`, `reg + 1`, ..., `reg + n`,
/// most significant bit first, changing SDA only while SCL is low; no register
/// changes and the engine ends idle with no register pointer.
pub proof fn lemma_read_transaction(
    s: Snapshot,
    claims: spec_fn(u8) -> bool,
    keeps: spec_fn(usize) -> bool,
    addr: u8,
    reg: u8,
    n: nat,
)
    requires
        s.state is Idle,
        addr < 128,
        claims(addr),
    ensures
        ({
            let r = run(s, claims, keeps, read_transaction(addr, reg, n));
            &&& r.0.state is Idle
            &&& r.0.current_register is None
            &&& r.0.registers == s.registers
            &&& r.1 == read_transaction_commands(s.registers, reg, n)
        }),
{
    let p1 = start_condition();
    let p2 = p1 + master_byte(address_byte(addr, false));
    let p3 = p2 + ack_clock();
    let p4 = p3 + master_byte(reg);
    let p5 = p4 + ack_clock();
    let p6 = p5 + repeated_start();
    let p7 = p6 + master_byte(address_byte(addr, true));
    let p8 = p7 + ack_clock();
    let p9 = p8 + reads(n);
    lemma_start(s, claims, keeps);
    let s1 = run(s, claims, keeps, p1).0;
    lemma_address_byte(s1, claims, keeps, addr, false);
    lemma_run_append(s, claims, keeps, p1, master_byte(address_byte(addr, false)));
    let s2 = run(s, claims, keeps, p2).0;
    lemma_ack_clock(s2, claims, keeps, AfterAck::RegisterPointer);
    lemma_run_append(s, claims, keeps, p2, ack_clock());
    let s3 = run(s, claims, keeps, p3).0;
    lemma_register_byte(s3, claims, keeps, reg);
    lemma_run_append(s, claims, keeps, p3, master_byte(reg));
    let s4 = run(s, claims, keeps, p4).0;
    lemma_ack_clock(s4, claims, keeps, AfterAck::Data);
    lemma_run_append(s, claims, keeps, p4, ack_clock());
    let s5 = run(s, claims, keeps, p5).0;
    lemma_repeated_start(s5, claims, keeps);
    lemma_run_append(s, claims, keeps, p5, repeated_start());
    let s6 = run(s, claims, keeps, p6).0;
    lemma_address_byte(s6, claims, keeps, addr, true);
    lemma_run_append(s, claims, keeps, p6, master_byte(address_byte(addr, true)));
    let s7 = run(s, claims, keeps, p7).0;
    lemma_run2(s7, claims, keeps, ev(PinType::Scl, 1, 0), ev(PinType::Scl, 0, 0));
    lemma_run_append(s, claims, keeps, p7, ack_clock());
    let s8 = run(s, claims, keeps, p8).0;
    lemma_reads(s8, claims, keeps, n);
    lemma_run_append(s, claims, keeps, p8, reads(n));
    let s9 = run(s, claims, keeps, p9).0;
    lemma_stop(s9, claims, keeps);
    lemma_run_append(s, claims, keeps, p9, stop_condition());
}


/// Whether the engine listens for START and STOP in `state`: idle, while
/// sampling a byte, or after a finished read. In the other states the slave
/// drives SDA or waits for the master's acknowledge bit.
pub open spec fn listens(state: EngineState) -> bool {
    state is Idle || receiving(state) || state is ReadDone
}

/// STOP wherever the engine listens for it returns it to `Idle` with no
/// register pointer, and changes no register.
pub proof fn lemma_stop_resets(
    s: Snapshot,
    claims: spec_fn(u8) -> bool,
    keeps: spec_fn(usize) -> bool,
    m: Message,
    other: u8,
)
    requires
        frame_wf(s.state, s.current_register),
        listens(s.state),
        is_stop(m, other),
    ensures
        apply_event(s, claims, keeps, (m, other)).state is Idle,
        apply_event(s, claims, keeps, (m, other)).current_register is None,
        apply_event(s, claims, keeps, (m, other)).registers == s.registers,
{
}

/// Idle, every event but START is ignored.
proof fn lemma_idle_ignores(s: Snapshot, claims: spec_fn(u8) -> bool, keeps: spec_fn(usize) -> bool, rest: Seq<Event>)
    requires
        s.state is Idle,
        forall|i: int| 0 <= i < rest.len() ==> !is_start(#[trigger] rest[i].0, rest[i].1),
    ensures
        run(s, claims, keeps, rest).0 == s,
        run(s, claims, keeps, rest).1 == keeps_n(rest.len()),
    decreases rest.len(),
{
    if rest.len() == 0 {
        assert(keeps_n(0) =~= Seq::<SdaCommand>::empty());
    } else {
        assert(!is_start(rest[0].0, rest[0].1));
        let tail = rest.drop_first();
        assert forall|i: int| 0 <= i < tail.len() implies !is_start(#[trigger] tail[i].0, tail[i].1) by {
            assert(tail[i] == rest[i + 1]);
        }
        lemma_idle_ignores(s, claims, keeps, tail);
        assert(seq![SdaCommand::Keep] + keeps_n(tail.len()) =~= keeps_n(rest.len()));
    }
}

/// A transfer to an address that the slave does not claim changes no
/// register and never has the slave pull SDA low: the engine is idle from the
/// address byte on and stays so up to the next START.
pub proof fn lemma_address_mismatch(
    s: Snapshot,
    claims: spec_fn(u8) -> bool,
    keeps: spec_fn(usize) -> bool,
    byte: u8,
    rest: Seq<Event>,
)
    requires
        s.state is Idle,
        !claims(byte / 2),
        forall|i: int| 0 <= i < rest.len() ==> !is_start(#[trigger] rest[i].0, rest[i].1),
    ensures
        ({
            let r = run(s, claims, keeps, start_condition() + master_byte(byte) + rest);
            &&& r.0.state is Idle
            &&& r.0.current_register is None
            &&& r.0.registers == s.registers
            &&& forall|i: int| 0 <= i < r.1.len() ==> r.1[i] == SdaCommand::Keep
        }),
{
    lemma_start(s, claims, keeps);
    let s1 = run(s, claims, keeps, start_condition()).0;
    lemma_master_byte(s1, claims, keeps, byte);
    let s7 = Snapshot { state: with_acc(s1.state, prefix_acc(byte, 7)), ..s1 };
    let b = bit_of(byte, 0);
    lemma_run3(s7, claims, keeps, ev(PinType::Sda, b, 0), ev(PinType::Scl, 1, b), ev(PinType::Scl, 0, b));
    lemma_run_append(s, claims, keeps, start_condition(), master_byte(byte));
    let s2 = run(s, claims, keeps, start_condition() + master_byte(byte)).0;
    assert(s2 == Snapshot { state: EngineState::Idle, current_register: None, ..s });
    lemma_idle_ignores(s2, claims, keeps, rest);
    lemma_run_append(s, claims, keeps, start_condition() + master_byte(byte), rest);
    let c = run(s, claims, keeps, start_condition() + master_byte(byte) + rest).1;
    assert(c =~= keeps_n(2) + (keeps_n(21) + seq![SdaCommand::Keep, SdaCommand::Keep, SdaCommand::Keep]) + keeps_n(rest.len()));
}

/// Writing `b` to register `reg` and then reading register `reg` gives `b`
/// back: the read drives exactly the bits of `b` onto SDA.
pub proof fn lemma_write_then_read(
    s: Snapshot,
    claims: spec_fn(u8) -> bool,
    keeps: spec_fn(usize) -> bool,
    addr: u8,
    reg: u8,
    b: u8,
)
    requires
        s.state is Idle,
        addr < 128,
        claims(addr),
        keeps(reg as usize),
    ensures
        ({
            let w = run(s, claims, keeps, write_transaction(addr, reg, seq![b])).0;
            let r = run(w, claims, keeps, read_transaction(addr, reg, 0));
            &&& w.registers[reg as usize] == b
            &&& r.1 == read_transaction_commands(w.registers, reg, 0)
        }),
{
    assert forall|i: int| 0 <= i < seq![b].len() implies #[trigger] keeps((reg + i) as usize) by {
        assert(i == 0);
    }
    lemma_write_transaction(s, claims, keeps, addr, reg, seq![b]);
    let w = run(s, claims, keeps, write_transaction(addr, reg, seq![b])).0;
    assert(w.registers[(reg + 0) as usize] == seq![b][0]);
    lemma_read_transaction(w, claims, keeps, addr, reg, 0);
}


/// Two write transactions back to back: the second one runs exactly as it
/// would alone on a fresh idle engine that holds the registers the first left;
/// the commands are those of the first followed by those of the second alone.
pub proof fn lemma_back_to_back(
    s: Snapshot,
    claims: spec_fn(u8) -> bool,
    keeps: spec_fn(usize) -> bool,
    addr: u8,
    reg1: u8,
    data1: Seq<u8>,
    reg2: u8,
    data2: Seq<u8>,
)
    requires
        s.state is Idle,
        addr < 128,
        claims(addr),
    ensures
        ({
            let first = run(s, claims, keeps, write_transaction(addr, reg1, data1));
            let fresh = Snapshot { state: EngineState::Idle, current_register: None, registers: first.0.registers };
            let alone = run(fresh, claims, keeps, write_transaction(addr, reg2, data2));
            let both = run(s, claims, keeps, write_transaction(addr, reg1, data1) + write_transaction(addr, reg2, data2));
            &&& both.0 == alone.0
            &&& both.1 == first.1 + alone.1
        }),
{
    lemma_write_transaction(s, claims, keeps, addr, reg1, data1);
    lemma_run_append(s, claims, keeps, write_transaction(addr, reg1, data1), write_transaction(addr, reg2, data2));
}


/// The number of SCL falling edges among `events`.
pub open spec fn scl_falls(events: Seq<Event>) -> nat
    decreases events.len(),
{
    if events.len() == 0 {
        0
    } else {
        (if is_scl_falling(events[0].0) {
            1nat
        } else {
            0nat
        }) + scl_falls(events.drop_first())
    }
}

/// While the slave sends `b` with `m` bits left, whatever the master does
/// and however SDA events interleave: the k-th SCL falling edge puts bit
/// `m - k` of `b` onto SDA, and every other event leaves SDA alone. So from
/// one falling edge to the next SDA shows one bit, most significant first,
/// and the master samples the bits of `b` in order on the rising edges
/// between them. Once the last bit is out, the next falling edge releases SDA
/// for the master's answer.
pub proof fn lemma_write_bits(
    s: Snapshot,
    claims: spec_fn(u8) -> bool,
    keeps: spec_fn(usize) -> bool,
    b: u8,
    m: u8,
    events: Seq<Event>,
)
    requires
        s.state == (EngineState::WriteBit { byte: b, remaining: m }),
        scl_falls(events) <= m,
    ensures
        run(s, claims, keeps, events).0 == (Snapshot {
            state: EngineState::WriteBit { byte: b, remaining: (m - scl_falls(events)) as u8 },
            ..s
        }),
        run(s, claims, keeps, events).1.len() == events.len(),
        forall|i: int| 0 <= i < events.len() ==> #[trigger] run(s, claims, keeps, events).1[i] == (
            if is_scl_falling(events[i].0) {
                bit_command(b, (m - scl_falls(events.take(i + 1))) as u8)
            } else {
                SdaCommand::Keep
            }),
        scl_falls(events) == m ==> ({
            let last = run(s, claims, keeps, events).0;
            forall|e: Event| is_scl_falling(e.0) ==> {
                &&& #[trigger] apply_event(last, claims, keeps, e).state is AddressMatchedRead
                &&& transition_at(last, claims, e).command == SdaCommand::Release
            }
        }),
    decreases events.len(),
{
    if events.len() == 0 {
        reveal_with_fuel(run, 1);
    } else {
        let e = events[0];
        let tail = events.drop_first();
        let f: nat = if is_scl_falling(e.0) { 1 } else { 0 };
        let m1 = (m - f) as u8;
        let s1 = apply_event(s, claims, keeps, e);
        assert(s1 == Snapshot { state: EngineState::WriteBit { byte: b, remaining: m1 }, ..s });
        lemma_write_bits(s1, claims, keeps, b, m1, tail);
        let c0 = transition_at(s, claims, e).command;
        let rt = run(s1, claims, keeps, tail);
        assert(run(s, claims, keeps, events).1 == seq![c0] + rt.1);
        assert forall|i: int| 0 <= i < events.len() implies #[trigger] run(s, claims, keeps, events).1[i] == (
            if is_scl_falling(events[i].0) {
                bit_command(b, (m - scl_falls(events.take(i + 1))) as u8)
            } else {
                SdaCommand::Keep
            }) by {
            assert(events.take(i + 1).drop_first() =~= tail.take(i));
            assert(events.take(i + 1)[0] == e);
            if i > 0 {
                assert(tail[i - 1] == events[i]);
                assert(tail.take(i - 1 + 1) =~= tail.take(i));
            } else {
                assert(tail.take(0) =~= Seq::<Event>::empty());
                reveal_with_fuel(scl_falls, 2);
            }
        }
    }
}


/// An SDA change seen while SCL is low.
pub open spec fn is_quiet(e: Event) -> bool {
    e.0.pin_type == PinType::Sda && !is_high(e.1)
}

/// `events` without the SDA changes seen while SCL is low.
pub open spec fn drop_quiet(events: Seq<Event>) -> Seq<Event>
    decreases events.len(),
{
    if events.len() == 0 {
        Seq::empty()
    } else if is_quiet(events[0]) {
        drop_quiet(events.drop_first())
    } else {
        seq![events[0]] + drop_quiet(events.drop_first())
    }
}

/// The commands given for the events of `events` that `drop_quiet` keeps.
pub open spec fn drop_quiet_commands(events: Seq<Event>, commands: Seq<SdaCommand>) -> Seq<SdaCommand>
    decreases events.len(),
{
    if events.len() == 0 {
        Seq::empty()
    } else if is_quiet(events[0]) {
        drop_quiet_commands(events.drop_first(), commands.drop_first())
    } else {
        seq![commands[0]] + drop_quiet_commands(events.drop_first(), commands.drop_first())
    }
}

/// SDA changes seen while SCL is low make no difference to a run: with or
/// without them it ends in the same snapshot, each of them gets `Keep`, and
/// the other events get the same commands. So the laws, which give the
/// master's every bit an SDA event, hold as well for observers that report
/// only real changes, and for the slave's own changes reported back.
pub proof fn lemma_quiet_events_ignored(
    s: Snapshot,
    claims: spec_fn(u8) -> bool,
    keeps: spec_fn(usize) -> bool,
    events: Seq<Event>,
)
    ensures
        run(s, claims, keeps, events).0 == run(s, claims, keeps, drop_quiet(events)).0,
        drop_quiet_commands(events, run(s, claims, keeps, events).1) == run(s, claims, keeps, drop_quiet(events)).1,
        forall|i: int| 0 <= i < events.len() && is_quiet(#[trigger] events[i]) ==> run(s, claims, keeps, events).1[i]
            == SdaCommand::Keep,
    decreases events.len(),
{
    if events.len() == 0 {
        reveal_with_fuel(run, 1);
    } else {
        let e = events[0];
        let tail = events.drop_first();
        let s1 = apply_event(s, claims, keeps, e);
        lemma_quiet_events_ignored(s1, claims, keeps, tail);
        let full = run(s, claims, keeps, events);
        let rt = run(s1, claims, keeps, tail);
        assert(full.1 == seq![transition_at(s, claims, e).command] + rt.1);
        lemma_run_length(s1, claims, keeps, tail);
        assert(full.1.drop_first() =~= rt.1);
        if is_quiet(e) {
            lemma_sda_while_scl_low_is_ignored(s.state, s.current_register, e.0, e.1, claims, |j: usize| s.registers[j]);
            assert(s1 == s);
            lemma_quiet_events_ignored(s, claims, keeps, tail);
        } else {
            let d = drop_quiet(tail);
            assert((seq![e] + d).drop_first() =~= d);
            assert((seq![e] + d)[0] == e);
            let rd = run(s1, claims, keeps, d);
            assert(run(s, claims, keeps, seq![e] + d).1 == seq![transition_at(s, claims, e).command] + rd.1);
        }
        assert forall|i: int| 0 <= i < events.len() && is_quiet(#[trigger] events[i]) implies full.1[i] == SdaCommand::Keep by {
            if i == 0 {
                lemma_sda_while_scl_low_is_ignored(s.state, s.current_register, e.0, e.1, claims, |j: usize| s.registers[j]);
            } else {
                assert(tail[i - 1] == events[i]);
                assert(full.1[i] == rt.1[i - 1]);
                assert(is_quiet(tail[i - 1]));
            }
        }
    }
}

} // verus!
