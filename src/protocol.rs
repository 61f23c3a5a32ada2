//! The register protocol: what the slave answers to and what its registers
//! hold. The engine reaches the register file only through this trait.
use vstd::prelude::*;

verus! {

/// A register file that the protocol engine serves to the master.
///
/// Its state is seen through three spec functions: the addresses it claims,
/// the byte each register reads as, and the registers whose writes it keeps.
/// Writes to other registers are dropped, which covers every out-of-range
/// policy that only ignores, extends or refuses.
pub trait I2CProtocol {
    /// Whether this slave answers to the 7-bit `address`.
    spec fn claims(&self, address: u8) -> bool;

    /// The byte that `register` reads as.
    spec fn stored(&self, register: usize) -> u8;

    /// Whether a write to `register` is kept.
    spec fn keeps_writes(&self, register: usize) -> bool;

    /// Checks if the received address is our address. The R/W bit is
    /// already stripped, so the most significant bit is always 0.
    fn check_address(&self, address: u8) -> (r: bool)
        ensures
            r == self.claims(address),
    ;

    /// Stores `data` in `register` where writes to it are kept; every other
    /// register, the claimed addresses and the kept registers stay as they were.
    fn set_register(&mut self, register: usize, data: u8)
        ensures
            forall|a: u8| #[trigger] final(self).claims(a) == old(self).claims(a),
            forall|j: usize| #[trigger] final(self).keeps_writes(j) == old(self).keeps_writes(j),
            forall|j: usize|
                #[trigger] final(self).stored(j) == stored_after_write(
                    old(self).stored(j),
                    j,
                    register,
                    data,
                    old(self).keeps_writes(register),
                ),
    ;

    /// Reads `register`.
    fn get_register(&self, register: usize) -> (r: u8)
        ensures
            r == self.stored(register),
    ;
}

/// What register `j` reads as after `data` was written to `register`, given
/// what it read as before and whether the write is kept.
pub open spec fn stored_after_write(
    before: u8,
    j: usize,
    register: usize,
    data: u8,
    kept: bool,
) -> u8 {
    if j == register && kept {
        data
    } else {
        before
    }
}

/// Whether `address` is a 7-bit address that a normal slave may use: the
/// general call address, the other low reserved addresses and the top
/// reserved block are refused.
pub open spec fn is_valid_address_7b(address: u8) -> bool {
    9 <= address && address <= 0x77
}

/// Checks that `address` is a usable 7-bit slave address.
pub fn validate_address_7b(address: u8) -> (r: bool)
    ensures
        r == is_valid_address_7b(address),
{
    if address > 0x80 {
        return false;
    }
    if address <= 0x08 || address >= 0x78 {
        false
    } else {
        true
    }
}

/// A register file held in memory that grows on demand: a write past its
/// end extends it with zeros, a read past its end gives 0.
#[derive(Debug, Clone)]
pub struct ProtocolImplementation {
    pub address: u8,
    pub registers: Vec<u8>,
}

impl ProtocolImplementation {
    /// A slave at `address` whose registers start as `registers`.
    pub fn new(address: u8, registers: Vec<u8>) -> (r: ProtocolImplementation)
        ensures
            r.address == address,
            r.registers@ == registers@,
    {
        ProtocolImplementation { address, registers }
    }

    /// The register contents as they stand.
    pub fn registers(&self) -> (r: &Vec<u8>)
        ensures
            r@ == self.registers@,
    {
        &self.registers
    }
}

impl I2CProtocol for ProtocolImplementation {
    open spec fn claims(&self, address: u8) -> bool {
        address == self.address && address != 0
    }

    open spec fn stored(&self, register: usize) -> u8 {
        if register < self.registers@.len() {
            self.registers@[register as int]
        } else {
            0
        }
    }

    open spec fn keeps_writes(&self, register: usize) -> bool {
        register < usize::MAX
    }

    fn check_address(&self, address: u8) -> (r: bool) {
        self.address == address && address != 0
    }

    /// Past the end the file is first extended with zeros up to `register`;
    /// the last index, `usize::MAX`, is never written.
    fn set_register(&mut self, register: usize, data: u8)
        ensures
            final(self).address == old(self).address,
            register == usize::MAX ==> final(self).registers@ == old(self).registers@,
            register < usize::MAX ==> final(self).registers@.len() == (if register < old(self).registers@.len() {
                old(self).registers@.len() as int
            } else {
                register + 1
            }),
            register < usize::MAX ==> final(self).registers@[register as int] == data,
            register < usize::MAX ==> forall|j: int|
                0 <= j < final(self).registers@.len() && j != register ==> #[trigger] final(self).registers@[j] == (
                if j < old(self).registers@.len() {
                    old(self).registers@[j]
                } else {
                    0
                }),
    {
        if register == usize::MAX {
            return;
        }
        let ghost before = self.registers@;
        while self.registers.len() <= register
            invariant
                self.address == old(self).address,
                before == old(self).registers@,
                register < usize::MAX,
                before.len() <= self.registers@.len(),
                self.registers@.len() <= register + 1 || self.registers@.len() == before.len(),
                forall|j: int| 0 <= j < before.len() ==> self.registers@[j] == before[j],
                forall|j: int| before.len() <= j < self.registers@.len() ==> self.registers@[j] == 0,
            decreases register + 1 - self.registers@.len(),
        {
            self.registers.push(0);
        }
        self.registers.set(register, data);
    }

    fn get_register(&self, register: usize) -> (r: u8) {
        if register < self.registers.len() {
            self.registers[register]
        } else {
            0
        }
    }
}

} // verus!
