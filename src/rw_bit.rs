//! The read/write bit that closes the first byte of every transfer.
use vstd::prelude::*;

verus! {

/// Direction of a transfer, as seen from the slave.
#[derive(Clone, Copy, PartialEq, Eq, Structural, Debug)]
pub enum RWBit {
    /// The master reads: the slave sends bytes (R/W bit 1).
    SlaveRead,
    /// The master writes: the slave receives bytes (R/W bit 0).
    SlaveWrite,
}

/// The same direction under the name the address helpers use.
pub type ReadWriteBit = RWBit;

/// The direction that an R/W bit value selects: 0 writes, any other value
/// is taken as a read.
pub open spec fn rw_of_bit(value: u8) -> RWBit {
    if value == 0 {
        RWBit::SlaveWrite
    } else {
        RWBit::SlaveRead
    }
}

/// The direction encoded in the least significant bit of an address byte.
pub open spec fn rw_of_byte(byte: u8) -> RWBit {
    if byte % 2 == 1 {
        RWBit::SlaveRead
    } else {
        RWBit::SlaveWrite
    }
}

impl From<u8> for RWBit {
    fn from(value: u8) -> (r: RWBit) {
        if value == 0 {
            RWBit::SlaveWrite
        } else {
            RWBit::SlaveRead
        }
    }
}

impl vstd::std_specs::convert::FromSpecImpl<u8> for RWBit {
    open spec fn obeys_from_spec() -> bool {
        true
    }

    open spec fn from_spec(value: u8) -> RWBit {
        rw_of_bit(value)
    }
}

impl ReadWriteBit {
    /// The direction selected by the least significant bit of `value`.
    pub fn from_value(value: u8) -> (r: ReadWriteBit)
        ensures
            r == rw_of_byte(value),
    {
        proof {
            assert(value & 1 == value % 2) by (bit_vector);
        }
        if value & 1 == 1 {
            RWBit::SlaveRead
        } else {
            RWBit::SlaveWrite
        }
    }

    /// The text form of the direction.
    pub fn name(&self) -> (r: String)
        ensures
            r@ == (match *self {
                RWBit::SlaveRead => "SlaveRead"@,
                RWBit::SlaveWrite => "SlaveWrite"@,
            }),
    {
        match *self {
            RWBit::SlaveRead => "SlaveRead".to_owned(),
            RWBit::SlaveWrite => "SlaveWrite".to_owned(),
        }
    }
}

/// Splits the first byte of a transfer into the 7-bit address (the upper
/// seven bits) and the direction (the lowest bit).
pub fn split_address_and_rw(address_and_rw: u8) -> (r: (u8, RWBit))
    ensures
        r.0 == address_and_rw / 2,
        r.1 == rw_of_byte(address_and_rw),
{
    let rw = RWBit::from(address_and_rw & 1);
    proof {
        assert(address_and_rw & 1 == address_and_rw % 2) by (bit_vector);
        assert(address_and_rw >> 1 == address_and_rw / 2) by (bit_vector);
    }
    (address_and_rw >> 1, rw)
}

} // verus!
