//! Errors reported by the protocol engine and by the pin layer.
use vstd::prelude::*;

verus! {

/// An error of the protocol engine.
#[derive(Debug, Clone)]
pub enum Error {
    /// A failure reported by the GPIO layer, with its description.
    Generic(String),
    /// A START or STOP condition where the protocol allows only data bits.
    UnexpectedSdaEdge,
}

impl Error {
    /// A human-readable description of the error.
    pub fn description(&self) -> (r: String)
        ensures
            r@ == (match self {
                Error::Generic(d) => d@,
                Error::UnexpectedSdaEdge => "Unexpected sda edge"@,
            }),
    {
        match self {
            Error::Generic(d) => d.clone(),
            Error::UnexpectedSdaEdge => "Unexpected sda edge".to_owned(),
        }
    }
}

/// A failure of one GPIO line.
#[derive(Debug, Clone)]
pub struct PinError {
    pub msg: String,
}

impl PinError {
    pub fn new(msg: String) -> (r: PinError)
        ensures
            r.msg@ == msg@,
    {
        PinError { msg }
    }

    pub fn description(&self) -> (r: String)
        ensures
            r@ == self.msg@,
    {
        self.msg.clone()
    }
}

/// A failure of the pair of lines, carrying the description of its cause.
#[derive(Debug, Clone)]
pub struct HardwareError {
    pub message: String,
}

impl HardwareError {
    pub fn new(message: String) -> (r: HardwareError)
        ensures
            r.message@ == message@,
    {
        HardwareError { message }
    }

    pub fn description(&self) -> (r: String)
        ensures
            r@ == self.message@,
    {
        self.message.clone()
    }
}

impl From<PinError> for HardwareError {
    fn from(error: PinError) -> (r: HardwareError) {
        HardwareError { message: error.msg }
    }
}

impl vstd::std_specs::convert::FromSpecImpl<PinError> for HardwareError {
    open spec fn obeys_from_spec() -> bool {
        true
    }

    open spec fn from_spec(error: PinError) -> HardwareError {
        HardwareError { message: error.msg }
    }
}

impl From<HardwareError> for Error {
    fn from(error: HardwareError) -> (r: Error) {
        Error::Generic(error.message)
    }
}

impl vstd::std_specs::convert::FromSpecImpl<HardwareError> for Error {
    open spec fn obeys_from_spec() -> bool {
        true
    }

    open spec fn from_spec(error: HardwareError) -> Error {
        Error::Generic(error.message)
    }
}

} // verus!
