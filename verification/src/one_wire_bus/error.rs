//! Errors of the 1-Wire bus.

use vstd::prelude::*;

verus! {

/// What can go wrong on a 1-Wire bus.
#[derive(Debug)]
pub enum OneWireError {
    /// The Bus was expected to be pulled high by a ~5K ohm pull-up resistor, but it wasn't
    BusNotHigh,
    /// The pin driver failed; its message.
    PinError(String),
    /// An unexpected response was received from a command. This generally happens when a new sensor is added
    /// or removed from the bus during a command, such as a device search.
    UnexpectedResponse,
    FamilyCodeMismatch,
    CrcMismatch,
    Timeout,
}

/// The result of a 1-Wire operation.
pub type OneWireResult<T> = Result<T, OneWireError>;

} // verus!
