//! The error type of the printer client.
use vstd::prelude::*;

use crate::packet::PacketError;

verus! {

#[verifier::external_type_specification]
#[verifier::external_body]
pub struct ExIoError(std::io::Error);

#[verifier::external_type_specification]
#[verifier::external_body]
pub struct ExUtf8Error(std::str::Utf8Error);

#[verifier::external_type_specification]
#[verifier::external_body]
pub struct ExSerialError(serialport::Error);

/// Everything that can go wrong while talking to a printer.
#[derive(Debug)]
pub enum PrinterError {
    Io(std::io::Error),
    IoSerial(serialport::Error),
    Packet(PacketError),
    Utf8(std::str::Utf8Error),
    InvalidDensity(u8),
    InvalidLabelType(u8),
    InvalidBluetoothAddress(String),
    MissingBluetoothAddress,
    UnsupportedBluetoothPlatform,
    NoSerialPortsDetected,
    TooManySerialPorts(Vec<String>),
    MalformedResponse(&'static str),
    Timeout,
    DeviceError,
    UnsupportedResponse,
}

impl From<std::io::Error> for PrinterError {
    fn from(value: std::io::Error) -> (res: Self) {
        PrinterError::Io(value)
    }
}

impl vstd::std_specs::convert::FromSpecImpl<std::io::Error> for PrinterError {
    open spec fn obeys_from_spec() -> bool {
        true
    }

    open spec fn from_spec(v: std::io::Error) -> PrinterError {
        PrinterError::Io(v)
    }
}

impl From<PacketError> for PrinterError {
    fn from(value: PacketError) -> (res: Self) {
        PrinterError::Packet(value)
    }
}

impl vstd::std_specs::convert::FromSpecImpl<PacketError> for PrinterError {
    open spec fn obeys_from_spec() -> bool {
        true
    }

    open spec fn from_spec(v: PacketError) -> PrinterError {
        PrinterError::Packet(v)
    }
}

} // verus!
