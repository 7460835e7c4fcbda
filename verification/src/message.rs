//! Human-readable descriptions of the errors.
use vstd::prelude::*;
use vstd::string::StringExecFns;

use crate::codec::{ascii_text, ascii_to_string, hex_lower, hex_lower_bytes};
use crate::error::PrinterError;
use crate::packet::PacketError;

verus! {

/// ASCII decimal digits of `n`, without leading zeros.
pub open spec fn decimal(n: nat) -> Seq<u8>
    decreases n,
{
    if n < 10 {
        seq![(0x30 + n) as u8]
    } else {
        decimal(n / 10).push((0x30 + n % 10) as u8)
    }
}

/// The texts of `parts` with `separator` between each two.
pub open spec fn joined(parts: Seq<Seq<char>>, separator: Seq<char>) -> Seq<char>
    decreases parts.len(),
{
    if parts.len() == 0 {
        Seq::empty()
    } else if parts.len() == 1 {
        parts[0]
    } else {
        joined(parts.drop_last(), separator) + separator + parts.last()
    }
}

fn push_decimal(n: u64, out: &mut Vec<u8>)
    ensures
        final(out)@ == old(out)@ + decimal(n as nat),
        forall|i: int|
            0 <= i < final(out)@.len() ==> (#[trigger] final(out)@[i] < 0x80 || i < old(
                out,
            )@.len()),
        forall|i: int| 0 <= i < old(out)@.len() ==> final(out)@[i] == old(out)@[i],
    decreases n,
{
    if n >= 10 {
        push_decimal(n / 10, out);
    }
    out.push((0x30 + n % 10) as u8);
    assert(out@ =~= old(out)@ + decimal(n as nat));
}

/// Formats a number in decimal.
pub(crate) fn decimal_text(n: u64) -> (res: String)
    ensures
        res@ == ascii_text(decimal(n as nat)),
{
    let mut digits: Vec<u8> = Vec::new();
    push_decimal(n, &mut digits);
    assert(digits@ =~= decimal(n as nat));
    ascii_string(&digits)
}

/// The string of a byte string of ASCII codes.
fn ascii_string(bytes: &Vec<u8>) -> (res: String)
    requires
        forall|i: int| 0 <= i < bytes@.len() ==> #[trigger] bytes@[i] < 0x80,
    ensures
        res@ == ascii_text(bytes@),
{
    ascii_to_string(bytes.as_slice())
}

/// `Display` of `std::io::Error`; the text comes from the operating system
/// and is not described here.
#[verifier::external_body]
fn io_error_text(error: &std::io::Error) -> String {
    format!("{error}")
}

/// `Display` of `serialport::Error`; its text is not described here.
#[verifier::external_body]
fn serial_error_text(error: &serialport::Error) -> String {
    format!("{error}")
}

/// `Display` of `std::str::Utf8Error`; its text is not described here.
#[verifier::external_body]
fn utf8_error_text(error: &std::str::Utf8Error) -> String {
    format!("{error}")
}

/// Joins texts with a separator.
fn join_texts(parts: &Vec<String>, separator: &str) -> (res: String)
    ensures
        res@ == joined(parts@.map_values(|p: String| p@), separator@),
{
    let ghost views = parts@.map_values(|p: String| p@);
    let mut out = String::new();
    let mut i: usize = 0;
    while i < parts.len()
        invariant
            i <= parts@.len(),
            views == parts@.map_values(|p: String| p@),
            out@ == joined(views.take(i as int), separator@),
        decreases parts@.len() - i,
    {
        assert(views.take(i + 1).drop_last() =~= views.take(i as int));
        if i != 0 {
            out.append(separator);
        }
        out.append(parts[i].as_str());
        i = i + 1;
    }
    assert(views.take(i as int) =~= views);
    out
}

/// The description of a packet error.
pub open spec fn packet_error_text(error: PacketError) -> Seq<char> {
    match error {
        PacketError::TooShort(len) => "packet too short: "@ + ascii_text(
            decimal(len as nat),
        ) + " bytes"@,
        PacketError::InvalidHeader => "invalid packet header"@,
        PacketError::InvalidFooter => "invalid packet footer"@,
        PacketError::InvalidLength { declared, actual } => "invalid packet length: declared "@
            + ascii_text(decimal(declared as nat)) + ", actual "@ + ascii_text(
            decimal(actual as nat),
        ),
        PacketError::InvalidChecksum { expected, actual } =>
            "invalid packet checksum: expected 0x"@ + ascii_text(
            hex_lower_bytes(seq![expected]),
        ) + ", got 0x"@ + ascii_text(hex_lower_bytes(seq![actual])),
    }
}

impl PacketError {
    /// Describes the error.
    pub fn message(&self) -> (res: String)
        ensures
            res@ == packet_error_text(*self),
    {
        match self {
            PacketError::TooShort(len) => {
                let mut out = String::from_str("packet too short: ");
                out.append(decimal_text(*len as u64).as_str());
                out.append(" bytes");
                out
            },
            PacketError::InvalidHeader => String::from_str("invalid packet header"),
            PacketError::InvalidFooter => String::from_str("invalid packet footer"),
            PacketError::InvalidLength { declared, actual } => {
                let mut out = String::from_str("invalid packet length: declared ");
                out.append(decimal_text(*declared as u64).as_str());
                out.append(", actual ");
                out.append(decimal_text(*actual as u64).as_str());
                out
            },
            PacketError::InvalidChecksum { expected, actual } => {
                let expected_byte = [*expected];
                let actual_byte = [*actual];
                assert(expected_byte@ =~= seq![*expected]);
                assert(actual_byte@ =~= seq![*actual]);
                let mut out = String::from_str("invalid packet checksum: expected 0x");
                out.append(hex_lower(expected_byte.as_slice()).as_str());
                out.append(", got 0x");
                out.append(hex_lower(actual_byte.as_slice()).as_str());
                out
            },
        }
    }
}

impl PrinterError {
    /// Describes the error. The descriptions of I/O, serial-port and UTF-8
    /// errors are those of the underlying error and are not stated here.
    pub fn message(&self) -> (res: String)
        ensures
            match *self {
                PrinterError::Packet(e) => res@ == packet_error_text(e),
                PrinterError::InvalidDensity(v) => res@ == "invalid density: "@ + ascii_text(
                    decimal(v as nat),
                ),
                PrinterError::InvalidLabelType(v) => res@ == "invalid label type: "@ + ascii_text(
                    decimal(v as nat),
                ),
                PrinterError::InvalidBluetoothAddress(address) => res@
                    == "invalid bluetooth MAC address: "@ + address@,
                PrinterError::MissingBluetoothAddress => res@
                    == "bluetooth connection requires an address"@,
                PrinterError::UnsupportedBluetoothPlatform => res@
                    == "bluetooth transport is only supported on Linux and Android"@,
                PrinterError::NoSerialPortsDetected => res@ == "no serial ports detected"@,
                PrinterError::TooManySerialPorts(ports) => res@ == "multiple serial ports detected: "@
                    + joined(ports@.map_values(|p: String| p@), ", "@),
                PrinterError::MalformedResponse(message) => res@ == "malformed device response: "@
                    + message@,
                PrinterError::Timeout => res@ == "timed out waiting for printer response"@,
                PrinterError::DeviceError => res@ == "printer reported a device error"@,
                PrinterError::UnsupportedResponse => res@
                    == "printer returned an unsupported response"@,
                _ => true,
            },
    {
        match self {
            PrinterError::Io(e) => io_error_text(e),
            PrinterError::IoSerial(e) => serial_error_text(e),
            PrinterError::Packet(e) => e.message(),
            PrinterError::Utf8(e) => utf8_error_text(e),
            PrinterError::InvalidDensity(v) => {
                let mut out = String::from_str("invalid density: ");
                out.append(decimal_text(*v as u64).as_str());
                out
            },
            PrinterError::InvalidLabelType(v) => {
                let mut out = String::from_str("invalid label type: ");
                out.append(decimal_text(*v as u64).as_str());
                out
            },
            PrinterError::InvalidBluetoothAddress(address) => {
                let mut out = String::from_str("invalid bluetooth MAC address: ");
                out.append(address.as_str());
                out
            },
            PrinterError::MissingBluetoothAddress => String::from_str(
                "bluetooth connection requires an address",
            ),
            PrinterError::UnsupportedBluetoothPlatform => String::from_str(
                "bluetooth transport is only supported on Linux and Android",
            ),
            PrinterError::NoSerialPortsDetected => String::from_str("no serial ports detected"),
            PrinterError::TooManySerialPorts(ports) => {
                let mut out = String::from_str("multiple serial ports detected: ");
                out.append(join_texts(ports, ", ").as_str());
                out
            },
            PrinterError::MalformedResponse(message) => {
                let mut out = String::from_str("malformed device response: ");
                out.append(message);
                out
            },
            PrinterError::Timeout => String::from_str("timed out waiting for printer response"),
            PrinterError::DeviceError => String::from_str("printer reported a device error"),
            PrinterError::UnsupportedResponse => String::from_str(
                "printer returned an unsupported response",
            ),
        }
    }
}

} // verus!
