//! Decoding of the printer's replies and of its byte-level text fields.
use vstd::prelude::*;
use vstd::string::StringSliceAdditionalSpecFns;
use vstd::utf8::*;

use crate::error::PrinterError;

verus! {

/// The characters of a byte string that holds only ASCII codes.
pub open spec fn ascii_text(bytes: Seq<u8>) -> Seq<char> {
    Seq::new(bytes.len(), |i: int| bytes[i] as char)
}

/// ASCII code of the lowercase hexadecimal digit for `nibble` (0 to 15).
pub open spec fn hex_digit(nibble: u8) -> u8 {
    if nibble < 10 {
        (0x30 + nibble) as u8
    } else {
        (0x57 + nibble) as u8
    }
}

/// Two lowercase hexadecimal digits per byte, high nibble first.
pub open spec fn hex_lower_bytes(data: Seq<u8>) -> Seq<u8>
    decreases data.len(),
{
    if data.len() == 0 {
        Seq::empty()
    } else {
        hex_lower_bytes(data.drop_last()) + seq![
            hex_digit(data.last() >> 4u8),
            hex_digit(data.last() & 0x0fu8),
        ]
    }
}

/// The bytes read as one big-endian number.
pub open spec fn be_number(data: Seq<u8>) -> nat
    decreases data.len(),
{
    if data.len() == 0 {
        0
    } else {
        (be_number(data.drop_last()) * 256 + data.last()) as nat
    }
}

/// The big-endian number of the bytes, modulo 2^32: of more than four bytes
/// only the last four count.
pub open spec fn be_u32(data: Seq<u8>) -> u32 {
    (be_number(data) % 0x1_0000_0000) as u32
}

/// One step of reading a big-endian number into 32 bits: shifting in a byte
/// keeps the value modulo 2^32.
proof fn lemma_shift_in_byte(number: nat, acc: u32, byte: u8)
    requires
        acc == number % 0x1_0000_0000,
    ensures
        ((acc << 8u32) | (byte as u32)) == (number * 256 + byte) % 0x1_0000_0000,
{
    let m: int = 0x1_0000_0000;
    assert(((acc << 8u32) | (byte as u32)) == ((acc as int) * 256 + byte) % 0x1_0000_0000)
        by (bit_vector);
    vstd::arithmetic::div_mod::lemma_add_mod_noop(acc * 256, byte as int, m);
    vstd::arithmetic::div_mod::lemma_mul_mod_noop_left(number as int, 256, m);
    vstd::arithmetic::div_mod::lemma_add_mod_noop(number as int * 256, byte as int, m);
}

/// `std::str::from_utf8`: it accepts exactly the byte strings that are valid
/// UTF-8, and the string it then returns is the one those bytes encode.
#[verifier::external_body]
fn str_from_utf8(bytes: &[u8]) -> (res: Result<&str, std::str::Utf8Error>)
    ensures
        res is Ok <==> valid_utf8(bytes@),
        res matches Ok(s) ==> s@ == decode_utf8(bytes@),
{
    std::str::from_utf8(bytes)
}

/// A byte string of ASCII codes is valid UTF-8 and decodes code for code.
proof fn lemma_ascii_utf8(bytes: Seq<u8>)
    requires
        forall|i: int| 0 <= i < bytes.len() ==> #[trigger] bytes[i] < 0x80,
    ensures
        valid_utf8(bytes),
        decode_utf8(bytes) == ascii_text(bytes),
    decreases bytes.len(),
{
    if bytes.len() > 0 {
        let b = bytes[0];
        assert(b < 0x80);
        assert((b & 0x7F) == b) by (bit_vector)
            requires
                b < 0x80,
        ;
        let rest = bytes.subrange(1, bytes.len() as int);
        assert(pop_first_scalar(bytes) =~= rest);
        assert forall|i: int| 0 <= i < rest.len() implies #[trigger] rest[i] < 0x80 by {
            assert(rest[i] == bytes[i + 1]);
        }
        lemma_ascii_utf8(rest);
        assert(decode_utf8(bytes) =~= ascii_text(bytes));
    }
}

/// Formats bytes as lowercase hexadecimal, two digits per byte.
pub fn hex_lower(data: &[u8]) -> (res: String)
    ensures
        res@ == ascii_text(hex_lower_bytes(data@)),
{
    let mut out: Vec<u8> = Vec::new();
    let mut i: usize = 0;
    while i < data.len()
        invariant
            i <= data@.len(),
            out@ == hex_lower_bytes(data@.take(i as int)),
            forall|k: int| 0 <= k < out@.len() ==> #[trigger] out@[k] < 0x80,
        decreases data@.len() - i,
    {
        let byte = data[i];
        let high = byte >> 4;
        let low = byte & 0x0f;
        assert(high < 16 && low < 16) by (bit_vector)
            requires
                high == byte >> 4u8,
                low == byte & 0x0fu8,
        ;
        let high_digit = if high < 10 { 0x30 + high } else { 0x57 + high };
        let low_digit = if low < 10 { 0x30 + low } else { 0x57 + low };
        out.push(high_digit);
        out.push(low_digit);
        assert(data@.take(i + 1).drop_last() =~= data@.take(i as int));
        i = i + 1;
    }
    assert(data@.take(i as int) =~= data@);
    ascii_to_string(out.as_slice())
}

/// The string of a byte string of ASCII codes.
pub(crate) fn ascii_to_string(bytes: &[u8]) -> (res: String)
    requires
        forall|i: int| 0 <= i < bytes@.len() ==> #[trigger] bytes@[i] < 0x80,
    ensures
        res@ == ascii_text(bytes@),
{
    proof {
        lemma_ascii_utf8(bytes@);
    }
    match str_from_utf8(bytes) {
        Ok(text) => text.to_owned(),
        Err(_) => {
            assert(false);
            String::new()
        },
    }
}

/// Reads bytes as a big-endian unsigned number, keeping the low 32 bits.
pub fn packet_data_to_u32(data: &[u8]) -> (res: u32)
    ensures
        res == be_u32(data@),
{
    let mut acc: u32 = 0;
    let mut i: usize = 0;
    while i < data.len()
        invariant
            i <= data@.len(),
            acc == be_u32(data@.take(i as int)),
        decreases data@.len() - i,
    {
        assert(data@.take(i + 1).drop_last() =~= data@.take(i as int));
        proof {
            lemma_shift_in_byte(be_number(data@.take(i as int)), acc, data@[i as int]);
        }
        acc = (acc << 8) | (data[i] as u32);
        i = i + 1;
    }
    assert(data@.take(i as int) =~= data@);
    acc
}


/// Where a length-prefixed field that starts at `idx` lies: its bytes and the
/// index just past it, or `None` when the length byte or the bytes it
/// announces run past the end of `data`.
pub open spec fn prefixed_field(data: Seq<u8>, idx: int) -> Option<(Seq<u8>, int)> {
    if idx >= data.len() {
        None
    } else {
        let end = idx + 1 + data[idx];
        if end > data.len() {
            None
        } else {
            Some((data.subrange(idx + 1, end), end))
        }
    }
}

/// Reads a string stored as a length byte followed by that many UTF-8 bytes,
/// starting at `*idx`, and moves `*idx` past it. A field that runs past the end
/// of `data` is reported as a malformed response named `field`. On failure
/// `*idx` stays where it was when not even the length byte is there, and
/// otherwise ends just past the length byte.
pub fn read_len_prefixed_string(data: &[u8], idx: &mut usize, field: &'static str) -> (res:
    Result<String, PrinterError>)
    ensures
        match prefixed_field(data@, *old(idx) as int) {
            None => res matches Err(PrinterError::MalformedResponse(f)) && f == field,
            Some((bytes, end)) => if valid_utf8(bytes) {
                &&& res matches Ok(s) && s@ == decode_utf8(bytes)
                &&& *final(idx) == end
            } else {
                res matches Err(PrinterError::Utf8(_))
            },
        },
        *old(idx) >= data@.len() ==> *final(idx) == *old(idx),
        (*old(idx) < data@.len() && res is Err) ==> *final(idx) == *old(idx) + 1,
{
    if *idx >= data.len() {
        return Err(PrinterError::MalformedResponse(field));
    }
    let len = data[*idx] as usize;
    *idx = *idx + 1;
    if len > data.len() - *idx {
        return Err(PrinterError::MalformedResponse(field));
    }
    let start = *idx;
    let bytes = &data[start..start + len];
    match str_from_utf8(bytes) {
        Ok(text) => {
            *idx = start + len;
            Ok(text.to_owned())
        },
        Err(e) => Err(PrinterError::Utf8(e)),
    }
}

/// A two-byte big-endian number.
pub open spec fn be_u16(high: u8, low: u8) -> u16 {
    (high * 256 + low) as u16
}

fn u16_from_be(high: u8, low: u8) -> (res: u16)
    ensures
        res == be_u16(high, low),
{
    let res = ((high as u16) << 8) | (low as u16);
    assert(res == high * 256 + low) by (bit_vector)
        requires
            res == ((high as u16) << 8u16) | (low as u16),
    ;
    res
}

/// Why a reply could not be decoded, as far as the decoders tell.
pub enum ReplyFault {
    /// The reply lacks bytes that its layout requires; the text names the part.
    Malformed(&'static str),
    /// A text field of the reply is not valid UTF-8.
    Utf8,
}

/// The contents of the RFID tag of the loaded label roll.
#[derive(Debug, Clone, PartialEq, Eq)]
pub struct RfidInfo {
    pub uuid: String,
    pub barcode: String,
    pub serial: String,
    pub used_len: u16,
    pub total_len: u16,
    pub label_type: u8,
}

impl View for RfidInfo {
    type V = (Seq<char>, Seq<char>, Seq<char>, u16, u16, u8);

    open spec fn view(&self) -> (Seq<char>, Seq<char>, Seq<char>, u16, u16, u8) {
        (self.uuid@, self.barcode@, self.serial@, self.used_len, self.total_len, self.label_type)
    }
}

/// What an RFID reply holds: `None` when no tag was read (first byte 0);
/// otherwise an eight-byte uuid, the length-prefixed barcode and serial, and a
/// five-byte footer of total length, used length (both big-endian) and label
/// type. The tuple is (uuid, barcode, serial, used, total, label type).
pub open spec fn rfid_reply(data: Seq<u8>) -> Result<
    Option<(Seq<char>, Seq<char>, Seq<char>, u16, u16, u8)>,
    ReplyFault,
> {
    if data.len() == 0 {
        Err(ReplyFault::Malformed("rfid response missing body"))
    } else if data[0] == 0 {
        Ok(None)
    } else if data.len() < 9 {
        Err(ReplyFault::Malformed("rfid response too short"))
    } else {
        match prefixed_field(data, 8) {
            None => Err(ReplyFault::Malformed("barcode")),
            Some((barcode, after_barcode)) => if !valid_utf8(barcode) {
                Err(ReplyFault::Utf8)
            } else {
                match prefixed_field(data, after_barcode) {
                    None => Err(ReplyFault::Malformed("serial")),
                    Some((serial, i)) => if !valid_utf8(serial) {
                        Err(ReplyFault::Utf8)
                    } else if i + 5 > data.len() {
                        Err(ReplyFault::Malformed("rfid footer too short"))
                    } else {
                        Ok(
                            Some(
                                (
                                    ascii_text(hex_lower_bytes(data.subrange(0, 8))),
                                    decode_utf8(barcode),
                                    decode_utf8(serial),
                                    be_u16(data[i + 2], data[i + 3]),
                                    be_u16(data[i], data[i + 1]),
                                    data[i + 4],
                                ),
                            ),
                        )
                    },
                }
            },
        }
    }
}

/// `res` is what decoding the RFID reply payload `data` gives.
pub open spec fn rfid_decoded(res: Result<Option<RfidInfo>, PrinterError>, data: Seq<u8>) -> bool {
    match rfid_reply(data) {
        Ok(None) => res matches Ok(None),
        Ok(Some(v)) => res matches Ok(Some(info)) && info@ == v,
        Err(ReplyFault::Malformed(m)) => res matches Err(PrinterError::MalformedResponse(f)) && f
            == m,
        Err(ReplyFault::Utf8) => res matches Err(PrinterError::Utf8(_)),
    }
}

/// Decodes the payload of an RFID reply; see [`rfid_reply`] for the layout.
pub fn decode_rfid(data: &[u8]) -> (res: Result<Option<RfidInfo>, PrinterError>)
    ensures
        rfid_decoded(res, data@),
{
    if data.len() == 0 {
        return Err(PrinterError::MalformedResponse("rfid response missing body"));
    }
    if data[0] == 0 {
        return Ok(None);
    }
    if data.len() < 9 {
        return Err(PrinterError::MalformedResponse("rfid response too short"));
    }
    let uuid = hex_lower(&data[0..8]);
    let mut idx: usize = 8;
    let barcode = match read_len_prefixed_string(data, &mut idx, "barcode") {
        Ok(s) => s,
        Err(e) => return Err(e),
    };
    let serial = match read_len_prefixed_string(data, &mut idx, "serial") {
        Ok(s) => s,
        Err(e) => return Err(e),
    };
    if idx > data.len() || data.len() - idx < 5 {
        return Err(PrinterError::MalformedResponse("rfid footer too short"));
    }
    let total_len = u16_from_be(data[idx], data[idx + 1]);
    let used_len = u16_from_be(data[idx + 2], data[idx + 3]);
    let label_type = data[idx + 4];
    Ok(Some(RfidInfo { uuid, barcode, serial, used_len, total_len, label_type }))
}

/// The printer's state as reported by a heartbeat reply.
#[derive(Debug, Clone, Default, PartialEq, Eq)]
pub struct HeartbeatStatus {
    pub closingstate: Option<u8>,
    pub powerlevel: Option<u8>,
    pub paperstate: Option<u8>,
    pub rfidreadstate: Option<u8>,
}

/// Where each field of a heartbeat reply sits; the layout depends on the
/// reply's length, and lengths with no known layout give no field at all.
pub open spec fn heartbeat_status(data: Seq<u8>) -> HeartbeatStatus {
    if data.len() == 20 {
        HeartbeatStatus {
            closingstate: None,
            powerlevel: None,
            paperstate: Some(data[18]),
            rfidreadstate: Some(data[19]),
        }
    } else if data.len() == 13 {
        HeartbeatStatus {
            closingstate: Some(data[9]),
            powerlevel: Some(data[10]),
            paperstate: Some(data[11]),
            rfidreadstate: Some(data[12]),
        }
    } else if data.len() == 19 {
        HeartbeatStatus {
            closingstate: Some(data[15]),
            powerlevel: Some(data[16]),
            paperstate: Some(data[17]),
            rfidreadstate: Some(data[18]),
        }
    } else if data.len() == 10 {
        HeartbeatStatus {
            closingstate: Some(data[8]),
            powerlevel: Some(data[9]),
            paperstate: None,
            rfidreadstate: Some(data[8]),
        }
    } else if data.len() == 9 {
        HeartbeatStatus {
            closingstate: Some(data[8]),
            powerlevel: None,
            paperstate: None,
            rfidreadstate: None,
        }
    } else {
        HeartbeatStatus {
            closingstate: None,
            powerlevel: None,
            paperstate: None,
            rfidreadstate: None,
        }
    }
}

/// Decodes the payload of a heartbeat reply.
pub fn decode_heartbeat(data: &[u8]) -> (res: HeartbeatStatus)
    ensures
        res == heartbeat_status(data@),
{
    let n = data.len();
    if n == 20 {
        HeartbeatStatus {
            closingstate: None,
            powerlevel: None,
            paperstate: Some(data[18]),
            rfidreadstate: Some(data[19]),
        }
    } else if n == 13 {
        HeartbeatStatus {
            closingstate: Some(data[9]),
            powerlevel: Some(data[10]),
            paperstate: Some(data[11]),
            rfidreadstate: Some(data[12]),
        }
    } else if n == 19 {
        HeartbeatStatus {
            closingstate: Some(data[15]),
            powerlevel: Some(data[16]),
            paperstate: Some(data[17]),
            rfidreadstate: Some(data[18]),
        }
    } else if n == 10 {
        HeartbeatStatus {
            closingstate: Some(data[8]),
            powerlevel: Some(data[9]),
            paperstate: None,
            rfidreadstate: Some(data[8]),
        }
    } else if n == 9 {
        HeartbeatStatus {
            closingstate: Some(data[8]),
            powerlevel: None,
            paperstate: None,
            rfidreadstate: None,
        }
    } else {
        HeartbeatStatus {
            closingstate: None,
            powerlevel: None,
            paperstate: None,
            rfidreadstate: None,
        }
    }
}

/// Progress of the running print job.
#[derive(Debug, Clone, PartialEq, Eq)]
pub struct PrintStatus {
    pub page: u16,
    pub progress1: u8,
    pub progress2: u8,
}

/// `res` is what decoding the print-status reply payload `data` gives: a
/// big-endian page number and two progress bytes; shorter payloads are
/// malformed.
pub open spec fn print_status_decoded(res: Result<PrintStatus, PrinterError>, data: Seq<u8>) -> bool {
    if data.len() < 4 {
        res matches Err(PrinterError::MalformedResponse(m)) && m == "print status too short"
    } else {
        res matches Ok(status) && status == (PrintStatus {
            page: be_u16(data[0], data[1]),
            progress1: data[2],
            progress2: data[3],
        })
    }
}

/// Decodes the payload of a print-status reply.
pub fn decode_print_status(data: &[u8]) -> (res: Result<PrintStatus, PrinterError>)
    ensures
        print_status_decoded(res, data@),
{
    if data.len() < 4 {
        return Err(PrinterError::MalformedResponse("print status too short"));
    }
    Ok(
        PrintStatus {
            page: u16_from_be(data[0], data[1]),
            progress1: data[2],
            progress2: data[3],
        },
    )
}

/// Whether a command reply acknowledges the command: its first byte is
/// non-zero. An empty reply counts as a refusal.
pub fn decode_ack(data: &[u8]) -> (res: bool)
    ensures
        res == (data@.len() > 0 && data@[0] != 0),
{
    data.len() > 0 && data[0] != 0
}

/// The printer settings and facts that an information request can ask for.
#[derive(Debug, Clone, Copy, PartialEq, Eq)]
pub enum InfoKey {
    Density,
    PrintSpeed,
    LabelType,
    LanguageType,
    AutoShutdownTime,
    DeviceType,
    SoftVersion,
    Battery,
    DeviceSerial,
    HardVersion,
}

/// The code of each information key on the wire.
pub open spec fn info_key_code(key: InfoKey) -> u8 {
    match key {
        InfoKey::Density => 1,
        InfoKey::PrintSpeed => 2,
        InfoKey::LabelType => 3,
        InfoKey::LanguageType => 6,
        InfoKey::AutoShutdownTime => 7,
        InfoKey::DeviceType => 8,
        InfoKey::SoftVersion => 9,
        InfoKey::Battery => 10,
        InfoKey::DeviceSerial => 11,
        InfoKey::HardVersion => 12,
    }
}

impl InfoKey {
    /// The key's code on the wire.
    pub fn code(self) -> (res: u8)
        ensures
            res == info_key_code(self),
    {
        match self {
            InfoKey::Density => 1,
            InfoKey::PrintSpeed => 2,
            InfoKey::LabelType => 3,
            InfoKey::LanguageType => 6,
            InfoKey::AutoShutdownTime => 7,
            InfoKey::DeviceType => 8,
            InfoKey::SoftVersion => 9,
            InfoKey::Battery => 10,
            InfoKey::DeviceSerial => 11,
            InfoKey::HardVersion => 12,
        }
    }
}

/// An information value as the printer sends it. Versions are counted in
/// hundredths.
#[derive(Debug, Clone, PartialEq, Eq)]
pub enum InfoReading {
    Integer(u32),
    Version(u32),
    DeviceSerial(String),
}

/// `reading` is what the information reply payload `data` says of `key`:
/// the serial number as lowercase hexadecimal, versions and every other value
/// as a big-endian number.
pub open spec fn info_decoded(key: InfoKey, data: Seq<u8>, reading: InfoReading) -> bool {
    match key {
        InfoKey::DeviceSerial => reading matches InfoReading::DeviceSerial(s) && s@ == ascii_text(
            hex_lower_bytes(data),
        ),
        InfoKey::SoftVersion | InfoKey::HardVersion => reading == InfoReading::Version(
            be_u32(data),
        ),
        _ => reading == InfoReading::Integer(be_u32(data)),
    }
}

/// Decodes the payload of an information reply for `key`.
pub fn decode_info(key: InfoKey, data: &[u8]) -> (res: InfoReading)
    ensures
        info_decoded(key, data@, res),
{
    match key {
        InfoKey::DeviceSerial => InfoReading::DeviceSerial(hex_lower(data)),
        InfoKey::SoftVersion | InfoKey::HardVersion => InfoReading::Version(
            packet_data_to_u32(data),
        ),
        _ => InfoReading::Integer(packet_data_to_u32(data)),
    }
}


/// The value of a hexadecimal digit, in either case.
pub open spec fn hex_value(c: u8) -> Option<u8> {
    if 0x30 <= c <= 0x39 {
        Some((c - 0x30) as u8)
    } else if 0x61 <= c <= 0x66 {
        Some((c - 0x57) as u8)
    } else if 0x41 <= c <= 0x46 {
        Some((c - 0x37) as u8)
    } else {
        None
    }
}

/// What a two-byte text reads as a hexadecimal byte: two digits, or a plus
/// sign and one digit, as `u8::from_str_radix(_, 16)` reads it.
pub open spec fn hex_pair(first: u8, second: u8) -> Option<u8> {
    match (hex_value(first), hex_value(second)) {
        (Some(high), Some(low)) => Some((high * 16 + low) as u8),
        (None, Some(low)) => if first == 0x2b {
            Some(low)
        } else {
            None
        },
        _ => None,
    }
}

/// The six bytes of a Bluetooth address written as six colon-separated
/// two-character hexadecimal fields, first field first; `None` for any other
/// text.
pub open spec fn bluetooth_address(text: Seq<u8>) -> Option<Seq<u8>> {
    if text.len() == 17 && (forall|k: int| 0 <= k < 5 ==> #[trigger] text[3 * k + 2] == 0x3a)
        && (forall|k: int| 0 <= k < 6 ==> #[trigger] hex_pair(text[3 * k], text[3 * k + 1]) is Some) {
        Some(Seq::new(6, |k: int| hex_pair(text[3 * k], text[3 * k + 1])->Some_0))
    } else {
        None
    }
}

fn hex_digit_value(c: u8) -> (res: Option<u8>)
    ensures
        res == hex_value(c),
{
    if 0x30 <= c && c <= 0x39 {
        Some(c - 0x30)
    } else if 0x61 <= c && c <= 0x66 {
        Some(c - 0x57)
    } else if 0x41 <= c && c <= 0x46 {
        Some(c - 0x37)
    } else {
        None
    }
}

fn parse_hex_pair(first: u8, second: u8) -> (res: Option<u8>)
    ensures
        res == hex_pair(first, second),
{
    match (hex_digit_value(first), hex_digit_value(second)) {
        (Some(high), Some(low)) => Some(high * 16 + low),
        (None, Some(low)) => if first == 0x2b {
            Some(low)
        } else {
            None
        },
        _ => None,
    }
}

/// Parses a Bluetooth MAC address such as `AA:BB:CC:DD:EE:FF` into its six
/// bytes, first field first.
pub fn parse_bluetooth_address(address: &str) -> (res: Result<[u8; 6], PrinterError>)
    ensures
        match bluetooth_address(address.spec_bytes()) {
            Some(bytes) => res matches Ok(parsed) && parsed@ == bytes,
            None => res matches Err(PrinterError::InvalidBluetoothAddress(text)) && text@
                == address@,
        },
{
    let text = address.as_bytes();
    if text.len() != 17 {
        return Err(PrinterError::InvalidBluetoothAddress(address.to_owned()));
    }
    let mut bytes = [0u8; 6];
    let mut k: usize = 0;
    while k < 6
        invariant
            text@ == address.spec_bytes(),
            text@.len() == 17,
            k <= 6,
            forall|i: int| 0 <= i < k && i < 5 ==> #[trigger] text@[3 * i + 2] == 0x3a,
            forall|i: int|
                0 <= i < k ==> #[trigger] hex_pair(text@[3 * i], text@[3 * i + 1]) == Some(
                    bytes@[i],
                ),
        decreases 6 - k,
    {
        if k < 5 && text[3 * k + 2] != 0x3a {
            return Err(PrinterError::InvalidBluetoothAddress(address.to_owned()));
        }
        match parse_hex_pair(text[3 * k], text[3 * k + 1]) {
            Some(value) => {
                bytes[k] = value;
            },
            None => {
                return Err(PrinterError::InvalidBluetoothAddress(address.to_owned()));
            },
        }
        k = k + 1;
    }
    assert(bytes@ =~= bluetooth_address(text@)->Some_0);
    Ok(bytes)
}

/// The lowercase hexadecimal text of `data` holds two characters per byte,
/// those of byte `i` at `2 * i` and `2 * i + 1`.
proof fn lemma_hex_lower_layout(data: Seq<u8>)
    ensures
        hex_lower_bytes(data).len() == 2 * data.len(),
        forall|i: int|
            0 <= i < data.len() ==> hex_lower_bytes(data)[2 * i] == hex_digit(
                #[trigger] data[i] >> 4u8,
            ) && hex_lower_bytes(data)[2 * i + 1] == hex_digit(data[i] & 0x0fu8),
    decreases data.len(),
{
    if data.len() > 0 {
        let front = data.drop_last();
        lemma_hex_lower_layout(front);
        assert forall|i: int| 0 <= i < data.len() implies hex_lower_bytes(data)[2 * i]
            == hex_digit(#[trigger] data[i] >> 4u8) && hex_lower_bytes(data)[2 * i + 1]
            == hex_digit(data[i] & 0x0fu8) by {
            if i < front.len() {
                assert(front[i] == data[i]);
            }
        }
    }
}

/// Hexadecimal formatting: the text of `data` has two characters per byte,
/// each a digit `0`-`9` or a lowercase letter `a`-`f`; reading a character as
/// its digit value (`c - '0'` for a digit, `c - 'a' + 10` for a letter), the
/// two characters of byte `i` are its high and its low four bits, as
/// `format!("{:02x}", data[i])` writes them.
pub proof fn lemma_hex_lower_digits(data: Seq<u8>)
    ensures
        hex_lower_bytes(data).len() == 2 * data.len(),
        forall|i: int| 0 <= i < hex_lower_bytes(data).len() ==> {
            let c = #[trigger] hex_lower_bytes(data)[i];
            (0x30 <= c <= 0x39) || (0x61 <= c <= 0x66)
        },
        forall|i: int| 0 <= i < data.len() ==> {
            let high = hex_lower_bytes(data)[2 * i];
            let low = hex_lower_bytes(data)[2 * i + 1];
            let high_value = if high <= 0x39 { high - 0x30 } else { high - 0x61 + 10 };
            let low_value = if low <= 0x39 { low - 0x30 } else { low - 0x61 + 10 };
            &&& high_value == (#[trigger] data[i]) / 16
            &&& low_value == data[i] % 16
        },
{
    lemma_hex_lower_layout(data);
    assert forall|i: int| 0 <= i < data.len() implies {
        let high = hex_lower_bytes(data)[2 * i];
        let low = hex_lower_bytes(data)[2 * i + 1];
        let high_value = if high <= 0x39 { high - 0x30 } else { high - 0x61 + 10 };
        let low_value = if low <= 0x39 { low - 0x30 } else { low - 0x61 + 10 };
        &&& (0x30 <= high <= 0x39) || (0x61 <= high <= 0x66)
        &&& (0x30 <= low <= 0x39) || (0x61 <= low <= 0x66)
        &&& high_value == (#[trigger] data[i]) / 16
        &&& low_value == data[i] % 16
    } by {
        let b = data[i];
        assert(b >> 4u8 == b / 16 && b & 0x0fu8 == b % 16) by (bit_vector);
    }
    assert forall|i: int| 0 <= i < hex_lower_bytes(data).len() implies {
        let c = #[trigger] hex_lower_bytes(data)[i];
        (0x30 <= c <= 0x39) || (0x61 <= c <= 0x66)
    } by {
        let k = i / 2;
        assert(0 <= k < data.len());
        assert(i == 2 * k || i == 2 * k + 1);
        let b = data[k];
        assert(b >> 4u8 < 16 && b & 0x0fu8 < 16) by (bit_vector);
        assert(hex_lower_bytes(data)[2 * k] == hex_digit(b >> 4u8));
        assert(hex_lower_bytes(data)[2 * k + 1] == hex_digit(b & 0x0fu8));
    }
}

/// Formatting a byte as two lowercase hexadecimal digits and reading them
/// back as a field of a Bluetooth address gives the byte again.
pub proof fn lemma_hex_pair_reads_hex_lower(byte: u8)
    ensures
        ({
            let text = hex_lower_bytes(seq![byte]);
            hex_pair(text[0], text[1]) == Some(byte)
        }),
{
    lemma_hex_lower_digits(seq![byte]);
    let text = hex_lower_bytes(seq![byte]);
    assert(seq![byte][0] == byte);
    let z: int = 0;
    assert(text[0] == text[2 * z]);
    assert(text[1] == text[2 * z + 1]);
    assert(byte == (byte / 16) * 16 + byte % 16);
}

/// Whether `c` is a hexadecimal digit, `0`-`9`, `a`-`f` or `A`-`F`.
pub open spec fn is_hex_digit(c: u8) -> bool {
    (0x30 <= c <= 0x39) || (0x61 <= c <= 0x66) || (0x41 <= c <= 0x46)
}

/// Address parsing: text of six fields of two hexadecimal digits, in either
/// case, separated by colons, parses to six bytes, each the value of its
/// field's two digits (first digit times 16 plus the second), where a digit is
/// worth `c - '0'`, `c - 'a' + 10` or `c - 'A' + 10`. Changing the case of
/// letters changes nothing.
pub proof fn lemma_bluetooth_address_fields(text: Seq<u8>)
    requires
        text.len() == 17,
        forall|k: int| 0 <= k < 5 ==> #[trigger] text[3 * k + 2] == 0x3a,
        forall|k: int| 0 <= k < 6 ==> is_hex_digit(#[trigger] text[3 * k]) && is_hex_digit(
            text[3 * k + 1],
        ),
    ensures
        bluetooth_address(text) is Some,
        bluetooth_address(text)->Some_0.len() == 6,
        forall|k: int| 0 <= k < 6 ==> {
            let high = text[3 * k];
            let low = text[3 * k + 1];
            let high_value = if high <= 0x39 {
                high - 0x30
            } else if high >= 0x61 {
                high - 0x61 + 10
            } else {
                high - 0x41 + 10
            };
            let low_value = if low <= 0x39 {
                low - 0x30
            } else if low >= 0x61 {
                low - 0x61 + 10
            } else {
                low - 0x41 + 10
            };
            #[trigger] bluetooth_address(text)->Some_0[k] == high_value * 16 + low_value
        },
{
    assert forall|k: int| 0 <= k < 6 implies #[trigger] hex_pair(text[3 * k], text[3 * k + 1])
        is Some by {
        assert(is_hex_digit(text[3 * k]));
    }
}

/// The information keys on the wire: Density 1, PrintSpeed 2, LabelType 3,
/// LanguageType 6, AutoShutdownTime 7, DeviceType 8, SoftVersion 9, Battery
/// 10, DeviceSerial 11, HardVersion 12; no two keys share a code.
pub proof fn lemma_info_key_codes()
    ensures
        info_key_code(InfoKey::Density) == 1,
        info_key_code(InfoKey::PrintSpeed) == 2,
        info_key_code(InfoKey::LabelType) == 3,
        info_key_code(InfoKey::LanguageType) == 6,
        info_key_code(InfoKey::AutoShutdownTime) == 7,
        info_key_code(InfoKey::DeviceType) == 8,
        info_key_code(InfoKey::SoftVersion) == 9,
        info_key_code(InfoKey::Battery) == 10,
        info_key_code(InfoKey::DeviceSerial) == 11,
        info_key_code(InfoKey::HardVersion) == 12,
        forall|a: InfoKey, b: InfoKey| #[trigger] info_key_code(a) == #[trigger] info_key_code(b)
            ==> a == b,
{
}

/// Reading bytes as a big-endian number in 32 bits: no bytes read as 0, and
/// one more byte shifts the number left by eight bits, dropping what passes
/// 32 bits, and adds the byte.
pub proof fn lemma_be_u32_steps(data: Seq<u8>, byte: u8)
    ensures
        be_u32(Seq::empty()) == 0,
        be_u32(data.push(byte)) == ((be_u32(data) as int) * 256 + byte) % 0x1_0000_0000,
{
    assert(data.push(byte).drop_last() =~= data);
    let n = be_number(data) as int;
    let m: int = 0x1_0000_0000;
    vstd::arithmetic::div_mod::lemma_mul_mod_noop_left(n, 256, m);
    vstd::arithmetic::div_mod::lemma_add_mod_noop(n * 256, byte as int, m);
    vstd::arithmetic::div_mod::lemma_add_mod_noop((n % m) * 256, byte as int, m);
    vstd::arithmetic::div_mod::lemma_mod_twice((n % m) * 256, m);
    assert(0 <= n % m < m) by {
        vstd::arithmetic::div_mod::lemma_mod_bound(n, m);
    }
}

} // verus!
