//! Client library for Niimbot label printers over USB serial or Bluetooth.
//!
//! - [`packet`]: the wire frame of a packet, its parser and serializer, and
//!   the draining of frames from a receive buffer, with the laws that tie
//!   them together;
//! - [`codec`]: decoders for the printer's replies, hexadecimal and
//!   length-prefixed text, and Bluetooth address parsing;
//! - [`raster`]: grey-scale images and the bit rows the printer prints;
//! - [`session`]: what the printer's answers make of a request and of a whole
//!   print job;
//! - [`printer`]: the [`Transport`] a client talks through and the
//!   [`PrinterClient`] with its requests;
//! - [`error`] and [`message`]: the client's error type and its descriptions.

pub mod codec;
pub mod error;
pub mod message;
pub mod packet;
pub mod printer;
pub mod raster;
pub mod session;

pub use codec::{
    decode_ack, decode_heartbeat, decode_info, decode_print_status, decode_rfid, hex_lower,
    packet_data_to_u32, parse_bluetooth_address, read_len_prefixed_string, HeartbeatStatus,
    InfoKey, InfoReading, PrintStatus, RfidInfo,
};
pub use error::PrinterError;
pub use packet::{take_packets, NiimbotPacket, PacketError};
pub use printer::{
    find_reply, select_serial_port, uses_new_protocol, Model, PrinterClient, RequestCode, Transport,
};
pub use raster::LumaImage;
