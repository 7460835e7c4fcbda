use std::collections::VecDeque;
use std::io;

use niimprint_rs::{
    find_reply, select_serial_port, uses_new_protocol, LumaImage, Model, NiimbotPacket, PacketError, PrinterClient,
    PrinterError, RequestCode, Transport,
};

/// Answers each request with a canned reply, chosen by request type.
#[derive(Default)]
struct FakeTransport {
    replies: Vec<(u8, Vec<u8>)>,
    incoming: VecDeque<Vec<u8>>,
    written: Vec<Vec<u8>>,
    pauses: Vec<u64>,
}

impl FakeTransport {
    fn answering(replies: Vec<(u8, Vec<u8>)>) -> Self {
        FakeTransport { replies, ..FakeTransport::default() }
    }

    fn sent_packets(&self) -> Vec<NiimbotPacket> {
        self.written
            .iter()
            .map(|bytes| NiimbotPacket::from_bytes(bytes).unwrap())
            .collect()
    }
}

impl Transport for FakeTransport {
    fn read(&mut self, _length: usize) -> io::Result<Vec<u8>> {
        Ok(self.incoming.pop_front().unwrap_or_default())
    }

    fn write(&mut self, data: &[u8]) -> io::Result<usize> {
        let request = NiimbotPacket::from_bytes(data).map_err(|e| io::Error::other(e.message()))?;
        let code = request.packet_type();
        if let Some(at) = self.replies.iter().position(|(c, _)| *c == code) {
            self.incoming.push_back(self.replies[at].1.clone());
            // A reply listed more than once is used up, in order, down to the last.
            if self.replies.iter().filter(|(c, _)| *c == code).count() > 1 {
                self.replies.remove(at);
            }
        }
        self.written.push(data.to_vec());
        Ok(data.len())
    }

    fn pause(&mut self, millis: u64) {
        self.pauses.push(millis);
    }
}

fn frame(packet_type: u8, data: Vec<u8>) -> Vec<u8> {
    NiimbotPacket::new(packet_type, data).to_bytes()
}

#[test]
fn image_encoding_matches_expected_bits() {
    let pixels = (0..8u32).map(|x| if x < 4 { 255 } else { 0 }).collect();
    let image = LumaImage::new(8, 1, pixels).unwrap();

    let transport = FakeTransport::default();
    let client = PrinterClient::new(transport);
    let packets = client.encode_image(&image).unwrap();

    assert_eq!(packets.len(), 1);
    assert_eq!(packets[0].packet_type(), 0x85);
    assert_eq!(packets[0].data()[..6], [0, 0, 0, 0, 0, 1]);
    assert_eq!(packets[0].data()[6], 0x0f);
}

#[test]
fn image_rows_pad_and_number_each_row() {
    // 10 pixels wide: two bytes per row, the last six bits padding.
    let mut pixels = vec![255u8; 30];
    pixels[0] = 0; // row 0, x 0
    pixels[9] = 127; // row 0, x 9: at the threshold, printed
    pixels[10 + 8] = 128; // row 1, x 8: brighter than the threshold
    pixels[20 + 1] = 3; // row 2, x 1
    let image = LumaImage::new(10, 3, pixels).unwrap();
    let packets = PrinterClient::new(FakeTransport::default()).encode_image(&image).unwrap();
    assert_eq!(packets.len(), 3);
    assert_eq!(packets[0].data(), &[0, 0, 0, 0, 0, 1, 0b1000_0000, 0b0100_0000]);
    assert_eq!(packets[1].data(), &[0, 1, 0, 0, 0, 1, 0, 0]);
    assert_eq!(packets[2].data(), &[0, 2, 0, 0, 0, 1, 0b0100_0000, 0]);
}

#[test]
fn luma_image_requires_one_byte_per_pixel() {
    assert!(LumaImage::new(3, 2, vec![0; 6]).is_some());
    assert!(LumaImage::new(3, 2, vec![0; 5]).is_none());
    assert!(LumaImage::new(0, 5, vec![]).is_some());
    assert!(LumaImage::new(0, 5, vec![1]).is_none());
    let image = LumaImage::new(4, 2, vec![0; 8]).unwrap();
    assert_eq!((image.width(), image.height()), (4, 2));
}

#[test]
fn request_codes() {
    assert_eq!(RequestCode::GetInfo.code(), 64);
    assert_eq!(RequestCode::Heartbeat.code(), 220);
    assert_eq!(RequestCode::EndPrint.code(), 243);
    assert_eq!(RequestCode::GetPrintStatus.code(), 163);
    assert_eq!(RequestCode::Connect.code(), 0xc1);
    assert_eq!(RequestCode::GetPrinterStatus.code(), 0xa5);
}

#[test]
fn find_reply_takes_the_first_settling_packet() {
    let packets = vec![
        NiimbotPacket::new(0x99, vec![]),
        NiimbotPacket::new(0x02, vec![7]),
        NiimbotPacket::new(219, vec![]),
    ];
    assert_eq!(find_reply(packets, 0x02).unwrap(), Some(NiimbotPacket::new(0x02, vec![7])));
    let packets = vec![NiimbotPacket::new(219, vec![]), NiimbotPacket::new(0x02, vec![7])];
    assert!(matches!(find_reply(packets, 0x02), Err(PrinterError::DeviceError)));
    let packets = vec![NiimbotPacket::new(0, vec![]), NiimbotPacket::new(0x02, vec![7])];
    assert!(matches!(find_reply(packets, 0x02), Err(PrinterError::UnsupportedResponse)));
    let packets = vec![NiimbotPacket::new(0x03, vec![])];
    assert!(matches!(find_reply(packets, 0x02), Ok(None)));
}

#[test]
fn commands_send_their_frame_and_read_the_acknowledgement() {
    // Each reply has the request's type plus the reply offset.
    let mut printer = PrinterClient::new(FakeTransport::answering(vec![
        (0x01, frame(0x02, vec![1])),
        (0xf3, frame(0xf4, vec![0])),
        (0x03, frame(0x04, vec![1])),
        (0xe3, frame(0xe4, vec![])),
        (0x20, frame(0x30, vec![1])),
        (0x13, frame(0x14, vec![1, 0])),
        (0x15, frame(0x16, vec![1])),
    ]));
    assert!(printer.start_print().unwrap());
    assert!(!printer.end_print().unwrap());
    assert!(printer.start_page_print().unwrap());
    assert!(!printer.end_page_print().unwrap());
    assert!(printer.allow_print_clear().unwrap());
    assert!(printer.set_dimension(320, 96).unwrap());
    assert!(printer.set_quantity(3).unwrap());
    let sent = printer.transport_mut().sent_packets();
    assert_eq!(
        sent,
        vec![
            NiimbotPacket::new(0x01, vec![1]),
            NiimbotPacket::new(0xf3, vec![1]),
            NiimbotPacket::new(0x03, vec![1]),
            NiimbotPacket::new(0xe3, vec![1]),
            NiimbotPacket::new(0x20, vec![1]),
            NiimbotPacket::new(0x13, vec![1, 64, 0, 96]),
            NiimbotPacket::new(0x15, vec![0, 3]),
        ]
    );
    assert!(printer.transport_mut().pauses.is_empty());
}

#[test]
fn label_type_and_density_are_checked_before_sending() {
    let mut printer = PrinterClient::new(FakeTransport::answering(vec![
        (0x23, frame(0x33, vec![1])),
        (0x21, frame(0x31, vec![1])),
    ]));
    assert!(matches!(printer.set_label_type(0), Err(PrinterError::InvalidLabelType(0))));
    assert!(matches!(printer.set_label_type(4), Err(PrinterError::InvalidLabelType(4))));
    assert!(matches!(printer.set_label_density(6), Err(PrinterError::InvalidDensity(6))));
    assert!(matches!(printer.set_label_density(0), Err(PrinterError::InvalidDensity(0))));
    assert!(printer.transport_mut().written.is_empty());
    assert!(printer.set_label_type(3).unwrap());
    assert!(printer.set_label_density(5).unwrap());
    assert_eq!(
        printer.transport_mut().sent_packets(),
        vec![NiimbotPacket::new(0x23, vec![3]), NiimbotPacket::new(0x21, vec![5])]
    );
}

#[test]
fn missing_reply_times_out_after_six_reads() {
    let mut printer = PrinterClient::new(FakeTransport::default());
    assert!(matches!(printer.heartbeat(), Err(PrinterError::Timeout)));
    assert_eq!(printer.transport_mut().pauses, vec![100; 6]);
    assert!(matches!(printer.start_print(), Err(PrinterError::Timeout)));
    assert!(matches!(printer.get_print_status(), Err(PrinterError::Timeout)));
    assert_eq!(printer.get_rfid().unwrap(), None);
    assert_eq!(printer.get_info(niimprint_rs::InfoKey::Battery).unwrap(), None);
}

#[test]
fn device_error_and_refusal_are_reported() {
    let mut printer = PrinterClient::new(FakeTransport::answering(vec![
        (0x01, frame(219, vec![])),
        (0x03, frame(0, vec![])),
    ]));
    assert!(matches!(printer.start_print(), Err(PrinterError::DeviceError)));
    assert!(matches!(printer.start_page_print(), Err(PrinterError::UnsupportedResponse)));
}

#[test]
fn invalid_reply_frame_is_a_packet_error() {
    let mut bad = frame(0x02, vec![1]);
    bad[5] ^= 0xff;
    let mut printer = PrinterClient::new(FakeTransport::answering(vec![(0x01, bad)]));
    assert!(matches!(
        printer.start_print(),
        Err(PrinterError::Packet(PacketError::InvalidChecksum { .. }))
    ));
}

/// A transport whose every read and write fails.
struct Broken;

impl Transport for Broken {
    fn read(&mut self, _: usize) -> io::Result<Vec<u8>> {
        Err(io::Error::other("read failed"))
    }

    fn write(&mut self, _: &[u8]) -> io::Result<usize> {
        Err(io::Error::other("write failed"))
    }

    fn pause(&mut self, _: u64) {}
}

#[test]
fn transport_failure_is_an_io_error() {
    let mut printer = PrinterClient::new(Broken);
    match printer.start_print() {
        Err(err @ PrinterError::Io(_)) => assert_eq!(err.message(), "write failed"),
        other => panic!("{other:?}"),
    }
}

#[test]
fn reply_split_across_reads_is_reassembled() {
    let reply = frame(0xd9 + 4, vec![0; 13]);
    let mut transport = FakeTransport::default();
    transport.incoming.push_back(reply[..3].to_vec());
    transport.incoming.push_back(Vec::new());
    transport.incoming.push_back(reply[3..].to_vec());
    let mut printer = PrinterClient::new(transport);
    let status = printer.heartbeat().unwrap();
    assert_eq!(status.closingstate, Some(0));
    assert_eq!(printer.transport_mut().pauses, vec![100, 100]);
}

#[test]
fn replies_cut_into_many_reads_are_reassembled_in_order() {
    let mut stream = frame(0x77, vec![1, 2, 3]);
    stream.extend(frame(0x31, vec![1]));
    let mut transport = FakeTransport::default();
    for chunk in stream.chunks(3) {
        transport.incoming.push_back(chunk.to_vec());
    }
    let mut printer = PrinterClient::new(transport);
    // Six reads of three bytes: the skipped packet completes on the fourth,
    // the reply on the sixth.
    assert!(printer.set_label_density(2).unwrap());
    assert_eq!(printer.transport_mut().pauses, vec![100; 5]);
    assert!(printer.transport_mut().incoming.is_empty());
}

#[test]
fn unrelated_packets_are_skipped() {
    let mut transport = FakeTransport::answering(vec![(0x1a, frame(0x1b, vec![0]))]);
    transport.incoming.push_back(frame(0x77, vec![1, 2]));
    let mut printer = PrinterClient::new(transport);
    assert_eq!(printer.get_rfid().unwrap(), None);
}

#[test]
fn info_and_status_requests() {
    let mut printer = PrinterClient::new(FakeTransport::answering(vec![
        (0x40, frame(0x48, vec![9, 16])),
        (0xa3, frame(0xb3, vec![0, 3, 100, 100])),
    ]));
    assert_eq!(
        printer.get_info(niimprint_rs::InfoKey::DeviceType).unwrap(),
        Some(niimprint_rs::InfoReading::Integer(0x0910))
    );
    let status = printer.get_print_status().unwrap();
    assert_eq!((status.page, status.progress1, status.progress2), (3, 100, 100));
    assert_eq!(
        printer.transport_mut().sent_packets(),
        vec![NiimbotPacket::new(0x40, vec![8]), NiimbotPacket::new(0xa3, vec![1])]
    );
}

#[test]
fn print_image_sends_the_job_in_order() {
    let mut printer = PrinterClient::new(FakeTransport::answering(vec![
        (0x21, frame(0x31, vec![1])),
        (0x23, frame(0x33, vec![1])),
        (0x01, frame(0x02, vec![1])),
        (0x03, frame(0x04, vec![1])),
        (0x13, frame(0x14, vec![1])),
        (0xe3, frame(0xe4, vec![1])),
        (0xf3, frame(0xf4, vec![1])),
    ]));
    let image = LumaImage::new(9, 2, vec![0; 18]).unwrap();
    printer.print_image(&image, 3, 2).unwrap();
    let sent = printer.transport_mut().sent_packets();
    let types: Vec<u8> = sent.iter().map(NiimbotPacket::packet_type).collect();
    assert_eq!(types, vec![0x21, 0x23, 0x01, 0x03, 0x13, 0x85, 0x85, 0xe3, 0xf3]);
    assert_eq!(sent[0].data(), &[3]);
    assert_eq!(sent[1].data(), &[1]);
    assert_eq!(sent[2].data(), &[1]);
    assert_eq!(sent[4].data(), &[0, 2, 0, 9]);
    assert_eq!(sent[5].data(), &[0, 0, 0, 0, 0, 1, 0xff, 0x80]);
    assert_eq!(sent[6].data(), &[0, 1, 0, 0, 0, 1, 0xff, 0x80]);
    assert_eq!(sent[8].data(), &[1]);
    assert_eq!(printer.transport_mut().pauses, vec![300]);
}

#[test]
fn print_image_polls_until_the_job_has_ended() {
    let mut printer = PrinterClient::new(FakeTransport::answering(vec![
        (0x21, frame(0x31, vec![1])),
        (0x23, frame(0x33, vec![1])),
        (0x01, frame(0x02, vec![1])),
        (0x03, frame(0x04, vec![1])),
        (0x13, frame(0x14, vec![1])),
        (0xe3, frame(0xe4, vec![1])),
        (0xf3, frame(0xf4, vec![0])),
        (0xf3, frame(0xf4, vec![])),
        (0xf3, frame(0xf4, vec![1])),
    ]));
    let image = LumaImage::new(8, 1, vec![255; 8]).unwrap();
    printer.print_image(&image, 1, 1).unwrap();
    let sent = printer.transport_mut().sent_packets();
    let ends = sent.iter().filter(|p| p.packet_type() == 0xf3).count();
    assert_eq!(ends, 3);
    assert_eq!(printer.transport_mut().pauses, vec![300, 100, 100]);
}

#[test]
fn print_image_stops_at_a_failed_exchange() {
    let mut printer = PrinterClient::new(FakeTransport::answering(vec![
        (0x21, frame(0x31, vec![1])),
        (0x23, frame(0x33, vec![0])),
        (0x01, frame(219, vec![])),
    ]));
    let image = LumaImage::new(8, 3, vec![0; 24]).unwrap();
    assert!(matches!(printer.print_image(&image, 2, 1), Err(PrinterError::DeviceError)));
    let types: Vec<u8> =
        printer.transport_mut().sent_packets().iter().map(NiimbotPacket::packet_type).collect();
    assert_eq!(types, vec![0x21, 0x23, 0x01]);
}

#[test]
fn print_image_rejects_bad_density_before_sending() {
    let mut printer = PrinterClient::new(FakeTransport::default());
    let image = LumaImage::new(1, 1, vec![0]).unwrap();
    assert!(matches!(printer.print_image(&image, 9, 1), Err(PrinterError::InvalidDensity(9))));
    assert!(matches!(printer.print_image(&image, 0, 1), Err(PrinterError::InvalidDensity(0))));
    assert!(printer.transport_mut().written.is_empty());
}

#[test]
fn serial_port_selection() {
    assert!(matches!(
        select_serial_port(vec![], vec![]),
        Err(PrinterError::NoSerialPortsDetected)
    ));
    assert_eq!(
        select_serial_port(vec!["/dev/ttyACM0".into()], vec!["/dev/ttyACM0 (Usb)".into()])
            .unwrap(),
        "/dev/ttyACM0"
    );
    match select_serial_port(
        vec!["/dev/ttyS0".into(), "/dev/ttyACM0".into()],
        vec!["a".into(), "b".into()],
    ) {
        Err(err @ PrinterError::TooManySerialPorts(_)) => {
            assert_eq!(err.message(), "multiple serial ports detected: a, b")
        }
        other => panic!("{other:?}"),
    }
}

#[test]
fn model_limits() {
    assert_eq!(Model::B21.max_width_px(), 384);
    assert_eq!(Model::D110.max_width_px(), 96);
    assert_eq!(Model::B1.max_density(), 5);
    assert_eq!(Model::D11.max_density(), 3);
}

#[test]
fn printer_error_messages() {
    assert_eq!(PrinterError::InvalidDensity(7).message(), "invalid density: 7");
    assert_eq!(PrinterError::InvalidLabelType(250).message(), "invalid label type: 250");
    assert_eq!(
        PrinterError::InvalidBluetoothAddress("xx".into()).message(),
        "invalid bluetooth MAC address: xx"
    );
    assert_eq!(
        PrinterError::MalformedResponse("barcode").message(),
        "malformed device response: barcode"
    );
    assert_eq!(PrinterError::Timeout.message(), "timed out waiting for printer response");
    assert_eq!(PrinterError::DeviceError.message(), "printer reported a device error");
    assert_eq!(
        PrinterError::UnsupportedResponse.message(),
        "printer returned an unsupported response"
    );
    assert_eq!(
        PrinterError::UnsupportedBluetoothPlatform.message(),
        "bluetooth transport is only supported on Linux and Android"
    );
    assert_eq!(PrinterError::NoSerialPortsDetected.message(), "no serial ports detected");
    assert_eq!(
        PrinterError::Packet(PacketError::InvalidHeader).message(),
        "invalid packet header"
    );
    assert_eq!(
        PrinterError::from(PacketError::InvalidFooter).message(),
        "invalid packet footer"
    );
}

#[test]
fn status_byte_eleven_picks_the_protocol() {
    let mut status = vec![0u8; 16];
    assert!(!uses_new_protocol(&status));
    status[11] = 3;
    assert!(uses_new_protocol(&status));
    status[11] = 2;
    assert!(!uses_new_protocol(&status));
    status[11] = 200;
    assert!(uses_new_protocol(&status[..12]));
    assert!(!uses_new_protocol(&status[..11]));
    assert!(!uses_new_protocol(&[1]));
}

#[test]
fn receive_calls_reassemble_frames_cut_across_reads() {
    let mut stream = frame(0x31, vec![1, 2, 3]);
    stream.extend(frame(0x32, vec![]));
    stream.extend(frame(0x33, vec![9; 20]));
    let mut transport = FakeTransport::default();
    for chunk in stream.chunks(5) {
        transport.incoming.push_back(chunk.to_vec());
    }
    let reads = transport.incoming.len();
    let mut printer = PrinterClient::new(transport);
    let mut got = Vec::new();
    for _ in 0..reads {
        got.extend(printer.recv().unwrap());
    }
    assert_eq!(
        got,
        vec![
            NiimbotPacket::new(0x31, vec![1, 2, 3]),
            NiimbotPacket::new(0x32, vec![]),
            NiimbotPacket::new(0x33, vec![9; 20]),
        ]
    );
}

#[test]
fn an_empty_image_prints_a_page_without_rows() {
    let mut printer = PrinterClient::new(FakeTransport::answering(vec![
        (0x21, frame(0x31, vec![1])),
        (0x23, frame(0x33, vec![1])),
        (0x01, frame(0x02, vec![1])),
        (0x03, frame(0x04, vec![1])),
        (0x13, frame(0x14, vec![1])),
        (0xe3, frame(0xe4, vec![1])),
        (0xf3, frame(0xf4, vec![1])),
    ]));
    let image = LumaImage::new(2000, 0, vec![]).unwrap();
    printer.print_image(&image, 1, 1).unwrap();
    let sent = printer.transport_mut().sent_packets();
    let types: Vec<u8> = sent.iter().map(NiimbotPacket::packet_type).collect();
    assert_eq!(types, vec![0x21, 0x23, 0x01, 0x03, 0x13, 0xe3, 0xf3]);
    assert_eq!(sent[4].data(), &[0, 0, 0x07, 0xd0]);
}
