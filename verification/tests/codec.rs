use niimprint_rs::{
    decode_ack, decode_heartbeat, decode_info, decode_print_status, decode_rfid, hex_lower,
    packet_data_to_u32, parse_bluetooth_address, read_len_prefixed_string, HeartbeatStatus,
    InfoKey, InfoReading, PrintStatus, PrinterError, RfidInfo,
};

#[test]
fn hex_lower_uses_two_lowercase_digits_per_byte() {
    assert_eq!(hex_lower(&[0x00, 0x0f, 0xa0, 0xff]), "000fa0ff");
    assert_eq!(hex_lower(&[]), "");
}

#[test]
fn packet_data_to_u32_is_big_endian() {
    assert_eq!(packet_data_to_u32(&[]), 0);
    assert_eq!(packet_data_to_u32(&[0x09, 0x10]), 0x0910);
    assert_eq!(packet_data_to_u32(&[0x12, 0x34, 0x56, 0x78]), 0x1234_5678);
    // Only the last four bytes survive the shifts.
    assert_eq!(packet_data_to_u32(&[0xff, 0x12, 0x34, 0x56, 0x78]), 0x1234_5678);
}

#[test]
fn read_len_prefixed_string_reads_and_advances() {
    let data = [3, b'a', b'b', b'c', 1, b'z'];
    let mut idx = 0;
    assert_eq!(read_len_prefixed_string(&data, &mut idx, "first").unwrap(), "abc");
    assert_eq!(idx, 4);
    assert_eq!(read_len_prefixed_string(&data, &mut idx, "second").unwrap(), "z");
    assert_eq!(idx, 6);
    assert!(matches!(
        read_len_prefixed_string(&data, &mut idx, "third"),
        Err(PrinterError::MalformedResponse("third"))
    ));
    assert_eq!(idx, 6);
}

#[test]
fn read_len_prefixed_string_failures_leave_the_index_after_the_length() {
    let data = [5, b'a', b'b'];
    let mut idx = 0;
    assert!(read_len_prefixed_string(&data, &mut idx, "barcode").is_err());
    assert_eq!(idx, 1);
    let data = [2, 0xff, 0xfe];
    let mut idx = 0;
    assert!(matches!(
        read_len_prefixed_string(&data, &mut idx, "serial"),
        Err(PrinterError::Utf8(_))
    ));
    assert_eq!(idx, 1);
}

#[test]
fn read_len_prefixed_string_rejects_overlong_field() {
    let data = [5, b'a', b'b'];
    let mut idx = 0;
    assert!(matches!(
        read_len_prefixed_string(&data, &mut idx, "barcode"),
        Err(PrinterError::MalformedResponse("barcode"))
    ));
}

#[test]
fn read_len_prefixed_string_rejects_invalid_utf8() {
    let data = [2, 0xc3, 0x28];
    let mut idx = 0;
    assert!(matches!(
        read_len_prefixed_string(&data, &mut idx, "serial"),
        Err(PrinterError::Utf8(_))
    ));
}

#[test]
fn read_len_prefixed_string_decodes_multibyte_utf8() {
    let data = [2, 0xc3, 0xa9];
    let mut idx = 0;
    assert_eq!(read_len_prefixed_string(&data, &mut idx, "serial").unwrap(), "é");
}

fn rfid_reply() -> Vec<u8> {
    let mut data = vec![0x10, 0x20, 0x30, 0x40, 0x50, 0x60, 0x70, 0x80];
    data.push(4);
    data.extend_from_slice(b"6972");
    data.push(3);
    data.extend_from_slice(b"S01");
    data.extend_from_slice(&[0x01, 0x2c, 0x00, 0x05, 0x02]);
    data
}

#[test]
fn decode_rfid_reads_every_field() {
    assert_eq!(
        decode_rfid(&rfid_reply()).unwrap(),
        Some(RfidInfo {
            uuid: "1020304050607080".to_string(),
            barcode: "6972".to_string(),
            serial: "S01".to_string(),
            used_len: 5,
            total_len: 300,
            label_type: 2,
        })
    );
}

#[test]
fn decode_rfid_without_tag() {
    assert_eq!(decode_rfid(&[0, 1, 2]).unwrap(), None);
}

#[test]
fn decode_rfid_errors() {
    assert!(matches!(
        decode_rfid(&[]),
        Err(PrinterError::MalformedResponse("rfid response missing body"))
    ));
    assert!(matches!(
        decode_rfid(&[1, 2, 3]),
        Err(PrinterError::MalformedResponse("rfid response too short"))
    ));
    let mut data = rfid_reply();
    data.truncate(8 + 1 + 4 + 1 + 3 + 4);
    assert!(matches!(
        decode_rfid(&data),
        Err(PrinterError::MalformedResponse("rfid footer too short"))
    ));
    let mut data = rfid_reply();
    data.truncate(8 + 1 + 4 + 1 + 1);
    assert!(matches!(decode_rfid(&data), Err(PrinterError::MalformedResponse("serial"))));
    let data = [1, 0, 0, 0, 0, 0, 0, 0, 9, b'x'];
    assert!(matches!(decode_rfid(&data), Err(PrinterError::MalformedResponse("barcode"))));
    let data = [1, 0, 0, 0, 0, 0, 0, 0, 1, 0xff];
    assert!(matches!(decode_rfid(&data), Err(PrinterError::Utf8(_))));
}

#[test]
fn decode_heartbeat_layouts() {
    let data: Vec<u8> = (0..20).collect();
    assert_eq!(
        decode_heartbeat(&data),
        HeartbeatStatus {
            closingstate: None,
            powerlevel: None,
            paperstate: Some(18),
            rfidreadstate: Some(19),
        }
    );
    assert_eq!(
        decode_heartbeat(&data[..13]),
        HeartbeatStatus {
            closingstate: Some(9),
            powerlevel: Some(10),
            paperstate: Some(11),
            rfidreadstate: Some(12),
        }
    );
    assert_eq!(
        decode_heartbeat(&data[..19]),
        HeartbeatStatus {
            closingstate: Some(15),
            powerlevel: Some(16),
            paperstate: Some(17),
            rfidreadstate: Some(18),
        }
    );
    assert_eq!(
        decode_heartbeat(&data[..10]),
        HeartbeatStatus {
            closingstate: Some(8),
            powerlevel: Some(9),
            paperstate: None,
            rfidreadstate: Some(8),
        }
    );
    assert_eq!(
        decode_heartbeat(&data[..9]),
        HeartbeatStatus { closingstate: Some(8), ..HeartbeatStatus::default() }
    );
    assert_eq!(decode_heartbeat(&data[..11]), HeartbeatStatus::default());
}

#[test]
fn decode_print_status_reads_page_and_progress() {
    assert_eq!(
        decode_print_status(&[0x01, 0x02, 50, 60, 0]).unwrap(),
        PrintStatus { page: 0x0102, progress1: 50, progress2: 60 }
    );
    assert!(matches!(
        decode_print_status(&[0, 1, 2]),
        Err(PrinterError::MalformedResponse("print status too short"))
    ));
}

#[test]
fn decode_ack_reads_first_byte() {
    assert!(decode_ack(&[1]));
    assert!(!decode_ack(&[0, 1]));
    assert!(!decode_ack(&[]));
}

#[test]
fn decode_info_by_key() {
    assert_eq!(decode_info(InfoKey::DeviceType, &[9, 16]), InfoReading::Integer(2320));
    assert_eq!(decode_info(InfoKey::SoftVersion, &[0x01, 0x02]), InfoReading::Version(258));
    assert_eq!(decode_info(InfoKey::HardVersion, &[0x64]), InfoReading::Version(100));
    assert_eq!(
        decode_info(InfoKey::DeviceSerial, &[0xab, 0x01]),
        InfoReading::DeviceSerial("ab01".to_string())
    );
}

#[test]
fn info_key_codes() {
    assert_eq!(InfoKey::Density.code(), 1);
    assert_eq!(InfoKey::LanguageType.code(), 6);
    assert_eq!(InfoKey::HardVersion.code(), 12);
}

#[test]
fn bluetooth_address_parses_six_hex_fields() {
    assert_eq!(
        parse_bluetooth_address("AA:bb:0C:12:3d:Ef").unwrap(),
        [0xaa, 0xbb, 0x0c, 0x12, 0x3d, 0xef]
    );
    // A plus sign before a single digit is accepted, as `from_str_radix` does.
    assert_eq!(
        parse_bluetooth_address("+A:00:00:00:00:01").unwrap(),
        [0x0a, 0, 0, 0, 0, 1]
    );
}

#[test]
fn bluetooth_address_errors() {
    for bad in [
        "AA:BB:CC:DD:EE",
        "AA:BB:CC:DD:EE:FF:00",
        "AA-BB-CC-DD-EE-FF",
        "AAB:B:CC:DD:EE:FF",
        "AA:BB:CC:DD:EE:FG",
        "-1:BB:CC:DD:EE:FF",
        "é:BB:CC:DD:EE:FF",
        "",
    ] {
        match parse_bluetooth_address(bad) {
            Err(PrinterError::InvalidBluetoothAddress(text)) => assert_eq!(text, bad),
            other => panic!("{bad}: {other:?}"),
        }
    }
}
