use uniprog::ch34x::ChipKind;
use uniprog::ch34x_sidecar::{kind_wire, parse_ch34x_device_id, settings_for, DeviceLocation};
use uniprog::frame::{describe_rpc_error, encode, payload_len, read_frame};

#[test]
fn frame_encode_decode_roundtrip() {
    let payload = b"{\"id\":7,\"method\":\"handshake\",\"params\":{}}";
    let frame = encode(payload).expect("payload should encode");
    let mut cursor = &frame[..];
    let decoded = read_frame(&mut cursor).expect("frame should decode");
    assert_eq!(decoded, payload);
    assert!(cursor.is_empty());
}

#[test]
fn truncated_frame_length_is_readable_error() {
    let mut truncated_header: &[u8] = &[0x01, 0x00];
    let err = read_frame(&mut truncated_header).expect_err("truncated header");
    assert!(err.contains("frame length header"), "{err}");

    let mut truncated_payload: &[u8] = &[0x04, 0x00, 0x00, 0x00, 0x7B];
    let err = read_frame(&mut truncated_payload).expect_err("truncated payload");
    assert!(err.contains("frame payload"), "{err}");
}

#[test]
fn oversized_frame_length_is_rejected() {
    assert!(payload_len([0x00, 0x00, 0x00, 0x04]).is_ok());
    assert!(payload_len([0x01, 0x00, 0x00, 0x04]).is_err());
    let mut huge: &[u8] = &[0xFF, 0xFF, 0xFF, 0xFF, 0x00];
    assert!(read_frame(&mut huge).is_err());
}

#[test]
fn frame_header_is_little_endian_length() {
    let frame = encode(&[9u8; 258]).unwrap();
    assert_eq!(&frame[..4], &[0x02, 0x01, 0x00, 0x00]);
    assert_eq!(frame.len(), 262);
    let mut two = frame.clone();
    two.extend_from_slice(&encode(&[7u8]).unwrap());
    let mut cursor = &two[..];
    assert_eq!(read_frame(&mut cursor).unwrap(), vec![9u8; 258]);
    assert_eq!(read_frame(&mut cursor).unwrap(), vec![7u8]);
    assert!(cursor.is_empty());
}

#[test]
fn rpc_errors_get_symbolic_prefixes() {
    assert_eq!(describe_rpc_error(-32001, "gpio"), "CAPABILITY_NOT_EXPOSED: gpio");
    assert_eq!(describe_rpc_error(-32002, "in use"), "BUSY: in use");
    assert_eq!(describe_rpc_error(-5, "boom"), "sidecar error -5: boom");
}

#[test]
fn parses_index_and_bus_addr_device_ids() {
    let parsed = parse_ch34x_device_id("ch34x:ch341:2").expect("index id should parse");
    assert_eq!(parsed.kind, ChipKind::Ch341A);
    assert_eq!(parsed.location, DeviceLocation::DllIndex(2));

    let parsed = parse_ch34x_device_id("ch34x:ch347:3:9").expect("bus:addr id should parse");
    assert_eq!(parsed.kind, ChipKind::Ch347T);
    assert_eq!(parsed.location, DeviceLocation::UsbBusAddr { bus: 3, address: 9 });

    let parsed = parse_ch34x_device_id("ch34x:ch347f:1").expect("ch347f id should parse");
    assert_eq!(parsed.kind, ChipKind::Ch347F);
    assert_eq!(parsed.location, DeviceLocation::DllIndex(1));
}

#[test]
fn rejects_malformed_device_ids() {
    assert!(parse_ch34x_device_id("serprog:COM3").is_err());
    assert!(parse_ch34x_device_id("ch34x:ch999:0").is_err());
    assert!(parse_ch34x_device_id("ch34x:ch341:1:2:3").is_err());
    assert!(parse_ch34x_device_id("ch34x:ch341").is_err());
    assert!(parse_ch34x_device_id("ch34x:ch341:256:1").is_err());
}

#[test]
fn device_id_numbers_follow_str_parse() {
    assert_eq!(
        parse_ch34x_device_id("ch34x:ch341:+7").unwrap().location,
        DeviceLocation::DllIndex(7)
    );
    assert!(parse_ch34x_device_id("ch34x:ch341:").is_err());
    assert!(parse_ch34x_device_id("ch34x:ch341:-1").is_err());
    assert!(parse_ch34x_device_id("ch34x:ch341:4294967296").is_err());
    assert_eq!(
        parse_ch34x_device_id("ch34x:ch341:4294967295").unwrap().location,
        DeviceLocation::DllIndex(u32::MAX)
    );
}

#[test]
fn wire_names_round_trip_through_ids() {
    for kind in [ChipKind::Ch341A, ChipKind::Ch347T, ChipKind::Ch347F] {
        let (wire, _) = kind_wire(kind);
        let parsed = parse_ch34x_device_id(&format!("ch34x:{wire}:0")).unwrap();
        assert_eq!(parsed.kind, kind);
    }
    assert_eq!(kind_wire(ChipKind::Ch347F), ("ch347f", "CH347F"));
}

#[test]
fn settings_follow_the_parsed_location() {
    let s = settings_for(&parse_ch34x_device_id("ch34x:ch347:3:9").unwrap());
    assert_eq!(s.kind, ChipKind::Ch347T);
    assert_eq!((s.usb_bus, s.usb_address, s.device_index), (Some(3), Some(9), 0));
    let s = settings_for(&parse_ch34x_device_id("ch34x:ch341:5").unwrap());
    assert_eq!((s.usb_bus, s.usb_address, s.device_index), (None, None, 5));
    assert_eq!(s.spi_mode, 3);
}
