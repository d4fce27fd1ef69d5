use uniprog::ch34x::{
    ch341_build_stream, ch341_extract_read, ch347_cs_payload, ch347_packet, ch347_prescaler,
    ch347_spi_config, freq_to_clock_index, swap_byte, ChipKind, Ch34xSettings, CH341_CMD_SPI_STREAM,
    CH341_PACKET_LEN,
};

#[test]
fn bit_swap_round_trip() {
    for byte in 0u8..=255 {
        assert_eq!(swap_byte(swap_byte(byte)), byte);
    }
}

#[test]
fn ch341_frame_layout_matches_imsprog() {
    // 5-byte read command (1 cmd + 4 addr) -> 1 packet: 32 + 1 + 5 bytes
    let write = [0x03u8, 0x12, 0x34, 0x56, 0x78];
    let frame = ch341_build_stream(&write, 0);
    assert_eq!(frame.len(), CH341_PACKET_LEN + 1 + write.len());
    assert!(frame[..CH341_PACKET_LEN].iter().all(|&b| b == 0));
    assert_eq!(frame[CH341_PACKET_LEN], CH341_CMD_SPI_STREAM);
    assert_eq!(frame[CH341_PACKET_LEN + 1], swap_byte(0x03));

    // 32 data bytes need two packets (31 + 1)
    let write2 = [0xAAu8; 32];
    let frame2 = ch341_build_stream(&write2, 0);
    assert_eq!(frame2.len(), CH341_PACKET_LEN + 2 + 32);
    assert_eq!(frame2[CH341_PACKET_LEN + 32], CH341_CMD_SPI_STREAM);

    // Read region: after the write bytes, payload is 0xFF placeholders
    let write3 = [0x03u8; 2];
    let frame3 = ch341_build_stream(&write3, 4);
    assert_eq!(frame3.len(), CH341_PACKET_LEN + 1 + 6);
    assert_eq!(&frame3[CH341_PACKET_LEN + 1 + 2..], &[0xFF; 4]);
}

#[test]
fn ch341_response_extraction() {
    let mut response = vec![0x00u8; 6];
    response[2] = swap_byte(0x5A);
    response[3] = swap_byte(0xA5);
    let mut read = [0u8; 4];
    ch341_extract_read(2, &mut read, &response);
    assert_eq!(read, [0x5A, 0xA5, 0x00, 0x00]);
}

#[test]
fn swap_byte_reverses_bit_order() {
    assert_eq!(swap_byte(0x01), 0x80);
    assert_eq!(swap_byte(0x03), 0xC0);
    assert_eq!(swap_byte(0xF0), 0x0F);
}

#[test]
fn ch341_empty_command_is_just_the_zero_block() {
    assert_eq!(ch341_build_stream(&[], 0), vec![0u8; 32]);
}

#[test]
fn ch341_read_phase_spills_into_next_packet() {
    // 1 write byte + 40 read bytes = 41 stream bytes -> packets of 31 + 10.
    let frame = ch341_build_stream(&[0x9F], 40);
    assert_eq!(frame.len(), 32 + 1 + 31 + 1 + 10);
    assert_eq!(frame[32], 0xA8);
    assert_eq!(frame[33], swap_byte(0x9F));
    assert_eq!(frame[64], 0xA8);
    assert!(frame[65..].iter().all(|&b| b == 0xFF));
}

#[test]
fn default_settings_match_documented_defaults() {
    let s = Ch34xSettings::default();
    assert_eq!(s.kind, ChipKind::Ch341A);
    assert_eq!(s.spi_mode, 3);
    assert_eq!(s.freq_khz, 15_000);
    assert_eq!(s.io_level_mv, 3300);
    assert_eq!(s.device_index, 0);
    assert_eq!(s.usb_bus, None);
    assert_eq!(s.usb_address, None);
}

#[test]
fn ch347_packet_header_and_split() {
    assert_eq!(ch347_packet(0xC4, &[1, 2, 3]), vec![0xC4, 3, 0, 1, 2, 3]);
    let big = vec![0x55u8; 600];
    let p = ch347_packet(0xC4, &big);
    assert_eq!(p.len(), 3 + 507);
    assert_eq!(&p[..3], &[0xC4, 0x58, 0x02]);
}

#[test]
fn ch347_prescaler_halves_from_60mhz() {
    assert_eq!(ch347_prescaler(60_000), 0);
    assert_eq!(ch347_prescaler(30_000), 8);
    assert_eq!(ch347_prescaler(15_000), 16);
    assert_eq!(ch347_prescaler(20_000), 16);
    assert_eq!(ch347_prescaler(1), 56);
}

#[test]
fn ch347_spi_config_sets_mode_bits() {
    let mut cfg = [0xEEu8; 40];
    ch347_spi_config(&mut cfg, 3);
    assert_eq!(&cfg[0..12], &[0, 0, 0x04, 0x01, 0, 0, 2, 0, 1, 0, 0, 0x02]);
    assert_eq!(&cfg[12..14], &[0xEE, 0xEE]);
    assert_eq!(cfg[21], 0xEE & 0x3F);
    assert_eq!(cfg[22], 0xEE);
}

#[test]
fn ch347_cs_payload_places_value() {
    assert_eq!(ch347_cs_payload(0, false), [0x80, 0, 0, 0, 0, 0, 0, 0, 0, 0]);
    assert_eq!(ch347_cs_payload(1, true), [0, 0, 0, 0, 0, 0xC0, 0, 0, 0, 0]);
}

#[test]
fn dll_clock_index_steps() {
    assert_eq!(freq_to_clock_index(100_000), 0);
    assert_eq!(freq_to_clock_index(30_000), 1);
    assert_eq!(freq_to_clock_index(15_000), 2);
    assert_eq!(freq_to_clock_index(937), 6);
    assert_eq!(freq_to_clock_index(936), 7);
}
