use uniprog::firmware::{
    decode_firmware, decode_uf2, looks_like_intel_hex, looks_like_srec, looks_like_uf2,
    parse_intel_hex, parse_srec, parse_uf2, FirmwareFormat, Uf2Decoded, UF2_BLOCK_SIZE,
    UF2_MAGIC_END, UF2_MAGIC_START0, UF2_MAGIC_START1,
};

fn write_record(data: &[u8], addr: u16, rectype: u8) -> String {
    let count = data.len() as u8;
    let mut bytes = vec![count, (addr >> 8) as u8, addr as u8, rectype];
    bytes.extend_from_slice(data);
    let sum = bytes.iter().map(|&b| b as u32).sum::<u32>();
    let checksum = ((!(sum & 0xFF) + 1) & 0xFF) as u8;
    bytes.push(checksum);
    let hex: String = bytes.iter().map(|b| format!("{:02X}", b)).collect();
    format!(":{hex}\n")
}

#[test]
fn intel_hex_basic_and_extended_linear() {
    let mut text = String::new();
    text.push_str(":020000040001F9\n"); // linear base 0x00010000
    text.push_str(&write_record(&[0x12, 0x34], 0x0100, 0x00));
    text.push_str(":00000001FF\n");
    let image = parse_intel_hex(text.as_bytes()).unwrap();
    assert_eq!(image.len(), 0x10102);
    assert_eq!(image[0], 0xFF);
    assert_eq!(image[0x10100], 0x12);
    assert_eq!(image[0x10101], 0x34);
}

#[test]
fn intel_hex_rejects_bad_checksum() {
    let text = ":0400000012345678\n";
    assert!(parse_intel_hex(text.as_bytes()).is_err());
}

#[test]
fn srec_s1_and_s3() {
    let text = "S10501001234B3\nS9030000FC\n";
    let image = parse_srec(text.as_bytes()).unwrap();
    assert_eq!(image.len(), 0x0102);
    assert_eq!(&image[0x0100..0x0102], &[0x12, 0x34]);
}

#[test]
fn srec_rejects_bad_checksum() {
    assert!(parse_srec(b"S1070100123400\n").is_err());
}

#[test]
fn uf2_round_trip() {
    let mut block = vec![0u8; UF2_BLOCK_SIZE];
    block[0..4].copy_from_slice(&UF2_MAGIC_START0.to_le_bytes());
    block[4..8].copy_from_slice(&UF2_MAGIC_START1.to_le_bytes());
    block[16..20].copy_from_slice(&8u32.to_le_bytes()); // payload size
    block[20..24].copy_from_slice(&0u32.to_le_bytes()); // block no
    block[24..28].copy_from_slice(&1u32.to_le_bytes()); // num blocks
    block[32..40].copy_from_slice(&[0xAA, 0xBB, 0xCC, 0xDD, 0x00, 0x11, 0x22, 0x33]);
    block[UF2_BLOCK_SIZE - 4..].copy_from_slice(&UF2_MAGIC_END.to_le_bytes());

    let image = parse_uf2(&block).unwrap();
    assert_eq!(image.len(), 256);
    assert_eq!(&image[0..8], &[0xAA, 0xBB, 0xCC, 0xDD, 0x00, 0x11, 0x22, 0x33]);
    assert_eq!(image[8], 0xFF);
    assert_eq!(image[255], 0xFF);
}

#[test]
fn uf2_blocks_can_arrive_out_of_order() {
    let mut blocks = vec![0u8; UF2_BLOCK_SIZE * 2];
    for (n, start) in [(1usize, 0usize), (0usize, UF2_BLOCK_SIZE)] {
        let b = &mut blocks[start..start + UF2_BLOCK_SIZE];
        b[0..4].copy_from_slice(&UF2_MAGIC_START0.to_le_bytes());
        b[4..8].copy_from_slice(&UF2_MAGIC_START1.to_le_bytes());
        b[16..20].copy_from_slice(&256u32.to_le_bytes());
        b[20..24].copy_from_slice(&(n as u32).to_le_bytes());
        b[24..28].copy_from_slice(&2u32.to_le_bytes());
        b[32] = n as u8;
        b[UF2_BLOCK_SIZE - 4..].copy_from_slice(&UF2_MAGIC_END.to_le_bytes());
    }
    let image = parse_uf2(&blocks).unwrap();
    assert_eq!(image[0], 0);
    assert_eq!(image[256], 1);
}

#[test]
fn uf2_sniff_requires_start_magic() {
    let mut block = vec![0u8; UF2_BLOCK_SIZE];
    block[0..4].copy_from_slice(&UF2_MAGIC_START0.to_le_bytes());
    assert!(looks_like_uf2(&block));
    assert!(!looks_like_uf2(&[0x00, 0x01, 0x02, 0x03]));
    assert!(!looks_like_uf2(&[]));
}

fn valid_uf2_block(block_no: u32, payload_len: u32) -> Vec<u8> {
    let mut block = vec![0u8; UF2_BLOCK_SIZE];
    block[0..4].copy_from_slice(&UF2_MAGIC_START0.to_le_bytes());
    block[4..8].copy_from_slice(&UF2_MAGIC_START1.to_le_bytes());
    block[16..20].copy_from_slice(&payload_len.to_le_bytes());
    block[20..24].copy_from_slice(&block_no.to_le_bytes());
    block[24..28].copy_from_slice(&1u32.to_le_bytes());
    block[32..36].copy_from_slice(&[0xDE, 0xAD, 0xBE, 0xEF]);
    block[UF2_BLOCK_SIZE - 4..].copy_from_slice(&UF2_MAGIC_END.to_le_bytes());
    block
}

#[test]
fn dispatch_by_extension_and_sniffing() {
    let (bytes, format) = decode_firmware(vec![1u8, 2, 3, 4], "bin").unwrap();
    assert_eq!(bytes, vec![1, 2, 3, 4]);
    assert_eq!(format.label(), "原始镜像");

    let (bytes, format) = decode_firmware(b":01000000AA55\n".to_vec(), "hex").unwrap();
    assert_eq!(bytes, vec![0xAA]);
    assert_eq!(format, FirmwareFormat::IntelHex);
    assert_eq!(format.label(), "Intel HEX");

    let (bytes, format) =
        decode_firmware(b"S10501001234B3\nS9030000FC\n".to_vec(), "txt").unwrap();
    assert_eq!(bytes.len(), 0x102);
    assert_eq!(format.label(), "Motorola S-record");

    let (bytes, format) = decode_firmware(valid_uf2_block(0, 4), "dat").unwrap();
    assert_eq!(bytes.len(), 256);
    assert_eq!(&bytes[0..4], &[0xDE, 0xAD, 0xBE, 0xEF]);
    assert_eq!(format.label(), "UF2");
}

#[test]
fn sniffed_srec_that_does_not_parse_stays_raw() {
    let raw = b"S1 not really a record".to_vec();
    assert!(looks_like_srec(&raw));
    let (bytes, format) = decode_firmware(raw.clone(), "bin").unwrap();
    assert_eq!(bytes, raw);
    assert_eq!(format, FirmwareFormat::Raw);
}

#[test]
fn extension_forces_parser_even_when_content_is_bad() {
    assert!(decode_firmware(b"not hex".to_vec(), "hex").is_err());
    assert!(decode_firmware(b"not srec".to_vec(), "s19").is_err());
    assert!(decode_firmware(b"not uf2".to_vec(), "uf2").is_err());
}

#[test]
fn intel_hex_segment_base_and_blank_lines() {
    // segment base 0x1000 << 4 = 0x10000, CRLF line endings and blank lines.
    let text = "\r\n:020000021000EC\r\n\r\n:0100000042BD\r\n:00000001FF\r\n";
    let image = parse_intel_hex(text.as_bytes()).unwrap();
    assert_eq!(image.len(), 0x10001);
    assert_eq!(image[0x10000], 0x42);
    assert_eq!(image[0xFFFF], 0xFF);
}

#[test]
fn intel_hex_without_data_is_rejected() {
    assert!(parse_intel_hex(b":00000001FF\n").is_err());
    assert!(parse_intel_hex(b"").is_err());
}

#[test]
fn intel_hex_stops_at_end_of_file_record() {
    let text = ":0100000042BD\n:00000001FF\ngarbage after eof\n";
    let image = parse_intel_hex(text.as_bytes()).unwrap();
    assert_eq!(image, vec![0x42]);
}

#[test]
fn intel_hex_rejects_unknown_record_type_and_bad_digits() {
    assert!(parse_intel_hex(b":0000000AF6\n").is_err());
    assert!(parse_intel_hex(b":01000000G2BD\n").is_err());
    assert!(parse_intel_hex(b"0100000042BD\n").is_err());
}

#[test]
fn srec_s2_and_s3_addresses() {
    let s2 = "S20501000012E7\n";
    let image = parse_srec(s2.as_bytes()).unwrap();
    assert_eq!(image.len(), 0x10001);
    assert_eq!(image[0x10000], 0x12);
    let s3 = "S30600000010AB3E\n";
    let image = parse_srec(s3.as_bytes()).unwrap();
    assert_eq!(image.len(), 0x11);
    assert_eq!(image[0x10], 0xAB);
}

#[test]
fn srec_rejects_s4_and_short_address() {
    assert!(parse_srec(b"S4030000FC\n").is_err());
    assert!(parse_srec(b"S10201FC\n").is_err());
}

#[test]
fn uf2_rejects_bad_size_duplicates_and_bad_magic() {
    assert!(parse_uf2(&[0u8; 100]).is_err());
    assert!(parse_uf2(&[]).is_err());
    let mut two = valid_uf2_block(0, 4);
    two.extend(valid_uf2_block(0, 4));
    assert!(parse_uf2(&two).is_err());
    let mut bad = valid_uf2_block(0, 4);
    bad[4] ^= 1;
    assert!(parse_uf2(&bad).is_err());
    assert!(parse_uf2(&valid_uf2_block(0, 477)).is_err());
}

#[test]
fn uf2_last_block_payload_overrun_is_reported() {
    assert!(matches!(decode_uf2(&valid_uf2_block(0, 300)), Uf2Decoded::Overrun));
}

#[test]
fn sniffers_skip_leading_whitespace() {
    assert!(looks_like_intel_hex(b"  \r\n:00000001FF"));
    assert!(!looks_like_intel_hex(b"   "));
    assert!(looks_like_srec(b"\tS9030000FC"));
    assert!(!looks_like_srec(b"S"));
}
