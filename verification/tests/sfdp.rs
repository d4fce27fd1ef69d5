use uniprog::sfdp::{discover_sfdp, parse_basic_flash_params, parse_sfdp_header, sfdp_table_request};

const SFDP_SIGNATURE: [u8; 4] = [0x53, 0x46, 0x44, 0x50];

fn synthetic_table(density_mb: u32, page_shift: u8) -> Vec<u8> {
    let mut table = vec![0u8; 44];
    let dw1 = (1u32 << 16) | (0x0B << 8) | 0x01;
    table[0..4].copy_from_slice(&dw1.to_le_bytes());
    let bits = (density_mb as u64) * 8 * 1024 * 1024;
    let n = bits.trailing_zeros();
    let dw2 = 0x8000_0000u32 | n;
    table[4..8].copy_from_slice(&dw2.to_le_bytes());
    table[28] = 12;
    table[29] = 0x20;
    table[30] = 16;
    table[31] = 0xD8;
    let dw11 = (page_shift as u32) << 4;
    table[40..44].copy_from_slice(&dw11.to_le_bytes());
    table
}

fn synthetic_header(table_ptr: u32, table_len_words: u8) -> Vec<u8> {
    let mut buf = vec![0u8; 16];
    buf[..4].copy_from_slice(&SFDP_SIGNATURE);
    buf[4] = 0;
    buf[5] = 1;
    buf[6] = 0;
    buf[7] = 0xFF;
    buf[8] = 0x00;
    buf[11] = table_len_words;
    buf[12..15].copy_from_slice(&table_ptr.to_le_bytes()[..3]);
    buf
}

#[test]
fn header_round_trip() {
    let buf = synthetic_header(0x30, 11);
    let info = parse_sfdp_header(&buf);
    assert!(info.valid);
    assert_eq!(info.num_parameter_headers, 1);
    assert_eq!(info.parameter_headers[0].table_pointer, 0x30);
}

#[test]
fn rejects_bad_signature() {
    let mut buf = synthetic_header(0, 11);
    buf[0] = 0;
    assert!(!parse_sfdp_header(&buf).valid);
}

#[test]
fn parses_basic_params_geometry() {
    let params = parse_basic_flash_params(&synthetic_table(8, 8)).expect("basic params");
    assert_eq!(params.density_bytes, 8 * 1024 * 1024);
    assert_eq!(params.page_size, 256);
    assert_eq!(params.sector_size, 4096);
    assert_eq!(params.block_size, 65536);
    assert!(params.fast_read_supported);
    assert_eq!(params.fast_read_opcode, 0x0B);
    assert!(!params.needs_4byte_addr);
}

#[test]
fn density_exponent_drives_4byte_mode() {
    let params = parse_basic_flash_params(&synthetic_table(32, 8)).expect("basic params");
    assert_eq!(params.density_bytes, 32 * 1024 * 1024);
    assert!(params.needs_4byte_addr);
}

#[test]
fn discover_reads_header_and_table() {
    let table = synthetic_table(16, 8);
    let mut header = synthetic_header(0x30, 11);
    header.extend_from_slice(&table);
    let found = discover_sfdp(|addr, len| match addr {
        0 => {
            assert_eq!(len, 16);
            Ok(header[..len].to_vec())
        }
        0x30 => {
            assert!(len >= table.len());
            Ok(table[..len].to_vec())
        }
        other => panic!("unexpected SFDP address 0x{other:X}"),
    })
    .expect("discover")
    .expect("valid sfdp");
    assert_eq!(found.density_bytes, 16 * 1024 * 1024);
}

#[test]
fn table_request_uses_declared_length_with_minimum() {
    assert_eq!(sfdp_table_request(&synthetic_header(0x30, 11)), Some((0x30, 44)));
    assert_eq!(sfdp_table_request(&synthetic_header(0x80, 2)), Some((0x80, 16)));
    let mut no_basic = synthetic_header(0x30, 11);
    no_basic[8] = 0x84;
    assert_eq!(sfdp_table_request(&no_basic), None);
}

#[test]
fn short_or_bad_density_table_is_rejected() {
    assert!(parse_basic_flash_params(&[0u8; 15]).is_none());
    let mut t = synthetic_table(8, 8);
    t[4..8].copy_from_slice(&(0x8000_0000u32 | 40).to_le_bytes());
    assert!(parse_basic_flash_params(&t).is_none());
}

#[test]
fn discover_without_signature_is_none_and_errors_pass_through() {
    let r = discover_sfdp(|_, len| Ok(vec![0u8; len])).expect("no error");
    assert!(r.is_none());
    let e = discover_sfdp(|_, _| Err("bus down".to_string()));
    assert_eq!(e.unwrap_err(), "bus down");
}
