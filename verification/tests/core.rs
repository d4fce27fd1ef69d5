use uniprog::chipdb::{deobfuscate, obfuscate};
use uniprog::devcore::{jedec_id_candidates, nor_requires_4byte};
use uniprog::nor_ops::{nor_bp_bits, BP_MASK_SR1};
use uniprog::upt_log::{accepts, format_line, Level};

#[test]
fn main_nor_4byte_boundary() {
    assert!(!nor_requires_4byte(0x0100_0000));
    assert!(nor_requires_4byte(0x0100_0001));
    assert!(nor_requires_4byte(0x0200_0000));
}

#[test]
fn main_jedec_candidates_cover_shifted_nand_id() {
    let raw = [0xFF, 0x01, 0x25, 0xFF, 0xFF];
    let ids = jedec_id_candidates(&raw);
    assert!(ids.contains(&"0125".to_string()));
    assert!(ids.contains(&"FF0125".to_string()));
    assert!(ids.contains(&"0125FF".to_string()));
}

#[test]
fn nor_4byte_boundary() {
    assert!(!nor_requires_4byte(0x0100_0000));
    assert!(nor_requires_4byte(0x0100_0001));
    assert!(nor_requires_4byte(0x0200_0000));
}

#[test]
fn jedec_candidates_cover_shifted_nand_id() {
    let raw = [0xFF, 0x01, 0x25, 0xFF, 0xFF];
    let ids = jedec_id_candidates(&raw);
    assert!(ids.contains(&"0125".to_string()));
    assert!(ids.contains(&"FF0125".to_string()));
    assert!(ids.contains(&"0125FF".to_string()));
}

#[test]
fn level_order_filters_debug_by_default() {
    assert!(Level::Debug < Level::Info);
    assert!(Level::Info < Level::Warn);
    assert!(Level::Warn < Level::Error);
}

#[test]
fn level_filter_drops_lower_levels() {
    assert!(!accepts(Level::Info, Level::Debug));
    assert!(accepts(Level::Info, Level::Info));
    assert!(accepts(Level::Info, Level::Error));
    assert!(accepts(Level::Debug, Level::Debug));
    assert!(!accepts(Level::Error, Level::Warn));
    assert_eq!(Level::Warn.as_str(), "WARN");
}

#[test]
fn log_line_layout() {
    assert_eq!(format_line("2024-01-02 03:04:05.006", Level::Info, "ready"), "2024-01-02 03:04:05.006 [INFO] ready");
    assert_eq!(format_line("t", Level::Error, ""), "t [ERROR] ");
}

#[test]
fn obfuscation_round_trip() {
    let original = b"CHIP-vendor=WINBOND-model=W25Q64-size=8388608";
    let sealed = obfuscate(original);
    assert_ne!(sealed.as_slice(), original.as_slice());
    assert!(!String::from_utf8_lossy(&sealed).contains("WINBOND"));
    assert_eq!(deobfuscate(&sealed), original);
}

#[test]
fn nor_bp_bits_no_protection_returns_zero() {
    assert_eq!(nor_bp_bits(0x00, 0x00), 0);
    assert_eq!(nor_bp_bits(0xE3, 0x00), 0);
}

#[test]
fn nor_bp_bits_masks_sr1_bp0_bp2() {
    assert_eq!(nor_bp_bits(0x04, 0x00), 0x04);
    assert_eq!(nor_bp_bits(0x08, 0x00), 0x08);
    assert_eq!(nor_bp_bits(0x10, 0x00), 0x10);
    assert_eq!(nor_bp_bits(0x1C, 0x00), BP_MASK_SR1);
    assert_eq!(nor_bp_bits(0xFF, 0x00), BP_MASK_SR1);
}

#[test]
fn nor_bp_bits_adds_bp4_when_sr2_valid() {
    let sr1_bp = 0x04;
    assert_eq!(nor_bp_bits(sr1_bp, 0x40), 0x20 | sr1_bp);
    assert_eq!(nor_bp_bits(0x1C, 0x40), 0x20 | 0x1C);
    assert_eq!(nor_bp_bits(sr1_bp, 0x42), 0x20 | sr1_bp);
}

#[test]
fn nor_bp_bits_ignores_sr2_ff() {
    assert_eq!(nor_bp_bits(0x1C, 0xFF), 0x1C);
    assert_eq!(nor_bp_bits(0x00, 0xFF), 0);
}
