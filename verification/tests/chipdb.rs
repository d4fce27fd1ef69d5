use uniprog::chipdb::{build_blob, canonical_blob, parse_attr_string, protocol_id_to_name, protocol_name_to_id, Chiplib};

const XML: &str = r#"<?xml version="1.0"?>
<chiplist>
  <!-- a comment <with> brackets -->
  <SPI_NOR>
    <WINBOND>
      <W25Q128 id="EF4018" size="16777216" page="256" sector="4096" block="65536"/>
      <W25Q64 id="EF4017" size="8388608" page="256"/>
    </WINBOND>
    <Zbit>
      <ZB25D40B id="5E3213" size="524288" page="256" sector="4096" vcc="3.3"/>
    </Zbit>
  </SPI_NOR>
  <SPI_NAND>
    <GigaDevice>
      <GD5F1GQ4UC id="C8B1" size="134217728" page="2048" dummyMode="prepend"/>
    </GigaDevice>
  </SPI_NAND>
</chiplist>
"#;

fn sample() -> Chiplib {
    Chiplib::load_xml(XML.as_bytes()).ok().expect("sample XML loads")
}

#[test]
fn xml_chips_are_indexed_with_their_section() {
    let lib = sample();
    assert_eq!(lib.entry_count(), 4);
    let d40 = lib.find_by_id("5E3213").expect("ZB25D40B");
    assert_eq!(d40.vendor, "Zbit");
    assert_eq!(d40.model, "ZB25D40B");
    assert_eq!(d40.protocol, "SPI_NOR");
    assert_eq!(d40.page, 256);
    assert_eq!(d40.size, 512 * 1024);
    assert_eq!(d40.attr_u32("sector"), Some(4096));
    assert_eq!(d40.attr("vcc"), Some("3.3"));
    let nand = lib.find_by_id("C8B1").expect("GD5F1GQ4UC");
    assert_eq!(nand.protocol, "SPI_NAND");
    assert_eq!(nand.attr("dummyMode"), Some("prepend"));
    assert!(lib.find_by_id("123456").is_none());
}

#[test]
fn obfuscated_xml_loads_and_garbage_is_refused() {
    let sealed = uniprog::chipdb::obfuscate(XML.as_bytes());
    assert_eq!(Chiplib::load_xml(&sealed).ok().expect("obfuscated XML").entry_count(), 4);
    assert!(Chiplib::load_xml(b"").is_err());
}

#[test]
fn binary_library_round_trips() {
    let lib = sample();
    let bin = lib.save_bin();
    let again = Chiplib::load_bin(&bin).ok().expect("saved library loads");
    assert_eq!(again.entry_count(), lib.entry_count());
    let w = again.find_by_id("EF4018").expect("W25Q128");
    assert_eq!(w.model, "W25Q128");
    assert_eq!(w.size, 16 * 1024 * 1024);
    assert_eq!(w.attr_u32("block"), Some(65536));
    assert!(again.is_well_formed());
}

#[test]
fn listings_are_sorted_and_counted() {
    let lib = sample();
    assert_eq!(lib.list_vendors("SPI_NOR"), vec!["WINBOND".to_string(), "Zbit".to_string()]);
    assert_eq!(lib.list_models("SPI_NOR", "WINBOND"), vec!["W25Q128".to_string(), "W25Q64".to_string()]);
    let protocols = lib.list_protocols();
    assert!(protocols.contains(&"SPI_NOR".to_string()));
    assert!(protocols.contains(&"SPI_NAND".to_string()));
    let counts = lib.protocol_counts();
    assert!(counts.contains(&("SPI_NOR".to_string(), 3)));
}

#[test]
fn upsert_replaces_and_adds() {
    let mut lib = sample();
    lib.upsert_chip("EF4018", "WINBOND", "W25Q128JV", "SPI_NOR", &[("size", "16777216"), ("page", "256")])
        .expect("replace");
    assert_eq!(lib.entry_count(), 4);
    assert_eq!(lib.find_by_id("EF4018").unwrap().model, "W25Q128JV");
    lib.upsert_chip("0B4018", "XTX", "XT25F128B", "SPI_NOR", &[("size", "16777216")]).expect("add");
    assert_eq!(lib.entry_count(), 5);
    let added = lib.find_by_id("0B4018").unwrap();
    assert_eq!(added.vendor, "XTX");
    assert_eq!(added.model, "XT25F128B");
    assert_eq!(added.protocol, "SPI_NOR");
    assert_eq!(added.attr("size"), Some("16777216"));
    assert_eq!(added.attr("id"), Some("0B4018"));
    assert_eq!(added.size, 16 * 1024 * 1024);
    assert!(lib.upsert_chip("AA", "V", "M", "NO_SUCH_PROTOCOL", &[]).is_err());
    assert!(lib.upsert_chip("", "V", "M", "SPI_NOR", &[]).is_err());
    assert!(lib.upsert_chip("0123456789ABCDEF0", "V", "M", "SPI_NOR", &[]).is_err());
    assert_eq!(lib.entry_count(), 5);
}

#[test]
fn attribute_strings_and_blobs() {
    let attrs = parse_attr_string(r#"id="EF4018" size='16777216'  page=256"#);
    assert_eq!(attrs[0], ("id".to_string(), "EF4018".to_string()));
    assert_eq!(attrs[1], ("size".to_string(), "'16777216'".to_string()));
    assert_eq!(attrs[2], ("page".to_string(), "256".to_string()));
    let pairs = vec![("vendor".to_string(), "X".to_string()), ("model".to_string(), "Y".to_string())];
    assert_eq!(canonical_blob(&pairs), b"vendor=X\0model=Y\0".to_vec());
    assert_eq!(build_blob(&pairs).ok().unwrap(), b"vendor=X\0model=Y\0".to_vec());
    assert_eq!(protocol_name_to_id("SPI_NOR"), 3);
    assert_eq!(protocol_id_to_name(2), "SPI_NAND");
}
