use honeypot::geo::{GeoDb, GeoError, geo_ip_decode, parse_ipv4};

/// Append one MMDB string (control byte, then the bytes).
fn push_str(buf: &mut Vec<u8>, s: &str) {
    buf.push(0x40 | (s.len() as u8));
    buf.extend_from_slice(s.as_bytes());
}

/// A minimal country database holding exactly one address, 64.223.164.101,
/// with ISO country code "US": a 32-node binary search tree routing that
/// address to one record, then the data section, marker and metadata.
fn fixture_db_bytes() -> Vec<u8> {
    let mut buf: Vec<u8> = Vec::new();
    let addr = [64u8, 223, 164, 101];
    let not_found: u32 = 32; // == node_count
    let data_ptr: u32 = 48; // node_count + separator + offset 0
    for i in 0..32 {
        let bit = (addr[i / 8] >> (7 - (i % 8))) & 1;
        let next: u32 = if i == 31 { data_ptr } else { (i as u32) + 1 };
        let (left, right) = if bit == 0 { (next, not_found) } else { (not_found, next) };
        buf.extend_from_slice(&left.to_be_bytes()[1..4]);
        buf.extend_from_slice(&right.to_be_bytes()[1..4]);
    }
    buf.extend_from_slice(&[0u8; 16]);
    // the record: {"country": {"iso_code": "US"}}
    buf.push(0xE1);
    push_str(&mut buf, "country");
    buf.push(0xE1);
    push_str(&mut buf, "iso_code");
    push_str(&mut buf, "US");
    // metadata marker and metadata map
    buf.extend_from_slice(&[0xAB, 0xCD, 0xEF]);
    buf.extend_from_slice(b"MaxMind.com");
    buf.push(0xE9);
    push_str(&mut buf, "binary_format_major_version");
    buf.extend_from_slice(&[0xA1, 2]);
    push_str(&mut buf, "binary_format_minor_version");
    buf.push(0xA0);
    push_str(&mut buf, "build_epoch");
    buf.extend_from_slice(&[0x00, 0x02]);
    push_str(&mut buf, "database_type");
    push_str(&mut buf, "Test");
    push_str(&mut buf, "description");
    buf.push(0xE0);
    push_str(&mut buf, "ip_version");
    buf.extend_from_slice(&[0xA1, 4]);
    push_str(&mut buf, "languages");
    buf.extend_from_slice(&[0x00, 0x04]);
    push_str(&mut buf, "node_count");
    buf.extend_from_slice(&[0xC1, 32]);
    push_str(&mut buf, "record_size");
    buf.extend_from_slice(&[0xA1, 24]);
    buf
}

fn fixture_db() -> GeoDb {
    GeoDb::from_bytes(fixture_db_bytes()).expect("fixture database must load")
}

#[test]
fn test_geo_ip_coding() {
    let db = fixture_db();
    assert_eq!(Ok("US".to_string()), geo_ip_decode(&db, "64.223.164.101"));
}

#[test]
fn test_geo_absent_address_not_found() {
    let db = fixture_db();
    assert_eq!(Err(GeoError::NotFound), geo_ip_decode(&db, "1.2.3.4"));
    assert_eq!(Err(GeoError::NotFound), geo_ip_decode(&db, "64.223.164.102"));
}

#[test]
fn test_geo_invalid_address() {
    let db = fixture_db();
    assert_eq!(Err(GeoError::InvalidAddress), geo_ip_decode(&db, "not an address"));
    assert_eq!(Err(GeoError::InvalidAddress), geo_ip_decode(&db, ""));
    assert_eq!(Err(GeoError::InvalidAddress), geo_ip_decode(&db, "1.2.3"));
    assert_eq!(Err(GeoError::InvalidAddress), geo_ip_decode(&db, "999.1.1.1"));
}

#[test]
fn test_parse_ipv4_accepts_canonical_forms() {
    assert_eq!(Some((64, 223, 164, 101)), parse_ipv4("64.223.164.101"));
    assert_eq!(Some((0, 0, 0, 0)), parse_ipv4("0.0.0.0"));
    assert_eq!(Some((255, 255, 255, 255)), parse_ipv4("255.255.255.255"));
    assert_eq!(Some((1, 22, 3, 104)), parse_ipv4("1.22.3.104"));
}

#[test]
fn test_parse_ipv4_rejects_malformed_text() {
    assert_eq!(None, parse_ipv4(""));
    assert_eq!(None, parse_ipv4("1.2.3"));
    assert_eq!(None, parse_ipv4("1.2.3.4.5"));
    assert_eq!(None, parse_ipv4("256.1.1.1"));
    assert_eq!(None, parse_ipv4("01.2.3.4"));
    assert_eq!(None, parse_ipv4("1..2.3"));
    assert_eq!(None, parse_ipv4("1.2.3.4 "));
    assert_eq!(None, parse_ipv4("a.b.c.d"));
    assert_eq!(None, parse_ipv4("1234.1.1.1"));
}
