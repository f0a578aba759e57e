use honeypot::bus::EventBus;
use honeypot::collector::Collector;
use honeypot::events::DbLogTypes;
use honeypot::geo::GeoDb;
use honeypot::server::{Auth, Server};
use honeypot::store::{Store, Table};
use honeypot::telemetry::measurement_name;

/// Append one MMDB string (control byte, then the bytes).
fn push_str(buf: &mut Vec<u8>, s: &str) {
    buf.push(0x40 | (s.len() as u8));
    buf.extend_from_slice(s.as_bytes());
}

/// The same single-address fixture database as in the geo tests:
/// 64.223.164.101 carries ISO country code "US", everything else is absent.
fn fixture_db() -> GeoDb {
    let mut buf: Vec<u8> = Vec::new();
    let addr = [64u8, 223, 164, 101];
    let not_found: u32 = 32;
    let data_ptr: u32 = 48;
    for i in 0..32 {
        let bit = (addr[i / 8] >> (7 - (i % 8))) & 1;
        let next: u32 = if i == 31 { data_ptr } else { (i as u32) + 1 };
        let (left, right) = if bit == 0 { (next, not_found) } else { (not_found, next) };
        buf.extend_from_slice(&left.to_be_bytes()[1..4]);
        buf.extend_from_slice(&right.to_be_bytes()[1..4]);
    }
    buf.extend_from_slice(&[0u8; 16]);
    buf.push(0xE1);
    push_str(&mut buf, "country");
    buf.push(0xE1);
    push_str(&mut buf, "iso_code");
    push_str(&mut buf, "US");
    buf.extend_from_slice(&[0xAB, 0xCD, 0xEF]);
    buf.extend_from_slice(b"MaxMind.com");
    buf.push(0xE9);
    push_str(&mut buf, "binary_format_major_version");
    buf.extend_from_slice(&[0xA1, 2]);
    push_str(&mut buf, "binary_format_minor_version");
    buf.push(0xA0);
    push_str(&mut buf, "build_epoch");
    buf.extend_from_slice(&[0x00, 0x02]);
    push_str(&mut buf, "database_type");
    push_str(&mut buf, "Test");
    push_str(&mut buf, "description");
    buf.push(0xE0);
    push_str(&mut buf, "ip_version");
    buf.extend_from_slice(&[0xA1, 4]);
    push_str(&mut buf, "languages");
    buf.extend_from_slice(&[0x00, 0x04]);
    push_str(&mut buf, "node_count");
    buf.extend_from_slice(&[0xC1, 32]);
    push_str(&mut buf, "record_size");
    buf.extend_from_slice(&[0xA1, 24]);
    GeoDb::from_bytes(buf).expect("fixture database must load")
}

#[test]
fn test_repeated_password_attempts_count_exactly() {
    let mut collector = Collector::new();
    for expected in 1..=3u64 {
        let cmd = collector
            .handle_event(DbLogTypes::Password("toor".to_string()))
            .expect("a password event announces an upsert");
        assert_eq!(Table::Passwords, cmd.table);
        assert_eq!("toor", cmd.key);
        assert_eq!(expected, cmd.count);
    }
    assert_eq!(3, collector.get_count(Table::Passwords, &"toor".to_string()));
    assert_eq!(0, collector.get_count(Table::Logins, &"toor".to_string()));
}

#[test]
fn test_counts_never_decrease_over_mixed_events() {
    let mut collector = Collector::new();
    let events = vec![
        DbLogTypes::Login("root".to_string()),
        DbLogTypes::Password("toor".to_string()),
        DbLogTypes::IpAddress("1.2.3.4".to_string()),
        DbLogTypes::Login("admin".to_string()),
        DbLogTypes::Login("root".to_string()),
        DbLogTypes::Password("12345".to_string()),
        DbLogTypes::Login("root".to_string()),
    ];
    let mut last_root: u64 = 0;
    let mut last_toor: u64 = 0;
    for event in events {
        let _ = collector.handle_event(event);
        let root = collector.get_count(Table::Logins, &"root".to_string());
        let toor = collector.get_count(Table::Passwords, &"toor".to_string());
        assert!(root >= last_root);
        assert!(toor >= last_toor);
        last_root = root;
        last_toor = toor;
    }
    assert_eq!(3, last_root);
    assert_eq!(1, last_toor);
}

#[test]
fn test_ip_events_count_within_window() {
    let mut collector = Collector::new();
    for _ in 0..4 {
        let cmd = collector.handle_event(DbLogTypes::IpAddress("9.9.9.9".to_string()));
        assert!(cmd.is_none());
    }
    assert_eq!(4, collector.ip_count(&"9.9.9.9".to_string()));
    assert_eq!(0, collector.ip_count(&"8.8.8.8".to_string()));
}

#[test]
fn test_flush_clears_counters_and_second_flush_sends_nothing() {
    let db = fixture_db();
    let mut collector = Collector::new();
    collector.note_ip(&"1.2.3.4".to_string());
    collector.note_ip(&"1.2.3.4".to_string());
    collector.note_ip(&"5.6.7.8".to_string());
    let points = collector.flush(&db);
    assert_eq!(2, points.len());
    assert_eq!(0, collector.ip_count(&"1.2.3.4".to_string()));
    let again = collector.flush(&db);
    assert!(again.is_empty());
}

#[test]
fn test_flush_points_carry_counts_and_country_tags() {
    let db = fixture_db();
    let mut collector = Collector::new();
    collector.note_ip(&"64.223.164.101".to_string());
    collector.note_ip(&"64.223.164.101".to_string());
    collector.note_ip(&"1.2.3.4".to_string());
    let points = collector.flush(&db);
    assert_eq!(2, points.len());
    let known = points
        .iter()
        .find(|p| p.address == "64.223.164.101")
        .expect("the counted address must be reported");
    assert_eq!(2, known.count);
    assert_eq!(Some("US".to_string()), known.country);
    let unknown = points
        .iter()
        .find(|p| p.address == "1.2.3.4")
        .expect("the other address must be reported too");
    assert_eq!(1, unknown.count);
    assert_eq!(None, unknown.country);
}

#[test]
fn test_scenario_three_password_logins() {
    let db = fixture_db();
    let server = Server::new();
    let mut bus = EventBus::new(100);
    let mut collector = Collector::new();
    for _ in 0..3 {
        let decision = server.auth_password(&"root".to_string(), &"toor".to_string(), &mut bus);
        assert_eq!(Auth::Reject, decision);
    }
    let (upserts, points) = collector.run(&mut bus, &db);
    assert_eq!(3, collector.get_count(Table::Logins, &"root".to_string()));
    assert_eq!(3, collector.get_count(Table::Passwords, &"toor".to_string()));
    assert_eq!(6, upserts.len());
    assert!(points.is_empty());
    assert_eq!(0, bus.len());
    // the announced upserts end at the stored counts
    let last_login = upserts
        .iter()
        .filter(|u| u.table == Table::Logins)
        .last()
        .expect("login upserts were announced");
    assert_eq!("root", last_login.key);
    assert_eq!(3, last_login.count);
}

#[test]
fn test_collector_outlives_failing_telemetry_sink() {
    let db = fixture_db();
    let mut collector = Collector::new();
    collector.note_ip(&"9.9.9.9".to_string());
    // the sink rejects the batch: the caller can only drop the points, and
    // the window's counters are gone either way
    let discarded = collector.flush(&db);
    assert_eq!(1, discarded.len());
    assert_eq!(0, collector.ip_count(&"9.9.9.9".to_string()));
    // later credential events are still processed and persisted
    let _ = collector.handle_event(DbLogTypes::Login("root".to_string()));
    let _ = collector.handle_event(DbLogTypes::Password("toor".to_string()));
    assert_eq!(1, collector.get_count(Table::Logins, &"root".to_string()));
    assert_eq!(1, collector.get_count(Table::Passwords, &"toor".to_string()));
}

#[test]
fn test_store_counts_default_to_zero_and_upsert_replaces() {
    let mut store = Store::new();
    assert_eq!(0, store.get_count(Table::Logins, &"root".to_string()));
    store.upsert_count(Table::Logins, &"root".to_string(), 7);
    assert_eq!(7, store.get_count(Table::Logins, &"root".to_string()));
    store.upsert_count(Table::Logins, &"root".to_string(), 8);
    assert_eq!(8, store.get_count(Table::Logins, &"root".to_string()));
    assert_eq!(0, store.get_count(Table::Passwords, &"root".to_string()));
}

#[test]
fn test_measurement_name_is_ip_attack() {
    assert_eq!("ip_attack", measurement_name());
}
