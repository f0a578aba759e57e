use honeypot::bus::{EventBus, SendError};
use honeypot::events::DbLogTypes;

#[test]
fn test_bus_keeps_arrival_order() {
    let mut bus = EventBus::new(10);
    assert_eq!(Ok(()), bus.try_send(DbLogTypes::Password("a".to_string())));
    assert_eq!(Ok(()), bus.try_send(DbLogTypes::Login("b".to_string())));
    assert_eq!(Ok(()), bus.try_send(DbLogTypes::IpAddress("1.2.3.4".to_string())));
    assert_eq!(3, bus.len());
    match bus.recv() {
        Some(DbLogTypes::Password(v)) => assert_eq!("a", v),
        _ => panic!("first out must be the first password sent"),
    }
    match bus.recv() {
        Some(DbLogTypes::Login(v)) => assert_eq!("b", v),
        _ => panic!("second out must be the login"),
    }
    match bus.recv() {
        Some(DbLogTypes::IpAddress(v)) => assert_eq!("1.2.3.4", v),
        _ => panic!("third out must be the address"),
    }
    assert!(bus.recv().is_none());
}

#[test]
fn test_bus_capacity_one_drops_second_event() {
    let mut bus = EventBus::new(1);
    assert_eq!(1, bus.capacity());
    let first = bus.try_send(DbLogTypes::IpAddress("9.9.9.9".to_string()));
    let second = bus.try_send(DbLogTypes::IpAddress("9.9.9.9".to_string()));
    assert_eq!(Ok(()), first);
    assert_eq!(Err(SendError::Full), second);
    assert_eq!(1, bus.len());
    // the consumer makes room again; the policy stays drop-on-full
    assert!(bus.recv().is_some());
    assert_eq!(Ok(()), bus.try_send(DbLogTypes::IpAddress("9.9.9.9".to_string())));
    assert_eq!(Err(SendError::Full), bus.try_send(DbLogTypes::IpAddress("8.8.8.8".to_string())));
}

#[test]
fn test_bus_refuses_sends_after_close() {
    let mut bus = EventBus::new(4);
    assert_eq!(Ok(()), bus.try_send(DbLogTypes::Login("root".to_string())));
    bus.close();
    assert!(bus.is_closed());
    assert_eq!(Err(SendError::Closed), bus.try_send(DbLogTypes::Login("admin".to_string())));
    // queued events stay readable so the collector can drain before exit
    assert!(bus.recv().is_some());
    assert!(bus.recv().is_none());
}
