use honeypot::bus::EventBus;
use honeypot::events::DbLogTypes;
use honeypot::server::{Auth, Server};

#[test]
fn test_every_auth_method_rejects() {
    let server = Server::new();
    let user = "root".to_string();
    assert_eq!(Auth::Reject, server.auth_none(&user));
    assert_eq!(Auth::Reject, server.auth_publickey(&user));
    assert_eq!(Auth::Reject, server.auth_keyboard_interactive(&user));
    let mut bus = EventBus::new(10);
    assert_eq!(Auth::Reject, server.auth_password(&user, &"toor".to_string(), &mut bus));
}

#[test]
fn test_auth_password_emits_password_then_login() {
    let server = Server::new();
    let mut bus = EventBus::new(10);
    let decision = server.auth_password(&"root".to_string(), &"toor".to_string(), &mut bus);
    assert_eq!(Auth::Reject, decision);
    assert_eq!(2, bus.len());
    match bus.recv() {
        Some(DbLogTypes::Password(v)) => assert_eq!("toor", v),
        _ => panic!("the password event must come first"),
    }
    match bus.recv() {
        Some(DbLogTypes::Login(v)) => assert_eq!("root", v),
        _ => panic!("the login event must come second"),
    }
}

#[test]
fn test_auth_password_on_full_bus_still_rejects() {
    let server = Server::new();
    let mut bus = EventBus::new(1);
    let decision = server.auth_password(&"root".to_string(), &"toor".to_string(), &mut bus);
    // the login event was dropped, the session outcome is unchanged
    assert_eq!(Auth::Reject, decision);
    assert_eq!(1, bus.len());
    match bus.recv() {
        Some(DbLogTypes::Password(v)) => assert_eq!("toor", v),
        _ => panic!("the password event is the one that fit"),
    }
}

#[test]
fn test_new_connection_hands_out_fresh_ids() {
    let mut template = Server::new();
    let first = template.new_connection();
    let second = template.new_connection();
    assert_eq!(0, first.id);
    assert_eq!(1, second.id);
    assert_eq!(2, template.id);
}
