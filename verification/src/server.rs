use vstd::prelude::*;
use crate::bus::{EventBus, after_send};
use crate::events::{DbLogTypes, EventView};

verus! {

/// The outcome a session handler returns for an authentication attempt.
#[derive(Clone, Copy, PartialEq, Eq, Structural, Debug)]
pub enum Auth {
    Accept,
    Reject,
}

/// The per-connection session handler of the honeypot: every authentication
/// callback resolves to Reject, and a password attempt forwards the captured
/// credentials onto the event bus before the rejection is returned.
pub struct Server {
    pub id: usize,
}

impl Server {
    /// The handler for the first connection.
    pub fn new() -> (r: Server)
        ensures
            r.id == 0,
    {
        Server { id: 0 }
    }

    /// Hand out the handler for the next inbound connection: the current
    /// identity goes to that connection, the counter moves on.
    pub fn new_connection(&mut self) -> (r: Server)
        requires
            old(self).id < usize::MAX,
        ensures
            r.id == old(self).id,
            final(self).id == old(self).id + 1,
    {
        let s = Server { id: self.id };
        self.id = self.id + 1;
        s
    }

    /// No-auth never succeeds.
    pub fn auth_none(&self, _user: &String) -> (r: Auth)
        ensures
            r == Auth::Reject,
    {
        Auth::Reject
    }

    /// A password attempt is rejected, but first the password and then the
    /// user name are offered to the event bus, in that order; a full or
    /// closed bus drops them without disturbing the session.
    pub fn auth_password(&self, user: &String, password: &String, bus: &mut EventBus) -> (r: Auth)
        ensures
            r == Auth::Reject,
            final(bus)@ == after_send(
                after_send(old(bus)@, EventView::Password(password@)),
                EventView::Login(user@),
            ),
    {
        let _ = bus.try_send(DbLogTypes::Password(password.clone()));
        let _ = bus.try_send(DbLogTypes::Login(user.clone()));
        Auth::Reject
    }

    /// Public-key auth never succeeds; the offered key is not inspected.
    pub fn auth_publickey(&self, _user: &String) -> (r: Auth)
        ensures
            r == Auth::Reject,
    {
        Auth::Reject
    }

    /// Keyboard-interactive auth never succeeds.
    pub fn auth_keyboard_interactive(&self, _user: &String) -> (r: Auth)
        ensures
            r == Auth::Reject,
    {
        Auth::Reject
    }
}

} // verus!
