use vstd::prelude::*;

verus! {

/// A credential or address event captured by a session handler and carried
/// over the event bus to the collector.
pub enum DbLogTypes {
    /// A password offered during an authentication attempt.
    Password(String),
    /// A user name offered during an authentication attempt.
    Login(String),
    /// The textual source address of an attacking connection.
    IpAddress(String),
}

/// Mathematical view of an event: the same variants over character sequences.
pub enum EventView {
    Password(Seq<char>),
    Login(Seq<char>),
    IpAddress(Seq<char>),
}

impl View for DbLogTypes {
    type V = EventView;

    open spec fn view(&self) -> EventView {
        match self {
            DbLogTypes::Password(s) => EventView::Password(s@),
            DbLogTypes::Login(s) => EventView::Login(s@),
            DbLogTypes::IpAddress(s) => EventView::IpAddress(s@),
        }
    }
}

} // verus!
