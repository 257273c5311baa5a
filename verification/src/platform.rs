//! What an adapter link reports to the session.
use vstd::prelude::*;

verus! {

/// State of the connection to the adapter.
#[derive(Debug, Clone, Copy, PartialEq, Eq, Structural)]
pub enum ConnectionStatus {
    /// The adapter is connected and ready.
    Connected,
    /// There is no connection.
    Disconnected,
    /// A connection attempt is under way.
    Connecting,
    /// The connection attempt failed.
    ConnectionFailed,
    /// A host reports that it reconnects by itself.
    Reconnecting,
}

impl ConnectionStatus {
    /// The status as hosts know it.
    pub open spec fn spec_text(self) -> Seq<char> {
        match self {
            ConnectionStatus::Connected => "connected"@,
            ConnectionStatus::Disconnected => "disconnected"@,
            ConnectionStatus::Connecting => "connecting"@,
            ConnectionStatus::ConnectionFailed => "connection_failed"@,
            ConnectionStatus::Reconnecting => "reconnecting"@,
        }
    }

    /// The status as hosts know it.
    pub fn text(self) -> (r: &'static str)
        ensures
            r@ == self.spec_text(),
    {
        match self {
            ConnectionStatus::Connected => "connected",
            ConnectionStatus::Disconnected => "disconnected",
            ConnectionStatus::Connecting => "connecting",
            ConnectionStatus::ConnectionFailed => "connection_failed",
            ConnectionStatus::Reconnecting => "reconnecting",
        }
    }
}

/// An adapter that can be connected to.
#[derive(Debug, Clone, PartialEq)]
pub struct ConnectorInfo {
    /// Unique identifier, such as an address.
    pub id: String,
    /// Name for people.
    pub name: String,
    /// Kind of link, such as "ble", "classic" or "mock".
    pub connector_type: String,
}

/// How a connect attempt ended.
#[derive(Debug, Clone)]
pub enum ConnectResult {
    Connected,
    Failed { reason: String },
    Cancelled,
}

/// A connect result as a mathematical value.
#[verifier::ext_equal]
pub enum ResultView {
    Connected,
    Failed { reason: Seq<char> },
    Cancelled,
}

impl View for ConnectResult {
    type V = ResultView;

    open spec fn view(&self) -> ResultView {
        match *self {
            ConnectResult::Connected => ResultView::Connected,
            ConnectResult::Failed { reason } => ResultView::Failed { reason: reason@ },
            ConnectResult::Cancelled => ResultView::Cancelled,
        }
    }
}

// ---- laws ----

/// Every state has a name of its own, the one of the message that reports it.
pub proof fn states_are_named_as_their_messages(a: ConnectionStatus, b: ConnectionStatus)
    ensures
        ConnectionStatus::Connected.spec_text() == "connected"@,
        ConnectionStatus::Disconnected.spec_text() == "disconnected"@,
        ConnectionStatus::Connecting.spec_text() == "connecting"@,
        ConnectionStatus::ConnectionFailed.spec_text() == "connection_failed"@,
        ConnectionStatus::Reconnecting.spec_text() == "reconnecting"@,
        a.spec_text() == b.spec_text() ==> a == b,
{
    reveal_strlit("connected");
    reveal_strlit("disconnected");
    reveal_strlit("connecting");
    reveal_strlit("connection_failed");
    reveal_strlit("reconnecting");
    assert("connected"@.len() == 9 && "disconnected"@.len() == 12 && "connecting"@.len() == 10
        && "connection_failed"@.len() == 17 && "reconnecting"@.len() == 12);
    assert("disconnected"@[0] == 'd' && "reconnecting"@[0] == 'r');
}

} // verus!
