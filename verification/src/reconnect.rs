//! Memory of the last connection. Nothing reconnects by itself: a late report
//! of a drop is compared with the platform that is remembered here.
use vstd::prelude::*;

verus! {

/// The reason that is given for a disconnect that the user asked for.
pub const USER_DISCONNECT_REASON: &'static str = "User disconnected";

/// The last connection: its connector and the platform handle.
pub struct ReconnectState<P> {
    pub last_connector_id: Option<String>,
    pub platform: Option<P>,
}

impl<P> ReconnectState<P> {
    /// Nothing is remembered.
    pub fn new() -> (r: Self)
        ensures
            r.last_connector_id is None,
            r.platform is None,
    {
        ReconnectState { last_connector_id: None, platform: None }
    }

    /// Remembers a connector and its platform after a connect.
    pub fn remember(&mut self, connector_id: &str, platform: P)
        ensures
            final(self).last_connector_id matches Some(id) && id@ == connector_id@,
            final(self).platform == Some(platform),
    {
        self.last_connector_id = Some(connector_id.to_owned());
        self.platform = Some(platform);
    }

    /// The remembered platform.
    pub fn platform(&self) -> (r: Option<&P>)
        ensures
            r == (match self.platform {
                Some(p) => Some(&p),
                None => None,
            }),
    {
        self.platform.as_ref()
    }

    /// Forgets the connector; the platform handle stays for a late report.
    pub fn clear_and_cancel(&mut self)
        ensures
            final(self).last_connector_id is None,
            final(self).platform == old(self).platform,
    {
        self.last_connector_id = None;
    }
}

} // verus!
