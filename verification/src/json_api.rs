//! Messages to the host. Identifiers are 128-bit values and times microseconds
//! since the epoch; writing a message as JSON is the caller's.
use vstd::prelude::*;

pub mod message_builder;
pub mod message_types;

verus! {

/// A message.
#[derive(Debug, Clone)]
pub struct Message {
    pub message_type: String,
    pub id: u128,
    pub payload: MessagePayload,
}

/// What a message holds.
#[derive(Debug, Clone)]
pub enum MessagePayload {
    /// All pids of a subscription that run once are done.
    SubscriptionComplete(SubscriptionCompletePayload),
    /// A command with its reply.
    OBDData(OBDDataPayload),
    /// The connection has changed.
    ConnectionStatus(ConnectionStatusPayload),
}

/// A command with its reply.
#[derive(Debug, Clone)]
pub struct OBDDataPayload {
    pub command: String,
    pub data: String,
    pub timestamp: u64,
    /// The error code of a command that failed.
    pub error: Option<String>,
    /// "transient" or "fatal", only beside an error.
    pub error_severity: Option<String>,
    /// The decoded reply, as JSON.
    pub parsed: Option<String>,
}

/// A change of the connection.
#[derive(Debug, Clone)]
pub struct ConnectionStatusPayload {
    pub status: String,
    pub connected: bool,
    pub reason: Option<String>,
    pub timestamp: u64,
}

/// The end of a subscription whose pids run once.
#[derive(Debug, Clone)]
pub struct SubscriptionCompletePayload {
    pub subscription_id: u128,
    pub updates: Vec<PIDUpdate>,
}

/// The reply of one pid.
#[derive(Debug, Clone)]
pub struct PIDUpdate {
    pub pid: String,
    pub data: String,
    pub timestamp: u64,
    pub error: Option<String>,
    /// The decoded reply, as JSON.
    pub parsed: Option<String>,
}

} // verus!
