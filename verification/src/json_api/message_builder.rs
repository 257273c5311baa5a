//! Making messages. Every message has a fresh random identifier.
use crate::error;
use crate::ids;
use crate::json_api::{
    ConnectionStatusPayload, Message, MessagePayload, OBDDataPayload, PIDUpdate,
    SubscriptionCompletePayload,
};
use crate::platform::ConnectionStatus;
use vstd::prelude::*;

verus! {

/// The end of a subscription whose pids run once.
pub fn subscription_complete_message(subscription_id: u128, updates: Vec<PIDUpdate>) -> (r: Message)
    ensures
        r.message_type@ == "subscription_complete"@,
        ids::is_random_id(r.id),
        r.payload == MessagePayload::SubscriptionComplete(
            SubscriptionCompletePayload { subscription_id, updates },
        ),
{
    Message {
        message_type: "subscription_complete".to_owned(),
        id: ids::fresh_id(),
        payload: MessagePayload::SubscriptionComplete(
            SubscriptionCompletePayload { subscription_id, updates },
        ),
    }
}

/// A command with its reply, at `timestamp`. An error carries its severity.
pub fn obd_data_message(
    command: String,
    data: String,
    error: Option<String>,
    parsed: Option<String>,
    timestamp: u64,
) -> (r: Message)
    ensures
        r.message_type@ == "obd_data"@,
        ids::is_random_id(r.id),
        r.payload matches MessagePayload::OBDData(p) && p.command == command && p.data == data
            && p.error == error && p.parsed == parsed && p.timestamp == timestamp && (match error {
            Some(e) => p.error_severity matches Some(s) && s@ == error::severity_of(e@),
            None => p.error_severity is None,
        }),
{
    let error_severity = match &error {
        Some(e) => Some(error::error_severity(e.as_str()).to_owned()),
        None => None,
    };
    Message {
        message_type: "obd_data".to_owned(),
        id: ids::fresh_id(),
        payload: MessagePayload::OBDData(
            OBDDataPayload { command, data, timestamp, error, error_severity, parsed },
        ),
    }
}

/// A change of the connection, at `timestamp`.
pub fn connection_status_message(
    status: ConnectionStatus,
    reason: Option<String>,
    timestamp: u64,
) -> (r: Message)
    ensures
        r.message_type@ == "connection_status"@,
        ids::is_random_id(r.id),
        r.payload matches MessagePayload::ConnectionStatus(p) && p.status@ == status.spec_text()
            && p.connected == (status == ConnectionStatus::Connected) && p.reason == reason
            && p.timestamp == timestamp,
{
    Message {
        message_type: "connection_status".to_owned(),
        id: ids::fresh_id(),
        payload: MessagePayload::ConnectionStatus(
            ConnectionStatusPayload {
                status: status.text().to_owned(),
                connected: status == ConnectionStatus::Connected,
                reason,
                timestamp,
            },
        ),
    }
}

} // verus!
