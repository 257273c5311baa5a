//! Types of messages.
use vstd::prelude::*;

verus! {

pub const SUBSCRIPTION_COMPLETE: &'static str = "subscription_complete";

pub const OBD_DATA: &'static str = "obd_data";

pub const CONNECTION_STATUS: &'static str = "connection_status";

} // verus!
