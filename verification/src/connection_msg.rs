//! Keys of the status messages of a connection, and the phase each belongs to.
use crate::text;
use vstd::prelude::*;

verus! {

/// Keys of status messages.
pub struct ConnectionMsg;

impl ConnectionMsg {
    pub const DISCOVERING_CONNECTORS: &'static str = "discovering_connectors";
    /// A scan round began or ended; the phase stays.
    pub const SCAN_ROUND: &'static str = "scan_round";
    pub const WAITING_FOR_SELECTION: &'static str = "waiting_for_selection";
    /// The list of connectors changed; the phase stays.
    pub const CONNECTOR_LIST: &'static str = "connector_list";
    pub const CONNECTING: &'static str = "connecting";
    pub const INITIALIZING_PROTOCOL: &'static str = "initializing_protocol";
    pub const IDENTIFYING_VEHICLE: &'static str = "identifying_vehicle";
    pub const CONNECTED: &'static str = "connected";
    pub const RECONNECTING: &'static str = "reconnecting";
    pub const CONNECTION_FAILED: &'static str = "connection_failed";
    /// The last command finishes before the transport closes.
    pub const DISCONNECTING: &'static str = "disconnecting";
    pub const DISCONNECTED: &'static str = "disconnected";
    // Why a connection failed: codes, which hosts turn into prose.
    pub const REASON_NO_CONNECTORS: &'static str = "no_connectors";
    pub const REASON_ADAPTER_INIT_TIMEOUT: &'static str = "adapter_init_timeout";
    pub const REASON_BT_CONNECT_FAILED: &'static str = "bt_connect_failed";
    pub const REASON_RECONNECT_FAILED: &'static str = "reconnect_failed";
    pub const REASON_UNSUPPORTED_PROTOCOL: &'static str = "unsupported_protocol";
    /// The bus did not answer; worth another try.
    pub const REASON_VEHICLE_NOT_RESPONDING: &'static str = "vehicle_not_responding";
    // Steps of identifying the vehicle.
    pub const QUERYING_VIN: &'static str = "querying_vin";
    pub const CHECKING_CACHE: &'static str = "checking_cache";
    pub const CACHE_HIT: &'static str = "cache_hit";
    pub const QUERYING_ENGINE_TYPE: &'static str = "querying_engine_type";
    pub const DISCOVERING_ECUS: &'static str = "discovering_ecus";
    pub const QUERYING_SUPPORT_PIDS: &'static str = "querying_support_pids";
    pub const SAVING_CACHE: &'static str = "saving_cache";

    /// Whether a message is a step of identifying the vehicle.
    pub open spec fn is_identity_step(m: Seq<char>) -> bool {
        m == "querying_vin"@ || m == "checking_cache"@ || m == "cache_hit"@ || m
            == "querying_engine_type"@ || m == "discovering_ecus"@ || m
            == "querying_support_pids"@ || m == "saving_cache"@
    }

    /// The phase of a message.
    pub open spec fn phase_of(m: Seq<char>) -> Seq<char> {
        if Self::is_identity_step(m) {
            "identifying_vehicle"@
        } else {
            m
        }
    }

    /// The phase of a message: the steps of identifying the vehicle share one;
    /// every other message is its own.
    pub fn phase_for<'a>(message: &'a str) -> (r: &'a str)
        ensures
            r@ == Self::phase_of(message@),
    {
        if text::same(message, "querying_vin") || text::same(message, "checking_cache")
            || text::same(message, "cache_hit") || text::same(message, "querying_engine_type")
            || text::same(message, "discovering_ecus") || text::same(
            message,
            "querying_support_pids",
        ) || text::same(message, "saving_cache") {
            "identifying_vehicle"
        } else {
            message
        }
    }
}

// ---- laws ----

/// A phase is its own phase.
pub proof fn a_phase_is_its_own(m: Seq<char>)
    ensures
        ConnectionMsg::phase_of(ConnectionMsg::phase_of(m)) == ConnectionMsg::phase_of(m),
{
    reveal_strlit("identifying_vehicle");
    reveal_strlit("querying_vin");
    reveal_strlit("checking_cache");
    reveal_strlit("cache_hit");
    reveal_strlit("querying_engine_type");
    reveal_strlit("discovering_ecus");
    reveal_strlit("querying_support_pids");
    reveal_strlit("saving_cache");
    assert("identifying_vehicle"@.len() == 19);
    assert("querying_vin"@.len() != 19 && "checking_cache"@.len() != 19 && "cache_hit"@.len() != 19);
    assert("querying_engine_type"@.len() != 19 && "discovering_ecus"@.len() != 19);
    assert("querying_support_pids"@.len() != 19 && "saving_cache"@.len() != 19);
}

/// Every step of identifying the vehicle belongs to the one phase of it, and no
/// other message changes its phase.
pub proof fn identifying_is_one_phase(m: Seq<char>)
    ensures
        m == "querying_vin"@ || m == "checking_cache"@ || m == "cache_hit"@ || m
            == "querying_engine_type"@ || m == "discovering_ecus"@ || m == "querying_support_pids"@
            || m == "saving_cache"@ ==> ConnectionMsg::phase_of(m) == "identifying_vehicle"@,
        !(m == "querying_vin"@ || m == "checking_cache"@ || m == "cache_hit"@ || m
            == "querying_engine_type"@ || m == "discovering_ecus"@ || m == "querying_support_pids"@
            || m == "saving_cache"@) ==> ConnectionMsg::phase_of(m) == m,
{
}

} // verus!
