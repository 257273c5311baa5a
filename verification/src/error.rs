//! Error codes of adapters and transports, and the errors of session and
//! subscription management.
use crate::ids;
use crate::text;
use vstd::prelude::*;

verus! {

/// An adapter error code and how severe it is (`"transient"` or `"fatal"`).
#[derive(Debug, Clone, Copy)]
pub struct AdapterErrorDef {
    pub code: &'static str,
    pub severity: &'static str,
}

/// All known error codes. The first fourteen leave the adapter connected; the
/// others mean that the connection is lost or cannot recover.
pub open spec fn known_codes() -> Seq<Seq<char>> {
    seq![
        "TIMEOUT"@,
        "NO_DATA"@,
        "CAN_ERROR"@,
        "DATA_ERROR"@,
        "BUS_BUSY"@,
        "BUS_ERROR"@,
        "BUFFER_FULL"@,
        "STOPPED"@,
        "RX_ERROR"@,
        "FC_RX_TIMEOUT"@,
        "NO_PERIPHERAL"@,
        "ENCODING_ERROR"@,
        "WRITE_FAILED"@,
        "EMPTY_COMMAND"@,
        "NOT_CONNECTED"@,
        "UNABLE_TO_CONNECT"@,
        "LV_RESET"@,
        "ACT_ALERT"@,
        "LP_ALERT"@,
        "UART_RX_OVERFLOW"@,
        "OUT_OF_MEMORY"@,
        "DISCONNECTED"@,
    ]
}

/// How many of the known codes are transient.
pub open spec fn transient_count() -> int {
    14
}

/// Whether a code is one of the transient ones.
pub open spec fn is_transient(code: Seq<char>) -> bool {
    exists|i: int| 0 <= i < transient_count() && #[trigger] known_codes()[i] == code
}

/// The severity of a code; a code that is not known is fatal, so that it
/// never drives an endless retry.
pub open spec fn severity_of(code: Seq<char>) -> Seq<char> {
    if is_transient(code) {
        "transient"@
    } else {
        "fatal"@
    }
}

fn transient(code: &'static str) -> (r: AdapterErrorDef)
    ensures
        r.code@ == code@,
        r.severity@ == "transient"@,
{
    AdapterErrorDef { code, severity: "transient" }
}

fn fatal(code: &'static str) -> (r: AdapterErrorDef)
    ensures
        r.code@ == code@,
        r.severity@ == "fatal"@,
{
    AdapterErrorDef { code, severity: "fatal" }
}

/// The table of all known adapter and transport error codes.
pub fn adapter_errors() -> (r: Vec<AdapterErrorDef>)
    ensures
        r@.len() == known_codes().len(),
        forall|i: int| 0 <= i < r@.len() ==> (#[trigger] r@[i]).code@ == known_codes()[i],
        forall|i: int|
            0 <= i < r@.len() ==> (#[trigger] r@[i]).severity@ == (if i < transient_count() {
                "transient"@
            } else {
                "fatal"@
            }),
{
    let mut v: Vec<AdapterErrorDef> = Vec::new();
    v.push(transient("TIMEOUT"));
    v.push(transient("NO_DATA"));
    v.push(transient("CAN_ERROR"));
    v.push(transient("DATA_ERROR"));
    v.push(transient("BUS_BUSY"));
    v.push(transient("BUS_ERROR"));
    v.push(transient("BUFFER_FULL"));
    v.push(transient("STOPPED"));
    v.push(transient("RX_ERROR"));
    v.push(transient("FC_RX_TIMEOUT"));
    v.push(transient("NO_PERIPHERAL"));
    v.push(transient("ENCODING_ERROR"));
    v.push(transient("WRITE_FAILED"));
    v.push(transient("EMPTY_COMMAND"));
    v.push(fatal("NOT_CONNECTED"));
    v.push(fatal("UNABLE_TO_CONNECT"));
    v.push(fatal("LV_RESET"));
    v.push(fatal("ACT_ALERT"));
    v.push(fatal("LP_ALERT"));
    v.push(fatal("UART_RX_OVERFLOW"));
    v.push(fatal("OUT_OF_MEMORY"));
    v.push(fatal("DISCONNECTED"));
    v
}

/// The severity of an error code; an unknown code is `"fatal"`.
pub fn error_severity(error: &str) -> (r: &'static str)
    ensures
        r@ == severity_of(error@),
{
    let table = adapter_errors();
    let mut i: usize = 0;
    while i < table.len() && i < 14
        invariant
            i <= 14,
            table@.len() == known_codes().len(),
            forall|j: int| 0 <= j < table@.len() ==> (#[trigger] table@[j]).code@ == known_codes()[j],
            forall|j: int| 0 <= j < i ==> #[trigger] known_codes()[j] != error@,
        decreases table@.len() - i,
    {
        if text::same(table[i].code, error) {
            assert(known_codes()[i as int] == error@);
            return "transient";
        }
        i += 1;
    }
    "fatal"
}

/// The error code of an adapter response; nothing where it is no error.
pub open spec fn adapter_error_of(response: Seq<char>) -> Option<Seq<char>> {
    let t = text::upper(text::trim(response));
    if t == "NO DATA"@ {
        Some("NO_DATA"@)
    } else if t == "CAN ERROR"@ {
        Some("CAN_ERROR"@)
    } else if t == "DATA ERROR"@ || t == "<DATA ERROR"@ {
        Some("DATA_ERROR"@)
    } else if t == "<RX ERROR"@ {
        Some("RX_ERROR"@)
    } else if t == "BUS BUSY"@ {
        Some("BUS_BUSY"@)
    } else if t == "BUS ERROR"@ {
        Some("BUS_ERROR"@)
    } else if t == "BUFFER FULL"@ {
        Some("BUFFER_FULL"@)
    } else if t == "STOPPED"@ {
        Some("STOPPED"@)
    } else if t == "FC RX TIMEOUT"@ {
        Some("FC_RX_TIMEOUT"@)
    } else if t == "UNABLE TO CONNECT"@ {
        Some("UNABLE_TO_CONNECT"@)
    } else if t == "LV RESET"@ {
        Some("LV_RESET"@)
    } else if t == "ACT ALERT"@ {
        Some("ACT_ALERT"@)
    } else if t == "LP ALERT"@ {
        Some("LP_ALERT"@)
    } else if t == "UART RX OVERFLOW"@ {
        Some("UART_RX_OVERFLOW"@)
    } else if t == "OUT OF MEMORY"@ {
        Some("OUT_OF_MEMORY"@)
    } else {
        None
    }
}

/// Maps raw adapter text to a standardised error code.
pub fn map_adapter_response_to_error(response: &str) -> (r: Option<&'static str>)
    ensures
        r is Some <==> adapter_error_of(response@) is Some,
        r matches Some(c) ==> adapter_error_of(response@) == Some(c@),
{
    let t = text::to_upper(text::trim_text(response, text::Blank::White).as_str());
    let t = t.as_str();
    if text::same(t, "NO DATA") {
        Some("NO_DATA")
    } else if text::same(t, "CAN ERROR") {
        Some("CAN_ERROR")
    } else if text::same(t, "DATA ERROR") || text::same(t, "<DATA ERROR") {
        Some("DATA_ERROR")
    } else if text::same(t, "<RX ERROR") {
        Some("RX_ERROR")
    } else if text::same(t, "BUS BUSY") {
        Some("BUS_BUSY")
    } else if text::same(t, "BUS ERROR") {
        Some("BUS_ERROR")
    } else if text::same(t, "BUFFER FULL") {
        Some("BUFFER_FULL")
    } else if text::same(t, "STOPPED") {
        Some("STOPPED")
    } else if text::same(t, "FC RX TIMEOUT") {
        Some("FC_RX_TIMEOUT")
    } else if text::same(t, "UNABLE TO CONNECT") {
        Some("UNABLE_TO_CONNECT")
    } else if text::same(t, "LV RESET") {
        Some("LV_RESET")
    } else if text::same(t, "ACT ALERT") {
        Some("ACT_ALERT")
    } else if text::same(t, "LP ALERT") {
        Some("LP_ALERT")
    } else if text::same(t, "UART RX OVERFLOW") {
        Some("UART_RX_OVERFLOW")
    } else if text::same(t, "OUT OF MEMORY") {
        Some("OUT_OF_MEMORY")
    } else {
        None
    }
}

/// Errors of subscription management. A subscription is named by the 128-bit
/// value of its identifier.
#[derive(Debug, Clone, PartialEq)]
pub enum SubscriptionError {
    /// No subscription with the given identifier.
    SubscriptionNotFound(u128),
    /// Invalid or unsupported pid.
    InvalidPID(String),
    /// Target controller not available.
    ControllerNotAvailable(String),
    /// Subscription already exists.
    AlreadyExists,
    /// Operation not allowed on an inactive subscription.
    NotActive,
    /// Platform-specific subscription error.
    PlatformError(String),
}

impl SubscriptionError {
    /// The error for people.
    pub open spec fn spec_message(self) -> Seq<char> {
        match self {
            SubscriptionError::SubscriptionNotFound(id) => "Subscription not found: "@
                + ids::hyphenated(id),
            SubscriptionError::InvalidPID(pid) => "Invalid PID: "@ + pid@,
            SubscriptionError::ControllerNotAvailable(c) => "Controller not available: "@ + c@,
            SubscriptionError::AlreadyExists => "Subscription already exists"@,
            SubscriptionError::NotActive => "Operation not allowed on inactive subscription"@,
            SubscriptionError::PlatformError(m) => "Subscription platform error: "@ + m@,
        }
    }

    /// The error for people.
    pub fn message(&self) -> (r: String)
        ensures
            r@ == self.spec_message(),
    {
        match self {
            SubscriptionError::SubscriptionNotFound(id) => text::concat(
                "Subscription not found: ",
                ids::id_text(*id).as_str(),
            ),
            SubscriptionError::InvalidPID(pid) => text::concat("Invalid PID: ", pid.as_str()),
            SubscriptionError::ControllerNotAvailable(c) => text::concat(
                "Controller not available: ",
                c.as_str(),
            ),
            SubscriptionError::AlreadyExists => "Subscription already exists".to_owned(),
            SubscriptionError::NotActive => {
                "Operation not allowed on inactive subscription".to_owned()
            },
            SubscriptionError::PlatformError(m) => text::concat(
                "Subscription platform error: ",
                m.as_str(),
            ),
        }
    }
}

/// Errors of session management.
#[derive(Debug)]
pub enum SessionError {
    /// Platform initialisation failed.
    PlatformInitError(String),
    /// A thread could not be started; the text is what the system said.
    ThreadSpawnError(String),
    /// The session is shutting down.
    ShuttingDown,
    /// An operation timed out.
    Timeout(String),
    /// Internal error.
    InternalError(String),
}

impl SessionError {
    /// The error for people.
    pub open spec fn spec_message(self) -> Seq<char> {
        match self {
            SessionError::PlatformInitError(m) => "Platform initialization error: "@ + m@,
            SessionError::ThreadSpawnError(e) => "Thread spawn error: "@ + e@,
            SessionError::ShuttingDown => "Session is shutting down"@,
            SessionError::Timeout(m) => "Operation timed out: "@ + m@,
            SessionError::InternalError(m) => "Internal error: "@ + m@,
        }
    }

    /// The error for people.
    pub fn message(&self) -> (r: String)
        ensures
            r@ == self.spec_message(),
    {
        match self {
            SessionError::PlatformInitError(m) => text::concat(
                "Platform initialization error: ",
                m.as_str(),
            ),
            SessionError::ThreadSpawnError(e) => text::concat("Thread spawn error: ", e.as_str()),
            SessionError::ShuttingDown => "Session is shutting down".to_owned(),
            SessionError::Timeout(m) => text::concat("Operation timed out: ", m.as_str()),
            SessionError::InternalError(m) => text::concat("Internal error: ", m.as_str()),
        }
    }
}

// ---- laws ----

/// Every code that adapter text maps to is in the table.
pub proof fn mapped_codes_are_known(response: Seq<char>)
    requires
        adapter_error_of(response) is Some,
    ensures
        known_codes().contains(adapter_error_of(response)->0),
{
    let k = known_codes();
    assert(k[1] == "NO_DATA"@ && k[2] == "CAN_ERROR"@ && k[3] == "DATA_ERROR"@ && k[4]
        == "BUS_BUSY"@ && k[5] == "BUS_ERROR"@ && k[6] == "BUFFER_FULL"@ && k[7] == "STOPPED"@
        && k[8] == "RX_ERROR"@ && k[9] == "FC_RX_TIMEOUT"@);
    assert(k[15] == "UNABLE_TO_CONNECT"@ && k[16] == "LV_RESET"@ && k[17] == "ACT_ALERT"@ && k[18]
        == "LP_ALERT"@ && k[19] == "UART_RX_OVERFLOW"@ && k[20] == "OUT_OF_MEMORY"@);
}

/// A code outside the table is fatal: it never drives the retry path.
pub proof fn unknown_code_is_fatal(code: Seq<char>)
    requires
        !known_codes().contains(code),
    ensures
        severity_of(code) == "fatal"@,
        severity_of(code) != "transient"@,
{
    reveal_strlit("fatal");
    reveal_strlit("transient");
    assert("fatal"@.len() != "transient"@.len());
}

/// Adapter text as a code is written: without the mark in front, and with an
/// underscore for each space.
pub open spec fn underscored(t: Seq<char>) -> Seq<char> {
    let bare = if t.len() > 0 && t[0] == '<' {
        t.skip(1)
    } else {
        t
    };
    Seq::new(
        bare.len(),
        |i: int|
            if bare[i] == ' ' {
                '_'
            } else {
                bare[i]
            },
    )
}

/// The code of a response is the response's own words: in upper case, trimmed,
/// with underscores between them.
#[verifier::rlimit(40)]
pub proof fn a_code_is_spelled_as_its_text(response: Seq<char>)
    requires
        adapter_error_of(response) is Some,
    ensures
        adapter_error_of(response)->0 == underscored(text::upper(text::trim(response))),
{
    let t = text::upper(text::trim(response));
    if t == "NO DATA"@ {
        reveal_strlit("NO DATA");
        reveal_strlit("NO_DATA");
        assert(underscored(t) =~= "NO_DATA"@);
    } else if t == "CAN ERROR"@ {
        reveal_strlit("CAN ERROR");
        reveal_strlit("CAN_ERROR");
        assert(underscored(t) =~= "CAN_ERROR"@);
    } else if t == "DATA ERROR"@ {
        reveal_strlit("DATA ERROR");
        reveal_strlit("DATA_ERROR");
        assert(underscored(t) =~= "DATA_ERROR"@);
    } else if t == "<DATA ERROR"@ {
        reveal_strlit("<DATA ERROR");
        reveal_strlit("DATA_ERROR");
        assert(underscored(t) =~= "DATA_ERROR"@);
    } else if t == "<RX ERROR"@ {
        reveal_strlit("<RX ERROR");
        reveal_strlit("RX_ERROR");
        assert(underscored(t) =~= "RX_ERROR"@);
    } else if t == "BUS BUSY"@ {
        reveal_strlit("BUS BUSY");
        reveal_strlit("BUS_BUSY");
        assert(underscored(t) =~= "BUS_BUSY"@);
    } else if t == "BUS ERROR"@ {
        reveal_strlit("BUS ERROR");
        reveal_strlit("BUS_ERROR");
        assert(underscored(t) =~= "BUS_ERROR"@);
    } else if t == "BUFFER FULL"@ {
        reveal_strlit("BUFFER FULL");
        reveal_strlit("BUFFER_FULL");
        assert(underscored(t) =~= "BUFFER_FULL"@);
    } else if t == "STOPPED"@ {
        reveal_strlit("STOPPED");
        assert(underscored(t) =~= "STOPPED"@);
    } else if t == "FC RX TIMEOUT"@ {
        reveal_strlit("FC RX TIMEOUT");
        reveal_strlit("FC_RX_TIMEOUT");
        assert(underscored(t) =~= "FC_RX_TIMEOUT"@);
    } else if t == "UNABLE TO CONNECT"@ {
        reveal_strlit("UNABLE TO CONNECT");
        reveal_strlit("UNABLE_TO_CONNECT");
        assert(underscored(t) =~= "UNABLE_TO_CONNECT"@);
    } else if t == "LV RESET"@ {
        reveal_strlit("LV RESET");
        reveal_strlit("LV_RESET");
        assert(underscored(t) =~= "LV_RESET"@);
    } else if t == "ACT ALERT"@ {
        reveal_strlit("ACT ALERT");
        reveal_strlit("ACT_ALERT");
        assert(underscored(t) =~= "ACT_ALERT"@);
    } else if t == "LP ALERT"@ {
        reveal_strlit("LP ALERT");
        reveal_strlit("LP_ALERT");
        assert(underscored(t) =~= "LP_ALERT"@);
    } else if t == "UART RX OVERFLOW"@ {
        reveal_strlit("UART RX OVERFLOW");
        reveal_strlit("UART_RX_OVERFLOW");
        assert(underscored(t) =~= "UART_RX_OVERFLOW"@);
    } else if t == "OUT OF MEMORY"@ {
        reveal_strlit("OUT OF MEMORY");
        reveal_strlit("OUT_OF_MEMORY");
        assert(underscored(t) =~= "OUT_OF_MEMORY"@);
    }
}

/// An adapter complains in one of these words, in any case and with blanks
/// around them; all other text is no error.
pub proof fn which_responses_are_errors(response: Seq<char>)
    ensures
        adapter_error_of(response) is Some <==> ({
            let t = text::upper(text::trim(response));
            t == "NO DATA"@
                || t == "CAN ERROR"@
                || t == "DATA ERROR"@
                || t == "<DATA ERROR"@
                || t == "<RX ERROR"@
                || t == "BUS BUSY"@
                || t == "BUS ERROR"@
                || t == "BUFFER FULL"@
                || t == "STOPPED"@
                || t == "FC RX TIMEOUT"@
                || t == "UNABLE TO CONNECT"@
                || t == "LV RESET"@
                || t == "ACT ALERT"@
                || t == "LP ALERT"@
                || t == "UART RX OVERFLOW"@
                || t == "OUT OF MEMORY"@
        }),
{
}

/// The errors after which the adapter is still connected: the bus or the wire
/// was at fault, or the request. Any other code is fatal.
pub proof fn which_errors_leave_the_adapter_connected(code: Seq<char>)
    ensures
        severity_of(code) == "transient"@ <==> (
            code == "TIMEOUT"@
                || code == "NO_DATA"@
                || code == "CAN_ERROR"@
                || code == "DATA_ERROR"@
                || code == "BUS_BUSY"@
                || code == "BUS_ERROR"@
                || code == "BUFFER_FULL"@
                || code == "STOPPED"@
                || code == "RX_ERROR"@
                || code == "FC_RX_TIMEOUT"@
                || code == "NO_PERIPHERAL"@
                || code == "ENCODING_ERROR"@
                || code == "WRITE_FAILED"@
                || code == "EMPTY_COMMAND"@),
        severity_of(code) == "fatal"@ || severity_of(code) == "transient"@,
{
    reveal_strlit("fatal");
    reveal_strlit("transient");
    assert("fatal"@.len() != "transient"@.len());
    let k = known_codes();
    assert(k[0] == "TIMEOUT"@);
    assert(k[1] == "NO_DATA"@);
    assert(k[2] == "CAN_ERROR"@);
    assert(k[3] == "DATA_ERROR"@);
    assert(k[4] == "BUS_BUSY"@);
    assert(k[5] == "BUS_ERROR"@);
    assert(k[6] == "BUFFER_FULL"@);
    assert(k[7] == "STOPPED"@);
    assert(k[8] == "RX_ERROR"@);
    assert(k[9] == "FC_RX_TIMEOUT"@);
    assert(k[10] == "NO_PERIPHERAL"@);
    assert(k[11] == "ENCODING_ERROR"@);
    assert(k[12] == "WRITE_FAILED"@);
    assert(k[13] == "EMPTY_COMMAND"@);
    if is_transient(code) {
        let i = choose|i: int| 0 <= i < transient_count() && #[trigger] known_codes()[i] == code;
        assert(0 <= i < 14);
    }
}

} // verus!
