//! OBD-II session engine: wire codecs, addressing, scheduling and the decisions
//! that drive an adapter, each stated and proved over plain values.
pub mod accumulator;
pub mod acquisition;
pub mod addressing;
pub mod bytes;
pub mod cache;
pub mod catalog;
pub mod command_processor;
pub mod config;
pub mod connection_msg;
pub mod dataset_registry;
pub mod error;
pub mod external_platform;
pub mod ffi;
pub mod ids;
pub mod json;
pub mod json_api;
pub mod length_cache;
pub mod link;
pub mod mock_responder;
pub mod mode06_parser;
pub mod monitor_status_parser;
pub mod periodic_stream;
pub mod pid_registry;
pub mod pid_support_parser;
pub mod platform;
pub mod rate_limit;
pub mod reconnect;
pub mod table;
pub mod text;

pub use config::{CommandProcessorConfig, OBDSessionConfig};
pub use connection_msg::ConnectionMsg;
pub use error::{SessionError, SubscriptionError};
pub use ffi::{OBDError, OBDResult};
pub use json_api::{message_builder, Message};
pub use platform::{ConnectResult, ConnectorInfo};
