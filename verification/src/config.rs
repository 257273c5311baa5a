//! Settings of a session. The command rate is a number of the host's own and
//! stands with the rate limiter.
use crate::json;
use crate::text;
use vstd::prelude::*;

verus! {

/// Settings of the command queue.
#[derive(Debug, Clone)]
pub struct CommandProcessorConfig {
    /// How many commands may go out in a burst.
    pub max_burst_tokens: usize,
    /// Timeout of a command where it has none of its own.
    pub command_timeout_ms: u32,
    /// How many commands may wait.
    pub max_queue_size: usize,
}

impl Default for CommandProcessorConfig {
    fn default() -> (r: Self)
        ensures
            r == (CommandProcessorConfig {
                max_burst_tokens: 30,
                command_timeout_ms: 5000,
                max_queue_size: 1000,
            }),
    {
        CommandProcessorConfig {
            max_burst_tokens: 30,
            command_timeout_ms: 5000,
            max_queue_size: 1000,
        }
    }
}

/// Settings of a session.
#[derive(Debug, Clone)]
pub struct OBDSessionConfig {
    pub command_processor: CommandProcessorConfig,
    /// How often the background thread looks.
    pub poll_interval_ms: u64,
    pub max_subscriptions: usize,
    /// How long a cached reply counts.
    pub pid_cache_ttl_ms: u32,
    /// Where logs go; none are written without it.
    pub log_base_path: Option<String>,
    /// Name of the log file; one is made up without it.
    pub session_name: Option<String>,
    /// Where discovery results are kept; none are without it.
    pub cache_path: Option<String>,
    /// Commands that are sent after a connect.
    pub init_commands: Vec<String>,
    /// Whether batched commands are tried.
    pub enable_pipe_batching: bool,
    /// Whether requests for several pids are tried.
    pub enable_j1979_chunking: bool,
}

/// Whether `c` has the settings that a host cannot choose at creation.
pub open spec fn has_defaults(c: OBDSessionConfig) -> bool {
    &&& c.command_processor.max_burst_tokens == 30
    &&& c.command_processor.command_timeout_ms == 5000
    &&& c.command_processor.max_queue_size == 1000
    &&& c.poll_interval_ms == 100
    &&& c.max_subscriptions == 100
    &&& c.pid_cache_ttl_ms == 5000
    &&& c.enable_pipe_batching
    &&& c.enable_j1979_chunking
}

impl Default for OBDSessionConfig {
    fn default() -> (r: Self)
        ensures
            has_defaults(r),
            r.log_base_path is None,
            r.session_name is None,
            r.cache_path is None,
            text::views(r.init_commands@) == seq!["ATE0"@, "ATH1"@],
    {
        let mut init_commands: Vec<String> = Vec::new();
        init_commands.push("ATE0".to_owned());
        init_commands.push("ATH1".to_owned());
        assert(text::views(init_commands@) =~= seq!["ATE0"@, "ATH1"@]);
        OBDSessionConfig {
            command_processor: CommandProcessorConfig::default(),
            poll_interval_ms: 100,
            max_subscriptions: 100,
            pid_cache_ttl_ms: 5000,
            log_base_path: None,
            session_name: None,
            cache_path: None,
            init_commands,
            enable_pipe_batching: true,
            enable_j1979_chunking: true,
        }
    }
}

/// The commands of a list that a host hands over as JSON; the usual ones where
/// it hands over none or the text is no list of strings.
pub open spec fn init_commands_of(json: Option<Seq<char>>) -> Seq<Seq<char>> {
    match json {
        Some(s) => match json::string_list_of(s) {
            Ok(v) => v,
            Err(_) => seq!["ATE0"@, "ATH1"@],
        },
        None => seq!["ATE0"@, "ATH1"@],
    }
}

impl OBDSessionConfig {
    /// The settings with what a host hands over: the session name only counts
    /// where logs are written.
    pub fn with_host_settings(
        log_base_path: Option<String>,
        session_name: Option<String>,
        cache_path: Option<String>,
        init_commands: Option<Vec<String>>,
    ) -> (r: Self)
        ensures
            has_defaults(r),
            text::opt(r.log_base_path) == text::opt(log_base_path),
            text::opt(r.session_name) == (if log_base_path is None {
                None
            } else {
                text::opt(session_name)
            }),
            text::opt(r.cache_path) == text::opt(cache_path),
            text::views(r.init_commands@) == (match init_commands {
                Some(v) => text::views(v@),
                None => seq!["ATE0"@, "ATH1"@],
            }),
    {
        let mut c = OBDSessionConfig::default();
        if log_base_path.is_some() {
            c.log_base_path = log_base_path;
            c.session_name = session_name;
        }
        c.cache_path = cache_path;
        if let Some(v) = init_commands {
            c.init_commands = v;
        }
        c
    }

    /// The settings with what a host hands over, the commands as JSON.
    pub fn from_host(
        log_base_path: Option<String>,
        session_name: Option<String>,
        cache_path: Option<String>,
        init_commands_json: Option<&str>,
    ) -> (r: Self)
        ensures
            has_defaults(r),
            text::opt(r.log_base_path) == text::opt(log_base_path),
            text::opt(r.session_name) == (if log_base_path is None {
                None
            } else {
                text::opt(session_name)
            }),
            text::opt(r.cache_path) == text::opt(cache_path),
            text::views(r.init_commands@) == init_commands_of(
                match init_commands_json {
                    Some(s) => Some(s@),
                    None => None,
                },
            ),
    {
        let commands = match init_commands_json {
            Some(s) => match json::string_list(s) {
                Ok(v) => Some(v),
                Err(_) => None,
            },
            None => None,
        };
        OBDSessionConfig::with_host_settings(log_base_path, session_name, cache_path, commands)
    }
}

/// Settings of the pid registry.
#[derive(Debug, Clone)]
pub struct PIDRegistryConfig {
    pub default_cache_ttl_ms: u32,
    pub max_cache_entries: usize,
}

impl Default for PIDRegistryConfig {
    fn default() -> (r: Self)
        ensures
            r == (PIDRegistryConfig { default_cache_ttl_ms: 5000, max_cache_entries: 1000 }),
    {
        PIDRegistryConfig { default_cache_ttl_ms: 5000, max_cache_entries: 1000 }
    }
}

// ---- laws ----

/// A host's list of commands is taken as it is, also an empty one; without a
/// list, or with a text that is none, echo off and headers on are sent.
pub proof fn which_commands_follow_a_connect(text_json: Seq<char>)
    ensures
        json::string_list_of(text_json) is Ok ==> init_commands_of(Some(text_json))
            == json::string_list_of(text_json)->Ok_0,
        json::string_list_of(text_json) is Err ==> init_commands_of(Some(text_json)) == seq![
            "ATE0"@,
            "ATH1"@,
        ],
        init_commands_of(None) == seq!["ATE0"@, "ATH1"@],
{
}

} // verus!
