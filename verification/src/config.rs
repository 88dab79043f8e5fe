//! The configuration of the runtime.
//!
//! Every setting comes from an environment variable. An absent or empty
//! variable, and one that cannot be read as a number where a number is asked
//! for, leaves the default: a bad environment never stops the runtime.

use vstd::prelude::*;

use crate::lookup::{answers_as, Lookup};
use crate::number::{parse_number, parse_u64, NumberError};

verus! {

/// The value of a variable, where it is set and not empty.
pub open spec fn env_text(env: Lookup, name: Seq<char>) -> Option<Seq<char>> {
    match env(name) {
        Some(v) => if v.len() > 0 {
            Some(v)
        } else {
            None
        },
        None => None,
    }
}

/// The value of a variable, or a default.
pub open spec fn env_text_or(env: Lookup, name: Seq<char>, default: Seq<char>) -> Seq<char> {
    match env_text(env, name) {
        Some(v) => v,
        None => default,
    }
}

/// The value of a variable, where it is set and not empty.
pub fn env_lookup<G: Fn(&str) -> Option<String>>(get: &G, name: &str) -> (r: Option<String>)
    requires
        forall|p: &str| call_requires(*get, (p,)),
    ensures
        forall|env: Lookup| #[trigger]
            answers_as(*get, env) ==> crate::text::opt_text(r) == env_text(env, name@),
{
    match get(name) {
        Some(v) => if v.as_str().is_empty() {
            None
        } else {
            Some(v)
        },
        None => None,
    }
}

/// The value of a variable, or a default.
pub fn env_or<G: Fn(&str) -> Option<String>>(get: &G, name: &str, default: &str) -> (r: String)
    requires
        forall|p: &str| call_requires(*get, (p,)),
    ensures
        forall|env: Lookup| #[trigger]
            answers_as(*get, env) ==> r@ == env_text_or(env, name@, default@),
{
    match env_lookup(get, name) {
        Some(v) => v,
        None => default.to_owned(),
    }
}

/// The unsigned types that settings are read as.
pub trait EnvNumber: Sized {
    /// The number.
    spec fn value(self) -> nat;

    /// The largest number of the type.
    spec fn largest() -> nat;

    /// The name of the type.
    spec fn type_text() -> Seq<char>;

    /// The largest number of the type.
    fn max_number() -> (r: u64)
        ensures
            r == Self::largest(),
    ;

    /// The number `v`.
    fn from_number(v: u64) -> (r: Self)
        requires
            v <= Self::largest(),
        ensures
            r.value() == v,
    ;

    /// The name of the type.
    fn kind_name() -> (r: &'static str)
        ensures
            r@ == Self::type_text(),
    ;
}

impl EnvNumber for u64 {
    open spec fn value(self) -> nat {
        self as nat
    }

    open spec fn largest() -> nat {
        u64::MAX as nat
    }

    open spec fn type_text() -> Seq<char> {
        "u64"@
    }

    fn max_number() -> (r: u64) {
        u64::MAX
    }

    fn from_number(v: u64) -> (r: Self) {
        v
    }

    fn kind_name() -> (r: &'static str) {
        "u64"
    }
}

impl EnvNumber for u32 {
    open spec fn value(self) -> nat {
        self as nat
    }

    open spec fn largest() -> nat {
        u32::MAX as nat
    }

    open spec fn type_text() -> Seq<char> {
        "u32"@
    }

    fn max_number() -> (r: u64) {
        u32::MAX as u64
    }

    fn from_number(v: u64) -> (r: Self) {
        v as u32
    }

    fn kind_name() -> (r: &'static str) {
        "u32"
    }
}

impl EnvNumber for usize {
    open spec fn value(self) -> nat {
        self as nat
    }

    open spec fn largest() -> nat {
        usize::MAX as nat
    }

    open spec fn type_text() -> Seq<char> {
        "usize"@
    }

    fn max_number() -> (r: u64) {
        usize::MAX as u64
    }

    fn from_number(v: u64) -> (r: Self) {
        v as usize
    }

    fn kind_name() -> (r: &'static str) {
        "usize"
    }
}

/// The decimal number in `raw`, if it is one that the type holds.
pub open spec fn number_in<T: EnvNumber>(raw: Seq<char>) -> Result<nat, NumberError> {
    parse_number(raw, 10, T::largest())
}

/// The decimal number in `raw`, or why there is none.
pub fn read_number<T: EnvNumber>(raw: &str) -> (r: Result<T, NumberError>)
    ensures
        match r {
            Ok(v) => number_in::<T>(raw@) == Ok::<nat, NumberError>(v.value()),
            Err(e) => number_in::<T>(raw@) == Err::<nat, NumberError>(e),
        },
{
    match parse_u64(raw, 10, T::max_number()) {
        Ok(v) => Ok(T::from_number(v)),
        Err(e) => Err(e),
    }
}

/// The decimal number in `raw`, the value of a variable, if it is one that the
/// type holds.
pub fn parse_value<T: EnvNumber>(_var: &str, raw: &str) -> (r: Option<T>)
    ensures
        match r {
            Some(v) => number_in::<T>(raw@) == Ok::<nat, NumberError>(v.value()),
            None => number_in::<T>(raw@) is Err,
        },
{
    match read_number(raw) {
        Ok(v) => Some(v),
        Err(_) => None,
    }
}

/// The number in a variable, or a default.
pub open spec fn env_number_or<T: EnvNumber>(env: Lookup, name: Seq<char>, default: nat) -> nat {
    match env_text(env, name) {
        Some(raw) => match number_in::<T>(raw) {
            Ok(v) => v,
            Err(_) => default,
        },
        None => default,
    }
}

/// The number in a variable, or a default.
fn env_t<G: Fn(&str) -> Option<String>, T: EnvNumber>(get: &G, name: &str, default: T) -> (r: T)
    requires
        forall|p: &str| call_requires(*get, (p,)),
    ensures
        forall|env: Lookup| #[trigger]
            answers_as(*get, env) ==> r.value() == env_number_or::<T>(env, name@, default.value()),
{
    match env_lookup(get, name) {
        Some(raw) => match parse_value(name, raw.as_str()) {
            Some(v) => v,
            None => default,
        },
        None => default,
    }
}

/// The runtime's settings.
#[derive(Debug)]
pub struct RuntimeConfig {
    /// Workspace root that every file operation is confined to.
    pub workdir: String,
    /// Process cap applied to the runtime and its children.
    pub max_procs: u64,
    /// Cap on each captured output stream.
    pub max_output_bytes: usize,
    /// Command timeout where a request names none, in seconds.
    pub default_timeout: u64,
    /// Largest command timeout, in seconds.
    pub max_timeout: u64,
    /// Size cap on snapshots and restores, in bytes.
    pub max_workspace_bytes: u64,
    /// Cap on concurrent terminal sessions.
    pub max_terminal_sessions: u32,
    /// Bytes of output kept per terminal.
    pub terminal_scrollback_bytes: usize,
    /// Seconds that a terminal without a client lives on.
    pub terminal_detach_ttl_secs: u64,
    /// Largest request body, in bytes.
    pub max_upload_bytes: u64,
    /// Shell that runs commands and terminals.
    pub shell: String,
    /// File that holds the session key.
    pub runtime_key_file: String,
    /// Template of the system prompt; empty for the default prompt.
    pub system_prompt: String,
    /// What the operator says of the environment; may be empty.
    pub info: String,
}

/// The runtime's settings.
pub struct RuntimeConfigView {
    /// Workspace root.
    pub workdir: Seq<char>,
    /// Process cap.
    pub max_procs: nat,
    /// Output cap.
    pub max_output_bytes: nat,
    /// Default timeout.
    pub default_timeout: nat,
    /// Largest timeout.
    pub max_timeout: nat,
    /// Size cap on snapshots and restores.
    pub max_workspace_bytes: nat,
    /// Cap on terminal sessions.
    pub max_terminal_sessions: nat,
    /// Output kept per terminal.
    pub terminal_scrollback_bytes: nat,
    /// Life of a terminal without a client.
    pub terminal_detach_ttl_secs: nat,
    /// Largest request body.
    pub max_upload_bytes: nat,
    /// Shell.
    pub shell: Seq<char>,
    /// Key file.
    pub runtime_key_file: Seq<char>,
    /// Prompt template.
    pub system_prompt: Seq<char>,
    /// Operator information.
    pub info: Seq<char>,
}

impl View for RuntimeConfig {
    type V = RuntimeConfigView;

    open spec fn view(&self) -> RuntimeConfigView {
        RuntimeConfigView {
            workdir: self.workdir@,
            max_procs: self.max_procs as nat,
            max_output_bytes: self.max_output_bytes as nat,
            default_timeout: self.default_timeout as nat,
            max_timeout: self.max_timeout as nat,
            max_workspace_bytes: self.max_workspace_bytes as nat,
            max_terminal_sessions: self.max_terminal_sessions as nat,
            terminal_scrollback_bytes: self.terminal_scrollback_bytes as nat,
            terminal_detach_ttl_secs: self.terminal_detach_ttl_secs as nat,
            max_upload_bytes: self.max_upload_bytes as nat,
            shell: self.shell@,
            runtime_key_file: self.runtime_key_file@,
            system_prompt: self.system_prompt@,
            info: self.info@,
        }
    }
}

/// The settings of an environment that sets nothing.
pub open spec fn default_settings() -> RuntimeConfigView {
    RuntimeConfigView {
        workdir: "/workspace"@,
        max_procs: 256,
        max_output_bytes: 1_048_576,
        default_timeout: 120,
        max_timeout: 600,
        max_workspace_bytes: 2_147_483_648,
        max_terminal_sessions: 8,
        terminal_scrollback_bytes: 262_144,
        terminal_detach_ttl_secs: 3600,
        max_upload_bytes: 2_147_483_648,
        shell: "/bin/bash"@,
        runtime_key_file: "/etc/runtime-key/api-key"@,
        system_prompt: ""@,
        info: ""@,
    }
}

/// The settings of an environment. A request body may be as large as a workspace
/// where nothing else is said.
pub open spec fn settings_from(env: Lookup) -> RuntimeConfigView {
    let d = default_settings();
    let workspace = env_number_or::<u64>(env, "MAX_WORKSPACE_BYTES"@, d.max_workspace_bytes);
    RuntimeConfigView {
        workdir: env_text_or(env, "WORKDIR"@, d.workdir),
        max_procs: env_number_or::<u64>(env, "MAX_PROCS"@, d.max_procs),
        max_output_bytes: env_number_or::<usize>(env, "MAX_OUTPUT_BYTES"@, d.max_output_bytes),
        default_timeout: env_number_or::<u64>(env, "DEFAULT_TIMEOUT"@, d.default_timeout),
        max_timeout: env_number_or::<u64>(env, "MAX_TIMEOUT"@, d.max_timeout),
        max_workspace_bytes: workspace,
        max_terminal_sessions: env_number_or::<u32>(
            env,
            "MAX_TERMINAL_SESSIONS"@,
            d.max_terminal_sessions,
        ),
        terminal_scrollback_bytes: env_number_or::<usize>(
            env,
            "TERMINAL_SCROLLBACK_BYTES"@,
            d.terminal_scrollback_bytes,
        ),
        terminal_detach_ttl_secs: env_number_or::<u64>(
            env,
            "TERMINAL_DETACH_TTL_SECS"@,
            d.terminal_detach_ttl_secs,
        ),
        max_upload_bytes: env_number_or::<u64>(env, "MAX_UPLOAD_BYTES"@, workspace),
        shell: env_text_or(env, "SHELL"@, d.shell),
        runtime_key_file: env_text_or(env, "RUNTIME_KEY_FILE"@, d.runtime_key_file),
        system_prompt: env_text_or(env, "OPEN_TERMINAL_SYSTEM_PROMPT"@, d.system_prompt),
        info: env_text_or(env, "OPEN_TERMINAL_INFO"@, d.info),
    }
}

/// An environment that sets nothing gives the defaults.
pub proof fn law_empty_environment(env: Lookup)
    requires
        forall|n: Seq<char>| (#[trigger] env(n)) is None,
    ensures
        settings_from(env) == default_settings(),
{
}

impl Default for RuntimeConfig {
    fn default() -> (r: Self)
        ensures
            r@ == default_settings(),
    {
        RuntimeConfig {
            workdir: "/workspace".to_owned(),
            max_procs: 256,
            max_output_bytes: 1_048_576,
            default_timeout: 120,
            max_timeout: 600,
            max_workspace_bytes: 2_147_483_648,
            max_terminal_sessions: 8,
            terminal_scrollback_bytes: 262_144,
            terminal_detach_ttl_secs: 3600,
            max_upload_bytes: 2_147_483_648,
            shell: "/bin/bash".to_owned(),
            runtime_key_file: "/etc/runtime-key/api-key".to_owned(),
            system_prompt: "".to_owned(),
            info: "".to_owned(),
        }
    }
}

impl RuntimeConfig {
    /// The settings of the environment that `get` reads.
    pub fn from_map<G: Fn(&str) -> Option<String>>(get: G) -> (r: Self)
        requires
            forall|p: &str| call_requires(get, (p,)),
        ensures
            forall|env: Lookup| #[trigger] answers_as(get, env) ==> r@ == settings_from(env),
    {
        let d = RuntimeConfig::default();
        let workspace: u64 = env_t(&get, "MAX_WORKSPACE_BYTES", d.max_workspace_bytes);
        RuntimeConfig {
            workdir: env_or(&get, "WORKDIR", d.workdir.as_str()),
            max_procs: env_t(&get, "MAX_PROCS", d.max_procs),
            max_output_bytes: env_t(&get, "MAX_OUTPUT_BYTES", d.max_output_bytes),
            default_timeout: env_t(&get, "DEFAULT_TIMEOUT", d.default_timeout),
            max_timeout: env_t(&get, "MAX_TIMEOUT", d.max_timeout),
            max_workspace_bytes: workspace,
            max_terminal_sessions: env_t(&get, "MAX_TERMINAL_SESSIONS", d.max_terminal_sessions),
            terminal_scrollback_bytes: env_t(
                &get,
                "TERMINAL_SCROLLBACK_BYTES",
                d.terminal_scrollback_bytes,
            ),
            terminal_detach_ttl_secs: env_t(
                &get,
                "TERMINAL_DETACH_TTL_SECS",
                d.terminal_detach_ttl_secs,
            ),
            max_upload_bytes: env_t(&get, "MAX_UPLOAD_BYTES", workspace),
            shell: env_or(&get, "SHELL", d.shell.as_str()),
            runtime_key_file: env_or(&get, "RUNTIME_KEY_FILE", d.runtime_key_file.as_str()),
            system_prompt: env_or(&get, "OPEN_TERMINAL_SYSTEM_PROMPT", d.system_prompt.as_str()),
            info: env_or(&get, "OPEN_TERMINAL_INFO", d.info.as_str()),
        }
    }
}

// --- setting by setting ------------------------------------------------------

/// Whether a variable is set to something.
pub open spec fn is_given(env: Lookup, name: Seq<char>) -> bool {
    env(name) matches Some(v) && v.len() > 0
}

/// A text setting is what its variable is set to, or the default where it is not
/// set to anything.
pub open spec fn follows_text(
    setting: Seq<char>,
    env: Lookup,
    name: Seq<char>,
    default: Seq<char>,
) -> bool {
    &&& is_given(env, name) ==> setting == env(name)->0
    &&& !is_given(env, name) ==> setting == default
}

/// A numeric setting is the decimal number that its variable is set to, or the
/// default where that is no number, more than `max`, or not set at all.
pub open spec fn follows_number(
    setting: nat,
    env: Lookup,
    name: Seq<char>,
    max: nat,
    default: nat,
) -> bool {
    if is_given(env, name) && parse_number(env(name)->0, 10, max) is Ok {
        setting == parse_number(env(name)->0, 10, max)->Ok_0
    } else {
        setting == default
    }
}

/// Every setting of the runtime goes by the variable of its name, and by no other;
/// the limit on request bodies alone has another setting for its default.
pub proof fn law_settings(env: Lookup)
    ensures
        ({
            let s = settings_from(env);
            let (big, wide) = (u64::MAX as nat, usize::MAX as nat);
            &&& follows_text(s.workdir, env, "WORKDIR"@, "/workspace"@)
            &&& follows_number(s.max_procs, env, "MAX_PROCS"@, big, 256)
            &&& follows_number(s.max_output_bytes, env, "MAX_OUTPUT_BYTES"@, wide, 1_048_576)
            &&& follows_number(s.default_timeout, env, "DEFAULT_TIMEOUT"@, big, 120)
            &&& follows_number(s.max_timeout, env, "MAX_TIMEOUT"@, big, 600)
            &&& follows_number(
                s.max_workspace_bytes,
                env,
                "MAX_WORKSPACE_BYTES"@,
                big,
                2_147_483_648,
            )
            &&& follows_number(
                s.max_terminal_sessions,
                env,
                "MAX_TERMINAL_SESSIONS"@,
                u32::MAX as nat,
                8,
            )
            &&& follows_number(
                s.terminal_scrollback_bytes,
                env,
                "TERMINAL_SCROLLBACK_BYTES"@,
                wide,
                262_144,
            )
            &&& follows_number(
                s.terminal_detach_ttl_secs,
                env,
                "TERMINAL_DETACH_TTL_SECS"@,
                big,
                3600,
            )
            &&& follows_number(
                s.max_upload_bytes,
                env,
                "MAX_UPLOAD_BYTES"@,
                big,
                s.max_workspace_bytes,
            )
            &&& follows_text(s.shell, env, "SHELL"@, "/bin/bash"@)
            &&& follows_text(
                s.runtime_key_file,
                env,
                "RUNTIME_KEY_FILE"@,
                "/etc/runtime-key/api-key"@,
            )
            &&& follows_text(s.system_prompt, env, "OPEN_TERMINAL_SYSTEM_PROMPT"@, ""@)
            &&& follows_text(s.info, env, "OPEN_TERMINAL_INFO"@, ""@)
        }),
{
}

} // verus!
