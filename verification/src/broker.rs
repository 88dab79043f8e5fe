//! The configuration of the broker.
//!
//! The broker's settings come from environment variables, too, but a variable
//! that is set to something that cannot be read stops the broker at boot, and
//! so do a persistent mode that does not go with the cold tier and a sandbox
//! that would be reaped before it is parked.

use vstd::prelude::*;

use crate::auth::is_placeholder_text;
use crate::chars::{
    ascii_lower_text, to_ascii_lower, trim, trim_both, trim_text, trimmed, CharSet,
};
use crate::config::{
    env_lookup, env_number_or, env_or, env_text, env_text_or, follows_number, follows_text,
    is_given, number_in, read_number, EnvNumber,
};
use crate::lookup::{answers_as, Lookup};
use crate::number::{parse_number, NumberError};
use crate::outside::{debug_of, debug_text};
use crate::text::{concat2, concat3, concat_strs, concat_texts, split, split_on, str_eq, str_in, texts};

verus! {

/// The secrets that count as not configured.
pub const PLACEHOLDER_SECRETS: [&'static str; 5] = [
    "",
    "dev-shared-secret-change-me",
    "change-me",
    "changeme",
    "placeholder",
];

/// Whether a secret is empty or a known placeholder.
pub fn is_placeholder_secret(secret: &str) -> (r: bool)
    ensures
        r == is_placeholder_text(secret@),
        r == exists|i: int|
            0 <= i < PLACEHOLDER_SECRETS@.len() && #[trigger] PLACEHOLDER_SECRETS@[i]@ == secret@,
{
    let list: [&str; 5] = PLACEHOLDER_SECRETS;
    let r = str_in(secret, list.as_slice());
    proof {
        if is_placeholder_text(secret@) {
            assert(list@[0]@ == ""@ && list@[1]@ == "dev-shared-secret-change-me"@ && list@[2]@
                == "change-me"@ && list@[3]@ == "changeme"@ && list@[4]@ == "placeholder"@);
        }
    }
    r
}

/// A variable that cannot be read.
#[derive(Debug)]
pub enum ConfigError {
    /// The value does not fit the setting.
    Invalid {
        /// The variable.
        var: &'static str,
        /// Why the value was rejected.
        message: String,
    },
}

/// A variable that cannot be read.
pub struct ConfigErrorView {
    /// The variable.
    pub var: Seq<char>,
    /// Why the value was rejected.
    pub message: Seq<char>,
}

impl View for ConfigError {
    type V = ConfigErrorView;

    open spec fn view(&self) -> ConfigErrorView {
        match *self {
            ConfigError::Invalid { var, message } => ConfigErrorView {
                var: var@,
                message: message@,
            },
        }
    }
}

impl ConfigError {
    /// The error as one line.
    pub fn message(&self) -> (r: String)
        ensures
            r@ == concat_texts(
                seq!["invalid value for "@, self@.var, ": "@, self@.message],
            ),
    {
        match self {
            ConfigError::Invalid { var, message } => {
                let parts: [&str; 4] = ["invalid value for ", *var, ": ", message.as_str()];
                let r = concat_strs(parts.as_slice());
                assert(parts@.map_values(|s: &str| s@) =~= seq![
                    "invalid value for "@,
                    self@.var,
                    ": "@,
                    self@.message,
                ]);
                r
            },
        }
    }
}

/// What backs the workspace of a sandbox.
#[derive(Debug, Clone, Copy, PartialEq, Eq, Structural, Default)]
pub enum Profile {
    /// A volume that outlives the sandbox.
    #[default]
    Persistent,
    /// A directory that goes with the sandbox.
    Ephemeral,
}

/// The profile with the given name.
pub open spec fn profile_named(s: Seq<char>) -> Option<Profile> {
    let l = ascii_lower_text(s);
    if l == "persistent"@ {
        Some(Profile::Persistent)
    } else if l == "ephemeral"@ {
        Some(Profile::Ephemeral)
    } else {
        None
    }
}

impl Profile {
    /// The name of the profile.
    pub open spec fn name(self) -> Seq<char> {
        match self {
            Profile::Persistent => "persistent"@,
            Profile::Ephemeral => "ephemeral"@,
        }
    }

    /// The name of the profile.
    pub fn as_str(self) -> (r: &'static str)
        ensures
            r@ == self.name(),
    {
        match self {
            Profile::Persistent => "persistent",
            Profile::Ephemeral => "ephemeral",
        }
    }

    /// The profile with the given name, in any case.
    pub fn parse(s: &str) -> (r: Option<Profile>)
        ensures
            r == profile_named(s@),
    {
        let l = to_ascii_lower(s);
        if str_eq(l.as_str(), "persistent") {
            Some(Profile::Persistent)
        } else if str_eq(l.as_str(), "ephemeral") {
            Some(Profile::Ephemeral)
        } else {
            None
        }
    }
}

/// What backs persistent workspaces.
#[derive(Debug, Clone, Copy, PartialEq, Eq, Structural, Default)]
pub enum PersistentMode {
    /// One volume per user.
    #[default]
    PerUserPvc,
    /// One volume for all users.
    SharedSubpath,
    /// A directory, with an object store behind it.
    S3Tiered,
}

/// The mode with the given name.
pub open spec fn mode_named(s: Seq<char>) -> Option<PersistentMode> {
    let l = ascii_lower_text(s);
    if l == "per-user-pvc"@ {
        Some(PersistentMode::PerUserPvc)
    } else if l == "shared-subpath"@ {
        Some(PersistentMode::SharedSubpath)
    } else if l == "s3-tiered"@ {
        Some(PersistentMode::S3Tiered)
    } else {
        None
    }
}

impl PersistentMode {
    /// The name of the mode.
    pub open spec fn name(self) -> Seq<char> {
        match self {
            PersistentMode::PerUserPvc => "per-user-pvc"@,
            PersistentMode::SharedSubpath => "shared-subpath"@,
            PersistentMode::S3Tiered => "s3-tiered"@,
        }
    }

    /// The name of the variant.
    pub open spec fn variant_name(self) -> Seq<char> {
        match self {
            PersistentMode::PerUserPvc => "PerUserPvc"@,
            PersistentMode::SharedSubpath => "SharedSubpath"@,
            PersistentMode::S3Tiered => "S3Tiered"@,
        }
    }

    /// Whether a volume backs the workspace.
    pub fn is_pvc(self) -> (r: bool)
        ensures
            r == (self != PersistentMode::S3Tiered),
    {
        match self {
            PersistentMode::PerUserPvc => true,
            PersistentMode::SharedSubpath => true,
            PersistentMode::S3Tiered => false,
        }
    }

    /// The name of the mode.
    pub fn as_str(self) -> (r: &'static str)
        ensures
            r@ == self.name(),
    {
        match self {
            PersistentMode::PerUserPvc => "per-user-pvc",
            PersistentMode::SharedSubpath => "shared-subpath",
            PersistentMode::S3Tiered => "s3-tiered",
        }
    }

    /// The mode with the given name, in any case.
    pub fn parse(s: &str) -> (r: Option<PersistentMode>)
        ensures
            r == mode_named(s@),
    {
        let l = to_ascii_lower(s);
        if str_eq(l.as_str(), "per-user-pvc") {
            Some(PersistentMode::PerUserPvc)
        } else if str_eq(l.as_str(), "shared-subpath") {
            Some(PersistentMode::SharedSubpath)
        } else if str_eq(l.as_str(), "s3-tiered") {
            Some(PersistentMode::S3Tiered)
        } else {
            None
        }
    }

    /// The name of the variant.
    fn variant(self) -> (r: &'static str)
        ensures
            r@ == self.variant_name(),
    {
        match self {
            PersistentMode::PerUserPvc => "PerUserPvc",
            PersistentMode::SharedSubpath => "SharedSubpath",
            PersistentMode::S3Tiered => "S3Tiered",
        }
    }
}

/// The name of a profile or a mode reads back as that profile or mode.
pub proof fn law_names_read_back(p: Profile, m: PersistentMode)
    ensures
        profile_named(p.name()) == Some(p),
        mode_named(m.name()) == Some(m),
{
    reveal_strlit("persistent");
    reveal_strlit("ephemeral");
    reveal_strlit("per-user-pvc");
    reveal_strlit("shared-subpath");
    reveal_strlit("s3-tiered");
    assert(ascii_lower_text(p.name()) =~= p.name());
    assert(ascii_lower_text(m.name()) =~= m.name());
    assert("persistent"@[0] != "ephemeral"@[0]);
    assert("per-user-pvc"@[0] != "shared-subpath"@[0]);
    assert("per-user-pvc"@[0] != "s3-tiered"@[0]);
    assert("shared-subpath"@[1] != "s3-tiered"@[1]);
}

/// The broker's settings.
#[derive(Debug)]
pub struct BrokerConfig {
    /// Cap on concurrent terminal sessions per runtime.
    pub max_terminal_sessions: u32,
    /// Cap on captured process output, in bytes.
    pub max_output_bytes: u64,
    /// Bearer secret of the requests to the broker; a placeholder counts as not
    /// configured.
    pub shared_secret: String,
    /// Namespace of the sandboxes.
    pub runtime_ns: String,
    /// Name of the sandbox template that is cloned.
    pub base_template: String,
    /// Persistence of a sandbox whose request names none.
    pub default_profile: Profile,
    /// What backs persistent workspaces.
    pub persistent_mode: PersistentMode,
    /// Size of a per-user volume.
    pub persistent_storage: String,
    /// Storage class of per-user volumes; empty for the cluster's default.
    pub persistent_storage_class: String,
    /// Access modes of per-user volumes.
    pub persistent_access_modes: Vec<String>,
    /// Name of the shared volume.
    pub shared_pvc_name: String,
    /// Prefix of the names of per-user volumes.
    pub per_user_pvc_prefix: String,
    /// Key that the broker presents to runtimes.
    pub runtime_api_key: String,
    /// Seconds to wait for a sandbox to become ready.
    pub claim_timeout_seconds: u64,
    /// Seconds allowed for one request to a runtime.
    pub proxy_timeout_seconds: u64,
    /// Idle seconds after which an ephemeral sandbox is reaped.
    pub idle_ttl_seconds: u64,
    /// Idle seconds after which a persistent sandbox is parked.
    pub park_idle_seconds: u64,
    /// Idle seconds after which a persistent sandbox is reaped; more than those
    /// after which it is parked.
    pub reap_seconds: u64,
    /// Seconds between two sweeps of the reaper.
    pub reaper_poll_seconds: u64,
    /// Whether requests are limited per user.
    pub rate_limit_enabled: bool,
    /// Requests per second and user.
    pub rate_limit_per_second: u32,
    /// Requests at once and user.
    pub rate_limit_burst: u32,
    /// Namespace of the leader lease.
    pub leader_namespace: String,
    /// Name of the leader lease.
    pub leader_lease: String,
    /// Seconds for which a lease holds.
    pub leader_duration_seconds: u64,
    /// Seconds between two renewals of the lease.
    pub leader_renew_seconds: u64,
    /// Whether the cold tier is in use.
    pub s3_enabled: bool,
    /// Endpoint of the object store; empty for the provider's own.
    pub s3_endpoint: String,
    /// Region of the object store.
    pub s3_region: String,
    /// Bucket name.
    pub s3_bucket: String,
    /// Prefix of object keys, without slashes around it.
    pub s3_prefix: String,
    /// Access key id; empty for the default credentials.
    pub s3_access_key_id: String,
    /// Secret access key.
    pub s3_secret_access_key: String,
    /// Whether buckets are addressed by path.
    pub s3_path_style: bool,
    /// Server-side encryption; empty or `none` for none.
    pub s3_sse: String,
}

/// The broker's settings.
pub struct BrokerConfigView {
    /// Cap on concurrent terminal sessions per runtime.
    pub max_terminal_sessions: nat,
    /// Cap on captured process output, in bytes.
    pub max_output_bytes: nat,
    /// Bearer secret of the requests to the broker; a placeholder counts as not
    /// configured.
    pub shared_secret: Seq<char>,
    /// Namespace of the sandboxes.
    pub runtime_ns: Seq<char>,
    /// Name of the sandbox template that is cloned.
    pub base_template: Seq<char>,
    /// Persistence of a sandbox whose request names none.
    pub default_profile: Profile,
    /// What backs persistent workspaces.
    pub persistent_mode: PersistentMode,
    /// Size of a per-user volume.
    pub persistent_storage: Seq<char>,
    /// Storage class of per-user volumes; empty for the cluster's default.
    pub persistent_storage_class: Seq<char>,
    /// Access modes of per-user volumes.
    pub persistent_access_modes: Seq<Seq<char>>,
    /// Name of the shared volume.
    pub shared_pvc_name: Seq<char>,
    /// Prefix of the names of per-user volumes.
    pub per_user_pvc_prefix: Seq<char>,
    /// Key that the broker presents to runtimes.
    pub runtime_api_key: Seq<char>,
    /// Seconds to wait for a sandbox to become ready.
    pub claim_timeout_seconds: nat,
    /// Seconds allowed for one request to a runtime.
    pub proxy_timeout_seconds: nat,
    /// Idle seconds after which an ephemeral sandbox is reaped.
    pub idle_ttl_seconds: nat,
    /// Idle seconds after which a persistent sandbox is parked.
    pub park_idle_seconds: nat,
    /// Idle seconds after which a persistent sandbox is reaped.
    pub reap_seconds: nat,
    /// Seconds between two sweeps of the reaper.
    pub reaper_poll_seconds: nat,
    /// Whether requests are limited per user.
    pub rate_limit_enabled: bool,
    /// Requests per second and user.
    pub rate_limit_per_second: nat,
    /// Requests at once and user.
    pub rate_limit_burst: nat,
    /// Namespace of the leader lease.
    pub leader_namespace: Seq<char>,
    /// Name of the leader lease.
    pub leader_lease: Seq<char>,
    /// Seconds for which a lease holds.
    pub leader_duration_seconds: nat,
    /// Seconds between two renewals of the lease.
    pub leader_renew_seconds: nat,
    /// Whether the cold tier is in use.
    pub s3_enabled: bool,
    /// Endpoint of the object store; empty for the provider's own.
    pub s3_endpoint: Seq<char>,
    /// Region of the object store.
    pub s3_region: Seq<char>,
    /// Bucket name.
    pub s3_bucket: Seq<char>,
    /// Prefix of object keys, without slashes around it.
    pub s3_prefix: Seq<char>,
    /// Access key id; empty for the default credentials.
    pub s3_access_key_id: Seq<char>,
    /// Secret access key.
    pub s3_secret_access_key: Seq<char>,
    /// Whether buckets are addressed by path.
    pub s3_path_style: bool,
    /// Server-side encryption; empty or `none` for none.
    pub s3_sse: Seq<char>,
}

impl View for BrokerConfig {
    type V = BrokerConfigView;

    open spec fn view(&self) -> BrokerConfigView {
        BrokerConfigView {
            max_terminal_sessions: self.max_terminal_sessions as nat,
            max_output_bytes: self.max_output_bytes as nat,
            shared_secret: self.shared_secret@,
            runtime_ns: self.runtime_ns@,
            base_template: self.base_template@,
            default_profile: self.default_profile,
            persistent_mode: self.persistent_mode,
            persistent_storage: self.persistent_storage@,
            persistent_storage_class: self.persistent_storage_class@,
            persistent_access_modes: texts(self.persistent_access_modes@),
            shared_pvc_name: self.shared_pvc_name@,
            per_user_pvc_prefix: self.per_user_pvc_prefix@,
            runtime_api_key: self.runtime_api_key@,
            claim_timeout_seconds: self.claim_timeout_seconds as nat,
            proxy_timeout_seconds: self.proxy_timeout_seconds as nat,
            idle_ttl_seconds: self.idle_ttl_seconds as nat,
            park_idle_seconds: self.park_idle_seconds as nat,
            reap_seconds: self.reap_seconds as nat,
            reaper_poll_seconds: self.reaper_poll_seconds as nat,
            rate_limit_enabled: self.rate_limit_enabled,
            rate_limit_per_second: self.rate_limit_per_second as nat,
            rate_limit_burst: self.rate_limit_burst as nat,
            leader_namespace: self.leader_namespace@,
            leader_lease: self.leader_lease@,
            leader_duration_seconds: self.leader_duration_seconds as nat,
            leader_renew_seconds: self.leader_renew_seconds as nat,
            s3_enabled: self.s3_enabled,
            s3_endpoint: self.s3_endpoint@,
            s3_region: self.s3_region@,
            s3_bucket: self.s3_bucket@,
            s3_prefix: self.s3_prefix@,
            s3_access_key_id: self.s3_access_key_id@,
            s3_secret_access_key: self.s3_secret_access_key@,
            s3_path_style: self.s3_path_style,
            s3_sse: self.s3_sse@,
        }
    }
}

/// The settings of an environment that sets nothing.
pub open spec fn broker_defaults() -> BrokerConfigView {
    BrokerConfigView {
        max_terminal_sessions: 8,
        max_output_bytes: 1_048_576,
        shared_secret: ""@,
        runtime_ns: "agent-sandbox-runtime"@,
        base_template: "code-standard-v1"@,
        default_profile: Profile::Persistent,
        persistent_mode: PersistentMode::PerUserPvc,
        persistent_storage: "10Gi"@,
        persistent_storage_class: ""@,
        persistent_access_modes: seq!["ReadWriteMany"@],
        shared_pvc_name: "workspace-shared"@,
        per_user_pvc_prefix: "workspace-p-"@,
        runtime_api_key: ""@,
        claim_timeout_seconds: 60,
        proxy_timeout_seconds: 660,
        idle_ttl_seconds: 120,
        park_idle_seconds: 120,
        reap_seconds: 604_800,
        reaper_poll_seconds: 60,
        rate_limit_enabled: true,
        rate_limit_per_second: 20,
        rate_limit_burst: 40,
        leader_namespace: "agent-sandbox-runtime"@,
        leader_lease: "owui-broker-leader"@,
        leader_duration_seconds: 15,
        leader_renew_seconds: 5,
        s3_enabled: false,
        s3_endpoint: ""@,
        s3_region: "us-east-1"@,
        s3_bucket: ""@,
        s3_prefix: "users"@,
        s3_access_key_id: ""@,
        s3_secret_access_key: ""@,
        s3_path_style: true,
        s3_sse: ""@,
    }
}

impl Default for BrokerConfig {
    fn default() -> (r: Self)
        ensures
            r@ == broker_defaults(),
    {
        BrokerConfig {
            max_terminal_sessions: 8,
            max_output_bytes: 1_048_576,
            shared_secret: "".to_owned(),
            runtime_ns: "agent-sandbox-runtime".to_owned(),
            base_template: "code-standard-v1".to_owned(),
            default_profile: Profile::Persistent,
            persistent_mode: PersistentMode::PerUserPvc,
            persistent_storage: "10Gi".to_owned(),
            persistent_storage_class: "".to_owned(),
            persistent_access_modes: default_persistent_access_modes(),
            shared_pvc_name: "workspace-shared".to_owned(),
            per_user_pvc_prefix: "workspace-p-".to_owned(),
            runtime_api_key: "".to_owned(),
            claim_timeout_seconds: 60,
            proxy_timeout_seconds: 660,
            idle_ttl_seconds: 120,
            park_idle_seconds: 120,
            reap_seconds: 604_800,
            reaper_poll_seconds: 60,
            rate_limit_enabled: true,
            rate_limit_per_second: 20,
            rate_limit_burst: 40,
            leader_namespace: "agent-sandbox-runtime".to_owned(),
            leader_lease: "owui-broker-leader".to_owned(),
            leader_duration_seconds: 15,
            leader_renew_seconds: 5,
            s3_enabled: false,
            s3_endpoint: "".to_owned(),
            s3_region: "us-east-1".to_owned(),
            s3_bucket: "".to_owned(),
            s3_prefix: "users".to_owned(),
            s3_access_key_id: "".to_owned(),
            s3_secret_access_key: "".to_owned(),
            s3_path_style: true,
            s3_sse: "".to_owned(),
        }
    }
}

/// The access modes of an environment that sets none.
fn default_persistent_access_modes() -> (r: Vec<String>)
    ensures
        texts(r@) == seq!["ReadWriteMany"@],
{
    let r: Vec<String> = vec!["ReadWriteMany".to_owned()];
    assert(texts(r@) =~= seq!["ReadWriteMany"@]);
    r
}

// --- single settings ---------------------------------------------------------

/// `1`, `true`, `yes` and `on`, in any case, are true; anything else is false.
pub open spec fn bool_in(raw: Seq<char>) -> bool {
    let l = ascii_lower_text(trim_text(raw));
    l == "1"@ || l == "true"@ || l == "yes"@ || l == "on"@
}

/// Whether a text says yes.
pub fn parse_bool(raw: &str) -> (r: bool)
    ensures
        r == bool_in(raw@),
{
    let t = trim(raw);
    let l = to_ascii_lower(t.as_str());
    str_eq(l.as_str(), "1") || str_eq(l.as_str(), "true") || str_eq(l.as_str(), "yes") || str_eq(
        l.as_str(),
        "on",
    )
}

/// A prefix without the slashes around it.
pub fn trim_prefix(raw: &str) -> (r: String)
    ensures
        r@ == trimmed(raw@, CharSet::Slash),
{
    trim_both(raw, CharSet::Slash)
}

/// The switch in a variable, or a default.
pub open spec fn env_bool_or(env: Lookup, name: Seq<char>, default: bool) -> bool {
    match env_text(env, name) {
        Some(raw) => bool_in(raw),
        None => default,
    }
}

/// Why a text is no number of the type.
pub open spec fn number_message<T: EnvNumber>(raw: Seq<char>, e: NumberError) -> Seq<char> {
    concat_texts(seq![debug_of(raw), " is not a valid "@, T::type_text(), ": "@, e.text()])
}

/// The number in `raw`, or an error that names the variable.
pub fn parse_value<T: EnvNumber>(var: &'static str, raw: &str) -> (r: Result<T, ConfigError>)
    ensures
        match number_in::<T>(raw@) {
            Ok(v) => r is Ok && r->Ok_0.value() == v,
            Err(e) => r is Err && r->Err_0@ == (ConfigErrorView {
                var: var@,
                message: number_message::<T>(raw@, e),
            }),
        },
{
    match read_number::<T>(raw) {
        Ok(v) => Ok(v),
        Err(e) => {
            let shown = debug_text(raw);
            let parts: [&str; 5] = [
                shown.as_str(),
                " is not a valid ",
                T::kind_name(),
                ": ",
                e.message(),
            ];
            let message = concat_strs(parts.as_slice());
            assert(parts@.map_values(|s: &str| s@) =~= seq![
                debug_of(raw@),
                " is not a valid "@,
                T::type_text(),
                ": "@,
                e.text(),
            ]);
            Err(ConfigError::Invalid { var, message })
        },
    }
}

/// The error of a numeric variable, if it has one.
pub open spec fn bad_number<T: EnvNumber>(env: Lookup, var: Seq<char>) -> Option<ConfigErrorView> {
    match env_text(env, var) {
        Some(raw) => match number_in::<T>(raw) {
            Ok(_) => None,
            Err(e) => Some(ConfigErrorView { var, message: number_message::<T>(raw, e) }),
        },
        None => None,
    }
}

/// The error of the persistent mode, if it has one.
pub open spec fn bad_mode(env: Lookup) -> Option<ConfigErrorView> {
    match env_text(env, "BROKER_PERSISTENT_MODE"@) {
        Some(raw) => if mode_named(raw) is Some {
            None
        } else {
            Some(
                ConfigErrorView {
                    var: "BROKER_PERSISTENT_MODE"@,
                    message: debug_of(raw)
                        + " is not one of per-user-pvc | shared-subpath | s3-tiered"@,
                },
            )
        },
        None => None,
    }
}

/// The persistent mode that an environment names.
pub open spec fn mode_setting(env: Lookup) -> PersistentMode {
    match env_text(env, "BROKER_PERSISTENT_MODE"@) {
        Some(raw) => match mode_named(raw) {
            Some(m) => m,
            None => PersistentMode::PerUserPvc,
        },
        None => PersistentMode::PerUserPvc,
    }
}

/// The profile that an environment names; an unknown one is persistent.
pub open spec fn profile_setting(env: Lookup) -> Profile {
    match env_text(env, "BROKER_DEFAULT_PROFILE"@) {
        Some(raw) => match profile_named(raw) {
            Some(p) => p,
            None => Profile::Persistent,
        },
        None => Profile::Persistent,
    }
}

/// The pieces between commas, trimmed, without empty ones.
pub open spec fn comma_list(raw: Seq<char>) -> Seq<Seq<char>> {
    trimmed_pieces(split_on(raw, ','))
}

/// The pieces, trimmed, without empty ones.
pub open spec fn trimmed_pieces(pieces: Seq<Seq<char>>) -> Seq<Seq<char>> {
    pieces.map_values(|p: Seq<char>| trim_text(p)).filter(|p: Seq<char>| p.len() > 0)
}

/// The access modes that an environment names.
pub open spec fn access_modes_setting(env: Lookup) -> Seq<Seq<char>> {
    match env_text(env, "BROKER_PERSISTENT_ACCESS_MODES"@) {
        Some(raw) => if comma_list(raw).len() > 0 {
            comma_list(raw)
        } else {
            seq!["ReadWriteMany"@]
        },
        None => seq!["ReadWriteMany"@],
    }
}

/// The contents of a credentials file, trimmed; nothing of a missing one.
pub open spec fn cred_file(files: Lookup, dir: Seq<char>, name: Seq<char>) -> Seq<char> {
    match files(dir + "/"@ + name) {
        Some(t) => trim_text(t),
        None => seq![],
    }
}

/// The credentials of the object store: those of the variables where the key
/// id is set, else those of the files in the credentials directory.
pub open spec fn resolved_creds(
    env: Lookup,
    files: Lookup,
    access: Seq<char>,
    secret: Seq<char>,
) -> (Seq<char>, Seq<char>) {
    if access.len() > 0 {
        (access, secret)
    } else {
        let dir = env_text_or(env, "BROKER_S3_CREDS_DIR"@, "/etc/s3-creds"@);
        (cred_file(files, dir, "access-key-id"@), cred_file(files, dir, "secret-access-key"@))
    }
}

/// The credentials of the object store.
pub open spec fn s3_creds(env: Lookup, files: Lookup) -> (Seq<char>, Seq<char>) {
    resolved_creds(
        env,
        files,
        env_text_or(env, "BROKER_S3_ACCESS_KEY_ID"@, ""@),
        env_text_or(env, "BROKER_S3_SECRET_ACCESS_KEY"@, ""@),
    )
}

/// The settings of an environment whose variables can all be read: `mode` is
/// the persistent mode that it names.
pub open spec fn broker_settings(env: Lookup, files: Lookup, mode: PersistentMode) -> BrokerConfigView {
    let d = broker_defaults();
    let runtime_ns = env_text_or(env, "BROKER_RUNTIME_NS"@, d.runtime_ns);
    let creds = s3_creds(env, files);
    BrokerConfigView {
        max_terminal_sessions: env_number_or::<u32>(env, "MAX_TERMINAL_SESSIONS"@, d.max_terminal_sessions),
        max_output_bytes: env_number_or::<u64>(env, "MAX_OUTPUT_BYTES"@, d.max_output_bytes),
        shared_secret: env_text_or(env, "BROKER_SHARED_SECRET"@, d.shared_secret),
        runtime_ns: runtime_ns,
        base_template: env_text_or(env, "BROKER_BASE_TEMPLATE"@, d.base_template),
        default_profile: profile_setting(env),
        persistent_mode: mode,
        persistent_storage: env_text_or(env, "BROKER_PERSISTENT_STORAGE"@, d.persistent_storage),
        persistent_storage_class: env_text_or(env, "BROKER_PERSISTENT_STORAGE_CLASS"@, d.persistent_storage_class),
        persistent_access_modes: access_modes_setting(env),
        shared_pvc_name: env_text_or(env, "BROKER_SHARED_PVC"@, d.shared_pvc_name),
        per_user_pvc_prefix: env_text_or(env, "BROKER_PER_USER_PVC_PREFIX"@, d.per_user_pvc_prefix),
        runtime_api_key: env_text_or(env, "BROKER_RUNTIME_API_KEY"@, d.runtime_api_key),
        claim_timeout_seconds: env_number_or::<u64>(env, "BROKER_CLAIM_TIMEOUT_SECONDS"@, d.claim_timeout_seconds),
        proxy_timeout_seconds: env_number_or::<u64>(env, "BROKER_PROXY_TIMEOUT_SECONDS"@, d.proxy_timeout_seconds),
        idle_ttl_seconds: env_number_or::<u64>(env, "BROKER_IDLE_TTL_SECONDS"@, d.idle_ttl_seconds),
        park_idle_seconds: env_number_or::<u64>(env, "BROKER_PARK_IDLE_SECONDS"@, d.park_idle_seconds),
        reap_seconds: env_number_or::<u64>(env, "BROKER_REAP_SECONDS"@, d.reap_seconds),
        reaper_poll_seconds: env_number_or::<u64>(env, "BROKER_REAPER_POLL_SECONDS"@, d.reaper_poll_seconds),
        rate_limit_enabled: env_bool_or(env, "BROKER_RATE_LIMIT_ENABLED"@, d.rate_limit_enabled),
        rate_limit_per_second: env_number_or::<u32>(env, "BROKER_RATE_LIMIT_PER_SECOND"@, d.rate_limit_per_second),
        rate_limit_burst: env_number_or::<u32>(env, "BROKER_RATE_LIMIT_BURST"@, d.rate_limit_burst),
        leader_namespace: env_text_or(env, "BROKER_LEADER_NAMESPACE"@, runtime_ns),
        leader_lease: env_text_or(env, "BROKER_LEADER_LEASE"@, d.leader_lease),
        leader_duration_seconds: env_number_or::<u64>(env, "BROKER_LEADER_DURATION_SECONDS"@, d.leader_duration_seconds),
        leader_renew_seconds: env_number_or::<u64>(env, "BROKER_LEADER_RENEW_SECONDS"@, d.leader_renew_seconds),
        s3_enabled: env_bool_or(env, "BROKER_S3_ENABLED"@, d.s3_enabled),
        s3_endpoint: env_text_or(env, "BROKER_S3_ENDPOINT"@, d.s3_endpoint),
        s3_region: env_text_or(env, "BROKER_S3_REGION"@, d.s3_region),
        s3_bucket: env_text_or(env, "BROKER_S3_BUCKET"@, d.s3_bucket),
        s3_prefix: match env_text(env, "BROKER_S3_PREFIX"@) {
            Some(raw) => trimmed(raw, CharSet::Slash),
            None => d.s3_prefix,
        },
        s3_access_key_id: creds.0,
        s3_secret_access_key: creds.1,
        s3_path_style: env_bool_or(env, "BROKER_S3_PATH_STYLE"@, d.s3_path_style),
        s3_sse: env_text_or(env, "BROKER_S3_SSE"@, d.s3_sse),
    }
}

/// The first variable, in the order in which they are read, that cannot be
/// read, and why.
pub open spec fn first_unreadable(env: Lookup) -> Option<ConfigErrorView> {
    if bad_number::<u32>(env, "MAX_TERMINAL_SESSIONS"@) is Some {
        bad_number::<u32>(env, "MAX_TERMINAL_SESSIONS"@)
    } else if bad_number::<u64>(env, "MAX_OUTPUT_BYTES"@) is Some {
        bad_number::<u64>(env, "MAX_OUTPUT_BYTES"@)
    } else if bad_mode(env) is Some {
        bad_mode(env)
    } else if bad_number::<u64>(env, "BROKER_CLAIM_TIMEOUT_SECONDS"@) is Some {
        bad_number::<u64>(env, "BROKER_CLAIM_TIMEOUT_SECONDS"@)
    } else if bad_number::<u64>(env, "BROKER_PROXY_TIMEOUT_SECONDS"@) is Some {
        bad_number::<u64>(env, "BROKER_PROXY_TIMEOUT_SECONDS"@)
    } else if bad_number::<u64>(env, "BROKER_IDLE_TTL_SECONDS"@) is Some {
        bad_number::<u64>(env, "BROKER_IDLE_TTL_SECONDS"@)
    } else if bad_number::<u64>(env, "BROKER_PARK_IDLE_SECONDS"@) is Some {
        bad_number::<u64>(env, "BROKER_PARK_IDLE_SECONDS"@)
    } else if bad_number::<u64>(env, "BROKER_REAP_SECONDS"@) is Some {
        bad_number::<u64>(env, "BROKER_REAP_SECONDS"@)
    } else if bad_number::<u64>(env, "BROKER_REAPER_POLL_SECONDS"@) is Some {
        bad_number::<u64>(env, "BROKER_REAPER_POLL_SECONDS"@)
    } else if bad_number::<u32>(env, "BROKER_RATE_LIMIT_PER_SECOND"@) is Some {
        bad_number::<u32>(env, "BROKER_RATE_LIMIT_PER_SECOND"@)
    } else if bad_number::<u32>(env, "BROKER_RATE_LIMIT_BURST"@) is Some {
        bad_number::<u32>(env, "BROKER_RATE_LIMIT_BURST"@)
    } else if bad_number::<u64>(env, "BROKER_LEADER_DURATION_SECONDS"@) is Some {
        bad_number::<u64>(env, "BROKER_LEADER_DURATION_SECONDS"@)
    } else if bad_number::<u64>(env, "BROKER_LEADER_RENEW_SECONDS"@) is Some {
        bad_number::<u64>(env, "BROKER_LEADER_RENEW_SECONDS"@)
    } else {
        None
    }
}

/// The settings of an environment, or the error that stops the broker: a
/// variable that cannot be read, a persistent mode that does not go with the
/// cold tier, or a sandbox that would be reaped before it is parked.
pub open spec fn broker_from(env: Lookup, files: Lookup) -> Result<
    BrokerConfigView,
    ConfigErrorView,
> {
    match first_unreadable(env) {
        Some(e) => Err(e),
        None => {
            let c = broker_settings(env, files, mode_setting(env));
            if c.persistent_mode == PersistentMode::S3Tiered && !c.s3_enabled {
                Err(
                    ConfigErrorView {
                        var: "BROKER_PERSISTENT_MODE"@,
                        message: "s3-tiered requires broker.s3.enabled=true (BROKER_S3_ENABLED)"@,
                    },
                )
            } else if c.persistent_mode != PersistentMode::S3Tiered && c.s3_enabled {
                Err(
                    ConfigErrorView {
                        var: "BROKER_PERSISTENT_MODE"@,
                        message:
                            "broker.s3.enabled=true requires BROKER_PERSISTENT_MODE=s3-tiered (got "@
                            + c.persistent_mode.variant_name() + ")"@,
                    },
                )
            } else if c.reap_seconds <= c.park_idle_seconds {
                Err(
                    ConfigErrorView {
                        var: "BROKER_REAP_SECONDS"@,
                        message: "must be greater than BROKER_PARK_IDLE_SECONDS"@,
                    },
                )
            } else {
                Ok(c)
            }
        },
    }
}

/// The cold tier is in use exactly in the mode that is made for it.
pub proof fn law_mode_exclusive(env: Lookup, files: Lookup)
    ensures
        broker_from(env, files) matches Ok(c) ==> (c.s3_enabled <==> c.persistent_mode
            == PersistentMode::S3Tiered),
{
}

/// A sandbox is parked before it is reaped.
pub proof fn law_reaped_after_parked(env: Lookup, files: Lookup)
    ensures
        broker_from(env, files) matches Ok(c) ==> c.reap_seconds > c.park_idle_seconds,
{
}

/// An environment that sets nothing, where there are no credential files, gives
/// the defaults.
pub proof fn law_empty_broker_environment(env: Lookup, files: Lookup)
    requires
        forall|n: Seq<char>| (#[trigger] env(n)) is None,
        files("/etc/s3-creds"@ + "/"@ + "access-key-id"@) is None,
        files("/etc/s3-creds"@ + "/"@ + "secret-access-key"@) is None,
    ensures
        broker_from(env, files) == Ok::<_, ConfigErrorView>(broker_defaults()),
{
    reveal_strlit("");
    let c = broker_settings(env, files, mode_setting(env));
    assert(c.s3_access_key_id =~= ""@);
    assert(c.s3_secret_access_key =~= ""@);
}

/// The leader's namespace follows the runtime's where it is not set.
pub proof fn law_leader_namespace_follows(env: Lookup, files: Lookup)
    requires
        env_text(env, "BROKER_LEADER_NAMESPACE"@) is None,
    ensures
        broker_from(env, files) matches Ok(c) ==> c.leader_namespace == c.runtime_ns,
{
}

// --- executable --------------------------------------------------------------

/// The switch in a variable, or a default.
fn env_bool<G: Fn(&str) -> Option<String>>(get: &G, name: &str, default: bool) -> (r: bool)
    requires
        forall|p: &str| call_requires(*get, (p,)),
    ensures
        forall|env: Lookup| #[trigger]
            answers_as(*get, env) ==> r == env_bool_or(env, name@, default),
{
    match env_lookup(get, name) {
        Some(raw) => parse_bool(raw.as_str()),
        None => default,
    }
}

/// The number in a variable, where it is set.
pub fn env_value<T: EnvNumber, G: Fn(&str) -> Option<String>>(var: &'static str, get: &G) -> (r: Result<
    Option<T>,
    ConfigError,
>)
    requires
        forall|p: &str| call_requires(*get, (p,)),
    ensures
        forall|env: Lookup| #[trigger]
            answers_as(*get, env) ==> match bad_number::<T>(env, var@) {
                Some(e) => r is Err && r->Err_0@ == e,
                None => r is Ok && match env_text(env, var@) {
                    Some(raw) => r->Ok_0 is Some && number_in::<T>(raw) == Ok::<nat, NumberError>(
                        (r->Ok_0->0).value(),
                    ),
                    None => r->Ok_0 is None,
                },
            },
{
    match env_lookup(get, var) {
        Some(raw) => match parse_value::<T>(var, raw.as_str()) {
            Ok(v) => Ok(Some(v)),
            Err(e) => Err(e),
        },
        None => Ok(None),
    }
}

/// The number in a variable, or a default.
fn env_number<G: Fn(&str) -> Option<String>, T: EnvNumber>(
    get: &G,
    var: &'static str,
    default: T,
) -> (r: Result<T, ConfigError>)
    requires
        forall|p: &str| call_requires(*get, (p,)),
    ensures
        forall|env: Lookup| #[trigger]
            answers_as(*get, env) ==> match bad_number::<T>(env, var@) {
                Some(e) => r is Err && r->Err_0@ == e,
                None => r is Ok && r->Ok_0.value() == env_number_or::<T>(
                    env,
                    var@,
                    default.value(),
                ),
            },
{
    match env_value::<T, G>(var, get) {
        Ok(Some(v)) => Ok(v),
        Ok(None) => Ok(default),
        Err(e) => Err(e),
    }
}

/// The persistent mode that an environment names.
fn env_mode<G: Fn(&str) -> Option<String>>(get: &G) -> (r: Result<PersistentMode, ConfigError>)
    requires
        forall|p: &str| call_requires(*get, (p,)),
    ensures
        forall|env: Lookup| #[trigger]
            answers_as(*get, env) ==> match bad_mode(env) {
                Some(e) => r is Err && r->Err_0@ == e,
                None => r is Ok && r->Ok_0 == mode_setting(env),
            },
{
    match env_lookup(get, "BROKER_PERSISTENT_MODE") {
        Some(raw) => match PersistentMode::parse(raw.as_str()) {
            Some(m) => Ok(m),
            None => {
                let shown = debug_text(raw.as_str());
                Err(
                    ConfigError::Invalid {
                        var: "BROKER_PERSISTENT_MODE",
                        message: concat2(
                            shown.as_str(),
                            " is not one of per-user-pvc | shared-subpath | s3-tiered",
                        ),
                    },
                )
            },
        },
        None => Ok(PersistentMode::PerUserPvc),
    }
}

/// The profile that an environment names.
fn env_profile<G: Fn(&str) -> Option<String>>(get: &G) -> (r: Profile)
    requires
        forall|p: &str| call_requires(*get, (p,)),
    ensures
        forall|env: Lookup| #[trigger] answers_as(*get, env) ==> r == profile_setting(env),
{
    match env_lookup(get, "BROKER_DEFAULT_PROFILE") {
        Some(raw) => match Profile::parse(raw.as_str()) {
            Some(p) => p,
            None => Profile::Persistent,
        },
        None => Profile::Persistent,
    }
}

/// The pieces between commas, trimmed, without empty ones.
fn split_commas(raw: &str) -> (r: Vec<String>)
    ensures
        texts(r@) == comma_list(raw@),
{
    let pieces = split(raw, ',');
    let ghost all = split_on(raw@, ',').map_values(|p: Seq<char>| trim_text(p));
    let mut r: Vec<String> = Vec::new();
    let mut i: usize = 0;
    proof {
        reveal(Seq::filter);
        assert(texts(r@) =~= all.take(0).filter(|p: Seq<char>| p.len() > 0));
    }
    while i < pieces.len()
        invariant
            i <= pieces.len(),
            all == texts(pieces@).map_values(|p: Seq<char>| trim_text(p)),
            texts(r@) == all.take(i as int).filter(|p: Seq<char>| p.len() > 0),
        decreases pieces.len() - i,
    {
        let ghost r0 = texts(r@);
        let t = trim(pieces[i].as_str());
        proof {
            assert(all[i as int] == t@);
            assert(all.take(i as int + 1) =~= all.take(i as int).push(all[i as int]));
            all.take(i as int).lemma_filter_push(all[i as int], |p: Seq<char>| p.len() > 0);
        }
        if !t.as_str().is_empty() {
            r.push(t);
            assert(texts(r@) =~= r0.push(all[i as int]));
        }
        i += 1;
    }
    assert(all.take(all.len() as int) =~= all);
    r
}

/// The access modes that an environment names.
fn env_access_modes<G: Fn(&str) -> Option<String>>(get: &G) -> (r: Vec<String>)
    requires
        forall|p: &str| call_requires(*get, (p,)),
    ensures
        forall|env: Lookup| #[trigger]
            answers_as(*get, env) ==> texts(r@) == access_modes_setting(env),
{
    match env_lookup(get, "BROKER_PERSISTENT_ACCESS_MODES") {
        Some(raw) => {
            let list = split_commas(raw.as_str());
            assert(texts(list@).len() == list@.len());
            if list.len() > 0 {
                list
            } else {
                default_persistent_access_modes()
            }
        },
        None => default_persistent_access_modes(),
    }
}

/// The prefix of object keys.
fn env_prefix<G: Fn(&str) -> Option<String>>(get: &G) -> (r: String)
    requires
        forall|p: &str| call_requires(*get, (p,)),
    ensures
        forall|env: Lookup| #[trigger]
            answers_as(*get, env) ==> r@ == match env_text(env, "BROKER_S3_PREFIX"@) {
                Some(raw) => trimmed(raw, CharSet::Slash),
                None => "users"@,
            },
{
    match env_lookup(get, "BROKER_S3_PREFIX") {
        Some(raw) => trim_prefix(raw.as_str()),
        None => "users".to_owned(),
    }
}

/// The contents of a credentials file, trimmed.
fn read_cred<R: Fn(&str) -> Option<String>>(read: &R, dir: &str, name: &str) -> (r: String)
    requires
        forall|p: &str| call_requires(*read, (p,)),
    ensures
        forall|files: Lookup| #[trigger]
            answers_as(*read, files) ==> r@ == cred_file(files, dir@, name@),
{
    let path = concat3(dir, "/", name);
    match read(path.as_str()) {
        Some(t) => trim(t.as_str()),
        None => {
            let none = String::new();
            assert(none@ =~= seq![]);
            none
        },
    }
}

/// The credentials of the object store; `read` gives the contents of a file.
pub fn resolve_s3_creds<G: Fn(&str) -> Option<String>, R: Fn(&str) -> Option<String>>(
    get: &G,
    read: &R,
    env_access: &str,
    env_secret: &str,
) -> (r: (String, String))
    requires
        forall|p: &str| call_requires(*get, (p,)),
        forall|p: &str| call_requires(*read, (p,)),
    ensures
        forall|env: Lookup, files: Lookup|
            #![trigger answers_as(*get, env), answers_as(*read, files)]
            answers_as(*get, env) && answers_as(*read, files) ==> (r.0@, r.1@) == resolved_creds(
                env,
                files,
                env_access@,
                env_secret@,
            ),
{
    if !env_access.is_empty() {
        return (env_access.to_owned(), env_secret.to_owned());
    }
    let dir = env_or(get, "BROKER_S3_CREDS_DIR", "/etc/s3-creds");
    (
        read_cred(read, dir.as_str(), "access-key-id"),
        read_cred(read, dir.as_str(), "secret-access-key"),
    )
}

impl BrokerConfig {
    /// The settings of the environment that `get` reads; `read` gives the
    /// contents of credentials files.
    pub fn from_map<G: Fn(&str) -> Option<String>, R: Fn(&str) -> Option<String>>(
        get: G,
        read: R,
    ) -> (r: Result<Self, ConfigError>)
        requires
            forall|p: &str| call_requires(get, (p,)),
            forall|p: &str| call_requires(read, (p,)),
        ensures
            forall|env: Lookup, files: Lookup|
                #![trigger answers_as(get, env), answers_as(read, files)]
                answers_as(get, env) && answers_as(read, files) ==> crate::text::view_result(r)
                    == broker_from(env, files),
    {
        let d = BrokerConfig::default();
        let runtime_ns = env_or(&get, "BROKER_RUNTIME_NS", d.runtime_ns.as_str());
        let leader_namespace = env_or(&get, "BROKER_LEADER_NAMESPACE", runtime_ns.as_str());
        let access = env_or(&get, "BROKER_S3_ACCESS_KEY_ID", "");
        let secret = env_or(&get, "BROKER_S3_SECRET_ACCESS_KEY", "");
        let creds = resolve_s3_creds(&get, &read, access.as_str(), secret.as_str());
        let max_terminal_sessions: u32 = match env_number(&get, "MAX_TERMINAL_SESSIONS", d.max_terminal_sessions) {
            Ok(v) => v,
            Err(e) => {
                return Err(e);
            },
        };
        let max_output_bytes: u64 = match env_number(&get, "MAX_OUTPUT_BYTES", d.max_output_bytes) {
            Ok(v) => v,
            Err(e) => {
                return Err(e);
            },
        };
        let persistent_mode = match env_mode(&get) {
            Ok(m) => m,
            Err(e) => {
                return Err(e);
            },
        };
        let claim_timeout_seconds: u64 = match env_number(&get, "BROKER_CLAIM_TIMEOUT_SECONDS", d.claim_timeout_seconds) {
            Ok(v) => v,
            Err(e) => {
                return Err(e);
            },
        };
        let proxy_timeout_seconds: u64 = match env_number(&get, "BROKER_PROXY_TIMEOUT_SECONDS", d.proxy_timeout_seconds) {
            Ok(v) => v,
            Err(e) => {
                return Err(e);
            },
        };
        let idle_ttl_seconds: u64 = match env_number(&get, "BROKER_IDLE_TTL_SECONDS", d.idle_ttl_seconds) {
            Ok(v) => v,
            Err(e) => {
                return Err(e);
            },
        };
        let park_idle_seconds: u64 = match env_number(&get, "BROKER_PARK_IDLE_SECONDS", d.park_idle_seconds) {
            Ok(v) => v,
            Err(e) => {
                return Err(e);
            },
        };
        let reap_seconds: u64 = match env_number(&get, "BROKER_REAP_SECONDS", d.reap_seconds) {
            Ok(v) => v,
            Err(e) => {
                return Err(e);
            },
        };
        let reaper_poll_seconds: u64 = match env_number(&get, "BROKER_REAPER_POLL_SECONDS", d.reaper_poll_seconds) {
            Ok(v) => v,
            Err(e) => {
                return Err(e);
            },
        };
        let rate_limit_per_second: u32 = match env_number(&get, "BROKER_RATE_LIMIT_PER_SECOND", d.rate_limit_per_second) {
            Ok(v) => v,
            Err(e) => {
                return Err(e);
            },
        };
        let rate_limit_burst: u32 = match env_number(&get, "BROKER_RATE_LIMIT_BURST", d.rate_limit_burst) {
            Ok(v) => v,
            Err(e) => {
                return Err(e);
            },
        };
        let leader_duration_seconds: u64 = match env_number(&get, "BROKER_LEADER_DURATION_SECONDS", d.leader_duration_seconds) {
            Ok(v) => v,
            Err(e) => {
                return Err(e);
            },
        };
        let leader_renew_seconds: u64 = match env_number(&get, "BROKER_LEADER_RENEW_SECONDS", d.leader_renew_seconds) {
            Ok(v) => v,
            Err(e) => {
                return Err(e);
            },
        };
        let cfg = BrokerConfig {
            max_terminal_sessions,
            max_output_bytes,
            shared_secret: env_or(&get, "BROKER_SHARED_SECRET", d.shared_secret.as_str()),
            runtime_ns,
            base_template: env_or(&get, "BROKER_BASE_TEMPLATE", d.base_template.as_str()),
            default_profile: env_profile(&get),
            persistent_mode,
            persistent_storage: env_or(&get, "BROKER_PERSISTENT_STORAGE", d.persistent_storage.as_str()),
            persistent_storage_class: env_or(&get, "BROKER_PERSISTENT_STORAGE_CLASS", d.persistent_storage_class.as_str()),
            persistent_access_modes: env_access_modes(&get),
            shared_pvc_name: env_or(&get, "BROKER_SHARED_PVC", d.shared_pvc_name.as_str()),
            per_user_pvc_prefix: env_or(&get, "BROKER_PER_USER_PVC_PREFIX", d.per_user_pvc_prefix.as_str()),
            runtime_api_key: env_or(&get, "BROKER_RUNTIME_API_KEY", d.runtime_api_key.as_str()),
            claim_timeout_seconds,
            proxy_timeout_seconds,
            idle_ttl_seconds,
            park_idle_seconds,
            reap_seconds,
            reaper_poll_seconds,
            rate_limit_enabled: env_bool(&get, "BROKER_RATE_LIMIT_ENABLED", d.rate_limit_enabled),
            rate_limit_per_second,
            rate_limit_burst,
            leader_namespace,
            leader_lease: env_or(&get, "BROKER_LEADER_LEASE", d.leader_lease.as_str()),
            leader_duration_seconds,
            leader_renew_seconds,
            s3_enabled: env_bool(&get, "BROKER_S3_ENABLED", d.s3_enabled),
            s3_endpoint: env_or(&get, "BROKER_S3_ENDPOINT", d.s3_endpoint.as_str()),
            s3_region: env_or(&get, "BROKER_S3_REGION", d.s3_region.as_str()),
            s3_bucket: env_or(&get, "BROKER_S3_BUCKET", d.s3_bucket.as_str()),
            s3_prefix: env_prefix(&get),
            s3_access_key_id: creds.0,
            s3_secret_access_key: creds.1,
            s3_path_style: env_bool(&get, "BROKER_S3_PATH_STYLE", d.s3_path_style),
            s3_sse: env_or(&get, "BROKER_S3_SSE", d.s3_sse.as_str()),
        };
        if cfg.persistent_mode == PersistentMode::S3Tiered && !cfg.s3_enabled {
            return Err(
                ConfigError::Invalid {
                    var: "BROKER_PERSISTENT_MODE",
                    message: "s3-tiered requires broker.s3.enabled=true (BROKER_S3_ENABLED)".to_owned(),
                },
            );
        }
        if cfg.persistent_mode != PersistentMode::S3Tiered && cfg.s3_enabled {
            return Err(
                ConfigError::Invalid {
                    var: "BROKER_PERSISTENT_MODE",
                    message: concat3(
                        "broker.s3.enabled=true requires BROKER_PERSISTENT_MODE=s3-tiered (got ",
                        cfg.persistent_mode.variant(),
                        ")",
                    ),
                },
            );
        }
        if cfg.reap_seconds <= cfg.park_idle_seconds {
            return Err(
                ConfigError::Invalid {
                    var: "BROKER_REAP_SECONDS",
                    message: "must be greater than BROKER_PARK_IDLE_SECONDS".to_owned(),
                },
            );
        }
        Ok(cfg)
    }
}

// --- setting by setting ------------------------------------------------------

/// Whether a word says yes.
pub open spec fn says_yes(word: Seq<char>) -> bool {
    word == "1"@ || word == "true"@ || word == "yes"@ || word == "on"@
}

/// A switch is on exactly where its variable says yes, in any case and with white
/// space around it, or as the default says where the variable is not set.
pub open spec fn follows_switch(setting: bool, env: Lookup, name: Seq<char>, default: bool) -> bool {
    &&& is_given(env, name) ==> (setting <==> says_yes(ascii_lower_text(trim_text(env(name)->0))))
    &&& !is_given(env, name) ==> setting == default
}

/// A numeric variable can be read: it is not set, or set to a number that is no
/// more than `max`.
pub open spec fn is_readable(env: Lookup, name: Seq<char>, max: nat) -> bool {
    is_given(env, name) ==> parse_number(env(name)->0, 10, max) is Ok
}

/// Every text setting of the broker goes by its own variable.
pub proof fn law_broker_texts(env: Lookup, files: Lookup, mode: PersistentMode)
    ensures
        ({
            let c = broker_settings(env, files, mode);
            &&& follows_text(c.shared_secret, env, "BROKER_SHARED_SECRET"@, ""@)
            &&& follows_text(c.base_template, env, "BROKER_BASE_TEMPLATE"@, "code-standard-v1"@)
            &&& follows_text(c.runtime_ns, env, "BROKER_RUNTIME_NS"@, "agent-sandbox-runtime"@)
            &&& follows_text(c.persistent_storage, env, "BROKER_PERSISTENT_STORAGE"@, "10Gi"@)
            &&& follows_text(c.persistent_storage_class, env, "BROKER_PERSISTENT_STORAGE_CLASS"@, ""@)
            &&& follows_text(c.shared_pvc_name, env, "BROKER_SHARED_PVC"@, "workspace-shared"@)
            &&& follows_text(c.per_user_pvc_prefix, env, "BROKER_PER_USER_PVC_PREFIX"@, "workspace-p-"@)
            &&& follows_text(c.runtime_api_key, env, "BROKER_RUNTIME_API_KEY"@, ""@)
            &&& follows_text(c.leader_namespace, env, "BROKER_LEADER_NAMESPACE"@, c.runtime_ns)
            &&& follows_text(c.leader_lease, env, "BROKER_LEADER_LEASE"@, "owui-broker-leader"@)
            &&& follows_text(c.s3_endpoint, env, "BROKER_S3_ENDPOINT"@, ""@)
            &&& follows_text(c.s3_region, env, "BROKER_S3_REGION"@, "us-east-1"@)
            &&& follows_text(c.s3_bucket, env, "BROKER_S3_BUCKET"@, ""@)
            &&& follows_text(c.s3_sse, env, "BROKER_S3_SSE"@, ""@)
            &&& c.persistent_mode == mode
            &&& if is_given(env, "BROKER_S3_PREFIX"@) {
                c.s3_prefix == trimmed(env("BROKER_S3_PREFIX"@)->0, CharSet::Slash)
            } else {
                c.s3_prefix == "users"@
            }
        }),
{
}

/// Every numeric setting and every switch of the broker goes by its own variable.
pub proof fn law_broker_numbers(env: Lookup, files: Lookup, mode: PersistentMode)
    ensures
        ({
            let c = broker_settings(env, files, mode);
            let (big, small) = (u64::MAX as nat, u32::MAX as nat);
            &&& follows_number(c.max_terminal_sessions, env, "MAX_TERMINAL_SESSIONS"@, small, 8)
            &&& follows_number(c.max_output_bytes, env, "MAX_OUTPUT_BYTES"@, big, 1_048_576)
            &&& follows_number(c.claim_timeout_seconds, env, "BROKER_CLAIM_TIMEOUT_SECONDS"@, big, 60)
            &&& follows_number(c.proxy_timeout_seconds, env, "BROKER_PROXY_TIMEOUT_SECONDS"@, big, 660)
            &&& follows_number(c.idle_ttl_seconds, env, "BROKER_IDLE_TTL_SECONDS"@, big, 120)
            &&& follows_number(c.park_idle_seconds, env, "BROKER_PARK_IDLE_SECONDS"@, big, 120)
            &&& follows_number(c.reap_seconds, env, "BROKER_REAP_SECONDS"@, big, 604_800)
            &&& follows_number(c.reaper_poll_seconds, env, "BROKER_REAPER_POLL_SECONDS"@, big, 60)
            &&& follows_number(c.rate_limit_per_second, env, "BROKER_RATE_LIMIT_PER_SECOND"@, small, 20)
            &&& follows_number(c.rate_limit_burst, env, "BROKER_RATE_LIMIT_BURST"@, small, 40)
            &&& follows_number(c.leader_duration_seconds, env, "BROKER_LEADER_DURATION_SECONDS"@, big, 15)
            &&& follows_number(c.leader_renew_seconds, env, "BROKER_LEADER_RENEW_SECONDS"@, big, 5)
            &&& follows_switch(c.rate_limit_enabled, env, "BROKER_RATE_LIMIT_ENABLED"@, true)
            &&& follows_switch(c.s3_enabled, env, "BROKER_S3_ENABLED"@, false)
            &&& follows_switch(c.s3_path_style, env, "BROKER_S3_PATH_STYLE"@, true)
        }),
{
}

/// The broker starts exactly where every numeric variable can be read, the
/// persistent mode is one that there is, the cold tier is in use exactly in the
/// mode for it, and a sandbox is reaped later than it is parked. It then has the
/// settings that the environment names.
pub proof fn law_broker_starts(env: Lookup, files: Lookup)
    ensures
        ({
            let (big, small) = (u64::MAX as nat, u32::MAX as nat);
            let name = "BROKER_PERSISTENT_MODE"@;
            let mode = if is_given(env, name) {
                mode_named(env(name)->0)
            } else {
                Some(PersistentMode::PerUserPvc)
            };
            let c = broker_settings(env, files, mode->0);
            let starts = {
                &&& is_readable(env, "MAX_TERMINAL_SESSIONS"@, small)
                &&& is_readable(env, "MAX_OUTPUT_BYTES"@, big)
                &&& is_readable(env, "BROKER_CLAIM_TIMEOUT_SECONDS"@, big)
                &&& is_readable(env, "BROKER_PROXY_TIMEOUT_SECONDS"@, big)
                &&& is_readable(env, "BROKER_IDLE_TTL_SECONDS"@, big)
                &&& is_readable(env, "BROKER_PARK_IDLE_SECONDS"@, big)
                &&& is_readable(env, "BROKER_REAP_SECONDS"@, big)
                &&& is_readable(env, "BROKER_REAPER_POLL_SECONDS"@, big)
                &&& is_readable(env, "BROKER_RATE_LIMIT_PER_SECOND"@, small)
                &&& is_readable(env, "BROKER_RATE_LIMIT_BURST"@, small)
                &&& is_readable(env, "BROKER_LEADER_DURATION_SECONDS"@, big)
                &&& is_readable(env, "BROKER_LEADER_RENEW_SECONDS"@, big)
                &&& mode is Some
                &&& (mode == Some(PersistentMode::S3Tiered) <==> c.s3_enabled)
                &&& c.reap_seconds > c.park_idle_seconds
            };
            &&& starts ==> broker_from(env, files) == Ok::<_, ConfigErrorView>(c)
            &&& !starts ==> broker_from(env, files) is Err
        }),
{
}

/// Where a numeric variable cannot be read, the broker says which, and one that
/// it names is one that cannot be read, unless the settings do not go together.
pub proof fn law_broker_names(env: Lookup, files: Lookup)
    ensures
        first_unreadable(env) matches Some(e) ==> broker_from(env, files) == Err::<
            BrokerConfigView,
            ConfigErrorView,
        >(e) && is_given(env, e.var),
        first_unreadable(env) is None ==> (broker_from(env, files) matches Err(e) ==> e.var
            == "BROKER_PERSISTENT_MODE"@ || e.var == "BROKER_REAP_SECONDS"@),
{
}

/// Names of modes and profiles are known in any case, and no others are.
pub proof fn law_names_known(s: Seq<char>)
    ensures
        PersistentMode::PerUserPvc.variant_name() == "PerUserPvc"@,
        PersistentMode::SharedSubpath.variant_name() == "SharedSubpath"@,
        PersistentMode::S3Tiered.variant_name() == "S3Tiered"@,
        profile_named(s) == Some(Profile::Persistent) <==> ascii_lower_text(s) == "persistent"@,
        profile_named(s) == Some(Profile::Ephemeral) <==> ascii_lower_text(s) == "ephemeral"@,
        mode_named(s) == Some(PersistentMode::PerUserPvc) <==> ascii_lower_text(s)
            == "per-user-pvc"@,
        mode_named(s) == Some(PersistentMode::SharedSubpath) <==> ascii_lower_text(s)
            == "shared-subpath"@,
        mode_named(s) == Some(PersistentMode::S3Tiered) <==> ascii_lower_text(s) == "s3-tiered"@,
{
    reveal_strlit("persistent");
    reveal_strlit("ephemeral");
    reveal_strlit("per-user-pvc");
    reveal_strlit("shared-subpath");
    reveal_strlit("s3-tiered");
    assert("persistent"@.len() == 10 && "ephemeral"@.len() == 9);
    assert("per-user-pvc"@.len() == 12 && "shared-subpath"@.len() == 14);
    assert("s3-tiered"@.len() == 9);
}

/// The default profile is the one that the environment names, and persistent
/// where it names none that there is.
pub proof fn law_profile_setting(env: Lookup)
    ensures
        ({
            let name = "BROKER_DEFAULT_PROFILE"@;
            profile_setting(env) == Profile::Ephemeral <==> is_given(env, name)
                && ascii_lower_text(env(name)->0) == "ephemeral"@
        }),
{
    if is_given(env, "BROKER_DEFAULT_PROFILE"@) {
        law_names_known(env("BROKER_DEFAULT_PROFILE"@)->0);
    }
}

/// The access modes are the pieces of the variable between commas, trimmed, that
/// are not empty, in their order; where there are none, volumes may be written by
/// many.
pub proof fn law_access_modes(env: Lookup, front: Seq<char>, piece: Seq<char>)
    requires
        !piece.contains(','),
    ensures
        comma_list(piece) == if trim_text(piece).len() > 0 {
            seq![trim_text(piece)]
        } else {
            seq![]
        },
        comma_list(front + seq![','] + piece) == comma_list(front) + comma_list(piece),
        ({
            let name = "BROKER_PERSISTENT_ACCESS_MODES"@;
            access_modes_setting(env) == if is_given(env, name) && comma_list(env(name)->0).len()
                > 0 {
                comma_list(env(name)->0)
            } else {
                seq!["ReadWriteMany"@]
            }
        }),
{
    reveal(Seq::filter);
    let keep = |p: Seq<char>| p.len() > 0;
    let trims = |p: Seq<char>| trim_text(p);
    crate::path::lemma_split_plain(piece, ',');
    crate::path::lemma_split_append(front, piece, ',');
    let one = seq![piece].map_values(trims);
    let before = split_on(front, ',').map_values(trims);
    assert(one =~= seq![trim_text(piece)]);
    assert(one.drop_last() =~= Seq::<Seq<char>>::empty());
    assert(one.drop_last().filter(keep) =~= Seq::<Seq<char>>::empty());
    assert(one.filter(keep) =~= if trim_text(piece).len() > 0 {
        seq![trim_text(piece)]
    } else {
        seq![]
    });
    assert(split_on(front, ',').push(piece).map_values(trims) =~= before + one);
    Seq::<Seq<char>>::filter_distributes_over_add(before, one, keep);
}

/// The credentials are those of the two variables where the key id is given, and
/// else what the two files in the credentials directory hold, trimmed.
pub proof fn law_credentials(env: Lookup, files: Lookup)
    ensures
        ({
            let (id, secret) = ("BROKER_S3_ACCESS_KEY_ID"@, "BROKER_S3_SECRET_ACCESS_KEY"@);
            let c = s3_creds(env, files);
            let dir = if is_given(env, "BROKER_S3_CREDS_DIR"@) {
                env("BROKER_S3_CREDS_DIR"@)->0
            } else {
                "/etc/s3-creds"@
            };
            let (a, b) = (
                files(dir + "/"@ + "access-key-id"@),
                files(dir + "/"@ + "secret-access-key"@),
            );
            &&& is_given(env, id) ==> c.0 == env(id)->0 && follows_text(c.1, env, secret, ""@)
            &&& !is_given(env, id) ==> {
                &&& c.0 == if a is Some {
                    trim_text(a->0)
                } else {
                    seq![]
                }
                &&& c.1 == if b is Some {
                    trim_text(b->0)
                } else {
                    seq![]
                }
            }
        }),
{
    reveal_strlit("");
}

/// Why the value of a numeric variable cannot be read, as the broker says it.
pub open spec fn unreadable(
    env: Lookup,
    var: Seq<char>,
    max: nat,
    kind: Seq<char>,
) -> ConfigErrorView {
    ConfigErrorView {
        var,
        message: concat_texts(
            seq![
                debug_of(env(var)->0),
                " is not a valid "@,
                kind,
                ": "@,
                parse_number(env(var)->0, 10, max)->Err_0.text(),
            ],
        ),
    }
}

/// Of several variables that cannot be read, the broker names the first in a fixed
/// order, and says what it is set to, what it should be, and what is wrong.
pub proof fn law_first_unreadable(env: Lookup)
    ensures
        ({
            let (big, small) = (u64::MAX as nat, u32::MAX as nat);
            let mode = "BROKER_PERSISTENT_MODE"@;
            let e = first_unreadable(env);
            let terminals = is_readable(env, "MAX_TERMINAL_SESSIONS"@, small);
            let output = terminals && is_readable(env, "MAX_OUTPUT_BYTES"@, big);
            let known = output && (is_given(env, mode) ==> mode_named(env(mode)->0) is Some);
            let claim = known && is_readable(env, "BROKER_CLAIM_TIMEOUT_SECONDS"@, big);
            let proxy = claim && is_readable(env, "BROKER_PROXY_TIMEOUT_SECONDS"@, big);
            let idle = proxy && is_readable(env, "BROKER_IDLE_TTL_SECONDS"@, big);
            let park = idle && is_readable(env, "BROKER_PARK_IDLE_SECONDS"@, big);
            let reap = park && is_readable(env, "BROKER_REAP_SECONDS"@, big);
            let poll = reap && is_readable(env, "BROKER_REAPER_POLL_SECONDS"@, big);
            let rate = poll && is_readable(env, "BROKER_RATE_LIMIT_PER_SECOND"@, small);
            let burst = rate && is_readable(env, "BROKER_RATE_LIMIT_BURST"@, small);
            let duration = burst && is_readable(env, "BROKER_LEADER_DURATION_SECONDS"@, big);
            let renew = duration && is_readable(env, "BROKER_LEADER_RENEW_SECONDS"@, big);
            &&& !terminals ==> e == Some(
                unreadable(env, "MAX_TERMINAL_SESSIONS"@, small, "u32"@),
            )
            &&& terminals && !output ==> e == Some(
                unreadable(env, "MAX_OUTPUT_BYTES"@, big, "u64"@),
            )
            &&& output && !known ==> e == Some(
                ConfigErrorView {
                    var: mode,
                    message: debug_of(env(mode)->0)
                        + " is not one of per-user-pvc | shared-subpath | s3-tiered"@,
                },
            )
            &&& known && !claim ==> e == Some(
                unreadable(env, "BROKER_CLAIM_TIMEOUT_SECONDS"@, big, "u64"@),
            )
            &&& claim && !proxy ==> e == Some(
                unreadable(env, "BROKER_PROXY_TIMEOUT_SECONDS"@, big, "u64"@),
            )
            &&& proxy && !idle ==> e == Some(
                unreadable(env, "BROKER_IDLE_TTL_SECONDS"@, big, "u64"@),
            )
            &&& idle && !park ==> e == Some(
                unreadable(env, "BROKER_PARK_IDLE_SECONDS"@, big, "u64"@),
            )
            &&& park && !reap ==> e == Some(
                unreadable(env, "BROKER_REAP_SECONDS"@, big, "u64"@),
            )
            &&& reap && !poll ==> e == Some(
                unreadable(env, "BROKER_REAPER_POLL_SECONDS"@, big, "u64"@),
            )
            &&& poll && !rate ==> e == Some(
                unreadable(env, "BROKER_RATE_LIMIT_PER_SECOND"@, small, "u32"@),
            )
            &&& rate && !burst ==> e == Some(
                unreadable(env, "BROKER_RATE_LIMIT_BURST"@, small, "u32"@),
            )
            &&& burst && !duration ==> e == Some(
                unreadable(env, "BROKER_LEADER_DURATION_SECONDS"@, big, "u64"@),
            )
            &&& duration && !renew ==> e == Some(
                unreadable(env, "BROKER_LEADER_RENEW_SECONDS"@, big, "u64"@),
            )
        }),
{
}

/// Where the mode and the cold tier do not go together, or a sandbox would be
/// reaped before it is parked, the broker says so of the variable that is at fault.
pub proof fn law_settings_clash(env: Lookup, files: Lookup)
    requires
        first_unreadable(env) is None,
    ensures
        ({
            let c = broker_settings(env, files, mode_setting(env));
            let tiered = c.persistent_mode == PersistentMode::S3Tiered;
            let (mode, reap) = ("BROKER_PERSISTENT_MODE"@, "BROKER_REAP_SECONDS"@);
            &&& tiered && !c.s3_enabled ==> broker_from(env, files) == Err::<
                BrokerConfigView,
                ConfigErrorView,
            >(
                ConfigErrorView {
                    var: mode,
                    message: "s3-tiered requires broker.s3.enabled=true (BROKER_S3_ENABLED)"@,
                },
            )
            &&& !tiered && c.s3_enabled ==> broker_from(env, files) == Err::<
                BrokerConfigView,
                ConfigErrorView,
            >(
                ConfigErrorView {
                    var: mode,
                    message:
                        "broker.s3.enabled=true requires BROKER_PERSISTENT_MODE=s3-tiered (got "@
                        + (if c.persistent_mode == PersistentMode::PerUserPvc {
                        "PerUserPvc"@
                    } else {
                        "SharedSubpath"@
                    }) + ")"@,
                },
            )
            &&& tiered == c.s3_enabled && c.reap_seconds <= c.park_idle_seconds ==> broker_from(
                env,
                files,
            ) == Err::<BrokerConfigView, ConfigErrorView>(
                ConfigErrorView {
                    var: reap,
                    message: "must be greater than BROKER_PARK_IDLE_SECONDS"@,
                },
            )
        }),
{
}

} // verus!
