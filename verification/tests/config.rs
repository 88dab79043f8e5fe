use open_websandbox::broker::{
    is_placeholder_secret, parse_bool, resolve_s3_creds, trim_prefix, BrokerConfig, ConfigError,
    PersistentMode, Profile, PLACEHOLDER_SECRETS,
};
use open_websandbox::config::{parse_value, RuntimeConfig};
use open_websandbox::crd::{
    BearerAddon, OperatingMode, SandboxCondition, SandboxStatus, ShutdownPolicy,
};

fn map<'a>(pairs: &'a [(&'a str, &'a str)]) -> impl Fn(&str) -> Option<String> + 'a {
    move |name: &str| {
        pairs
            .iter()
            .find(|(n, _)| *n == name)
            .map(|(_, v)| v.to_string())
    }
}

fn no_files(_path: &str) -> Option<String> {
    None
}

// --- the runtime's own configuration ------------------------------------------

#[test]
fn defaults_match_python() {
    let cfg = RuntimeConfig::from_map(map(&[]));
    assert_eq!(cfg.workdir, "/workspace");
    assert_eq!(cfg.max_procs, 256);
    assert_eq!(cfg.max_output_bytes, 1_048_576);
    assert_eq!(cfg.default_timeout, 120);
    assert_eq!(cfg.max_timeout, 600);
    assert_eq!(cfg.max_workspace_bytes, 2_147_483_648);
    assert_eq!(cfg.max_terminal_sessions, 8);
    assert_eq!(cfg.shell, "/bin/bash");
    assert_eq!(cfg.runtime_key_file, "/etc/runtime-key/api-key");
}

#[test]
fn parses_explicit_values() {
    let cfg = RuntimeConfig::from_map(map(&[
        ("WORKDIR", "/tmp/ws"),
        ("MAX_PROCS", "512"),
        ("MAX_OUTPUT_BYTES", "2048"),
        ("DEFAULT_TIMEOUT", "30"),
        ("MAX_TIMEOUT", "90"),
        ("MAX_WORKSPACE_BYTES", "1000"),
        ("MAX_TERMINAL_SESSIONS", "4"),
        ("SHELL", "/bin/sh"),
        ("RUNTIME_KEY_FILE", "/keys/k"),
    ]));
    assert_eq!(cfg.workdir, "/tmp/ws");
    assert_eq!(cfg.max_procs, 512);
    assert_eq!(cfg.max_output_bytes, 2048);
    assert_eq!(cfg.default_timeout, 30);
    assert_eq!(cfg.max_timeout, 90);
    assert_eq!(cfg.max_workspace_bytes, 1000);
    assert_eq!(cfg.max_terminal_sessions, 4);
    assert_eq!(cfg.shell, "/bin/sh");
    assert_eq!(cfg.runtime_key_file, "/keys/k");
}

#[test]
fn malformed_values_fall_back_to_defaults() {
    let cfg = RuntimeConfig::from_map(map(&[
        ("MAX_PROCS", "not-a-number"),
        ("MAX_TIMEOUT", "-5"),
        ("DEFAULT_TIMEOUT", ""),
    ]));
    assert_eq!(cfg.max_procs, 256);
    assert_eq!(cfg.max_timeout, 600);
    assert_eq!(cfg.default_timeout, 120);
}

#[test]
fn limits_of_terminals_and_uploads() {
    let cfg = RuntimeConfig::from_map(map(&[]));
    assert_eq!(cfg.terminal_scrollback_bytes, 262_144);
    assert_eq!(cfg.terminal_detach_ttl_secs, 3600);
    assert_eq!(cfg.max_upload_bytes, 2_147_483_648);
    let cfg = RuntimeConfig::from_map(map(&[
        ("TERMINAL_SCROLLBACK_BYTES", "4096"),
        ("TERMINAL_DETACH_TTL_SECS", "5"),
        ("MAX_UPLOAD_BYTES", "77"),
        ("MAX_WORKSPACE_BYTES", "1000"),
    ]));
    assert_eq!(cfg.terminal_scrollback_bytes, 4096);
    assert_eq!(cfg.terminal_detach_ttl_secs, 5);
    assert_eq!(cfg.max_upload_bytes, 77);
    let cfg = RuntimeConfig::from_map(map(&[
        ("TERMINAL_SCROLLBACK_BYTES", "x"),
        ("MAX_UPLOAD_BYTES", ""),
        ("MAX_WORKSPACE_BYTES", "1000"),
    ]));
    assert_eq!(cfg.terminal_scrollback_bytes, 262_144);
    assert_eq!(cfg.max_upload_bytes, 1000);
}

#[test]
fn parse_value_helper() {
    assert_eq!(parse_value::<u64>("X", "42"), Some(42));
    assert_eq!(parse_value::<u64>("X", "bad"), None);
}

#[test]
fn numbers_read_as_rust_reads_them() {
    assert_eq!(parse_value::<u32>("X", "+7"), Some(7));
    assert_eq!(parse_value::<u32>("X", "007"), Some(7));
    assert_eq!(parse_value::<u32>("X", "4294967295"), Some(u32::MAX));
    assert_eq!(parse_value::<u32>("X", "4294967296"), None);
    assert_eq!(parse_value::<u64>("X", "18446744073709551616"), None);
    assert_eq!(parse_value::<u64>("X", "+"), None);
    assert_eq!(parse_value::<u64>("X", " 4"), None);
    assert_eq!(parse_value::<u64>("X", "\u{0664}"), None);
}

#[test]
fn empty_values_count_as_absent() {
    let cfg = RuntimeConfig::from_map(map(&[("WORKDIR", ""), ("SHELL", "")]));
    assert_eq!(cfg.workdir, "/workspace");
    assert_eq!(cfg.shell, "/bin/bash");
}

// --- the broker's configuration -----------------------------------------------

#[test]
fn parse_value_accepts_valid_input() {
    let n: u32 =
        open_websandbox::broker::parse_value("MAX_TERMINAL_SESSIONS", "4").expect("valid");
    assert_eq!(n, 4);
    let b: u64 =
        open_websandbox::broker::parse_value("MAX_OUTPUT_BYTES", "2097152").expect("valid");
    assert_eq!(b, 2_097_152);
}

#[test]
fn parse_value_rejects_garbage_with_var_name() {
    let err =
        open_websandbox::broker::parse_value::<u32>("MAX_TERMINAL_SESSIONS", "not-a-number")
            .unwrap_err();
    assert!(
        matches!(
            err,
            ConfigError::Invalid {
                var: "MAX_TERMINAL_SESSIONS",
                ..
            }
        ),
        "wrong variant: {err:?}"
    );
    let msg = err.message();
    assert!(msg.contains("MAX_TERMINAL_SESSIONS"), "{msg}");
    assert!(msg.contains("not-a-number"), "{msg}");
    assert!(msg.contains("u32"), "{msg}");
}

#[test]
fn serde_defaults_match_documented_values() {
    let cfg = BrokerConfig::default();
    assert_eq!(cfg.max_terminal_sessions, 8);
    assert_eq!(cfg.max_output_bytes, 1_048_576);
    assert_eq!(cfg.shared_secret, "");
    assert_eq!(cfg.runtime_ns, "agent-sandbox-runtime");
    assert_eq!(cfg.base_template, "code-standard-v1");
    assert_eq!(cfg.default_profile, Profile::Persistent);
}

#[test]
fn serde_defaults_cover_new_proxy_fields() {
    let cfg = BrokerConfig::default();
    assert_eq!(cfg.runtime_api_key, "");
    assert_eq!(cfg.claim_timeout_seconds, 60);
    assert_eq!(cfg.proxy_timeout_seconds, 660);
}

#[test]
fn serde_defaults_cover_reaper_and_leader_fields() {
    let cfg = BrokerConfig::default();
    assert_eq!(cfg.idle_ttl_seconds, 120);
    assert_eq!(cfg.park_idle_seconds, 120);
    assert_eq!(cfg.reap_seconds, 7 * 24 * 3600);
    assert_eq!(cfg.reaper_poll_seconds, 60);
    assert_eq!(cfg.leader_namespace, "agent-sandbox-runtime");
    assert_eq!(cfg.leader_lease, "owui-broker-leader");
    assert_eq!(cfg.leader_duration_seconds, 15);
    assert_eq!(cfg.leader_renew_seconds, 5);
}

#[test]
fn serde_defaults_cover_s3_fields() {
    let cfg = BrokerConfig::default();
    assert!(!cfg.s3_enabled);
    assert_eq!(cfg.s3_endpoint, "");
    assert_eq!(cfg.s3_region, "us-east-1");
    assert_eq!(cfg.s3_bucket, "");
    assert_eq!(cfg.s3_prefix, "users");
    assert_eq!(cfg.s3_access_key_id, "");
    assert_eq!(cfg.s3_secret_access_key, "");
    assert!(cfg.s3_path_style);
}

#[test]
fn from_map_reads_broker_env_vars() {
    let cfg = BrokerConfig::from_map(
        map(&[
            ("BROKER_SHARED_SECRET", "hunter2"),
            ("BROKER_RUNTIME_NS", "sandbox-ns"),
            ("BROKER_BASE_TEMPLATE", "code-standard-v2"),
            ("BROKER_DEFAULT_PROFILE", "ephemeral"),
            ("BROKER_RUNTIME_API_KEY", "rt-key"),
            ("BROKER_CLAIM_TIMEOUT_SECONDS", "42"),
            ("BROKER_PROXY_TIMEOUT_SECONDS", "300"),
            ("MAX_TERMINAL_SESSIONS", "4"),
            ("BROKER_IDLE_TTL_SECONDS", "7"),
            ("BROKER_PARK_IDLE_SECONDS", "8"),
            ("BROKER_REAP_SECONDS", "9"),
            ("BROKER_REAPER_POLL_SECONDS", "1"),
            ("BROKER_LEADER_NAMESPACE", "lead-ns"),
            ("BROKER_LEADER_LEASE", "custom-lease"),
            ("BROKER_LEADER_DURATION_SECONDS", "30"),
            ("BROKER_LEADER_RENEW_SECONDS", "10"),
            ("BROKER_S3_ENABLED", "yes"),
            ("BROKER_PERSISTENT_MODE", "s3-tiered"),
            ("BROKER_S3_ENDPOINT", "http://minio:9000"),
            ("BROKER_S3_REGION", "eu-west-1"),
            ("BROKER_S3_BUCKET", "owui-cold"),
            ("BROKER_S3_PREFIX", "//prod/users//"),
            ("BROKER_S3_ACCESS_KEY_ID", "AKIAEXAMPLE"),
            ("BROKER_S3_SECRET_ACCESS_KEY", "shh"),
            ("BROKER_S3_PATH_STYLE", "off"),
        ]),
        no_files,
    )
    .expect("ok");
    assert_eq!(cfg.shared_secret, "hunter2");
    assert_eq!(cfg.runtime_ns, "sandbox-ns");
    assert_eq!(cfg.base_template, "code-standard-v2");
    assert_eq!(cfg.default_profile, Profile::Ephemeral);
    assert_eq!(cfg.runtime_api_key, "rt-key");
    assert_eq!(cfg.claim_timeout_seconds, 42);
    assert_eq!(cfg.proxy_timeout_seconds, 300);
    assert_eq!(cfg.max_terminal_sessions, 4);
    assert_eq!(cfg.idle_ttl_seconds, 7);
    assert_eq!(cfg.park_idle_seconds, 8);
    assert_eq!(cfg.reap_seconds, 9);
    assert_eq!(cfg.reaper_poll_seconds, 1);
    assert_eq!(cfg.leader_namespace, "lead-ns");
    assert_eq!(cfg.leader_lease, "custom-lease");
    assert_eq!(cfg.leader_duration_seconds, 30);
    assert_eq!(cfg.leader_renew_seconds, 10);
    assert!(cfg.s3_enabled, "BROKER_S3_ENABLED=yes => true");
    assert_eq!(cfg.s3_endpoint, "http://minio:9000");
    assert_eq!(cfg.s3_region, "eu-west-1");
    assert_eq!(cfg.s3_bucket, "owui-cold");
    assert_eq!(cfg.s3_prefix, "prod/users", "surrounding slashes stripped");
    assert_eq!(cfg.s3_access_key_id, "AKIAEXAMPLE");
    assert_eq!(cfg.s3_secret_access_key, "shh");
    assert!(!cfg.s3_path_style, "BROKER_S3_PATH_STYLE=off => false");
}

#[test]
fn from_map_defaults_when_env_absent() {
    let cfg = BrokerConfig::from_map(map(&[]), no_files).expect("ok");
    assert_eq!(cfg.shared_secret, "");
    assert_eq!(cfg.runtime_ns, "agent-sandbox-runtime");
    assert_eq!(cfg.base_template, "code-standard-v1");
    assert_eq!(cfg.default_profile, Profile::Persistent);
    assert_eq!(cfg.runtime_api_key, "");
    assert_eq!(cfg.claim_timeout_seconds, 60);
    assert_eq!(cfg.proxy_timeout_seconds, 660);
    assert_eq!(cfg.idle_ttl_seconds, 120);
    assert_eq!(cfg.park_idle_seconds, 120);
    assert_eq!(cfg.reap_seconds, 7 * 24 * 3600);
    assert_eq!(cfg.reaper_poll_seconds, 60);
    assert_eq!(cfg.leader_namespace, cfg.runtime_ns);
    assert_eq!(cfg.leader_lease, "owui-broker-leader");
    assert_eq!(cfg.leader_duration_seconds, 15);
    assert_eq!(cfg.leader_renew_seconds, 5);
    assert!(!cfg.s3_enabled);
    assert_eq!(cfg.s3_endpoint, "");
    assert_eq!(cfg.s3_region, "us-east-1");
    assert_eq!(cfg.s3_bucket, "");
    assert_eq!(cfg.s3_prefix, "users");
    assert!(cfg.s3_path_style);
}

#[test]
fn leader_namespace_defaults_to_runtime_ns_when_overridden() {
    let cfg = BrokerConfig::from_map(map(&[("BROKER_RUNTIME_NS", "custom-rt")]), no_files)
        .expect("ok");
    assert_eq!(cfg.runtime_ns, "custom-rt");
    assert_eq!(cfg.leader_namespace, "custom-rt");
}

#[test]
fn from_map_bad_profile_falls_back_to_persistent() {
    let cfg = BrokerConfig::from_map(map(&[("BROKER_DEFAULT_PROFILE", "nope")]), no_files)
        .expect("falls back, not errors");
    assert_eq!(cfg.default_profile, Profile::Persistent);
}

#[test]
fn config_placeholder_detection() {
    for p in PLACEHOLDER_SECRETS {
        assert!(is_placeholder_secret(p), "{p:?} should be placeholder");
    }
    assert!(!is_placeholder_secret("a-strong-shared-secret-123456"));
}

#[test]
fn s3_creds_read_from_files_when_env_absent() {
    let get = map(&[("BROKER_S3_CREDS_DIR", "/mnt/creds")]);
    let read = map(&[
        ("/mnt/creds/access-key-id", "  file-akid  \n"),
        ("/mnt/creds/secret-access-key", "file-secret\n"),
    ]);
    // Empty env => fall back to the projected files (whitespace trimmed).
    let (ak, sk) = resolve_s3_creds(&get, &read, "", "");
    assert_eq!(ak, "file-akid");
    assert_eq!(sk, "file-secret");
    // Explicit env always wins over the files.
    let (ak2, sk2) = resolve_s3_creds(&get, &read, "env-akid", "env-secret");
    assert_eq!((ak2.as_str(), sk2.as_str()), ("env-akid", "env-secret"));
}

#[test]
fn s3_creds_have_a_default_folder() {
    let get = map(&[]);
    let read = map(&[
        ("/etc/s3-creds/access-key-id", "akid"),
        ("/etc/s3-creds/secret-access-key", "secret"),
    ]);
    let (ak, sk) = resolve_s3_creds(&get, &read, "", "");
    assert_eq!((ak.as_str(), sk.as_str()), ("akid", "secret"));
    // Unreadable files leave the credentials empty.
    let (ak, sk) = resolve_s3_creds(&get, &no_files, "", "");
    assert_eq!((ak.as_str(), sk.as_str()), ("", ""));
}

#[test]
fn s3_sse_read_from_env() {
    let cfg = BrokerConfig::from_map(
        |k: &str| match k {
            "BROKER_S3_ENABLED" => Some("true".to_string()),
            "BROKER_PERSISTENT_MODE" => Some("s3-tiered".to_string()),
            "BROKER_S3_SSE" => Some("AES256".to_string()),
            "BROKER_S3_BUCKET" => Some("b".to_string()),
            _ => None,
        },
        no_files,
    )
    .expect("config");
    assert_eq!(cfg.s3_sse, "AES256");
    assert!(cfg.s3_enabled);
}

#[test]
fn persistent_mode_defaults_and_parses() {
    let cfg = BrokerConfig::from_map(map(&[]), no_files).expect("config");
    assert_eq!(cfg.persistent_mode, PersistentMode::PerUserPvc);
    assert_eq!(cfg.persistent_storage, "10Gi");
    assert_eq!(cfg.persistent_storage_class, "");
    assert_eq!(cfg.persistent_access_modes, ["ReadWriteMany".to_string()]);
    assert_eq!(cfg.shared_pvc_name, "workspace-shared");
    assert_eq!(cfg.per_user_pvc_prefix, "workspace-p-");

    let cfg = BrokerConfig::from_map(
        |k: &str| match k {
            "BROKER_PERSISTENT_MODE" => Some("shared-subpath".to_string()),
            "BROKER_PERSISTENT_STORAGE" => Some("5Gi".to_string()),
            "BROKER_PERSISTENT_STORAGE_CLASS" => Some("cephfs".to_string()),
            "BROKER_PERSISTENT_ACCESS_MODES" => Some(" ReadWriteOnce ,  ".to_string()),
            "BROKER_SHARED_PVC" => Some("ws".to_string()),
            "BROKER_PER_USER_PVC_PREFIX" => Some("p-".to_string()),
            _ => None,
        },
        no_files,
    )
    .expect("config");
    assert_eq!(cfg.persistent_mode, PersistentMode::SharedSubpath);
    assert!(cfg.persistent_mode.is_pvc());
    assert_eq!(cfg.persistent_storage, "5Gi");
    assert_eq!(cfg.persistent_storage_class, "cephfs");
    assert_eq!(cfg.persistent_access_modes, ["ReadWriteOnce".to_string()]);
    assert_eq!(cfg.shared_pvc_name, "ws");
    assert_eq!(cfg.per_user_pvc_prefix, "p-");
}

#[test]
fn unknown_persistent_mode_fails_closed() {
    let err = BrokerConfig::from_map(map(&[("BROKER_PERSISTENT_MODE", "nonsense")]), no_files)
        .expect_err("unknown mode must fail boot");
    assert!(matches!(
        err,
        ConfigError::Invalid {
            var: "BROKER_PERSISTENT_MODE",
            ..
        }
    ));
}

#[test]
fn s3_mode_exclusivity_fails_closed() {
    // s3-tiered without S3 configured.
    let err = BrokerConfig::from_map(map(&[("BROKER_PERSISTENT_MODE", "s3-tiered")]), no_files)
        .expect_err("s3-tiered without S3 must fail boot");
    assert!(matches!(
        err,
        ConfigError::Invalid {
            var: "BROKER_PERSISTENT_MODE",
            ..
        }
    ));

    // S3 enabled with a PVC mode.
    let err = BrokerConfig::from_map(
        map(&[
            ("BROKER_S3_ENABLED", "true"),
            ("BROKER_PERSISTENT_MODE", "per-user-pvc"),
        ]),
        no_files,
    )
    .expect_err("S3 with a PVC mode must fail boot");
    assert!(matches!(
        err,
        ConfigError::Invalid {
            var: "BROKER_PERSISTENT_MODE",
            ..
        }
    ));
}

#[test]
fn malformed_broker_number_fails_boot() {
    let err = BrokerConfig::from_map(map(&[("BROKER_REAP_SECONDS", "soon")]), no_files)
        .expect_err("malformed");
    assert!(matches!(
        err,
        ConfigError::Invalid {
            var: "BROKER_REAP_SECONDS",
            ..
        }
    ));
}

#[test]
fn sandboxes_are_parked_before_they_are_reaped() {
    for pairs in [
        vec![("BROKER_REAP_SECONDS", "1")],
        vec![("BROKER_REAP_SECONDS", "120")],
        vec![("BROKER_PARK_IDLE_SECONDS", "604800")],
    ] {
        let err = BrokerConfig::from_map(map(&pairs), no_files).expect_err("reaped too early");
        assert!(matches!(
            err,
            ConfigError::Invalid {
                var: "BROKER_REAP_SECONDS",
                ..
            }
        ));
        assert!(err.message().contains("must be greater than BROKER_PARK_IDLE_SECONDS"));
    }
    let cfg = BrokerConfig::from_map(map(&[("BROKER_REAP_SECONDS", "121")]), no_files).unwrap();
    assert_eq!(cfg.reap_seconds, 121);
}

#[test]
fn profile_serializes_lowercase() {
    assert_eq!(Profile::Persistent.as_str(), "persistent");
    assert_eq!(Profile::Ephemeral.as_str(), "ephemeral");
    assert_eq!(Profile::parse("ephemeral"), Some(Profile::Ephemeral));
    assert_eq!(Profile::parse("nope"), None);
}

#[test]
fn names_of_persistent_modes() {
    assert_eq!(PersistentMode::PerUserPvc.as_str(), "per-user-pvc");
    assert_eq!(PersistentMode::SharedSubpath.as_str(), "shared-subpath");
    assert_eq!(PersistentMode::S3Tiered.as_str(), "s3-tiered");
    assert!(!PersistentMode::S3Tiered.is_pvc());
    assert_eq!(
        PersistentMode::parse("s3-tiered"),
        Some(PersistentMode::S3Tiered)
    );
    assert_eq!(PersistentMode::parse("none"), None);
}

#[test]
fn switches_and_prefixes() {
    for on in ["1", "true", "yes", "on", "TRUE", "Yes"] {
        assert!(parse_bool(on), "{on}");
    }
    for off in ["0", "false", "off", "", "2"] {
        assert!(!parse_bool(off), "{off}");
    }
    assert_eq!(trim_prefix("//prod/users//"), "prod/users");
    assert_eq!(trim_prefix("///"), "");
}

// --- sandboxes ----------------------------------------------------------------

fn condition(status: &str) -> SandboxCondition {
    SandboxCondition {
        kind: "Ready".into(),
        status: status.into(),
        reason: None,
        message: None,
        last_transition_time: None,
    }
}

#[test]
fn status_readiness_requires_ready_true() {
    let not_ready = SandboxStatus {
        conditions: Some(vec![condition("False")]),
        ..Default::default()
    };
    assert!(!not_ready.is_ready());
    assert_eq!(not_ready.pod_ip(), None);

    let ready = SandboxStatus {
        conditions: Some(vec![condition("True")]),
        pod_i_ps: Some(vec!["10.0.0.6".into()]),
        ..Default::default()
    };
    assert!(ready.is_ready());
    assert_eq!(ready.pod_ip(), Some("10.0.0.6"));
}

#[test]
fn operating_mode_serializes_as_upstream_string_literals() {
    assert_eq!(OperatingMode::Running.as_str(), "Running");
    assert_eq!(OperatingMode::Suspended.as_str(), "Suspended");
}

#[test]
fn shutdown_policy_serializes_as_upstream_string_literals() {
    assert_eq!(ShutdownPolicy::Retain.as_str(), "Retain");
    assert_eq!(ShutdownPolicy::Delete.as_str(), "Delete");
}

#[test]
fn bearer_scheme_has_a_name() {
    assert_eq!(BearerAddon.scheme(), "brokerBearer");
}
