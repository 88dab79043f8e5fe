use open_websandbox::execute::{cap, run_command, timeout_secs, RunOutcome};
use open_websandbox::metrics::{request_label, route_label};
use open_websandbox::system::{
    expand_template, get_info, grounding_from_env, probe_python_version, render_default_prompt,
    slot_value, system_prompt, version_from, Grounding, ProbeOutput, Uname,
};

// --- commands -----------------------------------------------------------------

#[test]
fn cap_leaves_short_output_alone() {
    assert_eq!(cap("hello", 32), "hello");
    // Exactly max is NOT truncated.
    assert_eq!(cap(&"X".repeat(32), 32).len(), 32);
}

#[test]
fn cap_truncates_with_message() {
    let s = "X".repeat(2000);
    let out = cap(&s, 32);
    assert!(out.contains("...[truncated:"), "{out}");
    assert!(out.contains("1968 more bytes"), "{out}");
    assert!(out.len() < 2000);
}

#[test]
fn cap_keeps_whole_characters() {
    let out = cap(&"\u{e9}".repeat(10), 4);
    assert!(out.starts_with("\u{e9}\u{e9}\u{e9}\u{e9}"), "{out}");
    assert!(!out.starts_with("\u{e9}\u{e9}\u{e9}\u{e9}\u{e9}"), "{out}");
}

fn ended(out: &[u8], err: &[u8], code: Option<i32>) -> RunOutcome {
    RunOutcome::Ended(Some(out.to_vec()), Some(err.to_vec()), code)
}

#[test]
fn exit_code_nonzero() {
    let out = run_command(ended(b"", b"", Some(7)), 100).unwrap();
    assert_eq!(out.exit_code, 7);
    assert!(!out.timed_out);
}

#[test]
fn exit_code_zero() {
    assert_eq!(run_command(ended(b"", b"", Some(0)), 100).unwrap().exit_code, 0);
}

#[test]
fn stdout_capture() {
    let out = run_command(ended(b"hello\n", b"", Some(0)), 100).unwrap();
    assert_eq!(out.stdout, "hello\n");
    assert_eq!(out.stderr, "");
    assert_eq!(out.exit_code, 0);
}

#[test]
fn stderr_split() {
    let out = run_command(ended(b"out\n", b"err\n", Some(0)), 100).unwrap();
    assert!(out.stdout.contains("out") && !out.stdout.contains("err"));
    assert!(out.stderr.contains("err") && !out.stderr.contains("out"));
}

#[test]
fn truncates_above_max_out() {
    let out = run_command(ended(&[b'X'; 2000], b"", Some(0)), 32).unwrap();
    assert!(out.stdout.contains("...[truncated:"), "{}", out.stdout);
    assert!(out.stdout.contains("1968 more bytes"), "{}", out.stdout);
    assert!(out.stdout.len() < 2000);
}

#[test]
fn at_max_out_is_not_truncated() {
    let out = run_command(ended(&[b'X'; 32], b"", Some(0)), 32).unwrap();
    assert!(!out.stdout.contains("truncated"), "{}", out.stdout);
    assert_eq!(out.stdout.len(), 32);
}

#[test]
fn timeout_returns_124() {
    let out = run_command(RunOutcome::TimedOut, 100).unwrap();
    assert_eq!(out.exit_code, 124);
    assert!(out.timed_out);
}

#[test]
fn broken_output_is_replaced() {
    let out = run_command(ended(&[b'a', 0xff], b"", Some(0)), 100).unwrap();
    assert_eq!(out.stdout, "a\u{fffd}");
}

#[test]
fn commands_that_fail_to_run() {
    let out = run_command(RunOutcome::NotStarted("no shell".to_string()), 100).unwrap();
    assert_eq!(out.exit_code, 1);
    assert_eq!(out.stderr, "runtime error: no shell");
    let err = run_command(RunOutcome::NotReaped("lost".to_string()), 100).unwrap_err();
    assert_eq!(err.status(), 500);
}

#[test]
fn timeouts_stay_in_bounds() {
    assert_eq!(timeout_secs(None, 120, 600), 120);
    assert_eq!(timeout_secs(Some(5), 120, 600), 5);
    assert_eq!(timeout_secs(Some(0), 120, 600), 1);
    assert_eq!(timeout_secs(Some(10_000), 120, 600), 600);
}

// --- metrics labels -----------------------------------------------------------

#[test]
fn static_routes_map_to_themselves() {
    for r in [
        "/",
        "/healthz",
        "/readyz",
        "/metrics",
        "/execute",
        "/files/read",
    ] {
        assert_eq!(route_label(r), r, "{r} should map to itself");
    }
}

#[test]
fn every_static_route_maps_to_itself() {
    for r in [
        "/files/search",
        "/files/matches",
        "/files/display",
        "/files/compare",
        "/system",
        "/info",
        "/api/config",
        "/skills",
        "/skills/read",
    ] {
        assert_eq!(route_label(r), r, "{r} should map to itself");
    }
}

#[test]
fn file_path_routes_collapse_to_template() {
    assert_eq!(route_label("/download/a/b/c.txt"), "/download/{file_path}");
    assert_eq!(route_label("/list/sub/dir"), "/list/{file_path}");
    assert_eq!(route_label("/exists/missing"), "/exists/{file_path}");
}

#[test]
fn terminal_id_collapses_to_template() {
    assert_eq!(route_label("/api/terminals/pty-7"), "/api/terminals/{id}");
}

#[test]
fn unknown_route_falls_back_unmatched() {
    assert_eq!(route_label("/totally/made/up"), "unmatched");
}

#[test]
fn request_without_a_route_is_unmatched() {
    assert_eq!(request_label(None), "unmatched");
    assert_eq!(request_label(Some("/execute")), "/execute");
}

// --- the system prompt --------------------------------------------------------

fn synthetic() -> Grounding {
    Grounding {
        os: "Linux".into(),
        kernel: "6.1.0-13-amd64".into(),
        arch: "x86_64".into(),
        hostname: "sandbox-7f9a".into(),
        user: "sandbox".into(),
        shell: "/bin/bash".into(),
        python_version: Some("3.11.2".into()),
        home: "/home/sandbox".into(),
    }
}

#[test]
fn default_prompt_is_upstream_verbatim() {
    let expected = "You have access to a computer running Linux 6.1.0-13-amd64 (x86_64) \
        on host \"sandbox-7f9a\" as user 'sandbox' with /bin/bash. \
        Python 3.11.2 is available.\n\n\
        Use your tools to directly interact with the system \u{2014} run commands, \
        read and write files, and search the filesystem. \
        Prefer verifying the current state before making changes. \
        When running commands, check the output to confirm success. \
        If a command produces no output, that typically means it succeeded.";
    assert_eq!(render_default_prompt(&synthetic(), ""), expected);
}

#[test]
fn python_sentence_omitted_when_unavailable() {
    let mut g = synthetic();
    g.python_version = None;
    let p = render_default_prompt(&g, "");
    assert!(!p.contains("Python"));
    assert!(
        p.contains("with /bin/bash.\n\nUse your tools"),
        "no stray space before the paragraph break: {p:?}"
    );
}

#[test]
fn operator_info_is_appended() {
    let p = render_default_prompt(&synthetic(), "Managed by the physics dept.");
    assert!(p.ends_with("\n\nManaged by the physics dept."));
}

#[test]
fn template_expands_upstream_key_set() {
    let g = synthetic();
    let out = expand_template("{{os}} {{kernel}} {{arch}} {{hostname}} {{user}} {{shell}} {{python_version}} {{home}}", &g);
    assert_eq!(
        out,
        "Linux 6.1.0-13-amd64 x86_64 sandbox-7f9a sandbox /bin/bash 3.11.2 /home/sandbox"
    );
}

#[test]
fn template_tolerates_spacing_and_unknown_keys() {
    let g = synthetic();
    assert_eq!(
        expand_template("{{ os }}|{{os}}|{{  os  }}", &g),
        "Linux|Linux|Linux"
    );
    assert_eq!(expand_template("{{nope}} {{ os }}", &g), "{{nope}} Linux");
}

#[test]
fn template_python_falls_back_to_unknown() {
    let mut g = synthetic();
    g.python_version = None;
    assert_eq!(expand_template("{{python_version}}", &g), "unknown");
}

#[test]
fn template_slots_are_taken_from_the_left() {
    let g = synthetic();
    assert_eq!(expand_template("{{{os}}}", &g), "{Linux}");
    assert_eq!(expand_template("{{os}{{os}}", &g), "{{os}Linux");
    assert_eq!(expand_template("{{ }} {{a-b}} {{\u{e4}}}", &g), "{{ }} {{a-b}} {{\u{e4}}}");
    assert_eq!(expand_template("{{\n\u{a0}os\t}}", &g), "Linux");
    assert_eq!(expand_template("no slots", &g), "no slots");
    assert_eq!(slot_value("home", "{{home}}", &g), "/home/sandbox");
}

#[test]
fn system_prompt_override_expands_upstream_template_vars() {
    let mut g = synthetic();
    g.shell = "/bin/sh".into();
    assert_eq!(
        system_prompt(
            "host={{hostname}} shell={{shell}} os={{os}} {{unknown}}",
            "",
            &g
        ),
        "host=sandbox-7f9a shell=/bin/sh os=Linux {{unknown}}"
    );
}

#[test]
fn system_appends_operator_info_when_set() {
    let prompt = system_prompt("", "Managed by the e2e lab.", &synthetic());
    assert!(prompt.starts_with("You have access to a computer running Linux "));
    assert!(prompt.ends_with("\n\nManaged by the e2e lab."));
}

#[test]
fn info_404s_like_upstreams_unregistered_route_when_unset() {
    let err = get_info("").unwrap_err();
    assert_eq!(err.status(), 404);
    assert_eq!(err.body().detail, "Not Found");
}

#[test]
fn info_returns_operator_text_when_set() {
    assert_eq!(
        get_info("Physics department GPU-free sandbox").unwrap(),
        "Physics department GPU-free sandbox"
    );
}

#[test]
fn grounding_reads_the_machine() {
    let uname = Uname {
        sysname: "Linux".into(),
        release: "6.9".into(),
        machine: "aarch64".into(),
        nodename: "box".into(),
    };
    let g = grounding_from_env(
        Some(&uname),
        Some("ada"),
        Some("/home/ada"),
        None,
        "/bin/zsh",
    );
    assert_eq!(
        (g.os.as_str(), g.kernel.as_str(), g.arch.as_str()),
        ("Linux", "6.9", "aarch64")
    );
    assert_eq!((g.hostname.as_str(), g.user.as_str()), ("box", "ada"));
    assert_eq!((g.shell.as_str(), g.home.as_str()), ("/bin/zsh", "/home/ada"));
    let g = grounding_from_env(None, None, None, Some("/root"), "/bin/sh");
    assert_eq!(g.home, "/root");
}

#[test]
fn python_version_is_probed() {
    let ok = |out: &str, err: &str| ProbeOutput {
        success: true,
        stdout: out.as_bytes().to_vec(),
        stderr: err.as_bytes().to_vec(),
    };
    assert_eq!(
        version_from(&ok("Python 3.12.1\n", "")),
        Some("3.12.1".to_string())
    );
    let failed = ProbeOutput {
        success: false,
        ..ok("Python 3.12.1\n", "")
    };
    assert_eq!(version_from(&failed), None);
    let run = |cmd: &str| {
        if cmd == "python3" {
            None
        } else {
            Some(ok("Python 3.9.0\n", ""))
        }
    };
    assert_eq!(probe_python_version(&run), Some("3.9.0".to_string()));
    assert_eq!(probe_python_version(&|_: &str| None), None);
}
