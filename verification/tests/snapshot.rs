use open_websandbox::snapshot::{
    archive_entries, check_entry, check_size, confine_entry, lexically_within, link_within,
    restore_outcome, skip_restore, workspace_non_empty, workspace_size, EntryKind, RestoreMeter,
    Stage, WalkEntry,
};

fn texts(v: &[&str]) -> Vec<String> {
    v.iter().map(|s| s.to_string()).collect()
}

#[test]
fn lexically_within_accepts_nested_rejects_escape() {
    let base = "/ws";
    assert!(lexically_within(base, "a.txt"));
    assert!(lexically_within(base, "sub/deep/x.bin"));
    assert!(lexically_within(base, "a/../b.txt"));
    // `..` escapes base.
    assert!(!lexically_within(base, "../escape"));
    assert!(!lexically_within(base, "sub/../../escape"));
    // Absolute entries rejected outright.
    assert!(!lexically_within(base, "/etc/evil"));
    assert!(!lexically_within(base, "/ws/../etc"));
}

#[test]
fn link_within_rejects_symlink_escape() {
    let base = "/ws";
    // In-base symlink target is fine.
    assert!(link_within(base, "link", "target.txt"));
    assert!(link_within(base, "sub/l", "../sibling"));
    // Absolute target and `..` escapes rejected.
    assert!(!link_within(base, "link", "/etc/passwd"));
    assert!(!link_within(base, "link", "../../etc/passwd"));
}

#[test]
fn nothing_climbs_above_the_base_on_the_way() {
    assert!(!lexically_within("/ws", "../ws/x"));
    assert!(!lexically_within("/ws", "a/../../ws/x"));
    assert!(lexically_within("/ws", "a/../b/../c"));
    assert!(!link_within("/ws", "l", "../ws/x"));
    assert!(link_within("/ws", "a/b/l", "../../x"));
    // The link lies where its own `..` leads.
    assert!(!link_within("/ws", "a/../l", "../x"));
    assert!(link_within("/ws", "a/../l", "x"));
    assert!(link_within("/ws", "a/../b/l", "../x"));
    let refused = check_entry("a/../l", Some("../x"), "/ws").unwrap_err();
    assert_eq!(refused, "restore archive entry escapes workspace: a/../l");
    // An absolute link name counts from the root.
    assert!(link_within("/ws", "/ws/a/l", "../x"));
    assert!(!link_within("/ws", "/other/l", "x"));
    assert!(!link_within("ws", "/ws/l", "x"));
}

#[test]
fn what_is_packed_can_be_unpacked() {
    let entries = archive_entries(&texts(&["/ws", "/ws/a/b.txt", "/ws/a/l"]), "/ws");
    for e in &entries {
        assert!(check_entry(&e.name, None, "/elsewhere/ws").is_ok(), "{}", e.name);
    }
    assert!(check_entry("a/l", Some("../c/d"), "/elsewhere/ws").is_ok());
}

#[test]
fn restore_rejects_path_traversal_nothing_outside_base() {
    for (name, link) in [
        ("../OUTSIDE_MARKER", None),
        ("/absolute/evil", None),
        ("lnk", Some("/etc")),
    ] {
        assert!(!confine_entry(name, link, "/ws"), "{name}");
        assert!(check_entry(name, link, "/ws").is_err(), "{name}");
    }
    assert!(confine_entry("ok/file", None, "/ws"));
    assert!(check_entry("ok/link", Some("file"), "/ws").is_ok());
}

fn file_of(size: u64) -> WalkEntry {
    WalkEntry {
        kind: EntryKind::File,
        size,
    }
}

#[test]
fn snapshot_refuses_oversized() {
    let entries = vec![
        file_of(600),
        WalkEntry {
            kind: EntryKind::Dir,
            size: 4096,
        },
        WalkEntry {
            kind: EntryKind::Symlink,
            size: 12,
        },
        file_of(500),
    ];
    assert_eq!(workspace_size(&entries), Some(1112));
    assert_eq!(check_size(&entries, 1111).unwrap_err().status(), 413);
    assert!(check_size(&entries, 1112).is_ok());
    assert_eq!(workspace_size(&vec![file_of(u64::MAX), file_of(1)]), None);
}

#[test]
fn archive_names_are_relative() {
    let entries = archive_entries(&texts(&["/ws/a/b.txt", "/ws/c"]), "/ws");
    let names: Vec<&str> = entries.iter().map(|e| e.name.as_str()).collect();
    assert_eq!(names, ["a/b.txt", "c"]);
    assert_eq!(entries[0].path, "/ws/a/b.txt");
}

#[test]
fn restore_proceeds_when_only_reserved_dir_present() {
    assert!(!workspace_non_empty(Some(&texts(&[".open-websandbox"]))));
    assert!(!workspace_non_empty(Some(&vec![])));
    assert!(!workspace_non_empty(None));
}

#[test]
fn restore_skips_when_workspace_non_empty() {
    assert!(workspace_non_empty(Some(&texts(&[
        ".open-websandbox",
        "user.txt"
    ]))));
    let body = skip_restore();
    assert!(!body.restored);
    assert_eq!(body.bytes, 0);
    assert_eq!(body.skipped, Some("workspace-non-empty"));
}

#[test]
fn restore_refuses_oversized() {
    let mut meter = RestoreMeter::new(10);
    assert!(meter.take_in(10));
    assert!(!meter.is_exceeded());
    assert!(!meter.take_in(1));
    assert!(meter.is_exceeded());
    assert_eq!(meter.received(), 11);
    let err = restore_outcome(&meter, None, &Stage::Done, &Stage::Done).unwrap_err();
    assert_eq!(err.status(), 413);
}

#[test]
fn restore_oversize_returns_413() {
    let mut meter = RestoreMeter::new(64);
    assert!(!meter.take_in(4096));
    let err = restore_outcome(&meter, None, &Stage::Done, &Stage::Done).unwrap_err();
    assert_eq!(err.status(), 413);
    assert_eq!(
        err.body().detail,
        "restore stream exceeds MAX_WORKSPACE_BYTES (64)"
    );
}

fn under_cap() -> RestoreMeter {
    let mut meter = RestoreMeter::new(100);
    assert!(meter.take_in(42));
    meter
}

#[test]
fn restore_reports_what_came_in() {
    let body = restore_outcome(&under_cap(), None, &Stage::Done, &Stage::Done).unwrap();
    assert!(body.restored);
    assert_eq!(body.bytes, 42);
    assert_eq!(body.skipped, None);
}

#[test]
fn restore_invalid_zstd_returns_error_not_ok() {
    let decode = Stage::Failed("bad magic".to_string());
    let err = restore_outcome(&under_cap(), None, &decode, &Stage::Done).unwrap_err();
    assert_eq!(err.status(), 500);
}

#[test]
fn restore_corrupt_tar_returns_500() {
    let extract = Stage::Failed("unexpected EOF".to_string());
    let err = restore_outcome(&under_cap(), None, &Stage::Done, &extract).unwrap_err();
    assert_eq!(err.status(), 500);
    let lost = Stage::Lost("panicked".to_string());
    let err = restore_outcome(&under_cap(), None, &lost, &Stage::Done).unwrap_err();
    assert_eq!(err.status(), 500);
}

#[test]
fn restore_client_disconnect_midstream_is_error_not_ok() {
    assert!(restore_outcome(&under_cap(), Some("reset"), &Stage::Done, &Stage::Done).is_err());
}

#[test]
fn restore_truncated_zstream_returns_500() {
    let decode = Stage::Failed("unexpected end of file".to_string());
    let err = restore_outcome(&under_cap(), None, &decode, &Stage::Done).unwrap_err();
    assert_eq!(err.status(), 500);
    assert_eq!(
        err.body().detail,
        "restore pipeline failed (zstd decode): unexpected end of file"
    );
}
