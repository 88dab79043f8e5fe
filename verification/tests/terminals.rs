use open_websandbox::clock::{civil_from_days, id_from, iso_utc, now_iso_utc, random_id};
use open_websandbox::scrollback::{read_scrollback, scrollback_path, Scrollback};
use open_websandbox::terminals::{
    apply_control, header_str, relay_step, resize_from, spawn_failed, Attach, CreateStep,
    RelayAction, RelayEvent, TerminalRegistry, CLOSE_BUSY, CLOSE_UNKNOWN,
};

fn all_alive(_serial: u64) -> bool {
    true
}

fn all_dead(_serial: u64) -> bool {
    false
}

/// Starts a session as a request for one does; the pid is made up.
fn create(reg: &mut TerminalRegistry, id: &str, cap: u32, pid: u32) -> Result<(u64, u32), u16> {
    let (step, _gone) = reg.begin_create(id, cap, &all_alive, &all_alive);
    match step {
        CreateStep::Reuse(r) => Ok((u64::MAX, r.pid)),
        CreateStep::Full(e) => Err(e.status()),
        CreateStep::Spawn => {
            let (serial, r) = reg.insert(id, "2026-01-01T00:00:00.000000Z", pid, 16, b"");
            assert_eq!(r.id, id);
            Ok((serial, r.pid))
        }
    }
}

// --- dates and identifiers ----------------------------------------------------

#[test]
fn civil_from_days_known_dates() {
    // Unix epoch.
    assert_eq!(civil_from_days(0), (1970, 1, 1));
    // 2024-02-29 (leap day) — 19_782 days after the Unix epoch.
    assert_eq!(civil_from_days(19_782), (2024, 2, 29));
    // 2026-01-01 — 20_454 days after the Unix epoch.
    assert_eq!(civil_from_days(20_454), (2026, 1, 1));
    // 2000-03-01 (the day after the 2000 leap day) — 11_017 days.
    assert_eq!(civil_from_days(11_017), (2000, 3, 1));
    // 2025-06-15 — 20_254 days.
    assert_eq!(civil_from_days(20_254), (2025, 6, 15));
}

#[test]
fn civil_from_days_before_the_epoch() {
    assert_eq!(civil_from_days(-1), (1969, 12, 31));
    assert_eq!(civil_from_days(-719_468), (0, 3, 1));
}

#[test]
fn now_iso_utc_is_well_formed() {
    let s = now_iso_utc();
    assert!(s.ends_with('Z'), "{s}");
    // YYYY-MM-DDTHH:MM:SS.ffffffZ  (27 chars)
    assert_eq!(s.len(), 27, "{s}");
    assert_eq!(s.as_bytes()[4], b'-');
    assert_eq!(s.as_bytes()[10], b'T');
    assert_eq!(s.as_bytes()[26], b'Z');
}

#[test]
fn timestamps_are_exact() {
    assert_eq!(iso_utc(0, 0), "1970-01-01T00:00:00.000000Z");
    assert_eq!(iso_utc(1_709_164_799, 999_999), "2024-02-28T23:59:59.999999Z");
    assert_eq!(iso_utc(-1, 5), "1969-12-31T23:59:59.000005Z");
}

#[test]
fn random_ids_are_unique_and_hex() {
    let mut counter: u64 = 0;
    let a = random_id(&mut counter);
    let b = random_id(&mut counter);
    assert_ne!(a, b);
    assert_eq!(a.len(), 8);
    assert!(a.chars().all(|c| c.is_ascii_hexdigit()));
}

#[test]
fn ids_come_from_the_counter_and_the_clock() {
    assert_ne!(id_from(0, 1, 2), id_from(1, 1, 2));
    assert_eq!(id_from(3, 1, 2), id_from(3, 1, 2));
    assert_eq!(id_from(u64::MAX, u64::MAX, 999_999_999).len(), 8);
}

// --- recent output ------------------------------------------------------------

#[test]
fn scrollback_ring_evicts_oldest_beyond_cap() {
    let mut ring = Scrollback::new(8);
    ring.push(b"abcdefghij"); // 10 bytes > cap 8 → keep the last 8
    assert_eq!(ring.snapshot(), b"cdefghij");
    ring.push(b"XY"); // one more eviction
    assert_eq!(ring.snapshot(), b"efghijXY");
}

#[test]
fn scrollback_ring_disabled_at_cap_zero() {
    // cap == 0 disables capture entirely — nothing may be buffered.
    let mut ring = Scrollback::new(0);
    ring.push(b"data");
    assert!(ring.snapshot().is_empty());
    assert!(ring.is_empty());
}

#[test]
fn scrollback_files_have_plain_names() {
    assert_eq!(
        scrollback_path("/ws", "abc-1"),
        Some("/ws/.open-websandbox/scrollback/abc-1.log".to_string())
    );
    assert_eq!(scrollback_path("/ws", "../x"), None);
    assert_eq!(scrollback_path("/ws", ""), None);
}

#[test]
fn scrollback_files_are_read_from_their_tail() {
    let len = |_: &str| Some(6u64);
    let read = |_: &str, from: u64| Some(b"abcdef"[from as usize..].to_vec());
    assert_eq!(read_scrollback("/ws", "id", 4, &len, &read), b"cdef");
    assert_eq!(read_scrollback("/ws", "id", 9, &len, &read), b"abcdef");
    assert!(read_scrollback("/ws", "id", 0, &len, &read).is_empty());
    assert!(read_scrollback("/ws", "a/b", 4, &len, &read).is_empty());
    assert!(read_scrollback("/ws", "id", 4, &|_: &str| None, &read).is_empty());
}

#[test]
fn flush_scrollbacks_noop_when_disabled() {
    let mut reg = TerminalRegistry::new();
    let (serial, _) = create(&mut reg, "t", 8, 1).unwrap();
    reg.record(serial, b"output");
    assert!(reg.flush_scrollbacks("/ws", 0).is_empty());
    let files = reg.flush_scrollbacks("/ws", 16);
    assert_eq!(files.len(), 1);
    assert_eq!(files[0].path, "/ws/.open-websandbox/scrollback/t.log");
    assert_eq!(files[0].bytes, b"output");
}

// --- sessions -----------------------------------------------------------------

#[test]
fn post_creates_session_with_expected_shape() {
    let mut reg = TerminalRegistry::default();
    let (step, gone) = reg.begin_create("abc", 8, &all_alive, &all_alive);
    assert!(matches!(step, CreateStep::Spawn));
    assert!(gone.is_empty());
    assert!(reg.has_serial());
    let (_, r) = reg.insert("abc", "2026-01-01T00:00:00.000000Z", 77, 16, b"");
    assert_eq!((r.id.as_str(), r.pid), ("abc", 77));
    assert_eq!(r.created_at, "2026-01-01T00:00:00.000000Z");
    assert_eq!(reg.len(), 1);
}

#[test]
fn get_returns_info_then_404_after_delete() {
    let mut reg = TerminalRegistry::new();
    let (serial, _) = create(&mut reg, "g1", 8, 5).unwrap();
    assert_eq!(reg.get("g1", &all_alive).0.unwrap().id, "g1");
    let (status, gone) = reg.kill("g1");
    assert_eq!(status.status, "deleted");
    assert_eq!(gone, Some(serial));
    assert_eq!(reg.get("g1", &all_alive).0.unwrap_err().status(), 404);
}

#[test]
fn delete_is_idempotent_for_missing() {
    let mut reg = TerminalRegistry::new();
    let (status, gone) = reg.kill("never-existed");
    assert_eq!(status.status, "deleted");
    assert_eq!(gone, None);
}

#[test]
fn list_reports_live_sessions() {
    let mut reg = TerminalRegistry::new();
    for id in ["L1", "L2"] {
        create(&mut reg, id, 8, 9).unwrap();
    }
    let (rows, gone) = reg.list(&all_alive);
    let ids: Vec<&str> = rows.iter().map(|r| r.id.as_str()).collect();
    assert!(ids.contains(&"L1") && ids.contains(&"L2"), "{ids:?}");
    assert!(gone.is_empty());
    let (rows, gone) = reg.list(&all_dead);
    assert!(rows.is_empty());
    assert_eq!(gone.len(), 2);
    assert_eq!(reg.len(), 0);
}

#[test]
fn a_live_session_is_resumed_under_its_id() {
    let mut reg = TerminalRegistry::new();
    create(&mut reg, "dup", 1, 11).unwrap();
    // Same id: the same shell, whatever the cap.
    assert_eq!(create(&mut reg, "dup", 1, 12), Ok((u64::MAX, 11)));
    // A dead leftover makes way.
    let (step, gone) = reg.begin_create("dup", 1, &all_dead, &all_alive);
    assert!(matches!(step, CreateStep::Spawn));
    assert_eq!(gone.len(), 1);
    // So does one that dies after the first look.
    reg.insert("dup", "t", 13, 16, b"");
    let (step, gone) = reg.begin_create("dup", 1, &all_alive, &all_dead);
    assert!(matches!(step, CreateStep::Spawn));
    assert_eq!(gone.len(), 1);
}

#[test]
fn cap_reached_is_429() {
    let mut reg = TerminalRegistry::new();
    create(&mut reg, "cap1", 1, 1).unwrap();
    let (step, _) = reg.begin_create("cap2", 1, &all_alive, &all_alive);
    match step {
        CreateStep::Full(e) => {
            assert_eq!(e.status(), 429);
            assert!(e.body().detail.contains("max"));
        }
        _ => panic!("the cap is reached"),
    }
}

#[test]
fn spawn_failure_is_503() {
    let err = spawn_failed("no such file");
    assert_eq!(err.status(), 503);
    assert!(err.body().detail.contains("pty spawn failed"));
}

#[test]
fn ws_unknown_session_closes_4004() {
    let mut reg = TerminalRegistry::new();
    assert_eq!((CLOSE_UNKNOWN, CLOSE_BUSY), (4004, 4009));
    assert!(matches!(
        reg.attach("nope", &all_alive).0,
        Attach::Close(4004, _)
    ));
    create(&mut reg, "dead", 8, 1).unwrap();
    let (a, gone) = reg.attach("dead", &all_dead);
    assert!(matches!(a, Attach::Close(4004, _)));
    assert!(gone.is_some());
    assert_eq!(reg.len(), 0);
}

#[test]
fn a_second_client_is_turned_away() {
    let mut reg = TerminalRegistry::new();
    let (serial, _) = create(&mut reg, "s", 8, 1).unwrap();
    reg.record(serial, b"hello");
    match reg.attach("s", &all_alive).0 {
        Attach::Attached(n, replay) => {
            assert_eq!(n, serial);
            assert_eq!(replay, b"hello");
        }
        _ => panic!("the session is free"),
    }
    assert!(matches!(
        reg.attach("s", &all_alive).0,
        Attach::Close(4009, _)
    ));
    // The client leaves, the shell stays, and the next client resumes it.
    assert_eq!(reg.finish("s", serial, true, true, 100), None);
    assert_eq!(reg.len(), 1);
    assert!(matches!(
        reg.attach("s", &all_alive).0,
        Attach::Attached(_, _)
    ));
}

#[test]
fn ws_shell_exit_cleans_up() {
    let mut reg = TerminalRegistry::new();
    let (serial, _) = create(&mut reg, "ex", 8, 1).unwrap();
    reg.attach("ex", &all_alive);
    assert_eq!(reg.finish("ex", serial, false, false, 100), Some(serial));
    assert_eq!(reg.get("ex", &all_alive).0.unwrap_err().status(), 404);
    // A late end of an old session leaves a new one alone.
    create(&mut reg, "ex", 8, 2).unwrap();
    assert!(!reg.remove_if_eq("ex", serial));
    assert_eq!(reg.len(), 1);
}

#[test]
fn detached_sessions_are_swept_after_their_time() {
    let second: u128 = 1_000_000_000;
    let mut reg = TerminalRegistry::new();
    let (serial, _) = create(&mut reg, "d", 8, 1).unwrap();
    reg.attach("d", &all_alive);
    assert!(reg.sweep(60, 1_000 * second).is_empty(), "attached");
    reg.finish("d", serial, true, true, 1_000 * second);
    assert!(reg.sweep(60, 1_030 * second).is_empty(), "too early");
    assert!(reg.sweep(60, 1_060 * second).is_empty(), "not over yet");
    assert_eq!(reg.sweep(60, 1_060 * second + 1), vec![serial]);
    assert_eq!(reg.len(), 0);
}

#[test]
fn a_new_session_replays_the_flushed_tail() {
    let mut reg = TerminalRegistry::new();
    let (_, _) = reg.begin_create("r", 8, &all_alive, &all_alive);
    reg.insert("r", "t", 1, 4, b"earlier");
    match reg.attach("r", &all_alive).0 {
        Attach::Attached(_, replay) => assert_eq!(replay, b"lier"),
        _ => panic!("the session is free"),
    }
}

// --- the relay ----------------------------------------------------------------

#[test]
fn ws_control_frames_tolerated() {
    assert_eq!(
        apply_control(r#"{"type":"resize","cols":40,"rows":12}"#),
        Some((12, 40))
    );
    assert_eq!(
        apply_control(r#"{"type":"resize","rows":30,"cols":100}"#),
        Some((30, 100))
    );
    for frame in [
        r#"{"type":"something_else"}"#,
        r#"{"type":"auth","token":"anything"}"#,
        "<<<not json>>>",
        "[1]",
        r#"{"rows":1,"cols":1}"#,
    ] {
        assert_eq!(apply_control(frame), None, "{frame}");
        assert!(matches!(
            relay_step(RelayEvent::Text(frame.to_string())),
            RelayAction::Wait
        ));
    }
    assert_eq!(resize_from(None, Some(1), Some(1)), None);
    assert_eq!(resize_from(Some("resize"), None, None), Some((24, 80)));
    assert_eq!(
        resize_from(Some("resize"), Some(0), Some(70_000)),
        Some((1, 65_535))
    );
}

#[test]
fn relay_hands_bytes_through() {
    assert!(
        matches!(relay_step(RelayEvent::Input(b"ls\n".to_vec())), RelayAction::Feed(b) if b == b"ls\n")
    );
    assert!(
        matches!(relay_step(RelayEvent::Output(b"x".to_vec())), RelayAction::Send(b) if b == b"x")
    );
    assert!(matches!(
        relay_step(RelayEvent::ClientGone),
        RelayAction::Leave(true)
    ));
    assert!(matches!(
        relay_step(RelayEvent::OutputEnded),
        RelayAction::Leave(false)
    ));
    assert!(matches!(
        relay_step(RelayEvent::Heartbeat(false)),
        RelayAction::Leave(false)
    ));
    assert!(matches!(
        relay_step(RelayEvent::Heartbeat(true)),
        RelayAction::Wait
    ));
    assert!(matches!(relay_step(RelayEvent::Other), RelayAction::Wait));
    assert!(matches!(
        relay_step(RelayEvent::Text(
            r#"{"type":"resize","rows":30,"cols":100}"#.to_string()
        )),
        RelayAction::Resize(30, 100)
    ));
}

#[test]
fn blank_headers_count_as_absent() {
    assert_eq!(header_str(None), None);
    assert_eq!(header_str(Some("abc")), Some("abc"));
    assert_eq!(header_str(Some("")), None);
}
