use open_websandbox::archive::{
    archive_disposition, no_file_field, resolve_paths, upload_basename, upload_failed, upload_path,
    upload_target_dir, zip_entries, UploadStep,
};
use open_websandbox::decode::{decode_text, decode_utf16, decode_utf32};
use open_websandbox::files::{
    apply_replacement, attachment, change_failed, check_is_dir, check_is_file, check_move,
    content_type, count_occurrences, delete_entry, directory_to_list, get_cwd, image_in,
    image_type, list_dir, list_failed, list_impl, parent_to_create, read_failed, read_file,
    replace, tool_path, written, EntryStat, ReplacementChunk,
};

const WORKDIR: &str = "/srv/ws";

fn no_links(_path: &str) -> Option<String> {
    None
}

fn chunk(
    target: &str,
    replacement: &str,
    start_line: Option<usize>,
    end_line: Option<usize>,
    allow_multiple: bool,
) -> ReplacementChunk {
    ReplacementChunk {
        target: target.to_string(),
        replacement: replacement.to_string(),
        start_line,
        end_line,
        allow_multiple,
    }
}

fn replaced(text: &str, c: ReplacementChunk) -> Result<String, u16> {
    replace(text.as_bytes(), &vec![c]).map_err(|e| e.status())
}

// --- folders ------------------------------------------------------------------

#[test]
fn cwd_carries_file_nav_root() {
    let doc = get_cwd(WORKDIR);
    assert_eq!(doc.root, WORKDIR);
    assert_eq!(doc.cwd, WORKDIR);
    assert_eq!(doc.home, WORKDIR);
}

#[test]
fn set_cwd_requires_existing_dir() {
    let err = check_is_dir(false).unwrap_err();
    assert_eq!(err.status(), 404);
    assert!(check_is_dir(true).is_ok());
}

#[test]
fn read_missing_is_404() {
    assert_eq!(check_is_file(false).unwrap_err().status(), 404);
    assert!(check_is_file(true).is_ok());
    assert_eq!(read_failed("boom").status(), 500);
    assert_eq!(list_failed("boom").status(), 500);
    assert_eq!(change_failed("boom").status(), 400);
}

fn file_stat(size: u64, writable: bool) -> EntryStat {
    EntryStat {
        is_symlink: false,
        is_dir: false,
        target_is_dir: false,
        size,
        modified: 7,
        writable,
    }
}

fn dir_stat() -> EntryStat {
    EntryStat {
        is_symlink: false,
        is_dir: true,
        target_is_dir: true,
        size: 4096,
        modified: 8,
        writable: true,
    }
}

#[test]
fn list_entries() {
    let names = vec![
        "sub".to_string(),
        "b.txt".to_string(),
        "a.txt".to_string(),
        "gone".to_string(),
    ];
    let look = |p: &str| match p {
        "/srv/ws/a.txt" => Some(file_stat(3, true)),
        "/srv/ws/b.txt" => Some(file_stat(5, true)),
        "/srv/ws/sub" => Some(dir_stat()),
        _ => None,
    };
    let body = list_dir(WORKDIR, &names, true, &look);
    assert_eq!(body.dir, WORKDIR);
    let seen: Vec<(&str, &str)> = body
        .entries
        .iter()
        .map(|e| (e.name.as_str(), e.kind))
        .collect();
    for must in [("a.txt", "file"), ("b.txt", "file"), ("sub", "directory")] {
        assert!(seen.contains(&must), "missing {must:?}: {seen:?}");
    }
    let b = body.entries.iter().find(|e| e.name == "b.txt").unwrap();
    assert_eq!(b.size, 5);
    assert_eq!(b.modified, 7);
}

#[test]
fn list_carries_writable_flags() {
    let names = vec!["writable.txt".to_string(), "locked.txt".to_string()];
    let look = |p: &str| Some(file_stat(1, p == "/srv/ws/writable.txt"));
    let doc = list_dir(WORKDIR, &names, true, &look);
    assert!(doc.writable, "dir is writable");
    assert_eq!(doc.entries.len(), 2);
    for e in &doc.entries {
        assert_eq!(e.writable, e.name != "locked.txt", "{}", e.name);
    }
}

#[test]
fn directory_defaults_to_the_base() {
    assert_eq!(directory_to_list(None), ".");
    assert_eq!(directory_to_list(Some("sub")), "sub");
    assert_eq!(directory_to_list(Some(" Docs ")), "Docs");
    assert_eq!(directory_to_list(Some("NULL")), ".");
    assert_eq!(directory_to_list(Some("  ")), ".");
}

#[test]
fn list_entries_shape() {
    let names = vec!["sub".to_string(), "a.txt".to_string(), "gone".to_string()];
    let stat = |p: &str| match p {
        "/srv/ws/a.txt" => Some((false, 3)),
        "/srv/ws/sub" => Some((true, 4096)),
        _ => None,
    };
    let entries = list_impl(WORKDIR, &names, &stat);
    let a = entries.iter().find(|e| e.name == "a.txt").unwrap();
    assert!(!a.is_dir);
    assert_eq!(a.size, 3);
    let sub = entries.iter().find(|e| e.name == "sub").unwrap();
    assert!(sub.is_dir);
}

#[test]
fn tool_paths() {
    assert_eq!(tool_path(""), ".");
    assert_eq!(tool_path("a/b.txt"), "a/b.txt");
}

// --- reading ------------------------------------------------------------------

#[test]
fn write_read_round_trip() {
    let w = written("/srv/ws/dir/a.txt", "hello");
    assert_eq!(w.size, 5);
    assert!(w.path.ends_with("dir/a.txt"));
    let data = read_file("/srv/ws/dir/a.txt", b"hello".to_vec(), None, None).unwrap();
    assert_eq!(data.content, "hello");
    assert_eq!(data.total_lines, 1);
    // The size of what is written counts bytes.
    assert_eq!(written("/srv/ws/u", "h\u{e9}").size, 3);
}

#[test]
fn read_slices_one_indexed_inclusive_line_ranges() {
    let bytes = || b"one\ntwo\nthree\nfour\n".to_vec();
    let doc = read_file("/srv/ws/lines.txt", bytes(), Some(2), Some(3)).unwrap();
    assert_eq!(doc.total_lines, 4);
    assert_eq!(doc.content, "two\nthree\n");
    let zero = read_file("/srv/ws/lines.txt", bytes(), Some(0), None).unwrap_err();
    assert_eq!(zero.status(), 400);
    let over = read_file("/srv/ws/lines.txt", bytes(), Some(10), Some(12)).unwrap();
    assert_eq!(over.content, "");
}

#[test]
fn read_ranges_may_be_open() {
    let bytes = || b"one\ntwo\nthree".to_vec();
    let tail = read_file("/p", bytes(), Some(2), None).unwrap();
    assert_eq!(tail.content, "two\nthree");
    assert_eq!(tail.total_lines, 3);
    let head = read_file("/p", bytes(), None, Some(1)).unwrap();
    assert_eq!(head.content, "one\n");
    assert_eq!(
        read_file("/p", bytes(), None, Some(0)).unwrap_err().status(),
        400
    );
    assert_eq!(read_file("/p", bytes(), Some(3), Some(2)).unwrap().content, "");
}

#[test]
fn read_rejects_non_image_binaries_with_415() {
    let mut payload = vec![0x1f, 0x8b, 0x08, 0x00];
    payload.extend(vec![0u8; 64]);
    let err = read_file("/srv/ws/blob.bin", payload, None, None).unwrap_err();
    assert_eq!(err.status(), 415);
    assert!(err.body().detail.contains("Unsupported binary file type"));
}

#[test]
fn media_types() {
    assert_eq!(image_type("/srv/ws/a.png"), Some("image/png".to_string()));
    assert_eq!(image_type("/srv/ws/a.txt"), None);
    assert_eq!(image_in("image/gif".to_string()), Some("image/gif".to_string()));
    assert_eq!(image_in("text/plain".to_string()), None);
    assert_eq!(content_type("/srv/ws/site/index.html"), "text/html");
    assert_eq!(content_type("/srv/ws/unknown"), "application/octet-stream");
    assert_eq!(
        attachment("/srv/ws/tool.txt"),
        "attachment; filename=\"tool.txt\""
    );
}

// --- changes ------------------------------------------------------------------

#[test]
fn list_missing_dir_is_404() {
    assert_eq!(check_is_dir(false).unwrap_err().status(), 404);
}

#[test]
fn view_missing_is_404() {
    assert_eq!(check_is_file(false).unwrap_err().status(), 404);
}

#[test]
fn move_collision_is_409() {
    assert!(check_move(true, false).is_ok());
    assert_eq!(check_move(true, true).unwrap_err().status(), 409);
}

#[test]
fn move_missing_source_is_404() {
    assert_eq!(check_move(false, false).unwrap_err().status(), 404);
    assert_eq!(check_move(false, true).unwrap_err().status(), 404);
}

#[test]
fn delete_file_and_dir() {
    assert!(!delete_entry(Some(file_stat(1, true))).unwrap());
    assert!(delete_entry(Some(dir_stat())).unwrap());
    // A link to a folder counts as one.
    let link = EntryStat {
        is_symlink: true,
        is_dir: false,
        target_is_dir: true,
        ..file_stat(1, true)
    };
    assert!(delete_entry(Some(link)).unwrap());
}

#[test]
fn delete_missing_is_404() {
    assert_eq!(delete_entry(None).unwrap_err().status(), 404);
}

#[test]
fn parents_of_new_files() {
    assert_eq!(
        parent_to_create("/srv/ws/dir/a.txt"),
        Some("/srv/ws/dir".to_string())
    );
    assert_eq!(parent_to_create("/"), None);
}

#[test]
fn replace_single() {
    assert_eq!(
        replaced("hello world", chunk("hello", "goodbye", None, None, false)),
        Ok("goodbye world".to_string())
    );
}

#[test]
fn replace_requires_unique_unless_allow_multiple() {
    assert_eq!(
        replaced("x x x", chunk("x", "y", None, None, false)),
        Err(400)
    );
    assert_eq!(
        replaced("x x x", chunk("x", "y", None, None, true)),
        Ok("y y y".to_string())
    );
}

#[test]
fn replace_target_not_found() {
    assert_eq!(
        replaced("abc", chunk("zzz", "q", None, None, false)),
        Err(400)
    );
}

#[test]
fn replace_directory_is_404() {
    assert_eq!(check_is_file(false).unwrap_err().status(), 404);
}

#[test]
fn replace_line_scoped() {
    assert_eq!(
        replaced("one\ntwo\nthree", chunk("two", "TWO", Some(2), Some(2), false)),
        Ok("one\nTWO\nthree".to_string())
    );
}

#[test]
fn replace_line_scoped_open_end() {
    assert_eq!(
        replaced("a\nb\nc\nd", chunk("c", "C", Some(3), None, false)),
        Ok("a\nb\nC\nd".to_string())
    );
}

#[test]
fn replace_line_scoped_inverted_range_noop() {
    assert_eq!(
        replaced("one\ntwo\nthree", chunk("two", "TWO", Some(5), Some(2), false)),
        Ok("one\ntwo\nthree".to_string())
    );
}

#[test]
fn replacements_follow_each_other() {
    let both = vec![
        chunk("a", "b", None, None, false),
        chunk("b", "c", None, None, true),
    ];
    assert_eq!(replace(b"a b", &both).unwrap(), "c c");
    assert_eq!(
        apply_replacement("p\nq".to_string(), &chunk("q", "r", Some(2), Some(9), false)).unwrap(),
        "p\nr"
    );
    assert_eq!(count_occurrences("aaaa", "aa"), 2);
    assert_eq!(count_occurrences("abc", ""), 0);
}

// --- uploads and archives -----------------------------------------------------

#[test]
fn upload_writes_file_to_base() {
    let dir = upload_target_dir(None, WORKDIR, "/", &no_links).unwrap();
    assert_eq!(dir, WORKDIR);
    assert_eq!(
        upload_path(&dir, "hello.txt", WORKDIR).unwrap(),
        "/srv/ws/hello.txt"
    );
}

#[test]
fn upload_with_directory_param() {
    let dir = upload_target_dir(Some("sub"), WORKDIR, "/", &no_links).unwrap();
    assert_eq!(upload_path(&dir, "a.txt", WORKDIR).unwrap(), "/srv/ws/sub/a.txt");
    assert_eq!(
        upload_target_dir(Some("../.."), WORKDIR, "/", &no_links)
            .unwrap_err()
            .status(),
        400
    );
}

#[test]
fn upload_basename_strips_traversal() {
    assert_eq!(upload_basename(Some("../evil.txt")), "evil.txt");
    assert_eq!(upload_basename(Some("/a/b/c.txt")), "c.txt");
    assert_eq!(upload_basename(Some("plain.txt")), "plain.txt");
    // A name that is no name is replaced.
    assert_eq!(upload_basename(Some("a/..")), "upload");
    assert_eq!(upload_basename(None), "upload");
    assert_eq!(upload_path("/etc", "x", WORKDIR).unwrap_err().status(), 400);
}

#[test]
fn upload_no_file_field_is_400() {
    assert_eq!(no_file_field().status(), 400);
    assert_eq!(no_file_field().body().detail, "no 'file' field");
    assert_eq!(upload_failed(UploadStep::Multipart, "bad").status(), 400);
}

#[test]
fn archive_single_file() {
    let found = |_: &str| true;
    let resolved =
        resolve_paths(&vec!["note.txt".to_string()], WORKDIR, "/", &no_links, &found).unwrap();
    assert_eq!(resolved, vec!["/srv/ws/note.txt".to_string()]);
    assert!(archive_disposition(&resolved).contains(r#"filename="note.txt.zip""#));
    let entries = zip_entries(&resolved[0], false, &vec![]);
    assert_eq!(entries.len(), 1);
    assert_eq!(entries[0].name, "note.txt");
    assert_eq!(entries[0].path, "/srv/ws/note.txt");
}

#[test]
fn archive_directory_recurses() {
    let files = vec![
        "/srv/ws/proj/root.md".to_string(),
        "/srv/ws/proj/src/a.rs".to_string(),
    ];
    let entries = zip_entries("/srv/ws/proj", true, &files);
    let names: Vec<&str> = entries.iter().map(|e| e.name.as_str()).collect();
    assert_eq!(names, ["proj/root.md", "proj/src/a.rs"]);
    assert_eq!(entries[1].path, "/srv/ws/proj/src/a.rs");
}

#[test]
fn archive_missing_path_is_404() {
    let found = |_: &str| false;
    let err =
        resolve_paths(&vec!["nope.txt".to_string()], WORKDIR, "/", &no_links, &found).unwrap_err();
    assert_eq!(err.status(), 404);
}

#[test]
fn archive_empty_paths_is_400() {
    let found = |_: &str| true;
    let err = resolve_paths(&vec![], WORKDIR, "/", &no_links, &found).unwrap_err();
    assert_eq!(err.status(), 400);
}

#[test]
fn archive_of_several_paths_has_a_fixed_name() {
    let two = vec!["/srv/ws/a".to_string(), "/srv/ws/b".to_string()];
    assert!(archive_disposition(&two).contains(r#"filename="download.zip""#));
}

// --- decoding -----------------------------------------------------------------

#[test]
fn decode_strips_utf8_bom() {
    let raw = [0xef, 0xbb, 0xbf, b'h', b'i'];
    assert_eq!(decode_text(&raw).unwrap(), "hi");
}

#[test]
fn decode_reads_the_marked_encodings() {
    assert_eq!(decode_text(b"plain").unwrap(), "plain");
    assert_eq!(decode_text(&[0xff, 0xfe, b'h', 0, b'i', 0]).unwrap(), "hi");
    assert_eq!(decode_text(&[0xfe, 0xff, 0, b'h', 0, b'i']).unwrap(), "hi");
    assert_eq!(
        decode_text(&[0xff, 0xfe, 0, 0, 0x0a, 0xf6, 0x01, 0]).unwrap(),
        "\u{1f60a}"
    );
    assert_eq!(
        decode_text(&[0, 0, 0xfe, 0xff, 0, 0, 0, b'A']).unwrap(),
        "A"
    );
    assert_eq!(
        decode_utf16(&[0x3d, 0xd8, 0x0a, 0xde], false).unwrap(),
        "\u{1f60a}"
    );
    assert_eq!(decode_utf16(&[0xd8, 0x3d], true), None);
    assert_eq!(decode_utf32(&[0, 0x11, 0, 0], true), None);
}
