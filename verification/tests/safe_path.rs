use open_websandbox::error::ApiError;
use open_websandbox::safe_path::{
    confirm_open, fd_realpath, is_valid_subdir, open_failed, realpath, request_base, safe_path,
    unquote, within, ELOOP,
};

const WORKDIR: &str = "/srv/ws";

/// The symbolic links of a file system: where each lies and what it holds.
struct Links(Vec<(&'static str, &'static str)>);

impl Links {
    fn none() -> Links {
        Links(Vec::new())
    }

    fn read(&self, path: &str) -> Option<String> {
        self.0
            .iter()
            .find(|(at, _)| *at == path)
            .map(|(_, to)| to.to_string())
    }

    fn safe_path(&self, rel: &str) -> Result<String, ApiError> {
        safe_path(rel, WORKDIR, "/", &|p: &str| self.read(p))
    }

    fn realpath(&self, input: &str) -> String {
        realpath(input, "/home/me", &|p: &str| self.read(p))
    }
}

fn assert_escape(rel: &str, links: &Links) {
    let err = links.safe_path(rel).expect_err("should be rejected");
    assert_eq!(err.status(), 400, "{rel:?} should be rejected");
    assert_eq!(err.body().detail, "path escapes workspace");
}

fn assert_within(rel: &str, links: &Links) -> String {
    let full = links.safe_path(rel).expect("should be allowed");
    assert!(
        full == WORKDIR || full.starts_with("/srv/ws/"),
        "{rel:?} escaped base: {full:?}"
    );
    full
}

#[test]
fn rejects_dotdot_traversal() {
    let wd = Links::none();
    assert_escape("../../etc/passwd", &wd);
    assert_escape("../../../etc/passwd", &wd);
}

#[test]
fn rejects_absolute_outside() {
    let wd = Links::none();
    assert_escape("/etc/passwd", &wd);
    assert_escape("/etc", &wd);
    assert_escape("/root/.ssh/id_rsa", &wd);
}

#[test]
fn rejects_url_encoded_traversal() {
    let wd = Links::none();
    // %2e%2e == "..", %2f == "/": decoded first, then confined.
    assert_escape("%2e%2e/%2e%2e/etc/passwd", &wd);
    assert_escape("%2e%2e%2f%2e%2e%2fetc%2fpasswd", &wd);
}

#[test]
fn rejects_url_encoded_absolute() {
    let wd = Links::none();
    assert_escape("%2fetc%2fpasswd", &wd);
}

#[test]
fn rejects_symlink_escape() {
    // A symlink inside base that points outside must not leak.
    let wd = Links(vec![
        ("/srv/ws/etc_link", "/etc"),
        ("/srv/ws/good_link", "/srv/ws/real"),
    ]);
    assert_escape("etc_link", &wd);
    assert_escape("etc_link/passwd", &wd);
    // ... but a symlink to somewhere still inside base is fine.
    assert_eq!(assert_within("good_link", &wd), "/srv/ws/real");
}

#[test]
fn accepts_legitimate_relative() {
    let wd = Links::none();
    assert_within("foo.txt", &wd);
    assert_within("a/b/c.txt", &wd);
    // An inner ".." that stays inside base is allowed.
    let via_dotdot = assert_within("a/../bar", &wd);
    assert_eq!(via_dotdot, "/srv/ws/bar");
}

#[test]
fn accepts_base_itself() {
    let wd = Links::none();
    assert_eq!(wd.safe_path(".").unwrap(), WORKDIR);
    assert_eq!(wd.safe_path("").unwrap(), WORKDIR);
}

#[test]
fn absolute_inside_base_honoured() {
    let wd = Links::none();
    let inside = "/srv/ws/nested/f.txt";
    assert_eq!(wd.safe_path(inside).unwrap(), inside);
}

#[test]
fn windows_separators_stay_confined() {
    let wd = Links::none();
    // Backslashes separate nothing: this is one file name under base.
    let res = assert_within("..\\..\\etc\\passwd", &wd);
    assert_eq!(res, "/srv/ws/..\\..\\etc\\passwd");
}

#[test]
fn unquote_decodes_percent_encoding() {
    assert_eq!(unquote("%2e%2e/%2e%2e/etc/passwd"), "../../etc/passwd");
    assert_eq!(unquote("%2fetc%2fpasswd"), "/etc/passwd");
    // `+` is NOT a space (unquote, not unquote_plus).
    assert_eq!(unquote("a+b"), "a+b");
    assert_eq!(unquote("plain.txt"), "plain.txt");
}

#[test]
fn unquote_keeps_what_is_no_escape_and_replaces_bad_utf8() {
    assert_eq!(unquote("100%"), "100%");
    assert_eq!(unquote("%zz"), "%zz");
    assert_eq!(unquote("%C3%A4"), "\u{e4}");
    assert_eq!(unquote("%ff"), "\u{fffd}");
}

#[test]
fn subdir_charset() {
    assert!(is_valid_subdir("chat1"));
    assert!(is_valid_subdir("a.b-c_d"));
    // slashes rejected
    assert!(!is_valid_subdir("a/b"));
    // passes the charset, caught by the escape check
    assert!(is_valid_subdir(".."));
    // too long
    assert!(!is_valid_subdir(&"x".repeat(65)));
    // empty
    assert!(!is_valid_subdir(""));
    // other chars
    assert!(!is_valid_subdir("a b"));
    assert!(!is_valid_subdir("a~b"));
}

#[test]
fn within_predicate() {
    let base = "/workspace";
    assert!(within("/workspace", base));
    assert!(within("/workspace/sub", base));
    assert!(!within("/workspacex", base));
    assert!(!within("/etc", base));
}

#[test]
fn realpath_follows_links_and_keeps_missing_tails() {
    let fs = Links(vec![
        ("/a", "b"),
        ("/b", "/c/d"),
        ("/c/d/up", "../e"),
        ("/x/loop", "/x/loop"),
    ]);
    assert_eq!(fs.realpath("/a"), "/c/d");
    assert_eq!(fs.realpath("/a/missing/tail"), "/c/d/missing/tail");
    assert_eq!(fs.realpath("/a/up/f"), "/c/e/f");
    // ".." comes after the link is followed.
    assert_eq!(fs.realpath("/a/.."), "/c");
    assert_eq!(fs.realpath("rel//x/./y"), "/home/me/rel/x/y");
    assert_eq!(fs.realpath("/../.."), "/");
    // A link that leads to itself ends the search.
    assert!(fs.realpath("/x/loop").starts_with("/x"));
}

fn base_of(subdir: Option<&str>) -> Result<(String, bool), ApiError> {
    request_base(WORKDIR, subdir, "/", &|_: &str| None).map(|b| (b.path, b.create))
}

#[test]
fn request_base_smoke() {
    assert_eq!(base_of(None).unwrap(), (WORKDIR.to_string(), false));
    assert_eq!(base_of(Some("")).unwrap(), (WORKDIR.to_string(), false));
    assert_eq!(
        base_of(Some("sub")).unwrap(),
        ("/srv/ws/sub".to_string(), true)
    );
}

#[test]
fn subdir_rejects_slashes() {
    assert_eq!(base_of(Some("a/b")).unwrap_err().status(), 400);
}

#[test]
fn subdir_rejects_traversal() {
    let err = base_of(Some("..")).unwrap_err();
    assert_eq!(err.status(), 400);
}

#[test]
fn subdir_rejects_too_long() {
    assert_eq!(base_of(Some(&"x".repeat(65))).unwrap_err().status(), 400);
}

#[test]
fn subdir_creates_and_confines() {
    let (base, create) = base_of(Some(" chat1 ")).unwrap();
    assert_eq!(base, "/srv/ws/chat1");
    assert!(create);
    // A session cannot reach the folder of another.
    let err = safe_path("../chat2/secret.txt", &base, "/", &|_: &str| None).unwrap_err();
    assert_eq!(err.status(), 400);
    // A linked folder that leaves the workspace is refused as a base.
    let err = request_base(WORKDIR, Some("chat1"), "/", &|p: &str| {
        if p == "/srv/ws/chat1" {
            Some("/etc".to_string())
        } else {
            None
        }
    })
    .unwrap_err();
    assert_eq!(err.status(), 400);
}

#[test]
fn base_that_cannot_be_created_is_500() {
    let base = request_base(WORKDIR, Some("s"), "/", &|_: &str| None).unwrap();
    let err = base.created(Some("disk full")).unwrap_err();
    assert_eq!(err.status(), 500);
    assert_eq!(
        err.body().detail,
        "cannot create workspace subdir: disk full"
    );
    let base = request_base(WORKDIR, None, "/", &|_: &str| None).unwrap();
    assert_eq!(base.created(Some("ignored")).unwrap(), WORKDIR);
}

#[test]
fn open_confined_rejects_final_component_symlink_swap() {
    let err = open_failed(Some(ELOOP), "too many levels");
    assert_eq!(err.status(), 400);
    assert_eq!(err.body().detail, "path resolves to a symlink (refused)");
    let err = open_failed(Some(13), "permission denied");
    assert_eq!(err.status(), 500);
    assert_eq!(err.body().detail, "open failed: permission denied");
    assert_eq!(open_failed(None, "odd").status(), 500);
}

#[test]
fn open_confined_rejects_intermediate_directory_swap() {
    let none = |_: &str| None;
    let err = confirm_open(Some("/outside/inner/file.txt"), WORKDIR, "/", &none).unwrap_err();
    assert_eq!(err.status(), 400);
    assert_eq!(err.body().detail, "path escaped workspace");
}

#[test]
fn open_confined_reads_a_normal_file() {
    let none = |_: &str| None;
    assert!(confirm_open(Some("/srv/ws/file.txt"), WORKDIR, "/", &none).is_ok());
    // A file that has been unlinked meanwhile is still one of the workspace.
    assert!(confirm_open(Some("/srv/ws/file.txt (deleted)"), WORKDIR, "/", &none).is_ok());
    let err = confirm_open(None, WORKDIR, "/", &none).unwrap_err();
    assert_eq!(err.status(), 500);
    assert_eq!(err.body().detail, "cannot re-resolve opened fd");
}

#[test]
fn fd_realpath_drops_the_kernel_mark() {
    assert_eq!(fd_realpath("/srv/ws/a"), "/srv/ws/a");
    assert_eq!(fd_realpath("/srv/ws/a (deleted)"), "/srv/ws/a");
}

#[test]
fn http_read_rejects_traversal() {
    let wd = Links::none();
    for path in [
        "../../etc/passwd",
        "/etc/passwd",
        "%2e%2e/%2e%2e/etc/passwd",
    ] {
        assert_escape(path, &wd);
    }
}

#[test]
fn http_write_rejects_traversal() {
    assert_escape("../../tmp/evil", &Links::none());
}

#[test]
fn http_list_rejects_traversal() {
    assert_escape("../../etc", &Links::none());
}

#[test]
fn http_delete_rejects_traversal() {
    assert_escape("../../etc/passwd", &Links::none());
}
