use open_websandbox::fnmatch::{fnmatch, fnmatch_all, fnmatch_translate};
use open_websandbox::order::{key_less, page, sort_texts, stable_order, text_less, SortKey};
use open_websandbox::rank::{
    check_directory, check_matches, check_search, content_matches, match_files, rank_name,
    score_match, search_files, LinkStat, MAX_CONTENT_SEARCH_FILE_SIZE, SNIFF_BYTES,
};
use open_websandbox::search::{
    check_search_path, entry_hidden, git_candidates, glob_collect, is_hidden_rel, kind_name,
    max_results, split_zeros, walk_candidates, walk_files, Candidate, Grep, GrepMatch, Stat, TreeEntry,
    WantKind,
};

const WORKDIR: &str = "/srv/ws";

fn texts(v: &[&str]) -> Vec<String> {
    v.iter().map(|s| s.to_string()).collect()
}

fn grep(
    query: &str,
    regex: bool,
    case_insensitive: bool,
    max: usize,
    files: &[(&str, &str)],
) -> (Vec<GrepMatch>, bool) {
    let mut g = Grep::new(query, regex, case_insensitive, max).expect("a valid query");
    for (name, text) in files {
        if g.scan(name, text.as_bytes()) {
            break;
        }
    }
    let truncated = g.truncated();
    (g.into_matches(), truncated)
}

fn tree() -> Vec<(&'static str, &'static str)> {
    vec![
        ("/srv/ws/a.txt", "foo bar\nsecond"),
        ("/srv/ws/b.txt", "baz foo"),
        ("/srv/ws/c.py", "foo = 1"),
    ]
}

// --- lines in files -----------------------------------------------------------

#[test]
fn grep_basic_and_include_filter() {
    let (found, truncated) = grep("foo", true, false, 50, &tree());
    let files: Vec<&str> = found.iter().map(|m| m.file.as_str()).collect();
    assert_eq!(files, ["/srv/ws/a.txt", "/srv/ws/b.txt", "/srv/ws/c.py"]);
    assert_eq!(found[0].line, 1);
    assert_eq!(found[0].content, "foo bar");
    assert!(!truncated);
    // A pattern for names restricts the files.
    let paths = texts(&["/srv/ws/c.py", "/srv/ws/b.txt", "/srv/ws/a.txt"]);
    assert_eq!(
        walk_files(&paths, Some("*.txt")),
        texts(&["/srv/ws/a.txt", "/srv/ws/b.txt"])
    );
    assert_eq!(
        walk_files(&paths, None),
        texts(&["/srv/ws/a.txt", "/srv/ws/b.txt", "/srv/ws/c.py"])
    );
}

#[test]
fn grep_literal_mode() {
    let files = [("/srv/ws/r.txt", "a.b.c (literal)\naxbxc")];
    let (found, _) = grep("a.b.c", false, false, 50, &files);
    assert_eq!(found.len(), 1);
    assert_eq!(found[0].content, "a.b.c (literal)");
    // As an expression, the dots stand for any character.
    assert_eq!(grep("a.b.c", true, false, 50, &files).0.len(), 2);
    // case_insensitive
    assert_eq!(grep("LITERAL", true, true, 50, &files).0.len(), 1);
    assert_eq!(grep("LITERAL", true, false, 50, &files).0.len(), 0);
}

#[test]
fn grep_single_file_path() {
    let (matches, truncated) = grep("needle", true, false, 50, &[("only.txt", "needle here")]);
    assert_eq!(matches.len(), 1);
    assert_eq!(matches[0].file, "only.txt");
    assert_eq!(matches[0].line, 1);
    assert_eq!(matches[0].content, "needle here");
    assert!(!truncated);
    let (none, _) = grep("needle", true, false, 50, &[("other.txt", "no match")]);
    assert!(none.is_empty());
}

#[test]
fn grep_max_results_truncates() {
    let names: Vec<String> = (0..10).map(|i| format!("/srv/ws/f{i}.txt")).collect();
    let files: Vec<(&str, &str)> = names.iter().map(|n| (n.as_str(), "needle\nneedle")).collect();
    let (found, truncated) = grep("needle", true, false, 3, &files);
    assert!(truncated);
    assert_eq!(found.len(), 3);
    assert_eq!(found[2].file, "/srv/ws/f1.txt");
    assert_eq!(found[2].line, 1);
}

#[test]
fn grep_invalid_regex_is_400() {
    let err = Grep::new("(unclosed", true, false, 50).unwrap_err();
    assert_eq!(err.status(), 400);
    // Taken literally it is no error.
    assert!(Grep::new("(unclosed", false, false, 50).is_ok());
}

#[test]
fn grep_missing_path_is_404() {
    let err = check_search_path(false).unwrap_err();
    assert_eq!(err.status(), 404);
    assert_eq!(err.body().detail, "Search path not found");
    assert!(check_search_path(true).is_ok());
}

#[test]
fn glob_missing_path_is_404() {
    assert_eq!(check_directory(false).unwrap_err().status(), 404);
}

#[test]
fn limits_have_a_default() {
    assert_eq!(max_results(Some(3)), 3);
    assert_eq!(max_results(None), 50);
    assert_eq!(max_results(Some(0)), 1);
    assert_eq!(max_results(Some(9999)), 500);
}

// --- shell patterns -----------------------------------------------------------

#[test]
fn fnmatch_knows_the_shell_signs() {
    assert!(fnmatch("a.txt", "*.txt"));
    assert!(!fnmatch("a.txt.bak", "*.txt"));
    assert!(fnmatch("a1", "a?"));
    assert!(!fnmatch("a", "a?"));
    assert!(fnmatch("b", "[abc]"));
    assert!(!fnmatch("d", "[abc]"));
    assert!(fnmatch("d", "[!abc]"));
    assert!(!fnmatch("a+b", "a.b"));
    assert!(fnmatch("a.b", "a.b"));
    assert!(fnmatch("a(b", "a(b"));
    assert!(fnmatch("[", "["));
    assert_eq!(
        fnmatch_all(&texts(&["x.rs", "x.py", "y.rs"]), "*.rs"),
        vec![true, false, true]
    );
    assert!(fnmatch_translate("*").contains(".*"));
}

// --- entries by pattern -------------------------------------------------------

fn entry(path: &str, is_dir: bool) -> TreeEntry {
    TreeEntry {
        path: path.to_string(),
        is_dir,
        stat: Some(Stat {
            size: 3,
            modified: 9,
        }),
    }
}

#[test]
fn glob_files_and_dirs() {
    let entries = vec![
        entry("/srv/ws/pkg", true),
        entry("/srv/ws/c.py", false),
        entry("/srv/ws/b.txt", false),
        entry("/srv/ws/a.txt", false),
        entry("/srv/ws/pkg/deep.txt", false),
    ];
    let (found, truncated) = glob_collect(&entries, WORKDIR, "*.txt", "file", 50);
    let names: Vec<&str> = found.iter().map(|m| m.path.as_str()).collect();
    assert_eq!(names, ["a.txt", "b.txt", "pkg/deep.txt"]);
    assert!(!truncated);
    assert_eq!(found[0].stat.size, 3);
    let (found, _) = glob_collect(&entries, WORKDIR, "*", "directory", 50);
    let dirs: Vec<&str> = found.iter().map(|m| m.path.as_str()).collect();
    assert_eq!(dirs, ["pkg"]);
    assert_eq!(kind_name(found[0].is_dir), "directory");
}

#[test]
fn glob_max_results_truncates() {
    let entries: Vec<TreeEntry> = (0..5)
        .map(|i| entry(&format!("/srv/ws/f{i}.txt"), false))
        .collect();
    let (found, truncated) = glob_collect(&entries, WORKDIR, "*.txt", "any", 1);
    assert!(truncated);
    assert_eq!(found.len(), 1);
    assert_eq!(found[0].path, "f0.txt");
}

// --- candidates ---------------------------------------------------------------

fn file(path: &str) -> Candidate {
    Candidate {
        path: path.to_string(),
        is_dir: false,
    }
}

fn paths_of(c: &[Candidate]) -> Vec<&str> {
    c.iter().map(|c| c.path.as_str()).collect()
}

#[test]
fn hidden_parts_hide_what_is_below() {
    assert!(is_hidden_rel(".git/config"));
    assert!(is_hidden_rel("a/.b"));
    assert!(!is_hidden_rel("a/b.c"));
    assert!(entry_hidden("/srv/ws/.x", WORKDIR));
    assert!(!entry_hidden("/srv/.ws/x", "/srv/.ws"));
}

#[test]
fn walks_keep_what_is_wanted() {
    let all = || {
        vec![
            file("/srv/ws/a"),
            file("/srv/ws/.b"),
            Candidate {
                path: "/srv/ws/d".to_string(),
                is_dir: true,
            },
        ]
    };
    let seen = walk_candidates(all(), WORKDIR, false, WantKind::Any);
    assert_eq!(paths_of(&seen), ["/srv/ws/a", "/srv/ws/d"]);
    let seen = walk_candidates(all(), WORKDIR, true, WantKind::File);
    assert_eq!(paths_of(&seen), ["/srv/ws/a", "/srv/ws/.b"]);
    let seen = walk_candidates(all(), WORKDIR, true, WantKind::Directory);
    assert_eq!(paths_of(&seen), ["/srv/ws/d"]);
}

#[test]
fn git_lists_files_and_their_folders_once() {
    let out = b"src/a.rs\0src/b.rs\0.hidden/x\0";
    let seen = git_candidates(out, WORKDIR, false, WantKind::Any);
    assert_eq!(
        paths_of(&seen),
        ["/srv/ws/src/a.rs", "/srv/ws/src", "/srv/ws/src/b.rs"]
    );
    assert!(seen[1].is_dir);
    let dirs = git_candidates(out, WORKDIR, true, WantKind::Directory);
    assert_eq!(paths_of(&dirs), ["/srv/ws/src", "/srv/ws/.hidden"]);
    assert_eq!(
        split_zeros(b"a\0\0b"),
        vec![b"a".to_vec(), b"".to_vec(), b"b".to_vec()]
    );
}

// --- by name ------------------------------------------------------------------

fn search(query: &str, cands: &Vec<Candidate>) -> Vec<String> {
    let stat = |_: &str| {
        Some(Stat {
            size: 2,
            modified: 1,
        })
    };
    let found = search_files(cands, WORKDIR, Some(query), 20, &stat);
    for r in &found.results {
        assert!(r.path.starts_with('/'), "absolute paths");
    }
    found.results.iter().map(|r| r.name.clone()).collect()
}

#[test]
fn search_ranks_filters_and_hides_dotfiles() {
    let all = || {
        vec![
            file("/srv/ws/contains-NEEDLE-inside.txt"),
            file("/srv/ws/sub/needle_child.txt"),
            file("/srv/ws/needle_v2.txt"),
            file("/srv/ws/.needle_hidden.txt"),
            file("/srv/ws/needle.txt"),
        ]
    };
    let cands = walk_candidates(all(), WORKDIR, false, WantKind::Any);
    assert_eq!(
        search("needle", &cands),
        [
            "needle.txt",
            "needle_v2.txt",
            "needle_child.txt",
            "contains-NEEDLE-inside.txt"
        ]
    );
    let dirs = vec![Candidate {
        path: "/srv/ws/needle_dir".to_string(),
        is_dir: true,
    }];
    assert_eq!(search("needle_dir", &dirs), ["needle_dir"]);
    // show_hidden surfaces dotfiles.
    let cands = walk_candidates(all(), WORKDIR, true, WantKind::Any);
    assert_eq!(search("needle_hidden", &cands).len(), 1);
    // limit bounds are validated.
    assert_eq!(check_search(Some(0), None).unwrap_err().status(), 400);
    assert_eq!(check_search(Some(101), None).unwrap_err().status(), 400);
    assert_eq!(
        check_search(None, Some("symlink")).unwrap_err().status(),
        400
    );
    assert_eq!(check_search(None, None).unwrap(), (20, WantKind::Any));
}

#[test]
fn names_rank_by_how_they_match() {
    assert_eq!(rank_name("needle", "needle"), Some(0));
    assert_eq!(rank_name("needle.txt", "needle"), Some(1));
    assert_eq!(rank_name("a-needle", "needle"), Some(2));
    assert_eq!(rank_name("nail", "needle"), None);
    assert_eq!(rank_name("nail", ""), Some(2));
    assert_eq!(check_directory(false).unwrap_err().status(), 404);
    assert!(check_directory(true).is_ok());
}

#[test]
fn search_folds_case_beyond_ascii() {
    assert_eq!(
        search("\u{c4}PFEL", &vec![file("/srv/ws/\u{e4}pfel.txt")]),
        ["\u{e4}pfel.txt"]
    );
}

// --- by name and contents -----------------------------------------------------

fn contents(path: &str) -> Option<Vec<u8>> {
    match path {
        "/srv/ws/zebra.txt" => Some(b"the quick zebra\njumps\nover the lazy zebra\n".to_vec()),
        "/srv/ws/zebra.png" => Some("\u{fffd}binary-ish\u{fffd}".as_bytes().to_vec()),
        "/srv/ws/unrelated.md" => Some(b"nothing here\nmentions the animal\n".to_vec()),
        "/srv/ws/doc.md" => Some(b"a xyzzy plugh\n".to_vec()),
        _ => None,
    }
}

fn lstat(path: &str) -> Option<LinkStat> {
    contents(path).map(|b| LinkStat {
        is_symlink: false,
        size: b.len() as u64,
    })
}

#[test]
fn matches_unifies_name_and_content_with_pagination() {
    let cands = vec![
        file("/srv/ws/zebra.txt"),
        file("/srv/ws/zebra.png"),
        file("/srv/ws/unrelated.md"),
        file("/srv/ws/doc.md"),
    ];
    let (query, limit, offset) = check_matches("zebra", None, None).unwrap();
    let doc = match_files(&cands, WORKDIR, &query, offset, limit, &lstat, &contents);
    let results = &doc.results;
    assert_eq!(results.len(), 2);
    assert_eq!(results[0].name, "zebra.png");
    assert!(results[0].name_match);
    assert!(results[0].content_matches.is_empty());
    assert_eq!(results[1].name, "zebra.txt");
    assert!(results[1].name_match);
    let hits = &results[1].content_matches;
    assert_eq!(hits.len(), 2, "one per line, <=3 per file");
    assert_eq!(hits[0].line, 1);
    assert_eq!(hits[0].column, 11, "utf-16 columns");
    assert_eq!(hits[0].text, "the quick zebra");
    assert_eq!(doc.next_offset, None);

    // Content-only match: name doesn't contain the query.
    let doc = match_files(&cands, WORKDIR, "xyzzy", 0, 100, &lstat, &contents);
    assert_eq!(doc.results.len(), 1);
    assert_eq!(doc.results[0].name, "doc.md");
    assert!(!doc.results[0].name_match);
    assert_eq!(doc.results[0].content_matches[0].column, 3);

    // Pagination: one result per page, next_offset chains to the end.
    let doc = match_files(&cands, WORKDIR, "zebra", 0, 1, &lstat, &contents);
    assert_eq!(doc.results.len(), 1);
    assert_eq!(doc.next_offset, Some(1));
    let doc = match_files(&cands, WORKDIR, "zebra", 1, 1, &lstat, &contents);
    assert_eq!(doc.results.len(), 1);
    assert_eq!(doc.next_offset, None);

    // Blank query.
    assert_eq!(check_matches("  ", None, None).unwrap_err().status(), 400);
    assert_eq!(check_matches("z", Some(0), None).unwrap_err().status(), 400);
}

fn plain(size: u64) -> Option<LinkStat> {
    Some(LinkStat {
        is_symlink: false,
        size,
    })
}

#[test]
fn contents_are_searched_in_plain_text_files_only() {
    let text = b"needle";
    assert_eq!(content_matches(plain(6), Some(text), "needle").len(), 1);
    let link = Some(LinkStat {
        is_symlink: true,
        size: 6,
    });
    assert!(content_matches(link, Some(text), "needle").is_empty());
    assert!(content_matches(plain(4), Some(b"\0abc"), "abc").is_empty());
    assert!(content_matches(None, Some(text), "needle").is_empty());
    assert!(content_matches(plain(6), None, "needle").is_empty());
    let big = plain(MAX_CONTENT_SEARCH_FILE_SIZE + 1);
    assert!(content_matches(big, Some(text), "needle").is_empty());
    let mut binary = b"needle\n".to_vec();
    binary.resize(SNIFF_BYTES, 0);
    assert!(content_matches(plain(8192), Some(&binary), "needle").is_empty());
    assert!(content_matches(plain(2), Some(&[0xff, 0xfe]), "needle").is_empty());
}

#[test]
fn columns_count_utf16_units() {
    let text = "\u{1f60a}x needle\nNEEDLE".as_bytes();
    let hits = content_matches(plain(30), Some(text), "needle");
    assert_eq!(hits.len(), 2);
    assert_eq!((hits[0].line, hits[0].column), (1, 5));
    assert_eq!((hits[1].line, hits[1].column), (2, 1));
}

#[test]
fn scores_prefer_names_over_paths() {
    assert_eq!(score_match("zebra", "zebra", "zebra"), 0);
    assert_eq!(score_match("zebra.txt", "a/zebra.txt", "zebra"), 1);
    assert_eq!(score_match("my-zebra", "my-zebra", "zebra"), 2);
    assert_eq!(score_match("x.txt", "zebra/x.txt", "zebra"), 3);
    assert_eq!(score_match("x.txt", "x.txt", "zebra"), 4);
}

// --- orders -------------------------------------------------------------------

fn key(major: u64, minor: u64, part: &str) -> SortKey {
    SortKey {
        major,
        minor,
        parts: vec![part.to_string()],
    }
}

#[test]
fn orders_are_stable() {
    let keys = vec![key(1, 0, "b"), key(0, 9, "z"), key(1, 0, "a"), key(0, 9, "z")];
    assert_eq!(stable_order(&keys), vec![1, 3, 2, 0]);
    assert!(key_less(&keys[1], &keys[0]));
    assert!(!key_less(&keys[1], &keys[3]));
    assert!(text_less("ab", "b"));
    assert!(text_less("a", "ab"));
    assert!(!text_less("a", "a"));
    assert_eq!(
        sort_texts(&texts(&["b", "a\u{e9}", "a"])),
        texts(&["a", "a\u{e9}", "b"])
    );
}

#[test]
fn pages_follow_each_other() {
    let entries: Vec<_> = ["c", "a", "b"]
        .iter()
        .map(|p| open_websandbox::search::GlobMatch {
            path: p.to_string(),
            is_dir: false,
            stat: Stat {
                size: 0,
                modified: 0,
            },
        })
        .collect();
    let keys = vec![key(0, 0, "c"), key(0, 0, "a"), key(0, 0, "b")];
    let first: Vec<String> = page(&entries, &keys, 0, 2).into_iter().map(|m| m.path).collect();
    let rest: Vec<String> = page(&entries, &keys, 2, 2).into_iter().map(|m| m.path).collect();
    assert_eq!(first, ["a", "b"]);
    assert_eq!(rest, ["c"]);
    assert!(page(&entries, &keys, 9, 2).is_empty());
}
