use open_websandbox::compare::{
    check_side, compare, compare_files, compare_from, extract_side, key_of, segments,
    segments_from, tokenize, CompareFile, CompareHunk, FileStat,
};
use open_websandbox::outside::{DiffOp, DiffTag};

fn row(v: &[&str]) -> Vec<String> {
    v.iter().map(|s| s.to_string()).collect()
}

fn side(raw: &str, text: &str) -> (CompareFile, Vec<String>) {
    let resolved = format!("/srv/ws/{raw}");
    extract_side(raw, &resolved, Ok(text.as_bytes())).expect("readable text")
}

#[test]
fn identical_files_have_no_hunks() {
    let a = row(&["one", "two"]);
    let (hunks, add, del) = compare(a.clone(), a, false);
    assert!(hunks.is_empty());
    assert_eq!((add, del), (0, 0));
}

#[test]
fn simple_change_pairs_segments() {
    let a = row(&["hello world"]);
    let b = row(&["hello brave world"]);
    let (hunks, add, del) = compare(a, b, false);
    assert_eq!((add, del), (1, 1));
    assert_eq!(hunks.len(), 1);
    let kinds: Vec<&str> = hunks[0].lines.iter().map(|l| l.kind.as_str()).collect();
    assert_eq!(kinds, vec!["removed", "added"]);
    let added = &hunks[0].lines[1];
    // "brave " is the changed segment on the added side.
    assert!(added
        .segments
        .iter()
        .any(|s| s.changed && s.text.trim() == "brave"));
}

#[test]
fn header_uses_difflib_start_convention() {
    let a: Vec<String> = (0..10).map(|i| format!("line{i}")).collect();
    let mut b = a.clone();
    b[5] = "changed".to_string();
    let (hunks, _, _) = compare(a, b, false);
    assert_eq!(hunks.len(), 1);
    // Change at index 5 with 3 context lines: @@ -3,7 +3,7 @@
    assert!(
        hunks[0].header.starts_with("@@ -3,7 +3,7 @@"),
        "got {}",
        hunks[0].header
    );
}

#[test]
fn compare_reports_hunks_and_counts() {
    let original: Vec<String> = (0..10).map(|i| format!("line{i}")).collect();
    let mut revised = original.clone();
    revised[5] = "line5 changed".to_string();
    let body = compare_files(
        side("a.txt", &original.join("\n")),
        side("b.txt", &revised.join("\n")),
        false,
    );
    assert_eq!(body.additions, 1);
    assert_eq!(body.deletions, 1);
    assert_eq!(body.hunks.len(), 1);
    assert_eq!(body.hunks[0].header, "@@ -3,7 +3,7 @@");
    let lines = &body.hunks[0].lines;
    assert_eq!(lines.len(), 8); // 3 ctx + del + add + 3 ctx
    assert_eq!(body.original.name, "a.txt");
    assert!(body.revised.notices.is_empty());
    // The removed/added pair carries intraline segments.
    let added = lines.iter().find(|l| l.kind == "added").expect("added line");
    assert!(added
        .segments
        .iter()
        .any(|s| s.changed && s.text.trim() == "changed"));
    assert_eq!(added.old_number, None);
    assert_eq!(added.new_number, Some(6));
    assert_eq!((lines[0].old_number, lines[0].new_number), (Some(3), Some(3)));
}

#[test]
fn compare_ignore_whitespace_and_identical() {
    let a = || side("a.txt", "one\ntwo  spaced\n");
    let b = || side("b.txt", "one\ntwo spaced\n");
    let body = compare_files(a(), a(), false);
    assert!(body.hunks.is_empty());
    assert_eq!(body.additions, 0);
    // ignore_whitespace collapses the difference.
    let body = compare_files(a(), b(), true);
    assert!(body.hunks.is_empty());
    let body = compare_files(a(), b(), false);
    assert_eq!(body.hunks.len(), 1);
}

#[test]
fn compare_error_contracts() {
    let err = check_side("missing.txt", None).unwrap_err();
    assert_eq!(err.status(), 422);
    assert!(err.body().detail.contains("missing.txt: File not found."));
    let err = extract_side("bin.dat", "/srv/ws/bin.dat", Ok(&[0x00, 0x01, 0x02])).unwrap_err();
    assert_eq!(err.status(), 422);
    let folder = FileStat {
        is_file: false,
        is_dir: true,
        size: 0,
    };
    assert_eq!(check_side("dir", Some(folder)).unwrap_err().status(), 422);
    let huge = FileStat {
        is_file: true,
        is_dir: false,
        size: u64::MAX,
    };
    assert_eq!(check_side("huge", Some(huge)).unwrap_err().status(), 422);
    assert_eq!(
        extract_side("x", "/srv/ws/x", Err("gone")).unwrap_err().status(),
        422
    );
}

#[test]
fn tokens_put_together_give_the_line() {
    assert_eq!(
        tokenize("foo_bar  (x)"),
        row(&["foo_bar", "  ", "(", "x", ")"])
    );
    assert_eq!(tokenize("\u{e4}\u{f6} 1"), row(&["\u{e4}\u{f6}", " ", "1"]));
    assert!(tokenize("").is_empty());
    let line = "let x = f(a, b);";
    assert_eq!(tokenize(line).concat(), line);
}

#[test]
fn keys_drop_blanks() {
    assert_eq!(key_of(" a  b ", true), "ab");
    assert_eq!(key_of(" a  b ", false), " a  b ");
}

fn op(tag: DiffTag, old: (usize, usize), new: (usize, usize)) -> DiffOp {
    DiffOp {
        tag,
        old_start: old.0,
        old_end: old.1,
        new_start: new.0,
        new_end: new.1,
    }
}

#[test]
fn segments_follow_the_steps() {
    let a = row(&["x", " ", "y"]);
    let b = row(&["x", " ", "z"]);
    let ops = vec![
        op(DiffTag::Equal, (0, 2), (0, 2)),
        op(DiffTag::Replace, (2, 3), (2, 3)),
    ];
    let (old, new) = segments_from(&a, &b, &ops);
    let flat = |v: &Vec<open_websandbox::compare::Segment>| {
        v.iter()
            .map(|s| (s.text.clone(), s.changed))
            .collect::<Vec<_>>()
    };
    assert_eq!(
        flat(&old),
        vec![
            ("x".to_string(), false),
            (" ".to_string(), false),
            ("y".to_string(), true)
        ]
    );
    assert_eq!(
        flat(&new),
        vec![
            ("x".to_string(), false),
            (" ".to_string(), false),
            ("z".to_string(), true)
        ]
    );
}

#[test]
fn long_lines_are_one_segment() {
    let long = "x ".repeat(4096);
    let (old, new) = segments(&long, "y");
    assert_eq!((old.len(), old[0].changed), (1, false));
    assert_eq!(old[0].text, long);
    assert_eq!((new.len(), new[0].changed), (1, false));
    let (old, new) = segments("a b", "a c");
    assert!(old.iter().any(|s| s.changed && s.text == "b"));
    assert!(new.iter().any(|s| s.changed && s.text == "c"));
}

#[test]
fn hunks_follow_the_steps() {
    let a = row(&["k", "old"]);
    let b = row(&["k", "new", "more"]);
    let groups = vec![vec![
        op(DiffTag::Equal, (0, 1), (0, 1)),
        op(DiffTag::Replace, (1, 2), (1, 3)),
    ]];
    let no_segments = |_: &str, _: &str| (vec![], vec![]);
    let (hunks, add, del) = compare_from(&a, &b, &groups, &no_segments);
    assert_eq!((add, del), (2, 1));
    let kinds: Vec<&str> = hunks[0].lines.iter().map(|l| l.kind.as_str()).collect();
    assert_eq!(kinds, ["context", "removed", "added", "added"]);
    assert_eq!(hunks[0].header, "@@ -1,2 +1,3 @@");
    // Where a step that names nothing of a side lies on it does not matter.
    let groups = vec![vec![
        op(DiffTag::Equal, (0, 1), (0, 1)),
        op(DiffTag::Delete, (1, 2), (0, 0)),
    ]];
    let (hunks, _, _) = compare_from(&a, &row(&["k"]), &groups, &no_segments);
    assert_eq!(hunks[0].header, "@@ -1,2 +1,1 @@");
}

/// The numbers of a header: start and count of the original side, then those of
/// the revised side.
fn header_numbers(header: &str) -> Vec<usize> {
    header
        .trim_matches(|c| c == '@' || c == ' ')
        .split(|c| c == ' ' || c == ',')
        .map(|n| n.trim_matches(|c| c == '-' || c == '+').parse().expect("a number"))
        .collect()
}

/// Puts the hunks into the original file, by what their headers say.
fn put_in(a: &[String], b: &[String]) -> Vec<String> {
    let compared = compare(a.to_vec(), b.to_vec(), false);
    check_context(&compared.0);
    check_account(a, b, &compared);
    let hunks = compared.0;
    let mut out: Vec<String> = Vec::new();
    let mut at = 0;
    for h in &hunks {
        let numbers = header_numbers(&h.header);
        let olds = h.lines.iter().filter(|l| l.old_number.is_some()).count();
        let news = h.lines.iter().filter(|l| l.new_number.is_some()).count();
        assert_eq!((olds, news), (numbers[1], numbers[3]), "{}", h.header);
        let from = if olds > 0 { numbers[0] - 1 } else { numbers[0] };
        out.extend_from_slice(&a[at..from]);
        assert_eq!(out.len(), if news > 0 { numbers[2] - 1 } else { numbers[2] });
        for l in h.lines.iter().filter(|l| l.new_number.is_some()) {
            out.push(l.revised_content.clone().unwrap_or_else(|| l.content.clone()));
        }
        at = from + olds;
    }
    out.extend_from_slice(&a[at..]);
    out
}

/// Holds every hunk to the context it may show.
fn check_context(hunks: &[CompareHunk]) {
    for h in hunks {
        let changes: Vec<usize> =
            (0..h.lines.len()).filter(|i| h.lines[*i].kind != "context").collect();
        assert!(!changes.is_empty(), "{}", h.header);
        assert!(changes[0] <= 3, "{}", h.header);
        assert!(h.lines.len() - 1 - changes[changes.len() - 1] <= 3, "{}", h.header);
        for pair in changes.windows(2) {
            assert!(pair[1] - pair[0] - 1 <= 6, "{}", h.header);
        }
    }
}

/// Holds the removed and added lines to the counts and to the lines that stay.
fn check_account(a: &[String], b: &[String], compared: &(Vec<CompareHunk>, u64, u64)) {
    let (hunks, additions, deletions) = compared;
    let lines = || hunks.iter().flat_map(|h| h.lines.iter());
    let gone: Vec<u64> =
        lines().filter(|l| l.new_number.is_none()).filter_map(|l| l.old_number).collect();
    let come: Vec<u64> =
        lines().filter(|l| l.old_number.is_none()).filter_map(|l| l.new_number).collect();
    assert_eq!((come.len() as u64, gone.len() as u64), (*additions, *deletions));
    assert!(gone.windows(2).all(|w| w[0] < w[1]), "{gone:?}");
    assert!(come.windows(2).all(|w| w[0] < w[1]), "{come:?}");
    let without = |v: &[String], out: &[u64]| -> Vec<String> {
        let stays = |i: usize| !out.contains(&(i as u64 + 1));
        (0..v.len()).filter(|i| stays(*i)).map(|i| v[i].clone()).collect()
    };
    assert_eq!(without(a, &gone), without(b, &come));
}

/// A row of single letters, `n` read in base three.
fn letters(len: usize, mut n: usize) -> Vec<String> {
    (0..len)
        .map(|_| {
            let digit = n % 3;
            n /= 3;
            ["e", "d", "x"][digit].to_string()
        })
        .collect()
}

#[test]
fn hunks_turn_the_original_into_the_revised_file() {
    for (la, lb) in [(0, 3), (3, 0), (2, 4), (4, 4), (5, 3), (4, 5)] {
        for na in 0..3usize.pow(la) {
            for nb in 0..3usize.pow(lb) {
                let (a, b) = (letters(la as usize, na), letters(lb as usize, nb));
                assert_eq!(put_in(&a, &b), b, "{a:?}");
            }
        }
    }
}

#[test]
fn hunks_turn_long_repetitive_files_into_each_other() {
    let mut a = vec!["d".to_string(); 5];
    a.extend(vec!["e".to_string(); 10]);
    let b = vec!["e".to_string(); 11];
    assert_eq!(put_in(&a, &b), b);
    assert_eq!(put_in(&b, &a), a);
    let mut seed = 1usize;
    for round in 0..300 {
        let mut draw = |len: usize| -> Vec<String> {
            (0..len)
                .map(|_| {
                    seed = seed.wrapping_mul(6364136223846793005).wrapping_add(1442695040888963407);
                    ["e", "e", "e", "e", "d", "x"][(seed >> 33) % 6].to_string()
                })
                .collect()
        };
        let (a, b) = (draw(20 + round % 40), draw(15 + round % 60));
        assert_eq!(put_in(&a, &b), b, "{a:?}");
        let (a, b) = (draw(130), draw(120));
        assert_eq!(put_in(&a, &b), b, "{a:?}");
    }
}

#[test]
fn segments_put_together_give_the_lines() {
    for na in 0..3usize.pow(5) {
        for nb in 0..3usize.pow(4) {
            let a = letters(5, na).join(" ");
            let b = letters(4, nb).join(" ");
            let (old, new) = segments(&a, &b);
            let joined = |v: &[open_websandbox::compare::Segment]| -> String {
                v.iter().map(|s| s.text.as_str()).collect()
            };
            let kept = |v: &[open_websandbox::compare::Segment]| -> String {
                v.iter().filter(|s| !s.changed).map(|s| s.text.as_str()).collect()
            };
            assert_eq!((joined(&old), joined(&new)), (a, b));
            assert_eq!(kept(&old), kept(&new));
        }
    }
}

/// Twenty lines, of which those at the given places are changed.
fn twenty(changed: &[usize]) -> Vec<String> {
    (0..20)
        .map(|i| if changed.contains(&i) { format!("new {i}") } else { format!("line {i}") })
        .collect()
}

#[test]
fn changes_six_lines_apart_share_a_hunk() {
    let (hunks, additions, deletions) = compare(twenty(&[]), twenty(&[5, 12]), false);
    assert_eq!((additions, deletions), (2, 2));
    assert_eq!(hunks.len(), 1);
    assert_eq!(hunks[0].header, "@@ -3,14 +3,14 @@");
    let kinds: Vec<&str> = hunks[0].lines.iter().map(|l| l.kind.as_str()).collect();
    let mut expected = vec!["context"; 3];
    expected.extend(["removed", "added"]);
    expected.extend(["context"; 6]);
    expected.extend(["removed", "added"]);
    expected.extend(["context"; 3]);
    assert_eq!(kinds, expected);
}

#[test]
fn changes_seven_lines_apart_have_hunks_of_their_own() {
    let (hunks, _, _) = compare(twenty(&[]), twenty(&[5, 13]), false);
    let headers: Vec<&str> = hunks.iter().map(|h| h.header.as_str()).collect();
    assert_eq!(headers, ["@@ -3,7 +3,7 @@", "@@ -11,7 +11,7 @@"]);
    assert!(hunks.iter().all(|h| h.lines.len() == 8));
}

#[test]
fn a_change_at_the_edge_has_context_on_one_side() {
    let (hunks, _, _) = compare(twenty(&[]), twenty(&[0]), false);
    assert_eq!(hunks.len(), 1);
    assert_eq!(hunks[0].header, "@@ -1,4 +1,4 @@");
    assert_eq!(hunks[0].lines.len(), 5);
    assert_eq!(hunks[0].lines[0].kind, "removed");
}

#[test]
fn numbers_of_removed_and_added_lines() {
    let a = row(&["a", "b", "c", "d"]);
    let b = row(&["a", "x", "c", "d", "y"]);
    let compared = compare(a.clone(), b.clone(), false);
    check_account(&a, &b, &compared);
    let lines = &compared.0[0].lines;
    let of = |kind: &str| -> Vec<(Option<u64>, Option<u64>)> {
        lines.iter().filter(|l| l.kind == kind).map(|l| (l.old_number, l.new_number)).collect()
    };
    assert_eq!(of("removed"), [(Some(2), None)]);
    assert_eq!(of("added"), [(None, Some(2)), (None, Some(5))]);
    assert_eq!((compared.1, compared.2), (2, 1));
}

#[test]
fn blanks_do_not_count_where_they_are_ignored() {
    let a = row(&["a b", "c", "d"]);
    let b = row(&["ab", "c", "e"]);
    let (hunks, additions, deletions) = compare(a, b, true);
    assert_eq!((additions, deletions), (1, 1));
    assert_eq!(hunks[0].lines[0].kind, "context");
    assert_eq!(hunks[0].lines[0].content, "a b");
    assert_eq!(hunks[0].lines[0].revised_content.as_deref(), Some("ab"));
}
