use open_websandbox::chars::{eq_ignore_ascii_case, trim, trim_both, words, CharSet};
use open_websandbox::find::{contains, count, find, replace_all, strip_prefix, strip_suffix};
use open_websandbox::number::{parse_u64, u64_decimal, u64_padded, NumberError};
use open_websandbox::path::{file_name, join_path, parent, path_parts, relative_to};
use open_websandbox::text::{join, lines, split};

fn texts(v: &[&str]) -> Vec<String> {
    v.iter().map(|s| s.to_string()).collect()
}

#[test]
fn splitting_and_joining_undo_each_other() {
    for s in ["", "a", "a,b", ",a,,", "\u{e4},b"] {
        assert_eq!(join(&split(s, ','), ","), s);
    }
    assert_eq!(split("a,,b", ','), texts(&["a", "", "b"]));
}

#[test]
fn lines_as_std_sees_them() {
    for s in ["", "a", "a\n", "a\nb", "a\r\nb\r\n", "\n\n", "a\rb"] {
        let expected: Vec<String> = s.lines().map(String::from).collect();
        assert_eq!(lines(s), expected, "{s:?}");
    }
}

#[test]
fn trimming_as_std_does() {
    for s in ["", "  a ", "\u{a0}x\u{3000}", "\t\r\n", "\u{200b}a", "\u{85}b\u{2028}"] {
        assert_eq!(trim(s), s.trim(), "{s:?}");
    }
    assert_eq!(trim_both("//a/b//", CharSet::Slash), "a/b");
    assert_eq!(words(" a  b\u{3000}c "), texts(&["a", "b", "c"]));
    assert!(eq_ignore_ascii_case("NuLL", "null"));
    assert!(!eq_ignore_ascii_case("\u{c4}", "\u{e4}"));
}

#[test]
fn finding_and_replacing() {
    assert_eq!(find("abcabc", "ca"), Some(2));
    assert_eq!(find("abc", ""), Some(0));
    assert_eq!(find("abc", "x"), None);
    assert!(contains("abc", "bc"));
    assert_eq!(count("aaaa", "aa"), 2);
    assert_eq!(replace_all("aaa", "a", "bb"), "bbbbbb");
    assert_eq!(strip_prefix("Bearer x", "Bearer "), Some("x".to_string()));
    assert_eq!(strip_suffix("a.log", ".log"), Some("a".to_string()));
    assert_eq!(strip_suffix("a.txt", ".log"), None);
}

#[test]
fn numbers_there_and_back() {
    for n in [0, 7, 10, 65_535, u64::MAX] {
        assert_eq!(parse_u64(&u64_decimal(n), 10, u64::MAX), Ok(n));
    }
    assert_eq!(u64_padded(255, 16, 8), "000000ff");
    assert_eq!(parse_u64("22B8", 16, 65_535), Ok(8888));
    assert_eq!(parse_u64("", 10, 9), Err(NumberError::Empty));
    assert_eq!(parse_u64("1x", 10, 99), Err(NumberError::InvalidDigit));
    assert_eq!(parse_u64("100", 10, 99), Err(NumberError::TooLarge));
}

#[test]
fn paths_as_std_sees_them() {
    assert_eq!(path_parts("/a//b/./c/"), texts(&["a", "b", "c"]));
    assert_eq!(join_path("/a", "b"), "/a/b");
    assert_eq!(join_path("/a", "/b"), "/b");
    assert_eq!(file_name("/a/b.txt"), Some("b.txt".to_string()));
    assert_eq!(file_name("/a/.."), None);
    assert_eq!(parent("/a/b"), Some("/a".to_string()));
    assert_eq!(parent("/"), None);
    assert_eq!(relative_to("/a/b/c", "/a"), Some("b/c".to_string()));
    assert_eq!(relative_to("/ab/c", "/a"), None);
}
