use gitrends::text::find_last_char;
use gitrends::text::split_lines;
use gitrends::text::str_eq;
use gitrends::text::str_le;
use gitrends::text::trim_of;

#[test]
fn split_lines_follows_line_semantics() {
    assert_eq!(split_lines("a\nb"), vec!["a", "b"]);
    assert_eq!(split_lines("a\nb\n"), vec!["a", "b"]);
    assert_eq!(split_lines("a\r\nb"), vec!["a", "b"]);
    assert_eq!(split_lines("a\n\nb"), vec!["a", "", "b"]);
    assert!(split_lines("").is_empty());
}

#[test]
fn trim_removes_surrounding_whitespace() {
    assert_eq!(trim_of("  core \t"), "core");
    assert_eq!(trim_of("plain"), "plain");
    assert_eq!(trim_of(" \t "), "");
}

#[test]
fn byte_order_and_equality() {
    assert!(str_le("abc", "abd"));
    assert!(str_le("ab", "abc"));
    assert!(!str_le("b", "ab"));
    assert!(str_le("same", "same"));
    assert!(str_eq("same", "same"));
    assert!(!str_eq("same", "other"));
}

#[test]
fn find_last_char_scans_from_the_end() {
    assert_eq!(find_last_char("a/b/c", '/'), Some(3));
    assert_eq!(find_last_char("abc", '/'), None);
    assert_eq!(find_last_char("/", '/'), Some(0));
}
