use grimoire::shell::{full_snippet, require_success};
use grimoire::text::{i32_text, join_strs, lines_of, split_words, trim_str, usize_text};

#[test]
fn text_helpers() {
    assert_eq!(join_strs(&["a", "b", "c"], ", "), "a, b, c");
    assert_eq!(join_strs(&[], ", "), "");
    assert_eq!(split_words("  a \t bb\nc  "), vec!["a", "bb", "c"]);
    assert_eq!(lines_of("a\r\nb\n\nc\r"), vec!["a", "b", "", "c\r"]);
    assert_eq!(lines_of("x\n"), vec!["x"]);
    assert!(lines_of("").is_empty());
    assert_eq!(trim_str("\u{a0} x \u{3000}"), "x");
    assert_eq!(usize_text(0), "0");
    assert_eq!(usize_text(1234), "1234");
    assert_eq!(i32_text(-42), "-42");
    assert_eq!(i32_text(i32::MIN), "-2147483648");
}

#[test]
fn shell_helpers() {
    assert_eq!(full_snippet("echo hi"), "set -e\nset -o pipefail\necho hi");
    assert!(require_success("hook", 0).is_ok());
    let e = require_success("hook", 3).unwrap_err();
    assert_eq!(e.label, "hook");
    assert_eq!(e.exit_code, 3);
}
