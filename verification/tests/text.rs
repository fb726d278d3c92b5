//! Comments, hooks and numbers.

use mailarchive::comments::strip_comments;
use mailarchive::hook::{mail_received, shell_quote};
use mailarchive::text::{
    chars_of, join_with, parse_u32, same, split_by, string_of, to_decimal, trim, trim_end,
};

#[test]
fn comments_become_blanks() {
    let strip = |s: &str| strip_comments(s).unwrap();
    assert_eq!(strip("1 // x\n2"), "1     \n2");
    assert_eq!(strip("1 /* x\n*/ 2"), "1     \n   2");
    assert_eq!(strip("//"), "  ");
    assert_eq!(strip("/**/"), "    ");
    assert_eq!(strip("/*/ x */1"), "        1");
    assert_eq!(strip("// /* \n1"), "      \n1");
    assert_eq!(strip("/* // */1"), "        1");
    assert_eq!(strip("1 / 2 * 3"), "1 / 2 * 3");
    assert_eq!(strip(""), "");
}

#[test]
fn literals_are_not_searched_for_comments() {
    for s in [r#"{"url": "http://x/*y*/"}"#, r#""\"//""#, r#""\\""#, r#""open // to the end"#, "\"\\"] {
        assert_eq!(strip_comments(s).unwrap(), s);
    }
    assert_eq!(strip_comments(r#""a\\"//b"#).unwrap(), r#""a\\"   "#);
}

#[test]
fn a_block_comment_without_end_is_refused() {
    assert_eq!(strip_comments("{} /* open"), None);
    assert_eq!(strip_comments("/*/"), None);
}

#[test]
fn a_path_is_quoted_for_the_shell() {
    assert_eq!(shell_quote("/m/a b"), "'/m/a b'");
    assert_eq!(shell_quote("it's $HOME"), "'it'\\''s $HOME'");
    assert_eq!(shell_quote(""), "''");
    assert_eq!(mail_received("cp %%mail_path%% /x", "/m/it's"), "cp '/m/it'\\''s' /x");
    assert_eq!(mail_received("notmuch new", "/m/x"), "notmuch new");
    assert_eq!(mail_received("%%mail_path%%%%mail_path%%", "p"), "'p''p'");
    assert_eq!(mail_received("%%mail_path%", "p"), "%%mail_path%");
    assert_eq!(mail_received("", "p"), "");
}

#[test]
fn numbers_are_read_back() {
    for n in [0u32, 7, 10, 99, 100, 4_294_967_295] {
        let s = to_decimal(u128::from(n));
        assert_eq!(s, n.to_string());
        assert_eq!(parse_u32(&s), Some(n));
    }
    assert_eq!(to_decimal(u128::from(u64::MAX)), "18446744073709551615");
    assert_eq!(to_decimal(u128::MAX), u128::MAX.to_string());
    for s in ["", "+", "-", "-0", "1_0", " 1", "1 ", "4294967296", "99999999999999999999", "\u{0661}"] {
        assert_eq!(parse_u32(s), s.parse::<u32>().ok(), "{s:?}");
    }
    assert_eq!(parse_u32("+0042"), Some(42));
}

#[test]
fn splitting_is_that_of_the_standard_library() {
    for (s, d) in [("", ","), ("a", ","), (",", ","), ("a,,b,", ","), ("aaa", "aa"), ("x,U=1,U=2", ",U="), ("\u{e4}/\u{f6}", "/")] {
        let parts = split_by(s, d);
        assert_eq!(parts, s.split(d).collect::<Vec<_>>(), "{s:?} by {d:?}");
        assert_eq!(join_with(&parts, d), s);
    }
    assert_eq!(join_with(&vec![], ","), "");
}

#[test]
fn trimming_is_that_of_the_standard_library() {
    let spaces = [
        '\t', '\n', '\u{b}', '\u{c}', '\r', ' ', '\u{85}', '\u{a0}', '\u{1680}', '\u{2000}', '\u{200a}', '\u{2028}',
        '\u{2029}', '\u{202f}', '\u{205f}', '\u{3000}', '\u{200b}', '\u{1c}', '\u{feff}',
    ];
    for c in spaces {
        let s = format!("{c}{c}a{c}b{c}");
        assert_eq!(trim(&s), s.trim(), "{c:?}");
        assert_eq!(trim_end(&s), s.trim_end(), "{c:?}");
    }
    assert_eq!(trim(" \n "), "");
    assert_eq!(trim_end(""), "");
}

#[test]
fn characters_and_strings_convert_both_ways() {
    let v = chars_of("a\u{10ffff}\u{e9}");
    assert_eq!(v, ['a', '\u{10ffff}', '\u{e9}']);
    assert_eq!(string_of(&v, 1, 3), "\u{10ffff}\u{e9}");
    assert_eq!(string_of(&v, 2, 2), "");
    assert!(same("x", "x") && !same("x", "X") && !same("x", ""));
}
