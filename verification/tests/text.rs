use delink::cstr::{cstr, read_string, read_utf8_string};
use delink::text::{
    contains_nul, contains_text, decimal, decimal4, ends_with, file_stem, has_ink, hex, hex2,
    pad_left, pad_right, pad_zeros, safe_file_name, starts_with, symbol_file, truncate,
};

#[test]
fn stems_lose_directories_and_one_extension() {
    assert_eq!(file_stem("a/b\\c.d.cpp"), "c.d");
    assert_eq!(file_stem("noext"), "noext");
    assert_eq!(file_stem("dir.d/x"), "x");
    assert_eq!(file_stem("/"), "");
}

#[test]
fn unsafe_characters_become_underscores() {
    assert_eq!(safe_file_name("a b+\u{e7}.x"), "a_b_\u{e7}_x");
    assert_eq!(safe_file_name("keep-_9"), "keep-_9");
}

#[test]
fn numbers_are_formatted_in_lower_case() {
    assert_eq!(hex(0), "0");
    assert_eq!(hex(0xdead_beef), "deadbeef");
    assert_eq!(decimal(u64::MAX), "18446744073709551615");
    assert_eq!(decimal4(7), "0007");
    assert_eq!(decimal4(12345), "12345");
    assert_eq!(hex2(0xa), "0a");
    assert_eq!(pad_zeros("abc", 2), "abc");
}

#[test]
fn symbol_files_are_trimmed_and_cut() {
    assert_eq!(symbol_file("..__?foo@@YAX"), "foo__YAX");
    assert_eq!(symbol_file(""), "unknown");
    assert_eq!(symbol_file("???"), "unknown");
    let long = "\u{e9}".repeat(150);
    assert_eq!(symbol_file(&long).chars().count(), 100);
}

#[test]
fn long_names_are_cut_from_the_front() {
    assert_eq!(truncate("abcd", 4), "abcd");
    assert_eq!(truncate("abcdef", 4), "\u{2026}def");
    assert_eq!(truncate("\u{e9}\u{e9}\u{e9}", 5), "\u{2026}\u{e9}\u{e9}");
}

#[test]
fn columns_are_padded_by_characters() {
    assert_eq!(pad_left("\u{e9}", 3), "  \u{e9}");
    assert_eq!(pad_right("ab", 4), "ab  ");
    assert_eq!(pad_right("abcde", 4), "abcde");
}

#[test]
fn texts_are_searched() {
    assert!(contains_text("abc", ""));
    assert!(contains_text("abc", "bc"));
    assert!(!contains_text("abc", "abcd"));
    assert!(!contains_text("aab", "ba"));
    assert!(starts_with("abc", "ab"));
    assert!(!starts_with("ab", "abc"));
    assert!(ends_with("abc", "bc"));
    assert!(!ends_with("abc", "b"));
    assert!(has_ink(" x") && has_ink("_") && has_ink("\u{8}\u{e}"));
    assert!(!has_ink(" \t\n\u{b}\u{c}\r"));
    assert!(!has_ink(" \t\u{2003}"));
    assert!(contains_nul("a\0"));
    assert!(!contains_nul("a0"));
}

#[test]
fn byte_strings_are_decoded() {
    assert_eq!(cstr(b"ab\0c"), "ab");
    assert_eq!(cstr(&[0x61, 0xff, 0]), "a\u{fffd}");
    assert_eq!(read_string(b"\0abc\0d", 1), "abc");
    assert_eq!(read_string(b"abc", 9), "");
    assert_eq!(read_utf8_string(b"\0\xc3\xa9\0", 1), Some("\u{e9}".to_string()));
    assert_eq!(read_utf8_string(b"\xff\0", 0), None);
}
