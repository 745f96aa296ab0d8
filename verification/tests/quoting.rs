use functerm::quote::{cmd_string, native_path, nushell_path, nushell_string, posix_string, powershell_path, powershell_string, QuoteError};
use std::path::Path;

fn path_bytes(path: &Path) -> &[u8] {
    path.as_os_str().as_encoded_bytes()
}

#[test]
fn quotes_literal_paths_for_powershell() {
    let quoted = powershell_path(path_bytes(Path::new("F:\\dir with ' quote"))).unwrap();
    assert_eq!(
        quoted,
        "([Text.Encoding]::UTF8.GetString([Convert]::FromBase64String('RjpcZGlyIHdpdGggJyBxdW90ZQ==')))"
    );
}

#[test]
fn quotes_single_quotes_for_posix_shells() {
    let quoted = posix_string("a'b");
    assert_eq!(quoted, "'a'\\''b'");
}

#[test]
fn quotes_single_quotes_for_nushell() {
    let quoted = nushell_string("a'b");
    assert_eq!(quoted, "('YSdi' | decode base64 | decode)");
}

#[test]
fn quotes_double_quotes_for_cmd() {
    let quoted = cmd_string("a\"b");
    assert_eq!(quoted, "\"a\"\"b\"");
}

#[test]
fn cmd_string_quotes_empty_and_plain_text() {
    assert_eq!(cmd_string(""), "\"\"");
    assert_eq!(cmd_string("plain text"), "\"plain text\"");
    assert_eq!(cmd_string("\"\""), "\"\"\"\"\"\"");
    assert_eq!(cmd_string("中文\"🦀"), "\"中文\"\"🦀\"");
}

#[test]
fn native_path_keeps_unicode_text() {
    assert_eq!(native_path("F:\\目录\\a b".as_bytes()).unwrap(), "F:\\目录\\a b");
    assert_eq!(native_path(b"").unwrap(), "");
}

#[test]
fn native_path_refuses_non_unicode_paths() {
    assert_eq!(native_path(b"/tmp/\xff\xfe"), Err(QuoteError::NonUnicodePath));
    assert_eq!(powershell_path(b"\xc3"), Err(QuoteError::NonUnicodePath));
    assert_eq!(nushell_path(b"\xed\xa0\x80"), Err(QuoteError::NonUnicodePath));
}

#[test]
fn powershell_string_encodes_utf8_as_base64() {
    assert_eq!(
        powershell_string(""),
        "([Text.Encoding]::UTF8.GetString([Convert]::FromBase64String('')))"
    );
    assert_eq!(
        powershell_string("你好"),
        "([Text.Encoding]::UTF8.GetString([Convert]::FromBase64String('5L2g5aW9')))"
    );
}

#[test]
fn nushell_path_encodes_the_path_text() {
    assert_eq!(
        nushell_path(path_bytes(Path::new("/home/a'b"))).unwrap(),
        "('L2hvbWUvYSdi' | decode base64 | decode)"
    );
}

#[test]
fn quoted_payload_has_no_single_quote_between_delimiters() {
    let value = "'; Remove-Item -Recurse C:\\ ; '";
    let quoted = powershell_string(value);
    assert_eq!(quoted.matches('\'').count(), 2);
    let nu = nushell_string(value);
    assert_eq!(nu.matches('\'').count(), 2);
}

#[test]
fn posix_string_leaves_safe_words_unquoted() {
    assert_eq!(posix_string("plain"), "plain");
    assert_eq!(posix_string(""), "''");
    assert_eq!(posix_string("a b"), "'a b'");
}

#[test]
fn cmd_literal_length_counts_each_quote_twice() {
    for value in ["", "a\"b", "\"\"\"", "no quotes", "中\"文"] {
        let quotes = value.chars().filter(|c| *c == '"').count();
        assert_eq!(cmd_string(value).chars().count(), value.chars().count() + 2 + quotes);
    }
}

#[test]
fn cmd_literal_byte_length_counts_each_quote_twice() {
    for value in ["", "a\"b", "中\"文🦀"] {
        let quotes = value.matches('"').count();
        assert_eq!(cmd_string(value).len(), value.len() + 2 + quotes);
    }
}

#[test]
fn nushell_literals_pad_short_groups() {
    for (value, encoded) in [("a", "YQ=="), ("ab", "YWI="), ("abc", "YWJj"), ("abcd", "YWJjZA==")] {
        assert_eq!(
            nushell_string(value),
            format!("('{encoded}' | decode base64 | decode)")
        );
    }
}
