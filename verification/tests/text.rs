use dpp::util::text::{ascii_bytes, same_text};

#[test]
fn ascii_bytes_only_of_ascii_text() {
    assert_eq!(ascii_bytes("abc"), Some(&b"abc"[..]));
    assert_eq!(ascii_bytes(""), Some(&b""[..]));
    assert_eq!(ascii_bytes("\u{7f}"), Some(&[0x7fu8][..]));
    assert_eq!(ascii_bytes("\u{80}"), None);
    assert_eq!(ascii_bytes("abcé"), None);
}

#[test]
fn same_text_compares_characters() {
    assert!(same_text("", ""));
    assert!(same_text("base58", "base58"));
    assert!(!same_text("base58", "base64"));
    assert!(!same_text("base58", "base5"));
    assert!(!same_text("base5", "base58"));
    assert!(same_text("é", "\u{e9}"));
    assert!(!same_text("é", "e"));
}
