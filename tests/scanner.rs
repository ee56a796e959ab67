use keyboard_config::model::{Key, text_is};
use keyboard_config::scanner::{scan_input, scan_int, scan_string, Bracket, BracketType, ScanToken};

#[test]
fn punctuation_maps_to_tokens() {
    let t = scan_input("( ) [ ] { } , ; :".as_bytes());
    assert_eq!(
        t,
        vec![
            ScanToken::Bracket(Bracket { right: false, ty: BracketType::Paren }),
            ScanToken::Bracket(Bracket { right: true, ty: BracketType::Paren }),
            ScanToken::Bracket(Bracket { right: false, ty: BracketType::Square }),
            ScanToken::Bracket(Bracket { right: true, ty: BracketType::Square }),
            ScanToken::Bracket(Bracket { right: false, ty: BracketType::Curly }),
            ScanToken::Bracket(Bracket { right: true, ty: BracketType::Curly }),
            ScanToken::Comma,
            ScanToken::Semicolon,
            ScanToken::Colon,
        ]
    );
}

#[test]
fn identifiers_and_integers() {
    let t = scan_input("ab_1 42x".as_bytes());
    assert_eq!(
        t,
        vec![
            ScanToken::Ident("ab_1".to_owned()),
            ScanToken::Int(42),
            ScanToken::Ident("x".to_owned()),
        ]
    );
}

#[test]
fn other_bytes_are_skipped() {
    let t = scan_input("  _ @ #\n\tk".as_bytes());
    assert_eq!(t, vec![ScanToken::Ident("k".to_owned())]);
    assert_eq!(scan_input("".as_bytes()), vec![]);
}

#[test]
fn integers_saturate() {
    assert_eq!(scan_input("4294967295".as_bytes()), vec![ScanToken::Int(u32::MAX)]);
    assert_eq!(scan_input("4294967296".as_bytes()), vec![ScanToken::Int(u32::MAX)]);
    assert_eq!(scan_input("99999999999999".as_bytes()), vec![ScanToken::Int(u32::MAX)]);
    assert_eq!(scan_input("4294967294".as_bytes()), vec![ScanToken::Int(4294967294)]);
}

#[test]
fn scan_helpers_report_end() {
    assert_eq!(scan_string("x LCTL_2;".as_bytes(), 2), ("LCTL_2".to_owned(), 8));
    assert_eq!(scan_int("a 150,".as_bytes(), 2), (150, 5));
}

#[test]
fn key_names() {
    assert_eq!(Key::from_name("LCTL"), Some(Key::LCTL));
    assert_eq!(Key::from_name("DN"), Some(Key::DN));
    assert_eq!(Key::from_name("N0"), Some(Key::N0));
    assert_eq!(Key::from_name("ZZ9"), None);
    assert_eq!(Key::from_name("a"), None);
    assert!(text_is("abc", "abc"));
    assert!(!text_is("abc", "abd"));
}

#[test]
fn bracket_converts_to_token() {
    let b = Bracket { right: true, ty: BracketType::Square };
    assert_eq!(ScanToken::from(b), ScanToken::Bracket(b));
}
