use sexp_cursor::{Error, Token, parse, parse_strict};

const PCI: &[u8] = br#"(pci-drivers
	(1af4 ; Red Hat
		(1000 "drivers/pci/virtio/net")
		(1001 "drivers/pci/virtio/blk")
		(1050 "drivers/pci/virtio/gpu"))
	(8086 ; Intel
		(1616 "drivers/pci/intel/hd graphics"))) ; intentional space"#;

#[test]
fn example_pci() {
    let t = PCI;
    let mut it = parse(t);
    assert_eq!(it.next(), Some(Ok(Token::Begin)));
    assert_eq!(it.next(), Some(Ok(Token::Str("pci-drivers"))));
    assert_eq!(it.next(), Some(Ok(Token::Begin)));
    assert_eq!(it.next(), Some(Ok(Token::Str("1af4"))));
    assert_eq!(it.next(), Some(Ok(Token::Begin)));
    assert_eq!(it.next(), Some(Ok(Token::Str("1000"))));
    assert_eq!(it.next(), Some(Ok(Token::Str("drivers/pci/virtio/net"))));
    assert_eq!(it.next(), Some(Ok(Token::End)));
    assert_eq!(it.next(), Some(Ok(Token::Begin)));
    assert_eq!(it.next(), Some(Ok(Token::Str("1001"))));
    assert_eq!(it.next(), Some(Ok(Token::Str("drivers/pci/virtio/blk"))));
    assert_eq!(it.next(), Some(Ok(Token::End)));
    assert_eq!(it.next(), Some(Ok(Token::Begin)));
    assert_eq!(it.next(), Some(Ok(Token::Str("1050"))));
    assert_eq!(it.next(), Some(Ok(Token::Str("drivers/pci/virtio/gpu"))));
    assert_eq!(it.next(), Some(Ok(Token::End)));
    assert_eq!(it.next(), Some(Ok(Token::End)));
    assert_eq!(it.next(), Some(Ok(Token::Begin)));
    assert_eq!(it.next(), Some(Ok(Token::Str("8086"))));
    assert_eq!(it.next(), Some(Ok(Token::Begin)));
    assert_eq!(it.next(), Some(Ok(Token::Str("1616"))));
    assert_eq!(
        it.next(),
        Some(Ok(Token::Str("drivers/pci/intel/hd graphics")))
    );
    assert_eq!(it.next(), Some(Ok(Token::End)));
    assert_eq!(it.next(), Some(Ok(Token::End)));
    assert_eq!(it.next(), Some(Ok(Token::End)));
    assert_eq!(it.next(), None);
}

#[test]
fn tokens_quote_escape_keeps_string_open() {
    let mut it = parse(br#"("a\"b" c)"#);
    assert_eq!(it.next(), Some(Ok(Token::Begin)));
    assert_eq!(it.next(), Some(Ok(Token::Str(r#"a\"b"#))));
    assert_eq!(it.next(), Some(Ok(Token::Str("c"))));
    assert_eq!(it.next(), Some(Ok(Token::End)));
    assert_eq!(it.next(), None);
}

#[test]
fn tokens_single_quotes_and_comment_at_end() {
    let mut it = parse(b"'x y' ; rest\n");
    assert_eq!(it.next(), Some(Ok(Token::Str("x y"))));
    assert_eq!(it.next(), None);
    assert_eq!(it.next(), None);
}

#[test]
fn tokens_empty_input() {
    let mut it = parse(b"");
    assert_eq!(it.next(), None);
    let mut it = parse(b" \t\r\n ; only a comment");
    assert_eq!(it.next(), None);
}

#[test]
fn tokens_atom_stops_at_parenthesis() {
    let mut it = parse(b"ab(cd)ef");
    assert_eq!(it.next(), Some(Ok(Token::Str("ab"))));
    assert_eq!(it.next(), Some(Ok(Token::Begin)));
    assert_eq!(it.next(), Some(Ok(Token::Str("cd"))));
    assert_eq!(it.next(), Some(Ok(Token::End)));
    assert_eq!(it.next(), Some(Ok(Token::Str("ef"))));
    assert_eq!(it.next(), None);
}

#[test]
fn tokens_unterminated_quote_is_final() {
    let mut it = parse(b"(\"unterminated");
    assert_eq!(it.next(), Some(Ok(Token::Begin)));
    assert_eq!(it.next(), Some(Err(Error::UnterminatedQuote)));
    assert_eq!(it.next(), None);
    assert_eq!(it.next(), None);
}

#[test]
fn tokens_trailing_backslash_is_unterminated() {
    let mut it = parse(b"'ab\\");
    assert_eq!(it.next(), Some(Err(Error::UnterminatedQuote)));
    assert_eq!(it.next(), None);
}

#[test]
fn tokens_invalid_utf8_is_final() {
    let mut it = parse(b"(a \xff b)");
    assert_eq!(it.next(), Some(Ok(Token::Begin)));
    assert_eq!(it.next(), Some(Ok(Token::Str("a"))));
    assert_eq!(it.next(), Some(Err(Error::InvalidUtf8)));
    assert_eq!(it.next(), None);
    assert_eq!(it.next(), None);
    let mut it = parse(b"\"\xc3\x28\"");
    assert_eq!(it.next(), Some(Err(Error::InvalidUtf8)));
    assert_eq!(it.next(), None);
}

#[test]
fn tokens_multibyte_text() {
    let mut it = parse("(caf\u{e9} \"\u{3bb} x\")".as_bytes());
    assert_eq!(it.next(), Some(Ok(Token::Begin)));
    assert_eq!(it.next(), Some(Ok(Token::Str("caf\u{e9}"))));
    assert_eq!(it.next(), Some(Ok(Token::Str("\u{3bb} x"))));
    assert_eq!(it.next(), Some(Ok(Token::End)));
    assert_eq!(it.next(), None);
}

#[test]
fn tokens_control_byte_in_atom() {
    let mut it = parse_strict(b"(a\x01b)");
    assert_eq!(it.next(), Some(Ok(Token::Begin)));
    assert_eq!(it.next(), Some(Err(Error::InvalidSymbolChar)));
    assert_eq!(it.next(), None);
    let mut it = parse(b"(a\x01b)");
    assert_eq!(it.next(), Some(Ok(Token::Begin)));
    assert_eq!(it.next(), Some(Ok(Token::Str("a\u{1}b"))));
    assert_eq!(it.next(), Some(Ok(Token::End)));
    assert_eq!(it.next(), None);
}

#[test]
fn tokens_strict_allows_quoted_space_and_non_ascii() {
    let mut it = parse_strict("(ok \"a \u{e9}\")".as_bytes());
    assert_eq!(it.next(), Some(Ok(Token::Begin)));
    assert_eq!(it.next(), Some(Ok(Token::Str("ok"))));
    assert_eq!(it.next(), Some(Ok(Token::Str("a \u{e9}"))));
    assert_eq!(it.next(), Some(Ok(Token::End)));
    let mut it = parse_strict("\u{e9}".as_bytes());
    assert_eq!(it.next(), Some(Err(Error::InvalidSymbolChar)));
}

#[test]
fn token_into_str() {
    assert_eq!(Token::Str("x").into_str(), Some("x"));
    assert_eq!(Token::Begin.into_str(), None);
    assert_eq!(Token::End.into_str(), None);
}

#[test]
fn error_marks_round_trip() {
    for e in [Error::UnterminatedQuote, Error::InvalidSymbolChar, Error::InvalidUtf8] {
        assert_eq!(Error::from_num(e.into_num()), Some(e));
    }
    assert_eq!(Error::UnterminatedQuote.into_num(), usize::MAX);
    assert_eq!(Error::InvalidSymbolChar.into_num(), usize::MAX - 1);
    assert_eq!(Error::InvalidUtf8.into_num(), usize::MAX - 2);
    for n in [0usize, 1, 17, isize::MAX as usize, usize::MAX - 3] {
        assert_eq!(Error::from_num(n), None);
    }
}
