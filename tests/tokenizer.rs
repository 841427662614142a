use steamacf::{AcfToken, AcfTokenStream, ParseError};

fn s(x: &str) -> AcfToken {
    AcfToken::String(x.to_string())
}

fn all_tokens(input: &str) -> Result<Vec<AcfToken>, ParseError> {
    let mut t = AcfTokenStream::new(input.as_bytes().to_vec());
    let mut out = Vec::new();
    while let Some(tok) = t.try_next()? {
        out.push(tok);
    }
    Ok(out)
}

#[test]
fn round_trip_tokens() {
    let toks = all_tokens(r#"{"a" "b" "c" {"d" "e"}}"#).unwrap();
    assert_eq!(
        toks,
        vec![
            AcfToken::DictStart,
            s("a"),
            s("b"),
            s("c"),
            AcfToken::DictStart,
            s("d"),
            s("e"),
            AcfToken::DictEnd,
            AcfToken::DictEnd,
        ]
    );
}

#[test]
fn whitespace_is_skipped() {
    let toks = all_tokens(" \t\r\n{\x0b\x0c\"k\"\n\t\"v\" }  ").unwrap();
    assert_eq!(toks, vec![AcfToken::DictStart, s("k"), s("v"), AcfToken::DictEnd]);
}

#[test]
fn empty_input_ends_normally() {
    let mut t = AcfTokenStream::new(Vec::new());
    assert!(matches!(t.try_next(), Ok(None)));
    assert!(matches!(t.try_next(), Ok(None)));
    let mut t = AcfTokenStream::new(b"   \n".to_vec());
    assert!(matches!(t.try_next(), Ok(None)));
}

#[test]
fn empty_string_and_empty_dict() {
    let toks = all_tokens(r#""" {}"#).unwrap();
    assert_eq!(toks, vec![s(""), AcfToken::DictStart, AcfToken::DictEnd]);
}

#[test]
fn unterminated_string() {
    let mut t = AcfTokenStream::new(br#"{"a" "b"#.to_vec());
    assert!(matches!(t.try_next(), Ok(Some(AcfToken::DictStart))));
    assert_eq!(t.try_next().unwrap(), Some(s("a")));
    assert!(matches!(t.try_next(), Err(ParseError::UnterminatedString)));
}

#[test]
fn unexpected_character() {
    let mut t = AcfTokenStream::new(br#"{"a":"b"}"#.to_vec());
    assert!(matches!(t.try_next(), Ok(Some(AcfToken::DictStart))));
    assert_eq!(t.try_next().unwrap(), Some(s("a")));
    assert!(matches!(t.try_next(), Err(ParseError::UnexpectedCharacter(':'))));
    assert!(matches!(all_tokens("7"), Err(ParseError::UnexpectedCharacter('7'))));
}

#[test]
fn no_escape_processing() {
    let toks = all_tokens(r#""a\b" "c\""#).unwrap();
    assert_eq!(toks, vec![s("a\\b"), s("c\\")]);
}

#[test]
fn bytes_map_to_characters_one_for_one() {
    let mut t = AcfTokenStream::new(vec![b'"', 0xe9, b'x', 0xff, b'"']);
    assert_eq!(t.try_next().unwrap(), Some(s("\u{e9}x\u{ff}")));
}

#[test]
fn non_ascii_space_is_not_whitespace() {
    let mut t = AcfTokenStream::new(vec![0xa0, b'{']);
    assert!(matches!(t.try_next(), Err(ParseError::UnexpectedCharacter('\u{a0}'))));
}

#[test]
fn token_equality() {
    assert_eq!(s("x"), s("x"));
    assert_ne!(s("x"), s("y"));
    assert_ne!(s("x"), AcfToken::DictStart);
    assert_ne!(AcfToken::DictStart, AcfToken::DictEnd);
    assert_eq!(AcfToken::DictEnd, AcfToken::DictEnd);
}
