use steamacf::{AcfToken, AcfTokenStream, ParseError, StreamError, StructuredAcfTokenStream};

fn s(x: &str) -> AcfToken {
    AcfToken::String(x.to_string())
}

fn nav(input: &str) -> StructuredAcfTokenStream {
    StructuredAcfTokenStream::new(AcfTokenStream::new(input.as_bytes().to_vec()))
}

const DOC: &str = r#"{"a" "b" "c" {"d" "e"}}"#;

#[test]
fn depth_follows_braces() {
    let mut n = nav(DOC);
    assert_eq!(n.depth(), 0);
    let mut depths = Vec::new();
    while let Some(_) = n.try_next().unwrap() {
        depths.push(n.depth());
    }
    assert_eq!(depths, vec![1, 1, 1, 1, 2, 2, 2, 1, 0]);
    assert!(matches!(n.try_next(), Ok(None)));
    assert_eq!(n.depth(), 0);
}

#[test]
fn select_path_reaches_nested_value() {
    let mut n = nav(DOC);
    n.expect(AcfToken::DictStart).unwrap();
    n.select_path(&["c", "d"]).unwrap();
    assert_eq!(n.expect_next().unwrap(), s("e"));
    assert_eq!(n.depth(), 2);
}

#[test]
fn select_missing_key() {
    let mut n = nav(r#"{"x" "1"}"#);
    n.expect(AcfToken::DictStart).unwrap();
    assert_eq!(n.depth(), 1);
    assert_eq!(n.select("missing").unwrap(), None);
    assert_eq!(n.depth(), 0);
    assert!(matches!(n.try_next(), Ok(None)));
}

#[test]
fn select_missing_key_leaves_cursor_after_its_dict() {
    let mut n = nav(r#"{"x" "1"} "after""#);
    n.expect(AcfToken::DictStart).unwrap();
    assert_eq!(n.select("missing").unwrap(), None);
    assert_eq!(n.expect_next().unwrap(), s("after"));
}

#[test]
fn select_skips_sibling_subtrees() {
    let mut n = nav(r#"{"p" {"target" {"q" "r"}} "target" "hit"}"#);
    n.expect(AcfToken::DictStart).unwrap();
    assert_eq!(n.select("target").unwrap(), Some(()));
    assert_eq!(n.depth(), 1);
    assert_eq!(n.expect_next().unwrap(), s("hit"));
}

#[test]
fn select_at_end_of_input() {
    let mut n = nav(r#""k" "v""#);
    assert_eq!(n.select("none").unwrap(), None);
    assert_eq!(n.depth(), 0);
}

#[test]
fn close_dict_restores_depth_at_every_level() {
    for depth in 1..6i64 {
        let mut doc = String::new();
        for _ in 0..depth {
            doc.push_str("{\"k\" ");
        }
        doc.push_str("\"v\"");
        for _ in 0..depth {
            doc.push('}');
        }
        doc.push_str(" \"tail\"");
        let mut n = nav(&doc);
        for _ in 0..depth {
            n.expect(AcfToken::DictStart).unwrap();
            n.expect(s("k")).unwrap();
        }
        assert_eq!(n.depth(), depth);
        for level in (0..depth).rev() {
            n.close_dict().unwrap();
            assert_eq!(n.depth(), level);
        }
        assert_eq!(n.expect_next().unwrap(), s("tail"));
    }
}

#[test]
fn close_dict_skips_nested_dicts() {
    let mut n = nav(r#"{"a" {"b" {"c" "d"}} "e" "f"} "g""#);
    n.expect(AcfToken::DictStart).unwrap();
    n.close_dict().unwrap();
    assert_eq!(n.depth(), 0);
    assert_eq!(n.expect_next().unwrap(), s("g"));
}

#[test]
fn close_dict_at_end_of_input() {
    let mut n = nav(r#"{"a" "b""#);
    n.expect(AcfToken::DictStart).unwrap();
    assert!(matches!(n.close_dict(), Err(StreamError::Parse(ParseError::UnexpectedEof))));
}

#[test]
fn empty_path_selects_without_reading() {
    let mut n = nav(DOC);
    let empty: [&str; 0] = [];
    n.select_path(&empty).unwrap();
    assert_eq!(n.try_select_path(&empty).unwrap(), Some(()));
    assert_eq!(n.depth(), 0);
    assert_eq!(n.expect_next().unwrap(), AcfToken::DictStart);
}

#[test]
fn select_path_not_found() {
    let mut n = nav(DOC);
    n.expect(AcfToken::DictStart).unwrap();
    match n.select_path(&["c", "zz"]) {
        Err(StreamError::PathNotFound(p)) => {
            assert_eq!(p, vec!["c".to_string(), "zz".to_string()])
        }
        other => panic!("unexpected {:?}", other),
    }
    let mut n = nav(DOC);
    n.expect(AcfToken::DictStart).unwrap();
    assert_eq!(n.try_select_path(&["nope"]).unwrap(), None);
}

#[test]
fn select_path_into_string_value() {
    let mut n = nav(DOC);
    n.expect(AcfToken::DictStart).unwrap();
    match n.select_path(&["a", "b"]) {
        Err(StreamError::UnexpectedToken(t)) => assert_eq!(t, s("b")),
        other => panic!("unexpected {:?}", other),
    }
}

#[test]
fn expect_reports_the_actual_token() {
    let mut n = nav(r#""x""#);
    match n.expect(AcfToken::DictStart) {
        Err(StreamError::UnexpectedToken(t)) => assert_eq!(t, s("x")),
        other => panic!("unexpected {:?}", other),
    }
}

#[test]
fn expect_next_at_end() {
    let mut n = nav("  ");
    assert!(matches!(n.expect_next(), Err(StreamError::Parse(ParseError::UnexpectedEof))));
}

#[test]
fn parse_errors_pass_through() {
    let mut n = nav(r#"{"a" "b"#);
    n.expect(AcfToken::DictStart).unwrap();
    assert!(matches!(
        n.select("zz"),
        Err(StreamError::Parse(ParseError::UnterminatedString))
    ));
    let mut n = nav("{ x");
    n.expect(AcfToken::DictStart).unwrap();
    assert!(matches!(
        n.try_next(),
        Err(StreamError::Parse(ParseError::UnexpectedCharacter('x')))
    ));
}
