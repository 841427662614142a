use steamacf::{
    pipe_to_json, AcfToken, AcfTokenStream, JsonWriter, JsonWriterCfg, ParseError, StreamError,
};

fn render(cfg: JsonWriterCfg, input: &str) -> (String, Result<(), StreamError>) {
    let mut out = String::new();
    let r = pipe_to_json(cfg, AcfTokenStream::new(input.as_bytes().to_vec()), &mut out);
    (out, r)
}

const DOC: &str = r#"{"a" "b" "c" {"d" "e"}}"#;

#[test]
fn compact_round_trip() {
    let (out, r) = render(JsonWriterCfg::Compact, DOC);
    r.unwrap();
    assert_eq!(out, r#"{"a":"b","c":{"d":"e"}}"#);
}

#[test]
fn pretty_output() {
    let (out, r) = render(JsonWriterCfg::Pretty { indent: 2 }, DOC);
    r.unwrap();
    assert_eq!(out, "{\n  \"a\": \"b\",\n  \"c\": {\n    \"d\": \"e\"\n  }\n}");
}

#[test]
fn pretty_with_zero_indent() {
    let (out, r) = render(JsonWriterCfg::Pretty { indent: 0 }, r#"{"k" "v"}"#);
    r.unwrap();
    assert_eq!(out, "{\n\"k\": \"v\"\n}");
}

#[test]
fn emission_is_stable() {
    let tight = render(JsonWriterCfg::Pretty { indent: 3 }, DOC);
    let loose = render(
        JsonWriterCfg::Pretty { indent: 3 },
        "\n{ \"a\"\t\"b\"\r\n \"c\"   {\"d\" \"e\" } }\n",
    );
    let again = render(JsonWriterCfg::Pretty { indent: 3 }, DOC);
    assert!(tight.1.is_ok() && loose.1.is_ok() && again.1.is_ok());
    assert_eq!(tight.0, loose.0);
    assert_eq!(tight.0, again.0);
}

#[test]
fn document_without_outer_braces() {
    let (out, r) = render(JsonWriterCfg::Compact, r#""AppState" {"appid" "10" "name" "x"}"#);
    r.unwrap();
    assert_eq!(out, r#"{"AppState":{"appid":"10","name":"x"}}"#);
}

#[test]
fn empty_documents() {
    let (out, r) = render(JsonWriterCfg::Compact, "");
    r.unwrap();
    assert_eq!(out, "{}");
    let (out, r) = render(JsonWriterCfg::Pretty { indent: 2 }, "{}");
    r.unwrap();
    assert_eq!(out, "{\n}");
}

#[test]
fn end_of_input_closes_open_objects() {
    let (out, r) = render(JsonWriterCfg::Compact, r#"{"a" {"b" "c""#);
    r.unwrap();
    assert_eq!(out, r#"{"a":{"b":"c"}}"#);
}

#[test]
fn tokens_after_the_object_are_not_read() {
    let mut tokens = AcfTokenStream::new(br#"{"a" "b"} "rest""#.to_vec());
    let mut w = JsonWriter::new(JsonWriterCfg::Compact, String::new());
    w.write(&mut tokens).unwrap();
    assert_eq!(w.out, r#"{"a":"b"}"#);
    assert_eq!(w.depth, 0);
    assert_eq!(tokens.try_next().unwrap(), Some(AcfToken::String("rest".to_string())));
}

#[test]
fn missing_value() {
    let (out, r) = render(JsonWriterCfg::Compact, r#"{"a" }"#);
    match r {
        Err(StreamError::UnexpectedToken(t)) => assert_eq!(t, AcfToken::DictEnd),
        other => panic!("unexpected {:?}", other),
    }
    assert_eq!(out, r#"{"a":"#);
}

#[test]
fn dict_where_a_key_is_due() {
    let (_, r) = render(JsonWriterCfg::Compact, r#"{"a" "b" {"x" "y"}}"#);
    match r {
        Err(StreamError::UnexpectedToken(t)) => assert_eq!(t, AcfToken::DictStart),
        other => panic!("unexpected {:?}", other),
    }
}

#[test]
fn value_missing_at_end_of_input() {
    let (out, r) = render(JsonWriterCfg::Compact, r#"{"x" "1" "a""#);
    assert!(matches!(r, Err(StreamError::Parse(ParseError::UnexpectedEof))));
    assert_eq!(out, r#"{"x":"1","a":"#);
}

#[test]
fn unterminated_string_in_document() {
    let (_, r) = render(JsonWriterCfg::Compact, r#"{"a" "b"#);
    assert!(matches!(r, Err(StreamError::Parse(ParseError::UnterminatedString))));
}

#[test]
fn output_is_appended() {
    let mut out = String::from("> ");
    pipe_to_json(JsonWriterCfg::Compact, AcfTokenStream::new(br#""k" "v""#.to_vec()), &mut out)
        .unwrap();
    assert_eq!(out, r#"> {"k":"v"}"#);
}

#[test]
fn writer_primitives() {
    let mut w = JsonWriter::new(JsonWriterCfg::Pretty { indent: 4 }, String::new());
    w.begin_obj();
    assert_eq!(w.depth, 1);
    w.begin_field("k");
    w.string_value("v");
    w.end_field();
    w.begin_field("n");
    w.begin_obj();
    w.end_obj();
    w.end_obj();
    assert_eq!(w.depth, 0);
    assert_eq!(w.out, "{\n    \"k\": \"v\",\n    \"n\": {\n    }\n}");
    let mut c = JsonWriter::new(JsonWriterCfg::Compact, String::from("x"));
    c.begin_obj();
    c.begin_field("k");
    c.string_value("v");
    c.end_obj();
    assert_eq!(c.out, "x{\"k\":\"v\"}");
    assert_eq!(c.cfg, JsonWriterCfg::Compact);
}
