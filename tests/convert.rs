use jc::convert::{convert, render_document, render_next, ConvertError, Conversion, Step};
use jc::json::JsonValue;
use jc::project::{print_header, print_line, Config, RowIssue};

fn config(columns: &[&str], sep: &str) -> Config {
    Config {
        columns: columns.iter().map(|c| c.to_string()).collect(),
        separator: sep.to_string(),
        show_headers: true,
        raw: false,
        no_root: false,
    }
}

fn text(c: &Conversion) -> String {
    String::from_utf8(c.output.clone()).unwrap()
}

#[test]
fn example_two_columns() {
    let cfg = config(&["a", "b"], ",");
    let r = convert(br#"[{"a":1,"b":"x"}]"#, &cfg);
    assert!(r.error.is_none());
    assert_eq!(text(&r), "a,b\n1,\"x\"\n");
}

#[test]
fn header_joined_by_separator() {
    let cfg = config(&["id", "name", "age"], "\t");
    assert_eq!(print_header(&cfg), b"id\tname\tage\n".to_vec());
    let r = convert(br#"[{"id":1,"name":"n","age":2},{"id":3,"name":"m","age":4}]"#, &cfg);
    assert!(r.error.is_none());
    assert_eq!(text(&r), "id\tname\tage\n1\t\"n\"\t2\n3\t\"m\"\t4\n");
}

#[test]
fn header_off() {
    let mut cfg = config(&["a"], ",");
    cfg.show_headers = false;
    assert!(print_header(&cfg).is_empty());
    let r = convert(br#"[{"a":true},{"a":false}]"#, &cfg);
    assert_eq!(text(&r), "true\nfalse\n");
}

#[test]
fn empty_array_gives_header_only() {
    let cfg = config(&["a", "b"], ",");
    let r = convert(b"[]", &cfg);
    assert!(r.error.is_none());
    assert_eq!(text(&r), "a,b\n");
}

#[test]
fn stream_gives_one_line_per_document() {
    let mut cfg = config(&["n"], ",");
    cfg.no_root = true;
    let r = convert(b"{\"n\":1}\n{\"n\":2}  {\"n\":3}{\"n\":4}\n", &cfg);
    assert!(r.error.is_none());
    assert_eq!(text(&r), "n\n1\n2\n3\n4\n");
}

#[test]
fn empty_stream_gives_header_only() {
    let mut cfg = config(&["n"], ",");
    cfg.no_root = true;
    let r = convert(b"  \n", &cfg);
    assert!(r.error.is_none());
    assert_eq!(text(&r), "n\n");
}

#[test]
fn stream_array_is_not_a_record() {
    let mut cfg = config(&["n"], ",");
    cfg.no_root = true;
    let r = convert(br#"[{"n":1}]"#, &cfg);
    assert_eq!(text(&r), "n\n");
    assert!(matches!(r.error, Some(ConvertError::InvalidRecord(JsonValue::Array(_)))));
}

#[test]
fn stream_stops_at_malformed_document() {
    let mut cfg = config(&["n"], ",");
    cfg.no_root = true;
    let r = convert(br#"{"n":1} {"n": } {"n":3}"#, &cfg);
    assert_eq!(text(&r), "n\n1\n");
    assert!(matches!(r.error, Some(ConvertError::Parse(_))));
}

#[test]
fn root_not_array_is_shape_error() {
    let cfg = config(&["a"], ",");
    let r = convert(br#"{"a":1}"#, &cfg);
    assert!(r.output.is_empty());
    assert!(matches!(r.error, Some(ConvertError::Shape)));
}

#[test]
fn malformed_document_is_parse_error() {
    let cfg = config(&["a"], ",");
    for input in [&b"[{\"a\":1}"[..], b"", b"[] x", b"[1,]"] {
        let r = convert(input, &cfg);
        assert!(r.output.is_empty());
        assert!(matches!(r.error, Some(ConvertError::Parse(_))));
    }
}

#[test]
fn raw_string_is_written_as_is() {
    let mut cfg = config(&["s"], ";");
    cfg.raw = true;
    cfg.show_headers = false;
    let r = convert("[{\"s\":\"plain text\"},{\"s\":\"\u{e9}t\u{e9}\"}]".as_bytes(), &cfg);
    assert_eq!(text(&r), "plain text\n\u{e9}t\u{e9}\n");
}

#[test]
fn quoted_string_doubles_quotes() {
    let mut cfg = config(&["s"], ",");
    cfg.show_headers = false;
    let r = convert(br#"[{"s":"a\"b"}]"#, &cfg);
    assert_eq!(text(&r), "\"a\"\"b\"\n");
    let line = text(&r);
    let field = line.trim_end_matches('\n');
    let inner = &field[1..field.len() - 1];
    assert_eq!(inner.replace("\"\"", "\""), "a\"b");
}

#[test]
fn missing_and_null_columns_are_empty() {
    let cfg = config(&["a", "b", "c"], ",");
    let r = convert(br#"[{"a":1,"c":null},{"b":"y"}]"#, &cfg);
    assert!(r.error.is_none());
    assert_eq!(text(&r), "a,b,c\n1,,\n,\"y\",\n");
}

#[test]
fn nested_column_fails_naming_it() {
    let cfg = config(&["a", "b", "c"], ",");
    let r = convert(br#"[{"a":1,"b":2,"c":3},{"a":1,"b":[1],"c":{"x":1}}]"#, &cfg);
    assert_eq!(text(&r), "a,b,c\n1,2,3\n1,");
    match r.error {
        Some(ConvertError::InvalidColumn(c)) => assert_eq!(c, "b"),
        other => panic!("unexpected outcome {:?}", other),
    }
}

#[test]
fn non_object_element_is_invalid_record() {
    let cfg = config(&["a"], ",");
    let r = convert(br#"[{"a":"x"}, 5]"#, &cfg);
    assert_eq!(text(&r), "a\n\"x\"\n");
    match r.error {
        Some(ConvertError::InvalidRecord(JsonValue::Number(n))) => assert_eq!(n, "5"),
        other => panic!("unexpected outcome {:?}", other),
    }
}

#[test]
fn numbers_keep_their_decimal_text() {
    let cfg = config(&["i", "n", "f"], ",");
    let r = convert(br#"[{"i":42,"n":-7,"f":1.5}]"#, &cfg);
    assert_eq!(text(&r), "i,n,f\n42,-7,1.5\n");
}

#[test]
fn multi_byte_separator() {
    let mut cfg = config(&["a", "b"], " | ");
    cfg.raw = true;
    let r = convert(br#"[{"a":"x","b":true}]"#, &cfg);
    assert_eq!(text(&r), "a | b\nx | true\n");
}

#[test]
fn repeated_column_reads_same_field() {
    let cfg = config(&["a", "a"], ",");
    let r = convert(br#"[{"a":7}]"#, &cfg);
    assert_eq!(text(&r), "a,a\n7,7\n");
}

#[test]
fn print_line_on_values() {
    let cfg = config(&["k", "z"], ",");
    let record = JsonValue::Object(vec![
        ("k".to_string(), JsonValue::Str("q\"".to_string())),
        ("z".to_string(), JsonValue::Null),
    ]);
    let mut out = b"x".to_vec();
    assert_eq!(print_line(&record, &cfg, &mut out), Ok(()));
    assert_eq!(out, b"x\"q\"\"\",\n".to_vec());
    let mut out = Vec::new();
    assert_eq!(print_line(&JsonValue::Bool(true), &cfg, &mut out), Err(RowIssue::NotObject));
    assert!(out.is_empty());
}

#[test]
fn render_document_on_values() {
    let cfg = config(&["k"], ",");
    let doc = JsonValue::Array(vec![JsonValue::Object(vec![(
        "k".to_string(),
        JsonValue::Number("3".to_string()),
    )])]);
    let r = render_document(doc, &cfg);
    assert!(r.error.is_none());
    assert_eq!(text(&r), "k\n3\n");
    let r = render_document(JsonValue::Null, &cfg);
    assert!(matches!(r.error, Some(ConvertError::Shape)));
}

#[test]
fn lines_split_back_into_fields() {
    let cfg = config(&["s", "n", "b", "z", "m"], ";");
    let r = convert(br#"[{"s":"say \"hi\"","n":12,"b":false,"z":null},{"s":"","n":0,"b":true,"m":"q"}]"#, &cfg);
    assert!(r.error.is_none());
    let out = text(&r);
    let mut lines = out.lines();
    assert_eq!(lines.next(), Some("s;n;b;z;m"));
    let unquote = |f: &str| -> String {
        if f.len() >= 2 && f.starts_with('"') && f.ends_with('"') {
            f[1..f.len() - 1].replace("\"\"", "\"")
        } else {
            f.to_string()
        }
    };
    let first: Vec<String> = lines.next().unwrap().split(';').map(unquote).collect();
    assert_eq!(first, vec!["say \"hi\"", "12", "false", "", ""]);
    let second: Vec<String> = lines.next().unwrap().split(';').map(unquote).collect();
    assert_eq!(second, vec!["", "0", "true", "", "q"]);
    assert_eq!(lines.next(), None);
}

#[test]
fn nested_column_keeps_earlier_fields() {
    let cfg = config(&["a", "b", "c", "d"], "||");
    let record = JsonValue::Object(vec![
        ("a".to_string(), JsonValue::Str("x".to_string())),
        ("b".to_string(), JsonValue::Number("2".to_string())),
        ("c".to_string(), JsonValue::Object(vec![])),
        ("d".to_string(), JsonValue::Array(vec![])),
    ]);
    let mut out = Vec::new();
    assert_eq!(
        print_line(&record, &cfg, &mut out),
        Err(RowIssue::NestedColumn("c".to_string()))
    );
    assert_eq!(out, b"\"x\"||2||".to_vec());
}

#[test]
fn nested_first_column_writes_nothing_of_the_line() {
    let mut cfg = config(&["a", "b"], ",");
    cfg.no_root = true;
    let r = convert(br#"{"a":1,"b":2} {"a":[1],"b":2} {"a":3,"b":4}"#, &cfg);
    assert_eq!(text(&r), "a,b\n1,2\n");
    match r.error {
        Some(ConvertError::InvalidColumn(c)) => assert_eq!(c, "a"),
        other => panic!("unexpected outcome {:?}", other),
    }
}

#[test]
fn stream_partial_line_before_nested_column() {
    let mut cfg = config(&["a", "b"], ",");
    cfg.no_root = true;
    cfg.show_headers = false;
    let r = convert(br#"{"a":"p","b":{"x":1}}"#, &cfg);
    assert_eq!(text(&r), "\"p\",");
    assert!(matches!(r.error, Some(ConvertError::InvalidColumn(_))));
}

#[test]
fn stream_steps_one_document_at_a_time() {
    let cfg = config(&["n"], ",");
    let input = b" {\"n\":1}\n{\"n\":2} ";
    let mut out = Vec::new();
    let first = render_next(input, 0, &cfg, &mut out);
    let next = match first {
        Step::Next(p) => p,
        other => panic!("unexpected step {:?}", other),
    };
    assert_eq!(next, 8);
    assert_eq!(out, b"1\n".to_vec());
    let second = render_next(input, next, &cfg, &mut out);
    let next = match second {
        Step::Next(p) => p,
        other => panic!("unexpected step {:?}", other),
    };
    assert_eq!(next, 16);
    assert_eq!(out, b"1\n2\n".to_vec());
    assert!(matches!(render_next(input, next, &cfg, &mut out), Step::End));
    assert!(matches!(
        render_next(b"{\"n\":", 0, &cfg, &mut out),
        Step::Stop(ConvertError::Parse(_))
    ));
}
