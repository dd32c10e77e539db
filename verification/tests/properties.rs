use rusty_me::{
    Document, Field, FieldMap, LineParseError, ParseError, ParseErrorKind, Record, Token,
    encode_fields, encode_lines, encode_map, escape_value, normalize, normalize_document,
    normalize_document_strict, normalize_lines, normalize_lines_strict, parse, parse_fields,
    parse_lines, parse_lines_lossy, parse_lines_strict, parse_record, parse_record_strict,
    parse_strict, parse_to_map, tokenize, unescape_value,
};

#[test]
fn escape_then_unescape_gives_the_value_back() {
    for raw in [
        "",
        "plain",
        "a=b",
        "tab\there",
        "cr\rlf\n",
        "back\\slash",
        "\"quoted\"",
        "form\u{0C}feed",
        "caf\u{e9} \u{1F600}",
        "x\\",
        "esc\u{1b}[0m",
    ] {
        assert_eq!(unescape_value(&escape_value(raw)).unwrap(), raw);
    }
}

#[test]
fn escape_value_exact_forms() {
    assert_eq!(escape_value("a=b"), "a=b");
    assert_eq!(escape_value("x\\"), "\"x\\\\\"");
    assert_eq!(escape_value("cr\r"), "\"cr\\r\"");
    assert_eq!(escape_value("\u{0C}"), "\"\u{0C}\"");
    assert_eq!(escape_value("\u{a0}"), "\"\u{a0}\"");
    assert_eq!(escape_value("a\u{a0}b"), "\"a\u{a0}b\"");
    assert_eq!(escape_value("x\u{2028}"), "\"x\u{2028}\"");
    assert_eq!(escape_value("bell\u{7}"), "\"bell\u{7}\"");
    assert_eq!(escape_value("\u{7f}"), "\"\u{7f}\"");
    assert_eq!(escape_value("\u{9f}x"), "\"\u{9f}x\"");
    assert_eq!(escape_value("\u{a1}x"), "\u{a1}x");
}

#[test]
fn unescape_value_leaves_unquoted_input_alone() {
    assert_eq!(unescape_value("plain\\n").unwrap(), "plain\\n");
    assert_eq!(unescape_value("").unwrap(), "");
    assert_eq!(unescape_value("a\"b").unwrap(), "a\"b");
}

#[test]
fn unescape_value_reads_unknown_escapes_as_the_character() {
    assert_eq!(unescape_value("\"\\q\\t\"").unwrap(), "q\t");
}

#[test]
fn unescape_value_refuses_a_trailing_backslash() {
    assert_eq!(
        unescape_value("\"abc\\").unwrap_err(),
        ParseError { position: 0, kind: ParseErrorKind::UnterminatedQuote }
    );
}

#[test]
fn strict_parser_reads_encoded_fields_back() {
    let fields = vec![
        Field::flag("a\"b"),
        Field::pair("k", "v=w"),
        Field::pair("empty", ""),
        Field::pair("tab", "x\ty"),
        Field::pair("q", "\"\\"),
        Field::flag("caf\u{e9}"),
    ];
    let encoded = encode_fields(&fields);
    assert_eq!(parse_strict(&encoded).unwrap(), fields);
    assert_eq!(parse_fields(&encoded), fields);
}

#[test]
fn lenient_parser_reads_normalized_output_back() {
    let input = "a=1  b=\"two words\" c e=\"\" f=\"esc\\\"aped\" d=";
    let fields = parse_fields(input);
    assert_eq!(parse_fields(&normalize(input)), fields);
}

#[test]
fn keys_that_would_not_read_back_bare_are_written_quoted() {
    let fields = vec![
        Field::flag("a b"),
        Field::flag(""),
        Field::pair("x=y", "1"),
        Field::pair("\"q", "2"),
        Field::flag("\u{a0}"),
        Field::pair("a\"b", "3"),
    ];
    let encoded = encode_fields(&fields);
    assert_eq!(encoded, "\"a b\" \"\" \"x=y\"=1 \"\\\"q\"=2 \"\u{a0}\" a\"b=3");
    assert_eq!(parse_fields(&encoded), fields);
}

#[test]
fn a_lenient_parse_reads_back_from_its_encoding() {
    for input in ["\"a b\" c", "\"\"=v", "\"k=1\"", "a= b", "=x \"\"", "\u{a0} z=\"\""] {
        let fields = parse_fields(input);
        assert_eq!(parse_fields(&encode_fields(&fields)), fields);
    }
}

#[test]
fn line_parsers_read_encoded_records_back() {
    let records = vec![
        vec![Field::pair("level", "info")],
        vec![Field::flag("debug"), Field::pair("msg", "line 1\nline 2\r")],
        vec![Field::pair("empty", "")],
    ];
    let encoded = encode_lines(&records);
    assert_eq!(parse_lines_strict(&encoded).unwrap(), records);
    assert_eq!(parse_lines(&encoded), records);
}

#[test]
fn a_record_of_blank_keys_reads_back() {
    let records = vec![vec![Field::flag("\u{a0}")]];
    let encoded = encode_lines(&records);
    assert_eq!(encoded, "\"\u{a0}\"");
    assert_eq!(parse_lines(&encoded), records);
}

#[test]
fn tokenize_is_empty_exactly_on_ascii_whitespace() {
    assert!(tokenize("").is_empty());
    assert!(tokenize(" \t\r\n\u{0C}").is_empty());
    assert_eq!(tokenize("\u{a0}"), vec![Token::Atom("\u{a0}".into())]);
    assert_eq!(tokenize("="), vec![Token::Equal]);
    assert_eq!(tokenize("\"\""), vec![Token::Atom(String::new())]);
}

#[test]
fn tokenize_handles_equals_and_quotes() {
    assert_eq!(
        tokenize("=x a= b \"q\"=v"),
        vec![
            Token::Equal,
            Token::Atom("x".into()),
            Token::Atom("a".into()),
            Token::Equal,
            Token::Atom(String::new()),
            Token::Atom("b".into()),
            Token::Atom("q".into()),
            Token::Equal,
            Token::Atom("v".into()),
        ]
    );
}

#[test]
fn lossy_and_strict_line_parsers_agree() {
    let good = "a=1\n\nb c=\"d\"\n";
    let (records, errors) = parse_lines_lossy(good);
    assert!(errors.is_empty());
    assert_eq!(records, parse_lines_strict(good).unwrap());

    let bad = "a=1\nx=\"open\n=y\nz";
    let (records, errors) = parse_lines_lossy(bad);
    assert_eq!(records, vec![vec![Field::pair("a", "1")], vec![Field::flag("z")]]);
    assert_eq!(errors[0], parse_lines_strict(bad).unwrap_err());
    assert_eq!(
        errors,
        vec![
            LineParseError {
                line: 2,
                error: ParseError { position: 2, kind: ParseErrorKind::UnterminatedQuote },
            },
            LineParseError {
                line: 3,
                error: ParseError { position: 0, kind: ParseErrorKind::MissingKey },
            },
        ]
    );
}

#[test]
fn lenient_and_strict_agree_without_bare_pairs_before_other_fields() {
    let input = "a=1 b=\"x y\" c d= ";
    assert_eq!(parse_fields(input), parse_strict(input).unwrap());
}

#[test]
fn a_bare_equals_gives_the_empty_value_in_both_parsers() {
    let input = "a= b c=\td=";
    let expected = vec![
        Field::pair("a", ""),
        Field::flag("b"),
        Field::pair("c", ""),
        Field::pair("d", ""),
    ];
    assert_eq!(parse_fields(input), expected);
    assert_eq!(parse_strict(input).unwrap(), expected);
    assert_eq!(parse_lines("a= b\nc"), parse_lines_strict("a= b\nc").unwrap());
}

#[test]
fn strict_errors_report_byte_offsets() {
    assert_eq!(
        parse_strict("\u{e9}\u{e9} =x").unwrap_err(),
        ParseError { position: 5, kind: ParseErrorKind::MissingKey }
    );
    assert_eq!(
        parse_strict("k=v \u{1F600} \"q").unwrap_err(),
        ParseError { position: 9, kind: ParseErrorKind::UnexpectedQuote }
    );
    assert_eq!(
        parse_strict("\u{e9}=\"x\\").unwrap_err(),
        ParseError { position: 3, kind: ParseErrorKind::UnterminatedQuote }
    );
}

#[test]
fn strict_parser_accepts_quoted_values_followed_by_words() {
    assert_eq!(
        parse_strict("a=\"x\"y b=c=d").unwrap(),
        vec![Field::pair("a", "x"), Field::flag("y"), Field::pair("b", "c=d")]
    );
}

#[test]
fn lines_follow_str_lines() {
    let records = parse_lines("a\r\nb\rc\n\nd\n");
    assert_eq!(
        records,
        vec![
            vec![Field::flag("a")],
            vec![Field::flag("b"), Field::flag("c")],
            vec![Field::flag("d")]
        ]
    );
    assert!(parse_lines("").is_empty());
    assert!(parse_lines("\u{a0}\n \t").is_empty());
}

#[test]
fn strict_line_numbers_count_blank_lines() {
    assert_eq!(
        parse_lines_strict("\n \nok\n\"x").unwrap_err(),
        LineParseError {
            line: 4,
            error: ParseError { position: 0, kind: ParseErrorKind::UnexpectedQuote },
        }
    );
}

#[test]
fn parse_gives_flags_the_empty_value() {
    assert_eq!(
        parse("f k=v"),
        vec![("f".to_string(), String::new()), ("k".to_string(), "v".to_string())]
    );
    assert_eq!(parse("a b c").len(), parse_fields("a b c").len());
}

#[test]
fn parse_record_matches_parse_fields() {
    let input = "x=1 y \"z\"";
    assert_eq!(parse_record(input).fields(), parse_fields(input).as_slice());
}

#[test]
fn map_keeps_the_last_value_and_sorts_keys() {
    let map = parse_to_map("z=1 a b=2 z a=3 b");
    assert_eq!(map.len(), 3);
    assert_eq!(map.get("z"), Some(&None));
    assert_eq!(map.get("a"), Some(&Some(String::from("3"))));
    assert_eq!(map.get("b"), Some(&None));
    assert_eq!(map.get("c"), None);
    assert_eq!(encode_map(&map), "a=3 b z");
}

#[test]
fn map_reads_back_from_its_encoding() {
    let mut map = FieldMap::new();
    assert!(map.is_empty());
    assert_eq!(map.insert(String::from("m"), Some(String::from("x y"))), None);
    assert_eq!(map.insert(String::from("b"), None), None);
    assert_eq!(
        map.insert(String::from("m"), Some(String::from("z"))),
        Some(Some(String::from("x y")))
    );
    assert_eq!(map.insert(String::from("\u{e9}"), Some(String::new())), None);
    let again = parse_to_map(&encode_map(&map));
    assert_eq!(again.entries(), map.entries());
    assert_eq!(encode_map(&map), "b m=z \u{e9}=\"\"");
}

#[test]
fn normalize_document_matches_normalize_lines() {
    let input = "b=\"x y\"\n\n a \r\nc=";
    assert_eq!(normalize_document(input), normalize_lines(input));
    assert_eq!(normalize_lines(input), "b=\"x y\"\na\nc=\"\"");
    assert_eq!(
        normalize_document_strict(input).unwrap(),
        normalize_lines_strict(input).unwrap()
    );
}

#[test]
fn readme_normalization_example() {
    assert_eq!(
        normalize_document_strict("empty=\ndebug msg=\"hello world\"").unwrap(),
        "empty=\"\"\ndebug msg=\"hello world\""
    );
}

#[test]
fn readme_record_example() {
    let record = parse_record_strict("debug level=info msg=\"hello world\"").unwrap();
    assert_eq!(record.len(), 3);
    assert_eq!(record.fields()[0], Field::flag("debug"));
    assert_eq!(record.get_first_value("level"), Some("info"));
    assert!(record.contains_flag("debug"));
    let map = parse_to_map("level=info level=warn");
    assert_eq!(map.get("level"), Some(&Some(String::from("warn"))));
}

#[test]
fn first_value_is_none_when_the_first_field_is_a_flag() {
    let record = Record::new(vec![Field::flag("k"), Field::pair("k", "v")]);
    assert_eq!(record.get_first_value("k"), None);
    assert_eq!(record.get_last_value("k"), Some("v"));
    assert_eq!(record.find_last("k"), Some(&Field::pair("k", "v")));
    assert!(!record.contains_flag("v"));
    assert_eq!(record.get_last_value("missing"), None);
}

#[test]
fn remove_key_keeps_other_fields_in_order() {
    let mut record = Record::new(vec![
        Field::flag("a"),
        Field::pair("b", "1"),
        Field::flag("b"),
        Field::pair("c", "2"),
    ]);
    assert_eq!(record.remove_key("b"), 2);
    assert_eq!(record, Record::new(vec![Field::flag("a"), Field::pair("c", "2")]));
    assert!(record.find("b").is_none());
}

#[test]
fn document_drop_and_retain_keep_order() {
    let mut document = Document::new(vec![
        Record::default(),
        Record::new(vec![Field::flag("a")]),
        Record::default(),
        Record::new(vec![Field::flag("b")]),
    ]);
    assert_eq!(document.drop_empty_records(), 2);
    assert_eq!(
        document.records(),
        &[Record::new(vec![Field::flag("a")]), Record::new(vec![Field::flag("b")])]
    );
    document.retain(|r| r.contains_flag("b"));
    assert_eq!(document.into_records(), vec![Record::new(vec![Field::flag("b")])]);
}

#[test]
fn document_find_reports_none_and_last_hits() {
    let document = Document::new(vec![
        Record::new(vec![Field::pair("k", "1"), Field::pair("k", "2")]),
        Record::new(vec![Field::flag("x")]),
    ]);
    assert_eq!(document.find_first("k"), Some(&Field::pair("k", "1")));
    assert_eq!(document.find_last("k"), Some(&Field::pair("k", "2")));
    assert_eq!(document.find_first("y"), None);
    assert_eq!(document.find_last("y"), None);
    assert!(document.contains_key("x"));
    assert!(!Document::default().contains_key("x"));
}

#[test]
fn error_messages_name_the_kind_and_offset() {
    assert_eq!(
        ParseError { position: 0, kind: ParseErrorKind::MissingKey }.to_string(),
        "missing key before '=' at byte 0"
    );
    assert_eq!(
        ParseError { position: 42, kind: ParseErrorKind::UnexpectedQuote }.to_string(),
        "unexpected quoted token at byte 42"
    );
    assert_eq!(
        ParseError { position: 1234567, kind: ParseErrorKind::UnterminatedQuote }.to_string(),
        "unterminated quoted value at byte 1234567"
    );
    assert_eq!(
        LineParseError {
            line: 10,
            error: ParseError { position: 3, kind: ParseErrorKind::MissingKey },
        }
        .to_string(),
        "line 10: missing key before '=' at byte 3"
    );
}

#[test]
fn record_and_document_conversions_keep_contents() {
    let fields = vec![Field::flag("a"), Field::pair("b", "c")];
    let record = Record::from(fields.clone());
    assert_eq!(record.clone().into_fields(), fields);
    let back: Vec<Field> = record.clone().into();
    assert_eq!(back, fields);
    let document = Document::from(vec![record.clone()]);
    let records: Vec<Record> = document.into();
    assert_eq!(records, vec![record]);
}

#[test]
fn field_encoding_quotes_only_when_needed() {
    assert_eq!(Field::pair("k", "").encode(), "k=\"\"");
    assert_eq!(Field::pair("k", "a b").encode(), "k=\"a b\"");
    assert_eq!(Field::pair("k", "a=b").encode(), "k=a=b");
    assert_eq!(encode_fields(&[]), "");
    assert_eq!(encode_lines(&[]), "");
    assert_eq!(encode_lines(&[vec![], vec![Field::flag("x")]]), "\nx");
}

#[test]
fn a_quote_free_prefix_tokenizes_on_its_own() {
    for (a, b) in [
        ("k=", "v"),
        ("a=b x", "\"q r\"=s"),
        ("=", "=y"),
        ("", "z"),
        ("w", ""),
        ("p=q\\", "\"x"),
    ] {
        let joined = format!("{a} {b}");
        assert_eq!(tokenize(&joined), [tokenize(a), tokenize(b)].concat());
    }
}

#[test]
fn a_cloned_map_keeps_its_entries() {
    let map = parse_to_map("b=1 a c=\"x y\"");
    let copy = map.clone();
    assert_eq!(copy, map);
    assert_eq!(encode_map(&copy), "a b=1 c=\"x y\"");
}
