use std::str::FromStr;

use rusty_me::{
    Document, Field, FieldMap, LineParseError, ParseError, ParseErrorKind, Record, Token,
    encode_fields, encode_lines, encode_map, escape_value, normalize, normalize_document,
    normalize_document_strict, normalize_lines, normalize_lines_strict, normalize_strict, parse,
    parse_document, parse_document_strict, parse_fields, parse_flags, parse_lines,
    parse_lines_lossy, parse_lines_strict, parse_pairs, parse_record, parse_record_strict,
    parse_strict, parse_to_map, parse_to_map_strict, tokenize, unescape_value,
};

#[test]
fn empty_input_returns_no_fields() {
    assert!(parse("").is_empty());
}

#[test]
fn parse_reads_simple_pairs() {
    let fields = parse("level=info msg=hello");

    assert_eq!(
        fields,
        vec![
            ("level".into(), "info".into()),
            ("msg".into(), "hello".into())
        ]
    );
}

#[test]
fn parse_preserves_bare_keys_as_flags() {
    let fields = parse("debug trace=true");

    assert_eq!(
        fields,
        vec![
            ("debug".into(), String::new()),
            ("trace".into(), "true".into())
        ]
    );
}

#[test]
fn parse_supports_quoted_values_with_spaces() {
    let fields = parse("level=info msg=\"hello world\"");

    assert_eq!(
        fields,
        vec![
            ("level".into(), "info".into()),
            ("msg".into(), "hello world".into())
        ]
    );
}

#[test]
fn parse_unescapes_common_sequences_in_quoted_values() {
    let fields = parse("msg=\"line 1\\nline 2\" quote=\"say \\\"hi\\\"\"");

    assert_eq!(
        fields,
        vec![
            ("msg".into(), "line 1\nline 2".into()),
            ("quote".into(), "say \"hi\"".into())
        ]
    );
}

#[test]
fn parse_tolerates_unterminated_quoted_values() {
    let fields = parse("msg=\"hello world");

    assert_eq!(fields, vec![("msg".into(), "hello world".into())]);
}

#[test]
fn parse_fields_preserves_flags_and_values() {
    let fields = parse_fields("debug level=info empty=");

    assert_eq!(
        fields,
        vec![
            Field::flag("debug"),
            Field::pair("level", "info"),
            Field::pair("empty", "")
        ]
    );
}

#[test]
fn parse_record_wraps_fields() {
    let record = parse_record("debug level=info empty=");

    assert_eq!(
        record,
        Record::new(vec![
            Field::flag("debug"),
            Field::pair("level", "info"),
            Field::pair("empty", "")
        ])
    );
}

#[test]
fn parse_record_strict_preserves_strict_errors() {
    let error = parse_record_strict("=broken").unwrap_err();

    assert_eq!(
        error,
        ParseError {
            position: 0,
            kind: ParseErrorKind::MissingKey,
        }
    );
}

#[test]
fn field_knows_when_it_is_a_flag() {
    assert!(Field::flag("debug").is_flag());
    assert!(!Field::pair("level", "info").is_flag());
}

#[test]
fn field_builders_toggle_value_state() {
    let flag = Field::flag("debug");
    let promoted = flag.clone().with_value("on");
    assert_eq!(promoted, Field::pair("debug", "on"));

    let demoted = promoted.without_value();
    assert_eq!(demoted, Field::flag("debug"));
}

#[test]
fn field_from_tuples_produces_pairs_and_flags() {
    let pair: Field = ("level", "info").into();
    assert_eq!(pair, Field::pair("level", "info"));

    let flag: Field = ("debug",).into();
    assert_eq!(flag, Field::flag("debug"));
}

#[test]
fn record_and_document_collect_from_iterators() {
    let record: Record = Record::from(
        vec![Field::flag("debug"), Field::pair("level", "info")]
            .into_iter()
            .collect::<Vec<Field>>(),
    );
    assert_eq!(record.len(), 2);
    assert!(record.contains_flag("debug"));

    let document: Document = Document::from(
        vec![record.clone(), Record::default()]
            .into_iter()
            .collect::<Vec<Record>>(),
    );
    assert_eq!(document.len(), 2);
    assert_eq!(document.iter().next(), Some(&record));
}

#[test]
fn display_impls_match_encode_output() {
    let field = Field::pair("msg", "hello world");
    assert_eq!(field.to_string(), field.encode());

    let record = Record::new(vec![Field::flag("debug"), Field::pair("level", "info")]);
    assert_eq!(record.to_string(), record.encode());

    let document = Document::new(vec![
        record.clone(),
        Record::new(vec![Field::pair("msg", "hi")]),
    ]);
    assert_eq!(document.to_string(), document.encode());
}

#[test]
fn from_str_roundtrips_display_output() {
    let record = Record::new(vec![Field::flag("debug"), Field::pair("msg", "hi world")]);
    assert_eq!(Record::from_str(&record.to_string()).unwrap(), record);

    let document = Document::new(vec![
        record.clone(),
        Record::new(vec![Field::pair("level", "info")]),
    ]);
    assert_eq!(Document::from_str(&document.to_string()).unwrap(), document);

    assert!(Record::from_str("=broken").is_err());
    assert!(Document::from_str("level=info\n=broken").is_err());
}

#[test]
fn escape_value_quotes_special_characters_and_leaves_plain_text_untouched() {
    assert_eq!(escape_value("info"), "info");
    assert_eq!(escape_value(""), "\"\"");
    assert_eq!(escape_value("hello world"), "\"hello world\"");
    assert_eq!(escape_value("say \"hi\""), "\"say \\\"hi\\\"\"");
    assert_eq!(escape_value("a\tb"), "\"a\\tb\"");
}

#[test]
fn unescape_value_roundtrips_escape_value() {
    for raw in ["info", "", "hello world", "say \"hi\"", "line 1\nline 2"] {
        assert_eq!(unescape_value(&escape_value(raw)).unwrap(), raw);
    }
}

#[test]
fn unescape_value_rejects_trailing_bytes_after_quoted_value() {
    let error = unescape_value("\"quoted\"extra").unwrap_err();

    assert_eq!(
        error,
        ParseError {
            position: 0,
            kind: ParseErrorKind::UnexpectedQuote,
        }
    );
}

#[test]
fn unescape_value_flags_unterminated_quotes() {
    let error = unescape_value("\"broken").unwrap_err();

    assert_eq!(
        error,
        ParseError {
            position: 0,
            kind: ParseErrorKind::UnterminatedQuote,
        }
    );
}

#[test]
fn parse_strict_accepts_valid_input() {
    let fields = parse_strict("debug level=info msg=\"hello world\"").unwrap();

    assert_eq!(
        fields,
        vec![
            Field::flag("debug"),
            Field::pair("level", "info"),
            Field::pair("msg", "hello world")
        ]
    );
}

#[test]
fn parse_strict_rejects_missing_keys() {
    let error = parse_strict("=broken").unwrap_err();

    assert_eq!(
        error,
        ParseError {
            position: 0,
            kind: ParseErrorKind::MissingKey
        }
    );
}

#[test]
fn parse_strict_rejects_unexpected_quoted_tokens() {
    let error = parse_strict("\"orphan\"").unwrap_err();

    assert_eq!(
        error,
        ParseError {
            position: 0,
            kind: ParseErrorKind::UnexpectedQuote
        }
    );
}

#[test]
fn parse_strict_rejects_unterminated_quotes() {
    let error = parse_strict("msg=\"unterminated").unwrap_err();

    assert_eq!(
        error,
        ParseError {
            position: 4,
            kind: ParseErrorKind::UnterminatedQuote
        }
    );
}

#[test]
fn parse_to_map_preserves_flags_and_uses_last_value() {
    let fields = parse_to_map("debug level=info level=warn");

    assert_eq!(fields.get("debug"), Some(&None));
    assert_eq!(fields.get("level"), Some(&Some("warn".into())));
}

#[test]
fn parse_pairs_returns_only_key_value_pairs() {
    let pairs = parse_pairs("debug level=info msg=\"hello world\" trace");

    assert_eq!(
        pairs,
        vec![
            ("level".to_string(), "info".to_string()),
            ("msg".to_string(), "hello world".to_string()),
        ]
    );
}

#[test]
fn parse_flags_returns_only_bare_flags_in_order() {
    let flags = parse_flags("debug level=info trace msg=hi verbose");

    assert_eq!(flags, vec!["debug", "trace", "verbose"]);
}

#[test]
fn parse_to_map_strict_propagates_parse_errors() {
    let error = parse_to_map_strict("=broken").unwrap_err();

    assert_eq!(
        error,
        ParseError {
            position: 0,
            kind: ParseErrorKind::MissingKey
        }
    );
}

#[test]
fn parse_lines_splits_multiline_input() {
    let records = parse_lines("level=info\nmsg=hello world\ntrace=true");

    assert_eq!(records.len(), 3);
    assert_eq!(records[0], vec![Field::pair("level", "info")]);
    assert_eq!(
        records[1],
        vec![Field::pair("msg", "hello"), Field::flag("world")]
    );
    assert_eq!(records[2], vec![Field::pair("trace", "true")]);
}

#[test]
fn parse_lines_skips_blank_records() {
    let records = parse_lines("level=info\n\n  \nmsg=hello");

    assert_eq!(records.len(), 2);
    assert_eq!(records[0], vec![Field::pair("level", "info")]);
    assert_eq!(records[1], vec![Field::pair("msg", "hello")]);
}

#[test]
fn parse_lines_strict_reports_the_failing_line() {
    let error = parse_lines_strict("level=info\n=broken\nmsg=hello").unwrap_err();

    assert_eq!(
        error,
        LineParseError {
            line: 2,
            error: ParseError {
                position: 0,
                kind: ParseErrorKind::MissingKey,
            },
        }
    );
}

#[test]
fn parse_lines_lossy_keeps_good_records_and_lists_errors() {
    let (records, errors) = parse_lines_lossy("level=info\n=broken\nmsg=hello\n\"orphan\"");

    assert_eq!(records.len(), 2);
    assert_eq!(records[0], vec![Field::pair("level", "info")]);
    assert_eq!(records[1], vec![Field::pair("msg", "hello")]);

    assert_eq!(errors.len(), 2);
    assert_eq!(errors[0].line, 2);
    assert_eq!(errors[0].error.kind, ParseErrorKind::MissingKey);
    assert_eq!(errors[1].line, 4);
    assert_eq!(errors[1].error.kind, ParseErrorKind::UnexpectedQuote);
}

#[test]
fn parse_document_wraps_line_records() {
    let document = parse_document("level=info\n\ndebug msg=hello");

    assert_eq!(
        document,
        Document::new(vec![
            Record::new(vec![Field::pair("level", "info")]),
            Record::new(vec![Field::flag("debug"), Field::pair("msg", "hello")]),
        ])
    );
}

#[test]
fn parse_document_strict_reports_line_errors() {
    let error = parse_document_strict("level=info\n=broken").unwrap_err();

    assert_eq!(
        error,
        LineParseError {
            line: 2,
            error: ParseError {
                position: 0,
                kind: ParseErrorKind::MissingKey,
            },
        }
    );
}

#[test]
fn field_encode_emits_flags_and_pairs() {
    assert_eq!(Field::flag("debug").encode(), "debug");
    assert_eq!(Field::pair("level", "info").encode(), "level=info");
}

#[test]
fn record_helpers_expose_lookup_and_map_views() {
    let record = Record::new(vec![
        Field::flag("debug"),
        Field::pair("level", "info"),
        Field::pair("level", "warn"),
    ]);

    assert!(!record.is_empty());
    assert!(record.contains_flag("debug"));
    assert_eq!(record.get_first_value("level"), Some("info"));
    assert_eq!(record.get_last_value("level"), Some("warn"));
    assert_eq!(record.find("debug"), Some(&Field::flag("debug")));
    assert_eq!(
        record.to_map().get("level"),
        Some(&Some(String::from("warn")))
    );
}

#[test]
fn record_values_for_returns_every_matching_value_in_order() {
    let record = Record::new(vec![
        Field::pair("level", "info"),
        Field::flag("level"),
        Field::pair("level", "warn"),
        Field::pair("msg", "hello"),
    ]);

    assert_eq!(record.values_for("level"), vec!["info", "warn"]);
    assert_eq!(record.values_for("msg"), vec!["hello"]);
    assert!(record.values_for("missing").is_empty());
}

#[test]
fn record_iter_pairs_and_iter_flags_split_by_shape() {
    let record = Record::new(vec![
        Field::flag("debug"),
        Field::pair("level", "info"),
        Field::flag("trace"),
        Field::pair("msg", "hello"),
    ]);

    let pairs: Vec<(&str, &str)> = record.iter_pairs().into_iter().collect();
    assert_eq!(pairs, vec![("level", "info"), ("msg", "hello")]);

    let flags: Vec<&str> = record.iter_flags().into_iter().collect();
    assert_eq!(flags, vec!["debug", "trace"]);
}

#[test]
fn record_retain_drops_fields_that_fail_the_predicate() {
    let mut record = Record::new(vec![
        Field::flag("debug"),
        Field::pair("level", "info"),
        Field::pair("msg", "hello"),
    ]);

    record.retain(|field| field.value.is_some());

    assert_eq!(
        record,
        Record::new(vec![
            Field::pair("level", "info"),
            Field::pair("msg", "hello"),
        ])
    );
}

#[test]
fn record_remove_key_returns_number_of_removed_fields() {
    let mut record = Record::new(vec![
        Field::pair("level", "info"),
        Field::pair("level", "warn"),
        Field::pair("msg", "hello"),
    ]);

    assert_eq!(record.remove_key("level"), 2);
    assert_eq!(record.remove_key("missing"), 0);
    assert_eq!(record, Record::new(vec![Field::pair("msg", "hello")]));
}

#[test]
fn record_push_and_extend_append_new_fields() {
    let mut record = Record::default();

    record.push(Field::flag("debug"));
    record.extend(vec![Field::pair("level", "info"), Field::pair("msg", "hi")]);

    assert_eq!(
        record,
        Record::new(vec![
            Field::flag("debug"),
            Field::pair("level", "info"),
            Field::pair("msg", "hi"),
        ])
    );
}

#[test]
fn record_iteration_reports_length_and_visits_each_field() {
    let record = Record::new(vec![
        Field::flag("debug"),
        Field::pair("level", "info"),
        Field::pair("msg", "hello"),
    ]);

    assert_eq!(record.len(), 3);
    assert_eq!(record.iter().count(), 3);

    let by_ref: Vec<&Field> = (&record).into_iter().collect();
    assert_eq!(by_ref.len(), 3);
    assert_eq!(by_ref[0], &Field::flag("debug"));

    let owned: Vec<Field> = record.into_iter().collect();
    assert_eq!(owned[2], Field::pair("msg", "hello"));
}

#[test]
fn document_iteration_reports_length_and_visits_each_record() {
    let document = Document::new(vec![
        Record::new(vec![Field::pair("level", "info")]),
        Record::new(vec![Field::flag("debug"), Field::pair("msg", "hello")]),
    ]);

    assert_eq!(document.len(), 2);
    assert_eq!(document.iter().count(), 2);

    let by_ref: Vec<&Record> = (&document).into_iter().collect();
    assert_eq!(by_ref[0].len(), 1);
    assert_eq!(by_ref[1].len(), 2);

    let owned: Vec<Record> = document.into_iter().collect();
    assert_eq!(
        owned[1].find("msg").unwrap().value.as_deref(),
        Some("hello")
    );
}

#[test]
fn document_find_helpers_walk_across_records() {
    let document = Document::new(vec![
        Record::new(vec![Field::pair("level", "info")]),
        Record::new(vec![Field::pair("level", "warn"), Field::flag("debug")]),
    ]);

    assert_eq!(
        document.find_first("level"),
        Some(&Field::pair("level", "info"))
    );
    assert_eq!(
        document.find_last("level"),
        Some(&Field::pair("level", "warn"))
    );
    assert!(document.contains_key("debug"));
    assert!(!document.contains_key("missing"));
}

#[test]
fn document_mutation_helpers_grow_shrink_and_filter() {
    let mut document = Document::default();

    document.push(Record::new(vec![Field::pair("level", "info")]));
    document.extend(vec![
        Record::default(),
        Record::new(vec![Field::flag("debug")]),
    ]);

    assert_eq!(document.len(), 3);
    assert_eq!(document.drop_empty_records(), 1);
    assert_eq!(document.len(), 2);

    document.retain(|record| record.contains_flag("debug"));
    assert_eq!(document.len(), 1);
    assert!(document.iter().next().unwrap().contains_flag("debug"));
}

#[test]
fn record_encode_roundtrips_through_strict_parser() {
    let record = Record::new(vec![
        Field::flag("debug"),
        Field::pair("msg", "hello world"),
        Field::pair("empty", ""),
    ]);

    assert_eq!(parse_record_strict(&record.encode()).unwrap(), record);
}

#[test]
fn document_encode_roundtrips_through_strict_parser() {
    let document = Document::new(vec![
        Record::new(vec![Field::pair("level", "info")]),
        Record::new(vec![
            Field::flag("debug"),
            Field::pair("msg", "hello world"),
        ]),
    ]);

    assert_eq!(parse_document_strict(&document.encode()).unwrap(), document);
}

#[test]
fn encode_fields_quotes_and_escapes_special_values() {
    let encoded = encode_fields(&[
        Field::flag("debug"),
        Field::pair("msg", "hello world"),
        Field::pair("quote", "say \"hi\""),
        Field::pair("empty", ""),
    ]);

    assert_eq!(
        encoded,
        "debug msg=\"hello world\" quote=\"say \\\"hi\\\"\" empty=\"\""
    );
}

#[test]
fn encode_fields_roundtrips_through_parse_strict() {
    let fields = vec![
        Field::flag("debug"),
        Field::pair("level", "info"),
        Field::pair("msg", "hello world"),
        Field::pair("note", "line 1\nline 2"),
    ];
    let encoded = encode_fields(&fields);

    assert_eq!(parse_strict(&encoded).unwrap(), fields);
}

#[test]
fn encode_map_uses_sorted_keys_and_quoted_values() {
    let mut map = FieldMap::new();
    map.insert(String::from("debug"), None);
    map.insert(String::from("level"), Some(String::from("warn")));
    map.insert(String::from("msg"), Some(String::from("hello world")));

    assert_eq!(encode_map(&map), "debug level=warn msg=\"hello world\"");
}

#[test]
fn encode_lines_joins_records_with_newlines() {
    let records = vec![
        vec![Field::pair("level", "info")],
        vec![Field::flag("debug"), Field::pair("msg", "hello world")],
    ];

    assert_eq!(
        encode_lines(&records),
        "level=info\ndebug msg=\"hello world\""
    );
}

#[test]
fn normalize_reencodes_lenient_input() {
    let normalized = normalize("msg=\"hello world\" debug empty=");

    assert_eq!(normalized, "msg=\"hello world\" debug empty=\"\"");
}

#[test]
fn normalize_strict_rejects_malformed_input() {
    let error = normalize_strict("=broken").unwrap_err();

    assert_eq!(
        error,
        ParseError {
            position: 0,
            kind: ParseErrorKind::MissingKey
        }
    );
}

#[test]
fn normalize_strict_roundtrips_valid_input() {
    let normalized = normalize_strict("debug level=info msg=\"hello world\"").unwrap();

    assert_eq!(normalized, "debug level=info msg=\"hello world\"");
}

#[test]
fn normalize_lines_reencodes_multiline_input() {
    let normalized = normalize_lines("level=info\n\ndebug empty=\nmsg=\"hello world\"");

    assert_eq!(
        normalized,
        "level=info\ndebug empty=\"\"\nmsg=\"hello world\""
    );
}

#[test]
fn normalize_lines_strict_reports_line_errors() {
    let error = normalize_lines_strict("level=info\n=broken").unwrap_err();

    assert_eq!(
        error,
        LineParseError {
            line: 2,
            error: ParseError {
                position: 0,
                kind: ParseErrorKind::MissingKey,
            },
        }
    );
}

#[test]
fn normalize_document_matches_line_normalization() {
    let input = "level=info\n\ndebug empty=\nmsg=\"hello world\"";

    assert_eq!(normalize_document(input), normalize_lines(input));
    assert_eq!(
        normalize_document_strict(input).unwrap(),
        normalize_lines_strict(input).unwrap()
    );
}

#[test]
fn tokenize_splits_simple_key_values() {
    let tokens = tokenize("level=info msg=hello");

    assert_eq!(
        tokens,
        vec![
            Token::Atom("level".into()),
            Token::Equal,
            Token::Atom("info".into()),
            Token::Atom("msg".into()),
            Token::Equal,
            Token::Atom("hello".into()),
        ]
    );
}

#[test]
fn tokenize_keeps_bare_atoms() {
    let tokens = tokenize("orphan");

    assert_eq!(tokens, vec![Token::Atom("orphan".into())]);
}

#[test]
fn tokenize_reads_quoted_values_as_single_atoms() {
    let tokens = tokenize("msg=\"hello world\" path=bare");

    assert_eq!(
        tokens,
        vec![
            Token::Atom("msg".into()),
            Token::Equal,
            Token::Atom("hello world".into()),
            Token::Atom("path".into()),
            Token::Equal,
            Token::Atom("bare".into()),
        ]
    );
}

#[test]
fn tokenize_keeps_empty_quoted_values() {
    let tokens = tokenize("msg=\"\"");

    assert_eq!(
        tokens,
        vec![
            Token::Atom("msg".into()),
            Token::Equal,
            Token::Atom(String::new()),
        ]
    );
}
