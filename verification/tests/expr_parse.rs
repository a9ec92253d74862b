use orchestrator::expr::{parse, referenced_paths, serialize, DateUnit, Filter, RefExpr, Segment};

// ---- parse / serialize round-trips ----

#[test]
fn round_trip_canonicalizes_whitespace() {
    let segments = parse("{{inputs.x}}").unwrap();
    assert_eq!(serialize(&segments), "{{ inputs.x }}");

    let segments = parse("{{   inputs.x   }}").unwrap();
    assert_eq!(serialize(&segments), "{{ inputs.x }}");
}

#[test]
fn round_trip_filter_canonicalization() {
    let segments = parse("{{now()|dateAdd(-7,'DAYS')}}").unwrap();
    assert_eq!(serialize(&segments), "{{ now() | dateAdd(-7, 'DAYS') }}");
    // Canonical form is a fixed point.
    let again = parse(&serialize(&segments)).unwrap();
    assert_eq!(again, segments);
}

#[test]
fn round_trip_mixed_text_and_refs() {
    let template = "{{ vars.server }}/api/x?since={{ inputs.since }}";
    let segments = parse(template).unwrap();
    assert_eq!(serialize(&segments), template);
    assert_eq!(segments.len(), 3);
}

#[test]
fn parse_text_only() {
    let segments = parse("no templates here { } }} still text").unwrap();
    assert_eq!(
        segments,
        vec![Segment::Text("no templates here { } }} still text".into())]
    );
}

#[test]
fn parse_path_with_index_canonical() {
    let segments = parse("{{ outputs.discover.items[0].name }}").unwrap();
    match &segments[0] {
        Segment::Ref(re) => assert_eq!(re.path, "outputs.discover.items[0].name"),
        other => panic!("expected ref, got {other:?}"),
    }
}

#[test]
fn parse_structure_exposes_filters() {
    let segments = parse("{{ inputs.since | dateAdd(2, 'HOURS') }}").unwrap();
    assert_eq!(
        segments,
        vec![Segment::Ref(RefExpr {
            path: "inputs.since".into(),
            filters: vec![Filter::DateAdd {
                n: 2,
                unit: DateUnit::Hours
            }],
        })]
    );
}

// ---- parse errors ----

#[test]
fn error_unclosed_brace_has_offset() {
    let err = parse("abc {{ inputs.x").unwrap_err();
    assert!(err.offset.is_some(), "expected offset, got {err:?}");
    assert!(err.message.contains("unclosed"), "message: {}", err.message);

    let err = parse("abc {{").unwrap_err();
    assert_eq!(err.offset, Some(4));
}

#[test]
fn error_empty_expression() {
    let err = parse("{{ }}").unwrap_err();
    assert!(err.message.contains("empty"), "message: {}", err.message);
    assert_eq!(err.offset, Some(0));

    let err = parse("{{}}").unwrap_err();
    assert!(err.message.contains("empty"), "message: {}", err.message);
}

#[test]
fn error_unknown_filter() {
    let err = parse("{{ inputs.x | upper }}").unwrap_err();
    assert!(
        err.message.contains("unknown filter") && err.message.contains("upper"),
        "message: {}",
        err.message
    );
    assert!(err.offset.is_some());
}

#[test]
fn error_path_trailing_dot() {
    let err = parse("{{ inputs. }}").unwrap_err();
    assert!(
        err.message.contains("expected identifier"),
        "message: {}",
        err.message
    );
    assert_eq!(err.offset, Some(10), "offset of char after the dot");
}

#[test]
fn error_path_leading_dot() {
    let err = parse("{{ .inputs }}").unwrap_err();
    assert!(
        err.message.contains("expected identifier"),
        "message: {}",
        err.message
    );
    assert_eq!(err.offset, Some(3), "offset of the leading dot");
}

#[test]
fn error_index_not_numeric() {
    let err = parse("{{ inputs.x[abc] }}").unwrap_err();
    assert!(
        err.message.contains("expected array index"),
        "message: {}",
        err.message
    );
    assert_eq!(err.offset, Some(12), "offset of 'abc'");
}

#[test]
fn error_index_unterminated() {
    let err = parse("{{ inputs.x[1 }}").unwrap_err();
    assert!(
        err.message.contains("']' after array index"),
        "message: {}",
        err.message
    );
    assert_eq!(err.offset, Some(13), "offset where ']' was expected");
}

#[test]
fn error_ident_starting_with_digit() {
    let err = parse("{{ 9lives }}").unwrap_err();
    assert!(
        err.message.contains("expected identifier"),
        "message: {}",
        err.message
    );
    assert_eq!(err.offset, Some(3), "offset of the digit");
}

#[test]
fn error_unknown_date_unit() {
    let err = parse("{{ inputs.x | dateAdd(1, 'WEEKS') }}").unwrap_err();
    assert!(
        err.message.contains("unknown date unit") && err.message.contains("WEEKS"),
        "message: {}",
        err.message
    );
    assert!(err.offset.is_some());
}

#[test]
fn error_filter_arg_not_integer() {
    let err = parse("{{ inputs.x | dateAdd(x, 'DAYS') }}").unwrap_err();
    assert!(
        err.message.contains("expected integer"),
        "message: {}",
        err.message
    );
    assert!(err.offset.is_some());
}

#[test]
fn error_unknown_function() {
    let err = parse("{{ upper() }}").unwrap_err();
    assert!(
        err.message.contains("unknown function") && err.message.contains("upper"),
        "message: {}",
        err.message
    );
    assert_eq!(err.offset, Some(3), "offset of the function name");
}

// ---- referenced_paths ----

#[test]
fn referenced_paths_in_order_with_duplicates() {
    let paths = referenced_paths(
        "{{ inputs.a }} {{ outputs.discover.ids }} {{ inputs.a }} {{ now() }}",
    )
    .unwrap();
    assert_eq!(paths, vec!["inputs.a", "outputs.discover.ids", "inputs.a"]);
}

#[test]
fn referenced_paths_strips_filters() {
    let paths = referenced_paths("{{ outputs.discover.ids[0] | dateAdd(1, 'DAYS') }}").unwrap();
    assert_eq!(paths, vec!["outputs.discover.ids[0]"]);
}

// ---- further cases of the parser ----

#[test]
fn parse_error_offsets_count_bytes_not_characters() {
    // "é" takes two bytes: the unclosed `{{` starts at byte 3.
    let err = parse("é {{ x").unwrap_err();
    assert_eq!(err.offset, Some(3));
    assert_eq!(err.message, "unclosed '{{'");
}

#[test]
fn parse_index_leading_zeros_canonicalized() {
    let segments = parse("{{ a[007] }}").unwrap();
    assert_eq!(serialize(&segments), "{{ a[7] }}");
}

#[test]
fn parse_index_out_of_range() {
    let err = parse("{{ a[18446744073709551616] }}").unwrap_err();
    assert_eq!(err.message, "array index out of range");
    assert_eq!(err.offset, Some(5));
    assert!(parse("{{ a[18446744073709551615] }}").is_ok());
}

#[test]
fn parse_filter_count_bounds() {
    let segments = parse("{{ a | dateAdd(-9223372036854775808, 'MINUTES') }}").unwrap();
    assert_eq!(
        serialize(&segments),
        "{{ a | dateAdd(-9223372036854775808, 'MINUTES') }}"
    );
    let err = parse("{{ a | dateAdd(9223372036854775808, 'DAYS') }}").unwrap_err();
    assert_eq!(err.message, "integer out of range");
    assert_eq!(err.offset, Some(15));
}

#[test]
fn parse_error_messages_exact() {
    assert_eq!(parse("{{ a ").unwrap_err().message, "unclosed '{{'");
    assert_eq!(parse("{{ a b }}").unwrap_err().message, "expected '}}'");
    assert_eq!(parse("{{ now( x }}").unwrap_err().message, "expected ')' after 'now('");
    assert_eq!(
        parse("{{ a | dateAdd 1 }}").unwrap_err().message,
        "expected '(' after filter name"
    );
    assert_eq!(
        parse("{{ a | dateAdd(1 'DAYS') }}").unwrap_err().message,
        "expected ',' between dateAdd arguments"
    );
    assert_eq!(
        parse("{{ a | dateAdd(1, DAYS) }}").unwrap_err().message,
        "expected single-quoted unit ('DAYS', 'HOURS', or 'MINUTES')"
    );
    assert_eq!(
        parse("{{ a | dateAdd(1, 'DAYS }}").unwrap_err().message,
        "unterminated unit string"
    );
    assert_eq!(
        parse("{{ a | dateAdd(1, 'DAYS' }}").unwrap_err().message,
        "expected ')' after filter arguments"
    );
    assert_eq!(
        parse("{{ a | dateAdd(1, 'WEEKS') }}").unwrap_err().message,
        "unknown date unit: 'WEEKS' (expected 'DAYS', 'HOURS', or 'MINUTES')"
    );
}

#[test]
fn canonical_text_is_a_fixed_point() {
    let t = "x{ {{a.b[01]|dateAdd( 3 ,'HOURS' )}}{{ now( ) }}}} tail {";
    let segments = parse(t).unwrap();
    let canonical = serialize(&segments);
    assert_eq!(canonical, "x{ {{ a.b[1] | dateAdd(3, 'HOURS') }}{{ now() }}}} tail {");
    let again = parse(&canonical).unwrap();
    assert_eq!(again, segments);
    assert_eq!(serialize(&again), canonical);
}

#[test]
fn referenced_paths_reports_parse_errors() {
    let err = referenced_paths("{{ }}").unwrap_err();
    assert_eq!(err.offset, Some(0));
}
