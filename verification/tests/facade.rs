use parson::csv::token::Number as CsvNumber;
use parson::csv::token::Token as CsvToken;
use parson::csv::value::Value as CsvValue;
use parson::json::token::Number;
use parson::json::value::Value;
use parson::Parson;

#[test]
fn two_csv_rows_map_columns_to_fields() {
    let rows = Parson::parse_csv("test1,test2\nval1,val2\nval1,val2").unwrap();
    assert_eq!(rows.len(), 2);
    for row in &rows {
        assert_eq!(row.len(), 2);
        assert!(matches!(row.get("test1").unwrap(), CsvValue::String(t) if t == "val1"));
        assert!(matches!(row.get("test2").unwrap(), CsvValue::String(t) if t == "val2"));
        assert_eq!(row.entry_at(0).0, "test1");
        assert_eq!(row.entry_at(1).0, "test2");
    }
}

#[test]
fn csv_numbers_split_into_integer_and_float_subtypes() {
    let rows = Parson::parse_csv("a,b\n1,2.5").unwrap();
    assert_eq!(rows.len(), 1);
    assert!(matches!(
        rows[0].get("a").unwrap(),
        CsvValue::Number(CsvNumber::Int(1))
    ));
    assert!(
        matches!(rows[0].get("b").unwrap(), CsvValue::Number(CsvNumber::Float(t)) if t == "2.5")
    );
}

#[test]
fn csv_column_count_mismatch_names_expected_count() {
    let parsed = Parson::parse_csv("a,b,c,d\n1,2,3");
    assert!(parsed.is_err());
    let message = parsed.unwrap_err().message;
    assert!(message.contains("do not have the same number of columns"));
    assert_eq!(message, "lines do not have the same number of columns 4");
}

#[test]
fn csv_quoted_field_unescapes_doubled_quote() {
    let rows = Parson::parse_csv("h\n\"va\"\"l1\"").unwrap();
    assert!(matches!(rows[0].get("h").unwrap(), CsvValue::String(t) if t == "va\"l1"));
}

#[test]
fn csv_quoted_field_ending_the_line_keeps_its_content() {
    let rows = Parson::parse_csv("a\n\"xy").unwrap();
    assert!(matches!(rows[0].get("a").unwrap(), CsvValue::String(t) if t == "xy"));
}

#[test]
fn whitespace_is_transparent_at_the_top_level() {
    let value = Parson::parse_json(r#" {"a": true} "#).unwrap();
    let root = value.try_into_object().unwrap();
    assert!(matches!(root.get("a").unwrap(), Value::Boolean(true)));

    let value = Parson::parse_json(" null ").unwrap();
    assert!(matches!(value, Value::Null));
}

#[test]
fn csv_digit_led_non_number_falls_back_to_string() {
    let rows = Parson::parse_csv("a\n1test").unwrap();
    assert!(matches!(rows[0].get("a").unwrap(), CsvValue::String(t) if t == "1test"));
}

#[test]
fn csv_exponent_literals_classify_by_value() {
    let rows = Parson::parse_csv("a,b,c\n100000e-5,2.0,1e300").unwrap();
    assert!(matches!(
        rows[0].get("a").unwrap(),
        CsvValue::Number(CsvNumber::Int(1))
    ));
    assert!(matches!(
        rows[0].get("b").unwrap(),
        CsvValue::Number(CsvNumber::Int(2))
    ));
    assert!(
        matches!(rows[0].get("c").unwrap(), CsvValue::Number(CsvNumber::Float(t)) if t == "1e300")
    );
}

#[test]
fn float_projection_round_trips_and_boolean_projection_names_boolean() {
    let value = Value::Number(Number::Float("32.2".to_string()));
    let text = value.try_into_float().unwrap();
    assert_eq!(text.parse::<f64>().unwrap(), 32.2);

    let value = Value::Number(Number::Float("32.2".to_string()));
    let err = value.try_into_boolean().unwrap_err();
    assert!(err.message.contains("boolean"));
    assert_eq!(err.message, "Cannot convert Number to boolean");
}

#[test]
fn bare_colon_lead_token_fails() {
    let parsed = Parson::parse_json("23:4");
    assert!(parsed.is_err());
    assert!(parsed.unwrap_err().message.contains("not allowed"));
}

#[test]
fn nested_input_rebuilds_each_level() {
    let value = Parson::parse_json(r#"{"a": {"b": [1, true, null]}, "c": "x"}"#).unwrap();
    let root = value.try_into_object().unwrap();
    assert_eq!(root.len(), 2);
    assert_eq!(root.entry_at(0).0, "a");
    assert_eq!(root.entry_at(1).0, "c");
    assert!(matches!(root.get("c").unwrap(), Value::String(t) if t == "x"));
    let inner = match root.get("a").unwrap() {
        Value::Object(o) => o,
        _ => panic!("expected an object under key a"),
    };
    assert_eq!(inner.len(), 1);
    let items = match inner.get("b").unwrap() {
        Value::Array(a) => a,
        _ => panic!("expected an array under key b"),
    };
    assert_eq!(items.len(), 3);
    assert!(matches!(&items[0], Value::Number(Number::Float(t)) if t == "1"));
    assert!(matches!(items[1], Value::Boolean(true)));
    assert!(matches!(items[2], Value::Null));
}

#[test]
fn separators_between_elements_are_flexible() {
    let value = Parson::parse_json(r#" { "a" : true , "b" : null } "#).unwrap();
    let root = value.try_into_object().unwrap();
    assert_eq!(root.len(), 2);
    assert!(matches!(root.get("a").unwrap(), Value::Boolean(true)));
    assert!(matches!(root.get("b").unwrap(), Value::Null));

    let value = Parson::parse_json("[ , true , null , ]").unwrap();
    let items = value.try_into_array().unwrap();
    assert_eq!(items.len(), 2);
    assert!(matches!(items[0], Value::Boolean(true)));
    assert!(matches!(items[1], Value::Null));
}

#[test]
fn duplicate_json_keys_keep_last_value() {
    let value = Parson::parse_json(r#"{"a": 1, "a": 2,}"#).unwrap();
    let root = value.try_into_object().unwrap();
    assert_eq!(root.len(), 1);
    assert!(matches!(root.get("a").unwrap(), Value::Number(Number::Float(t)) if t == "2"));
}

#[test]
fn empty_json_input_builds_null() {
    let value = Parson::parse_json("").unwrap();
    assert!(matches!(value, Value::Null));
}

#[test]
fn stray_close_brace_is_a_structural_error() {
    let parsed = Parson::parse_json("}");
    assert!(parsed.is_err());
    assert_eq!(
        parsed.unwrap_err().message,
        "Failed to parse object. Is it a valid one?"
    );
}

#[test]
fn unterminated_string_is_a_lexical_error() {
    let parsed = Parson::parse_json("\"abc");
    assert!(parsed.is_err());
    assert_eq!(parsed.unwrap_err().message, "Not a valid json");
}

#[test]
fn malformed_number_text_is_a_lexical_error() {
    let parsed = Parson::parse_json("1.2.3");
    assert!(parsed.is_err());
    assert!(parsed.unwrap_err().message.contains("failed to parse 1.2.3 as a number"));
}

#[test]
fn malformed_keyword_spellings_are_lexical_errors() {
    assert_eq!(
        Parson::parse_json("tru").unwrap_err().message,
        "Failed to parse boolean value"
    );
    assert_eq!(
        Parson::parse_json("nul").unwrap_err().message,
        "Failed to parse null value"
    );
}

#[test]
fn byte_entry_points_reject_malformed_encodings() {
    let bad = [0xffu8, 0xfe, 0xfd];
    assert_eq!(
        Parson::parse_json_with_bytes(&bad).unwrap_err().message,
        "failed to decode byte buffer"
    );
    assert_eq!(
        Parson::parse_csv_with_bytes(&bad).unwrap_err().message,
        "failed to tokenize buf"
    );
}

#[test]
fn byte_entry_points_accept_valid_encodings() {
    let value = Parson::parse_json_with_bytes("5".as_bytes()).unwrap();
    assert!(matches!(value, Value::Number(Number::Float(t)) if t == "5"));

    let rows = Parson::parse_csv_with_bytes("a\nx".as_bytes()).unwrap();
    assert!(matches!(rows[0].get("a").unwrap(), CsvValue::String(t) if t == "x"));
}

#[test]
fn json_integer_projection_truncates_toward_zero() {
    let v = Value::Number(Number::Float("-2.9".to_string()));
    assert_eq!(v.try_into_integer().unwrap(), -2);
    let v = Value::Number(Number::Float("7".to_string()));
    assert_eq!(v.try_into_integer().unwrap(), 7);
}

#[test]
fn csv_value_projections_name_the_actual_variant() {
    assert_eq!(
        CsvValue::Number(CsvNumber::Int(3)).try_into_string().unwrap_err().message,
        "value Number is not a string"
    );
    assert_eq!(
        CsvValue::String("x".to_string()).try_into_integer().unwrap_err().message,
        "value String is not an integer"
    );
    assert_eq!(
        CsvValue::Number(CsvNumber::Int(3)).try_into_float().unwrap_err().message,
        "value Number is not a float"
    );
    assert_eq!(
        CsvValue::Null.try_into_boolean().unwrap_err().message,
        "value Null is not a boolean"
    );
    assert_eq!(CsvValue::Boolean(true).try_into_boolean().unwrap(), true);
    assert_eq!(
        CsvValue::Number(CsvNumber::Int(3)).try_into_integer().unwrap(),
        3
    );
    assert_eq!(
        CsvValue::String("x".to_string()).try_into_string().unwrap(),
        "x"
    );
    assert_eq!(
        CsvValue::Number(CsvNumber::Float("2.5".to_string()))
            .try_into_float()
            .unwrap(),
        "2.5"
    );
}

#[test]
fn csv_header_token_extraction_names_the_variant() {
    let err = CsvToken::Number(CsvNumber::Int(1))
        .try_into_string()
        .unwrap_err();
    assert_eq!(err.message, "token Number is not a string and it should be");
    let ok = CsvToken::String("h".to_string()).try_into_string().unwrap();
    assert_eq!(ok, "h");
}
