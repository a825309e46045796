use parson::json::value::{Object, Value};
use parson::json::token::Number;
use parson::json::JsonParser;
use parson::ParsonResult;

#[test]
fn test_parse_correctly() {
    let json_string = r#"{"number": 1, "string": "val", "boolean": true, "null_value": null, "another_json":{"number": 1, "string": "val", "boolean": true, "null_value": null}}"#;
    let parser = JsonParser::new(json_string).unwrap();
    let value = parser.parse();
    assert!(value.is_ok());
}

#[test]
fn test_parse_failure() {
    let json_string = r#"}"number": 1, "string": "val", "boolean": true, "null_value": null, "another_json":{"number": 1, "string": "val", "boolean": true, "null_value": null}}"#;
    let parser = JsonParser::new(json_string).unwrap();
    let value = parser.parse();
    assert!(value.is_err());

    let json_string = r#"23:4"#;
    let parser = JsonParser::new(json_string);
    assert!(parser.is_err());
}

#[test]
fn test_conversions() {
    let value = Value::Boolean(false).try_into_boolean();
    assert!(value.is_ok());
    assert!(!value.unwrap());

    let value = Value::Number(Number::Float("32.2".to_string())).try_into_float();
    assert!(value.is_ok());
    assert_eq!(value.unwrap().parse::<f64>().unwrap(), 32.2);

    let value = Value::Number(Number::Float("32.2".to_string())).try_into_integer();
    assert!(value.is_ok());
    assert_eq!(value.unwrap(), 32);

    let value: ParsonResult<String> = Value::String("amazing".to_string()).try_into_string();
    assert!(value.is_ok());
    assert_eq!(value.unwrap(), "amazing".to_string());

    let value: ParsonResult<Vec<Value>> =
        Value::Array(vec![Value::Boolean(false), Value::Boolean(true)]).try_into_array();
    assert!(value.is_ok());
    assert_eq!(value.unwrap().len(), 2);

    let mut object = Object::new();
    object.insert("test".to_string(), Value::Boolean(true));
    let value: ParsonResult<Object> = Value::Object(object).try_into_object();

    assert!(value.is_ok());
    let unwrapped_value = value.unwrap();
    assert_eq!(unwrapped_value.len(), 1);
    assert!(unwrapped_value
        .get("test")
        .is_some_and(|k| matches!(k, Value::Boolean(true))));
}
