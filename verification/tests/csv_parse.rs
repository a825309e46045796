use parson::csv::value::Value;
use parson::csv::CsvParser;

#[test]
fn parsing_correctly() {
    let csv_string = "test1,test2\nvaltest1,valtest2\nvaltest1,valtest2";

    let parser = CsvParser::new(csv_string.as_bytes());

    assert!(parser.is_ok());

    let parser = parser.unwrap();

    let parsedcsv = parser.parse();

    assert!(parsedcsv.is_ok());

    assert_eq!(parsedcsv.unwrap().iter().len(), 2);
}

#[test]
fn rejects_non_string_header() {
    let parser = CsvParser::new("1,2\n3,4".as_bytes()).unwrap();
    let parsed = parser.parse();
    assert!(parsed.is_err());
    assert_eq!(parsed.unwrap_err().message, "header items must all be strings");
}

#[test]
fn header_only_input_has_no_rows() {
    let parser = CsvParser::new("a,b,c".as_bytes()).unwrap();
    let rows = parser.parse().unwrap();
    assert_eq!(rows.len(), 0);
}

#[test]
fn empty_input_has_no_rows() {
    let parser = CsvParser::new("".as_bytes()).unwrap();
    let rows = parser.parse().unwrap();
    assert_eq!(rows.len(), 0);
}

#[test]
fn duplicate_column_keeps_last_value() {
    let parser = CsvParser::new("a,a\nx,y".as_bytes()).unwrap();
    let rows = parser.parse().unwrap();
    assert_eq!(rows.len(), 1);
    assert_eq!(rows[0].len(), 1);
    let v = rows[0].get("a").unwrap();
    assert!(matches!(v, Value::String(t) if t == "y"));
}

#[test]
fn crlf_lines_are_split_cleanly() {
    let parser = CsvParser::new("a,b\r\nx,y".as_bytes()).unwrap();
    let rows = parser.parse().unwrap();
    assert_eq!(rows.len(), 1);
    assert!(matches!(rows[0].get("a").unwrap(), Value::String(t) if t == "x"));
    assert!(matches!(rows[0].get("b").unwrap(), Value::String(t) if t == "y"));
}
