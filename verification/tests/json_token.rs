use parson::json::token::{Number, Token, Tokenizer};
use parson::ParsingError;

#[test]
fn correctly_parse_brackets_and_string() {
    let string = r#"[]{}"something""somethingelse"  "#;

    let tokenizer = Tokenizer::new(string);

    assert!(tokenizer.is_ok());

    let tokenizer = tokenizer.unwrap();

    let tokens = tokenizer.tokens;

    assert_eq!(tokens.len(), 8);

    assert!(matches!(tokens[0], Token::OpenSquareBracket));
    assert!(matches!(tokens[1], Token::CloseSquareBracket));
    assert!(matches!(tokens[2], Token::OpenCurlyBracket));
    assert!(matches!(tokens[3], Token::CloseCurlyBracket));

    assert!(matches!(tokens[4], Token::StringValue(..)));
    let value = if let Token::StringValue(val) = &tokens[4] {
        val
    } else {
        panic!("String value does not match expected something");
    };
    assert_eq!(value, "something");
    assert!(matches!(tokens[5], Token::StringValue(..)));
    let value = if let Token::StringValue(val) = &tokens[5] {
        val
    } else {
        panic!("String value does not match expected something");
    };
    assert_eq!(value, "somethingelse");

    assert!(matches!(tokens[6], Token::Whitespace));
    assert!(matches!(tokens[7], Token::Whitespace));
}

#[test]
fn return_error_if_string_not_complete() {
    let string = r#"[]{}"something"somethingelse"  "#;

    let tokenizer = Tokenizer::new(string);

    assert!(tokenizer.is_err());
}

#[test]
fn correctly_tokenize_boolean() {
    let string = r#"false,true, false, true"#;

    let tokenizer = Tokenizer::new(string);

    assert!(tokenizer.is_ok());

    let tokenizer = tokenizer.unwrap();

    let tokens = tokenizer.tokens;

    assert_eq!(tokens.len(), 9);

    assert!(matches!(tokens[0], Token::Boolean(false)));
    assert!(matches!(tokens[1], Token::Comma));
    assert!(matches!(tokens[2], Token::Boolean(true)));
    assert!(matches!(tokens[3], Token::Comma));
    assert!(matches!(tokens[4], Token::Whitespace));
    assert!(matches!(tokens[5], Token::Boolean(false)));
    assert!(matches!(tokens[6], Token::Comma));
    assert!(matches!(tokens[7], Token::Whitespace));
    assert!(matches!(tokens[8], Token::Boolean(true)));
}

#[test]
fn unsuccessfully_tokenize_boolean() {
    let string = r#"folse,true, false, true"#;

    let tokenizer = Tokenizer::new(string);

    assert!(tokenizer.is_err());
}

#[test]
fn correctly_tokenize_null() {
    let string = r#"null,null, null"#;

    let tokenizer = Tokenizer::new(string);

    assert!(tokenizer.is_ok());

    let tokenizer = tokenizer.unwrap();

    let tokens = tokenizer.tokens;

    assert_eq!(tokens.len(), 6);

    assert!(matches!(tokens[0], Token::Null));
    assert!(matches!(tokens[1], Token::Comma));
    assert!(matches!(tokens[2], Token::Null));
    assert!(matches!(tokens[3], Token::Comma));
    assert!(matches!(tokens[4], Token::Whitespace));
    assert!(matches!(tokens[5], Token::Null));
}

#[test]
fn unsuccessfully_tokenize_null() {
    let string = r#"noll,null, null"#;

    let tokenizer = Tokenizer::new(string);

    assert!(tokenizer.is_err());
}

fn number_value(token: &Token) -> f64 {
    let text = if let Token::NumberValue(Number::Float(val)) = token {
        val
    } else {
        panic!("This value must be a number, we asserted it one line above");
    };
    text.parse::<f64>().unwrap()
}

#[test]
fn correctly_tokenize_number() {
    let string = r#"1.234234,  23, 4.4,-0.23,+23.43"#;

    let tokenizer = Tokenizer::new(string);

    assert!(tokenizer.is_ok());

    let tokenizer = tokenizer.unwrap();

    let tokens = tokenizer.tokens;

    assert_eq!(tokens.len(), 12);

    assert!(matches!(tokens[0], Token::NumberValue(Number::Float(..))));
    assert_eq!(number_value(&tokens[0]), 1.234234);
    assert!(matches!(tokens[1], Token::Comma));
    assert!(matches!(tokens[2], Token::Whitespace));
    assert!(matches!(tokens[3], Token::Whitespace));
    assert!(matches!(tokens[4], Token::NumberValue(Number::Float(..))));
    assert_eq!(number_value(&tokens[4]), 23.0);
    assert!(matches!(tokens[5], Token::Comma));
    assert!(matches!(tokens[6], Token::Whitespace));

    assert!(matches!(tokens[7], Token::NumberValue(Number::Float(..))));
    assert_eq!(number_value(&tokens[7]), 4.4);
    assert!(matches!(tokens[8], Token::Comma));

    assert!(matches!(tokens[9], Token::NumberValue(Number::Float(..))));
    assert_eq!(number_value(&tokens[9]), -0.23);

    assert!(matches!(tokens[10], Token::Comma));
    assert!(matches!(tokens[11], Token::NumberValue(Number::Float(..))));
    assert_eq!(number_value(&tokens[11]), 23.43);
}

#[test]
fn unsuccessfully_tokenize_number() {
    let string = r#"34:22"#;
    let tokenizer = Tokenizer::new(string);

    assert!(tokenizer.is_err());

    assert!(tokenizer.unwrap_err().message.contains("not allowed"));
}

#[test]
fn test_correcly_tokenize_json() {
    let string = r#"{"test": {"test_inner": 1, "test_inner2": null}, "test1":"test",
        "test_after_return": true
        }"#;

    let tokenizer = Tokenizer::new(string);

    assert!(tokenizer.is_ok());

    let tokens = tokenizer.unwrap().tokens;

    let tokens = tokens
        .iter()
        .filter(|item| !matches!(item, Token::Whitespace))
        .collect::<Vec<_>>();

    assert_eq!(tokens.len(), 21);
}

#[test]
fn test_return_error_if_not_parsed_correctly() {
    let string = r#"{"test: {"test_inner": 1, "test_inner2": null}, "test1":"test",
        "test_after_return": true
        }"#;

    let tokenizer = Tokenizer::new(string);

    assert!(tokenizer.is_err());

    assert!(matches!(tokenizer, Err(ParsingError { .. })));
}

#[test]
fn escaped_quote_at_content_end_still_closes() {
    let string = r#""say \"hi\"""#;

    let tokenizer = Tokenizer::new(string);

    assert!(tokenizer.is_ok());

    let tokens = tokenizer.unwrap().tokens;

    assert_eq!(tokens.len(), 1);

    let value = if let Token::StringValue(val) = &tokens[0] {
        val
    } else {
        panic!("This value must be a string, we asserted it one line above");
    };
    let expected = r#"say \"hi\""#.to_string();
    assert_eq!(*value, expected);
}

#[test]
fn test_escape_strings() {
    let string = r#""test\"_something""#;
    println!("{}", string);

    let tokenizer = Tokenizer::new(string);

    assert!(tokenizer.is_ok());

    let tokens = tokenizer.unwrap().tokens;

    let tokens = tokens
        .iter()
        .filter(|item| !matches!(item, Token::Whitespace))
        .collect::<Vec<_>>();

    assert_eq!(tokens.len(), 1);

    assert!(matches!(tokens[0], Token::StringValue(..)));
    let value = if let Token::StringValue(val) = &tokens[0] {
        val
    } else {
        panic!("This value must be a string, we asserted it one line above");
    };
    let expected = r#"test\"_something"#.to_string();
    assert_eq!(*value, expected);
}
