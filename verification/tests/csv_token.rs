use parson::csv::token::{Number, Token, Tokenizer};

#[test]
fn fail_tokenizing_uneven_number_of_columns() {
    let csv_string = "test1,test2,num1,num2,additional,\nval1,val2,2,3.4";
    let tokens = Tokenizer::parse_tokens(csv_string.as_bytes());
    assert!(tokens.is_err());
    assert!(tokens
        .unwrap_err()
        .message
        .contains("do not have the same number of columns"));
}

#[test]
fn tokenize_escaped_string() {
    let csv_string = "test1,test2,num1,num2\n\"val1\",val2,2,3.4";
    let tokens = Tokenizer::parse_tokens(csv_string.as_bytes());
    assert!(tokens.is_ok());
    let tokens = tokens.unwrap();
    assert_eq!(tokens.len(), 2);
    let token = tokens[1][0].clone();
    let token_value = if let Token::String(t) = token {
        t
    } else {
        "".to_string()
    };
    assert_eq!(token_value, "val1".to_string());

    let csv_string = "test1,test2,num1,num2\n\"va\"\"l1\",val2,2,3.4";
    let tokens = Tokenizer::parse_tokens(csv_string.as_bytes());
    assert!(tokens.is_ok());
    let tokens = tokens.unwrap();
    assert_eq!(tokens.len(), 2);
    let token = tokens[1][0].clone();
    let token_value = if let Token::String(t) = token {
        t
    } else {
        "".to_string()
    };
    assert_eq!(token_value, "va\"l1".to_string());
}

#[test]
fn tokenize_bool() {
    let csv_string = "test1,test2,num1,num2,condition\n\"val1\",val2,2,3.4,true";
    let tokens = Tokenizer::parse_tokens(csv_string.as_bytes());
    assert!(tokens.clone().is_ok_and(|tok| tok.len() == 2));
    let tokens = tokens.unwrap();
    let token = tokens[1][4].clone();
    assert!(matches!(token, Token::Boolean(true)));

    let csv_string = "test1,test2,num1,num2,condition\n\"val1\",val2,2,3.4,\"true\"";
    let tokens = Tokenizer::parse_tokens(csv_string.as_bytes());
    assert!(tokens.clone().is_ok_and(|tok| tok.len() == 2));
    let tokens = tokens.unwrap();
    let token = tokens[1][4].clone();
    assert!(matches!(token, Token::Boolean(true)))
}

#[test]
fn tokenize_correctly() {
    let csv_string = "test1,test2,num1,num2\nval1,val2,2,3.4";
    let tokens = Tokenizer::parse_tokens(csv_string.as_bytes());
    assert!(tokens.is_ok());
    let tokens = tokens.unwrap();

    assert_eq!(tokens.len(), 2);

    let first_line = tokens.first().unwrap();
    let expected = vec![
        Token::String("test1".to_string()),
        Token::String("test2".to_string()),
        Token::String("num1".to_string()),
        Token::String("num2".to_string()),
    ];
    assert_eq!(*first_line, expected);
    let second_line = tokens.get(1).unwrap();
    let expected = vec![
        Token::String("val1".to_string()),
        Token::String("val2".to_string()),
        Token::Number(Number::Int(2)),
        Token::Number(Number::Float("3.4".to_string())),
    ];
    assert_eq!(*second_line, expected);
}

#[test]
fn tokenize_empty_values() {
    let csv_string = ",,,\n,,,";
    let tokens = Tokenizer::parse_tokens(csv_string.as_bytes());
    assert!(tokens.is_ok());
    let tokens = tokens.unwrap();
    assert_eq!(tokens.len(), 2);
    let first_line = tokens[0].clone();
    assert_eq!(first_line, vec![Token::Null, Token::Null, Token::Null]);
    let second_line = tokens[1].clone();
    assert_eq!(second_line, vec![Token::Null, Token::Null, Token::Null]);
}

#[test]
fn tokenize_string_that_start_with_number() {
    let csv_string = "test,test1,test2,test3\n1test,1test1,1test2,1test3";
    let tokens = Tokenizer::parse_tokens(csv_string.as_bytes());
    assert!(tokens.is_ok());
}
