use json_tree::errors::{JsonError, LexicalError, SyntaxError};
use json_tree::lexer::{tokenize, JsonNumber, Lexer, Token, TokenKind};
use json_tree::parser::{parse, parse_document, JsonObject, Parser};

fn num(negative: bool, int_part: &str, frac_part: &str) -> JsonNumber {
    JsonNumber {
        negative,
        int_part: int_part.to_string(),
        frac_part: frac_part.to_string(),
    }
}

fn num_value(negative: bool, int_part: &str, frac_part: &str) -> JsonObject {
    JsonObject::Number(num(negative, int_part, frac_part))
}

#[test]
fn empty_input_yields_only_eof() {
    let tokens = tokenize("").unwrap();
    assert_eq!(
        tokens,
        vec![Token {
            token_type: TokenKind::Eof,
            lexeme: String::new(),
        }]
    );
}

#[test]
fn tokenizing_twice_yields_identical_sequences() {
    let text = " {\"a\": [1, -2.5, true], \"b\": null} ";
    let first = tokenize(text).unwrap();
    let second = tokenize(text).unwrap();
    assert_eq!(first, second);
}

#[test]
fn structural_tokens_and_lexemes() {
    let tokens = tokenize("{}[],:").unwrap();
    let kinds: Vec<&TokenKind> = tokens.iter().map(|t| &t.token_type).collect();
    assert!(matches!(
        kinds.as_slice(),
        [
            TokenKind::LeftBrace,
            TokenKind::RightBrace,
            TokenKind::LeftBracket,
            TokenKind::RightBracket,
            TokenKind::Comma,
            TokenKind::Colon,
            TokenKind::Eof,
        ]
    ));
    assert_eq!(tokens[0].lexeme, "{");
    assert_eq!(tokens[5].lexeme, ":");
    assert_eq!(tokens[6].lexeme, "");
}

#[test]
fn keywords_tokenize() {
    let tokens = tokenize("true false null").unwrap();
    assert_eq!(tokens.len(), 4);
    assert_eq!(tokens[0].token_type, TokenKind::True);
    assert_eq!(tokens[0].lexeme, "true");
    assert_eq!(tokens[1].token_type, TokenKind::False);
    assert_eq!(tokens[2].token_type, TokenKind::Null);
    assert_eq!(tokens[3].token_type, TokenKind::Eof);
}

#[test]
fn number_token_roundtrips_its_value() {
    let tokens = tokenize("40.5").unwrap();
    assert_eq!(tokens.len(), 2);
    match &tokens[0].token_type {
        TokenKind::Number(n) => {
            assert_eq!(*n, num(false, "40", "5"));
            assert_eq!(n.to_text(), "40.5");
            assert_eq!(n.to_text().parse::<f64>().unwrap(), 40.5_f64);
        }
        other => panic!("expected a number token, got {:?}", other),
    }
    assert_eq!(tokens[0].lexeme, "40.5");
}

#[test]
fn negative_and_integer_numbers() {
    let tokens = tokenize("-3 7.25 -0.5").unwrap();
    match &tokens[0].token_type {
        TokenKind::Number(n) => {
            assert_eq!(*n, num(true, "3", ""));
            assert_eq!(n.to_text(), "-3");
            assert_eq!(n.to_text().parse::<f64>().unwrap(), -3.0_f64);
        }
        other => panic!("expected a number token, got {:?}", other),
    }
    match &tokens[1].token_type {
        TokenKind::Number(n) => assert_eq!(n.to_text(), "7.25"),
        other => panic!("expected a number token, got {:?}", other),
    }
    match &tokens[2].token_type {
        TokenKind::Number(n) => {
            assert_eq!(*n, num(true, "0", "5"));
            assert_eq!(n.to_text().parse::<f64>().unwrap(), -0.5_f64);
        }
        other => panic!("expected a number token, got {:?}", other),
    }
}

#[test]
fn string_token_has_no_escape_processing() {
    // A backslash does not protect a quote: the quote after it closes
    // the string, and the backslash stays in the text.
    let tokens = tokenize("\"ab\\\"").unwrap();
    assert_eq!(
        tokens[0].token_type,
        TokenKind::String("ab\\".to_string())
    );
    assert_eq!(tokens[1].token_type, TokenKind::Eof);
}

#[test]
fn bare_minus_fails_lexically() {
    assert_eq!(tokenize("-").unwrap_err(), LexicalError::MalformedNumber);
}

#[test]
fn dot_without_digits_fails_lexically() {
    assert_eq!(tokenize("1.").unwrap_err(), LexicalError::MalformedNumber);
}

#[test]
fn truncated_keyword_fails_lexically() {
    assert_eq!(tokenize("tru").unwrap_err(), LexicalError::UnknownKeyword);
}

#[test]
fn unterminated_string_fails_lexically() {
    assert_eq!(
        tokenize("\"abc").unwrap_err(),
        LexicalError::UnterminatedString
    );
}

#[test]
fn unexpected_character_fails_lexically() {
    assert_eq!(
        tokenize("@").unwrap_err(),
        LexicalError::UnexpectedCharacter
    );
}

#[test]
fn parse_of_empty_object_is_empty() {
    assert_eq!(
        parse_document("{}").unwrap(),
        JsonObject::Object(Vec::new())
    );
}

#[test]
fn parse_of_empty_array_is_empty() {
    assert_eq!(parse_document("[]").unwrap(), JsonObject::Array(Vec::new()));
}

#[test]
fn parse_of_two_member_object() {
    let value = parse_document("{\"a\":1,\"b\":2}").unwrap();
    assert_eq!(
        value,
        JsonObject::Object(vec![
            ("a".to_string(), num_value(false, "1", "")),
            ("b".to_string(), num_value(false, "2", "")),
        ])
    );
}

#[test]
fn parse_of_three_element_array() {
    let value = parse_document("[1,2,3]").unwrap();
    assert_eq!(
        value,
        JsonObject::Array(vec![
            num_value(false, "1", ""),
            num_value(false, "2", ""),
            num_value(false, "3", ""),
        ])
    );
}

#[test]
fn parse_of_nested_containers() {
    let value = parse_document("{\"x\": {\"y\": [true, false, null]}}").unwrap();
    assert_eq!(
        value,
        JsonObject::Object(vec![(
            "x".to_string(),
            JsonObject::Object(vec![(
                "y".to_string(),
                JsonObject::Array(vec![
                    JsonObject::Bool(true),
                    JsonObject::Bool(false),
                    JsonObject::Null,
                ])
            )])
        )])
    );
}

#[test]
fn trailing_comma_in_object_is_a_syntax_error() {
    let err = parse_document("{\"a\":1,}").unwrap_err();
    assert!(matches!(err, JsonError::Syntax(_)), "got {:?}", err);
}

#[test]
fn trailing_comma_in_array_is_a_syntax_error() {
    let err = parse_document("[1,2,]").unwrap_err();
    assert!(matches!(err, JsonError::Syntax(_)), "got {:?}", err);
}

#[test]
fn object_without_trailing_comma_is_accepted() {
    assert!(parse_document("{\"a\":1}").is_ok());
    assert!(parse_document("[1,2]").is_ok());
}

#[test]
fn duplicate_key_keeps_the_later_value() {
    let value = parse_document("{\"a\":1,\"a\":2}").unwrap();
    assert_eq!(
        value,
        JsonObject::Object(vec![("a".to_string(), num_value(false, "2", ""))])
    );
}

#[test]
fn whitespace_between_tokens_is_discarded() {
    let value = parse_document(" \t\r\n{ \"a\" :\n1 } ").unwrap();
    assert_eq!(
        value,
        JsonObject::Object(vec![("a".to_string(), num_value(false, "1", ""))])
    );
}

#[test]
fn stray_closer_is_a_syntax_error() {
    assert_eq!(
        parse_document("]").unwrap_err(),
        JsonError::Syntax(SyntaxError::StrayToken)
    );
}

#[test]
fn trailing_garbage_is_a_syntax_error() {
    assert_eq!(
        parse_document("1 2").unwrap_err(),
        JsonError::Syntax(SyntaxError::StrayToken)
    );
}

#[test]
fn missing_colon_is_a_syntax_error() {
    assert_eq!(
        parse_document("{\"a\" 1}").unwrap_err(),
        JsonError::Syntax(SyntaxError::ExpectedColon)
    );
}

#[test]
fn non_string_key_is_a_syntax_error() {
    assert_eq!(
        parse_document("{1:2}").unwrap_err(),
        JsonError::Syntax(SyntaxError::ExpectedStringKey)
    );
}

#[test]
fn missing_comma_is_a_syntax_error() {
    assert_eq!(
        parse_document("{\"a\":1 \"b\":2}").unwrap_err(),
        JsonError::Syntax(SyntaxError::ExpectedCommaOrClose)
    );
    assert_eq!(
        parse_document("[1 2]").unwrap_err(),
        JsonError::Syntax(SyntaxError::ExpectedCommaOrClose)
    );
}

#[test]
fn input_ending_early_is_a_syntax_error() {
    assert_eq!(
        parse_document("").unwrap_err(),
        JsonError::Syntax(SyntaxError::UnexpectedEndOfInput)
    );
    assert_eq!(
        parse_document("[1,").unwrap_err(),
        JsonError::Syntax(SyntaxError::UnexpectedEndOfInput)
    );
    assert_eq!(
        parse_document("{\"a\":").unwrap_err(),
        JsonError::Syntax(SyntaxError::UnexpectedEndOfInput)
    );
}

#[test]
fn lexical_error_wins_over_syntax() {
    assert_eq!(
        parse_document("[1.]").unwrap_err(),
        JsonError::Lexical(LexicalError::MalformedNumber)
    );
}

#[test]
fn lexer_and_parser_compose_by_hand() {
    let mut lexer = Lexer::new("[\"hi\", -2]");
    let tokens = lexer.get_tokens().unwrap();
    let value = parse(tokens).unwrap();
    assert_eq!(
        value,
        JsonObject::Array(vec![
            JsonObject::String("hi".to_string()),
            num_value(true, "2", ""),
        ])
    );
}

#[test]
fn next_token_walks_the_input() {
    let mut lexer = Lexer::new("[1]");
    assert_eq!(
        lexer.next_token().unwrap().token_type,
        TokenKind::LeftBracket
    );
    match lexer.next_token().unwrap().token_type {
        TokenKind::Number(n) => assert_eq!(n, num(false, "1", "")),
        other => panic!("expected a number token, got {:?}", other),
    }
    assert_eq!(
        lexer.next_token().unwrap().token_type,
        TokenKind::RightBracket
    );
    assert_eq!(lexer.next_token().unwrap().token_type, TokenKind::Eof);
}

#[test]
fn object_parse_reads_one_value() {
    let tokens = tokenize("true").unwrap();
    let mut builder = Parser::parser(tokens);
    assert_eq!(builder.object_parse().unwrap(), JsonObject::Bool(true));
}

#[test]
fn document_with_every_value_kind_mirrors_its_nesting() {
    let text = "{\"a\": null, \"b\": [true, false], \"c\": {\"d\": \"x\", \"e\": -1.25}, \"f\": 7}";
    let value = parse_document(text).unwrap();
    assert_eq!(
        value,
        JsonObject::Object(vec![
            ("a".to_string(), JsonObject::Null),
            (
                "b".to_string(),
                JsonObject::Array(vec![JsonObject::Bool(true), JsonObject::Bool(false)])
            ),
            (
                "c".to_string(),
                JsonObject::Object(vec![
                    ("d".to_string(), JsonObject::String("x".to_string())),
                    ("e".to_string(), num_value(true, "1", "25")),
                ])
            ),
            ("f".to_string(), num_value(false, "7", "")),
        ])
    );
}

#[test]
fn strings_keep_their_exact_text() {
    let value = parse_document("{\"key with spaces\":\"v a l\"}").unwrap();
    assert_eq!(
        value,
        JsonObject::Object(vec![(
            "key with spaces".to_string(),
            JsonObject::String("v a l".to_string())
        )])
    );
}
