use liulang::parser::{tokenize, Keyword, LineToParse, Operator, Token, TokenData, Value};

fn kinds(src: &str) -> Vec<Token> {
    tokenize(src, 0).into_iter().map(|td| td.token).collect()
}

#[test]
fn splits_on_whitespace_and_parens() {
    assert_eq!(
        kinds("(+ 1 2)"),
        vec![
            Token::OpenParenthesis,
            Token::Operator(Operator::Plus),
            Token::Value(Value::Int(1)),
            Token::Value(Value::Int(2)),
            Token::CloseParenthesis,
        ]
    );
}

#[test]
fn parens_split_adjacent_text() {
    assert_eq!(
        kinds("a(b)c"),
        vec![
            Token::Value(Value::Identifier(String::from("a"))),
            Token::OpenParenthesis,
            Token::Value(Value::Identifier(String::from("b"))),
            Token::CloseParenthesis,
            Token::Value(Value::Identifier(String::from("c"))),
        ]
    );
}

#[test]
fn def_is_a_keyword_but_longer_words_are_not() {
    assert_eq!(kinds("def"), vec![Token::Keyword(Keyword::Def)]);
    assert_eq!(
        kinds("define"),
        vec![Token::Value(Value::Identifier(String::from("define")))]
    );
}

#[test]
fn operators_are_single_characters() {
    assert_eq!(
        kinds("+ -"),
        vec![
            Token::Operator(Operator::Plus),
            Token::Operator(Operator::Minus),
        ]
    );
}

#[test]
fn signed_numbers_are_integers_not_operators() {
    assert_eq!(kinds("+5"), vec![Token::Value(Value::Int(5))]);
    assert_eq!(kinds("-7"), vec![Token::Value(Value::Int(-7))]);
    assert_eq!(
        kinds("+x"),
        vec![Token::Value(Value::Identifier(String::from("+x")))]
    );
}

#[test]
fn integer_literal_edges() {
    assert_eq!(kinds("007"), vec![Token::Value(Value::Int(7))]);
    assert_eq!(
        kinds("9223372036854775807"),
        vec![Token::Value(Value::Int(i64::MAX))]
    );
    assert_eq!(
        kinds("-9223372036854775808"),
        vec![Token::Value(Value::Int(i64::MIN))]
    );
    // Out of the i64 range: kept as an identifier, as the classifier only
    // accepts literals whose value fits.
    assert_eq!(
        kinds("9223372036854775808"),
        vec![Token::Value(Value::Identifier(String::from(
            "9223372036854775808"
        )))]
    );
}

#[test]
fn empty_and_blank_lines_have_no_tokens() {
    assert_eq!(tokenize("", 0), vec![]);
    assert_eq!(tokenize(" \t  ", 3), vec![]);
}

#[test]
fn rows_and_positions_are_recorded() {
    let tokens = tokenize("(+ 1)", 4);
    let rows: Vec<usize> = tokens.iter().map(|td| td.row).collect();
    let positions: Vec<usize> = tokens.iter().map(|td| td.position).collect();
    assert_eq!(rows, vec![5, 5, 5, 5]);
    assert_eq!(positions, vec![0, 1, 3, 4]);
}

#[test]
fn non_ascii_identifiers_survive() {
    assert_eq!(
        kinds("(ä ö)"),
        vec![
            Token::OpenParenthesis,
            Token::Value(Value::Identifier(String::from("ä"))),
            Token::Value(Value::Identifier(String::from("ö"))),
            Token::CloseParenthesis,
        ]
    );
}

#[test]
fn line_cursor_yields_texts_and_end_positions() {
    let mut cursor = LineToParse::new("ab ( c");
    assert_eq!(cursor.next(), Some(("ab", 2)));
    assert_eq!(cursor.next(), Some(("(", 4)));
    assert_eq!(cursor.next(), Some(("c", 6)));
    assert_eq!(cursor.next(), None);
    assert_eq!(cursor.next(), None);
}

#[test]
fn classifiers_follow_the_precedence_order() {
    assert_eq!(Keyword::from_str("def"), Ok(Keyword::Def));
    assert!(Keyword::from_str("Def").is_err());
    assert_eq!(Operator::from_str("+"), Ok(Operator::Plus));
    assert_eq!(Operator::from_str("-"), Ok(Operator::Minus));
    assert!(Operator::from_str("+-").is_err());
    assert_eq!(Value::from_str("41"), Ok(Value::Int(41)));
    assert_eq!(
        Value::from_str("spam"),
        Ok(Value::Identifier(String::from("spam")))
    );
    assert_eq!(Token::from_str("("), Ok(Token::OpenParenthesis));
    assert_eq!(Token::from_str(")"), Ok(Token::CloseParenthesis));
    assert_eq!(Token::new("def"), Token::Keyword(Keyword::Def));
    assert_eq!(Token::new("12"), Token::Value(Value::Int(12)));
}

#[test]
fn token_data_new_records_the_place() {
    let td = TokenData::new("12", 7, 3);
    assert_eq!(td.token, Token::Value(Value::Int(12)));
    assert_eq!(td.row, 7);
    assert_eq!(td.position, 3);
}

#[test]
fn deep_clone_copies_structurally() {
    let v = Value::Variable(Box::new(Value::Identifier(String::from("x"))));
    assert_eq!(v.deep_clone(), v);
    let t = Token::Value(Value::Int(3));
    assert_eq!(t.deep_clone(), t);
}
