use xenon_lexer::token::{ScanError, Token};

fn toks(src: &str) -> Vec<Token> {
    Token::tokenize(src.to_string()).expect("scan should succeed")
}

fn fails(src: &str) -> ScanError {
    Token::tokenize(src.to_string()).expect_err("scan should fail")
}

#[test]
fn empty_input_yields_empty_stream() {
    assert_eq!(toks(""), Vec::<Token>::new());
}

#[test]
fn operator_round_trip() {
    assert_eq!(toks("+"), vec![Token::Plus]);
    assert_eq!(toks("-"), vec![Token::Minus]);
    assert_eq!(toks("*"), vec![Token::Multiply]);
    assert_eq!(toks("/"), vec![Token::Divide]);
    assert_eq!(toks("="), vec![Token::Equal]);
    assert_eq!(toks("=="), vec![Token::EqualTo]);
    assert_eq!(toks("<"), vec![Token::LessThan]);
    assert_eq!(toks(">"), vec![Token::GreaterThan]);
    assert_eq!(toks("<="), vec![Token::LessEqual]);
    assert_eq!(toks(">="), vec![Token::GreaterEqual]);
    assert_eq!(toks("!"), vec![Token::Bang]);
    assert_eq!(toks("!="), vec![Token::BangEqual]);
    assert_eq!(toks("."), vec![Token::Dot]);
    assert_eq!(toks(","), vec![Token::Comma]);
    assert_eq!(toks(":"), vec![Token::Colon]);
    assert_eq!(toks(";"), vec![Token::SemiColon]);
    assert_eq!(toks("("), vec![Token::OpenParen]);
    assert_eq!(toks(")"), vec![Token::CloseParen]);
    assert_eq!(toks("{"), vec![Token::OpenBrace]);
    assert_eq!(toks("}"), vec![Token::CloseBrace]);
    assert_eq!(toks("["), vec![Token::OpenBracket]);
    assert_eq!(toks("]"), vec![Token::CloseBracket]);
    assert_eq!(toks("->"), vec![Token::Range]);
}

#[test]
fn maximal_munch_two_char_operators() {
    assert_eq!(toks("==3"), vec![Token::EqualTo, Token::IntLiteral(3)]);
    assert_eq!(toks("<=x"), vec![Token::LessEqual, Token::Keyword("x".to_string())]);
    assert_eq!(toks(">=1"), vec![Token::GreaterEqual, Token::IntLiteral(1)]);
    assert_eq!(toks("!=!"), vec![Token::BangEqual, Token::Bang]);
    assert_eq!(toks("->->"), vec![Token::Range, Token::Range]);
    // never two one-character tokens
    assert_ne!(toks("=="), vec![Token::Equal, Token::Equal]);
}

#[test]
fn single_char_fallback_when_not_completed() {
    assert_eq!(toks("=1"), vec![Token::Equal, Token::IntLiteral(1)]);
    assert_eq!(toks("<1"), vec![Token::LessThan, Token::IntLiteral(1)]);
    assert_eq!(toks(">1"), vec![Token::GreaterThan, Token::IntLiteral(1)]);
    assert_eq!(toks("!x"), vec![Token::Bang, Token::Keyword("x".to_string())]);
    assert_eq!(toks("-1"), vec![Token::Minus, Token::IntLiteral(1)]);
    assert_eq!(toks("- >"), vec![Token::Minus, Token::GreaterThan]);
}

#[test]
fn comment_elided_to_newline() {
    assert_eq!(
        toks("// a comment\nvar x;"),
        vec![Token::Var, Token::Keyword("x".to_string()), Token::SemiColon]
    );
}

#[test]
fn comment_elided_to_end_of_input() {
    assert_eq!(toks("var x // trailing words 123 \"quote\" if"), vec![
        Token::Var,
        Token::Keyword("x".to_string()),
    ]);
    assert_eq!(toks("// only a comment"), Vec::<Token>::new());
}

#[test]
fn comment_content_never_tokenized() {
    assert_eq!(
        toks("// var 42 \"unterminated if\n1"),
        vec![Token::IntLiteral(1)]
    );
}

#[test]
fn divide_when_slash_not_doubled() {
    assert_eq!(
        toks("6 / 2"),
        vec![Token::IntLiteral(6), Token::Divide, Token::IntLiteral(2)]
    );
}

#[test]
fn whitespace_runs_never_change_tokens() {
    let tight = toks("var x=1;");
    let spread = toks("  var \t x \n =  \r\n 1 ;  ");
    assert_eq!(tight, spread);
    assert_eq!(tight, vec![
        Token::Var,
        Token::Keyword("x".to_string()),
        Token::Equal,
        Token::IntLiteral(1),
        Token::SemiColon,
    ]);
}

#[test]
fn keywords_hit_the_table() {
    assert_eq!(toks("true"), vec![Token::True]);
    assert_eq!(toks("false"), vec![Token::False]);
    assert_eq!(toks("func"), vec![Token::Func]);
    assert_eq!(toks("var"), vec![Token::Var]);
    assert_eq!(toks("if"), vec![Token::If]);
    assert_eq!(toks("else"), vec![Token::Else]);
    assert_eq!(toks("for"), vec![Token::For]);
    assert_eq!(toks("switch"), vec![Token::Switch]);
    assert_eq!(toks("case"), vec![Token::Case]);
    assert_eq!(toks("in"), vec![Token::In]);
    assert_eq!(toks("struct"), vec![Token::Struct]);
    assert_eq!(toks("enum"), vec![Token::Enum]);
    assert_eq!(toks("return"), vec![Token::Return]);
}

#[test]
fn other_words_are_identifiers_with_exact_text() {
    assert_eq!(toks("truex"), vec![Token::Keyword("truex".to_string())]);
    assert_eq!(toks("True"), vec![Token::Keyword("True".to_string())]);
    assert_eq!(toks("_under_score7"), vec![Token::Keyword("_under_score7".to_string())]);
    assert_eq!(toks("x1 y2"), vec![
        Token::Keyword("x1".to_string()),
        Token::Keyword("y2".to_string()),
    ]);
}

#[test]
fn integer_literal_value() {
    assert_eq!(toks("42"), vec![Token::IntLiteral(42)]);
    assert_eq!(toks("007"), vec![Token::IntLiteral(7)]);
    assert_eq!(toks("0"), vec![Token::IntLiteral(0)]);
    assert_eq!(
        toks("9223372036854775807"),
        vec![Token::IntLiteral(i64::MAX)]
    );
}

#[test]
fn float_literal_lexeme_and_value() {
    let ts = toks("3.14");
    assert_eq!(ts, vec![Token::FloatLiteral("3.14".to_string())]);
    match &ts[0] {
        Token::FloatLiteral(text) => {
            let v: f32 = text.parse().expect("float lexeme should parse");
            assert!((v - 3.14f32).abs() < 1e-6);
        },
        _ => panic!("expected a float token"),
    }
    assert_eq!(toks("1."), vec![Token::FloatLiteral("1.".to_string())]);
}

#[test]
fn two_dots_are_a_malformed_numeric_literal() {
    assert_eq!(fails("1.2.3"), ScanError::MalformedNumericLiteral);
}

#[test]
fn integer_overflow_is_a_malformed_numeric_literal() {
    assert_eq!(fails("9223372036854775808"), ScanError::MalformedNumericLiteral);
}

#[test]
fn string_literal_takes_text_between_quotes() {
    assert_eq!(toks("\"hello world\""), vec![Token::StringLiteral(
        "hello world".to_string(),
    )]);
    assert_eq!(toks("\"\""), vec![Token::StringLiteral(String::new())]);
}

#[test]
fn char_literal_takes_one_character() {
    assert_eq!(toks("'a'"), vec![Token::CharLiteral('a')]);
    assert_eq!(toks("'''"), vec![Token::CharLiteral('\'')]);
}

#[test]
fn unterminated_char_literal_fails() {
    assert_eq!(fails("'ab'"), ScanError::UnterminatedCharacterLiteral);
    assert_eq!(fails("'a"), ScanError::UnterminatedCharacterLiteral);
    assert_eq!(fails("''"), ScanError::UnterminatedCharacterLiteral);
}

#[test]
fn unterminated_string_literal_fails() {
    assert_eq!(fails("\"hello"), ScanError::UnterminatedStringLiteral);
}

#[test]
fn unrecognized_character_fails_and_is_reported() {
    assert_eq!(fails("@"), ScanError::UnrecognizedCharacter('@'));
    assert_eq!(fails("var #"), ScanError::UnrecognizedCharacter('#'));
    assert_eq!(fails("\u{a7}"), ScanError::UnrecognizedCharacter('\u{a7}'));
}

#[test]
fn mixed_expression_scenario() {
    assert_eq!(toks("x -> y == 3"), vec![
        Token::Keyword("x".to_string()),
        Token::Range,
        Token::Keyword("y".to_string()),
        Token::EqualTo,
        Token::IntLiteral(3),
    ]);
}

#[test]
fn small_program_scans_in_source_order() {
    let src = "func add(a: int, b: int) -> int {\n    return a + b; // sum\n}";
    assert_eq!(toks(src), vec![
        Token::Func,
        Token::Keyword("add".to_string()),
        Token::OpenParen,
        Token::Keyword("a".to_string()),
        Token::Colon,
        Token::Keyword("int".to_string()),
        Token::Comma,
        Token::Keyword("b".to_string()),
        Token::Colon,
        Token::Keyword("int".to_string()),
        Token::CloseParen,
        Token::Range,
        Token::Keyword("int".to_string()),
        Token::OpenBrace,
        Token::Return,
        Token::Keyword("a".to_string()),
        Token::Plus,
        Token::Keyword("b".to_string()),
        Token::SemiColon,
        Token::CloseBrace,
    ]);
}

#[test]
fn failure_aborts_the_whole_scan() {
    // nothing of the prefix survives a later error
    assert_eq!(fails("var x = \"oops"), ScanError::UnterminatedStringLiteral);
}
