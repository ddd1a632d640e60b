use owo_lisp::lexer::{parse_int, tokenizer, Token};

#[test]
fn test_tokenizer() {
    let program = "(+ 1 2)";
    let tokens = tokenizer(program).unwrap();
    assert_eq!(
        tokens,
        vec![
            Token::LParen,
            Token::Symbol("+".to_string()),
            Token::Number(1),
            Token::Number(2),
            Token::RParen,
        ]
    )
}

#[test]
fn lexer_test_area_of_a_circle() {
    let program = "
        (
            (define r 10)
            (define pi 314)
            (* pi (* r r))
        )
    ";
    let tokens = tokenizer(program).unwrap_or(vec![]);
    assert_eq!(
        tokens,
        vec![
            Token::LParen,
            Token::LParen,
            Token::Symbol("define".to_string()),
            Token::Symbol("r".to_string()),
            Token::Number(10),
            Token::RParen,
            Token::LParen,
            Token::Symbol("define".to_string()),
            Token::Symbol("pi".to_string()),
            Token::Number(314),
            Token::RParen,
            Token::LParen,
            Token::Symbol("*".to_string()),
            Token::Symbol("pi".to_string()),
            Token::LParen,
            Token::Symbol("*".to_string()),
            Token::Symbol("r".to_string()),
            Token::Symbol("r".to_string()),
            Token::RParen,
            Token::RParen,
            Token::RParen
        ]
    );
}

#[test]
fn tokens_split_on_any_whitespace_and_parens() {
    let tokens = tokenizer("a(b)\t-3\n+4 x1 -").unwrap();
    assert_eq!(
        tokens,
        vec![
            Token::Symbol("a".to_string()),
            Token::LParen,
            Token::Symbol("b".to_string()),
            Token::RParen,
            Token::Number(-3),
            Token::Number(4),
            Token::Symbol("x1".to_string()),
            Token::Symbol("-".to_string()),
        ]
    );
    assert_eq!(tokenizer("").unwrap(), vec![]);
    assert_eq!(tokenizer("  \u{3000} ").unwrap(), vec![]);
    assert_eq!(tokenizer("é(ü)").unwrap(), vec![
        Token::Symbol("é".to_string()),
        Token::LParen,
        Token::Symbol("ü".to_string()),
        Token::RParen,
    ]);
}

#[test]
fn integer_words_follow_the_decimal_rule() {
    let w = |s: &str| s.chars().collect::<Vec<char>>();
    assert_eq!(parse_int(&w("0")), Some(0));
    assert_eq!(parse_int(&w("+17")), Some(17));
    assert_eq!(parse_int(&w("-17")), Some(-17));
    assert_eq!(parse_int(&w("9223372036854775807")), Some(i64::MAX));
    assert_eq!(parse_int(&w("-9223372036854775808")), Some(i64::MIN));
    assert_eq!(parse_int(&w("9223372036854775808")), None);
    assert_eq!(parse_int(&w("-9223372036854775809")), None);
    assert_eq!(parse_int(&w("")), None);
    assert_eq!(parse_int(&w("-")), None);
    assert_eq!(parse_int(&w("1a")), None);
    assert_eq!(parse_int(&w("--1")), None);
}

#[test]
fn token_texts() {
    assert_eq!(Token::Number(-42).render(), "Number(-42)");
    assert_eq!(Token::Symbol("pi".to_string()).render(), "StringLiteral(pi)");
    assert_eq!(Token::LParen.render(), "(");
    assert_eq!(Token::RParen.render(), ")");
}
