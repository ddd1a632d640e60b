use owo_lisp::error::ParserError;
use owo_lisp::object::Object;
use owo_lisp::parser::parse;

#[test]
fn parser_test_add() {
    let program = "(+ 1 2)";
    let result = parse(program);
    assert!(result.is_ok());
    assert_eq!(
        result.unwrap(),
        Object::List(vec![
            Object::Symbol("+".to_string()),
            Object::Number(1),
            Object::Number(2),
        ])
    );
}

#[test]
fn nested_lists_parse_into_nested_trees() {
    assert_eq!(
        parse("((a) () 1)").unwrap(),
        Object::List(vec![
            Object::List(vec![Object::Symbol("a".to_string())]),
            Object::List(vec![]),
            Object::Number(1),
        ])
    );
}

#[test]
fn unbalanced_programs_are_refused() {
    assert_eq!(parse("(+ 1 2"), Err(ParserError::ParenIsNotMatched));
    assert_eq!(parse(")"), Err(ParserError::ParenIsNotMatched));
    assert_eq!(parse(""), Err(ParserError::ParenIsNotMatched));
    assert_eq!(parse("x"), Err(ParserError::ParenIsNotMatched));
    assert_eq!(parse("(a) (b)"), Err(ParserError::ParenIsNotMatched));
    assert_eq!(parse("((a)"), Err(ParserError::ParenIsNotMatched));
}

#[test]
fn rendering_follows_the_text_rules() {
    let tree = Object::List(vec![
        Object::Symbol("+".to_string()),
        Object::Number(-120),
        Object::Number(0),
        Object::List(vec![Object::Bool(true), Object::Bool(false), Object::Void]),
        Object::List(vec![]),
    ]);
    assert_eq!(tree.render(), "(+ -120 0 (true false Void) ())");
    assert_eq!(Object::Number(i64::MIN).render(), "-9223372036854775808");
    assert_eq!(Object::Number(i64::MAX).render(), "9223372036854775807");
    let lambda = Object::Lambda(
        vec!["a".to_string(), "b".to_string()],
        vec![Object::Symbol("+".to_string()), Object::Symbol("a".to_string())],
    );
    assert_eq!(lambda.render(), "Lambda(a b) + a");
}

#[test]
fn rendered_trees_parse_back() {
    let program = "  ( (define  r 10)(* r\t-3) ( ) )";
    let tree = parse(program).unwrap();
    let text = tree.render();
    assert_eq!(text, "((define r 10) (* r -3) ())");
    assert_eq!(parse(&text).unwrap(), tree);
}
