use owo_lisp::env::Environment;
use owo_lisp::error::{EvalError, ParserError};
use owo_lisp::eval::{eval, eval_with_depth};
use owo_lisp::eval::{eval_obj, MAX_DEPTH};
use owo_lisp::object::Object;

#[test]
fn eval_test_add() {
    let mut env = Environment::new();
    let result = eval("(+ 1 2)", &mut env);
    assert_eq!(result.unwrap(), Object::Number(3));
}

#[test]
fn test_sub() {
    let mut env = Environment::new();
    let result = eval("(- 1 2)", &mut env);
    assert_eq!(result.unwrap(), Object::Number(-1));
}

#[test]
fn test_mul() {
    let mut env = Environment::new();
    let result = eval("(* 1 2)", &mut env);
    assert_eq!(result.unwrap(), Object::Number(2));
}

#[test]
fn test_div() {
    let mut env = Environment::new();
    let result = eval("(/ 1 2)", &mut env);
    assert_eq!(result.unwrap(), Object::Number(0));
}

#[test]
fn test_is_equal() {
    let mut env = Environment::new();
    let result_false = eval("(owo 1 2)", &mut env);
    assert_eq!(result_false.unwrap(), Object::Bool(false));

    let result_true = eval("(owo 1 1)", &mut env);
    assert_eq!(result_true.unwrap(), Object::Bool(true));
}

#[test]
fn test_not_equal() {
    let mut env = Environment::new();

    let result = eval("(uwu 1 2)", &mut env);
    assert_eq!(result.unwrap(), Object::Bool(true));
}

#[test]
fn test_is_less_equal() {
    let mut env = Environment::new();

    let result_true_equal = eval("(owO 2 2)", &mut env);
    assert_eq!(result_true_equal.unwrap(), Object::Bool(true));

    let result_true_greater = eval("(owO 2 3)", &mut env);
    assert_eq!(result_true_greater.unwrap(), Object::Bool(true));

    let result_false = eval("(owO 2 1)", &mut env);
    assert_eq!(result_false.unwrap(), Object::Bool(false));
}

#[test]
fn test_is_less() {
    let mut env = Environment::new();

    let result_true = eval("(o_O 1 2)", &mut env);
    assert_eq!(result_true.unwrap(), Object::Bool(true));

    let result_false = eval("(o_O 10 2)", &mut env);
    assert_eq!(result_false.unwrap(), Object::Bool(false));
}

#[test]
fn test_is_greater_equal() {
    let mut env = Environment::new();

    let result_true_equal = eval("(Owo 10 10)", &mut env);
    assert_eq!(result_true_equal.unwrap(), Object::Bool(true));

    let result_true_greater = eval("(Owo 10 5)", &mut env);
    assert_eq!(result_true_greater.unwrap(), Object::Bool(true));

    let result_false = eval("(Owo 1 2)", &mut env);
    assert_eq!(result_false.unwrap(), Object::Bool(false));
}

#[test]
fn test_is_greater() {
    let mut env = Environment::new();

    let result_true = eval("(O_o 10 5)", &mut env);
    assert_eq!(result_true.unwrap(), Object::Bool(true));

    let result_false = eval("(O_o 1 2)", &mut env);
    assert_eq!(result_false.unwrap(), Object::Bool(false));
}

#[test]
fn test_factorial() {
    let mut env = Environment::new();
    let program = "
        (
            (define fact (lambda (n) (if (o_O n 1) 1 (* n (fact (- n 1))))))
            (fact 5)
        )
    ";

    let result = eval(program, &mut env).unwrap();
    assert_eq!(result, Object::List(vec![Object::Number(120)]));
}

#[test]
fn eval_test_area_of_a_circle() {
    let mut env = Environment::new();
    let program = "(
                    (define r 10)
                    (define pi 314)
                    (* pi (* r r))
                  )";
    let result = eval(program, &mut env).unwrap();
    assert_eq!(
        result,
        Object::List(vec![Object::Number((314 * 10 * 10) as i64)])
    );
}

#[test]
fn comparisons_from_the_examples() {
    let mut env = Environment::new();
    assert_eq!(eval("(owo 1 1)", &mut env).unwrap(), Object::Bool(true));
    assert_eq!(eval("(owo 1 2)", &mut env).unwrap(), Object::Bool(false));
    assert_eq!(eval("(o_O 1 2)", &mut env).unwrap(), Object::Bool(true));
    assert_eq!(eval("(O_o 1 2)", &mut env).unwrap(), Object::Bool(false));
}

#[test]
fn conditionals_pick_one_branch() {
    let mut env = Environment::new();
    assert_eq!(eval("(if (owo 1 1) 10 20)", &mut env).unwrap(), Object::Number(10));
    assert_eq!(eval("(if (owo 1 2) 10 20)", &mut env).unwrap(), Object::Number(20));
    assert_eq!(eval("(if (owo 1 1) 10 nowhere)", &mut env).unwrap(), Object::Number(10));
    assert_eq!(eval("(if (owo 1 2) nowhere 20)", &mut env).unwrap(), Object::Number(20));
    assert_eq!(
        eval("(if (owo 1 2) 10 nowhere)", &mut env),
        Err(EvalError::UndefinedSymbol("nowhere".to_string()))
    );
}

#[test]
fn condition_must_be_boolean() {
    let mut env = Environment::new();
    assert_eq!(eval("(if 1 10 20)", &mut env), Err(EvalError::InvalidConditionType(Object::Number(1))));
    assert_eq!(eval("(if (owo 1 1) 10)", &mut env), Err(EvalError::InvalidArgumentHasDetected(3)));
}

#[test]
fn definition_persists_in_the_environment() {
    let mut env = Environment::new();
    assert_eq!(eval("(define r 10)", &mut env).unwrap(), Object::Void);
    assert_eq!(eval("((define r 10) r)", &mut env).unwrap(), Object::List(vec![Object::Number(10)]));
    assert_eq!(eval("(+ r 1)", &mut env).unwrap(), Object::Number(11));
}

#[test]
fn undefined_symbol_is_an_error() {
    let mut env = Environment::new();
    assert_eq!(
        eval("(+ undefined_name 1)", &mut env),
        Err(EvalError::UndefinedSymbol("undefined_name".to_string()))
    );
    assert_eq!(
        eval("(undefined_fn 1)", &mut env),
        Err(EvalError::UndefinedFunction("undefined_fn".to_string()))
    );
}

#[test]
fn malformed_arity_is_an_error() {
    let mut env = Environment::new();
    assert_eq!(eval("(+ 1)", &mut env), Err(EvalError::InvalidArgumentHasDetected(2)));
    assert_eq!(eval("(+ 1 2 3)", &mut env), Err(EvalError::InvalidArgumentHasDetected(4)));
    assert_eq!(eval("(define x)", &mut env), Err(EvalError::InvalidArgumentHasDetected(2)));
}

#[test]
fn operands_must_be_numbers() {
    let mut env = Environment::new();
    assert_eq!(eval("(+ (owo 1 1) 2)", &mut env), Err(EvalError::NotANumber(Object::Bool(true))));
    assert_eq!(eval("(define 3 4)", &mut env), Err(EvalError::NotASymbol(Object::Number(3))));
}

#[test]
fn arithmetic_faults_are_errors() {
    let mut env = Environment::new();
    assert_eq!(eval("(/ 1 0)", &mut env), Err(EvalError::DivisionByZero));
    assert_eq!(eval("(+ 9223372036854775807 1)", &mut env), Err(EvalError::Overflow));
    assert_eq!(eval("(/ -9223372036854775808 -1)", &mut env), Err(EvalError::Overflow));
    assert_eq!(eval("(/ -7 2)", &mut env).unwrap(), Object::Number(-3));
    assert_eq!(eval("(* -4 5)", &mut env).unwrap(), Object::Number(-20));
}

#[test]
fn lambda_forms() {
    let mut env = Environment::new();
    assert_eq!(
        eval("(lambda (a b) (+ a b))", &mut env).unwrap(),
        Object::Lambda(
            vec!["a".to_string(), "b".to_string()],
            vec![Object::Symbol("+".to_string()), Object::Symbol("a".to_string()), Object::Symbol("b".to_string())]
        )
    );
    assert_eq!(eval("(lambda (a 1) (+ a 1))", &mut env), Err(EvalError::InvalidLambda));
    assert_eq!(eval("(lambda a (+ a 1))", &mut env), Err(EvalError::InvalidLambda));
    assert_eq!(eval("(lambda (a) a)", &mut env), Err(EvalError::InvalidLambda));
}

#[test]
fn calls_bind_parameters_locally() {
    let mut env = Environment::new();
    let program = "((define add (lambda (a b) (+ a b))) (add 2 3) (define a 7) (add 1 1) a)";
    assert_eq!(
        eval(program, &mut env).unwrap(),
        Object::List(vec![Object::Number(5), Object::Number(2), Object::Number(7)])
    );
    assert_eq!(eval("(add 1)", &mut env), Err(EvalError::NotEnoughArgs));
    assert_eq!(eval("(add 1 2 3)", &mut env).unwrap(), Object::Number(3));
    assert_eq!(eval("(a 1)", &mut env), Err(EvalError::InvalidFunction("a".to_string())));
}

#[test]
fn runaway_recursion_is_stopped() {
    let mut env = Environment::new();
    let program = "((define loop (lambda (n) (loop n))) (loop 1))";
    assert_eq!(eval(program, &mut env), Err(EvalError::RecursionLimit));
}

#[test]
fn parse_errors_are_reported() {
    let mut env = Environment::new();
    assert_eq!(eval("(+ 1 2", &mut env), Err(EvalError::Parse(ParserError::ParenIsNotMatched)));
    assert_eq!(eval("undefined_name", &mut env), Err(EvalError::Parse(ParserError::ParenIsNotMatched)));
    assert_eq!(eval("(+ 1 2))", &mut env), Err(EvalError::Parse(ParserError::ParenIsNotMatched)));
}

#[test]
fn empty_list_evaluates_to_itself() {
    let mut env = Environment::new();
    assert_eq!(eval("()", &mut env).unwrap(), Object::List(vec![]));
}

#[test]
fn scoping_of_child_environments() {
    let mut env = Environment::new();
    assert_eq!(eval("(define r 10)", &mut env).unwrap(), Object::Void);
    let r = Object::Symbol("r".to_string());
    assert_eq!(eval_obj(&r, &mut env, MAX_DEPTH).unwrap(), Object::Number(10));
    env.set("q", Object::Number(1));
    {
        let mut child = Environment::extend(&env);
        assert_eq!(child.get("r"), Some(Object::Number(10)));
        assert_eq!(child.get("q"), Some(Object::Number(1)));
        child.set("r", Object::Number(5));
        assert_eq!(child.get("r"), Some(Object::Number(5)));
        assert_eq!(env.get("r"), Some(Object::Number(10)));
        let grandchild = Environment::extend(&child);
        assert_eq!(grandchild.get("r"), Some(Object::Number(5)));
        assert_eq!(grandchild.get("q"), Some(Object::Number(1)));
        assert_eq!(grandchild.get("nothing"), None);
    }
    assert_eq!(eval_obj(&r, &mut env, MAX_DEPTH).unwrap(), Object::Number(10));
}

#[test]
fn redefinition_overwrites_in_place() {
    let mut env = Environment::new();
    env.set("x", Object::Number(1));
    env.set("x", Object::Number(2));
    assert_eq!(env.get("x"), Some(Object::Number(2)));
    assert_eq!(eval("((define x 3) x)", &mut env).unwrap(), Object::List(vec![Object::Number(3)]));
}

#[test]
fn definitions_in_a_call_stay_in_the_call() {
    let mut env = Environment::new();
    let program = "((define f (lambda (a) ((define inner a) inner))) (f 4) (define inner 9) (f 5) inner)";
    assert_eq!(
        eval(program, &mut env).unwrap(),
        Object::List(vec![
            Object::List(vec![Object::Number(4)]),
            Object::List(vec![Object::Number(5)]),
            Object::Number(9),
        ])
    );
    assert_eq!(eval("(f 6)", &mut env).unwrap(), Object::List(vec![Object::Number(6)]));
    assert_eq!(env.get("a"), None);
}

#[test]
fn deep_recursion_within_the_budget() {
    let mut env = Environment::new();
    let program = "((define down (lambda (n) (if (owo n 0) 0 (down (- n 1))))) (down 100))";
    assert_eq!(eval(program, &mut env).unwrap(), Object::List(vec![Object::Number(0)]));
    let mut env2 = Environment::new();
    assert_eq!(eval_with_depth(program, &mut env2, 20), Err(EvalError::RecursionLimit));
}

#[test]
fn undefined_symbol_expression() {
    let mut env = Environment::new();
    let name = Object::Symbol("undefined_name".to_string());
    assert_eq!(
        eval_obj(&name, &mut env, MAX_DEPTH),
        Err(EvalError::UndefinedSymbol("undefined_name".to_string()))
    );
}

#[test]
fn error_messages() {
    assert_eq!(EvalError::InvalidArgumentHasDetected(2).message(), "Invalid number of arguments: 2");
    assert_eq!(
        EvalError::InvalidConditionType(Object::List(vec![Object::Number(1)])).message(),
        "Condition must be a boolean. got: (1)"
    );
    assert_eq!(EvalError::InvalidOperatorHasDetected("%".to_string()).message(), "Invalid operator: %");
    assert_eq!(EvalError::NotEnoughArgs.message(), "Invalid number of arguments");
    assert_eq!(
        EvalError::UndefinedSymbol("zz".to_string()).message(),
        "Undefined symbol: zz"
    );
    assert_eq!(
        EvalError::Parse(ParserError::ParenIsNotMatched).message(),
        "Parse error: Parentheses pair do not match"
    );
    assert_eq!(ParserError::UnexpectedParserError.message(), "Unexpected parser error");
}
