use vstd::prelude::*;

use crate::env::{lookup, opt_view, same_text, set_local, Bindings, Environment, Scope};
use crate::error::{EvalError, ParserError};
use crate::lexer::lex;
use crate::object::{
    copy_objects, lemma_objects_view_index, lemma_objects_view_push, names_view, objects_view, Object,
    Value,
};
use crate::parser::{parse, parse_tokens};

verus! {

/// How deeply a program's evaluation may nest before it is stopped.
pub const MAX_DEPTH: u64 = 1000;

/// The model of an evaluation error.
pub enum EvalErrorV {
    Parse(ParserError),
    InvalidArgumentHasDetected(nat),
    InvalidOperatorHasDetected(Seq<char>),
    NotANumber(Value),
    NotASymbol(Value),
    InvalidConditionType(Value),
    InvalidLambda,
    NotEnoughArgs,
    UndefinedSymbol(Seq<char>),
    UndefinedFunction(Seq<char>),
    InvalidFunction(Seq<char>),
    DivisionByZero,
    Overflow,
    RecursionLimit,
}

impl View for EvalError {
    type V = EvalErrorV;

    open spec fn view(&self) -> EvalErrorV {
        match self {
            EvalError::Parse(p) => EvalErrorV::Parse(*p),
            EvalError::InvalidArgumentHasDetected(n) => EvalErrorV::InvalidArgumentHasDetected(
                *n as nat,
            ),
            EvalError::InvalidOperatorHasDetected(s) => EvalErrorV::InvalidOperatorHasDetected(s@),
            EvalError::NotANumber(o) => EvalErrorV::NotANumber(o@),
            EvalError::NotASymbol(o) => EvalErrorV::NotASymbol(o@),
            EvalError::InvalidConditionType(o) => EvalErrorV::InvalidConditionType(o@),
            EvalError::InvalidLambda => EvalErrorV::InvalidLambda,
            EvalError::NotEnoughArgs => EvalErrorV::NotEnoughArgs,
            EvalError::UndefinedSymbol(s) => EvalErrorV::UndefinedSymbol(s@),
            EvalError::UndefinedFunction(s) => EvalErrorV::UndefinedFunction(s@),
            EvalError::InvalidFunction(s) => EvalErrorV::InvalidFunction(s@),
            EvalError::DivisionByZero => EvalErrorV::DivisionByZero,
            EvalError::Overflow => EvalErrorV::Overflow,
            EvalError::RecursionLimit => EvalErrorV::RecursionLimit,
        }
    }
}

/// What an evaluation gives, and the environment it leaves.
pub type Outcome = (Result<Value, EvalErrorV>, Bindings);

/// The model of an evaluation result.
pub open spec fn res_view(r: Result<Object, EvalError>) -> Result<Value, EvalErrorV> {
    match r {
        Ok(o) => Ok(o@),
        Err(e) => Err(e@),
    }
}

pub open spec fn in_range(v: int) -> bool {
    i64::MIN <= v <= i64::MAX
}

/// Integer division rounding toward zero; `d` is not zero.
pub open spec fn trunc_div(x: int, d: int) -> int {
    if x == 0 {
        0
    } else if x > 0 && d > 0 {
        x / d
    } else if x < 0 && d < 0 {
        (x * -1) / (d * -1)
    } else if x < 0 {
        ((x * -1) / d) * -1
    } else {
        (x / (d * -1)) * -1
    }
}

/// A number result, or `Overflow` where it leaves the 64-bit range.
pub open spec fn number_result(v: int) -> Result<Value, EvalErrorV> {
    if in_range(v) {
        Ok(Value::Number(v))
    } else {
        Err(EvalErrorV::Overflow)
    }
}

/// The names of the binary operators.
pub open spec fn is_operator(s: Seq<char>) -> bool {
    s == "+"@ || s == "-"@ || s == "*"@ || s == "/"@ || s == "owo"@ || s == "uwu"@ || s == "Owo"@
        || s == "owO"@ || s == "O_o"@ || s == "o_O"@
}

/// A binary operator applied to two numbers.
pub open spec fn apply_op_spec(op: Seq<char>, a: int, b: int) -> Result<Value, EvalErrorV> {
    if op == "+"@ {
        number_result(a + b)
    } else if op == "-"@ {
        number_result(a - b)
    } else if op == "*"@ {
        number_result(a * b)
    } else if op == "/"@ {
        if b == 0 {
            Err(EvalErrorV::DivisionByZero)
        } else {
            number_result(trunc_div(a, b))
        }
    } else if op == "owo"@ {
        Ok(Value::Bool(a == b))
    } else if op == "uwu"@ {
        Ok(Value::Bool(a != b))
    } else if op == "Owo"@ {
        Ok(Value::Bool(a >= b))
    } else if op == "owO"@ {
        Ok(Value::Bool(a <= b))
    } else if op == "O_o"@ {
        Ok(Value::Bool(a > b))
    } else if op == "o_O"@ {
        Ok(Value::Bool(a < b))
    } else {
        Err(EvalErrorV::InvalidOperatorHasDetected(op))
    }
}

/// Whether every element is a symbol.
pub open spec fn all_symbols(ps: Seq<Value>) -> bool {
    forall|i: int| 0 <= i < ps.len() ==> (#[trigger] ps[i] is Symbol)
}

/// The names of a sequence of symbols.
pub open spec fn symbol_names(ps: Seq<Value>) -> Seq<Seq<char>> {
    Seq::new(
        ps.len(),
        |i: int|
            match ps[i] {
                Value::Symbol(s) => s,
                _ => Seq::empty(),
            },
    )
}

/// The value of a `lambda` form.
pub open spec fn lambda_spec(l: Seq<Value>) -> Result<Value, EvalErrorV> {
    if l.len() != 3 {
        Err(EvalErrorV::InvalidArgumentHasDetected(l.len()))
    } else if l[1] is List && l[2] is List && all_symbols(l[1]->List_0) {
        Ok(Value::Lambda(symbol_names(l[1]->List_0), l[2]->List_0))
    } else {
        Err(EvalErrorV::InvalidLambda)
    }
}

/// The scope that binds the first `k` parameters to their argument values, in
/// order: a repeated parameter takes its later value.
pub open spec fn params_scope(params: Seq<Seq<char>>, vals: Seq<Value>, k: nat) -> Scope
    decreases k,
{
    if k == 0 {
        Map::empty()
    } else {
        params_scope(params, vals, (k - 1) as nat).insert(params[k - 1], vals[k - 1])
    }
}

/// Evaluates an expression in environment `env` with nesting budget `d`.
pub open spec fn eval_spec(o: Value, env: Bindings, d: nat) -> Outcome
    decreases d, 0nat, 0nat,
{
    if d == 0 {
        (Err(EvalErrorV::RecursionLimit), env)
    } else {
        match o {
            Value::List(l) => eval_list_spec(l, env, (d - 1) as nat),
            Value::Symbol(s) => match lookup(env, s) {
                Some(v) => (Ok(v), env),
                None => (Err(EvalErrorV::UndefinedSymbol(s)), env),
            },
            Value::Lambda(_, _) => (Ok(Value::Void), env),
            _ => (Ok(o), env),
        }
    }
}

/// Evaluates a list: a special form, an operator form or a call where its head
/// is a symbol, else each element in turn.
pub open spec fn eval_list_spec(l: Seq<Value>, env: Bindings, d: nat) -> Outcome
    decreases d, 4nat, 0nat,
{
    if l.len() == 0 {
        (Ok(Value::List(Seq::empty())), env)
    } else {
        match l[0] {
            Value::Symbol(s) => if is_operator(s) {
                eval_binop_spec(s, l, env, d)
            } else if s == "define"@ {
                eval_define_spec(l, env, d)
            } else if s == "if"@ {
                eval_cond_spec(l, env, d)
            } else if s == "lambda"@ {
                (lambda_spec(l), env)
            } else {
                eval_call_spec(s, l, env, d)
            },
            _ => eval_seq_spec(l, 0, Seq::empty(), env, d),
        }
    }
}

/// An operator form: both operands evaluated in order, then applied.
pub open spec fn eval_binop_spec(op: Seq<char>, l: Seq<Value>, env: Bindings, d: nat) -> Outcome
    decreases d, 3nat, 0nat,
{
    if l.len() != 3 {
        (Err(EvalErrorV::InvalidArgumentHasDetected(l.len())), env)
    } else {
        let (r1, e1) = eval_spec(l[1], env, d);
        match r1 {
            Err(e) => (Err(e), e1),
            Ok(a) => {
                let (r2, e2) = eval_spec(l[2], e1, d);
                match r2 {
                    Err(e) => (Err(e), e2),
                    Ok(b) => match (a, b) {
                        (Value::Number(x), Value::Number(y)) => (apply_op_spec(op, x, y), e2),
                        (Value::Number(_), _) => (Err(EvalErrorV::NotANumber(b)), e2),
                        _ => (Err(EvalErrorV::NotANumber(a)), e2),
                    },
                }
            },
        }
    }
}

/// A definition: the value is evaluated and bound in the innermost scope.
pub open spec fn eval_define_spec(l: Seq<Value>, env: Bindings, d: nat) -> Outcome
    decreases d, 3nat, 0nat,
{
    if l.len() != 3 {
        (Err(EvalErrorV::InvalidArgumentHasDetected(l.len())), env)
    } else {
        match l[1] {
            Value::Symbol(name) => {
                let (r, e1) = eval_spec(l[2], env, d);
                match r {
                    Err(e) => (Err(e), e1),
                    Ok(v) => (Ok(Value::Void), set_local(e1, name, v)),
                }
            },
            _ => (Err(EvalErrorV::NotASymbol(l[1])), env),
        }
    }
}

/// A conditional: the condition, then exactly one branch.
pub open spec fn eval_cond_spec(l: Seq<Value>, env: Bindings, d: nat) -> Outcome
    decreases d, 3nat, 0nat,
{
    if l.len() != 4 {
        (Err(EvalErrorV::InvalidArgumentHasDetected(l.len())), env)
    } else {
        let (r, e1) = eval_spec(l[1], env, d);
        match r {
            Err(e) => (Err(e), e1),
            Ok(Value::Bool(b)) => eval_spec(
                if b {
                    l[2]
                } else {
                    l[3]
                },
                e1,
                d,
            ),
            Ok(v) => (Err(EvalErrorV::InvalidConditionType(v)), e1),
        }
    }
}

/// A call of the lambda bound to `f`: the first `params.len()` arguments are
/// evaluated in the caller's scope, the body in a new child scope of it that
/// binds them. The child scope ends with the call, so the caller's scopes are
/// left as the arguments left them.
pub open spec fn eval_call_spec(f: Seq<char>, l: Seq<Value>, env: Bindings, d: nat) -> Outcome
    decreases d, 3nat, 0nat,
{
    match lookup(env, f) {
        None => (Err(EvalErrorV::UndefinedFunction(f)), env),
        Some(Value::Lambda(params, body)) => if l.len() < params.len() + 1 {
            (Err(EvalErrorV::NotEnoughArgs), env)
        } else {
            let (ra, e1) = eval_args_spec(l, params.len(), 0, Seq::empty(), env, d);
            match ra {
                Err(e) => (Err(e), e1),
                Ok(vals) => {
                    let (r, _) = eval_spec(
                        Value::List(body),
                        e1.push(params_scope(params, vals, params.len())),
                        d,
                    );
                    (r, e1)
                },
            }
        },
        Some(_) => (Err(EvalErrorV::InvalidFunction(f)), env),
    }
}

/// The values of the arguments `l[i + 1]` for `i` from `i` below `n`, after `acc`.
pub open spec fn eval_args_spec(
    l: Seq<Value>,
    n: nat,
    i: nat,
    acc: Seq<Value>,
    env: Bindings,
    d: nat,
) -> (Result<Seq<Value>, EvalErrorV>, Bindings)
    decreases d, 2nat, n - i,
{
    if i >= n {
        (Ok(acc), env)
    } else {
        let (r, e1) = eval_spec(l[i + 1 as int], env, d);
        match r {
            Err(e) => (Err(e), e1),
            Ok(v) => eval_args_spec(l, n, i + 1, acc.push(v), e1, d),
        }
    }
}

/// Each element from position `i` on, in order, in one environment; the
/// results that are not `Void` are kept, after `acc`.
pub open spec fn eval_seq_spec(l: Seq<Value>, i: nat, acc: Seq<Value>, env: Bindings, d: nat) -> Outcome
    decreases d, 2nat, l.len() - i,
{
    if i >= l.len() {
        (Ok(Value::List(acc)), env)
    } else {
        let (r, e1) = eval_spec(l[i as int], env, d);
        match r {
            Err(e) => (Err(e), e1),
            Ok(Value::Void) => eval_seq_spec(l, i + 1, acc, e1, d),
            Ok(v) => eval_seq_spec(l, i + 1, acc.push(v), e1, d),
        }
    }
}

/// Evaluating `(define name n)` gives `Void` and binds `name` in the current
/// scope, and reading `name` there afterwards gives `n`.
pub proof fn lemma_define_then_read(env: Bindings, name: Seq<char>, n: int, d: nat)
    requires
        d >= 2,
    ensures
        ({
            let prog = Value::List(seq![Value::Symbol("define"@), Value::Symbol(name), Value::Number(n)]);
            let (r, e1) = eval_spec(prog, env, d);
            &&& r == Ok::<Value, EvalErrorV>(Value::Void)
            &&& e1 == set_local(env, name, Value::Number(n))
            &&& eval_spec(Value::Symbol(name), e1, d) == (Ok::<Value, EvalErrorV>(Value::Number(n)), e1)
        }),
{
    reveal_strlit("define");
    reveal_strlit("+");
    reveal_strlit("-");
    reveal_strlit("*");
    reveal_strlit("/");
    reveal_strlit("owo");
    reveal_strlit("uwu");
    reveal_strlit("Owo");
    reveal_strlit("owO");
    reveal_strlit("O_o");
    reveal_strlit("o_O");
    let l = seq![Value::Symbol("define"@), Value::Symbol(name), Value::Number(n)];
    assert("define"@.len() == 6);
    assert("+"@.len() == 1 && "-"@.len() == 1 && "*"@.len() == 1 && "/"@.len() == 1);
    assert("owo"@.len() == 3 && "uwu"@.len() == 3 && "Owo"@.len() == 3 && "owO"@.len() == 3);
    assert("O_o"@.len() == 3 && "o_O"@.len() == 3);
    assert(!is_operator("define"@));
    assert(eval_spec(Value::List(l), env, d) == eval_define_spec(l, env, (d - 1) as nat));
    let e1 = set_local(env, name, Value::Number(n));
    if env.len() > 0 {
        assert(e1.last() == env.last().insert(name, Value::Number(n)));
    } else {
        assert(e1.last() == Map::<Seq<char>, Value>::empty().insert(name, Value::Number(n)));
    }
}

/// The number held by an evaluated operand.
fn check_arg_is_number(arg: &Object) -> (r: Result<i64, EvalError>)
    ensures
        match r {
            Ok(n) => arg@ == Value::Number(n as int),
            Err(e) => !(arg@ is Number) && e@ == EvalErrorV::NotANumber(arg@),
        },
{
    match arg {
        Object::Number(n) => Ok(*n),
        _ => Err(EvalError::NotANumber(arg.copy())),
    }
}

fn number_or_overflow(v: Option<i64>) -> (r: Result<Object, EvalError>)
    ensures
        match v {
            Some(n) => r == Ok::<Object, EvalError>(Object::Number(n)),
            None => r == Err::<Object, EvalError>(EvalError::Overflow),
        },
{
    match v {
        Some(n) => Ok(Object::Number(n)),
        None => Err(EvalError::Overflow),
    }
}

/// Whether `s` names one of the binary operators.
pub fn is_operator_name(s: &str) -> (r: bool)
    ensures
        r == is_operator(s@),
{
    same_text(s, "+") || same_text(s, "-") || same_text(s, "*") || same_text(s, "/")
        || same_text(s, "owo") || same_text(s, "uwu") || same_text(s, "Owo") || same_text(s, "owO")
        || same_text(s, "O_o") || same_text(s, "o_O")
}

/// Applies the binary operator `op` to two numbers.
pub fn apply_op(op: &str, a: i64, b: i64) -> (r: Result<Object, EvalError>)
    ensures
        res_view(r) == apply_op_spec(op@, a as int, b as int),
{
    if same_text(op, "+") {
        number_or_overflow(a.checked_add(b))
    } else if same_text(op, "-") {
        number_or_overflow(a.checked_sub(b))
    } else if same_text(op, "*") {
        number_or_overflow(a.checked_mul(b))
    } else if same_text(op, "/") {
        if b == 0 {
            Err(EvalError::DivisionByZero)
        } else {
            number_or_overflow(a.checked_div(b))
        }
    } else if same_text(op, "owo") {
        Ok(Object::Bool(a == b))
    } else if same_text(op, "uwu") {
        Ok(Object::Bool(a != b))
    } else if same_text(op, "Owo") {
        Ok(Object::Bool(a >= b))
    } else if same_text(op, "owO") {
        Ok(Object::Bool(a <= b))
    } else if same_text(op, "O_o") {
        Ok(Object::Bool(a > b))
    } else if same_text(op, "o_O") {
        Ok(Object::Bool(a < b))
    } else {
        Err(EvalError::InvalidOperatorHasDetected(op.to_owned()))
    }
}

fn eval_binop(op: &str, list: &Vec<Object>, env: &mut Environment, depth: u64) -> (r: Result<Object, EvalError>)
    ensures
        (res_view(r), final(env)@) == eval_binop_spec(op@, objects_view(list@), old(env)@, depth as nat),
    decreases depth, 3nat, 0nat,
{
    proof {
        lemma_objects_view_index(list@);
    }
    if list.len() != 3 {
        return Err(EvalError::InvalidArgumentHasDetected(list.len()));
    }
    let arg1 = eval_obj(&list[1], env, depth)?;
    let arg2 = eval_obj(&list[2], env, depth)?;
    let a = check_arg_is_number(&arg1)?;
    let b = check_arg_is_number(&arg2)?;
    apply_op(op, a, b)
}

fn eval_define(list: &Vec<Object>, env: &mut Environment, depth: u64) -> (r: Result<Object, EvalError>)
    ensures
        (res_view(r), final(env)@) == eval_define_spec(objects_view(list@), old(env)@, depth as nat),
    decreases depth, 3nat, 0nat,
{
    proof {
        lemma_objects_view_index(list@);
    }
    if list.len() != 3 {
        return Err(EvalError::InvalidArgumentHasDetected(list.len()));
    }
    match &list[1] {
        Object::Symbol(name) => {
            let value = eval_obj(&list[2], env, depth)?;
            env.set(name.as_str(), value);
            Ok(Object::Void)
        },
        _ => Err(EvalError::NotASymbol(list[1].copy())),
    }
}

fn eval_cond(list: &Vec<Object>, env: &mut Environment, depth: u64) -> (r: Result<Object, EvalError>)
    ensures
        (res_view(r), final(env)@) == eval_cond_spec(objects_view(list@), old(env)@, depth as nat),
    decreases depth, 3nat, 0nat,
{
    proof {
        lemma_objects_view_index(list@);
    }
    if list.len() != 4 {
        return Err(EvalError::InvalidArgumentHasDetected(list.len()));
    }
    let obj = eval_obj(&list[1], env, depth)?;
    match obj {
        Object::Bool(b) => {
            if b {
                eval_obj(&list[2], env, depth)
            } else {
                eval_obj(&list[3], env, depth)
            }
        },
        other => Err(EvalError::InvalidConditionType(other)),
    }
}

/// The value of a `lambda` form: its parameter names and its body, unevaluated.
pub fn eval_func_definition(list: &Vec<Object>) -> (r: Result<Object, EvalError>)
    ensures
        res_view(r) == lambda_spec(objects_view(list@)),
{
    proof {
        lemma_objects_view_index(list@);
    }
    if list.len() != 3 {
        return Err(EvalError::InvalidArgumentHasDetected(list.len()));
    }
    let params = match &list[1] {
        Object::List(ps) => {
            proof {
                lemma_objects_view_index(ps@);
            }
            assert(objects_view(list@)[1] == Value::List(objects_view(ps@)));
            let mut params: Vec<String> = Vec::new();
            let mut i: usize = 0;
            while i < ps.len()
                invariant
                    i <= ps@.len(),
                    params@.len() == i,
                    list@.len() == 3,
                    objects_view(list@).len() == 3,
                    objects_view(list@)[1] == Value::List(objects_view(ps@)),
                    objects_view(ps@).len() == ps@.len(),
                    forall|k: int| 0 <= k < ps@.len() ==> #[trigger] objects_view(ps@)[k] == ps@[k]@,
                    forall|k: int| 0 <= k < i ==> (#[trigger] ps@[k]@) == Value::Symbol(params@[k]@),
                decreases ps@.len() - i,
            {
                match &ps[i] {
                    Object::Symbol(s) => {
                        params.push(s.clone());
                    },
                    _ => {
                        assert(!(objects_view(ps@)[i as int] is Symbol));
                        assert(!all_symbols(objects_view(ps@)));
                        return Err(EvalError::InvalidLambda);
                    },
                }
                i = i + 1;
            }
            assert(all_symbols(objects_view(ps@)));
            assert(names_view(params@) =~= symbol_names(objects_view(ps@)));
            params
        },
        _ => {
            return Err(EvalError::InvalidLambda);
        },
    };
    let body = match &list[2] {
        Object::List(b) => copy_objects(b),
        _ => {
            return Err(EvalError::InvalidLambda);
        },
    };
    Ok(Object::Lambda(params, body))
}

fn eval_func_call(f: &str, list: &Vec<Object>, env: &mut Environment, depth: u64) -> (r: Result<Object, EvalError>)
    requires
        list@.len() > 0,
    ensures
        (res_view(r), final(env)@) == eval_call_spec(f@, objects_view(list@), old(env)@, depth as nat),
    decreases depth, 3nat, 0nat,
{
    proof {
        lemma_objects_view_index(list@);
    }
    let ghost l = objects_view(list@);
    let ghost env0 = env@;
    let func = match env.get(f) {
        Some(o) => o,
        None => {
            return Err(EvalError::UndefinedFunction(f.to_owned()));
        },
    };
    match func {
        Object::Lambda(params, body) => {
            let ghost pv = names_view(params@);
            let n = params.len();
            if list.len() - 1 < n {
                return Err(EvalError::NotEnoughArgs);
            }
            let mut vals: Vec<Object> = Vec::new();
            let mut i: usize = 0;
            while i < n
                invariant
                    n == params@.len() == pv.len(),
                    n + 1 <= list@.len(),
                    l == objects_view(list@),
                    l.len() == list@.len(),
                    forall|k: int| 0 <= k < list@.len() ==> #[trigger] l[k] == list@[k]@,
                    i <= n,
                    vals@.len() == i,
                    env0 == old(env)@,
                    lookup(env0, f@) == Some(Value::Lambda(pv, objects_view(body@))),
                            eval_args_spec(l, n as nat, i as nat, objects_view(vals@), env@, depth as nat)
                        == eval_args_spec(l, n as nat, 0, Seq::empty(), env0, depth as nat),
                decreases n - i,
            {
                let v = match eval_obj(&list[i + 1], env, depth) {
                    Ok(v) => v,
                    Err(e) => {
                        return Err(e);
                    },
                };
                proof {
                    lemma_objects_view_push(vals@, v);
                }
                vals.push(v);
                i = i + 1;
            }
            let ghost e1 = env@;
            let ghost vv = objects_view(vals@);
            proof {
                lemma_objects_view_index(vals@);
            }
            let mut child = Environment::extend(&*env);
            let mut k: usize = 0;
            while k < n
                invariant
                    n == params@.len() == pv.len() == vals@.len() == vv.len(),
                    pv == names_view(params@),
                    forall|j: int| 0 <= j < vals@.len() ==> #[trigger] vv[j] == vals@[j]@,
                    k <= n,
                    child@ == e1.push(params_scope(pv, vv, k as nat)),
                decreases n - k,
            {
                child.set(params[k].as_str(), vals[k].copy());
                assert(child@ =~= e1.push(params_scope(pv, vv, (k + 1) as nat)));
                k = k + 1;
            }
            eval_obj(&Object::List(body), &mut child, depth)
        },
        _ => Err(EvalError::InvalidFunction(f.to_owned())),
    }
}

fn eval_symbol(s: &str, env: &Environment) -> (r: Result<Object, EvalError>)
    ensures
        res_view(r) == match lookup(env@, s@) {
            Some(v) => Ok(v),
            None => Err(EvalErrorV::UndefinedSymbol(s@)),
        },
{
    match env.get(s) {
        Some(v) => Ok(v),
        None => Err(EvalError::UndefinedSymbol(s.to_owned())),
    }
}

fn eval_list(list: &Vec<Object>, env: &mut Environment, depth: u64) -> (r: Result<Object, EvalError>)
    ensures
        (res_view(r), final(env)@) == eval_list_spec(objects_view(list@), old(env)@, depth as nat),
    decreases depth, 4nat, 0nat,
{
    proof {
        lemma_objects_view_index(list@);
    }
    let ghost l = objects_view(list@);
    if list.len() == 0 {
        let r = Object::List(Vec::new());
        assert(objects_view(Seq::<Object>::empty()) == Seq::<Value>::empty());
        return Ok(r);
    }
    match &list[0] {
        Object::Symbol(s) => {
            if is_operator_name(s.as_str()) {
                return eval_binop(s.as_str(), list, env, depth);
            } else if same_text(s.as_str(), "define") {
                return eval_define(list, env, depth);
            } else if same_text(s.as_str(), "if") {
                return eval_cond(list, env, depth);
            } else if same_text(s.as_str(), "lambda") {
                return eval_func_definition(list);
            } else {
                return eval_func_call(s.as_str(), list, env, depth);
            }
        },
        _ => {},
    }
    let ghost env0 = env@;
    let mut new_list: Vec<Object> = Vec::new();
    let mut i: usize = 0;
    while i < list.len()
        invariant
            l == objects_view(list@),
            l.len() == list@.len(),
            forall|k: int| 0 <= k < list@.len() ==> #[trigger] l[k] == list@[k]@,
            i <= list@.len(),
            l.len() > 0,
            !(l[0] is Symbol),
            env0 == old(env)@,
            eval_seq_spec(l, i as nat, objects_view(new_list@), env@, depth as nat)
                == eval_seq_spec(l, 0, Seq::empty(), env0, depth as nat),
        decreases list@.len() - i,
    {
        let result = match eval_obj(&list[i], env, depth) {
            Ok(v) => v,
            Err(e) => {
                return Err(e);
            },
        };
        match result {
            Object::Void => {},
            _ => {
                proof {
                    lemma_objects_view_push(new_list@, result);
                }
                new_list.push(result);
            },
        }
        i = i + 1;
    }
    Ok(Object::List(new_list))
}

/// Evaluates one expression in `env`, nesting at most `depth` deep.
pub fn eval_obj(obj: &Object, env: &mut Environment, depth: u64) -> (r: Result<Object, EvalError>)
    ensures
        (res_view(r), final(env)@) == eval_spec(obj@, old(env)@, depth as nat),
    decreases depth, 0nat, 0nat,
{
    if depth == 0 {
        return Err(EvalError::RecursionLimit);
    }
    match obj {
        Object::Lambda(_, _) => Ok(Object::Void),
        Object::List(l) => eval_list(l, env, depth - 1),
        Object::Number(n) => Ok(Object::Number(*n)),
        Object::Symbol(s) => eval_symbol(s.as_str(), env),
        Object::Bool(b) => Ok(Object::Bool(*b)),
        Object::Void => Ok(Object::Void),
    }
}

/// Parses a program text and evaluates it in `env`, nesting at most `depth` deep.
pub fn eval_with_depth(program: &str, env: &mut Environment, depth: u64) -> (r: Result<Object, EvalError>)
    ensures
        match parse_tokens(lex(program@)) {
            None => r == Err::<Object, EvalError>(EvalError::Parse(ParserError::ParenIsNotMatched))
                && final(env)@ == old(env)@,
            Some(tree) => (res_view(r), final(env)@) == eval_spec(tree, old(env)@, depth as nat),
        },
{
    match parse(program) {
        Ok(tree) => eval_obj(&tree, env, depth),
        Err(e) => Err(EvalError::Parse(e)),
    }
}

/// Parses a program text and evaluates it in `env`, nesting at most
/// `MAX_DEPTH` deep.
pub fn eval(program: &str, env: &mut Environment) -> (r: Result<Object, EvalError>)
    ensures
        match parse_tokens(lex(program@)) {
            None => r == Err::<Object, EvalError>(EvalError::Parse(ParserError::ParenIsNotMatched))
                && final(env)@ == old(env)@,
            Some(tree) => (res_view(r), final(env)@) == eval_spec(tree, old(env)@, MAX_DEPTH as nat),
        },
{
    eval_with_depth(program, env, MAX_DEPTH)
}

} // verus!
