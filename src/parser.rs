use vstd::prelude::*;

use crate::error::ParserError;
use crate::lexer::{lex, tokenizer, tokens_view, Token, TokenV};
use crate::object::{lemma_objects_view_push, objects_view, Object, Value};

verus! {

/// Reads the elements of a list whose opening parenthesis stands before
/// position `i`, after the elements `acc` already read. Gives the elements and
/// the position just after the closing parenthesis.
pub open spec fn parse_items(ts: Seq<TokenV>, i: int, acc: Seq<Value>) -> Option<(Seq<Value>, int)>
    decreases ts.len() - i,
{
    if i < 0 || i >= ts.len() {
        None
    } else {
        match ts[i] {
            TokenV::RParen => Some((acc, i + 1)),
            TokenV::Number(n) => parse_items(ts, i + 1, acc.push(Value::Number(n))),
            TokenV::Symbol(s) => parse_items(ts, i + 1, acc.push(Value::Symbol(s))),
            TokenV::LParen => match parse_items(ts, i + 1, Seq::empty()) {
                Some((sub, j)) => if i < j <= ts.len() {
                    parse_items(ts, j, acc.push(Value::List(sub)))
                } else {
                    None
                },
                None => None,
            },
        }
    }
}

/// The tree of a token sequence that is exactly one parenthesised list.
pub open spec fn parse_tokens(ts: Seq<TokenV>) -> Option<Value> {
    if ts.len() > 0 && ts[0] == TokenV::LParen {
        match parse_items(ts, 1, Seq::empty()) {
            Some((items, j)) => if j == ts.len() {
                Some(Value::List(items))
            } else {
                None
            },
            None => None,
        }
    } else {
        None
    }
}

/// The tokens that spell a tree: a list in parentheses, with its elements'
/// tokens in order between them.
pub open spec fn tokens_of(v: Value) -> Seq<TokenV>
    decreases v,
{
    match v {
        Value::Number(n) => seq![TokenV::Number(n)],
        Value::Symbol(s) => seq![TokenV::Symbol(s)],
        Value::List(items) => seq![TokenV::LParen] + items_tokens(items) + seq![TokenV::RParen],
        _ => Seq::empty(),
    }
}

/// The tokens of a sequence of trees, one after the other.
pub open spec fn items_tokens(s: Seq<Value>) -> Seq<TokenV>
    decreases s,
{
    if s.len() == 0 {
        Seq::empty()
    } else {
        tokens_of(s[0]) + items_tokens(s.drop_first())
    }
}

/// Reads the elements of the list whose opening parenthesis stands just before
/// position `start`, up to and including its closing parenthesis.
pub fn parsed(tokens: &Vec<Token>, start: usize) -> (r: Result<(Vec<Object>, usize), ParserError>)
    requires
        start <= tokens@.len(),
    ensures
        match r {
            Ok((l, j)) => parse_items(tokens_view(tokens@), start as int, Seq::empty())
                == Some((objects_view(l@), j as int)) && start < j && j <= tokens@.len(),
            Err(e) => parse_items(tokens_view(tokens@), start as int, Seq::empty()).is_none()
                && e == ParserError::ParenIsNotMatched,
        },
    decreases tokens@.len() - start,
{
    let ghost ts = tokens_view(tokens@);
    let mut list: Vec<Object> = Vec::new();
    let mut i: usize = start;
    while i < tokens.len()
        invariant
            ts == tokens_view(tokens@),
            start <= i <= tokens@.len(),
            parse_items(ts, i as int, objects_view(list@)) == parse_items(ts, start as int, Seq::empty()),
        decreases tokens@.len() - i,
    {
        let ghost acc = objects_view(list@);
        assert(ts[i as int] == tokens@[i as int]@);
        let next: usize = match &tokens[i] {
            Token::RParen => {
                return Ok((list, i + 1));
            },
            Token::Number(n) => {
                let o = Object::Number(*n);
                proof {
                    lemma_objects_view_push(list@, o);
                }
                list.push(o);
                i + 1
            },
            Token::Symbol(s) => {
                let o = Object::Symbol(s.clone());
                proof {
                    lemma_objects_view_push(list@, o);
                }
                list.push(o);
                i + 1
            },
            Token::LParen => {
                match parsed(tokens, i + 1) {
                    Ok((sub, j)) => {
                        let o = Object::List(sub);
                        proof {
                            lemma_objects_view_push(list@, o);
                        }
                        list.push(o);
                        j
                    },
                    Err(e) => {
                        return Err(e);
                    },
                }
            },
        };
        i = next;
    }
    Err(ParserError::ParenIsNotMatched)
}

/// Parses a program text: one parenthesised list, read into its tree.
pub fn parse(program: &str) -> (r: Result<Object, ParserError>)
    ensures
        match r {
            Ok(o) => parse_tokens(lex(program@)) == Some(o@),
            Err(e) => parse_tokens(lex(program@)).is_none() && e == ParserError::ParenIsNotMatched,
        },
{
    let tokens = match tokenizer(program) {
        Ok(t) => t,
        Err(_) => {
            return Err(ParserError::UnexpectedParserError);
        },
    };
    let ghost ts = tokens_view(tokens@);
    if tokens.len() == 0 {
        return Err(ParserError::ParenIsNotMatched);
    }
    assert(ts[0] == tokens@[0]@);
    match &tokens[0] {
        Token::LParen => {},
        _ => {
            return Err(ParserError::ParenIsNotMatched);
        },
    }
    match parsed(&tokens, 1) {
        Ok((items, j)) => {
            if j == tokens.len() {
                Ok(Object::List(items))
            } else {
                Err(ParserError::ParenIsNotMatched)
            }
        },
        Err(e) => Err(e),
    }
}

} // verus!
