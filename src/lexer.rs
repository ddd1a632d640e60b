use vstd::prelude::*;
use vstd::string::*;

use crate::object::{int_text, push_int_text};

verus! {

/// One lexical unit.
#[derive(Debug, PartialEq)]
pub enum Token {
    Number(i64),
    Symbol(String),
    LParen,
    RParen,
}

/// The model of a token.
pub enum TokenV {
    Number(int),
    Symbol(Seq<char>),
    LParen,
    RParen,
}

impl View for Token {
    type V = TokenV;

    open spec fn view(&self) -> TokenV {
        match self {
            Token::Number(n) => TokenV::Number(*n as int),
            Token::Symbol(s) => TokenV::Symbol(s@),
            Token::LParen => TokenV::LParen,
            Token::RParen => TokenV::RParen,
        }
    }
}

/// The models of a sequence of tokens.
pub open spec fn tokens_view(s: Seq<Token>) -> Seq<TokenV> {
    s.map_values(|t: Token| t@)
}

impl Token {
    /// The text of a token: `Number(n)`, `StringLiteral(s)` or a parenthesis.
    pub fn render(&self) -> (r: String)
        ensures
            r@ == match self@ {
                TokenV::Number(n) => "Number("@ + int_text(n) + ")"@,
                TokenV::Symbol(s) => "StringLiteral("@ + s + ")"@,
                TokenV::LParen => "("@,
                TokenV::RParen => ")"@,
            },
    {
        match self {
            Token::Number(n) => {
                let mut out = String::from_str("Number(");
                push_int_text(&mut out, *n);
                out.append(")");
                out
            },
            Token::Symbol(s) => String::from_str("StringLiteral(").concat(s.as_str()).concat(")"),
            Token::LParen => String::from_str("("),
            Token::RParen => String::from_str(")"),
        }
    }
}

/// A character that the lexer could not place.
#[derive(Debug)]
pub struct TokenError {
    pub ch: char,
}

/// Unicode's White_Space property, which separates words.
pub open spec fn is_space(c: char) -> bool {
    c == ' ' || ('\t' <= c && c <= '\r') || c == '\u{85}' || c == '\u{A0}' || c == '\u{1680}'
        || ('\u{2000}' <= c && c <= '\u{200A}') || c == '\u{2028}' || c == '\u{2029}'
        || c == '\u{202F}' || c == '\u{205F}' || c == '\u{3000}'
}

pub open spec fn is_digit(c: char) -> bool {
    '0' <= c && c <= '9'
}

pub open spec fn all_digits(d: Seq<char>) -> bool {
    forall|i: int| 0 <= i < d.len() ==> is_digit(#[trigger] d[i])
}

/// The value of a run of decimal digits.
pub open spec fn digits_value(d: Seq<char>) -> int
    decreases d.len(),
{
    if d.len() == 0 {
        0
    } else {
        digits_value(d.drop_last()) * 10 + (d.last() as int - '0' as int)
    }
}

/// A word read as a signed 64-bit decimal: an optional sign, then one or more
/// digits, within range.
pub open spec fn int_of_word(w: Seq<char>) -> Option<int> {
    let neg = w.len() > 0 && w[0] == '-';
    let signed = w.len() > 0 && (w[0] == '-' || w[0] == '+');
    let d = if signed {
        w.drop_first()
    } else {
        w
    };
    let v = if neg {
        -digits_value(d)
    } else {
        digits_value(d)
    };
    if d.len() > 0 && all_digits(d) && i64::MIN <= v <= i64::MAX {
        Some(v)
    } else {
        None
    }
}

/// The token of a word without spaces or parentheses.
pub open spec fn classify(w: Seq<char>) -> TokenV {
    match int_of_word(w) {
        Some(n) => TokenV::Number(n),
        None => TokenV::Symbol(w),
    }
}

/// The token of a pending word, if there is one.
pub open spec fn flush(w: Seq<char>) -> Seq<TokenV> {
    if w.len() == 0 {
        Seq::empty()
    } else {
        seq![classify(w)]
    }
}

/// The tokens of `s` from position `i` on, where `w` is the word read so far.
/// Each parenthesis is a token of its own; other characters form words,
/// separated by spaces and parentheses.
pub open spec fn lex_from(s: Seq<char>, i: int, w: Seq<char>) -> Seq<TokenV>
    decreases s.len() - i,
{
    if i >= s.len() {
        flush(w)
    } else if is_space(s[i]) {
        flush(w) + lex_from(s, i + 1, Seq::empty())
    } else if s[i] == '(' {
        flush(w) + seq![TokenV::LParen] + lex_from(s, i + 1, Seq::empty())
    } else if s[i] == ')' {
        flush(w) + seq![TokenV::RParen] + lex_from(s, i + 1, Seq::empty())
    } else {
        lex_from(s, i + 1, w.push(s[i]))
    }
}

/// The tokens of a program text.
pub open spec fn lex(s: Seq<char>) -> Seq<TokenV> {
    lex_from(s, 0, Seq::empty())
}

fn is_space_char(c: char) -> (r: bool)
    ensures
        r == is_space(c),
{
    c == ' ' || ('\t' <= c && c <= '\r') || c == '\u{85}' || c == '\u{A0}' || c == '\u{1680}'
        || ('\u{2000}' <= c && c <= '\u{200A}') || c == '\u{2028}' || c == '\u{2029}'
        || c == '\u{202F}' || c == '\u{205F}' || c == '\u{3000}'
}

proof fn lemma_digits_value_push(d: Seq<char>, c: char)
    ensures
        digits_value(d.push(c)) == digits_value(d) * 10 + (c as int - '0' as int),
{
    assert(d.push(c).drop_last() =~= d);
}

proof fn lemma_digits_value_grows(d: Seq<char>, k: int)
    requires
        all_digits(d),
        0 <= k <= d.len(),
    ensures
        0 <= digits_value(d.subrange(0, k)) <= digits_value(d),
    decreases d.len() - k,
{
    if k < d.len() {
        lemma_digits_value_grows(d, k + 1);
        let p = d.subrange(0, k);
        assert(d.subrange(0, k + 1) =~= p.push(d[k]));
        lemma_digits_value_push(p, d[k]);
        lemma_digits_nonneg(p);
    } else {
        assert(d.subrange(0, k) =~= d);
        lemma_digits_nonneg(d);
    }
}

proof fn lemma_digits_nonneg(d: Seq<char>)
    requires
        all_digits(d),
    ensures
        digits_value(d) >= 0,
    decreases d.len(),
{
    if d.len() > 0 {
        lemma_digits_nonneg(d.drop_last());
    }
}

/// Reads a word as a signed 64-bit decimal, as `str::parse::<i64>` does.
#[verifier::rlimit(50)]
pub fn parse_int(w: &Vec<char>) -> (r: Option<i64>)
    ensures
        match r {
            Some(n) => int_of_word(w@) == Some(n as int),
            None => int_of_word(w@).is_none(),
        },
{
    let n = w.len();
    let neg = n > 0 && w[0] == '-';
    let signed = n > 0 && (w[0] == '-' || w[0] == '+');
    let start: usize = if signed { 1 } else { 0 };
    let ghost d = if signed { w@.drop_first() } else { w@ };
    assert(d =~= w@.subrange(start as int, n as int));
    if start >= n {
        return None;
    }
    let mut acc: i64 = 0;
    let mut i: usize = start;
    while i < n
        invariant
            start <= i <= n,
            n == w@.len(),
            neg == (n > 0 && w@[0] == '-'),
            signed == (n > 0 && (w@[0] == '-' || w@[0] == '+')),
            d == (if signed {
                w@.drop_first()
            } else {
                w@
            }),
            d =~= w@.subrange(start as int, n as int),
            all_digits(d.subrange(0, i - start)),
            acc as int == if neg {
                -digits_value(d.subrange(0, i - start))
            } else {
                digits_value(d.subrange(0, i - start))
            },
        decreases n - i,
    {
        let c = w[i];
        let ghost p = d.subrange(0, i - start);
        assert(d.subrange(0, i + 1 - start) =~= p.push(c));
        proof {
            lemma_digits_value_push(p, c);
            lemma_digits_nonneg(p);
        }
        if !('0' <= c && c <= '9') {
            assert(d[i - start] == c);
            assert(!all_digits(d));
            assert(int_of_word(w@).is_none());
            return None;
        }
        let dv = (c as u32 - '0' as u32) as i64;
        let next = if neg {
            match acc.checked_mul(10) {
                Some(m) => m.checked_sub(dv),
                None => None,
            }
        } else {
            match acc.checked_mul(10) {
                Some(m) => m.checked_add(dv),
                None => None,
            }
        };
        match next {
            Some(v) => {
                acc = v;
            },
            None => {
                proof {
                    let q = d.subrange(0, i + 1 - start);
                    assert(all_digits(q));
                    assert(neg ==> -digits_value(q) < i64::MIN);
                    assert(!neg ==> digits_value(q) > i64::MAX);
                    if all_digits(d) {
                        lemma_digits_value_grows(d, i + 1 - start);
                    }
                }
                return None;
            },
        }
        i = i + 1;
    }
    assert(d.subrange(0, n - start) =~= d);
    Some(acc)
}

/// Appends the token of the pending word `s[ws..i]` (held also in `word`), if any.
fn push_word(program: &str, ws: usize, i: usize, word: &Vec<char>, tokens: &mut Vec<Token>)
    requires
        ws <= i <= program@.len(),
        word@ == program@.subrange(ws as int, i as int),
    ensures
        tokens_view(final(tokens)@) == tokens_view(old(tokens)@) + flush(word@),
{
    if word.len() > 0 {
        let t = match parse_int(word) {
            Some(n) => Token::Number(n),
            None => Token::Symbol(program.substring_char(ws, i).to_owned()),
        };
        assert(t@ == classify(word@));
        tokens.push(t);
        assert(tokens_view(tokens@) =~= tokens_view(old(tokens)@) + flush(word@));
    } else {
        assert(tokens_view(tokens@) =~= tokens_view(old(tokens)@) + flush(word@));
    }
}

/// Splits a program text into tokens.
pub fn tokenizer(program: &str) -> (r: Result<Vec<Token>, TokenError>)
    ensures
        match r {
            Ok(t) => tokens_view(t@) == lex(program@),
            Err(_) => false,
        },
{
    let n = program.unicode_len();
    let ghost s = program@;
    let mut tokens: Vec<Token> = Vec::new();
    let mut word: Vec<char> = Vec::new();
    let mut ws: usize = 0;
    let mut i: usize = 0;
    while i < n
        invariant
            n == s.len(),
            s == program@,
            ws <= i <= n,
            word@ == s.subrange(ws as int, i as int),
            tokens_view(tokens@) + lex_from(s, i as int, word@) == lex(s),
        decreases n - i,
    {
        let c = program.get_char(i);
        if is_space_char(c) || c == '(' || c == ')' {
            let ghost before = tokens_view(tokens@);
            push_word(program, ws, i, &word, &mut tokens);
            if c == '(' {
                tokens.push(Token::LParen);
            } else if c == ')' {
                tokens.push(Token::RParen);
            }
            proof {
                assert(s.subrange(i as int + 1, i as int + 1) =~= Seq::<char>::empty());
                if c == '(' {
                    assert(tokens_view(tokens@) =~= before + flush(word@) + seq![TokenV::LParen]);
                } else if c == ')' {
                    assert(tokens_view(tokens@) =~= before + flush(word@) + seq![TokenV::RParen]);
                }
                assert(lex_from(s, i as int, word@) == flush(word@) + (if c == '(' {
                    seq![TokenV::LParen]
                } else if c == ')' {
                    seq![TokenV::RParen]
                } else {
                    Seq::empty()
                }) + lex_from(s, i + 1, Seq::empty()));
            }
            word = Vec::new();
            ws = i + 1;
            proof {
                assert(tokens_view(tokens@) + lex_from(s, i + 1, word@) =~= lex(s));
            }
        } else {
            word.push(c);
            proof {
                assert(word@ =~= s.subrange(ws as int, i + 1));
            }
        }
        i = i + 1;
    }
    push_word(program, ws, i, &word, &mut tokens);
    Ok(tokens)
}

} // verus!
