use vstd::prelude::*;

use crate::lexer::{
    all_digits, classify, digits_value, flush, int_of_word, is_digit, is_space, lex, lex_from,
    TokenV,
};
use crate::object::{digit_text, int_text, join_spec, nat_text, render_spec, Value};
use crate::parser::{items_tokens, parse_items, parse_tokens, tokens_of};

verus! {

/// A character that ends a word.
pub open spec fn is_delim(c: char) -> bool {
    is_space(c) || c == '(' || c == ')'
}

/// A text that the lexer reads as one word.
pub open spec fn is_word(w: Seq<char>) -> bool {
    w.len() > 0 && forall|i: int| 0 <= i < w.len() ==> !is_delim(#[trigger] w[i])
}

/// A tree that a program text can spell: numbers in the 64-bit range, symbols
/// that read back as symbols, and lists of such trees.
pub open spec fn is_syntax(v: Value) -> bool
    decreases v,
{
    match v {
        Value::Number(n) => i64::MIN <= n <= i64::MAX,
        Value::Symbol(s) => is_word(s) && int_of_word(s).is_none(),
        Value::List(items) => forall|i: int| 0 <= i < items.len() ==> is_syntax(#[trigger] items[i]),
        _ => false,
    }
}

proof fn lemma_digit_text(d: nat)
    requires
        d < 10,
    ensures
        digit_text(d).len() == 1,
        is_digit(digit_text(d)[0]),
        digit_text(d)[0] as int - '0' as int == d,
{
    reveal_strlit("0");
    reveal_strlit("1");
    reveal_strlit("2");
    reveal_strlit("3");
    reveal_strlit("4");
    reveal_strlit("5");
    reveal_strlit("6");
    reveal_strlit("7");
    reveal_strlit("8");
    reveal_strlit("9");
}

proof fn lemma_nat_text(m: nat)
    ensures
        nat_text(m).len() > 0,
        all_digits(nat_text(m)),
        digits_value(nat_text(m)) == m,
    decreases m,
{
    if m < 10 {
        lemma_digit_text(m);
        assert(nat_text(m).drop_last() =~= Seq::<char>::empty());
        assert(nat_text(m) == digit_text(m));
        assert(nat_text(m).last() == digit_text(m)[0]);
        assert(digits_value(nat_text(m).drop_last()) == 0);
    } else {
        lemma_nat_text(m / 10);
        lemma_digit_text(m % 10);
        let t = nat_text(m);
        assert(t.drop_last() =~= nat_text(m / 10));
        assert(t.last() == digit_text(m % 10)[0]);
        vstd::arithmetic::div_mod::lemma_fundamental_div_mod(m as int, 10);
        assert(digits_value(t) == digits_value(nat_text(m / 10)) * 10 + (t.last() as int - '0' as int));
    }
}

/// The decimal text of a 64-bit number is one word, read back as that number.
proof fn lemma_int_text(n: int)
    requires
        i64::MIN <= n <= i64::MAX,
    ensures
        is_word(int_text(n)),
        int_of_word(int_text(n)) == Some(n),
{
    reveal_strlit("-");
    if n < 0 {
        lemma_nat_text((-n) as nat);
        let t = int_text(n);
        assert(t.drop_first() =~= nat_text((-n) as nat));
        assert forall|i: int| 0 <= i < t.len() implies !is_delim(#[trigger] t[i]) by {
            if i > 0 {
                assert(t[i] == nat_text((-n) as nat)[i - 1]);
                assert(is_digit(nat_text((-n) as nat)[i - 1]));
            }
        }
    } else {
        lemma_nat_text(n as nat);
        let t = int_text(n);
        assert(is_digit(t[0]));
        assert forall|i: int| 0 <= i < t.len() implies !is_delim(#[trigger] t[i]) by {
            assert(is_digit(t[i]));
        }
    }
}

/// A word run carries the lexer to its end with the run added to the pending word.
proof fn lemma_lex_word_run(s: Seq<char>, i: int, k: int, w: Seq<char>)
    requires
        0 <= i <= k <= s.len(),
        forall|j: int| i <= j < k ==> !is_delim(#[trigger] s[j]),
    ensures
        lex_from(s, i, w) == lex_from(s, k, w + s.subrange(i, k)),
    decreases k - i,
{
    if i < k {
        assert(!is_delim(s[i]));
        lemma_lex_word_run(s, i + 1, k, w.push(s[i]));
        assert(w.push(s[i]) + s.subrange(i + 1, k) =~= w + s.subrange(i, k));
    } else {
        assert(w + s.subrange(i, k) =~= w);
    }
}

/// At the end of the text or before a delimiter the pending word becomes a token.
proof fn lemma_lex_boundary(s: Seq<char>, k: int, w: Seq<char>)
    requires
        0 <= k <= s.len(),
        k == s.len() || is_delim(s[k]),
    ensures
        lex_from(s, k, w) == flush(w) + lex_from(s, k, Seq::empty()),
{
    assert(flush(Seq::<char>::empty()) =~= Seq::<TokenV>::empty());
    if k == s.len() {
        assert(flush(w) + flush(Seq::<char>::empty()) =~= flush(w));
    } else if is_space(s[k]) {
        assert(flush(w) + lex_from(s, k + 1, Seq::empty()) =~= flush(w) + (flush(Seq::<char>::empty())
            + lex_from(s, k + 1, Seq::empty())));
    } else if s[k] == '(' {
        assert(flush(w) + seq![TokenV::LParen] + lex_from(s, k + 1, Seq::empty()) =~= flush(w) + (
        flush(Seq::<char>::empty()) + seq![TokenV::LParen] + lex_from(s, k + 1, Seq::empty())));
    } else {
        assert(flush(w) + seq![TokenV::RParen] + lex_from(s, k + 1, Seq::empty()) =~= flush(w) + (
        flush(Seq::<char>::empty()) + seq![TokenV::RParen] + lex_from(s, k + 1, Seq::empty())));
    }
}

/// The tokens of a sequence with one more tree at its end.
proof fn lemma_items_tokens_push(items: Seq<Value>, x: Value)
    ensures
        items_tokens(items.push(x)) == items_tokens(items) + tokens_of(x),
    decreases items.len(),
{
    if items.len() == 0 {
        assert(items.push(x).drop_first() =~= Seq::<Value>::empty());
        assert(items_tokens(items.push(x).drop_first()) =~= Seq::<TokenV>::empty());
        assert(items.push(x)[0] == x);
        assert(items_tokens(items) =~= Seq::<TokenV>::empty());
        assert(items_tokens(items.push(x)) =~= items_tokens(items) + tokens_of(x));
    } else {
        lemma_items_tokens_push(items.drop_first(), x);
        assert(items.push(x).drop_first() =~= items.drop_first().push(x));
        assert(items_tokens(items.push(x)) =~= items_tokens(items) + tokens_of(x));
    }
}

/// The text of a tree, standing in a larger text at `i`, lexes into the tree's
/// tokens followed by what the rest of the text lexes into.
proof fn lemma_lex_tree(t: Value, s: Seq<char>, i: int)
    requires
        is_syntax(t),
        0 <= i,
        i + render_spec(t).len() <= s.len(),
        s.subrange(i, i + render_spec(t).len()) == render_spec(t),
        !(t is List) ==> (i + render_spec(t).len() == s.len() || is_delim(s[i + render_spec(t).len()])),
    ensures
        lex_from(s, i, Seq::empty()) == tokens_of(t) + lex_from(s, i + render_spec(t).len(), Seq::empty()),
    decreases t,
{
    let r = render_spec(t);
    let k = i + r.len();
    match t {
        Value::List(items) => {
            reveal_strlit("(");
            reveal_strlit(")");
            let j = join_spec(items);
            let e = i + 1 + j.len();
            assert(r == "("@ + j + ")"@);
            assert(s[i] == s.subrange(i, k)[0]);
            assert(s[i] == '(');
            assert(s[e] == s.subrange(i, k)[e - i]);
            assert(s[e] == ')');
            assert(s.subrange(i + 1, e) =~= s.subrange(i, k).subrange(1, 1 + j.len() as int));
            assert(s.subrange(i, k).subrange(1, 1 + j.len() as int) =~= j);
            lemma_lex_join(items, s, i + 1);
            assert(e + 1 == k);
            assert(lex_from(s, e, Seq::empty()) =~= seq![TokenV::RParen] + lex_from(s, k, Seq::empty()));
            assert(lex_from(s, i, Seq::empty()) =~= seq![TokenV::LParen] + lex_from(s, i + 1, Seq::empty()));
            assert(lex_from(s, i, Seq::empty()) =~= tokens_of(t) + lex_from(s, k, Seq::empty()));
        },
        Value::Number(n) => {
            lemma_int_text(n);
            assert forall|j: int| i <= j < k implies !is_delim(#[trigger] s[j]) by {
                assert(s[j] == r[j - i]);
            }
            lemma_lex_word_run(s, i, k, Seq::empty());
            assert(Seq::<char>::empty() + s.subrange(i, k) =~= r);
            lemma_lex_boundary(s, k, r);
        },
        Value::Symbol(x) => {
            assert forall|j: int| i <= j < k implies !is_delim(#[trigger] s[j]) by {
                assert(s[j] == r[j - i]);
            }
            lemma_lex_word_run(s, i, k, Seq::empty());
            assert(Seq::<char>::empty() + s.subrange(i, k) =~= r);
            lemma_lex_boundary(s, k, r);
        },
        _ => {},
    }
}

/// The text of a sequence of trees, standing at `i` before a delimiter or the
/// end, lexes into their tokens followed by what the rest lexes into.
proof fn lemma_lex_join(items: Seq<Value>, s: Seq<char>, i: int)
    requires
        forall|k: int| 0 <= k < items.len() ==> is_syntax(#[trigger] items[k]),
        0 <= i,
        i + join_spec(items).len() <= s.len(),
        s.subrange(i, i + join_spec(items).len()) == join_spec(items),
        i + join_spec(items).len() == s.len() || is_delim(s[i + join_spec(items).len()]),
    ensures
        lex_from(s, i, Seq::empty()) == items_tokens(items) + lex_from(
            s,
            i + join_spec(items).len(),
            Seq::empty(),
        ),
    decreases items,
{
    let j = join_spec(items);
    if items.len() == 0 {
        assert(items_tokens(items) =~= Seq::<TokenV>::empty());
        assert(lex_from(s, i, Seq::empty()) =~= items_tokens(items) + lex_from(s, i + j.len(), Seq::empty()));
    } else if items.len() == 1 {
        lemma_lex_tree(items[0], s, i);
        assert(items.drop_first() =~= Seq::<Value>::empty());
        assert(items_tokens(items.drop_first()) =~= Seq::<TokenV>::empty());
        assert(items_tokens(items) =~= tokens_of(items[0]));
    } else {
        reveal_strlit(" ");
        let init = items.drop_last();
        let last = items.last();
        let j1 = join_spec(init);
        let e1 = i + j1.len();
        assert(j == j1 + " "@ + render_spec(last));
        assert(s[e1] == s.subrange(i, i + j.len())[j1.len() as int]);
        assert(s[e1] == ' ');
        assert(is_space(' '));
        assert(s.subrange(i, e1) =~= s.subrange(i, i + j.len()).subrange(0, j1.len() as int));
        assert(s.subrange(i, i + j.len()).subrange(0, j1.len() as int) =~= j1);
        assert forall|k: int| 0 <= k < init.len() implies is_syntax(#[trigger] init[k]) by {
            assert(init[k] == items[k]);
        }
        lemma_lex_join(init, s, i);
        let st = e1 + 1;
        let rl = render_spec(last).len();
        assert(s.subrange(st, st + rl) =~= s.subrange(i, i + j.len()).subrange(j1.len() as int + 1, j.len() as int));
        assert(s.subrange(i, i + j.len()).subrange(j1.len() as int + 1, j.len() as int) =~= render_spec(last));
        assert(is_syntax(items[items.len() - 1]));
        lemma_lex_tree(last, s, st);
        assert(lex_from(s, e1, Seq::empty()) =~= flush(Seq::<char>::empty()) + lex_from(s, st, Seq::empty()));
        assert(flush(Seq::<char>::empty()) =~= Seq::<TokenV>::empty());
        lemma_items_tokens_push(init, last);
        assert(init.push(last) =~= items);
        assert(lex_from(s, i, Seq::empty()) =~= items_tokens(items) + lex_from(s, i + j.len(), Seq::empty()));
    }
}

/// The tokens of a sequence of trees, closed by a parenthesis, read back into
/// those trees after `acc`.
proof fn lemma_parse_spelled(items: Seq<Value>, ts: Seq<TokenV>, i: int, acc: Seq<Value>)
    requires
        forall|k: int| 0 <= k < items.len() ==> is_syntax(#[trigger] items[k]),
        0 <= i,
        i + items_tokens(items).len() + 1 <= ts.len(),
        ts.subrange(i, i + items_tokens(items).len() + 1) == items_tokens(items) + seq![TokenV::RParen],
    ensures
        parse_items(ts, i, acc) == Some((acc + items, i + items_tokens(items).len() + 1)),
    decreases items,
{
    let it = items_tokens(items);
    let e = i + it.len() + 1;
    assert(ts[i] == ts.subrange(i, e)[0]);
    if items.len() == 0 {
        assert(it =~= Seq::<TokenV>::empty());
        assert(acc + items =~= acc);
    } else {
        let x = items[0];
        let rest = items.drop_first();
        let xt = tokens_of(x);
        let rt = items_tokens(rest);
        assert(it == xt + rt);
        assert forall|k: int| 0 <= k < rest.len() implies is_syntax(#[trigger] rest[k]) by {
            assert(rest[k] == items[k + 1]);
        }
        assert(is_syntax(items[0]));
        let j1 = i + xt.len();
        assert(ts.subrange(j1, e) =~= ts.subrange(i, e).subrange(xt.len() as int, it.len() as int + 1));
        assert(ts.subrange(i, e).subrange(xt.len() as int, it.len() as int + 1) =~= rt + seq![TokenV::RParen]);
        assert(acc.push(x) + rest =~= acc + items);
        match x {
            Value::List(sub) => {
                assert(decreases_to!(items => items[0]));
                let st = items_tokens(sub);
                assert(xt == seq![TokenV::LParen] + st + seq![TokenV::RParen]);
                assert(ts[i] == TokenV::LParen);
                assert(ts.subrange(i + 1, j1) =~= ts.subrange(i, e).subrange(1, xt.len() as int));
                assert(ts.subrange(i, e).subrange(1, xt.len() as int) =~= st + seq![TokenV::RParen]);
                lemma_parse_spelled(sub, ts, i + 1, Seq::empty());
                assert(Seq::<Value>::empty() + sub =~= sub);
                lemma_parse_spelled(rest, ts, j1, acc.push(x));
            },
            Value::Number(n) => {
                assert(ts[i] == TokenV::Number(n));
                lemma_parse_spelled(rest, ts, j1, acc.push(x));
            },
            Value::Symbol(y) => {
                assert(ts[i] == TokenV::Symbol(y));
                lemma_parse_spelled(rest, ts, j1, acc.push(x));
            },
            _ => {},
        }
    }
}

/// Rendering a list that a program can spell, then lexing and parsing the
/// text, gives the list back: its text lexes into exactly its tokens.
pub proof fn lemma_render_round_trip(t: Value)
    requires
        is_syntax(t),
        t is List,
    ensures
        lex(render_spec(t)) == tokens_of(t),
        parse_tokens(lex(render_spec(t))) == Some(t),
{
    let r = render_spec(t);
    assert(r.subrange(0, r.len() as int) =~= r);
    lemma_lex_tree(t, r, 0);
    assert(lex_from(r, r.len() as int, Seq::empty()) =~= Seq::<TokenV>::empty());
    assert(lex(render_spec(t)) =~= tokens_of(t));
    let items = t->List_0;
    let ts = tokens_of(t);
    let it = items_tokens(items);
    assert(ts == seq![TokenV::LParen] + it + seq![TokenV::RParen]);
    assert(ts.subrange(1, 1 + it.len() as int + 1) =~= it + seq![TokenV::RParen]);
    lemma_parse_spelled(items, ts, 1, Seq::empty());
    assert(Seq::<Value>::empty() + items =~= items);
}

/// A token that the lexer can give: a 64-bit number, a parenthesis, or a word
/// that does not read as a number.
pub open spec fn token_ok(t: TokenV) -> bool {
    match t {
        TokenV::Number(n) => i64::MIN <= n <= i64::MAX,
        TokenV::Symbol(w) => is_word(w) && int_of_word(w).is_none(),
        _ => true,
    }
}

pub open spec fn tokens_ok(ts: Seq<TokenV>) -> bool {
    forall|k: int| 0 <= k < ts.len() ==> token_ok(#[trigger] ts[k])
}

proof fn lemma_flush_ok(w: Seq<char>)
    requires
        forall|k: int| 0 <= k < w.len() ==> !is_delim(#[trigger] w[k]),
    ensures
        tokens_ok(flush(w)),
{
    if w.len() > 0 {
        assert(flush(w)[0] == classify(w));
    }
}

proof fn lemma_lex_ok(s: Seq<char>, i: int, w: Seq<char>)
    requires
        forall|k: int| 0 <= k < w.len() ==> !is_delim(#[trigger] w[k]),
    ensures
        tokens_ok(lex_from(s, i, w)),
    decreases s.len() - i,
{
    lemma_flush_ok(w);
    lemma_flush_ok(Seq::empty());
    if i < s.len() {
        if is_delim(s[i]) {
            lemma_lex_ok(s, i + 1, Seq::empty());
            let rest = lex_from(s, i + 1, Seq::empty());
            assert(tokens_ok(flush(w) + rest));
            assert(tokens_ok(flush(w) + seq![TokenV::LParen] + rest));
            assert(tokens_ok(flush(w) + seq![TokenV::RParen] + rest));
        } else {
            let w2 = w.push(s[i]);
            assert forall|k: int| 0 <= k < w2.len() implies !is_delim(#[trigger] w2[k]) by {
                if k < w.len() {
                    assert(w2[k] == w[k]);
                }
            }
            lemma_lex_ok(s, i + 1, w2);
        }
    }
}

proof fn lemma_parse_items_syntax(ts: Seq<TokenV>, i: int, acc: Seq<Value>)
    requires
        tokens_ok(ts),
        forall|k: int| 0 <= k < acc.len() ==> is_syntax(#[trigger] acc[k]),
        parse_items(ts, i, acc) is Some,
    ensures
        ({
            let items = parse_items(ts, i, acc)->Some_0.0;
            forall|k: int| 0 <= k < items.len() ==> is_syntax(#[trigger] items[k])
        }),
    decreases ts.len() - i,
{
    assert(token_ok(ts[i]));
    match ts[i] {
        TokenV::RParen => {},
        TokenV::LParen => {
            lemma_parse_items_syntax(ts, i + 1, Seq::empty());
            let (sub, j1) = parse_items(ts, i + 1, Seq::empty())->Some_0;
            let acc2 = acc.push(Value::List(sub));
            assert forall|k: int| 0 <= k < acc2.len() implies is_syntax(#[trigger] acc2[k]) by {
                if k < acc.len() {
                    assert(acc2[k] == acc[k]);
                }
            }
            lemma_parse_items_syntax(ts, j1, acc2);
        },
        TokenV::Number(n) => {
            let acc2 = acc.push(Value::Number(n));
            assert forall|k: int| 0 <= k < acc2.len() implies is_syntax(#[trigger] acc2[k]) by {
                if k < acc.len() {
                    assert(acc2[k] == acc[k]);
                }
            }
            lemma_parse_items_syntax(ts, i + 1, acc2);
        },
        TokenV::Symbol(x) => {
            let acc2 = acc.push(Value::Symbol(x));
            assert forall|k: int| 0 <= k < acc2.len() implies is_syntax(#[trigger] acc2[k]) by {
                if k < acc.len() {
                    assert(acc2[k] == acc[k]);
                }
            }
            lemma_parse_items_syntax(ts, i + 1, acc2);
        },
    }
}

/// For every program text that parses, the text of its tree lexes and parses
/// back into an equal tree.
pub proof fn lemma_program_round_trip(p: Seq<char>)
    requires
        parse_tokens(lex(p)) is Some,
    ensures
        parse_tokens(lex(render_spec(parse_tokens(lex(p))->Some_0))) == parse_tokens(lex(p)),
{
    let ts = lex(p);
    lemma_lex_ok(p, 0, Seq::empty());
    lemma_parse_items_syntax(ts, 1, Seq::empty());
    let t = parse_tokens(ts)->Some_0;
    lemma_render_round_trip(t);
}

} // verus!
