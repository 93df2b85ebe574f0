//! Properties that relate several parts of the interpreter.

use vstd::prelude::*;

use crate::env::{Store, resolve_spec};
use crate::eval::{Fault, apply_spec, eval_args, eval_list, eval_spec, number, pure_builtin, trunc_div};
use crate::expr::{Builtin, Value};
use crate::reader::{
    all_digits, atom_spec, digits_value, int_literal, is_delimiter, is_digit, is_quote_marker, is_single, is_space,
    lemma_lex_advances, lex, read_after, read_form, read_list, run_end, string_end, true_text, false_text,
};
use crate::render::{digit_char, int_text, nat_text, render, render_items};

verus! {

/// The builtin that an arithmetic operator symbol names.
pub open spec fn arith_op(v: Value) -> Option<Builtin> {
    if v == Value::Symbol("+"@) {
        Some(Builtin::Add)
    } else if v == Value::Symbol("-"@) {
        Some(Builtin::Sub)
    } else if v == Value::Symbol("*"@) {
        Some(Builtin::Mul)
    } else if v == Value::Symbol("/"@) {
        Some(Builtin::Div)
    } else {
        None
    }
}

/// A tree built from number literals and binary `+ - * /` forms.
pub open spec fn arith_tree(v: Value) -> bool
    decreases v,
{
    match v {
        Value::Number(n) => fits_i64(n),
        Value::List(items) => items.len() == 3 && arith_op(items[0]) is Some && arith_tree(items[1])
            && arith_tree(items[2]),
        _ => false,
    }
}

pub open spec fn fits_i64(n: int) -> bool {
    i64::MIN <= n <= i64::MAX
}

/// How deep an arithmetic tree nests.
pub open spec fn arith_depth(v: Value) -> nat
    decreases v,
{
    match v {
        Value::List(items) => if items.len() == 3 {
            let l = arith_depth(items[1]);
            let r = arith_depth(items[2]);
            1 + if l > r { l } else { r }
        } else {
            1
        },
        _ => 1,
    }
}

/// One binary step on 64-bit integers.
pub open spec fn arith_step(op: Builtin, a: int, b: int) -> Result<int, Fault> {
    let r = match op {
        Builtin::Add => a + b,
        Builtin::Sub => a - b,
        Builtin::Mul => a * b,
        _ => if b == 0 { 0 } else { trunc_div(a, b) },
    };
    if op == Builtin::Div && b == 0 {
        Err(Fault::DivisionByZero)
    } else if fits_i64(r) {
        Ok(r)
    } else {
        Err(Fault::NumericRange)
    }
}

/// The value of an arithmetic tree computed on its own: the left operand,
/// then the right one, then the operator.
pub open spec fn arith_value(v: Value) -> Result<int, Fault>
    decreases v,
{
    match v {
        Value::Number(n) => Ok(n),
        Value::List(items) => if items.len() == 3 && arith_op(items[0]) is Some {
            match arith_value(items[1]) {
                Err(e) => Err(e),
                Ok(a) => match arith_value(items[2]) {
                    Err(e) => Err(e),
                    Ok(b) => arith_step(arith_op(items[0])->0, a, b),
                },
            }
        } else {
            Err(Fault::EmptyApplication)
        },
        _ => Err(Fault::EmptyApplication),
    }
}

/// The four operator symbols name their builtins as seen from frame `env`.
pub open spec fn arith_ops_bound(s: Store, env: nat) -> bool {
    &&& resolve_spec(s.scopes, env, "+"@) == Some(Value::Function(Builtin::Add))
    &&& resolve_spec(s.scopes, env, "-"@) == Some(Value::Function(Builtin::Sub))
    &&& resolve_spec(s.scopes, env, "*"@) == Some(Value::Function(Builtin::Mul))
    &&& resolve_spec(s.scopes, env, "/"@) == Some(Value::Function(Builtin::Div))
}

/// An arithmetic tree of number literals and `+ - * /` evaluates, with
/// enough depth budget, to what left-to-right binary evaluation of the same
/// tree gives, number or error, and leaves the store as it was.
pub proof fn law_arithmetic_tree(x: Value, s: Store, env: nat, fuel: nat)
    requires
        arith_tree(x),
        arith_ops_bound(s, env),
        fuel >= arith_depth(x),
    ensures
        eval_spec(x, s, env, fuel) == (s, match arith_value(x) {
            Ok(n) => Ok(Value::Number(n)),
            Err(e) => Err::<Value, Fault>(e),
        }),
    decreases x,
{
    match x {
        Value::List(items) => {
            reveal_strlit("+");
            reveal_strlit("-");
            reveal_strlit("*");
            reveal_strlit("/");
            reveal_strlit("quote");
            reveal_strlit("if");
            reveal_strlit("define");
            reveal_strlit("set!");
            reveal_strlit("lambda");
            let f = (fuel - 1) as nat;
            let op = arith_op(items[0])->0;
            assert("+"@.len() == 1 && "-"@.len() == 1 && "*"@.len() == 1 && "/"@.len() == 1);
            assert("quote"@.len() == 5 && "if"@.len() == 2);
            assert(items[0]->Symbol_0.len() == 1);
            assert(items[0] != Value::Symbol("quote"@));
            assert(items[0] != Value::Symbol("if"@));
            assert(items[0] != Value::Symbol("define"@));
            assert(items[0] != Value::Symbol("set!"@));
            assert(items[0] != Value::Symbol("lambda"@));
            assert(arith_depth(items[1]) >= 1);
            assert(f >= 1);
            assert(eval_spec(items[0], s, env, f) == (s, Ok::<Value, Fault>(Value::Function(op))));
            law_arithmetic_tree(items[1], s, env, f);
            law_arithmetic_tree(items[2], s, env, f);
            assert(eval_args(items, 3, s, env, f) == (s, Ok::<Seq<Value>, Fault>(Seq::empty())));
            match arith_value(items[1]) {
                Err(e) => {
                    assert(eval_args(items, 1, s, env, f) == (s, Err::<Seq<Value>, Fault>(e)));
                },
                Ok(a) => match arith_value(items[2]) {
                    Err(e) => {
                        assert(eval_args(items, 2, s, env, f) == (s, Err::<Seq<Value>, Fault>(e)));
                        assert(eval_args(items, 1, s, env, f) == (s, Err::<Seq<Value>, Fault>(e)));
                    },
                    Ok(b) => {
                        assert(eval_args(items, 2, s, env, f) == (s, Ok::<Seq<Value>, Fault>(seq![Value::Number(b)] + Seq::<Value>::empty())));
                        assert(eval_args(items, 1, s, env, f) == (s, Ok::<Seq<Value>, Fault>(seq![Value::Number(a)] + (seq![Value::Number(b)] + Seq::<Value>::empty()))));
                        assert(seq![Value::Number(a)] + (seq![Value::Number(b)] + Seq::<Value>::empty())
                            =~= seq![Value::Number(a), Value::Number(b)]);
                        let args = seq![Value::Number(a), Value::Number(b)];
                        assert(apply_spec(Value::Function(op), args, s, f) == (s, pure_builtin(op, args)));
                        assert(pure_builtin(op, args) == match arith_step(op, a, b) {
                            Ok(n) => Ok(Value::Number(n)),
                            Err(e) => Err::<Value, Fault>(e),
                        });
                    },
                },
            }
            assert(eval_spec(x, s, env, fuel) == eval_list(items, s, env, f));
        },
        _ => {},
    }
}

/// A symbol's text that the reader reads back as that symbol.
pub open spec fn symbol_text_ok(s: Seq<char>) -> bool {
    &&& s.len() > 0
    &&& forall|i: int| 0 <= i < s.len() ==> !is_delimiter(#[trigger] s[i])
    &&& s[0] != '\''
    &&& atom_spec(s) == Value::Symbol(s)
}

/// A string's text that, between quotes, the reader reads as one literal.
pub open spec fn string_text_ok(s: Seq<char>) -> bool {
    string_end(seq!['"'] + s + seq!['"'], 1) == Some(s.len() + 1int)
}

/// Data the printer writes and the reader reads back: symbols, numbers,
/// booleans and strings that read back as themselves, and lists of such.
pub open spec fn printable(v: Value) -> bool
    decreases v,
{
    match v {
        Value::Symbol(s) => symbol_text_ok(s),
        Value::Number(n) => fits_i64(n),
        Value::Bool(_) => true,
        Value::Str(s) => string_text_ok(s),
        Value::List(items) => all_printable(items),
        _ => false,
    }
}

pub open spec fn all_printable(items: Seq<Value>) -> bool
    decreases items,
{
    items.len() == 0 || (printable(items[0]) && all_printable(items.drop_first()))
}

/// What is left of a list's printed form once `i` elements are read.
pub open spec fn rest_text(items: Seq<Value>, i: int) -> Seq<char> {
    if i >= items.len() {
        seq![')']
    } else if i == 0 {
        render_items(items) + seq![')']
    } else {
        seq![' '] + render_items(items.subrange(i, items.len() as int)) + seq![')']
    }
}

pub open spec fn ends_token(t: Seq<char>, e: int) -> bool {
    e == t.len() || is_delimiter(t[e])
}

pub proof fn lemma_all_printable(items: Seq<Value>, i: int)
    requires
        all_printable(items),
        0 <= i < items.len(),
    ensures
        printable(items[i]),
        all_printable(items.subrange(i, items.len() as int)),
    decreases items.len(),
{
    if i > 0 {
        lemma_all_printable(items.drop_first(), i - 1);
        assert(items.drop_first().subrange(i - 1, items.len() - 1) =~= items.subrange(i, items.len() as int));
    } else {
        assert(items.subrange(0, items.len() as int) =~= items);
    }
}

pub proof fn lemma_run_end_at(t: Seq<char>, p: int, n: int)
    requires
        0 <= p,
        0 <= n,
        p + n <= t.len(),
        forall|k: int| p <= k < p + n ==> !is_delimiter(#[trigger] t[k]),
        ends_token(t, p + n),
    ensures
        run_end(t, p) == p + n,
    decreases n,
{
    if n > 0 {
        lemma_run_end_at(t, p + 1, n - 1);
    }
}

pub proof fn lemma_string_end_shift(t: Seq<char>, p: int, u: Seq<char>, k: int)
    requires
        0 <= p,
        1 <= k,
        p + u.len() <= t.len(),
        t.subrange(p, p + u.len()) == u,
        string_end(u, k) is Some,
    ensures
        string_end(t, p + k) == Some(p + string_end(u, k)->0),
    decreases u.len() - k,
{
    assert(t[p + k] == u[k]);
    if u[k] != '"' {
        if u[k] == '\\' {
            assert(t[p + k + 1] == u[k + 1]);
            lemma_string_end_shift(t, p, u, k + 2);
        } else {
            lemma_string_end_shift(t, p, u, k + 1);
        }
    }
}

pub proof fn lemma_split_text(t: Seq<char>, p: int, a: Seq<char>, b: Seq<char>)
    requires
        0 <= p,
        p + a.len() + b.len() <= t.len(),
        t.subrange(p, p + a.len() + b.len()) == a + b,
    ensures
        t.subrange(p, p + a.len()) == a,
        t.subrange(p + a.len(), p + a.len() + b.len()) == b,
        forall|k: int| 0 <= k < a.len() ==> t[p + k] == #[trigger] a[k],
        forall|k: int| 0 <= k < b.len() ==> t[p + a.len() + k] == #[trigger] b[k],
{
    let w = t.subrange(p, p + a.len() + b.len());
    assert forall|k: int| 0 <= k < a.len() implies t[p + k] == #[trigger] a[k] by {
        assert(w[k] == (a + b)[k]);
    }
    assert forall|k: int| 0 <= k < b.len() implies t[p + a.len() + k] == #[trigger] b[k] by {
        assert(w[a.len() + k] == (a + b)[a.len() + k]);
    }
    assert(t.subrange(p, p + a.len()) =~= a);
    assert(t.subrange(p + a.len(), p + a.len() + b.len()) =~= b);
}

pub proof fn lemma_digit_char(d: nat)
    requires
        d < 10,
    ensures
        digit_char(d) as int - '0' as int == d,
        is_digit(digit_char(d)),
{
}

pub proof fn lemma_nat_text(m: nat)
    ensures
        all_digits(nat_text(m)),
        digits_value(nat_text(m)) == m,
    decreases m,
{
    if m < 10 {
        lemma_digit_char(m);
        let s = nat_text(m);
        assert(s =~= seq![digit_char(m)]);
        assert(s.drop_last() =~= Seq::<char>::empty());
        assert(digits_value(s.drop_last()) == 0);
        assert(s.last() == digit_char(m));
        assert(digits_value(s) == digits_value(s.drop_last()) * 10 + (s.last() as int - '0' as int));
    } else {
        lemma_nat_text(m / 10);
        lemma_digit_char(m % 10);
        let s = nat_text(m);
        assert(s.drop_last() =~= nat_text(m / 10));
        assert(s.last() == digit_char(m % 10));
        assert(digits_value(s) == digits_value(nat_text(m / 10)) * 10 + (m % 10));
        assert((m / 10) * 10 + m % 10 == m);
        assert forall|i: int| 0 <= i < s.len() implies is_digit(#[trigger] s[i]) by {
            if i < s.len() - 1 {
                assert(s[i] == nat_text(m / 10)[i]);
            }
        }
    }
}

pub proof fn lemma_int_text(n: int)
    requires
        fits_i64(n),
    ensures
        int_literal(int_text(n)) == Some(n),
        int_text(n).len() > 0,
        int_text(n)[0] == '-' || is_digit(int_text(n)[0]),
        forall|i: int| 0 <= i < int_text(n).len() ==> !is_delimiter(#[trigger] int_text(n)[i]),
{
    let m: nat = if n < 0 { (-n) as nat } else { n as nat };
    lemma_nat_text(m);
    let s = int_text(n);
    if n < 0 {
        assert(s.subrange(1, s.len() as int) =~= nat_text(m));
        assert forall|i: int| 0 <= i < s.len() implies !is_delimiter(#[trigger] s[i]) by {
            if i > 0 {
                assert(s[i] == nat_text(m)[i - 1]);
                assert(is_digit(nat_text(m)[i - 1]));
            }
        }
    } else {
        assert forall|i: int| 0 <= i < s.len() implies !is_delimiter(#[trigger] s[i]) by {
            assert(is_digit(s[i]));
        }
    }
}

pub proof fn lemma_render_nonempty(v: Value)
    requires
        printable(v),
    ensures
        render(v).len() > 0,
{
    match v {
        Value::Number(n) => {
            lemma_int_text(n);
        },
        _ => {},
    }
}

pub proof fn lemma_rest_text_split(items: Seq<Value>, i: int)
    requires
        0 <= i < items.len(),
    ensures
        rest_text(items, i) == (if i > 0 { seq![' '] } else { Seq::<char>::empty() }) + render(items[i])
            + rest_text(items, i + 1),
{
    let n = items.len() as int;
    let sub = items.subrange(i, n);
    assert(sub[0] == items[i]);
    if i == 0 {
        assert(sub =~= items);
    }
    if i + 1 == n {
        assert(sub =~= seq![items[i]]);
        assert(render_items(sub) == render(items[i]));
    } else {
        assert(sub.drop_first() =~= items.subrange(i + 1, n));
    }
    assert(rest_text(items, i) =~= (if i > 0 { seq![' '] } else { Seq::<char>::empty() }) + render(items[i])
        + rest_text(items, i + 1));
}

/// The printed form of `v`, standing at `p` in `t` and followed by a
/// delimiter or the end, reads back as `v`.
pub proof fn lemma_read_rendered(t: Seq<char>, p: int, v: Value)
    requires
        printable(v),
        0 <= p,
        p + render(v).len() <= t.len(),
        t.subrange(p, p + render(v).len()) == render(v),
        ends_token(t, p + render(v).len()),
    ensures
        lex(t, p) matches Ok(Some((tok, q))) && tok != seq![')'] && p < q <= t.len()
            && read_after(t, tok, q) == Ok::<(Value, int), crate::expr::Error>((v, p + render(v).len())),
        read_form(t, p) == Ok::<Option<(Value, int)>, crate::expr::Error>(Some((v, p + render(v).len()))),
    decreases v, 0int,
{
    let r = render(v);
    let e = p + r.len();
    lemma_render_nonempty(v);
    assert(t[p] == r[0]);
    lemma_lex_advances(t, p);
    match v {
        Value::List(items) => {
            assert(r =~= seq!['('] + rest_text(items, 0));
            lemma_split_text(t, p, seq!['('], rest_text(items, 0));
            assert(items.subrange(0, 0) =~= Seq::<Value>::empty());
            lemma_read_rendered_items(t, p + 1, items, 0);
            assert(seq![t[p]] =~= seq!['(']);
        },
        Value::Str(s) => {
            lemma_string_end_shift(t, p, r, 1);
            assert(t.subrange(p, e) =~= r);
            assert(r[0] == '"');
            assert(r.subrange(1, r.len() - 1) =~= s);
            assert(r != true_text() && r != false_text());
            assert(!is_quote_marker(r));
            assert(r != seq!['('] && r != seq![')']);
        },
        _ => {
            let tok = r;
            assert(forall|i: int| 0 <= i < tok.len() ==> !is_delimiter(#[trigger] tok[i])) by {
                match v {
                    Value::Number(n) => {
                        lemma_int_text(n);
                    },
                    Value::Bool(b) => {},
                    _ => {},
                }
            }
            assert forall|k: int| p <= k < e implies !is_delimiter(#[trigger] t[k]) by {
                assert(t[k] == tok[k - p]);
            }
            lemma_run_end_at(t, p, r.len() as int);
            match v {
                Value::Number(n) => {
                    lemma_int_text(n);
                    assert(tok != true_text() && tok != false_text());
                },
                Value::Bool(b) => {
                    assert(tok =~= true_text() || tok =~= false_text());
                },
                _ => {},
            }
            assert(!is_single(tok[0]) || tok[0] == '\'');
            assert(tok[0] != '\'');
            assert(!is_quote_marker(tok));
            assert(tok != seq!['('] && tok != seq![')']);
        },
    }
}

/// The rest of a list's printed form, from its `i`-th element on, reads
/// back as the rest of the list.
pub proof fn lemma_read_rendered_items(t: Seq<char>, q: int, items: Seq<Value>, i: int)
    requires
        all_printable(items),
        0 <= i <= items.len(),
        0 <= q,
        q + rest_text(items, i).len() <= t.len(),
        t.subrange(q, q + rest_text(items, i).len()) == rest_text(items, i),
    ensures
        read_list(t, q, items.subrange(0, i)) == Ok::<(Value, int), crate::expr::Error>((Value::List(items), q + rest_text(items, i).len())),
    decreases items, items.len() - i + 1,
{
    let rest = rest_text(items, i);
    lemma_lex_advances(t, q);
    if i >= items.len() {
        assert(t.subrange(q, q + 1)[0] == t[q]);
        assert(t[q] == ')');
        assert(items.subrange(0, i) =~= items);
        assert(seq![t[q]] =~= seq![')']);
    } else {
        lemma_rest_text_split(items, i);
        lemma_all_printable(items, i);
        let lead: int = if i > 0 { 1 } else { 0 };
        let r = render(items[i]);
        let start = q + lead;
        let e = start + r.len();
        let next = rest_text(items, i + 1);
        let lead_text: Seq<char> = if i > 0 { seq![' '] } else { Seq::<char>::empty() };
        assert(rest =~= lead_text + (r + next));
        lemma_split_text(t, q, lead_text, r + next);
        lemma_split_text(t, start, r, next);
        assert(t[e] == next[0]);
        assert(next[0] == ')' || next[0] == ' ');
        assert(decreases_to!(items => items[i]));
        lemma_read_rendered(t, start, items[i]);
        if i > 0 {
            assert(lead_text[0] == ' ');
            assert(t[q] == ' ');
            assert(lex(t, q) == lex(t, q + 1));
        }
        lemma_render_nonempty(items[i]);
        assert(items.subrange(0, i).push(items[i]) =~= items.subrange(0, i + 1));
        lemma_read_rendered_items(t, e, items, i + 1);
    }
}

/// Printing a printable value and reading the text back gives the value,
/// and the whole text is consumed.
pub proof fn law_round_trip(v: Value)
    requires
        printable(v),
    ensures
        read_form(render(v), 0) == Ok::<Option<(Value, int)>, crate::expr::Error>(Some((v, render(v).len() as int))),
{
    let t = render(v);
    assert(t.subrange(0, t.len() as int) =~= t);
    lemma_read_rendered(t, 0, v);
}

/// The names of the special forms.
pub open spec fn is_special_name(n: Seq<char>) -> bool {
    n == "quote"@ || n == "if"@ || n == "define"@ || n == "set!"@ || n == "lambda"@
}

/// A call whose head is a symbol bound nowhere on the frame chain fails with
/// `UnboundSymbol` naming it, before any argument is evaluated, and leaves
/// the store as it was: the session goes on with the same frames.
pub proof fn law_unbound_head(items: Seq<Value>, s: Store, env: nat, fuel: nat)
    requires
        items.len() > 0,
        items[0] is Symbol,
        !is_special_name(items[0]->Symbol_0),
        resolve_spec(s.scopes, env, items[0]->Symbol_0) is None,
        fuel >= 2,
    ensures
        eval_spec(Value::List(items), s, env, fuel) == (s, Err::<Value, Fault>(Fault::UnboundSymbol(items[0]->Symbol_0))),
{
    let f = (fuel - 1) as nat;
    assert(eval_spec(items[0], s, env, f) == (s, Err::<Value, Fault>(Fault::UnboundSymbol(items[0]->Symbol_0))));
    assert(eval_spec(Value::List(items), s, env, fuel) == eval_list(items, s, env, f));
}

} // verus!
