//! The printer: the text of a value.

use vstd::prelude::*;

use crate::expr::{Atom, Exp, Value, view_exp, view_seq, lemma_view_seq_all};
use crate::reader::{chars_of, string_of};

verus! {

broadcast use vstd::std_specs::vec::group_vec_axioms, vstd::seq::group_seq_axioms;

pub open spec fn digit_char(d: nat) -> char {
    if d == 0 { '0' } else if d == 1 { '1' } else if d == 2 { '2' } else if d == 3 { '3' } else if d == 4 { '4' }
    else if d == 5 { '5' } else if d == 6 { '6' } else if d == 7 { '7' } else if d == 8 { '8' } else { '9' }
}

/// The decimal digits of `n`, without leading zeros.
pub open spec fn nat_text(n: nat) -> Seq<char>
    decreases n,
{
    if n < 10 {
        seq![digit_char(n)]
    } else {
        nat_text(n / 10).push(digit_char(n % 10))
    }
}

pub open spec fn int_text(n: int) -> Seq<char> {
    if n < 0 {
        seq!['-'] + nat_text((-n) as nat)
    } else {
        nat_text(n as nat)
    }
}

/// A complex number with integer parts as num_complex displays it: the real
/// part, the sign of the imaginary part, its magnitude, then `i`.
pub open spec fn complex_text(re: int, im: int) -> Seq<char> {
    int_text(re) + seq![if im < 0 { '-' } else { '+' }] + nat_text(if im < 0 { (-im) as nat } else { im as nat })
        + seq!['i']
}

/// The printed form of a value.
pub open spec fn render(v: Value) -> Seq<char>
    decreases v,
{
    match v {
        Value::Symbol(s) => s,
        Value::Number(n) => int_text(n),
        Value::Complex(re, im) => complex_text(re, im),
        Value::Bool(b) => if b { seq!['#', 't'] } else { seq!['#', 'f'] },
        Value::Str(s) => seq!['"'] + s + seq!['"'],
        Value::List(items) => seq!['('] + render_items(items) + seq![')'],
        Value::Function(_) => "<function>"@,
        Value::Closure(_, _, _) => "<procedure>"@,
    }
}

/// The printed forms of `items`, separated by single spaces.
pub open spec fn render_items(items: Seq<Value>) -> Seq<char>
    decreases items,
{
    if items.len() == 0 {
        Seq::empty()
    } else if items.len() == 1 {
        render(items[0])
    } else {
        render(items[0]) + seq![' '] + render_items(items.drop_first())
    }
}

pub proof fn lemma_render_items_push(items: Seq<Value>, x: Value)
    requires
        items.len() > 0,
    ensures
        render_items(items.push(x)) == render_items(items) + seq![' '] + render(x),
    decreases items.len(),
{
    assert(items.push(x).drop_first() =~= items.drop_first().push(x));
    if items.len() == 1 {
        assert(items.push(x).drop_first() =~= seq![x]);
        assert(render_items(seq![x]) == render(x));
    } else {
        lemma_render_items_push(items.drop_first(), x);
        assert(render_items(items.push(x)) =~= render_items(items) + seq![' '] + render(x));
    }
}

fn push_str(out: &mut Vec<char>, s: &str)
    ensures
        final(out)@ == old(out)@ + s@,
{
    let cs = chars_of(s);
    let mut i: usize = 0;
    while i < cs.len()
        invariant
            i <= cs@.len(),
            cs@ == s@,
            out@ == old(out)@ + cs@.subrange(0, i as int),
        decreases cs@.len() - i,
    {
        out.push(cs[i]);
        i = i + 1;
        assert(out@ =~= old(out)@ + cs@.subrange(0, i as int));
    }
    assert(cs@.subrange(0, cs@.len() as int) =~= cs@);
}

fn digit_of(d: u64) -> (c: char)
    requires
        d < 10,
    ensures
        c == digit_char(d as nat),
{
    if d == 0 { '0' } else if d == 1 { '1' } else if d == 2 { '2' } else if d == 3 { '3' } else if d == 4 { '4' }
    else if d == 5 { '5' } else if d == 6 { '6' } else if d == 7 { '7' } else if d == 8 { '8' } else { '9' }
}

fn push_nat(out: &mut Vec<char>, n: u64)
    ensures
        final(out)@ == old(out)@ + nat_text(n as nat),
    decreases n,
{
    if n < 10 {
        out.push(digit_of(n));
        assert(out@ =~= old(out)@ + nat_text(n as nat));
    } else {
        push_nat(out, n / 10);
        out.push(digit_of(n % 10));
        assert(out@ =~= old(out)@ + nat_text(n as nat));
    }
}

fn push_int(out: &mut Vec<char>, n: i64)
    ensures
        final(out)@ == old(out)@ + int_text(n as int),
{
    if n < 0 {
        out.push('-');
        let m: u64 = (-(n as i128)) as u64;
        push_nat(out, m);
        assert(out@ =~= old(out)@ + int_text(n as int));
    } else {
        push_nat(out, n as u64);
    }
}

fn render_into(out: &mut Vec<char>, x: &Exp)
    ensures
        final(out)@ == old(out)@ + render(view_exp(*x)),
    decreases x,
{
    match x {
        Exp::Atom(Atom::Symbol(s)) => push_str(out, s.as_str()),
        Exp::Atom(Atom::Number(n)) => push_int(out, *n),
        Exp::Atom(Atom::Complex(re, im)) => {
            push_int(out, *re);
            out.push(if *im < 0 { '-' } else { '+' });
            let m: u64 = if *im < 0 { (-(*im as i128)) as u64 } else { *im as u64 };
            push_nat(out, m);
            out.push('i');
            assert(out@ =~= old(out)@ + render(view_exp(*x)));
        },
        Exp::Atom(Atom::Bool(b)) => {
            out.push('#');
            out.push(if *b { 't' } else { 'f' });
            assert(out@ =~= old(out)@ + render(view_exp(*x)));
        },
        Exp::Atom(Atom::String(s)) => {
            out.push('"');
            push_str(out, s.as_str());
            out.push('"');
            assert(out@ =~= old(out)@ + render(view_exp(*x)));
        },
        Exp::List(items) => {
            out.push('(');
            render_list(out, items);
            out.push(')');
            assert(out@ =~= old(out)@ + render(view_exp(*x)));
        },
        Exp::Function(_) => push_str(out, "<function>"),
        Exp::Procedure(_) => push_str(out, "<procedure>"),
    }
}

fn render_list(out: &mut Vec<char>, items: &Vec<Exp>)
    ensures
        final(out)@ == old(out)@ + render_items(view_seq(items@)),
    decreases items,
{
    let ghost start = out@;
    proof {
        lemma_view_seq_all(items@);
    }
    let mut i: usize = 0;
    while i < items.len()
        invariant
            i <= items@.len(),
            start == old(out)@,
            view_seq(items@).len() == items@.len(),
            forall|k: int| 0 <= k < items@.len() ==> #[trigger] view_seq(items@)[k] == view_exp(items@[k]),
            out@ == start + render_items(view_seq(items@).subrange(0, i as int)),
        decreases items@.len() - i,
    {
        proof {
            assert(decreases_to!(items => items@[i as int]));
        }
        if i > 0 {
            out.push(' ');
        }
        render_into(out, &items[i]);
        proof {
            let vs = view_seq(items@);
            let pre = vs.subrange(0, i as int);
            let next = vs.subrange(0, i + 1);
            assert(next =~= pre.push(vs[i as int]));
            if i > 0 {
                lemma_render_items_push(pre, vs[i as int]);
            } else {
                assert(next =~= seq![vs[0]]);
            }
            assert(out@ =~= start + render_items(next));
        }
        i = i + 1;
    }
    assert(view_seq(items@).subrange(0, items@.len() as int) =~= view_seq(items@));
}

/// The printed forms of `items`, separated by single spaces.
pub fn render_args(items: &Vec<Exp>) -> (r: String)
    ensures
        r@ == render_items(view_seq(items@)),
{
    let mut out: Vec<char> = Vec::new();
    render_list(&mut out, items);
    assert(out@ =~= render_items(view_seq(items@)));
    string_of(&out)
}

/// The printed form of an expression.
pub fn to_string(x: &Exp) -> (r: String)
    ensures
        r@ == render(view_exp(*x)),
{
    let mut out: Vec<char> = Vec::new();
    render_into(&mut out, x);
    assert(out@ =~= render(view_exp(*x)));
    string_of(&out)
}

} // verus!
