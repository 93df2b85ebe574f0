//! Expressions, their mathematical values, and the error kinds.

use vstd::prelude::*;

verus! {

broadcast use vstd::std_specs::vec::group_vec_axioms, vstd::seq::group_seq_axioms;

/// An indivisible literal value.
#[derive(Debug)]
pub enum Atom {
    Symbol(String),
    Number(i64),
    Complex(i64, i64),
    Bool(bool),
    String(String),
}

/// The native procedures of the root frame.
#[derive(Debug, Clone, Copy, PartialEq, Eq, Structural)]
pub enum Builtin {
    Add,
    Sub,
    Mul,
    Div,
    Lt,
    Le,
    Gt,
    Ge,
    NumEq,
    Abs,
    Expt,
    Round,
    Min,
    Max,
    Equal,
    List,
    Car,
    Cdr,
    Cons,
    Append,
    Length,
    IsNull,
    IsList,
    Apply,
    MapList,
    IsNumber,
    IsSymbol,
    IsProcedure,
    Not,
    Begin,
    Print,
}

/// Any value the evaluator can produce or consume.
#[derive(Debug)]
pub enum Exp {
    Atom(Atom),
    List(Vec<Exp>),
    Function(Builtin),
    Procedure(Box<Procedure>),
}

/// A closure: parameter names, an unevaluated body and the id of the frame
/// that was current when the `lambda` form was evaluated.
#[derive(Debug)]
pub struct Procedure {
    pub parameters: Vec<String>,
    pub body: Exp,
    pub env: usize,
}

/// The kind of a value, as named in a type mismatch.
#[derive(Debug, Clone, Copy, PartialEq, Eq, Structural)]
pub enum Kind {
    Symbol,
    Number,
    Complex,
    Bool,
    String,
    List,
    Procedure,
}

#[derive(Debug, Clone, Copy, PartialEq, Eq, Structural)]
pub enum LexError {
    UnexpectedCloseParen,
    UnterminatedString,
}

#[derive(Debug, Clone, Copy, PartialEq, Eq, Structural)]
pub enum ParseError {
    UnexpectedEof,
}

#[derive(Debug)]
pub enum EvalError {
    UnboundSymbol(String),
    EmptyApplication,
    NotCallable,
    TypeMismatch(Kind, Kind),
    ArityMismatch,
    /// The result of an integer operation does not fit in 64 bits.
    NumericRange,
    DivisionByZero,
    /// The evaluation nested deeper than the depth budget it was given.
    DepthExceeded,
    /// The arena holds as many frames as it can.
    ArenaFull,
}

/// Any failure of one submission.
#[derive(Debug)]
pub enum Error {
    Lex(LexError),
    Parse(ParseError),
    Eval(EvalError),
}

/// The mathematical value of an expression: text as character sequences,
/// numbers as integers.
pub enum Value {
    Symbol(Seq<char>),
    Number(int),
    Complex(int, int),
    Bool(bool),
    Str(Seq<char>),
    List(Seq<Value>),
    Function(Builtin),
    Closure(Seq<Seq<char>>, Box<Value>, nat),
}

pub open spec fn view_atom(a: Atom) -> Value {
    match a {
        Atom::Symbol(s) => Value::Symbol(s@),
        Atom::Number(n) => Value::Number(n as int),
        Atom::Complex(re, im) => Value::Complex(re as int, im as int),
        Atom::Bool(b) => Value::Bool(b),
        Atom::String(s) => Value::Str(s@),
    }
}

pub open spec fn view_names(s: Seq<String>) -> Seq<Seq<char>> {
    s.map_values(|n: String| n@)
}

pub open spec fn view_exp(e: Exp) -> Value
    decreases e,
{
    match e {
        Exp::Atom(a) => view_atom(a),
        Exp::List(l) => Value::List(view_seq(l@)),
        Exp::Function(b) => Value::Function(b),
        Exp::Procedure(p) => Value::Closure(
            view_names(p.parameters@),
            Box::new(view_exp(p.body)),
            p.env as nat,
        ),
    }
}

pub open spec fn view_seq(s: Seq<Exp>) -> Seq<Value>
    decreases s,
{
    if s.len() == 0 {
        Seq::empty()
    } else {
        view_seq(s.drop_last()).push(view_exp(s.last()))
    }
}

pub open spec fn kind_of(v: Value) -> Kind {
    match v {
        Value::Symbol(_) => Kind::Symbol,
        Value::Number(_) => Kind::Number,
        Value::Complex(_, _) => Kind::Complex,
        Value::Bool(_) => Kind::Bool,
        Value::Str(_) => Kind::String,
        Value::List(_) => Kind::List,
        Value::Function(_) => Kind::Procedure,
        Value::Closure(_, _, _) => Kind::Procedure,
    }
}

/// Structural equality of `equal?`: atoms of the same kind and value, lists
/// of the same length with pairwise equal elements; procedures equal nothing.
pub open spec fn value_equal(a: Value, b: Value) -> bool
    decreases a,
{
    match (a, b) {
        (Value::Symbol(x), Value::Symbol(y)) => x == y,
        (Value::Number(x), Value::Number(y)) => x == y,
        (Value::Complex(x1, x2), Value::Complex(y1, y2)) => x1 == y1 && x2 == y2,
        (Value::Bool(x), Value::Bool(y)) => x == y,
        (Value::Str(x), Value::Str(y)) => x == y,
        (Value::List(x), Value::List(y)) => items_equal(x, y),
        _ => false,
    }
}

/// Sequences of the same length with pairwise equal elements.
pub open spec fn items_equal(x: Seq<Value>, y: Seq<Value>) -> bool
    decreases x,
{
    if x.len() != y.len() {
        false
    } else if x.len() == 0 {
        true
    } else {
        items_equal(x.drop_last(), y.drop_last()) && value_equal(x.last(), y.last())
    }
}

/// Whether `s` and `t` hold the same characters.
pub fn text_eq(s: &String, t: &str) -> (r: bool)
    ensures
        r == (s@ == t@),
{
    let a = s.as_str();
    let n = a.unicode_len();
    if n != t.unicode_len() {
        return false;
    }
    let mut i: usize = 0;
    while i < n
        invariant
            n == a@.len(),
            n == t@.len(),
            a@ == s@,
            i <= n,
            forall|j: int| 0 <= j < i ==> a@[j] == t@[j],
        decreases n - i,
    {
        if a.get_char(i) != t.get_char(i) {
            return false;
        }
        i = i + 1;
    }
    assert(a@ =~= t@);
    true
}

/// A copy of a list of names.
pub fn copy_names(v: &Vec<String>) -> (r: Vec<String>)
    ensures
        r@ == v@,
{
    let mut r: Vec<String> = Vec::new();
    let mut i: usize = 0;
    while i < v.len()
        invariant
            i <= v@.len(),
            r@ == v@.subrange(0, i as int),
        decreases v@.len() - i,
    {
        r.push(v[i].clone());
        i = i + 1;
        assert(r@ =~= v@.subrange(0, i as int));
    }
    assert(r@ =~= v@);
    r
}

pub proof fn lemma_view_seq_push(s: Seq<Exp>, e: Exp)
    ensures
        view_seq(s.push(e)) == view_seq(s).push(view_exp(e)),
{
    assert(s.push(e).drop_last() =~= s);
}

pub proof fn lemma_view_seq_len(s: Seq<Exp>)
    ensures
        view_seq(s).len() == s.len(),
    decreases s.len(),
{
    if s.len() > 0 {
        lemma_view_seq_len(s.drop_last());
    }
}

pub proof fn lemma_view_seq_index(s: Seq<Exp>, i: int)
    requires
        0 <= i < s.len(),
    ensures
        view_seq(s).len() == s.len(),
        view_seq(s)[i] == view_exp(s[i]),
    decreases s.len(),
{
    lemma_view_seq_len(s);
    if i < s.len() - 1 {
        lemma_view_seq_index(s.drop_last(), i);
    }
}

/// The views of a whole sequence, element by element.
pub proof fn lemma_view_seq_all(s: Seq<Exp>)
    ensures
        view_seq(s).len() == s.len(),
        forall|i: int| 0 <= i < s.len() ==> #[trigger] view_seq(s)[i] == view_exp(s[i]),
{
    lemma_view_seq_len(s);
    assert forall|i: int| 0 <= i < s.len() implies #[trigger] view_seq(s)[i] == view_exp(s[i]) by {
        lemma_view_seq_index(s, i);
    }
}

impl Atom {
    pub fn duplicate(&self) -> (r: Atom)
        ensures
            view_atom(r) == view_atom(*self),
    {
        match self {
            Atom::Symbol(s) => Atom::Symbol(s.clone()),
            Atom::Number(n) => Atom::Number(*n),
            Atom::Complex(re, im) => Atom::Complex(*re, *im),
            Atom::Bool(b) => Atom::Bool(*b),
            Atom::String(s) => Atom::String(s.clone()),
        }
    }
}

impl Exp {
    pub fn num(number: i64) -> (r: Exp)
        ensures
            view_exp(r) == Value::Number(number as int),
    {
        Exp::Atom(Atom::Number(number))
    }

    pub fn bool(b: bool) -> (r: Exp)
        ensures
            view_exp(r) == Value::Bool(b),
    {
        Exp::Atom(Atom::Bool(b))
    }

    /// A deep copy.
    pub fn duplicate(&self) -> (r: Exp)
        ensures
            view_exp(r) == view_exp(*self),
        decreases self,
    {
        match self {
            Exp::Atom(a) => Exp::Atom(a.duplicate()),
            Exp::List(l) => Exp::List(copy_list(l)),
            Exp::Function(b) => Exp::Function(*b),
            Exp::Procedure(p) => {
                let body = p.body.duplicate();
                let parameters = copy_names(&p.parameters);
                Exp::Procedure(Box::new(Procedure { parameters, body, env: p.env }))
            },
        }
    }

    /// Whether this is the symbol `name`.
    pub fn is_symbol(&self, name: &str) -> (r: bool)
        ensures
            r == (view_exp(*self) == Value::Symbol(name@)),
    {
        match self {
            Exp::Atom(Atom::Symbol(s)) => text_eq(s, name),
            _ => false,
        }
    }

    pub fn kind(&self) -> (r: Kind)
        ensures
            r == kind_of(view_exp(*self)),
    {
        match self {
            Exp::Atom(Atom::Symbol(_)) => Kind::Symbol,
            Exp::Atom(Atom::Number(_)) => Kind::Number,
            Exp::Atom(Atom::Complex(_, _)) => Kind::Complex,
            Exp::Atom(Atom::Bool(_)) => Kind::Bool,
            Exp::Atom(Atom::String(_)) => Kind::String,
            Exp::List(_) => Kind::List,
            Exp::Function(_) => Kind::Procedure,
            Exp::Procedure(_) => Kind::Procedure,
        }
    }
}

/// A deep copy of a list of expressions.
pub fn copy_list(l: &Vec<Exp>) -> (r: Vec<Exp>)
    ensures
        view_seq(r@) == view_seq(l@),
        r@.len() == l@.len(),
    decreases l,
{
    let mut r: Vec<Exp> = Vec::new();
    let mut i: usize = 0;
    while i < l.len()
        invariant
            i <= l@.len(),
            r@.len() == i,
            view_seq(r@) == view_seq(l@.subrange(0, i as int)),
        decreases l@.len() - i,
    {
        proof {
            assert(decreases_to!(l => l@[i as int]));
        }
        let e = l[i].duplicate();
        proof {
            lemma_view_seq_push(r@, e);
            lemma_view_seq_push(l@.subrange(0, i as int), l@[i as int]);
            assert(l@.subrange(0, i as int).push(l@[i as int]) =~= l@.subrange(0, i + 1));
        }
        r.push(e);
        i = i + 1;
    }
    assert(l@.subrange(0, l@.len() as int) =~= l@);
    r
}

} // verus!
