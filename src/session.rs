//! The root frame of builtins and the evaluation of one submitted line.

use vstd::prelude::*;

use crate::env::{Env, EnvTree, Store};
use crate::eval::{Fault, eval, eval_spec};
use crate::builtins::fault_of;
use crate::expr::{Builtin, Error, EvalError, LexError, ParseError, Value, view_exp};
use crate::reader::{InPort, chars_of, read_form, lemma_read_form_ends};
use crate::render::{render, to_string};

verus! {

broadcast use vstd::std_specs::vec::group_vec_axioms, vstd::seq::group_seq_axioms;

/// The bindings of the root frame: each builtin under its name.
pub open spec fn standard_vars() -> Map<Seq<char>, Value> {
    Map::<Seq<char>, Value>::empty()
        .insert("+"@, Value::Function(Builtin::Add))
        .insert("-"@, Value::Function(Builtin::Sub))
        .insert("*"@, Value::Function(Builtin::Mul))
        .insert("/"@, Value::Function(Builtin::Div))
        .insert("<="@, Value::Function(Builtin::Le))
        .insert(">="@, Value::Function(Builtin::Ge))
        .insert("<"@, Value::Function(Builtin::Lt))
        .insert(">"@, Value::Function(Builtin::Gt))
        .insert("abs"@, Value::Function(Builtin::Abs))
        .insert("append"@, Value::Function(Builtin::Append))
        .insert("apply"@, Value::Function(Builtin::Apply))
        .insert("begin"@, Value::Function(Builtin::Begin))
        .insert("car"@, Value::Function(Builtin::Car))
        .insert("cdr"@, Value::Function(Builtin::Cdr))
        .insert("cons"@, Value::Function(Builtin::Cons))
        .insert("expt"@, Value::Function(Builtin::Expt))
        .insert("="@, Value::Function(Builtin::NumEq))
        .insert("equal?"@, Value::Function(Builtin::Equal))
        .insert("length"@, Value::Function(Builtin::Length))
        .insert("list"@, Value::Function(Builtin::List))
        .insert("list?"@, Value::Function(Builtin::IsList))
        .insert("map"@, Value::Function(Builtin::MapList))
        .insert("max"@, Value::Function(Builtin::Max))
        .insert("min"@, Value::Function(Builtin::Min))
        .insert("not"@, Value::Function(Builtin::Not))
        .insert("null?"@, Value::Function(Builtin::IsNull))
        .insert("number?"@, Value::Function(Builtin::IsNumber))
        .insert("print"@, Value::Function(Builtin::Print))
        .insert("procedure?"@, Value::Function(Builtin::IsProcedure))
        .insert("round"@, Value::Function(Builtin::Round))
        .insert("symbol?"@, Value::Function(Builtin::IsSymbol))
}

/// A frame holding the builtin library.
pub fn standard_env() -> (r: Env)
    ensures
        r.wf(),
        r.outer is None,
        r.view().vars == standard_vars(),
{
    let mut result = Env::empty(None);
    result.insert_fn(String::from_str("+"), Builtin::Add);
    result.insert_fn(String::from_str("-"), Builtin::Sub);
    result.insert_fn(String::from_str("*"), Builtin::Mul);
    result.insert_fn(String::from_str("/"), Builtin::Div);
    result.insert_fn(String::from_str("<="), Builtin::Le);
    result.insert_fn(String::from_str(">="), Builtin::Ge);
    result.insert_fn(String::from_str("<"), Builtin::Lt);
    result.insert_fn(String::from_str(">"), Builtin::Gt);
    result.insert_fn(String::from_str("abs"), Builtin::Abs);
    result.insert_fn(String::from_str("append"), Builtin::Append);
    result.insert_fn(String::from_str("apply"), Builtin::Apply);
    result.insert_fn(String::from_str("begin"), Builtin::Begin);
    result.insert_fn(String::from_str("car"), Builtin::Car);
    result.insert_fn(String::from_str("cdr"), Builtin::Cdr);
    result.insert_fn(String::from_str("cons"), Builtin::Cons);
    result.insert_fn(String::from_str("expt"), Builtin::Expt);
    result.insert_fn(String::from_str("="), Builtin::NumEq);
    result.insert_fn(String::from_str("equal?"), Builtin::Equal);
    result.insert_fn(String::from_str("length"), Builtin::Length);
    result.insert_fn(String::from_str("list"), Builtin::List);
    result.insert_fn(String::from_str("list?"), Builtin::IsList);
    result.insert_fn(String::from_str("map"), Builtin::MapList);
    result.insert_fn(String::from_str("max"), Builtin::Max);
    result.insert_fn(String::from_str("min"), Builtin::Min);
    result.insert_fn(String::from_str("not"), Builtin::Not);
    result.insert_fn(String::from_str("null?"), Builtin::IsNull);
    result.insert_fn(String::from_str("number?"), Builtin::IsNumber);
    result.insert_fn(String::from_str("print"), Builtin::Print);
    result.insert_fn(String::from_str("procedure?"), Builtin::IsProcedure);
    result.insert_fn(String::from_str("round"), Builtin::Round);
    result.insert_fn(String::from_str("symbol?"), Builtin::IsSymbol);
    result
}

impl EnvTree {
    /// An arena whose only frame, id 0, is the root with the builtins.
    pub fn standard() -> (r: EnvTree)
        ensures
            r.wf(),
            r.view().scopes.len() == 1,
            r.view().scopes[0].outer is None,
            r.view().scopes[0].vars == standard_vars(),
            r.view().printed.len() == 0,
    {
        let mut r = EnvTree::empty();
        Env::insert_into_frame(&mut r, standard_env());
        r
    }
}

/// The model of a failure of one form.
pub enum Failure {
    Lex(LexError),
    Parse(ParseError),
    Eval(Fault),
}

pub open spec fn failure_of(e: Error) -> Failure {
    match e {
        Error::Lex(l) => Failure::Lex(l),
        Error::Parse(p) => Failure::Parse(p),
        Error::Eval(v) => Failure::Eval(fault_of(v)),
    }
}

/// The forms of `t` from `p` on, each read and then evaluated in the root
/// frame: the store afterwards and, for each form, its printed result. The
/// first failure ends the submission.
pub open spec fn run_spec(t: Seq<char>, p: int, s: Store, fuel: nat) -> (Store, Seq<Result<Seq<char>, Failure>>)
    decreases t.len() - p,
{
    match read_form(t, p) {
        Err(e) => (s, seq![Err(failure_of(e))]),
        Ok(None) => (s, Seq::empty()),
        Ok(Some((v, q))) => if p < q <= t.len() {
            let (s1, r) = eval_spec(v, s, 0, fuel);
            match r {
                Err(f) => (s1, seq![Err(Failure::Eval(f))]),
                Ok(val) => {
                    let (s2, rest) = run_spec(t, q, s1, fuel);
                    (s2, seq![Ok(render(val))] + rest)
                },
            }
        } else {
            (s, Seq::empty())
        },
    }
}

pub open spec fn view_result(x: Result<String, Error>) -> Result<Seq<char>, Failure> {
    match x {
        Ok(s) => Ok(s@),
        Err(e) => Err(failure_of(e)),
    }
}

pub open spec fn view_results(r: Seq<Result<String, Error>>) -> Seq<Result<Seq<char>, Failure>> {
    r.map_values(|x: Result<String, Error>| view_result(x))
}

/// What one evaluated form shows: its printed value, or its failure.
pub open spec fn form_result(r: Result<Value, Fault>) -> Result<Seq<char>, Failure> {
    match r {
        Ok(v) => Ok(render(v)),
        Err(f) => Err(Failure::Eval(f)),
    }
}

/// Reads the next form from `port` and evaluates it in the root frame;
/// `None` where only whitespace and comments are left. After a reader
/// failure neither the port nor the arena moves.
pub fn run_form(port: &mut InPort, env_tree: &mut EnvTree, fuel: u64) -> (r: Option<Result<String, Error>>)
    requires
        old(env_tree).wf(),
        old(env_tree).keys@.len() > 0,
        old(port).pos <= old(port).text@.len(),
    ensures
        final(env_tree).wf(),
        final(env_tree).keys@.len() >= old(env_tree).keys@.len(),
        final(port).text == old(port).text,
        final(port).pos <= final(port).text@.len(),
        match read_form(old(port).text@, old(port).pos as int) {
            Err(e) => r == Some(Err::<String, Error>(e)) && final(port).pos == old(port).pos
                && final(env_tree).view() == old(env_tree).view(),
            Ok(None) => r is None && final(port).pos == old(port).pos && final(env_tree).view() == old(env_tree).view(),
            Ok(Some((v, q))) => r matches Some(x) && final(port).pos == q
                && final(env_tree).view() == eval_spec(v, old(env_tree).view(), 0, fuel as nat).0
                && view_result(x) == form_result(eval_spec(v, old(env_tree).view(), 0, fuel as nat).1),
        },
{
    match port.read() {
        Err(e) => Some(Err(e)),
        Ok(None) => None,
        Ok(Some(x)) => match eval(&x, env_tree, 0, fuel) {
            Err(e) => Some(Err(Error::Eval(e))),
            Ok(v) => Some(Ok(to_string(&v))),
        },
    }
}

fn run_from(port: &mut InPort, env_tree: &mut EnvTree, fuel: u64) -> (r: Vec<Result<String, Error>>)
    requires
        old(env_tree).wf(),
        old(env_tree).keys@.len() > 0,
        old(port).pos <= old(port).text@.len(),
    ensures
        final(env_tree).wf(),
        final(env_tree).keys@.len() >= old(env_tree).keys@.len(),
        (final(env_tree).view(), view_results(r@)) == run_spec(old(port).text@, old(port).pos as int, old(env_tree).view(), fuel as nat),
    decreases old(port).text@.len() - old(port).pos,
{
    let mut out: Vec<Result<String, Error>> = Vec::new();
    proof {
        lemma_read_form_ends(port.text@, port.pos as int);
    }
    match run_form(port, env_tree, fuel) {
        None => {
            assert(view_results(out@) =~= Seq::<Result<Seq<char>, Failure>>::empty());
        },
        Some(Err(e)) => {
            out.push(Err(e));
            assert(view_results(out@) =~= seq![view_result(Err::<String, Error>(e))]);
        },
        Some(Ok(text)) => {
            let rest = run_from(port, env_tree, fuel);
            out.push(Ok(text));
            let mut i: usize = 0;
            while i < rest.len()
                invariant
                    i <= rest@.len(),
                    out@.len() == i + 1,
                    view_results(out@) == seq![Ok(text@)] + view_results(rest@).subrange(0, i as int),
                decreases rest@.len() - i,
            {
                let item = match &rest[i] {
                    Ok(s) => Ok(s.clone()),
                    Err(e) => Err(copy_error(e)),
                };
                assert(view_result(item) == view_result(rest@[i as int]));
                let ghost prev = out@;
                out.push(item);
                assert(view_results(out@) =~= view_results(prev).push(view_result(item)));
                assert(view_results(rest@).subrange(0, i + 1) =~= view_results(rest@).subrange(0, i as int).push(view_result(rest@[i as int])));
                i = i + 1;
                assert(view_results(out@) =~= seq![Ok(text@)] + view_results(rest@).subrange(0, i as int));
            }
            assert(view_results(rest@).subrange(0, rest@.len() as int) =~= view_results(rest@));
        },
    }
    out
}

fn copy_error(e: &Error) -> (r: Error)
    ensures
        failure_of(r) == failure_of(*e),
{
    match e {
        Error::Lex(l) => Error::Lex(*l),
        Error::Parse(p) => Error::Parse(*p),
        Error::Eval(v) => Error::Eval(match v {
            EvalError::UnboundSymbol(s) => EvalError::UnboundSymbol(s.clone()),
            EvalError::EmptyApplication => EvalError::EmptyApplication,
            EvalError::NotCallable => EvalError::NotCallable,
            EvalError::TypeMismatch(a, b) => EvalError::TypeMismatch(*a, *b),
            EvalError::ArityMismatch => EvalError::ArityMismatch,
            EvalError::NumericRange => EvalError::NumericRange,
            EvalError::DivisionByZero => EvalError::DivisionByZero,
            EvalError::DepthExceeded => EvalError::DepthExceeded,
            EvalError::ArenaFull => EvalError::ArenaFull,
        }),
    }
}

/// Reads and evaluates the forms of one submitted line in the root frame,
/// in order, nesting at most `fuel` deep: for each form its printed result,
/// ending at the first failure.
pub fn run_line(env_tree: &mut EnvTree, line: &str, fuel: u64) -> (r: Vec<Result<String, Error>>)
    requires
        old(env_tree).wf(),
        old(env_tree).keys@.len() > 0,
    ensures
        final(env_tree).wf(),
        final(env_tree).keys@.len() >= old(env_tree).keys@.len(),
        (final(env_tree).view(), view_results(r@)) == run_spec(line@, 0, old(env_tree).view(), fuel as nat),
{
    let mut port = InPort::new(line);
    run_from(&mut port, env_tree, fuel)
}

} // verus!
